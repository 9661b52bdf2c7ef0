use lib::os::fs::{Item, Path};
use lib::search::{is_ignored, pattern_parts, search_step, SearchStep};

fn strings(v: &[&str]) -> Vec<String> {
    v.iter().map(|s| s.to_string()).collect()
}

#[test]
fn pattern_parts_split_at_slashes() {
    assert_eq!(pattern_parts(r"src\**/*.rs"), strings(&["src", "**", "*.rs"]));
    assert_eq!(pattern_parts("a.txt"), strings(&["a.txt"]));
    assert_eq!(pattern_parts("/x/"), strings(&["", "x", ""]));
}

#[test]
fn step_with_no_part_left() {
    let parts = strings(&["a"]);
    let s = search_step(&parts, 1, true, &[]);
    assert_eq!(s.len(), 1);
    assert!(matches!(&s[0], SearchStep::Found(None)));
    assert!(search_step(&parts, 1, false, &[]).is_empty());
}

#[test]
fn step_on_any_levels() {
    let parts = strings(&["**", "x"]);
    let items = vec![
        Item::Directory("a".to_string()),
        Item::File("b".to_string()),
        Item::Directory("c".to_string()),
    ];
    let s = search_step(&parts, 0, false, &items);
    assert_eq!(s.len(), 3);
    assert!(matches!(&s[0], SearchStep::Descend(None, 1)));
    assert!(matches!(&s[1], SearchStep::Descend(Some(n), 0) if n == "a"));
    assert!(matches!(&s[2], SearchStep::Descend(Some(n), 0) if n == "c"));
}

#[test]
fn step_on_a_named_part() {
    let parts = strings(&["src", "main.rs"]);
    let items = vec![
        Item::File("src".to_string()),
        Item::Directory("src".to_string()),
        Item::Directory("tests".to_string()),
    ];
    let s = search_step(&parts, 0, false, &items);
    assert_eq!(s.len(), 1);
    assert!(matches!(&s[0], SearchStep::Descend(Some(n), 1) if n == "src"));

    let items = vec![Item::File("main.rs".to_string()), Item::Directory("main.rs".to_string())];
    let s = search_step(&parts, 1, false, &items);
    assert_eq!(s.len(), 1);
    assert!(matches!(&s[0], SearchStep::Found(Some(n)) if n == "main.rs"));
}

#[test]
fn step_takes_the_item_name_as_the_pattern() {
    let parts = strings(&["*.rs"]);
    let items = vec![Item::File("lib.rs".to_string()), Item::File("*.rs".to_string())];
    let s = search_step(&parts, 0, false, &items);
    assert_eq!(s.len(), 1);
    assert!(matches!(&s[0], SearchStep::Found(Some(n)) if n == "*.rs"));
    let items = vec![Item::File("?.rs".to_string())];
    assert_eq!(search_step(&strings(&["a.rs"]), 0, false, &items).len(), 1);
}

#[test]
fn ignored_paths() {
    let current = Path::from_full_path(r"C:\repo");
    let ignore = strings(&[".git/*"]);
    assert!(!is_ignored(&Path::from_full_path(r"C:\repo\.git\HEAD"), &current, &ignore));
    assert!(is_ignored(&Path::from_full_path(r"C:\repo\.git\*"), &current, &ignore));
    assert!(is_ignored(&Path::from_full_path(r"C:\repo\*"), &current, &strings(&["x", "anything"])));
    assert!(!is_ignored(&Path::from_full_path(r"C:\repo\a"), &current, &[]));
}
