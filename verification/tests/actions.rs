use lib::actions::{add, commit, init_error, AddedFile};
use lib::os::error::ErrorCode;
use lib::indx::{read_index, write_index, IndexFile};
use lib::os::fs::FileInfo;
use lib::zlib;

fn info(size: u32) -> FileInfo {
    FileInfo { size, ctime_sec: 10, ctime_nsec: 11, mtime_sec: 12, mtime_nsec: 13 }
}

fn added(name: &str, seed: u8) -> AddedFile {
    AddedFile { name: name.to_string(), sha1: [seed; 20], info: info(seed as u32) }
}

#[test]
fn add_needs_a_pattern() {
    assert_eq!(add(&[], Vec::new(), Vec::new()).err().unwrap(), "No file patterns to add to index");
}

#[test]
fn add_appends_entries_and_sorts() {
    let existing = read_index(&write_index(vec![])).unwrap();
    let bytes = add(&["*".to_string()], existing, vec![added("z.txt", 1), added("a.txt", 2)]).unwrap();
    let entries = read_index(&bytes).unwrap();
    assert_eq!(entries.len(), 2);
    assert_eq!(entries[0].name, "a.txt");
    assert_eq!(entries[0].sha1, [2u8; 20]);
    assert_eq!(entries[0].mode, 0o100644);
    assert_eq!(entries[0].size, 2);
    assert_eq!((entries[0].ctime_sec, entries[0].ctime_nsec), (10, 11));
    assert_eq!((entries[0].mtime_sec, entries[0].mtime_nsec), (12, 13));
    assert_eq!((entries[0].dev, entries[0].ino, entries[0].uid, entries[0].gid), (0, 0, 0, 0));
    assert_eq!(entries[1].name, "z.txt");
}

#[test]
fn add_keeps_an_entry_added_twice() {
    let bytes = add(&["x".to_string()], Vec::new(), vec![added("x", 1), added("x", 2)]).unwrap();
    let entries = read_index(&bytes).unwrap();
    assert_eq!(entries.len(), 2);
    assert_eq!(entries[0].sha1, [1u8; 20]);
    assert_eq!(entries[1].sha1, [2u8; 20]);
}

#[test]
fn commit_needs_a_message() {
    assert_eq!(
        commit(None, &Vec::new(), None, 0, 0, 0, 0).err().unwrap(),
        "the commit requires a message, specify it using the -m or --message flag"
    );
}

#[test]
fn commit_writes_trees_and_commit() {
    let entries: Vec<IndexFile> = read_index(
        &add(&["*".to_string()], Vec::new(), vec![added("src/main.rs", 1), added("README.md", 2)]).unwrap(),
    )
    .unwrap();
    let msg = "initial".to_string();
    let c = commit(Some(&msg), &entries, None, 1_700_000_000, 0, 1_700_000_000, 0).unwrap();
    assert_eq!(c.trees.len(), 2);
    let mut raw = Vec::new();
    zlib::decompress(c.commit.data.clone(), &mut raw);
    let text = String::from_utf8(raw).unwrap();
    let tree_line = format!("tree {}\n", c.trees[1].hash.hex());
    assert!(text.contains(&tree_line));
    assert!(text.ends_with("\n\ninitial\n"));
    assert!(text.contains("author temp_name <example@gmail.com> 1700000000 +0000\n"));
}

#[test]
fn init_error_messages() {
    assert_eq!(init_error(&ErrorCode::new(183)), "git already initialized in this directory");
    assert_eq!(
        init_error(&ErrorCode::new(5)),
        "an unexpected error occurred while creating the git directory"
    );
}
