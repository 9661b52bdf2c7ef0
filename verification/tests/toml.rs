use lib::strmap::StrMap;
use lib::toml::{toml_text, Toml};

#[test]
fn toml_sections_closed_by_a_header() {
    let t = Toml::from_str("[core]\n\tbare = false\nname=x\n[user]\nname = Ann\nemail = a@b\n").unwrap();
    let core = t.get("core").unwrap();
    assert_eq!(core.get("bare").unwrap(), "false");
    assert_eq!(core.get("name").unwrap(), "x");
    assert!(t.get("user").is_none());
}

#[test]
fn toml_empty_sections_and_odd_lines() {
    let t = Toml::from_str("[a]\n[b]\nk=1\nnot a pair\nx=y=z\n  spaced   =  out  \n[c]").unwrap();
    assert!(t.get("a").is_none());
    let b = t.get("b").unwrap();
    assert_eq!(b.get("k").unwrap(), "1");
    assert!(!b.contains_key("x"));
    assert_eq!(b.get("spaced").unwrap(), "out");
    assert!(t.get("c").is_none());
}

#[test]
fn toml_crlf_lines_and_repeated_keys() {
    let t = Toml::from_str("[x]\r\nk = v\r\nk = w\r\n[y]\r\n").unwrap();
    assert_eq!(t.get("x").unwrap().get("k").unwrap(), "w");
}

#[test]
fn toml_repeated_section_replaces_the_earlier() {
    let t = Toml::from_str("[s]\na=1\n[s]\nb=2\n[end]\n").unwrap();
    let s = t.get("s").unwrap();
    assert!(s.get("a").is_none());
    assert_eq!(s.get("b").unwrap(), "2");
}

#[test]
fn str_map_insert_replaces_and_keeps_order() {
    let mut m: StrMap<String> = StrMap::new();
    assert!(m.is_empty());
    m.insert("b".to_string(), "1".to_string());
    m.insert("a".to_string(), "2".to_string());
    m.insert("b".to_string(), "3".to_string());
    assert!(!m.is_empty());
    assert_eq!(m.get("b").unwrap(), "3");
    assert_eq!(m.get("a").unwrap(), "2");
    assert!(m.get("c").is_none());
    assert!(m.contains_key("a"));
    let keys: Vec<&str> = m.entries().iter().map(|e| e.0.as_str()).collect();
    assert_eq!(keys, vec!["b", "a"]);
}

#[test]
fn toml_new_and_from_map() {
    let t = Toml::new();
    assert!(t.get("core").is_none());
    let mut sec: StrMap<String> = StrMap::new();
    sec.insert("bare".to_string(), "false".to_string());
    let mut map: StrMap<StrMap<String>> = StrMap::new();
    map.insert("core".to_string(), sec);
    let t = Toml::from_map(map);
    assert_eq!(t.get("core").unwrap().get("bare").unwrap(), "false");
}

#[test]
fn toml_text_lays_out_sections_and_entries() {
    let sections = vec![
        (
            "core".to_string(),
            vec![("bare".to_string(), "false".to_string()), ("filemode".to_string(), "true".to_string())],
        ),
        ("user".to_string(), vec![("name".to_string(), "\"Ann\"".to_string())]),
        ("empty".to_string(), vec![]),
    ];
    assert_eq!(
        toml_text(&sections),
        "[core]\n\tbare = false\n\tfilemode = true\n[user]\n\tname = \"Ann\"\n[empty]"
    );
    assert_eq!(toml_text(&vec![]), "");
}
