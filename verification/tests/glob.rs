use lib::glob::glob;

#[test]
fn glob_literal_and_question_mark() {
    assert!(glob("main.rs", "main.rs"));
    assert!(!glob("main.rs", "main.rc"));
    assert!(glob("ma?n.rs", "main.rs"));
    assert!(!glob("ma?n.rs", "man.rs"));
}

#[test]
fn glob_star() {
    assert!(glob("*", ""));
    assert!(glob("*", "anything"));
    assert!(glob("*.rs", "lib.rs"));
    assert!(!glob("*.rs", "lib.rc"));
    assert!(glob("a*b*c", "aXXbYYc"));
    assert!(!glob("a*b*c", "aXXbYY"));
    assert!(glob(".git/*", ".git/objects"));
    assert!(glob("**", "x"));
}

#[test]
fn glob_bracket_matches_nothing() {
    assert!(!glob("[ab]", "a"));
    assert!(!glob("[", "["));
}

#[test]
fn glob_pattern_longer_than_text() {
    assert!(glob("abc***", "abc"));
    assert!(!glob("abc*?", "abc"));
    assert!(!glob("", "a"));
    assert!(glob("", ""));
}

#[test]
fn glob_single_question_mark_matches_one_character() {
    assert!(!glob("?", ""));
    assert!(glob("?", "x"));
    assert!(glob("?", "é"));
    assert!(!glob("?", "xy"));
}

#[test]
fn glob_star_before_a_pattern_allows_any_prefix() {
    assert!(glob("a?c", "abc"));
    assert!(glob("*a?c", "abc"));
    assert!(glob("*a?c", "zzzabc"));
    assert!(glob("*", "anything"));
    assert!(glob("**", "zz"));
}
