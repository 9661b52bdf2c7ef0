use lib::args::ArgsParser;
use lib::cli::{handler, Command};

fn fen_parser() -> ArgsParser {
    let mut parser = ArgsParser::new("fen", "git client in rust");
    parser.add_arg("message", Some('m'), true);
    parser.add_arg("version", Some('v'), false);
    parser.add_arg("exec-path", Some('p'), false);
    parser
}

fn strings(v: &[&str]) -> Vec<String> {
    v.iter().map(|s| s.to_string()).collect()
}

#[test]
fn parse_action_and_positionals() {
    let r = fen_parser().parse(&strings(&["add", "a.txt", "b.txt"])).unwrap();
    assert_eq!(r.action, "add");
    assert_eq!(r.nn, strings(&["a.txt", "b.txt"]));
    assert!(!r.map.contains_key("message"));
}

#[test]
fn parse_long_option_forms() {
    let r = fen_parser().parse(&strings(&["commit", "--message=hello world"])).unwrap();
    assert_eq!(r.map.get("message").unwrap(), "hello world");
    let r = fen_parser().parse(&strings(&["commit", "--message", "hi"])).unwrap();
    assert_eq!(r.map.get("message").unwrap(), "hi");
    assert_eq!(r.action, "commit");
    assert!(r.nn.is_empty());
    let r = fen_parser().parse(&strings(&["--version"])).unwrap();
    assert_eq!(r.map.get("version").unwrap(), "true");
    assert_eq!(r.action, "");
}

#[test]
fn parse_short_option_forms() {
    let r = fen_parser().parse(&strings(&["-mquick"])).unwrap();
    assert_eq!(r.map.get("message").unwrap(), "quick");
    let r = fen_parser().parse(&strings(&["-vp", "commit", "-m", "text"])).unwrap();
    assert_eq!(r.map.get("version").unwrap(), "true");
    assert_eq!(r.map.get("exec-path").unwrap(), "true");
    assert_eq!(r.map.get("message").unwrap(), "text");
    assert_eq!(r.action, "commit");
    let r = fen_parser().parse(&strings(&["-vm", "--"])).unwrap();
    assert_eq!(r.map.get("message").unwrap(), "--");
}

#[test]
fn parse_later_value_wins() {
    let r = fen_parser().parse(&strings(&["-m", "one", "--message=two"])).unwrap();
    assert_eq!(r.map.get("message").unwrap(), "two");
}

#[test]
fn parse_double_dash_ends_options() {
    let r = fen_parser().parse(&strings(&["add", "--", "-v", "--message"])).unwrap();
    assert_eq!(r.action, "add");
    assert_eq!(r.nn, strings(&["-v", "--message"]));
    assert!(!r.map.contains_key("version"));
    let r = fen_parser().parse(&strings(&["-", "x"])).unwrap();
    assert_eq!(r.action, "-");
}

#[test]
fn parse_errors() {
    let p = fen_parser();
    assert_eq!(p.parse(&strings(&["--nope"])).err().unwrap(), "unknown long option: --nope");
    assert_eq!(p.parse(&strings(&["-x"])).err().unwrap(), "unknown short option: -x");
    assert_eq!(
        p.parse(&strings(&["--message"])).err().unwrap(),
        "option --message requires a value, but none provided"
    );
    assert_eq!(
        p.parse(&strings(&["--message", "-v"])).err().unwrap(),
        "option --message requires a value, but next argument is an option"
    );
    assert_eq!(
        p.parse(&strings(&["--version=1"])).err().unwrap(),
        "flag --version does not take a value"
    );
    assert_eq!(
        p.parse(&strings(&["-m"])).err().unwrap(),
        "option -m requires a value, but none provided"
    );
    assert_eq!(
        p.parse(&strings(&["-m", "-v"])).err().unwrap(),
        "option -m requires a value, but next argument is an option"
    );
}

#[test]
fn handler_decides_the_command() {
    let p = fen_parser();
    assert!(matches!(handler(&p, &strings(&["init"])), Ok(Command::Init)));
    match handler(&p, &strings(&["add", "*.rs", "src/**"])) {
        Ok(Command::Add(v)) => assert_eq!(v, strings(&["*.rs", "src/**"])),
        _ => panic!("expected add"),
    }
    match handler(&p, &strings(&["commit", "-m", "first"])) {
        Ok(Command::Commit(Some(m))) => assert_eq!(m, "first"),
        _ => panic!("expected commit with a message"),
    }
    assert!(matches!(handler(&p, &strings(&["commit"])), Ok(Command::Commit(None))));
    assert!(matches!(handler(&p, &strings(&["-v"])), Ok(Command::Version)));
    assert!(matches!(handler(&p, &strings(&["--exec-path"])), Ok(Command::ExecPath)));
    assert_eq!(handler(&p, &strings(&[])).err().unwrap(), "help page");
    assert_eq!(handler(&p, &strings(&["push"])).err().unwrap(), "`push` not a fen command");
    assert_eq!(handler(&p, &strings(&["-q"])).err().unwrap(), "unknown short option: -q");
}
