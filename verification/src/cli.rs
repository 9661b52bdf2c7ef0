//! What the command line asks for: an action of the client, or one of the
//! options that stand alone.
use vstd::prelude::*;
use vstd::string::{StrSliceExecFns, StringExecFns};

use crate::args::{parse_args, string_views, ArgsParser, ParseState};

verus! {

/// A request of the command line.
pub enum Command {
    /// Create the repository.
    Init,
    /// Add the files matching these patterns to the index.
    Add(Vec<String>),
    /// Commit the index, with the message given, if any.
    Commit(Option<String>),
    /// Print the version.
    Version,
    /// Print the path of the executable.
    ExecPath,
}

/// The request that a successful parse stands for, or the error message.
pub open spec fn command_of(st: ParseState, r: Result<Command, String>) -> bool {
    if st.action.len() > 0 {
        if st.action == "init"@ {
            r matches Ok(Command::Init)
        } else if st.action == "add"@ {
            r matches Ok(Command::Add(v)) && string_views(v@) == st.nn
        } else if st.action == "commit"@ {
            r matches Ok(Command::Commit(m)) && if st.map.dom().contains("message"@) {
                m matches Some(s) && s@ == st.map["message"@]
            } else {
                m is None
            }
        } else {
            r matches Err(f) && f@ == "`"@ + st.action + "` not a fen command"@
        }
    } else if st.map.dom().contains("version"@) {
        r matches Ok(Command::Version)
    } else if st.map.dom().contains("exec-path"@) {
        r matches Ok(Command::ExecPath)
    } else {
        r matches Err(f) && f@ == "help page"@
    }
}

fn is(a: &String, b: &str) -> (r: bool)
    ensures
        r == (a@ == b@),
{
    let t = b.to_owned();
    *a == t
}

/// Parses `args` with `parser` and tells the request: the action, if one was
/// given, else the version or the executable's path if asked for; otherwise
/// the help page is owed, as an error.
pub fn handler(parser: &ArgsParser, args: &[String]) -> (r: Result<Command, String>)
    ensures
        match parse_args(parser@.arguments, string_views(args@)) {
            Err(e) => r matches Err(f) && f@ == e,
            Ok(st) => command_of(st, r),
        },
{
    let parsed = match parser.parse(args) {
        Ok(p) => p,
        Err(e) => {
            return Err(e);
        },
    };
    if parsed.action.as_str().unicode_len() > 0 {
        if is(&parsed.action, "init") {
            Ok(Command::Init)
        } else if is(&parsed.action, "add") {
            Ok(Command::Add(parsed.nn))
        } else if is(&parsed.action, "commit") {
            let msg = match parsed.map.get("message") {
                Some(m) => Some(m.clone()),
                None => None,
            };
            Ok(Command::Commit(msg))
        } else {
            let mut m = "`".to_owned();
            m.append(parsed.action.as_str());
            m.append("` not a fen command");
            Err(m)
        }
    } else if parsed.map.contains_key("version") {
        Ok(Command::Version)
    } else if parsed.map.contains_key("exec-path") {
        Ok(Command::ExecPath)
    } else {
        Err("help page".to_owned())
    }
}

} // verus!
