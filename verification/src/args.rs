//! Command-line arguments: long options (`--name`, `--name=value`), clusters
//! of short options (`-abc`, `-mvalue`), `--` to end the options, then an
//! action and the positional arguments.
use vstd::prelude::*;
use vstd::string::{StrSliceExecFns, StringExecFns};

use crate::strmap::StrMap;
use crate::text::str_to_chars;

verus! {

/// An option that the parser knows.
#[derive(Debug, Clone)]
struct Arg {
    long: String,
    short: Option<char>,
    takes_value: bool,
}

/// What an option is: its long name, its short letter if it has one, and
/// whether it takes a value.
pub struct ArgSpec {
    pub long: Seq<char>,
    pub short: Option<char>,
    pub takes_value: bool,
}

/// A command-line parser: a command's name and description, and the options
/// it knows.
#[derive(Debug, Clone)]
pub struct ArgsParser {
    command_name: String,
    description: String,
    arguments: Vec<Arg>,
}

/// What a parser holds.
pub struct ParserView {
    pub command_name: Seq<char>,
    pub description: Seq<char>,
    pub arguments: Seq<ArgSpec>,
}

/// The outcome of parsing: the options given with their values (`"true"`
/// for a flag), the action (the first positional argument, empty if none)
/// and the positional arguments after it.
#[derive(Debug)]
pub struct ArgResult {
    pub map: StrMap<String>,
    pub nn: Vec<String>,
    pub action: String,
}

impl View for ArgsParser {
    type V = ParserView;

    closed spec fn view(&self) -> ParserView {
        ParserView {
            command_name: self.command_name@,
            description: self.description@,
            arguments: self.arguments@.map_values(
                |a: Arg| ArgSpec { long: a.long@, short: a.short, takes_value: a.takes_value },
            ),
        }
    }
}

/// The state of a parse, after some of the arguments.
pub struct ParseState {
    pub map: Map<Seq<char>, Seq<char>>,
    pub nn: Seq<Seq<char>>,
    pub action: Seq<char>,
    pub action_set: bool,
    pub stop: bool,
}

/// The characters of a list of strings.
pub open spec fn string_views(v: Seq<String>) -> Seq<Seq<char>> {
    v.map_values(|s: String| s@)
}

/// The first position at or after `i` of the character `c` in `a`.
pub open spec fn find_char(a: Seq<char>, c: char, i: int) -> Option<int>
    decreases a.len() - i,
{
    if i < 0 || i >= a.len() {
        None
    } else if a[i] == c {
        Some(i)
    } else {
        find_char(a, c, i + 1)
    }
}

/// Where `find_char` finds `c`, `c` is.
pub proof fn lemma_find_char_some(a: Seq<char>, c: char, i: int, k: int)
    requires
        find_char(a, c, i) == Some(k),
    ensures
        i <= k < a.len(),
        0 <= k,
        a[k] == c,
    decreases a.len() - i,
{
    if 0 <= i < a.len() && a[i] != c {
        lemma_find_char_some(a, c, i + 1, k);
    }
}

/// The first option at or after `k` of the long name `name`.
pub open spec fn find_long(defs: Seq<ArgSpec>, name: Seq<char>, k: int) -> Option<int>
    decreases defs.len() - k,
{
    if k < 0 || k >= defs.len() {
        None
    } else if defs[k].long == name {
        Some(k)
    } else {
        find_long(defs, name, k + 1)
    }
}

/// The first option at or after `k` of the short letter `c`.
pub open spec fn find_short(defs: Seq<ArgSpec>, c: char, k: int) -> Option<int>
    decreases defs.len() - k,
{
    if k < 0 || k >= defs.len() {
        None
    } else if defs[k].short == Some(c) {
        Some(k)
    } else {
        find_short(defs, c, k + 1)
    }
}

/// The argument that ends the options.
pub open spec fn is_end_of_options(a: Seq<char>) -> bool {
    a == seq!['-', '-']
}

/// An argument that can be an option's value: one that does not start with
/// `-`, or the end of the options.
pub open spec fn can_be_value(a: Seq<char>) -> bool {
    !(a.len() > 0 && a[0] == '-') || is_end_of_options(a)
}

/// A long option: `--` and at least one more character.
pub open spec fn is_long_option(a: Seq<char>) -> bool {
    a.len() > 2 && a[0] == '-' && a[1] == '-'
}

/// A cluster of short options: `-` and at least one more character.
pub open spec fn is_short_options(a: Seq<char>) -> bool {
    a.len() > 1 && a[0] == '-'
}

/// The name of a long option, before any `=`.
pub open spec fn long_name(a: Seq<char>) -> Seq<char> {
    match find_char(a, '=', 0) {
        Some(e) => a.subrange(2, e),
        None => a.subrange(2, a.len() as int),
    }
}

/// The value given with a long option after `=`, if any.
pub open spec fn long_value(a: Seq<char>) -> Option<Seq<char>> {
    match find_char(a, '=', 0) {
        Some(e) => Some(a.subrange(e + 1, a.len() as int)),
        None => None,
    }
}

/// The error of a long option whose value would be another option.
pub open spec fn msg_long_next_is_option(name: Seq<char>) -> Seq<char> {
    "option --"@ + name + " requires a value, but next argument is an option"@
}

/// The error of a long option given last without its value.
pub open spec fn msg_long_no_value(name: Seq<char>) -> Seq<char> {
    "option --"@ + name + " requires a value, but none provided"@
}

/// The error of a flag given a value.
pub open spec fn msg_flag_with_value(name: Seq<char>) -> Seq<char> {
    "flag --"@ + name + " does not take a value"@
}

/// The error of an unknown long option.
pub open spec fn msg_unknown_long(name: Seq<char>) -> Seq<char> {
    "unknown long option: --"@ + name
}

/// The error of a short option whose value would be another option.
pub open spec fn msg_short_next_is_option(c: char) -> Seq<char> {
    "option -"@ + seq![c] + " requires a value, but next argument is an option"@
}

/// The error of a short option given last without its value.
pub open spec fn msg_short_no_value(c: char) -> Seq<char> {
    "option -"@ + seq![c] + " requires a value, but none provided"@
}

/// The error of an unknown short option.
pub open spec fn msg_unknown_short(c: char) -> Seq<char> {
    "unknown short option: -"@ + seq![c]
}

/// The cluster of short options `cs` (argument `i`, without its `-`) from
/// letter `j` on: the map afterwards and whether the next argument was
/// taken as a value, or the error.
pub open spec fn parse_short(
    defs: Seq<ArgSpec>,
    args: Seq<Seq<char>>,
    i: int,
    cs: Seq<char>,
    j: int,
    map: Map<Seq<char>, Seq<char>>,
) -> Result<(Map<Seq<char>, Seq<char>>, bool), Seq<char>>
    decreases cs.len() - j,
{
    if j < 0 || j >= cs.len() {
        Ok((map, false))
    } else {
        let c = cs[j];
        match find_short(defs, c, 0) {
            None => Err(msg_unknown_short(c)),
            Some(k) => {
                let long = defs[k].long;
                if !defs[k].takes_value {
                    parse_short(defs, args, i, cs, j + 1, map.insert(long, "true"@))
                } else if j + 1 < cs.len() {
                    Ok((map.insert(long, cs.subrange(j + 1, cs.len() as int)), false))
                } else if i + 1 < args.len() {
                    if can_be_value(args[i + 1]) {
                        Ok((map.insert(long, args[i + 1]), true))
                    } else {
                        Err(msg_short_next_is_option(c))
                    }
                } else {
                    Err(msg_short_no_value(c))
                }
            },
        }
    }
}

/// The state after a long option `arg` (argument `i`), and the index of
/// the next argument to read, or the error.
pub open spec fn parse_long(
    defs: Seq<ArgSpec>,
    args: Seq<Seq<char>>,
    i: int,
    map: Map<Seq<char>, Seq<char>>,
) -> Result<(Map<Seq<char>, Seq<char>>, int), Seq<char>> {
    let arg = args[i];
    let name = long_name(arg);
    match find_long(defs, name, 0) {
        None => Err(msg_unknown_long(name)),
        Some(k) => if defs[k].takes_value {
            match long_value(arg) {
                Some(v) => Ok((map.insert(name, v), i + 1)),
                None => if i + 1 < args.len() {
                    if can_be_value(args[i + 1]) {
                        Ok((map.insert(name, args[i + 1]), i + 2))
                    } else {
                        Err(msg_long_next_is_option(name))
                    }
                } else {
                    Err(msg_long_no_value(name))
                },
            }
        } else if long_value(arg) is Some {
            Err(msg_flag_with_value(name))
        } else {
            Ok((map.insert(name, "true"@), i + 1))
        },
    }
}

/// Parsing the arguments from `i` on, in state `st`.
pub open spec fn parse_from(defs: Seq<ArgSpec>, args: Seq<Seq<char>>, i: int, st: ParseState) -> Result<
    ParseState,
    Seq<char>,
>
    decreases args.len() - i,
{
    if i < 0 || i >= args.len() {
        Ok(st)
    } else {
        let arg = args[i];
        if !st.stop && is_end_of_options(arg) {
            parse_from(defs, args, i + 1, ParseState { stop: true, ..st })
        } else if !st.stop && is_long_option(arg) {
            match parse_long(defs, args, i, st.map) {
                Err(e) => Err(e),
                Ok((m, next)) => if i < next <= args.len() {
                    parse_from(defs, args, next, ParseState { map: m, ..st })
                } else {
                    Ok(ParseState { map: m, ..st })
                },
            }
        } else if !st.stop && is_short_options(arg) {
            match parse_short(defs, args, i, arg.drop_first(), 0, st.map) {
                Err(e) => Err(e),
                Ok((m, took)) => {
                    let next = if took {
                        i + 2
                    } else {
                        i + 1
                    };
                    if next <= args.len() {
                        parse_from(defs, args, next, ParseState { map: m, ..st })
                    } else {
                        Ok(ParseState { map: m, ..st })
                    }
                },
            }
        } else if !st.action_set {
            parse_from(defs, args, i + 1, ParseState { action: arg, action_set: true, ..st })
        } else {
            parse_from(defs, args, i + 1, ParseState { nn: st.nn.push(arg), ..st })
        }
    }
}

/// The state before any argument.
pub open spec fn initial_state() -> ParseState {
    ParseState {
        map: Map::empty(),
        nn: Seq::empty(),
        action: Seq::empty(),
        action_set: false,
        stop: false,
    }
}

/// Parsing `args` with the options `defs`.
pub open spec fn parse_args(defs: Seq<ArgSpec>, args: Seq<Seq<char>>) -> Result<
    ParseState,
    Seq<char>,
> {
    parse_from(defs, args, 0, initial_state())
}

/// The positional arguments of a state: the action, if set, then the
/// others.
pub open spec fn positionals(st: ParseState) -> Seq<Seq<char>> {
    if st.action_set {
        seq![st.action] + st.nn
    } else {
        st.nn
    }
}

/// Once the options have ended, parsing cannot fail, sets no more options,
/// and takes every argument left as a positional one, in order.
pub proof fn lemma_after_end_of_options(
    defs: Seq<ArgSpec>,
    args: Seq<Seq<char>>,
    i: int,
    st: ParseState,
)
    requires
        st.stop,
        0 <= i <= args.len(),
        !st.action_set ==> st.nn.len() == 0,
    ensures
        parse_from(defs, args, i, st) matches Ok(r) && r.map == st.map && positionals(r)
            == positionals(st) + args.subrange(i, args.len() as int),
    decreases args.len() - i,
{
    if i == args.len() {
        assert(positionals(st) + args.subrange(i, args.len() as int) =~= positionals(st));
    } else {
        let next = if !st.action_set {
            ParseState { action: args[i], action_set: true, ..st }
        } else {
            ParseState { nn: st.nn.push(args[i]), ..st }
        };
        lemma_after_end_of_options(defs, args, i + 1, next);
        assert(positionals(next) =~= positionals(st).push(args[i]));
        assert(positionals(st).push(args[i]) + args.subrange(i + 1, args.len() as int)
            =~= positionals(st) + args.subrange(i, args.len() as int));
    }
}

/// `st` with the map `m`.
pub open spec fn with_map(st: ParseState, m: Map<Seq<char>, Seq<char>>) -> ParseState {
    ParseState { map: m, ..st }
}

proof fn lemma_parse_short_map(
    defs: Seq<ArgSpec>,
    args: Seq<Seq<char>>,
    i: int,
    cs: Seq<char>,
    j: int,
    m: Map<Seq<char>, Seq<char>>,
)
    ensures
        parse_short(defs, args, i, cs, j, m) == match parse_short(defs, args, i, cs, j, Map::empty()) {
            Ok((d, t)) => Ok((m.union_prefer_right(d), t)),
            Err(e) => Err(e),
        },
    decreases cs.len() - j,
{
    if j < 0 || j >= cs.len() {
        assert(m.union_prefer_right(Map::empty()) =~= m);
    } else {
        let c = cs[j];
        match find_short(defs, c, 0) {
            None => {},
            Some(k) => {
                let long = defs[k].long;
                let e = Map::<Seq<char>, Seq<char>>::empty();
                if !defs[k].takes_value {
                    let t = "true"@;
                    lemma_parse_short_map(defs, args, i, cs, j + 1, m.insert(long, t));
                    lemma_parse_short_map(defs, args, i, cs, j + 1, e.insert(long, t));
                    match parse_short(defs, args, i, cs, j + 1, e) {
                        Ok((d, _)) => {
                            assert(m.insert(long, t).union_prefer_right(d) =~= m.union_prefer_right(
                                e.insert(long, t).union_prefer_right(d),
                            ));
                        },
                        Err(_) => {},
                    }
                } else if j + 1 < cs.len() {
                    let x = cs.subrange(j + 1, cs.len() as int);
                    assert(m.insert(long, x) =~= m.union_prefer_right(e.insert(long, x)));
                } else if i + 1 < args.len() {
                    assert(m.insert(long, args[i + 1]) =~= m.union_prefer_right(e.insert(long, args[i + 1])));
                }
            },
        }
    }
}

proof fn lemma_parse_long_map(defs: Seq<ArgSpec>, args: Seq<Seq<char>>, i: int, m: Map<Seq<char>, Seq<char>>)
    ensures
        parse_long(defs, args, i, m) == match parse_long(defs, args, i, Map::empty()) {
            Ok((d, n)) => Ok((m.union_prefer_right(d), n)),
            Err(e) => Err(e),
        },
{
    let arg = args[i];
    let name = long_name(arg);
    let e = Map::<Seq<char>, Seq<char>>::empty();
    match find_long(defs, name, 0) {
        None => {},
        Some(k) => {
            if defs[k].takes_value {
                match long_value(arg) {
                    Some(v) => {
                        assert(m.insert(name, v) =~= m.union_prefer_right(e.insert(name, v)));
                    },
                    None => {
                        if i + 1 < args.len() {
                            assert(m.insert(name, args[i + 1]) =~= m.union_prefer_right(
                                e.insert(name, args[i + 1]),
                            ));
                        }
                    },
                }
            } else {
                assert(m.insert(name, "true"@) =~= m.union_prefer_right(e.insert(name, "true"@)));
            }
        },
    }
}

/// Parsing from a state with options already set gives what parsing from
/// the same state without them gives, those options under the new ones.
proof fn lemma_parse_from_map(defs: Seq<ArgSpec>, args: Seq<Seq<char>>, i: int, st: ParseState)
    ensures
        parse_from(defs, args, i, st) == match parse_from(defs, args, i, with_map(st, Map::empty())) {
            Ok(r) => Ok(with_map(r, st.map.union_prefer_right(r.map))),
            Err(e) => Err(e),
        },
    decreases args.len() - i,
{
    let e = Map::<Seq<char>, Seq<char>>::empty();
    let st0 = with_map(st, e);
    if i < 0 || i >= args.len() {
        assert(st.map.union_prefer_right(e) =~= st.map);
    } else {
        let arg = args[i];
        if !st.stop && is_end_of_options(arg) {
            let s1 = ParseState { stop: true, ..st };
            lemma_parse_from_map(defs, args, i + 1, s1);
            assert(with_map(s1, e) == ParseState { stop: true, ..st0 });
        } else if !st.stop && is_long_option(arg) {
            lemma_parse_long_map(defs, args, i, st.map);
            match parse_long(defs, args, i, e) {
                Err(_) => {},
                Ok((d, next)) => {
                    let m1 = st.map.union_prefer_right(d);
                    if i < next <= args.len() {
                        lemma_parse_from_map(defs, args, next, with_map(st, m1));
                        lemma_parse_from_map(defs, args, next, with_map(st0, d));
                        assert(with_map(with_map(st, m1), e) == with_map(with_map(st0, d), e));
                        match parse_from(defs, args, next, with_map(with_map(st, m1), e)) {
                            Ok(r) => {
                                assert(m1.union_prefer_right(r.map) =~= st.map.union_prefer_right(
                                    d.union_prefer_right(r.map),
                                ));
                            },
                            Err(_) => {},
                        }
                    } else {
                        assert(with_map(st, m1) == with_map(with_map(st0, d), st.map.union_prefer_right(d)));
                    }
                },
            }
        } else if !st.stop && is_short_options(arg) {
            lemma_parse_short_map(defs, args, i, arg.drop_first(), 0, st.map);
            match parse_short(defs, args, i, arg.drop_first(), 0, e) {
                Err(_) => {},
                Ok((d, took)) => {
                    let m1 = st.map.union_prefer_right(d);
                    let next = i + 1 + if took {
                        1int
                    } else {
                        0int
                    };
                    if next <= args.len() {
                        lemma_parse_from_map(defs, args, next, with_map(st, m1));
                        lemma_parse_from_map(defs, args, next, with_map(st0, d));
                        assert(with_map(with_map(st, m1), e) == with_map(with_map(st0, d), e));
                        match parse_from(defs, args, next, with_map(with_map(st, m1), e)) {
                            Ok(r) => {
                                assert(m1.union_prefer_right(r.map) =~= st.map.union_prefer_right(
                                    d.union_prefer_right(r.map),
                                ));
                            },
                            Err(_) => {},
                        }
                    } else {
                        assert(with_map(st, m1) == with_map(with_map(st0, d), st.map.union_prefer_right(d)));
                    }
                },
            }
        } else if !st.action_set {
            let s1 = ParseState { action: arg, action_set: true, ..st };
            lemma_parse_from_map(defs, args, i + 1, s1);
            assert(with_map(s1, e) == ParseState { action: arg, action_set: true, ..st0 });
        } else {
            let s1 = ParseState { nn: st.nn.push(arg), ..st };
            lemma_parse_from_map(defs, args, i + 1, s1);
            assert(with_map(s1, e) == ParseState { nn: st0.nn.push(arg), ..st0 });
        }
    }
}

proof fn lemma_parse_short_shift(
    defs: Seq<ArgSpec>,
    pre: Seq<Seq<char>>,
    rest: Seq<Seq<char>>,
    i: int,
    cs: Seq<char>,
    j: int,
    m: Map<Seq<char>, Seq<char>>,
)
    requires
        0 <= i,
    ensures
        parse_short(defs, pre + rest, i + pre.len(), cs, j, m) == parse_short(defs, rest, i, cs, j, m),
    decreases cs.len() - j,
{
    let args = pre + rest;
    if 0 <= j < cs.len() {
        if i + 1 < rest.len() {
            assert(args[i + pre.len() + 1] == rest[i + 1]);
        }
        match find_short(defs, cs[j], 0) {
            Some(k) => {
                if !defs[k].takes_value {
                    lemma_parse_short_shift(defs, pre, rest, i, cs, j + 1, m.insert(defs[k].long, "true"@));
                }
            },
            None => {},
        }
    }
}

proof fn lemma_parse_long_shift(
    defs: Seq<ArgSpec>,
    pre: Seq<Seq<char>>,
    rest: Seq<Seq<char>>,
    i: int,
    m: Map<Seq<char>, Seq<char>>,
)
    requires
        0 <= i < rest.len(),
    ensures
        parse_long(defs, pre + rest, i + pre.len(), m) == match parse_long(defs, rest, i, m) {
            Ok((d, n)) => Ok((d, n + pre.len())),
            Err(e) => Err(e),
        },
{
    let args = pre + rest;
    assert(args[i + pre.len()] == rest[i]);
    if i + 1 < rest.len() {
        assert(args[i + pre.len() + 1] == rest[i + 1]);
    }
}

/// Parsing depends only on the arguments from the position reached on:
/// arguments before them change nothing.
proof fn lemma_parse_from_shift(
    defs: Seq<ArgSpec>,
    pre: Seq<Seq<char>>,
    rest: Seq<Seq<char>>,
    i: int,
    st: ParseState,
)
    requires
        0 <= i,
    ensures
        parse_from(defs, pre + rest, i + pre.len(), st) == parse_from(defs, rest, i, st),
    decreases rest.len() - i,
{
    let args = pre + rest;
    let n = pre.len() as int;
    if i < rest.len() {
        let arg = rest[i];
        assert(args[i + n] == arg);
        if !st.stop && is_end_of_options(arg) {
            lemma_parse_from_shift(defs, pre, rest, i + 1, ParseState { stop: true, ..st });
        } else if !st.stop && is_long_option(arg) {
            lemma_parse_long_shift(defs, pre, rest, i, st.map);
            match parse_long(defs, rest, i, st.map) {
                Ok((d, next)) => {
                    if i < next <= rest.len() {
                        lemma_parse_from_shift(defs, pre, rest, next, with_map(st, d));
                        assert(next + n == (next + pre.len()));
                    }
                },
                Err(_) => {},
            }
        } else if !st.stop && is_short_options(arg) {
            lemma_parse_short_shift(defs, pre, rest, i, arg.drop_first(), 0, st.map);
            match parse_short(defs, rest, i, arg.drop_first(), 0, st.map) {
                Ok((d, took)) => {
                    let next = i + 1 + if took {
                        1int
                    } else {
                        0int
                    };
                    if next <= rest.len() {
                        lemma_parse_from_shift(defs, pre, rest, next, with_map(st, d));
                    }
                },
                Err(_) => {},
            }
        } else if !st.action_set {
            lemma_parse_from_shift(defs, pre, rest, i + 1, ParseState { action: arg, action_set: true, ..st });
        } else {
            lemma_parse_from_shift(defs, pre, rest, i + 1, ParseState { nn: st.nn.push(arg), ..st });
        }
    }
}

/// The argument after a short option that takes a value is that value,
/// not a positional argument: parsing `-m v` and then `rest` fails exactly
/// as parsing `rest` does, and otherwise gives the action and positional
/// arguments of `rest`, and the options of `rest` over `m`'s set to `v`.
pub proof fn lemma_short_option_value(defs: Seq<ArgSpec>, m: char, v: Seq<char>, rest: Seq<Seq<char>>)
    requires
        m != '-',
        find_short(defs, m, 0) is Some,
        defs[find_short(defs, m, 0).unwrap()].takes_value,
        can_be_value(v),
    ensures
        match parse_args(defs, rest) {
            Ok(a) => parse_args(defs, seq![seq!['-', m], v] + rest) matches Ok(b) && positionals(b)
                == positionals(a) && b.action == a.action && b.nn == a.nn && b.map == Map::<
                Seq<char>,
                Seq<char>,
            >::empty().insert(defs[find_short(defs, m, 0).unwrap()].long, v).union_prefer_right(a.map),
            Err(e) => parse_args(defs, seq![seq!['-', m], v] + rest) == Err::<ParseState, Seq<char>>(e),
        },
{
    let pre = seq![seq!['-', m], v];
    let args = pre + rest;
    let long = defs[find_short(defs, m, 0).unwrap()].long;
    let m1 = Map::<Seq<char>, Seq<char>>::empty().insert(long, v);
    let st1 = with_map(initial_state(), m1);
    assert(args[0] == seq!['-', m]);
    assert(args[1] == v);
    assert(!is_end_of_options(args[0])) by {
        if is_end_of_options(args[0]) {
            assert(args[0][1] == seq!['-', '-'][1]);
        }
    }
    assert(args[0].drop_first() =~= seq![m]);
    assert(parse_short(defs, args, 0, args[0].drop_first(), 0, Map::empty()) == Ok::<
        (Map<Seq<char>, Seq<char>>, bool),
        Seq<char>,
    >((m1, true)));
    assert(parse_args(defs, args) == parse_from(defs, args, 2, st1));
    lemma_parse_from_shift(defs, pre, rest, 0, st1);
    lemma_parse_from_map(defs, rest, 0, st1);
    assert(with_map(st1, Map::empty()) == initial_state());
}

/// The characters `cs[from..to]` as a string.
fn string_of(cs: &Vec<char>, from: usize, to: usize) -> (s: String)
    requires
        from <= to <= cs@.len(),
    ensures
        s@ == cs@.subrange(from as int, to as int),
{
    let mut s = String::new();
    let mut k = from;
    while k < to
        invariant
            from <= k <= to,
            to <= cs@.len(),
            s@ == cs@.subrange(from as int, k as int),
        decreases to - k,
    {
        s.push(cs[k]);
        proof {
            assert(s@ =~= cs@.subrange(from as int, k + 1));
        }
        k += 1;
    }
    s
}

/// `head`, then `name`, then `tail`.
fn message(head: &str, name: &str, tail: &str) -> (m: String)
    ensures
        m@ == head@ + name@ + tail@,
{
    let mut m = head.to_owned();
    m.append(name);
    m.append(tail);
    m
}

/// `head`, then the letter `c`, then `tail`.
fn message_char(head: &str, c: char, tail: &str) -> (m: String)
    ensures
        m@ == head@ + seq![c] + tail@,
{
    let mut m = head.to_owned();
    m.push(c);
    m.append(tail);
    proof {
        assert(head@.push(c) =~= head@ + seq![c]);
    }
    m
}

/// Whether `a` can be taken as an option's value.
fn can_be_value_exec(a: &String) -> (r: bool)
    ensures
        r == can_be_value(a@),
{
    let s = a.as_str();
    let l = s.unicode_len();
    if l == 0 {
        return true;
    }
    if s.get_char(0) != '-' {
        return true;
    }
    if l == 2 && s.get_char(1) == '-' {
        proof {
            assert(a@ =~= seq!['-', '-']);
        }
        return true;
    }
    false
}

impl ArgsParser {
    /// A parser for the command `command_name`, knowing no option yet.
    pub fn new(command_name: &str, description: &str) -> (p: Self)
        ensures
            p@.command_name == command_name@,
            p@.description == description@,
            p@.arguments == Seq::<ArgSpec>::empty(),
    {
        let p = ArgsParser {
            command_name: command_name.to_owned(),
            description: description.to_owned(),
            arguments: Vec::new(),
        };
        proof {
            assert(p@.arguments =~= Seq::<ArgSpec>::empty());
        }
        p
    }

    /// Adds the option `--long` (and `-short`, if given), which takes a value
    /// or is a flag.
    pub fn add_arg(&mut self, long: &str, short: Option<char>, takes_value: bool)
        ensures
            final(self)@.command_name == old(self)@.command_name,
            final(self)@.description == old(self)@.description,
            final(self)@.arguments == old(self)@.arguments.push(
                ArgSpec { long: long@, short, takes_value },
            ),
    {
        self.arguments.push(Arg { long: long.to_owned(), short, takes_value });
        proof {
            assert(self@.arguments =~= old(self)@.arguments.push(
                ArgSpec { long: long@, short, takes_value },
            ));
        }
    }

    fn find_long_exec(&self, name: &String) -> (r: Option<usize>)
        ensures
            match r {
                Some(k) => find_long(self@.arguments, name@, 0) == Some(k as int),
                None => find_long(self@.arguments, name@, 0) is None,
            },
            r matches Some(k) ==> k < self@.arguments.len(),
    {
        let n = self.arguments.len();
        let mut k: usize = 0;
        while k < n
            invariant
                n == self@.arguments.len(),
                k <= n,
                find_long(self@.arguments, name@, 0) == find_long(self@.arguments, name@, k as int),
            decreases n - k,
        {
            if self.arguments[k].long == *name {
                return Some(k);
            }
            k += 1;
        }
        None
    }

    fn find_short_exec(&self, c: char) -> (r: Option<usize>)
        ensures
            match r {
                Some(k) => find_short(self@.arguments, c, 0) == Some(k as int),
                None => find_short(self@.arguments, c, 0) is None,
            },
            r matches Some(k) ==> k < self@.arguments.len(),
    {
        let n = self.arguments.len();
        let mut k: usize = 0;
        while k < n
            invariant
                n == self@.arguments.len(),
                k <= n,
                find_short(self@.arguments, c, 0) == find_short(self@.arguments, c, k as int),
            decreases n - k,
        {
            let hit = match self.arguments[k].short {
                Some(d) => d == c,
                None => false,
            };
            if hit {
                return Some(k);
            }
            k += 1;
        }
        None
    }
}

impl ArgsParser {
    /// The long option `args[i]` (of characters `cs`): the index of the next
    /// argument to read, with `map` updated, or the error.
    fn parse_long_exec(&self, args: &[String], i: usize, cs: &Vec<char>, map: &mut StrMap<String>) -> (r:
        Result<usize, String>)
        requires
            i < args@.len(),
            cs@ == args@[i as int]@,
            is_long_option(cs@),
        ensures
            match parse_long(self@.arguments, string_views(args@), i as int, old(map).view()) {
                Ok((m, next)) => r == Ok::<usize, String>(next as usize) && final(map).view() == m,
                Err(e) => r matches Err(f) && f@ == e,
            },
            r matches Ok(next) ==> i < next <= args@.len(),
    {
        let ghost av = string_views(args@);
        let ghost arg = av[i as int];
        assert(arg == cs@);
        let n_args = args.len();
        let n = cs.len();
        let mut e: usize = 0;
        while e < n && cs[e] != '='
            invariant
                e <= n,
                n == cs@.len(),
                find_char(cs@, '=', 0) == find_char(cs@, '=', e as int),
            decreases n - e,
        {
            e += 1;
        }
        let has_value = e < n;
        let name = if has_value {
            string_of(cs, 2, e)
        } else {
            string_of(cs, 2, n)
        };
        proof {
            assert(has_value ==> cs@[e as int] == '=');
            if has_value {
                assert(e >= 2);
            }
            assert(name@ == long_name(arg));
        }
        let ghost defs = self@.arguments;
        let ghost m0 = map.view();
        proof {
            if has_value {
                assert(find_char(cs@, '=', 0) == Some(e as int));
                assert(long_value(arg) == Some(cs@.subrange(e + 1, n as int)));
            } else {
                assert(find_char(cs@, '=', 0) is None);
                assert(long_value(arg) is None);
            }
        }
        match self.find_long_exec(&name) {
            None => {
                let mut m = "unknown long option: --".to_owned();
                m.append(name.as_str());
                Err(m)
            },
            Some(k) => {
                assert(self.arguments@[k as int].takes_value == defs[k as int].takes_value);
                assert(i + 1 < av.len() ==> av[i + 1] == args@[i + 1]@);
                if self.arguments[k].takes_value {
                    if has_value {
                        let v = string_of(cs, e + 1, n);
                        map.insert(name, v);
                        Ok(i + 1)
                    } else if i + 1 < args.len() {
                        if can_be_value_exec(&args[i + 1]) {
                            map.insert(name, args[i + 1].clone());
                            Ok(i + 2)
                        } else {
                            Err(
                                message(
                                    "option --",
                                    name.as_str(),
                                    " requires a value, but next argument is an option",
                                ),
                            )
                        }
                    } else {
                        Err(message("option --", name.as_str(), " requires a value, but none provided"))
                    }
                } else if has_value {
                    Err(message("flag --", name.as_str(), " does not take a value"))
                } else {
                    map.insert(name, "true".to_owned());
                    Ok(i + 1)
                }
            },
        }
    }

    /// The cluster of short options `args[i]` (of characters `cs`): whether
    /// the next argument was taken as a value, with `map` updated, or the
    /// error.
    fn parse_short_exec(&self, args: &[String], i: usize, cs: &Vec<char>, map: &mut StrMap<String>) -> (r:
        Result<bool, String>)
        requires
            i < args@.len(),
            cs@ == args@[i as int]@,
            is_short_options(cs@),
        ensures
            match parse_short(
                self@.arguments,
                string_views(args@),
                i as int,
                cs@.drop_first(),
                0,
                old(map).view(),
            ) {
                Ok((m, took)) => r == Ok::<bool, String>(took) && final(map).view() == m,
                Err(e) => r matches Err(f) && f@ == e,
            },
            r == Ok::<bool, String>(true) ==> i + 1 < args@.len(),
    {
        let ghost av = string_views(args@);
        let ghost defs = self@.arguments;
        let ghost rest = cs@.drop_first();
        let ghost m0 = map.view();
        let n_args = args.len();
        assert(i + 1 < av.len() ==> av[i + 1] == args@[i + 1]@);
        let n = cs.len();
        let mut j: usize = 0;
        while j + 1 < n
            invariant
                n == cs@.len(),
                n >= 2,
                rest == cs@.drop_first(),
                m0 == old(map).view(),
                j + 1 <= n,
                av == string_views(args@),
                defs == self@.arguments,
                i < av.len(),
                n_args == av.len(),
                i + 1 < av.len() ==> av[i + 1] == args@[i + 1]@,
                parse_short(defs, av, i as int, rest, 0, m0) == parse_short(
                    defs,
                    av,
                    i as int,
                    rest,
                    j as int,
                    map.view(),
                ),
            decreases n - j,
        {
            let c = cs[j + 1];
            assert(rest[j as int] == c);
            match self.find_short_exec(c) {
                None => {
                    let mut m = "unknown short option: -".to_owned();
                    m.push(c);
                    proof {
                        assert(m@ =~= msg_unknown_short(c));
                    }
                    return Err(m);
                },
                Some(k) => {
                    let long = self.arguments[k].long.clone();
                    assert(long@ == defs[k as int].long);
                    assert(self.arguments@[k as int].takes_value == defs[k as int].takes_value);
                    if !self.arguments[k].takes_value {
                        map.insert(long, "true".to_owned());
                    } else if j + 2 < n {
                        let v = string_of(cs, j + 2, n);
                        assert(v@ =~= rest.subrange(j + 1, rest.len() as int));
                        map.insert(long, v);
                        return Ok(false);
                    } else if i + 1 < args.len() {
                        if can_be_value_exec(&args[i + 1]) {
                            map.insert(long, args[i + 1].clone());
                            return Ok(true);
                        } else {
                            return Err(
                                message_char(
                                    "option -",
                                    c,
                                    " requires a value, but next argument is an option",
                                ),
                            );
                        }
                    } else {
                        return Err(message_char("option -", c, " requires a value, but none provided"));
                    }
                },
            }
            j += 1;
        }
        Ok(false)
    }

    /// Parses `args`: the options and their values, the action, and the
    /// positional arguments after it; or the error, as the first offending
    /// argument gives it.
    pub fn parse(&self, args: &[String]) -> (r: Result<ArgResult, String>)
        ensures
            match parse_args(self@.arguments, string_views(args@)) {
                Ok(st) => r matches Ok(res) && res.map.view() == st.map && string_views(res.nn@)
                    == st.nn && res.action@ == st.action,
                Err(e) => r matches Err(f) && f@ == e,
            },
    {
        let ghost av = string_views(args@);
        let ghost defs = self@.arguments;
        let mut map: StrMap<String> = StrMap::new();
        let mut nn: Vec<String> = Vec::new();
        let mut action = String::new();
        let mut action_set = false;
        let mut stop = false;
        let n = args.len();
        let mut i: usize = 0;
        proof {
            assert(string_views(nn@) =~= Seq::<Seq<char>>::empty());
        }
        while i < n
            invariant
                n == args@.len(),
                av == string_views(args@),
                defs == self@.arguments,
                i <= n,
                parse_args(defs, av) == parse_from(
                    defs,
                    av,
                    i as int,
                    ParseState {
                        map: map.view(),
                        nn: string_views(nn@),
                        action: action@,
                        action_set,
                        stop,
                    },
                ),
            decreases n - i,
        {
            let ghost st = ParseState {
                map: map.view(),
                nn: string_views(nn@),
                action: action@,
                action_set,
                stop,
            };
            let cs = str_to_chars(args[i].as_str());
            assert(av[i as int] == cs@);
            let l = cs.len();
            if !stop && l == 2 && cs[0] == '-' && cs[1] == '-' {
                proof {
                    assert(cs@ =~= seq!['-', '-']);
                }
                stop = true;
                i += 1;
            } else if !stop && l > 2 && cs[0] == '-' && cs[1] == '-' {
                proof {
                    assert(!is_end_of_options(cs@)) by {
                        if is_end_of_options(cs@) {
                            assert(cs@.len() == 2);
                        }
                    }
                }
                match self.parse_long_exec(args, i, &cs, &mut map) {
                    Err(e) => {
                        return Err(e);
                    },
                    Ok(next) => {
                        i = next;
                    },
                }
            } else if !stop && l > 1 && cs[0] == '-' {
                proof {
                    assert(!is_end_of_options(cs@) && !is_long_option(cs@)) by {
                        if is_end_of_options(cs@) {
                            assert(cs@[1] == '-');
                        }
                    }
                }
                match self.parse_short_exec(args, i, &cs, &mut map) {
                    Err(e) => {
                        return Err(e);
                    },
                    Ok(took) => {
                        i = if took {
                            i + 2
                        } else {
                            i + 1
                        };
                    },
                }
            } else {
                proof {
                    if !stop {
                        assert(!is_end_of_options(cs@)) by {
                            if is_end_of_options(cs@) {
                                assert(cs@[0] == '-' && cs@[1] == '-');
                            }
                        }
                    }
                }
                if !action_set {
                    action = args[i].clone();
                    action_set = true;
                } else {
                    nn.push(args[i].clone());
                    proof {
                        assert(string_views(nn@) =~= st.nn.push(av[i as int]));
                    }
                }
                i += 1;
            }
        }
        Ok(ArgResult { map, nn, action })
    }
}

} // verus!
