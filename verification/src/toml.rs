//! The configuration format of git: sections in brackets, then `key =
//! value` lines; values are kept as the text written.
use vstd::prelude::*;

use crate::os::fs::{split_on, split_push};
use crate::strmap::StrMap;
use crate::text::{push_chars, str_to_chars, trim, trim_chars};

verus! {

/// A configuration: its sections by name, each a map from keys to the text
/// of their values.
pub struct Toml {
    pub map: StrMap<StrMap<String>>,
}

/// A line without the `\r` that ended it, if any.
pub open spec fn strip_cr(p: Seq<char>) -> Seq<char> {
    if p.len() > 0 && p.last() == '\r' {
        p.drop_last()
    } else {
        p
    }
}

/// The lines of `s`, as std's `str::lines` gives them: split at `\n`, each
/// line ended by `\n` without a `\r` before it, and no empty last line.
pub open spec fn str_lines(s: Seq<char>) -> Seq<Seq<char>> {
    let pieces = split_on(s, '\n');
    let body = pieces.take(pieces.len() - 1).map_values(|p: Seq<char>| strip_cr(p));
    if pieces.last().len() == 0 {
        body
    } else {
        body.push(pieces.last())
    }
}

/// The state of reading a configuration: the sections done, and the name
/// and entries of the section being read.
pub struct TomlState {
    pub map: Map<Seq<char>, Map<Seq<char>, Seq<char>>>,
    pub name: Seq<char>,
    pub cat: Map<Seq<char>, Seq<char>>,
}

/// A section header: `[`, a name, `]`.
pub open spec fn is_header(line: Seq<char>) -> bool {
    line.len() > 0 && line[0] == '[' && line.last() == ']'
}

/// The state after one line: a header closes the section being read (kept
/// if it has entries) and opens another; a line with exactly one `=` sets a
/// key of the section being read; other lines change nothing.
pub open spec fn toml_step(st: TomlState, line: Seq<char>) -> TomlState {
    if is_header(line) {
        TomlState {
            map: if st.cat == Map::<Seq<char>, Seq<char>>::empty() {
                st.map
            } else {
                st.map.insert(st.name, st.cat)
            },
            name: line.subrange(1, line.len() - 1),
            cat: Map::empty(),
        }
    } else {
        let parts = split_on(line, '=');
        if parts.len() != 2 {
            st
        } else {
            TomlState { cat: st.cat.insert(trim(parts[0]), trim(parts[1])), ..st }
        }
    }
}

/// The state after the lines `lines[k..]`.
pub open spec fn toml_from(lines: Seq<Seq<char>>, k: int, st: TomlState) -> TomlState
    decreases lines.len() - k,
{
    if k < 0 || k >= lines.len() {
        st
    } else {
        toml_from(lines, k + 1, toml_step(st, lines[k]))
    }
}

/// The sections of the configuration text `s`: those closed by a later
/// header.
pub open spec fn toml_sections(s: Seq<char>) -> Map<Seq<char>, Map<Seq<char>, Seq<char>>> {
    toml_from(
        str_lines(s),
        0,
        TomlState { map: Map::empty(), name: Seq::empty(), cat: Map::empty() },
    ).map
}

/// The lines of `s`.
fn lines_of(s: &str) -> (r: Vec<String>)
    ensures
        r@.map_values(|x: String| x@) == str_lines(s@),
{
    let cs = str_to_chars(s);
    let mut pieces: Vec<String> = Vec::new();
    split_push(&mut pieces, &cs, 0, '\n');
    let ghost pv = pieces@.map_values(|x: String| x@);
    proof {
        assert(cs@.subrange(0, cs@.len() as int) =~= cs@);
        assert(pv =~= split_on(s@, '\n'));
        lemma_split_nonempty(s@, '\n');
    }
    let n = pieces.len();
    let mut r: Vec<String> = Vec::new();
    let mut k: usize = 0;
    while k + 1 < n
        invariant
            n == pieces@.len(),
            n >= 1,
            k + 1 <= n,
            pv == pieces@.map_values(|x: String| x@),
            r@.map_values(|x: String| x@) == pv.take(k as int).map_values(|p: Seq<char>| strip_cr(p)),
        decreases n - k,
    {
        let cs = str_to_chars(pieces[k].as_str());
        let m = cs.len();
        let end = if m > 0 && cs[m - 1] == '\r' {
            m - 1
        } else {
            m
        };
        let mut line = String::new();
        let mut q: usize = 0;
        while q < end
            invariant
                q <= end,
                end <= m,
                m == cs@.len(),
                line@ == cs@.subrange(0, q as int),
            decreases end - q,
        {
            line.push(cs[q]);
            proof {
                assert(line@ =~= cs@.subrange(0, q + 1));
            }
            q += 1;
        }
        proof {
            assert(pv[k as int] == cs@);
            assert(line@ =~= strip_cr(cs@));
        }
        let ghost r0 = r@.map_values(|x: String| x@);
        r.push(line);
        proof {
            assert(r@.map_values(|x: String| x@) =~= r0.push(strip_cr(pv[k as int])));
            assert(pv.take(k + 1) =~= pv.take(k as int).push(pv[k as int]));
            assert(pv.take(k + 1).map_values(|p: Seq<char>| strip_cr(p)) =~= pv.take(k as int).map_values(
                |p: Seq<char>| strip_cr(p),
            ).push(strip_cr(pv[k as int])));
        }
        k += 1;
    }
    let last = str_to_chars(pieces[n - 1].as_str());
    proof {
        assert(pv.last() == last@);
    }
    if last.len() > 0 {
        let ghost r0 = r@.map_values(|x: String| x@);
        let line = pieces[n - 1].clone();
        r.push(line);
        proof {
            assert(r@.map_values(|x: String| x@) =~= r0.push(pv.last()));
        }
    }
    r
}

proof fn lemma_split_nonempty(s: Seq<char>, c: char)
    ensures
        split_on(s, c).len() >= 1,
    decreases s.len(),
{
    match crate::args::find_char(s, c, 0) {
        None => {},
        Some(k) => {
            crate::args::lemma_find_char_some(s, c, 0, k);
            lemma_split_nonempty(s.subrange(k + 1, s.len() as int), c);
        },
    }
}

/// A section's lines when written out: `[name]`, then a line
/// `\tkey = value` for each entry, in order.
pub open spec fn section_lines(name: Seq<char>, entries: Seq<(Seq<char>, Seq<char>)>) -> Seq<Seq<char>> {
    seq![seq!['['] + name + seq![']']] + entries.map_values(
        |kv: (Seq<char>, Seq<char>)| seq!['\t'] + kv.0 + seq![' ', '=', ' '] + kv.1,
    )
}

/// The lines of the sections `secs` written out one after the other.
pub open spec fn toml_lines(secs: Seq<(Seq<char>, Seq<(Seq<char>, Seq<char>)>)>) -> Seq<Seq<char>>
    decreases secs.len(),
{
    if secs.len() == 0 {
        Seq::empty()
    } else {
        toml_lines(secs.drop_last()) + section_lines(secs.last().0, secs.last().1)
    }
}

/// The lines joined by `\n`, with none after the last.
pub open spec fn join_lines(lines: Seq<Seq<char>>) -> Seq<char>
    decreases lines.len(),
{
    if lines.len() == 0 {
        Seq::empty()
    } else if lines.len() == 1 {
        lines[0]
    } else {
        join_lines(lines.drop_last()) + seq!['\n'] + lines.last()
    }
}

/// The sections and entries of `secs` as character sequences.
pub open spec fn sections_view(secs: Seq<(String, Vec<(String, String)>)>) -> Seq<
    (Seq<char>, Seq<(Seq<char>, Seq<char>)>),
> {
    secs.map_values(
        |e: (String, Vec<(String, String)>)|
            (e.0@, e.1@.map_values(|kv: (String, String)| (kv.0@, kv.1@))),
    )
}

/// Adds `line` to the text `out` written so far, after a `\n` unless it is
/// the first line.
fn push_line(out: &mut String, first: bool, line: &String, Ghost(lines): Ghost<Seq<Seq<char>>>)
    requires
        old(out)@ == join_lines(lines),
        first == (lines.len() == 0),
    ensures
        final(out)@ == join_lines(lines.push(line@)),
{
    if !first {
        out.push('\n');
    }
    push_chars(out, line.as_str());
    proof {
        assert(lines.push(line@).drop_last() =~= lines);
        if first {
            assert(lines.push(line@)[0] == line@);
            assert(out@ =~= line@);
        }
    }
}

/// The text of a configuration whose sections, with their entries as the
/// texts of keys and values, are `sections`, in that order: for each
/// section a line `[name]` and a line `\tkey = value` for each entry, the
/// lines joined by `\n`.
pub fn toml_text(sections: &Vec<(String, Vec<(String, String)>)>) -> (r: String)
    ensures
        r@ == join_lines(toml_lines(sections_view(sections@))),
{
    let ghost sv = sections_view(sections@);
    let mut out = String::new();
    let mut first = true;
    let ghost mut lines: Seq<Seq<char>> = Seq::empty();
    let mut i: usize = 0;
    proof {
        assert(out@ =~= join_lines(lines));
    }
    while i < sections.len()
        invariant
            i <= sections@.len(),
            sv == sections_view(sections@),
            lines == toml_lines(sv.take(i as int)),
            out@ == join_lines(lines),
            first == (lines.len() == 0),
        decreases sections@.len() - i,
    {
        let name = &sections[i].0;
        let entries = &sections[i].1;
        let mut header = String::new();
        header.push('[');
        push_chars(&mut header, name.as_str());
        header.push(']');
        let ghost base = lines;
        let ghost ev = entries@.map_values(|kv: (String, String)| (kv.0@, kv.1@));
        proof {
            assert(header@ =~= seq!['['] + name@ + seq![']']);
        }
        push_line(&mut out, first, &header, Ghost(lines));
        proof {
            lines = lines.push(header@);
        }
        first = false;
        let mut j: usize = 0;
        while j < entries.len()
            invariant
                j <= entries@.len(),
                ev == entries@.map_values(|kv: (String, String)| (kv.0@, kv.1@)),
                lines == base + section_lines(name@, ev.take(j as int)),
                out@ == join_lines(lines),
                !first,
                lines.len() > 0,
            decreases entries@.len() - j,
        {
            let mut line = String::new();
            line.push('\t');
            push_chars(&mut line, entries[j].0.as_str());
            line.push(' ');
            line.push('=');
            line.push(' ');
            push_chars(&mut line, entries[j].1.as_str());
            proof {
                assert(ev[j as int] == (entries@[j as int].0@, entries@[j as int].1@));
                assert(line@ =~= seq!['\t'] + ev[j as int].0 + seq![' ', '=', ' '] + ev[j as int].1);
            }
            push_line(&mut out, first, &line, Ghost(lines));
            proof {
                assert(section_lines(name@, ev.take(j + 1)) =~= section_lines(name@, ev.take(j as int)).push(
                    line@,
                ));
                lines = lines.push(line@);
                assert(lines =~= base + section_lines(name@, ev.take(j + 1)));
            }
            j += 1;
        }
        proof {
            assert(ev.take(entries@.len() as int) =~= ev);
            assert(sv[i as int] == (name@, ev));
            assert(sv.take(i + 1).drop_last() =~= sv.take(i as int));
            assert(sv.take(i + 1).last() == sv[i as int]);
        }
        i += 1;
    }
    proof {
        assert(sv.take(sections@.len() as int) =~= sv);
    }
    out
}

impl Toml {
    /// A configuration without sections.
    pub fn new() -> (t: Toml)
        ensures
            t.map@ == Map::<Seq<char>, Map<Seq<char>, Seq<char>>>::empty(),
    {
        Toml { map: StrMap::new() }
    }

    /// The configuration with the sections `map`.
    pub fn from_map(map: StrMap<StrMap<String>>) -> (t: Toml)
        ensures
            t.map@ == map@,
    {
        Toml { map }
    }

    /// The configuration of the text `string`. A section is kept when a
    /// later header closes it and it has entries; the section being read at
    /// the end is not kept.
    pub fn from_str(string: &str) -> (r: Option<Toml>)
        ensures
            r matches Some(t) && t.map@.dom() == toml_sections(string@).dom() && forall|k: Seq<char>|
                #[trigger] t.map@.dom().contains(k) ==> t.map@[k] == toml_sections(string@)[k],
    {
        let lines = lines_of(string);
        let ghost lv = lines@.map_values(|x: String| x@);
        let mut map: StrMap<StrMap<String>> = StrMap::new();
        let mut name = String::new();
        let mut cat: StrMap<String> = StrMap::new();
        let n = lines.len();
        let mut k: usize = 0;
        let ghost init = TomlState { map: Map::empty(), name: Seq::empty(), cat: Map::empty() };
        while k < n
            invariant
                k <= n,
                n == lines@.len(),
                lv == lines@.map_values(|x: String| x@),
                lv == str_lines(string@),
                toml_from(lv, 0, init) == toml_from(
                    lv,
                    k as int,
                    TomlState { map: map@, name: name@, cat: cat@ },
                ),
            decreases n - k,
        {
            let ghost st = TomlState { map: map@, name: name@, cat: cat@ };
            let cs = str_to_chars(lines[k].as_str());
            assert(lv[k as int] == cs@);
            let m = cs.len();
            if m > 0 && cs[0] == '[' && cs[m - 1] == ']' {
                if !cat.is_empty() {
                    let mut done: StrMap<String> = StrMap::new();
                    core::mem::swap(&mut done, &mut cat);
                    map.insert(name, done);
                }
                assert(m >= 2);
                let mut nm = String::new();
                let mut q: usize = 1;
                while q < m - 1
                    invariant
                        1 <= q,
                        q <= m - 1,
                        m == cs@.len(),
                        m >= 2,
                        nm@ == cs@.subrange(1, q as int),
                    decreases m - q,
                {
                    nm.push(cs[q]);
                    proof {
                        assert(nm@ =~= cs@.subrange(1, q + 1));
                    }
                    q += 1;
                }
                name = nm;
                cat = StrMap::new();
                proof {
                    assert(is_header(cs@));
                    assert(name@ == cs@.subrange(1, cs@.len() - 1));
                    assert(cat@ == Map::<Seq<char>, Seq<char>>::empty());
                    assert(map@ == (if st.cat == Map::<Seq<char>, Seq<char>>::empty() {
                        st.map
                    } else {
                        st.map.insert(st.name, st.cat)
                    }));
                    assert(TomlState { map: map@, name: name@, cat: cat@ } == toml_step(st, cs@));
                }
            } else {
                let mut parts: Vec<String> = Vec::new();
                split_push(&mut parts, &cs, 0, '=');
                proof {
                    assert(cs@.subrange(0, m as int) =~= cs@);
                    assert(parts@.map_values(|x: String| x@) =~= split_on(cs@, '='));
                }
                if parts.len() == 2 {
                    let key = trim_chars(&str_to_chars(parts[0].as_str()));
                    let value = trim_chars(&str_to_chars(parts[1].as_str()));
                    proof {
                        assert(parts@.map_values(|x: String| x@)[0] == parts@[0]@);
                        assert(parts@.map_values(|x: String| x@)[1] == parts@[1]@);
                    }
                    cat.insert(key, value);
                }
            }
            k += 1;
        }
        Some(Toml { map })
    }

    /// The section `name`, if there is one.
    pub fn get(&self, name: &str) -> (r: Option<&StrMap<String>>)
        ensures
            match r {
                Some(c) => self.map@.dom().contains(name@) && c@ == self.map@[name@],
                None => !self.map@.dom().contains(name@),
            },
    {
        self.map.get(name)
    }
}

} // verus!
