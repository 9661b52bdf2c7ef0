//! Wildcard matching: `?` stands for one character, `*` for any run of
//! characters, and `[` matches nothing.
use vstd::prelude::*;

use crate::text::str_to_chars;

verus! {

/// Whether the pattern `p` from position `pi` on matches the text `t` from
/// position `ti` on.
pub open spec fn glob_from(p: Seq<char>, pi: int, t: Seq<char>, ti: int) -> bool
    decreases p.len() - pi, 0int, 0int,
{
    if pi >= p.len() {
        ti == t.len()
    } else if ti >= t.len() {
        forall|k: int| pi <= k < p.len() ==> p[k] == '*'
    } else if p[pi] == '?' {
        glob_from(p, pi + 1, t, ti + 1)
    } else if p[pi] == '*' {
        glob_some_suffix(p, pi + 1, t, ti)
    } else if p[pi] == '[' {
        false
    } else {
        p[pi] == t[ti] && glob_from(p, pi + 1, t, ti + 1)
    }
}

/// Whether the pattern `p` from position `pi` on matches the text `t` from
/// some position at or after `ti` on.
pub open spec fn glob_some_suffix(p: Seq<char>, pi: int, t: Seq<char>, ti: int) -> bool
    decreases p.len() - pi, 1int, t.len() - ti,
{
    glob_from(p, pi, t, ti) || (0 <= ti < t.len() && glob_some_suffix(p, pi, t, ti + 1))
}

/// Whether the pattern `p` matches the whole text `t`.
pub open spec fn glob_match(p: Seq<char>, t: Seq<char>) -> bool {
    glob_from(p, 0, t, 0)
}

/// Whether `pattern` matches the whole of `text`.
pub fn glob(pattern: &str, text: &str) -> (r: bool)
    ensures
        r == glob_match(pattern@, text@),
{
    let p = str_to_chars(pattern);
    let t = str_to_chars(text);
    glob_rec(p.as_slice(), 0, t.as_slice(), 0)
}

fn glob_rec(p: &[char], pi: usize, t: &[char], ti: usize) -> (r: bool)
    requires
        pi <= p@.len(),
        ti <= t@.len(),
    ensures
        r == glob_from(p@, pi as int, t@, ti as int),
    decreases p@.len() - pi,
{
    if pi == p.len() {
        return ti == t.len();
    }
    if ti == t.len() {
        let mut k = pi;
        while k < p.len()
            invariant
                pi <= k <= p@.len(),
                pi < p@.len(),
                ti == t@.len(),
                forall|j: int| pi <= j < k ==> p@[j] == '*',
            decreases p@.len() - k,
        {
            if p[k] != '*' {
                assert(!(forall|j: int| pi <= j < p@.len() ==> p@[j] == '*')) by {
                    assert(p@[k as int] != '*');
                }
                return false;
            }
            k += 1;
        }
        return true;
    }
    let c = p[pi];
    if c == '?' {
        glob_rec(p, pi + 1, t, ti + 1)
    } else if c == '*' {
        let n = t.len();
        let next = pi + 1;
        let mut i = ti;
        loop
            invariant
                ti <= i <= n,
                ti < n,
                n == t@.len(),
                next == pi + 1,
                next <= p@.len(),
                p@[pi as int] == '*',
                glob_some_suffix(p@, next as int, t@, ti as int) == glob_some_suffix(
                    p@,
                    next as int,
                    t@,
                    i as int,
                ),
            decreases n - i,
        {
            if glob_rec(p, next, t, i) {
                return true;
            }
            if i == n {
                return false;
            }
            i += 1;
        }
    } else if c == '[' {
        false
    } else {
        if c == t[ti] {
            glob_rec(p, pi + 1, t, ti + 1)
        } else {
            false
        }
    }
}

/// A pattern without wildcards matches exactly the text equal to it.
pub proof fn lemma_glob_literal(p: Seq<char>, t: Seq<char>)
    requires
        forall|k: int| 0 <= k < p.len() ==> p[k] != '*' && p[k] != '?' && p[k] != '[',
    ensures
        glob_match(p, t) <==> p == t,
{
    lemma_glob_literal_from(p, 0, t, 0);
    assert(p =~= p.subrange(0, p.len() as int));
    assert(t =~= t.subrange(0, t.len() as int));
}

proof fn lemma_glob_literal_from(p: Seq<char>, pi: int, t: Seq<char>, ti: int)
    requires
        0 <= pi <= p.len(),
        0 <= ti <= t.len(),
        forall|k: int| 0 <= k < p.len() ==> p[k] != '*' && p[k] != '?' && p[k] != '[',
    ensures
        glob_from(p, pi, t, ti) <==> p.subrange(pi, p.len() as int) == t.subrange(ti, t.len() as int),
    decreases p.len() - pi,
{
    let ps = p.subrange(pi, p.len() as int);
    let ts = t.subrange(ti, t.len() as int);
    if pi == p.len() {
        if ti == t.len() {
            assert(ps =~= ts);
        } else {
            assert(ps.len() != ts.len());
        }
    } else if ti == t.len() {
        assert(p[pi] != '*');
        assert(ps.len() != ts.len());
    } else {
        assert(p[pi] != '*' && p[pi] != '?' && p[pi] != '[');
        lemma_glob_literal_from(p, pi + 1, t, ti + 1);
        assert(ps =~= seq![p[pi]] + p.subrange(pi + 1, p.len() as int));
        assert(ts =~= seq![t[ti]] + t.subrange(ti + 1, t.len() as int));
        if ps == ts {
            assert(ps[0] == ts[0]);
            assert(p.subrange(pi + 1, p.len() as int) =~= ps.drop_first());
            assert(t.subrange(ti + 1, t.len() as int) =~= ts.drop_first());
        }
    }
}

/// The pattern `*` matches every text.
pub proof fn lemma_glob_star(t: Seq<char>)
    ensures
        glob_match(seq!['*'], t),
{
    let p = seq!['*'];
    assert(p[0] == '*');
    assert(glob_from(p, 1, t, t.len() as int));
    lemma_some_suffix_of(p, 1, t, 0, t.len() as int);
}

/// The pattern `?` matches exactly the texts of one character.
pub proof fn lemma_glob_question(t: Seq<char>)
    ensures
        glob_match(seq!['?'], t) == (t.len() == 1),
{
    let p = seq!['?'];
    assert(p[0] == '?');
    if t.len() == 0 {
        assert(!(forall|k: int| 0 <= k < p.len() ==> p[k] == '*')) by {
            assert(p[0] != '*');
        }
    } else {
        assert(glob_from(p, 1, t, 1) == (t.len() == 1));
        assert(glob_match(p, t) == glob_from(p, 1, t, 1));
    }
}

/// Matching depends only on what follows the positions: a pattern and a
/// text that continue, from `pi + d` and `ti + k`, as `p` and `t` do from
/// `pi` and `ti`, match there exactly when `p` and `t` do.
proof fn lemma_glob_shift(
    p: Seq<char>,
    pi: int,
    t: Seq<char>,
    ti: int,
    pp: Seq<char>,
    d: int,
    tt: Seq<char>,
    k: int,
)
    requires
        0 <= d,
        0 <= k,
        0 <= pi <= p.len(),
        0 <= ti <= t.len(),
        pp.len() == p.len() + d,
        tt.len() == t.len() + k,
        forall|j: int| 0 <= j < p.len() ==> pp[j + d] == #[trigger] p[j],
        forall|j: int| 0 <= j < t.len() ==> tt[j + k] == #[trigger] t[j],
    ensures
        glob_from(p, pi, t, ti) == glob_from(pp, pi + d, tt, ti + k),
        glob_some_suffix(p, pi, t, ti) == glob_some_suffix(pp, pi + d, tt, ti + k),
    decreases p.len() - pi, t.len() - ti,
{
    if pi < p.len() {
        assert(pp[pi + d] == p[pi]);
        if ti >= t.len() {
            assert((forall|j: int| pi <= j < p.len() ==> p[j] == '*') == (forall|j: int|
                pi + d <= j < pp.len() ==> pp[j] == '*')) by {
                if forall|j: int| pi <= j < p.len() ==> p[j] == '*' {
                    assert forall|j: int| pi + d <= j < pp.len() implies pp[j] == '*' by {
                        assert(p[j - d] == '*');
                    }
                }
                if forall|j: int| pi + d <= j < pp.len() ==> pp[j] == '*' {
                    assert forall|j: int| pi <= j < p.len() implies p[j] == '*' by {
                        assert(pp[j + d] == '*');
                    }
                }
            }
        } else {
            assert(tt[ti + k] == t[ti]);
            lemma_glob_shift(p, pi + 1, t, ti + 1, pp, d, tt, k);
            lemma_glob_shift(p, pi + 1, t, ti, pp, d, tt, k);
        }
    }
    assert(glob_from(p, pi, t, ti) == glob_from(pp, pi + d, tt, ti + k));
    if ti < t.len() {
        lemma_glob_shift(p, pi, t, ti + 1, pp, d, tt, k);
        assert(glob_some_suffix(p, pi, t, ti + 1) == glob_some_suffix(pp, pi + d, tt, ti + 1 + k));
    }
    assert(glob_some_suffix(p, pi, t, ti) == (glob_from(p, pi, t, ti) || (0 <= ti < t.len()
        && glob_some_suffix(p, pi, t, ti + 1))));
    assert(glob_some_suffix(pp, pi + d, tt, ti + k) == (glob_from(pp, pi + d, tt, ti + k) || (0 <= ti
        + k < tt.len() && glob_some_suffix(pp, pi + d, tt, ti + k + 1))));
}

/// A `*` put before a pattern lets any text come before what the pattern
/// matches.
pub proof fn lemma_glob_star_prefix(p: Seq<char>, s: Seq<char>, t: Seq<char>)
    requires
        glob_match(p, t),
    ensures
        glob_match(seq!['*'] + p, s + t),
{
    let pp = seq!['*'] + p;
    let tt = s + t;
    assert forall|j: int| 0 <= j < p.len() implies pp[j + 1] == #[trigger] p[j] by {}
    assert forall|j: int| 0 <= j < t.len() implies tt[j + s.len()] == #[trigger] t[j] by {}
    lemma_glob_shift(p, 0, t, 0, pp, 1, tt, s.len() as int);
    assert(pp[0] == '*');
    if tt.len() == 0 {
        assert forall|j: int| 0 <= j < pp.len() implies pp[j] == '*' by {
            if j > 0 {
                assert(glob_from(pp, 1, tt, 0));
            }
        }
    } else {
        lemma_some_suffix_of(pp, 1, tt, 0, s.len() as int);
    }
}

/// A match from any position at or after `ti` is a match of some suffix.
pub proof fn lemma_some_suffix_of(p: Seq<char>, pi: int, t: Seq<char>, ti: int, i: int)
    requires
        0 <= ti <= i <= t.len(),
        glob_from(p, pi, t, i),
    ensures
        glob_some_suffix(p, pi, t, ti),
    decreases i - ti,
{
    if ti < i {
        lemma_some_suffix_of(p, pi, t, ti + 1, i);
    }
}

} // verus!
