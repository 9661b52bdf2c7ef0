//! The fixed tables of the DEFLATE format (RFC 1951, section 3.2.5).
use vstd::arithmetic::power2::{lemma2_to64, pow2};
use vstd::prelude::*;

use super::codes::{canonical_code, count_len, first_code, lemma_count_run};

verus! {

/// Smallest match length of length code `257 + i`.
pub open spec fn length_base(i: int) -> int {
    if i < 8 {
        i + 3
    } else if i < 12 {
        11 + 2 * (i - 8)
    } else if i < 16 {
        19 + 4 * (i - 12)
    } else if i < 20 {
        35 + 8 * (i - 16)
    } else if i < 24 {
        67 + 16 * (i - 20)
    } else if i < 28 {
        131 + 32 * (i - 24)
    } else {
        258
    }
}

/// Number of extra bits of length code `257 + i`.
pub open spec fn length_extra(i: int) -> int {
    if i < 8 || i >= 28 {
        0
    } else {
        (i - 4) / 4
    }
}

/// Smallest distance of distance code `i`.
pub open spec fn dist_base(i: int) -> int {
    if i == 0 {
        1
    } else if i == 1 {
        2
    } else if i == 2 {
        3
    } else if i == 3 {
        4
    } else if i == 4 {
        5
    } else if i == 5 {
        7
    } else if i == 6 {
        9
    } else if i == 7 {
        13
    } else if i == 8 {
        17
    } else if i == 9 {
        25
    } else if i == 10 {
        33
    } else if i == 11 {
        49
    } else if i == 12 {
        65
    } else if i == 13 {
        97
    } else if i == 14 {
        129
    } else if i == 15 {
        193
    } else if i == 16 {
        257
    } else if i == 17 {
        385
    } else if i == 18 {
        513
    } else if i == 19 {
        769
    } else if i == 20 {
        1025
    } else if i == 21 {
        1537
    } else if i == 22 {
        2049
    } else if i == 23 {
        3073
    } else if i == 24 {
        4097
    } else if i == 25 {
        6145
    } else if i == 26 {
        8193
    } else if i == 27 {
        12289
    } else if i == 28 {
        16385
    } else {
        24577
    }
}

/// Number of extra bits of distance code `i`.
pub open spec fn dist_extra(i: int) -> int {
    if i < 4 {
        0
    } else {
        i / 2 - 1
    }
}

/// The index of the length code of match length `l`: the last one whose
/// base is at most `l`, searched upward from `i`.
pub open spec fn length_index_from(l: int, i: int) -> int
    decreases 28 - i,
{
    if i < 28 && l >= length_base(i + 1) {
        length_index_from(l, i + 1)
    } else {
        i
    }
}

/// The index of the distance code of distance `d`, searched upward from
/// `i`.
pub open spec fn dist_index_from(d: int, i: int) -> int
    decreases 29 - i,
{
    if i < 29 && d >= dist_base(i + 1) {
        dist_index_from(d, i + 1)
    } else {
        i
    }
}

/// Code length of literal/length symbol `s` in the fixed code.
pub open spec fn fixed_lit_length(s: int) -> u8 {
    if s < 144 {
        8
    } else if s < 256 {
        9
    } else if s < 280 {
        7
    } else {
        8
    }
}

/// The fixed literal/length code lengths of symbols `0..n`.
pub open spec fn fixed_lit_lengths(n: int) -> Seq<u8> {
    Seq::new(n as nat, |s: int| fixed_lit_length(s))
}

/// The fixed distance code lengths of symbols `0..n`: all five bits.
pub open spec fn fixed_dist_lengths(n: int) -> Seq<u8> {
    Seq::new(n as nat, |s: int| 5u8)
}

pub fn length_base_at(i: usize) -> (r: u16)
    requires
        i < 29,
    ensures
        r == length_base(i as int),
{
    if i < 8 {
        i as u16 + 3
    } else if i < 12 {
        11 + 2 * (i as u16 - 8)
    } else if i < 16 {
        19 + 4 * (i as u16 - 12)
    } else if i < 20 {
        35 + 8 * (i as u16 - 16)
    } else if i < 24 {
        67 + 16 * (i as u16 - 20)
    } else if i < 28 {
        131 + 32 * (i as u16 - 24)
    } else {
        258
    }
}

pub fn length_extra_at(i: usize) -> (r: u8)
    requires
        i < 29,
    ensures
        r == length_extra(i as int),
{
    if i < 8 || i >= 28 {
        0
    } else {
        ((i - 4) / 4) as u8
    }
}

pub fn dist_base_at(i: usize) -> (r: u16)
    requires
        i < 30,
    ensures
        r == dist_base(i as int),
{
    if i == 0 {
        1
    } else if i == 1 {
        2
    } else if i == 2 {
        3
    } else if i == 3 {
        4
    } else if i == 4 {
        5
    } else if i == 5 {
        7
    } else if i == 6 {
        9
    } else if i == 7 {
        13
    } else if i == 8 {
        17
    } else if i == 9 {
        25
    } else if i == 10 {
        33
    } else if i == 11 {
        49
    } else if i == 12 {
        65
    } else if i == 13 {
        97
    } else if i == 14 {
        129
    } else if i == 15 {
        193
    } else if i == 16 {
        257
    } else if i == 17 {
        385
    } else if i == 18 {
        513
    } else if i == 19 {
        769
    } else if i == 20 {
        1025
    } else if i == 21 {
        1537
    } else if i == 22 {
        2049
    } else if i == 23 {
        3073
    } else if i == 24 {
        4097
    } else if i == 25 {
        6145
    } else if i == 26 {
        8193
    } else if i == 27 {
        12289
    } else if i == 28 {
        16385
    } else {
        24577
    }
}

pub fn dist_extra_at(i: usize) -> (r: u8)
    requires
        i < 30,
    ensures
        r == dist_extra(i as int),
{
    if i < 4 {
        0
    } else {
        (i / 2 - 1) as u8
    }
}

/// The length codes split the lengths 3..=258 into ranges that their
/// extra bits cover.
pub proof fn lemma_length_table(i: int)
    requires
        0 <= i < 29,
    ensures
        length_base(i) >= 3,
        length_base(i) <= 258,
        i < 28 ==> length_base(i) < length_base(i + 1),
        i < 28 ==> length_base(i + 1) - length_base(i) <= pow2(length_extra(i) as nat),
        length_extra(i) <= 5,
        i < 28 ==> length_base(i) + pow2(length_extra(i) as nat) <= 259,
        i == 28 ==> length_extra(i) == 0,
{
    lemma2_to64();
}

/// The distance codes split the distances 1..=32768 into ranges that
/// their extra bits cover.
pub proof fn lemma_dist_table(i: int)
    requires
        0 <= i < 30,
    ensures
        dist_base(i) >= 1,
        i < 29 ==> dist_base(i) < dist_base(i + 1),
        i < 29 ==> dist_base(i + 1) - dist_base(i) == pow2(dist_extra(i) as nat),
        i == 29 ==> dist_base(i) + pow2(dist_extra(i) as nat) == 32769,
        dist_extra(i) <= 13,
{
    lemma2_to64();
}

/// The length code index found for a match length `l` in `3..=258`.
pub proof fn lemma_length_index(l: int, i: int)
    requires
        3 <= l <= 258,
        0 <= i <= 28,
        length_base(i) <= l,
    ensures
        0 <= length_index_from(l, i) <= 28,
        length_base(length_index_from(l, i)) <= l,
        l - length_base(length_index_from(l, i)) < pow2(length_extra(length_index_from(l, i)) as nat),
    decreases 28 - i,
{
    lemma_length_table(i);
    if i < 28 && l >= length_base(i + 1) {
        lemma_length_index(l, i + 1);
    } else {
        lemma2_to64();
        if i == 28 {
            assert(l == 258);
        }
    }
}

/// The distance code index found for a distance `d` in `1..=32768`.
pub proof fn lemma_dist_index(d: int, i: int)
    requires
        1 <= d <= 32768,
        0 <= i <= 29,
        dist_base(i) <= d,
    ensures
        0 <= dist_index_from(d, i) <= 29,
        dist_base(dist_index_from(d, i)) <= d,
        d - dist_base(dist_index_from(d, i)) < pow2(dist_extra(dist_index_from(d, i)) as nat),
    decreases 29 - i,
{
    lemma_dist_table(i);
    if i < 29 && d >= dist_base(i + 1) {
        lemma_dist_index(d, i + 1);
    }
}

/// How often each length occurs among the first `s` fixed literal/length
/// code lengths.
pub proof fn lemma_fixed_counts(n: int, l: int, s: int)
    requires
        280 <= n <= 288,
        0 <= s <= n,
    ensures
        count_len(fixed_lit_lengths(n), l, s) == if l == 8 {
            (if s < 144 {
                s
            } else {
                144
            }) + if s > 280 {
                s - 280
            } else {
                0
            }
        } else if l == 9 {
            if s < 144 {
                0
            } else if s < 256 {
                s - 144
            } else {
                112
            }
        } else if l == 7 {
            if s < 256 {
                0
            } else if s < 280 {
                s - 256
            } else {
                24
            }
        } else {
            0
        },
{
    let f = fixed_lit_lengths(n);
    let a = if s < 144 {
        s
    } else {
        144
    };
    lemma_count_run(f, l, 0, a, 8);
    if s > 144 {
        let b = if s < 256 {
            s
        } else {
            256
        };
        lemma_count_run(f, l, 144, b, 9);
        if s > 256 {
            let c = if s < 280 {
                s
            } else {
                280
            };
            lemma_count_run(f, l, 256, c, 7);
            if s > 280 {
                lemma_count_run(f, l, 280, s, 8);
            }
        }
    }
}

/// The first codes of each length of the fixed literal/length code.
pub proof fn lemma_fixed_first_codes(n: int)
    requires
        280 <= n <= 288,
    ensures
        forall|l: int| 1 <= l <= 7 ==> #[trigger] first_code(fixed_lit_lengths(n), l) == 0,
        first_code(fixed_lit_lengths(n), 8) == 48,
        first_code(fixed_lit_lengths(n), 9) == (48 + 144 + (n - 280)) * 2,
{
    let f = fixed_lit_lengths(n);
    assert(f.len() == n);
    lemma_fixed_counts(n, 1, n);
    lemma_fixed_counts(n, 2, n);
    lemma_fixed_counts(n, 3, n);
    lemma_fixed_counts(n, 4, n);
    lemma_fixed_counts(n, 5, n);
    lemma_fixed_counts(n, 6, n);
    lemma_fixed_counts(n, 7, n);
    lemma_fixed_counts(n, 8, n);
    assert(count_len(f, 1, n) == 0);
    assert(count_len(f, 2, n) == 0);
    assert(count_len(f, 3, n) == 0);
    assert(count_len(f, 4, n) == 0);
    assert(count_len(f, 5, n) == 0);
    assert(count_len(f, 6, n) == 0);
    assert(count_len(f, 7, n) == 24);
    assert(count_len(f, 8, n) == 144 + (n - 280));
    assert(first_code(f, 1) == 0);
    assert(first_code(f, 2) == 0);
    assert(first_code(f, 3) == 0);
    assert(first_code(f, 4) == 0);
    assert(first_code(f, 5) == 0);
    assert(first_code(f, 6) == 0);
    assert(first_code(f, 7) == 0);
    assert(first_code(f, 8) == 48);
    assert(first_code(f, 9) == (48 + 144 + (n - 280)) * 2);
}

/// The fixed literal/length code of symbol `s`, in closed form.
pub proof fn lemma_fixed_lit_code(n: int, s: int)
    requires
        280 <= n <= 288,
        0 <= s < n,
    ensures
        canonical_code(fixed_lit_lengths(n), s) == if s < 144 {
            48 + s
        } else if s < 256 {
            (48 + 144 + (n - 280)) * 2 + (s - 144)
        } else if s < 280 {
            s - 256
        } else {
            192 + (s - 280)
        },
        canonical_code(fixed_lit_lengths(n), s) < pow2(fixed_lit_length(s) as nat),
{
    lemma_fixed_first_codes(n);
    lemma_fixed_counts(n, fixed_lit_length(s) as int, s);
    lemma2_to64();
    assert(first_code(fixed_lit_lengths(n), 7) == 0);
}

/// The fixed distance code of symbol `s` is `s`, in five bits.
pub proof fn lemma_fixed_dist_code(n: int, s: int)
    requires
        0 <= s < n <= 32,
    ensures
        canonical_code(fixed_dist_lengths(n), s) == s,
        s < pow2(5),
{
    let f = fixed_dist_lengths(n);
    lemma2_to64();
    lemma_count_run(f, 1, 0, n, 5u8);
    lemma_count_run(f, 2, 0, n, 5u8);
    lemma_count_run(f, 3, 0, n, 5u8);
    lemma_count_run(f, 4, 0, n, 5u8);
    lemma_count_run(f, 5, 0, s, 5u8);
    assert(f.len() == n);
    assert(count_len(f, 1, n) == 0);
    assert(count_len(f, 2, n) == 0);
    assert(count_len(f, 3, n) == 0);
    assert(count_len(f, 4, n) == 0);
    assert(first_code(f, 1) == 0);
    assert(first_code(f, 2) == 0);
    assert(first_code(f, 3) == 0);
    assert(first_code(f, 4) == 0);
    assert(first_code(f, 5) == 0);
}

} // verus!
