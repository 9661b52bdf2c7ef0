//! Canonical Huffman codes (RFC 1951, section 3.2.2) and the tables of
//! the DEFLATE format.
use vstd::arithmetic::power2::{lemma2_to64, lemma_pow2_adds, lemma_pow2_pos, lemma_pow2_unfold, pow2};
use std::collections::BTreeMap;
use vstd::prelude::*;

use super::stream::{msb_bits, word_bit, Stream};

verus! {

/// Number of entries of `bl[0..upto]` equal to `len`.
pub open spec fn count_len(bl: Seq<u8>, len: int, upto: int) -> nat
    decreases upto,
{
    if upto <= 0 {
        0
    } else {
        count_len(bl, len, upto - 1) + if bl[upto - 1] == len {
            1nat
        } else {
            0nat
        }
    }
}

/// The smallest code of length `len` in the canonical code of the code
/// lengths `bl`.
pub open spec fn first_code(bl: Seq<u8>, len: int) -> nat
    decreases len,
{
    if len <= 1 {
        0
    } else {
        (first_code(bl, len - 1) + count_len(bl, len - 1, bl.len() as int)) * 2
    }
}

/// The canonical code of symbol `s`: codes of one length are consecutive
/// and follow the order of the symbols.
pub open spec fn canonical_code(bl: Seq<u8>, s: int) -> nat {
    first_code(bl, bl[s] as int) + count_len(bl, bl[s] as int, s)
}

/// The code and length of symbol `s`, or `(0, 0)` for a symbol without a
/// code.
pub open spec fn code_entry(bl: Seq<u8>, s: int) -> (u32, u8) {
    if bl[s] > 0 {
        (canonical_code(bl, s) as u32, bl[s])
    } else {
        (0u32, 0u8)
    }
}

/// Code lengths no longer than 15 bits, for at most 2^15 symbols.
pub open spec fn small_lengths(bl: Seq<u8>) -> bool {
    &&& bl.len() <= 0x8000
    &&& forall|i: int| 0 <= i < bl.len() ==> #[trigger] bl[i] <= 15
}

pub proof fn lemma_count_le(bl: Seq<u8>, len: int, upto: int)
    requires
        upto <= bl.len(),
    ensures
        count_len(bl, len, upto) <= if upto < 0 {
            0
        } else {
            upto
        },
    decreases upto,
{
    if upto > 0 {
        lemma_count_le(bl, len, upto - 1);
    }
}

pub proof fn lemma_count_mono(bl: Seq<u8>, len: int, a: int, b: int)
    requires
        0 <= a <= b,
    ensures
        count_len(bl, len, a) <= count_len(bl, len, b),
    decreases b,
{
    if b > a {
        lemma_count_mono(bl, len, a, b - 1);
    }
}

/// A symbol of length `len` has a rank below the number of such symbols.
pub proof fn lemma_rank_lt_count(bl: Seq<u8>, s: int)
    requires
        0 <= s < bl.len(),
    ensures
        count_len(bl, bl[s] as int, s) < count_len(bl, bl[s] as int, bl.len() as int),
{
    lemma_count_mono(bl, bl[s] as int, s + 1, bl.len() as int);
}

/// Counting over a run of equal lengths.
pub proof fn lemma_count_run(bl: Seq<u8>, len: int, a: int, b: int, c: u8)
    requires
        0 <= a <= b <= bl.len(),
        forall|i: int| a <= i < b ==> bl[i] == c,
    ensures
        count_len(bl, len, b) == count_len(bl, len, a) + if c == len {
            (b - a) as nat
        } else {
            0nat
        },
    decreases b,
{
    if b > a {
        lemma_count_run(bl, len, a, b - 1, c);
    }
}

pub proof fn lemma_first_code_bound(bl: Seq<u8>, len: int)
    requires
        1 <= len,
    ensures
        first_code(bl, len) + count_len(bl, len, bl.len() as int) <= bl.len() * (pow2(len as nat)
            - 1),
    decreases len,
{
    lemma_count_le(bl, len, bl.len() as int);
    lemma_pow2_unfold(len as nat);
    lemma_pow2_pos(len as nat);
    if len == 1 {
        lemma2_to64();
        assert(pow2(1) == 2);
        assert(bl.len() * (pow2(len as nat) - 1) == bl.len()) by (nonlinear_arith)
            requires
                pow2(len as nat) == 2,
        ;
    } else {
        lemma_first_code_bound(bl, len - 1);
        lemma_pow2_unfold((len - 1) as nat);
        let p = pow2((len - 1) as nat) as int;
        let n = bl.len() as int;
        assert(first_code(bl, len) + count_len(bl, len, n) <= n * (pow2(len as nat) - 1)) by (nonlinear_arith)
            requires
                pow2(len as nat) == 2 * p,
                first_code(bl, len) == (first_code(bl, len - 1) + count_len(bl, len - 1, n)) * 2,
                first_code(bl, len - 1) + count_len(bl, len - 1, n) <= n * (p - 1),
                count_len(bl, len, n) <= n,
        ;
    }
}

/// Every code of length `len` lies at or above the codes of any shorter
/// length `k`, scaled up to `len` bits.
pub proof fn lemma_first_code_grows(bl: Seq<u8>, k: int, len: int)
    requires
        1 <= k < len,
    ensures
        first_code(bl, len) >= (first_code(bl, k) + count_len(bl, k, bl.len() as int)) * pow2(
            (len - k) as nat,
        ),
    decreases len,
{
    lemma_pow2_unfold((len - k) as nat);
    if len == k + 1 {
        lemma2_to64();
    } else {
        lemma_first_code_grows(bl, k, len - 1);
        let a = (first_code(bl, k) + count_len(bl, k, bl.len() as int)) as int;
        let p = pow2((len - 1 - k) as nat) as int;
        assert(first_code(bl, len) >= a * (p * 2)) by (nonlinear_arith)
            requires
                first_code(bl, len) == (first_code(bl, len - 1) + count_len(
                    bl,
                    len - 1,
                    bl.len() as int,
                )) * 2,
                first_code(bl, len - 1) >= a * p,
        ;
    }
}

/// Kraft's sum over the nonzero code lengths `l <= a` of `bl[0..upto]`,
/// scaled by `2^255`: the sum of `2^(255 - l)`.
pub open spec fn kraft_sum(bl: Seq<u8>, a: int, upto: int) -> nat
    decreases upto,
{
    if upto <= 0 {
        0
    } else {
        kraft_sum(bl, a, upto - 1) + if 0 < bl[upto - 1] && bl[upto - 1] <= a {
            pow2((255 - bl[upto - 1]) as nat)
        } else {
            0nat
        }
    }
}

/// Kraft's inequality for the code lengths `bl`: the sum of `2^-l` over the
/// nonzero lengths `l` is at most 1.
pub open spec fn kraft(bl: Seq<u8>) -> bool {
    kraft_sum(bl, 255, bl.len() as int) <= pow2(255)
}

proof fn lemma_kraft_zero(bl: Seq<u8>, upto: int)
    ensures
        kraft_sum(bl, 0, upto) == 0,
    decreases upto,
{
    if upto > 0 {
        lemma_kraft_zero(bl, upto - 1);
    }
}

proof fn lemma_kraft_split(bl: Seq<u8>, a: int, upto: int)
    requires
        1 <= a <= 255,
        upto <= bl.len(),
    ensures
        kraft_sum(bl, a, upto) == kraft_sum(bl, a - 1, upto) + count_len(bl, a, upto) * pow2(
            (255 - a) as nat,
        ),
    decreases upto,
{
    let p = pow2((255 - a) as nat);
    if upto > 0 {
        lemma_kraft_split(bl, a, upto - 1);
        let c = count_len(bl, a, upto - 1);
        let e = bl[upto - 1];
        if e == a {
            assert(count_len(bl, a, upto) == c + 1);
            assert((c + 1) * p == c * p + p) by (nonlinear_arith);
            assert(kraft_sum(bl, a, upto) == kraft_sum(bl, a, upto - 1) + p);
            assert(kraft_sum(bl, a - 1, upto) == kraft_sum(bl, a - 1, upto - 1));
        } else {
            assert(count_len(bl, a, upto) == c);
        }
    } else {
        assert(0 * p == 0) by (nonlinear_arith);
    }
}

proof fn lemma_kraft_mono(bl: Seq<u8>, a: int, b: int, upto: int)
    requires
        a <= b,
    ensures
        kraft_sum(bl, a, upto) <= kraft_sum(bl, b, upto),
    decreases upto,
{
    if upto > 0 {
        lemma_kraft_mono(bl, a, b, upto - 1);
    }
}

/// The codes of length `a` and their successor fill the part of the code
/// space that Kraft's sum over the lengths up to `a` measures.
proof fn lemma_kraft_first_code(bl: Seq<u8>, a: int)
    requires
        1 <= a <= 255,
    ensures
        (first_code(bl, a) + count_len(bl, a, bl.len() as int)) * pow2((255 - a) as nat) == kraft_sum(
            bl,
            a,
            bl.len() as int,
        ),
    decreases a,
{
    let n = bl.len() as int;
    lemma_kraft_split(bl, a, n);
    if a == 1 {
        lemma_kraft_zero(bl, n);
    } else {
        lemma_kraft_first_code(bl, a - 1);
        lemma_pow2_unfold((256 - a) as nat);
        let p = pow2((255 - a) as nat) as int;
        let f = (first_code(bl, a - 1) + count_len(bl, a - 1, n)) as int;
        assert(first_code(bl, a) == f * 2);
        assert((f * 2 + count_len(bl, a, n)) * p == f * (2 * p) + count_len(bl, a, n) * p) by (
        nonlinear_arith);
    }
}

/// Code lengths that meet Kraft's inequality leave room in the code space
/// for every canonical code: the code of each symbol with a nonzero length
/// fits in that many bits.
pub proof fn lemma_kraft_codes_fit(bl: Seq<u8>)
    requires
        kraft(bl),
    ensures
        forall|t: int|
            0 <= t < bl.len() && bl[t] != 0 ==> #[trigger] canonical_code(bl, t) < pow2(bl[t] as nat),
{
    let n = bl.len() as int;
    assert forall|t: int| 0 <= t < bl.len() && bl[t] != 0 implies #[trigger] canonical_code(bl, t)
        < pow2(bl[t] as nat) by {
        let a = bl[t] as int;
        lemma_kraft_first_code(bl, a);
        lemma_kraft_mono(bl, a, 255, n);
        lemma_pow2_adds(a as nat, (255 - a) as nat);
        lemma_pow2_pos((255 - a) as nat);
        lemma_rank_lt_count(bl, t);
        let f = (first_code(bl, a) + count_len(bl, a, n)) as int;
        let p = pow2((255 - a) as nat) as int;
        let q = pow2(a as nat) as int;
        assert(f <= q) by (nonlinear_arith)
            requires
                f * p <= q * p,
                p > 0,
        ;
    }
}

/// Computes the canonical code of every symbol from the code lengths `bl`:
/// each symbol `s` with a nonzero length maps to `(code, length)`; symbols
/// of length zero are absent.
pub(crate) fn compute_codes(bl_list: &[u8]) -> (codes: BTreeMap<u16, (u32, u8)>)
    requires
        small_lengths(bl_list@),
    ensures
        forall|k: u16|
            #[trigger] codes@.contains_key(k) <==> (k < bl_list@.len() && bl_list@[k as int] > 0),
        forall|k: u16| codes@.contains_key(k) ==> #[trigger] codes@[k] == code_entry(bl_list@, k as int),
{
    let ghost bl = bl_list@;
    let n = bl_list.len();
    let mut max_bits: u8 = 0;
    let mut i: usize = 0;
    while i < n
        invariant
            n == bl.len(),
            bl == bl_list@,
            i <= n,
            max_bits <= 15,
            small_lengths(bl),
            forall|k: int| 0 <= k < i ==> bl[k] <= max_bits,
        decreases n - i,
    {
        if bl_list[i] > max_bits {
            max_bits = bl_list[i];
        }
        i += 1;
    }
    let max_bits = max_bits as usize;
    let mut bl_count: Vec<u32> = vec![0u32; max_bits + 1];
    let mut i: usize = 0;
    while i < n
        invariant
            n == bl.len(),
            bl == bl_list@,
            i <= n,
            max_bits <= 15,
            small_lengths(bl),
            forall|k: int| 0 <= k < n ==> bl[k] <= max_bits,
            bl_count@.len() == max_bits + 1,
            forall|l: int| 1 <= l <= max_bits ==> #[trigger] bl_count@[l] == count_len(bl, l, i as int),
        decreases n - i,
    {
        let b = bl_list[i];
        if b > 0 {
            proof {
                lemma_count_le(bl, b as int, i as int);
            }
            bl_count.set(b as usize, bl_count[b as usize] + 1);
        }
        i += 1;
    }
    let mut next_code: Vec<u32> = vec![0u32; max_bits + 1];
    let mut bits: usize = 2;
    while bits <= max_bits
        invariant
            n == bl.len(),
            bl == bl_list@,
            2 <= bits,
            bits <= max_bits + 1 || bits == 2,
            max_bits <= 15,
            small_lengths(bl),
            bl_count@.len() == max_bits + 1,
            forall|l: int| 1 <= l <= max_bits ==> #[trigger] bl_count@[l] == count_len(bl, l, n as int),
            next_code@.len() == max_bits + 1,
            forall|l: int| 1 <= l < bits && l <= max_bits ==> #[trigger] next_code@[l] == first_code(bl, l),
        decreases max_bits + 1 - bits,
    {
        proof {
            lemma_first_code_bound(bl, (bits - 1) as int);
            lemma_pow2_pos((bits - 1) as nat);
            lemma2_to64();
            let x = first_code(bl, (bits - 1) as int) + count_len(bl, (bits - 1) as int, n as int);
            assert(x <= 0x8000 * (pow2((bits - 1) as nat) - 1)) by (nonlinear_arith)
                requires
                    x <= n * (pow2((bits - 1) as nat) - 1),
                    n <= 0x8000,
                    pow2((bits - 1) as nat) >= 1,
            ;
            assert(pow2((bits - 1) as nat) <= 0x4000) by {
                if bits - 1 < 14 {
                    vstd::arithmetic::power2::lemma_pow2_strictly_increases((bits - 1) as nat, 14);
                }
            }
            assert(x * 2 <= u32::MAX) by (nonlinear_arith)
                requires
                    x <= 0x8000 * (pow2((bits - 1) as nat) - 1),
                    pow2((bits - 1) as nat) <= 0x4000,
            ;
            vstd::bits::lemma_u32_shl_is_mul(x as u32, 1);
        }
        let v = (next_code[bits - 1] + bl_count[bits - 1]) << 1;
        next_code.set(bits, v);
        bits += 1;
    }
    let mut codes: BTreeMap<u16, (u32, u8)> = BTreeMap::new();
    let mut s: usize = 0;
    while s < n
        invariant
            n == bl.len(),
            bl == bl_list@,
            s <= n,
            max_bits <= 15,
            small_lengths(bl),
            forall|k: int| 0 <= k < n ==> bl[k] <= max_bits,
            next_code@.len() == max_bits + 1,
            forall|l: int|
                1 <= l <= max_bits ==> #[trigger] next_code@[l] == first_code(bl, l) + count_len(
                    bl,
                    l,
                    s as int,
                ),
            forall|k: u16| #[trigger] codes@.contains_key(k) <==> (k < s && bl[k as int] > 0),
            forall|k: u16| codes@.contains_key(k) ==> #[trigger] codes@[k] == code_entry(bl, k as int),
        decreases n - s,
    {
        let b = bl_list[s];
        if b > 0 {
            proof {
                lemma_first_code_bound(bl, b as int);
                lemma_count_mono(bl, b as int, s as int + 1, n as int);
                lemma2_to64();
                assert(pow2(b as nat) <= 0x8000) by {
                    if b < 15 {
                        vstd::arithmetic::power2::lemma_pow2_strictly_increases(b as nat, 15);
                    }
                }
                assert(0x8000 * (pow2(b as nat) - 1) < u32::MAX) by (nonlinear_arith)
                    requires
                        pow2(b as nat) <= 0x8000,
                ;
                assert(n * (pow2(b as nat) - 1) <= 0x8000 * (pow2(b as nat) - 1)) by (nonlinear_arith)
                    requires
                        n <= 0x8000,
                        pow2(b as nat) >= 1,
                ;
            }
            let code = next_code[b as usize];
            codes.insert(s as u16, (code, b));
            next_code.set(b as usize, code + 1);
        }
        s += 1;
    }
    codes
}

/// The symbols of code length `len` among `bl[0..upto]`, in order.
pub open spec fn syms_of_len(bl: Seq<u8>, len: int, upto: int) -> Seq<u16>
    decreases upto,
{
    if upto <= 0 {
        Seq::empty()
    } else if bl[upto - 1] == len {
        syms_of_len(bl, len, upto - 1).push((upto - 1) as u16)
    } else {
        syms_of_len(bl, len, upto - 1)
    }
}

/// The symbols with code lengths `1..=len`, ordered by length, then by
/// symbol.
pub open spec fn syms_upto_len(bl: Seq<u8>, len: int) -> Seq<u16>
    decreases len,
{
    if len <= 0 {
        Seq::empty()
    } else {
        syms_upto_len(bl, len - 1) + syms_of_len(bl, len, bl.len() as int)
    }
}

/// All coded symbols in canonical order.
pub open spec fn sorted_syms(bl: Seq<u8>) -> Seq<u16> {
    syms_upto_len(bl, 15)
}

/// One step of canonical decoding: `code` holds the bits read so far
/// (shifted left by one), `first` the first code of length `len` and
/// `index` the number of symbols with shorter codes.
pub open spec fn decode_from(
    bl: Seq<u8>,
    bits: Seq<bool>,
    p: int,
    len: int,
    code: int,
    first: int,
    index: int,
) -> Option<(u16, int)>
    decreases 16 - len,
{
    if len > 15 || len < 1 || p < 0 || p >= bits.len() {
        None
    } else {
        let c = code + if bits[p] {
            1int
        } else {
            0int
        };
        let count = count_len(bl, len, bl.len() as int) as int;
        if c < first + count {
            Some((sorted_syms(bl)[index + c - first], p + 1))
        } else {
            decode_from(bl, bits, p + 1, len + 1, c * 2, (first + count) * 2, index + count)
        }
    }
}

/// Decodes one symbol of the canonical code of lengths `bl` from
/// `bits[p..]`; gives the symbol and the position after its code.
pub open spec fn huff_decode(bl: Seq<u8>, bits: Seq<bool>, p: int) -> Option<(u16, int)> {
    decode_from(bl, bits, p, 1, 0, 0, 0)
}

pub proof fn lemma_syms_of_len_len(bl: Seq<u8>, len: int, upto: int)
    requires
        upto <= bl.len(),
    ensures
        syms_of_len(bl, len, upto).len() == count_len(bl, len, upto),
    decreases upto,
{
    if upto > 0 {
        lemma_syms_of_len_len(bl, len, upto - 1);
    }
}

pub proof fn lemma_syms_of_len_index(bl: Seq<u8>, len: int, upto: int, s: int)
    requires
        0 <= s < upto <= bl.len(),
        bl[s] == len,
    ensures
        count_len(bl, len, s) < syms_of_len(bl, len, upto).len(),
        syms_of_len(bl, len, upto)[count_len(bl, len, s) as int] == s as u16,
    decreases upto,
{
    lemma_syms_of_len_len(bl, len, upto);
    lemma_syms_of_len_len(bl, len, s);
    if upto - 1 == s {
    } else {
        lemma_syms_of_len_index(bl, len, upto - 1, s);
    }
}

pub proof fn lemma_syms_upto_prefix(bl: Seq<u8>, a: int, b: int)
    requires
        0 <= a <= b,
    ensures
        syms_upto_len(bl, a).len() <= syms_upto_len(bl, b).len(),
        syms_upto_len(bl, b).subrange(0, syms_upto_len(bl, a).len() as int) == syms_upto_len(
            bl,
            a,
        ),
    decreases b,
{
    if b > a {
        lemma_syms_upto_prefix(bl, a, b - 1);
        assert(syms_upto_len(bl, b).subrange(0, syms_upto_len(bl, a).len() as int)
            =~= syms_upto_len(bl, b - 1).subrange(0, syms_upto_len(bl, a).len() as int));
    } else {
        assert(syms_upto_len(bl, b).subrange(0, syms_upto_len(bl, a).len() as int)
            =~= syms_upto_len(bl, a));
    }
}

/// Bit `k` of `v` as arithmetic.
pub proof fn lemma_word_bit_div(v: u32, k: int)
    requires
        0 <= k < 32,
    ensures
        word_bit(v, k) <==> (v as nat / pow2(k as nat)) % 2 == 1,
{
    vstd::bits::lemma_u32_shr_is_div(v, k as u32);
    let x = v >> (k as u32);
    assert((x & 1u32 == 1u32) <==> x % 2 == 1) by (bit_vector);
}

proof fn lemma_div_step(v: nat, k: nat)
    ensures
        v / pow2(k) == 2 * (v / pow2(k + 1)) + (v / pow2(k)) % 2,
{
    lemma_pow2_pos(k);
    lemma_pow2_unfold(k + 1);
    vstd::arithmetic::div_mod::lemma_div_denominator(v as int, pow2(k) as int, 2);
    vstd::arithmetic::div_mod::lemma_fundamental_div_mod((v / pow2(k)) as int, 2);
    assert(pow2(k) * 2 == pow2(k + 1)) by (nonlinear_arith)
        requires
            pow2(k + 1) == 2 * pow2(k),
    ;
}

proof fn lemma_decode_level(bl: Seq<u8>, bits: Seq<bool>, p0: int, s: int, len: int)
    requires
        0 <= s < bl.len(),
        1 <= len <= bl[s] <= 15,
        canonical_code(bl, s) < pow2(bl[s] as nat),
        0 <= p0,
        p0 + bl[s] <= bits.len(),
        bits.subrange(p0, p0 + bl[s]) == msb_bits(canonical_code(bl, s) as u32, bl[s] as int),
    ensures
        decode_from(
            bl,
            bits,
            p0 + len - 1,
            len,
            2 * (canonical_code(bl, s) / pow2((bl[s] - len + 1) as nat)) as int,
            first_code(bl, len) as int,
            syms_upto_len(bl, len - 1).len() as int,
        ) == Some((s as u16, p0 + bl[s])),
    decreases bl[s] - len,
{
    let l = bl[s] as int;
    let v = canonical_code(bl, s);
    let k = (l - len) as nat;
    let n = bl.len() as int;
    lemma2_to64();
    vstd::bits::lemma_u32_pow2_no_overflow(l as nat);
    assert(v <= u32::MAX);
    assert(bits[p0 + len - 1] == msb_bits(v as u32, l)[len - 1]);
    lemma_word_bit_div(v as u32, k as int);
    lemma_div_step(v, k);
    let c = 2 * (v / pow2(k + 1)) + if bits[p0 + len - 1] {
        1nat
    } else {
        0nat
    };
    assert(c == v / pow2(k));
    let count = count_len(bl, len, n);
    lemma_syms_of_len_len(bl, len, n);
    if len < l {
        lemma_first_code_grows(bl, len, l);
        lemma_pow2_pos(k);
        assert(v / pow2(k) >= first_code(bl, len) + count) by {
            let a = (first_code(bl, len) + count) as int;
            vstd::arithmetic::div_mod::lemma_div_is_ordered(a * pow2(k), v as int, pow2(k) as int);
            vstd::arithmetic::div_mod::lemma_div_by_multiple(a, pow2(k) as int);
        }
        lemma_decode_level(bl, bits, p0, s, len + 1);
        assert((l - (len + 1) + 1) as nat == k);
    } else {
        lemma_rank_lt_count(bl, s);
        lemma2_to64();
        assert(k == 0);
        assert(pow2(0) == 1);
        assert(v / 1 == v);
        assert(c == v);
        lemma_syms_of_len_index(bl, len, n, s);
        lemma_syms_upto_prefix(bl, len, 15);
        let r = count_len(bl, len, s) as int;
        let pre = syms_upto_len(bl, len - 1);
        assert(syms_upto_len(bl, len)[pre.len() + r] == s as u16);
        assert(sorted_syms(bl)[pre.len() + r] == syms_upto_len(bl, len)[pre.len() + r]);
    }
}

pub proof fn lemma_decode_from_advances(
    bl: Seq<u8>,
    bits: Seq<bool>,
    p: int,
    len: int,
    code: int,
    first: int,
    index: int,
)
    ensures
        decode_from(bl, bits, p, len, code, first, index) matches Some((s, q)) ==> p < q
            <= bits.len(),
    decreases 16 - len,
{
    if !(len > 15 || len < 1 || p < 0 || p >= bits.len()) {
        let c = code + if bits[p] {
            1int
        } else {
            0int
        };
        let count = count_len(bl, len, bl.len() as int) as int;
        lemma_decode_from_advances(bl, bits, p + 1, len + 1, c * 2, (first + count) * 2, index + count);
    }
}

/// Decoding the canonical code of symbol `s` gives `s` back.
pub proof fn lemma_decode_canonical(bl: Seq<u8>, bits: Seq<bool>, p: int, s: int)
    requires
        0 <= s < bl.len(),
        1 <= bl[s] <= 15,
        canonical_code(bl, s) < pow2(bl[s] as nat),
        0 <= p,
        p + bl[s] <= bits.len(),
        bits.subrange(p, p + bl[s]) == msb_bits(canonical_code(bl, s) as u32, bl[s] as int),
    ensures
        huff_decode(bl, bits, p) == Some((s as u16, p + bl[s])),
{
    lemma_decode_level(bl, bits, p, s, 1);
    let v = canonical_code(bl, s);
    vstd::arithmetic::div_mod::lemma_div_is_ordered(v as int, pow2(bl[s] as nat) as int - 1, pow2(bl[s] as nat) as int);
    lemma_pow2_pos(bl[s] as nat);
    vstd::arithmetic::div_mod::lemma_div_basics(pow2(bl[s] as nat) as int);
    assert(v / pow2(bl[s] as nat) == 0) by {
        vstd::arithmetic::div_mod::lemma_basic_div(v as int, pow2(bl[s] as nat) as int);
    }
    assert(first_code(bl, 1) == 0);
    assert(syms_upto_len(bl, 0).len() == 0);
}

/// A decoding table for the canonical code of some code lengths: how many
/// codes each length has, and the coded symbols in canonical order.
pub struct DecodeTable {
    counts: Vec<u16>,
    symbols: Vec<u16>,
}

impl DecodeTable {
    /// This table decodes the canonical code of the lengths `bl`.
    pub closed spec fn decodes(&self, bl: Seq<u8>) -> bool {
        &&& small_lengths(bl)
        &&& self.counts@.len() == 16
        &&& forall|l: int| 1 <= l <= 15 ==> #[trigger] self.counts@[l] == count_len(bl, l, bl.len() as int)
        &&& self.symbols@ == sorted_syms(bl)
    }

    /// Builds the table of the canonical code of the lengths `bl_list`.
    pub fn build(bl_list: &[u8]) -> (t: Self)
        requires
            small_lengths(bl_list@),
        ensures
            t.decodes(bl_list@),
    {
        let ghost bl = bl_list@;
        let n = bl_list.len();
        let mut counts: Vec<u16> = vec![0u16; 16];
        let mut i: usize = 0;
        while i < n
            invariant
                n == bl.len(),
                bl == bl_list@,
                i <= n,
                small_lengths(bl),
                counts@.len() == 16,
                forall|l: int| 1 <= l <= 15 ==> #[trigger] counts@[l] == count_len(bl, l, i as int),
            decreases n - i,
        {
            let b = bl_list[i];
            if b != 0 {
                proof {
                    lemma_count_le(bl, b as int, i as int);
                }
                counts.set(b as usize, counts[b as usize] + 1);
            }
            i += 1;
        }
        let mut symbols: Vec<u16> = Vec::new();
        let mut len: usize = 1;
        while len <= 15
            invariant
                n == bl.len(),
                bl == bl_list@,
                1 <= len <= 16,
                small_lengths(bl),
                symbols@ == syms_upto_len(bl, len - 1),
            decreases 16 - len,
        {
            let mut s: usize = 0;
            while s < n
                invariant
                    n == bl.len(),
                    bl == bl_list@,
                    1 <= len <= 15,
                    s <= n,
                    small_lengths(bl),
                    symbols@ == syms_upto_len(bl, len - 1) + syms_of_len(bl, len as int, s as int),
                decreases n - s,
            {
                if bl_list[s] as usize == len {
                    symbols.push(s as u16);
                }
                proof {
                    assert(syms_upto_len(bl, len - 1) + syms_of_len(bl, len as int, s + 1)
                        =~= if bl[s as int] == len {
                        (syms_upto_len(bl, len - 1) + syms_of_len(bl, len as int, s as int)).push(
                            s as u16,
                        )
                    } else {
                        syms_upto_len(bl, len - 1) + syms_of_len(bl, len as int, s as int)
                    });
                }
                s += 1;
            }
            len += 1;
        }
        DecodeTable { counts, symbols }
    }

    /// Decodes one symbol from `s`, or gives `None` where the bits left
    /// form no code.
    pub fn decode(&self, s: &mut Stream, Ghost(bl): Ghost<Seq<u8>>) -> (r: Option<u16>)
        requires
            self.decodes(bl),
            old(s).wf(),
        ensures
            final(s).wf(),
            final(s).data() == old(s).data(),
            match huff_decode(bl, old(s).bits(), old(s).pos()) {
                Some((sym, p)) => r == Some(sym) && final(s).pos() == p,
                None => r is None,
            },
            r is Some ==> old(s).pos() < final(s).pos(),
            final(s).pos() >= old(s).pos(),
    {
        proof {
            lemma_decode_from_advances(bl, old(s).bits(), old(s).pos(), 1, 0, 0, 0);
        }
        proof {
            s.lemma_pos_bound();
        }
        let ghost bits = s.bits();
        let ghost p0 = s.pos();
        let ghost n = bl.len() as int;
        let nsym = self.symbols.len();
        let mut code: u64 = 0;
        let mut first: u64 = 0;
        let mut index: u64 = 0;
        let mut len: usize = 1;
        proof {
            lemma2_to64();
        }
        while len <= 15
            invariant
                self.decodes(bl),
                s.wf(),
                s.data() == old(s).data(),
                bits == s.bits(),
                bits == old(s).bits(),
                p0 == old(s).pos(),
                1 <= len <= 16,
                n == bl.len(),
                nsym == self.symbols@.len(),
                huff_decode(bl, bits, p0) == decode_from(
                    bl,
                    bits,
                    s.pos(),
                    len as int,
                    code as int,
                    first as int,
                    index as int,
                ),
                first == first_code(bl, len as int),
                index == syms_upto_len(bl, len - 1).len(),
                code % 2 == 0,
                code >= first,
                code < pow2(len as nat),
                s.pos() >= p0,
            decreases 16 - len,
        {
            proof {
                s.lemma_pos_bound();
                lemma2_to64();
            }
            if !s.has_bits(1) {
                assert(decode_from(bl, bits, s.pos(), len as int, code as int, first as int, index as int) is None);
                return None;
            }
            let bit = s.read_bit();
            let c = code + bit as u64;
            let count = self.counts[len] as u64;
            proof {
                lemma_first_code_bound(bl, len as int);
                lemma_syms_of_len_len(bl, len as int, n);
                lemma_syms_upto_prefix(bl, len as int, 15);
                lemma_pow2_pos(len as nat);
                assert(pow2(len as nat) <= 0x8000) by {
                    if len < 15 {
                        vstd::arithmetic::power2::lemma_pow2_strictly_increases(len as nat, 15);
                    }
                }
                assert(n * (pow2(len as nat) - 1) <= 0x8000 * 0x8000) by (nonlinear_arith)
                    requires
                        0 <= n <= 0x8000,
                        1 <= pow2(len as nat) <= 0x8000,
                ;
            }
            if c < first + count {
                let k = (index + (c - first)) as usize;
                return Some(self.symbols[k]);
            }
            index = index + count;
            first = (first + count) * 2;
            code = c * 2;
            len += 1;
            proof {
                lemma_pow2_unfold(len as nat);
            }
        }
        None
    }
}

} // verus!
