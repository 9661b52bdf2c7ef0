//! zlib compression with a single DEFLATE block of fixed Huffman codes.
use std::collections::BTreeMap;
use vstd::arithmetic::power2::{lemma2_to64, pow2};
use vstd::prelude::*;

use super::codes::{code_entry, compute_codes, small_lengths};
use super::stream::{bits_of, lsb_bits, msb_bits, zero_bits, WriteStream};
use super::tables::{
    dist_base, dist_base_at, dist_extra, dist_extra_at, dist_index_from, fixed_dist_lengths,
    fixed_lit_lengths, length_base, length_base_at, length_extra, length_extra_at, length_index_from,
};

verus! {

/// One step of LZ77: a literal byte, or a `(length, distance)` reference
/// to earlier output.
#[derive(Clone, Copy)]
pub enum Token {
    Literal(u8),
    Pair(u16, u16),
}

/// The number of leading bytes of `data[pos..]` that equal those of
/// `data[j..]`, counted from `l` on and at most `max`.
pub open spec fn match_len_from(data: Seq<u8>, pos: int, j: int, max: int, l: int) -> int
    decreases max - l,
{
    if l < max && data[pos + l] == data[j + l] {
        match_len_from(data, pos, j, max, l + 1)
    } else {
        l
    }
}

/// The best match for position `pos` among the start positions `j..pos`,
/// given the best `(length, distance)` found before `j`: the longest match
/// of at least three bytes, the earliest among equally long ones, and the
/// search stops at the first match of the greatest length `max`.
pub open spec fn find_match_from(
    data: Seq<u8>,
    pos: int,
    max: int,
    j: int,
    best_len: int,
    best_dist: int,
) -> (int, int)
    decreases pos - j,
{
    if j >= pos {
        (best_len, best_dist)
    } else {
        let l = match_len_from(data, pos, j, max, 0);
        if l >= 3 && l > best_len {
            if l == max {
                (l, pos - j)
            } else {
                find_match_from(data, pos, max, j + 1, l, pos - j)
            }
        } else {
            find_match_from(data, pos, max, j + 1, best_len, best_dist)
        }
    }
}

/// The match chosen for position `pos`, looking back at most `window`
/// bytes: `(0, 0)` where there is none.
pub open spec fn spec_find_match(data: Seq<u8>, pos: int, window: int) -> (int, int) {
    let max = if data.len() - pos < 258 {
        data.len() - pos
    } else {
        258
    };
    if max < 3 {
        (0, 0)
    } else {
        let start = if pos > window {
            pos - window
        } else {
            0
        };
        find_match_from(data, pos, max, start, 0, 0)
    }
}

/// The tokens chosen for `data[i..]`: greedily a match where one of at
/// least three bytes exists, a literal otherwise.
pub open spec fn lz_tokens(data: Seq<u8>, i: int) -> Seq<Token>
    decreases data.len() - i,
{
    if i >= data.len() || i < 0 {
        Seq::empty()
    } else {
        let (l, d) = spec_find_match(data, i, 32768);
        if l >= 3 && i + l <= data.len() {
            seq![Token::Pair(l as u16, d as u16)] + lz_tokens(data, i + l)
        } else {
            seq![Token::Literal(data[i])] + lz_tokens(data, i + 1)
        }
    }
}

/// The code lengths of the literal/length code written by the compressor:
/// the fixed lengths of RFC 1951 for symbols `0..288`.
pub open spec fn encoder_lit_lengths() -> Seq<u8> {
    fixed_lit_lengths(288)
}

/// The code lengths of the distance code written by the compressor.
pub open spec fn encoder_dist_lengths() -> Seq<u8> {
    fixed_dist_lengths(30)
}

/// The bits of the code of literal/length symbol `s`.
pub open spec fn lit_bits(s: int) -> Seq<bool> {
    msb_bits(code_entry(encoder_lit_lengths(), s).0, code_entry(encoder_lit_lengths(), s).1 as int)
}

/// The bits of the code of distance symbol `s`.
pub open spec fn dist_bits(s: int) -> Seq<bool> {
    msb_bits(code_entry(encoder_dist_lengths(), s).0, code_entry(encoder_dist_lengths(), s).1 as int)
}

/// The bits of one token.
pub open spec fn token_bits(t: Token) -> Seq<bool> {
    match t {
        Token::Literal(b) => lit_bits(b as int),
        Token::Pair(l, d) => {
            let li = length_index_from(l as int, 0);
            let di = dist_index_from(d as int, 0);
            lit_bits(257 + li) + lsb_bits((l - length_base(li)) as u32, length_extra(li)) + dist_bits(
                di,
            ) + lsb_bits((d - dist_base(di)) as u32, dist_extra(di))
        },
    }
}

/// The bits of a sequence of tokens.
pub open spec fn tokens_bits(ts: Seq<Token>) -> Seq<bool>
    decreases ts.len(),
{
    if ts.len() == 0 {
        Seq::empty()
    } else {
        tokens_bits(ts.drop_last()) + token_bits(ts.last())
    }
}

/// The bits of the DEFLATE block written for `data`: the header of a final
/// block with fixed codes, the tokens, and the end-of-block code.
pub open spec fn block_bits(data: Seq<u8>) -> Seq<bool> {
    lsb_bits(1, 1) + lsb_bits(1, 2) + tokens_bits(lz_tokens(data, 0)) + lit_bits(256)
}

/// The number of zero bits that pad `n` bits to a whole number of bytes.
pub open spec fn pad_len(n: int) -> int {
    (8 - n % 8) % 8
}

/// The Adler-32 sums `(a, b)` of `data[0..n]`.
pub open spec fn adler_sums(data: Seq<u8>, n: int) -> (int, int)
    decreases n,
{
    if n <= 0 {
        (1, 0)
    } else {
        let (a, b) = adler_sums(data, n - 1);
        let a2 = (a + data[n - 1]) % 65521;
        (a2, (b + a2) % 65521)
    }
}

/// The Adler-32 checksum of `data`.
pub open spec fn spec_adler32(data: Seq<u8>) -> u32 {
    let (a, b) = adler_sums(data, data.len() as int);
    (b * 65536 + a) as u32
}

/// The four bytes of `v`, most significant first.
pub open spec fn be_bytes(v: u32) -> Seq<u8> {
    seq![(v / 0x1000000) as u8, ((v / 0x10000) % 256) as u8, ((v / 0x100) % 256) as u8, (v % 256) as u8]
}

/// A token that the compressor can emit: matches of 3 to 258 bytes at
/// distances of 1 to 32768.
pub open spec fn token_ok(t: Token) -> bool {
    match t {
        Token::Literal(_) => true,
        Token::Pair(l, d) => 3 <= l <= 258 && 1 <= d <= 32768,
    }
}

proof fn lemma_code_len_small(s: int)
    requires
        0 <= s < 288,
    ensures
        1 <= code_entry(encoder_lit_lengths(), s).1 <= 9,
{
}

proof fn lemma_dist_code_len_small(s: int)
    requires
        0 <= s < 30,
    ensures
        code_entry(encoder_dist_lengths(), s).1 == 5,
{
}

proof fn lemma_adler_bounds(data: Seq<u8>, n: int)
    ensures
        0 <= adler_sums(data, n).0 < 65521,
        0 <= adler_sums(data, n).1 < 65521,
    decreases n,
{
    if n > 0 {
        lemma_adler_bounds(data, n - 1);
    }
}

/// `codes` holds the code of each symbol below `n` in the canonical code
/// of the lengths `bl`.
spec fn holds_codes(codes: Map<u16, (u32, u8)>, bl: Seq<u8>, n: int) -> bool {
    forall|s: u16| (s as int) < n ==> #[trigger] codes.contains_key(s) && codes[s] == code_entry(bl, s as int)
}

/// The code lengths given to the fixed literal/length code: the lengths of
/// RFC 1951 for symbols `0..288`.
fn get_fixed_literal_length_codes() -> (codes: BTreeMap<u16, (u32, u8)>)
    ensures
        holds_codes(codes@, encoder_lit_lengths(), 288),
{
    let mut bl: Vec<u8> = Vec::with_capacity(288);
    let mut k: usize = 0;
    while k < 288
        invariant
            k <= 288,
            bl@ == fixed_lit_lengths(k as int),
        decreases 288 - k,
    {
        let v: u8 = if k < 144 {
            8
        } else if k < 256 {
            9
        } else if k < 280 {
            7
        } else {
            8
        };
        bl.push(v);
        proof {
            assert(bl@ =~= fixed_lit_lengths(k + 1));
        }
        k += 1;
    }
    compute_codes(&bl)
}

/// The fixed distance code: five bits for each of the symbols `0..30`.
fn get_fixed_distance_codes() -> (codes: BTreeMap<u16, (u32, u8)>)
    ensures
        holds_codes(codes@, encoder_dist_lengths(), 30),
{
    let bl: Vec<u8> = vec![5u8; 30];
    proof {
        assert(bl@ =~= fixed_dist_lengths(30));
    }
    compute_codes(&bl)
}

/// The longest earlier match for `data[pos..]` within `window_size` bytes
/// back, as `(length, distance)`; `(0, 0)` where no match of three bytes
/// or more exists.
fn find_match(data: &[u8], pos: usize, window_size: usize) -> (r: (u16, u16))
    requires
        pos <= data@.len(),
        window_size <= 32768,
    ensures
        r.0 as int == spec_find_match(data@, pos as int, window_size as int).0,
        r.1 as int == spec_find_match(data@, pos as int, window_size as int).1,
        r.0 == 0 || (3 <= r.0 <= 258 && r.0 <= data@.len() - pos && 1 <= r.1 <= pos && r.1
            <= window_size),
{
    let n = data.len();
    let max_len: usize = if n - pos < 258 {
        n - pos
    } else {
        258
    };
    if max_len < 3 {
        return (0, 0);
    }
    let start = if pos > window_size {
        pos - window_size
    } else {
        0
    };
    let ghost d = data@;
    let mut best_len: usize = 0;
    let mut best_dist: usize = 0;
    let mut j = start;
    while j < pos
        invariant
            d == data@,
            n == d.len(),
            pos <= n,
            3 <= max_len <= 258,
            max_len <= n - pos,
            start <= j <= pos,
            start == if pos > window_size {
                pos - window_size
            } else {
                0
            },
            window_size <= 32768,
            spec_find_match(d, pos as int, window_size as int) == find_match_from(
                d,
                pos as int,
                max_len as int,
                j as int,
                best_len as int,
                best_dist as int,
            ),
            best_len == 0 || (3 <= best_len < max_len && 1 <= best_dist <= pos - start),
            best_len == 0 ==> best_dist == 0,
        decreases pos - j,
    {
        let mut l: usize = 0;
        while l < max_len && data[pos + l] == data[j + l]
            invariant
                d == data@,
                n == d.len(),
                j < pos,
                l <= max_len <= n - pos,
                match_len_from(d, pos as int, j as int, max_len as int, 0) == match_len_from(
                    d,
                    pos as int,
                    j as int,
                    max_len as int,
                    l as int,
                ),
            decreases max_len - l,
        {
            l += 1;
        }
        if l >= 3 && l > best_len {
            best_len = l;
            best_dist = pos - j;
            if best_len == max_len {
                return (best_len as u16, best_dist as u16);
            }
        }
        j += 1;
    }
    (best_len as u16, best_dist as u16)
}

/// Writes the codes of one token.
fn write_token(
    out: &mut WriteStream,
    token: Token,
    lit_codes: &BTreeMap<u16, (u32, u8)>,
    dist_codes: &BTreeMap<u16, (u32, u8)>,
)
    requires
        old(out).wf(),
        token_ok(token),
        holds_codes(lit_codes@, encoder_lit_lengths(), 288),
        holds_codes(dist_codes@, encoder_dist_lengths(), 30),
    ensures
        final(out).wf(),
        final(out).bits() == old(out).bits() + token_bits(token),
{
        match token {
        Token::Literal(lit) => {
            assert(lit_codes@.contains_key(lit as u16));
            let (code, bits) = *lit_codes.get(&(lit as u16)).unwrap();
            proof { lemma_code_len_small(lit as int); }
            out.write_bits(code, bits as usize, true);
            assert(out.bits() =~= old(out).bits() + token_bits(token));
        },
        Token::Pair(length, distance) => {
            let mut idx_len: usize = 0;
            while idx_len < 28 && length >= length_base_at(idx_len + 1)
                invariant
                    idx_len <= 28,
                    length_index_from(length as int, 0) == length_index_from(length as int, idx_len as int),
                    length_base(idx_len as int) <= length,
                decreases 28 - idx_len,
            {
                idx_len += 1;
            }
            let symbol = 257 + idx_len;
            assert(lit_codes@.contains_key(symbol as u16));
            let (code, bits) = *lit_codes.get(&(symbol as u16)).unwrap();
            proof { lemma_code_len_small(symbol as int); }
            out.write_bits(code, bits as usize, true);
            let extra = length - length_base_at(idx_len);
            let n_extra = length_extra_at(idx_len);
            if n_extra > 0 {
                out.write_bits(extra as u32, n_extra as usize, false);
            } else {
                proof { assert(lsb_bits(extra as u32, 0) =~= Seq::<bool>::empty()); }
            }
            let mut idx_dist: usize = 0;
            while idx_dist < 29 && distance >= dist_base_at(idx_dist + 1)
                invariant
                    idx_dist <= 29,
                    dist_index_from(distance as int, 0) == dist_index_from(distance as int, idx_dist as int),
                    dist_base(idx_dist as int) <= distance,
                decreases 29 - idx_dist,
            {
                idx_dist += 1;
            }
            assert(dist_codes@.contains_key(idx_dist as u16));
            let (code, bits) = *dist_codes.get(&(idx_dist as u16)).unwrap();
            proof { lemma_dist_code_len_small(idx_dist as int); }
            out.write_bits(code, bits as usize, true);
            let extra = distance - dist_base_at(idx_dist);
            let n_extra = dist_extra_at(idx_dist);
            if n_extra > 0 {
                out.write_bits(extra as u32, n_extra as usize, false);
            } else {
                proof { assert(lsb_bits(extra as u32, 0) =~= Seq::<bool>::empty()); }
            }
            assert(out.bits() =~= old(out).bits() + token_bits(token));
        },
    }
}

/// Encodes `data` as a single final DEFLATE block with the fixed codes,
/// padded to whole bytes.
fn encode_block_fixed(data: &[u8]) -> (out: Vec<u8>)
    ensures
        out@.len() * 8 == block_bits(data@).len() + pad_len(block_bits(data@).len() as int),
        bits_of(out@) == block_bits(data@) + zero_bits(pad_len(block_bits(data@).len() as int)),
{
    let lit_codes = get_fixed_literal_length_codes();
    let dist_codes = get_fixed_distance_codes();
    let ghost d = data@;

    let mut out = WriteStream::new();
    out.write_bits(1, 1, false);
    out.write_bits(0b01, 2, false);
    let ghost header = lsb_bits(1, 1) + lsb_bits(1, 2);
    assert(out.bits() =~= header);

    let mut tokens: Vec<Token> = Vec::new();
    let n = data.len();
    let mut i: usize = 0;
    while i < n
        invariant
            d == data@,
            n == d.len(),
            i <= n,
            tokens@ + lz_tokens(d, i as int) == lz_tokens(d, 0),
            forall|k: int| 0 <= k < tokens@.len() ==> token_ok(#[trigger] tokens@[k]),
        decreases n - i,
    {
        let (length, distance) = find_match(data, i, 32768);
        if length >= 3 {
            tokens.push(Token::Pair(length, distance));
            proof {
                assert(tokens@ + lz_tokens(d, i + length) =~= tokens@.drop_last() + lz_tokens(
                    d,
                    i as int,
                ));
            }
            i += length as usize;
        } else {
            tokens.push(Token::Literal(data[i]));
            proof {
                assert(tokens@ + lz_tokens(d, i + 1) =~= tokens@.drop_last() + lz_tokens(
                    d,
                    i as int,
                ));
            }
            i += 1;
        }
    }
    assert(tokens@ =~= lz_tokens(d, 0));

    let nt = tokens.len();
    let mut t: usize = 0;
    while t < nt
        invariant
            out.wf(),
            nt == tokens@.len(),
            t <= nt,
            holds_codes(lit_codes@, encoder_lit_lengths(), 288),
            holds_codes(dist_codes@, encoder_dist_lengths(), 30),
            forall|k: int| 0 <= k < nt ==> token_ok(#[trigger] tokens@[k]),
            out.bits() == header + tokens_bits(tokens@.take(t as int)),
        decreases nt - t,
    {
        let token = tokens[t];
        write_token(&mut out, token, &lit_codes, &dist_codes);
        proof {
            assert(tokens@.take(t + 1).drop_last() =~= tokens@.take(t as int));
            assert(out.bits() =~= header + tokens_bits(tokens@.take(t + 1)));
        }
        t += 1;
    }
    assert(tokens@.take(nt as int) =~= tokens@);

    assert(lit_codes@.contains_key(256u16));
    let (code_end, bits_end) = *lit_codes.get(&256u16).unwrap();
    proof { lemma_code_len_small(256); }
    out.write_bits(code_end, bits_end as usize, true);
    assert(out.bits() =~= block_bits(d));
    out.flush();
    out.get_bytes()
}

/// The Adler-32 checksum of `data` (RFC 1950, section 8.2).
pub(crate) fn adler32(data: &[u8]) -> (r: u32)
    ensures
        r == spec_adler32(data@),
{
    let m: u32 = 65521;
    let mut a: u32 = 1;
    let mut b: u32 = 0;
    let n = data.len();
    let mut i: usize = 0;
    while i < n
        invariant
            n == data@.len(),
            i <= n,
            m == 65521,
            (a as int, b as int) == adler_sums(data@, i as int),
            a < 65521,
            b < 65521,
        decreases n - i,
    {
        a = (a + data[i] as u32) % m;
        b = (b + a) % m;
        i += 1;
    }
    proof {
        assert((b << 16u32) | a == b * 65536 + a) by (bit_vector)
            requires
                a < 65536,
                b < 65536,
        ;
    }
    (b << 16) | a
}

/// `z` is the zlib stream that `compress` writes for `data`: the header
/// bytes `0x78 0x01`, the DEFLATE block of `block_bits(data)` padded with
/// zero bits to whole bytes, and the Adler-32 checksum of `data`, most
/// significant byte first.
pub open spec fn zlib_stream_of(z: Seq<u8>, data: Seq<u8>) -> bool {
    let bb = block_bits(data);
    let k = (bb.len() + pad_len(bb.len() as int)) / 8;
    &&& z.len() == 2 + k + 4
    &&& z[0] == 0x78u8
    &&& z[1] == 0x01u8
    &&& bits_of(z.subrange(2, 2 + k)) == bb + zero_bits(pad_len(bb.len() as int))
    &&& z.subrange(2 + k, z.len() as int) == be_bytes(spec_adler32(data))
}

/// Appends the zlib compression of `data` to `buf`.
pub fn compress(data: &[u8], buf: &mut Vec<u8>)
    ensures
        final(buf)@.len() >= old(buf)@.len(),
        final(buf)@.subrange(0, old(buf)@.len() as int) == old(buf)@,
        zlib_stream_of(final(buf)@.subrange(old(buf)@.len() as int, final(buf)@.len() as int), data@),
{
    let cmf: u8 = 0x78;
    let flg: u8 = 0x01;

    let deflate_data = encode_block_fixed(data);

    let adler = adler32(data);
    let adler_bytes: [u8; 4] = [
        (adler / 0x1000000) as u8,
        ((adler / 0x10000) % 256) as u8,
        ((adler / 0x100) % 256) as u8,
        (adler % 256) as u8,
    ];

    let ghost start = buf@.len();
    buf.push(cmf);
    buf.push(flg);
    buf.extend_from_slice(&deflate_data);
    buf.extend_from_slice(&adler_bytes);
    proof {
        let z = buf@.subrange(start as int, buf@.len() as int);
        let k = deflate_data@.len() as int;
        assert(z =~= seq![0x78u8, 0x01u8] + deflate_data@ + adler_bytes@);
        assert(z.subrange(2, 2 + k) =~= deflate_data@);
        assert(adler_bytes@ =~= be_bytes(spec_adler32(data@)));
        assert(z.subrange(2 + k, z.len() as int) =~= adler_bytes@);
        assert(buf@.subrange(0, start as int) =~= old(buf)@);
    }
}

} // verus!
