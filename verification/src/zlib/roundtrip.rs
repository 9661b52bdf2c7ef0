//! What `decompress` gives back of what `compress` wrote.
use vstd::arithmetic::power2::{lemma2_to64, lemma_pow2_pos, pow2};
use vstd::prelude::*;

use super::codes::{canonical_code, code_entry, huff_decode, lemma_decode_canonical, lemma_word_bit_div};
use super::compress::{
    be_bytes, block_bits, encoder_dist_lengths, encoder_lit_lengths, lit_bits, dist_bits, lz_tokens,
    match_len_from, find_match_from, spec_find_match, pad_len, spec_adler32, token_bits, tokens_bits,
    zlib_stream_of, Token,
};
use super::decompress::{be_value, copy_back, inflate_blocks, inflate_symbols, zlib_decode, zlib_header_ok};
use super::stream::{align_up, bits_of, lemma_bits_of_add, lsb_bits, lsb_value, msb_bits, word_bit, zero_bits};
use super::tables::{
    dist_base, dist_extra, dist_index_from, fixed_dist_lengths, fixed_lit_length, fixed_lit_lengths,
    length_base, length_extra, length_index_from, lemma_dist_index, lemma_fixed_dist_code,
    lemma_fixed_lit_code, lemma_length_index,
};

verus! {

/// The output after decoding one token.
pub open spec fn apply_token(out: Seq<u8>, t: Token) -> Seq<u8> {
    match t {
        Token::Literal(b) => out.push(b),
        Token::Pair(l, d) => copy_back(out, d as int, l as int),
    }
}

/// The output after decoding a sequence of tokens.
pub open spec fn expand(out: Seq<u8>, ts: Seq<Token>) -> Seq<u8>
    decreases ts.len(),
{
    if ts.len() == 0 {
        out
    } else {
        expand(apply_token(out, ts[0]), ts.drop_first())
    }
}

/// A token whose code the decoder reads back as the same token: a literal,
/// or a match of 3 to 258 bytes reaching back no further than the output
/// so far.
pub open spec fn token_readable(out: Seq<u8>, t: Token) -> bool {
    match t {
        Token::Literal(_) => true,
        Token::Pair(l, d) => 3 <= l <= 258 && 1 <= d <= 32768 && d <= out.len(),
    }
}

/// Every token of `ts` is readable at the point where it is decoded.
pub open spec fn tokens_readable(out: Seq<u8>, ts: Seq<Token>) -> bool
    decreases ts.len(),
{
    ts.len() == 0 || (token_readable(out, ts[0]) && tokens_readable(
        apply_token(out, ts[0]),
        ts.drop_first(),
    ))
}

proof fn lemma_tokens_bits_cons(ts: Seq<Token>)
    requires
        ts.len() > 0,
    ensures
        tokens_bits(ts) == token_bits(ts[0]) + tokens_bits(ts.drop_first()),
    decreases ts.len(),
{
    if ts.len() == 1 {
        assert(ts.drop_last() =~= Seq::<Token>::empty());
        assert(ts.drop_first() =~= Seq::<Token>::empty());
        assert(tokens_bits(ts.drop_first()) == Seq::<bool>::empty());
        assert(tokens_bits(ts) =~= token_bits(ts[0]) + tokens_bits(ts.drop_first()));
    } else {
        lemma_tokens_bits_cons(ts.drop_last());
        assert(ts.drop_last().drop_first() =~= ts.drop_first().drop_last());
        assert(ts.drop_first().last() == ts.last());
        assert(tokens_bits(ts) =~= token_bits(ts[0]) + tokens_bits(ts.drop_first()));
    }
}

/// What `WriteStream::write_bits` writes least significant bit first,
/// `Stream::read_bits` reads back: the value of the `n` bits read from
/// where the low `n` bits of `v` were written is `v` modulo `2^n`,
/// whatever comes before or after them.
pub proof fn lemma_lsb_value_mod(bits: Seq<bool>, p: int, v: u32, n: nat)
    requires
        n <= 32,
        0 <= p,
        p + n <= bits.len(),
        bits.subrange(p, p + n) == lsb_bits(v, n as int),
    ensures
        lsb_value(bits, p, n) == v as nat % pow2(n),
    decreases n,
{
    lemma_pow2_pos(n);
    if n == 0 {
        lemma2_to64();
    } else {
        let m = (n - 1) as nat;
        assert(bits.subrange(p, p + m) =~= lsb_bits(v, m as int)) by {
            assert forall|i: int| 0 <= i < m implies bits.subrange(p, p + m)[i] == lsb_bits(v, m as int)[i] by {
                assert(bits.subrange(p, p + n)[i] == bits[p + i]);
            }
        }
        lemma_lsb_value_mod(bits, p, v, m);
        assert(bits[p + m] == bits.subrange(p, p + n)[m as int]);
        assert(lsb_bits(v, n as int)[m as int] == word_bit(v, m as int));
        lemma_word_bit_div(v, m as int);
        lemma_pow2_pos(m);
        vstd::arithmetic::power2::lemma_pow2_unfold(n);
        vstd::arithmetic::div_mod::lemma_mod_breakdown(v as int, pow2(m) as int, 2);
        vstd::arithmetic::div_mod::lemma_mod_pos_bound((v as nat / pow2(m)) as int, 2);
        assert(pow2(m) * 2 == pow2(n));
        let r = (v as nat / pow2(m)) % 2;
        assert(lsb_value(bits, p, n) == lsb_value(bits, p, m) + if bits[p + m] {
            pow2(m)
        } else {
            0
        });
        if bits[p + m] {
            assert(r == 1);
            assert(pow2(m) * r == pow2(m));
        } else {
            assert(r == 0);
            assert(pow2(m) * r == 0);
        }
        assert(v as nat % pow2(n) == pow2(m) * r + v as nat % pow2(m));
    }
}

proof fn lemma_sub(bits: Seq<bool>, p: int, n: int, s: Seq<bool>, i: int, j: int)
    requires
        0 <= p,
        p + n <= bits.len(),
        bits.subrange(p, p + n) == s,
        0 <= i <= j <= n,
    ensures
        bits.subrange(p + i, p + j) == s.subrange(i, j),
{
    assert(bits.subrange(p + i, p + j) =~= s.subrange(i, j)) by {
        assert forall|k: int| 0 <= k < j - i implies bits.subrange(p + i, p + j)[k] == s.subrange(i, j)[k] by {
            assert(s[i + k] == bits.subrange(p, p + n)[i + k]);
        }
    }
}

/// The code that the compressor writes for a literal/length symbol is the
/// one of the fixed code that the decompressor reads.
proof fn lemma_lit_code_agree(s: int)
    requires
        0 <= s < 288,
    ensures
        code_entry(encoder_lit_lengths(), s) == (canonical_code(fixed_lit_lengths(288), s) as u32, fixed_lit_lengths(288)[s]),
        fixed_lit_lengths(288)[s] == fixed_lit_length(s),
        1 <= fixed_lit_length(s) <= 9,
        canonical_code(fixed_lit_lengths(288), s) < pow2(fixed_lit_length(s) as nat),
        lit_bits(s) == msb_bits(canonical_code(fixed_lit_lengths(288), s) as u32, fixed_lit_length(s) as int),
{
    lemma_fixed_lit_code(288, s);
}

proof fn lemma_dist_code_agree(s: int)
    requires
        0 <= s < 30,
    ensures
        fixed_dist_lengths(32)[s] == 5,
        canonical_code(fixed_dist_lengths(32), s) < pow2(5),
        dist_bits(s) == msb_bits(canonical_code(fixed_dist_lengths(32), s) as u32, 5),
{
    lemma_fixed_dist_code(30, s);
    lemma_fixed_dist_code(32, s);
}

/// Decoding the bits of a sequence of tokens followed by the end-of-block
/// code gives the tokens' output and the position after the block.
proof fn lemma_decode_tokens(z: Seq<u8>, p: int, out: Seq<u8>, ts: Seq<Token>)
    requires
        0 <= p,
        p + tokens_bits(ts).len() + lit_bits(256).len() <= bits_of(z).len(),
        bits_of(z).subrange(p, p + tokens_bits(ts).len() + lit_bits(256).len()) == tokens_bits(ts)
            + lit_bits(256),
        tokens_readable(out, ts),
    ensures
        inflate_symbols(z, p, out, fixed_lit_lengths(288), fixed_dist_lengths(32)) == Some(
            (expand(out, ts), p + tokens_bits(ts).len() + lit_bits(256).len()),
        ),
    decreases ts.len(),
{
    let bits = bits_of(z);
    let lit = fixed_lit_lengths(288);
    let dist = fixed_dist_lengths(32);
    let n = tokens_bits(ts).len() + lit_bits(256).len();
    if ts.len() == 0 {
        lemma_lit_code_agree(256);
        assert(tokens_bits(ts) == Seq::<bool>::empty());
        lemma_sub(bits, p, n as int, tokens_bits(ts) + lit_bits(256), 0, 7);
        assert((tokens_bits(ts) + lit_bits(256)).subrange(0, 7) =~= lit_bits(256));
        lemma_decode_canonical(lit, bits, p, 256);
    } else {
        lemma_tokens_bits_cons(ts);
        let t = ts[0];
        let rest = ts.drop_first();
        let tb = token_bits(t);
        let all = tokens_bits(ts) + lit_bits(256);
        assert(all =~= tb + (tokens_bits(rest) + lit_bits(256)));
        let m = tb.len() as int;
        lemma_sub(bits, p, n as int, all, m, n as int);
        assert(all.subrange(m, n as int) =~= tokens_bits(rest) + lit_bits(256));
        match t {
            Token::Literal(b) => {
                lemma_lit_code_agree(b as int);
                let l0 = fixed_lit_length(b as int) as int;
                lemma_sub(bits, p, n as int, all, 0, l0);
                assert(all.subrange(0, l0) =~= lit_bits(b as int));
                lemma_decode_canonical(lit, bits, p, b as int);
                lemma_decode_tokens(z, p + l0, out.push(b), rest);
            },
            Token::Pair(l, d) => {
                lemma_length_index(l as int, 0);
                lemma_dist_index(d as int, 0);
                let li = length_index_from(l as int, 0);
                let di = dist_index_from(d as int, 0);
                let a1 = lit_bits(257 + li);
                let a2 = lsb_bits((l - length_base(li)) as u32, length_extra(li));
                let a3 = dist_bits(di);
                let a4 = lsb_bits((d - dist_base(di)) as u32, dist_extra(di));
                assert(tb == a1 + a2 + a3 + a4);
                lemma_lit_code_agree(257 + li);
                lemma_dist_code_agree(di);
                let l1 = fixed_lit_length(257 + li) as int;
                let e1 = length_extra(li);
                let e2 = dist_extra(di);
                assert(a1.len() == l1);
                assert(a2.len() == e1);
                assert(a3.len() == 5);
                assert(a4.len() == e2);
                // the literal/length code
                lemma_sub(bits, p, n as int, all, 0, l1);
                assert(all.subrange(0, l1) =~= a1);
                lemma_decode_canonical(lit, bits, p, 257 + li);
                let p1 = p + l1;
                // the length's extra bits
                lemma_sub(bits, p, n as int, all, l1, l1 + e1);
                assert(all.subrange(l1, l1 + e1) =~= a2);
                lemma_lsb_value_mod(bits, p1, (l - length_base(li)) as u32, e1 as nat);
                vstd::arithmetic::div_mod::lemma_small_mod((l - length_base(li)) as nat, pow2(e1 as nat));
                let p2 = p1 + e1;
                // the distance code
                lemma_sub(bits, p, n as int, all, l1 + e1, l1 + e1 + 5);
                assert(all.subrange(l1 + e1, l1 + e1 + 5) =~= a3);
                lemma_decode_canonical(dist, bits, p2, di);
                let p3 = p2 + 5;
                // the distance's extra bits
                lemma_sub(bits, p, n as int, all, l1 + e1 + 5, l1 + e1 + 5 + e2);
                assert(all.subrange(l1 + e1 + 5, l1 + e1 + 5 + e2) =~= a4);
                lemma_lsb_value_mod(bits, p3, (d - dist_base(di)) as u32, e2 as nat);
                vstd::arithmetic::div_mod::lemma_small_mod((d - dist_base(di)) as nat, pow2(e2 as nat));
                assert(m == l1 + e1 + 5 + e2);
                lemma_decode_tokens(z, p + m, copy_back(out, d as int, l as int), rest);
            },
        }
    }
}

proof fn lemma_match_len(data: Seq<u8>, pos: int, j: int, max: int, l: int)
    requires
        0 <= l <= max,
        0 <= j < pos,
        pos + max <= data.len(),
        forall|x: int| pos <= x < pos + l ==> #[trigger] data[x] == data[x - pos + j],
    ensures
        l <= match_len_from(data, pos, j, max, l) <= max,
        forall|x: int|
            pos <= x < pos + match_len_from(data, pos, j, max, l) ==> #[trigger] data[x] == data[x
                - pos + j],
    decreases max - l,
{
    if l < max && data[pos + l] == data[j + l] {
        lemma_match_len(data, pos, j, max, l + 1);
    }
}

/// A match found for `pos` repeats earlier data.
pub open spec fn match_ok(data: Seq<u8>, pos: int, window: int, l: int, d: int) -> bool {
    &&& 3 <= l <= 258
    &&& l <= data.len() - pos
    &&& 1 <= d <= pos
    &&& d <= window
    &&& forall|x: int| pos <= x < pos + l ==> #[trigger] data[x] == data[x - d]
}

proof fn lemma_find_match_from(
    data: Seq<u8>,
    pos: int,
    window: int,
    max: int,
    start: int,
    j: int,
    bl: int,
    bd: int,
)
    requires
        0 <= start <= j <= pos,
        pos - start <= window,
        3 <= max <= 258,
        pos + max <= data.len(),
        (bl == 0 && bd == 0) || (match_ok(data, pos, window, bl, bd) && bl <= max && bd <= pos
            - start),
    ensures
        find_match_from(data, pos, max, j, bl, bd) == (0int, 0int) || match_ok(
            data,
            pos,
            window,
            find_match_from(data, pos, max, j, bl, bd).0,
            find_match_from(data, pos, max, j, bl, bd).1,
        ),
    decreases pos - j,
{
    if j < pos {
        lemma_match_len(data, pos, j, max, 0);
        let l = match_len_from(data, pos, j, max, 0);
        if l >= 3 && l > bl {
            assert forall|x: int| pos <= x < pos + l implies #[trigger] data[x] == data[x - (pos - j)] by {
                assert(data[x] == data[x - pos + j]);
            }
            if l != max {
                lemma_find_match_from(data, pos, window, max, start, j + 1, l, pos - j);
            }
        } else {
            lemma_find_match_from(data, pos, window, max, start, j + 1, bl, bd);
        }
    }
}

proof fn lemma_find_match(data: Seq<u8>, pos: int)
    requires
        0 <= pos < data.len(),
    ensures
        spec_find_match(data, pos, 32768).0 < 3 || match_ok(
            data,
            pos,
            32768,
            spec_find_match(data, pos, 32768).0,
            spec_find_match(data, pos, 32768).1,
        ),
{
    let max = if data.len() - pos < 258 {
        data.len() - pos
    } else {
        258
    };
    if max >= 3 {
        let start = if pos > 32768 {
            pos - 32768
        } else {
            0
        };
        lemma_find_match_from(data, pos, 32768, max, start, start, 0, 0);
    }
}

proof fn lemma_copy_back_match(data: Seq<u8>, i: int, l: int, d: int)
    requires
        1 <= d <= i,
        0 <= l,
        i + l <= data.len(),
        forall|x: int| i <= x < i + l ==> #[trigger] data[x] == data[x - d],
    ensures
        copy_back(data.take(i), d, l) == data.take(i + l),
    decreases l,
{
    if l == 0 {
    } else {
        lemma_copy_back_match(data, i, l - 1, d);
        let o = data.take(i + l - 1);
        assert(o[o.len() - d] == data[i + l - 1 - d]);
        assert(data.take(i + l) =~= o.push(data[i + l - 1]));
    }
}

proof fn lemma_lz_tokens(data: Seq<u8>, i: int)
    requires
        0 <= i <= data.len(),
    ensures
        tokens_readable(data.take(i), lz_tokens(data, i)),
        expand(data.take(i), lz_tokens(data, i)) == data,
    decreases data.len() - i,
{
    if i == data.len() {
        assert(data.take(i) =~= data);
    } else {
        lemma_find_match(data, i);
        let (l, d) = spec_find_match(data, i, 32768);
        let ts = lz_tokens(data, i);
        if l >= 3 && i + l <= data.len() {
            let t = Token::Pair(l as u16, d as u16);
            let rest = lz_tokens(data, i + l);
            assert(ts == seq![t] + rest);
            assert(ts[0] == t);
            assert(ts.drop_first() =~= rest);
            lemma_copy_back_match(data, i, l, d);
            lemma_lz_tokens(data, i + l);
        } else {
            let t = Token::Literal(data[i]);
            let rest = lz_tokens(data, i + 1);
            assert(ts == seq![t] + rest);
            assert(ts[0] == t);
            assert(ts.drop_first() =~= rest);
            assert(data.take(i).push(data[i]) =~= data.take(i + 1));
            lemma_lz_tokens(data, i + 1);
        }
    }
}

/// The bits of a stream that `compress` wrote: the block's bits start at
/// bit 16, after the two header bytes, and are followed by the checksum
/// bytes.
proof fn lemma_stream_layout(z: Seq<u8>, data: Seq<u8>)
    requires
        zlib_stream_of(z, data),
    ensures
        bits_of(z).subrange(16, 16 + block_bits(data).len() as int) == block_bits(data),
        bits_of(z).len() == z.len() * 8,
        z.len() == 2 + (block_bits(data).len() + pad_len(block_bits(data).len() as int)) / 8 + 4,
{
    let bb = block_bits(data);
    let pad = pad_len(bb.len() as int);
    let k: int = (bb.len() + pad) / 8;
    let head = z.subrange(0, 2);
    let mid = z.subrange(2, 2 + k);
    let tail = z.subrange(2 + k, z.len() as int);
    assert(z =~= head + mid + tail);
    lemma_bits_of_add(head + mid, tail);
    lemma_bits_of_add(head, mid);
    let bits = bits_of(z);
    assert(bits_of(head).len() == 16);
    assert(bits_of(mid) == bb + zero_bits(pad));
    assert forall|i: int| 0 <= i < bb.len() implies bits.subrange(16, 16 + bb.len() as int)[i] == bb[i] by {
        assert(bits[16 + i] == bits_of(mid)[i]);
    }
    assert(bits.subrange(16, 16 + bb.len() as int) =~= bb);
}

/// The first three bits of the block mark it final, with fixed codes.
proof fn lemma_block_header(bits: Seq<bool>, data: Seq<u8>)
    requires
        bits.len() >= 16 + block_bits(data).len(),
        bits.subrange(16, 16 + block_bits(data).len() as int) == block_bits(data),
    ensures
        bits[16],
        lsb_value(bits, 17, 2) == 1,
        bits.subrange(19, 16 + block_bits(data).len() as int) == tokens_bits(lz_tokens(data, 0))
            + lit_bits(256),
{
    let bb = block_bits(data);
    let ts = lz_tokens(data, 0);
    let h1 = lsb_bits(1, 1);
    let h2 = lsb_bits(1, 2);
    assert(bb == h1 + h2 + tokens_bits(ts) + lit_bits(256));
    assert((1u32 >> 0u32) & 1u32 == 1u32) by (bit_vector);
    assert((1u32 >> 1u32) & 1u32 == 0u32) by (bit_vector);
    assert(word_bit(1, 0));
    assert(!word_bit(1, 1));
    assert(bits[16] == bb[0]);
    assert(bits[17] == bb[1]);
    assert(bits[18] == bb[2]);
    assert(bb[0] && bb[1] && !bb[2]);
    lemma2_to64();
    assert(lsb_value(bits, 17, 0) == 0);
    assert(lsb_value(bits, 17, 1) == lsb_value(bits, 17, 0) + pow2(0));
    assert(lsb_value(bits, 17, 2) == lsb_value(bits, 17, 1) + 0);
    lemma_sub(bits, 16, bb.len() as int, bb, 3, bb.len() as int);
    assert(bb.subrange(3, bb.len() as int) =~= tokens_bits(ts) + lit_bits(256));
}

pub(crate) proof fn lemma_be_value(z: Seq<u8>, a: int, v: u32)
    requires
        0 <= a,
        a + 4 <= z.len(),
        z.subrange(a, a + 4) == be_bytes(v),
    ensures
        be_value(z, a) == v,
{
    assert(z[a] == z.subrange(a, a + 4)[0]);
    assert(z[a + 1] == z.subrange(a, a + 4)[1]);
    assert(z[a + 2] == z.subrange(a, a + 4)[2]);
    assert(z[a + 3] == z.subrange(a, a + 4)[3]);
    assert(((v / 0x1000000) as u8) as int * 0x1000000 + (((v / 0x10000) % 256) as u8) as int
        * 0x10000 + (((v / 0x100) % 256) as u8) as int * 0x100 + ((v % 256) as u8) as int
        == v as int) by (bit_vector);
}

/// Decompressing what `compress` wrote gives the data and its checksum
/// back.
pub proof fn lemma_zlib_roundtrip(z: Seq<u8>, data: Seq<u8>)
    requires
        zlib_stream_of(z, data),
    ensures
        zlib_decode(z) == Some((data, spec_adler32(data))),
{
    let bb = block_bits(data);
    let pad = pad_len(bb.len() as int);
    let k: int = (bb.len() + pad) / 8;
    lemma_stream_layout(z, data);
    let bits = bits_of(z);
    assert(zlib_header_ok(z[0], z[1]));
    lemma_block_header(bits, data);
    let ts = lz_tokens(data, 0);
    lemma_lz_tokens(data, 0);
    assert(data.take(0) =~= Seq::<u8>::empty());
    let sym_len = tokens_bits(ts).len() + lit_bits(256).len();
    lemma_decode_tokens(z, 19, Seq::empty(), ts);
    let q: int = 19 + sym_len as int;
    assert(q == 16 + bb.len());
    assert(inflate_blocks(z, 16, Seq::empty()) == Some((data, q)));
    assert(align_up(q) == 16 + 8 * k) by {
        assert((16 + bb.len()) % 8 == bb.len() % 8) by (nonlinear_arith);
        assert((bb.len() + pad) % 8 == 0) by (nonlinear_arith)
            requires
                pad == (8 - bb.len() % 8) % 8,
        ;
    }
    assert(align_up(q) / 8 == 2 + k);
    let v = spec_adler32(data);
    assert(z.subrange(2 + k, 2 + k + 4) == be_bytes(v)) by {
        assert(z.subrange(2 + k, 2 + k + 4) =~= z.subrange(2 + k, z.len() as int));
    }
    lemma_be_value(z, 2 + k, v);
}


} // verus!
