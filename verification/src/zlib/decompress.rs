//! zlib decompression (RFC 1950) of DEFLATE data (RFC 1951).
use vstd::arithmetic::power2::{lemma2_to64, pow2};
use vstd::prelude::*;

use super::codes::{huff_decode, small_lengths, DecodeTable};
use super::stream::{align_up, bits_of, le_value, lemma_pos_div_mod, lsb_value, Stream};
use super::tables::{
    dist_base, dist_base_at, dist_extra, dist_extra_at, fixed_dist_lengths, fixed_lit_lengths,
    length_base, length_base_at, length_extra, length_extra_at, lemma_dist_table, lemma_length_table,
};

verus! {

/// Appends `n` bytes to `out`, each a copy of the byte `dist` places
/// before it.
pub open spec fn copy_back(out: Seq<u8>, dist: int, n: int) -> Seq<u8>
    decreases n,
{
    if n <= 0 {
        out
    } else {
        let o = copy_back(out, dist, n - 1);
        o.push(o[o.len() - dist])
    }
}

/// Decodes the symbols of a compressed block from bit `p` of `d` with the
/// literal/length code of lengths `lit` and the distance code of lengths
/// `dist`, up to the end-of-block symbol; gives the output and the
/// position after the block.
pub open spec fn inflate_symbols(d: Seq<u8>, p: int, out: Seq<u8>, lit: Seq<u8>, dist: Seq<u8>) -> Option<
    (Seq<u8>, int),
>
    decreases d.len() * 8 - p,
{
    let bits = bits_of(d);
    if p < 0 || p > bits.len() {
        None
    } else {
        match huff_decode(lit, bits, p) {
            None => None,
            Some((sym, p1)) => {
                if p1 <= p || p1 > bits.len() {
                    None
                } else if sym < 256 {
                    inflate_symbols(d, p1, out.push(sym as u8), lit, dist)
                } else if sym == 256 {
                    Some((out, p1))
                } else if sym - 257 >= 29 {
                    None
                } else {
                    let li = sym - 257;
                    let ne = length_extra(li);
                    if p1 + ne > bits.len() {
                        None
                    } else {
                        let len = length_base(li) + lsb_value(bits, p1, ne as nat);
                        let p2 = p1 + ne;
                        match huff_decode(dist, bits, p2) {
                            None => None,
                            Some((ds, p3)) => {
                                if ds >= 30 || p3 <= p2 || p3 > bits.len() {
                                    None
                                } else {
                                    let de = dist_extra(ds as int);
                                    if p3 + de > bits.len() {
                                        None
                                    } else {
                                        let dd = dist_base(ds as int) + lsb_value(bits, p3, de as nat);
                                        if dd > out.len() {
                                            None
                                        } else {
                                            inflate_symbols(d, p3 + de, copy_back(out, dd, len), lit, dist)
                                        }
                                    }
                                }
                            },
                        }
                    }
                }
            },
        }
    }
}

/// The order in which the code lengths of the code-length alphabet are
/// stored.
pub open spec fn cl_order(i: int) -> int {
    if i == 0 {
        16
    } else if i == 1 {
        17
    } else if i == 2 {
        18
    } else if i == 3 {
        0
    } else if i % 2 == 0 {
        8 + (i - 4) / 2
    } else {
        7 - (i - 5) / 2
    }
}

/// The code lengths of the code-length alphabet, stored in three bits
/// each from bit `p` on, for the first `hclen` positions of `cl_order`;
/// `acc` holds those read before position `i`.
pub open spec fn cl_lengths(d: Seq<u8>, p: int, hclen: int, i: int, acc: Seq<u8>) -> Seq<u8>
    decreases hclen - i,
{
    if i >= hclen || i < 0 {
        acc
    } else {
        cl_lengths(
            d,
            p,
            hclen,
            i + 1,
            acc.update(cl_order(i), lsb_value(bits_of(d), p + 3 * i, 3) as u8),
        )
    }
}

/// Decodes the code lengths of the literal/length and distance codes
/// of a dynamic block, `total` of them, with the code-length code of
/// lengths `cl`; `acc` holds those decoded so far.
pub open spec fn code_lengths(d: Seq<u8>, p: int, cl: Seq<u8>, total: int, acc: Seq<u8>) -> Option<
    (Seq<u8>, int),
>
    decreases d.len() * 8 - p,
{
    let bits = bits_of(d);
    if p < 0 || p > bits.len() {
        None
    } else if acc.len() >= total {
        Some((acc, p))
    } else {
        match huff_decode(cl, bits, p) {
            None => None,
            Some((sym, p1)) => {
                if p1 <= p || p1 > bits.len() {
                    None
                } else if sym < 16 {
                    code_lengths(d, p1, cl, total, acc.push(sym as u8))
                } else if sym == 16 {
                    if acc.len() == 0 || p1 + 2 > bits.len() {
                        None
                    } else {
                        let rep = 3 + lsb_value(bits, p1, 2);
                        if acc.len() + rep > total {
                            None
                        } else {
                            code_lengths(d, p1 + 2, cl, total, acc + Seq::new(rep, |i: int| acc.last()))
                        }
                    }
                } else if sym == 17 {
                    if p1 + 3 > bits.len() {
                        None
                    } else {
                        let rep = 3 + lsb_value(bits, p1, 3);
                        if acc.len() + rep > total {
                            None
                        } else {
                            code_lengths(d, p1 + 3, cl, total, acc + Seq::new(rep, |i: int| 0u8))
                        }
                    }
                } else if sym == 18 {
                    if p1 + 7 > bits.len() {
                        None
                    } else {
                        let rep = 11 + lsb_value(bits, p1, 7);
                        if acc.len() + rep > total {
                            None
                        } else {
                            code_lengths(d, p1 + 7, cl, total, acc + Seq::new(rep, |i: int| 0u8))
                        }
                    }
                } else {
                    None
                }
            },
        }
    }
}

/// A block with dynamic Huffman codes from bit `p` on: the sizes of the
/// codes, the code-length code, the code lengths, then the symbols.
pub open spec fn inflate_dynamic(d: Seq<u8>, p: int, out: Seq<u8>) -> Option<(Seq<u8>, int)> {
    let bits = bits_of(d);
    if p < 0 || p + 14 > bits.len() {
        None
    } else {
        let hlit = lsb_value(bits, p, 5) + 257int;
        let hdist = lsb_value(bits, p + 5, 5) + 1int;
        let hclen = lsb_value(bits, p + 10, 4) + 4int;
        if hlit > 286 || hdist > 30 || p + 14 + 3 * hclen > bits.len() {
            None
        } else {
            let cl = cl_lengths(d, p + 14, hclen, 0, Seq::new(19, |i: int| 0u8));
            match code_lengths(d, p + 14 + 3 * hclen, cl, hlit + hdist, Seq::empty()) {
                None => None,
                Some((lens, q)) => inflate_symbols(
                    d,
                    q,
                    out,
                    lens.subrange(0, hlit as int),
                    lens.subrange(hlit as int, hlit + hdist),
                ),
            }
        }
    }
}

/// The blocks of a DEFLATE stream from bit `p` on, up to and including
/// the one marked final; gives the output and the position after it.
pub open spec fn inflate_blocks(d: Seq<u8>, p: int, out: Seq<u8>) -> Option<(Seq<u8>, int)>
    decreases d.len() * 8 - p,
{
    let bits = bits_of(d);
    if p < 0 || p + 3 > bits.len() {
        None
    } else {
        let bfinal = bits[p];
        let btype = lsb_value(bits, p + 1, 2);
        let r = if btype == 0 {
            inflate_stored(d, p + 3, out)
        } else if btype == 1 {
            inflate_symbols(d, p + 3, out, fixed_lit_lengths(288), fixed_dist_lengths(32))
        } else if btype == 2 {
            inflate_dynamic(d, p + 3, out)
        } else {
            None
        };
        match r {
            None => None,
            Some((o, q)) => {
                if bfinal {
                    Some((o, q))
                } else if q <= p || q > bits.len() {
                    None
                } else {
                    inflate_blocks(d, q, o)
                }
            },
        }
    }
}

/// A valid zlib header: DEFLATE with a window of at most 32 KiB, a
/// correct check value, and no preset dictionary.
pub open spec fn zlib_header_ok(cmf: u8, flg: u8) -> bool {
    &&& cmf % 16 == 8
    &&& cmf / 16 <= 7
    &&& (cmf * 256 + flg) % 31 == 0
    &&& (flg / 32) % 2 == 0
}

/// The big-endian value of the four bytes `z[a..a + 4]`.
pub open spec fn be_value(z: Seq<u8>, a: int) -> int {
    z[a] * 0x1000000 + z[a + 1] * 0x10000 + z[a + 2] * 0x100 + z[a + 3]
}

/// What a zlib stream holds: its data and its Adler-32 checksum, where the
/// header is valid, the DEFLATE data decodes, and the checksum that
/// follows it matches the data.
pub open spec fn zlib_decode(z: Seq<u8>) -> Option<(Seq<u8>, u32)> {
    if z.len() < 2 || !zlib_header_ok(z[0], z[1]) {
        None
    } else {
        match inflate_blocks(z, 16, Seq::empty()) {
            None => None,
            Some((data, q)) => {
                let a = align_up(q) / 8;
                if a + 4 > z.len() {
                    None
                } else if be_value(z, a) != super::compress::spec_adler32(data) {
                    None
                } else {
                    Some((data, be_value(z, a) as u32))
                }
            },
        }
    }
}

/// A stored block from bit `p` on: from the next byte boundary, the
/// length, its complement, and that many raw bytes.
pub open spec fn inflate_stored(d: Seq<u8>, p: int, out: Seq<u8>) -> Option<(Seq<u8>, int)> {
    let j = align_up(p) / 8;
    if p < 0 || j + 4 > d.len() {
        None
    } else {
        let len = d[j] + 256 * d[j + 1];
        let nlen = d[j + 2] + 256 * d[j + 3];
        if nlen != 65535 - len || j + 4 + len > d.len() {
            None
        } else {
            Some((out + d.subrange(j + 4, j + 4 + len), (j + 4 + len) * 8))
        }
    }
}

/// Appends `n` bytes, each copied from `dist` places back.
fn copy_back_exec(out: &mut Vec<u8>, dist: usize, n: usize)
    requires
        1 <= dist <= old(out)@.len(),
    ensures
        final(out)@ == copy_back(old(out)@, dist as int, n as int),
{
    let mut k: usize = 0;
    while k < n
        invariant
            k <= n,
            1 <= dist <= old(out)@.len(),
            out@ == copy_back(old(out)@, dist as int, k as int),
            out@.len() == old(out)@.len() + k,
        decreases n - k,
    {
        let b = out[out.len() - dist];
        out.push(b);
        k += 1;
    }
}

/// Decodes the symbols of a compressed block into `out`; `false` where
/// the data is malformed.
fn inflate_block_symbols(
    s: &mut Stream,
    out: &mut Vec<u8>,
    lit_t: &DecodeTable,
    dist_t: &DecodeTable,
    Ghost(lit): Ghost<Seq<u8>>,
    Ghost(dist): Ghost<Seq<u8>>,
) -> (ok: bool)
    requires
        old(s).wf(),
        lit_t.decodes(lit),
        dist_t.decodes(dist),
    ensures
        final(s).wf(),
        final(s).data() == old(s).data(),
        match inflate_symbols(old(s).data(), old(s).pos(), old(out)@, lit, dist) {
            Some((o, q)) => ok && final(out)@ == o && final(s).pos() == q,
            None => !ok,
        },
        final(s).pos() >= old(s).pos(),
{
    let ghost d = s.data();
    let ghost bits = s.bits();
    let ghost p0 = s.pos();
    let ghost out0 = out@;
    proof {
        s.lemma_pos_bound();
    }
    loop
        invariant
            s.wf(),
            s.data() == d,
            d == old(s).data(),
            bits == bits_of(d),
            p0 == old(s).pos(),
            out0 == old(out)@,
            lit_t.decodes(lit),
            dist_t.decodes(dist),
            0 <= s.pos() <= bits.len(),
            s.pos() >= p0,
            inflate_symbols(d, p0, out0, lit, dist) == inflate_symbols(d, s.pos(), out@, lit, dist),
        decreases bits.len() - s.pos(),
    {
        let ghost p = s.pos();
        let ghost o = out@;
        let sym = match lit_t.decode(s, Ghost(lit)) {
            None => {
                return false;
            },
            Some(x) => x,
        };
        proof {
            s.lemma_pos_bound();
        }
        if sym < 256 {
            out.push(sym as u8);
            assert(inflate_symbols(d, p, o, lit, dist) == inflate_symbols(d, s.pos(), out@, lit, dist));
        } else if sym == 256 {
            return true;
        } else {
            if sym - 257 >= 29 {
                return false;
            }
            let li = (sym - 257) as usize;
            let ne = length_extra_at(li) as usize;
            proof {
                lemma_length_table(li as int);
            }
            if !s.has_bits(ne) {
                return false;
            }
            let ghost p1 = s.pos();
            let extra = s.read_bits(ne);
            proof {
                lemma_lsb_value_bound(bits, p1, ne as nat);
                lemma2_to64();
            }
            let len = length_base_at(li) as usize + extra as usize;
            let ghost p2 = s.pos();
            let ds = match dist_t.decode(s, Ghost(dist)) {
                None => {
                    return false;
                },
                Some(x) => x,
            };
            proof {
                s.lemma_pos_bound();
            }
            if ds >= 30 {
                return false;
            }
            let de = dist_extra_at(ds as usize) as usize;
            proof {
                lemma_dist_table(ds as int);
            }
            if !s.has_bits(de) {
                return false;
            }
            let ghost p3 = s.pos();
            let dextra = s.read_bits(de);
            proof {
                lemma_lsb_value_bound(bits, p3, de as nat);
            }
            let dd = dist_base_at(ds as usize) as usize + dextra as usize;
            if dd > out.len() {
                return false;
            }
            copy_back_exec(out, dd, len);
            assert(inflate_symbols(d, p, o, lit, dist) == inflate_symbols(d, s.pos(), out@, lit, dist));
        }
    }
}

/// Decodes a stored block into `out`; `false` where the data is
/// malformed.
fn inflate_block_stored(s: &mut Stream, out: &mut Vec<u8>) -> (ok: bool)
    requires
        old(s).wf(),
    ensures
        final(s).wf(),
        final(s).data() == old(s).data(),
        match inflate_stored(old(s).data(), old(s).pos(), old(out)@) {
            Some((o, q)) => ok && final(out)@ == o && final(s).pos() == q,
            None => !ok,
        },
        final(s).pos() >= old(s).pos(),
{
    let ghost d = s.data();
    let ghost j = align_up(s.pos()) / 8;
    proof {
        s.lemma_pos_bound();
        lemma2_to64();
    }
    s.align_to_byte();
    proof {
        assert(s.pos() == 8 * j) by {
            assert(align_up(old(s).pos()) % 8 == 0);
        }
    }
    if !s.has_bits(32) {
        return false;
    }
    let len = s.read_bytes(2);
    let nlen = s.read_bytes(2);
    proof {
        lemma2_to64();
        assert(pow2(0) == 1);
        assert(pow2(8) == 256);
        assert(le_value(d, j, 0) == 0);
        assert(le_value(d, j, 1) == le_value(d, j, 0) + (d[j] as nat) * pow2(0));
        assert(le_value(d, j, 1) == d[j] as nat);
        assert(le_value(d, j + 2, 0) == 0);
        assert(le_value(d, j + 2, 1) == le_value(d, j + 2, 0) + (d[j + 2] as nat) * pow2(0));
        assert(le_value(d, j, 2) == le_value(d, j, 1) + (d[j + 1] as nat) * pow2(8));
        assert(le_value(d, j, 2) == d[j] + 256 * d[j + 1]);
        assert(le_value(d, j + 2, 1) == d[j + 2] as nat);
        assert(le_value(d, j + 2, 2) == le_value(d, j + 2, 1) + (d[j + 3] as nat) * pow2(8));
        assert(le_value(d, j + 2, 2) == d[j + 2] + 256 * d[j + 3]);
    }
    if nlen != 65535 - len {
        return false;
    }
    let len = len as usize;
    if !s.has_bits(8 * len) {
        return false;
    }
    let ghost out0 = out@;
    let mut k: usize = 0;
    while k < len
        invariant
            s.wf(),
            s.data() == d,
            k <= len <= 65535,
            j >= 0,
            j + 4 + len <= d.len(),
            8 * j >= old(s).pos(),
            s.pos() == 8 * (j + 4 + k),
            out@ == out0 + d.subrange(j + 4, j + 4 + k),
        decreases len - k,
    {
        proof {
            lemma_pos_div_mod(j + 4 + k, 0);
        }
        let b = s.read_byte();
        out.push(b);
        proof {
            assert(out@ =~= out0 + d.subrange(j + 4, j + 4 + k + 1));
        }
        k += 1;
    }
    true
}

/// Position `i` of the storage order of code-length code lengths.
fn cl_order_at(i: usize) -> (r: usize)
    requires
        i < 19,
    ensures
        r == cl_order(i as int),
        r < 19,
{
    if i == 0 {
        16
    } else if i == 1 {
        17
    } else if i == 2 {
        18
    } else if i == 3 {
        0
    } else if i % 2 == 0 {
        8 + (i - 4) / 2
    } else {
        7 - (i - 5) / 2
    }
}

/// Decodes the code lengths of a dynamic block, `total` of them; `None`
/// where the data is malformed.
fn read_code_lengths(s: &mut Stream, cl_t: &DecodeTable, total: usize, Ghost(cl): Ghost<Seq<u8>>) -> (r: Option<Vec<u8>>)
    requires
        old(s).wf(),
        cl_t.decodes(cl),
        total <= 316,
    ensures
        final(s).wf(),
        final(s).data() == old(s).data(),
        match code_lengths(old(s).data(), old(s).pos(), cl, total as int, Seq::empty()) {
            Some((lens, q)) => r matches Some(v) && v@ == lens && final(s).pos() == q,
            None => r is None,
        },
        final(s).pos() >= old(s).pos(),
        r matches Some(v) ==> v@.len() == total && small_lengths(v@),
{
    let ghost d = s.data();
    let ghost bits = s.bits();
    let ghost p0 = s.pos();
    proof {
        s.lemma_pos_bound();
    }
    let mut lens: Vec<u8> = Vec::new();
    while lens.len() < total
        invariant
            s.wf(),
            s.data() == d,
            d == old(s).data(),
            bits == bits_of(d),
            p0 == old(s).pos(),
            cl_t.decodes(cl),
            total <= 316,
            0 <= s.pos() <= bits.len(),
            s.pos() >= p0,
            lens@.len() <= total,
            forall|i: int| 0 <= i < lens@.len() ==> #[trigger] lens@[i] <= 15,
            code_lengths(d, p0, cl, total as int, Seq::empty()) == code_lengths(
                d,
                s.pos(),
                cl,
                total as int,
                lens@,
            ),
        decreases bits.len() - s.pos(),
    {
        let ghost p = s.pos();
        let ghost acc = lens@;
        let sym = match cl_t.decode(s, Ghost(cl)) {
            None => {
                return None;
            },
            Some(x) => x,
        };
        proof {
            s.lemma_pos_bound();
            lemma2_to64();
        }
        if sym < 16 {
            lens.push(sym as u8);
        } else if sym == 16 {
            if lens.len() == 0 {
                return None;
            }
            if !s.has_bits(2) {
                return None;
            }
            let ghost p1 = s.pos();
            let v = s.read_bits(2);
            proof {
                lemma_lsb_value_bound(bits, p1, 2);
            }
            let rep = 3 + v as usize;
            if lens.len() + rep > total {
                return None;
            }
            let prev = lens[lens.len() - 1];
            let mut k: usize = 0;
            while k < rep
                invariant
                    k <= rep,
                    acc.len() > 0,
                    prev == acc.last(),
                    prev <= 15,
                    lens@ == acc + Seq::new(k as nat, |i: int| acc.last()),
                decreases rep - k,
            {
                lens.push(prev);
                proof {
                    assert(lens@ =~= acc + Seq::new((k + 1) as nat, |i: int| acc.last()));
                }
                k += 1;
            }
        } else if sym == 17 || sym == 18 {
            let nbits: usize = if sym == 17 {
                3
            } else {
                7
            };
            if !s.has_bits(nbits) {
                return None;
            }
            let ghost p1 = s.pos();
            let v = s.read_bits(nbits);
            proof {
                lemma_lsb_value_bound(bits, p1, nbits as nat);
            }
            let rep: usize = if sym == 17 {
                3 + v as usize
            } else {
                11 + v as usize
            };
            if lens.len() + rep > total {
                return None;
            }
            let mut k: usize = 0;
            while k < rep
                invariant
                    k <= rep,
                    lens@ == acc + Seq::new(k as nat, |i: int| 0u8),
                decreases rep - k,
            {
                lens.push(0u8);
                proof {
                    assert(lens@ =~= acc + Seq::new((k + 1) as nat, |i: int| 0u8));
                }
                k += 1;
            }
        } else {
            return None;
        }
        proof {
            assert(code_lengths(d, p, cl, total as int, acc) == code_lengths(
                d,
                s.pos(),
                cl,
                total as int,
                lens@,
            ));
        }
    }
    Some(lens)
}

/// The elements `v[from..to]`.
fn sub_vec(v: &Vec<u8>, from: usize, to: usize) -> (r: Vec<u8>)
    requires
        from <= to <= v@.len(),
    ensures
        r@ == v@.subrange(from as int, to as int),
{
    let mut r: Vec<u8> = Vec::new();
    let mut i = from;
    while i < to
        invariant
            from <= i <= to <= v@.len(),
            r@ == v@.subrange(from as int, i as int),
        decreases to - i,
    {
        r.push(v[i]);
        proof {
            assert(r@ =~= v@.subrange(from as int, i + 1));
        }
        i += 1;
    }
    r
}

/// Decodes a block with dynamic Huffman codes into `out`; `false` where
/// the data is malformed.
fn inflate_block_dynamic(s: &mut Stream, out: &mut Vec<u8>) -> (ok: bool)
    requires
        old(s).wf(),
    ensures
        final(s).wf(),
        final(s).data() == old(s).data(),
        match inflate_dynamic(old(s).data(), old(s).pos(), old(out)@) {
            Some((o, q)) => ok && final(out)@ == o && final(s).pos() == q,
            None => !ok,
        },
        final(s).pos() >= old(s).pos(),
{
    let ghost d = s.data();
    let ghost bits = s.bits();
    let ghost p = s.pos();
    proof {
        s.lemma_pos_bound();
        lemma2_to64();
    }
    if !s.has_bits(14) {
        return false;
    }
    let v_lit = s.read_bits(5);
    let v_dist = s.read_bits(5);
    let v_clen = s.read_bits(4);
    proof {
        lemma_lsb_value_bound(bits, p, 5);
        lemma_lsb_value_bound(bits, p + 5, 5);
        lemma_lsb_value_bound(bits, p + 10, 4);
    }
    let hlit = v_lit as usize + 257;
    let hdist = v_dist as usize + 1;
    let hclen = v_clen as usize + 4;
    if hlit > 286 || hdist > 30 {
        return false;
    }
    if !s.has_bits(3 * hclen) {
        return false;
    }
    let mut cl: Vec<u8> = vec![0u8; 19];
    let mut i: usize = 0;
    proof {
        assert(cl@ =~= Seq::new(19, |i: int| 0u8));
    }
    while i < hclen
        invariant
            s.wf(),
            s.data() == d,
            bits == bits_of(d),
            i <= hclen <= 19,
            p + 14 + 3 * hclen <= bits.len(),
            s.pos() == p + 14 + 3 * i,
            cl@.len() == 19,
            forall|k: int| 0 <= k < 19 ==> #[trigger] cl@[k] <= 7,
            cl_lengths(d, p + 14, hclen as int, 0, Seq::new(19, |i: int| 0u8)) == cl_lengths(
                d,
                p + 14,
                hclen as int,
                i as int,
                cl@,
            ),
        decreases hclen - i,
    {
        let ghost pi = s.pos();
        let v = s.read_bits(3);
        proof {
            lemma_lsb_value_bound(bits, pi, 3);
            lemma2_to64();
        }
        let k = cl_order_at(i);
        cl.set(k, v as u8);
        i += 1;
    }
    let cl_t = DecodeTable::build(&cl);
    let lens = match read_code_lengths(s, &cl_t, hlit + hdist, Ghost(cl@)) {
        None => {
            return false;
        },
        Some(v) => v,
    };
    let lit = sub_vec(&lens, 0, hlit);
    let dist = sub_vec(&lens, hlit, hlit + hdist);
    let lit_t = DecodeTable::build(&lit);
    let dist_t = DecodeTable::build(&dist);
    inflate_block_symbols(s, out, &lit_t, &dist_t, Ghost(lit@), Ghost(dist@))
}

/// Decoding tables of the fixed codes: all 288 literal/length symbols and
/// 32 distance symbols, as RFC 1951 defines them.
fn fixed_tables() -> (r: (DecodeTable, DecodeTable))
    ensures
        r.0.decodes(fixed_lit_lengths(288)),
        r.1.decodes(fixed_dist_lengths(32)),
{
    let mut bl: Vec<u8> = Vec::with_capacity(288);
    let mut k: usize = 0;
    while k < 288
        invariant
            k <= 288,
            bl@ == fixed_lit_lengths(k as int),
        decreases 288 - k,
    {
        let v: u8 = if k < 144 {
            8
        } else if k < 256 {
            9
        } else if k < 280 {
            7
        } else {
            8
        };
        bl.push(v);
        proof {
            assert(bl@ =~= fixed_lit_lengths(k + 1));
        }
        k += 1;
    }
    let dl: Vec<u8> = vec![5u8; 32];
    proof {
        assert(dl@ =~= fixed_dist_lengths(32));
    }
    (DecodeTable::build(&bl), DecodeTable::build(&dl))
}

/// Decodes DEFLATE blocks from the stream's position up to and including
/// the final one; `None` where the data is malformed.
fn inflate(stream: &mut Stream) -> (r: Option<Vec<u8>>)
    requires
        old(stream).wf(),
    ensures
        final(stream).wf(),
        final(stream).data() == old(stream).data(),
        match inflate_blocks(old(stream).data(), old(stream).pos(), Seq::empty()) {
            Some((o, q)) => r matches Some(v) && v@ == o && final(stream).pos() == q,
            None => r is None,
        },
{
    let ghost d = stream.data();
    let ghost bits = stream.bits();
    let ghost p0 = stream.pos();
    let mut inflated: Vec<u8> = Vec::new();
    proof {
        stream.lemma_pos_bound();
    }
    loop
        invariant
            stream.wf(),
            stream.data() == d,
            d == old(stream).data(),
            bits == bits_of(d),
            p0 == old(stream).pos(),
            0 <= stream.pos() <= bits.len(),
            inflate_blocks(d, p0, Seq::empty()) == inflate_blocks(d, stream.pos(), inflated@),
        decreases bits.len() - stream.pos(),
    {
        let ghost p = stream.pos();
        let ghost o = inflated@;
        if !stream.has_bits(3) {
            return None;
        }
        let bfinal = stream.read_bit();
        let btype = stream.read_bits(2);
        let ok = if btype == 0 {
            inflate_block_stored(stream, &mut inflated)
        } else if btype == 1 {
            let (lit_t, dist_t) = fixed_tables();
            inflate_block_symbols(
                stream,
                &mut inflated,
                &lit_t,
                &dist_t,
                Ghost(fixed_lit_lengths(288)),
                Ghost(fixed_dist_lengths(32)),
            )
        } else if btype == 2 {
            inflate_block_dynamic(stream, &mut inflated)
        } else {
            false
        };
        proof {
            stream.lemma_pos_bound();
        }
        if !ok {
            return None;
        }
        if bfinal == 1 {
            return Some(inflated);
        }
        assert(inflate_blocks(d, p, o) == inflate_blocks(d, stream.pos(), inflated@));
    }
}

/// Decompresses the zlib stream `bytes`, appends the data to `buf` and
/// gives the stream's Adler-32 checksum. Gives `None`, and leaves `buf`
/// as it was, where the header is invalid, the compressed data is
/// malformed or truncated, or the checksum does not match the data.
pub fn decompress(bytes: Vec<u8>, buf: &mut Vec<u8>) -> (r: Option<u32>)
    ensures
        match zlib_decode(bytes@) {
            Some((data, c)) => r == Some(c) && final(buf)@ == old(buf)@ + data,
            None => r is None && final(buf)@ == old(buf)@,
        },
{
    let ghost z = bytes@;
    let mut stream = Stream::new(bytes);
    if !stream.has_bits(16) {
        return None;
    }
    proof {
        lemma_pos_div_mod(0, 0);
        lemma_pos_div_mod(1, 0);
    }
    let cmf = stream.read_byte();
    let flg = stream.read_byte();
    let cm = cmf & 0b1111;
    let cinfo = cmf >> 4;
    let fdict = (flg >> 5) & 1;
    proof {
        assert(cm == cmf % 16 && cinfo == cmf / 16 && fdict == (flg / 32) % 2) by (bit_vector)
            requires
                cm == cmf & 0b1111u8,
                cinfo == cmf >> 4u8,
                fdict == (flg >> 5u8) & 1u8,
        ;
    }
    if cm != 8 || cinfo > 7 || ((cmf as u32) * 256 + flg as u32) % 31 != 0 || fdict != 0 {
        return None;
    }
    let data = match inflate(&mut stream) {
        None => {
            return None;
        },
        Some(v) => v,
    };
    proof {
        stream.lemma_pos_bound();
    }
    stream.align_to_byte();
    if !stream.has_bits(32) {
        return None;
    }
    let ghost a = stream.pos() / 8;
    proof {
        lemma_pos_div_mod(a, 0);
        lemma_pos_div_mod(a + 1, 0);
        lemma_pos_div_mod(a + 2, 0);
        lemma_pos_div_mod(a + 3, 0);
        assert(stream.pos() == 8 * a) by {
            assert(stream.pos() % 8 == 0);
        }
    }
    let b0 = stream.read_byte();
    let b1 = stream.read_byte();
    let b2 = stream.read_byte();
    let b3 = stream.read_byte();
    let checksum = (b0 as u32) * 0x1000000 + (b1 as u32) * 0x10000 + (b2 as u32) * 0x100 + b3 as u32;
    if checksum != super::compress::adler32(&data) {
        return None;
    }
    buf.extend_from_slice(&data);
    Some(checksum)
}

proof fn lemma_lsb_value_bound(bits: Seq<bool>, p: int, n: nat)
    ensures
        lsb_value(bits, p, n) < pow2(n),
    decreases n,
{
    vstd::arithmetic::power2::lemma_pow2_pos(n);
    if n > 0 {
        lemma_lsb_value_bound(bits, p, (n - 1) as nat);
        vstd::arithmetic::power2::lemma_pow2_unfold(n);
    }
}

} // verus!
