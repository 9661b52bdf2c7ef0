//! Stored DEFLATE blocks, and what a stream made of them decodes to.
use vstd::prelude::*;

use super::compress::{be_bytes, spec_adler32};
use super::decompress::{inflate_blocks, inflate_stored, zlib_decode, zlib_header_ok};
use super::roundtrip::lemma_be_value;
use super::stream::{align_up, bits_of, byte_bit, lemma_pos_div_mod, lsb_value};

verus! {

/// A stored DEFLATE block holding `data` (at most 65535 bytes), marked
/// final or not, starting on a byte boundary: the header byte (BFINAL and
/// BTYPE 00), LEN and NLEN least significant byte first, then the data.
pub open spec fn stored_block(data: Seq<u8>, last: bool) -> Seq<u8> {
    seq![
        if last {
            1u8
        } else {
            0u8
        },
        (data.len() % 256) as u8,
        (data.len() / 256) as u8,
        ((65535 - data.len()) % 256) as u8,
        ((65535 - data.len()) / 256) as u8,
    ] + data
}

/// Stored blocks holding the pieces `ds` in order, only the last one
/// marked final.
pub open spec fn stored_blocks(ds: Seq<Seq<u8>>) -> Seq<u8>
    decreases ds.len(),
{
    if ds.len() == 0 {
        Seq::empty()
    } else if ds.len() == 1 {
        stored_block(ds[0], true)
    } else {
        stored_block(ds[0], false) + stored_blocks(ds.drop_first())
    }
}

proof fn lemma_stored_block(z: Seq<u8>, j: int, data: Seq<u8>, last: bool, out: Seq<u8>)
    requires
        0 <= j,
        data.len() <= 65535,
        j + 5 + data.len() <= z.len(),
        z.subrange(j, j + 5 + data.len()) == stored_block(data, last),
    ensures
        bits_of(z)[8 * j] == last,
        lsb_value(bits_of(z), 8 * j + 1, 2) == 0,
        inflate_stored(z, 8 * j + 3, out) == Some((out + data, (j + 5 + data.len()) * 8)),
{
    let bits = bits_of(z);
    let n = data.len() as int;
    let blk = stored_block(data, last);
    let h = z[j];
    assert(h == blk[0]);
    assert(h == 0 || h == 1);
    lemma_pos_div_mod(j, 0);
    lemma_pos_div_mod(j, 1);
    lemma_pos_div_mod(j, 2);
    lemma_pos_div_mod(j, 3);
    lemma_pos_div_mod(j + 1, 0);
    assert(bits[8 * j] == byte_bit(h, 0));
    assert(bits[8 * j + 1] == byte_bit(h, 1));
    assert(bits[8 * j + 2] == byte_bit(h, 2));
    assert((h & 1u8 == 1u8) == (h == 1u8) && (h >> 1u8) & 1u8 == 0u8 && (h >> 2u8) & 1u8 == 0u8)
        by (bit_vector)
        requires
            h == 0u8 || h == 1u8,
    ;
    assert(h >> 0u8 == h) by (bit_vector);
    assert(!byte_bit(h, 1) && !byte_bit(h, 2));
    assert(!bits[8 * j + 1] && !bits[8 * j + 2]);
    assert(lsb_value(bits, 8 * j + 1, 0) == 0);
    assert(lsb_value(bits, 8 * j + 1, 1) == 0);
    assert(lsb_value(bits, 8 * j + 1, 2) == 0);
    assert(align_up(8 * j + 3) / 8 == j + 1);
    assert(z[j + 1] == blk[1]);
    assert(z[j + 2] == blk[2]);
    assert(z[j + 3] == blk[3]);
    assert(z[j + 4] == blk[4]);
    assert(z[j + 1] + 256 * z[j + 2] == n);
    assert(z[j + 3] + 256 * z[j + 4] == 65535 - n);
    assert(z.subrange(j + 5, j + 5 + n) =~= data) by {
        assert forall|k: int| 0 <= k < n implies z.subrange(j + 5, j + 5 + n)[k] == data[k] by {
            assert(z[j + 5 + k] == z.subrange(j, j + 5 + n)[5 + k]);
        }
    }
}

/// A DEFLATE stream of stored blocks decodes to the data of every block in
/// order: a block not marked final never ends the stream, and decoding
/// stops after the one that is. The position given back is the end of the
/// last block.
pub proof fn lemma_stored_blocks(z: Seq<u8>, j: int, ds: Seq<Seq<u8>>, out: Seq<u8>)
    requires
        0 <= j,
        ds.len() > 0,
        forall|i: int| 0 <= i < ds.len() ==> (#[trigger] ds[i]).len() <= 65535,
        j + stored_blocks(ds).len() <= z.len(),
        z.subrange(j, j + stored_blocks(ds).len()) == stored_blocks(ds),
    ensures
        inflate_blocks(z, 8 * j, out) == Some((out + ds.flatten(), 8 * (j + stored_blocks(ds).len()))),
    decreases ds.len(),
{
    let d0 = ds[0];
    let last = ds.len() == 1;
    let b0 = stored_block(d0, last);
    assert(ds[0].len() <= 65535);
    assert(stored_blocks(ds).subrange(0, b0.len() as int) =~= b0);
    assert(z.subrange(j, j + b0.len()) =~= b0) by {
        assert forall|k: int| 0 <= k < b0.len() implies z.subrange(j, j + b0.len())[k] == b0[k] by {
            assert(z.subrange(j, j + stored_blocks(ds).len())[k] == stored_blocks(ds)[k]);
        }
    }
    lemma_stored_block(z, j, d0, last, out);
    let j1 = j + b0.len();
    if last {
        assert(ds.drop_first().flatten() =~= Seq::<u8>::empty());
        assert(ds.flatten() =~= d0);
    } else {
        let rest = ds.drop_first();
        assert(stored_blocks(ds) == b0 + stored_blocks(rest));
        assert forall|i: int| 0 <= i < rest.len() implies (#[trigger] rest[i]).len() <= 65535 by {
            assert(rest[i] == ds[i + 1]);
        }
        assert(z.subrange(j1, j1 + stored_blocks(rest).len()) =~= stored_blocks(rest)) by {
            assert forall|k: int| 0 <= k < stored_blocks(rest).len() implies z.subrange(
                j1,
                j1 + stored_blocks(rest).len(),
            )[k] == stored_blocks(rest)[k] by {
                assert(z.subrange(j, j + stored_blocks(ds).len())[b0.len() + k] == stored_blocks(
                    ds,
                )[b0.len() + k]);
            }
        }
        lemma_stored_blocks(z, j1, rest, out + d0);
        assert(out + d0 + rest.flatten() =~= out + ds.flatten());
        assert(8 * j1 == (j + 5 + d0.len()) * 8);
    }
}

/// A zlib stream whose data is split over stored blocks, only the last
/// marked final, decodes to all the pieces in order, with their checksum.
pub proof fn lemma_zlib_stored_blocks(ds: Seq<Seq<u8>>)
    requires
        ds.len() > 0,
        forall|i: int| 0 <= i < ds.len() ==> (#[trigger] ds[i]).len() <= 65535,
    ensures
        zlib_decode(seq![0x78u8, 0x01u8] + stored_blocks(ds) + be_bytes(spec_adler32(ds.flatten())))
            == Some((ds.flatten(), spec_adler32(ds.flatten()))),
{
    let data = ds.flatten();
    let v = spec_adler32(data);
    let sb = stored_blocks(ds);
    let z = seq![0x78u8, 0x01u8] + sb + be_bytes(v);
    assert(z[0] == 0x78u8 && z[1] == 0x01u8);
    assert(zlib_header_ok(z[0], z[1]));
    let e: int = 2 + sb.len() as int;
    assert(z.subrange(2, e) =~= sb);
    lemma_stored_blocks(z, 2, ds, Seq::empty());
    assert(Seq::<u8>::empty() + data =~= data);
    let q = 8 * e;
    lemma_pos_div_mod(e, 0);
    assert(align_up(q) / 8 == e);
    assert(z.subrange(e, e + 4) =~= be_bytes(v));
    lemma_be_value(z, e, v);
}


} // verus!
