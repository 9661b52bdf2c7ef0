//! SHA-1 (FIPS 180-4).
use vstd::prelude::*;

use crate::text::{hex_digit, hex_digit_of};

verus! {

/// The initial hash value.
pub open spec fn sha1_init() -> Seq<u32> {
    seq![0x67452301u32, 0xEFCDAB89u32, 0x98BADCFEu32, 0x10325476u32, 0xC3D2E1F0u32]
}

/// `x` rotated left by `n` bits.
pub open spec fn rotl(x: u32, n: u32) -> u32 {
    (x << n) | (x >> ((32 - n) as u32))
}

/// Word `t` of the message schedule of `block`.
pub open spec fn schedule(block: Seq<u32>, t: int) -> u32
    decreases t,
{
    if t < 16 {
        block[t]
    } else {
        rotl(
            schedule(block, t - 3) ^ schedule(block, t - 8) ^ schedule(block, t - 14) ^ schedule(
                block,
                t - 16,
            ),
            1,
        )
    }
}

/// The constant of round `t`.
pub open spec fn round_k(t: int) -> u32 {
    if t <= 19 {
        0x5a827999
    } else if t <= 39 {
        0x6ed9eba1
    } else if t <= 59 {
        0x8f1bbcdc
    } else {
        0xca62c1d6
    }
}

/// The function of round `t`.
pub open spec fn round_f(t: int, b: u32, c: u32, d: u32) -> u32 {
    if t <= 19 {
        (b & c) ^ (!b & d)
    } else if t <= 39 {
        b ^ c ^ d
    } else if t <= 59 {
        (b & c) ^ (b & d) ^ (c & d)
    } else {
        b ^ c ^ d
    }
}

/// The working variables `(a, b, c, d, e)` after the first `t` rounds on
/// `block`, from the hash value `h`.
pub open spec fn rounds(h: Seq<u32>, block: Seq<u32>, t: int) -> (u32, u32, u32, u32, u32)
    decreases t,
{
    if t <= 0 {
        (h[0], h[1], h[2], h[3], h[4])
    } else {
        let (a, b, c, d, e) = rounds(h, block, t - 1);
        let tmp = rotl(a, 5).wrapping_add(round_f(t - 1, b, c, d)).wrapping_add(e).wrapping_add(
            round_k(t - 1),
        ).wrapping_add(schedule(block, t - 1));
        (tmp, a, rotl(b, 30), c, d)
    }
}

/// The hash value after processing `block` from `h`.
pub open spec fn compress_block(h: Seq<u32>, block: Seq<u32>) -> Seq<u32> {
    let (a, b, c, d, e) = rounds(h, block, 80);
    seq![
        a.wrapping_add(h[0]),
        b.wrapping_add(h[1]),
        c.wrapping_add(h[2]),
        d.wrapping_add(h[3]),
        e.wrapping_add(h[4]),
    ]
}

/// The eight bytes of `v`, most significant first.
pub open spec fn be_u64_bytes(v: u64) -> Seq<u8> {
    Seq::new(8, |j: int| ((v >> ((56 - 8 * j) as u64)) & 0xffu64) as u8)
}

/// The number of zero bytes and the 0x80 byte that pad a message of `l`
/// bytes, before its length: enough to reach 56 bytes modulo 64.
pub open spec fn pad_count(l: int) -> int {
    let l0 = (56 - l) % 64;
    if l0 == 0 {
        64
    } else {
        l0
    }
}

/// The padded message: `msg`, the byte 0x80, zeros, and the length of
/// `msg` in bits as a 64-bit big-endian number.
pub open spec fn sha1_padding(msg: Seq<u8>) -> Seq<u8> {
    msg + seq![0x80u8] + Seq::new((pad_count(msg.len() as int) - 1) as nat, |i: int| 0u8)
        + be_u64_bytes(((msg.len() * 8) % 0x1_0000_0000_0000_0000) as u64)
}

/// The big-endian word at byte `i` of `s`.
pub open spec fn be_word(s: Seq<u8>, i: int) -> u32 {
    (s[i] * 0x1000000 + s[i + 1] * 0x10000 + s[i + 2] * 0x100 + s[i + 3]) as u32
}

/// The 512-bit blocks of `s` as sixteen big-endian words each.
pub open spec fn sha1_blocks(s: Seq<u8>) -> Seq<Seq<u32>> {
    Seq::new(s.len() / 64, |i: int| Seq::new(16, |j: int| be_word(s, 64 * i + 4 * j)))
}

/// The hash value after processing `blocks` from `h`.
pub open spec fn process_blocks(h: Seq<u32>, blocks: Seq<Seq<u32>>) -> Seq<u32>
    decreases blocks.len(),
{
    if blocks.len() == 0 {
        h
    } else {
        compress_block(process_blocks(h, blocks.drop_last()), blocks.last())
    }
}

/// The hash value after hashing `msg` from `h`.
pub open spec fn sha1_update(h: Seq<u32>, msg: Seq<u8>) -> Seq<u32> {
    process_blocks(h, sha1_blocks(sha1_padding(msg)))
}

/// The SHA-1 hash value of `msg`.
pub open spec fn sha1_digest(msg: Seq<u8>) -> Seq<u32> {
    sha1_update(sha1_init(), msg)
}

/// The 40 lowercase hexadecimal digits of a hash value.
pub open spec fn hex_of_words(h: Seq<u32>) -> Seq<char> {
    Seq::new(40, |i: int| hex_digit(((h[i / 8] >> ((28 - 4 * (i % 8)) as u32)) & 0xfu32) as int))
}

/// The 20 bytes of a hash value, most significant first.
pub open spec fn bytes_of_words(h: Seq<u32>) -> Seq<u8> {
    Seq::new(20, |i: int| ((h[i / 4] >> ((24 - 8 * (i % 4)) as u32)) & 0xffu32) as u8)
}

#[derive(Clone, Copy)]
pub struct Sha1 {
    bytes: [u32; 5],
}

impl Sha1 {
    /// The hash value held.
    pub closed spec fn state(&self) -> Seq<u32> {
        self.bytes@
    }

    /// A hasher holding the initial hash value.
    pub fn new() -> (s: Self)
        ensures
            s.state() == sha1_init(),
    {
        let s = Self { bytes: [0x67452301, 0xEFCDAB89, 0x98BADCFE, 0x10325476, 0xC3D2E1F0] };
        assert(s.bytes@ =~= sha1_init());
        s
    }

    fn rotl(&self, n: u32, x: u32, w: u32) -> (r: u32)
        requires
            1 <= n <= 31,
            w == 32,
        ensures
            r == rotl(x, n),
    {
        (x << n) | (x >> (w - n))
    }

    /// Pads `stream` to a whole number of 64-byte blocks: the byte 0x80,
    /// zeros, and the message length in bits, big-endian.
    fn padding(&self, stream: &[u8]) -> (r: Vec<u8>)
        ensures
            r@ == sha1_padding(stream@),
    {
        let mut out: Vec<u8> = Vec::new();
        out.extend_from_slice(stream);
        let l = stream.len();
        let bits: u64 = (l as u64).wrapping_mul(8);
        proof {
            assert(bits == ((stream@.len() * 8) % 0x1_0000_0000_0000_0000) as u64);
        }
        let mut hl: [u8; 8] = [0u8; 8];
        let mut j: usize = 0;
        while j < 8
            invariant
                j <= 8,
                hl@.len() == 8,
                forall|k: int| 0 <= k < j ==> #[trigger] hl@[k] == be_u64_bytes(bits)[k],
            decreases 8 - j,
        {
            hl[j] = ((bits >> (56 - 8 * j as u64)) & 0xff) as u8;
            j += 1;
        }
        let l0: usize = (56 + 64 - l % 64) % 64;
        let l0 = if l0 == 0 {
            64
        } else {
            l0
        };
        proof {
            assert(l0 == pad_count(l as int));
        }
        out.push(0x80);
        let mut k: usize = 0;
        while k < l0 - 1
            invariant
                k <= l0 - 1,
                out@ == stream@ + seq![0x80u8] + Seq::new(k as nat, |i: int| 0u8),
            decreases l0 - 1 - k,
        {
            out.push(0);
            proof {
                assert(out@ =~= stream@ + seq![0x80u8] + Seq::new((k + 1) as nat, |i: int| 0u8));
            }
            k += 1;
        }
        out.extend_from_slice(&hl);
        proof {
            assert(hl@ =~= be_u64_bytes(bits));
            assert(out@ =~= sha1_padding(stream@));
        }
        out
    }

    /// Splits `stream` into 64-byte blocks of sixteen big-endian words.
    fn prepare(&self, stream: &[u8]) -> (blocks: Vec<[u32; 16]>)
        ensures
            blocks@.len() == sha1_blocks(stream@).len(),
            forall|i: int| 0 <= i < blocks@.len() ==> #[trigger] blocks@[i]@ == sha1_blocks(stream@)[i],
    {
        let mut blocks: Vec<[u32; 16]> = Vec::new();
        let slen = stream.len();
        let n_blocks = slen / 64;
        let mut i: usize = 0;
        while i < n_blocks
            invariant
                slen == stream@.len(),
                n_blocks == stream@.len() / 64,
                i <= n_blocks,
                blocks@.len() == i,
                forall|b: int| 0 <= b < i ==> #[trigger] blocks@[b]@ == sha1_blocks(stream@)[b],
            decreases n_blocks - i,
        {
            let mut words: [u32; 16] = [0u32; 16];
            let mut j: usize = 0;
            while j < 16
                invariant
                    slen == stream@.len(),
                    n_blocks == stream@.len() / 64,
                    i < n_blocks,
                    j <= 16,
                    words@.len() == 16,
                    forall|k: int| 0 <= k < j ==> #[trigger] words@[k] == be_word(stream@, 64 * i + 4 * k),
                decreases 16 - j,
            {
                let mut word: u32 = 0;
                let mut k: usize = 0;
                proof {
                    assert(i * 64 + j * 4 + 4 <= stream@.len()) by (nonlinear_arith)
                        requires
                            i < n_blocks,
                            n_blocks == stream@.len() / 64,
                            j < 16,
                    ;
                }
                let base = i * 64 + j * 4;
                while k < 4
                    invariant
                        base == 64 * i + 4 * j,
                        base + 4 <= stream@.len(),
                        k <= 4,
                        word as int == partial_word(stream@, base as int, k as int),
                    decreases 4 - k,
                {
                    let byte = stream[base + k];
                    proof {
                        lemma_partial_word_bound(stream@, base as int, k as int);
                        assert((word << 8u32) | (byte as u32) == word * 256 + byte) by (bit_vector)
                            requires
                                word < 0x1000000,
                        ;
                    }
                    word = (word << 8) | byte as u32;
                    k += 1;
                }
                proof {
                    let sb = stream@;
                    let bb = base as int;
                    assert(partial_word(sb, bb, 0) == 0);
                    assert(partial_word(sb, bb, 1) == sb[bb] as int);
                    assert(partial_word(sb, bb, 2) == sb[bb] * 256 + sb[bb + 1]);
                    assert(partial_word(sb, bb, 3) == (sb[bb] * 256 + sb[bb + 1]) * 256 + sb[bb + 2]);
                    assert(partial_word(sb, bb, 4) == ((sb[bb] * 256 + sb[bb + 1]) * 256 + sb[bb + 2])
                        * 256 + sb[bb + 3]);
                    assert(partial_word(stream@, base as int, 4) == stream@[base as int] * 0x1000000
                        + stream@[base + 1] * 0x10000 + stream@[base + 2] * 0x100 + stream@[base + 3]);
                }
                words[j] = word;
                j += 1;
            }
            blocks.push(words);
            proof {
                assert(words@ =~= sha1_blocks(stream@)[i as int]);
            }
            i += 1;
        }
        blocks
    }

    /// Processes one block.
    fn process_block(&mut self, block: [u32; 16])
        ensures
            final(self).state() == compress_block(old(self).state(), block@),
    {
        let mask: u32 = u32::MAX;
        let mut w: Vec<u32> = Vec::new();
        let mut t: usize = 0;
        while t < 16
            invariant
                t <= 16,
                w@.len() == t,
                forall|k: int| 0 <= k < t ==> #[trigger] w@[k] == schedule(block@, k),
            decreases 16 - t,
        {
            w.push(block[t]);
            t += 1;
        }
        while t < 80
            invariant
                16 <= t <= 80,
                w@.len() == t,
                mask == u32::MAX,
                forall|k: int| 0 <= k < t ==> #[trigger] w@[k] == schedule(block@, k),
            decreases 80 - t,
        {
            let v = self.rotl(1, w[t - 3] ^ w[t - 8] ^ w[t - 14] ^ w[t - 16], 32);
            let value = v & mask;
            proof {
                assert(v & 0xffffffffu32 == v) by (bit_vector);
            }
            w.push(value);
            t += 1;
        }
        let h = self.bytes;
        let mut a = h[0];
        let mut b = h[1];
        let mut c = h[2];
        let mut d = h[3];
        let mut e = h[4];
        let mut t: usize = 0;
        while t < 80
            invariant
                t <= 80,
                w@.len() == 80,
                mask == u32::MAX,
                h@ == old(self).bytes@,
                forall|k: int| 0 <= k < 80 ==> #[trigger] w@[k] == schedule(block@, k),
                (a, b, c, d, e) == rounds(h@, block@, t as int),
            decreases 80 - t,
        {
            let (k, f) = if t <= 19 {
                (0x5a827999u32, (b & c) ^ (!b & d))
            } else if t <= 39 {
                (0x6ed9eba1u32, b ^ c ^ d)
            } else if t <= 59 {
                (0x8f1bbcdcu32, (b & c) ^ (b & d) ^ (c & d))
            } else {
                (0xca62c1d6u32, b ^ c ^ d)
            };
            let r5 = self.rotl(5, a, 32);
            let big_t = r5.wrapping_add(f).wrapping_add(e).wrapping_add(k).wrapping_add(w[t]) & mask;
            let r30 = self.rotl(30, b, 32);
            proof {
                let x = r5.wrapping_add(f).wrapping_add(e).wrapping_add(k).wrapping_add(w[t as int]);
                assert(x & 0xffffffffu32 == x) by (bit_vector);
                assert(r30 & 0xffffffffu32 == r30) by (bit_vector);
            }
            e = d;
            d = c;
            c = r30 & mask;
            b = a;
            a = big_t;
            t += 1;
        }
        let a2 = a.wrapping_add(h[0]) & mask;
        let b2 = b.wrapping_add(h[1]) & mask;
        let c2 = c.wrapping_add(h[2]) & mask;
        let d2 = d.wrapping_add(h[3]) & mask;
        let e2 = e.wrapping_add(h[4]) & mask;
        proof {
            let x0 = a.wrapping_add(h[0]);
            let x1 = b.wrapping_add(h[1]);
            let x2 = c.wrapping_add(h[2]);
            let x3 = d.wrapping_add(h[3]);
            let x4 = e.wrapping_add(h[4]);
            assert(x0 & 0xffffffffu32 == x0) by (bit_vector);
            assert(x1 & 0xffffffffu32 == x1) by (bit_vector);
            assert(x2 & 0xffffffffu32 == x2) by (bit_vector);
            assert(x3 & 0xffffffffu32 == x3) by (bit_vector);
            assert(x4 & 0xffffffffu32 == x4) by (bit_vector);
        }
        self.bytes = [a2, b2, c2, d2, e2];
        proof {
            assert(self.bytes@ =~= compress_block(old(self).bytes@, block@));
        }
    }

    /// Hashes `content` from the hash value held: pads it, splits it into
    /// blocks and processes each.
    pub fn encrypt(&mut self, content: &[u8])
        ensures
            final(self).state() == sha1_update(old(self).state(), content@),
    {
        let stream = self.padding(content);
        let stream = self.prepare(&stream);
        let ghost blocks = sha1_blocks(sha1_padding(content@));
        let n = stream.len();
        let mut i: usize = 0;
        while i < n
            invariant
                n == stream@.len(),
                n == blocks.len(),
                i <= n,
                forall|k: int| 0 <= k < n ==> #[trigger] stream@[k]@ == blocks[k],
                self.state() == process_blocks(old(self).state(), blocks.take(i as int)),
            decreases n - i,
        {
            self.process_block(stream[i]);
            proof {
                assert(blocks.take(i + 1).drop_last() =~= blocks.take(i as int));
            }
            i += 1;
        }
        proof {
            assert(blocks.take(n as int) =~= blocks);
        }
    }

    /// The hash value as 40 lowercase hexadecimal digits.
    pub fn hex(&self) -> (s: String)
        ensures
            s@ == hex_of_words(self.state()),
    {
        let mut s = String::new();
        let mut i: usize = 0;
        while i < 40
            invariant
                i <= 40,
                s@ == hex_of_words(self.bytes@).take(i as int),
            decreases 40 - i,
        {
            let word = self.bytes[i / 8];
            let shift = (28 - 4 * (i % 8)) as u32;
            let nibble = ((word >> shift) & 0xf) as u8;
            proof {
                assert((word >> shift) & 0xfu32 < 16) by (bit_vector);
            }
            s.push(hex_digit_of(nibble));
            proof {
                assert(s@ =~= hex_of_words(self.bytes@).take(i + 1));
            }
            i += 1;
        }
        proof {
            assert(hex_of_words(self.bytes@).take(40) =~= hex_of_words(self.bytes@));
        }
        s
    }

    /// The hash value as 20 bytes, most significant first.
    pub fn bytes(&self) -> (r: [u8; 20])
        ensures
            r@ == bytes_of_words(self.state()),
    {
        let mut r = [0u8; 20];
        let mut i: usize = 0;
        while i < 20
            invariant
                i <= 20,
                r@.len() == 20,
                forall|k: int| 0 <= k < i ==> #[trigger] r@[k] == bytes_of_words(self.bytes@)[k],
            decreases 20 - i,
        {
            let word = self.bytes[i / 4];
            let shift = (24 - 8 * (i % 4)) as u32;
            r[i] = ((word >> shift) & 0xff) as u8;
            i += 1;
        }
        proof {
            assert(r@ =~= bytes_of_words(self.bytes@));
        }
        r
    }
}

/// The big-endian value of the first `k` bytes at `i`.
pub open spec fn partial_word(s: Seq<u8>, i: int, k: int) -> int
    decreases k,
{
    if k <= 0 {
        0
    } else {
        partial_word(s, i, k - 1) * 256 + s[i + k - 1]
    }
}

proof fn lemma_partial_word_bound(s: Seq<u8>, i: int, k: int)
    requires
        0 <= k <= 3,
    ensures
        0 <= partial_word(s, i, k) < if k == 0 {
            1int
        } else if k == 1 {
            256int
        } else if k == 2 {
            65536int
        } else {
            0x1000000int
        },
    decreases k,
{
    if k > 0 {
        lemma_partial_word_bound(s, i, k - 1);
        let x = partial_word(s, i, k - 1);
        let b = s[i + k - 1] as int;
        assert(0 <= x * 256 + b) by (nonlinear_arith)
            requires
                0 <= x,
                0 <= b,
        ;
        if k == 1 {
            assert(x == 0);
        } else if k == 2 {
            assert(x * 256 + b < 65536) by (nonlinear_arith)
                requires
                    x < 256,
                    b < 256,
            ;
        } else {
            assert(x * 256 + b < 0x1000000) by (nonlinear_arith)
                requires
                    x < 65536,
                    b < 256,
            ;
        }
    }
}

proof fn lemma_byte_nibbles(w: u32)
    by (bit_vector)
    ensures
        ((((w >> 24u32) & 0xffu32) as u8) >> 4u8) as u32 == (w >> 28u32) & 0xfu32,
        ((((w >> 16u32) & 0xffu32) as u8) >> 4u8) as u32 == (w >> 20u32) & 0xfu32,
        ((((w >> 8u32) & 0xffu32) as u8) >> 4u8) as u32 == (w >> 12u32) & 0xfu32,
        ((((w >> 0u32) & 0xffu32) as u8) >> 4u8) as u32 == (w >> 4u32) & 0xfu32,
        ((((w >> 24u32) & 0xffu32) as u8) & 0xfu8) as u32 == (w >> 24u32) & 0xfu32,
        ((((w >> 16u32) & 0xffu32) as u8) & 0xfu8) as u32 == (w >> 16u32) & 0xfu32,
        ((((w >> 8u32) & 0xffu32) as u8) & 0xfu8) as u32 == (w >> 8u32) & 0xfu32,
        ((((w >> 0u32) & 0xffu32) as u8) & 0xfu8) as u32 == (w >> 0u32) & 0xfu32,
{
}

/// The hexadecimal form of a hash value is its bytes, each written as two
/// hexadecimal digits, the high half first: `hex` and `bytes` give the same
/// hash.
pub proof fn lemma_hex_is_bytes_in_hex(h: Seq<u32>)
    requires
        h.len() == 5,
    ensures
        forall|j: int|
            0 <= j < 20 ==> hex_of_words(h)[2 * j] == hex_digit((#[trigger] bytes_of_words(h)[j] >> 4u8) as int)
                && hex_of_words(h)[2 * j + 1] == hex_digit((bytes_of_words(h)[j] & 0xfu8) as int),
{
    assert forall|j: int| 0 <= j < 20 implies hex_of_words(h)[2 * j] == hex_digit(
        (#[trigger] bytes_of_words(h)[j] >> 4u8) as int,
    ) && hex_of_words(h)[2 * j + 1] == hex_digit((bytes_of_words(h)[j] & 0xfu8) as int) by {
        let w = h[j / 4];
        lemma_byte_nibbles(w);
        assert((2 * j) / 8 == j / 4);
        assert((2 * j + 1) / 8 == j / 4);
        assert((2 * j) % 8 == 2 * (j % 4));
        assert((2 * j + 1) % 8 == 2 * (j % 4) + 1);
        if j % 4 == 0 {
        } else if j % 4 == 1 {
        } else if j % 4 == 2 {
        } else {
        }
    }
}

} // verus!
