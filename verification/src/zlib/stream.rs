//! Bit-level readers and writers in DEFLATE bit order (least significant bit
//! of each byte first).
use vstd::prelude::*;

verus! {

/// Bit `i` (0 = least significant) of byte `b`.
pub open spec fn byte_bit(b: u8, i: int) -> bool {
    (b >> (i as u8)) & 1u8 == 1u8
}

/// The first `n` bits of byte `b`, least significant first.
pub open spec fn low_bits(b: u8, n: int) -> Seq<bool> {
    Seq::new(n as nat, |i: int| byte_bit(b, i))
}

/// The bits of a byte sequence, each byte least significant bit first.
pub open spec fn bits_of(bytes: Seq<u8>) -> Seq<bool> {
    Seq::new(bytes.len() * 8, |k: int| byte_bit(bytes[k / 8], k % 8))
}

/// A run of `n` zero bits.
pub open spec fn zero_bits(n: int) -> Seq<bool> {
    Seq::new(n as nat, |i: int| false)
}

/// Value of bit `i` of a 32-bit word.
pub open spec fn word_bit(v: u32, i: int) -> bool {
    (v >> (i as u32)) & 1u32 == 1u32
}

/// The low `n` bits of `v`, least significant first.
pub open spec fn lsb_bits(v: u32, n: int) -> Seq<bool> {
    Seq::new(n as nat, |i: int| word_bit(v, i))
}

/// The low `n` bits of `v`, most significant first.
pub open spec fn msb_bits(v: u32, n: int) -> Seq<bool> {
    Seq::new(n as nat, |i: int| word_bit(v, n - 1 - i))
}

/// The number whose binary digits, least significant first, are
/// `bits[p..p + n]`.
pub open spec fn lsb_value(bits: Seq<bool>, p: int, n: nat) -> nat
    decreases n,
{
    if n == 0 {
        0
    } else {
        lsb_value(bits, p, (n - 1) as nat) + if bits[p + n - 1] {
            vstd::arithmetic::power2::pow2((n - 1) as nat)
        } else {
            0
        }
    }
}

/// Little-endian value of `bytes[start..start + n]`.
pub open spec fn le_value(bytes: Seq<u8>, start: int, n: nat) -> nat
    decreases n,
{
    if n == 0 {
        0
    } else {
        le_value(bytes, start, (n - 1) as nat) + (bytes[start + n - 1] as nat)
            * vstd::arithmetic::power2::pow2((8 * (n - 1)) as nat)
    }
}

/// The first byte boundary at or after bit position `p`.
pub open spec fn align_up(p: int) -> int {
    if p % 8 == 0 {
        p
    } else {
        p - p % 8 + 8
    }
}

pub proof fn lemma_pos_div_mod(b: int, i: int)
    requires
        0 <= i < 8,
        b >= 0,
    ensures
        (8 * b + i) / 8 == b,
        (8 * b + i) % 8 == i,
        align_up(8 * b + i) == if i == 0 {
            8 * b
        } else {
            8 * b + 8
        },
{
    assert((8 * b + i) / 8 == b && (8 * b + i) % 8 == i) by (nonlinear_arith)
        requires
            0 <= i < 8,
            b >= 0,
    ;
}

pub proof fn lemma_bits_of_push(m: Seq<u8>, b: u8)
    ensures
        bits_of(m.push(b)) =~= bits_of(m) + low_bits(b, 8),
{
    let l = bits_of(m.push(b));
    let r = bits_of(m) + low_bits(b, 8);
    assert forall|k: int| 0 <= k < l.len() implies l[k] == r[k] by {
        if k < m.len() * 8 {
            assert(k / 8 < m.len()) by (nonlinear_arith)
                requires
                    0 <= k < m.len() * 8,
            ;
        } else {
            assert(k / 8 == m.len() && k % 8 == k - m.len() * 8) by (nonlinear_arith)
                requires
                    m.len() * 8 <= k < m.len() * 8 + 8,
            ;
        }
    }
}

pub proof fn lemma_bits_of_add(a: Seq<u8>, b: Seq<u8>)
    ensures
        bits_of(a + b) =~= bits_of(a) + bits_of(b),
{
    let l = bits_of(a + b);
    let r = bits_of(a) + bits_of(b);
    assert forall|k: int| 0 <= k < l.len() implies l[k] == r[k] by {
        if k < a.len() * 8 {
            assert(k / 8 < a.len()) by (nonlinear_arith)
                requires
                    0 <= k < a.len() * 8,
            ;
        } else {
            let j = k - a.len() * 8;
            assert(k / 8 == a.len() + j / 8 && k % 8 == j % 8) by (nonlinear_arith)
                requires
                    j == k - a.len() * 8,
                    j >= 0,
            ;
            assert(j / 8 < b.len()) by (nonlinear_arith)
                requires
                    0 <= j < b.len() * 8,
            ;
        }
    }
}

proof fn lemma_set_bit(b: u8, j: u8, i: u8)
    by (bit_vector)
    requires
        j < 8,
        i < 8,
    ensures
        ((b | (1u8 << j)) >> i) & 1u8 == (if i == j {
            1u8
        } else {
            (b >> i) & 1u8
        }),
{
}

proof fn lemma_set_bit_high(b: u8, j: u8)
    by (bit_vector)
    requires
        j < 8,
        b >> j == 0u8,
    ensures
        (b | (1u8 << j)) >> ((j + 1) as u8) == 0u8,
        b >> ((j + 1) as u8) == 0u8,
{
}

proof fn lemma_bit_is_01(b: u8, i: u8)
    by (bit_vector)
    ensures
        (b >> i) & 1u8 <= 1u8,
{
}

proof fn lemma_high_zero_bits(b: u8, j: u8, i: u8)
    by (bit_vector)
    requires
        j <= i < 8,
        b >> j == 0u8,
    ensures
        (b >> i) & 1u8 == 0u8,
{
}

proof fn lemma_or_disjoint(x: u64, i: u64)
    by (bit_vector)
    requires
        i < 64,
        x < (1u64 << i),
    ensures
        x | (1u64 << i) == x + (1u64 << i),
        x | 0u64 == x,
{
}

proof fn lemma_word_bit_01(v: u32, i: u32)
    by (bit_vector)
    ensures
        (v >> i) & 1u32 <= 1u32,
{
}

/// Reads a byte sequence bit by bit, least significant bit first.
#[derive(Debug, Clone)]
pub struct Stream {
    memory: Vec<u8>,
    byte_idx: usize,
    bit_idx: usize,
}

impl Stream {
    /// The stream's internal consistency: the read position lies inside the
    /// data.
    pub closed spec fn wf(&self) -> bool {
        &&& self.bit_idx < 8
        &&& self.byte_idx <= self.memory@.len()
        &&& self.byte_idx == self.memory@.len() ==> self.bit_idx == 0
    }

    /// The bytes being read.
    pub closed spec fn data(&self) -> Seq<u8> {
        self.memory@
    }

    /// The bits being read.
    pub open spec fn bits(&self) -> Seq<bool> {
        bits_of(self.data())
    }

    /// The position of the next bit to read.
    pub closed spec fn pos(&self) -> int {
        self.byte_idx * 8 + self.bit_idx
    }

    pub proof fn lemma_pos_bound(&self)
        requires
            self.wf(),
        ensures
            0 <= self.pos() <= self.bits().len(),
    {
    }

    /// Whether at least `n` more bits can be read.
    pub fn has_bits(&self, n: usize) -> (b: bool)
        requires
            self.wf(),
            n <= 0x1000000,
        ensures
            b == (self.pos() + n <= self.bits().len()),
    {
        let left = self.memory.len() - self.byte_idx;
        if left > n / 8 + 1 {
            true
        } else {
            self.bit_idx + n <= 8 * left
        }
    }

    /// A stream positioned at the first bit of `memory`.
    pub fn new(memory: Vec<u8>) -> (s: Self)
        ensures
            s.wf(),
            s.data() == memory@,
            s.pos() == 0,
    {
        Self { memory, byte_idx: 0, bit_idx: 0 }
    }

    /// Skips to the next byte boundary, unless already on one.
    pub fn align_to_byte(&mut self)
        requires
            old(self).wf(),
        ensures
            final(self).wf(),
            final(self).data() == old(self).data(),
            final(self).pos() == align_up(old(self).pos()),
    {
        proof {
            lemma_pos_div_mod(self.byte_idx as int, self.bit_idx as int);
        }
        let _len = self.memory.len();
        if self.bit_idx != 0 {
            self.bit_idx = 0;
            self.byte_idx += 1;
        }
    }

    /// Skips to the next byte boundary and reads the whole byte there.
    pub fn read_byte(&mut self) -> (byte: u8)
        requires
            old(self).wf(),
            align_up(old(self).pos()) + 8 <= old(self).bits().len(),
        ensures
            final(self).wf(),
            final(self).data() == old(self).data(),
            final(self).pos() == align_up(old(self).pos()) + 8,
            byte == old(self).data()[align_up(old(self).pos()) / 8],
    {
        proof {
            lemma_pos_div_mod(self.byte_idx as int, self.bit_idx as int);
            lemma_pos_div_mod(self.byte_idx as int + 1, 0);
            lemma_pos_div_mod(self.memory@.len() as int, 0);
        }
        let _len = self.memory.len();
        if self.bit_idx != 0 {
            self.bit_idx = 0;
            self.byte_idx += 1;
        }
        let byte = self.memory[self.byte_idx];
        self.byte_idx += 1;
        byte
    }

    /// Reads `count` whole bytes from the next byte boundary on, and returns
    /// them as a little-endian number.
    pub fn read_bytes(&mut self, count: usize) -> (bytes: u64)
        requires
            old(self).wf(),
            count <= 8,
            align_up(old(self).pos()) + 8 * count <= old(self).bits().len(),
        ensures
            final(self).wf(),
            final(self).data() == old(self).data(),
            count == 0 ==> final(self).pos() == old(self).pos(),
            count > 0 ==> final(self).pos() == align_up(old(self).pos()) + 8 * count,
            bytes == le_value(old(self).data(), align_up(old(self).pos()) / 8, count as nat),
    {
        let ghost start = align_up(self.pos()) / 8;
        proof {
            vstd::arithmetic::power2::lemma2_to64();
            lemma_pos_div_mod(self.byte_idx as int, self.bit_idx as int);
            lemma_pos_div_mod(self.byte_idx as int + 1, 0);
        }
        let mut bytes = 0u64;
        let mut i: usize = 0;
        while i < count
            invariant
                self.wf(),
                self.data() == old(self).data(),
                i <= count <= 8,
                start == align_up(old(self).pos()) / 8,
                align_up(old(self).pos()) + 8 * count <= self.bits().len(),
                i == 0 ==> self.pos() == old(self).pos(),
                i > 0 ==> self.pos() == (start + i) * 8,
                bytes == le_value(self.data(), start, i as nat),
                bytes < vstd::arithmetic::power2::pow2((8 * i) as nat),
            decreases count - i,
        {
            let ghost p = self.pos();
            proof {
                lemma_pos_div_mod(self.byte_idx as int, self.bit_idx as int);
                lemma_pos_div_mod(start + i, 0);
            }
            assert(align_up(p) == (start + i) * 8);
            let b = self.read_byte();
            proof {
                vstd::bits::lemma_u64_pow2_no_overflow((8 * i) as nat);
                vstd::arithmetic::power2::lemma_pow2_adds((8 * i) as nat, 8);
                vstd::arithmetic::power2::lemma2_to64();
                assert((b as u64) * vstd::arithmetic::power2::pow2((8 * i) as nat) <= u64::MAX) by {
                    vstd::arithmetic::mul::lemma_mul_inequality(
                        b as int,
                        255,
                        vstd::arithmetic::power2::pow2((8 * i) as nat) as int,
                    );
                    if i < 7 {
                        vstd::bits::lemma_u64_pow2_no_overflow((8 * i + 8) as nat);
                    } else {
                        vstd::arithmetic::power2::lemma2_to64_rest();
                    }
                }
                vstd::bits::lemma_u64_shl_is_mul(b as u64, (8 * i) as u64);
                lemma_or_disjoint_multiple(bytes, b as u64, (8 * i) as u64);
            }
            bytes = bytes | ((b as u64) << ((8 * i) as u64));
            i += 1;
            proof {
                assert(bytes < vstd::arithmetic::power2::pow2((8 * i) as nat)) by {
                    vstd::arithmetic::mul::lemma_mul_inequality(
                        b as int,
                        255,
                        vstd::arithmetic::power2::pow2((8 * (i - 1)) as nat) as int,
                    );
                    vstd::arithmetic::power2::lemma_pow2_adds((8 * (i - 1)) as nat, 8);
                    vstd::arithmetic::power2::lemma2_to64();
                }
            }
        }
        bytes
    }

    /// Reads one bit.
    pub fn read_bit(&mut self) -> (bit: u8)
        requires
            old(self).wf(),
            old(self).pos() < old(self).bits().len(),
        ensures
            final(self).wf(),
            final(self).data() == old(self).data(),
            final(self).pos() == old(self).pos() + 1,
            bit == (if old(self).bits()[old(self).pos()] {
                1u8
            } else {
                0u8
            }),
    {
        let ghost p = self.pos();
        proof {
            lemma_pos_div_mod(self.byte_idx as int, self.bit_idx as int);
            lemma_pos_div_mod(self.memory@.len() as int, 0);
        }
        assert(p / 8 == self.byte_idx && p % 8 == self.bit_idx);
        let bit = (self.memory[self.byte_idx] >> (self.bit_idx as u8)) & 1;
        proof {
            lemma_bit_is_01(self.memory@[self.byte_idx as int], self.bit_idx as u8);
        }
        let _len = self.memory.len();
        self.bit_idx += 1;
        if self.bit_idx > 7 {
            self.bit_idx = 0;
            self.byte_idx += 1;
        }
        bit
    }

    /// Reads `count` bits and returns them as a number whose least
    /// significant bit is the first bit read.
    pub fn read_bits(&mut self, count: usize) -> (bits: u64)
        requires
            old(self).wf(),
            count <= 64,
            old(self).pos() + count <= old(self).bits().len(),
        ensures
            final(self).wf(),
            final(self).data() == old(self).data(),
            final(self).pos() == old(self).pos() + count,
            bits == lsb_value(old(self).bits(), old(self).pos(), count as nat),
    {
        let ghost p0 = self.pos();
        proof {
            vstd::arithmetic::power2::lemma2_to64();
        }
        let mut bits: u64 = 0;
        let mut i: usize = 0;
        while i < count
            invariant
                self.wf(),
                self.data() == old(self).data(),
                i <= count <= 64,
                p0 == old(self).pos(),
                p0 + count <= self.bits().len(),
                self.pos() == p0 + i,
                bits == lsb_value(self.bits(), p0, i as nat),
                bits < vstd::arithmetic::power2::pow2(i as nat),
            decreases count - i,
        {
            let ghost pi = self.pos();
            let bit = self.read_bit();
            proof {
                vstd::bits::lemma_u64_pow2_no_overflow(i as nat);
                vstd::bits::lemma_u64_shl_is_mul(1u64, i as u64);
                vstd::arithmetic::power2::lemma_pow2_unfold((i + 1) as nat);
                if bit == 1 {
                    lemma_or_disjoint(bits, i as u64);
                    assert((bit as u64) << (i as u64) == 1u64 << (i as u64));
                } else {
                    assert((0u64 << (i as u64)) == 0u64) by (bit_vector)
                        requires
                            i < 64,
                    ;
                    assert(bits | 0u64 == bits) by (bit_vector);
                }
                assert(pi == p0 + i);
                assert(lsb_value(self.bits(), p0, (i + 1) as nat) == lsb_value(self.bits(), p0, i as nat)
                    + if self.bits()[p0 + i] {
                    vstd::arithmetic::power2::pow2(i as nat)
                } else {
                    0
                });
            }
            bits = bits | ((bit as u64) << (i as u64));
            i += 1;
        }
        bits
    }
}

proof fn lemma_or_disjoint_multiple(x: u64, b: u64, s: u64)
    requires
        s <= 56,
        b < 256,
        x < vstd::arithmetic::power2::pow2(s as nat),
    ensures
        x | (b << s) == x + (b << s),
{
    vstd::bits::lemma_u64_pow2_no_overflow(s as nat);
    vstd::bits::lemma_u64_shl_is_mul(1u64, s);
    assert(x | (b << s) == x + (b << s)) by (bit_vector)
        requires
            s <= 56,
            b < 256,
            x < (1u64 << s),
    ;
}

/// Collects bits, least significant bit of each byte first.
pub struct WriteStream {
    memory: Vec<u8>,
    byte: u8,
    bit_idx: usize,
}

impl WriteStream {
    /// The pending byte holds exactly `bit_idx` bits.
    pub closed spec fn wf(&self) -> bool {
        &&& self.bit_idx < 8
        &&& self.byte >> (self.bit_idx as u8) == 0u8
    }

    /// All bits written so far, in order.
    pub closed spec fn bits(&self) -> Seq<bool> {
        bits_of(self.memory@) + low_bits(self.byte, self.bit_idx as int)
    }

    /// An empty writer.
    pub fn new() -> (w: Self)
        ensures
            w.wf(),
            w.bits() == Seq::<bool>::empty(),
    {
        let w = Self { memory: Vec::new(), byte: 0, bit_idx: 0 };
        proof {
            assert(0u8 >> 0u8 == 0u8) by (bit_vector);
            assert(w.bits() =~= Seq::<bool>::empty());
        }
        w
    }

    /// Appends one bit: a one when `bit == 1`, a zero otherwise.
    pub fn write_bit(&mut self, bit: u8)
        requires
            old(self).wf(),
        ensures
            final(self).wf(),
            final(self).bits() == old(self).bits().push(bit == 1),
    {
        let ghost old_byte = self.byte;
        let ghost j = self.bit_idx as u8;
        if bit == 1 {
            self.byte |= 1 << (self.bit_idx as u8);
        }
        proof {
            assert(low_bits(self.byte, j + 1) =~= low_bits(old_byte, j as int).push(bit == 1)) by {
                assert forall|i: int| 0 <= i < j + 1 implies #[trigger] byte_bit(self.byte, i)
                    == low_bits(old_byte, j as int).push(bit == 1)[i] by {
                    if bit == 1 {
                        lemma_set_bit(old_byte, j, i as u8);
                    } else {
                        if i == j {
                            lemma_high_zero_bits(old_byte, j, j);
                        }
                    }
                }
            }
            lemma_set_bit_high(old_byte, j);
        }
        self.bit_idx += 1;
        if self.bit_idx == 8 {
            proof {
                lemma_bits_of_push(self.memory@, self.byte);
            }
            self.memory.push(self.byte);
            self.byte = 0;
            self.bit_idx = 0;
            proof {
                assert(0u8 >> 0u8 == 0u8) by (bit_vector);
                assert(low_bits(0u8, 0) =~= Seq::<bool>::empty());
            }
        }
        proof {
            assert(self.bits() =~= old(self).bits().push(bit == 1));
        }
    }

    /// Appends the low `count` bits of `value`, most significant first when
    /// `msb_first`, least significant first otherwise.
    pub fn write_bits(&mut self, value: u32, count: usize, msb_first: bool)
        requires
            old(self).wf(),
            count <= 32,
        ensures
            final(self).wf(),
            final(self).bits() == old(self).bits() + if msb_first {
                msb_bits(value, count as int)
            } else {
                lsb_bits(value, count as int)
            },
    {
        if msb_first {
            let mut k: usize = count;
            while k > 0
                invariant
                    self.wf(),
                    k <= count <= 32,
                    self.bits() == old(self).bits() + msb_bits(value, count as int).take(
                        (count - k) as int,
                    ),
                decreases k,
            {
                let i = k - 1;
                proof {
                    lemma_word_bit_01(value, i as u32);
                }
                self.write_bit(((value >> (i as u32)) & 1) as u8);
                proof {
                    assert(msb_bits(value, count as int).take((count - i) as int) =~= msb_bits(
                        value,
                        count as int,
                    ).take((count - k) as int).push(word_bit(value, i as int)));
                }
                k = i;
            }
            assert(msb_bits(value, count as int).take(count as int) =~= msb_bits(
                value,
                count as int,
            ));
        } else {
            let mut i: usize = 0;
            while i < count
                invariant
                    self.wf(),
                    i <= count <= 32,
                    self.bits() == old(self).bits() + lsb_bits(value, count as int).take(i as int),
                decreases count - i,
            {
                proof {
                    lemma_word_bit_01(value, i as u32);
                }
                self.write_bit(((value >> (i as u32)) & 1) as u8);
                proof {
                    assert(lsb_bits(value, count as int).take((i + 1) as int) =~= lsb_bits(
                        value,
                        count as int,
                    ).take(i as int).push(word_bit(value, i as int)));
                }
                i += 1;
            }
            assert(lsb_bits(value, count as int).take(count as int) =~= lsb_bits(
                value,
                count as int,
            ));
        }
    }

    /// Pads the pending byte with zero bits and stores it, unless no bits
    /// are pending.
    pub fn flush(&mut self)
        requires
            old(self).wf(),
        ensures
            final(self).wf(),
            final(self).bits() == old(self).bits() + zero_bits(
                (8 - old(self).bits().len() % 8) % 8,
            ),
            final(self).bits().len() % 8 == 0,
    {
        proof {
            assert(self.bits().len() == self.memory@.len() * 8 + self.bit_idx);
            assert((self.memory@.len() * 8 + self.bit_idx) % 8 == self.bit_idx) by (nonlinear_arith)
                requires
                    self.bit_idx < 8,
            ;
        }
        if self.bit_idx > 0 {
            let ghost j = self.bit_idx as u8;
            let ghost b = self.byte;
            proof {
                lemma_bits_of_push(self.memory@, self.byte);
                assert(low_bits(b, 8) =~= low_bits(b, j as int) + zero_bits(8 - j)) by {
                    assert forall|i: int| j <= i < 8 implies !byte_bit(b, i) by {
                        lemma_high_zero_bits(b, j, i as u8);
                    }
                }
            }
            self.memory.push(self.byte);
            self.byte = 0;
            self.bit_idx = 0;
            proof {
                assert(0u8 >> 0u8 == 0u8) by (bit_vector);
                assert(self.bits() =~= old(self).bits() + zero_bits(8 - j));
                assert(self.bits().len() % 8 == 0) by (nonlinear_arith)
                    requires
                        self.bits().len() == self.memory@.len() * 8,
                ;
            }
        } else {
            proof {
                assert(self.bits() =~= old(self).bits() + zero_bits(0));
            }
        }
    }

    /// The completed bytes written so far: every bit but those still
    /// pending in an unfinished byte.
    pub fn get_bytes(&self) -> (bytes: Vec<u8>)
        requires
            self.wf(),
        ensures
            bytes@.len() == self.bits().len() / 8,
            bits_of(bytes@) == self.bits().take((bytes@.len() * 8) as int),
    {
        let bytes = self.memory.clone();
        proof {
            assert(bytes@ =~= self.memory@);
            assert(self.bits().len() / 8 == self.memory@.len()) by (nonlinear_arith)
                requires
                    self.bits().len() == self.memory@.len() * 8 + self.bit_idx,
                    self.bit_idx < 8,
            ;
            assert(bits_of(bytes@) =~= self.bits().take((bytes@.len() * 8) as int));
        }
        bytes
    }
}

} // verus!
