//! An LSB-first bit cursor over a byte buffer.
//!
//! The buffer is read as one long string of bits: bit `8 * i + k` of the
//! string is bit `k` (counting from the least significant end) of byte `i`,
//! and every bit past the last byte is zero. A read of `count` bits returns
//! the number whose bit `k` is the bit `k` places after the cursor.

use vstd::arithmetic::div_mod::lemma_fundamental_div_mod_converse;
use vstd::arithmetic::power2::{
    lemma2_to64,
    lemma_pow2_pos,
    lemma_pow2_strictly_increases,
    lemma_pow2_unfold,
    pow2,
};
use vstd::bits::{lemma_u64_low_bits_mask_is_mod, lemma_u64_shl_is_mul, lemma_u64_shr_is_div};
use vstd::bytes::{spec_u64_to_le_bytes, spec_u64_to_le_bytes_to_open};
use vstd::prelude::*;

verus! {

/// Byte `index` of the buffer, or zero past its end.
pub open spec fn byte_at(bytes: Seq<u8>, index: nat) -> nat {
    if index < bytes.len() {
        bytes[index as int] as nat
    } else {
        0
    }
}

/// Bit `index` of the bit string that `bytes` stands for: 0 or 1.
pub open spec fn bit_at(bytes: Seq<u8>, index: nat) -> nat {
    (byte_at(bytes, index / 8) / pow2(index % 8)) % 2
}

/// The `count` bits that start at bit `pos`, as a number: the bit at `pos`
/// is its least significant bit, the bit after it the next, and so on.
pub open spec fn bits_at(bytes: Seq<u8>, pos: nat, count: nat) -> nat
    decreases count,
{
    if count == 0 {
        0
    } else {
        bit_at(bytes, pos) + 2 * bits_at(bytes, pos + 1, (count - 1) as nat)
    }
}

/// A field of `count` bits is less than `2^count`.
pub proof fn lemma_bits_at_bound(bytes: Seq<u8>, pos: nat, count: nat)
    ensures
        bits_at(bytes, pos, count) < pow2(count),
    decreases count,
{
    if count == 0 {
        lemma2_to64();
    } else {
        lemma_bits_at_bound(bytes, pos + 1, (count - 1) as nat);
        lemma_pow2_unfold(count);
    }
}

/// A field of `low + high` bits is its low part plus `2^low` times its high
/// part.
pub proof fn lemma_bits_at_split(bytes: Seq<u8>, pos: nat, low: nat, high: nat)
    ensures
        bits_at(bytes, pos, low + high) == bits_at(bytes, pos, low) + pow2(low) * bits_at(
            bytes,
            pos + low,
            high,
        ),
    decreases low,
{
    let upper = bits_at(bytes, pos + low, high);
    if low == 0 {
        lemma2_to64();
        assert(pow2(0) * upper == upper) by (nonlinear_arith)
            requires
                pow2(0) == 1,
        ;
    } else {
        let rest = (low - 1) as nat;
        lemma_bits_at_split(bytes, pos + 1, rest, high);
        lemma_pow2_unfold(low);
        assert(2 * (pow2(rest) * upper) == pow2(low) * upper) by (nonlinear_arith)
            requires
                pow2(low) == 2 * pow2(rest),
        ;
        assert(bits_at(bytes, pos, low + high) == bit_at(bytes, pos) + 2 * bits_at(
            bytes,
            pos + 1,
            rest + high,
        ));
    }
}

/// Dropping the first `low` bits of a field divides it by `2^low`, and
/// keeping only those reduces it modulo `2^low`.
pub proof fn lemma_bits_at_div_mod(bytes: Seq<u8>, pos: nat, low: nat, high: nat)
    ensures
        bits_at(bytes, pos, low + high) / pow2(low) == bits_at(bytes, pos + low, high),
        bits_at(bytes, pos, low + high) % pow2(low) == bits_at(bytes, pos, low),
{
    lemma_bits_at_split(bytes, pos, low, high);
    lemma_bits_at_bound(bytes, pos, low);
    lemma_pow2_pos(low);
    let upper = bits_at(bytes, pos + low, high);
    assert(pow2(low) * upper == upper * pow2(low)) by (nonlinear_arith);
    lemma_fundamental_div_mod_converse(
        bits_at(bytes, pos, low + high) as int,
        pow2(low) as int,
        upper as int,
        bits_at(bytes, pos, low) as int,
    );
}

/// The eight bits of byte `index` make up that byte.
pub proof fn lemma_bits_at_byte(bytes: Seq<u8>, index: nat)
    ensures
        bits_at(bytes, 8 * index, 8) == byte_at(bytes, index),
{
    let b = byte_at(bytes, index) as u8;
    let start = 8 * index;
    lemma2_to64();
    assert forall|k: nat| k < 8 implies #[trigger] bit_at(bytes, start + k) == (b as nat / pow2(
        k,
    )) % 2 by {
        assert((start + k) / 8 == index);
        assert((start + k) % 8 == k);
    }
    let b0 = bit_at(bytes, start + 0);
    let b1 = bit_at(bytes, start + 1);
    let b2 = bit_at(bytes, start + 2);
    let b3 = bit_at(bytes, start + 3);
    let b4 = bit_at(bytes, start + 4);
    let b5 = bit_at(bytes, start + 5);
    let b6 = bit_at(bytes, start + 6);
    let b7 = bit_at(bytes, start + 7);
    reveal_with_fuel(bits_at, 9);
    assert(bits_at(bytes, start, 8) == b0 + 2 * (b1 + 2 * (b2 + 2 * (b3 + 2 * (b4 + 2 * (b5 + 2 * (
        b6 + 2 * b7)))))));
    assert((b / 1) % 2 + ((b / 2) % 2) * 2 + ((b / 4) % 2) * 4 + ((b / 8) % 2) * 8 + ((b / 16) % 2)
        * 16 + ((b / 32) % 2) * 32 + ((b / 64) % 2) * 64 + ((b / 128) % 2) * 128 == b)
        by (bit_vector);
}

/// Whether two buffers agree on their first `len` bytes, a byte past the
/// end of a buffer counting as zero.
pub open spec fn same_bytes(a: Seq<u8>, b: Seq<u8>, len: nat) -> bool {
    forall|index: nat| index < len ==> #[trigger] byte_at(a, index) == byte_at(b, index)
}

/// Buffers that agree on their first `len` bytes agree on every field that
/// lies within those bytes.
pub proof fn lemma_bits_at_same(a: Seq<u8>, b: Seq<u8>, len: nat, pos: nat, count: nat)
    requires
        same_bytes(a, b, len),
        pos + count <= 8 * len,
    ensures
        bits_at(a, pos, count) == bits_at(b, pos, count),
    decreases count,
{
    if count > 0 {
        assert(byte_at(a, pos / 8) == byte_at(b, pos / 8));
        lemma_bits_at_same(a, b, len, pos + 1, (count - 1) as nat);
    }
}

/// What a [`BitReaderLSB`] stands for: the buffer and the cursor, in bits
/// from the start of the buffer.
pub struct BitCursor {
    pub bytes: Seq<u8>,
    pub pos: nat,
}

/// A cursor that reads fields of up to 32 bits from a byte buffer, least
/// significant bit first, and only ever moves forward.
pub struct BitReaderLSB<'a> {
    bytes: &'a [u8],
    pos: usize,
}

impl<'a> View for BitReaderLSB<'a> {
    type V = BitCursor;

    closed spec fn view(&self) -> BitCursor {
        BitCursor { bytes: self.bytes@, pos: self.pos as nat }
    }
}

/// `acc` holds fewer than `shift` bits, so a byte put in above them does not
/// touch them.
proof fn lemma_or_above(acc: u64, byte: u64, shift: u64)
    by (bit_vector)
    requires
        shift <= 32,
        byte < 256,
        acc < (1u64 << shift),
    ensures
        acc | (byte << shift) == acc + (byte << shift),
{
}

impl<'a> BitReaderLSB<'a> {
    /// A cursor at the first bit of `bytes`.
    pub fn new(bytes: &'a [u8]) -> (reader: Self)
        ensures
            reader@.bytes == bytes@,
            reader@.pos == 0,
    {
        Self { bytes, pos: 0 }
    }

    /// The cursor, in bits from the start of the buffer.
    pub fn position(&self) -> (pos: usize)
        ensures
            pos == self@.pos,
    {
        self.pos
    }

    fn byte(&self, index: usize) -> (byte: u8)
        ensures
            byte == byte_at(self@.bytes, index as nat),
    {
        if index < self.bytes.len() {
            self.bytes[index]
        } else {
            0
        }
    }

    /// The next `count` bits, without moving the cursor. Bits past the end
    /// of the buffer are zero.
    pub fn peek(&self, count: usize) -> (value: u32)
        requires
            count <= 32,
        ensures
            value == bits_at(self@.bytes, self@.pos, count as nat),
    {
        let first = self.pos / 8;
        let skip = self.pos % 8;
        let ghost bytes = self@.bytes;
        let ghost start = (8 * first) as nat;
        let mut window: u64 = 0;
        let mut filled: usize = 0;
        let mut index: usize = first;
        while filled < skip + count
            invariant
                bytes == self@.bytes,
                start == 8 * first,
                first <= usize::MAX / 8,
                skip < 8,
                count <= 32,
                filled <= 40,
                filled % 8 == 0,
                index == first + filled / 8,
                window == bits_at(bytes, start, filled as nat),
            decreases 40 - filled,
        {
            let byte = self.byte(index);
            proof {
                lemma_bits_at_bound(bytes, start, filled as nat);
                lemma_bits_at_byte(bytes, index as nat);
                lemma_bits_at_split(bytes, start, filled as nat, 8);
                lemma2_to64();
                lemma_pow2_strictly_increases(filled as nat, 33);
                lemma_u64_shl_is_mul(1, filled as u64);
                assert(byte * pow2(filled as nat) <= 0xff * pow2(filled as nat))
                    by (nonlinear_arith)
                    requires
                        byte <= 0xff,
                ;
                lemma_u64_shl_is_mul(byte as u64, filled as u64);
                lemma_or_above(window, byte as u64, filled as u64);
                assert(byte * pow2(filled as nat) == pow2(filled as nat) * byte)
                    by (nonlinear_arith);
            }
            window = window | ((byte as u64) << filled);
            filled = filled + 8;
            index = index + 1;
        }
        proof {
            lemma2_to64();
            lemma_pow2_strictly_increases(count as nat, 33);
            lemma_u64_shl_is_mul(1, count as u64);
        }
        let mask: u64 = (1u64 << count) - 1;
        let value = (window >> skip) & mask;
        proof {
            let surplus = (filled - skip - count) as nat;
            lemma_bits_at_div_mod(bytes, start, skip as nat, (filled - skip) as nat);
            lemma_bits_at_div_mod(bytes, start + skip as nat, count as nat, surplus);
            lemma_bits_at_bound(bytes, self@.pos, count as nat);
            lemma_u64_shr_is_div(window, skip as u64);
            lemma_u64_low_bits_mask_is_mod(window >> skip, count as nat);
        }
        value as u32
    }

    /// Moves the cursor `count` bits forward.
    pub fn advance(&mut self, count: usize)
        requires
            old(self)@.pos + count <= usize::MAX,
        ensures
            final(self)@.bytes == old(self)@.bytes,
            final(self)@.pos == old(self)@.pos + count,
    {
        self.pos = self.pos + count;
    }

    /// The next `count` bits; the cursor moves past them.
    pub fn read(&mut self, count: usize) -> (value: u32)
        requires
            count <= 32,
            old(self)@.pos + count <= usize::MAX,
        ensures
            value == bits_at(old(self)@.bytes, old(self)@.pos, count as nat),
            final(self)@.bytes == old(self)@.bytes,
            final(self)@.pos == old(self)@.pos + count,
    {
        let value = self.peek(count);
        self.advance(count);
        value
    }

    /// The next `count` bits as a byte; the cursor moves past them.
    pub fn read_u8(&mut self, count: usize) -> (value: u8)
        requires
            count <= 8,
            old(self)@.pos + count <= usize::MAX,
        ensures
            value == bits_at(old(self)@.bytes, old(self)@.pos, count as nat),
            final(self)@.bytes == old(self)@.bytes,
            final(self)@.pos == old(self)@.pos + count,
    {
        proof {
            lemma_bits_at_bound(self@.bytes, self@.pos, count as nat);
            lemma2_to64();
            if count < 8 {
                lemma_pow2_strictly_increases(count as nat, 8);
            }
        }
        self.read(count) as u8
    }

    /// The next bit; the cursor moves past it.
    pub fn read_bool(&mut self) -> (value: bool)
        requires
            old(self)@.pos + 1 <= usize::MAX,
        ensures
            value == (bits_at(old(self)@.bytes, old(self)@.pos, 1) == 1),
            final(self)@.bytes == old(self)@.bytes,
            final(self)@.pos == old(self)@.pos + 1,
    {
        proof {
            lemma_bits_at_bound(self@.bytes, self@.pos, 1);
            lemma2_to64();
        }
        self.read(1) != 0
    }
}

/// A 64-bit number is the sum of its little-endian bytes, each with its
/// weight.
proof fn lemma_u64_from_bytes(x: u64)
    by (bit_vector)
    ensures
        x == (x & 0xff) + 0x100 * (((x >> 8) & 0xff) + 0x100 * (((x >> 16) & 0xff) + 0x100 * (((x
            >> 24) & 0xff) + 0x100 * (((x >> 32) & 0xff) + 0x100 * (((x >> 40) & 0xff) + 0x100 * (((x
            >> 48) & 0xff) + 0x100 * ((x >> 56) & 0xff))))))),
        x & 0xff < 0x100,
        (x >> 8) & 0xff < 0x100,
        (x >> 16) & 0xff < 0x100,
        (x >> 24) & 0xff < 0x100,
        (x >> 32) & 0xff < 0x100,
        (x >> 40) & 0xff < 0x100,
        (x >> 48) & 0xff < 0x100,
        (x >> 56) & 0xff < 0x100,
{
}

/// Read as one field of 64 bits, the little-endian bytes of a number give
/// the number back.
pub proof fn lemma_bits_of_u64(data: u64)
    ensures
        bits_at(spec_u64_to_le_bytes(data), 0, 64) == data,
{
    let bytes = spec_u64_to_le_bytes(data);
    spec_u64_to_le_bytes_to_open(data);
    lemma_u64_from_bytes(data);
    lemma2_to64();
    lemma_bits_at_byte(bytes, 0);
    lemma_bits_at_byte(bytes, 1);
    lemma_bits_at_byte(bytes, 2);
    lemma_bits_at_byte(bytes, 3);
    lemma_bits_at_byte(bytes, 4);
    lemma_bits_at_byte(bytes, 5);
    lemma_bits_at_byte(bytes, 6);
    lemma_bits_at_byte(bytes, 7);
    lemma_bits_at_split(bytes, 0, 8, 56);
    lemma_bits_at_split(bytes, 8, 8, 48);
    lemma_bits_at_split(bytes, 16, 8, 40);
    lemma_bits_at_split(bytes, 24, 8, 32);
    lemma_bits_at_split(bytes, 32, 8, 24);
    lemma_bits_at_split(bytes, 40, 8, 16);
    lemma_bits_at_split(bytes, 48, 8, 8);
}

/// Reading fields from the little-endian bytes of a number cuts the number
/// into slices of bits: a first field of `offset` bits holds its low `offset`
/// bits, and a field of `length` bits read after it holds the next `length`
/// bits, as long as both lie within the 64 bits.
pub proof fn lemma_reads_slice_u64(data: u64, offset: nat, length: nat)
    requires
        offset + length <= 64,
    ensures
        bits_at(spec_u64_to_le_bytes(data), 0, offset) == data as nat % pow2(offset),
        bits_at(spec_u64_to_le_bytes(data), offset, length) == (data as nat / pow2(offset)) % pow2(
            length,
        ),
{
    let bytes = spec_u64_to_le_bytes(data);
    let beyond = (64 - offset) as nat;
    lemma_bits_of_u64(data);
    lemma_bits_at_div_mod(bytes, 0, offset, beyond);
    lemma_bits_at_div_mod(bytes, offset, length, (beyond - length) as nat);
}

} // verus!
