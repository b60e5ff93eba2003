//! BISE, the bit, trit and quint encoding of endpoint values.
//!
//! A range packs each value as a digit (a trit or a quint, or none) and a
//! field of plain bits. The digits come first, several to a codeword; the
//! plain fields follow, one per value.

use crate::bitreader::{bits_at, lemma_bits_at_bound, lemma_bits_at_same, same_bytes, BitReaderLSB};
use vstd::arithmetic::div_mod::lemma_mod_multiples_basic;
use vstd::arithmetic::power2::{
    lemma2_to64,
    lemma_pow2_adds,
    lemma_pow2_pos,
    lemma_pow2_strictly_increases,
    lemma_pow2_unfold,
    pow2,
};
use vstd::bits::{
    lemma_low_bits_mask_values,
    lemma_u16_low_bits_mask_is_mod,
    lemma_u16_shl_is_mul,
    lemma_u16_shr_is_div,
};
use vstd::prelude::*;

verus! {

/// The number of BISE ranges.
pub const RANGE_COUNT: usize = 21;

/// The most endpoint values that a block holds.
pub const MAX_ENDPOINT_COUNT: usize = 18;

/// One BISE range.
#[derive(Clone, Copy, Debug)]
pub struct BiseCounts {
    /// The width of the plain field of a value, in bits.
    pub bits: u8,
    /// 1 if each value has a trit.
    pub trits: u8,
    /// 1 if each value has a quint.
    pub quints: u8,
    /// The largest value of the range.
    pub max: u8,
    /// For each of the nine bits of the dequantization offset, from the most
    /// significant down, the plain bit it copies: `'a'` for bit 0 up to `'h'`
    /// for bit 7. Any other character stands for a zero bit.
    pub deq_b: [char; 9],
    /// The dequantization multiplier.
    pub deq_c: u8,
}

/// The ranges, one row each: bits, trits, quints, largest value, multiplier.
pub const BISE_RANGES: [[u8; 5]; 21] = [
    [1, 0, 0, 1, 0],
    [0, 1, 0, 2, 0],
    [2, 0, 0, 3, 0],
    [0, 0, 1, 4, 0],
    [1, 1, 0, 5, 204],
    [3, 0, 0, 7, 0],
    [1, 0, 1, 9, 113],
    [2, 1, 0, 11, 93],
    [4, 0, 0, 15, 0],
    [2, 0, 1, 19, 54],
    [3, 1, 0, 23, 44],
    [5, 0, 0, 31, 0],
    [3, 0, 1, 39, 26],
    [4, 1, 0, 47, 22],
    [6, 0, 0, 63, 0],
    [4, 0, 1, 79, 13],
    [5, 1, 0, 95, 11],
    [7, 0, 0, 127, 0],
    [5, 0, 1, 159, 6],
    [6, 1, 0, 191, 5],
    [8, 0, 0, 255, 0],
];

/// The bit templates of the ranges, one row each.
pub const BISE_TEMPLATES: [[char; 9]; 21] = [
    [' ', ' ', ' ', ' ', ' ', ' ', ' ', ' ', ' '],
    [' ', ' ', ' ', ' ', ' ', ' ', ' ', ' ', ' '],
    [' ', ' ', ' ', ' ', ' ', ' ', ' ', ' ', ' '],
    [' ', ' ', ' ', ' ', ' ', ' ', ' ', ' ', ' '],
    ['0', '0', '0', '0', '0', '0', '0', '0', '0'],
    [' ', ' ', ' ', ' ', ' ', ' ', ' ', ' ', ' '],
    ['0', '0', '0', '0', '0', '0', '0', '0', '0'],
    ['b', '0', '0', '0', 'b', '0', 'b', 'b', '0'],
    [' ', ' ', ' ', ' ', ' ', ' ', ' ', ' ', ' '],
    ['b', '0', '0', '0', '0', 'b', 'b', '0', '0'],
    ['c', 'b', '0', '0', '0', 'c', 'b', 'c', 'b'],
    [' ', ' ', ' ', ' ', ' ', ' ', ' ', ' ', ' '],
    ['c', 'b', '0', '0', '0', '0', 'c', 'b', 'c'],
    ['d', 'c', 'b', '0', '0', '0', 'd', 'c', 'b'],
    [' ', ' ', ' ', ' ', ' ', ' ', ' ', ' ', ' '],
    ['d', 'c', 'b', '0', '0', '0', '0', 'd', 'c'],
    ['e', 'd', 'c', 'b', '0', '0', '0', 'e', 'd'],
    [' ', ' ', ' ', ' ', ' ', ' ', ' ', ' ', ' '],
    ['e', 'd', 'c', 'b', '0', '0', '0', '0', 'e'],
    ['f', 'e', 'd', 'c', 'b', '0', '0', '0', 'f'],
    [' ', ' ', ' ', ' ', ' ', ' ', ' ', ' ', ' '],
];

/// The range with the given index.
pub open spec fn bise_range(index: int) -> BiseCounts {
    BiseCounts {
        bits: BISE_RANGES[index][0],
        trits: BISE_RANGES[index][1],
        quints: BISE_RANGES[index][2],
        max: BISE_RANGES[index][3],
        deq_b: BISE_TEMPLATES[index],
        deq_c: BISE_RANGES[index][4],
    }
}

impl BiseCounts {
    /// The range with the given index.
    pub fn get(index: usize) -> (range: BiseCounts)
        requires
            index < RANGE_COUNT,
        ensures
            range == bise_range(index as int),
    {
        BiseCounts {
            bits: BISE_RANGES[index][0],
            trits: BISE_RANGES[index][1],
            quints: BISE_RANGES[index][2],
            max: BISE_RANGES[index][3],
            deq_b: BISE_TEMPLATES[index],
            deq_c: BISE_RANGES[index][4],
        }
    }

    /// The base of the digit of each value: 5 for a quint, 3 for a trit,
    /// 0 where the values have no digit.
    pub open spec fn radix(self) -> nat {
        if self.quints > 0 {
            5
        } else if self.trits > 0 {
            3
        } else {
            0
        }
    }
}

/// What every row of the range table keeps to.
pub proof fn lemma_range_table(index: int)
    requires
        0 <= index < RANGE_COUNT,
    ensures
        bise_range(index).bits <= 8,
        bise_range(index).trits <= 1,
        bise_range(index).quints <= 1,
        bise_range(index).trits == 0 || bise_range(index).quints == 0,
        bise_range(index).radix() == 0 ==> bise_range(index).bits >= 1,
        bise_range(index).deq_c <= 204,
{
}

/// One endpoint value as it is stored: its digit and its plain bits.
#[derive(Clone, Copy, Debug, PartialEq, Eq)]
pub struct QuantEndpoint {
    /// The trit or quint, 0 where the range has none.
    pub trit_quint: u8,
    /// The plain bits.
    pub bits: u8,
}

impl Default for QuantEndpoint {
    /// The value with no digit and no plain bits set.
    fn default() -> (quant: QuantEndpoint)
        ensures
            quant == (QuantEndpoint { trit_quint: 0, bits: 0 }),
    {
        QuantEndpoint { trit_quint: 0, bits: 0 }
    }
}

/// How many digits share one codeword: three quints, or five trits.
pub open spec fn group_len(radix: nat) -> nat {
    if radix == 5 {
        3
    } else {
        5
    }
}

/// The width in bits of a codeword that holds `members` digits.
pub open spec fn group_bits(radix: nat, members: nat) -> nat {
    if radix == 5 {
        if members == 1 {
            3
        } else if members == 2 {
            5
        } else if members == 3 {
            7
        } else {
            0
        }
    } else if radix == 3 {
        if members == 1 {
            2
        } else if members == 2 {
            4
        } else if members == 3 {
            5
        } else if members == 4 {
            7
        } else if members == 5 {
            8
        } else {
            0
        }
    } else {
        0
    }
}

/// The bits that the digits of `count` values take: full codewords, then
/// one narrower codeword for the values left over.
pub open spec fn digits_bits(radix: nat, count: nat) -> nat {
    if radix == 0 {
        0
    } else {
        (count / group_len(radix)) * group_bits(radix, group_len(radix)) + group_bits(
            radix,
            count % group_len(radix),
        )
    }
}

/// The bits that `count` values of a range take.
pub open spec fn bise_bits(range: BiseCounts, count: nat) -> nat {
    digits_bits(range.radix(), count) + count * (range.bits as nat)
}

/// Digit `place` of `code` written in base `radix`, the lowest digit being
/// digit 0.
pub open spec fn digit_of(code: nat, radix: nat, place: nat) -> nat
    decreases place,
{
    if place == 0 {
        code % radix
    } else {
        digit_of(code / radix, radix, (place - 1) as nat)
    }
}

/// The digit of value `i` among `count` values whose encoding starts at bit
/// `pos`.
pub open spec fn digit_at(bytes: Seq<u8>, pos: nat, radix: nat, count: nat, i: nat) -> nat {
    if radix == 0 {
        0
    } else {
        let len = group_len(radix);
        let group = i / len;
        let left = (count - group * len) as nat;
        let members = if left < len {
            left
        } else {
            len
        };
        let code = bits_at(
            bytes,
            pos + group * group_bits(radix, len),
            group_bits(radix, members),
        );
        digit_of(code, radix, i % len)
    }
}

/// The plain bits of value `i` among `count` values whose encoding starts at
/// bit `pos`.
pub open spec fn plain_at(bytes: Seq<u8>, pos: nat, range: BiseCounts, count: nat, i: nat) -> nat {
    bits_at(
        bytes,
        pos + digits_bits(range.radix(), count) + i * (range.bits as nat),
        range.bits as nat,
    )
}

/// Value `i` among `count` values of a range whose encoding starts at bit
/// `pos`.
pub open spec fn quant_at(bytes: Seq<u8>, pos: nat, range: BiseCounts, count: nat, i: nat)
    -> QuantEndpoint {
    QuantEndpoint {
        trit_quint: digit_at(bytes, pos, range.radix(), count, i) as u8,
        bits: plain_at(bytes, pos, range, count, i) as u8,
    }
}

/// The width in bits of a codeword that holds `members` digits.
fn group_width(radix: u8, members: usize) -> (width: usize)
    requires
        radix == 3 || radix == 5,
        1 <= members <= group_len(radix as nat),
    ensures
        width == group_bits(radix as nat, members as nat),
        1 <= width <= 8,
{
    if radix == 5 {
        if members == 1 {
            3
        } else if members == 2 {
            5
        } else {
            7
        }
    } else {
        if members == 1 {
            2
        } else if members == 2 {
            4
        } else if members == 3 {
            5
        } else if members == 4 {
            7
        } else {
            8
        }
    }
}

/// A digit is less than its base.
pub proof fn lemma_digit_of_bound(code: nat, radix: nat, place: nat)
    requires
        radix > 0,
    ensures
        digit_of(code, radix, place) < radix,
    decreases place,
{
    if place > 0 {
        lemma_digit_of_bound(code / radix, radix, (place - 1) as nat);
    }
}

/// Where `done` values fill whole codewords and the next codeword holds
/// `members` more, the bits of the two add up to the bits of `done + members`
/// values, and stay within the bits of all `count` values.
proof fn lemma_digits_bits_step(radix: nat, count: nat, done: nat, members: nat)
    requires
        radix == 3 || radix == 5,
        done % group_len(radix) == 0,
        1 <= members <= group_len(radix),
        done + members <= count,
        members < group_len(radix) ==> done + members == count,
    ensures
        digits_bits(radix, done) + group_bits(radix, members) == digits_bits(
            radix,
            done + members,
        ),
        digits_bits(radix, done) == (done / group_len(radix)) * group_bits(
            radix,
            group_len(radix),
        ),
        digits_bits(radix, done + members) <= digits_bits(radix, count),
{
    let len = group_len(radix);
    let full = group_bits(radix, len);
    let next = done + members;
    if radix == 5 {
        assert(len == 3 && full == 7);
        assert(done % 3 == 0);
        assert(digits_bits(radix, done) == (done / 3) * 7);
        if members == 3 {
            assert(next / 3 == done / 3 + 1);
            assert(next % 3 == 0);
            assert(digits_bits(radix, next) == (done / 3 + 1) * 7);
            assert(count / 3 >= done / 3 + 1);
            assert(digits_bits(radix, count) >= (count / 3) * 7);
        } else {
            assert(next / 3 == done / 3);
            assert(next % 3 == members);
            assert(digits_bits(radix, next) == (done / 3) * 7 + group_bits(radix, members));
        }
    } else {
        assert(len == 5 && full == 8);
        assert(done % 5 == 0);
        assert(digits_bits(radix, done) == (done / 5) * 8);
        if members == 5 {
            assert(next / 5 == done / 5 + 1);
            assert(next % 5 == 0);
            assert(digits_bits(radix, next) == (done / 5 + 1) * 8);
            assert(count / 5 >= done / 5 + 1);
            assert(digits_bits(radix, count) >= (count / 5) * 8);
        } else {
            assert(next / 5 == done / 5);
            assert(next % 5 == members);
            assert(digits_bits(radix, next) == (done / 5) * 8 + group_bits(radix, members));
        }
    }
}

/// Value `done + place` is digit `place` of the codeword that follows `done`
/// values in whole codewords.
proof fn lemma_digit_at_group(
    bytes: Seq<u8>,
    pos: nat,
    radix: nat,
    count: nat,
    done: nat,
    members: nat,
    place: nat,
)
    requires
        radix == 3 || radix == 5,
        done % group_len(radix) == 0,
        1 <= members <= group_len(radix),
        done + members <= count,
        members < group_len(radix) ==> done + members == count,
        place < members,
    ensures
        digit_at(bytes, pos, radix, count, done + place) == digit_of(
            bits_at(bytes, pos + digits_bits(radix, done), group_bits(radix, members)),
            radix,
            place,
        ),
{
    lemma_digits_bits_step(radix, count, done, members);
    if radix == 5 {
        assert(done % 3 == 0);
        assert((done + place) / 3 == done / 3);
        assert((done + place) % 3 == place);
        assert((done / 3) * 3 == done);
    } else {
        assert(done % 5 == 0);
        assert((done + place) / 5 == done / 5);
        assert((done + place) % 5 == place);
        assert((done / 5) * 5 == done);
    }
}

/// Reads the digits of `value_count` values into the first entries of
/// `output`, codeword by codeword.
fn decode_digits(
    reader: &mut BitReaderLSB,
    output: &mut [QuantEndpoint; 18],
    radix: u8,
    value_count: usize,
)
    requires
        radix == 3 || radix == 5,
        value_count <= MAX_ENDPOINT_COUNT,
        old(reader)@.pos + digits_bits(radix as nat, value_count as nat) <= usize::MAX,
    ensures
        final(reader)@.bytes == old(reader)@.bytes,
        final(reader)@.pos == old(reader)@.pos + digits_bits(radix as nat, value_count as nat),
        forall|i: int| 0 <= i < 18 ==> final(output)@[i].bits == old(output)@[i].bits,
        forall|i: int|
            0 <= i < value_count ==> final(output)@[i].trit_quint == digit_at(
                old(reader)@.bytes,
                old(reader)@.pos,
                radix as nat,
                value_count as nat,
                i as nat,
            ),
        forall|i: int| value_count <= i < 18 ==> final(output)@[i] == old(output)@[i],
{
    let ghost bytes = reader@.bytes;
    let ghost start = reader@.pos;
    let ghost before = output@;
    let ghost base = radix as nat;
    let ghost count = value_count as nat;
    let per: usize = if radix == 5 {
        3
    } else {
        5
    };
    let mut done: usize = 0;
    while done < value_count
        invariant
            radix == 3 || radix == 5,
            base == radix,
            count == value_count,
            per == group_len(base),
            value_count <= MAX_ENDPOINT_COUNT,
            start + digits_bits(base, count) <= usize::MAX,
            done <= value_count,
            done % per == 0 || done == value_count,
            reader@.bytes == bytes,
            reader@.pos == start + digits_bits(base, done as nat),
            forall|i: int| 0 <= i < 18 ==> output@[i].bits == before[i].bits,
            forall|i: int|
                0 <= i < done ==> output@[i].trit_quint == digit_at(
                    bytes,
                    start,
                    base,
                    count,
                    i as nat,
                ),
            forall|i: int| done <= i < 18 ==> output@[i] == before[i],
        decreases value_count - done,
    {
        let left = value_count - done;
        let members = if left < per {
            left
        } else {
            per
        };
        proof {
            lemma_digits_bits_step(base, count, done as nat, members as nat);
        }
        let code = reader.read_u8(group_width(radix, members));
        let mut rest = code;
        let mut place: usize = 0;
        while place < members
            invariant
                radix == 3 || radix == 5,
                base == radix,
                place <= members,
                done + members <= 18,
                forall|t: nat| #[trigger]
                    digit_of(rest as nat, base, t) == digit_of(code as nat, base, place as nat + t),
                forall|i: int| 0 <= i < 18 ==> output@[i].bits == before[i].bits,
                forall|i: int|
                    0 <= i < done ==> output@[i].trit_quint == digit_at(
                        bytes,
                        start,
                        base,
                        count,
                        i as nat,
                    ),
                forall|i: int|
                    done <= i < done + place ==> output@[i].trit_quint == digit_of(
                        code as nat,
                        base,
                        (i - done) as nat,
                    ),
                forall|i: int| done + place <= i < 18 ==> output@[i] == before[i],
            decreases members - place,
        {
            let mut entry = output[done + place];
            entry.trit_quint = rest % radix;
            output[done + place] = entry;
            let ghost prior = rest;
            rest = rest / radix;
            assert forall|t: nat| #[trigger]
                digit_of(rest as nat, base, t) == digit_of(code as nat, base, place as nat + 1 + t) by {
                assert(digit_of(prior as nat, base, t + 1) == digit_of(rest as nat, base, t));
            }
            assert(digit_of(prior as nat, base, 0) == digit_of(code as nat, base, place as nat));
            place = place + 1;
        }
        assert forall|i: int| 0 <= i < done + members implies output@[i].trit_quint == digit_at(
            bytes,
            start,
            base,
            count,
            i as nat,
        ) by {
            if i >= done {
                lemma_digit_at_group(
                    bytes,
                    start,
                    base,
                    count,
                    done as nat,
                    members as nat,
                    (i - done) as nat,
                );
            }
        }
        done = done + members;
    }
}

/// Reads `value_count` values of the range `range_index`: first all their
/// digits, then all their plain bits. The entries after them stay zero.
pub fn decode_endpoints(reader: &mut BitReaderLSB, range_index: u8, value_count: usize) -> (output:
    [QuantEndpoint; 18])
    requires
        range_index < RANGE_COUNT,
        value_count <= MAX_ENDPOINT_COUNT,
        old(reader)@.pos + bise_bits(bise_range(range_index as int), value_count as nat)
            <= usize::MAX,
    ensures
        final(reader)@.bytes == old(reader)@.bytes,
        final(reader)@.pos == old(reader)@.pos + bise_bits(
            bise_range(range_index as int),
            value_count as nat,
        ),
        forall|i: int|
            0 <= i < value_count ==> output@[i] == quant_at(
                old(reader)@.bytes,
                old(reader)@.pos,
                bise_range(range_index as int),
                value_count as nat,
                i as nat,
            ),
        forall|i: int|
            value_count <= i < 18 ==> output@[i] == (QuantEndpoint { trit_quint: 0, bits: 0 }),
        forall|i: int|
            0 <= i < value_count ==> plain_fits(
                #[trigger] output@[i],
                bise_range(range_index as int),
            ),
{
    let ghost bytes = reader@.bytes;
    let ghost start = reader@.pos;
    let ghost count = value_count as nat;
    let range = BiseCounts::get(range_index as usize);
    let ghost digits = digits_bits(range.radix(), count);
    proof {
        lemma_range_table(range_index as int);
    }
    let zero = QuantEndpoint::default();
    let mut output = [zero;18];
    if range.quints > 0 {
        decode_digits(reader, &mut output, 5, value_count);
    } else if range.trits > 0 {
        decode_digits(reader, &mut output, 3, value_count);
    }
    proof {
        assert forall|i: int| 0 <= i < value_count implies output@[i].trit_quint == digit_at(
            bytes,
            start,
            range.radix(),
            count,
            i as nat,
        ) as u8 by {
            if range.radix() != 0 {
                lemma_digit_at_bound(bytes, start, range.radix(), count, i as nat);
            }
        }
    }
    let width = range.bits as usize;
    if width > 0 {
        let mut i: usize = 0;
        while i < value_count
            invariant
                i <= value_count <= MAX_ENDPOINT_COUNT,
                0 < width <= 8,
                width == range.bits,
                count == value_count,
                start + digits + count * width <= usize::MAX,
                reader@.bytes == bytes,
                reader@.pos == start + digits + i * width,
                forall|k: int| 0 <= k < 18 ==> output@[k].trit_quint == (if k < value_count {
                    digit_at(bytes, start, range.radix(), count, k as nat) as u8
                } else {
                    0u8
                }),
                forall|k: int|
                    0 <= k < i ==> output@[k].bits == bits_at(
                        bytes,
                        start + digits + k as nat * width as nat,
                        width as nat,
                    ),
                forall|k: int| i <= k < 18 ==> output@[k].bits == 0,
            decreases value_count - i,
        {
            proof {
                assert(i * width + width <= count * width) by (nonlinear_arith)
                    requires
                        i < count,
                ;
                assert((i + 1) * width == i * width + width) by (nonlinear_arith);
                lemma_bits_at_bound(bytes, reader@.pos, width as nat);
            }
            let mut entry = output[i];
            entry.bits = reader.read_u8(width);
            output[i] = entry;
            i = i + 1;
        }
    }
    proof {
        assert forall|i: int| 0 <= i < value_count implies output@[i] == quant_at(
            bytes,
            start,
            range,
            count,
            i as nat,
        ) by {
            if width == 0 {
                assert(plain_at(bytes, start, range, count, i as nat) == 0);
            }
        }
        assert forall|i: int| 0 <= i < value_count implies plain_fits(
            #[trigger] output@[i],
            range,
        ) by {
            lemma_quant_at_fits(bytes, start, range, count, i as nat);
        }
        assert(bise_bits(range, count) == digits + count * (width as nat));
        assert(count * (width as nat) == value_count * width);
        if width == 0 {
            assert(value_count * width == 0) by (nonlinear_arith)
                requires
                    width == 0,
            ;
        }
    }
    output
}

/// A digit of an encoding is less than its base.
pub proof fn lemma_digit_at_bound(bytes: Seq<u8>, pos: nat, radix: nat, count: nat, i: nat)
    requires
        radix > 0,
    ensures
        digit_at(bytes, pos, radix, count, i) < radix,
{
    let len = group_len(radix);
    let group = i / len;
    let left = (count - group * len) as nat;
    let members = if left < len {
        left
    } else {
        len
    };
    lemma_digit_of_bound(
        bits_at(bytes, pos + group * group_bits(radix, len), group_bits(radix, members)),
        radix,
        i % len,
    );
}

/// A value read from bytes fits its range: its digit is below the base of
/// the range and its plain bits fit the width of the range.
pub proof fn lemma_quant_at_fits(bytes: Seq<u8>, pos: nat, range: BiseCounts, count: nat, i: nat)
    requires
        range.bits <= 8,
    ensures
        quant_at(bytes, pos, range, count, i).bits < pow2(range.bits as nat),
        range.radix() != 0 ==> quant_at(bytes, pos, range, count, i).trit_quint < range.radix(),
        plain_fits(quant_at(bytes, pos, range, count, i), range),
{
    let wide = range.bits as nat;
    lemma_bits_at_bound(bytes, pos + digits_bits(range.radix(), count) + i * wide, wide);
    lemma2_to64();
    if wide < 8 {
        lemma_pow2_strictly_increases(wide, 8);
    }
    if range.radix() != 0 {
        lemma_digit_at_bound(bytes, pos, range.radix(), count, i);
    }
}

/// Buffers that agree on the bytes that hold the values of a range agree on
/// every one of the values.
pub proof fn lemma_quant_at_same(
    a: Seq<u8>,
    b: Seq<u8>,
    len: nat,
    pos: nat,
    range: BiseCounts,
    count: nat,
    i: nat,
)
    requires
        same_bytes(a, b, len),
        pos + bise_bits(range, count) <= 8 * len,
        i < count,
    ensures
        quant_at(a, pos, range, count, i) == quant_at(b, pos, range, count, i),
{
    let radix = range.radix();
    let digits = digits_bits(radix, count);
    let wide = range.bits as nat;
    assert(i * wide + wide <= count * wide) by (nonlinear_arith)
        requires
            i < count,
    ;
    lemma_bits_at_same(a, b, len, pos + digits + i * wide, wide);
    if radix != 0 {
        let per = group_len(radix);
        let group = i / per;
        let done = group * per;
        let left = (count - done) as nat;
        let members = if left < per {
            left
        } else {
            per
        };
        if radix == 5 {
            assert(per == 3);
            assert(done % 3 == 0 && done <= i && done / 3 == group);
        } else {
            assert(per == 5);
            assert(done % 5 == 0 && done <= i && done / 5 == group);
        }
        lemma_digits_bits_step(radix, count, done, members);
        assert(digits_bits(radix, done) == group * group_bits(radix, per));
        assert(group * group_bits(radix, per) + group_bits(radix, members) <= digits_bits(
            radix,
            count,
        ));
        assert(digits_bits(radix, count) <= bise_bits(range, count));
        lemma_bits_at_same(
            a,
            b,
            len,
            pos + group * group_bits(radix, per),
            group_bits(radix, members),
        );
    }
}

/// Bit `index` of `value`: 0 or 1.
pub open spec fn bit_of(value: nat, index: nat) -> nat {
    (value / pow2(index)) % 2
}

/// `aligned` moved down by `shift` places, plus its copies moved down by
/// `bits` more places each time, as long as they stay within eight bits.
pub open spec fn repeated(aligned: nat, bits: nat, shift: nat) -> nat
    decreases
            (if shift < 8 {
                8 - shift
            } else {
                0
            }),
{
    if shift >= 8 || bits == 0 {
        0
    } else {
        aligned / pow2(shift) + repeated(aligned, bits, shift + bits)
    }
}

/// A value of `bits` bits spread over eight bits: the value stands in the
/// top `bits` bits, and the bits below repeat it from its top bit down.
pub open spec fn replicate_bits(value: nat, bits: nat) -> nat {
    repeated(value * pow2((8 - bits) as nat), bits, 0)
}

/// Whether the plain bits of a value fit the width that the range stores,
/// where the range stores nothing but plain bits.
pub open spec fn plain_fits(quant: QuantEndpoint, range: BiseCounts) -> bool {
    range.trits == 0 && range.quints == 0 ==> quant.bits < pow2(range.bits as nat)
}

/// The bit that the template character `c` copies from `value`.
pub open spec fn template_bit(c: char, value: nat) -> nat {
    if 'a' <= c && c <= 'h' {
        bit_of(value, (c as nat - 'a' as nat) as nat)
    } else {
        0
    }
}

/// The number that the first `taken` characters of a template spell, the
/// first character giving the most significant bit.
pub open spec fn template_value(template: Seq<char>, value: nat, taken: nat) -> nat
    decreases taken,
{
    if taken == 0 {
        0
    } else {
        2 * template_value(template, value, (taken - 1) as nat) + template_bit(
            template[taken - 1],
            value,
        )
    }
}

/// The dequantized value of a range with trits or quints: the digit times
/// the multiplier plus the nine-bit offset that the template spells,
/// mirrored when the lowest plain bit is set.
pub open spec fn unquant_mixed(quant: QuantEndpoint, range: BiseCounts) -> u8 {
    let a: u16 = if quant.bits % 2 == 1 {
        511
    } else {
        0
    };
    let b = template_value(range.deq_b@, quant.bits as nat, 9);
    let val = (quant.trit_quint * range.deq_c + b) as u16;
    (((a & 0x80) | ((val ^ a) >> 2)) & 0xff) as u8
}

/// The eight-bit value that a stored endpoint value stands for.
pub open spec fn unquant_spec(quant: QuantEndpoint, range: BiseCounts) -> u8 {
    if range.trits == 0 && range.quints == 0 && range.bits > 0 {
        replicate_bits(quant.bits as nat, range.bits as nat) as u8
    } else {
        unquant_mixed(quant, range)
    }
}

/// A value of `bits` bits moved up to the top of eight bits is a number of
/// eight bits, and a multiple of `2^(8 - bits)`.
proof fn lemma_aligned_value(value: nat, bits: nat)
    requires
        1 <= bits <= 8,
        value < pow2(bits),
    ensures
        value * pow2((8 - bits) as nat) < 256,
        (value * pow2((8 - bits) as nat)) % pow2((8 - bits) as nat) == 0,
{
    let up = (8 - bits) as nat;
    let scale = pow2(up);
    lemma_pow2_pos(up);
    lemma_pow2_adds(bits, up);
    lemma2_to64();
    assert(value * scale < pow2(bits) * scale) by (nonlinear_arith)
        requires
            value < pow2(bits),
            scale > 0,
    ;
    lemma_mod_multiples_basic(value as int, scale as int);
}

/// Spreading a value over eight bits gives a number of eight bits.
pub proof fn lemma_replicate_bits_bound(value: nat, bits: nat)
    requires
        1 <= bits <= 8,
        value < pow2(bits),
    ensures
        replicate_bits(value, bits) < 256,
{
    lemma_aligned_value(value, bits);
    let x = (value * pow2((8 - bits) as nat)) as u16;
    lemma2_to64();
    reveal_with_fuel(repeated, 9);
    if bits == 1 {
        assert(x + x / 2 + x / 4 + x / 8 + x / 16 + x / 32 + x / 64 + x / 128 < 256)
            by (bit_vector)
            requires
                x < 256,
                x % 128 == 0,
        ;
    } else if bits == 2 {
        assert(x + x / 4 + x / 16 + x / 64 < 256) by (bit_vector)
            requires
                x < 256,
                x % 64 == 0,
        ;
    } else if bits == 3 {
        assert(x + x / 8 + x / 64 < 256) by (bit_vector)
            requires
                x < 256,
                x % 32 == 0,
        ;
    } else if bits == 4 {
        assert(x + x / 16 < 256) by (bit_vector)
            requires
                x < 256,
                x % 16 == 0,
        ;
    } else if bits == 5 {
        assert(x + x / 32 < 256) by (bit_vector)
            requires
                x < 256,
                x % 8 == 0,
        ;
    } else if bits == 6 {
        assert(x + x / 64 < 256) by (bit_vector)
            requires
                x < 256,
                x % 4 == 0,
        ;
    } else if bits == 7 {
        assert(x + x / 128 < 256) by (bit_vector)
            requires
                x < 256,
                x % 2 == 0,
        ;
    }
}

/// Where the digit times the multiplier plus the offset stays below 512, as
/// it does for the values that a range can hold, the dequantized value is a
/// quarter of that sum, counted up from 0 where the lowest plain bit is
/// clear and down from 255 where it is set.
pub proof fn lemma_unquant_mixed_value(quant: QuantEndpoint, range: BiseCounts)
    requires
        quant.trit_quint * range.deq_c + template_value(range.deq_b@, quant.bits as nat, 9) < 512,
    ensures
        unquant_mixed(quant, range) == (if quant.bits % 2 == 1 {
            255 - (quant.trit_quint * range.deq_c + template_value(
                range.deq_b@,
                quant.bits as nat,
                9,
            )) / 4
        } else {
            (quant.trit_quint * range.deq_c + template_value(range.deq_b@, quant.bits as nat, 9))
                / 4
        }),
{
    let val = (quant.trit_quint * range.deq_c + template_value(
        range.deq_b@,
        quant.bits as nat,
        9,
    )) as u16;
    assert((((511u16 & 0x80u16) | ((val ^ 511u16) >> 2u16)) & 0xffu16) + val / 4u16 == 255)
        by (bit_vector)
        requires
            val < 512u16,
    ;
    assert(((0u16 & 0x80u16) | ((val ^ 0u16) >> 2u16)) & 0xffu16 == val / 4u16) by (bit_vector)
        requires
            val < 512u16,
    ;
}

/// For a digit that a range can hold, the digit times the multiplier plus
/// the offset stays below 512, whatever the plain bits are.
pub proof fn lemma_unquant_sum_bound(quant: QuantEndpoint, range_index: int)
    requires
        0 <= range_index < RANGE_COUNT,
        quant.trit_quint < bise_range(range_index).radix(),
    ensures
        quant.trit_quint * bise_range(range_index).deq_c + template_value(
            bise_range(range_index).deq_b@,
            quant.bits as nat,
            9,
        ) < 512,
{
    let range = bise_range(range_index);
    let template = range.deq_b@;
    let value = quant.bits as nat;
    assert forall|c: char| template_bit(c, value) <= 1 by {}
    reveal_with_fuel(template_value, 10);
    assert(quant.trit_quint * range.deq_c <= 4 * range.deq_c) by (nonlinear_arith)
        requires
            quant.trit_quint <= 4,
    ;
    assert(quant.trit_quint * range.deq_c <= 2 * range.deq_c || range.quints > 0)
        by (nonlinear_arith)
        requires
            quant.trit_quint <= 2 || range.quints > 0,
    ;
}

/// A template of `taken` characters spells a number of `taken` bits.
pub proof fn lemma_template_value_bound(template: Seq<char>, value: nat, taken: nat)
    ensures
        template_value(template, value, taken) < pow2(taken),
    decreases taken,
{
    if taken == 0 {
        lemma2_to64();
    } else {
        lemma_template_value_bound(template, value, (taken - 1) as nat);
        lemma_pow2_unfold(taken);
    }
}

/// The number whose lowest `count` bits are set.
spec fn low_mask(count: u16) -> u16 {
    !(0xffffu16 << count)
}

proof fn lemma_aligned(value: u16, up: u16)
    by (bit_vector)
    requires
        up < 8,
    ensures
        (value << up) & low_mask(up) == 0,
        0u16 & low_mask(8) == 0,
{
}

proof fn lemma_or_copy(out: u16, aligned: u16, shift: u16, bits: u16, room: u16, left: u16)
    by (bit_vector)
    requires
        1 <= bits <= 8,
        room + shift == 8,
        1 <= room,
        bits <= room ==> left + bits == room,
        bits > room ==> left == 0,
        aligned < 0x100,
        out < 0x100,
        aligned & low_mask((8 - bits) as u16) == 0,
        out & low_mask(room) == 0,
    ensures
        out | (aligned >> shift) == out + (aligned >> shift),
        out | (aligned >> shift) < 0x100,
        (out | (aligned >> shift)) & low_mask(left) == 0,
{
}

/// Spreads a value of `bits` bits over eight bits.
fn replicate(value: u8, bits: u8) -> (out: u8)
    requires
        1 <= bits <= 8,
        value < pow2(bits as nat),
    ensures
        out == replicate_bits(value as nat, bits as nat),
{
    let up: u16 = (8 - bits) as u16;
    proof {
        lemma_aligned_value(value as nat, bits as nat);
        lemma_u16_shl_is_mul(value as u16, up);
        lemma_aligned(value as u16, up);
    }
    let aligned: u16 = (value as u16) << up;
    let mut out: u16 = 0;
    let mut shift: u16 = 0;
    let mut room: u16 = 8;
    while shift < 8
        invariant
            1 <= bits <= 8,
            up + bits == 8,
            shift < 8 ==> room + shift == 8,
            shift <= 15,
            aligned < 0x100,
            out < 0x100,
            aligned & low_mask(up) == 0,
            out & low_mask(room) == 0,
            out + repeated(aligned as nat, bits as nat, shift as nat) == repeated(
                aligned as nat,
                bits as nat,
                0,
            ),
        decreases 16 - shift,
    {
        let left: u16 = if bits as u16 <= room {
            room - bits as u16
        } else {
            0
        };
        proof {
            lemma_or_copy(out, aligned, shift, bits as u16, room, left);
            lemma_u16_shr_is_div(aligned, shift);
        }
        out = out | (aligned >> shift);
        shift = shift + bits as u16;
        room = left;
    }
    out as u8
}

proof fn lemma_append_bit(b: u16, bit: u16)
    by (bit_vector)
    requires
        b < 0x100,
        bit <= 1,
    ensures
        (b << 1) | bit == 2 * b + bit,
        b << 1 == 2 * b,
{
}

proof fn lemma_low_byte(x: u16)
    by (bit_vector)
    ensures
        x & 0xff < 0x100,
{
}

/// The eight-bit value that a stored endpoint value of the range
/// `range_index` stands for. In a range of plain bits alone, the value has
/// to fit the width of the range.
pub fn unquant_endpoint(quant: QuantEndpoint, range_index: u8) -> (value: u8)
    requires
        range_index < RANGE_COUNT,
        plain_fits(quant, bise_range(range_index as int)),
    ensures
        value == unquant_spec(quant, bise_range(range_index as int)),
{
    let range = BiseCounts::get(range_index as usize);
    proof {
        lemma_range_table(range_index as int);
    }
    if range.trits == 0 && range.quints == 0 && range.bits > 0 {
        replicate(quant.bits, range.bits)
    } else {
        let quant_bits = quant.bits as u16;
        let a: u16 = if quant_bits % 2 == 1 {
            511
        } else {
            0
        };
        let mut b: u16 = 0;
        let mut j: usize = 0;
        while j < 9
            invariant
                j <= 9,
                quant_bits == quant.bits,
                b == template_value(range.deq_b@, quant.bits as nat, j as nat),
            decreases 9 - j,
        {
            let c = range.deq_b[j];
            proof {
                lemma_template_value_bound(range.deq_b@, quant.bits as nat, j as nat);
                lemma2_to64();
                if j < 8 {
                    lemma_pow2_strictly_increases(j as nat, 8);
                }
            }
            if 'a' <= c && c <= 'h' {
                let k = (c as u8) - ('a' as u8);
                let bit = (quant_bits >> k) & 1;
                proof {
                    lemma_low_bits_mask_values();
                    lemma_u16_shr_is_div(quant_bits, k as u16);
                    lemma_u16_low_bits_mask_is_mod(quant_bits >> k, 1);
                    lemma_append_bit(b, bit);
                }
                b = (b << 1) | bit;
            } else {
                proof {
                    lemma_append_bit(b, 0);
                }
                b = b << 1;
            }
            j = j + 1;
        }
        proof {
            lemma_template_value_bound(range.deq_b@, quant.bits as nat, 9);
            lemma2_to64();
            assert(quant.trit_quint * range.deq_c <= 255 * 204) by (nonlinear_arith)
                requires
                    quant.trit_quint <= 255,
                    range.deq_c <= 204,
            ;
        }
        let val: u16 = (quant.trit_quint as u16) * (range.deq_c as u16) + b;
        let low = ((a & 0x80) | ((val ^ a) >> 2)) & 0xff;
        proof {
            lemma_low_byte((a & 0x80) | ((val ^ a) >> 2));
        }
        low as u8
    }
}

} // verus!
