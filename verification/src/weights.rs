//! The weights of a block: how they are stored and what they stand for.
//!
//! A plane of weights takes sixteen slots. The first weight of a plane is
//! stored one bit narrower than the others, its top bit being zero; fourteen
//! weights of full width follow, and the last slot of the plane is left at
//! zero. A stored weight is an index into the table of its width, which maps
//! it to a weight from 0 to 64.
//!
//! Whether a plane is meant to store a sixteenth weight is an open point.
//! This module reads fifteen and never writes the last slot of a plane;
//! code that takes all sixteen slots for stored weights would be wrong about
//! where the bits of a block end.

use crate::bitreader::{bits_at, lemma_bits_at_bound, lemma_bits_at_same, same_bytes, BitReaderLSB};
use vstd::arithmetic::power2::{
    lemma2_to64,
    lemma_pow2_pos,
    lemma_pow2_strictly_increases,
    pow2,
};
use vstd::prelude::*;

verus! {

/// The slots of one plane.
pub const PLANE_SLOTS: usize = 16;

/// The weights that one plane stores.
pub const PLANE_WEIGHTS: usize = 15;

/// The widest weight, in bits.
pub const MAX_WEIGHT_BITS: u8 = 5;

/// The largest weight.
pub const MAX_WEIGHT: u8 = 64;

/// The weights that the one-bit indices stand for.
pub const WEIGHT_LUT1: [u8; 2] = [0, 64];

/// The weights that the two-bit indices stand for.
pub const WEIGHT_LUT2: [u8; 4] = [0, 21, 43, 64];

/// The weights that the three-bit indices stand for.
pub const WEIGHT_LUT3: [u8; 8] = [0, 9, 18, 27, 37, 46, 55, 64];

/// The weights that the four-bit indices stand for.
pub const WEIGHT_LUT4: [u8; 16] = [0, 4, 8, 12, 17, 21, 25, 29, 35, 39, 43, 47, 52, 56, 60, 64];

/// The weights that the five-bit indices stand for.
pub const WEIGHT_LUT5: [u8; 32] = [
    0, 2, 4, 6, 8, 10, 12, 14,
    16, 18, 20, 22, 24, 26, 28, 30,
    34, 36, 38, 40, 42, 44, 46, 48,
    50, 52, 54, 56, 58, 60, 62, 64,
];

/// The table of the weights of `weight_bits` bits, indexed by stored weight.
pub open spec fn weight_lut(weight_bits: nat) -> Seq<u8> {
    if weight_bits == 1 {
        WEIGHT_LUT1@
    } else if weight_bits == 2 {
        WEIGHT_LUT2@
    } else if weight_bits == 3 {
        WEIGHT_LUT3@
    } else if weight_bits == 4 {
        WEIGHT_LUT4@
    } else if weight_bits == 5 {
        WEIGHT_LUT5@
    } else {
        Seq::empty()
    }
}

/// Each table has an entry for every index of its width, starts at 0, ends
/// at the largest weight and never falls in between.
pub proof fn lemma_weight_lut_monotonic(weight_bits: nat)
    requires
        1 <= weight_bits <= MAX_WEIGHT_BITS,
    ensures
        weight_lut(weight_bits).len() == pow2(weight_bits),
        weight_lut(weight_bits).first() == 0,
        weight_lut(weight_bits).last() == MAX_WEIGHT,
        forall|i: int, j: int|
            0 <= i <= j < weight_lut(weight_bits).len() ==> weight_lut(weight_bits)[i]
                <= weight_lut(weight_bits)[j],
{
    lemma2_to64();
    let lut = weight_lut(weight_bits);
    assert forall|i: int| 0 <= i < lut.len() - 1 implies lut[i] <= #[trigger] lut[i + 1] by {}
    assert forall|i: int, j: int| 0 <= i <= j < lut.len() implies lut[i] <= lut[j] by {
        lemma_steps_to_order(lut, i, j);
    }
}

/// A sequence that never falls from one entry to the next never falls at all.
proof fn lemma_steps_to_order(s: Seq<u8>, i: int, j: int)
    requires
        0 <= i <= j < s.len(),
        forall|k: int| 0 <= k < s.len() - 1 ==> s[k] <= #[trigger] s[k + 1],
    ensures
        s[i] <= s[j],
    decreases j - i,
{
    if i < j {
        lemma_steps_to_order(s, i, j - 1);
        assert(s[j - 1] <= s[j - 1 + 1]);
    }
}

/// The bits that the weights of one plane take.
pub open spec fn plane_bits(weight_bits: nat) -> nat {
    (PLANE_WEIGHTS * weight_bits - 1) as nat
}

/// The bits that the weights of `plane_count` planes take.
pub open spec fn weights_bits(weight_bits: nat, plane_count: nat) -> nat {
    plane_count * plane_bits(weight_bits)
}

/// The stored weight of slot `slot`, counted over all planes, of weights
/// whose encoding starts at bit `pos`: zero for the last slot of a plane and
/// for the slots of planes that the block does not have.
pub open spec fn raw_weight_at(
    bytes: Seq<u8>,
    pos: nat,
    weight_bits: nat,
    plane_count: nat,
    slot: nat,
) -> nat {
    let plane = slot / PLANE_SLOTS as nat;
    let within = slot % PLANE_SLOTS as nat;
    let start = pos + plane * plane_bits(weight_bits);
    if plane >= plane_count || within >= PLANE_WEIGHTS {
        0
    } else if within == 0 {
        bits_at(bytes, start, (weight_bits - 1) as nat)
    } else {
        bits_at(bytes, (start + within * weight_bits - 1) as nat, weight_bits)
    }
}

/// The weight of slot `slot`: what its stored weight stands for.
pub open spec fn weight_at(
    bytes: Seq<u8>,
    pos: nat,
    weight_bits: nat,
    plane_count: nat,
    slot: nat,
) -> u8 {
    weight_lut(weight_bits)[raw_weight_at(bytes, pos, weight_bits, plane_count, slot) as int]
}

/// A stored weight is an index of the table of its width.
pub proof fn lemma_raw_weight_bound(
    bytes: Seq<u8>,
    pos: nat,
    weight_bits: nat,
    plane_count: nat,
    slot: nat,
)
    requires
        1 <= weight_bits,
    ensures
        raw_weight_at(bytes, pos, weight_bits, plane_count, slot) < pow2(weight_bits),
{
    let plane = slot / PLANE_SLOTS as nat;
    let within = slot % PLANE_SLOTS as nat;
    let start = pos + plane * plane_bits(weight_bits);
    lemma_pow2_pos(weight_bits);
    if plane >= plane_count || within >= PLANE_WEIGHTS {
    } else if within == 0 {
        lemma_bits_at_bound(bytes, start, (weight_bits - 1) as nat);
        lemma_pow2_strictly_increases((weight_bits - 1) as nat, weight_bits);
    } else {
        lemma_bits_at_bound(bytes, (start + within * weight_bits - 1) as nat, weight_bits);
    }
}

/// Buffers that agree on the bytes that hold the weights agree on every
/// weight.
pub proof fn lemma_weight_at_same(
    a: Seq<u8>,
    b: Seq<u8>,
    len: nat,
    pos: nat,
    weight_bits: nat,
    plane_count: nat,
    slot: nat,
)
    requires
        same_bytes(a, b, len),
        1 <= weight_bits,
        pos + weights_bits(weight_bits, plane_count) <= 8 * len,
    ensures
        weight_at(a, pos, weight_bits, plane_count, slot) == weight_at(
            b,
            pos,
            weight_bits,
            plane_count,
            slot,
        ),
{
    let plane = slot / PLANE_SLOTS as nat;
    let within = slot % PLANE_SLOTS as nat;
    let each = plane_bits(weight_bits);
    let start = pos + plane * each;
    if plane < plane_count && within < PLANE_WEIGHTS {
        assert(plane * each + each <= plane_count * each) by (nonlinear_arith)
            requires
                plane < plane_count,
        ;
        assert(within * weight_bits + weight_bits <= 15 * weight_bits) by (nonlinear_arith)
            requires
                within < 15,
        ;
        if within == 0 {
            lemma_bits_at_same(a, b, len, start, (weight_bits - 1) as nat);
        } else {
            assert(within * weight_bits >= 1) by (nonlinear_arith)
                requires
                    within >= 1,
                    weight_bits >= 1,
            ;
            lemma_bits_at_same(
                a,
                b,
                len,
                (start + within * weight_bits - 1) as nat,
                weight_bits,
            );
        }
    }
}

/// Reads the stored weights of `plane_count` planes into the slots of
/// `output`: plane 0 into slots 0 to 14, plane 1 into slots 16 to 30. The
/// other slots are left as they are.
pub fn decode_weights(
    reader: &mut BitReaderLSB,
    weight_bits: u8,
    plane_count: usize,
    output: &mut [u8; 32],
)
    requires
        1 <= weight_bits <= 8,
        plane_count <= 2,
        old(reader)@.pos + weights_bits(weight_bits as nat, plane_count as nat) <= usize::MAX,
    ensures
        final(reader)@.bytes == old(reader)@.bytes,
        final(reader)@.pos == old(reader)@.pos + weights_bits(
            weight_bits as nat,
            plane_count as nat,
        ),
        forall|slot: int|
            0 <= slot < 32 ==> final(output)@[slot] == (if slot / 16 < plane_count && slot % 16
                < 15 {
                raw_weight_at(
                    old(reader)@.bytes,
                    old(reader)@.pos,
                    weight_bits as nat,
                    plane_count as nat,
                    slot as nat,
                ) as u8
            } else {
                old(output)@[slot]
            }),
{
    let ghost bytes = reader@.bytes;
    let ghost start = reader@.pos;
    let ghost before = output@;
    let ghost wide = weight_bits as nat;
    let ghost planes = plane_count as nat;
    let width = weight_bits as usize;
    let mut plane: usize = 0;
    while plane < plane_count
        invariant
            plane <= plane_count <= 2,
            1 <= width <= 8,
            width == weight_bits,
            wide == weight_bits,
            planes == plane_count,
            start + weights_bits(wide, planes) <= usize::MAX,
            reader@.bytes == bytes,
            reader@.pos == start + plane * plane_bits(wide),
            forall|slot: int|
                0 <= slot < 32 ==> output@[slot] == (if slot / 16 < plane && slot % 16 < 15 {
                    raw_weight_at(bytes, start, wide, planes, slot as nat) as u8
                } else {
                    before[slot]
                }),
        decreases plane_count - plane,
    {
        let first = 16 * plane;
        let ghost origin = reader@.pos;
        proof {
            assert(plane_bits(wide) == 15 * width - 1);
            assert(weights_bits(wide, planes) >= (plane + 1) * plane_bits(wide))
                by (nonlinear_arith)
                requires
                    weights_bits(wide, planes) == planes * plane_bits(wide),
                    plane + 1 <= planes,
            ;
            assert((plane + 1) * plane_bits(wide) == plane * plane_bits(wide) + plane_bits(wide))
                by (nonlinear_arith);
            lemma_raw_weight_bound(bytes, start, wide, planes, first as nat);
            lemma2_to64();
            lemma_pow2_strictly_increases(wide, 9);
        }
        output[first] = reader.read_u8(width - 1);
        let mut within: usize = 1;
        while within < 15
            invariant
                1 <= within <= 15,
                plane < plane_count <= 2,
                first == 16 * plane,
                1 <= width <= 8,
                width == weight_bits,
                wide == weight_bits,
                planes == plane_count,
                origin == start + plane * plane_bits(wide),
                origin + plane_bits(wide) <= usize::MAX,
                plane_bits(wide) == 15 * width - 1,
                reader@.bytes == bytes,
                reader@.pos == origin + within * width - 1,
                forall|slot: int|
                    0 <= slot < 32 ==> output@[slot] == (if (slot / 16 < plane && slot % 16 < 15)
                        || (first <= slot < first + within) {
                        raw_weight_at(bytes, start, wide, planes, slot as nat) as u8
                    } else {
                        before[slot]
                    }),
            decreases 15 - within,
        {
            proof {
                assert(within * width + width <= 15 * width) by (nonlinear_arith)
                    requires
                        within < 15,
                ;
                assert((within + 1) * width == within * width + width) by (nonlinear_arith);
                assert(within * width >= 1) by (nonlinear_arith)
                    requires
                        within >= 1,
                        width >= 1,
                ;
                lemma_raw_weight_bound(bytes, start, wide, planes, (first + within) as nat);
                lemma2_to64();
                lemma_pow2_strictly_increases(wide, 9);
                assert((first + within) / 16 == plane);
                assert((first + within) % 16 == within);
            }
            output[first + within] = reader.read_u8(width);
            within = within + 1;
        }
        assert forall|slot: int| 0 <= slot < 32 implies output@[slot] == (if slot / 16 < plane + 1
            && slot % 16 < 15 {
            raw_weight_at(bytes, start, wide, planes, slot as nat) as u8
        } else {
            before[slot]
        }) by {
            if first <= slot < first + 15 {
                assert(slot / 16 == plane);
            }
        }
        plane = plane + 1;
    }
}

/// Replaces each stored weight by the weight it stands for.
pub fn unquant_weights(weights: &mut [u8; 32], weight_bits: u8)
    requires
        1 <= weight_bits <= MAX_WEIGHT_BITS,
        forall|slot: int| 0 <= slot < 32 ==> old(weights)@[slot] < pow2(weight_bits as nat),
    ensures
        forall|slot: int|
            0 <= slot < 32 ==> final(weights)@[slot] == weight_lut(weight_bits as nat)[old(
                weights,
            )@[slot] as int],
{
    let ghost before = weights@;
    let ghost lut = weight_lut(weight_bits as nat);
    let mut slot: usize = 0;
    while slot < 32
        invariant
            slot <= 32,
            1 <= weight_bits <= MAX_WEIGHT_BITS,
            lut == weight_lut(weight_bits as nat),
            before.len() == 32,
            forall|k: int| 0 <= k < 32 ==> before[k] < pow2(weight_bits as nat),
            forall|k: int| 0 <= k < slot ==> weights@[k] == lut[before[k] as int],
            forall|k: int| slot <= k < 32 ==> weights@[k] == before[k],
        decreases 32 - slot,
    {
        proof {
            lemma2_to64();
            assert(weights@[slot as int] == before[slot as int]);
        }
        let raw = weights[slot] as usize;
        let weight = if weight_bits == 1 {
            WEIGHT_LUT1[raw]
        } else if weight_bits == 2 {
            WEIGHT_LUT2[raw]
        } else if weight_bits == 3 {
            WEIGHT_LUT3[raw]
        } else if weight_bits == 4 {
            WEIGHT_LUT4[raw]
        } else {
            WEIGHT_LUT5[raw]
        };
        weights[slot] = weight;
        slot = slot + 1;
    }
}

} // verus!
