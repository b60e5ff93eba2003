//! UASTC blocks: the mode table, the fields of a block and its decoding.

use crate::bise::{
    bise_bits,
    bise_range,
    decode_endpoints,
    digits_bits,
    group_bits,
    lemma_quant_at_same,
    lemma_range_table,
    plain_fits,
    quant_at,
    unquant_endpoint,
    unquant_spec,
    BiseCounts,
    QuantEndpoint,
};
use crate::bitreader::{
    bits_at,
    lemma_bits_at_bound,
    lemma_bits_at_div_mod,
    lemma_bits_at_same,
    same_bytes,
    BitReaderLSB,
};
use crate::image::{Color32, Image};
use crate::sink::BlockSink;
use crate::weights::{
    decode_weights,
    lemma_raw_weight_bound,
    lemma_weight_at_same,
    lemma_weight_lut_monotonic,
    plane_bits,
    raw_weight_at,
    unquant_weights,
    weight_at,
    weight_lut,
    weights_bits,
    MAX_WEIGHT,
};
use vstd::arithmetic::div_mod::lemma_fundamental_div_mod_converse;
use vstd::arithmetic::power2::{lemma2_to64, lemma_pow2_strictly_increases, pow2};
use vstd::prelude::*;

verus! {

/// The number of modes, the reserved one included.
pub const MODE_COUNT: usize = 20;

/// The index of the reserved mode, which no valid block has.
pub const RESERVED_MODE: usize = 19;

/// The widest mode code, in bits.
pub const MAX_CODE_SIZE: usize = 7;

/// How one mode lays out a block.
#[derive(Clone, Copy, Debug, PartialEq, Eq)]
pub struct Mode {
    /// The code that opens a block of this mode.
    pub code: u8,
    /// The width of `code` in bits, 2 to 7.
    pub code_size: u8,
    /// How many of the 128 bits the mode uses.
    pub block_size: u8,
    /// The BISE range of the endpoints.
    pub endpoint_range_index: u8,
    /// How many endpoint values a block holds.
    pub endpoint_count: u8,
    /// The width of a weight in bits.
    pub weight_bits: u8,
    /// How many planes of weights a block holds.
    pub plane_count: u8,
}

impl Default for Mode {
    /// The mode with every field zero, which is no mode of the table.
    fn default() -> (mode: Mode)
        ensures
            mode == (Mode {
                code: 0,
                code_size: 0,
                block_size: 0,
                endpoint_range_index: 0,
                endpoint_count: 0,
                weight_bits: 0,
                plane_count: 0,
            }),
    {
        Mode {
            code: 0,
            code_size: 0,
            block_size: 0,
            endpoint_range_index: 0,
            endpoint_count: 0,
            weight_bits: 0,
            plane_count: 0,
        }
    }
}

/// The modes, one row each: code, code size, block size, endpoint range,
/// endpoint count, weight bits, plane count.
pub const MODES: [[u8; 7]; 20] = [
    [0x01, 4, 128, 19, 6, 4, 1],
    [0x35, 6, 100, 20, 6, 2, 1],
    [0x1D, 5, 119, 8, 12, 3, 1],
    [0x03, 5, 118, 7, 18, 2, 1],
    [0x13, 5, 119, 12, 12, 2, 1],
    [0x0B, 5, 115, 20, 6, 3, 1],
    [0x1B, 5, 128, 18, 6, 2, 2],
    [0x07, 5, 119, 12, 12, 2, 1],
    [0x17, 5, 58, 0, 0, 0, 0],
    [0x0F, 5, 127, 8, 16, 2, 1],
    [0x02, 3, 128, 13, 8, 4, 1],
    [0x00, 2, 128, 13, 8, 2, 2],
    [0x06, 3, 128, 19, 8, 3, 1],
    [0x1F, 5, 124, 20, 8, 1, 2],
    [0x0D, 5, 123, 20, 8, 2, 1],
    [0x05, 7, 125, 20, 4, 4, 1],
    [0x15, 6, 128, 20, 8, 2, 1],
    [0x25, 6, 123, 20, 4, 2, 2],
    [0x09, 4, 128, 11, 6, 5, 1],
    [0x45, 7, 0, 0, 0, 0, 0],
];

/// For each value of the first seven bits of a block, the index of the mode
/// whose code those bits begin with.
pub const MODE_LUT: [u8; 128] = [
    11, 0, 10, 3, 11, 15, 12, 7,
    11, 18, 10, 5, 11, 14, 12, 9,
    11, 0, 10, 4, 11, 16, 12, 8,
    11, 18, 10, 6, 11, 2, 12, 13,
    11, 0, 10, 3, 11, 17, 12, 7,
    11, 18, 10, 5, 11, 14, 12, 9,
    11, 0, 10, 4, 11, 1, 12, 8,
    11, 18, 10, 6, 11, 2, 12, 13,
    11, 0, 10, 3, 11, 19, 12, 7,
    11, 18, 10, 5, 11, 14, 12, 9,
    11, 0, 10, 4, 11, 16, 12, 8,
    11, 18, 10, 6, 11, 2, 12, 13,
    11, 0, 10, 3, 11, 17, 12, 7,
    11, 18, 10, 5, 11, 14, 12, 9,
    11, 0, 10, 4, 11, 1, 12, 8,
    11, 18, 10, 6, 11, 2, 12, 13,
];

/// The mode with the given index.
pub open spec fn mode_spec(index: int) -> Mode {
    Mode {
        code: MODES[index][0],
        code_size: MODES[index][1],
        block_size: MODES[index][2],
        endpoint_range_index: MODES[index][3],
        endpoint_count: MODES[index][4],
        weight_bits: MODES[index][5],
        plane_count: MODES[index][6],
    }
}

/// The index of the mode whose code starts at bit `pos`.
pub open spec fn mode_index_at(bytes: Seq<u8>, pos: nat) -> nat {
    MODE_LUT[bits_at(bytes, pos, MAX_CODE_SIZE as nat) as int] as nat
}

impl Mode {
    /// The mode with the given index.
    pub fn get(index: usize) -> (mode: Mode)
        requires
            index < MODE_COUNT,
        ensures
            mode == mode_spec(index as int),
    {
        Mode {
            code: MODES[index][0],
            code_size: MODES[index][1],
            block_size: MODES[index][2],
            endpoint_range_index: MODES[index][3],
            endpoint_count: MODES[index][4],
            weight_bits: MODES[index][5],
            plane_count: MODES[index][6],
        }
    }
}

/// What every row of the mode table keeps to.
pub proof fn lemma_mode_table(index: int)
    requires
        0 <= index < MODE_COUNT,
    ensures
        2 <= mode_spec(index).code_size <= MAX_CODE_SIZE,
        mode_spec(index).code < pow2(mode_spec(index).code_size as nat),
        mode_spec(index).endpoint_range_index <= 20,
        mode_spec(index).endpoint_count <= 18,
        mode_spec(index).weight_bits <= 5,
        mode_spec(index).plane_count <= 2,
        mode_spec(index).plane_count == 2 ==> mode_spec(index).endpoint_count <= 8,
        mode_spec(index).plane_count == 0 <==> index == 8 || index == RESERVED_MODE,
        mode_spec(index).plane_count > 0 ==> mode_spec(index).weight_bits >= 1,
{
    lemma2_to64();
}

/// The lookup table sends seven bits to the one mode whose code they begin
/// with.
pub proof fn lemma_mode_lut(code: int, index: int)
    requires
        0 <= code < 128,
        0 <= index < MODE_COUNT,
        code % (pow2(mode_spec(index).code_size as nat) as int) == mode_spec(index).code,
    ensures
        MODE_LUT[code] == index,
{
    lemma2_to64();
    let size = mode_spec(index).code_size;
    let own = mode_spec(index).code as int;
    if size == 2 {
        assert(code % 4 == own);
        assert(code % 8 == own || code % 8 == own + 4);
    } else if size == 3 {
        assert(code % 8 == own);
    } else if size == 4 {
        assert(code % 16 == own);
        assert(code == own || code == own + 16 || code == own + 32 || code == own + 48 || code
            == own + 64 || code == own + 80 || code == own + 96 || code == own + 112);
    } else if size == 5 {
        assert(code % 32 == own);
        assert(code == own || code == own + 32 || code == own + 64 || code == own + 96);
    } else if size == 6 {
        assert(code % 64 == own);
        assert(code == own || code == own + 64);
    } else {
        assert(code % 128 == own);
        assert(code == own);
    }
}

/// Bits that begin with the code of a mode resolve to that mode: if the
/// `code_size` bits at `pos` are the code of mode `index`, the lookup on the
/// seven bits at `pos` gives `index`, whatever the bits after the code are.
pub proof fn lemma_mode_round_trip(bytes: Seq<u8>, pos: nat, index: int)
    requires
        0 <= index < MODE_COUNT,
        bits_at(bytes, pos, mode_spec(index).code_size as nat) == mode_spec(index).code,
    ensures
        mode_index_at(bytes, pos) == index,
{
    let size = mode_spec(index).code_size as nat;
    lemma_mode_table(index);
    lemma_bits_at_div_mod(bytes, pos, size, (7 - size) as nat);
    lemma_bits_at_bound(bytes, pos, 7);
    lemma2_to64();
    lemma_mode_lut(bits_at(bytes, pos, 7) as int, index);
}

/// Reads the mode code at the cursor. For the reserved mode the result is
/// `None` and the cursor stays; for any other mode the result is its index
/// and the cursor moves past its code.
pub fn resolve_mode(reader: &mut BitReaderLSB) -> (resolved: Option<usize>)
    requires
        old(reader)@.pos + MAX_CODE_SIZE <= usize::MAX,
    ensures
        final(reader)@.bytes == old(reader)@.bytes,
        mode_index_at(old(reader)@.bytes, old(reader)@.pos) == RESERVED_MODE ==> resolved is None
            && final(reader)@.pos == old(reader)@.pos,
        mode_index_at(old(reader)@.bytes, old(reader)@.pos) != RESERVED_MODE ==> resolved == Some(
            mode_index_at(old(reader)@.bytes, old(reader)@.pos) as usize,
        ) && final(reader)@.pos == old(reader)@.pos + mode_spec(
            mode_index_at(old(reader)@.bytes, old(reader)@.pos) as int,
        ).code_size,
{
    proof {
        lemma_bits_at_bound(reader@.bytes, reader@.pos, 7);
        lemma2_to64();
    }
    let code = reader.peek(MAX_CODE_SIZE) as usize;
    let index = MODE_LUT[code] as usize;
    proof {
        lemma_mode_lut_range(code as int);
        lemma_mode_table(index as int);
    }
    if index == RESERVED_MODE {
        None
    } else {
        reader.advance(MODES[index][1] as usize);
        Some(index)
    }
}

/// Every entry of the lookup table is the index of a mode.
pub proof fn lemma_mode_lut_range(code: int)
    requires
        0 <= code < 128,
    ensures
        MODE_LUT[code] < MODE_COUNT,
{
}

/// What a later transcoder to an older format needs to know of a block.
#[derive(Clone, Copy, Debug, PartialEq, Eq)]
pub struct TranscodingFlags {
    /// The first hint for BC1.
    pub bc1h0: bool,
    /// The second hint for BC1.
    pub bc1h1: bool,
    /// The flip bit for ETC1.
    pub etc1f: bool,
    /// The differential bit for ETC1.
    pub etc1d: bool,
    /// The intensity table of the first ETC1 subblock, three bits.
    pub etc1i0: u8,
    /// The intensity table of the second ETC1 subblock, three bits.
    pub etc1i1: u8,
    /// The bias for ETC1, five bits.
    pub etc1bias: u8,
    /// The hints for ETC2, eight bits.
    pub etc2tm: u8,
}

impl TranscodingFlags {
    /// What holds of the flags of every block: each fits the width it is
    /// stored with.
    pub open spec fn wf(self) -> bool {
        &&& self.etc1i0 < 8
        &&& self.etc1i1 < 8
        &&& self.etc1bias < 32
    }

    /// The flags of a block that stores none: all false and zero.
    pub open spec fn empty() -> TranscodingFlags {
        TranscodingFlags {
            bc1h0: false,
            bc1h1: false,
            etc1f: false,
            etc1d: false,
            etc1i0: 0,
            etc1i1: 0,
            etc1bias: 0,
            etc2tm: 0,
        }
    }
}

impl Default for TranscodingFlags {
    fn default() -> (flags: TranscodingFlags)
        ensures
            flags == TranscodingFlags::empty(),
    {
        TranscodingFlags {
            bc1h0: false,
            bc1h1: false,
            etc1f: false,
            etc1d: false,
            etc1i0: 0,
            etc1i1: 0,
            etc1bias: 0,
            etc2tm: 0,
        }
    }
}

/// Whether a block of the mode stores `bc1h1` and `etc1bias`.
pub open spec fn stores_bias(mode_index: nat) -> bool {
    mode_index < 10 || mode_index > 12
}

/// Whether a block of the mode stores `etc2tm`.
pub open spec fn stores_etc2tm(mode_index: nat) -> bool {
    9 <= mode_index <= 17
}

/// The width of `bc1h1` in a block of the mode.
pub open spec fn bc1h1_bits(mode_index: nat) -> nat {
    if stores_bias(mode_index) {
        1
    } else {
        0
    }
}

/// The width of `etc1bias` in a block of the mode.
pub open spec fn etc1bias_bits(mode_index: nat) -> nat {
    if stores_bias(mode_index) {
        5
    } else {
        0
    }
}

/// The width of `etc2tm` in a block of the mode.
pub open spec fn etc2tm_bits(mode_index: nat) -> nat {
    if stores_etc2tm(mode_index) {
        8
    } else {
        0
    }
}

/// The bits that the flags take after the mode code. Mode 8 keeps its one
/// flag among its colour fields instead.
pub open spec fn trans_flags_bits(mode_index: nat) -> nat {
    if mode_index == 8 {
        0
    } else {
        9 + bc1h1_bits(mode_index) + etc1bias_bits(mode_index) + etc2tm_bits(mode_index)
    }
}

/// The flags of a block of the mode, stored from bit `pos` on in the order
/// `bc1h0`, `bc1h1`, `etc1f`, `etc1d`, `etc1i0`, `etc1i1`, `etc1bias`,
/// `etc2tm`. A flag that the mode does not store is false or zero.
pub open spec fn trans_flags_at(bytes: Seq<u8>, pos: nat, mode_index: nat) -> TranscodingFlags {
    if mode_index == 8 {
        TranscodingFlags::empty()
    } else {
        let etc1f_pos = pos + 1 + bc1h1_bits(mode_index);
        let etc1bias_pos = etc1f_pos + 8;
        let etc2tm_pos = etc1bias_pos + etc1bias_bits(mode_index);
        TranscodingFlags {
            bc1h0: bits_at(bytes, pos, 1) == 1,
            bc1h1: bits_at(bytes, pos + 1, bc1h1_bits(mode_index)) == 1,
            etc1f: bits_at(bytes, etc1f_pos, 1) == 1,
            etc1d: bits_at(bytes, etc1f_pos + 1, 1) == 1,
            etc1i0: bits_at(bytes, etc1f_pos + 2, 3) as u8,
            etc1i1: bits_at(bytes, etc1f_pos + 5, 3) as u8,
            etc1bias: bits_at(bytes, etc1bias_pos, etc1bias_bits(mode_index)) as u8,
            etc2tm: bits_at(bytes, etc2tm_pos, etc2tm_bits(mode_index)) as u8,
        }
    }
}

/// Reads the flags of a block of the mode.
pub fn decode_trans_flags(reader: &mut BitReaderLSB, mode_index: usize) -> (flags:
    TranscodingFlags)
    requires
        old(reader)@.pos + trans_flags_bits(mode_index as nat) <= usize::MAX,
    ensures
        final(reader)@.bytes == old(reader)@.bytes,
        final(reader)@.pos == old(reader)@.pos + trans_flags_bits(mode_index as nat),
        flags == trans_flags_at(old(reader)@.bytes, old(reader)@.pos, mode_index as nat),
{
    let mut flags = TranscodingFlags::default();
    if mode_index == 8 {
        return flags;
    }
    flags.bc1h0 = reader.read_bool();
    if mode_index < 10 || mode_index > 12 {
        flags.bc1h1 = reader.read_bool();
    }
    flags.etc1f = reader.read_bool();
    flags.etc1d = reader.read_bool();
    flags.etc1i0 = reader.read_u8(3);
    flags.etc1i1 = reader.read_u8(3);
    if mode_index < 10 || mode_index > 12 {
        flags.etc1bias = reader.read_u8(5);
    }
    if mode_index >= 9 && mode_index <= 17 {
        flags.etc2tm = reader.read_u8(8);
    }
    flags
}

/// The endpoints and weights of a block with one plane of weights.
#[derive(Clone, Copy, Debug, PartialEq, Eq)]
pub struct ModeE18W16 {
    /// The endpoint values; those past the count of the mode are zero.
    pub endpoints: [u8; 18],
    /// The weights; the last slot is zero.
    pub weights: [u8; 16],
}

/// The endpoints and weights of a block with two planes of weights.
#[derive(Clone, Copy, Debug, PartialEq, Eq)]
pub struct ModeE8W32 {
    /// The endpoint values; those past the count of the mode are zero.
    pub endpoints: [u8; 8],
    /// The weights, sixteen slots to a plane; the last slot of each plane is
    /// zero.
    pub weights: [u8; 32],
}

/// What a block holds besides its flags.
#[derive(Clone, Copy, Debug, PartialEq, Eq)]
pub enum ModeData {
    /// One plane of weights.
    ModeE18W16(ModeE18W16),
    /// Two planes of weights.
    ModeE8W32(ModeE8W32),
    /// One colour for the whole block, with what an ETC1 transcoder needs
    /// beside it.
    Mode8 { r: u8, g: u8, b: u8, a: u8, etc1i: u8, etc1s: u8, etc1r: u8, etc1g: u8, etc1b: u8 },
    /// Nothing: the block has the reserved mode.
    Invalid,
}

/// What a [`ModeData`] stands for.
pub enum ModeDataView {
    ModeE18W16 { endpoints: Seq<u8>, weights: Seq<u8> },
    ModeE8W32 { endpoints: Seq<u8>, weights: Seq<u8> },
    Mode8 { r: u8, g: u8, b: u8, a: u8, etc1i: u8, etc1s: u8, etc1r: u8, etc1g: u8, etc1b: u8 },
    Invalid,
}

impl View for ModeData {
    type V = ModeDataView;

    open spec fn view(&self) -> ModeDataView {
        match *self {
            ModeData::ModeE18W16(d) => ModeDataView::ModeE18W16 {
                endpoints: d.endpoints@,
                weights: d.weights@,
            },
            ModeData::ModeE8W32(d) => ModeDataView::ModeE8W32 {
                endpoints: d.endpoints@,
                weights: d.weights@,
            },
            ModeData::Mode8 { r, g, b, a, etc1i, etc1s, etc1r, etc1g, etc1b } => ModeDataView::Mode8 {
                r,
                g,
                b,
                a,
                etc1i,
                etc1s,
                etc1r,
                etc1g,
                etc1b,
            },
            ModeData::Invalid => ModeDataView::Invalid,
        }
    }
}

/// One decoded block.
#[derive(Clone, Copy, Debug, PartialEq, Eq)]
pub struct DecodedBlock {
    /// The column of the block in the grid of blocks.
    pub block_x: u32,
    /// The row of the block in the grid of blocks.
    pub block_y: u32,
    /// The index of the mode, `RESERVED_MODE` for a block that is not valid.
    pub mode_index: usize,
    /// The flags for transcoders.
    pub trans_flags: TranscodingFlags,
    /// The partition pattern, 0 where the mode has none.
    pub pat: u8,
    /// The component that the second plane of weights applies to, 0 where
    /// the mode has none.
    pub compsel: u8,
    /// The endpoints and weights, or the colour.
    pub data: ModeData,
}

/// What a [`DecodedBlock`] stands for.
pub struct DecodedBlockView {
    pub block_x: u32,
    pub block_y: u32,
    pub mode_index: usize,
    pub trans_flags: TranscodingFlags,
    pub pat: u8,
    pub compsel: u8,
    pub data: ModeDataView,
}

impl View for DecodedBlock {
    type V = DecodedBlockView;

    open spec fn view(&self) -> DecodedBlockView {
        DecodedBlockView {
            block_x: self.block_x,
            block_y: self.block_y,
            mode_index: self.mode_index,
            trans_flags: self.trans_flags,
            pat: self.pat,
            compsel: self.compsel,
            data: self.data@,
        }
    }
}

/// What holds of the endpoints and weights of a block of `mode`: the
/// endpoint slots past the count of the mode are zero, no weight is above the
/// largest weight, and the last slot of each plane is zero.
pub open spec fn planes_wf(endpoints: Seq<u8>, weights: Seq<u8>, mode: Mode) -> bool {
    &&& forall|i: int| mode.endpoint_count <= i < endpoints.len() ==> endpoints[i] == 0
    &&& forall|slot: int| 0 <= slot < weights.len() ==> weights[slot] <= MAX_WEIGHT
    &&& forall|slot: int| 0 <= slot < weights.len() && slot % 16 == 15 ==> weights[slot] == 0
}

impl DecodedBlockView {
    /// What holds of every decoded block: its mode is one of the table, and
    /// what it holds has the shape of that mode. A block of the reserved
    /// mode holds nothing at all.
    pub open spec fn wf(self) -> bool {
        let mode = mode_spec(self.mode_index as int);
        &&& self.mode_index < MODE_COUNT
        &&& self.trans_flags.wf()
        &&& self.pat < 32
        &&& self.compsel < 4
        &&& match self.data {
            ModeDataView::Invalid => {
                &&& self.mode_index == RESERVED_MODE
                &&& self.trans_flags == TranscodingFlags::empty()
                &&& self.pat == 0
                &&& self.compsel == 0
            },
            ModeDataView::Mode8 { etc1i, etc1s, etc1r, etc1g, etc1b, .. } => {
                &&& self.mode_index == 8
                &&& etc1i < 8
                &&& etc1s < 4
                &&& etc1r < 32
                &&& etc1g < 32
                &&& etc1b < 32
            },
            ModeDataView::ModeE18W16 { endpoints, weights } => {
                &&& mode.plane_count == 1
                &&& endpoints.len() == 18
                &&& weights.len() == 16
                &&& planes_wf(endpoints, weights, mode)
            },
            ModeDataView::ModeE8W32 { endpoints, weights } => {
                &&& mode.plane_count == 2
                &&& endpoints.len() == 8
                &&& weights.len() == 32
                &&& planes_wf(endpoints, weights, mode)
            },
        }
    }
}

impl DecodedBlock {
    /// Whether the block was decoded, which is so unless it has the reserved
    /// mode.
    pub fn is_valid(&self) -> (valid: bool)
        ensures
            valid == (self.mode_index != RESERVED_MODE),
    {
        self.mode_index != RESERVED_MODE
    }
}

/// The width of the component selector in a block of the mode.
pub open spec fn compsel_bits(mode_index: nat) -> nat {
    if mode_index == 6 || mode_index == 11 || mode_index == 13 {
        2
    } else {
        0
    }
}

/// The width of the partition pattern in a block of the mode.
pub open spec fn pat_bits(mode_index: nat) -> nat {
    if mode_index == 3 {
        4
    } else if mode_index == 2 || mode_index == 4 || mode_index == 7 || mode_index == 9
        || mode_index == 16 {
        5
    } else {
        0
    }
}

/// The bit at which the component selector of a block of the mode starts:
/// after the mode code and the flags.
pub open spec fn compsel_pos(mode_index: nat) -> nat {
    mode_spec(mode_index as int).code_size as nat + trans_flags_bits(mode_index)
}

/// The bit at which the endpoints of a block of the mode start, or its
/// colour: after the component selector and the partition pattern.
pub open spec fn payload_pos(mode_index: nat) -> nat {
    compsel_pos(mode_index) + compsel_bits(mode_index) + pat_bits(mode_index)
}

/// The colour of a mode 8 block whose colour starts at bit `pos`, and the
/// ETC1 fields that follow it. The flag `etc1d` stands between the colour
/// and those fields.
pub open spec fn flat_color_at(bytes: Seq<u8>, pos: nat) -> ModeDataView {
    ModeDataView::Mode8 {
        r: bits_at(bytes, pos, 8) as u8,
        g: bits_at(bytes, pos + 8, 8) as u8,
        b: bits_at(bytes, pos + 16, 8) as u8,
        a: bits_at(bytes, pos + 24, 8) as u8,
        etc1i: bits_at(bytes, pos + 33, 3) as u8,
        etc1s: bits_at(bytes, pos + 36, 2) as u8,
        etc1r: bits_at(bytes, pos + 38, 5) as u8,
        etc1g: bits_at(bytes, pos + 43, 5) as u8,
        etc1b: bits_at(bytes, pos + 48, 5) as u8,
    }
}

/// The first `len` endpoint slots of a block: the `count` values of the
/// range stored from bit `pos` on, each dequantized, then zeros.
pub open spec fn endpoints_at(bytes: Seq<u8>, pos: nat, range: BiseCounts, count: nat, len: nat)
    -> Seq<u8> {
    Seq::new(
        len,
        |i: int|
            if i < count {
                unquant_spec(quant_at(bytes, pos, range, count, i as nat), range)
            } else {
                0u8
            },
    )
}

/// The first `len` weight slots of a block whose weights are stored from bit
/// `pos` on.
pub open spec fn weights_at(
    bytes: Seq<u8>,
    pos: nat,
    weight_bits: nat,
    plane_count: nat,
    len: nat,
) -> Seq<u8> {
    Seq::new(len, |slot: int| weight_at(bytes, pos, weight_bits, plane_count, slot as nat))
}

/// The endpoints and weights of a block of the mode, which is neither mode 8
/// nor the reserved mode.
pub open spec fn planes_at(bytes: Seq<u8>, mode_index: nat) -> ModeDataView {
    let mode = mode_spec(mode_index as int);
    let range = bise_range(mode.endpoint_range_index as int);
    let count = mode.endpoint_count as nat;
    let start = payload_pos(mode_index);
    let weights_pos = start + bise_bits(range, count);
    if mode.plane_count == 1 {
        ModeDataView::ModeE18W16 {
            endpoints: endpoints_at(bytes, start, range, count, 18),
            weights: weights_at(bytes, weights_pos, mode.weight_bits as nat, 1, 16),
        }
    } else {
        ModeDataView::ModeE8W32 {
            endpoints: endpoints_at(bytes, start, range, count, 8),
            weights: weights_at(bytes, weights_pos, mode.weight_bits as nat, 2, 32),
        }
    }
}

/// The block that `bytes` holds, as the block at column `block_x` and row
/// `block_y`. The fields follow one another from bit 0: the mode code, the
/// flags, the component selector, the partition pattern, then the endpoints
/// and the weights, or for mode 8 the colour. Bits past the end of `bytes`
/// are zero. A block with the reserved mode holds nothing more.
#[verifier::opaque]
pub open spec fn block_at(block_x: u32, block_y: u32, bytes: Seq<u8>) -> DecodedBlockView {
    let mode_index = mode_index_at(bytes, 0);
    let flags = trans_flags_at(
        bytes,
        mode_spec(mode_index as int).code_size as nat,
        mode_index,
    );
    let start = payload_pos(mode_index);
    if mode_index == RESERVED_MODE {
        DecodedBlockView {
            block_x,
            block_y,
            mode_index: RESERVED_MODE,
            trans_flags: TranscodingFlags::empty(),
            pat: 0,
            compsel: 0,
            data: ModeDataView::Invalid,
        }
    } else {
        DecodedBlockView {
            block_x,
            block_y,
            mode_index: mode_index as usize,
            trans_flags: if mode_index == 8 {
                TranscodingFlags { etc1d: bits_at(bytes, start + 32, 1) == 1, ..flags }
            } else {
                flags
            },
            pat: bits_at(
                bytes,
                compsel_pos(mode_index) + compsel_bits(mode_index),
                pat_bits(mode_index),
            ) as u8,
            compsel: bits_at(bytes, compsel_pos(mode_index), compsel_bits(mode_index)) as u8,
            data: if mode_index == 8 {
                flat_color_at(bytes, start)
            } else {
                planes_at(bytes, mode_index)
            },
        }
    }
}

/// Every weight of a block is a weight of the table of its width, and the
/// slots that store no weight hold zero.
pub proof fn lemma_weight_at_range(
    bytes: Seq<u8>,
    pos: nat,
    weight_bits: nat,
    plane_count: nat,
    slot: nat,
)
    requires
        1 <= weight_bits <= 5,
    ensures
        weight_at(bytes, pos, weight_bits, plane_count, slot) <= MAX_WEIGHT,
        slot % 16 == 15 ==> weight_at(bytes, pos, weight_bits, plane_count, slot) == 0,
{
    lemma_raw_weight_bound(bytes, pos, weight_bits, plane_count, slot);
    lemma_weight_lut_monotonic(weight_bits);
    let lut = weight_lut(weight_bits);
    let raw = raw_weight_at(bytes, pos, weight_bits, plane_count, slot) as int;
    assert(lut[raw] <= lut[lut.len() - 1]);
}

/// Every block that bytes can hold is well formed.
pub proof fn lemma_block_at_wf(block_x: u32, block_y: u32, bytes: Seq<u8>)
    ensures
        block_at(block_x, block_y, bytes).wf(),
{
    reveal(block_at);
    let block = block_at(block_x, block_y, bytes);
    let mode_index = mode_index_at(bytes, 0);
    lemma_bits_at_bound(bytes, 0, 7);
    lemma2_to64();
    lemma_mode_lut_range(bits_at(bytes, 0, 7) as int);
    lemma_mode_table(mode_index as int);
    let mode = mode_spec(mode_index as int);
    let flags_pos = mode.code_size as nat;
    let etc1f_pos = flags_pos + 1 + bc1h1_bits(mode_index);
    lemma_bits_at_bound(bytes, etc1f_pos + 2, 3);
    lemma_bits_at_bound(bytes, etc1f_pos + 5, 3);
    lemma_bits_at_bound(bytes, etc1f_pos + 8, etc1bias_bits(mode_index));
    lemma_bits_at_bound(bytes, compsel_pos(mode_index), compsel_bits(mode_index));
    lemma_bits_at_bound(
        bytes,
        compsel_pos(mode_index) + compsel_bits(mode_index),
        pat_bits(mode_index),
    );
    if mode_index == 8 {
        let start = payload_pos(mode_index);
        lemma_bits_at_bound(bytes, start + 33, 3);
        lemma_bits_at_bound(bytes, start + 36, 2);
        lemma_bits_at_bound(bytes, start + 38, 5);
        lemma_bits_at_bound(bytes, start + 43, 5);
        lemma_bits_at_bound(bytes, start + 48, 5);
    }
    if mode_index != RESERVED_MODE && mode_index != 8 {
        let range = bise_range(mode.endpoint_range_index as int);
        let weights_pos = payload_pos(mode_index) + bise_bits(range, mode.endpoint_count as nat);
        assert forall|slot: nat|
            weight_at(bytes, weights_pos, mode.weight_bits as nat, mode.plane_count as nat, slot)
                <= MAX_WEIGHT && (slot % 16 == 15 ==> #[trigger] weight_at(
                bytes,
                weights_pos,
                mode.weight_bits as nat,
                mode.plane_count as nat,
                slot,
            ) == 0) by {
            lemma_weight_at_range(
                bytes,
                weights_pos,
                mode.weight_bits as nat,
                mode.plane_count as nat,
                slot,
            );
        }
    }
}

/// A block that opens with the code of the reserved mode is not valid and
/// holds nothing: what follows the code does not count.
pub proof fn lemma_reserved_block(block_x: u32, block_y: u32, bytes: Seq<u8>)
    requires
        mode_index_at(bytes, 0) == RESERVED_MODE,
    ensures
        block_at(block_x, block_y, bytes) == (DecodedBlockView {
            block_x,
            block_y,
            mode_index: RESERVED_MODE,
            trans_flags: TranscodingFlags::empty(),
            pat: 0,
            compsel: 0,
            data: ModeDataView::Invalid,
        }),
{
    reveal(block_at);
}

/// The bits of a mode 8 block from its colour on.
pub const FLAT_COLOR_BITS: usize = 53;

/// The bits that a block of the mode is read from: the first bit that no
/// field of the block holds.
pub open spec fn block_bits(mode_index: nat) -> nat {
    let mode = mode_spec(mode_index as int);
    if mode_index == 8 {
        payload_pos(mode_index) + FLAT_COLOR_BITS as nat
    } else {
        payload_pos(mode_index) + bise_bits(
            bise_range(mode.endpoint_range_index as int),
            mode.endpoint_count as nat,
        ) + weights_bits(mode.weight_bits as nat, mode.plane_count as nat)
    }
}

/// A block is read from no more bits than the table gives as the size of
/// its mode, which is never more than the 128 bits of a block.
pub proof fn lemma_block_bits(mode_index: nat)
    requires
        mode_index < RESERVED_MODE,
    ensures
        block_bits(mode_index) <= mode_spec(mode_index as int).block_size <= 8 * BLOCK_SIZE,
{
    let mode = mode_spec(mode_index as int);
    let range = bise_range(mode.endpoint_range_index as int);
    let count = mode.endpoint_count as nat;
    lemma_mode_table(mode_index as int);
    lemma_range_table(mode.endpoint_range_index as int);
    lemma_small_product(count, range.bits as nat);
    lemma_small_product(plane_bits(mode.weight_bits as nat), mode.plane_count as nat);
    if range.radix() == 5 {
        assert(digits_bits(5, count) == (count / 3) * 7 + group_bits(5, count % 3));
    } else if range.radix() == 3 {
        assert(digits_bits(3, count) == (count / 5) * 8 + group_bits(3, count % 5));
    }
}

/// A product with a factor of at most 8, as a sum.
proof fn lemma_small_product(a: nat, b: nat)
    by (nonlinear_arith)
    requires
        b <= 8,
    ensures
        a * b == (if b == 0 {
            0
        } else if b == 1 {
            a
        } else if b == 2 {
            2 * a
        } else if b == 3 {
            3 * a
        } else if b == 4 {
            4 * a
        } else if b == 5 {
            5 * a
        } else if b == 6 {
            6 * a
        } else if b == 7 {
            7 * a
        } else {
            8 * a
        }),
        b * a == a * b,
{
}

/// Buffers that agree on the bytes that hold the flags agree on the flags.
proof fn lemma_trans_flags_same(a: Seq<u8>, b: Seq<u8>, len: nat, pos: nat, mode_index: nat)
    requires
        same_bytes(a, b, len),
        pos + trans_flags_bits(mode_index) <= 8 * len,
    ensures
        trans_flags_at(a, pos, mode_index) == trans_flags_at(b, pos, mode_index),
{
    if mode_index != 8 {
        let etc1f_pos = pos + 1 + bc1h1_bits(mode_index);
        let etc1bias_pos = etc1f_pos + 8;
        let etc2tm_pos = etc1bias_pos + etc1bias_bits(mode_index);
        lemma_bits_at_same(a, b, len, pos, 1);
        lemma_bits_at_same(a, b, len, pos + 1, bc1h1_bits(mode_index));
        lemma_bits_at_same(a, b, len, etc1f_pos, 1);
        lemma_bits_at_same(a, b, len, etc1f_pos + 1, 1);
        lemma_bits_at_same(a, b, len, etc1f_pos + 2, 3);
        lemma_bits_at_same(a, b, len, etc1f_pos + 5, 3);
        lemma_bits_at_same(a, b, len, etc1bias_pos, etc1bias_bits(mode_index));
        lemma_bits_at_same(a, b, len, etc2tm_pos, etc2tm_bits(mode_index));
    }
}

/// A block is what its first sixteen bytes make it: buffers that agree on
/// those, a byte past the end of a buffer counting as zero, hold the same
/// block.
pub proof fn lemma_block_at_same(block_x: u32, block_y: u32, a: Seq<u8>, b: Seq<u8>)
    requires
        same_bytes(a, b, BLOCK_SIZE as nat),
    ensures
        block_at(block_x, block_y, a) == block_at(block_x, block_y, b),
{
    reveal(block_at);
    let len = BLOCK_SIZE as nat;
    lemma_bits_at_same(a, b, len, 0, 7);
    let mode_index = mode_index_at(a, 0);
    lemma_bits_at_bound(a, 0, 7);
    lemma2_to64();
    lemma_mode_lut_range(bits_at(a, 0, 7) as int);
    if mode_index != RESERVED_MODE {
        let mode = mode_spec(mode_index as int);
        let start = payload_pos(mode_index);
        lemma_mode_table(mode_index as int);
        lemma_block_bits(mode_index);
        lemma_trans_flags_same(a, b, len, mode.code_size as nat, mode_index);
        lemma_bits_at_same(a, b, len, compsel_pos(mode_index), compsel_bits(mode_index));
        lemma_bits_at_same(
            a,
            b,
            len,
            compsel_pos(mode_index) + compsel_bits(mode_index),
            pat_bits(mode_index),
        );
        if mode_index == 8 {
            lemma_bits_at_same(a, b, len, start, 8);
            lemma_bits_at_same(a, b, len, start + 8, 8);
            lemma_bits_at_same(a, b, len, start + 16, 8);
            lemma_bits_at_same(a, b, len, start + 24, 8);
            lemma_bits_at_same(a, b, len, start + 32, 1);
            lemma_bits_at_same(a, b, len, start + 33, 3);
            lemma_bits_at_same(a, b, len, start + 36, 2);
            lemma_bits_at_same(a, b, len, start + 38, 5);
            lemma_bits_at_same(a, b, len, start + 43, 5);
            lemma_bits_at_same(a, b, len, start + 48, 5);
        } else {
            let range = bise_range(mode.endpoint_range_index as int);
            let count = mode.endpoint_count as nat;
            let wide = mode.weight_bits as nat;
            let planes = mode.plane_count as nat;
            let weights_pos = start + bise_bits(range, count);
            assert forall|i: nat| i < count implies #[trigger] quant_at(a, start, range, count, i)
                == quant_at(b, start, range, count, i) by {
                lemma_quant_at_same(a, b, len, start, range, count, i);
            }
            assert forall|slot: nat| #[trigger]
                weight_at(a, weights_pos, wide, planes, slot) == weight_at(
                    b,
                    weights_pos,
                    wide,
                    planes,
                    slot,
                ) by {
                lemma_weight_at_same(a, b, len, weights_pos, wide, planes, slot);
            }
            assert(endpoints_at(a, start, range, count, 18) =~= endpoints_at(
                b,
                start,
                range,
                count,
                18,
            ));
            assert(endpoints_at(a, start, range, count, 8) =~= endpoints_at(
                b,
                start,
                range,
                count,
                8,
            ));
            assert(weights_at(a, weights_pos, wide, planes, 16) =~= weights_at(
                b,
                weights_pos,
                wide,
                planes,
                16,
            ));
            assert(weights_at(a, weights_pos, wide, planes, 32) =~= weights_at(
                b,
                weights_pos,
                wide,
                planes,
                32,
            ));
        }
    }
}

/// Dequantizes the first `count` stored values; the slots after them are
/// zero.
fn unquant_endpoints(quant: &[QuantEndpoint; 18], range_index: u8, count: usize) -> (endpoints:
    [u8; 18])
    requires
        range_index <= 20,
        count <= 18,
        forall|i: int|
            0 <= i < count ==> plain_fits(#[trigger] quant@[i], bise_range(range_index as int)),
    ensures
        forall|i: int|
            0 <= i < 18 ==> endpoints@[i] == (if i < count {
                unquant_spec(quant@[i], bise_range(range_index as int))
            } else {
                0u8
            }),
{
    let mut endpoints = [0u8;18];
    let mut i: usize = 0;
    while i < count
        invariant
            i <= count <= 18,
            range_index <= 20,
            forall|k: int|
                0 <= k < count ==> plain_fits(#[trigger] quant@[k], bise_range(range_index as int)),
            forall|k: int|
                0 <= k < 18 ==> endpoints@[k] == (if k < i {
                    unquant_spec(quant@[k], bise_range(range_index as int))
                } else {
                    0u8
                }),
        decreases count - i,
    {
        endpoints[i] = unquant_endpoint(quant[i], range_index);
        i = i + 1;
    }
    endpoints
}

/// The first eight endpoint slots.
fn first_endpoints(endpoints: &[u8; 18]) -> (first: [u8; 8])
    ensures
        first@ == endpoints@.take(8),
{
    let first = [
        endpoints[0],
        endpoints[1],
        endpoints[2],
        endpoints[3],
        endpoints[4],
        endpoints[5],
        endpoints[6],
        endpoints[7],
    ];
    assert(first@ =~= endpoints@.take(8));
    first
}

/// The slots of the first plane.
fn first_plane(weights: &[u8; 32]) -> (first: [u8; 16])
    ensures
        first@ == weights@.take(16),
{
    let mut first = [0u8;16];
    let mut slot: usize = 0;
    while slot < 16
        invariant
            slot <= 16,
            forall|k: int| 0 <= k < slot ==> first@[k] == weights@[k],
        decreases 16 - slot,
    {
        first[slot] = weights[slot];
        slot = slot + 1;
    }
    assert(first@ =~= weights@.take(16));
    first
}

/// Reads the endpoints and weights of a block of the mode, the cursor being
/// at its endpoints.
fn decode_planes(reader: &mut BitReaderLSB, mode_index: usize) -> (data: ModeData)
    requires
        mode_index < MODE_COUNT,
        mode_index != 8,
        mode_index != RESERVED_MODE,
        old(reader)@.pos == payload_pos(mode_index as nat),
    ensures
        data@ == planes_at(old(reader)@.bytes, mode_index as nat),
{
    let ghost bytes = reader@.bytes;
    let ghost start = reader@.pos;
    let mode = Mode::get(mode_index);
    let count = mode.endpoint_count as usize;
    let ghost range = bise_range(mode.endpoint_range_index as int);
    let ghost wide = mode.weight_bits as nat;
    let ghost planes = mode.plane_count as nat;
    proof {
        lemma_mode_table(mode_index as int);
        lemma_range_table(mode.endpoint_range_index as int);
        lemma_block_bits(mode_index as nat);
    }
    let quant = decode_endpoints(reader, mode.endpoint_range_index, count);
    let ghost weights_pos = reader@.pos;
    let mut weights = [0u8;32];
    decode_weights(reader, mode.weight_bits, mode.plane_count as usize, &mut weights);
    proof {
        assert forall|slot: int| 0 <= slot < 32 implies weights@[slot] == raw_weight_at(
            bytes,
            weights_pos,
            wide,
            planes,
            slot as nat,
        ) && weights@[slot] < pow2(wide) by {
            lemma_raw_weight_bound(bytes, weights_pos, wide, planes, slot as nat);
            lemma2_to64();
            lemma_pow2_strictly_increases(wide, 8);
        }
    }
    unquant_weights(&mut weights, mode.weight_bits);
    let endpoints = unquant_endpoints(&quant, mode.endpoint_range_index, count);
    if mode.plane_count == 1 {
        let data = ModeE18W16 { endpoints, weights: first_plane(&weights) };
        proof {
            assert(data.endpoints@ =~= endpoints_at(bytes, start, range, count as nat, 18));
            assert(data.weights@ =~= weights_at(bytes, weights_pos, wide, 1, 16));
        }
        ModeData::ModeE18W16(data)
    } else {
        let data = ModeE8W32 { endpoints: first_endpoints(&endpoints), weights };
        proof {
            assert(data.endpoints@ =~= endpoints_at(bytes, start, range, count as nat, 8));
            assert(data.weights@ =~= weights_at(bytes, weights_pos, wide, 2, 32));
        }
        ModeData::ModeE8W32(data)
    }
}

/// Decodes the block that `bytes` holds, as the block at column `block_x`
/// and row `block_y` of the grid.
pub fn decode_block(block_x: u32, block_y: u32, bytes: &[u8]) -> (block: DecodedBlock)
    ensures
        block@ == block_at(block_x, block_y, bytes@),
        block@.wf(),
{
    reveal(block_at);
    proof {
        lemma_block_at_wf(block_x, block_y, bytes@);
    }
    let mut reader = BitReaderLSB::new(bytes);
    let resolved = resolve_mode(&mut reader);
    let mode_index = match resolved {
        Some(mode_index) => mode_index,
        None => {
            return DecodedBlock {
                block_x,
                block_y,
                mode_index: RESERVED_MODE,
                trans_flags: TranscodingFlags::default(),
                pat: 0,
                compsel: 0,
                data: ModeData::Invalid,
            };
        },
    };
    proof {
        lemma_bits_at_bound(bytes@, 0, 7);
        lemma2_to64();
        lemma_mode_lut_range(bits_at(bytes@, 0, 7) as int);
        lemma_mode_table(mode_index as int);
        lemma_block_bits(mode_index as nat);
    }
    let mut trans_flags = decode_trans_flags(&mut reader, mode_index);
    let compsel = if mode_index == 6 || mode_index == 11 || mode_index == 13 {
        reader.read_u8(2)
    } else {
        0
    };
    let pat = if mode_index == 3 {
        reader.read_u8(4)
    } else if mode_index == 2 || mode_index == 4 || mode_index == 7 || mode_index == 9
        || mode_index == 16 {
        reader.read_u8(5)
    } else {
        0
    };
    let data = if mode_index == 8 {
        let r = reader.read_u8(8);
        let g = reader.read_u8(8);
        let b = reader.read_u8(8);
        let a = reader.read_u8(8);
        trans_flags.etc1d = reader.read_bool();
        let etc1i = reader.read_u8(3);
        let etc1s = reader.read_u8(2);
        let etc1r = reader.read_u8(5);
        let etc1g = reader.read_u8(5);
        let etc1b = reader.read_u8(5);
        ModeData::Mode8 { r, g, b, a, etc1i, etc1s, etc1r, etc1g, etc1b }
    } else {
        decode_planes(&mut reader, mode_index)
    };
    DecodedBlock { block_x, block_y, mode_index, trans_flags, pat, compsel, data }
}

/// The bytes of one block.
pub const BLOCK_SIZE: usize = 16;

/// The colour that the pixels of a block are given: the colour of a mode 8
/// block, and zero for a block of any other mode, whose colours this
/// library does not work out.
pub open spec fn block_color(data: ModeDataView) -> Color32 {
    match data {
        ModeDataView::Mode8 { r, g, b, a, .. } => Color32 { r, g, b, a },
        _ => Color32::zero(),
    }
}

/// The sixteen pixels of a block, row by row.
pub fn block_to_rgba(block: &DecodedBlock) -> (rgba: [Color32; 16])
    ensures
        forall|i: int| 0 <= i < 16 ==> rgba@[i] == block_color(block@.data),
{
    match block.data {
        ModeData::Mode8 { r, g, b, a, .. } => {
            let color = Color32::new(r, g, b, a);
            [color;16]
        },
        _ => {
            let color = Color32::default();
            [color;16]
        },
    }
}

/// Why a slice could not be decoded.
#[derive(Clone, Copy, Debug, PartialEq, Eq)]
pub enum DecodeError {
    /// The bytes given are fewer than the blocks of the grid take.
    NotEnoughBytes,
}

impl DecodeError {
    /// The error in words.
    pub fn message(&self) -> (message: &'static str)
        ensures
            message@ == "Not enough bytes for all blocks"@,
    {
        "Not enough bytes for all blocks"
    }
}

/// The bytes of block `index` of a slice, the blocks being counted row by
/// row.
pub open spec fn block_bytes(bytes: Seq<u8>, index: nat) -> Seq<u8> {
    bytes.subrange(BLOCK_SIZE * index, BLOCK_SIZE * index + BLOCK_SIZE)
}

/// The bytes that a grid of blocks takes.
pub open spec fn slice_len(num_blocks_x: nat, num_blocks_y: nat) -> nat {
    BLOCK_SIZE as nat * num_blocks_x * num_blocks_y
}

/// The blocks of a slice, row by row and from left to right within a row.
pub open spec fn slice_blocks(bytes: Seq<u8>, num_blocks_x: nat, num_blocks_y: nat) -> Seq<
    DecodedBlockView,
> {
    Seq::new(
        num_blocks_x * num_blocks_y,
        |index: int|
            block_at(
                (index % num_blocks_x as int) as u32,
                (index / num_blocks_x as int) as u32,
                block_bytes(bytes, index as nat),
            ),
    )
}

/// The colour of the pixel in column `x` and row `y` of the picture that a
/// slice holds.
pub open spec fn pixel_at(bytes: Seq<u8>, num_blocks_x: nat, x: nat, y: nat) -> Color32 {
    let block_x = x / 4;
    let block_y = y / 4;
    block_color(
        block_at(
            block_x as u32,
            block_y as u32,
            block_bytes(bytes, block_y * num_blocks_x + block_x),
        ).data,
    )
}

/// Whether `image` is the picture that a slice holds: four pixels across
/// and down for every block, the rows one after the other from the top, and
/// every pixel of the colour of its block.
pub open spec fn shows_slice(
    image: Image<Color32>,
    bytes: Seq<u8>,
    num_blocks_x: nat,
    num_blocks_y: nat,
) -> bool {
    &&& image.w == 4 * num_blocks_x
    &&& image.h == 4 * num_blocks_y
    &&& image.stride == 4 * num_blocks_x
    &&& !image.y_flipped
    &&& image.data@.len() == 16 * num_blocks_x * num_blocks_y
    &&& forall|x: nat, y: nat|
        x < 4 * num_blocks_x && y < 4 * num_blocks_y ==> image.data@[(y * (4 * num_blocks_x)
            + x) as int] == #[trigger] pixel_at(bytes, num_blocks_x, x, y)
}

/// In a grid `width` wide, the cell in column `x` of row `y` is cell
/// `y * width + x`, and the other way round.
pub proof fn lemma_grid_index(width: int, height: int, x: int, y: int)
    requires
        0 <= x < width,
        0 <= y < height,
    ensures
        0 <= y * width + x < width * height,
        (y * width + x) % width == x,
        (y * width + x) / width == y,
        (y + 1) * width == y * width + width,
{
    lemma_fundamental_div_mod_converse(y * width + x, width, y, x);
    assert(y * width + x < width * height) by (nonlinear_arith)
        requires
            0 <= x < width,
            0 <= y < height,
    ;
    assert(0 <= y * width) by (nonlinear_arith)
        requires
            0 <= y,
            0 <= width,
    ;
    assert((y + 1) * width == y * width + width) by (nonlinear_arith);
}

/// The block in column `x` of row `y` comes after the `y * width + x` blocks
/// before it.
proof fn lemma_slice_blocks_step(bytes: Seq<u8>, width: nat, height: nat, x: nat, y: nat)
    requires
        x < width <= u16::MAX,
        y < height <= u16::MAX,
    ensures
        y * width + x < slice_blocks(bytes, width, height).len(),
        slice_blocks(bytes, width, height).take((y * width + x + 1) as int) == slice_blocks(
            bytes,
            width,
            height,
        ).take((y * width + x) as int).push(
            block_at(x as u32, y as u32, block_bytes(bytes, y * width + x)),
        ),
{
    lemma_grid_index(width as int, height as int, x as int, y as int);
    let blocks = slice_blocks(bytes, width, height);
    let index = (y * width + x) as int;
    assert(blocks[index] == block_at(x as u32, y as u32, block_bytes(bytes, index as nat)));
    assert(blocks.take(index + 1) =~= blocks.take(index).push(blocks[index]));
}

/// The decoder of UASTC slices.
#[derive(Clone, Copy, Debug)]
pub struct Decoder {}

impl Decoder {
    /// The decoder for the slices of a file. It keeps nothing of the file:
    /// every table it works with is a constant.
    pub fn from_file_bytes(bytes: &[u8]) -> (decoder: Result<Decoder, DecodeError>)
        ensures
            decoder == Ok::<Decoder, DecodeError>(Decoder {  }),
    {
        Ok(Decoder {  })
    }

    /// Decodes the blocks of a slice and hands them to `sink`, row by row
    /// and from left to right within a row. Where `bytes` is too short for
    /// the grid, nothing is decoded and `sink` gets no block.
    pub fn decode_blocks<S: BlockSink>(
        &self,
        bytes: &[u8],
        num_blocks_x: u16,
        num_blocks_y: u16,
        sink: &mut S,
    ) -> (outcome: Result<(), DecodeError>)
        requires
            old(sink).ready(),
        ensures
            final(sink).ready(),
            bytes@.len() < slice_len(num_blocks_x as nat, num_blocks_y as nat) ==> outcome == Err::<
                (),
                DecodeError,
            >(DecodeError::NotEnoughBytes) && final(sink).received() == old(sink).received(),
            bytes@.len() >= slice_len(num_blocks_x as nat, num_blocks_y as nat) ==> outcome == Ok::<
                (),
                DecodeError,
            >(()) && final(sink).received() == old(sink).received() + slice_blocks(
                bytes@,
                num_blocks_x as nat,
                num_blocks_y as nat,
            ),
    {
        let ghost before = sink.received();
        let ghost width = num_blocks_x as nat;
        let ghost height = num_blocks_y as nat;
        let ghost total = width * height;
        let ghost blocks = slice_blocks(bytes@, width, height);
        proof {
            assert(total <= 0xffff * 0xffff) by (nonlinear_arith)
                requires
                    total == width * height,
                    width <= 0xffff,
                    height <= 0xffff,
            ;
            assert(BLOCK_SIZE as nat * width * height == 16 * total) by (nonlinear_arith)
                requires
                    total == width * height,
            ;
        }
        let needed: u64 = 16 * (num_blocks_x as u64 * num_blocks_y as u64);
        if (bytes.len() as u64) < needed {
            return Err(DecodeError::NotEnoughBytes);
        }
        let mut index: usize = 0;
        let mut block_y: u16 = 0;
        assert(sink.received() =~= before + blocks.take(0));
        while block_y < num_blocks_y
            invariant
                width == num_blocks_x,
                height == num_blocks_y,
                total == width * height,
                blocks == slice_blocks(bytes@, width, height),
                16 * total <= bytes@.len() <= usize::MAX,
                block_y <= num_blocks_y,
                index == block_y * width,
                sink.ready(),
                sink.received() == before + blocks.take(index as int),
            decreases num_blocks_y - block_y,
        {
            let mut block_x: u16 = 0;
            while block_x < num_blocks_x
                invariant
                    width == num_blocks_x,
                    height == num_blocks_y,
                    total == width * height,
                    blocks == slice_blocks(bytes@, width, height),
                    16 * total <= bytes@.len() <= usize::MAX,
                    block_y < num_blocks_y,
                    block_x <= num_blocks_x,
                    index == block_y * width + block_x,
                    sink.ready(),
                    sink.received() == before + blocks.take(index as int),
                decreases num_blocks_x - block_x,
            {
                proof {
                    lemma_grid_index(width as int, height as int, block_x as int, block_y as int);
                    lemma_slice_blocks_step(bytes@, width, height, block_x as nat, block_y as nat);
                }
                let offset = BLOCK_SIZE * index;
                let block = decode_block(
                    block_x as u32,
                    block_y as u32,
                    vstd::slice::slice_subrange(bytes, offset, offset + BLOCK_SIZE),
                );
                let ghost taken = sink.received();
                sink.accept(block);
                proof {
                    assert(before + blocks.take(index + 1) =~= taken.push(block@));
                }
                index = index + 1;
                block_x = block_x + 1;
            }
            proof {
                assert((block_y + 1) * width == block_y * width + width) by (nonlinear_arith);
            }
            block_y = block_y + 1;
        }
        proof {
            assert(index == total) by (nonlinear_arith)
                requires
                    index == block_y * width,
                    block_y == height,
                    total == width * height,
            ;
            assert(blocks.take(index as int) =~= blocks);
        }
        Ok(())
    }

    /// Decodes a slice into a picture. The pixels of a mode 8 block have
    /// its colour; those of any other block are left at zero.
    pub fn decode_to_rgba(&self, bytes: &[u8], num_blocks_x: u16, num_blocks_y: u16) -> (outcome:
        Result<Image<Color32>, DecodeError>)
        ensures
            bytes@.len() < slice_len(num_blocks_x as nat, num_blocks_y as nat) ==> (outcome matches Err(
                DecodeError::NotEnoughBytes,
            )),
            bytes@.len() >= slice_len(num_blocks_x as nat, num_blocks_y as nat) ==> (outcome matches Ok(
                image,
            ) && shows_slice(image, bytes@, num_blocks_x as nat, num_blocks_y as nat)),
    {
        let mut blocks: Vec<DecodedBlock> = Vec::new();
        match self.decode_blocks(bytes, num_blocks_x, num_blocks_y, &mut blocks) {
            Err(error) => {
                return Err(error);
            },
            Ok(()) => {},
        }
        let ghost across = num_blocks_x as nat;
        let ghost down = num_blocks_y as nat;
        let ghost expected = slice_blocks(bytes@, across, down);
        let width = num_blocks_x as usize;
        let height = num_blocks_y as usize;
        let stride = 4 * width;
        proof {
            assert(blocks.received() =~= expected);
            assert(blocks@.len() == across * down);
            assert forall|k: int| 0 <= k < blocks@.len() implies (#[trigger] blocks@[k])@
                == expected[k] by {
                assert(blocks.received()[k] == blocks@[k]@);
            }
        }
        let mut data: Vec<Color32> = Vec::new();
        let mut y: usize = 0;
        while y < 4 * height
            invariant
                across == num_blocks_x,
                down == num_blocks_y,
                width == num_blocks_x,
                height == num_blocks_y,
                stride == 4 * width,
                expected == slice_blocks(bytes@, across, down),
                blocks@.len() == across * down,
                forall|k: int| 0 <= k < blocks@.len() ==> (#[trigger] blocks@[k])@ == expected[k],
                y <= 4 * height,
                data@.len() == y * stride,
                forall|i: int|
                    0 <= i < data@.len() ==> #[trigger] data@[i] == pixel_at(
                        bytes@,
                        across,
                        (i % stride as int) as nat,
                        (i / stride as int) as nat,
                    ),
            decreases 4 * height - y,
        {
            let mut block_x: usize = 0;
            while block_x < width
                invariant
                    across == num_blocks_x,
                    down == num_blocks_y,
                    width == num_blocks_x,
                    height == num_blocks_y,
                    stride == 4 * width,
                    expected == slice_blocks(bytes@, across, down),
                    blocks@.len() == across * down,
                    forall|k: int|
                        0 <= k < blocks@.len() ==> (#[trigger] blocks@[k])@ == expected[k],
                    y < 4 * height,
                    block_x <= width,
                    data@.len() == y * stride + 4 * block_x,
                    forall|i: int|
                        0 <= i < data@.len() ==> #[trigger] data@[i] == pixel_at(
                            bytes@,
                            across,
                            (i % stride as int) as nat,
                            (i / stride as int) as nat,
                        ),
                decreases width - block_x,
            {
                proof {
                    lemma_grid_index(width as int, height as int, block_x as int, (y / 4) as int);
                    assert(blocks@.len() == blocks.len());
                }
                let index = (y / 4) * width + block_x;
                let rgba = block_to_rgba(&blocks[index]);
                let first = 4 * (y % 4);
                let mut column: usize = 0;
                while column < 4
                    invariant
                        across == num_blocks_x,
                        width == num_blocks_x,
                        height == num_blocks_y,
                        stride == 4 * width,
                        y < 4 * height,
                        block_x < width,
                        column <= 4,
                        first == 4 * (y % 4),
                        index == (y / 4) * width + block_x,
                        forall|t: int|
                            0 <= t < 16 ==> rgba@[t] == block_color(
                                block_at(
                                    block_x as u32,
                                    (y / 4) as u32,
                                    block_bytes(bytes@, index as nat),
                                ).data,
                            ),
                        data@.len() == y * stride + 4 * block_x + column,
                        forall|i: int|
                            0 <= i < data@.len() ==> #[trigger] data@[i] == pixel_at(
                                bytes@,
                                across,
                                (i % stride as int) as nat,
                                (i / stride as int) as nat,
                            ),
                    decreases 4 - column,
                {
                    proof {
                        lemma_grid_index(
                            stride as int,
                            4 * height,
                            4 * block_x + column,
                            y as int,
                        );
                    }
                    data.push(rgba[first + column]);
                    column = column + 1;
                }
                block_x = block_x + 1;
            }
            proof {
                assert((y + 1) * stride == y * stride + stride) by (nonlinear_arith);
            }
            y = y + 1;
        }
        proof {
            assert(data@.len() == 16 * across * down) by (nonlinear_arith)
                requires
                    data@.len() == y * stride,
                    y == 4 * down,
                    stride == 4 * across,
            ;
            assert forall|x: nat, y: nat| x < 4 * across && y < 4 * down implies data@[(y * (4
                * across) + x) as int] == #[trigger] pixel_at(bytes@, across, x, y) by {
                let i = y * stride + x;
                lemma_grid_index(stride as int, 4 * down as int, x as int, y as int);
                assert(y * (4 * across) + x == i) by (nonlinear_arith)
                    requires
                        stride == 4 * across,
                        i == y * stride + x,
                ;
                assert(stride * (4 * down) == 16 * across * down) by (nonlinear_arith)
                    requires
                        stride == 4 * across,
                ;
                assert(data@[i] == pixel_at(
                    bytes@,
                    across,
                    (i % stride as int) as nat,
                    (i / stride as int) as nat,
                ));
            }
        }
        Ok(
            Image {
                w: 4 * num_blocks_x as u32,
                h: 4 * num_blocks_y as u32,
                stride: 4 * num_blocks_x as u32,
                y_flipped: false,
                data,
            },
        )
    }
}

} // verus!
