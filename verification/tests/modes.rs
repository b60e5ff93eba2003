use uastc::bitreader::BitReaderLSB;
use uastc::uastc::{
    decode_trans_flags, resolve_mode, Mode, TranscodingFlags, MODES, MODE_LUT, RESERVED_MODE,
};

/// A buffer that holds the code of a mode in its lowest bits resolves to
/// that mode, and the cursor moves past the code and no further, whatever
/// the bits above the code are.
#[test]
fn test_mode_codes_round_trip() {
    for index in 0..=18usize {
        let mode = Mode::get(index);
        for filler in [0x00u8, 0xFF, 0xA5, 0x5A] {
            let mut bytes = [filler; 16];
            let code = mode.code as u32 | (filler as u32) << mode.code_size;
            bytes[0] = code as u8;
            let mut reader = BitReaderLSB::new(&bytes);
            assert_eq!(MODE_LUT[reader.peek(7) as usize] as usize, index);
            assert_eq!(resolve_mode(&mut reader), Some(index));
            assert_eq!(reader.position(), mode.code_size as usize);
        }
    }
}

/// The code of a mode resolves the same wherever the cursor stands.
#[test]
fn test_mode_codes_round_trip_at_any_bit() {
    for index in 0..=18usize {
        let mode = Mode::get(index);
        for skip in 0..=9usize {
            let bits = (mode.code as u32) << skip;
            let bytes = bits.to_le_bytes();
            let mut reader = BitReaderLSB::new(&bytes);
            reader.advance(skip);
            assert_eq!(resolve_mode(&mut reader), Some(index));
            assert_eq!(reader.position(), skip + mode.code_size as usize);
        }
    }
}

/// The reserved mode resolves to no mode, and the cursor stays.
#[test]
fn test_reserved_mode_resolves_to_none() {
    let bytes = [0x45u8, 0xFF];
    let mut reader = BitReaderLSB::new(&bytes);
    assert_eq!(resolve_mode(&mut reader), None);
    assert_eq!(reader.position(), 0);
    assert_eq!(MODE_LUT[0x45] as usize, RESERVED_MODE);
    let bytes = [0xC5u8];
    let mut reader = BitReaderLSB::new(&bytes);
    assert_eq!(resolve_mode(&mut reader), None);
}

/// Every entry of the lookup table names the one mode whose code the entry
/// index begins with.
#[test]
fn test_lookup_table_matches_the_codes() {
    for code in 0..128usize {
        let index = MODE_LUT[code] as usize;
        assert!(index < 20);
        for (other, row) in MODES.iter().enumerate() {
            let begins = code % (1 << row[1]) == row[0] as usize;
            assert_eq!(begins, other == index, "code {} mode {}", code, other);
        }
    }
}

/// The rows of the mode table.
#[test]
fn test_mode_table() {
    let mode = Mode::get(0);
    assert_eq!(
        (mode.code, mode.code_size, mode.block_size, mode.endpoint_range_index),
        (0x01, 4, 128, 19)
    );
    assert_eq!((mode.endpoint_count, mode.weight_bits, mode.plane_count), (6, 4, 1));
    let mode = Mode::get(17);
    assert_eq!(
        (mode.code, mode.code_size, mode.block_size, mode.endpoint_range_index),
        (0x25, 6, 123, 20)
    );
    assert_eq!((mode.endpoint_count, mode.weight_bits, mode.plane_count), (4, 2, 2));
    let reserved = Mode::get(RESERVED_MODE);
    assert_eq!((reserved.code, reserved.code_size), (0x45, 7));
    assert_eq!((reserved.endpoint_count, reserved.weight_bits, reserved.plane_count), (0, 0, 0));
    for index in 0..20 {
        let mode = Mode::get(index);
        assert!(2 <= mode.code_size && mode.code_size <= 7);
        assert!(mode.endpoint_count <= 18);
        assert!(mode.plane_count <= 2);
    }
}

/// Which flags a mode stores, and in which order: all bits set gives every
/// stored flag its largest value and leaves the others at zero.
#[test]
fn test_flags_by_mode() {
    let bytes = [0xFFu8; 8];
    for index in 0..19usize {
        let mut reader = BitReaderLSB::new(&bytes);
        let flags = decode_trans_flags(&mut reader, index);
        let bias = index < 10 || index > 12;
        let tm = 9 <= index && index <= 17;
        let expected = if index == 8 {
            TranscodingFlags::default()
        } else {
            TranscodingFlags {
                bc1h0: true,
                bc1h1: bias,
                etc1f: true,
                etc1d: true,
                etc1i0: 7,
                etc1i1: 7,
                etc1bias: if bias { 31 } else { 0 },
                etc2tm: if tm { 255 } else { 0 },
            }
        };
        assert_eq!(flags, expected, "mode {}", index);
        let bits = if index == 8 { 0 } else { 9 + if bias { 6 } else { 0 } + if tm { 8 } else { 0 } };
        assert_eq!(reader.position(), bits, "mode {}", index);
    }
}

/// The flags in their order, each with a value of its own.
#[test]
fn test_flags_in_order() {
    // bc1h0 = 1, bc1h1 = 0, etc1f = 0, etc1d = 1, etc1i0 = 5, etc1i1 = 2,
    // etc1bias = 19, etc2tm = 0xC3, for mode 9, which stores them all.
    let bits: u32 = 1 | 0 << 1 | 0 << 2 | 1 << 3 | 5 << 4 | 2 << 7 | 19 << 10 | 0xC3 << 15;
    let bytes = bits.to_le_bytes();
    let mut reader = BitReaderLSB::new(&bytes);
    let flags = decode_trans_flags(&mut reader, 9);
    let expected = TranscodingFlags {
        bc1h0: true,
        bc1h1: false,
        etc1f: false,
        etc1d: true,
        etc1i0: 5,
        etc1i1: 2,
        etc1bias: 19,
        etc2tm: 0xC3,
    };
    assert_eq!(flags, expected);
    assert_eq!(reader.position(), 23);

    // Mode 11 stores neither bc1h1 nor etc1bias.
    let bits: u32 = 1 | 1 << 1 | 0 << 2 | 3 << 3 | 6 << 6 | 0x81 << 9;
    let bytes = bits.to_le_bytes();
    let mut reader = BitReaderLSB::new(&bytes);
    let flags = decode_trans_flags(&mut reader, 11);
    let expected = TranscodingFlags {
        bc1h0: true,
        bc1h1: false,
        etc1f: true,
        etc1d: false,
        etc1i0: 3,
        etc1i1: 6,
        etc1bias: 0,
        etc2tm: 0x81,
    };
    assert_eq!(flags, expected);
    assert_eq!(reader.position(), 17);
}

/// The mode of all zeros is no mode of the table.
#[test]
fn test_default_mode() {
    let mode = Mode::default();
    assert_eq!((mode.code, mode.code_size, mode.block_size), (0, 0, 0));
    assert_eq!(mode.endpoint_range_index, 0);
    assert_eq!((mode.endpoint_count, mode.weight_bits, mode.plane_count), (0, 0, 0));
    for index in 0..20 {
        assert_ne!(Mode::get(index), mode);
    }
}
