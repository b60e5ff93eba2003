use uastc::bitreader::BitReaderLSB;
use uastc::weights::{
    decode_weights, unquant_weights, WEIGHT_LUT1, WEIGHT_LUT2, WEIGHT_LUT3, WEIGHT_LUT4,
    WEIGHT_LUT5,
};

fn lut(weight_bits: u8) -> &'static [u8] {
    match weight_bits {
        1 => &WEIGHT_LUT1,
        2 => &WEIGHT_LUT2,
        3 => &WEIGHT_LUT3,
        4 => &WEIGHT_LUT4,
        5 => &WEIGHT_LUT5,
        _ => unreachable!(),
    }
}

/// Each table has an entry for every index, starts at 0, ends at 64 and
/// never falls.
#[test]
fn test_weight_tables_rise() {
    for weight_bits in 1..=5u8 {
        let table = lut(weight_bits);
        assert_eq!(table.len(), 1 << weight_bits);
        assert_eq!(table[0], 0);
        assert_eq!(table[table.len() - 1], 64);
        assert!(table.windows(2).all(|pair| pair[0] <= pair[1]));
    }
}

/// Every slot is replaced by the entry of the table that it indexes.
#[test]
fn test_unquant_weights_looks_up_every_slot() {
    for weight_bits in 1..=5u8 {
        let table = lut(weight_bits);
        let mut weights = [0u8; 32];
        for (slot, weight) in weights.iter_mut().enumerate() {
            *weight = (slot % table.len()) as u8;
        }
        unquant_weights(&mut weights, weight_bits);
        for (slot, weight) in weights.iter().enumerate() {
            assert_eq!(*weight, table[slot % table.len()]);
        }
    }
    let mut weights = [0u8; 32];
    weights[1] = 1;
    weights[2] = 2;
    weights[3] = 3;
    unquant_weights(&mut weights, 2);
    assert_eq!(&weights[..4], &[0, 21, 43, 64]);
}

fn check_weights(
    weight_bits: u8,
    plane_count: usize,
    skip: usize,
    bytes: &[u8],
    expected: &[u8; 32],
    end: usize,
) {
    let mut reader = BitReaderLSB::new(bytes);
    reader.advance(skip);
    let mut weights = [0u8; 32];
    decode_weights(&mut reader, weight_bits, plane_count, &mut weights);
    assert_eq!(&weights, expected, "width {} planes {}", weight_bits, plane_count);
    assert_eq!(reader.position(), end);
    assert_eq!(end - skip, plane_count * (15 * weight_bits as usize - 1));
}

/// Stored weights of every width, for no plane, one and two, from bytes
/// picked at random: each line gives the width, the planes, the bits skipped
/// first, the bytes, the 32 slots, and where the cursor ends.
#[test]
fn test_decode_weights_vectors() {
    check_weights(1, 0, 7, &[0x89, 0x64, 0x4A, 0x53, 0x38, 0xEC, 0x0D, 0x2C, 0xA1, 0x16, 0xA4, 0x70, 0xEE, 0xE9, 0x26, 0x3E, 0x09, 0x7A, 0xB5, 0x4D, 0xAE, 0xC7, 0x45, 0x68], &[0, 0, 0, 0, 0, 0, 0, 0, 0, 0, 0, 0, 0, 0, 0, 0, 0, 0, 0, 0, 0, 0, 0, 0, 0, 0, 0, 0, 0, 0, 0, 0], 7);
    check_weights(1, 1, 3, &[0x20, 0xB7, 0xB0, 0x68, 0x54, 0xFB, 0xD8, 0x8B, 0xE0, 0x5C, 0x62, 0xDA, 0x19, 0x5A, 0x74, 0x2A, 0xF2, 0x89, 0x70, 0xFD, 0xBC, 0x77, 0x88, 0x14], &[0, 0, 0, 1, 0, 0, 1, 1, 1, 0, 1, 1, 0, 1, 0, 0, 0, 0, 0, 0, 0, 0, 0, 0, 0, 0, 0, 0, 0, 0, 0, 0], 17);
    check_weights(1, 2, 6, &[0xB9, 0xA4, 0xD0, 0x77, 0x5E, 0xAB, 0x03, 0xCC, 0x81, 0x93, 0xE6, 0xC7, 0xC2, 0x5A, 0x27, 0x5C, 0xA9, 0xEE, 0x77, 0x16, 0x0A, 0x52, 0xBB, 0xB6], &[0, 0, 1, 0, 0, 1, 0, 0, 1, 0, 1, 0, 0, 0, 0, 0, 0, 1, 0, 1, 1, 1, 1, 1, 0, 1, 1, 1, 0, 0, 1, 0], 34);
    check_weights(2, 0, 4, &[0x32, 0x5C, 0x6B, 0x6A, 0xC8, 0x04, 0xFC, 0x0C, 0x04, 0xE8, 0xFA, 0x51, 0x45, 0x86, 0x43, 0xEB, 0xF0, 0x4D, 0x7A, 0x5F, 0xF5, 0x8F, 0x15, 0x84], &[0, 0, 0, 0, 0, 0, 0, 0, 0, 0, 0, 0, 0, 0, 0, 0, 0, 0, 0, 0, 0, 0, 0, 0, 0, 0, 0, 0, 0, 0, 0, 0], 4);
    check_weights(2, 1, 2, &[0x38, 0x52, 0x23, 0x2D, 0xE0, 0x48, 0xE7, 0x3A, 0x42, 0xDD, 0x06, 0xC7, 0x9E, 0x16, 0x8F, 0x93, 0xCC, 0xF8, 0xAE, 0xE9, 0x3C, 0x99, 0x22, 0x96], &[0, 3, 1, 0, 1, 2, 2, 2, 1, 0, 1, 2, 2, 1, 1, 0, 0, 0, 0, 0, 0, 0, 0, 0, 0, 0, 0, 0, 0, 0, 0, 0], 31);
    check_weights(2, 2, 2, &[0x8C, 0xF6, 0x65, 0xD6, 0x37, 0xFD, 0x41, 0x1F, 0x1C, 0xDB, 0xB5, 0x65, 0xFD, 0xFD, 0x94, 0x90, 0xFB, 0xDB, 0x86, 0x9C, 0xE6, 0x17, 0x7B, 0xF5], &[1, 1, 0, 1, 3, 2, 3, 3, 2, 0, 3, 0, 3, 2, 2, 0, 1, 3, 1, 3, 0, 1, 3, 3, 3, 1, 0, 0, 1, 3, 3, 0], 60);
    check_weights(3, 0, 1, &[0x23, 0xFA, 0x7D, 0x87, 0x43, 0xB5, 0x05, 0x9D, 0x0C, 0xC6, 0x23, 0x3B, 0x38, 0xF4, 0xBD, 0x39, 0xE3, 0x99, 0x96, 0x3C, 0x42, 0xC2, 0x5F, 0x1F], &[0, 0, 0, 0, 0, 0, 0, 0, 0, 0, 0, 0, 0, 0, 0, 0, 0, 0, 0, 0, 0, 0, 0, 0, 0, 0, 0, 0, 0, 0, 0, 0], 1);
    check_weights(3, 1, 6, &[0x2E, 0x5F, 0xB1, 0x58, 0x2B, 0xE3, 0x36, 0xF2, 0x40, 0xBC, 0x51, 0xDB, 0x57, 0xCD, 0x29, 0xBC, 0xF1, 0xA2, 0x79, 0x3A, 0xF3, 0x03, 0xBE, 0xF4], &[0, 7, 3, 5, 0, 3, 1, 6, 2, 3, 5, 4, 1, 6, 5, 0, 0, 0, 0, 0, 0, 0, 0, 0, 0, 0, 0, 0, 0, 0, 0, 0], 50);
    check_weights(3, 2, 1, &[0xAF, 0x73, 0x1B, 0x64, 0x7B, 0x60, 0xA1, 0x6F, 0xA2, 0x8B, 0xB3, 0x9C, 0x9E, 0x16, 0xBF, 0x0F, 0x98, 0xFF, 0x93, 0xD6, 0x9B, 0x07, 0xCC, 0x1C], &[3, 5, 6, 1, 7, 6, 6, 0, 4, 4, 5, 5, 7, 0, 0, 0, 3, 2, 0, 5, 7, 5, 1, 1, 2, 7, 2, 4, 3, 6, 2, 0], 89);
    check_weights(4, 0, 4, &[0x05, 0x28, 0x27, 0xB8, 0x24, 0x5B, 0xD3, 0xA1, 0x40, 0xE5, 0x70, 0x4B, 0xB3, 0x79, 0xBB, 0x9B, 0xF1, 0xD2, 0x8B, 0x74, 0x44, 0x98, 0x78, 0xA3], &[0, 0, 0, 0, 0, 0, 0, 0, 0, 0, 0, 0, 0, 0, 0, 0, 0, 0, 0, 0, 0, 0, 0, 0, 0, 0, 0, 0, 0, 0, 0, 0], 4);
    check_weights(4, 1, 5, &[0x67, 0xD4, 0x1F, 0x2F, 0x43, 0x16, 0x7D, 0x01, 0x77, 0x6D, 0xF6, 0x11, 0x41, 0x8E, 0x39, 0x53, 0x0C, 0x3D, 0x83, 0x42, 0xA7, 0x4E, 0x00, 0x77], &[3, 4, 13, 15, 1, 15, 2, 3, 4, 6, 1, 13, 7, 1, 0, 0, 0, 0, 0, 0, 0, 0, 0, 0, 0, 0, 0, 0, 0, 0, 0, 0], 64);
    check_weights(4, 2, 4, &[0xA8, 0x26, 0x56, 0xD7, 0x32, 0x27, 0xEB, 0xA7, 0x67, 0xB3, 0xF1, 0xD1, 0x64, 0x8E, 0xA5, 0xE1, 0x9C, 0xBD, 0xCA, 0xFF, 0xF5, 0x19, 0x5A, 0xC7], &[2, 13, 4, 12, 10, 14, 10, 5, 6, 14, 4, 6, 13, 15, 4, 0, 7, 9, 13, 12, 6, 12, 7, 4, 3, 9, 9, 3, 6, 9, 6, 0], 122);
    check_weights(5, 0, 1, &[0x0B, 0x0B, 0xF4, 0x71, 0x61, 0xB3, 0xA8, 0x45, 0xC6, 0xC7, 0x20, 0xA2, 0x81, 0x6F, 0xC2, 0xC6, 0x0C, 0xB8, 0xD9, 0xD4, 0x9D, 0x69, 0xDB, 0xD0], &[0, 0, 0, 0, 0, 0, 0, 0, 0, 0, 0, 0, 0, 0, 0, 0, 0, 0, 0, 0, 0, 0, 0, 0, 0, 0, 0, 0, 0, 0, 0, 0], 1);
    check_weights(5, 1, 7, &[0x2C, 0xF7, 0x92, 0x15, 0xC7, 0xDC, 0xE9, 0x09, 0xE7, 0x53, 0x16, 0x8A, 0x91, 0x67, 0x00, 0xD4, 0xAC, 0xCF, 0x7D, 0x4F, 0x11, 0xF0, 0x86, 0x23], &[14, 30, 18, 12, 5, 14, 12, 14, 7, 29, 9, 24, 25, 7, 5, 0, 0, 0, 0, 0, 0, 0, 0, 0, 0, 0, 0, 0, 0, 0, 0, 0], 81);
    check_weights(5, 2, 6, &[0x2C, 0xDF, 0xAB, 0xF2, 0xE1, 0x4C, 0x09, 0xAC, 0x62, 0xEA, 0x65, 0xDE, 0x9F, 0xB0, 0x08, 0x7D, 0x00, 0x18, 0x3D, 0x2B, 0x57, 0x88, 0x27, 0xF2], &[12, 23, 23, 10, 25, 7, 28, 12, 10, 2, 24, 10, 17, 9, 29, 0, 5, 6, 15, 31, 19, 16, 5, 2, 26, 7, 0, 0, 3, 29, 25, 0], 154);
}

/// The first weight of a plane is one bit narrower than the others, and the
/// last slot of a plane is not read.
#[test]
fn test_first_weight_is_narrower() {
    let bytes = [0xFFu8; 24];
    for weight_bits in 1..=5u8 {
        let mut reader = BitReaderLSB::new(&bytes);
        let mut weights = [0xAAu8; 32];
        decode_weights(&mut reader, weight_bits, 2, &mut weights);
        let full = (1u8 << weight_bits) - 1;
        for plane in 0..2 {
            assert_eq!(weights[16 * plane], full >> 1);
            for slot in 1..15 {
                assert_eq!(weights[16 * plane + slot], full);
            }
            assert_eq!(weights[16 * plane + 15], 0xAA);
        }
    }
}

/// With one plane the slots of the second plane are left as they are.
#[test]
fn test_one_plane_leaves_the_second() {
    let bytes = [0x5Au8; 16];
    let mut reader = BitReaderLSB::new(&bytes);
    let mut weights = [7u8; 32];
    decode_weights(&mut reader, 3, 1, &mut weights);
    assert!(weights[15..].iter().all(|&w| w == 7));
    assert_eq!(reader.position(), 44);
}
