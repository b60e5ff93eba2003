use uastc::image::Color32;
use uastc::sink::FnSink;
use uastc::uastc::{decode_block, DecodeError, DecodedBlock, Decoder};

fn flat_block(r: u8, g: u8, b: u8, a: u8) -> [u8; 16] {
    // The code of mode 8 in five bits, then red, green, blue and alpha.
    let bits: u64 = 0x17 | (r as u64) << 5 | (g as u64) << 13 | (b as u64) << 21 | (a as u64) << 29;
    let mut bytes = [0u8; 16];
    bytes[..8].copy_from_slice(&bits.to_le_bytes());
    bytes
}

fn grid(num_blocks_x: usize, num_blocks_y: usize) -> Vec<u8> {
    let mut bytes = Vec::new();
    for index in 0..num_blocks_x * num_blocks_y {
        let k = index as u8;
        bytes.extend_from_slice(&flat_block(k, k.wrapping_mul(3), 255 - k, 16 + k));
    }
    bytes
}

/// A grid of two by two blocks needs 64 bytes: with fewer the call fails and
/// the sink gets nothing.
#[test]
fn test_grid_guard() {
    let decoder = Decoder::from_file_bytes(&[]).unwrap();
    let bytes = grid(2, 2);
    for len in [0usize, 1, 16, 48, 63] {
        let mut sink: Vec<DecodedBlock> = Vec::new();
        let outcome = decoder.decode_blocks(&bytes[..len], 2, 2, &mut sink);
        assert_eq!(outcome, Err(DecodeError::NotEnoughBytes));
        assert!(sink.is_empty());
        assert!(decoder.decode_to_rgba(&bytes[..len], 2, 2).is_err());
    }
    let mut sink: Vec<DecodedBlock> = Vec::new();
    assert_eq!(decoder.decode_blocks(&bytes, 2, 2, &mut sink), Ok(()));
    assert_eq!(sink.len(), 4);
}

/// A closure as the sink is called once for every block, in order, and not
/// at all where the bytes are too few.
#[test]
fn test_closure_sink() {
    let decoder = Decoder {};
    let bytes = grid(2, 2);
    let mut calls = 0;
    let mut sink = FnSink::new(|_block: DecodedBlock| calls += 1);
    assert_eq!(decoder.decode_blocks(&bytes[..63], 2, 2, &mut sink), Err(DecodeError::NotEnoughBytes));
    drop(sink);
    assert_eq!(calls, 0);

    let mut seen: Vec<(u32, u32)> = Vec::new();
    let mut sink = FnSink::new(|block: DecodedBlock| seen.push((block.block_x, block.block_y)));
    assert_eq!(decoder.decode_blocks(&bytes, 2, 2, &mut sink), Ok(()));
    drop(sink);
    assert_eq!(seen, vec![(0, 0), (1, 0), (0, 1), (1, 1)]);
}

/// What the sink held before stays, also when the call fails.
#[test]
fn test_sink_keeps_what_it_had() {
    let decoder = Decoder {};
    let bytes = grid(2, 1);
    let first = decode_block(9, 9, &flat_block(1, 2, 3, 4));
    let mut sink = vec![first];
    assert_eq!(decoder.decode_blocks(&bytes[..31], 2, 1, &mut sink), Err(DecodeError::NotEnoughBytes));
    assert_eq!(sink, vec![first]);
    assert_eq!(decoder.decode_blocks(&bytes, 2, 1, &mut sink), Ok(()));
    assert_eq!(sink.len(), 3);
    assert_eq!(sink[0], first);
}

/// The blocks come row by row, each with its column and row, each decoded
/// from its own sixteen bytes.
#[test]
fn test_blocks_come_in_raster_order() {
    let decoder = Decoder {};
    let bytes = grid(3, 2);
    let mut sink: Vec<DecodedBlock> = Vec::new();
    assert_eq!(decoder.decode_blocks(&bytes, 3, 2, &mut sink), Ok(()));
    assert_eq!(sink.len(), 6);
    for (index, block) in sink.iter().enumerate() {
        assert_eq!(block.block_x as usize, index % 3);
        assert_eq!(block.block_y as usize, index / 3);
        let own = &bytes[16 * index..16 * index + 16];
        assert_eq!(*block, decode_block(block.block_x, block.block_y, own));
    }
}

/// Bytes after the last block are not looked at, and an empty grid needs no
/// bytes.
#[test]
fn test_spare_bytes_and_empty_grids() {
    let decoder = Decoder {};
    let mut bytes = grid(2, 2);
    bytes.extend_from_slice(&[0xEE; 40]);
    let mut sink: Vec<DecodedBlock> = Vec::new();
    assert_eq!(decoder.decode_blocks(&bytes, 2, 2, &mut sink), Ok(()));
    assert_eq!(sink.len(), 4);
    for (nx, ny) in [(0u16, 0u16), (0, 5), (5, 0)] {
        let mut sink: Vec<DecodedBlock> = Vec::new();
        assert_eq!(decoder.decode_blocks(&[], nx, ny, &mut sink), Ok(()));
        assert!(sink.is_empty());
        let image = decoder.decode_to_rgba(&[], nx, ny).unwrap();
        assert_eq!((image.w, image.h, image.stride), (4 * nx as u32, 4 * ny as u32, 4 * nx as u32));
        assert!(image.data.is_empty());
    }
}

/// The largest grid overflows no count: it just needs more bytes than there
/// are.
#[test]
fn test_largest_grid_needs_bytes() {
    let decoder = Decoder {};
    let bytes = grid(2, 2);
    let mut sink: Vec<DecodedBlock> = Vec::new();
    let outcome = decoder.decode_blocks(&bytes, u16::MAX, u16::MAX, &mut sink);
    assert_eq!(outcome, Err(DecodeError::NotEnoughBytes));
    assert!(sink.is_empty());
}

/// Every block of mode 8 fills its four by four pixels with its colour.
#[test]
fn test_picture_of_flat_blocks() {
    let decoder = Decoder {};
    let bytes = grid(3, 2);
    let image = decoder.decode_to_rgba(&bytes, 3, 2).unwrap();
    assert_eq!((image.w, image.h, image.stride, image.y_flipped), (12, 8, 12, false));
    assert_eq!(image.data.len(), 96);
    for y in 0..8usize {
        for x in 0..12usize {
            let k = ((y / 4) * 3 + x / 4) as u8;
            let expected = Color32::new(k, k.wrapping_mul(3), 255 - k, 16 + k);
            assert_eq!(image.data[y * 12 + x], expected, "pixel {} {}", x, y);
        }
    }
}

/// The pixels of a block of any other mode are left at zero.
#[test]
fn test_picture_of_other_blocks() {
    let decoder = Decoder {};
    let mut bytes = grid(2, 1);
    // A block of mode 0 and nothing else.
    bytes[16..32].copy_from_slice(&[0xF1, 0xF0, 0x18, 0x8F, 0xE4, 0x6B, 0x3C, 0x3A, 0x90, 0xFB, 0x89, 0x5D, 0x56, 0x82, 0x9B, 0x6C]);
    let image = decoder.decode_to_rgba(&bytes, 2, 1).unwrap();
    for y in 0..4usize {
        for x in 0..8usize {
            let expected = if x < 4 { Color32::new(0, 0, 255, 16) } else { Color32::default() };
            assert_eq!(image.data[y * 8 + x], expected);
        }
    }
    assert_eq!(Color32::default(), Color32::new(0, 0, 0, 0));
}

/// The error in words.
#[test]
fn test_error_message() {
    assert_eq!(DecodeError::NotEnoughBytes.message(), "Not enough bytes for all blocks");
}
