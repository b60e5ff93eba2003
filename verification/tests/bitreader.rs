use uastc::bitreader::BitReaderLSB;

#[test]
fn test_bitreader() {
    let pattern = 0x5555_5555_5555_5555u64;
    for i in 0..16 {
        let xor_mask =
            ((0i16 - ((i >> 3) & 0x1)) as u16 as u64) << 3*16 |
            ((0i16 - ((i >> 2) & 0x1)) as u16 as u64) << 2*16 |
            ((0i16 - ((i >> 1) & 0x1)) as u16 as u64) << 1*16 |
            ((0i16 - ((i >> 0) & 0x1)) as u16 as u64) << 0*16;
        let data = pattern ^ xor_mask;
        let bytes = data.to_le_bytes();
        for len in 0..32 {
            for offset in 0..32 {
                let mut reader = BitReaderLSB::new(&bytes);
                let actual = reader.read(offset);
                let expected = (data & ((1u64 << offset) - 1)) as u32;
                assert_eq!(
                    actual, expected,
                    "offset value mismatch, left: {:b}, right: {:b}, off: {}, len: {}, data: {:b}",
                    actual, expected, offset, len, data
                );

                let actual = reader.read(len);
                let expected = ((data >> offset) & ((1u64 << len) - 1)) as u32;
                assert_eq!(
                    actual, expected,
                    "value mismatch, left: {:b}, right: {:b}, off: {}, len: {}, data: {:b}",
                    actual, expected, offset, len, data
                );
            }
        }
    }
}


/// Looking at bits does not move the cursor; moving does not look.
#[test]
fn test_peek_and_advance() {
    let bytes = [0xB5u8, 0x3C];
    let mut reader = BitReaderLSB::new(&bytes);
    assert_eq!(reader.position(), 0);
    assert_eq!(reader.peek(4), 0x5);
    assert_eq!(reader.peek(4), 0x5);
    assert_eq!(reader.peek(7), 0x35);
    assert_eq!(reader.position(), 0);
    reader.advance(4);
    assert_eq!(reader.position(), 4);
    assert_eq!(reader.peek(8), 0xCB);
    assert_eq!(reader.read(8), 0xCB);
    assert_eq!(reader.position(), 12);
    assert_eq!(reader.peek(0), 0);
    assert_eq!(reader.read(0), 0);
    assert_eq!(reader.position(), 12);
}

/// The first bit read is the lowest bit of the first byte, and it becomes
/// the lowest bit of the value.
#[test]
fn test_bits_come_lowest_first() {
    let bytes = [0b0000_0110u8, 0b1000_0001];
    let mut reader = BitReaderLSB::new(&bytes);
    assert!(!reader.read_bool());
    assert!(reader.read_bool());
    assert!(reader.read_bool());
    assert!(!reader.read_bool());
    reader.advance(3);
    // Bit 7 of the first byte, then bit 0 of the second.
    assert_eq!(reader.read(2), 0b10);
    assert_eq!(reader.read_u8(7), 0b100_0000);
    assert_eq!(reader.position(), 16);
}

/// Every bit at or past the end of the bytes is zero.
#[test]
fn test_bits_past_the_end_are_zero() {
    let bytes = [0xFFu8, 0xFF];
    let mut reader = BitReaderLSB::new(&bytes);
    assert_eq!(reader.peek(32), 0xFFFF);
    reader.advance(9);
    assert_eq!(reader.peek(32), 0x7F);
    assert_eq!(reader.read(7), 0x7F);
    assert_eq!(reader.read(32), 0);
    assert!(!reader.read_bool());
    assert_eq!(reader.read_u8(8), 0);
    reader.advance(1000);
    assert_eq!(reader.read(32), 0);
    assert_eq!(reader.position(), 1089);

    let mut empty = BitReaderLSB::new(&[]);
    assert_eq!(empty.read(32), 0);
    assert_eq!(empty.position(), 32);
}

/// A field of 32 bits can start at any bit of a byte.
#[test]
fn test_full_width_fields() {
    let data = 0x0123_4567_89AB_CDEF_u64;
    let bytes = data.to_le_bytes();
    for skip in 0..=32usize {
        let mut reader = BitReaderLSB::new(&bytes);
        reader.advance(skip);
        assert_eq!(reader.peek(32), (data >> skip) as u32);
        assert_eq!(reader.read(32), (data >> skip) as u32);
        assert_eq!(reader.position(), skip + 32);
    }
}

/// Reading `offset` bits and then `length` bits cuts a number into its low
/// `offset` bits and the `length` bits above them, for every pair that fits
/// in 32 bits.
#[test]
fn test_reads_slice_a_number() {
    for data in [0u64, u64::MAX, 0xAAAA_AAAA_AAAA_AAAA, 0x5555_5555_5555_5555, 0x8000_0001_F00F_1234]
    {
        let bytes = data.to_le_bytes();
        for offset in 0..=32usize {
            for length in 0..=(32 - offset) {
                let mut reader = BitReaderLSB::new(&bytes);
                assert_eq!(reader.read(offset) as u64, data % (1u64 << offset));
                assert_eq!(reader.read(length) as u64, (data >> offset) % (1u64 << length));
                assert_eq!(reader.position(), offset + length);
            }
        }
    }
}

/// Fields of up to eight bits, and single bits.
#[test]
fn test_narrow_fields() {
    let bytes = [0xA7u8, 0x01];
    for count in 0..=8usize {
        let mut reader = BitReaderLSB::new(&bytes);
        assert_eq!(reader.read_u8(count) as u32, 0xA7 % (1u32 << count));
        assert_eq!(reader.position(), count);
    }
    let mut reader = BitReaderLSB::new(&bytes);
    reader.advance(1);
    assert_eq!(reader.read_u8(8), 0xD3);
    assert!(!reader.read_bool());
}
