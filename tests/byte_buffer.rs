use heatshrink_lz::ByteBuffer;

#[test]
fn test_add_bit_only() {
    let mut buffer = ByteBuffer::new();

    // Add 8 bits to fill the buffer and return a byte
    assert_eq!(buffer.add_bit(true), None); // 1
    assert_eq!(buffer.add_bit(false), None); // 10
    assert_eq!(buffer.add_bit(true), None); // 101
    assert_eq!(buffer.add_bit(true), None); // 1011
    assert_eq!(buffer.add_bit(false), None); // 10110
    assert_eq!(buffer.add_bit(false), None); // 101100
    assert_eq!(buffer.add_bit(true), None); // 1011001
    let result = buffer.add_bit(false);
    assert_eq!(result, Some(0b10110010), "{:08b}", result.unwrap()); // 10110010

    // No further bits added yet, so no new byte should be returned
    assert_eq!(buffer.add_bit(true), None); // 1...
}

#[test]
fn test_add_byte_only() {
    let mut buffer = ByteBuffer::new();

    // Add a full byte, which should immediately return it
    assert_eq!(buffer.add_byte(0b10101010), Some(0b10101010));

    // Add another byte to check sequential behavior
    assert_eq!(buffer.add_byte(0b11110000), Some(0b11110000));
}

#[test]
fn test_mix_bit_and_byte() {
    let mut buffer = ByteBuffer::new();

    // Add 1 bit, followed by a byte
    assert_eq!(buffer.add_bit(true), None); // 1

    let result = buffer.add_byte(0b01010101);
    assert_eq!(result, Some(0b10101010), "{:08b}", result.unwrap()); // 10101010 (1 from bit, 7 from byte)

    // Add more bits to verify the remaining byte (bits shifted down)
    assert_eq!(buffer.add_bit(true), None); // 11
    assert_eq!(buffer.add_bit(false), None); // 110
    assert_eq!(buffer.add_bit(true), None); // 1101
    assert_eq!(buffer.add_bit(true), None); // 11011
    assert_eq!(buffer.add_bit(false), None); // 110110
    assert_eq!(buffer.add_bit(true), None); // 1101101
    let result = buffer.add_bit(false);
    assert_eq!(result, Some(0b11011010), "{:08b}", result.unwrap()); // 11011010
}

#[test]
fn last_byte_pads_with_zeros() {
    let mut buffer = ByteBuffer::new();
    assert_eq!(buffer.add_bit(true), None);
    assert_eq!(buffer.add_bit(true), None);
    assert_eq!(buffer.add_bit(false), None);
    assert_eq!(buffer.add_bit(true), None);
    assert_eq!(buffer.last_byte(), Some(0b1101_0000));
    // nothing is left afterwards
    assert_eq!(buffer.last_byte(), None);
    assert_eq!(buffer.add_byte(0x5A), Some(0x5A));
}

#[test]
fn last_byte_of_empty_buffer() {
    let mut buffer = ByteBuffer::new();
    assert_eq!(buffer.last_byte(), None);
}

#[test]
fn pack_bits_pads_to_a_byte() {
    let bits = [true, false, true, true, false, false, true, false, true, true, true];
    assert_eq!(ByteBuffer::pack_bits(&bits), vec![0b1011_0010, 0b1110_0000]);
    assert_eq!(ByteBuffer::pack_bits(&bits[..8]), vec![0b1011_0010]);
    assert_eq!(ByteBuffer::pack_bits(&[]), Vec::<u8>::new());
}

#[test]
fn pack_bits_keeps_every_bit() {
    let mut bits = Vec::new();
    for i in 0..61usize {
        bits.push((i * 7 + i / 3) % 5 < 2);
    }
    let packed = ByteBuffer::pack_bits(&bits);
    assert_eq!(packed.len(), 8);
    for (i, bit) in bits.iter().enumerate() {
        assert_eq!((packed[i / 8] >> (7 - i % 8)) & 1 == 1, *bit);
    }
    for i in bits.len()..64 {
        assert_eq!((packed[i / 8] >> (7 - i % 8)) & 1, 0);
    }
}
