use heatshrink_lz::OffsetReader;

#[test]
fn mod_all_bits() {
    let first: u8 = 0b10101010;
    let second: u8 = 0b11001100;

    let input = vec![first, second];

    let mut or = OffsetReader::new(input);

    let bits = [
        or.next_bit(),
        or.next_bit(),
        or.next_bit(),
        or.next_bit(),
        or.next_bit(),
        or.next_bit(),
        or.next_bit(),
        or.next_bit(),
        or.next_bit(),
        or.next_bit(),
        or.next_bit(),
        or.next_bit(),
        or.next_bit(),
        or.next_bit(),
        or.next_bit(),
        or.next_bit(),
        or.next_bit(),
    ];
    assert_eq!(
        bits,
        [
            Some(true),
            Some(false),
            Some(true),
            Some(false),
            Some(true),
            Some(false),
            Some(true),
            Some(false),
            Some(true),
            Some(true),
            Some(false),
            Some(false),
            Some(true),
            Some(true),
            Some(false),
            Some(false),
            None
        ]
    );
}

#[test]
fn mod_no_offset_bytes() {
    let first: u8 = 0b10101010;
    let second: u8 = 0b11001100;

    let input = vec![first, second];
    let mut or = OffsetReader::new(input);

    let bytes = [or.next(), or.next(), or.next()];
    assert_eq!(bytes, [Some(0b10101010), Some(0b11001100), None]);
}

#[test]
fn mod_one_bit_then_bytes() {
    let first: u8 = 0b10101010;
    let second: u8 = 0b11001100;

    let input = vec![first, second];
    let mut or = OffsetReader::new(input);

    let bit = or.next_bit();
    assert_eq!(bit, Some(true));

    let bytes = [or.next(), or.next(), or.next()];
    assert_eq!(bytes, [Some(0b01010101), Some(0b10011000), None]);
}

#[test]
fn mod_single_bytes() {
    let first: u8 = 0b10101010;
    let second: u8 = 0b11001100;

    let input = vec![first, second];
    let mut or = OffsetReader::new(input);

    let bits: [Option<bool>; 4] = [or.next_bit(), or.next_bit(), or.next_bit(), or.next_bit()];
    assert_eq!(bits, [Some(true), Some(false), Some(true), Some(false)]);

    let result = [or.next(), or.next(), or.next()];

    assert_eq!(result, [Some(0b10101100), Some(0b11000000), None]);
}

#[test]
fn owned_shifted_bytes_fill_with_zeros() {
    let input = vec![0b1011_0010u8, 0b0110_1101];
    let mut or = OffsetReader::new(input);
    for _ in 0..3 {
        or.next_bit();
    }
    assert_eq!(or.next(), Some(0b1001_0011));
    assert_eq!(or.next(), Some(0b0110_1000));
    assert_eq!(or.next(), None);
    assert_eq!(or.next_bit(), None);
}
