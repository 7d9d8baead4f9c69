use heatshrink_lz::BitsBytesIter;

/// A deterministic byte buffer of several kilobytes.
fn sample_data(len: usize) -> Vec<u8> {
    let mut state: u32 = 0x1234_5678;
    let mut out = Vec::with_capacity(len);
    for _ in 0..len {
        state = state.wrapping_mul(1_103_515_245).wrapping_add(12_345);
        out.push((state >> 16) as u8);
    }
    out
}

#[test]
fn all_bits() {
    let first: u8 = 0b10101010;
    let second: u8 = 0b11001100;

    let input = vec![first, second];

    let mut or = BitsBytesIter::new(&input);

    let bits = [
        or.next_bit(),
        or.next_bit(),
        or.next_bit(),
        or.next_bit(),
        or.next_bit(),
        or.next_bit(),
        or.next_bit(),
        or.next_bit(),
        or.next_bit(),
        or.next_bit(),
        or.next_bit(),
        or.next_bit(),
        or.next_bit(),
        or.next_bit(),
        or.next_bit(),
        or.next_bit(),
        or.next_bit(),
    ];
    assert_eq!(
        bits,
        [
            Some(true),
            Some(false),
            Some(true),
            Some(false),
            Some(true),
            Some(false),
            Some(true),
            Some(false),
            Some(true),
            Some(true),
            Some(false),
            Some(false),
            Some(true),
            Some(true),
            Some(false),
            Some(false),
            None
        ]
    );
}

#[test]
fn no_offset_bytes() {
    let first: u8 = 0b10101010;
    let second: u8 = 0b11001100;

    let input = vec![first, second];
    let mut or = BitsBytesIter::new(&input);

    let bytes = [or.next(), or.next(), or.next()];
    assert_eq!(bytes, [Some(0b10101010), Some(0b11001100), None]);
}

#[test]
fn one_bit_then_bytes() {
    let first: u8 = 0b10101010;
    let second: u8 = 0b11001100;

    let input = vec![first, second];
    let mut or = BitsBytesIter::new(&input);

    let bit = or.next_bit();
    assert_eq!(bit, Some(true));

    let bytes = [or.next(), or.next(), or.next()];
    assert_eq!(bytes, [Some(0b01010101), Some(0b10011000), None]);
}

#[test]
fn single_bytes() {
    let first: u8 = 0b10101010;
    let second: u8 = 0b11001100;

    let input = vec![first, second];
    let mut or = BitsBytesIter::new(&input);

    let bits: [Option<bool>; 4] = [or.next_bit(), or.next_bit(), or.next_bit(), or.next_bit()];
    assert_eq!(bits, [Some(true), Some(false), Some(true), Some(false)]);

    let result = [or.next(), or.next(), or.next()];

    assert_eq!(result, [Some(0b10101100), Some(0b11000000), None]);
}

#[test]
fn big_file() {
    let input = sample_data(6000);

    let mut or = BitsBytesIter::new(&input);

    let result: Vec<u8> = or.collect();

    let expected_output = sample_data(6000);
    assert_eq!(result, expected_output);
}

#[test]
fn big_file_bit_shifted() {
    let input = sample_data(6000);
    let mut or = BitsBytesIter::new(&input);

    or.next();
    for _ in 0..3 {
        or.next_bit();
    }

    or.next();

    for _ in 0..5 {
        or.next_bit();
    }

    or.next();

    let result: Vec<u8> = or.collect();

    let expected_output = sample_data(6000);
    let mut expected_output_iter = expected_output.iter();

    expected_output_iter.next();
    expected_output_iter.next();
    expected_output_iter.next();
    expected_output_iter.next();

    let modified_expected_output: Vec<u8> = expected_output_iter.map(|v| *v).collect();

    assert_eq!(result, modified_expected_output);
}

#[test]
fn bits_in_order_from_every_offset() {
    let input = vec![0b1011_0010u8, 0b0110_1101, 0b1110_0001];
    let mut expected_bits = Vec::new();
    for byte in &input {
        for k in 0..8 {
            expected_bits.push((byte >> (7 - k)) & 1 == 1);
        }
    }
    for offset in 0..8usize {
        let mut or = BitsBytesIter::new(&input);
        for _ in 0..offset {
            or.next_bit();
        }
        let mut bits = Vec::new();
        while let Some(bit) = or.next_bit() {
            bits.push(bit);
        }
        assert_eq!(bits, expected_bits[offset..].to_vec());
    }
}

#[test]
fn shifted_bytes_fill_with_zeros() {
    let input = vec![0b1011_0010u8, 0b0110_1101];
    let mut or = BitsBytesIter::new(&input);
    for _ in 0..3 {
        or.next_bit();
    }
    assert_eq!(or.next(), Some(0b1001_0011));
    assert_eq!(or.next(), Some(0b0110_1000));
    assert_eq!(or.next(), None);
    assert_eq!(or.next_bit(), None);
}

#[test]
fn empty_source_reads_nothing() {
    let input: Vec<u8> = Vec::new();
    let mut or = BitsBytesIter::new(&input);
    assert_eq!(or.next_bit(), None);
    assert_eq!(or.next(), None);
    assert_eq!(or.collect(), Vec::<u8>::new());
}
