use heatshrink_lz::{ByteBuffer, HeatShrink};

/// Text-like input: phrases that repeat, with some noise between them.
fn sample_text(len: usize) -> Vec<u8> {
    let phrases: [&[u8]; 6] = [
        b"pub fn encode(&mut self, input: &[u8]) -> Vec<u8> {\n",
        b"    let literal_byte = self.lookahead.pop_front();\n",
        b"    // the window holds the most recent bytes\n",
        b"        yield_byte!(byte_buffer.add_bit(false));\n",
        b"}\n\n",
        b"    for _ in 0..(count - 1) {\n",
    ];
    let mut state: u32 = 0xCAFE_F00D;
    let mut out = Vec::with_capacity(len);
    while out.len() < len {
        state = state.wrapping_mul(1_664_525).wrapping_add(1_013_904_223);
        let phrase = phrases[(state >> 24) as usize % phrases.len()];
        out.extend_from_slice(phrase);
        if (state >> 8) & 3 == 0 {
            out.push((state >> 16) as u8);
        }
    }
    out.truncate(len);
    out
}

fn round_trip(window_bits: usize, length_bits: usize, input: &[u8]) -> Vec<u8> {
    let mut hs = HeatShrink::new(window_bits, length_bits).unwrap();
    let encoded = hs.encode(input);
    hs.reset();
    hs.decode(&encoded)
}

#[test]
fn passthrough_bytes() {
    let first: u8 = 0b11000000;
    let second: u8 = 0b11100000;
    let input: Vec<u8> = vec![first, second];
    let mut hs = HeatShrink::new(8, 4).unwrap();

    let result: Vec<u8> = hs.decode(&input);
    assert_eq!(result, vec![129, 128]);
}

#[test]
fn encode_decode() {
    let input = sample_text(9000);
    let mut hs = HeatShrink::new(8, 4).unwrap();

    let encode_output: Vec<u8> = hs.encode(&input);

    hs.reset();

    let decoded_output: Vec<u8> = hs.decode(&encode_output);

    assert_eq!(input.to_vec(), decoded_output);
}

#[test]
fn encode_decode_but_big() {
    let input = sample_text(3000);
    let mut hs = HeatShrink::new(16, 8).unwrap();

    let encode_output: Vec<u8> = hs.encode(&input);

    hs.reset();

    let decoded_output: Vec<u8> = hs.decode(&encode_output);

    assert_eq!(input.to_vec(), decoded_output);
}

#[test]
fn construction_rejects_widths_out_of_range() {
    assert!(HeatShrink::new(0, 4).is_none());
    assert!(HeatShrink::new(8, 0).is_none());
    assert!(HeatShrink::new(17, 4).is_none());
    assert!(HeatShrink::new(8, 17).is_none());
    assert!(HeatShrink::new(1, 1).is_some());
    assert!(HeatShrink::new(16, 16).is_some());
}

#[test]
fn round_trip_over_widths() {
    let input = sample_text(1500);
    for &(w, l) in &[(1, 1), (4, 2), (8, 4), (9, 3), (12, 5), (13, 4), (16, 4)] {
        assert_eq!(round_trip(w, l, &input), input, "w = {}, l = {}", w, l);
    }
}

#[test]
fn round_trip_of_runs_and_zeros() {
    let mut input = vec![0u8; 300];
    input.extend(std::iter::repeat(0x41u8).take(500));
    input.extend_from_slice(b"abcabcabcabcabd");
    input.extend(vec![0u8; 40]);
    for &(w, l) in &[(2, 1), (8, 4), (10, 8), (16, 16)] {
        assert_eq!(round_trip(w, l, &input), input, "w = {}, l = {}", w, l);
    }
}

#[test]
fn large_input_round_trip() {
    let mut input = sample_text(4096);
    let mut state: u32 = 7;
    for _ in 0..4096 {
        state = state.wrapping_mul(1_103_515_245).wrapping_add(12_345);
        input.push((state >> 16) as u8);
    }
    assert_eq!(round_trip(8, 4, &input), input);
}

#[test]
fn empty_input() {
    let mut hs = HeatShrink::new(8, 4).unwrap();
    assert_eq!(hs.encode(&[]), Vec::<u8>::new());
    assert_eq!(hs.decode(&[]), Vec::<u8>::new());
}

#[test]
fn run_of_two_stays_literal() {
    let mut hs = HeatShrink::new(8, 4).unwrap();
    let out = hs.encode(&[1, 2, 3, 1, 2]);
    assert_eq!(out, vec![0x80, 0xc0, 0xa0, 0x70, 0x18, 0x10]);
}

#[test]
fn run_of_three_becomes_back_reference() {
    let mut hs = HeatShrink::new(8, 4).unwrap();
    let out = hs.encode(&[1, 2, 3, 1, 2, 3]);
    // three literals, then tag 0, distance 2, length field 2
    assert_eq!(out, vec![0x80, 0xc0, 0xa0, 0x60, 0x22]);
    hs.reset();
    assert_eq!(hs.decode(&out), vec![1, 2, 3, 1, 2, 3]);
}

#[test]
fn wide_window_writes_two_byte_distance() {
    let mut hs = HeatShrink::new(9, 3).unwrap();
    let out = hs.encode(&[7, 8, 9, 7, 8, 9]);
    // 27 bits of literals, then tag 0, distance 2 in sixteen bits, length field 2 in three bits
    let mut bits = Vec::new();
    for b in [7u8, 8, 9] {
        bits.push(true);
        for k in 0..8 {
            bits.push((b >> (7 - k)) & 1 == 1);
        }
    }
    bits.push(false);
    for k in 0..16 {
        bits.push((2u16 >> (15 - k)) & 1 == 1);
    }
    bits.extend_from_slice(&[false, true, false]);
    assert_eq!(out, ByteBuffer::pack_bits(&bits));
}

#[test]
fn earliest_of_equal_matches_wins() {
    let mut hs = HeatShrink::new(8, 4).unwrap();
    // "abc" twice in the window; the older copy is 5 behind the newest byte
    let out = hs.encode(b"abcxabcyabc");
    hs.reset();
    assert_eq!(hs.decode(&out), b"abcxabcyabc".to_vec());
    let mut bits = Vec::new();
    for b in *b"abcx" {
        bits.push(true);
        for k in 0..8 {
            bits.push((b >> (7 - k)) & 1 == 1);
        }
    }
    // "abc" again: distance 3 (the only copy), length 3
    bits.push(false);
    for k in 0..8 {
        bits.push((3u8 >> (7 - k)) & 1 == 1);
    }
    bits.extend_from_slice(&[false, false, true, false]);
    bits.push(true);
    for k in 0..8 {
        bits.push((b'y' >> (7 - k)) & 1 == 1);
    }
    // the last "abc": both copies are three long, the older at distance 7 is kept
    bits.push(false);
    for k in 0..8 {
        bits.push((7u8 >> (7 - k)) & 1 == 1);
    }
    bits.extend_from_slice(&[false, false, true, false]);
    assert_eq!(out, ByteBuffer::pack_bits(&bits));
}

#[test]
fn self_overlapping_copy() {
    let mut hs = HeatShrink::new(8, 4).unwrap();
    // literal 0xAB, then distance 0 and length 5
    assert_eq!(hs.decode(&[0xd5, 0x80, 0x10]), vec![0xAB; 6]);
    hs.reset();
    // literals 0xAB 0xAB, then distance 1 and length 5
    assert_eq!(hs.decode(&[0xd5, 0xea, 0xc0, 0x28]), vec![0xAB; 7]);
}

#[test]
fn two_literals_with_a_wide_window() {
    let mut hs = HeatShrink::new(13, 4).unwrap();
    assert_eq!(hs.decode(&[0xC0, 0xE0]), vec![0x81, 0x80]);
}

#[test]
fn distance_past_the_window_stops_decoding() {
    let mut hs = HeatShrink::new(4, 4).unwrap();
    // literal 0x11, then a back-reference at distance 200 in a window of 16 bytes
    assert_eq!(hs.decode(&[0x88, 0xb2, 0x00]), vec![0x11]);
}

#[test]
fn truncated_back_reference_ends_the_stream() {
    let mut hs = HeatShrink::new(8, 4).unwrap();
    let out = hs.encode(&[1, 2, 3, 1, 2, 3]);
    hs.reset();
    assert_eq!(hs.decode(&out[..4]), vec![1, 2, 3]);
}

#[test]
fn reset_matches_a_fresh_codec() {
    let input = sample_text(2000);
    let mut used = HeatShrink::new(10, 5).unwrap();
    let _ = used.encode(&sample_text(777));
    let _ = used.decode(&[0x12, 0x34, 0x56]);
    used.reset();
    let mut fresh = HeatShrink::new(10, 5).unwrap();
    let a = used.encode(&input);
    let b = fresh.encode(&input);
    assert_eq!(a, b);
    used.reset();
    fresh = HeatShrink::new(10, 5).unwrap();
    assert_eq!(used.decode(&a), fresh.decode(&b));
}

#[test]
fn encoding_continues_from_the_window() {
    let mut enc = HeatShrink::new(8, 4).unwrap();
    let first = enc.encode(b"hello world, ");
    let second = enc.encode(b"hello world!");
    let mut dec = HeatShrink::new(8, 4).unwrap();
    let mut out = dec.decode(&first);
    out.extend(dec.decode(&second));
    assert_eq!(out, b"hello world, hello world!".to_vec());
    assert!(second.len() < 12);
}
