use vp8_frame_info::bitcode::BoolDecoder;
use vp8_frame_info::bitcode::BoolEncoder;

#[test]
fn roundtrip() {
    let d = vec![0u8, 0, 1, 0, 1, 1, 1, 0, 0, 1, 0, 1]
        .into_iter()
        .map(|b| b != 0)
        .collect::<Vec<_>>();

    let mut encoder = BoolEncoder::new();
    for d in d.iter() {
        encoder.write_bool(128, *d as u8);
    }

    let out = encoder.flush();

    let mut decoder = BoolDecoder::new(&out).unwrap();

    let mut decoded = vec![];
    for _ in 0..d.len() {
        decoded.push(decoder.read_bool(128));
    }

    assert_eq!(d, decoded);
}

#[test]
fn single_one_bit_flushes_to_known_bytes() {
    // range 255, probability 128: split = 128; one set bit renormalizes once
    // and flush emits 0x80 followed by three trailing zero bytes.
    let mut encoder = BoolEncoder::new();
    encoder.write_bool(128, 1);
    let out = encoder.flush();
    assert_eq!(out, vec![0x80, 0x00, 0x00, 0x00]);

    let mut decoder = BoolDecoder::new(&out).unwrap();
    assert!(decoder.read_bool(128));
}

#[test]
fn single_decision_roundtrips_for_every_probability() {
    for prob in 1u32..=255 {
        for bit in 0u8..=1 {
            let mut encoder = BoolEncoder::new();
            encoder.write_bool(prob, bit);
            let out = encoder.flush();
            let mut decoder = BoolDecoder::new(&out).unwrap();
            assert_eq!(decoder.read_bool(prob), bit != 0, "prob {} bit {}", prob, bit);
        }
    }
}

#[test]
fn roundtrip_varied_probabilities() {
    // A few thousand decisions over the whole probability range, enough to
    // exercise carry propagation in the encoder's committed bytes.
    let mut probs: Vec<u32> = Vec::new();
    let mut bits: Vec<bool> = Vec::new();
    let mut x: u32 = 1;
    for i in 0..4096u32 {
        x = x.wrapping_mul(1103515245).wrapping_add(12345);
        probs.push((x >> 16) % 255 + 1);
        bits.push((x >> 7) & 1 == 1 || i % 97 == 0);
    }

    let mut encoder = BoolEncoder::new();
    for i in 0..probs.len() {
        encoder.write_bool(probs[i], bits[i] as u8);
    }
    let out = encoder.flush();

    let mut decoder = BoolDecoder::new(&out).unwrap();
    for i in 0..probs.len() {
        assert_eq!(decoder.read_bool(probs[i]), bits[i], "decision {}", i);
    }
}

#[test]
fn roundtrip_long_one_runs_force_carries() {
    // Long runs of high-probability set bits drive `bottom` towards overflow
    // and make the carry cascade through trailing 0xFF output bytes.
    let mut encoder = BoolEncoder::new();
    for i in 0..2048u32 {
        let prob = if i % 5 == 0 { 254 } else { 200 };
        encoder.write_bool(prob, 1);
    }
    let out = encoder.flush();

    let mut decoder = BoolDecoder::new(&out).unwrap();
    for i in 0..2048u32 {
        let prob = if i % 5 == 0 { 254 } else { 200 };
        assert!(decoder.read_bool(prob), "decision {}", i);
    }
}

fn literal_roundtrip_case(num_bits: u32, value: u32) {
    let mut encoder = BoolEncoder::new();
    let mut i = num_bits;
    while i > 0 {
        i -= 1;
        encoder.write_bool(128, ((value >> i) & 1) as u8);
    }
    let out = encoder.flush();
    let mut decoder = BoolDecoder::new(&out).unwrap();
    assert_eq!(decoder.read_literal(num_bits), value, "width {} value {:#x}", num_bits, value);
}

#[test]
fn literal_roundtrip_boundaries() {
    literal_roundtrip_case(0, 0);
    for n in 1u32..=32 {
        let ones: u32 = if n == 32 { u32::MAX } else { (1u32 << n) - 1 };
        literal_roundtrip_case(n, 0);
        literal_roundtrip_case(n, ones);
        literal_roundtrip_case(n, 1u32 << (n - 1));
        literal_roundtrip_case(n, ones ^ (1u32 << (n - 1)));
    }
}

#[test]
fn literal_reads_most_significant_bit_first() {
    let mut encoder = BoolEncoder::new();
    for bit in [1u8, 0, 1, 1, 0, 1, 0, 0] {
        encoder.write_bool(128, bit);
    }
    let out = encoder.flush();
    let mut decoder = BoolDecoder::new(&out).unwrap();
    assert_eq!(decoder.read_literal(8), 0b1011_0100);
}

#[test]
fn signed_literal_zero_width_consumes_nothing() {
    // Two decoders over the same bytes: one takes a zero-width signed
    // literal first.  It must return 0 and leave the position untouched, so
    // both then read identical bits.
    let bytes = [0x5au8, 0xc3, 0x99, 0x42, 0x17, 0x00];
    let mut with_signed = BoolDecoder::new(&bytes).unwrap();
    let mut plain = BoolDecoder::new(&bytes).unwrap();
    assert_eq!(with_signed.read_signed_literal(0), 0);
    for _ in 0..24 {
        assert_eq!(with_signed.read_bool(128), plain.read_bool(128));
    }
}

#[test]
fn signed_literal_values() {
    // Sign bit first, then magnitude bits; a set sign bit offsets the
    // magnitude by -2^n.
    let mut encoder = BoolEncoder::new();
    // sign = 1, bits 0101 -> -16 + 5 = -11
    for bit in [1u8, 0, 1, 0, 1] {
        encoder.write_bool(128, bit);
    }
    // sign = 0, bits 0101 -> 5
    for bit in [0u8, 0, 1, 0, 1] {
        encoder.write_bool(128, bit);
    }
    let out = encoder.flush();
    let mut decoder = BoolDecoder::new(&out).unwrap();
    assert_eq!(decoder.read_signed_literal(4), -11);
    assert_eq!(decoder.read_signed_literal(4), 5);
}

#[test]
fn decoder_needs_two_bytes() {
    assert!(BoolDecoder::new(b"").is_err());
    assert!(BoolDecoder::new(&[0x42u8]).is_err());
    assert!(BoolDecoder::new(&[0x42u8, 0x43]).is_ok());
}

#[test]
fn decoder_reads_past_partition_end_as_zeros() {
    // A two-byte partition: reads keep succeeding once the input is
    // exhausted, shifting in zero bytes.
    let mut decoder = BoolDecoder::new(&[0xff, 0xff]).unwrap();
    for _ in 0..64 {
        decoder.read_bit();
    }
}
