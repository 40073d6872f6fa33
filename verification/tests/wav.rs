use gitfugue::{can_write_wav, sample, write_wav, SAMPLE_RATE};

#[test]
fn samples_are_scaled_and_cut_off() {
    let cases: [(f32, i16); 12] = [
        (0.0, 0),
        (0.5, 16383),
        (-0.5, -16383),
        (0.25, 8191),
        (0.1, 3276),
        (0.7, 22936),
        (-0.123, -4030),
        (0.99999994, 32766),
        (1.0, 32767),
        (2.0, 32767),
        (-3.0, -32767),
        (1e-5, 0),
    ];
    for (x, expected) in cases {
        assert_eq!(sample(x.to_bits()), expected, "{x}");
    }
}

#[test]
fn samples_are_those_of_the_machine() {
    let mut bits: u32 = 0;
    while bits < 0xffff_0000 {
        let x = f32::from_bits(bits);
        assert_eq!(sample(bits), (x.clamp(-1.0, 1.0) * i16::MAX as f32) as i16, "{x}");
        bits += 9_973;
    }
}

#[test]
fn no_number_is_silence() {
    assert_eq!(sample(f32::NAN.to_bits()), 0);
    assert_eq!(sample(f32::INFINITY.to_bits()), 32767);
    assert_eq!(sample(f32::NEG_INFINITY.to_bits()), -32767);
    assert_eq!(sample(1), 0);
}

#[test]
fn a_number_and_its_negative_mirror() {
    for i in 0..1000u32 {
        let x = i as f32 / 777.0;
        assert_eq!(sample(x.to_bits()), -sample((-x).to_bits()));
    }
}

#[test]
fn the_header_tells_the_format() {
    let left = [0.5f32.to_bits(), (-0.5f32).to_bits(), 0];
    let right = [1.0f32.to_bits(), 0];
    let wav = write_wav(&left, &right);
    assert_eq!(wav.len(), 44 + 8);
    assert_eq!(&wav[..4], b"RIFF");
    assert_eq!(u32::from_le_bytes([wav[4], wav[5], wav[6], wav[7]]), 36 + 8);
    assert_eq!(&wav[8..16], b"WAVEfmt ");
    assert_eq!(&wav[16..24], [16, 0, 0, 0, 1, 0, 2, 0]);
    assert_eq!(u32::from_le_bytes([wav[24], wav[25], wav[26], wav[27]]), SAMPLE_RATE);
    assert_eq!(u32::from_le_bytes([wav[28], wav[29], wav[30], wav[31]]), 176_400);
    assert_eq!(&wav[32..36], [4, 0, 16, 0]);
    assert_eq!(&wav[36..44], b"data\x08\x00\x00\x00");
}

#[test]
fn frames_hold_left_and_right() {
    let left = [0.5f32.to_bits(), (-0.5f32).to_bits()];
    let right = [1.0f32.to_bits(), 0];
    let wav = write_wav(&left, &right);
    let at = |i: usize| i16::from_le_bytes([wav[44 + 2 * i], wav[45 + 2 * i]]);
    assert_eq!([at(0), at(1), at(2), at(3)], [16383, 32767, -16383, 0]);
}

#[test]
fn silence_is_a_header() {
    assert_eq!(write_wav(&[], &[]).len(), 44);
}

#[test]
fn ordinary_lengths_can_be_written() {
    assert!(can_write_wav(&[], &[]));
    assert!(can_write_wav(&[0; 1000], &[0; 999]));
}
