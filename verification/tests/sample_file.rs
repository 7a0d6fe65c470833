use lightbox::sample_file::{decode_be_words, encode_be_words, ENCODED_NUM_BYTES};

#[test]
fn words_are_big_endian() {
    assert_eq!(ENCODED_NUM_BYTES, 4);
    assert_eq!(
        decode_be_words(&[0x12, 0x34, 0x56, 0x78, 0xff, 0, 0, 1]),
        vec![0x1234_5678, 0xff00_0001]
    );
    assert_eq!(encode_be_words(&[0x1234_5678, 7]), vec![0x12, 0x34, 0x56, 0x78, 0, 0, 0, 7]);
}

#[test]
fn trailing_partial_word_is_ignored() {
    assert_eq!(decode_be_words(&[1, 2, 3, 4, 5, 6, 7]), vec![0x0102_0304]);
    assert!(decode_be_words(&[1, 2, 3]).is_empty());
    assert!(decode_be_words(&[]).is_empty());
}

#[test]
fn float_samples_round_trip() {
    let samples = [0.0f32, -1.5, 3.25e-7, f32::MAX];
    let words: Vec<u32> = samples.iter().map(|s| s.to_bits()).collect();
    let bytes = encode_be_words(&words);
    let expected: Vec<u8> = samples.iter().flat_map(|s| s.to_be_bytes()).collect();
    assert_eq!(bytes, expected);
    let back: Vec<f32> = decode_be_words(&bytes).into_iter().map(f32::from_bits).collect();
    assert_eq!(back, samples);
}
