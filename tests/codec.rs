use base_utf8::{decode, encode, DecodeError};
use rand::{thread_rng, RngCore};

#[test]
fn test_normal() {
    let data = b"Hello, world!";
    let encoded = encode(data);
    assert_eq!(encoded.as_bytes(), [0, 0, 72, 101, 108, 108, 111, 44, 0, 32, 119, 111, 114, 108, 100, 33]);
    let decoded = decode(&encoded).unwrap();
    assert_eq!(data, &decoded[..]);
}

#[test]
fn test_low_length() {
    let data = &[0; 1];
    let encoded = encode(data);
    assert_eq!(encoded.as_bytes(), [0, 5, 0, 0, 0, 0, 0, 0]);
    let decoded = decode(&encoded).unwrap();
    assert_eq!(data, &decoded[..]);
}

#[test]
fn test_long_random() {
    const MIB: usize = 1024 * 1024;
    let mut rng = thread_rng();
    let data_length = (1 * MIB) + (rng.next_u32() as usize % (9 * MIB));
    let mut data = vec![0u8; data_length];
    rng.fill_bytes(&mut data);
    let encoded = encode(&data);
    let decoded = decode(&encoded).unwrap();
    assert_eq!(data, &decoded[..]);
}

#[test]
fn empty_input_encodes_to_one_group() {
    let encoded = encode(&[]);
    assert_eq!(encoded.as_bytes(), [0, 6, 0, 0, 0, 0, 0, 0]);
    assert_eq!(decode(&encoded).unwrap(), Vec::<u8>::new());
}

#[test]
fn empty_text_decodes_to_nothing() {
    assert_eq!(decode("").unwrap(), Vec::<u8>::new());
}

#[test]
fn round_trip_every_short_length() {
    for len in 0..40usize {
        let data: Vec<u8> = (0..len).map(|i| (i * 37 + 200) as u8).collect();
        let encoded = encode(&data);
        assert_eq!(decode(&encoded).unwrap(), data, "length {}", len);
    }
}

#[test]
fn six_bytes_fill_exactly_one_group() {
    let data = [0xffu8, 1, 2, 3, 4, 0x80];
    let encoded = encode(&data);
    assert_eq!(encoded.len(), 8);
    assert_eq!(encoded.as_bytes()[1], 0);
    assert_eq!(decode(&encoded).unwrap(), data.to_vec());
}

#[test]
fn output_is_whole_groups_of_ascii() {
    for len in 0..30usize {
        let data: Vec<u8> = (0..len).map(|i| 0xff - i as u8).collect();
        let encoded = encode(&data);
        let padding = (7 - ((len + 1) % 7)) % 7;
        assert_eq!(encoded.len(), (len + 1 + padding) / 7 * 8);
        assert_eq!(encoded.len() % 8, 0);
        assert!(encoded.as_bytes().iter().all(|b| *b <= 127));
    }
}

#[test]
fn high_bits_are_collected_in_the_first_byte() {
    let encoded = encode(&[0x80, 0x81, 0xff, 0x7f, 0x00, 0xc0]);
    assert_eq!(encoded.as_bytes(), [0b0111001, 0, 0, 1, 0x7f, 0x7f, 0, 0x40]);
}

#[test]
fn bad_length_is_refused() {
    assert_eq!(decode("abc"), Err(DecodeError::InvalidLength(3)));
    assert_eq!(decode("abcdefghi"), Err(DecodeError::InvalidLength(9)));
}

#[test]
fn bad_padding_is_refused() {
    // The first group unpacks to a padding count of 7.
    let text = "\u{0}\u{7}\u{0}\u{0}\u{0}\u{0}\u{0}\u{0}";
    assert_eq!(decode(text), Err(DecodeError::InvalidPadding(8)));
    // A set high bit in the first byte makes the count 0x80 or more.
    let text = "\u{40}\u{0}\u{0}\u{0}\u{0}\u{0}\u{0}\u{0}abcdefgh";
    assert_eq!(decode(text), Err(DecodeError::InvalidPadding(16)));
}

#[test]
fn length_is_checked_before_padding() {
    let text = "\u{0}\u{7}\u{0}\u{0}\u{0}\u{0}\u{0}\u{0}x";
    assert_eq!(decode(text), Err(DecodeError::InvalidLength(9)));
}
