use bulk_gcd::big::Big;
use bulk_gcd::codec::{decode_level, encode_level};

#[test]
fn codec_round_trip_restores_the_level() {
    let level = vec![
        Big::from_u64(5),
        Big::from_u64(300),
        Big::from_u64(0),
        Big::from_u64(123456789),
    ];
    let bytes = encode_level(&level);
    let decoded = decode_level(&bytes).unwrap();
    assert_eq!(decoded, level);
}

#[test]
fn empty_input_is_an_empty_level() {
    let bytes: Vec<u8> = vec![];
    let decoded = decode_level(&bytes).unwrap();
    assert_eq!(decoded, Vec::<Big>::new());
}

#[test]
fn record_format_is_length_then_magnitude() {
    // 300 = 0x012C: two big-endian magnitude bytes after the
    // little-endian count 2.
    let level = vec![Big::from_u64(300)];
    let bytes = encode_level(&level);
    assert_eq!(bytes, vec![2, 0, 0, 0, 0x01, 0x2C]);
}

#[test]
fn zero_is_a_record_of_length_zero() {
    // The value 0 has an empty magnitude: four zero count bytes, no
    // payload.
    let level = vec![Big::from_u64(0)];
    let bytes = encode_level(&level);
    assert_eq!(bytes, vec![0, 0, 0, 0]);
    assert_eq!(decode_level(&bytes).unwrap(), level);
}

#[test]
fn truncated_record_is_corruption() {
    let level = vec![Big::from_u64(300)];
    let mut bytes = encode_level(&level);
    bytes.pop();
    assert!(decode_level(&bytes).is_none());

    let short_header = vec![7u8, 0, 0];
    assert!(decode_level(&short_header).is_none());
}

#[test]
fn leading_zero_digits_decode_to_the_same_value() {
    // A record padded with leading zero bytes stands for the same number.
    let bytes = vec![3u8, 0, 0, 0, 0, 0, 9];
    let decoded = decode_level(&bytes).unwrap();
    assert_eq!(decoded, vec![Big::from_u64(9)]);
}
