use geohash_rs::base32::ALPHABET;
use geohash_rs::{
    base32encode, encode, interleave, trace_binary_search, EncodeError, LATITUDE_LIMIT,
    LONGITUDE_LIMIT, UNITS_PER_DEGREE,
};

fn units(degrees: f64) -> i64 {
    (degrees * UNITS_PER_DEGREE as f64).floor() as i64
}

#[test]
fn encode_translates_latitude_and_longitude_to_geohash() {
    let cases = vec![
        ((57.64911, 10.40744, 8), "u4p".to_string()),
        ((57.64911, 10.40744, 12), "u4pru0".to_string()),
        ((57.64911, 10.40744, 16), "u4pruy".to_string()),
        ((57.64911, 10.40744, 32), "u4pruydqqvj8".to_string()),
    ];
    for ((lat, lng, bits), expected) in cases {
        assert_eq!(encode(units(lat), units(lng), bits), Ok(expected));
    }
}

#[test]
fn limits_are_whole_degrees() {
    assert_eq!(UNITS_PER_DEGREE, 1i64 << 48);
    assert_eq!(LATITUDE_LIMIT, 90 * UNITS_PER_DEGREE);
    assert_eq!(LONGITUDE_LIMIT, 180 * UNITS_PER_DEGREE);
}

#[test]
fn encode_is_repeatable() {
    let first = encode(units(35.6895), units(139.6917), 20);
    let second = encode(units(35.6895), units(139.6917), 20);
    assert_eq!(first, second);
    assert_eq!(first, Ok("xn774c060".to_string()));
}

#[test]
fn encode_length_follows_the_merged_buffer() {
    for bits in 0usize..70 {
        let text = encode(units(57.64911), units(10.40744), bits).unwrap();
        assert_eq!(text.len(), 16 * ((bits + 7) / 8) / 5);
        assert!(text.len() >= 2 * bits / 5);
        if bits % 8 == 0 {
            assert_eq!(text.len(), 2 * bits / 5);
        }
    }
}

#[test]
fn encode_with_zero_bits_is_empty() {
    assert_eq!(encode(0, 0, 0), Ok(String::new()));
}

#[test]
fn encode_corners_and_origin() {
    // all bits zero, all bits one
    assert_eq!(encode(-LATITUDE_LIMIT, -LONGITUDE_LIMIT, 8), Ok("000".to_string()));
    assert_eq!(encode(LATITUDE_LIMIT, LONGITUDE_LIMIT, 8), Ok("zzz".to_string()));
    // the origin is at both first midpoints: 11 then zeros
    assert_eq!(encode(0, 0, 8), Ok("s00".to_string()));
    // longitude comes first in each pair
    assert_eq!(encode(-LATITUDE_LIMIT, LONGITUDE_LIMIT, 8), Ok("pbp".to_string()));
    assert_eq!(encode(LATITUDE_LIMIT, -LONGITUDE_LIMIT, 8), Ok("bpb".to_string()));
}

#[test]
fn encode_uses_only_the_alphabet() {
    let text = encode(units(-33.8688), units(151.2093), 32).unwrap();
    assert_eq!(text.len(), 12);
    for c in text.chars() {
        assert!(ALPHABET.contains(c));
    }
}

#[test]
fn encode_refuses_coordinates_out_of_range() {
    assert_eq!(encode(LATITUDE_LIMIT + 1, 0, 8), Err(EncodeError::ValueOutOfRange));
    assert_eq!(encode(-LATITUDE_LIMIT - 1, 0, 8), Err(EncodeError::ValueOutOfRange));
    assert_eq!(encode(0, LONGITUDE_LIMIT + 1, 8), Err(EncodeError::ValueOutOfRange));
    assert_eq!(encode(0, -LONGITUDE_LIMIT - 1, 8), Err(EncodeError::ValueOutOfRange));
    assert_eq!(encode(units(90.5), units(200.0), 8), Err(EncodeError::ValueOutOfRange));
}

#[test]
fn encode_is_the_three_steps_in_a_row() {
    let lat = units(57.64911);
    let lng = units(10.40744);
    for bits in [1usize, 5, 8, 12, 13, 16, 32] {
        let a = trace_binary_search(lat, (-LATITUDE_LIMIT, LATITUDE_LIMIT), bits).unwrap();
        let o = trace_binary_search(lng, (-LONGITUDE_LIMIT, LONGITUDE_LIMIT), bits).unwrap();
        let merged = interleave(&a, &o, bits).unwrap();
        assert_eq!(encode(lat, lng, bits), Ok(base32encode(&merged)));
    }
}

#[test]
fn interleave_puts_longitude_first() {
    // latitude 1010 0000, longitude 1100 0000, four bits each
    assert_eq!(
        interleave(&[0b10100000], &[0b11000000], 4),
        Ok(vec![0b11_10_01_00, 0])
    );
    assert_eq!(interleave(&[0xff], &[0x00], 8), Ok(vec![0b01010101, 0b01010101]));
    assert_eq!(interleave(&[0x00], &[0xff], 8), Ok(vec![0b10101010, 0b10101010]));
}

#[test]
fn interleave_reads_only_the_declared_bits() {
    // three bits declared: what follows them in the inputs is not read
    assert_eq!(
        interleave(&[0b10111111], &[0b01011111], 3),
        Ok(vec![0b01_10_01_00, 0])
    );
    assert_eq!(interleave(&[], &[], 0), Ok(vec![]));
}

#[test]
fn interleave_fills_twice_the_bytes_of_one_axis() {
    // twelve bits per axis: 24 merged bits in three bytes, the fourth stays zero
    assert_eq!(
        interleave(&[0xff, 0xf0], &[0xff, 0xf0], 12),
        Ok(vec![0xff, 0xff, 0xff, 0x00])
    );
}

#[test]
fn interleave_refuses_mismatched_lengths() {
    assert_eq!(interleave(&[0, 0], &[0], 8), Err(EncodeError::LengthMismatch));
    assert_eq!(interleave(&[0], &[0, 0], 8), Err(EncodeError::LengthMismatch));
    // both equal, but not the size that the precision asks for
    assert_eq!(interleave(&[0], &[0], 9), Err(EncodeError::LengthMismatch));
    assert_eq!(interleave(&[0, 0], &[0, 0], 8), Err(EncodeError::LengthMismatch));
}

#[test]
fn errors_describe_themselves() {
    assert_eq!(EncodeError::InvalidRange.message(), "invalid range");
    assert_eq!(EncodeError::ValueOutOfRange.message(), "value out of range");
    assert_eq!(EncodeError::LengthMismatch.message(), "bit sequences differ in length");
}
