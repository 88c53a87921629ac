use geohash_rs::{trace_binary_search, EncodeError, UNITS_PER_DEGREE};

fn to_units(degrees: f64) -> i64 {
    (degrees * UNITS_PER_DEGREE as f64).floor() as i64
}

#[test]
fn race_binary_search_returns_trace_of_binary_search() {
    let cases = vec![
        ((42.6, (-90.0, 90.0), 8), vec![0b10111100]),
        ((-5.6, (-180.0, 180.0), 8), vec![0b01111100]),
        ((42.6, (-90.0, 90.0), 12), vec![0b10111100, 0b10010000]),
        ((-5.6, (-180.0, 180.0), 12), vec![0b01111100, 0b00000000]),
        ((42.6, (-90.0, 90.0), 16), vec![0b10111100, 0b10010110]),
        ((-5.6, (-180.0, 180.0), 16), vec![0b01111100, 0b00000100]),
    ];
    for ((value, range, bits), expected) in cases {
        let range: (f64, f64) = range;
        assert_eq!(
            trace_binary_search(to_units(value), (to_units(range.0), to_units(range.1)), bits),
            Ok(expected)
        );
    }
}

#[test]
fn lower_bound_gives_zero_bits() {
    assert_eq!(trace_binary_search(-90, (-90, 90), 16), Ok(vec![0x00, 0x00]));
    assert_eq!(trace_binary_search(3, (3, 4), 11), Ok(vec![0x00, 0x00]));
}

#[test]
fn upper_bound_gives_one_bits() {
    assert_eq!(trace_binary_search(90, (-90, 90), 16), Ok(vec![0xff, 0xff]));
    // only the first eleven bits are set, the padding stays zero
    assert_eq!(trace_binary_search(4, (3, 4), 11), Ok(vec![0xff, 0b11100000]));
}

#[test]
fn value_at_the_midpoint_goes_to_the_upper_half() {
    assert_eq!(trace_binary_search(0, (-90, 90), 8), Ok(vec![0b10000000]));
    assert_eq!(trace_binary_search(-1, (-90, 90), 1), Ok(vec![0b00000000]));
    // 45 is the second midpoint after 0
    assert_eq!(trace_binary_search(45, (-90, 90), 8), Ok(vec![0b11000000]));
}

#[test]
fn midpoint_of_an_odd_width_is_exact() {
    // the midpoint of [0, 5] is 2.5: 2 is below it, 3 is above it
    assert_eq!(trace_binary_search(2, (0, 5), 1), Ok(vec![0b00000000]));
    assert_eq!(trace_binary_search(3, (0, 5), 1), Ok(vec![0b10000000]));
    // 2 in [0, 2.5): midpoint 1.25, then [1.25, 2.5) midpoint 1.875, then [1.875, 2.5)
    assert_eq!(trace_binary_search(2, (0, 5), 4), Ok(vec![0b01100000]));
}

#[test]
fn zero_bits_give_an_empty_buffer() {
    assert_eq!(trace_binary_search(5, (0, 10), 0), Ok(vec![]));
}

#[test]
fn buffer_has_one_byte_for_each_eight_bits() {
    for bits in 0usize..40 {
        let buf = trace_binary_search(7, (0, 10), bits).unwrap();
        assert_eq!(buf.len(), (bits + 7) / 8);
    }
}

#[test]
fn more_bits_keep_the_bits_already_found() {
    let value = to_units(42.6);
    let range = (to_units(-90.0), to_units(90.0));
    let long = trace_binary_search(value, range, 40).unwrap();
    for bits in 0usize..40 {
        let short = trace_binary_search(value, range, bits).unwrap();
        for n in 0..bits {
            let a = (short[n / 8] >> (7 - n % 8)) & 1;
            let b = (long[n / 8] >> (7 - n % 8)) & 1;
            assert_eq!(a, b);
        }
        for n in bits..8 * short.len() {
            assert_eq!((short[n / 8] >> (7 - n % 8)) & 1, 0);
        }
    }
}

#[test]
fn smaller_value_never_sorts_after_a_larger_one() {
    let mut previous = trace_binary_search(-90, (-90, 90), 16).unwrap();
    for value in -89i64..=90 {
        let current = trace_binary_search(value, (-90, 90), 16).unwrap();
        assert!(previous <= current);
        previous = current;
    }
}

#[test]
fn bits_locate_the_value() {
    // 8 bits over [0, 256] number the unit cells
    for value in 0i64..256 {
        assert_eq!(trace_binary_search(value, (0, 256), 8), Ok(vec![value as u8]));
    }
    assert_eq!(trace_binary_search(256, (0, 256), 8), Ok(vec![0xff]));
}

#[test]
fn widest_range_is_accepted() {
    assert_eq!(
        trace_binary_search(i64::MAX, (i64::MIN, i64::MAX), 9),
        Ok(vec![0xff, 0x80])
    );
    assert_eq!(
        trace_binary_search(i64::MIN, (i64::MIN, i64::MAX), 9),
        Ok(vec![0x00, 0x00])
    );
    assert_eq!(
        trace_binary_search(0, (i64::MIN, i64::MAX), 2),
        Ok(vec![0b10000000])
    );
}

#[test]
fn empty_or_reversed_range_is_invalid() {
    assert_eq!(trace_binary_search(1, (1, 1), 8), Err(EncodeError::InvalidRange));
    assert_eq!(trace_binary_search(1, (2, 0), 8), Err(EncodeError::InvalidRange));
    // the range is looked at before the value
    assert_eq!(trace_binary_search(9, (2, 0), 8), Err(EncodeError::InvalidRange));
}

#[test]
fn value_outside_the_range_is_refused() {
    assert_eq!(trace_binary_search(-91, (-90, 90), 8), Err(EncodeError::ValueOutOfRange));
    assert_eq!(trace_binary_search(91, (-90, 90), 8), Err(EncodeError::ValueOutOfRange));
}
