use segment::key_encoding::{
    decode_f64_key_ascending, decode_i64_key_ascending, decode_key_entry,
    encode_f64_key_ascending, encode_i64_key_ascending,
};

#[test]
fn integer_key_is_shifted_value_then_point() {
    assert_eq!(
        encode_i64_key_ascending(-1, 7),
        vec![0x7f, 0xff, 0xff, 0xff, 0xff, 0xff, 0xff, 0xff, 0, 0, 0, 7]
    );
    assert_eq!(
        encode_i64_key_ascending(0, 0x0102_0304),
        vec![0x80, 0, 0, 0, 0, 0, 0, 0, 1, 2, 3, 4]
    );
    assert_eq!(
        encode_i64_key_ascending(i64::MIN, u32::MAX),
        vec![0, 0, 0, 0, 0, 0, 0, 0, 0xff, 0xff, 0xff, 0xff]
    );
}

#[test]
fn float_key_orders_sign_then_magnitude() {
    // 1.0 is 0x3ff0_0000_0000_0000; non-negative patterns get the sign bit set
    assert_eq!(
        encode_f64_key_ascending(1.0f64.to_bits(), 2),
        vec![0xbf, 0xf0, 0, 0, 0, 0, 0, 0, 0, 0, 0, 2]
    );
    // -1.0 is 0xbff0_0000_0000_0000; negative patterns are inverted
    assert_eq!(
        encode_f64_key_ascending((-1.0f64).to_bits(), 2),
        vec![0x40, 0x0f, 0xff, 0xff, 0xff, 0xff, 0xff, 0xff, 0, 0, 0, 2]
    );
}

#[test]
fn integer_keys_ascend_with_values_then_points() {
    let pairs: Vec<(i64, u32)> = vec![
        (i64::MIN, 0),
        (i64::MIN, 5),
        (-1_000_000, 3),
        (-1, u32::MAX),
        (0, 0),
        (1, 0),
        (255, 1),
        (256, 0),
        (i64::MAX, 9),
    ];
    for w in pairs.windows(2) {
        let a = encode_i64_key_ascending(w[0].0, w[0].1);
        let b = encode_i64_key_ascending(w[1].0, w[1].1);
        assert!(a < b, "{:?} should come before {:?}", w[0], w[1]);
    }
}

#[test]
fn float_keys_ascend_with_values() {
    let values: Vec<f64> = vec![
        f64::NEG_INFINITY,
        -1e300,
        -2.5,
        -1.0,
        -1e-300,
        -0.0,
        0.0,
        1e-300,
        1.0,
        2.5,
        2.6,
        1e300,
        f64::INFINITY,
    ];
    for w in values.windows(2) {
        let a = encode_f64_key_ascending(w[0].to_bits(), 1);
        let b = encode_f64_key_ascending(w[1].to_bits(), 1);
        assert!(a < b, "{} should come before {}", w[0], w[1]);
    }
}

#[test]
fn keys_decode_to_what_they_encode() {
    for &(v, id) in &[(i64::MIN, 0u32), (-42, 1), (0, 7), (42, u32::MAX), (i64::MAX, 3)] {
        let key = encode_i64_key_ascending(v, id);
        assert_eq!(decode_i64_key_ascending(&key), (id, v));
    }
    for &(v, id) in &[(-3.75f64, 0u32), (0.0, 1), (-0.0, 2), (1e10, 3)] {
        let key = encode_f64_key_ascending(v.to_bits(), id);
        let (got_id, bits) = decode_f64_key_ascending(&key);
        assert_eq!(got_id, id);
        assert_eq!(f64::from_bits(bits).to_bits(), v.to_bits());
    }
    let key = encode_i64_key_ascending(5, 6);
    assert_eq!(decode_key_entry(&key), (0x8000_0000_0000_0005, 6));
}
