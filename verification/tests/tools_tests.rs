use ebml_iterable::tools::{
    arr_to_float_bits, arr_to_i64, arr_to_u64, read_signed_vint, read_vint, FloatBits,
    SignedVint, Vint,
};
use ebml_iterable::error::ToolError;

#[test]
fn read_vint_sixteen() {
    let buffer = [144];
    let result = read_vint(&buffer).unwrap().expect("Reading vint failed");

    assert_eq!(16, result.0);
    assert_eq!(1, result.1);
}

#[test]
fn write_vint_sixteen() {
    let result = 16u64.as_vint().expect("Writing vint failed");
    assert_eq!(vec![144u8], result);
}

#[test]
fn read_vint_one_twenty_seven() {
    let buffer = [255u8];
    let result = read_vint(&buffer).unwrap().expect("Reading vint failed");

    assert_eq!(127, result.0);
    assert_eq!(1, result.1);
}

#[test]
fn write_vint_one_twenty_seven() {
    let result = 127u64.as_vint().expect("Writing vint failed");
    assert_eq!(vec![255u8], result);
}

#[test]
fn read_vint_two_hundred() {
    let buffer = [64, 200];
    let result = read_vint(&buffer).unwrap().expect("Reading vint failed");

    assert_eq!(200, result.0);
    assert_eq!(2, result.1);
}

#[test]
fn write_vint_two_hundred() {
    let result = 200u64.as_vint().expect("Writing vint failed");
    assert_eq!(vec![64u8, 200u8], result);
}

#[test]
fn read_vint_for_ebml_tag() {
    let buffer = [0x1a, 0x45, 0xdf, 0xa3];
    let result = read_vint(&buffer).unwrap().expect("Reading vint failed");

    assert_eq!(0x0a45dfa3, result.0);
    assert_eq!(4, result.1);
}

#[test]
fn read_vint_very_long() {
    let buffer = [1, 0, 0, 0, 0, 0, 0, 1];
    let result = read_vint(&buffer).unwrap().expect("Reading vint failed");

    assert_eq!(1, result.0);
    assert_eq!(8, result.1);
}

#[test]
fn write_vint_very_long() {
    let result = 1u64.as_vint_with_length(8).expect("Writing vint failed");
    assert_eq!(vec![1, 0, 0, 0, 0, 0, 0, 1], result);
}

#[test]
fn read_vint_overflow() {
    let buffer = [1, 0, 0, 0];
    let result = read_vint(&buffer).expect("Reading vint failed");

    assert_eq!(true, result.is_none());
}

#[test]
fn too_big_for_vint() {
    let result = (1u64 << 56).as_vint();
    assert!(matches!(result, Err(ToolError::WriteVintOverflow(v)) if v == 1u64 << 56));
}

#[test]
fn vint_encode_decode_range() {
    for val in 0..500_000 {
        let bytes = val.as_vint().unwrap();
        let result = read_vint(bytes.as_slice()).unwrap().unwrap().0;
        assert_eq!(val, result);
    }
}

#[test]
fn signed_vint_encode_decode_range() {
    for val in -500_000..500_000 {
        let bytes = val.as_signed_vint().unwrap();
        let result = read_signed_vint(bytes.as_slice()).unwrap().unwrap().0;
        assert_eq!(val, result);
    }
}

#[test]
fn read_u64_values() {
    let mut buffer = vec![];
    let mut expected = 0;
    for _ in 0..8 {
        buffer.push(0x25);
        expected = (expected << 8) + 0x25;

        let result = arr_to_u64(&buffer).unwrap();
        assert_eq!(expected, result);
    }
}

#[test]
fn read_i64_values() {
    let mut buffer = vec![];
    let mut expected = 0;
    for _ in 0..8 {
        buffer.push(0x0a);
        expected = (expected << 8) + 0x0a;

        let result = arr_to_i64(&buffer).unwrap();
        assert_eq!(expected, result);

        let neg_result = arr_to_i64(&(buffer.iter().map(|b| !b).collect::<Vec<u8>>())).unwrap() + 1;
        assert_eq!(-expected, neg_result);
    }
}

#[test]
fn read_vint_empty_buffer_needs_more() {
    assert!(matches!(read_vint(&[]), Ok(None)));
    assert!(matches!(read_signed_vint(&[]), Ok(None)));
}

#[test]
fn read_vint_zero_first_byte_is_overflow() {
    assert!(matches!(read_vint(&[0, 1, 2, 3, 4, 5, 6, 7, 8]), Err(ToolError::ReadVintOverflow)));
    assert!(matches!(read_signed_vint(&[0, 1]), Err(ToolError::ReadVintOverflow)));
}

#[test]
fn read_vint_ignores_what_follows() {
    assert_eq!(read_vint(&[0x40, 200, 0xff, 0xff]).unwrap(), Some((200, 2)));
}

#[test]
fn vint_widths_are_minimal() {
    assert_eq!(0u64.as_vint().unwrap(), vec![0x80]);
    assert_eq!(127u64.as_vint().unwrap().len(), 1);
    assert_eq!(128u64.as_vint().unwrap(), vec![0x40, 0x80]);
    assert_eq!(((1u64 << 14) - 1).as_vint().unwrap().len(), 2);
    assert_eq!((1u64 << 14).as_vint().unwrap().len(), 3);
    assert_eq!(((1u64 << 56) - 1).as_vint().unwrap(), vec![1, 0xff, 0xff, 0xff, 0xff, 0xff, 0xff, 0xff]);
    assert_eq!(7u8.as_vint().unwrap(), vec![0x87]);
    assert_eq!(300u16.as_vint().unwrap(), vec![0x41, 0x2c]);
    assert_eq!(70000u32.as_vint().unwrap(), vec![0x21, 0x11, 0x70]);
}

#[test]
fn vint_with_length_overflow() {
    assert!(matches!(128u64.as_vint_with_length(1), Err(ToolError::WriteVintOverflow(128))));
    assert_eq!(127u64.as_vint_with_length(1).unwrap(), vec![0xff]);
    assert_eq!(127u64.as_vint_with_length(2).unwrap(), vec![0x40, 0x7f]);
}

#[test]
fn unsigned_round_trip_at_the_edges() {
    for w in 1..=8u32 {
        for v in [(1u64 << (7 * w)) - 1, 1u64 << (7 * (w - 1)), (1u64 << (7 * w - 7)).saturating_sub(1)] {
            let bytes = v.as_vint().unwrap();
            let (value, width) = read_vint(&bytes).unwrap().unwrap();
            assert_eq!(value, v);
            assert_eq!(width, bytes.len());
            assert!(v < (1u64 << (7 * width)));
            assert!(width == 1 || v >= (1u64 << (7 * (width - 1))));
        }
    }
}

#[test]
fn signed_vint_examples() {
    assert_eq!(vec![0xDF], (-33i64).as_signed_vint().unwrap());
    assert_eq!(vec![0x40, 0xC8], (200i64).as_signed_vint().unwrap());
    assert_eq!(vec![0x7F, 0x38], (-200i64).as_signed_vint().unwrap());
    assert_eq!(vec![0xFF], (-1i64).as_signed_vint().unwrap());
    assert_eq!(vec![0xC0], (-64i8).as_signed_vint().unwrap());
    assert_eq!(vec![0x7F, 0xBF], (-65i16).as_signed_vint().unwrap());
    assert_eq!(vec![0xBF], (63i32).as_signed_vint().unwrap());
    assert_eq!(vec![0x40, 0x40], (64i32).as_signed_vint().unwrap());
}

#[test]
fn signed_round_trip_at_the_edges() {
    for w in 1..=8u32 {
        let half = 1i64 << (7 * w - 1);
        for v in [-half, half - 1, -half + 1] {
            let bytes = v.as_signed_vint().unwrap();
            let (value, width) = read_signed_vint(&bytes).unwrap().unwrap();
            assert_eq!(value, v);
            assert_eq!(width, bytes.len());
            assert_eq!(width as u32, w);
        }
    }
}

#[test]
fn signed_vint_overflow() {
    assert!(matches!((1i64 << 55).as_signed_vint(), Err(ToolError::WriteSignedVintOverflow(v)) if v == 1i64 << 55));
    assert!(matches!((-(1i64 << 55) - 1).as_signed_vint(), Err(ToolError::WriteSignedVintOverflow(_))));
    assert!((-(1i64 << 55)).as_signed_vint().is_ok());
    assert!(matches!(64i64.as_signed_vint_with_length(1), Err(ToolError::WriteSignedVintOverflow(64))));
    assert_eq!((-1i64).as_signed_vint_with_length(2).unwrap(), vec![0x7f, 0xff]);
}

#[test]
fn arr_to_u64_examples() {
    assert_eq!(arr_to_u64(&[16, 0]).unwrap(), 4096);
    assert_eq!(arr_to_u64(&[]).unwrap(), 0);
    assert_eq!(arr_to_u64(&[0xff; 8]).unwrap(), u64::MAX);
    assert!(matches!(arr_to_u64(&[1; 9]), Err(ToolError::ReadU64Overflow(b)) if b == vec![1; 9]));
}

#[test]
fn arr_to_i64_examples() {
    assert_eq!(arr_to_i64(&[4, 0]).unwrap(), 1024);
    assert_eq!(arr_to_i64(&[]).unwrap(), 0);
    assert_eq!(arr_to_i64(&[0xff]).unwrap(), -1);
    assert_eq!(arr_to_i64(&[0, 0xff]).unwrap(), 255);
    assert_eq!(arr_to_i64(&[0x80]).unwrap(), -128);
    assert_eq!(arr_to_i64(&[0x80, 0, 0, 0, 0, 0, 0, 0]).unwrap(), i64::MIN);
    assert_eq!(arr_to_i64(&[0x7f, 0xff, 0xff, 0xff, 0xff, 0xff, 0xff, 0xff]).unwrap(), i64::MAX);
    assert_eq!(arr_to_i64(&[0xff; 8]).unwrap(), -1);
    assert!(matches!(arr_to_i64(&[1; 9]), Err(ToolError::ReadI64Overflow(b)) if b == vec![1; 9]));
}

#[test]
fn arr_to_float_bits_examples() {
    assert_eq!(arr_to_float_bits(&1.5f32.to_be_bytes()).unwrap(), FloatBits::Single(1.5f32.to_bits()));
    assert_eq!(arr_to_float_bits(&(-2.25f64).to_be_bytes()).unwrap(), FloatBits::Double((-2.25f64).to_bits()));
    assert!(matches!(arr_to_float_bits(&[32, 42, 8]), Err(ToolError::ReadF64Mismatch(b)) if b == vec![32, 42, 8]));
    assert!(matches!(arr_to_float_bits(&[]), Err(ToolError::ReadF64Mismatch(_))));
}
