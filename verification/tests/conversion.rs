use actix_web::http::header::HeaderValue;

use rocky::conversion::{
    bytes_to_str, convert, current_ms, eq_ignore_ascii_case, expire_stamp, parse_u128, str_eq,
    u128_to_string, FromBytes, IntoBytes,
};
use rocky::db::Data;
use rocky::errors::DbError;

#[test]
fn should_convert_bytes_to_str() {
    let res = bytes_to_str(b"I'm a &str");
    assert!(res.is_ok());
    assert_eq!("I'm a &str", res.unwrap());
}

#[test]
fn should_reject_invalid_utf8() {
    let res = bytes_to_str(&[0xff, 0xfe, 0x41]);
    assert!(matches!(res, Err(DbError::Conversion(_))));
}

#[test]
fn should_convert_struct_to_bytes() {
    let data = b"data";
    let res = Data::new(1, data.to_vec()).as_bytes();
    assert!(res.is_ok());
}

#[test]
fn should_convert_bytes_to_struct() {
    let data = b"data";
    let res = Data::new(1, data.to_vec()).as_bytes();
    assert!(res.is_ok());

    let res = res.unwrap().as_struct();
    assert!(res.is_ok());
}

#[test]
fn should_convert_header() {
    let header_val = convert(&HeaderValue::from_str("42").unwrap());
    assert_eq!(42, header_val.unwrap());

    let header_val = convert(&HeaderValue::from(42));
    assert_eq!(42, header_val.unwrap());

    let header_val = convert(&HeaderValue::from_bytes(b"42").unwrap());
    assert_eq!(42, header_val.unwrap());
}

#[test]
fn should_reject_non_numeric_header() {
    let res = convert(&HeaderValue::from_str("soon").unwrap());
    assert!(matches!(res, Err(DbError::Conversion(_))));
}

#[test]
fn should_encode_with_explicit_framing() {
    let bytes = Data::new(1, b"data".to_vec()).as_bytes().unwrap();
    let mut expected = vec![1u8];
    expected.extend_from_slice(&[0; 15]);
    expected.push(4);
    expected.extend_from_slice(&[0; 7]);
    expected.extend_from_slice(b"data");
    assert_eq!(expected, bytes);
}

#[test]
fn should_round_trip_record() {
    let payload = b"Tis but a payload".to_vec();
    let bytes = Data::new(77, payload.clone()).as_bytes().unwrap();
    let back = bytes.as_struct().unwrap();
    assert_eq!(77, back.ttl());
    assert_eq!(&payload, back.payload());
}

#[test]
fn should_round_trip_empty_payload_and_maximal_ttl() {
    let bytes = Data::new(u128::MAX, Vec::new()).as_bytes().unwrap();
    let back = bytes.as_struct().unwrap();
    assert_eq!(u128::MAX, back.ttl());
    assert!(back.payload().is_empty());
}

#[test]
fn should_reject_truncated_blob() {
    let res = vec![1u8, 2, 3].as_struct();
    assert!(matches!(res, Err(DbError::Serialization(_))));
}

#[test]
fn should_reject_length_mismatch() {
    let mut bytes = Data::new(0, b"data".to_vec()).as_bytes().unwrap();
    bytes.push(0xAA);
    let res = bytes.as_struct();
    assert!(matches!(res, Err(DbError::Serialization(_))));
}

#[test]
fn should_parse_decimal_numbers() {
    assert_eq!(42, parse_u128("42").unwrap());
    assert_eq!(7, parse_u128("+7").unwrap());
    assert_eq!(0, parse_u128("0").unwrap());
    assert_eq!(
        u128::MAX,
        parse_u128("340282366920938463463374607431768211455").unwrap()
    );
    assert!(matches!(parse_u128(""), Err(DbError::Conversion(_))));
    assert!(matches!(parse_u128("+"), Err(DbError::Conversion(_))));
    assert!(matches!(parse_u128("12a"), Err(DbError::Conversion(_))));
    assert!(matches!(
        parse_u128("340282366920938463463374607431768211456"),
        Err(DbError::Conversion(_))
    ));
}

#[test]
fn should_render_decimal_numbers() {
    assert_eq!("0", u128_to_string(0));
    assert_eq!("12345", u128_to_string(12345));
    assert_eq!(
        "340282366920938463463374607431768211455",
        u128_to_string(u128::MAX)
    );
}

#[test]
fn should_compare_strings() {
    assert!(str_eq("root", "root"));
    assert!(!str_eq("root", "roots"));
    assert!(!str_eq("root", "Root"));
    assert!(str_eq("", ""));
}

#[test]
fn should_compare_ignoring_ascii_case() {
    assert!(eq_ignore_ascii_case("Level", "level"));
    assert!(eq_ignore_ascii_case("UNIVERSAL", "universal"));
    assert!(!eq_ignore_ascii_case("level", "fifo"));
    assert!(!eq_ignore_ascii_case("level", "levels"));
}

#[test]
fn should_compute_expiry_stamps() {
    assert_eq!(0, expire_stamp(123, None));
    assert_eq!(130, expire_stamp(123, Some(7)));
    assert_eq!(u128::MAX, expire_stamp(u128::MAX, Some(1)));
    assert_eq!(u128::MAX, expire_stamp(2, Some(u128::MAX)));
}

#[test]
fn should_read_the_clock() {
    let a = current_ms().unwrap();
    let b = current_ms().unwrap();
    assert!(a <= b);
    assert!(a > 0);
}
