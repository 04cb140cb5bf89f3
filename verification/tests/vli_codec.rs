use polodb_core::vli;
use polodb_core::DbErr;

fn round_trip(v: i64) {
    let mut buf: Vec<u8> = Vec::new();
    vli::encode(&mut buf, v);
    let (decoded, end) = vli::decode(&buf, 0).expect("decode");
    assert_eq!(decoded, v);
    assert_eq!(end, buf.len());
}

#[test]
fn vli_round_trip_small() {
    round_trip(0);
    round_trip(1);
    round_trip(-1);
    round_trip(2);
    round_trip(-2);
    round_trip(63);
    round_trip(-64);
}

#[test]
fn vli_round_trip_medium() {
    round_trip(64);
    round_trip(-65);
    round_trip(127);
    round_trip(128);
    round_trip(300);
    round_trip(-300);
    round_trip(65536);
    round_trip(-65536);
}

#[test]
fn vli_round_trip_extremes() {
    round_trip(i64::MAX);
    round_trip(i64::MIN);
    round_trip(i64::MAX - 1);
    round_trip(i64::MIN + 1);
}

#[test]
fn vli_small_values_are_compact() {
    // Magnitudes below 64 fit one byte under the zigzag base-128 coding.
    let mut buf: Vec<u8> = Vec::new();
    vli::encode(&mut buf, 0);
    assert_eq!(buf.len(), 1);
    let mut buf: Vec<u8> = Vec::new();
    vli::encode(&mut buf, 63);
    assert_eq!(buf.len(), 1);
    let mut buf: Vec<u8> = Vec::new();
    vli::encode(&mut buf, -64);
    assert_eq!(buf.len(), 1);
    let mut buf: Vec<u8> = Vec::new();
    vli::encode(&mut buf, 64);
    assert_eq!(buf.len(), 2);
}

#[test]
fn vli_exact_bytes() {
    // zig(1) == 2, a single base-128 digit.
    let mut buf: Vec<u8> = Vec::new();
    vli::encode(&mut buf, 1);
    assert_eq!(buf, vec![2u8]);
    // zig(64) == 128 == 0 + 128 * 1: low digit 0 with the high bit, then 1.
    let mut buf: Vec<u8> = Vec::new();
    vli::encode(&mut buf, 64);
    assert_eq!(buf, vec![128u8, 1u8]);
}

#[test]
fn vli_decode_truncated_is_corruption() {
    let empty: Vec<u8> = Vec::new();
    assert_eq!(vli::decode(&empty, 0), Err(DbErr::Corruption));
    // A continuation byte with nothing after it.
    let buf: Vec<u8> = vec![0x80];
    assert_eq!(vli::decode(&buf, 0), Err(DbErr::Corruption));
}

#[test]
fn vli_decode_overflow_is_corruption() {
    // Eleven continuation digits overflow the unsigned 64-bit range.
    let buf: Vec<u8> = vec![0xFF, 0xFF, 0xFF, 0xFF, 0xFF, 0xFF, 0xFF, 0xFF, 0xFF, 0xFF, 0x7F];
    assert_eq!(vli::decode(&buf, 0), Err(DbErr::Corruption));
}
