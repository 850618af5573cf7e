use protohackers::asset::{decode_request, read_be_i32, write_be_i32, Asset, Reply, Request};

fn message(kind: u8, one: i32, two: i32) -> Vec<u8> {
    let mut m = vec![kind];
    m.extend_from_slice(&one.to_be_bytes());
    m.extend_from_slice(&two.to_be_bytes());
    m
}

#[test]
fn mean_of_inserted_prices_in_range() {
    let mut asset = Asset::new();
    asset.insert_price(12345, 101);
    asset.insert_price(12346, 102);
    asset.insert_price(12347, 100);
    asset.insert_price(40960, 5);
    assert_eq!(asset.query_mean(12288, 16384), 101);
    assert_eq!(asset.query_mean(0, 100000), 77);
    assert_eq!(asset.query_mean(40960, 40960), 5);
}

#[test]
fn mean_of_empty_range_is_zero() {
    let mut asset = Asset::new();
    assert_eq!(asset.query_mean(0, 10), 0);
    asset.insert_price(5, 100);
    assert_eq!(asset.query_mean(10, 0), 0);
    assert_eq!(asset.query_mean(6, 10), 0);
}

#[test]
fn mean_rounds_toward_zero() {
    let mut asset = Asset::new();
    asset.insert_price(1, -3);
    asset.insert_price(2, -4);
    assert_eq!(asset.query_mean(1, 2), -3);
    asset.insert_price(3, 8);
    asset.insert_price(4, 0);
    assert_eq!(asset.query_mean(3, 4), 4);
    assert_eq!(asset.query_mean(1, 4), 0);
}

#[test]
fn mean_of_extreme_prices() {
    let mut asset = Asset::new();
    asset.insert_price(0, i32::MAX);
    asset.insert_price(0, i32::MAX);
    assert_eq!(asset.query_mean(0, 0), i32::MAX);
    let mut low = Asset::new();
    low.insert_price(0, i32::MIN);
    low.insert_price(0, i32::MIN);
    low.insert_price(0, i32::MIN);
    assert_eq!(low.query_mean(0, 0), i32::MIN);
}

#[test]
fn big_endian_bytes() {
    assert_eq!(write_be_i32(0x0102_0304), vec![1, 2, 3, 4]);
    assert_eq!(write_be_i32(-1), vec![0xFF, 0xFF, 0xFF, 0xFF]);
    assert_eq!(write_be_i32(i32::MIN), vec![0x80, 0, 0, 0]);
    assert_eq!(read_be_i32(&[9, 0x00, 0x00, 0x30, 0x39], 1), 12345);
    assert_eq!(read_be_i32(&[0xFF, 0xFF, 0xFF, 0x9C], 0), -100);
    for v in [0, 1, -1, 101, i32::MIN, i32::MAX, 0x7F00_00FF] {
        assert_eq!(read_be_i32(&write_be_i32(v), 0), v);
        assert_eq!(write_be_i32(v), v.to_be_bytes().to_vec());
    }
}

#[test]
fn decodes_requests() {
    assert!(matches!(
        decode_request(&message(b'I', 12345, 101)),
        Request::Insert { timestamp: 12345, price: 101 }
    ));
    assert!(matches!(
        decode_request(&message(b'Q', 1000, 100000)),
        Request::Query { mintime: 1000, maxtime: 100000 }
    ));
    assert!(matches!(decode_request(&message(b'X', 1, 2)), Request::Unknown { kind: b'X' }));
}

#[test]
fn session_of_messages() {
    let mut asset = Asset::new();
    assert!(matches!(asset.handle_message(&message(b'I', 12345, 101)), Reply::Stored));
    assert!(matches!(asset.handle_message(&message(b'I', 12346, 102)), Reply::Stored));
    assert!(matches!(asset.handle_message(&message(b'I', 12347, 100)), Reply::Stored));
    assert!(matches!(asset.handle_message(&message(b'I', 40960, 5)), Reply::Stored));
    match asset.handle_message(&message(b'Q', 12288, 16384)) {
        Reply::Mean { bytes } => assert_eq!(bytes, vec![0, 0, 0, 0x65]),
        _ => panic!("expected a mean"),
    }
    assert!(matches!(asset.handle_message(&message(b'q', 0, 0)), Reply::UnknownKind { kind: b'q' }));
    assert_eq!(asset.query_mean(0, 50000), 77);
}
