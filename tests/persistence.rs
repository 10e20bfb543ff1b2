use smolldb::datatype::DataType;
use smolldb::db::PickleDB;
use smolldb::error::Error;

#[test]
fn compressed_round_trip_of_three_keys() {
    let mut db = PickleDB::new();
    db.set(String::from("a"), DataType::BOOL(true));
    db.set(String::from("b"), DataType::INT32(42));
    db.set(String::from("c"), DataType::STRING(String::from("hello")));
    let bytes = db.to_compressed().unwrap();
    let loaded = PickleDB::from_compressed(&bytes).unwrap();
    assert_eq!(loaded.get(&String::from("a")), Some(&DataType::BOOL(true)));
    assert_eq!(loaded.get(&String::from("b")), Some(&DataType::INT32(42)));
    assert_eq!(
        loaded.get(&String::from("c")),
        Some(&DataType::STRING(String::from("hello")))
    );
    assert_eq!(loaded.into_entries().len(), 3);
}

#[test]
fn compressed_image_is_a_zlib_stream() {
    let mut db = PickleDB::new();
    db.set(String::from("a"), DataType::INT64(1));
    let bytes = db.to_compressed().unwrap();
    assert_ne!(bytes, db.encode());
    assert_eq!(bytes[0], 0x78);
    assert_eq!(yazi::decompress(&bytes, yazi::Format::Zlib).unwrap().0, db.encode());
}

#[test]
fn empty_store_round_trips() {
    let db = PickleDB::new();
    let bytes = db.to_compressed().unwrap();
    let loaded = PickleDB::from_compressed(&bytes).unwrap();
    assert_eq!(loaded.into_entries().len(), 0);
}

#[test]
fn garbage_is_compression_error() {
    let r = PickleDB::from_compressed(&[1, 2, 3, 4, 5]);
    assert_eq!(r.err(), Some(Error::CompressionError));
}

#[test]
fn valid_zlib_of_bad_records_is_decode_error() {
    let raw = vec![0, 0, 0, 0, 0, 0, 0, 1, b'k', 42];
    let bytes = yazi::compress(&raw, yazi::Format::Zlib, yazi::CompressionLevel::Default).unwrap();
    let r = PickleDB::from_compressed(&bytes);
    assert_eq!(r.err(), Some(Error::DecodeError));
}
