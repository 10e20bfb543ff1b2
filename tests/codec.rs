use smolldb::datatype::DataType;
use smolldb::db::PickleDB;
use smolldb::error::Error;

fn one(k: &str, v: DataType) -> PickleDB {
    let mut db = PickleDB::new();
    db.set(String::from(k), v);
    db
}

#[test]
fn encode_int32_record_bytes() {
    let db = one("a", DataType::INT32(42));
    assert_eq!(db.encode(), vec![0, 0, 0, 0, 0, 0, 0, 1, b'a', 3, 0, 0, 0, 42]);
}

#[test]
fn encode_negative_integers_in_twos_complement() {
    assert_eq!(one("", DataType::INT8(-1)).encode(), vec![0, 0, 0, 0, 0, 0, 0, 0, 1, 0xFF]);
    assert_eq!(
        one("", DataType::INT16(-2)).encode(),
        vec![0, 0, 0, 0, 0, 0, 0, 0, 2, 0xFF, 0xFE]
    );
    assert_eq!(
        one("", DataType::INT64(i64::MIN)).encode(),
        vec![0, 0, 0, 0, 0, 0, 0, 0, 4, 0x80, 0, 0, 0, 0, 0, 0, 0]
    );
}

#[test]
fn encode_bool_text_bytes_and_floats() {
    assert_eq!(one("k", DataType::BOOL(true)).encode(), vec![0, 0, 0, 0, 0, 0, 0, 1, b'k', 0, 1]);
    assert_eq!(
        one("k", DataType::STRING(String::from("hi"))).encode(),
        vec![0, 0, 0, 0, 0, 0, 0, 1, b'k', 7, 0, 0, 0, 0, 0, 0, 0, 2, b'h', b'i']
    );
    assert_eq!(
        one("k", DataType::BYTES(vec![9])).encode(),
        vec![0, 0, 0, 0, 0, 0, 0, 1, b'k', 8, 0, 0, 0, 0, 0, 0, 0, 1, 9]
    );
    assert_eq!(
        one("k", DataType::FLOAT32(1.5f32.to_bits())).encode(),
        vec![0, 0, 0, 0, 0, 0, 0, 1, b'k', 5, 0x3F, 0xC0, 0, 0]
    );
    assert_eq!(
        one("k", DataType::FLOAT64(1.0f64.to_bits())).encode(),
        vec![0, 0, 0, 0, 0, 0, 0, 1, b'k', 6, 0x3F, 0xF0, 0, 0, 0, 0, 0, 0]
    );
}

#[test]
fn encode_multibyte_key_uses_utf8_length() {
    let db = one("é", DataType::BOOL(false));
    assert_eq!(db.encode(), vec![0, 0, 0, 0, 0, 0, 0, 2, 0xC3, 0xA9, 0, 0]);
}

#[test]
fn decode_empty_buffer_is_empty_store() {
    let db = PickleDB::decode(&[]).unwrap();
    assert_eq!(db.into_entries().len(), 0);
}

#[test]
fn decode_round_trips_every_type() {
    let mut db = PickleDB::new();
    db.set(String::from("b"), DataType::BOOL(true));
    db.set(String::from("i8"), DataType::INT8(i8::MIN));
    db.set(String::from("i16"), DataType::INT16(-12345));
    db.set(String::from("i32"), DataType::INT32(i32::MIN));
    db.set(String::from("i64"), DataType::INT64(i64::MAX));
    db.set(String::from("f32"), DataType::FLOAT32((-2.25f32).to_bits()));
    db.set(String::from("f64"), DataType::FLOAT64(std::f64::consts::PI.to_bits()));
    db.set(String::from("s"), DataType::STRING(String::from("héllo")));
    db.set(String::from("raw"), DataType::BYTES(vec![0, 255, 7]));
    let back = PickleDB::decode(&db.encode()).unwrap();
    let mut a = db.into_entries();
    let mut b = back.into_entries();
    a.sort_by(|x, y| x.0.cmp(&y.0));
    b.sort_by(|x, y| x.0.cmp(&y.0));
    assert_eq!(a, b);
}

#[test]
fn decode_nonzero_bool_byte_is_true() {
    let bytes = vec![0, 0, 0, 0, 0, 0, 0, 1, b'k', 0, 7];
    let db = PickleDB::decode(&bytes).unwrap();
    assert_eq!(db.get(&String::from("k")), Some(&DataType::BOOL(true)));
}

#[test]
fn decode_duplicate_keys_last_wins() {
    let bytes = vec![
        0, 0, 0, 0, 0, 0, 0, 1, b'k', 1, 1, 0, 0, 0, 0, 0, 0, 0, 1, b'k', 1, 2,
    ];
    let db = PickleDB::decode(&bytes).unwrap();
    assert_eq!(db.get(&String::from("k")), Some(&DataType::INT8(2)));
    assert_eq!(db.into_entries().len(), 1);
}

#[test]
fn decode_unknown_tag_fails() {
    let bytes = vec![0, 0, 0, 0, 0, 0, 0, 1, b'k', 9, 0];
    assert_eq!(PickleDB::decode(&bytes).err(), Some(Error::DecodeError));
}

#[test]
fn decode_invalid_utf8_key_fails() {
    let bytes = vec![0, 0, 0, 0, 0, 0, 0, 1, 0xFF, 0, 1];
    assert_eq!(PickleDB::decode(&bytes).err(), Some(Error::DecodeError));
}

#[test]
fn decode_invalid_utf8_text_fails() {
    let bytes = vec![0, 0, 0, 0, 0, 0, 0, 1, b'k', 7, 0, 0, 0, 0, 0, 0, 0, 1, 0xC3];
    assert_eq!(PickleDB::decode(&bytes).err(), Some(Error::DecodeError));
}

#[test]
fn decode_length_past_end_fails() {
    let bytes = vec![0, 0, 0, 0, 0, 0, 0, 5, b'k'];
    assert_eq!(PickleDB::decode(&bytes).err(), Some(Error::DecodeError));
    let huge = vec![0xFF, 0xFF, 0xFF, 0xFF, 0xFF, 0xFF, 0xFF, 0xFF, b'k'];
    assert_eq!(PickleDB::decode(&huge).err(), Some(Error::DecodeError));
}

#[test]
fn decode_every_cut_inside_a_record_fails() {
    let mut db = PickleDB::new();
    db.set(String::from("a"), DataType::INT32(7));
    let first = db.encode().len();
    db.set(String::from("b"), DataType::STRING(String::from("xyz")));
    let bytes = db.encode();
    for cut in 1..bytes.len() {
        let r = PickleDB::decode(&bytes[..cut]);
        if cut == first {
            assert!(r.is_ok());
        } else {
            assert_eq!(r.err(), Some(Error::DecodeError), "cut at {}", cut);
        }
    }
}
