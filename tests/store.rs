use smolldb::datatype::DataType;
use smolldb::db::PickleDB;
use smolldb::error::Error;

fn key(s: &str) -> String {
    String::from(s)
}

#[test]
fn overwrite_returns_previous_value() {
    let mut db = PickleDB::new();
    assert_eq!(db.set(key("k"), DataType::INT32(1)), None);
    assert_eq!(db.set(key("k"), DataType::INT32(2)), Some(DataType::INT32(1)));
    assert_eq!(db.get(&key("k")), Some(&DataType::INT32(2)));
    assert_eq!(db.into_entries().len(), 1);
}

#[test]
fn missing_key_gives_empty() {
    let mut db = PickleDB::new();
    db.set(key("present"), DataType::BOOL(true));
    assert_eq!(db.get(&key("absent")), None);
    assert_eq!(db.remove(&key("absent")), None);
    assert!(db.extract::<i32>(&key("absent")).is_none());
    assert!(!db.contains_key(&key("absent")));
    assert!(db.contains_key(&key("present")));
}

#[test]
fn extract_of_other_type_is_conversion_error() {
    let mut db = PickleDB::new();
    db.set(key("t"), DataType::STRING(String::from("hello")));
    assert_eq!(db.extract::<i32>(&key("t")), Some(Err(Error::ConversionError)));
    assert_eq!(db.extract::<String>(&key("t")), Some(Ok(String::from("hello"))));
}

#[test]
fn extract_each_type() {
    let mut db = PickleDB::new();
    db.set(key("b"), DataType::BOOL(false));
    db.set(key("i8"), DataType::INT8(-5));
    db.set(key("i16"), DataType::INT16(300));
    db.set(key("i64"), DataType::INT64(-1));
    db.set(key("raw"), DataType::BYTES(vec![1, 2, 3]));
    assert_eq!(db.extract::<bool>(&key("b")), Some(Ok(false)));
    assert_eq!(db.extract::<i8>(&key("i8")), Some(Ok(-5)));
    assert_eq!(db.extract::<i16>(&key("i16")), Some(Ok(300)));
    assert_eq!(db.extract::<i64>(&key("i64")), Some(Ok(-1)));
    assert_eq!(db.extract::<Vec<u8>>(&key("raw")), Some(Ok(vec![1, 2, 3])));
    assert_eq!(db.extract::<bool>(&key("raw")), Some(Err(Error::ConversionError)));
}

#[test]
fn remove_takes_the_value_out() {
    let mut db = PickleDB::new();
    db.set(key("a"), DataType::INT8(1));
    db.set(key("b"), DataType::INT8(2));
    assert_eq!(db.remove(&key("a")), Some(DataType::INT8(1)));
    assert_eq!(db.get(&key("a")), None);
    assert_eq!(db.get(&key("b")), Some(&DataType::INT8(2)));
    assert_eq!(db.remove(&key("a")), None);
}

#[test]
fn into_entries_yields_each_pair_once() {
    let mut db = PickleDB::new();
    db.set(key("x"), DataType::INT64(10));
    db.set(key("y"), DataType::INT64(20));
    db.set(key("x"), DataType::INT64(30));
    let mut entries = db.into_entries();
    entries.sort_by(|a, b| a.0.cmp(&b.0));
    assert_eq!(
        entries,
        vec![(key("x"), DataType::INT64(30)), (key("y"), DataType::INT64(20))]
    );
}
