use smolldb::datatype::DataType;
use smolldb::db::PickleDB;

#[test]
fn it_works() {
    let result = smolldb::add(2, 2);
    assert_eq!(result, 4);
}

#[test]
fn test_get() {
    let mut database = PickleDB::default();
    let data = String::from("data");
    let key = String::from("example");
    database.set(key.clone(), DataType::STRING(data.clone()));
    let result = database.get(&key).unwrap();
    assert_eq!(*result, DataType::STRING(data));
}
