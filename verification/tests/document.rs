use json_ez::error::Error;
use json_ez::{Json, NotFound, Value};

fn two_key_doc() -> Json {
    Json::from_pairs(vec![
        ("a".to_string(), Value::from("valid")),
        ("json".to_string(), Value::from("object")),
    ])
}

#[test]
fn json_add() {
    let mut json = two_key_doc();
    json.add("another", Value::from("item"));
    assert_eq!("item", &json.get_string("another").unwrap());
}

#[test]
fn json_add_overwrite() {
    let mut json = two_key_doc();
    json.add("a", Value::from("also valid"));
    assert_eq!("also valid", &json.get_string("a").unwrap());
}

#[test]
fn json_get_ok() {
    let json = two_key_doc();
    let item: String = json.get_string("a").unwrap();
    assert_eq!("valid", &item);
}

#[test]
fn json_get_err_not_found() {
    let json = Json::from_pairs(vec![("the".to_string(), Value::from("json"))]);
    let item = json.get_string("notFound");
    assert!(item.is_err());
    let err = item.unwrap_err();
    assert_eq!(
        r#"NotFound: Cannot found key notFound in {"the":"json"}"#,
        err.message()
    );
}

#[test]
fn inline_declaration() {
    let json = two_key_doc();
    assert_eq!("valid", &json.get_string("a").unwrap());
    assert_eq!("object", &json.get_string("json").unwrap());
}

#[test]
fn add_then_get_each_shape() {
    let mut d = Json::new();
    let quote = "So Long, and Thanks for All the Fish!";
    d.add("key1", Value::from(quote));
    d.add("key2", Value::from(42i64));
    d.add("key3", Value::from(true));
    d.add("key4", Value::Null);
    let mut inner = Json::new();
    inner.add("release_date", Value::from(2005i64));
    d.add("movie", Value::from(inner));
    d.add(
        "list",
        Value::from(vec![Value::from(1i64), Value::from(false)]),
    );

    assert_eq!(quote, &d.get_string("key1").unwrap());
    assert_eq!(42, d.get_i64("key2").unwrap());
    assert_eq!(true, d.get_bool("key3").unwrap());
    assert!(matches!(d.get("key4").unwrap(), Value::Null));
    let list = d.get_array("list").unwrap();
    assert_eq!(2, list.len());
    assert!(matches!(list[0], Value::Num(1)));
    assert!(matches!(list[1], Value::Bool(false)));
}

#[test]
fn overwrite_keeps_single_entry() {
    let mut d = Json::new();
    d.add("k", Value::from("v1"));
    d.add("k", Value::from("v2"));
    assert_eq!("v2", &d.get_string("k").unwrap());
    assert_eq!(r#"{"k":"v2"}"#, json_ez::encode(&d));
}

#[test]
fn missing_key_reports_key_and_snapshot() {
    let d = Json::new();
    match d.get_string("missing") {
        Err(Error::NotFound(key, snapshot)) => {
            assert_eq!("missing", &key);
            assert_eq!("{}", &snapshot);
        }
        other => panic!("expected a missing-key failure, got {:?}", other.is_ok()),
    }
}

#[test]
fn type_mismatch_reports_value_snapshot() {
    let mut d = Json::new();
    d.add("n", Value::from(42i64));
    match d.get_bool("n") {
        Err(Error::CannotConvert(snapshot)) => {
            assert_eq!("42", &snapshot);
        }
        other => panic!("expected a conversion failure, got {:?}", other.is_ok()),
    }
    let err = d.get_bool("n").unwrap_err();
    assert_eq!(
        "CannotConvert: Cannot convert value 42 to desired type",
        err.message()
    );
}

#[test]
fn nested_access() {
    let mut inner = Json::new();
    inner.add("release_date", Value::from(2005i64));
    let mut d = Json::new();
    d.add("movie", Value::from(inner));
    let movie = d.get_json("movie").unwrap();
    assert_eq!(2005, movie.get_i64("release_date").unwrap());
}

#[test]
fn from_pairs_last_duplicate_wins() {
    let d = Json::from_pairs(vec![
        ("a".to_string(), Value::from(1i64)),
        ("a".to_string(), Value::from(2i64)),
    ]);
    assert_eq!(2, d.get_i64("a").unwrap());
    assert_eq!(r#"{"a":2}"#, json_ez::encode(&d));
}

#[test]
fn clone_is_independent() {
    let mut d = Json::new();
    d.add("k", Value::from("original"));
    let copy = d.clone();
    d.add("k", Value::from("changed"));
    assert_eq!("original", &copy.get_string("k").unwrap());
    assert_eq!("changed", &d.get_string("k").unwrap());
}

#[test]
fn not_found_error_type() {
    let mut d = Json::new();
    d.add("present", Value::from(true));
    let err = NotFound::new("absent".to_string(), &d);
    assert_eq!(
        r#"NotFound: Cannot found key absent in {"present":true}"#,
        err.message()
    );
}
