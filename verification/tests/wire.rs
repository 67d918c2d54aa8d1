use json_ez::{decode, encode, Json, Value};

#[test]
fn deserialise_ok() {
    let json_string = r#"{ "valid_json": true }"#;
    let json = decode(json_string);
    assert!(json.is_ok());
    assert_eq!(true, json.unwrap().get_bool("valid_json").unwrap());
}

#[test]
fn deserialise_err() {
    let json_string = "not a valid json string";
    let json = decode(json_string);
    assert!(json.is_err());
}

#[test]
fn serialise() {
    let json = Json::from_pairs(vec![("valid".to_string(), Value::from("json"))]);
    let json_string = encode(&json);
    assert_eq!(r#"{"valid":"json"}"#, json_string);
}

#[test]
fn encode_empty() {
    assert_eq!("{}", encode(&Json::new()));
}

#[test]
fn decode_empty() {
    let d = decode("{}").unwrap();
    assert!(d.get("anything").is_err());
    assert_eq!("{}", encode(&d));
}

#[test]
fn encode_book_example() {
    let mut d = Json::new();
    d.add("title", Value::from("X"));
    d.add("read", Value::from(true));
    d.add("year", Value::from(2005i64));
    assert_eq!(r#"{"title":"X","read":true,"year":2005}"#, encode(&d));
}

#[test]
fn round_trip_mixed_document() {
    let mut inner = Json::new();
    inner.add("title", Value::from("The Hitchhiker's Guide to the Galaxy"));
    inner.add("release_date", Value::from(2005i64));
    let mut d = Json::new();
    d.add("title", Value::from("X"));
    d.add("read", Value::from(true));
    d.add("year", Value::from(2005i64));
    d.add("nothing", Value::Null);
    d.add("movie", Value::from(inner));
    d.add(
        "numbers",
        Value::from(vec![
            Value::from(-1i64),
            Value::from(0i64),
            Value::from(7i64),
        ]),
    );

    let text = encode(&d);
    let back = decode(&text).unwrap();
    assert_eq!(text, encode(&back));
    assert_eq!("X", &back.get_string("title").unwrap());
    assert_eq!(true, back.get_bool("read").unwrap());
    assert_eq!(2005, back.get_i64("year").unwrap());
    let movie = back.get_json("movie").unwrap();
    assert_eq!(2005, movie.get_i64("release_date").unwrap());
    let numbers = back.get_array("numbers").unwrap();
    assert_eq!(3, numbers.len());
    assert!(matches!(numbers[0], Value::Num(-1)));
}

#[test]
fn round_trip_escaped_strings() {
    let tricky = "line\nbreak\ttab \"quoted\" back\\slash\r and \u{0001} control";
    let mut d = Json::new();
    d.add("s", Value::from(tricky));
    let text = encode(&d);
    let back = decode(&text).unwrap();
    assert_eq!(tricky, &back.get_string("s").unwrap());
}

#[test]
fn round_trip_unicode() {
    let mut d = Json::new();
    d.add("greeting", Value::from("gr\u{00FC}\u{00DF} \u{4E16}\u{754C}"));
    let text = encode(&d);
    let back = decode(&text).unwrap();
    assert_eq!(
        "gr\u{00FC}\u{00DF} \u{4E16}\u{754C}",
        &back.get_string("greeting").unwrap()
    );
}

#[test]
fn round_trip_extreme_numbers() {
    let mut d = Json::new();
    d.add("min", Value::from(i64::MIN));
    d.add("max", Value::from(i64::MAX));
    let back = decode(&encode(&d)).unwrap();
    assert_eq!(i64::MIN, back.get_i64("min").unwrap());
    assert_eq!(i64::MAX, back.get_i64("max").unwrap());
}

#[test]
fn decode_with_whitespace() {
    let text = "  { \"a\" : [ 1 , true , \"x\" ] , \"b\" : { \"c\" : null } }  ";
    let d = decode(text).unwrap();
    let a = d.get_array("a").unwrap();
    assert_eq!(3, a.len());
    assert!(matches!(a[0], Value::Num(1)));
    let b = d.get_json("b").unwrap();
    assert!(matches!(b.get("c").unwrap(), Value::Null));
}

#[test]
fn decode_unicode_escape() {
    let d = decode(r#"{"a":"\u0041\u00e9"}"#).unwrap();
    assert_eq!("A\u{00E9}", &d.get_string("a").unwrap());
}

#[test]
fn decode_duplicate_keys_last_wins() {
    let d = decode(r#"{"a":1,"a":2}"#).unwrap();
    assert_eq!(2, d.get_i64("a").unwrap());
    assert_eq!(r#"{"a":2}"#, encode(&d));
}

#[test]
fn decode_rejects_malformed() {
    assert!(decode("").is_err());
    assert!(decode("{").is_err());
    assert!(decode(r#"{"a":}"#).is_err());
    assert!(decode(r#"{"a":1"#).is_err());
    assert!(decode(r#"{"a":1} trailing"#).is_err());
    assert!(decode(r#"{"a":1.5}"#).is_err());
    assert!(decode(r#"{"a":truth}"#).is_err());
    assert!(decode(r#"{"a":"unterminated}"#).is_err());
    assert!(decode(r#"[1,2]"#).is_err());
}

#[test]
fn encode_matches_reference_serializer() {
    let mut inner = Json::new();
    inner.add("release_date", Value::from(2005i64));
    let mut d = Json::new();
    d.add("movie", Value::from(inner));
    d.add("read", Value::from(true));
    d.add("title", Value::from("The Hitchhiker's Guide to the Galaxy"));

    let mut ref_inner = serde_json::Map::new();
    ref_inner.insert(
        "release_date".to_string(),
        serde_json::Value::from(2005i64),
    );
    let mut ref_map = serde_json::Map::new();
    ref_map.insert(
        "title".to_string(),
        serde_json::Value::from("The Hitchhiker's Guide to the Galaxy"),
    );
    ref_map.insert("read".to_string(), serde_json::Value::from(true));
    ref_map.insert(
        "movie".to_string(),
        serde_json::Value::Object(ref_inner),
    );
    let reference = serde_json::to_string(&serde_json::Value::Object(ref_map)).unwrap();
    assert_eq!(reference, encode(&d));
}

#[test]
fn decode_reads_reference_serializer_output() {
    let mut ref_map = serde_json::Map::new();
    ref_map.insert("year".to_string(), serde_json::Value::from(-42i64));
    ref_map.insert(
        "name".to_string(),
        serde_json::Value::from("deep \"quote\"\n"),
    );
    let text = serde_json::to_string(&serde_json::Value::Object(ref_map)).unwrap();
    let d = decode(&text).unwrap();
    assert_eq!(-42, d.get_i64("year").unwrap());
    assert_eq!("deep \"quote\"\n", &d.get_string("name").unwrap());
}
