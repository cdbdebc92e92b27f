use rust_benchy::json::{copy_list, parse, Json, JsonMap};

#[test]
fn values_are_opened() {
    let json = parse("{\"a\":[null,true,7,-1,1.5,\"é\\n\"],\"b\":{\"c\":18446744073709551615}}").unwrap();
    let items = match json.member("a") {
        Some(Json::List(items)) => items,
        other => panic!("no list: {other:?}"),
    };
    assert_eq!(items.len(), 6);
    assert!(matches!(items[0], Json::Null));
    assert!(matches!(items[1], Json::Flag(true)));
    assert!(matches!(items[2], Json::Count(7)));
    assert!(matches!(&items[3], Json::Number(number) if number.as_i64() == Some(-1)));
    assert!(matches!(&items[4], Json::Number(number) if number.as_f64() == Some(1.5)));
    assert!(matches!(&items[5], Json::Text(text) if text == "é\n"));
    let inner = json.member("b").unwrap().member("c");
    assert!(matches!(inner, Some(Json::Count(u64::MAX))));
    assert!(json.member("d").is_none());
    assert!(items[0].member("a").is_none());
}

#[test]
fn errors_are_told_in_words() {
    let words = parse("[1,").unwrap_err();
    let expected = serde_json::from_str::<serde_json::Value>("[1,").unwrap_err();
    assert_eq!(words, expected.to_string());
    assert!(parse("").is_err());
}

#[test]
fn copies_are_equal() {
    let text = "[{\"k\":[1,-2.5,\"x\"]},null,false]";
    let json = parse(text).unwrap();
    assert_eq!(format!("{:?}", json.copy()), format!("{json:?}"));
    if let Json::List(items) = &json {
        assert_eq!(format!("{:?}", copy_list(items)), format!("{items:?}"));
    }
}

#[test]
fn maps_keep_one_value_for_a_key() {
    let mut map = JsonMap::new();
    assert!(map.get("a").is_none());
    map.insert("a", Json::Count(1));
    map.insert("b", Json::Count(2));
    map.insert("a", Json::Count(3));
    assert_eq!(map.entries.len(), 2);
    assert!(matches!(map.get("a"), Some(Json::Count(3))));
    let mut other = JsonMap::new();
    other.insert("b", Json::Flag(true));
    other.insert("c", Json::Null);
    map.extend(&other);
    assert_eq!(map.entries.len(), 3);
    assert!(matches!(map.get("a"), Some(Json::Count(3))));
    assert!(matches!(map.get("b"), Some(Json::Flag(true))));
    assert!(matches!(map.get("c"), Some(Json::Null)));
}
