use rendr::blueprint::values::parse_value;
use rendr::blueprint::Values;

#[test]
fn correct_values_are_parsed_correctly() {
    let (foo, bar) = parse_value("foo:bar").unwrap();

    assert_eq!(foo, "foo");
    assert_eq!(bar, "bar");
}

#[test]
fn parse_value_splits_at_the_first_colon() {
    let (key, value) = parse_value("url:http://example.test").unwrap();

    assert_eq!(key, "url");
    assert_eq!(value, "http://example.test");
}

#[test]
fn parse_value_without_colon_is_rejected() {
    let err = parse_value("nocolon").unwrap_err();

    assert_eq!(err, "Invalid value `nocolon`");
}

#[test]
fn values_get_returns_inserted_value() {
    let mut values = Values::new();
    values.insert("name", "tove");

    assert_eq!(values.get("name").unwrap(), "tove");
    assert!(values.get("missing").is_none());
}

#[test]
fn values_insert_replaces_earlier_binding() {
    let mut values = Values::new();
    values.insert("name", "tove");
    values.insert("name", "borogove");

    assert_eq!(values.get("name").unwrap(), "borogove");
    assert_eq!(values.map().len(), 1);
}

#[test]
fn values_iter_hands_out_all_pairs() {
    let mut values = Values::new();
    values.insert("a", "1");
    values.insert("b", "2");

    let pairs = values.iter();
    assert_eq!(pairs.len(), 2);
    assert!(pairs.contains(&("a", "1")));
    assert!(pairs.contains(&("b", "2")));
    assert_eq!(values.map_str().len(), 2);
}
