use jsonfmt::codec::{from_str, from_tree, to_string, to_string_indented, to_string_pretty, to_tree};
use jsonfmt::value::JsonValue;

fn number(n: u64) -> JsonValue {
    JsonValue::Number(serde_json::Number::from(n))
}

#[test]
fn keys_keep_their_order_when_formatted() {
    let value = from_str("{\"b\":2,\"a\":1}").unwrap();
    assert_eq!(to_string_indented(&value, 2).unwrap(), "{\n  \"b\": 2,\n  \"a\": 1\n}");
}

#[test]
fn indent_width_is_the_number_of_spaces() {
    let value = from_str("{\"b\":[1,2]}").unwrap();
    assert_eq!(to_string_indented(&value, 0).unwrap(), "{\n\"b\": [\n1,\n2\n]\n}");
    assert_eq!(to_string_indented(&value, 1).unwrap(), "{\n \"b\": [\n  1,\n  2\n ]\n}");
    assert_eq!(
        to_string_indented(&value, 4).unwrap(),
        "{\n    \"b\": [\n        1,\n        2\n    ]\n}"
    );
}

#[test]
fn pretty_is_two_spaces() {
    let value = from_str("[true,null]").unwrap();
    assert_eq!(to_string_pretty(&value).unwrap(), "[\n  true,\n  null\n]");
    assert_eq!(to_string_pretty(&value), to_string_indented(&value, 2));
}

#[test]
fn compact_has_no_whitespace() {
    let value = from_str(" { \"b\" : 2 ,\n \"a\" : [ 1 , \"x y\" ] } ").unwrap();
    assert_eq!(to_string(&value), "{\"b\":2,\"a\":[1,\"x y\"]}");
}

#[test]
fn parse_builds_the_tree_in_text_order() {
    let value = from_str("{\"b\":2,\"a\":[null,true,\"s\"]}").unwrap();
    let expected = JsonValue::Object(vec![
        ("b".to_string(), number(2)),
        (
            "a".to_string(),
            JsonValue::Array(vec![
                JsonValue::Null,
                JsonValue::Bool(true),
                JsonValue::String("s".to_string()),
            ]),
        ),
    ]);
    assert_eq!(value, expected);
}

#[test]
fn parse_error_carries_the_parser_message() {
    let text = "{\"a\":";
    let expected = serde_json::from_str::<serde_json::Value>(text).unwrap_err().to_string();
    assert_eq!(from_str(text), Err(expected));
    assert!(from_str("").is_err());
    assert!(from_str("[1,]").is_err());
}

#[test]
fn a_repeated_key_is_read_once() {
    let value = from_str("{\"a\":1,\"b\":2,\"a\":3}").unwrap();
    let expected = JsonValue::Object(vec![
        ("a".to_string(), number(3)),
        ("b".to_string(), number(2)),
    ]);
    assert_eq!(value, expected);
    assert!(value.is_well_formed());
}

#[test]
fn round_trip_gives_an_equal_tree() {
    let documents = [
        "{\"b\":2,\"a\":1}",
        "[]",
        "{}",
        "null",
        "\"text with \\\"quotes\\\" and \\n newline\"",
        "[1,-2,3.5,1e10,true,false,null,{\"k\":{\"deep\":[[],{}]}}]",
        "{\"ключ\":\"значение\",\"emoji\":\"\\ud83d\\ude00\",\"a/b\":1,\"m~n\":2}",
        "[4.971534846328698e+60,-6.251580074386699e+96,1.6290990148571758e-214]",
        "[0.1,-0.0,1e-7,123456789012345678901234567890,18446744073709551615,-9223372036854775808]",
    ];
    for document in documents {
        let first = from_str(document).unwrap();
        for indent in 0..5 {
            let text = to_string_indented(&first, indent).unwrap();
            assert_eq!(from_str(&text).unwrap(), first);
        }
        assert_eq!(from_str(&to_string(&first)).unwrap(), first);
    }
}

#[test]
fn trees_cross_over_unchanged() {
    let text = "{\"b\":[1,{\"c\":null}],\"a\":\"x\"}";
    let outside: serde_json::Value = serde_json::from_str(text).unwrap();
    let value = from_tree(outside.clone());
    assert_eq!(value, from_str(text).unwrap());
    assert_eq!(to_tree(&value), outside);
    assert_eq!(to_string(&value), serde_json::to_string(&outside).unwrap());
    assert_eq!(to_string_pretty(&value).unwrap(), serde_json::to_string_pretty(&outside).unwrap());
}
