use jsonfmt::decimal::push_decimal;
use jsonfmt::value::{find_key, JsonValue};

#[test]
fn decimal_digits_have_no_leading_zero() {
    for (n, text) in [(0usize, "0"), (7, "7"), (10, "10"), (105, "105"), (12345, "12345")] {
        let mut out = "n=".to_string();
        push_decimal(&mut out, n);
        assert_eq!(out, format!("n={}", text));
    }
    let mut largest = String::new();
    push_decimal(&mut largest, usize::MAX);
    assert_eq!(largest, usize::MAX.to_string());
}

#[test]
fn find_key_gives_the_first_place() {
    let entries = vec![
        ("a".to_string(), JsonValue::Null),
        ("b".to_string(), JsonValue::Bool(true)),
        ("a".to_string(), JsonValue::Bool(false)),
    ];
    assert_eq!(find_key(&entries, &"a".to_string()), 0);
    assert_eq!(find_key(&entries, &"b".to_string()), 1);
    assert_eq!(find_key(&entries, &"c".to_string()), 3);
    assert!(!JsonValue::Object(entries).is_well_formed());
}

#[test]
fn well_formed_means_no_key_twice_anywhere() {
    let inner = JsonValue::Object(vec![
        ("k".to_string(), JsonValue::Null),
        ("k".to_string(), JsonValue::Null),
    ]);
    assert!(!JsonValue::Array(vec![JsonValue::Null, inner]).is_well_formed());
    let fine = JsonValue::Object(vec![
        ("k".to_string(), JsonValue::Array(vec![])),
        ("K".to_string(), JsonValue::Object(vec![("k".to_string(), JsonValue::Null)])),
    ]);
    assert!(fine.is_well_formed());
    assert!(JsonValue::Null.is_well_formed());
    assert!(fine.is_object() && !fine.is_array());
    assert!(JsonValue::Array(vec![]).is_array());
}
