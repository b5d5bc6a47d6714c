use jsonfmt::codec::{from_str, to_string};
use jsonfmt::edit::{
    add_entry, apply_edit, apply_edits, insert_entry, push_null, remove_index, remove_key,
    rename_key, replacement_value, unique_key, value_or_text, JsonEdit,
};
use jsonfmt::value::JsonValue;

fn tree(text: &str) -> JsonValue {
    from_str(text).unwrap()
}

fn after(text: &str, edit: JsonEdit) -> String {
    let mut value = tree(text);
    apply_edit(&mut value, edit);
    to_string(&value)
}

#[test]
fn delete_array_index_shifts_the_rest_down() {
    let edit = JsonEdit::DeleteFromArray { array_pointer: "/x".to_string(), idx: 1 };
    assert_eq!(after("{\"x\":[10,20,30,40]}", edit), "{\"x\":[10,30,40]}");
    let first = JsonEdit::DeleteFromArray { array_pointer: "".to_string(), idx: 0 };
    assert_eq!(after("[1,2,3]", first), "[2,3]");
    let last = JsonEdit::DeleteFromArray { array_pointer: "".to_string(), idx: 2 };
    assert_eq!(after("[1,2,3]", last), "[1,2]");
}

#[test]
fn delete_array_index_out_of_range_does_nothing() {
    let edit = JsonEdit::DeleteFromArray { array_pointer: "".to_string(), idx: 3 };
    assert_eq!(after("[1,2,3]", edit), "[1,2,3]");
    let on_object = JsonEdit::DeleteFromArray { array_pointer: "".to_string(), idx: 0 };
    assert_eq!(after("{\"0\":1}", on_object), "{\"0\":1}");
}

#[test]
fn delete_object_key_keeps_the_order_of_the_rest() {
    let edit = JsonEdit::DeleteFromObject { object_pointer: "".to_string(), key: "a".to_string() };
    assert_eq!(after("{\"a\":1,\"b\":2,\"c\":3,\"d\":4}", edit), "{\"b\":2,\"c\":3,\"d\":4}");
    let absent = JsonEdit::DeleteFromObject { object_pointer: "".to_string(), key: "z".to_string() };
    assert_eq!(after("{\"a\":1,\"b\":2}", absent), "{\"a\":1,\"b\":2}");
    let on_array = JsonEdit::DeleteFromObject { object_pointer: "".to_string(), key: "0".to_string() };
    assert_eq!(after("[1]", on_array), "[1]");
}

#[test]
fn add_to_object_never_overwrites() {
    let edit = JsonEdit::AddToObject { pointer: "".to_string() };
    assert_eq!(after("{}", edit.clone()), "{\"new_key\":null}");
    assert_eq!(after("{\"a\":1}", edit.clone()), "{\"a\":1,\"new_key\":null}");
    assert_eq!(
        after("{\"new_key\":1}", edit.clone()),
        "{\"new_key\":1,\"new_key_1\":null}"
    );
    assert_eq!(
        after("{\"new_key_1\":7,\"new_key\":1,\"new_key_2\":2}", edit.clone()),
        "{\"new_key_1\":7,\"new_key\":1,\"new_key_2\":2,\"new_key_3\":null}"
    );
    assert_eq!(after("{\"new_key_1\":7}", edit.clone()), "{\"new_key_1\":7,\"new_key\":null}");
    assert_eq!(after("[1]", edit), "[1]");
}

#[test]
fn unique_key_counts_past_nine() {
    let mut entries: Vec<(String, JsonValue)> = vec![("new_key".to_string(), JsonValue::Null)];
    for n in 1..=11 {
        entries.push((format!("new_key_{}", n), JsonValue::Null));
    }
    assert_eq!(unique_key(&entries), "new_key_12");
    assert_eq!(unique_key(&Vec::new()), "new_key");
}

#[test]
fn add_to_array_appends_null() {
    let edit = JsonEdit::AddToArray { pointer: "/a".to_string() };
    assert_eq!(after("{\"a\":[1]}", edit.clone()), "{\"a\":[1,null]}");
    assert_eq!(after("{\"a\":{}}", edit), "{\"a\":{}}");
}

#[test]
fn edit_value_parses_or_falls_back_to_text() {
    let parsed = JsonEdit::EditValue { pointer: "/a".to_string(), new_value: "[1,2]".to_string() };
    assert_eq!(after("{\"a\":0}", parsed), "{\"a\":[1,2]}");
    let text = JsonEdit::EditValue { pointer: "/a".to_string(), new_value: "hello".to_string() };
    assert_eq!(after("{\"a\":0}", text), "{\"a\":\"hello\"}");
    let root = JsonEdit::EditValue { pointer: "".to_string(), new_value: "true".to_string() };
    assert_eq!(after("{\"a\":0}", root), "true");
    let quoted = JsonEdit::EditValue { pointer: "/0".to_string(), new_value: "\"s\"".to_string() };
    assert_eq!(after("[1]", quoted), "[\"s\"]");
    let empty = JsonEdit::EditValue { pointer: "/0".to_string(), new_value: "".to_string() };
    assert_eq!(after("[1]", empty), "[\"\"]");
}

#[test]
fn replacement_is_the_parsed_value_or_the_text() {
    assert_eq!(replacement_value("{\"a\":1}".to_string()), tree("{\"a\":1}"));
    assert_eq!(replacement_value("{a}".to_string()), JsonValue::String("{a}".to_string()));
    assert_eq!(value_or_text(Ok(JsonValue::Null), "x".to_string()), JsonValue::Null);
    assert_eq!(
        value_or_text(Err("bad".to_string()), "x".to_string()),
        JsonValue::String("x".to_string())
    );
}

#[test]
fn rename_keeps_the_place_of_the_key() {
    let edit = JsonEdit::EditObjectKey {
        object_pointer: "".to_string(),
        old_key: "a".to_string(),
        new_key: "b".to_string(),
    };
    assert_eq!(after("{\"a\":1,\"c\":2}", edit), "{\"b\":1,\"c\":2}");
    let middle = JsonEdit::EditObjectKey {
        object_pointer: "/o".to_string(),
        old_key: "y".to_string(),
        new_key: "why".to_string(),
    };
    assert_eq!(
        after("{\"o\":{\"x\":1,\"y\":[2],\"z\":3}}", middle),
        "{\"o\":{\"x\":1,\"why\":[2],\"z\":3}}"
    );
}

#[test]
fn rename_onto_an_existing_key_is_last_write_wins() {
    let forward = JsonEdit::EditObjectKey {
        object_pointer: "".to_string(),
        old_key: "a".to_string(),
        new_key: "c".to_string(),
    };
    assert_eq!(after("{\"a\":1,\"b\":2,\"c\":3}", forward), "{\"c\":3,\"b\":2}");
    let backward = JsonEdit::EditObjectKey {
        object_pointer: "".to_string(),
        old_key: "c".to_string(),
        new_key: "a".to_string(),
    };
    assert_eq!(after("{\"a\":1,\"b\":2,\"c\":3}", backward), "{\"a\":3,\"b\":2}");
}

#[test]
fn rename_agrees_with_rebuilding_a_map() {
    let text = "{\"a\":1,\"b\":2,\"c\":3}";
    for (old_key, new_key) in [("a", "c"), ("c", "a"), ("b", "b"), ("b", "z"), ("q", "a")] {
        let outside: serde_json::Value = serde_json::from_str(text).unwrap();
        let mut rebuilt = serde_json::Map::new();
        for (k, v) in outside.as_object().unwrap() {
            let key = if k == old_key { new_key.to_string() } else { k.clone() };
            rebuilt.insert(key, v.clone());
        }
        let expected = serde_json::to_string(&serde_json::Value::Object(rebuilt)).unwrap();
        let edit = JsonEdit::EditObjectKey {
            object_pointer: "".to_string(),
            old_key: old_key.to_string(),
            new_key: new_key.to_string(),
        };
        assert_eq!(after(text, edit), expected);
    }
}

#[test]
fn rename_of_an_absent_key_does_nothing() {
    let edit = JsonEdit::EditObjectKey {
        object_pointer: "".to_string(),
        old_key: "x".to_string(),
        new_key: "a".to_string(),
    };
    assert_eq!(after("{\"a\":1,\"c\":2}", edit.clone()), "{\"a\":1,\"c\":2}");
    assert_eq!(after("[1]", edit), "[1]");
}

#[test]
fn dangling_pointer_leaves_the_tree_and_its_text() {
    let text = "{\"a\":{\"b\":1}}";
    let mut value = tree(text);
    let before = jsonfmt::codec::to_string_pretty(&value).unwrap();
    let mut edits = vec![
        JsonEdit::DeleteFromObject { object_pointer: "/x/y".to_string(), key: "k".to_string() },
        JsonEdit::DeleteFromArray { array_pointer: "/x".to_string(), idx: 0 },
        JsonEdit::AddToObject { pointer: "/a/b/c".to_string() },
        JsonEdit::AddToArray { pointer: "no-slash".to_string() },
        JsonEdit::EditValue { pointer: "/a/0".to_string(), new_value: "1".to_string() },
        JsonEdit::EditObjectKey {
            object_pointer: "/q".to_string(),
            old_key: "a".to_string(),
            new_key: "b".to_string(),
        },
    ];
    let text_after = apply_edits(&mut value, &mut edits);
    assert_eq!(value, tree(text));
    assert_eq!(text_after, Some(before));
    assert!(edits.is_empty());
}

#[test]
fn an_empty_queue_returns_nothing() {
    let mut value = tree("{\"a\":1}");
    let mut edits: Vec<JsonEdit> = Vec::new();
    assert_eq!(apply_edits(&mut value, &mut edits), None);
    assert_eq!(value, tree("{\"a\":1}"));
}

#[test]
fn edits_apply_in_order_to_the_current_tree() {
    let mut value = tree("{\"list\":[1,2,3]}");
    let mut edits = vec![
        JsonEdit::DeleteFromArray { array_pointer: "/list".to_string(), idx: 0 },
        JsonEdit::DeleteFromArray { array_pointer: "/list".to_string(), idx: 0 },
        JsonEdit::AddToObject { pointer: "".to_string() },
        JsonEdit::EditObjectKey {
            object_pointer: "".to_string(),
            old_key: "new_key".to_string(),
            new_key: "extra".to_string(),
        },
        JsonEdit::EditValue { pointer: "/extra".to_string(), new_value: "{\"k\":[]}".to_string() },
        JsonEdit::AddToArray { pointer: "/extra/k".to_string() },
    ];
    let text = apply_edits(&mut value, &mut edits);
    assert_eq!(value, tree("{\"list\":[3],\"extra\":{\"k\":[null]}}"));
    assert_eq!(
        text,
        Some(
            "{\n  \"list\": [\n    3\n  ],\n  \"extra\": {\n    \"k\": [\n      null\n    ]\n  }\n}"
                .to_string()
        )
    );
    assert!(edits.is_empty());
}

#[test]
fn node_operations_leave_other_kinds_alone() {
    let mut text = JsonValue::String("s".to_string());
    remove_index(&mut text, 0);
    remove_key(&mut text, &"k".to_string());
    add_entry(&mut text);
    push_null(&mut text);
    rename_key(&mut text, &"a".to_string(), &"b".to_string());
    assert_eq!(text, JsonValue::String("s".to_string()));
}

#[test]
fn insert_replaces_in_place_or_appends() {
    let mut entries = vec![
        ("a".to_string(), JsonValue::Bool(false)),
        ("b".to_string(), JsonValue::Null),
    ];
    insert_entry(&mut entries, "a".to_string(), JsonValue::Bool(true));
    insert_entry(&mut entries, "c".to_string(), JsonValue::Null);
    assert_eq!(entries, vec![
        ("a".to_string(), JsonValue::Bool(true)),
        ("b".to_string(), JsonValue::Null),
        ("c".to_string(), JsonValue::Null),
    ]);
}
