use jsonfmt::app::{format_parsed, keep_container, keep_parsed, JsonFmtApp, UiEvent};
use jsonfmt::codec::from_str;
use jsonfmt::edit::{EditDialog, JsonEdit};
use jsonfmt::text::is_blank;
use jsonfmt::ui::{fill_from_parsed, line_numbers, try_fill_from_clipboard};
use jsonfmt::value::JsonValue;

fn tree(text: &str) -> JsonValue {
    from_str(text).unwrap()
}

#[test]
fn a_new_window_has_the_defaults() {
    let app = JsonFmtApp::default();
    assert_eq!(app.input, "");
    assert_eq!(app.error, None);
    assert_eq!(app.indent_spaces, 2);
    assert!(app.tried_clipboard_once);
    assert_eq!(app.last_json, None);
    assert!(!app.fonts_loaded);
    assert_eq!(app.search_input, "");
    assert!(app.pending_edits.is_empty());
    assert_eq!(app.edit_dialog, None);
}

#[test]
fn a_new_window_shows_json_from_the_clipboard() {
    let app = JsonFmtApp::with_clipboard(Some("{\"b\":2,\"a\":[1]}".to_string()));
    assert_eq!(app.input, "{\n  \"b\": 2,\n  \"a\": [\n    1\n  ]\n}");
    assert_eq!(app.last_json, Some(tree("{\"b\":2,\"a\":[1]}")));
    assert!(app.tried_clipboard_once);
    let scalar = JsonFmtApp::with_clipboard(Some("42".to_string()));
    assert_eq!(scalar.input, "");
    assert_eq!(scalar.last_json, None);
    let prose = JsonFmtApp::with_clipboard(Some("not json".to_string()));
    assert_eq!(prose.input, "");
    assert_eq!(prose.last_json, None);
}

#[test]
fn clipboard_fills_only_a_blank_input() {
    let mut input = " \n\t ".to_string();
    let value = try_fill_from_clipboard(&mut input, 4, Some("[1,2]".to_string()));
    assert_eq!(value, Some(tree("[1,2]")));
    assert_eq!(input, "[\n    1,\n    2\n]");

    let mut typed = "x".to_string();
    assert_eq!(try_fill_from_clipboard(&mut typed, 2, Some("[1,2]".to_string())), None);
    assert_eq!(typed, "x");

    let mut empty = String::new();
    assert_eq!(try_fill_from_clipboard(&mut empty, 2, None), None);
    assert_eq!(try_fill_from_clipboard(&mut empty, 2, Some("\"text\"".to_string())), None);
    assert_eq!(try_fill_from_clipboard(&mut empty, 2, Some("{".to_string())), None);
    assert_eq!(empty, "");
}

#[test]
fn fill_takes_arrays_and_objects_only() {
    let mut input = String::new();
    let kept = fill_from_parsed(&mut input, 1, "{}".to_string(), Ok(tree("{\"a\":1}")));
    assert_eq!(kept, Some(tree("{\"a\":1}")));
    assert_eq!(input, "{\n \"a\": 1\n}");
    let mut other = "keep".to_string();
    assert_eq!(fill_from_parsed(&mut other, 1, "1".to_string(), Ok(tree("1"))), None);
    assert_eq!(fill_from_parsed(&mut other, 1, "x".to_string(), Err("bad".to_string())), None);
    assert_eq!(other, "keep");
}

#[test]
fn blank_means_only_white_space() {
    assert!(is_blank(""));
    assert!(is_blank(" \t\r\n"));
    assert!(is_blank("\u{2003}\u{3000}"));
    assert!(!is_blank(" a "));
    assert!(!is_blank("\u{200b}"));
    for text in ["", "  ", "\n x", "\u{a0}", "\u{feff}", "0"] {
        assert_eq!(is_blank(text), text.trim().is_empty());
    }
}

#[test]
fn format_json_uses_the_indent_that_is_set() {
    let mut app = JsonFmtApp::default();
    assert_eq!(app.format_json("{\"b\":2,\"a\":1}"), Ok("{\n  \"b\": 2,\n  \"a\": 1\n}".to_string()));
    app.indent_spaces = 0;
    assert_eq!(app.format_json("[1]"), Ok("[\n1\n]".to_string()));
    app.indent_spaces = 3;
    assert_eq!(app.format_json("[1]"), Ok("[\n   1\n]".to_string()));
    let message = serde_json::from_str::<serde_json::Value>("[1").unwrap_err().to_string();
    assert_eq!(app.format_json("[1"), Err(message));
}

#[test]
fn format_parsed_passes_the_message_on() {
    assert_eq!(format_parsed(Err("bad".to_string()), 2), Err("bad".to_string()));
    assert_eq!(format_parsed(Ok(tree("[]")), 2), Ok("[]".to_string()));
}

#[test]
fn format_button_rewrites_the_input() {
    let mut app = JsonFmtApp::default();
    app.input = "{\"a\":[1,2]}".to_string();
    app.error = Some("old".to_string());
    app.update(UiEvent::Format);
    assert_eq!(app.input, "{\n  \"a\": [\n    1,\n    2\n  ]\n}");
    assert_eq!(app.error, None);
    assert_eq!(app.last_json, Some(tree("{\"a\":[1,2]}")));
}

#[test]
fn a_scalar_is_formatted_but_is_no_tree() {
    let mut app = JsonFmtApp::default();
    app.last_json = Some(tree("[0]"));
    app.input = " 12 ".to_string();
    app.format_clicked();
    assert_eq!(app.input, "12");
    assert_eq!(app.last_json, Some(tree("[0]")));
}

#[test]
fn a_parse_error_is_shown_and_the_input_stays() {
    let mut app = JsonFmtApp::default();
    app.last_json = Some(tree("[0]"));
    app.input = "{oops".to_string();
    let message = serde_json::from_str::<serde_json::Value>("{oops").unwrap_err().to_string();
    for event in [UiEvent::Format, UiEvent::Compact, UiEvent::InputChanged] {
        app.error = None;
        app.update(event);
        assert_eq!(app.input, "{oops");
        assert_eq!(app.error, Some(message.clone()));
        assert_eq!(app.last_json, Some(tree("[0]")));
    }
}

#[test]
fn compress_button_removes_white_space() {
    let mut app = JsonFmtApp::default();
    app.input = "{ \"a\" : [ 1 , 2 ] }".to_string();
    app.update(UiEvent::Compact);
    assert_eq!(app.input, "{\"a\":[1,2]}");
    assert_eq!(app.error, None);
    assert_eq!(app.last_json, Some(tree("{\"a\":[1,2]}")));
}

#[test]
fn clear_button_keeps_the_tree() {
    let mut app = JsonFmtApp::default();
    app.input = "[1]".to_string();
    app.error = Some("e".to_string());
    app.last_json = Some(tree("[1]"));
    app.update(UiEvent::Clear);
    assert_eq!(app.input, "");
    assert_eq!(app.error, None);
    assert_eq!(app.last_json, Some(tree("[1]")));
}

#[test]
fn typing_formats_at_once() {
    let mut app = JsonFmtApp::default();
    app.indent_spaces = 1;
    app.input = "[1,{\"k\":null}]".to_string();
    app.input_changed();
    assert_eq!(app.input, "[\n 1,\n {\n  \"k\": null\n }\n]");
    assert_eq!(app.error, None);
    assert_eq!(app.last_json, Some(tree("[1,{\"k\":null}]")));
}

#[test]
fn the_tree_follows_the_input() {
    let mut app = JsonFmtApp::default();
    assert!(!app.refresh_tree());
    app.input = "[1]".to_string();
    assert!(app.refresh_tree());
    assert_eq!(app.last_json, Some(tree("[1]")));
    app.input = "  ".to_string();
    assert!(app.refresh_tree());
    assert_eq!(app.last_json, Some(tree("[1]")));
    app.input = "7".to_string();
    assert!(app.refresh_tree());
    assert_eq!(app.last_json, Some(tree("[1]")));
    app.input = "{\"a\"".to_string();
    assert!(app.refresh_tree());
    assert_eq!(app.last_json, Some(tree("[1]")));
    app.input = "{}".to_string();
    assert!(app.refresh_tree());
    assert_eq!(app.last_json, Some(tree("{}")));
}

#[test]
fn keep_takes_containers_only() {
    let mut last = None;
    keep_container(&mut last, tree("1"));
    assert_eq!(last, None);
    keep_container(&mut last, tree("[]"));
    assert_eq!(last, Some(tree("[]")));
    keep_parsed(&mut last, Err("bad".to_string()));
    keep_parsed(&mut last, Ok(tree("\"s\"")));
    assert_eq!(last, Some(tree("[]")));
    keep_parsed(&mut last, Ok(tree("{}")));
    assert_eq!(last, Some(tree("{}")));
}

#[test]
fn queued_edits_are_applied_with_two_spaces() {
    let mut app = JsonFmtApp::default();
    app.indent_spaces = 4;
    app.input = "[1,2]".to_string();
    assert!(app.refresh_tree());
    app.pending_edits.push(JsonEdit::DeleteFromArray { array_pointer: "".to_string(), idx: 0 });
    app.apply_edits();
    assert_eq!(app.last_json, Some(tree("[2]")));
    assert_eq!(app.input, "[\n  2\n]");
    assert!(app.pending_edits.is_empty());
    app.input = "typed".to_string();
    app.apply_edits();
    assert_eq!(app.input, "typed");
}

#[test]
fn edits_wait_while_there_is_no_tree() {
    let mut app = JsonFmtApp::default();
    app.pending_edits.push(JsonEdit::AddToArray { pointer: "".to_string() });
    app.apply_edits();
    assert_eq!(app.pending_edits.len(), 1);
    assert_eq!(app.input, "");
}

#[test]
fn saving_a_dialog_queues_its_edit() {
    let mut app = JsonFmtApp::default();
    app.edit_dialog = Some(EditDialog::EditValue { pointer: "/a".to_string(), input: "1".to_string() });
    app.show_edit_dialog(false, false);
    assert!(app.edit_dialog.is_some());
    assert!(app.pending_edits.is_empty());
    app.show_edit_dialog(true, true);
    assert_eq!(app.edit_dialog, None);
    assert_eq!(app.pending_edits, vec![JsonEdit::EditValue {
        pointer: "/a".to_string(),
        new_value: "1".to_string(),
    }]);
    app.edit_dialog = Some(EditDialog::EditKey {
        object_pointer: "".to_string(),
        old_key: "a".to_string(),
        input: "b".to_string(),
    });
    app.show_edit_dialog(false, true);
    assert_eq!(app.edit_dialog, None);
    assert_eq!(app.pending_edits.len(), 1);
    app.edit_dialog = Some(EditDialog::EditKey {
        object_pointer: "".to_string(),
        old_key: "a".to_string(),
        input: "b".to_string(),
    });
    app.show_edit_dialog(true, true);
    assert_eq!(app.pending_edits[1], JsonEdit::EditObjectKey {
        object_pointer: "".to_string(),
        old_key: "a".to_string(),
        new_key: "b".to_string(),
    });
    app.show_edit_dialog(true, true);
    assert_eq!(app.pending_edits.len(), 2);
}

#[test]
fn fonts_are_requested_once() {
    let mut app = JsonFmtApp::default();
    assert!(app.request_fonts());
    assert!(app.fonts_loaded);
    assert!(!app.request_fonts());
}

#[test]
fn wrapped_rows_get_no_number() {
    assert_eq!(line_numbers(&vec![]), vec![]);
    assert_eq!(line_numbers(&vec![false]), vec![Some(1)]);
    assert_eq!(
        line_numbers(&vec![true, false, true, true, false]),
        vec![Some(1), Some(2), None, Some(3), Some(4)]
    );
    assert_eq!(line_numbers(&vec![false, false, false]), vec![Some(1), None, None]);
}
