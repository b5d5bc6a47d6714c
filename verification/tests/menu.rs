use jsonfmt::context_menu::{
    choose_menu_item, delete_from, show_context_menu, MenuAction, MenuItem, NodeContext,
};
use jsonfmt::pointer::Segment;
use jsonfmt::edit::{EditDialog, JsonEdit};

fn property(segment: Segment, is_object: bool, is_array: bool, parent: Option<&str>) -> NodeContext {
    NodeContext::Property {
        property: segment,
        is_object,
        is_array,
        parent: parent.map(|p| p.to_string()),
    }
}

#[test]
fn menu_on_an_object_key() {
    let context = property(Segment::Key("a".to_string()), true, false, Some(""));
    assert_eq!(show_context_menu(&context, &"/a".to_string()), vec![
        MenuItem::CopyPath,
        MenuItem::CopyContent,
        MenuItem::Separator,
        MenuItem::AddToObject,
        MenuItem::EditKey,
        MenuItem::Delete,
    ]);
}

#[test]
fn menu_on_an_array_index() {
    let context = property(Segment::Index(2), false, true, Some("/list"));
    assert_eq!(show_context_menu(&context, &"/list/2".to_string()), vec![
        MenuItem::CopyPath,
        MenuItem::CopyContent,
        MenuItem::Separator,
        MenuItem::AddToArray,
        MenuItem::Delete,
    ]);
    let scalar = property(Segment::Index(0), false, false, Some(""));
    assert_eq!(show_context_menu(&scalar, &"/0".to_string()), vec![
        MenuItem::CopyPath,
        MenuItem::CopyContent,
        MenuItem::Separator,
        MenuItem::Delete,
    ]);
}

#[test]
fn menu_on_the_root() {
    let bare = property(Segment::Key("".to_string()), false, false, None);
    assert_eq!(show_context_menu(&bare, &"".to_string()), vec![MenuItem::CopyContent]);
    let braces = NodeContext::ExpandableDelimiter { is_object: true, is_array: false };
    assert_eq!(show_context_menu(&braces, &"".to_string()), vec![
        MenuItem::CopyContent,
        MenuItem::Separator,
        MenuItem::AddToObject,
    ]);
    let value = NodeContext::BaseValue { display: "1".to_string(), parent: None, last: None };
    assert_eq!(show_context_menu(&value, &"".to_string()), vec![
        MenuItem::CopyContent,
        MenuItem::Separator,
        MenuItem::EditValue,
    ]);
}

#[test]
fn menu_on_a_value_and_on_brackets() {
    let value = NodeContext::BaseValue {
        display: "true".to_string(),
        parent: Some("/a".to_string()),
        last: Some(Segment::Index(1)),
    };
    assert_eq!(show_context_menu(&value, &"/a/1".to_string()), vec![
        MenuItem::CopyPath,
        MenuItem::CopyContent,
        MenuItem::Separator,
        MenuItem::EditValue,
        MenuItem::Delete,
    ]);
    let brackets = NodeContext::ExpandableDelimiter { is_object: false, is_array: true };
    assert_eq!(show_context_menu(&brackets, &"/a".to_string()), vec![
        MenuItem::CopyPath,
        MenuItem::CopyContent,
        MenuItem::Separator,
        MenuItem::AddToArray,
    ]);
}

#[test]
fn choosing_queues_the_edit() {
    let mut edits: Vec<JsonEdit> = Vec::new();
    let mut dialog: Option<EditDialog> = None;
    let pointer = "/o/k".to_string();
    let context = property(Segment::Key("k".to_string()), true, false, Some("/o"));
    let action = choose_menu_item(MenuItem::AddToObject, &context, &pointer, &mut edits, &mut dialog);
    assert_eq!(action, Some(MenuAction::Expand));
    let action = choose_menu_item(MenuItem::Delete, &context, &pointer, &mut edits, &mut dialog);
    assert_eq!(action, Some(MenuAction::Done));
    assert_eq!(edits, vec![
        JsonEdit::AddToObject { pointer: "/o/k".to_string() },
        JsonEdit::DeleteFromObject { object_pointer: "/o".to_string(), key: "k".to_string() },
    ]);
    assert_eq!(dialog, None);
    let action = choose_menu_item(MenuItem::EditKey, &context, &pointer, &mut edits, &mut dialog);
    assert_eq!(action, Some(MenuAction::Done));
    assert_eq!(dialog, Some(EditDialog::EditKey {
        object_pointer: "/o".to_string(),
        old_key: "k".to_string(),
        input: "k".to_string(),
    }));
    assert_eq!(edits.len(), 2);
}

#[test]
fn choosing_on_a_value() {
    let mut edits: Vec<JsonEdit> = Vec::new();
    let mut dialog: Option<EditDialog> = None;
    let pointer = "/list/3".to_string();
    let context = NodeContext::BaseValue {
        display: "\"text\"".to_string(),
        parent: Some("/list".to_string()),
        last: Some(Segment::Index(3)),
    };
    let action = choose_menu_item(MenuItem::EditValue, &context, &pointer, &mut edits, &mut dialog);
    assert_eq!(action, Some(MenuAction::Done));
    assert_eq!(dialog, Some(EditDialog::EditValue {
        pointer: "/list/3".to_string(),
        input: "\"text\"".to_string(),
    }));
    let action = choose_menu_item(MenuItem::Delete, &context, &pointer, &mut edits, &mut dialog);
    assert_eq!(action, Some(MenuAction::Done));
    assert_eq!(edits, vec![JsonEdit::DeleteFromArray { array_pointer: "/list".to_string(), idx: 3 }]);
}

#[test]
fn copying_changes_no_state() {
    let mut edits: Vec<JsonEdit> = Vec::new();
    let mut dialog: Option<EditDialog> = None;
    let context = NodeContext::ExpandableDelimiter { is_object: false, is_array: true };
    let pointer = "/a".to_string();
    assert_eq!(
        choose_menu_item(MenuItem::CopyPath, &context, &pointer, &mut edits, &mut dialog),
        Some(MenuAction::CopyPath)
    );
    assert_eq!(
        choose_menu_item(MenuItem::CopyContent, &context, &pointer, &mut edits, &mut dialog),
        Some(MenuAction::CopyContent)
    );
    assert_eq!(
        choose_menu_item(MenuItem::AddToArray, &context, &pointer, &mut edits, &mut dialog),
        Some(MenuAction::Expand)
    );
    assert_eq!(edits, vec![JsonEdit::AddToArray { pointer: "/a".to_string() }]);
    assert_eq!(dialog, None);
}

#[test]
fn what_is_not_offered_does_nothing() {
    let mut edits: Vec<JsonEdit> = Vec::new();
    let mut dialog: Option<EditDialog> = None;
    let root = "".to_string();
    let brackets = NodeContext::ExpandableDelimiter { is_object: false, is_array: true };
    for item in [
        MenuItem::CopyPath,
        MenuItem::Separator,
        MenuItem::AddToObject,
        MenuItem::EditKey,
        MenuItem::EditValue,
        MenuItem::Delete,
    ] {
        assert_eq!(choose_menu_item(item, &brackets, &root, &mut edits, &mut dialog), None);
    }
    let index = property(Segment::Index(0), false, false, Some(""));
    assert_eq!(
        choose_menu_item(MenuItem::EditKey, &index, &"/0".to_string(), &mut edits, &mut dialog),
        None
    );
    let orphan = property(Segment::Key("k".to_string()), false, false, None);
    assert_eq!(
        choose_menu_item(MenuItem::Delete, &orphan, &"/k".to_string(), &mut edits, &mut dialog),
        None
    );
    assert!(edits.is_empty());
    assert_eq!(dialog, None);
}

#[test]
fn delete_goes_by_the_kind_of_the_last_step() {
    assert_eq!(
        delete_from(&"/a".to_string(), &Segment::Key("k".to_string())),
        JsonEdit::DeleteFromObject { object_pointer: "/a".to_string(), key: "k".to_string() }
    );
    assert_eq!(
        delete_from(&"".to_string(), &Segment::Index(4)),
        JsonEdit::DeleteFromArray { array_pointer: "".to_string(), idx: 4 }
    );
}
