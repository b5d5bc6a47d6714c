//! The context menu of the tree: which entries it offers on a node, and what choosing one
//! does.

use vstd::prelude::*;
use crate::edit::{EditDialog, JsonEdit};
use crate::pointer::Segment;

verus! {

/// The part of the tree that the menu was opened on.
#[derive(Debug, Clone, PartialEq, Eq)]
pub enum NodeContext {
    /// An array index or an object key, with the value under it.
    Property {
        /// The index or key itself.
        property: Segment,
        /// Whether the value under it is an object.
        is_object: bool,
        /// Whether the value under it is an array.
        is_array: bool,
        /// The pointer to the array or object around the value, unless the value is the root.
        parent: Option<String>,
    },
    /// A value that is neither an array nor an object.
    BaseValue {
        /// The value as a compact text.
        display: String,
        /// The pointer to the array or object around the value, unless the value is the root.
        parent: Option<String>,
        /// The last step of the path to the value, unless the value is the root.
        last: Option<Segment>,
    },
    /// A bracket of an array or a brace of an object.
    ExpandableDelimiter {
        /// Whether the value is an object.
        is_object: bool,
        /// Whether the value is an array.
        is_array: bool,
    },
}

/// An entry of the context menu.
#[derive(Debug, Clone, Copy, PartialEq, Eq)]
pub enum MenuItem {
    /// Copy the pointer of the node.
    CopyPath,
    /// Copy the text of the value.
    CopyContent,
    /// A line between the entries for copying and those for editing.
    Separator,
    /// Add an entry to the object.
    AddToObject,
    /// Append an element to the array.
    AddToArray,
    /// Open the dialog that renames the key.
    EditKey,
    /// Open the dialog that replaces the value.
    EditValue,
    /// Delete the node from the array or object around it.
    Delete,
}

/// What is left to do outside the state once an entry was chosen.
#[derive(Debug, Clone, Copy, PartialEq, Eq)]
pub enum MenuAction {
    /// Copy the pointer of the node to the clipboard.
    CopyPath,
    /// Copy the text of the node's value to the clipboard.
    CopyContent,
    /// Open the node in the tree, so that what is added shows.
    Expand,
    /// Nothing more.
    Done,
}

/// The edit that deletes what the last step of a path addresses from its parent.
pub open spec fn delete_edit(parent: String, segment: Segment) -> JsonEdit {
    match segment {
        Segment::Key(key) => JsonEdit::DeleteFromObject { object_pointer: parent, key },
        Segment::Index(idx) => JsonEdit::DeleteFromArray { array_pointer: parent, idx },
    }
}

/// The entries for adding, as far as the value takes them.
pub open spec fn add_items(is_object: bool, is_array: bool) -> Seq<MenuItem> {
    (if is_object {
        seq![MenuItem::AddToObject]
    } else {
        Seq::empty()
    }) + (if is_array {
        seq![MenuItem::AddToArray]
    } else {
        Seq::empty()
    })
}

impl NodeContext {
    /// The entries that follow the two for copying.
    pub open spec fn edit_items(self) -> Seq<MenuItem> {
        match self {
            NodeContext::Property { property, is_object, is_array, parent } => {
                (if is_object || is_array || parent is Some {
                    seq![MenuItem::Separator]
                } else {
                    Seq::empty()
                }) + add_items(is_object, is_array) + (if parent is Some && property is Key {
                    seq![MenuItem::EditKey]
                } else {
                    Seq::empty()
                }) + (if parent is Some {
                    seq![MenuItem::Delete]
                } else {
                    Seq::empty()
                })
            },
            NodeContext::BaseValue { parent, last, .. } => {
                seq![MenuItem::Separator, MenuItem::EditValue] + (if parent is Some
                    && last is Some {
                    seq![MenuItem::Delete]
                } else {
                    Seq::empty()
                })
            },
            NodeContext::ExpandableDelimiter { is_object, is_array } => {
                seq![MenuItem::Separator] + add_items(is_object, is_array)
            },
        }
    }

    /// The menu on this part of the tree, from top to bottom. The entry that copies the path
    /// is offered unless the pointer is empty.
    pub open spec fn menu(self, pointer: Seq<char>) -> Seq<MenuItem> {
        (if pointer.len() > 0 {
            seq![MenuItem::CopyPath]
        } else {
            Seq::empty()
        }) + seq![MenuItem::CopyContent] + self.edit_items()
    }

    /// The edit that choosing an entry queues, if it queues one.
    pub open spec fn queued(self, item: MenuItem, pointer: String) -> Option<JsonEdit> {
        match item {
            MenuItem::AddToObject => Some(JsonEdit::AddToObject { pointer }),
            MenuItem::AddToArray => Some(JsonEdit::AddToArray { pointer }),
            MenuItem::Delete => match self {
                NodeContext::Property { property, parent: Some(parent), .. } => Some(
                    delete_edit(parent, property),
                ),
                NodeContext::BaseValue { parent: Some(parent), last: Some(last), .. } => Some(
                    delete_edit(parent, last),
                ),
                _ => None,
            },
            _ => None,
        }
    }

    /// The dialog that choosing an entry opens, if it opens one.
    pub open spec fn opened(self, item: MenuItem, pointer: String) -> Option<EditDialog> {
        match (item, self) {
            (
                MenuItem::EditKey,
                NodeContext::Property { property: Segment::Key(key), parent: Some(parent), .. },
            ) => Some(EditDialog::EditKey { object_pointer: parent, old_key: key, input: key }),
            (MenuItem::EditValue, NodeContext::BaseValue { display, .. }) => Some(
                EditDialog::EditValue { pointer, input: display },
            ),
            _ => None,
        }
    }
}

/// What is left to do outside the state once an entry was chosen.
pub open spec fn action_of(item: MenuItem) -> MenuAction {
    match item {
        MenuItem::CopyPath => MenuAction::CopyPath,
        MenuItem::CopyContent => MenuAction::CopyContent,
        MenuItem::AddToObject => MenuAction::Expand,
        MenuItem::AddToArray => MenuAction::Expand,
        _ => MenuAction::Done,
    }
}

/// Appends the entries for adding.
fn push_add_items(items: &mut Vec<MenuItem>, is_object: bool, is_array: bool)
    ensures
        final(items)@ == old(items)@ + add_items(is_object, is_array),
{
    if is_object {
        items.push(MenuItem::AddToObject);
    }
    if is_array {
        items.push(MenuItem::AddToArray);
    }
    proof {
        assert(items@ =~= old(items)@ + add_items(is_object, is_array));
    }
}

/// The entries of the context menu on a part of the tree, from top to bottom.
pub fn show_context_menu(context: &NodeContext, pointer: &String) -> (items: Vec<MenuItem>)
    ensures
        items@ == context.menu(pointer@),
{
    let mut items: Vec<MenuItem> = Vec::new();
    if !pointer.as_str().is_empty() {
        items.push(MenuItem::CopyPath);
    }
    items.push(MenuItem::CopyContent);
    let ghost copying = items@;
    match context {
        NodeContext::Property { property, is_object, is_array, parent } => {
            if *is_object || *is_array || parent.is_some() {
                items.push(MenuItem::Separator);
            }
            push_add_items(&mut items, *is_object, *is_array);
            match (parent, property) {
                (Some(_), Segment::Key(_)) => {
                    items.push(MenuItem::EditKey);
                },
                _ => {},
            }
            if parent.is_some() {
                items.push(MenuItem::Delete);
            }
        },
        NodeContext::BaseValue { parent, last, .. } => {
            items.push(MenuItem::Separator);
            items.push(MenuItem::EditValue);
            match (parent, last) {
                (Some(_), Some(_)) => {
                    items.push(MenuItem::Delete);
                },
                _ => {},
            }
        },
        NodeContext::ExpandableDelimiter { is_object, is_array } => {
            items.push(MenuItem::Separator);
            push_add_items(&mut items, *is_object, *is_array);
        },
    }
    proof {
        assert(items@ =~= copying + context.edit_items());
        assert(copying =~= (if pointer@.len() > 0 {
            seq![MenuItem::CopyPath]
        } else {
            Seq::empty()
        }) + seq![MenuItem::CopyContent]);
    }
    items
}

/// The edit that deletes what the last step of a path addresses from its parent.
pub fn delete_from(parent: &String, segment: &Segment) -> (edit: JsonEdit)
    ensures
        edit == delete_edit(*parent, *segment),
{
    match segment {
        Segment::Key(key) => JsonEdit::DeleteFromObject {
            object_pointer: parent.clone(),
            key: key.clone(),
        },
        Segment::Index(idx) => JsonEdit::DeleteFromArray {
            array_pointer: parent.clone(),
            idx: *idx,
        },
    }
}

/// Takes the choice of an entry of the menu on a part of the tree: queues the edit or opens
/// the dialog that belongs to the entry, and tells what is left to do. A choice that the
/// menu does not offer there, and the separator, do nothing and return `None`.
pub fn choose_menu_item(
    item: MenuItem,
    context: &NodeContext,
    pointer: &String,
    pending_edits: &mut Vec<JsonEdit>,
    edit_dialog: &mut Option<EditDialog>,
) -> (action: Option<MenuAction>)
    ensures
        action == if context.menu(pointer@).contains(item) && item != MenuItem::Separator {
            Some(action_of(item))
        } else {
            None
        },
        final(pending_edits)@ == (match context.queued(item, *pointer) {
            Some(edit) => if context.menu(pointer@).contains(item) {
                old(pending_edits)@.push(edit)
            } else {
                old(pending_edits)@
            },
            None => old(pending_edits)@,
        }),
        *final(edit_dialog) == (match context.opened(item, *pointer) {
            Some(dialog) => if context.menu(pointer@).contains(item) {
                Some(dialog)
            } else {
                *old(edit_dialog)
            },
            None => *old(edit_dialog),
        }),
{
    let ghost menu = context.menu(pointer@);
    let ghost copying = (if pointer@.len() > 0 {
        seq![MenuItem::CopyPath]
    } else {
        Seq::<MenuItem>::empty()
    }) + seq![MenuItem::CopyContent];
    proof {
        lemma_menu_contains(*context, pointer@, item);
    }
    match item {
        MenuItem::CopyPath => {
            if !pointer.as_str().is_empty() {
                Some(MenuAction::CopyPath)
            } else {
                None
            }
        },
        MenuItem::CopyContent => Some(MenuAction::CopyContent),
        MenuItem::Separator => None,
        MenuItem::AddToObject => {
            match context {
                NodeContext::Property { is_object: true, .. }
                | NodeContext::ExpandableDelimiter { is_object: true, .. } => {
                    pending_edits.push(JsonEdit::AddToObject { pointer: pointer.clone() });
                    Some(MenuAction::Expand)
                },
                _ => None,
            }
        },
        MenuItem::AddToArray => {
            match context {
                NodeContext::Property { is_array: true, .. }
                | NodeContext::ExpandableDelimiter { is_array: true, .. } => {
                    pending_edits.push(JsonEdit::AddToArray { pointer: pointer.clone() });
                    Some(MenuAction::Expand)
                },
                _ => None,
            }
        },
        MenuItem::EditKey => {
            match context {
                NodeContext::Property {
                    property: Segment::Key(key),
                    parent: Some(parent),
                    ..
                } => {
                    *edit_dialog = Some(
                        EditDialog::EditKey {
                            object_pointer: parent.clone(),
                            old_key: key.clone(),
                            input: key.clone(),
                        },
                    );
                    Some(MenuAction::Done)
                },
                _ => None,
            }
        },
        MenuItem::EditValue => {
            match context {
                NodeContext::BaseValue { display, .. } => {
                    *edit_dialog = Some(
                        EditDialog::EditValue { pointer: pointer.clone(), input: display.clone() },
                    );
                    Some(MenuAction::Done)
                },
                _ => None,
            }
        },
        MenuItem::Delete => {
            match context {
                NodeContext::Property { property, parent: Some(parent), .. } => {
                    pending_edits.push(delete_from(parent, property));
                    Some(MenuAction::Done)
                },
                NodeContext::BaseValue { parent: Some(parent), last: Some(last), .. } => {
                    pending_edits.push(delete_from(parent, last));
                    Some(MenuAction::Done)
                },
                _ => None,
            }
        },
    }
}

/// Which entries a menu holds.
pub proof fn lemma_menu_contains(context: NodeContext, pointer: Seq<char>, item: MenuItem)
    ensures
        context.menu(pointer).contains(item) <==> (match item {
            MenuItem::CopyPath => pointer.len() > 0,
            MenuItem::CopyContent => true,
            MenuItem::Separator => match context {
                NodeContext::Property { is_object, is_array, parent, .. } => is_object || is_array
                    || parent is Some,
                _ => true,
            },
            MenuItem::AddToObject => match context {
                NodeContext::Property { is_object, .. } => is_object,
                NodeContext::ExpandableDelimiter { is_object, .. } => is_object,
                _ => false,
            },
            MenuItem::AddToArray => match context {
                NodeContext::Property { is_array, .. } => is_array,
                NodeContext::ExpandableDelimiter { is_array, .. } => is_array,
                _ => false,
            },
            MenuItem::EditKey => context matches NodeContext::Property {
                property: Segment::Key(_),
                parent: Some(_),
                ..
            },
            MenuItem::EditValue => context is BaseValue,
            MenuItem::Delete => match context {
                NodeContext::Property { parent, .. } => parent is Some,
                NodeContext::BaseValue { parent, last, .. } => parent is Some && last is Some,
                _ => false,
            },
        }),
{
    let menu = context.menu(pointer);
    let holds = menu.contains(item);
    if holds {
        let i = choose|i: int| 0 <= i < menu.len() && menu[i] == item;
        assert(menu[i] == item);
    }
    let copying = (if pointer.len() > 0 {
        seq![MenuItem::CopyPath]
    } else {
        Seq::<MenuItem>::empty()
    }) + seq![MenuItem::CopyContent];
    let editing = context.edit_items();
    assert(menu =~= copying + editing);
    assert forall|i: int| 0 <= i < editing.len() implies menu[copying.len() + i] == editing[i] by {}
    assert(menu[copying.len() - 1] == MenuItem::CopyContent);
    if pointer.len() > 0 {
        assert(menu[0] == MenuItem::CopyPath);
    }
    match context {
        NodeContext::Property { property, is_object, is_array, parent } => {
            let a = if is_object || is_array || parent is Some {
                seq![MenuItem::Separator]
            } else {
                Seq::empty()
            };
            let b = add_items(is_object, is_array);
            let c = if parent is Some && property is Key {
                seq![MenuItem::EditKey]
            } else {
                Seq::empty()
            };
            let d = if parent is Some {
                seq![MenuItem::Delete]
            } else {
                Seq::empty()
            };
            assert(editing =~= a + b + c + d);
            if a.len() > 0 {
                assert(editing[0] == MenuItem::Separator);
            }
            if is_object {
                assert(editing[a.len() as int] == MenuItem::AddToObject);
            }
            if is_array {
                assert(editing[a.len() + b.len() - 1] == MenuItem::AddToArray);
            }
            if c.len() > 0 {
                assert(editing[(a.len() + b.len()) as int] == MenuItem::EditKey);
            }
            if d.len() > 0 {
                assert(editing[(a.len() + b.len() + c.len()) as int] == MenuItem::Delete);
            }
        },
        NodeContext::BaseValue { parent, last, .. } => {
            assert(editing[0] == MenuItem::Separator);
            assert(editing[1] == MenuItem::EditValue);
            if parent is Some && last is Some {
                assert(editing[2] == MenuItem::Delete);
            }
        },
        NodeContext::ExpandableDelimiter { is_object, is_array } => {
            let b = add_items(is_object, is_array);
            assert(editing[0] == MenuItem::Separator);
            if is_object {
                assert(editing[1] == MenuItem::AddToObject);
            }
            if is_array {
                assert(editing[b.len() as int] == MenuItem::AddToArray);
            }
        },
    }
}

} // verus!
