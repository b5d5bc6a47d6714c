//! The state of the formatter window, and what each event of the window does to it.
//!
//! The window itself is drawn elsewhere. It hands the events to this state and shows what
//! the state holds: the text in the editor, the error beside the toolbar, the tree.

use vstd::prelude::*;
use crate::codec::{
    compact_text, from_str, parsed, pretty_text, spaces, to_string, to_string_indented,
};
use crate::edit::{EditDialog, JsonEdit, all_applied, apply_edits};
use crate::text::{blank, is_blank};
use crate::ui::{clipboard_fill, try_fill_from_clipboard};
use crate::value::{Json, JsonValue};

verus! {

/// The state of the formatter window.
pub struct JsonFmtApp {
    /// The text in the editor.
    pub input: String,
    /// The message of the last parse that failed, until a parse succeeds again.
    pub error: Option<String>,
    /// The number of spaces by which formatting indents each level.
    pub indent_spaces: usize,
    /// Whether the clipboard was tried for a first content.
    pub tried_clipboard_once: bool,
    /// The last array or object that was parsed from the editor: the tree that is shown.
    pub last_json: Option<JsonValue>,
    /// Whether the fonts were loaded.
    pub fonts_loaded: bool,
    /// The text in the search field.
    pub search_input: String,
    /// The edits that were chosen in the tree and wait to be applied.
    pub pending_edits: Vec<JsonEdit>,
    /// The edit dialog, while it is open.
    pub edit_dialog: Option<EditDialog>,
}

/// An event of the toolbar or of the editor.
#[derive(Debug, Clone, Copy, PartialEq, Eq)]
pub enum UiEvent {
    /// The format button was clicked.
    Format,
    /// The compress button was clicked.
    Compact,
    /// The clear button was clicked.
    Clear,
    /// The text in the editor was changed.
    InputChanged,
}

/// The model of a tree that may be absent.
pub open spec fn tree_model(tree: Option<JsonValue>) -> Option<Json> {
    match tree {
        Some(value) => Some(value@),
        None => None,
    }
}

/// The texts of a message that may be absent.
pub open spec fn message_text(message: Option<String>) -> Option<Seq<char>> {
    match message {
        Some(text) => Some(text@),
        None => None,
    }
}

/// The tree that is shown once `text` was seen: the tree that the text parses to if that is
/// an array or an object, else the tree that was shown before.
pub open spec fn latest_tree(before: Option<Json>, text: Seq<char>) -> Option<Json> {
    match parsed(text) {
        Ok(tree) => if tree.is_container() {
            Some(tree)
        } else {
            before
        },
        Err(_) => before,
    }
}

/// The edit that saving a dialog queues.
pub open spec fn dialog_edit(dialog: EditDialog) -> JsonEdit {
    match dialog {
        EditDialog::EditValue { pointer, input } => JsonEdit::EditValue {
            pointer,
            new_value: input,
        },
        EditDialog::EditKey { object_pointer, old_key, input } => JsonEdit::EditObjectKey {
            object_pointer,
            old_key,
            new_key: input,
        },
    }
}

/// The text of a parsed value at the given indent, or the parser's message.
pub fn format_parsed(outcome: Result<JsonValue, String>, indent_spaces: usize) -> (r: Result<
    String,
    String,
>)
    ensures
        match outcome {
            Ok(value) => r is Ok && (value@.wf() ==> r->Ok_0@ == pretty_text(
                value@,
                spaces(indent_spaces as nat),
            )),
            Err(message) => r == Err::<String, String>(message),
        },
{
    match outcome {
        Ok(value) => to_string_indented(&value, indent_spaces),
        Err(message) => Err(message),
    }
}

/// Keeps `value` as the tree to show if it is an array or an object.
pub fn keep_container(last_json: &mut Option<JsonValue>, value: JsonValue)
    ensures
        *final(last_json) == if value@.is_container() {
            Some(value)
        } else {
            *old(last_json)
        },
{
    if value.is_object() || value.is_array() {
        *last_json = Some(value);
    }
}

/// Keeps what a parse came to as the tree to show, if it is an array or an object.
pub fn keep_parsed(last_json: &mut Option<JsonValue>, outcome: Result<JsonValue, String>)
    ensures
        *final(last_json) == (match outcome {
            Ok(value) => if value@.is_container() {
                Some(value)
            } else {
                *old(last_json)
            },
            Err(_) => *old(last_json),
        }),
{
    match outcome {
        Ok(value) => keep_container(last_json, value),
        Err(_) => {},
    }
}

impl JsonFmtApp {
    /// The tree that is shown holds no key twice in one object.
    pub open spec fn wf(&self) -> bool {
        self.last_json matches Some(value) ==> value@.wf()
    }

    /// Whether the tree that is shown holds no key twice in one object.
    pub fn is_well_formed(&self) -> (r: bool)
        ensures
            r == self.wf(),
    {
        match &self.last_json {
            Some(value) => value.is_well_formed(),
            None => true,
        }
    }

    /// The two states agree on what no event of the toolbar or the editor touches.
    pub open spec fn same_settings(&self, other: &JsonFmtApp) -> bool {
        &&& self.indent_spaces == other.indent_spaces
        &&& self.tried_clipboard_once == other.tried_clipboard_once
        &&& self.fonts_loaded == other.fonts_loaded
        &&& self.search_input == other.search_input
        &&& self.pending_edits == other.pending_edits
        &&& self.edit_dialog == other.edit_dialog
    }

    /// The state of a window that opens, given the text that was read from the clipboard
    /// (`None` where none could be read). Clipboard text that is a JSON array or object is
    /// shown at once, formatted with two spaces.
    pub fn with_clipboard(clipboard: Option<String>) -> (app: Self)
        ensures
            app.wf(),
            app.indent_spaces == 2,
            app.tried_clipboard_once,
            !app.fonts_loaded,
            app.error is None,
            app.search_input@.len() == 0,
            app.pending_edits@.len() == 0,
            app.edit_dialog is None,
            match clipboard {
                Some(content) => match clipboard_fill(content@, 2) {
                    Some(text) => {
                        &&& app.input@ == text
                        &&& parsed(content@) matches Ok(tree) && tree_model(app.last_json)
                            == Some(tree)
                    },
                    None => app.input@.len() == 0 && app.last_json is None,
                },
                None => app.input@.len() == 0 && app.last_json is None,
            },
    {
        let mut app = JsonFmtApp {
            input: String::new(),
            error: None,
            indent_spaces: 2,
            tried_clipboard_once: false,
            last_json: None,
            fonts_loaded: false,
            search_input: String::new(),
            pending_edits: Vec::new(),
            edit_dialog: None,
        };
        let indent_spaces = app.indent_spaces;
        match try_fill_from_clipboard(&mut app.input, indent_spaces, clipboard) {
            Some(value) => {
                app.last_json = Some(value);
            },
            None => {},
        }
        app.tried_clipboard_once = true;
        app
    }

    /// Formats a JSON text at the indent that is set. The error is the parser's message.
    pub fn format_json(&self, json_str: &str) -> (r: Result<String, String>)
        ensures
            match parsed(json_str@) {
                Ok(tree) => r matches Ok(text) && text@ == pretty_text(
                    tree,
                    spaces(self.indent_spaces as nat),
                ),
                Err(message) => r matches Err(shown) && shown@ == message,
            },
    {
        format_parsed(from_str(json_str), self.indent_spaces)
    }

    /// Applies the edits that wait to the tree that is shown, and shows the text of the
    /// edited tree in the editor. Without a tree the edits go on waiting.
    pub fn apply_edits(&mut self)
        ensures
            old(self).wf() ==> final(self).wf(),
            final(self).error == old(self).error,
            final(self).indent_spaces == old(self).indent_spaces,
            final(self).tried_clipboard_once == old(self).tried_clipboard_once,
            final(self).fonts_loaded == old(self).fonts_loaded,
            final(self).search_input == old(self).search_input,
            final(self).edit_dialog == old(self).edit_dialog,
            match old(self).last_json {
                Some(tree) => {
                    &&& tree_model(final(self).last_json) == Some(
                        all_applied(old(self).pending_edits@, tree@),
                    )
                    &&& final(self).pending_edits@.len() == 0
                    &&& old(self).pending_edits@.len() == 0 ==> final(self).input == old(
                        self,
                    ).input
                    &&& old(self).pending_edits@.len() > 0 && tree@.wf() ==> final(self).input@
                        == pretty_text(all_applied(old(self).pending_edits@, tree@), spaces(2))
                },
                None => {
                    &&& final(self).last_json is None
                    &&& final(self).pending_edits == old(self).pending_edits
                    &&& final(self).input == old(self).input
                },
            },
    {
        match &mut self.last_json {
            Some(value) => {
                match apply_edits(value, &mut self.pending_edits) {
                    Some(formatted) => {
                        self.input = formatted;
                    },
                    None => {},
                }
            },
            None => {},
        }
    }

    /// Ends a pass over the open edit dialog: a save queues the edit that the dialog
    /// describes, a close shuts the dialog. Nothing happens while no dialog is open.
    pub fn show_edit_dialog(&mut self, should_save: bool, should_close: bool)
        ensures
            final(self).input == old(self).input,
            final(self).error == old(self).error,
            final(self).indent_spaces == old(self).indent_spaces,
            final(self).tried_clipboard_once == old(self).tried_clipboard_once,
            final(self).last_json == old(self).last_json,
            final(self).fonts_loaded == old(self).fonts_loaded,
            final(self).search_input == old(self).search_input,
            final(self).pending_edits@ == (match old(self).edit_dialog {
                Some(dialog) => if should_save {
                    old(self).pending_edits@.push(dialog_edit(dialog))
                } else {
                    old(self).pending_edits@
                },
                None => old(self).pending_edits@,
            }),
            final(self).edit_dialog == if should_close {
                None
            } else {
                old(self).edit_dialog
            },
    {
        if should_save {
            match &self.edit_dialog {
                Some(EditDialog::EditValue { pointer, input }) => {
                    self.pending_edits.push(
                        JsonEdit::EditValue { pointer: pointer.clone(), new_value: input.clone() },
                    );
                },
                Some(EditDialog::EditKey { object_pointer, old_key, input }) => {
                    self.pending_edits.push(
                        JsonEdit::EditObjectKey {
                            object_pointer: object_pointer.clone(),
                            old_key: old_key.clone(),
                            new_key: input.clone(),
                        },
                    );
                },
                None => {},
            }
        }
        if should_close {
            self.edit_dialog = None;
        }
    }

    /// Whether the fonts are still to be loaded; they count as loaded from now on.
    pub fn request_fonts(&mut self) -> (load: bool)
        ensures
            load == !old(self).fonts_loaded,
            final(self).fonts_loaded,
            final(self).input == old(self).input,
            final(self).error == old(self).error,
            final(self).indent_spaces == old(self).indent_spaces,
            final(self).tried_clipboard_once == old(self).tried_clipboard_once,
            final(self).last_json == old(self).last_json,
            final(self).search_input == old(self).search_input,
            final(self).pending_edits == old(self).pending_edits,
            final(self).edit_dialog == old(self).edit_dialog,
    {
        let load = !self.fonts_loaded;
        self.fonts_loaded = true;
        load
    }

    /// Brings the tree up to the text in the editor before the tree is drawn: text that
    /// parses to an array or an object becomes the tree; with any other text, and with
    /// an editor that holds only white space, the tree stays. Returns whether there is a
    /// tree to draw.
    pub fn refresh_tree(&mut self) -> (shown: bool)
        ensures
            old(self).wf() ==> final(self).wf(),
            shown == final(self).last_json is Some,
            tree_model(final(self).last_json) == if blank(old(self).input@) {
                tree_model(old(self).last_json)
            } else {
                latest_tree(tree_model(old(self).last_json), old(self).input@)
            },
            final(self).input == old(self).input,
            final(self).error == old(self).error,
            final(self).same_settings(old(self)),
    {
        if !is_blank(self.input.as_str()) {
            let outcome = from_str(self.input.as_str());
            keep_parsed(&mut self.last_json, outcome);
        }
        self.last_json.is_some()
    }

    /// The format button: the text in the editor is parsed and written anew at the indent
    /// that is set; an array or object becomes the tree. Text that does not parse stays, and
    /// the parser's message is shown.
    pub fn format_clicked(&mut self)
        ensures
            old(self).wf() ==> final(self).wf(),
            final(self).same_settings(old(self)),
            match parsed(old(self).input@) {
                Ok(tree) => {
                    &&& final(self).input@ == pretty_text(
                        tree,
                        spaces(old(self).indent_spaces as nat),
                    )
                    &&& final(self).error is None
                },
                Err(message) => {
                    &&& final(self).input == old(self).input
                    &&& message_text(final(self).error) == Some(message)
                },
            },
            tree_model(final(self).last_json) == latest_tree(
                tree_model(old(self).last_json),
                old(self).input@,
            ),
    {
        self.error = None;
        match from_str(self.input.as_str()) {
            Ok(value) => {
                self.input = match to_string_indented(&value, self.indent_spaces) {
                    Ok(text) => text,
                    Err(_) => String::new(),
                };
                keep_container(&mut self.last_json, value);
            },
            Err(message) => {
                self.error = Some(message);
            },
        }
    }

    /// The compress button: as the format button, but the text is written without any
    /// white space.
    pub fn compact_clicked(&mut self)
        ensures
            old(self).wf() ==> final(self).wf(),
            final(self).same_settings(old(self)),
            match parsed(old(self).input@) {
                Ok(tree) => final(self).input@ == compact_text(tree) && final(self).error is None,
                Err(message) => {
                    &&& final(self).input == old(self).input
                    &&& message_text(final(self).error) == Some(message)
                },
            },
            tree_model(final(self).last_json) == latest_tree(
                tree_model(old(self).last_json),
                old(self).input@,
            ),
    {
        self.error = None;
        match from_str(self.input.as_str()) {
            Ok(value) => {
                self.input = to_string(&value);
                keep_container(&mut self.last_json, value);
            },
            Err(message) => {
                self.error = Some(message);
            },
        }
    }

    /// The clear button: the editor is emptied and the error taken away. The tree stays.
    pub fn clear_clicked(&mut self)
        ensures
            final(self).input@.len() == 0,
            final(self).error is None,
            final(self).last_json == old(self).last_json,
            final(self).same_settings(old(self)),
    {
        self.input = String::new();
        self.error = None;
    }

    /// The text in the editor was changed: text that parses is written anew at the indent
    /// that is set, and parsed again for the tree; text that does not parse stays, with the
    /// parser's message.
    pub fn input_changed(&mut self)
        ensures
            old(self).wf() ==> final(self).wf(),
            final(self).same_settings(old(self)),
            match parsed(old(self).input@) {
                Ok(tree) => {
                    &&& final(self).input@ == pretty_text(
                        tree,
                        spaces(old(self).indent_spaces as nat),
                    )
                    &&& final(self).error is None
                    &&& tree_model(final(self).last_json) == latest_tree(
                        tree_model(old(self).last_json),
                        final(self).input@,
                    )
                },
                Err(message) => {
                    &&& final(self).input == old(self).input
                    &&& message_text(final(self).error) == Some(message)
                    &&& tree_model(final(self).last_json) == tree_model(old(self).last_json)
                },
            },
    {
        match self.format_json(self.input.as_str()) {
            Ok(formatted) => {
                self.input = formatted;
                self.error = None;
            },
            Err(message) => {
                self.error = Some(message);
            },
        }
        let outcome = from_str(self.input.as_str());
        keep_parsed(&mut self.last_json, outcome);
    }

    /// Hands an event of the toolbar or the editor to the state.
    pub fn update(&mut self, event: UiEvent)
        ensures
            old(self).wf() ==> final(self).wf(),
            final(self).same_settings(old(self)),
            event == UiEvent::Clear ==> {
                &&& final(self).input@.len() == 0
                &&& final(self).error is None
                &&& final(self).last_json == old(self).last_json
            },
            event != UiEvent::Clear ==> match parsed(old(self).input@) {
                Ok(tree) => {
                    &&& final(self).input@ == if event == UiEvent::Compact {
                        compact_text(tree)
                    } else {
                        pretty_text(tree, spaces(old(self).indent_spaces as nat))
                    }
                    &&& final(self).error is None
                    &&& tree_model(final(self).last_json) == latest_tree(
                        tree_model(old(self).last_json),
                        if event == UiEvent::InputChanged {
                            final(self).input@
                        } else {
                            old(self).input@
                        },
                    )
                },
                Err(message) => {
                    &&& final(self).input == old(self).input
                    &&& message_text(final(self).error) == Some(message)
                    &&& tree_model(final(self).last_json) == tree_model(old(self).last_json)
                },
            },
    {
        match event {
            UiEvent::Format => self.format_clicked(),
            UiEvent::Compact => self.compact_clicked(),
            UiEvent::Clear => self.clear_clicked(),
            UiEvent::InputChanged => self.input_changed(),
        }
    }
}

impl Default for JsonFmtApp {
    /// The state of a window that opens when the clipboard gives no text.
    fn default() -> (app: Self)
        ensures
            app.wf(),
            app.input@.len() == 0,
            app.error is None,
            app.indent_spaces == 2,
            app.tried_clipboard_once,
            app.last_json is None,
            !app.fonts_loaded,
            app.search_input@.len() == 0,
            app.pending_edits@.len() == 0,
            app.edit_dialog is None,
    {
        JsonFmtApp::with_clipboard(None)
    }
}

} // verus!
