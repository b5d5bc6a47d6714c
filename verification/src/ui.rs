//! What the window shows beside the tree: the first fill of the input, and the numbers in
//! the margin of the editor.

use vstd::prelude::*;
use crate::codec::{from_str, parsed, pretty_text, spaces, to_string_indented};
use crate::text::{blank, is_blank};
use crate::value::{Json, JsonValue};

verus! {

/// The text that the clipboard content fills the input with, if it fills it: the content
/// parses to an array or an object, which is then written with the given indent.
pub open spec fn clipboard_fill(content: Seq<char>, indent: nat) -> Option<Seq<char>> {
    match parsed(content) {
        Ok(tree) => if tree.is_container() {
            Some(pretty_text(tree, spaces(indent)))
        } else {
            None
        },
        Err(_) => None,
    }
}

/// Fills the input from clipboard content that was parsed already. A content that is an
/// array or an object fills the input with its text at the given indent and is handed back;
/// any other content, and one that did not parse, leaves the input alone.
pub fn fill_from_parsed(
    input: &mut String,
    indent_spaces: usize,
    content: String,
    outcome: Result<JsonValue, String>,
) -> (r: Option<JsonValue>)
    ensures
        match outcome {
            Ok(value) => if value@.is_container() {
                &&& r == Some(value)
                &&& value@.wf() ==> final(input)@ == pretty_text(
                    value@,
                    spaces(indent_spaces as nat),
                )
            } else {
                r is None && *final(input) == *old(input)
            },
            Err(_) => r is None && *final(input) == *old(input),
        },
{
    match outcome {
        Ok(value) => {
            if value.is_object() || value.is_array() {
                *input = match to_string_indented(&value, indent_spaces) {
                    Ok(text) => text,
                    Err(_) => content,
                };
                Some(value)
            } else {
                None
            }
        },
        Err(_) => None,
    }
}

/// Fills an input that holds nothing but white space from the clipboard, whose text the
/// caller has read (`None` where there was none to read). The input is filled, and the
/// parsed value handed back, exactly when the clipboard text is a JSON array or object.
pub fn try_fill_from_clipboard(
    input: &mut String,
    indent_spaces: usize,
    clipboard: Option<String>,
) -> (r: Option<JsonValue>)
    ensures
        match clipboard {
            Some(content) => if blank(old(input)@) && clipboard_fill(
                content@,
                indent_spaces as nat,
            ) is Some {
                &&& r matches Some(value) && parsed(content@) == Ok::<Json, Seq<char>>(value@)
                    && value@.wf()
                &&& Some(final(input)@) == clipboard_fill(content@, indent_spaces as nat)
            } else {
                r is None && *final(input) == *old(input)
            },
            None => r is None && *final(input) == *old(input),
        },
{
    if !is_blank(input.as_str()) {
        return None;
    }
    match clipboard {
        Some(content) => {
            let outcome = from_str(content.as_str());
            fill_from_parsed(input, indent_spaces, content, outcome)
        },
        None => None,
    }
}

/// Whether a row of the laid-out text begins a line of the text: the first row does, and so
/// does each row after one that ends with a newline.
pub open spec fn starts_line(row_ends: Seq<bool>, row: int) -> bool {
    row == 0 || row_ends[row - 1]
}

/// How many of the rows before `row` begin a line.
pub open spec fn lines_before(row_ends: Seq<bool>, row: int) -> nat
    decreases row,
{
    if row <= 0 {
        0
    } else if starts_line(row_ends, row - 1) {
        lines_before(row_ends, row - 1) + 1
    } else {
        lines_before(row_ends, row - 1)
    }
}

/// The number in the margin of a row: the number of the line that begins there, counted
/// from one, or nothing where the row continues a wrapped line.
pub open spec fn line_number_at(row_ends: Seq<bool>, row: int) -> Option<nat> {
    if starts_line(row_ends, row) {
        Some(lines_before(row_ends, row) + 1)
    } else {
        None
    }
}

/// A number in the margin as a natural number.
pub open spec fn margin_model(number: Option<usize>) -> Option<nat> {
    match number {
        Some(n) => Some(n as nat),
        None => None,
    }
}

/// No more lines begin before a row than there are rows before it.
pub proof fn lemma_lines_before_bounded(row_ends: Seq<bool>, row: int)
    requires
        0 <= row,
    ensures
        lines_before(row_ends, row) <= row,
    decreases row,
{
    if row > 0 {
        lemma_lines_before_bounded(row_ends, row - 1);
    }
}

/// The numbers in the margin, one for each row of the laid-out text, given for each row
/// whether it ends with a newline.
pub fn line_numbers(row_ends_with_newline: &Vec<bool>) -> (r: Vec<Option<usize>>)
    ensures
        r.len() == row_ends_with_newline.len(),
        forall|row: int|
            0 <= row < r.len() ==> margin_model(#[trigger] r[row]) == line_number_at(
                row_ends_with_newline@,
                row,
            ),
{
    let ghost row_ends = row_ends_with_newline@;
    let mut numbers: Vec<Option<usize>> = Vec::new();
    let mut lines_begun: usize = 0;
    let mut row: usize = 0;
    while row < row_ends_with_newline.len()
        invariant
            row <= row_ends_with_newline.len(),
            row_ends == row_ends_with_newline@,
            numbers.len() == row,
            lines_begun == lines_before(row_ends, row as int),
            forall|k: int|
                0 <= k < row ==> margin_model(#[trigger] numbers[k]) == line_number_at(row_ends, k),
        decreases row_ends_with_newline.len() - row,
    {
        let is_new_line = row == 0 || row_ends_with_newline[row - 1];
        proof {
            lemma_lines_before_bounded(row_ends, row as int);
        }
        if is_new_line {
            lines_begun += 1;
            numbers.push(Some(lines_begun));
        } else {
            numbers.push(None);
        }
        row += 1;
    }
    numbers
}

} // verus!
