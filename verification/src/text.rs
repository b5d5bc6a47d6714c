//! Texts and their characters.

use vstd::prelude::*;

verus! {

/// `String::push` appends the character.
pub assume_specification[ std::string::String::push ](s: &mut std::string::String, c: char)
    ensures
        final(s)@ == old(s)@.push(c),
;

/// Whether a character is white space, as `char::is_whitespace` tells.
pub uninterp spec fn is_white_space(c: char) -> bool;

/// `char::is_whitespace`. The contract names the result.
pub assume_specification[ char::is_whitespace ](c: char) -> (r: bool)
    ensures
        r == is_white_space(c),
;

/// Whether a text holds nothing but white space.
pub open spec fn blank(text: Seq<char>) -> bool {
    forall|i: int| 0 <= i < text.len() ==> is_white_space(#[trigger] text[i])
}

/// The characters of a text.
pub fn chars_of(text: &str) -> (r: Vec<char>)
    ensures
        r@ == text@,
{
    let mut out: Vec<char> = Vec::new();
    for c in it: text.chars()
        invariant
            it.seq() == text@,
            out@ == text@.take(it.index() as int),
    {
        proof {
            assert(text@.take(it.index() + 1) =~= text@.take(it.index() as int).push(c));
        }
        out.push(c);
    }
    proof {
        assert(text@.take(text@.len() as int) =~= text@);
    }
    out
}

/// The text that the characters spell.
pub fn string_of(chars: &Vec<char>) -> (r: String)
    ensures
        r@ == chars@,
{
    let mut out = String::new();
    let mut i: usize = 0;
    while i < chars.len()
        invariant
            i <= chars.len(),
            out@ == chars@.take(i as int),
        decreases chars.len() - i,
    {
        proof {
            assert(chars@.take(i + 1) =~= chars@.take(i as int).push(chars[i as int]));
        }
        out.push(chars[i]);
        i += 1;
    }
    proof {
        assert(chars@.take(chars.len() as int) =~= chars@);
    }
    out
}

/// Whether a text holds nothing but white space, so that nothing is left when it is trimmed.
pub fn is_blank(text: &str) -> (r: bool)
    ensures
        r == blank(text@),
{
    let chars = chars_of(text);
    let mut i: usize = 0;
    while i < chars.len()
        invariant
            i <= chars.len(),
            chars@ == text@,
            forall|j: int| 0 <= j < i ==> is_white_space(#[trigger] chars[j]),
        decreases chars.len() - i,
    {
        if !chars[i].is_whitespace() {
            proof {
                assert(!is_white_space(text@[i as int]));
            }
            return false;
        }
        i += 1;
    }
    true
}

} // verus!
