//! JSON pointers: their grammar, and the node of a tree that one addresses.
//!
//! A pointer is either empty, and addresses the whole tree, or a `/` followed by tokens that
//! are separated by `/`. Inside a token `~1` stands for `/` and `~0` for `~`. Against an
//! object a token is a key; against an array it is an index in decimal digits.

use vstd::prelude::*;
use crate::decimal::{decimal, decimal_value, is_digit, lemma_decimal_value_grows};
use crate::text::{chars_of, string_of};
use crate::value::{
    Json, JsonValue, entries_view, find_key, has_key, items_view, key_index, lemma_array_view,
    lemma_key_index, lemma_object_view,
};

verus! {

/// The pieces of `s` between its `/` characters; there is one more piece than there are `/`.
pub open spec fn split(s: Seq<char>) -> Seq<Seq<char>>
    decreases s.len(),
{
    if s.len() == 0 {
        seq![Seq::empty()]
    } else {
        let init = split(s.drop_last());
        if s.last() == '/' {
            init.push(Seq::empty())
        } else {
            init.update(init.len() - 1, init.last().push(s.last()))
        }
    }
}

/// `s` with each occurrence of `first` followed by `second` replaced by `with`, the
/// occurrences taken from the left and not overlapping.
pub open spec fn replace_pair(s: Seq<char>, first: char, second: char, with: char) -> Seq<char>
    decreases s.len(),
{
    if s.len() < 2 {
        s
    } else if s[0] == first && s[1] == second {
        seq![with] + replace_pair(s.skip(2), first, second, with)
    } else {
        seq![s[0]] + replace_pair(s.skip(1), first, second, with)
    }
}

/// The key that a token of a pointer stands for: `~1` becomes `/`, then `~0` becomes `~`.
pub open spec fn unescape(token: Seq<char>) -> Seq<char> {
    replace_pair(replace_pair(token, '~', '1', '/'), '~', '0', '~')
}

/// The tokens of a pointer, unescaped; `None` where the text is no pointer.
pub open spec fn pointer_path(pointer: Seq<char>) -> Option<Seq<Seq<char>>> {
    if pointer.len() == 0 {
        Some(Seq::empty())
    } else if pointer[0] != '/' {
        None
    } else {
        Some(split(pointer.skip(1)).map_values(|token: Seq<char>| unescape(token)))
    }
}

/// The token that is written for a key: `~` becomes `~0` and `/` becomes `~1`.
pub open spec fn escape(key: Seq<char>) -> Seq<char>
    decreases key.len(),
{
    if key.len() == 0 {
        Seq::empty()
    } else if key[0] == '~' {
        seq!['~', '0'] + escape(key.skip(1))
    } else if key[0] == '/' {
        seq!['~', '1'] + escape(key.skip(1))
    } else {
        seq![key[0]] + escape(key.skip(1))
    }
}

/// The pieces written one after the other with a `/` between each two.
pub open spec fn joined(pieces: Seq<Seq<char>>) -> Seq<char>
    decreases pieces.len(),
{
    if pieces.len() == 0 {
        Seq::empty()
    } else if pieces.len() == 1 {
        pieces[0]
    } else {
        joined(pieces.drop_last()) + seq!['/'] + pieces.last()
    }
}

/// The pointer that is written for a path of keys: empty for the empty path, else a `/` and
/// a token before each key.
pub open spec fn pointer_to(path: Seq<Seq<char>>) -> Seq<char> {
    if path.len() == 0 {
        Seq::empty()
    } else {
        seq!['/'] + joined(path.map_values(|key: Seq<char>| escape(key)))
    }
}

/// Whether a text holds no `/`.
pub open spec fn slash_free(s: Seq<char>) -> bool {
    forall|i: int| 0 <= i < s.len() ==> s[i] != '/'
}

/// Whether a token can address an element of an array: decimal digits, at least one, and no
/// leading zero before another digit.
pub open spec fn is_index_token(token: Seq<char>) -> bool {
    &&& token.len() > 0
    &&& forall|i: int| 0 <= i < token.len() ==> is_digit(#[trigger] token[i])
    &&& token[0] == '0' ==> token.len() == 1
}

/// The array index that a token writes, if it writes one.
pub open spec fn token_index(token: Seq<char>) -> Option<nat> {
    if is_index_token(token) {
        Some(decimal_value(token))
    } else {
        None
    }
}

/// Which child of `node` a token selects: the first entry of an object with that key, the
/// element of an array at that index.
pub open spec fn child_index(node: Json, token: Seq<char>) -> Option<int> {
    match node {
        Json::Object(entries) => if has_key(entries, token) {
            Some(key_index(entries, token))
        } else {
            None
        },
        Json::Array(items) => match token_index(token) {
            Some(i) => if i < items.len() {
                Some(i as int)
            } else {
                None
            },
            None => None,
        },
        _ => None,
    }
}

/// The child of `node` at position `k`.
pub open spec fn child(node: Json, k: int) -> Json {
    match node {
        Json::Object(entries) => entries[k].1,
        Json::Array(items) => items[k],
        _ => node,
    }
}

/// `node` with its child at position `k` replaced by `new`.
pub open spec fn with_child(node: Json, k: int, new: Json) -> Json {
    match node {
        Json::Object(entries) => Json::Object(entries.update(k, (entries[k].0, new))),
        Json::Array(items) => Json::Array(items.update(k, new)),
        _ => node,
    }
}

/// The node of `tree` that the tokens lead to, if they lead to one.
pub open spec fn resolve(tree: Json, path: Seq<Seq<char>>) -> Option<Json>
    decreases path.len(),
{
    if path.len() == 0 {
        Some(tree)
    } else {
        match child_index(tree, path[0]) {
            Some(k) => resolve(child(tree, k), path.skip(1)),
            None => None,
        }
    }
}

/// `tree` with the node that the tokens lead to replaced by `new`; `tree` itself where they
/// lead nowhere.
pub open spec fn replace_at(tree: Json, path: Seq<Seq<char>>, new: Json) -> Json
    decreases path.len(),
{
    if path.len() == 0 {
        new
    } else {
        match child_index(tree, path[0]) {
            Some(k) => with_child(tree, k, replace_at(child(tree, k), path.skip(1), new)),
            None => tree,
        }
    }
}

/// The node of `tree` that `pointer` addresses, if it addresses one.
pub open spec fn lookup(tree: Json, pointer: Seq<char>) -> Option<Json> {
    match pointer_path(pointer) {
        Some(path) => resolve(tree, path),
        None => None,
    }
}

/// `tree` with the node that `pointer` addresses replaced by `new`; `tree` itself where the
/// pointer addresses nothing.
pub open spec fn replaced(tree: Json, pointer: Seq<char>, new: Json) -> Json {
    match pointer_path(pointer) {
        Some(path) => replace_at(tree, path, new),
        None => tree,
    }
}

/// One step of the path to a node: an index into an array or a key of an object.
#[derive(Debug, Clone, PartialEq, Eq)]
pub enum Segment {
    /// The place of an element in an array.
    Index(usize),
    /// The key of an entry of an object.
    Key(String),
}

impl Segment {
    /// The token that is written for the step, before it is escaped: the key, or the index
    /// in decimal digits.
    pub open spec fn token(self) -> Seq<char> {
        match self {
            Segment::Key(key) => key@,
            Segment::Index(idx) => decimal(idx as nat),
        }
    }
}

/// The node of `tree` that the steps lead to, where each index is taken in an array and each
/// key in an object.
pub open spec fn walk(tree: Json, steps: Seq<Segment>) -> Option<Json>
    decreases steps.len(),
{
    if steps.len() == 0 {
        Some(tree)
    } else {
        match (tree, steps[0]) {
            (Json::Object(entries), Segment::Key(key)) => if has_key(entries, key@) {
                walk(entries[key_index(entries, key@)].1, steps.skip(1))
            } else {
                None
            },
            (Json::Array(items), Segment::Index(idx)) => if idx < items.len() {
                walk(items[idx as int], steps.skip(1))
            } else {
                None
            },
            _ => None,
        }
    }
}

/// The pointer that is written for a path of steps.
pub open spec fn pointer_of(steps: Seq<Segment>) -> Seq<char> {
    pointer_to(steps.map_values(|step: Segment| step.token()))
}

/// The texts of a vector of strings.
pub open spec fn texts(strings: Seq<String>) -> Seq<Seq<char>> {
    strings.map_values(|s: String| s@)
}

/// The contents of a vector of character vectors.
pub open spec fn pieces(parts: Seq<Vec<char>>) -> Seq<Seq<char>> {
    parts.map_values(|p: Vec<char>| p@)
}

/// Splits the characters from `start` on at each `/`.
fn split_chars(chars: &Vec<char>, start: usize) -> (r: Vec<Vec<char>>)
    requires
        start <= chars.len(),
    ensures
        pieces(r@) == split(chars@.skip(start as int)),
{
    let ghost rest = chars@.skip(start as int);
    let mut done: Vec<Vec<char>> = Vec::new();
    let mut current: Vec<char> = Vec::new();
    let mut i: usize = start;
    proof {
        assert(rest.take(0) =~= Seq::<char>::empty());
        assert(pieces(done@).push(current@) =~= seq![Seq::<char>::empty()]);
    }
    while i < chars.len()
        invariant
            start <= i <= chars.len(),
            rest == chars@.skip(start as int),
            pieces(done@).push(current@) == split(rest.take(i - start)),
        decreases chars.len() - i,
    {
        let c = chars[i];
        proof {
            let before = rest.take(i - start);
            let after = rest.take(i + 1 - start);
            assert(after.drop_last() =~= before);
            assert(after.last() == c);
        }
        if c == '/' {
            proof {
                assert(pieces(done@.push(current)) =~= pieces(done@).push(current@));
            }
            done.push(current);
            current = Vec::new();
        } else {
            proof {
                assert(pieces(done@).push(current@.push(c)) =~= pieces(done@).push(
                    current@,
                ).update(done@.len() as int, current@.push(c)));
            }
            current.push(c);
        }
        i += 1;
    }
    proof {
        assert(rest.take(chars.len() - start) =~= rest);
        assert(pieces(done@.push(current)) =~= pieces(done@).push(current@));
    }
    done.push(current);
    done
}

/// Replaces each `first` followed by `second` by `with`, from the left.
pub fn replace_pair_chars(chars: &Vec<char>, first: char, second: char, with: char) -> (r: Vec<
    char,
>)
    ensures
        r@ == replace_pair(chars@, first, second, with),
{
    let mut out: Vec<char> = Vec::new();
    let mut i: usize = 0;
    proof {
        assert(chars@.skip(0) =~= chars@);
    }
    while i < chars.len()
        invariant
            i <= chars.len(),
            replace_pair(chars@, first, second, with) == out@ + replace_pair(
                chars@.skip(i as int),
                first,
                second,
                with,
            ),
        decreases chars.len() - i,
    {
        let ghost rest = chars@.skip(i as int);
        if i + 1 < chars.len() && chars[i] == first && chars[i + 1] == second {
            proof {
                assert(rest[0] == chars[i as int] && rest[1] == chars[i + 1]);
                assert(rest.skip(2) =~= chars@.skip(i + 2));
                assert(out@.push(with) + replace_pair(rest.skip(2), first, second, with) =~= out@
                    + (seq![with] + replace_pair(rest.skip(2), first, second, with)));
            }
            out.push(with);
            i += 2;
        } else {
            proof {
                assert(rest[0] == chars[i as int]);
                assert(rest.skip(1) =~= chars@.skip(i + 1));
                if rest.len() < 2 {
                    assert(rest =~= seq![rest[0]]);
                    assert(rest.skip(1) =~= Seq::<char>::empty());
                    assert(replace_pair(rest.skip(1), first, second, with) =~= Seq::<
                        char,
                    >::empty());
                } else {
                    assert(rest[1] == chars[i + 1]);
                }
                assert(out@.push(rest[0]) + replace_pair(rest.skip(1), first, second, with) =~= out@
                    + (seq![rest[0]] + replace_pair(rest.skip(1), first, second, with)));
            }
            out.push(chars[i]);
            i += 1;
        }
    }
    proof {
        assert(chars@.skip(chars.len() as int) =~= Seq::<char>::empty());
        assert(out@ + Seq::<char>::empty() =~= out@);
    }
    out
}

/// The tokens of a pointer, unescaped; `None` where the text is no pointer.
pub fn pointer_tokens(pointer: &str) -> (r: Option<Vec<String>>)
    ensures
        match r {
            Some(tokens) => pointer_path(pointer@) == Some(texts(tokens@)),
            None => pointer_path(pointer@) is None,
        },
{
    let chars = chars_of(pointer);
    if chars.len() == 0 {
        let tokens: Vec<String> = Vec::new();
        proof {
            assert(texts(tokens@) =~= Seq::<Seq<char>>::empty());
        }
        return Some(tokens);
    }
    if chars[0] != '/' {
        return None;
    }
    let parts = split_chars(&chars, 1);
    let ghost raw = split(pointer@.skip(1));
    let mut tokens: Vec<String> = Vec::new();
    let mut i: usize = 0;
    while i < parts.len()
        invariant
            i <= parts.len(),
            pieces(parts@) == raw,
            tokens.len() == i,
            forall|j: int| 0 <= j < i ==> (#[trigger] tokens[j])@ == unescape(raw[j]),
        decreases parts.len() - i,
    {
        let slashes = replace_pair_chars(&parts[i], '~', '1', '/');
        let plain = replace_pair_chars(&slashes, '~', '0', '~');
        proof {
            assert(pieces(parts@)[i as int] == parts[i as int]@);
        }
        tokens.push(string_of(&plain));
        i += 1;
    }
    proof {
        assert(texts(tokens@) =~= raw.map_values(|token: Seq<char>| unescape(token)));
    }
    Some(tokens)
}

/// The array index that a token writes. `None` where it writes none, and also where the
/// number is too large for `usize`: no array has an element there.
pub fn parse_index(token: &str) -> (r: Option<usize>)
    ensures
        match r {
            Some(i) => token_index(token@) == Some(i as nat),
            None => !is_index_token(token@) || decimal_value(token@) > usize::MAX,
        },
{
    let chars = chars_of(token);
    if chars.len() == 0 {
        return None;
    }
    if chars[0] == '0' && chars.len() != 1 {
        return None;
    }
    let mut value: usize = 0;
    let mut i: usize = 0;
    proof {
        assert(chars@.take(0) =~= Seq::<char>::empty());
    }
    while i < chars.len()
        invariant
            i <= chars.len(),
            chars@ == token@,
            forall|j: int| 0 <= j < i ==> is_digit(#[trigger] chars[j]),
            value == decimal_value(chars@.take(i as int)),
        decreases chars.len() - i,
    {
        let c = chars[i];
        if !(c >= '0' && c <= '9') {
            proof {
                assert(!is_digit(chars@[i as int]));
            }
            return None;
        }
        let digit: usize = (c as u32 - '0' as u32) as usize;
        proof {
            assert(chars@.take(i + 1).drop_last() =~= chars@.take(i as int));
            assert(chars@.take(i + 1).last() == c);
        }
        if value > (usize::MAX - digit) / 10 {
            proof {
                if is_index_token(chars@) {
                    lemma_decimal_value_grows(chars@, i + 1);
                }
            }
            return None;
        }
        value = value * 10 + digit;
        i += 1;
    }
    proof {
        assert(chars@.take(chars.len() as int) =~= chars@);
    }
    Some(value)
}

/// The child that a token selects is a child.
pub proof fn lemma_child_index(node: Json, token: Seq<char>)
    requires
        child_index(node, token) is Some,
    ensures
        node is Object ==> 0 <= child_index(node, token).unwrap() < node->Object_0.len(),
        node is Array ==> 0 <= child_index(node, token).unwrap() < node->Array_0.len(),
        node is Object || node is Array,
{
    if let Json::Object(entries) = node {
        lemma_key_index(entries, token);
    }
}

/// A new value for an entry moves no key.
pub proof fn lemma_key_index_with_value(entries: Seq<(Seq<char>, Json)>, k: int, new: Json, key: Seq<char>)
    requires
        0 <= k < entries.len(),
    ensures
        key_index(entries.update(k, (entries[k].0, new)), key) == key_index(entries, key),
    decreases entries.len(),
{
    let after = entries.update(k, (entries[k].0, new));
    if entries[0].0 != key {
        if k == 0 {
            assert(after.skip(1) =~= entries.skip(1));
        } else {
            lemma_key_index_with_value(entries.skip(1), k - 1, new, key);
            assert(after.skip(1) =~= entries.skip(1).update(k - 1, (entries.skip(1)[k - 1].0, new)));
        }
    }
}

/// A token selects the same child after that child, or another, was replaced.
pub proof fn lemma_child_index_with_child(node: Json, k: int, new: Json, token: Seq<char>)
    requires
        node matches Json::Object(entries) ==> 0 <= k < entries.len(),
        node matches Json::Array(items) ==> 0 <= k < items.len(),
    ensures
        child_index(with_child(node, k, new), token) == child_index(node, token),
{
    if let Json::Object(entries) = node {
        lemma_key_index_with_value(entries, k, new, token);
    }
}

/// Putting back the node that the tokens lead to changes nothing.
pub proof fn lemma_replace_same(tree: Json, path: Seq<Seq<char>>)
    requires
        resolve(tree, path) is Some,
    ensures
        replace_at(tree, path, resolve(tree, path).unwrap()) == tree,
    decreases path.len(),
{
    if path.len() > 0 {
        let k = child_index(tree, path[0]).unwrap();
        lemma_child_index(tree, path[0]);
        lemma_replace_same(child(tree, k), path.skip(1));
        match tree {
            Json::Object(entries) => {
                assert(entries.update(k, entries[k]) =~= entries);
            },
            Json::Array(items) => {
                assert(items.update(k, items[k]) =~= items);
            },
            _ => {},
        }
    }
}

/// After a node was replaced, the same tokens lead to what replaced it.
pub proof fn lemma_resolve_replaced(tree: Json, path: Seq<Seq<char>>, new: Json)
    requires
        resolve(tree, path) is Some,
    ensures
        resolve(replace_at(tree, path, new), path) == Some(new),
    decreases path.len(),
{
    if path.len() > 0 {
        let k = child_index(tree, path[0]).unwrap();
        lemma_child_index(tree, path[0]);
        let below = replace_at(child(tree, k), path.skip(1), new);
        lemma_resolve_replaced(child(tree, k), path.skip(1), new);
        lemma_child_index_with_child(tree, k, below, path[0]);
    }
}

/// Every node of a well-formed tree is well-formed.
pub proof fn lemma_resolve_wf(tree: Json, path: Seq<Seq<char>>)
    requires
        tree.wf(),
        resolve(tree, path) is Some,
    ensures
        resolve(tree, path).unwrap().wf(),
    decreases path.len(),
{
    if path.len() > 0 {
        let k = child_index(tree, path[0]).unwrap();
        lemma_child_index(tree, path[0]);
        lemma_resolve_wf(child(tree, k), path.skip(1));
    }
}

/// A well-formed tree stays well-formed when a well-formed node replaces one of its nodes.
pub proof fn lemma_replace_wf(tree: Json, path: Seq<Seq<char>>, new: Json)
    requires
        tree.wf(),
        new.wf(),
    ensures
        replace_at(tree, path, new).wf(),
    decreases path.len(),
{
    if path.len() > 0 {
        if let Some(k) = child_index(tree, path[0]) {
            lemma_child_index(tree, path[0]);
            lemma_replace_wf(child(tree, k), path.skip(1), new);
            let below = replace_at(child(tree, k), path.skip(1), new);
            match tree {
                Json::Object(entries) => {
                    let after = entries.update(k, (entries[k].0, below));
                    assert forall|i: int, j: int| 0 <= i < j < after.len() implies (
                    #[trigger] after[i]).0 != (#[trigger] after[j]).0 by {
                        assert(after[i].0 == entries[i].0);
                        assert(after[j].0 == entries[j].0);
                    }
                    assert forall|i: int| 0 <= i < after.len() implies (#[trigger] after[i]).1.wf() by {
                        if i != k {
                            assert(after[i] == entries[i]);
                        }
                    }
                },
                Json::Array(items) => {
                    let after = items.update(k, below);
                    assert forall|i: int| 0 <= i < after.len() implies (#[trigger] after[i]).wf() by {
                        if i != k {
                            assert(after[i] == items[i]);
                        }
                    }
                },
                _ => {},
            }
        }
    }
}

/// What the model of an object becomes when the value of one entry is replaced.
proof fn lemma_object_with_child(entries: Vec<(String, JsonValue)>, k: int)
    requires
        0 <= k < entries.len(),
    ensures
        JsonValue::Object(entries)@ == Json::Object(entries_view(entries@)),
        entries_view(entries@)[k] == (entries[k].0@, entries[k].1@),
        forall|after: Vec<(String, JsonValue)>, new: JsonValue|
            after@ == entries@.update(k, (entries[k].0, new)) ==> #[trigger] JsonValue::Object(
                after,
            )@ == with_child(JsonValue::Object(entries)@, k, #[trigger] new@),
        with_child(JsonValue::Object(entries)@, k, entries[k].1@) == JsonValue::Object(entries)@,
{
    lemma_object_view(entries);
    let model = entries_view(entries@);
    assert forall|after: Vec<(String, JsonValue)>, new: JsonValue|
        after@ == entries@.update(k, (entries[k].0, new)) implies #[trigger] JsonValue::Object(
        after,
    )@ == with_child(JsonValue::Object(entries)@, k, #[trigger] new@) by {
        lemma_object_view(after);
        assert(entries_view(after@) =~= model.update(k, (model[k].0, new@)));
    }
    assert(model.update(k, (model[k].0, entries[k].1@)) =~= model);
}

/// What the model of an array becomes when one element is replaced.
proof fn lemma_array_with_child(items: Vec<JsonValue>, k: int)
    requires
        0 <= k < items.len(),
    ensures
        JsonValue::Array(items)@ == Json::Array(items_view(items@)),
        items_view(items@)[k] == items[k]@,
        forall|after: Vec<JsonValue>, new: JsonValue|
            after@ == items@.update(k, new) ==> #[trigger] JsonValue::Array(after)@ == with_child(
                JsonValue::Array(items)@,
                k,
                #[trigger] new@,
            ),
        with_child(JsonValue::Array(items)@, k, items[k]@) == JsonValue::Array(items)@,
{
    lemma_array_view(items);
    let model = items_view(items@);
    assert forall|after: Vec<JsonValue>, new: JsonValue|
        after@ == items@.update(k, new) implies #[trigger] JsonValue::Array(after)@ == with_child(
        JsonValue::Array(items)@,
        k,
        #[trigger] new@,
    ) by {
        lemma_array_view(after);
        assert(items_view(after@) =~= model.update(k, new@));
    }
    assert(model.update(k, items[k]@) =~= model);
}

/// Follows the tokens from `depth` on, down from `node`.
fn descend_mut<'a>(node: &'a mut JsonValue, tokens: &Vec<String>, depth: usize) -> (r: Option<
    &'a mut JsonValue,
>)
    requires
        depth <= tokens.len(),
    ensures
        match r {
            Some(target) => {
                &&& resolve(old(node)@, texts(tokens@).skip(depth as int)) == Some(target@)
                &&& final(node)@ == replace_at(
                    old(node)@,
                    texts(tokens@).skip(depth as int),
                    final(target)@,
                )
            },
            None => {
                &&& resolve(old(node)@, texts(tokens@).skip(depth as int)) is None
                &&& final(node)@ == old(node)@
            },
        },
    decreases tokens.len() - depth,
{
    if depth == tokens.len() {
        return Some(node);
    }
    let ghost path = texts(tokens@).skip(depth as int);
    proof {
        assert(path[0] == tokens[depth as int]@);
        assert(path.skip(1) =~= texts(tokens@).skip(depth + 1));
    }
    match node {
        JsonValue::Object(entries) => {
            proof {
                lemma_object_view(*entries);
            }
            let k = find_key(entries, &tokens[depth]);
            if k < entries.len() {
                proof {
                    lemma_object_with_child(*entries, k as int);
                }
                descend_mut(&mut entries[k].1, tokens, depth + 1)
            } else {
                None
            }
        },
        JsonValue::Array(items) => {
            proof {
                lemma_array_view(*items);
            }
            match parse_index(tokens[depth].as_str()) {
                Some(i) => {
                    if i < items.len() {
                        proof {
                            lemma_array_with_child(*items, i as int);
                        }
                        descend_mut(&mut items[i], tokens, depth + 1)
                    } else {
                        None
                    }
                },
                None => None,
            }
        },
        _ => None,
    }
}

/// Follows the tokens from `depth` on, down from `node`.
fn descend<'a>(node: &'a JsonValue, tokens: &Vec<String>, depth: usize) -> (r: Option<
    &'a JsonValue,
>)
    requires
        depth <= tokens.len(),
    ensures
        match r {
            Some(target) => resolve(node@, texts(tokens@).skip(depth as int)) == Some(target@),
            None => resolve(node@, texts(tokens@).skip(depth as int)) is None,
        },
    decreases tokens.len() - depth,
{
    if depth == tokens.len() {
        return Some(node);
    }
    let ghost path = texts(tokens@).skip(depth as int);
    proof {
        assert(path[0] == tokens[depth as int]@);
        assert(path.skip(1) =~= texts(tokens@).skip(depth + 1));
    }
    match node {
        JsonValue::Object(entries) => {
            proof {
                lemma_object_view(*entries);
            }
            let k = find_key(entries, &tokens[depth]);
            if k < entries.len() {
                descend(&entries[k].1, tokens, depth + 1)
            } else {
                None
            }
        },
        JsonValue::Array(items) => {
            proof {
                lemma_array_view(*items);
            }
            match parse_index(tokens[depth].as_str()) {
                Some(i) => {
                    if i < items.len() {
                        descend(&items[i], tokens, depth + 1)
                    } else {
                        None
                    }
                },
                None => None,
            }
        },
        _ => None,
    }
}

impl JsonValue {
    /// The node that `pointer` addresses, if it addresses one.
    pub fn pointer<'a>(&'a self, pointer: &str) -> (r: Option<&'a JsonValue>)
        ensures
            match r {
                Some(node) => lookup(self@, pointer@) == Some(node@),
                None => lookup(self@, pointer@) is None,
            },
    {
        match pointer_tokens(pointer) {
            Some(tokens) => {
                proof {
                    assert(texts(tokens@).skip(0) =~= texts(tokens@));
                }
                descend(self, &tokens, 0)
            },
            None => None,
        }
    }

    /// The node that `pointer` addresses, to be changed in place. The tree afterwards is the
    /// tree before with that node replaced by what the caller leaves in it.
    pub fn pointer_mut<'a>(&'a mut self, pointer: &str) -> (r: Option<&'a mut JsonValue>)
        ensures
            match r {
                Some(node) => {
                    &&& lookup(old(self)@, pointer@) == Some(node@)
                    &&& final(self)@ == replaced(old(self)@, pointer@, final(node)@)
                },
                None => {
                    &&& lookup(old(self)@, pointer@) is None
                    &&& final(self)@ == old(self)@
                },
            },
    {
        match pointer_tokens(pointer) {
            Some(tokens) => {
                proof {
                    assert(texts(tokens@).skip(0) =~= texts(tokens@));
                }
                descend_mut(self, &tokens, 0)
            },
            None => None,
        }
    }
}

} // verus!
