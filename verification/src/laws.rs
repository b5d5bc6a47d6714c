//! What holds of every edit and of every pointer, proved from their definitions.

use vstd::prelude::*;
use crate::edit::{
    JsonEdit, all_applied, all_taken, candidate, fresh_key, is_fresh_index, lemma_fresh_index,
    lemma_push_keeps_wf, lemma_rebuilt_distinct, lemma_taken_bounded, relabeled,
    with_key_renamed, with_new_entry, without_index, without_key,
};
use crate::decimal::{decimal, lemma_decimal};
use crate::pointer::{
    Segment, escape, joined, lemma_replace_same, lemma_resolve_replaced, lookup, pointer_of,
    pointer_path, pointer_to, replace_pair, resolve, slash_free, split, token_index, unescape,
    walk,
};
use crate::value::{
    Entries, Json, distinct_keys, has_key, key_index, lemma_key_index, lemma_key_index_at_most,
    lemma_key_index_unique,
};

verus! {

/// After an edit, its pointer addresses what the edit made of the node that the pointer
/// addressed before.
pub proof fn edit_reaches_target(tree: Json, edit: JsonEdit)
    requires
        lookup(tree, edit.target()) is Some,
    ensures
        lookup(edit.applied(tree), edit.target()) == Some(
            edit.on_node(lookup(tree, edit.target()).unwrap()),
        ),
{
    let path = pointer_path(edit.target()).unwrap();
    lemma_resolve_replaced(tree, path, edit.on_node(lookup(tree, edit.target()).unwrap()));
}

/// An edit whose pointer addresses no node leaves the tree as it is, and so does an edit
/// that makes nothing new of the node that its pointer addresses.
pub proof fn idle_edit_changes_nothing(tree: Json, edit: JsonEdit)
    requires
        lookup(tree, edit.target()) matches Some(node) ==> edit.on_node(node) == node,
    ensures
        edit.applied(tree) == tree,
{
    if lookup(tree, edit.target()) is Some {
        lemma_replace_same(tree, pointer_path(edit.target()).unwrap());
    }
}

/// A queue of edits whose pointers address no node of the tree leaves the tree as it is, so
/// that the text of the tree afterwards is the text of the tree before.
pub proof fn dangling_edits_change_nothing(edits: Seq<JsonEdit>, tree: Json)
    requires
        forall|i: int| 0 <= i < edits.len() ==> lookup(tree, (#[trigger] edits[i]).target()) is None,
    ensures
        all_applied(edits, tree) == tree,
    decreases edits.len(),
{
    if edits.len() > 0 {
        let init = edits.drop_last();
        assert forall|i: int| 0 <= i < init.len() implies lookup(
            tree,
            (#[trigger] init[i]).target(),
        ) is None by {
            assert(init[i] == edits[i]);
        }
        dangling_edits_change_nothing(init, tree);
        assert(edits.last() == edits[edits.len() - 1]);
    }
}

/// Deleting the element at index `idx` of an array of length `n`, with `idx` below `n`,
/// leaves an array of length `n - 1`: the elements before `idx` stay where they were, and
/// each later element has moved down by one.
pub proof fn delete_shortens_array(items: Seq<Json>, idx: nat)
    requires
        idx < items.len(),
    ensures
        without_index(Json::Array(items), idx) matches Json::Array(rest) && {
            &&& rest.len() == items.len() - 1
            &&& forall|j: int| 0 <= j < idx ==> rest[j] == items[j]
            &&& forall|j: int| idx <= j < rest.len() ==> rest[j] == items[j + 1]
        },
{
}

/// The same seen from the tree: where the pointer of a delete addresses an array that has an
/// element at the index, the pointer afterwards addresses that array without the element.
pub proof fn delete_from_array_in_tree(tree: Json, edit: JsonEdit, items: Seq<Json>)
    requires
        edit is DeleteFromArray,
        lookup(tree, edit.target()) == Some(Json::Array(items)),
        edit->idx < items.len(),
    ensures
        lookup(edit.applied(tree), edit.target()) == Some(
            Json::Array(items.remove(edit->idx as int)),
        ),
{
    edit_reaches_target(tree, edit);
}

/// Deleting a key from an object with distinct keys leaves an object without that key, the
/// other entries in their order.
pub proof fn delete_removes_key(entries: Entries, key: Seq<char>)
    requires
        distinct_keys(entries),
        has_key(entries, key),
    ensures
        without_key(Json::Object(entries), key) matches Json::Object(rest) && {
            &&& rest == entries.remove(key_index(entries, key))
            &&& !has_key(rest, key)
        },
{
    let k = key_index(entries, key);
    let rest = entries.remove(k);
    lemma_key_index(entries, key);
    lemma_key_index(rest, key);
    if has_key(rest, key) {
        let at = key_index(rest, key);
        let from = if at < k {
            at
        } else {
            at + 1
        };
        assert(rest[at] == entries[from]);
        lemma_key_index_unique(entries, key, from);
    }
}

/// Some candidate key is no key of the object, and the first such is at most as far down the
/// list as the object has entries.
proof fn fresh_index_from(entries: Entries, n: nat) -> (found: nat)
    requires
        all_taken(entries, n),
    ensures
        is_fresh_index(entries, found),
        found <= entries.len(),
    decreases entries.len() + 1 - n,
{
    lemma_taken_bounded(entries, n);
    if has_key(entries, candidate(n)) {
        assert(all_taken(entries, n + 1)) by {
            assert forall|m: nat| m < n + 1 implies has_key(entries, #[trigger] candidate(m)) by {
                if m < n {
                    assert(has_key(entries, candidate(m)));
                }
            }
        }
        lemma_taken_bounded(entries, n + 1);
        fresh_index_from(entries, n + 1)
    } else {
        n
    }
}

/// Adding to an object overwrites nothing: the key of the new entry is none of the keys that
/// the object had, every entry that it had stays in its place, and the new entry comes last
/// with the value `null`.
pub proof fn added_key_is_new(entries: Entries)
    ensures
        !has_key(entries, fresh_key(entries)),
        with_new_entry(Json::Object(entries)) matches Json::Object(more) && {
            &&& more.len() == entries.len() + 1
            &&& forall|i: int| 0 <= i < entries.len() ==> more[i] == entries[i]
            &&& more.last() == (fresh_key(entries), Json::Null)
        },
        distinct_keys(entries) ==> distinct_keys(entries.push((fresh_key(entries), Json::Null))),
{
    let found = fresh_index_from(entries, 0);
    lemma_fresh_index(entries, found);
    lemma_push_keeps_wf(entries, fresh_key(entries), Json::Null);
}

/// The same seen from the tree: where the pointer of an add addresses an object, the
/// pointer afterwards addresses that object with one entry more, under a key that the object
/// did not have.
pub proof fn add_to_object_in_tree(tree: Json, edit: JsonEdit, entries: Entries)
    requires
        edit is AddToObject,
        lookup(tree, edit.target()) == Some(Json::Object(entries)),
    ensures
        lookup(edit.applied(tree), edit.target()) == Some(
            Json::Object(entries.push((fresh_key(entries), Json::Null))),
        ),
        !has_key(entries, fresh_key(entries)),
{
    edit_reaches_target(tree, edit);
    added_key_is_new(entries);
}

/// Renaming a key of an object with distinct keys to a key that the object does not have
/// relabels the entry in its place: every entry keeps its position and its value.
pub proof fn rename_keeps_place(entries: Entries, old: Seq<char>, new: Seq<char>)
    requires
        distinct_keys(entries),
        has_key(entries, old),
        new == old || !has_key(entries, new),
    ensures
        with_key_renamed(Json::Object(entries), old, new) == Json::Object(
            entries.update(
                key_index(entries, old),
                (new, entries[key_index(entries, old)].1),
            ),
        ),
{
    let k = key_index(entries, old);
    lemma_key_index(entries, old);
    let labeled = relabeled(entries, old, new);
    let expected = entries.update(k, (new, entries[k].1));
    assert forall|i: int| 0 <= i < entries.len() implies labeled[i] == expected[i] by {
        if entries[i].0 == old {
            lemma_key_index_unique(entries, old, i);
        }
    }
    assert(labeled =~= expected);
    assert forall|i: int, j: int| 0 <= i < j < labeled.len() implies (#[trigger] labeled[i]).0 != (
    #[trigger] labeled[j]).0 by {
        if i == k {
            assert(labeled[j] == entries[j]);
            if entries[j].0 == new {
                lemma_key_index_at_most(entries, new, j);
            }
        } else if j == k {
            assert(labeled[i] == entries[i]);
            if entries[i].0 == new {
                lemma_key_index_at_most(entries, new, i);
            }
        } else {
            assert(labeled[i] == entries[i] && labeled[j] == entries[j]);
        }
    }
    lemma_rebuilt_distinct(labeled);
}

/// Renaming a key that the object does not have changes nothing.
pub proof fn rename_of_absent_key_changes_nothing(node: Json, old: Seq<char>, new: Seq<char>)
    requires
        node matches Json::Object(entries) ==> !has_key(entries, old),
    ensures
        with_key_renamed(node, old, new) == node,
{
}

/// A text without a `/` is one piece.
proof fn split_of_piece(piece: Seq<char>)
    requires
        slash_free(piece),
    ensures
        split(piece) == seq![piece],
    decreases piece.len(),
{
    if piece.len() > 0 {
        let init = piece.drop_last();
        split_of_piece(init);
        assert(piece.last() == piece[piece.len() - 1]);
        assert(seq![init].update(0, init.push(piece.last())) =~= seq![init.push(piece.last())]);
        assert(init.push(piece.last()) =~= piece);
    } else {
        assert(piece =~= Seq::empty());
    }
}

/// A `/` and a piece without a `/` behind a text add one piece.
proof fn split_of_appended(text: Seq<char>, piece: Seq<char>)
    requires
        slash_free(piece),
    ensures
        split(text + seq!['/'] + piece) == split(text).push(piece),
    decreases piece.len(),
{
    let whole = text + seq!['/'] + piece;
    if piece.len() == 0 {
        assert(whole.drop_last() =~= text);
        assert(piece =~= Seq::empty());
    } else {
        let init = piece.drop_last();
        split_of_appended(text, init);
        assert(whole.drop_last() =~= text + seq!['/'] + init);
        assert(whole.last() == piece[piece.len() - 1]);
        let pieces = split(text).push(init);
        assert(pieces.update(pieces.len() - 1, init.push(piece.last())) =~= split(text).push(
            init.push(piece.last()),
        ));
        assert(init.push(piece.last()) =~= piece);
    }
}

/// Splitting undoes joining: pieces without a `/`, at least one, joined by `/` and split
/// again are the same pieces.
pub proof fn split_of_joined(pieces: Seq<Seq<char>>)
    requires
        pieces.len() > 0,
        forall|i: int| 0 <= i < pieces.len() ==> slash_free(#[trigger] pieces[i]),
    ensures
        split(joined(pieces)) == pieces,
    decreases pieces.len(),
{
    if pieces.len() == 1 {
        split_of_piece(pieces[0]);
        assert(seq![pieces[0]] =~= pieces);
    } else {
        let init = pieces.drop_last();
        assert forall|i: int| 0 <= i < init.len() implies slash_free(#[trigger] init[i]) by {
            assert(init[i] == pieces[i]);
        }
        split_of_joined(init);
        assert(pieces.last() == pieces[pieces.len() - 1]);
        split_of_appended(joined(init), pieces.last());
        assert(init.push(pieces.last()) =~= pieces);
    }
}

/// Joining undoes splitting: the pieces of a text hold no `/`, and joined by `/` they are
/// the text.
pub proof fn joined_of_split(text: Seq<char>)
    ensures
        split(text).len() > 0,
        forall|i: int| 0 <= i < split(text).len() ==> slash_free(#[trigger] split(text)[i]),
        joined(split(text)) == text,
    decreases text.len(),
{
    if text.len() == 0 {
        assert(joined(seq![Seq::<char>::empty()]) =~= text);
    } else {
        let init = text.drop_last();
        let pieces = split(init);
        joined_of_split(init);
        if text.last() == '/' {
            let more = pieces.push(Seq::empty());
            assert(more.drop_last() =~= pieces);
            assert(joined(more) =~= init.push('/'));
            assert(init.push('/') =~= text);
        } else {
            let grown = pieces.last().push(text.last());
            let more = pieces.update(pieces.len() - 1, grown);
            assert forall|i: int| 0 <= i < more.len() implies slash_free(#[trigger] more[i]) by {
                if i < pieces.len() - 1 {
                    assert(more[i] == pieces[i]);
                } else {
                    assert(slash_free(pieces[pieces.len() - 1]));
                }
            }
            if pieces.len() == 1 {
                assert(joined(more) =~= init.push(text.last()));
            } else {
                assert(more.drop_last() =~= pieces.drop_last());
                assert(joined(more) =~= joined(pieces).push(text.last()));
            }
            assert(init.push(text.last()) =~= text);
        }
    }
}

/// A key with each `~` written as `~0`, and nothing else changed.
spec fn tilde_escaped(key: Seq<char>) -> Seq<char>
    decreases key.len(),
{
    if key.len() == 0 {
        Seq::empty()
    } else if key[0] == '~' {
        seq!['~', '0'] + tilde_escaped(key.skip(1))
    } else {
        seq![key[0]] + tilde_escaped(key.skip(1))
    }
}

/// Replacing in a text behind a character that begins no pair leaves the character.
proof fn replace_behind(c: char, rest: Seq<char>, first: char, second: char, with: char)
    requires
        c != first || (rest.len() > 0 && rest[0] != second) || rest.len() == 0,
    ensures
        replace_pair(seq![c] + rest, first, second, with) == seq![c] + replace_pair(
            rest,
            first,
            second,
            with,
        ),
{
    let s = seq![c] + rest;
    assert(s.skip(1) =~= rest);
    if rest.len() == 0 {
        assert(s =~= seq![c] + replace_pair(rest, first, second, with));
    } else {
        assert(s[0] == c && s[1] == rest[0]);
    }
}

/// Replacing in a text behind a pair replaces the pair.
proof fn replace_pair_ahead(rest: Seq<char>, first: char, second: char, with: char)
    ensures
        replace_pair(seq![first, second] + rest, first, second, with) == seq![with]
            + replace_pair(rest, first, second, with),
{
    let s = seq![first, second] + rest;
    assert(s.skip(2) =~= rest);
    assert(s[0] == first && s[1] == second);
}

/// The first pass of unescaping brings back every `/` and leaves the `~0`.
proof fn slashes_come_back(key: Seq<char>)
    ensures
        replace_pair(escape(key), '~', '1', '/') == tilde_escaped(key),
    decreases key.len(),
{
    if key.len() > 0 {
        let rest = escape(key.skip(1));
        slashes_come_back(key.skip(1));
        if key[0] == '~' {
            assert(seq!['~', '0'] + rest =~= seq!['~'] + (seq!['0'] + rest));
            assert((seq!['0'] + rest)[0] == '0');
            replace_behind('~', seq!['0'] + rest, '~', '1', '/');
            replace_behind('0', rest, '~', '1', '/');
            assert(seq!['~'] + (seq!['0'] + tilde_escaped(key.skip(1))) =~= seq!['~', '0']
                + tilde_escaped(key.skip(1)));
        } else if key[0] == '/' {
            replace_pair_ahead(rest, '~', '1', '/');
        } else {
            replace_behind(key[0], rest, '~', '1', '/');
        }
    }
}

/// The second pass of unescaping brings back every `~`.
proof fn tildes_come_back(key: Seq<char>)
    ensures
        replace_pair(tilde_escaped(key), '~', '0', '~') == key,
    decreases key.len(),
{
    if key.len() > 0 {
        let rest = tilde_escaped(key.skip(1));
        tildes_come_back(key.skip(1));
        if key[0] == '~' {
            replace_pair_ahead(rest, '~', '0', '~');
        } else {
            replace_behind(key[0], rest, '~', '0', '~');
        }
        assert(seq![key[0]] + key.skip(1) =~= key);
    } else {
        assert(key =~= Seq::empty());
    }
}

/// An escaped key holds no `/`.
proof fn escape_is_slash_free(key: Seq<char>)
    ensures
        slash_free(escape(key)),
    decreases key.len(),
{
    if key.len() > 0 {
        escape_is_slash_free(key.skip(1));
        let rest = escape(key.skip(1));
        let token = escape(key);
        assert forall|i: int| 0 <= i < token.len() implies token[i] != '/' by {
            if key[0] == '~' || key[0] == '/' {
                if i >= 2 {
                    assert(token[i] == rest[i - 2]);
                }
            } else if i >= 1 {
                assert(token[i] == rest[i - 1]);
            }
        }
    }
}

/// Unescaping undoes escaping: the token that is written for a key stands for that key.
pub proof fn unescape_of_escape(key: Seq<char>)
    ensures
        unescape(escape(key)) == key,
        slash_free(escape(key)),
{
    slashes_come_back(key);
    tildes_come_back(key);
    escape_is_slash_free(key);
}

/// The pointer that is written for a path of keys reads back as that path.
pub proof fn pointer_reads_back(path: Seq<Seq<char>>)
    ensures
        pointer_path(pointer_to(path)) == Some(path),
{
    if path.len() > 0 {
        let tokens = path.map_values(|key: Seq<char>| escape(key));
        let pointer = seq!['/'] + joined(tokens);
        assert(pointer.skip(1) =~= joined(tokens));
        assert forall|i: int| 0 <= i < tokens.len() implies slash_free(#[trigger] tokens[i]) by {
            unescape_of_escape(path[i]);
        }
        split_of_joined(tokens);
        assert forall|i: int| 0 <= i < path.len() implies unescape(tokens[i]) == path[i] by {
            unescape_of_escape(path[i]);
        }
        assert(tokens.map_values(|token: Seq<char>| unescape(token)) =~= path);
    } else {
        assert(path =~= Seq::empty());
    }
}

/// An index written in decimal digits reads back as that index.
pub proof fn index_reads_back(idx: nat)
    ensures
        token_index(decimal(idx)) == Some(idx),
{
    lemma_decimal(idx);
}

/// The tokens of the steps lead where the steps lead.
proof fn tokens_follow_steps(tree: Json, steps: Seq<Segment>)
    requires
        walk(tree, steps) is Some,
    ensures
        resolve(tree, steps.map_values(|step: Segment| step.token())) == walk(tree, steps),
    decreases steps.len(),
{
    let tokens = steps.map_values(|step: Segment| step.token());
    if steps.len() > 0 {
        assert(tokens[0] == steps[0].token());
        assert(tokens.skip(1) =~= steps.skip(1).map_values(|step: Segment| step.token()));
        match (tree, steps[0]) {
            (Json::Object(entries), Segment::Key(key)) => {
                lemma_key_index(entries, key@);
                tokens_follow_steps(entries[key_index(entries, key@)].1, steps.skip(1));
            },
            (Json::Array(items), Segment::Index(idx)) => {
                index_reads_back(idx as nat);
                tokens_follow_steps(items[idx as int], steps.skip(1));
            },
            _ => {},
        }
    }
}

/// The pointer that is written for the path to a node addresses that node: where the steps
/// lead to a node of the tree, indices taken in arrays and keys in objects, the pointer
/// written for the steps addresses the same node.
pub proof fn written_pointer_resolves(tree: Json, steps: Seq<Segment>)
    requires
        walk(tree, steps) is Some,
    ensures
        lookup(tree, pointer_of(steps)) == walk(tree, steps),
{
    pointer_reads_back(steps.map_values(|step: Segment| step.token()));
    tokens_follow_steps(tree, steps);
}

} // verus!
