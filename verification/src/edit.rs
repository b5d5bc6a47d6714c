//! Edits of a JSON tree, each addressed by a pointer, and the queue that applies them.
//!
//! An edit whose pointer addresses no node, or a node of the wrong kind, changes nothing.

use vstd::prelude::*;
use crate::codec::{from_str, parsed, pretty_text, spaces, to_string_pretty};
use crate::decimal::{decimal, lemma_decimal, lemma_decimal_injective, push_decimal};
use crate::pointer::{lemma_replace_wf, lemma_resolve_wf, lookup, pointer_path, replaced};
use crate::value::{
    Entries, Json, JsonValue, distinct_keys, entries_view, find_key, has_key, items_view,
    key_index, lemma_array_view, lemma_key_index, lemma_key_index_at_most, lemma_object_view,
    lemma_wf_array, lemma_wf_object,
};

verus! {

/// An edit that waits to be applied to the tree.
#[derive(Debug, Clone, PartialEq, Eq)]
pub enum JsonEdit {
    /// Remove the entry for `key` from the object at `object_pointer`.
    DeleteFromObject { object_pointer: String, key: String },
    /// Remove the element at `idx` from the array at `array_pointer`.
    DeleteFromArray { array_pointer: String, idx: usize },
    /// Add an entry with a new key and the value `null` to the object at `pointer`.
    AddToObject { pointer: String },
    /// Append a `null` to the array at `pointer`.
    AddToArray { pointer: String },
    /// Replace the node at `pointer` by the value that `new_value` parses to, or by
    /// `new_value` as a string where it is no JSON.
    EditValue { pointer: String, new_value: String },
    /// Rename the key `old_key` of the object at `object_pointer` to `new_key`.
    EditObjectKey { object_pointer: String, old_key: String, new_key: String },
}

/// What the edit dialog is open on.
#[derive(Debug, Clone, PartialEq, Eq)]
pub enum EditDialog {
    /// A new value for the node at `pointer`; `input` is the text typed so far.
    EditValue { pointer: String, input: String },
    /// A new name for the key `old_key` of the object at `object_pointer`; `input` is the
    /// text typed so far.
    EditKey { object_pointer: String, old_key: String, input: String },
}

/// An array without its element at `idx`, the later elements moved down by one; any other
/// node, and an array that has no such element, as it is.
pub open spec fn without_index(node: Json, idx: nat) -> Json {
    match node {
        Json::Array(items) => if idx < items.len() {
            Json::Array(items.remove(idx as int))
        } else {
            node
        },
        _ => node,
    }
}

/// An object without its entry for `key`, the other entries in their order; any other node,
/// and an object without that key, as it is.
pub open spec fn without_key(node: Json, key: Seq<char>) -> Json {
    match node {
        Json::Object(entries) => if has_key(entries, key) {
            Json::Object(entries.remove(key_index(entries, key)))
        } else {
            node
        },
        _ => node,
    }
}

/// An array with a `null` appended; any other node as it is.
pub open spec fn with_null_appended(node: Json) -> Json {
    match node {
        Json::Array(items) => Json::Array(items.push(Json::Null)),
        _ => node,
    }
}

/// Removes the element at `idx` from an array.
pub fn remove_index(node: &mut JsonValue, idx: usize)
    ensures
        final(node)@ == without_index(old(node)@, idx as nat),
        old(node)@.wf() ==> final(node)@.wf(),
{
    match node {
        JsonValue::Array(items) => {
            if idx < items.len() {
                let ghost before = *items;
                proof {
                    lemma_array_view(before);
                }
                items.remove(idx);
                proof {
                    lemma_array_view(*items);
                    let old_models = items_view(before@);
                    let new_models = items_view(items@);
                    assert(new_models =~= old_models.remove(idx as int));
                    lemma_wf_array(old_models);
                    lemma_wf_array(new_models);
                    assert forall|i: int| 0 <= i < new_models.len() && Json::Array(
                        old_models,
                    ).wf() implies (#[trigger] new_models[i]).wf() by {
                        if i < idx {
                            assert(new_models[i] == old_models[i]);
                        } else {
                            assert(new_models[i] == old_models[i + 1]);
                        }
                    }
                }
            }
        },
        _ => {},
    }
}

/// Removes the entry for `key` from an object.
pub fn remove_key(node: &mut JsonValue, key: &String)
    ensures
        final(node)@ == without_key(old(node)@, key@),
        old(node)@.wf() ==> final(node)@.wf(),
{
    match node {
        JsonValue::Object(entries) => {
            let ghost before = *entries;
            proof {
                lemma_object_view(before);
            }
            let k = find_key(entries, key);
            if k < entries.len() {
                entries.remove(k);
                proof {
                    lemma_object_view(*entries);
                    let old_models = entries_view(before@);
                    let new_models = entries_view(entries@);
                    assert(new_models =~= old_models.remove(k as int));
                    lemma_wf_object(old_models);
                    lemma_wf_object(new_models);
                    lemma_remove_keeps_wf(old_models, k as int);
                }
            }
        },
        _ => {},
    }
}

/// Entries with distinct keys and well-formed values stay so when one is removed.
pub proof fn lemma_remove_keeps_wf(entries: Entries, k: int)
    requires
        0 <= k < entries.len(),
    ensures
        distinct_keys(entries) ==> distinct_keys(entries.remove(k)),
        (forall|i: int| 0 <= i < entries.len() ==> (#[trigger] entries[i]).1.wf()) ==> (forall|
            i: int,
        | 0 <= i < entries.remove(k).len() ==> (#[trigger] entries.remove(k)[i]).1.wf()),
{
    let after = entries.remove(k);
    if distinct_keys(entries) {
        assert forall|i: int, j: int| 0 <= i < j < after.len() implies (#[trigger] after[i]).0 != (
        #[trigger] after[j]).0 by {
            let a = if i < k {
                i
            } else {
                i + 1
            };
            let b = if j < k {
                j
            } else {
                j + 1
            };
            assert(after[i] == entries[a]);
            assert(after[j] == entries[b]);
        }
    }
    if forall|i: int| 0 <= i < entries.len() ==> (#[trigger] entries[i]).1.wf() {
        assert forall|i: int| 0 <= i < after.len() implies (#[trigger] after[i]).1.wf() by {
            if i < k {
                assert(after[i] == entries[i]);
            } else {
                assert(after[i] == entries[i + 1]);
            }
        }
    }
}

/// Appends a `null` to an array.
pub fn push_null(node: &mut JsonValue)
    ensures
        final(node)@ == with_null_appended(old(node)@),
        old(node)@.wf() ==> final(node)@.wf(),
{
    match node {
        JsonValue::Array(items) => {
            let ghost before = *items;
            proof {
                lemma_array_view(before);
            }
            items.push(JsonValue::Null);
            proof {
                lemma_array_view(*items);
                let old_models = items_view(before@);
                let new_models = items_view(items@);
                assert(new_models =~= old_models.push(Json::Null));
                lemma_wf_array(old_models);
                lemma_wf_array(new_models);
                assert forall|i: int| 0 <= i < new_models.len() && Json::Array(
                    old_models,
                ).wf() implies (#[trigger] new_models[i]).wf() by {
                    if i < old_models.len() {
                        assert(new_models[i] == old_models[i]);
                    }
                }
            }
        },
        _ => {},
    }
}

/// The `n`-th key tried for a new entry: `new_key`, then `new_key_1`, `new_key_2`, and so on.
pub open spec fn candidate(n: nat) -> Seq<char> {
    if n == 0 {
        "new_key"@
    } else {
        "new_key_"@ + decimal(n)
    }
}

/// Every candidate before the `n`-th is a key of `entries`.
pub open spec fn all_taken(entries: Entries, n: nat) -> bool {
    forall|m: nat| m < n ==> has_key(entries, #[trigger] candidate(m))
}

/// The `n`-th candidate is the first that is no key of `entries`.
pub open spec fn is_fresh_index(entries: Entries, n: nat) -> bool {
    all_taken(entries, n) && !has_key(entries, candidate(n))
}

/// The key under which a new entry is added: the first candidate that is no key yet.
pub open spec fn fresh_key(entries: Entries) -> Seq<char> {
    candidate(choose|n: nat| is_fresh_index(entries, n))
}

/// An object with a new entry at its end, `null` under a fresh key; any other node as it is.
pub open spec fn with_new_entry(node: Json) -> Json {
    match node {
        Json::Object(entries) => Json::Object(entries.push((fresh_key(entries), Json::Null))),
        _ => node,
    }
}

/// Different candidates are different keys.
pub proof fn lemma_candidate_injective(n: nat, m: nat)
    requires
        candidate(n) == candidate(m),
    ensures
        n == m,
{
    reveal_strlit("new_key");
    reveal_strlit("new_key_");
    lemma_decimal(n);
    lemma_decimal(m);
    assert("new_key"@.len() == 7);
    assert("new_key_"@.len() == 8);
    assert(n != 0 ==> candidate(n).len() == 8 + decimal(n).len());
    assert(m != 0 ==> candidate(m).len() == 8 + decimal(m).len());
    if n != 0 && m != 0 {
        let prefix = "new_key_"@;
        assert((prefix + decimal(n)).skip(8) =~= decimal(n));
        assert((prefix + decimal(m)).skip(8) =~= decimal(m));
        lemma_decimal_injective(n, m);
    }
}

/// Keys that differ from each other and are all keys of `entries` are no more than the
/// entries.
pub proof fn lemma_keys_bounded(entries: Entries, keys: Seq<Seq<char>>)
    requires
        forall|i: int, j: int| 0 <= i < j < keys.len() ==> keys[i] != keys[j],
        forall|i: int| 0 <= i < keys.len() ==> has_key(entries, #[trigger] keys[i]),
    ensures
        keys.len() <= entries.len(),
    decreases entries.len(),
{
    if keys.len() == 0 {
    } else if entries.len() == 0 {
        assert(has_key(entries, keys[0]));
        lemma_key_index(entries, keys[0]);
    } else {
        let last = entries.last().0;
        let rest = entries.drop_last();
        let fewer = if exists|j: int| 0 <= j < keys.len() && keys[j] == last {
            let j = choose|j: int| 0 <= j < keys.len() && keys[j] == last;
            keys.remove(j)
        } else {
            keys
        };
        assert forall|i: int| 0 <= i < fewer.len() implies has_key(rest, #[trigger] fewer[i]) by {
            let key = fewer[i];
            assert(has_key(entries, key) && key != last) by {
                if exists|j: int| 0 <= j < keys.len() && keys[j] == last {
                    let j = choose|j: int| 0 <= j < keys.len() && keys[j] == last;
                    if i < j {
                        assert(key == keys[i]);
                    } else {
                        assert(key == keys[i + 1]);
                    }
                } else {
                    assert(key == keys[i]);
                }
            }
            lemma_key_index(entries, key);
            let at = key_index(entries, key);
            assert(rest[at] == entries[at]);
            lemma_key_index_at_most(rest, key, at);
        }
        assert forall|a: int, b: int| 0 <= a < b < fewer.len() implies fewer[a] != fewer[b] by {
            if exists|j: int| 0 <= j < keys.len() && keys[j] == last {
                let j = choose|j: int| 0 <= j < keys.len() && keys[j] == last;
                let a2 = if a < j {
                    a
                } else {
                    a + 1
                };
                let b2 = if b < j {
                    b
                } else {
                    b + 1
                };
                assert(fewer[a] == keys[a2] && fewer[b] == keys[b2]);
            }
        }
        lemma_keys_bounded(rest, fewer);
    }
}

/// Candidates that are all taken are no more than the entries.
pub proof fn lemma_taken_bounded(entries: Entries, n: nat)
    requires
        all_taken(entries, n),
    ensures
        n <= entries.len(),
{
    let keys = Seq::new(n, |m: int| candidate(m as nat));
    assert forall|i: int, j: int| 0 <= i < j < keys.len() implies keys[i] != keys[j] by {
        if keys[i] == keys[j] {
            lemma_candidate_injective(i as nat, j as nat);
        }
    }
    assert forall|i: int| 0 <= i < keys.len() implies has_key(entries, #[trigger] keys[i]) by {
        assert(has_key(entries, candidate(i as nat)));
    }
    lemma_keys_bounded(entries, keys);
}

/// There is one first candidate that is no key of `entries`, and it is the one that
/// `fresh_key` takes.
pub proof fn lemma_fresh_index(entries: Entries, n: nat)
    requires
        is_fresh_index(entries, n),
    ensures
        fresh_key(entries) == candidate(n),
{
    let chosen = choose|n: nat| is_fresh_index(entries, n);
    assert(is_fresh_index(entries, chosen));
    if chosen < n {
        assert(has_key(entries, candidate(chosen)));
    } else if n < chosen {
        assert(has_key(entries, candidate(n)));
    }
}

/// The key for a new entry of the object.
pub fn unique_key(entries: &Vec<(String, JsonValue)>) -> (r: String)
    ensures
        r@ == fresh_key(entries_view(entries@)),
        !has_key(entries_view(entries@), r@),
{
    let ghost models = entries_view(entries@);
    let mut counter: usize = 0;
    let mut new_key = "new_key".to_owned();
    while find_key(entries, &new_key) < entries.len()
        invariant
            models == entries_view(entries@),
            models.len() == entries.len(),
            all_taken(models, counter as nat),
            new_key@ == candidate(counter as nat),
        decreases entries.len() - counter,
    {
        proof {
            assert(all_taken(models, (counter + 1) as nat)) by {
                assert forall|m: nat| m < counter + 1 implies has_key(
                    models,
                    #[trigger] candidate(m),
                ) by {
                    if m < counter {
                        assert(has_key(models, candidate(m)));
                    }
                }
            }
            lemma_taken_bounded(models, (counter + 1) as nat);
        }
        counter += 1;
        new_key = "new_key_".to_owned();
        push_decimal(&mut new_key, counter);
    }
    proof {
        lemma_fresh_index(models, counter as nat);
    }
    new_key
}

/// Adds an entry with a fresh key and the value `null` at the end of an object.
pub fn add_entry(node: &mut JsonValue)
    ensures
        final(node)@ == with_new_entry(old(node)@),
        old(node)@.wf() ==> final(node)@.wf(),
{
    match node {
        JsonValue::Object(entries) => {
            let ghost before = *entries;
            proof {
                lemma_object_view(before);
            }
            let new_key = unique_key(entries);
            entries.push((new_key, JsonValue::Null));
            proof {
                lemma_object_view(*entries);
                let old_models = entries_view(before@);
                let new_models = entries_view(entries@);
                assert(new_models =~= old_models.push((fresh_key(old_models), Json::Null)));
                lemma_wf_object(old_models);
                lemma_wf_object(new_models);
                lemma_push_keeps_wf(old_models, fresh_key(old_models), Json::Null);
            }
        },
        _ => {},
    }
}

/// Entries with distinct keys and well-formed values stay so when an entry with a key that
/// is none of theirs, and a well-formed value, is put behind them.
pub proof fn lemma_push_keeps_wf(entries: Entries, key: Seq<char>, value: Json)
    requires
        !has_key(entries, key),
    ensures
        distinct_keys(entries) ==> distinct_keys(entries.push((key, value))),
        value.wf() && (forall|i: int| 0 <= i < entries.len() ==> (#[trigger] entries[i]).1.wf())
            ==> (forall|i: int|
            0 <= i < entries.len() + 1 ==> (#[trigger] entries.push((key, value))[i]).1.wf()),
{
    let after = entries.push((key, value));
    lemma_key_index(entries, key);
    if distinct_keys(entries) {
        assert forall|i: int, j: int| 0 <= i < j < after.len() implies (#[trigger] after[i]).0 != (
        #[trigger] after[j]).0 by {
            assert(after[i] == entries[i]);
            if j < entries.len() {
                assert(after[j] == entries[j]);
            }
        }
    }
    if value.wf() && (forall|i: int| 0 <= i < entries.len() ==> (#[trigger] entries[i]).1.wf()) {
        assert forall|i: int| 0 <= i < after.len() implies (#[trigger] after[i]).1.wf() by {
            if i < entries.len() {
                assert(after[i] == entries[i]);
            }
        }
    }
}

/// The entries after an insertion as a map makes it: a key that is present keeps its place
/// and takes the new value, a key that is absent goes to the end.
pub open spec fn inserted(entries: Entries, key: Seq<char>, value: Json) -> Entries {
    if has_key(entries, key) {
        entries.update(key_index(entries, key), (key, value))
    } else {
        entries.push((key, value))
    }
}

/// The entries that result when `entries` are inserted into an empty object one after the
/// other. A key that occurs more than once keeps its first place and its last value.
pub open spec fn rebuilt(entries: Entries) -> Entries
    decreases entries.len(),
{
    if entries.len() == 0 {
        Seq::empty()
    } else {
        inserted(rebuilt(entries.drop_last()), entries.last().0, entries.last().1)
    }
}

/// The entries with the key `old` written as `new`, each in its place.
pub open spec fn relabeled(entries: Entries, old: Seq<char>, new: Seq<char>) -> Entries {
    entries.map_values(
        |e: (Seq<char>, Json)|
            if e.0 == old {
                (new, e.1)
            } else {
                e
            },
    )
}

/// An object in which the key `old` is renamed to `new`: the entries are relabeled and
/// inserted anew in their order. Any other node, and an object without the key `old`, as it
/// is.
pub open spec fn with_key_renamed(node: Json, old: Seq<char>, new: Seq<char>) -> Json {
    match node {
        Json::Object(entries) => if has_key(entries, old) {
            Json::Object(rebuilt(relabeled(entries, old, new)))
        } else {
            node
        },
        _ => node,
    }
}

/// Inserting keeps keys distinct and values well-formed.
pub proof fn lemma_inserted_keeps_wf(entries: Entries, key: Seq<char>, value: Json)
    requires
        distinct_keys(entries),
    ensures
        distinct_keys(inserted(entries, key, value)),
        value.wf() && (forall|i: int| 0 <= i < entries.len() ==> (#[trigger] entries[i]).1.wf())
            ==> (forall|i: int|
            0 <= i < inserted(entries, key, value).len() ==> (#[trigger] inserted(
                entries,
                key,
                value,
            )[i]).1.wf()),
{
    let after = inserted(entries, key, value);
    lemma_key_index(entries, key);
    if has_key(entries, key) {
        let k = key_index(entries, key);
        assert forall|i: int, j: int| 0 <= i < j < after.len() implies (#[trigger] after[i]).0 != (
        #[trigger] after[j]).0 by {
            assert(after[i].0 == entries[i].0);
            assert(after[j].0 == entries[j].0);
        }
        if value.wf() && (forall|i: int| 0 <= i < entries.len() ==> (#[trigger] entries[i]).1.wf()) {
            assert forall|i: int| 0 <= i < after.len() implies (#[trigger] after[i]).1.wf() by {
                if i != k {
                    assert(after[i] == entries[i]);
                }
            }
        }
    } else {
        lemma_push_keeps_wf(entries, key, value);
        if value.wf() && (forall|i: int| 0 <= i < entries.len() ==> (#[trigger] entries[i]).1.wf()) {
            assert forall|i: int| 0 <= i < after.len() implies (#[trigger] after[i]).1.wf() by {
                assert(entries.push((key, value))[i].1.wf());
            }
        }
    }
}

/// Rebuilt entries have distinct keys, and well-formed values where the entries had them.
pub proof fn lemma_rebuilt_wf(entries: Entries)
    ensures
        distinct_keys(rebuilt(entries)),
        (forall|i: int| 0 <= i < entries.len() ==> (#[trigger] entries[i]).1.wf()) ==> (forall|
            i: int,
        | 0 <= i < rebuilt(entries).len() ==> (#[trigger] rebuilt(entries)[i]).1.wf()),
    decreases entries.len(),
{
    if entries.len() > 0 {
        let init = entries.drop_last();
        lemma_rebuilt_wf(init);
        lemma_inserted_keeps_wf(rebuilt(init), entries.last().0, entries.last().1);
        if forall|i: int| 0 <= i < entries.len() ==> (#[trigger] entries[i]).1.wf() {
            assert forall|i: int| 0 <= i < init.len() implies (#[trigger] init[i]).1.wf() by {
                assert(init[i] == entries[i]);
            }
            assert(entries.last() == entries[entries.len() - 1]);
        }
    }
}

/// Entries whose keys are distinct are rebuilt as they are.
pub proof fn lemma_rebuilt_distinct(entries: Entries)
    requires
        distinct_keys(entries),
    ensures
        rebuilt(entries) == entries,
    decreases entries.len(),
{
    if entries.len() > 0 {
        let init = entries.drop_last();
        let last = entries.last();
        assert forall|i: int, j: int| 0 <= i < j < init.len() implies (#[trigger] init[i]).0 != (
        #[trigger] init[j]).0 by {
            assert(init[i] == entries[i] && init[j] == entries[j]);
        }
        lemma_rebuilt_distinct(init);
        lemma_key_index(init, last.0);
        if has_key(init, last.0) {
            let k = key_index(init, last.0);
            assert(init[k] == entries[k]);
            assert(entries[entries.len() - 1] == last);
        }
        assert(init.push(last) =~= entries);
    } else {
        assert(entries =~= Seq::empty());
    }
}

/// Inserts an entry as a map does: over the value of the entry that has the key, or at the
/// end.
pub fn insert_entry(entries: &mut Vec<(String, JsonValue)>, key: String, value: JsonValue)
    ensures
        entries_view(final(entries)@) == inserted(entries_view(old(entries)@), key@, value@),
{
    let ghost before = entries@;
    let k = find_key(entries, &key);
    if k < entries.len() {
        entries[k] = (key, value);
        proof {
            assert(entries_view(entries@) =~= entries_view(before).update(
                k as int,
                (key@, value@),
            ));
        }
    } else {
        entries.push((key, value));
        proof {
            assert(entries_view(entries@) =~= entries_view(before).push((key@, value@)));
        }
    }
}

/// Renames the key `old_key` of an object to `new_key`; the entry keeps its place.
pub fn rename_key(node: &mut JsonValue, old_key: &String, new_key: &String)
    ensures
        final(node)@ == with_key_renamed(old(node)@, old_key@, new_key@),
        old(node)@.wf() ==> final(node)@.wf(),
{
    match node {
        JsonValue::Object(entries) => {
            let ghost before = *entries;
            let ghost old_models = entries_view(before@);
            let ghost labeled = relabeled(old_models, old_key@, new_key@);
            proof {
                lemma_object_view(before);
            }
            if find_key(entries, old_key) < entries.len() {
                let mut taken: Vec<(String, JsonValue)> = Vec::new();
                std::mem::swap(entries, &mut taken);
                proof {
                    assert(labeled.take(0) =~= Seq::empty());
                    assert(entries_view(entries@) =~= Seq::empty());
                }
                for entry in it: taken
                    invariant
                        it.seq() == before@,
                        old_models == entries_view(before@),
                        labeled == relabeled(old_models, old_key@, new_key@),
                        entries_view(entries@) == rebuilt(labeled.take(it.index() as int)),
                {
                    let ghost at = it.index() as int;
                    let (key, value) = entry;
                    let key = if key == *old_key {
                        new_key.clone()
                    } else {
                        key
                    };
                    proof {
                        assert(labeled.take(at + 1).drop_last() =~= labeled.take(at));
                        assert(labeled.take(at + 1).last() == labeled[at]);
                        assert(old_models[at] == (before[at].0@, before[at].1@));
                    }
                    insert_entry(entries, key, value);
                }
                proof {
                    assert(labeled.take(before@.len() as int) =~= labeled);
                    lemma_object_view(*entries);
                    lemma_wf_object(old_models);
                    lemma_wf_object(rebuilt(labeled));
                    lemma_rebuilt_wf(labeled);
                    assert forall|i: int| 0 <= i < labeled.len() && Json::Object(
                        old_models,
                    ).wf() implies (#[trigger] labeled[i]).1.wf() by {
                        assert(labeled[i].1 == old_models[i].1);
                    }
                }
            }
        },
        _ => {},
    }
}

/// The value that a replacement text stands for: what the text parses to, or the text
/// itself as a string where it is no JSON.
pub open spec fn replacement(text: Seq<char>) -> Json {
    match parsed(text) {
        Ok(tree) => tree,
        Err(_) => Json::String(text),
    }
}

/// The value of a replacement, given what parsing its text came to.
pub fn value_or_text(outcome: Result<JsonValue, String>, text: String) -> (r: JsonValue)
    ensures
        r@ == (match outcome {
            Ok(value) => value@,
            Err(_) => Json::String(text@),
        }),
        outcome matches Ok(value) ==> r == value,
{
    match outcome {
        Ok(value) => value,
        Err(_) => JsonValue::String(text),
    }
}

/// The value that a replacement text stands for.
pub fn replacement_value(text: String) -> (r: JsonValue)
    ensures
        r@ == replacement(text@),
        r@.wf(),
{
    let outcome = from_str(text.as_str());
    value_or_text(outcome, text)
}

impl JsonEdit {
    /// The pointer to the node that the edit is about.
    pub open spec fn target(self) -> Seq<char> {
        match self {
            JsonEdit::DeleteFromObject { object_pointer, .. } => object_pointer@,
            JsonEdit::DeleteFromArray { array_pointer, .. } => array_pointer@,
            JsonEdit::AddToObject { pointer } => pointer@,
            JsonEdit::AddToArray { pointer } => pointer@,
            JsonEdit::EditValue { pointer, .. } => pointer@,
            JsonEdit::EditObjectKey { object_pointer, .. } => object_pointer@,
        }
    }

    /// What the edit makes of the node that it is about.
    pub open spec fn on_node(self, node: Json) -> Json {
        match self {
            JsonEdit::DeleteFromObject { key, .. } => without_key(node, key@),
            JsonEdit::DeleteFromArray { idx, .. } => without_index(node, idx as nat),
            JsonEdit::AddToObject { .. } => with_new_entry(node),
            JsonEdit::AddToArray { .. } => with_null_appended(node),
            JsonEdit::EditValue { new_value, .. } => replacement(new_value@),
            JsonEdit::EditObjectKey { old_key, new_key, .. } => with_key_renamed(
                node,
                old_key@,
                new_key@,
            ),
        }
    }

    /// The tree after the edit: the node that the pointer addresses is replaced by what the
    /// edit makes of it; a tree in which the pointer addresses nothing stays as it is.
    pub open spec fn applied(self, tree: Json) -> Json {
        match lookup(tree, self.target()) {
            Some(node) => replaced(tree, self.target(), self.on_node(node)),
            None => tree,
        }
    }
}

/// The tree after all the edits, the first of them applied first.
pub open spec fn all_applied(edits: Seq<JsonEdit>, tree: Json) -> Json
    decreases edits.len(),
{
    if edits.len() == 0 {
        tree
    } else {
        edits.last().applied(all_applied(edits.drop_last(), tree))
    }
}

/// A tree stays well-formed when one of its nodes is replaced by a well-formed one.
pub proof fn lemma_replaced_wf(tree: Json, pointer: Seq<char>, new: Json)
    requires
        tree.wf(),
        new.wf(),
    ensures
        replaced(tree, pointer, new).wf(),
{
    if let Some(path) = pointer_path(pointer) {
        lemma_replace_wf(tree, path, new);
    }
}

/// The node that a pointer addresses in a well-formed tree is well-formed.
pub proof fn lemma_lookup_wf(tree: Json, pointer: Seq<char>)
    requires
        tree.wf(),
        lookup(tree, pointer) is Some,
    ensures
        lookup(tree, pointer).unwrap().wf(),
{
    lemma_resolve_wf(tree, pointer_path(pointer).unwrap());
}

/// Applies one edit to the tree.
pub fn apply_edit(value: &mut JsonValue, edit: JsonEdit)
    ensures
        final(value)@ == edit.applied(old(value)@),
        old(value)@.wf() ==> final(value)@.wf(),
{
    let ghost tree = value@;
    proof {
        if tree.wf() && lookup(tree, edit.target()) is Some {
            lemma_lookup_wf(tree, edit.target());
        }
    }
    match edit {
        JsonEdit::DeleteFromArray { array_pointer, idx } => {
            if let Some(node) = value.pointer_mut(array_pointer.as_str()) {
                remove_index(node, idx);
            }
        },
        JsonEdit::DeleteFromObject { object_pointer, key } => {
            if let Some(node) = value.pointer_mut(object_pointer.as_str()) {
                remove_key(node, &key);
            }
        },
        JsonEdit::AddToObject { pointer } => {
            if let Some(node) = value.pointer_mut(pointer.as_str()) {
                add_entry(node);
            }
        },
        JsonEdit::AddToArray { pointer } => {
            if let Some(node) = value.pointer_mut(pointer.as_str()) {
                push_null(node);
            }
        },
        JsonEdit::EditValue { pointer, new_value } => {
            if let Some(node) = value.pointer_mut(pointer.as_str()) {
                *node = replacement_value(new_value);
            }
        },
        JsonEdit::EditObjectKey { object_pointer, old_key, new_key } => {
            if let Some(node) = value.pointer_mut(object_pointer.as_str()) {
                rename_key(node, &old_key, &new_key);
            }
        },
    }
    proof {
        if tree.wf() {
            if let Some(node) = lookup(tree, edit.target()) {
                lemma_replaced_wf(tree, edit.target(), edit.on_node(node));
            }
        }
    }
}

/// Applies the queued edits to the tree in the order in which they were queued, empties the
/// queue, and returns the text of the tree, indented by two spaces a level. With an empty
/// queue nothing happens and nothing is returned.
pub fn apply_edits(value: &mut JsonValue, edits: &mut Vec<JsonEdit>) -> (r: Option<String>)
    ensures
        final(value)@ == all_applied(old(edits)@, old(value)@),
        old(value)@.wf() ==> final(value)@.wf(),
        final(edits)@.len() == 0,
        old(edits)@.len() == 0 ==> r is None && *final(value) == *old(value),
        old(edits)@.len() > 0 ==> r is Some,
        old(edits)@.len() > 0 && old(value)@.wf() ==> r->Some_0@ == pretty_text(
            final(value)@,
            spaces(2),
        ),
{
    if edits.is_empty() {
        return None;
    }
    let ghost queued = edits@;
    let ghost tree = value@;
    let mut taken: Vec<JsonEdit> = Vec::new();
    std::mem::swap(edits, &mut taken);
    proof {
        assert(queued.take(0) =~= Seq::empty());
    }
    for edit in it: taken
        invariant
            it.seq() == queued,
            value@ == all_applied(queued.take(it.index() as int), tree),
            tree.wf() ==> value@.wf(),
    {
        proof {
            let done = it.index() as int;
            assert(queued.take(done + 1).drop_last() =~= queued.take(done));
            assert(queued.take(done + 1).last() == edit);
        }
        apply_edit(value, edit);
    }
    proof {
        assert(queued.take(queued.len() as int) =~= queued);
    }
    match to_string_pretty(value) {
        Ok(text) => Some(text),
        Err(_) => None,
    }
}

} // verus!
