//! The JSON value tree and its mathematical model.

use vstd::prelude::*;

verus! {

/// A number exactly as the JSON library holds it. The editor never looks inside one.
#[verifier::external_type_specification]
#[verifier::external_body]
pub struct ExNumber(serde_json::Number);

/// `Number::clone`: the copy is the same number.
pub assume_specification[ <serde_json::Number as Clone>::clone ](n: &serde_json::Number) -> (r:
    serde_json::Number)
    ensures
        r == *n,
;

/// A JSON value. An object keeps its entries in the order in which they were inserted.
#[derive(Debug, PartialEq)]
pub enum JsonValue {
    Null,
    Bool(bool),
    Number(serde_json::Number),
    String(String),
    Array(Vec<JsonValue>),
    Object(Vec<(String, JsonValue)>),
}

/// The mathematical model of a [`JsonValue`]: the same tree over sequences.
pub enum Json {
    Null,
    Bool(bool),
    Number(serde_json::Number),
    String(Seq<char>),
    Array(Seq<Json>),
    Object(Seq<(Seq<char>, Json)>),
}

/// The entries of an object in the model.
pub type Entries = Seq<(Seq<char>, Json)>;

/// The model of `value`.
pub open spec fn model_of(value: JsonValue) -> Json
    decreases value,
{
    match value {
        JsonValue::Null => Json::Null,
        JsonValue::Bool(b) => Json::Bool(b),
        JsonValue::Number(n) => Json::Number(n),
        JsonValue::String(s) => Json::String(s@),
        JsonValue::Array(items) => Json::Array(
            Seq::new(
                items.len() as nat,
                |i: int|
                    if 0 <= i < items.len() {
                        model_of(items[i])
                    } else {
                        Json::Null
                    },
            ),
        ),
        JsonValue::Object(entries) => Json::Object(
            Seq::new(
                entries.len() as nat,
                |i: int|
                    if 0 <= i < entries.len() {
                        (entries[i].0@, model_of(entries[i].1))
                    } else {
                        (Seq::empty(), Json::Null)
                    },
            ),
        ),
    }
}

impl View for JsonValue {
    type V = Json;

    open spec fn view(&self) -> Json {
        model_of(*self)
    }
}

/// The models of the elements of an array, in order.
pub open spec fn items_view(items: Seq<JsonValue>) -> Seq<Json> {
    items.map_values(|v: JsonValue| v@)
}

/// The models of the entries of an object, in order.
pub open spec fn entries_view(entries: Seq<(String, JsonValue)>) -> Entries {
    entries.map_values(|e: (String, JsonValue)| (e.0@, e.1@))
}

/// The least index at which `entries` holds `key`, or the length of `entries` where no entry
/// does.
pub open spec fn key_index(entries: Entries, key: Seq<char>) -> int
    decreases entries.len(),
{
    if entries.len() == 0 {
        0
    } else if entries[0].0 == key {
        0
    } else {
        1 + key_index(entries.skip(1), key)
    }
}

/// Whether some entry of `entries` has the key `key`.
pub open spec fn has_key(entries: Entries, key: Seq<char>) -> bool {
    key_index(entries, key) < entries.len()
}

/// No two entries share a key.
pub open spec fn distinct_keys(entries: Entries) -> bool {
    forall|i: int, j: int|
        0 <= i < j < entries.len() ==> (#[trigger] entries[i]).0 != (#[trigger] entries[j]).0
}

impl Json {
    /// Every object in the tree is a mapping: no key occurs twice in it.
    pub open spec fn wf(self) -> bool
        decreases self,
    {
        match self {
            Json::Array(items) => {
                forall|i: int| 0 <= i < items.len() ==> (#[trigger] items[i]).wf()
            },
            Json::Object(entries) => {
                &&& distinct_keys(entries)
                &&& forall|i: int| 0 <= i < entries.len() ==> (#[trigger] entries[i]).1.wf()
            },
            _ => true,
        }
    }

    /// Whether the value is an array or an object.
    pub open spec fn is_container(self) -> bool {
        self is Array || self is Object
    }
}

/// `key_index` is in range, nothing before it has the key, and what it points at has it.
pub proof fn lemma_key_index(entries: Entries, key: Seq<char>)
    ensures
        0 <= key_index(entries, key) <= entries.len(),
        forall|j: int| 0 <= j < key_index(entries, key) ==> (#[trigger] entries[j]).0 != key,
        has_key(entries, key) ==> entries[key_index(entries, key)].0 == key,
    decreases entries.len(),
{
    if entries.len() > 0 && entries[0].0 != key {
        lemma_key_index(entries.skip(1), key);
        assert forall|j: int| 0 <= j < key_index(entries, key) implies (#[trigger] entries[j]).0
            != key by {
            if j > 0 {
                assert(entries[j] == entries.skip(1)[j - 1]);
            }
        }
    }
}

/// An entry with the key at `i` puts `key_index` at or before `i`.
pub proof fn lemma_key_index_at_most(entries: Entries, key: Seq<char>, i: int)
    requires
        0 <= i < entries.len(),
        entries[i].0 == key,
    ensures
        0 <= key_index(entries, key) <= i,
        has_key(entries, key),
{
    lemma_key_index(entries, key);
}

/// Where keys are distinct, the entry that has a key is the one `key_index` finds.
pub proof fn lemma_key_index_unique(entries: Entries, key: Seq<char>, i: int)
    requires
        distinct_keys(entries),
        0 <= i < entries.len(),
        entries[i].0 == key,
    ensures
        key_index(entries, key) == i,
{
    lemma_key_index(entries, key);
}

/// A search skips a prefix in which the key does not occur.
pub proof fn lemma_key_index_skip(entries: Entries, key: Seq<char>, n: int)
    requires
        0 <= n <= entries.len(),
        forall|j: int| 0 <= j < n ==> (#[trigger] entries[j]).0 != key,
    ensures
        key_index(entries, key) == n + key_index(entries.skip(n), key),
    decreases n,
{
    if n == 0 {
        assert(entries.skip(0) =~= entries);
    } else {
        lemma_key_index_skip(entries.skip(1), key, n - 1);
        assert(entries.skip(1).skip(n - 1) =~= entries.skip(n));
    }
}

/// An array is well-formed exactly when its elements are.
pub proof fn lemma_wf_array(items: Seq<Json>)
    ensures
        Json::Array(items).wf() <==> forall|i: int|
            0 <= i < items.len() ==> (#[trigger] items[i]).wf(),
{
    assert(Json::Array(items)->Array_0 == items);
}

/// An object is well-formed exactly when its keys are distinct and its values well-formed.
pub proof fn lemma_wf_object(entries: Entries)
    ensures
        Json::Object(entries).wf() <==> distinct_keys(entries) && forall|i: int|
            0 <= i < entries.len() ==> (#[trigger] entries[i]).1.wf(),
{
    assert(Json::Object(entries)->Object_0 == entries);
}

/// The model of an array is the sequence of its elements' models.
pub proof fn lemma_array_view(items: Vec<JsonValue>)
    ensures
        JsonValue::Array(items)@ == Json::Array(items_view(items@)),
{
    assert(JsonValue::Array(items)@->Array_0 =~= items_view(items@));
}

/// The model of an object is the sequence of its entries' models.
pub proof fn lemma_object_view(entries: Vec<(String, JsonValue)>)
    ensures
        JsonValue::Object(entries)@ == Json::Object(entries_view(entries@)),
{
    assert(JsonValue::Object(entries)@->Object_0 =~= entries_view(entries@));
}

impl JsonValue {
    /// Whether the value is an array.
    pub fn is_array(&self) -> (r: bool)
        ensures
            r == (self@ is Array),
    {
        match self {
            JsonValue::Array(_) => true,
            _ => false,
        }
    }

    /// Whether the value is an object.
    pub fn is_object(&self) -> (r: bool)
        ensures
            r == (self@ is Object),
    {
        match self {
            JsonValue::Object(_) => true,
            _ => false,
        }
    }
}

/// The place of `key` among `entries`: the index of the first entry that has it, or the
/// number of entries where none does.
pub fn find_key(entries: &Vec<(String, JsonValue)>, key: &String) -> (r: usize)
    ensures
        r as int == key_index(entries_view(entries@), key@),
        r <= entries.len(),
{
    let ghost all = entries_view(entries@);
    let mut i: usize = 0;
    while i < entries.len()
        invariant
            i <= entries.len(),
            all == entries_view(entries@),
            forall|j: int| 0 <= j < i ==> (#[trigger] all[j]).0 != key@,
        decreases entries.len() - i,
    {
        if entries[i].0 == *key {
            proof {
                lemma_key_index_skip(all, key@, i as int);
                assert(all.skip(i as int)[0] == all[i as int]);
            }
            return i;
        }
        i += 1;
    }
    proof {
        lemma_key_index_skip(all, key@, i as int);
    }
    i
}

impl JsonValue {
    /// Whether no object in the tree has a key twice.
    pub fn is_well_formed(&self) -> (r: bool)
        ensures
            r == self@.wf(),
        decreases self,
    {
        match self {
            JsonValue::Array(items) => {
                let ghost models = items_view(items@);
                proof {
                    lemma_array_view(*items);
                    lemma_wf_array(models);
                }
                let mut i: usize = 0;
                while i < items.len()
                    invariant
                        i <= items.len(),
                        *self == JsonValue::Array(*items),
                        self@ == Json::Array(models),
                        models == items_view(items@),
                        forall|j: int| 0 <= j < i ==> (#[trigger] models[j]).wf(),
                    decreases items.len() - i,
                {
                    if !items[i].is_well_formed() {
                        proof {
                            lemma_wf_array(models);
                            assert(!models[i as int].wf());
                        }
                        return false;
                    }
                    i += 1;
                }
                true
            },
            JsonValue::Object(entries) => {
                let ghost models = entries_view(entries@);
                proof {
                    lemma_object_view(*entries);
                    lemma_wf_object(models);
                }
                let mut i: usize = 0;
                while i < entries.len()
                    invariant
                        i <= entries.len(),
                        *self == JsonValue::Object(*entries),
                        self@ == Json::Object(models),
                        models == entries_view(entries@),
                        forall|j: int| 0 <= j < i ==> (#[trigger] models[j]).1.wf(),
                        forall|j: int| 0 <= j < i ==> key_index(models, (#[trigger] models[j]).0) == j,
                    decreases entries.len() - i,
                {
                    if find_key(entries, &entries[i].0) != i {
                        proof {
                            lemma_wf_object(models);
                            let key = models[i as int].0;
                            lemma_key_index_at_most(models, key, i as int);
                            lemma_key_index(models, key);
                            let first = key_index(models, key);
                            assert(models[first].0 == models[i as int].0);
                        }
                        return false;
                    }
                    if !entries[i].1.is_well_formed() {
                        proof {
                            lemma_wf_object(models);
                            assert(!models[i as int].1.wf());
                        }
                        return false;
                    }
                    i += 1;
                }
                proof {
                    assert forall|a: int, b: int| 0 <= a < b < models.len() implies (
                    #[trigger] models[a]).0 != (#[trigger] models[b]).0 by {
                        if models[a].0 == models[b].0 {
                            lemma_key_index_at_most(models, models[b].0, a);
                        }
                    }
                }
                true
            },
            _ => true,
        }
    }
}

} // verus!
