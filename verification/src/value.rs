//! The decoded value tree, its ordered map, and their mathematical models.

use vstd::prelude::*;
use ordermap::OrderMap;

verus! {

/// The null marker.
#[derive(Debug, PartialEq)]
pub struct Null;

/// The key of an array entry: text or an integer.
#[derive(Debug, PartialEq, Eq, Hash)]
pub enum Key {
    Str(String),
    Int(i64),
}

/// A decoded value. An array is an insertion-ordered map from [`Key`] to `Value`.
#[derive(Debug, PartialEq)]
pub enum Value {
    Bool(bool),
    Str(String),
    Int(i64),
    Null,
    Array(Array),
}

/// What a [`Key`] stands for.
pub enum KeyModel {
    Str(Seq<char>),
    Int(int),
}

/// What a [`Value`] stands for: a tree whose arrays are sequences of entries
/// in their order, no key occurring twice.
pub enum ValueModel {
    Bool(bool),
    Str(Seq<char>),
    Int(int),
    Null,
    Array(Seq<(KeyModel, ValueModel)>),
}

/// An insertion-ordered map from [`Key`] to [`Value`].
///
/// Trusted: the map is an `ordermap::OrderMap`, which Verus cannot look into
/// (a value holds a map of values). What it holds is [`array_entries`].
#[verifier::external_body]
#[derive(Debug, PartialEq)]
#[allow(deprecated)]
pub struct Array {
    map: OrderMap<Key, Value>,
}

/// The entries of the map in their order, each key and value as its model.
pub uninterp spec fn array_entries(a: Array) -> Seq<(KeyModel, ValueModel)>;

impl View for Key {
    type V = KeyModel;

    open spec fn view(&self) -> KeyModel {
        match *self {
            Key::Str(s) => KeyModel::Str(s@),
            Key::Int(i) => KeyModel::Int(i as int),
        }
    }
}

impl View for Array {
    type V = Seq<(KeyModel, ValueModel)>;

    open spec fn view(&self) -> Seq<(KeyModel, ValueModel)> {
        array_entries(*self)
    }
}

impl View for Value {
    type V = ValueModel;

    open spec fn view(&self) -> ValueModel {
        match *self {
            Value::Bool(b) => ValueModel::Bool(b),
            Value::Str(s) => ValueModel::Str(s@),
            Value::Int(i) => ValueModel::Int(i as int),
            Value::Null => ValueModel::Null,
            Value::Array(a) => ValueModel::Array(a@),
        }
    }
}

/// Whether no key occurs twice in `entries`.
pub open spec fn distinct_keys(entries: Seq<(KeyModel, ValueModel)>) -> bool {
    forall|i: int, j: int|
        0 <= i < j < entries.len() ==> (#[trigger] entries[i]).0 != (#[trigger] entries[j]).0
}

/// Whether no array in the tree `v` holds a key twice.
pub open spec fn well_formed(v: ValueModel) -> bool
    decreases v,
{
    match v {
        ValueModel::Array(entries) => all_well_formed(entries),
        _ => true,
    }
}

/// Whether no key occurs twice in `entries` and every value in them is
/// [`well_formed`].
pub open spec fn all_well_formed(entries: Seq<(KeyModel, ValueModel)>) -> bool
    decreases entries,
{
    distinct_keys(entries) && forall|i: int|
        0 <= i < entries.len() ==> well_formed((#[trigger] entries[i]).1)
}

/// Whether `entries` holds the key `k`.
pub open spec fn has_key(entries: Seq<(KeyModel, ValueModel)>, k: KeyModel) -> bool {
    exists|i: int| 0 <= i < entries.len() && (#[trigger] entries[i]).0 == k
}

/// `entries` after `k` is set to `v`: where `k` is there already, its entry
/// keeps its place and takes the new value; else the pair comes last.
pub open spec fn insert_entry(
    entries: Seq<(KeyModel, ValueModel)>,
    k: KeyModel,
    v: ValueModel,
) -> Seq<(KeyModel, ValueModel)>
    decreases entries.len(),
{
    if entries.len() == 0 {
        seq![(k, v)]
    } else if entries[0].0 == k {
        seq![(k, v)] + entries.skip(1)
    } else {
        seq![entries[0]] + insert_entry(entries.skip(1), k, v)
    }
}

/// Trusted: `OrderMap::new`, which makes a map without entries.
#[verifier::external_body]
#[allow(deprecated)]
fn map_new() -> (a: Array)
    ensures
        array_entries(a) == Seq::<(KeyModel, ValueModel)>::empty(),
{
    Array { map: OrderMap::new() }
}

/// Trusted: `OrderMap::insert`. Where an equal key is in the map, the key
/// keeps its place in the order and its value is replaced; else the pair is
/// added last. Keys are equal as their models are (the derived `Eq` and
/// `Hash` of [`Key`] compare the text or the number).
#[verifier::external_body]
#[allow(deprecated)]
fn map_insert(a: &mut Array, k: Key, v: Value)
    ensures
        array_entries(*final(a)) == insert_entry(array_entries(*old(a)), k@, v@),
{
    a.map.insert(k, v);
}

/// Trusted: `OrderMap::len`, the number of entries.
#[verifier::external_body]
#[allow(deprecated)]
fn map_len(a: &Array) -> (n: usize)
    ensures
        n == array_entries(*a).len(),
{
    a.map.len()
}

/// Trusted: `OrderMap::get_index`, the entry at a place in the order, or
/// nothing where the place is past the last entry.
#[verifier::external_body]
#[allow(deprecated)]
fn map_get_index(a: &Array, index: usize) -> (res: Option<(&Key, &Value)>)
    ensures
        res.is_some() == (index < array_entries(*a).len()),
        res.is_some() ==> (res.unwrap().0@, res.unwrap().1@) == array_entries(*a)[index as int],
{
    a.map.get_index(index)
}

impl Array {
    /// Whether no key occurs twice among the entries. It holds of the empty
    /// map, and [`Array::insert`] keeps it.
    pub open spec fn well_formed(&self) -> bool {
        distinct_keys(self@)
    }

    /// A map without entries.
    pub fn new() -> (a: Array)
        ensures
            a@ == Seq::<(KeyModel, ValueModel)>::empty(),
            a.well_formed(),
    {
        map_new()
    }

    /// Sets `k` to `v`. A key that is in the map keeps its place.
    pub fn insert(&mut self, k: Key, v: Value)
        ensures
            final(self)@ == insert_entry(old(self)@, k@, v@),
            old(self).well_formed() ==> final(self).well_formed(),
    {
        proof {
            if self.well_formed() {
                lemma_insert_distinct(self@, k@, v@);
            }
        }
        map_insert(self, k, v)
    }

    /// The number of entries.
    pub fn len(&self) -> (n: usize)
        ensures
            n == self@.len(),
    {
        map_len(self)
    }

    /// The entry at `index` in insertion order, `None` past the last one.
    pub fn get_index(&self, index: usize) -> (res: Option<(&Key, &Value)>)
        ensures
            res.is_some() == (index < self@.len()),
            res.is_some() ==> (res.unwrap().0@, res.unwrap().1@) == self@[index as int],
    {
        map_get_index(self, index)
    }
}

/// Setting a key that the map does not hold adds the pair after the last
/// entry.
pub proof fn lemma_insert_fresh(entries: Seq<(KeyModel, ValueModel)>, k: KeyModel, v: ValueModel)
    requires
        !has_key(entries, k),
    ensures
        insert_entry(entries, k, v) == entries.push((k, v)),
    decreases entries.len(),
{
    if entries.len() == 0 {
        assert(seq![(k, v)] =~= entries.push((k, v)));
    } else {
        let tail = entries.skip(1);
        assert(entries[0].0 != k);
        assert forall|i: int| 0 <= i < tail.len() implies (#[trigger] tail[i]).0 != k by {
            assert(entries[i + 1].0 != k);
        }
        lemma_insert_fresh(tail, k, v);
        assert(seq![entries[0]] + tail.push((k, v)) =~= entries.push((k, v)));
    }
}

/// Setting a key that the map holds leaves every entry in its place and
/// gives the first entry with that key the new value.
pub proof fn lemma_insert_present(
    entries: Seq<(KeyModel, ValueModel)>,
    i: int,
    k: KeyModel,
    v: ValueModel,
)
    requires
        0 <= i < entries.len(),
        entries[i].0 == k,
        forall|j: int| 0 <= j < i ==> (#[trigger] entries[j]).0 != k,
    ensures
        insert_entry(entries, k, v) == entries.update(i, (k, v)),
    decreases entries.len(),
{
    let tail = entries.skip(1);
    if i == 0 {
        assert(seq![(k, v)] + tail =~= entries.update(0, (k, v)));
    } else {
        assert(entries[0].0 != k);
        assert(tail[i - 1] == entries[i]);
        assert forall|j: int| 0 <= j < i - 1 implies (#[trigger] tail[j]).0 != k by {
            assert(entries[j + 1].0 != k);
        }
        lemma_insert_present(tail, i - 1, k, v);
        assert(seq![entries[0]] + tail.update(i - 1, (k, v)) =~= entries.update(i, (k, v)));
    }
}

/// Setting a key leaves every key of the map in it once: the keys are those
/// of the map and the key that was set.
pub proof fn lemma_insert_distinct(
    entries: Seq<(KeyModel, ValueModel)>,
    k: KeyModel,
    v: ValueModel,
)
    requires
        distinct_keys(entries),
    ensures
        distinct_keys(insert_entry(entries, k, v)),
        has_key(insert_entry(entries, k, v), k),
        forall|q: KeyModel| q != k ==> has_key(insert_entry(entries, k, v), q) == has_key(entries, q),
        insert_entry(entries, k, v).len() == if has_key(entries, k) {
            entries.len()
        } else {
            entries.len() + 1
        },
    decreases entries.len(),
{
    let out = insert_entry(entries, k, v);
    if entries.len() == 0 {
        assert(out[0].0 == k);
    } else if entries[0].0 == k {
        assert(out[0].0 == k);
        assert forall|i: int| 0 <= i < out.len() implies (#[trigger] out[i]).0 == entries[i].0 by {}
        assert forall|q: KeyModel| q != k implies has_key(out, q) == has_key(entries, q) by {
            if has_key(out, q) {
                let i = choose|i: int| 0 <= i < out.len() && (#[trigger] out[i]).0 == q;
                assert(entries[i].0 == q);
            }
            if has_key(entries, q) {
                let i = choose|i: int| 0 <= i < entries.len() && (#[trigger] entries[i]).0 == q;
                assert(out[i].0 == q);
            }
        }
    } else {
        let tail = entries.skip(1);
        let rec = insert_entry(tail, k, v);
        assert forall|i: int, j: int| 0 <= i < j < tail.len() implies (#[trigger] tail[i]).0
            != (#[trigger] tail[j]).0 by {
            assert(tail[i] == entries[i + 1] && tail[j] == entries[j + 1]);
        }
        lemma_insert_distinct(tail, k, v);
        assert forall|i: int| 1 <= i < out.len() implies #[trigger] out[i] == rec[i - 1] by {}
        assert forall|q: KeyModel| has_key(tail, q) implies q != entries[0].0 by {
            let i = choose|i: int| 0 <= i < tail.len() && (#[trigger] tail[i]).0 == q;
            assert(tail[i] == entries[i + 1]);
        }
        assert forall|q: KeyModel| has_key(entries, q) == (q == entries[0].0 || has_key(tail, q)) by {
            if has_key(entries, q) {
                let i = choose|i: int| 0 <= i < entries.len() && (#[trigger] entries[i]).0 == q;
                if i > 0 {
                    assert(tail[i - 1].0 == q);
                }
            }
            if has_key(tail, q) {
                let i = choose|i: int| 0 <= i < tail.len() && (#[trigger] tail[i]).0 == q;
                assert(entries[i + 1].0 == q);
            }
            if q == entries[0].0 {
                assert(entries[0].0 == q);
            }
        }
        assert forall|q: KeyModel| has_key(out, q) == (q == entries[0].0 || has_key(rec, q)) by {
            if has_key(out, q) {
                let i = choose|i: int| 0 <= i < out.len() && (#[trigger] out[i]).0 == q;
                if i > 0 {
                    assert(rec[i - 1].0 == q);
                }
            }
            if has_key(rec, q) {
                let i = choose|i: int| 0 <= i < rec.len() && (#[trigger] rec[i]).0 == q;
                assert(out[i + 1].0 == q);
            }
            if q == entries[0].0 {
                assert(out[0].0 == q);
            }
        }
        assert forall|i: int, j: int| 0 <= i < j < out.len() implies (#[trigger] out[i]).0
            != (#[trigger] out[j]).0 by {
            if i == 0 {
                assert(out[j] == rec[j - 1]);
                assert(has_key(rec, rec[j - 1].0));
                if rec[j - 1].0 == entries[0].0 {
                    assert(has_key(tail, entries[0].0));
                }
            } else {
                assert(out[i] == rec[i - 1] && out[j] == rec[j - 1]);
            }
        }
    }
}

/// Setting a key to a well-formed value in well-formed entries gives
/// well-formed entries.
pub proof fn lemma_insert_well_formed(
    entries: Seq<(KeyModel, ValueModel)>,
    k: KeyModel,
    v: ValueModel,
)
    requires
        all_well_formed(entries),
        well_formed(v),
    ensures
        all_well_formed(insert_entry(entries, k, v)),
{
    lemma_insert_distinct(entries, k, v);
    lemma_insert_values(entries, k, v);
}

/// Every value in the entries after a key is set was there before, or is
/// the value that was set.
proof fn lemma_insert_values(entries: Seq<(KeyModel, ValueModel)>, k: KeyModel, v: ValueModel)
    ensures
        forall|i: int|
            0 <= i < insert_entry(entries, k, v).len() ==> {
                let e = #[trigger] insert_entry(entries, k, v)[i];
                e.1 == v || exists|j: int| 0 <= j < entries.len() && entries[j] == e
            },
    decreases entries.len(),
{
    let out = insert_entry(entries, k, v);
    if entries.len() == 0 {
    } else if entries[0].0 == k {
        assert forall|i: int| 0 <= i < out.len() implies {
            let e = #[trigger] out[i];
            e.1 == v || exists|j: int| 0 <= j < entries.len() && entries[j] == e
        } by {
            if i > 0 {
                assert(entries[i] == out[i]);
            }
        }
    } else {
        let tail = entries.skip(1);
        let rec = insert_entry(tail, k, v);
        lemma_insert_values(tail, k, v);
        assert forall|i: int| 0 <= i < out.len() implies {
            let e = #[trigger] out[i];
            e.1 == v || exists|j: int| 0 <= j < entries.len() && entries[j] == e
        } by {
            if i == 0 {
                assert(entries[0] == out[0]);
            } else {
                let e = rec[i - 1];
                assert(out[i] == e);
                if e.1 != v {
                    let j = choose|j: int| 0 <= j < tail.len() && tail[j] == e;
                    assert(entries[j + 1] == e);
                }
            }
        }
    }
}

} // verus!
