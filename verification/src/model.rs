//! The values that the relay sends, as mathematics.

use vstd::prelude::*;

verus! {

/// One decoded wire value.
///
/// Buffers, pointers and strings have a null state (`None`) that is distinct
/// from the empty one. A table lists its entries in the order in which their
/// keys first arrived.
pub enum Value {
    Arr(Seq<Value>),
    Buf(Option<Seq<u8>>),
    Chr(char),
    Htb(Seq<(Value, Value)>),
    Int(int),
    Lon(int),
    Ptr(Option<Seq<char>>),
    Str(Option<Seq<char>>),
    Tim(int),
}

/// Whether two values are equal, where tables are equal as mappings: the
/// order of their entries does not count.
pub open spec fn same(a: Value, b: Value) -> bool
    decreases a,
{
    match (a, b) {
        (Value::Arr(x), Value::Arr(y)) => {
            &&& x.len() == y.len()
            &&& forall|i: int| #![trigger x[i]] 0 <= i < x.len() ==> same(x[i], y[i])
        },
        (Value::Htb(x), Value::Htb(y)) => {
            &&& x.len() == y.len()
            &&& forall|i: int| #![trigger x[i]] 0 <= i < x.len() ==> holds(y, x[i])
        },
        (Value::Buf(x), Value::Buf(y)) => x == y,
        (Value::Chr(x), Value::Chr(y)) => x == y,
        (Value::Int(x), Value::Int(y)) => x == y,
        (Value::Lon(x), Value::Lon(y)) => x == y,
        (Value::Ptr(x), Value::Ptr(y)) => x == y,
        (Value::Str(x), Value::Str(y)) => x == y,
        (Value::Tim(x), Value::Tim(y)) => x == y,
        _ => false,
    }
}

/// Whether some entry of `table` has a key and a value equal to those of `entry`.
pub open spec fn holds(table: Seq<(Value, Value)>, entry: (Value, Value)) -> bool
    decreases entry,
{
    exists|j: int|
        #![trigger table[j]]
        0 <= j < table.len() && same(entry.0, table[j].0) && same(entry.1, table[j].1)
}

/// Whether `entries` holds a key equal to `key` at position `i`, and at none before.
pub open spec fn first_at(entries: Seq<(Value, Value)>, key: Value, i: int) -> bool {
    &&& 0 <= i < entries.len()
    &&& same(entries[i].0, key)
    &&& forall|k: int| #![trigger entries[k]] 0 <= k < i ==> !same(entries[k].0, key)
}

/// The entries of a table after `key` has been given `value`: an entry whose
/// key equals `key` keeps its key and place and takes the new value;
/// otherwise the pair is added at the end.
#[verifier::opaque]
pub open spec fn put(entries: Seq<(Value, Value)>, key: Value, value: Value) -> Seq<(Value, Value)> {
    if exists|i: int| first_at(entries, key, i) {
        let i = choose|i: int| first_at(entries, key, i);
        entries.update(i, (entries[i].0, value))
    } else {
        entries.push((key, value))
    }
}

/// No key of a table equals a later one.
pub open spec fn distinct_keys(entries: Seq<(Value, Value)>) -> bool {
    forall|i: int, j: int|
        #![trigger entries[i], entries[j]]
        0 <= i < j < entries.len() ==> !same(entries[i].0, entries[j].0)
}

/// Every table inside `v` has distinct keys.
pub open spec fn well_formed(v: Value) -> bool
    decreases v,
{
    match v {
        Value::Arr(x) => forall|i: int| #![trigger x[i]] 0 <= i < x.len() ==> well_formed(x[i]),
        Value::Htb(x) => {
            &&& distinct_keys(x)
            &&& forall|i: int|
                #![trigger x[i]]
                0 <= i < x.len() ==> well_formed(x[i].0) && well_formed(x[i].1)
        },
        _ => true,
    }
}

/// A position is the first with its key at most once.
pub proof fn lemma_first_at_unique(entries: Seq<(Value, Value)>, key: Value, i: int, j: int)
    requires
        first_at(entries, key, i),
        first_at(entries, key, j),
    ensures
        i == j,
{
    if i < j {
        assert(!same(entries[i].0, key));
    } else if j < i {
        assert(!same(entries[j].0, key));
    }
}

/// `put` keeps the keys of a table distinct.
pub proof fn lemma_put_keeps_keys_distinct(entries: Seq<(Value, Value)>, key: Value, value: Value)
    requires
        distinct_keys(entries),
    ensures
        distinct_keys(put(entries, key, value)),
{
    reveal(put);
    let after = put(entries, key, value);
    if exists|i: int| first_at(entries, key, i) {
        let at = choose|i: int| first_at(entries, key, i);
        assert forall|i: int, j: int|
            #![trigger after[i], after[j]]
            0 <= i < j < after.len() implies !same(after[i].0, after[j].0) by {
            assert(after[i].0 == entries[i].0);
            assert(after[j].0 == entries[j].0);
        }
    } else {
        assert forall|i: int, j: int|
            #![trigger after[i], after[j]]
            0 <= i < j < after.len() implies !same(after[i].0, after[j].0) by {
            if j < entries.len() {
                assert(after[i].0 == entries[i].0);
                assert(after[j].0 == entries[j].0);
            } else {
                assert(after[i] == entries[i]);
                if same(entries[i].0, key) {
                    lemma_has_first(entries, key, i);
                }
            }
        }
    }
}

/// Where some key up to position `i` equals `key`, a first such position exists.
pub proof fn lemma_has_first(entries: Seq<(Value, Value)>, key: Value, i: int)
    requires
        0 <= i < entries.len(),
        same(entries[i].0, key),
    ensures
        exists|k: int| first_at(entries, key, k),
    decreases i,
{
    if forall|k: int| #![trigger entries[k]] 0 <= k < i ==> !same(entries[k].0, key) {
        assert(first_at(entries, key, i));
    } else {
        let k = choose|k: int| #![trigger entries[k]] 0 <= k < i && same(entries[k].0, key);
        lemma_has_first(entries, key, k);
    }
}

/// `put` keeps a table well formed.
pub proof fn lemma_put_well_formed(entries: Seq<(Value, Value)>, key: Value, value: Value)
    requires
        well_formed(Value::Htb(entries)),
        well_formed(key),
        well_formed(value),
    ensures
        well_formed(Value::Htb(put(entries, key, value))),
{
    reveal(put);
    let after = put(entries, key, value);
    lemma_put_keeps_keys_distinct(entries, key, value);
    assert forall|i: int| #![trigger after[i]] 0 <= i < after.len() implies well_formed(after[i].0)
        && well_formed(after[i].1) by {
        if i < entries.len() {
            assert(well_formed(entries[i].0) && well_formed(entries[i].1));
        }
    }
}

} // verus!
