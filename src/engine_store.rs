//! The group-messaging engine's own key-value store, held in the engine's
//! in-memory storage type.
use vstd::prelude::*;
use openmls_memory_storage::MemoryStorage;
use crate::table::{keys_unique, lemma_rows_map_at, rows_map, Table};

verus! {

#[verifier::external_type_specification]
#[verifier::external_body]
pub struct ExMemoryStorage(MemoryStorage);

/// The keys and values that an engine store holds.
pub uninterp spec fn memory_contents(s: MemoryStorage) -> Map<Seq<u8>, Seq<u8>>;

/// Relies on `MemoryStorage::default`: an empty map of values.
#[verifier::external_body]
pub(crate) fn memory_new() -> (r: MemoryStorage)
    ensures
        memory_contents(r).dom() == Set::<Seq<u8>>::empty(),
{
    MemoryStorage::default()
}

/// Relies on `HashMap::get` on the store's `values`.
#[verifier::external_body]
pub(crate) fn memory_get(s: &MemoryStorage, key: &Vec<u8>) -> (r: Option<Vec<u8>>)
    ensures
        r is Some <==> memory_contents(*s).contains_key(key@),
        r matches Some(v) ==> v@ == memory_contents(*s)[key@],
{
    let values = s.values.read().unwrap_or_else(|e| e.into_inner());
    values.get(key).cloned()
}

/// Relies on `HashMap::insert` on the store's `values`.
#[verifier::external_body]
pub(crate) fn memory_insert(s: &mut MemoryStorage, key: Vec<u8>, value: Vec<u8>)
    ensures
        memory_contents(*final(s)) == memory_contents(*old(s)).insert(key@, value@),
{
    let values = s.values.get_mut().unwrap_or_else(|e| e.into_inner());
    values.insert(key, value);
}

/// Relies on `HashMap::remove` on the store's `values`.
#[verifier::external_body]
pub(crate) fn memory_remove(s: &mut MemoryStorage, key: &Vec<u8>)
    ensures
        memory_contents(*final(s)) == memory_contents(*old(s)).remove(key@),
{
    let values = s.values.get_mut().unwrap_or_else(|e| e.into_inner());
    values.remove(key);
}

/// Relies on `HashMap::iter` on the store's `values`: each entry once, in an
/// order that the map picks.
#[verifier::external_body]
pub(crate) fn memory_rows(s: &MemoryStorage) -> (r: Vec<(Vec<u8>, Vec<u8>)>)
    ensures
        keys_unique(r@),
        rows_map(r@) == memory_contents(*s),
{
    let values = s.values.read().unwrap_or_else(|e| e.into_inner());
    values.iter().map(|(k, v)| (k.clone(), v.clone())).collect()
}

/// The rows of the store, as a table.
pub fn memory_table(s: &MemoryStorage) -> (r: Table<Vec<u8>, Vec<u8>>)
    ensures
        r.wf(),
        r@ == memory_contents(*s),
{
    Table { rows: memory_rows(s) }
}

/// One more row of a table with unique keys adds its key and value.
proof fn lemma_rows_map_push(rows: Seq<(Vec<u8>, Vec<u8>)>, i: int)
    requires
        keys_unique(rows),
        0 <= i < rows.len(),
    ensures
        rows_map(rows.take(i + 1)) == rows_map(rows.take(i)).insert(rows[i].0@, rows[i].1@),
{
    let a = rows.take(i);
    let b = rows.take(i + 1);
    assert(keys_unique(a));
    assert(keys_unique(b));
    let m = rows_map(a).insert(rows[i].0@, rows[i].1@);
    let n = rows_map(b);
    lemma_rows_map_at(b, i);
    assert forall|k: Seq<u8>| #[trigger] n.dom().contains(k) == m.dom().contains(k) by {
        if n.dom().contains(k) && k != rows[i].0@ {
            let j = choose|j: int| 0 <= j < b.len() && b[j].0@ == k;
            assert(j != i);
            assert(a[j].0@ == k);
        }
        if m.dom().contains(k) && k != rows[i].0@ {
            let j = choose|j: int| 0 <= j < a.len() && a[j].0@ == k;
            assert(b[j].0@ == k);
        }
    }
    assert forall|k: Seq<u8>| m.dom().contains(k) implies #[trigger] n[k] == m[k] by {
        if k != rows[i].0@ {
            let j = choose|j: int| 0 <= j < a.len() && a[j].0@ == k;
            lemma_rows_map_at(a, j);
            assert(b[j] == a[j]);
            lemma_rows_map_at(b, j);
        }
    }
    assert(n =~= m);
}

/// A store holding the rows of the table.
pub fn memory_from_table(t: Table<Vec<u8>, Vec<u8>>) -> (r: MemoryStorage)
    requires
        t.wf(),
    ensures
        memory_contents(r) == t@,
{
    let mut s = memory_new();
    assert(memory_contents(s) =~= Map::<Seq<u8>, Seq<u8>>::empty());
    let mut i: usize = 0;
    let ghost rows = t.rows@;
    assert(rows.take(0) =~= Seq::<(Vec<u8>, Vec<u8>)>::empty());
    assert(rows_map(rows.take(0)) =~= Map::<Seq<u8>, Seq<u8>>::empty());
    while i < t.rows.len()
        invariant
            rows == t.rows@,
            t.wf(),
            0 <= i <= rows.len(),
            memory_contents(s) == rows_map(rows.take(i as int)),
        decreases rows.len() - i,
    {
        proof {
            lemma_rows_map_push(rows, i as int);
        }
        memory_insert(&mut s, t.rows[i].0.clone(), t.rows[i].1.clone());
        i = i + 1;
    }
    assert(rows.take(rows.len() as int) =~= rows);
    s
}

} // verus!
