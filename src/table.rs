//! A map kept as a list of rows with unique keys.
use vstd::prelude::*;

verus! {

/// Values that can be copied with their view kept.
pub trait Dup: View + Sized {
    fn dup(&self) -> (r: Self)
        ensures
            r@ == self@,
    ;
}

/// Keys that can be compared by their views.
pub trait Key: Dup {
    fn same(&self, o: &Self) -> (r: bool)
        ensures
            r == (self@ == o@),
    ;
}

impl Dup for Vec<u8> {
    fn dup(&self) -> (r: Self) {
        self.clone()
    }
}

impl Key for Vec<u8> {
    fn same(&self, o: &Self) -> (r: bool) {
        bytes_eq(self.as_slice(), o.as_slice())
    }
}

/// A group id with an epoch number.
pub struct EpochKey {
    pub group_id: Vec<u8>,
    pub epoch: u64,
}

impl View for EpochKey {
    type V = (Seq<u8>, u64);

    open spec fn view(&self) -> (Seq<u8>, u64) {
        (self.group_id@, self.epoch)
    }
}

impl Dup for EpochKey {
    fn dup(&self) -> (r: Self) {
        EpochKey { group_id: self.group_id.clone(), epoch: self.epoch }
    }
}

impl Key for EpochKey {
    fn same(&self, o: &Self) -> (r: bool) {
        self.epoch == o.epoch && bytes_eq(self.group_id.as_slice(), o.group_id.as_slice())
    }
}

/// Byte-wise equality of two byte strings.
pub fn bytes_eq(a: &[u8], b: &[u8]) -> (r: bool)
    ensures
        r == (a@ == b@),
{
    if a.len() != b.len() {
        return false;
    }
    let mut i: usize = 0;
    while i < a.len()
        invariant
            a@.len() == b@.len(),
            0 <= i <= a@.len(),
            forall|j: int| 0 <= j < i ==> a@[j] == b@[j],
        decreases a@.len() - i,
    {
        if a[i] != b[i] {
            return false;
        }
        i = i + 1;
    }
    assert(a@ =~= b@);
    true
}

pub struct Table<K, V> {
    pub rows: Vec<(K, V)>,
}

/// No two rows share a key.
pub open spec fn keys_unique<K: View, V>(rows: Seq<(K, V)>) -> bool {
    forall|i: int, j: int|
        0 <= i < rows.len() && 0 <= j < rows.len() && #[trigger] rows[i].0@ == #[trigger] rows[j].0@
            ==> i == j
}

/// The map that rows with unique keys stand for.
pub open spec fn rows_map<K: View, V: View>(rows: Seq<(K, V)>) -> Map<K::V, V::V> {
    Map::new(
        |k: K::V| exists|i: int| 0 <= i < rows.len() && rows[i].0@ == k,
        |k: K::V| rows[choose|i: int| 0 <= i < rows.len() && rows[i].0@ == k].1@,
    )
}

pub proof fn lemma_rows_map_at<K: View, V: View>(rows: Seq<(K, V)>, i: int)
    requires
        keys_unique(rows),
        0 <= i < rows.len(),
    ensures
        rows_map(rows).contains_key(rows[i].0@),
        rows_map(rows)[rows[i].0@] == rows[i].1@,
{
    let k = rows[i].0@;
    assert(exists|j: int| 0 <= j < rows.len() && rows[j].0@ == k);
    let j = choose|j: int| 0 <= j < rows.len() && rows[j].0@ == k;
    assert(rows[j].0@ == rows[i].0@);
}

/// A table with unique keys has one key in its map for each row.
pub proof fn lemma_rows_map_len<K: View, V: View>(rows: Seq<(K, V)>)
    requires
        keys_unique(rows),
    ensures
        rows_map(rows).dom().len() == rows.len(),
{
    let ks = rows.map_values(|r: (K, V)| r.0@);
    assert(ks.no_duplicates()) by {
        assert forall|i: int, j: int| 0 <= i < ks.len() && 0 <= j < ks.len() && i != j implies ks[i] != ks[j] by {
            if ks[i] == ks[j] {
                assert(rows[i].0@ == rows[j].0@);
            }
        }
    }
    assert forall|k: K::V| #[trigger] rows_map(rows).dom().contains(k) == ks.to_set().contains(k) by {
        if rows_map(rows).dom().contains(k) {
            let i = choose|i: int| 0 <= i < rows.len() && rows[i].0@ == k;
            assert(ks[i] == k);
        }
        if ks.to_set().contains(k) {
            let i = choose|i: int| 0 <= i < ks.len() && ks[i] == k;
            assert(rows[i].0@ == k);
        }
    }
    assert(rows_map(rows).dom() =~= ks.to_set());
    ks.unique_seq_to_set();
}

impl<K: View, V: View> View for Table<K, V> {
    type V = Map<K::V, V::V>;

    open spec fn view(&self) -> Map<K::V, V::V> {
        rows_map(self.rows@)
    }
}

impl<K: Key, V: Dup> Table<K, V> {
    pub open spec fn wf(&self) -> bool {
        keys_unique(self.rows@)
    }

    pub fn new() -> (r: Self)
        ensures
            r.wf(),
            r@ == Map::<K::V, V::V>::empty(),
    {
        let r = Table { rows: Vec::new() };
        assert(r@ =~= Map::<K::V, V::V>::empty());
        r
    }

    /// The index of the row with key `k`, if any.
    fn position(&self, k: &K) -> (r: Option<usize>)
        requires
            self.wf(),
        ensures
            r matches Some(i) ==> i < self.rows@.len() && self.rows@[i as int].0@ == k@,
            r is None ==> !self@.contains_key(k@),
    {
        let mut i: usize = 0;
        while i < self.rows.len()
            invariant
                0 <= i <= self.rows@.len(),
                forall|j: int| 0 <= j < i ==> self.rows@[j].0@ != k@,
            decreases self.rows@.len() - i,
        {
            if self.rows[i].0.same(k) {
                return Some(i);
            }
            i = i + 1;
        }
        None
    }

    pub fn get(&self, k: &K) -> (r: Option<&V>)
        requires
            self.wf(),
        ensures
            r is Some <==> self@.contains_key(k@),
            r matches Some(v) ==> v@ == self@[k@],
    {
        match self.position(k) {
            Some(i) => {
                proof {
                    lemma_rows_map_at(self.rows@, i as int);
                }
                Some(&self.rows[i].1)
            },
            None => None,
        }
    }

    pub fn insert(&mut self, k: K, v: V)
        requires
            old(self).wf(),
        ensures
            final(self).wf(),
            final(self)@ == old(self)@.insert(k@, v@),
    {
        let ghost kv = k@;
        let ghost vv = v@;
        let ghost idx: int;
        match self.position(&k) {
            Some(i) => {
                self.rows.set(i, (k, v));
                proof {
                    idx = i as int;
                }
            },
            None => {
                self.rows.push((k, v));
                proof {
                    idx = old(self).rows@.len() as int;
                }
            },
        }
        proof {
            let rows = self.rows@;
            let orows = old(self).rows@;
            assert(keys_unique(rows)) by {
                assert forall|a: int, b: int|
                    0 <= a < rows.len() && 0 <= b < rows.len() && #[trigger] rows[a].0@
                        == #[trigger] rows[b].0@ implies a == b by {
                    if a != idx && b != idx {
                        assert(orows[a].0@ == orows[b].0@);
                    } else if a != idx {
                        assert(orows[a].0@ == kv);
                        assert(old(self)@.contains_key(kv));
                    } else if b != idx {
                        assert(orows[b].0@ == kv);
                        assert(old(self)@.contains_key(kv));
                    }
                }
            }
            let m = old(self)@.insert(kv, vv);
            let sm = rows_map(rows);
            lemma_rows_map_at(rows, idx);
            assert forall|key: K::V| #[trigger] sm.dom().contains(key) == m.dom().contains(key) by {
                if key != kv {
                    if m.dom().contains(key) {
                        let j = choose|j: int| 0 <= j < orows.len() && orows[j].0@ == key;
                        assert(j != idx);
                        assert(rows[j].0@ == key);
                    }
                    if sm.dom().contains(key) {
                        let j = choose|j: int| 0 <= j < rows.len() && rows[j].0@ == key;
                        assert(j != idx);
                        assert(orows[j].0@ == key);
                    }
                }
            }
            assert forall|key: K::V| m.dom().contains(key) implies #[trigger] sm[key] == m[key] by {
                if key != kv {
                    let j = choose|j: int| 0 <= j < orows.len() && orows[j].0@ == key;
                    lemma_rows_map_at(orows, j);
                    assert(j != idx);
                    lemma_rows_map_at(rows, j);
                }
            }
            assert(sm.dom() =~= m.dom());
            assert(sm =~= m);
        }
    }

    pub fn remove(&mut self, k: &K)
        requires
            old(self).wf(),
        ensures
            final(self).wf(),
            final(self)@ == old(self)@.remove(k@),
    {
        match self.position(k) {
            Some(i) => {
                let _ = self.rows.remove(i);
                proof {
                    let rows = self.rows@;
                    let orows = old(self).rows@;
                    let m = old(self)@.remove(k@);
                    let sm = rows_map(rows);
                    assert forall|a: int| 0 <= a < rows.len() implies #[trigger] rows[a]
                        == orows[if a < i { a } else { a + 1 }] by {}
                    assert(keys_unique(rows)) by {
                        assert forall|a: int, b: int|
                            0 <= a < rows.len() && 0 <= b < rows.len() && #[trigger] rows[a].0@
                                == #[trigger] rows[b].0@ implies a == b by {
                            let a1 = if a < i { a } else { a + 1 };
                            let b1 = if b < i { b } else { b + 1 };
                            assert(orows[a1].0@ == orows[b1].0@);
                        }
                    }
                    assert forall|key: K::V| #[trigger] sm.dom().contains(key) == m.dom().contains(key) by {
                        if m.dom().contains(key) {
                            let j = choose|j: int| 0 <= j < orows.len() && orows[j].0@ == key;
                            assert(j != i);
                            let j1 = if j < i { j } else { j - 1 };
                            assert(rows[j1].0@ == key);
                        }
                        if sm.dom().contains(key) {
                            let j = choose|j: int| 0 <= j < rows.len() && rows[j].0@ == key;
                            let j1 = if j < i { j } else { j + 1 };
                            assert(orows[j1].0@ == key);
                            assert(j1 != i);
                        }
                    }
                    assert forall|key: K::V| m.dom().contains(key) implies #[trigger] sm[key] == m[key] by {
                        let j = choose|j: int| 0 <= j < orows.len() && orows[j].0@ == key;
                        lemma_rows_map_at(orows, j);
                        assert(j != i);
                        let j1 = if j < i { j } else { j - 1 };
                        assert(rows[j1] == orows[j]);
                        lemma_rows_map_at(rows, j1);
                    }
                    assert(sm.dom() =~= m.dom());
            assert(sm =~= m);
                }
            },
            None => {
                assert(self@ =~= old(self)@.remove(k@));
            },
        }
    }

    /// Copies of all rows.
    pub fn entries(&self) -> (r: Vec<(K, V)>)
        requires
            self.wf(),
        ensures
            forall|i: int| 0 <= i < r@.len() ==> #[trigger] self@.contains_key(r@[i].0@) && self@[r@[i].0@] == r@[i].1@,
            forall|k: K::V| #[trigger] self@.contains_key(k) ==> exists|i: int| 0 <= i < r@.len() && r@[i].0@ == k,
            r@.len() == self@.dom().len(),
    {
        proof {
            lemma_rows_map_len(self.rows@);
        }
        let mut r: Vec<(K, V)> = Vec::new();
        let mut i: usize = 0;
        while i < self.rows.len()
            invariant
                self.wf(),
                0 <= i <= self.rows@.len(),
                r@.len() == i,
                forall|j: int| 0 <= j < i ==> (#[trigger] r@[j]).0@ == self.rows@[j].0@ && r@[j].1@ == self.rows@[j].1@,
            decreases self.rows@.len() - i,
        {
            r.push((self.rows[i].0.dup(), self.rows[i].1.dup()));
            i = i + 1;
        }
        proof {
            assert forall|j: int| 0 <= j < r@.len() implies #[trigger] self@.contains_key(r@[j].0@) && self@[r@[j].0@] == r@[j].1@ by {
                lemma_rows_map_at(self.rows@, j);
            }
            assert forall|k: K::V| #[trigger] self@.contains_key(k) implies exists|j: int| 0 <= j < r@.len() && r@[j].0@ == k by {
                let j = choose|j: int| 0 <= j < self.rows@.len() && self.rows@[j].0@ == k;
                assert(r@[j].0@ == k);
            }
        }
        r
    }

    /// Some key maps to `v`.
    pub open spec fn holds_value(&self, v: V::V) -> bool {
        exists|k: K::V| #[trigger] self@.contains_key(k) && self@[k] == v
    }

    /// Copies of all values, in row order.
    pub fn values(&self) -> (r: Vec<V>)
        requires
            self.wf(),
        ensures
            forall|i: int| 0 <= i < r@.len() ==> #[trigger] self.holds_value(r@[i]@),
            forall|k: K::V| #[trigger] self@.contains_key(k) ==> exists|i: int| 0 <= i < r@.len() && r@[i]@ == self@[k],
            r@.len() == self@.dom().len(),
    {
        proof {
            lemma_rows_map_len(self.rows@);
        }
        let mut r: Vec<V> = Vec::new();
        let mut i: usize = 0;
        while i < self.rows.len()
            invariant
                self.wf(),
                0 <= i <= self.rows@.len(),
                r@.len() == i,
                forall|j: int| 0 <= j < i ==> #[trigger] r@[j]@ == self.rows@[j].1@,
            decreases self.rows@.len() - i,
        {
            r.push(self.rows[i].1.dup());
            i = i + 1;
        }
        proof {
            assert forall|j: int| 0 <= j < r@.len() implies #[trigger] self.holds_value(r@[j]@) by {
                lemma_rows_map_at(self.rows@, j);
                let k = self.rows@[j].0@;
                assert(self@.contains_key(k) && self@[k] == r@[j]@);
            }
            assert forall|k: K::V| #[trigger] self@.contains_key(k) implies exists|j: int| 0 <= j < r@.len() && r@[j]@ == self@[k] by {
                let j = choose|j: int| 0 <= j < self.rows@.len() && self.rows@[j].0@ == k;
                lemma_rows_map_at(self.rows@, j);
                assert(r@[j]@ == self@[k]);
            }
        }
        r
    }
}

/// No two rows of views share a key.
pub open spec fn view_keys_unique<KV, VV>(rs: Seq<(KV, VV)>) -> bool {
    forall|i: int, j: int| 0 <= i < rs.len() && 0 <= j < rs.len() && #[trigger] rs[i].0 == #[trigger] rs[j].0 ==> i == j
}

/// The map that rows of views with unique keys stand for.
pub open spec fn view_map<KV, VV>(rs: Seq<(KV, VV)>) -> Map<KV, VV> {
    Map::new(
        |k: KV| exists|i: int| 0 <= i < rs.len() && rs[i].0 == k,
        |k: KV| rs[choose|i: int| 0 <= i < rs.len() && rs[i].0 == k].1,
    )
}

/// A table's map and key uniqueness depend on the views of its rows alone.
pub proof fn lemma_row_views<K: View, V: View>(rows: Seq<(K, V)>)
    ensures
        keys_unique(rows) == view_keys_unique(crate::codec::all_views(rows)),
        keys_unique(rows) ==> rows_map(rows) == view_map(crate::codec::all_views(rows)),
{
    let rs = crate::codec::all_views(rows);
    assert(keys_unique(rows) == view_keys_unique(rs)) by {
        if keys_unique(rows) {
            assert forall|i: int, j: int| 0 <= i < rs.len() && 0 <= j < rs.len() && #[trigger] rs[i].0 == #[trigger] rs[j].0 implies i == j by {
                assert(rows[i].0@ == rows[j].0@);
            }
        }
        if view_keys_unique(rs) {
            assert forall|i: int, j: int| 0 <= i < rows.len() && 0 <= j < rows.len() && #[trigger] rows[i].0@ == #[trigger] rows[j].0@ implies i == j by {
                assert(rs[i].0 == rs[j].0);
            }
        }
    }
    if keys_unique(rows) {
        let m1 = rows_map(rows);
        let m2 = view_map(rs);
        assert forall|k: K::V| #[trigger] m1.dom().contains(k) == m2.dom().contains(k) by {
            if m1.dom().contains(k) {
                let i = choose|i: int| 0 <= i < rows.len() && rows[i].0@ == k;
                assert(rs[i].0 == k);
            }
            if m2.dom().contains(k) {
                let i = choose|i: int| 0 <= i < rs.len() && rs[i].0 == k;
                assert(rows[i].0@ == k);
            }
        }
        assert forall|k: K::V| m1.dom().contains(k) implies #[trigger] m1[k] == m2[k] by {
            let i = choose|i: int| 0 <= i < rows.len() && rows[i].0@ == k;
            let j = choose|j: int| 0 <= j < rs.len() && rs[j].0 == k;
            assert(rows[j].0@ == k);
        }
        assert(m1 =~= m2);
    }
}

impl<K: Key, V: Dup> Table<K, V> {
    /// A table of the given rows, if no two share a key.
    pub fn from_rows(rows: Vec<(K, V)>) -> (r: Option<Self>)
        ensures
            r is Some <==> keys_unique(rows@),
            r matches Some(t) ==> t.rows@ == rows@ && t.wf(),
    {
        let mut i: usize = 0;
        while i < rows.len()
            invariant
                0 <= i <= rows@.len(),
                forall|a: int, b: int| 0 <= a < i && 0 <= b < rows@.len() && #[trigger] rows@[a].0@ == #[trigger] rows@[b].0@ ==> a == b,
            decreases rows@.len() - i,
        {
            let mut j: usize = 0;
            while j < rows.len()
                invariant
                    0 <= i < rows@.len(),
                    0 <= j <= rows@.len(),
                    forall|a: int, b: int| 0 <= a < i && 0 <= b < rows@.len() && #[trigger] rows@[a].0@ == #[trigger] rows@[b].0@ ==> a == b,
                    forall|b: int| 0 <= b < j && rows@[i as int].0@ == #[trigger] rows@[b].0@ ==> b == i,
                decreases rows@.len() - j,
            {
                if j != i && rows[i].0.same(&rows[j].0) {
                    return None;
                }
                j = j + 1;
            }
            i = i + 1;
        }
        Some(Table { rows })
    }
}

/// Values whose key is tied to their content.
pub trait Keyed: View + Sized {
    /// `v` may stand under key `k`.
    spec fn key_ok(k: Seq<u8>, v: Self::V) -> bool;

    fn check_key(&self, k: &Vec<u8>) -> (r: bool)
        ensures
            r == Self::key_ok(k@, self@),
    ;
}

/// Every value of the map stands under a key that fits it.
pub open spec fn keyed_ok<V: Keyed>(m: Map<Seq<u8>, V::V>) -> bool {
    forall|k: Seq<u8>| #[trigger] m.contains_key(k) ==> V::key_ok(k, m[k])
}

impl<V: Dup + Keyed> Table<Vec<u8>, V> {
    /// Whether every value stands under a key that fits it.
    pub fn check_keys(&self) -> (r: bool)
        requires
            self.wf(),
        ensures
            r == keyed_ok::<V>(self@),
    {
        let mut i: usize = 0;
        while i < self.rows.len()
            invariant
                self.wf(),
                0 <= i <= self.rows@.len(),
                forall|j: int| 0 <= j < i ==> V::key_ok(#[trigger] self.rows@[j].0@, self.rows@[j].1@),
            decreases self.rows@.len() - i,
        {
            proof {
                lemma_rows_map_at(self.rows@, i as int);
            }
            if !self.rows[i].1.check_key(&self.rows[i].0) {
                assert(!V::key_ok(self.rows@[i as int].0@, self@[self.rows@[i as int].0@]));
                return false;
            }
            i = i + 1;
        }
        assert forall|k: Seq<u8>| #[trigger] self@.contains_key(k) implies V::key_ok(k, self@[k]) by {
            let j = choose|j: int| 0 <= j < self.rows@.len() && self.rows@[j].0@ == k;
            lemma_rows_map_at(self.rows@, j);
        }
        true
    }
}

} // verus!
