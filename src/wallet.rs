//! The wallet state store: mints, keysets, keys, quotes, proofs, keyset
//! counters and the transaction log of the ecash wallet engine.
use vstd::prelude::*;
use crate::codec::{all_views, lemma_lines_round_trip, lemma_table_round_trip, lines_text, parse_lines, parse_table, read_lines, read_table, table_text, write_lines, write_table, SECTION_SEP};
use crate::framing::{join, join_fields, lacks, lemma_split_spec, split, split_spec};
use crate::framing::views;
use crate::table::{bytes_eq, view_map, Dup, Table};
use crate::wallet_records::{
    dup_entries, entry_views, Counter, Entry, EntryList, EntryView, MintEntry, ProofInfo, ProofInfoView, ProofState,
    Transaction, TransactionDirection, TransactionView,
};

verus! {

/// What the wallet store can refuse.
#[derive(PartialEq, Eq, Structural, Clone, Copy, Debug)]
pub enum WalletError {
    /// A keyset counter would pass `u32::MAX`.
    CounterOverflow,
}

/// The id that the wallet engine derives from the keys of a transaction's
/// proofs; `None` when one of them is not a valid public key.
pub uninterp spec fn transaction_id_of(ys: Seq<Seq<u8>>) -> Option<Seq<u8>>;

/// Relies on cashu's `PublicKey::from_slice`, to read each key, and on
/// cdk-common's `TransactionId::new`, which derives the id from the keys alone.
#[verifier::external_body]
fn derive_transaction_id(ys: &Vec<Vec<u8>>) -> (r: Option<Vec<u8>>)
    ensures
        r is Some <==> transaction_id_of(views(ys@)) is Some,
        r matches Some(v) ==> transaction_id_of(views(ys@)) == Some(v@),
{
    let keys: Result<Vec<cdk_common::nuts::PublicKey>, _> =
        ys.iter().map(|y| cdk_common::nuts::PublicKey::from_slice(y)).collect();
    keys.ok().map(|k| cdk_common::wallet::TransactionId::new(k).as_bytes().to_vec())
}

/// The wallet state store.
pub struct HybridWalletDatabase {
    /// Mint registrations by URL.
    pub mints: Table<Vec<u8>, MintEntry>,
    /// The keysets of each mint, by mint URL.
    pub keysets: Table<Vec<u8>, EntryList>,
    /// Keysets by keyset id.
    pub keyset_map: Table<Vec<u8>, Entry>,
    /// Mint quotes by quote id.
    pub mint_quotes: Table<Vec<u8>, Entry>,
    /// Melt quotes by quote id.
    pub melt_quotes: Table<Vec<u8>, Entry>,
    /// Keys by keyset id.
    pub keys: Table<Vec<u8>, Vec<u8>>,
    /// Proofs, in the order they were added.
    pub proofs: Vec<ProofInfo>,
    /// Derivation counters by keyset id.
    pub keyset_counters: Table<Vec<u8>, Counter>,
    /// The transaction log, in the order of adding.
    pub transactions: Vec<Transaction>,
}

/// What the wallet store holds, as maps and sequences.
pub struct WalletView {
    pub mints: Map<Seq<u8>, Option<Seq<u8>>>,
    pub keysets: Map<Seq<u8>, Seq<EntryView>>,
    pub keyset_map: Map<Seq<u8>, EntryView>,
    pub mint_quotes: Map<Seq<u8>, EntryView>,
    pub melt_quotes: Map<Seq<u8>, EntryView>,
    pub keys: Map<Seq<u8>, Seq<u8>>,
    pub proofs: Seq<ProofInfoView>,
    pub keyset_counters: Map<Seq<u8>, u32>,
    pub transactions: Seq<TransactionView>,
}

impl View for HybridWalletDatabase {
    type V = WalletView;

    open spec fn view(&self) -> WalletView {
        WalletView {
            mints: self.mints@,
            keysets: self.keysets@,
            keyset_map: self.keyset_map@,
            mint_quotes: self.mint_quotes@,
            melt_quotes: self.melt_quotes@,
            keys: self.keys@,
            proofs: all_views(self.proofs@),
            keyset_counters: self.keyset_counters@,
            transactions: all_views(self.transactions@),
        }
    }
}

pub open spec fn empty_wallet() -> WalletView {
    WalletView {
        mints: Map::empty(),
        keysets: Map::empty(),
        keyset_map: Map::empty(),
        mint_quotes: Map::empty(),
        melt_quotes: Map::empty(),
        keys: Map::empty(),
        proofs: Seq::empty(),
        keyset_counters: Map::empty(),
        transactions: Seq::empty(),
    }
}

/// The map with the entry of `from`, if any, moved to `to`.
pub open spec fn renamed<V>(m: Map<Seq<u8>, V>, from: Seq<u8>, to: Seq<u8>) -> Map<Seq<u8>, V> {
    if m.contains_key(from) {
        m.remove(from).insert(to, m[from])
    } else {
        m
    }
}

/// Each keyset of the list put under its id, later ones last.
pub open spec fn insert_keysets(m: Map<Seq<u8>, EntryView>, es: Seq<EntryView>) -> Map<Seq<u8>, EntryView>
    decreases es.len(),
{
    if es.len() == 0 {
        m
    } else {
        insert_keysets(m, es.drop_last()).insert(es.last().id, es.last())
    }
}

/// The counter of a keyset: zero before its first use.
pub open spec fn counter_of(c: Map<Seq<u8>, u32>, id: Seq<u8>) -> int {
    if c.contains_key(id) {
        c[id] as int
    } else {
        0
    }
}

/// The counters after adding `n` to the counter of `id`.
pub open spec fn incremented(c: Map<Seq<u8>, u32>, id: Seq<u8>, n: int) -> Map<Seq<u8>, u32> {
    c.insert(id, (counter_of(c, id) + n) as u32)
}

/// Counter increments add up: the first on an unseen keyset gives the
/// increment itself, and each later one gives the previous value plus its
/// increment, so increments above zero give ever larger values.
pub proof fn lemma_counter_increments(c: Map<Seq<u8>, u32>, id: Seq<u8>, n1: int, n2: int)
    requires
        0 <= n1,
        0 <= n2,
        counter_of(c, id) + n1 + n2 <= u32::MAX,
    ensures
        counter_of(incremented(c, id, n1), id) == counter_of(c, id) + n1,
        counter_of(incremented(incremented(c, id, n1), id, n2), id) == counter_of(incremented(c, id, n1), id) + n2,
        !c.contains_key(id) ==> counter_of(incremented(c, id, n1), id) == n1,
        n2 > 0 ==> counter_of(incremented(incremented(c, id, n1), id, n2), id) > counter_of(incremented(c, id, n1), id),
{
}

/// The sum of the increments.
pub open spec fn sum_of(ns: Seq<int>) -> int
    decreases ns.len(),
{
    if ns.len() == 0 {
        0
    } else {
        sum_of(ns.drop_last()) + ns.last()
    }
}

/// The counters after adding each increment in turn to the counter of `id`.
pub open spec fn incremented_all(c: Map<Seq<u8>, u32>, id: Seq<u8>, ns: Seq<int>) -> Map<Seq<u8>, u32>
    decreases ns.len(),
{
    if ns.len() == 0 {
        c
    } else {
        incremented(incremented_all(c, id, ns.drop_last()), id, ns.last())
    }
}

proof fn lemma_sum_prefix(ns: Seq<int>, k: int)
    requires
        0 <= k <= ns.len(),
        forall|i: int| 0 <= i < ns.len() ==> 0 <= #[trigger] ns[i],
    ensures
        sum_of(ns.take(k)) <= sum_of(ns),
    decreases ns.len(),
{
    if k == ns.len() {
        assert(ns.take(k) =~= ns);
    } else {
        let init = ns.drop_last();
        assert(init.take(k) =~= ns.take(k));
        lemma_sum_prefix(init, k);
    }
}

/// Over any sequence of increments of one keyset's counter: the counter ends
/// at its start plus their sum, each call gives the value before it plus its
/// increment (so increments above zero give ever larger values), and the first
/// call on an unseen keyset gives its increment.
pub proof fn lemma_counter_sequence(c: Map<Seq<u8>, u32>, id: Seq<u8>, ns: Seq<int>)
    requires
        forall|i: int| 0 <= i < ns.len() ==> 0 <= #[trigger] ns[i],
        counter_of(c, id) + sum_of(ns) <= u32::MAX,
    ensures
        counter_of(incremented_all(c, id, ns), id) == counter_of(c, id) + sum_of(ns),
        forall|k: int| 0 < k <= ns.len() ==> #[trigger] counter_of(incremented_all(c, id, ns.take(k)), id)
            == counter_of(incremented_all(c, id, ns.take(k - 1)), id) + ns[k - 1],
        forall|k: int| 0 < k <= ns.len() && ns[k - 1] > 0 ==> #[trigger] counter_of(incremented_all(c, id, ns.take(k)), id)
            > counter_of(incremented_all(c, id, ns.take(k - 1)), id),
        !c.contains_key(id) && ns.len() > 0 ==> counter_of(incremented_all(c, id, ns.take(1)), id) == ns[0],
    decreases ns.len(),
{
    if ns.len() > 0 {
        let init = ns.drop_last();
        lemma_counter_sequence(c, id, init);
    }
    assert forall|k: int| 0 < k <= ns.len() implies #[trigger] counter_of(incremented_all(c, id, ns.take(k)), id)
        == counter_of(incremented_all(c, id, ns.take(k - 1)), id) + ns[k - 1] by {
        let t = ns.take(k);
        assert(t.drop_last() =~= ns.take(k - 1));
        lemma_sum_prefix(ns, k - 1);
        assert forall|i: int| 0 <= i < t.drop_last().len() implies 0 <= #[trigger] t.drop_last()[i] by {
            assert(t.drop_last()[i] == ns[i]);
        }
        lemma_sum_prefix(ns, k);
        lemma_counter_sequence(c, id, ns.take(k - 1));
        assert(sum_of(t) == sum_of(ns.take(k - 1)) + ns[k - 1]);
    }
    if !c.contains_key(id) && ns.len() > 0 {
        assert(ns.take(0) =~= Seq::<int>::empty());
        assert(counter_of(incremented_all(c, id, ns.take(1)), id) == counter_of(incremented_all(c, id, ns.take(0)), id) + ns[0]);
    }
}

/// No two proofs share a key.
pub open spec fn ys_unique(ps: Seq<ProofInfoView>) -> bool {
    forall|i: int, j: int| 0 <= i < ps.len() && 0 <= j < ps.len() && #[trigger] ps[i].y == #[trigger] ps[j].y ==> i == j
}

/// Keeping some proofs of a list whose keys are distinct keeps them distinct.
pub proof fn lemma_filter_ys_unique(s: Seq<ProofInfoView>, pred: spec_fn(ProofInfoView) -> bool)
    requires
        ys_unique(s),
    ensures
        ys_unique(s.filter(pred)),
    decreases s.len(),
{
    reveal(Seq::filter);
    if s.len() > 0 {
        let init = s.drop_last();
        assert(ys_unique(init)) by {
            assert forall|i: int, j: int| 0 <= i < init.len() && 0 <= j < init.len() && #[trigger] init[i].y == #[trigger] init[j].y implies i == j by {
                assert(s[i].y == s[j].y);
            }
        }
        lemma_filter_ys_unique(init, pred);
        let f = init.filter(pred);
        if pred(s.last()) {
            init.filter_lemma(pred);
            let g = f.push(s.last());
            assert(s.filter(pred) == g);
            assert forall|i: int, j: int| 0 <= i < g.len() && 0 <= j < g.len() && #[trigger] g[i].y == #[trigger] g[j].y implies i == j by {
                if i < f.len() && j == f.len() {
                    assert(f.contains(f[i]));
                    init.lemma_filter_contains_rev(pred, f[i]);
                    let a = choose|a: int| 0 <= a < init.len() && init[a] == f[i];
                    assert(s[a].y == s[s.len() - 1].y);
                } else if j < f.len() && i == f.len() {
                    assert(f.contains(f[j]));
                    init.lemma_filter_contains_rev(pred, f[j]);
                    let a = choose|a: int| 0 <= a < init.len() && init[a] == f[j];
                    assert(s[a].y == s[s.len() - 1].y);
                } else if i < f.len() && j < f.len() {
                    assert(f[i].y == f[j].y);
                }
            }
        }
    }
}

/// Some proof of the list has key `y`.
pub open spec fn has_y(ps: Seq<ProofInfoView>, y: Seq<u8>) -> bool {
    exists|i: int| 0 <= i < ps.len() && ps[i].y == y
}

/// The first proof of the list with each key, in order.
pub open spec fn first_by_y(a: Seq<ProofInfoView>) -> Seq<ProofInfoView>
    decreases a.len(),
{
    if a.len() == 0 {
        a
    } else {
        let d = first_by_y(a.drop_last());
        if has_y(d, a.last().y) {
            d
        } else {
            d.push(a.last())
        }
    }
}

/// Taking the first proof with each key gives distinct keys, only proofs of
/// the list, and every key of the list.
pub proof fn lemma_first_by_y(a: Seq<ProofInfoView>)
    ensures
        ys_unique(first_by_y(a)),
        forall|p: ProofInfoView| #[trigger] first_by_y(a).contains(p) ==> a.contains(p),
        forall|y: Seq<u8>| #[trigger] has_y(a, y) <==> has_y(first_by_y(a), y),
    decreases a.len(),
{
    if a.len() > 0 {
        let init = a.drop_last();
        lemma_first_by_y(init);
        let d = first_by_y(init);
        let x = a.last();
        assert forall|p: ProofInfoView| #[trigger] first_by_y(a).contains(p) implies a.contains(p) by {
            let i = choose|i: int| 0 <= i < first_by_y(a).len() && first_by_y(a)[i] == p;
            if i < d.len() {
                assert(d[i] == p);
                assert(d.contains(p));
                let j = choose|j: int| 0 <= j < init.len() && init[j] == p;
                assert(a[j] == p);
            } else {
                assert(a[a.len() - 1] == p);
            }
        }
        assert forall|y: Seq<u8>| #[trigger] has_y(a, y) <==> has_y(first_by_y(a), y) by {
            let f = first_by_y(a);
            if has_y(a, y) {
                let i = choose|i: int| 0 <= i < a.len() && a[i].y == y;
                if i < init.len() {
                    assert(init[i].y == y);
                    assert(has_y(init, y));
                    assert(has_y(d, y));
                    let j = choose|j: int| 0 <= j < d.len() && d[j].y == y;
                    assert(f[j] == d[j]);
                    assert(f[j].y == y);
                } else if !has_y(d, x.y) {
                    assert(f[d.len() as int].y == y);
                }
            }
            if has_y(f, y) {
                let j = choose|j: int| 0 <= j < f.len() && f[j].y == y;
                if j < d.len() {
                    assert(f[j] == d[j]);
                    assert(d[j].y == y);
                    assert(has_y(d, y));
                    assert(has_y(init, y));
                    let i = choose|i: int| 0 <= i < init.len() && init[i].y == y;
                    assert(a[i].y == y);
                } else {
                    assert(a[a.len() - 1].y == y);
                }
            }
        }
        if !has_y(d, x.y) {
            let f = d.push(x);
            assert forall|i: int, j: int| 0 <= i < f.len() && 0 <= j < f.len() && #[trigger] f[i].y == #[trigger] f[j].y implies i == j by {
                if i < d.len() && j < d.len() {
                    assert(d[i].y == d[j].y);
                } else if i < d.len() {
                    assert(d[i].y == x.y);
                } else if j < d.len() {
                    assert(d[j].y == x.y);
                }
            }
        }
    }
}

/// The proofs kept from before an update: keys neither removed nor added.
pub open spec fn kept_before(removed: Seq<Seq<u8>>, added: Seq<ProofInfoView>) -> spec_fn(ProofInfoView) -> bool {
    |p: ProofInfoView| !removed.contains(p.y) && !has_y(added, p.y)
}

/// After an update the proofs are those kept from before, whose keys were
/// neither removed nor added, and the first added proof with each key; each
/// added key is held; and keys stay distinct.
pub proof fn lemma_update_proofs(old: Seq<ProofInfoView>, added: Seq<ProofInfoView>, removed: Seq<Seq<u8>>)
    ensures
        forall|p: ProofInfoView| #[trigger] updated_proofs(old, added, removed).contains(p)
            <==> ((old.contains(p) && !removed.contains(p.y) && !has_y(added, p.y)) || first_by_y(added).contains(p)),
        forall|p: ProofInfoView| #[trigger] first_by_y(added).contains(p) ==> added.contains(p),
        forall|y: Seq<u8>| #[trigger] has_y(added, y) ==> has_y(updated_proofs(old, added, removed), y),
        ys_unique(old) ==> ys_unique(updated_proofs(old, added, removed)),
{
    let pred = kept_before(removed, added);
    let kept = old.filter(pred);
    let f = first_by_y(added);
    let u = updated_proofs(old, added, removed);
    old.filter_lemma(pred);
    lemma_first_by_y(added);
    assert forall|p: ProofInfoView| #[trigger] u.contains(p)
        <==> ((old.contains(p) && !removed.contains(p.y) && !has_y(added, p.y)) || f.contains(p)) by {
        if u.contains(p) {
            let i = choose|i: int| 0 <= i < u.len() && u[i] == p;
            if i >= kept.len() {
                assert(f[i - kept.len()] == p);
            } else {
                assert(kept[i] == p);
                assert(kept.contains(p));
                old.lemma_filter_contains_rev(pred, p);
                assert(pred(p));
            }
        }
        if old.contains(p) && !removed.contains(p.y) && !has_y(added, p.y) {
            let a = choose|a: int| 0 <= a < old.len() && old[a] == p;
            assert(pred(old[a]));
            assert(kept.contains(old[a]));
            let i = choose|i: int| 0 <= i < kept.len() && kept[i] == p;
            assert(u[i] == p);
        }
        if f.contains(p) {
            let i = choose|i: int| 0 <= i < f.len() && f[i] == p;
            assert(u[kept.len() + i] == p);
        }
    }
    assert forall|y: Seq<u8>| #[trigger] has_y(added, y) implies has_y(u, y) by {
        assert(has_y(f, y));
        let j = choose|j: int| 0 <= j < f.len() && f[j].y == y;
        assert(u[kept.len() + j].y == y);
    }
    if ys_unique(old) {
        lemma_filter_ys_unique(old, pred);
        assert forall|i: int, j: int| 0 <= i < u.len() && 0 <= j < u.len() && #[trigger] u[i].y == #[trigger] u[j].y implies i == j by {
            if i < kept.len() && j >= kept.len() {
                assert(kept.contains(kept[i]));
                old.lemma_filter_contains_rev(pred, kept[i]);
                assert(pred(kept[i]));
                assert(f.contains(f[j - kept.len()]));
                assert(added.contains(f[j - kept.len()]));
                let b = choose|b: int| 0 <= b < added.len() && added[b] == f[j - kept.len()];
                assert(added[b].y == kept[i].y);
            } else if j < kept.len() && i >= kept.len() {
                assert(kept.contains(kept[j]));
                old.lemma_filter_contains_rev(pred, kept[j]);
                assert(pred(kept[j]));
                assert(f.contains(f[i - kept.len()]));
                assert(added.contains(f[i - kept.len()]));
                let b = choose|b: int| 0 <= b < added.len() && added[b] == f[i - kept.len()];
                assert(added[b].y == kept[j].y);
            } else if i >= kept.len() && j >= kept.len() {
                assert(f[i - kept.len()].y == f[j - kept.len()].y);
            } else {
                assert(kept[i].y == kept[j].y);
            }
        }
    }
}

/// The proofs after an update: those whose key is neither removed nor added
/// stay, in order, and then the first added proof with each key follows.
pub open spec fn updated_proofs(old: Seq<ProofInfoView>, added: Seq<ProofInfoView>, removed: Seq<Seq<u8>>) -> Seq<ProofInfoView> {
    old.filter(kept_before(removed, added)) + first_by_y(added)
}

/// A proof passes every filter that is given; one without a spending
/// condition never passes a condition filter.
pub open spec fn proof_matches(
    p: ProofInfoView,
    mint_url: Option<Seq<u8>>,
    unit: Option<Seq<u8>>,
    states: Option<Seq<ProofState>>,
    conditions: Option<Seq<Seq<u8>>>,
) -> bool {
    &&& (mint_url matches Some(m) ==> p.mint_url == m)
    &&& (unit matches Some(u) ==> p.unit == u)
    &&& (states matches Some(s) ==> s.contains(p.state))
    &&& (conditions matches Some(c) ==> (p.spending_condition matches Some(pc) && c.contains(pc)))
}

/// A transaction passes every filter that is given.
pub open spec fn transaction_matches(
    t: TransactionView,
    mint_url: Option<Seq<u8>>,
    direction: Option<TransactionDirection>,
    unit: Option<Seq<u8>>,
) -> bool {
    &&& (mint_url matches Some(m) ==> t.mint_url == m)
    &&& (direction matches Some(d) ==> t.direction == d)
    &&& (unit matches Some(u) ==> t.unit == u)
}

pub open spec fn opt_view(o: Option<Vec<u8>>) -> Option<Seq<u8>> {
    match o {
        Some(v) => Some(v@),
        None => None,
    }
}

pub open spec fn opt_views(o: Option<Vec<Vec<u8>>>) -> Option<Seq<Seq<u8>>> {
    match o {
        Some(v) => Some(views(v@)),
        None => None,
    }
}

pub open spec fn opt_seq<T>(o: Option<Vec<T>>) -> Option<Seq<T>> {
    match o {
        Some(v) => Some(v@),
        None => None,
    }
}

/// Whether `x` is among `list`.
pub fn contains_bytes(list: &Vec<Vec<u8>>, x: &[u8]) -> (r: bool)
    ensures
        r == views(list@).contains(x@),
{
    let mut i: usize = 0;
    while i < list.len()
        invariant
            0 <= i <= list@.len(),
            forall|j: int| 0 <= j < i ==> views(list@)[j] != x@,
        decreases list@.len() - i,
    {
        if bytes_eq(list[i].as_slice(), x) {
            assert(views(list@)[i as int] == x@);
            return true;
        }
        i = i + 1;
    }
    false
}

/// Whether some proof of the list has key `y`.
fn contains_y(list: &Vec<ProofInfo>, y: &[u8]) -> (r: bool)
    ensures
        r == has_y(all_views(list@), y@),
{
    let mut i: usize = 0;
    while i < list.len()
        invariant
            0 <= i <= list@.len(),
            forall|j: int| 0 <= j < i ==> all_views(list@)[j].y != y@,
        decreases list@.len() - i,
    {
        if bytes_eq(list[i].y.as_slice(), y) {
            assert(all_views(list@)[i as int].y == y@);
            return true;
        }
        i = i + 1;
    }
    false
}

/// Whether no two proofs of the list share a key.
fn proofs_ys_unique(list: &Vec<ProofInfo>) -> (r: bool)
    ensures
        r == ys_unique(all_views(list@)),
{
    let ghost v = all_views(list@);
    let mut i: usize = 0;
    while i < list.len()
        invariant
            v == all_views(list@),
            0 <= i <= list@.len(),
            forall|a: int, b: int| 0 <= a < i && 0 <= b < v.len() && #[trigger] v[a].y == #[trigger] v[b].y ==> a == b,
        decreases list@.len() - i,
    {
        let mut j: usize = 0;
        while j < list.len()
            invariant
                v == all_views(list@),
                0 <= i < list@.len(),
                0 <= j <= list@.len(),
                forall|a: int, b: int| 0 <= a < i && 0 <= b < v.len() && #[trigger] v[a].y == #[trigger] v[b].y ==> a == b,
                forall|b: int| 0 <= b < j && v[i as int].y == #[trigger] v[b].y ==> b == i,
            decreases list@.len() - j,
        {
            if j != i && bytes_eq(list[i].y.as_slice(), list[j].y.as_slice()) {
                assert(v[i as int].y == v[j as int].y);
                return false;
            }
            j = j + 1;
        }
        i = i + 1;
    }
    true
}

fn contains_state(list: &Vec<ProofState>, s: ProofState) -> (r: bool)
    ensures
        r == list@.contains(s),
{
    let mut i: usize = 0;
    while i < list.len()
        invariant
            0 <= i <= list@.len(),
            forall|j: int| 0 <= j < i ==> list@[j] != s,
        decreases list@.len() - i,
    {
        if list[i] == s {
            assert(list@[i as int] == s);
            return true;
        }
        i = i + 1;
    }
    false
}

fn matches_bytes(filter: &Option<Vec<u8>>, x: &Vec<u8>) -> (r: bool)
    ensures
        r == (opt_view(*filter) matches Some(m) ==> x@ == m),
{
    match filter {
        Some(m) => bytes_eq(m.as_slice(), x.as_slice()),
        None => true,
    }
}

fn proof_passes(
    p: &ProofInfo,
    mint_url: &Option<Vec<u8>>,
    unit: &Option<Vec<u8>>,
    states: &Option<Vec<ProofState>>,
    conditions: &Option<Vec<Vec<u8>>>,
) -> (r: bool)
    ensures
        r == proof_matches(p@, opt_view(*mint_url), opt_view(*unit), opt_seq(*states), opt_views(*conditions)),
{
    if !matches_bytes(mint_url, &p.mint_url) || !matches_bytes(unit, &p.unit) {
        return false;
    }
    let state_ok = match states {
        Some(s) => contains_state(s, p.state),
        None => true,
    };
    let condition_ok = match conditions {
        Some(c) => match &p.spending_condition {
            Some(pc) => contains_bytes(c, pc.as_slice()),
            None => false,
        },
        None => true,
    };
    state_ok && condition_ok
}

impl HybridWalletDatabase {
    pub open spec fn wf(&self) -> bool {
        &&& self.mints.wf()
        &&& self.keysets.wf()
        &&& self.keyset_map.wf()
        &&& self.mint_quotes.wf()
        &&& self.melt_quotes.wf()
        &&& self.keys.wf()
        &&& self.keyset_counters.wf()
        &&& ys_unique(all_views(self.proofs@))
    }

    /// A store with nothing in it.
    pub fn empty() -> (r: Self)
        ensures
            r.wf(),
            r@ == empty_wallet(),
    {
        let r = HybridWalletDatabase {
            mints: Table::new(),
            keysets: Table::new(),
            keyset_map: Table::new(),
            mint_quotes: Table::new(),
            melt_quotes: Table::new(),
            keys: Table::new(),
            proofs: Vec::new(),
            keyset_counters: Table::new(),
            transactions: Vec::new(),
        };
        assert(all_views(r.proofs@) =~= Seq::<ProofInfoView>::empty());
        assert(all_views(r.transactions@) =~= Seq::<TransactionView>::empty());
        r
    }

    pub fn add_mint(&mut self, mint_url: Vec<u8>, mint_info: Option<Vec<u8>>)
        requires
            old(self).wf(),
        ensures
            final(self).wf(),
            final(self)@ == (WalletView { mints: old(self)@.mints.insert(mint_url@, opt_view(mint_info)), ..old(self)@ }),
    {
        self.mints.insert(mint_url, MintEntry { info: mint_info });
    }

    pub fn remove_mint(&mut self, mint_url: &Vec<u8>)
        requires
            old(self).wf(),
        ensures
            final(self).wf(),
            final(self)@ == (WalletView { mints: old(self)@.mints.remove(mint_url@), ..old(self)@ }),
    {
        self.mints.remove(mint_url);
    }

    /// The mint's info: `None` for an unknown mint or one without info.
    pub fn get_mint(&self, mint_url: &Vec<u8>) -> (r: Option<Vec<u8>>)
        requires
            self.wf(),
        ensures
            opt_view(r) == if self@.mints.contains_key(mint_url@) {
                self@.mints[mint_url@]
            } else {
                None
            },
    {
        match self.mints.get(mint_url) {
            Some(e) => match &e.info {
                Some(i) => Some(i.clone()),
                None => None,
            },
            None => None,
        }
    }

    /// Every registered mint with its info, each once.
    pub fn get_mints(&self) -> (r: Vec<(Vec<u8>, MintEntry)>)
        requires
            self.wf(),
        ensures
            forall|i: int| 0 <= i < r@.len() ==> #[trigger] self@.mints.contains_key(r@[i].0@) && self@.mints[r@[i].0@] == r@[i].1@,
            forall|k: Seq<u8>| #[trigger] self@.mints.contains_key(k) ==> exists|i: int| 0 <= i < r@.len() && r@[i].0@ == k,
    {
        let r = self.mints.entries();
        assert forall|i: int| 0 <= i < r@.len() implies #[trigger] self@.mints.contains_key(r@[i].0@) && self@.mints[r@[i].0@] == r@[i].1@ by {
            assert(self.mints@.contains_key(r@[i].0@));
        }
        r
    }

    /// Moves the registration of `old_mint_url`, if any, to `new_mint_url`.
    pub fn update_mint_url(&mut self, old_mint_url: &Vec<u8>, new_mint_url: Vec<u8>)
        requires
            old(self).wf(),
        ensures
            final(self).wf(),
            final(self)@ == (WalletView {
                mints: renamed(old(self)@.mints, old_mint_url@, new_mint_url@),
                keysets: renamed(old(self)@.keysets, old_mint_url@, new_mint_url@),
                ..old(self)@
            }),
    {
        let info = match self.mints.get(old_mint_url) {
            Some(e) => Some(e.dup()),
            None => None,
        };
        match info {
            Some(e) => {
                self.mints.remove(old_mint_url);
                self.mints.insert(new_mint_url.clone(), e);
            },
            None => {},
        }
        let list = match self.keysets.get(old_mint_url) {
            Some(l) => Some(l.dup()),
            None => None,
        };
        match list {
            Some(l) => {
                self.keysets.remove(old_mint_url);
                self.keysets.insert(new_mint_url, l);
            },
            None => {},
        }
    }

    /// Makes `keysets` the mint's keyset list, and puts each under its id.
    pub fn add_mint_keysets(&mut self, mint_url: Vec<u8>, keysets: Vec<Entry>)
        requires
            old(self).wf(),
        ensures
            final(self).wf(),
            final(self)@ == (WalletView {
                keysets: old(self)@.keysets.insert(mint_url@, entry_views(keysets@)),
                keyset_map: insert_keysets(old(self)@.keyset_map, entry_views(keysets@)),
                ..old(self)@
            }),
    {
        let copy = dup_entries(&keysets);
        self.keysets.insert(mint_url, EntryList { items: copy });
        let mut i: usize = 0;
        while i < keysets.len()
            invariant
                self.wf(),
                0 <= i <= keysets@.len(),
                self.keysets@ == old(self)@.keysets.insert(mint_url@, entry_views(keysets@)),
                self.keyset_map@ == insert_keysets(old(self)@.keyset_map, entry_views(keysets@).subrange(0, i as int)),
                self.mints == old(self).mints,
                self.mint_quotes == old(self).mint_quotes,
                self.melt_quotes == old(self).melt_quotes,
                self.keys == old(self).keys,
                self.proofs == old(self).proofs,
                self.keyset_counters == old(self).keyset_counters,
                self.transactions == old(self).transactions,
            decreases keysets@.len() - i,
        {
            let e = keysets[i].dup();
            let id = e.id.clone();
            self.keyset_map.insert(id, e);
            proof {
                let es = entry_views(keysets@).subrange(0, i + 1);
                assert(es.drop_last() =~= entry_views(keysets@).subrange(0, i as int));
            }
            i = i + 1;
        }
        assert(entry_views(keysets@).subrange(0, keysets@.len() as int) =~= entry_views(keysets@));
    }

    pub fn get_mint_keysets(&self, mint_url: &Vec<u8>) -> (r: Option<Vec<Entry>>)
        requires
            self.wf(),
        ensures
            r is Some <==> self@.keysets.contains_key(mint_url@),
            r matches Some(v) ==> entry_views(v@) == self@.keysets[mint_url@],
    {
        match self.keysets.get(mint_url) {
            Some(l) => Some(dup_entries(&l.items)),
            None => None,
        }
    }

    pub fn get_keyset_by_id(&self, keyset_id: &Vec<u8>) -> (r: Option<Entry>)
        requires
            self.wf(),
        ensures
            r is Some <==> self@.keyset_map.contains_key(keyset_id@),
            r matches Some(e) ==> e@ == self@.keyset_map[keyset_id@],
    {
        match self.keyset_map.get(keyset_id) {
            Some(e) => Some(e.dup()),
            None => None,
        }
    }

    pub fn add_mint_quote(&mut self, quote: Entry)
        requires
            old(self).wf(),
        ensures
            final(self).wf(),
            final(self)@ == (WalletView { mint_quotes: old(self)@.mint_quotes.insert(quote@.id, quote@), ..old(self)@ }),
    {
        let id = quote.id.clone();
        self.mint_quotes.insert(id, quote);
    }

    pub fn get_mint_quote(&self, quote_id: &Vec<u8>) -> (r: Option<Entry>)
        requires
            self.wf(),
        ensures
            r is Some <==> self@.mint_quotes.contains_key(quote_id@),
            r matches Some(e) ==> e@ == self@.mint_quotes[quote_id@],
    {
        match self.mint_quotes.get(quote_id) {
            Some(e) => Some(e.dup()),
            None => None,
        }
    }

    /// Every mint quote, each once.
    pub fn get_mint_quotes(&self) -> (r: Vec<Entry>)
        requires
            self.wf(),
        ensures
            forall|i: int| 0 <= i < r@.len() ==> #[trigger] self.mint_quotes.holds_value(r@[i]@),
            forall|k: Seq<u8>| #[trigger] self@.mint_quotes.contains_key(k) ==> exists|i: int| 0 <= i < r@.len() && r@[i]@ == self@.mint_quotes[k],
            r@.len() == self@.mint_quotes.dom().len(),
    {
        self.mint_quotes.values()
    }

    pub fn remove_mint_quote(&mut self, quote_id: &Vec<u8>)
        requires
            old(self).wf(),
        ensures
            final(self).wf(),
            final(self)@ == (WalletView { mint_quotes: old(self)@.mint_quotes.remove(quote_id@), ..old(self)@ }),
    {
        self.mint_quotes.remove(quote_id);
    }

    pub fn add_melt_quote(&mut self, quote: Entry)
        requires
            old(self).wf(),
        ensures
            final(self).wf(),
            final(self)@ == (WalletView { melt_quotes: old(self)@.melt_quotes.insert(quote@.id, quote@), ..old(self)@ }),
    {
        let id = quote.id.clone();
        self.melt_quotes.insert(id, quote);
    }

    pub fn get_melt_quote(&self, quote_id: &Vec<u8>) -> (r: Option<Entry>)
        requires
            self.wf(),
        ensures
            r is Some <==> self@.melt_quotes.contains_key(quote_id@),
            r matches Some(e) ==> e@ == self@.melt_quotes[quote_id@],
    {
        match self.melt_quotes.get(quote_id) {
            Some(e) => Some(e.dup()),
            None => None,
        }
    }

    /// Every melt quote, each once.
    pub fn get_melt_quotes(&self) -> (r: Vec<Entry>)
        requires
            self.wf(),
        ensures
            forall|i: int| 0 <= i < r@.len() ==> #[trigger] self.melt_quotes.holds_value(r@[i]@),
            forall|k: Seq<u8>| #[trigger] self@.melt_quotes.contains_key(k) ==> exists|i: int| 0 <= i < r@.len() && r@[i]@ == self@.melt_quotes[k],
            r@.len() == self@.melt_quotes.dom().len(),
    {
        self.melt_quotes.values()
    }

    pub fn remove_melt_quote(&mut self, quote_id: &Vec<u8>)
        requires
            old(self).wf(),
        ensures
            final(self).wf(),
            final(self)@ == (WalletView { melt_quotes: old(self)@.melt_quotes.remove(quote_id@), ..old(self)@ }),
    {
        self.melt_quotes.remove(quote_id);
    }

    /// Saves the keys of one keyset.
    pub fn add_keys(&mut self, keyset_id: Vec<u8>, keys: Vec<u8>)
        requires
            old(self).wf(),
        ensures
            final(self).wf(),
            final(self)@ == (WalletView { keys: old(self)@.keys.insert(keyset_id@, keys@), ..old(self)@ }),
    {
        self.keys.insert(keyset_id, keys);
    }

    pub fn get_keys(&self, keyset_id: &Vec<u8>) -> (r: Option<Vec<u8>>)
        requires
            self.wf(),
        ensures
            r is Some <==> self@.keys.contains_key(keyset_id@),
            r matches Some(k) ==> k@ == self@.keys[keyset_id@],
    {
        match self.keys.get(keyset_id) {
            Some(k) => Some(k.clone()),
            None => None,
        }
    }

    pub fn remove_keys(&mut self, keyset_id: &Vec<u8>)
        requires
            old(self).wf(),
        ensures
            final(self).wf(),
            final(self)@ == (WalletView { keys: old(self)@.keys.remove(keyset_id@), ..old(self)@ }),
    {
        self.keys.remove(keyset_id);
    }

    /// Removes the proofs whose key is in `removed_ys`, then adds `added`, as
    /// one step.
    pub fn update_proofs(&mut self, added: Vec<ProofInfo>, removed_ys: Vec<Vec<u8>>)
        requires
            old(self).wf(),
        ensures
            final(self).wf(),
            final(self)@ == (WalletView {
                proofs: updated_proofs(old(self)@.proofs, all_views(added@), views(removed_ys@)),
                ..old(self)@
            }),
    {
        let ghost pred = kept_before(views(removed_ys@), all_views(added@));
        let mut kept: Vec<ProofInfo> = Vec::new();
        let mut i: usize = 0;
        while i < self.proofs.len()
            invariant
                0 <= i <= self.proofs@.len(),
                pred == kept_before(views(removed_ys@), all_views(added@)),
                all_views(kept@) == all_views(self.proofs@.subrange(0, i as int)).filter(pred),
            decreases self.proofs@.len() - i,
        {
            let p = &self.proofs[i];
            let ghost pre = all_views(self.proofs@.subrange(0, i as int));
            proof {
                assert(all_views(self.proofs@.subrange(0, i + 1)) =~= pre.push(p@));
                pre.lemma_filter_push(p@, pred);
            }
            let gone = contains_bytes(&removed_ys, p.y.as_slice()) || contains_y(&added, p.y.as_slice());
            assert(pred(p@) == !gone);
            if !gone {
                let ghost before = kept@;
                let c = p.dup();
                kept.push(c);
                assert(all_views(kept@) =~= all_views(before).push(p@));
            }
            assert(all_views(kept@) == all_views(self.proofs@.subrange(0, i + 1)).filter(pred));
            i = i + 1;
        }
        assert(self.proofs@.subrange(0, self.proofs@.len() as int) =~= self.proofs@);
        let mut fresh: Vec<ProofInfo> = Vec::new();
        let mut j: usize = 0;
        while j < added.len()
            invariant
                0 <= j <= added@.len(),
                all_views(fresh@) == first_by_y(all_views(added@).subrange(0, j as int)),
            decreases added@.len() - j,
        {
            let ghost sub = all_views(added@).subrange(0, j + 1);
            proof {
                assert(sub.drop_last() =~= all_views(added@).subrange(0, j as int));
                assert(sub.last() == added@[j as int]@);
            }
            if !contains_y(&fresh, added[j].y.as_slice()) {
                let ghost before = fresh@;
                fresh.push(added[j].dup());
                assert(all_views(fresh@) =~= all_views(before).push(added@[j as int]@));
            }
            j = j + 1;
        }
        assert(all_views(added@).subrange(0, added@.len() as int) =~= all_views(added@));
        let ghost kv = all_views(kept@);
        let ghost fv = all_views(fresh@);
        kept.append(&mut fresh);
        assert(all_views(kept@) =~= kv + fv);
        proof {
            lemma_update_proofs(old(self)@.proofs, all_views(added@), views(removed_ys@));
        }
        self.proofs = kept;
    }

    /// The proofs that pass every filter given, in order.
    pub fn get_proofs(
        &self,
        mint_url: Option<Vec<u8>>,
        unit: Option<Vec<u8>>,
        states: Option<Vec<ProofState>>,
        spending_conditions: Option<Vec<Vec<u8>>>,
    ) -> (r: Vec<ProofInfo>)
        ensures
            all_views(r@) == self@.proofs.filter(
                |p: ProofInfoView| proof_matches(p, opt_view(mint_url), opt_view(unit), opt_seq(states), opt_views(spending_conditions)),
            ),
    {
        let ghost pred = |p: ProofInfoView| proof_matches(p, opt_view(mint_url), opt_view(unit), opt_seq(states), opt_views(spending_conditions));
        let mut r: Vec<ProofInfo> = Vec::new();
        let mut i: usize = 0;
        while i < self.proofs.len()
            invariant
                0 <= i <= self.proofs@.len(),
                pred == (|p: ProofInfoView| proof_matches(p, opt_view(mint_url), opt_view(unit), opt_seq(states), opt_views(spending_conditions))),
                all_views(r@) == all_views(self.proofs@.subrange(0, i as int)).filter(pred),
            decreases self.proofs@.len() - i,
        {
            let p = &self.proofs[i];
            let ghost pre = all_views(self.proofs@.subrange(0, i as int));
            proof {
                assert(all_views(self.proofs@.subrange(0, i + 1)) =~= pre.push(p@));
                pre.lemma_filter_push(p@, pred);
            }
            let pass = proof_passes(p, &mint_url, &unit, &states, &spending_conditions);
            assert(pred(p@) == pass);
            if pass {
                let ghost before = r@;
                r.push(p.dup());
                assert(all_views(r@) =~= all_views(before).push(p@));
            }
            assert(all_views(r@) == all_views(self.proofs@.subrange(0, i + 1)).filter(pred));
            i = i + 1;
        }
        assert(self.proofs@.subrange(0, self.proofs@.len() as int) =~= self.proofs@);
        r
    }

    /// Gives `new_state` to each proof whose key is in `ys`; other keys are
    /// ignored.
    pub fn update_proofs_state(&mut self, ys: Vec<Vec<u8>>, new_state: ProofState)
        requires
            old(self).wf(),
        ensures
            final(self).wf(),
            final(self)@ == (WalletView {
                proofs: old(self)@.proofs.map_values(
                    |p: ProofInfoView| if views(ys@).contains(p.y) { ProofInfoView { state: new_state, ..p } } else { p },
                ),
                ..old(self)@
            }),
    {
        let ghost f = |p: ProofInfoView| if views(ys@).contains(p.y) { ProofInfoView { state: new_state, ..p } } else { p };
        let mut i: usize = 0;
        while i < self.proofs.len()
            invariant
                0 <= i <= self.proofs@.len(),
                self.proofs@.len() == old(self).proofs@.len(),
                f == (|p: ProofInfoView| if views(ys@).contains(p.y) { ProofInfoView { state: new_state, ..p } } else { p }),
                forall|j: int| 0 <= j < i ==> #[trigger] all_views(self.proofs@)[j] == f(all_views(old(self).proofs@)[j]),
                forall|j: int| i <= j < self.proofs@.len() ==> #[trigger] self.proofs@[j] == old(self).proofs@[j],
                self.mints == old(self).mints,
                self.keysets == old(self).keysets,
                self.keyset_map == old(self).keyset_map,
                self.mint_quotes == old(self).mint_quotes,
                self.melt_quotes == old(self).melt_quotes,
                self.keys == old(self).keys,
                self.keyset_counters == old(self).keyset_counters,
                self.transactions == old(self).transactions,
            decreases self.proofs@.len() - i,
        {
            let ghost before = self.proofs@;
            let hit = contains_bytes(&ys, self.proofs[i].y.as_slice());
            if hit {
                let mut p = self.proofs[i].dup();
                p.state = new_state;
                self.proofs.set(i, p);
            }
            proof {
                assert(all_views(self.proofs@)[i as int] == f(all_views(old(self).proofs@)[i as int]));
                assert forall|j: int| 0 <= j < i + 1 implies #[trigger] all_views(self.proofs@)[j] == f(all_views(old(self).proofs@)[j]) by {
                    if j < i {
                        assert(self.proofs@[j] == before[j]);
                        assert(all_views(before)[j] == f(all_views(old(self).proofs@)[j]));
                    }
                }
            }
            i = i + 1;
        }
        assert(all_views(self.proofs@) =~= all_views(old(self).proofs@).map_values(f));
        proof {
            let nv = all_views(self.proofs@);
            let ov = all_views(old(self).proofs@);
            assert forall|a: int, b: int| 0 <= a < nv.len() && 0 <= b < nv.len() && #[trigger] nv[a].y == #[trigger] nv[b].y implies a == b by {
                assert(nv[a].y == ov[a].y);
                assert(nv[b].y == ov[b].y);
            }
        }
    }

    /// Adds `count` to the keyset's counter, which starts at zero, and returns
    /// the new value; refuses, changing nothing, when it would pass `u32::MAX`.
    pub fn increment_keyset_counter(&mut self, keyset_id: &Vec<u8>, count: u32) -> (r: Result<u32, WalletError>)
        requires
            old(self).wf(),
        ensures
            final(self).wf(),
            counter_of(old(self)@.keyset_counters, keyset_id@) + count > u32::MAX ==> r == Err::<u32, WalletError>(WalletError::CounterOverflow)
                && final(self)@ == old(self)@,
            counter_of(old(self)@.keyset_counters, keyset_id@) + count <= u32::MAX ==> r == Ok::<u32, WalletError>(
                (counter_of(old(self)@.keyset_counters, keyset_id@) + count) as u32,
            ) && final(self)@ == (WalletView {
                keyset_counters: incremented(old(self)@.keyset_counters, keyset_id@, count as int),
                ..old(self)@
            }),
    {
        let current: u32 = match self.keyset_counters.get(keyset_id) {
            Some(c) => c.value,
            None => 0,
        };
        if current > u32::MAX - count {
            return Err(WalletError::CounterOverflow);
        }
        let value = current + count;
        self.keyset_counters.insert(keyset_id.clone(), Counter { value });
        Ok(value)
    }

    pub fn add_transaction(&mut self, transaction: Transaction)
        requires
            old(self).wf(),
        ensures
            final(self).wf(),
            final(self)@ == (WalletView { transactions: old(self)@.transactions.push(transaction@), ..old(self)@ }),
    {
        self.transactions.push(transaction);
        assert(all_views(self.transactions@) =~= old(self)@.transactions.push(transaction@));
    }

    /// The first transaction of the log whose id is `transaction_id`.
    pub fn get_transaction(&self, transaction_id: &Vec<u8>) -> (r: Option<Transaction>)
        ensures
            r is None ==> forall|i: int| 0 <= i < self@.transactions.len() ==> transaction_id_of(#[trigger] self@.transactions[i].ys) != Some(transaction_id@),
            r matches Some(t) ==> exists|i: int| 0 <= i < self@.transactions.len() && self@.transactions[i] == t@
                && transaction_id_of(t@.ys) == Some(transaction_id@)
                && forall|j: int| 0 <= j < i ==> transaction_id_of(#[trigger] self@.transactions[j].ys) != Some(transaction_id@),
    {
        let mut i: usize = 0;
        while i < self.transactions.len()
            invariant
                0 <= i <= self.transactions@.len(),
                forall|j: int| 0 <= j < i ==> transaction_id_of(#[trigger] self@.transactions[j].ys) != Some(transaction_id@),
            decreases self.transactions@.len() - i,
        {
            let t = &self.transactions[i];
            assert(self@.transactions[i as int] == t@);
            match derive_transaction_id(&t.ys) {
                Some(id) => {
                    if bytes_eq(id.as_slice(), transaction_id.as_slice()) {
                        return Some(t.dup());
                    }
                },
                None => {},
            }
            i = i + 1;
        }
        None
    }

    /// The transactions that pass every filter given, in order.
    pub fn list_transactions(
        &self,
        mint_url: Option<Vec<u8>>,
        direction: Option<TransactionDirection>,
        unit: Option<Vec<u8>>,
    ) -> (r: Vec<Transaction>)
        ensures
            all_views(r@) == self@.transactions.filter(
                |t: TransactionView| transaction_matches(t, opt_view(mint_url), direction, opt_view(unit)),
            ),
    {
        let ghost pred = |t: TransactionView| transaction_matches(t, opt_view(mint_url), direction, opt_view(unit));
        let mut r: Vec<Transaction> = Vec::new();
        let mut i: usize = 0;
        while i < self.transactions.len()
            invariant
                0 <= i <= self.transactions@.len(),
                pred == (|t: TransactionView| transaction_matches(t, opt_view(mint_url), direction, opt_view(unit))),
                all_views(r@) == all_views(self.transactions@.subrange(0, i as int)).filter(pred),
            decreases self.transactions@.len() - i,
        {
            let t = &self.transactions[i];
            let ghost pre = all_views(self.transactions@.subrange(0, i as int));
            proof {
                assert(all_views(self.transactions@.subrange(0, i + 1)) =~= pre.push(t@));
                pre.lemma_filter_push(t@, pred);
            }
            let direction_ok = match direction {
                Some(d) => t.direction == d,
                None => true,
            };
            let pass = matches_bytes(&mint_url, &t.mint_url) && direction_ok && matches_bytes(&unit, &t.unit);
            assert(pred(t@) == pass);
            if pass {
                let ghost before = r@;
                r.push(t.dup());
                assert(all_views(r@) =~= all_views(before).push(t@));
            }
            assert(all_views(r@) == all_views(self.transactions@.subrange(0, i + 1)).filter(pred));
            i = i + 1;
        }
        assert(self.transactions@.subrange(0, self.transactions@.len() as int) =~= self.transactions@);
        r
    }

    /// Removes every transaction whose id is `transaction_id`.
    pub fn remove_transaction(&mut self, transaction_id: &Vec<u8>)
        requires
            old(self).wf(),
        ensures
            final(self).wf(),
            final(self)@ == (WalletView {
                transactions: old(self)@.transactions.filter(
                    |t: TransactionView| transaction_id_of(t.ys) != Some(transaction_id@),
                ),
                ..old(self)@
            }),
    {
        let ghost pred = |t: TransactionView| transaction_id_of(t.ys) != Some(transaction_id@);
        let mut kept: Vec<Transaction> = Vec::new();
        let mut i: usize = 0;
        while i < self.transactions.len()
            invariant
                0 <= i <= self.transactions@.len(),
                pred == (|t: TransactionView| transaction_id_of(t.ys) != Some(transaction_id@)),
                all_views(kept@) == all_views(self.transactions@.subrange(0, i as int)).filter(pred),
            decreases self.transactions@.len() - i,
        {
            let t = &self.transactions[i];
            let ghost pre = all_views(self.transactions@.subrange(0, i as int));
            proof {
                assert(all_views(self.transactions@.subrange(0, i + 1)) =~= pre.push(t@));
                pre.lemma_filter_push(t@, pred);
            }
            let keep = match derive_transaction_id(&t.ys) {
                Some(id) => !bytes_eq(id.as_slice(), transaction_id.as_slice()),
                None => true,
            };
            assert(pred(t@) == keep);
            if keep {
                let ghost before = kept@;
                kept.push(t.dup());
                assert(all_views(kept@) =~= all_views(before).push(t@));
            }
            assert(all_views(kept@) == all_views(self.transactions@.subrange(0, i + 1)).filter(pred));
            i = i + 1;
        }
        assert(self.transactions@.subrange(0, self.transactions@.len() as int) =~= self.transactions@);
        self.transactions = kept;
    }
}

/// The sections of a snapshot of the wallet store, in order.
pub open spec fn wallet_sections(w: HybridWalletDatabase) -> Seq<Seq<u8>> {
    seq![
        table_text::<Vec<u8>, MintEntry>(all_views(w.mints.rows@)),
        table_text::<Vec<u8>, EntryList>(all_views(w.keysets.rows@)),
        table_text::<Vec<u8>, Entry>(all_views(w.keyset_map.rows@)),
        table_text::<Vec<u8>, Entry>(all_views(w.mint_quotes.rows@)),
        table_text::<Vec<u8>, Entry>(all_views(w.melt_quotes.rows@)),
        table_text::<Vec<u8>, Vec<u8>>(all_views(w.keys.rows@)),
        lines_text::<ProofInfo>(all_views(w.proofs@)),
        table_text::<Vec<u8>, Counter>(all_views(w.keyset_counters.rows@)),
        lines_text::<Transaction>(all_views(w.transactions@)),
    ]
}

/// The snapshot text of the wallet store: its sections, one per line.
pub open spec fn wallet_text(w: HybridWalletDatabase) -> Seq<u8> {
    join(wallet_sections(w), SECTION_SEP)
}

/// The wallet state that snapshot text stands for; `None` unless it has
/// exactly the sections that `wallet_text` writes, each well formed.
pub open spec fn parse_wallet(d: Seq<u8>) -> Option<WalletView> {
    let p = split_spec(d, SECTION_SEP);
    if p.len() != 9 {
        None
    } else {
        match (
            parse_table::<Vec<u8>, MintEntry>(p[0]),
            parse_table::<Vec<u8>, EntryList>(p[1]),
            parse_table::<Vec<u8>, Entry>(p[2]),
            parse_table::<Vec<u8>, Entry>(p[3]),
            parse_table::<Vec<u8>, Entry>(p[4]),
            parse_table::<Vec<u8>, Vec<u8>>(p[5]),
            parse_lines::<ProofInfo>(p[6]),
            parse_table::<Vec<u8>, Counter>(p[7]),
            parse_lines::<Transaction>(p[8]),
        ) {
            (Some(m), Some(k), Some(km), Some(mq), Some(lq), Some(ks), Some(pr), Some(c), Some(t)) => if !ys_unique(pr) {
                None
            } else {
                Some(WalletView {
                mints: view_map(m),
                keysets: view_map(k),
                keyset_map: view_map(km),
                mint_quotes: view_map(mq),
                melt_quotes: view_map(lq),
                keys: view_map(ks),
                proofs: pr,
                keyset_counters: view_map(c),
                transactions: t,
            })
            },
            _ => None,
        }
    }
}

/// A snapshot of the wallet store reads back as the same state: mints,
/// keysets under both keys, quotes, keys, proofs in order, counters and the
/// transaction log.
#[verifier::rlimit(50)]
pub proof fn lemma_wallet_round_trip(w: HybridWalletDatabase)
    requires
        w.wf(),
    ensures
        parse_wallet(wallet_text(w)) == Some(w@),
{
    lemma_table_round_trip(w.mints);
    lemma_table_round_trip(w.keysets);
    lemma_table_round_trip(w.keyset_map);
    lemma_table_round_trip(w.mint_quotes);
    lemma_table_round_trip(w.melt_quotes);
    lemma_table_round_trip(w.keys);
    lemma_lines_round_trip::<ProofInfo>(all_views(w.proofs@));
    lemma_table_round_trip(w.keyset_counters);
    lemma_lines_round_trip::<Transaction>(all_views(w.transactions@));
    let p = wallet_sections(w);
    assert(p.len() == 9);
    assert forall|i: int| 0 <= i < p.len() implies lacks(#[trigger] p[i], SECTION_SEP) by {
        if i == 0 { } else if i == 1 { } else if i == 2 { } else if i == 3 { } else if i == 4 { }
        else if i == 5 { } else if i == 6 { } else if i == 7 { } else { }
    }
    assert forall|i: int, j: int| 0 <= i < p.len() && 0 <= j < p[i].len() implies #[trigger] p[i][j] != SECTION_SEP by {
        assert(lacks(p[i], SECTION_SEP));
    }
    lemma_split_spec(p, SECTION_SEP);
    assert(split_spec(wallet_text(w), SECTION_SEP) == p);
}

/// The wallet state that a saved snapshot gives: none when nothing was saved
/// or the text does not read.
pub open spec fn loaded_wallet(saved: Option<Seq<u8>>) -> WalletView {
    match saved {
        Some(d) => match parse_wallet(d) {
            Some(v) => v,
            None => empty_wallet(),
        },
        None => empty_wallet(),
    }
}

/// Snapshot text that does not read gives an empty wallet, as no text does.
pub proof fn lemma_unreadable_wallet_is_empty(d: Seq<u8>)
    ensures
        parse_wallet(d) is None ==> loaded_wallet(Some(d)) == empty_wallet(),
        loaded_wallet(None) == empty_wallet(),
{
}

impl HybridWalletDatabase {
    /// The snapshot text of the wallet store.
    pub fn snapshot(&self) -> (r: Vec<u8>)
        ensures
            r@ == wallet_text(*self),
    {
        let mut p: Vec<Vec<u8>> = Vec::new();
        p.push(write_table(&self.mints));
        p.push(write_table(&self.keysets));
        p.push(write_table(&self.keyset_map));
        p.push(write_table(&self.mint_quotes));
        p.push(write_table(&self.melt_quotes));
        p.push(write_table(&self.keys));
        p.push(write_lines(&self.proofs));
        p.push(write_table(&self.keyset_counters));
        p.push(write_lines(&self.transactions));
        assert(views(p@) =~= wallet_sections(*self));
        join_fields(&p, SECTION_SEP)
    }

    /// The wallet state that snapshot text stands for.
    pub fn read_snapshot(d: &[u8]) -> (r: Option<HybridWalletDatabase>)
        ensures
            r is Some <==> parse_wallet(d@) is Some,
            r matches Some(w) ==> w.wf() && w@ == parse_wallet(d@)->0,
    {
        let p = split(d, SECTION_SEP);
        proof {
            lemma_split_spec(views(p@), SECTION_SEP);
        }
        if p.len() != 9 {
            return None;
        }
        let mints = read_table::<Vec<u8>, MintEntry>(p[0].as_slice());
        let keysets = read_table::<Vec<u8>, EntryList>(p[1].as_slice());
        let keyset_map = read_table::<Vec<u8>, Entry>(p[2].as_slice());
        let mint_quotes = read_table::<Vec<u8>, Entry>(p[3].as_slice());
        let melt_quotes = read_table::<Vec<u8>, Entry>(p[4].as_slice());
        let keys = read_table::<Vec<u8>, Vec<u8>>(p[5].as_slice());
        let proofs = read_lines::<ProofInfo>(p[6].as_slice());
        let keyset_counters = read_table::<Vec<u8>, Counter>(p[7].as_slice());
        let transactions = read_lines::<Transaction>(p[8].as_slice());
        match (mints, keysets, keyset_map, mint_quotes, melt_quotes, keys, proofs, keyset_counters, transactions) {
            (Some(mints), Some(keysets), Some(keyset_map), Some(mint_quotes), Some(melt_quotes), Some(keys), Some(proofs), Some(keyset_counters), Some(transactions)) => {
                if !proofs_ys_unique(&proofs) {
                    return None;
                }
                Some(HybridWalletDatabase {
                    mints,
                    keysets,
                    keyset_map,
                    mint_quotes,
                    melt_quotes,
                    keys,
                    proofs,
                    keyset_counters,
                    transactions,
                })
            },
            _ => None,
        }
    }

    /// A store holding what the saved snapshot holds. Text that does not read
    /// counts as no prior state: it never stops the store from starting.
    pub fn new(saved: Option<&[u8]>) -> (r: Self)
        ensures
            r.wf(),
            r@ == loaded_wallet(match saved { Some(d) => Some(d@), None => None }),
    {
        match saved {
            Some(d) => match Self::read_snapshot(d) {
                Some(w) => w,
                None => Self::empty(),
            },
            None => Self::empty(),
        }
    }
}

} // verus!
