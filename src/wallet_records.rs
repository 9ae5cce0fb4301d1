//! The records that the ecash wallet engine hands to the wallet store.
use vstd::prelude::*;
use crate::codec::{hex_fields, lemma_hex_fields, read_hex_fields, unhex_fields, write_hex_fields, Line, Record};
use crate::decimal::{dec_of, dec_value, lemma_dec_round_trip, parse_decimal, valid_dec, write_decimal};
use crate::framing::views;
use crate::records::{dup_all, take_first};
use crate::table::Dup;

verus! {

/// Where a proof stands.
#[derive(PartialEq, Eq, Structural, Clone, Copy, Debug)]
pub enum ProofState {
    Spent,
    Unspent,
    Pending,
    Reserved,
    PendingSpent,
}

/// Whether a transaction brought value in or sent it out.
#[derive(PartialEq, Eq, Structural, Clone, Copy, Debug)]
pub enum TransactionDirection {
    Incoming,
    Outgoing,
}

pub open spec fn state_code(s: ProofState) -> u8 {
    match s {
        ProofState::Spent => 0,
        ProofState::Unspent => 1,
        ProofState::Pending => 2,
        ProofState::Reserved => 3,
        ProofState::PendingSpent => 4,
    }
}

pub open spec fn state_of_code(c: u8) -> Option<ProofState> {
    if c == 0 {
        Some(ProofState::Spent)
    } else if c == 1 {
        Some(ProofState::Unspent)
    } else if c == 2 {
        Some(ProofState::Pending)
    } else if c == 3 {
        Some(ProofState::Reserved)
    } else if c == 4 {
        Some(ProofState::PendingSpent)
    } else {
        None
    }
}

fn write_state(s: ProofState) -> (r: u8)
    ensures
        r == state_code(s),
{
    match s {
        ProofState::Spent => 0,
        ProofState::Unspent => 1,
        ProofState::Pending => 2,
        ProofState::Reserved => 3,
        ProofState::PendingSpent => 4,
    }
}

fn read_state(c: u8) -> (r: Option<ProofState>)
    ensures
        r == state_of_code(c),
{
    if c == 0 {
        Some(ProofState::Spent)
    } else if c == 1 {
        Some(ProofState::Unspent)
    } else if c == 2 {
        Some(ProofState::Pending)
    } else if c == 3 {
        Some(ProofState::Reserved)
    } else if c == 4 {
        Some(ProofState::PendingSpent)
    } else {
        None
    }
}

pub open spec fn direction_code(d: TransactionDirection) -> u8 {
    match d {
        TransactionDirection::Incoming => 0,
        TransactionDirection::Outgoing => 1,
    }
}

pub open spec fn direction_of_code(c: u8) -> Option<TransactionDirection> {
    if c == 0 {
        Some(TransactionDirection::Incoming)
    } else if c == 1 {
        Some(TransactionDirection::Outgoing)
    } else {
        None
    }
}

/// A record with an id: a keyset's info, a quote, or a keyset's keys.
pub struct Entry {
    pub id: Vec<u8>,
    pub body: Vec<u8>,
}

pub struct EntryView {
    pub id: Seq<u8>,
    pub body: Seq<u8>,
}

impl View for Entry {
    type V = EntryView;

    open spec fn view(&self) -> EntryView {
        EntryView { id: self.id@, body: self.body@ }
    }
}

impl Dup for Entry {
    fn dup(&self) -> (r: Self) {
        Entry { id: self.id.clone(), body: self.body.clone() }
    }
}

impl Record for Entry {
    open spec fn raw(v: EntryView) -> Seq<Seq<u8>> {
        seq![v.id, v.body]
    }

    open spec fn from_raw(r: Seq<Seq<u8>>) -> Option<EntryView> {
        if r.len() == 2 {
            Some(EntryView { id: r[0], body: r[1] })
        } else {
            None
        }
    }

    proof fn lemma_raw(v: EntryView) {
    }

    fn to_raw(&self) -> (r: Vec<Vec<u8>>) {
        let mut r: Vec<Vec<u8>> = Vec::new();
        r.push(self.id.clone());
        r.push(self.body.clone());
        assert(views(r@) =~= Self::raw(self@));
        r
    }

    fn read_raw(r: Vec<Vec<u8>>) -> (o: Option<Entry>) {
        let mut r = r;
        if r.len() != 2 {
            return None;
        }
        let id = take_first(&mut r);
        let body = take_first(&mut r);
        Some(Entry { id, body })
    }
}

/// The entries of a list, one after another.
pub struct EntryList {
    pub items: Vec<Entry>,
}

pub open spec fn entry_views(v: Seq<Entry>) -> Seq<EntryView> {
    v.map_values(|e: Entry| e@)
}

impl View for EntryList {
    type V = Seq<EntryView>;

    open spec fn view(&self) -> Seq<EntryView> {
        entry_views(self.items@)
    }
}

pub fn dup_entries(v: &Vec<Entry>) -> (r: Vec<Entry>)
    ensures
        entry_views(r@) == entry_views(v@),
{
    let mut r: Vec<Entry> = Vec::new();
    let mut i: usize = 0;
    while i < v.len()
        invariant
            0 <= i <= v@.len(),
            entry_views(r@) == entry_views(v@).subrange(0, i as int),
        decreases v@.len() - i,
    {
        let ghost before = r@;
        let e = v[i].dup();
        let ghost ev = e@;
        r.push(e);
        assert(entry_views(r@) =~= entry_views(before).push(ev));
        i = i + 1;
        assert(entry_views(r@) =~= entry_views(v@).subrange(0, i as int));
    }
    assert(entry_views(v@).subrange(0, v@.len() as int) =~= entry_views(v@));
    r
}

impl Dup for EntryList {
    fn dup(&self) -> (r: Self) {
        EntryList { items: dup_entries(&self.items) }
    }
}

/// Each entry's id and body, in turn.
pub open spec fn flatten_entries(v: Seq<EntryView>) -> Seq<Seq<u8>> {
    Seq::new(2 * v.len(), |i: int| if i % 2 == 0 { v[i / 2].id } else { v[i / 2].body })
}

impl Record for EntryList {
    open spec fn raw(v: Seq<EntryView>) -> Seq<Seq<u8>> {
        flatten_entries(v)
    }

    open spec fn from_raw(r: Seq<Seq<u8>>) -> Option<Seq<EntryView>> {
        if r.len() % 2 == 0 {
            Some(Seq::new(r.len() / 2, |i: int| EntryView { id: r[2 * i], body: r[2 * i + 1] }))
        } else {
            None
        }
    }

    proof fn lemma_raw(v: Seq<EntryView>) {
        let r = flatten_entries(v);
        let w = Seq::new(r.len() / 2, |i: int| EntryView { id: r[2 * i], body: r[2 * i + 1] });
        assert forall|i: int| 0 <= i < v.len() implies #[trigger] w[i] == v[i] by {
            assert((2 * i) / 2 == i);
            assert((2 * i + 1) / 2 == i);
            assert((2 * i) % 2 == 0);
            assert((2 * i + 1) % 2 == 1);
        }
        assert(w =~= v);
    }

    fn to_raw(&self) -> (r: Vec<Vec<u8>>) {
        let mut r: Vec<Vec<u8>> = Vec::new();
        let mut i: usize = 0;
        while i < self.items.len()
            invariant
                0 <= i <= self.items@.len(),
                views(r@) == flatten_entries(self@.subrange(0, i as int)),
            decreases self.items@.len() - i,
        {
            let ghost before = views(r@);
            let id = self.items[i].id.clone();
            let body = self.items[i].body.clone();
            let ghost idv = id@;
            let ghost bodyv = body@;
            let ghost rr = r@;
            r.push(id);
            r.push(body);
            proof {
                assert(r@ == rr.push(id).push(body));
                assert(views(r@) =~= before.push(idv).push(bodyv));
                let next = flatten_entries(self@.subrange(0, i + 1));
                let prev = flatten_entries(self@.subrange(0, i as int));
                assert(next.len() == 2 * i + 2);
                assert forall|j: int| 0 <= j < next.len() implies #[trigger] views(r@)[j] == next[j] by {
                    if j < 2 * i {
                        assert(j / 2 < i);
                        assert(views(r@)[j] == before[j]);
                        assert(before[j] == prev[j]);
                    } else if j == 2 * i {
                        assert(j / 2 == i);
                        assert(j % 2 == 0);
                    } else {
                        assert(j == 2 * i + 1);
                        assert(j / 2 == i);
                        assert(j % 2 == 1);
                    }
                }
                assert(views(r@) =~= next);
            }
            i = i + 1;
        }
        assert(self@.subrange(0, self.items@.len() as int) =~= self@);
        r
    }

    fn read_raw(r: Vec<Vec<u8>>) -> (o: Option<EntryList>) {
        if r.len() % 2 != 0 {
            return None;
        }
        let ghost rv = views(r@);
        let ghost want = Seq::new(rv.len() / 2, |i: int| EntryView { id: rv[2 * i], body: rv[2 * i + 1] });
        let mut items: Vec<Entry> = Vec::new();
        let mut i: usize = 0;
        while i + 1 < r.len()
            invariant
                rv == views(r@),
                r@.len() % 2 == 0,
                i % 2 == 0,
                0 <= i <= r@.len(),
                want.len() == r@.len() / 2,
                want == Seq::new(rv.len() / 2, |k: int| EntryView { id: rv[2 * k], body: rv[2 * k + 1] }),
                entry_views(items@) == want.subrange(0, i as int / 2),
            decreases r@.len() - i,
        {
            let ghost before = items@;
            let e = Entry { id: r[i].clone(), body: r[i + 1].clone() };
            let ghost ev = e@;
            items.push(e);
            proof {
                let h = i as int / 2;
                assert(2 * h == i);
                assert((i as int + 2) / 2 == h + 1);
                assert(h < want.len());
                assert(want[h] == ev);
                assert(entry_views(items@) =~= entry_views(before).push(ev));
                assert(want.subrange(0, h + 1) =~= want.subrange(0, h).push(ev));
            }
            i = i + 2;
        }
        assert(want.subrange(0, r@.len() as int / 2) =~= want);
        Some(EntryList { items })
    }
}

/// A mint's registration: its info, if the engine had any.
pub struct MintEntry {
    pub info: Option<Vec<u8>>,
}

impl View for MintEntry {
    type V = Option<Seq<u8>>;

    open spec fn view(&self) -> Option<Seq<u8>> {
        match self.info {
            Some(i) => Some(i@),
            None => None,
        }
    }
}

impl Dup for MintEntry {
    fn dup(&self) -> (r: Self) {
        match &self.info {
            Some(i) => MintEntry { info: Some(i.clone()) },
            None => MintEntry { info: None },
        }
    }
}

impl Record for MintEntry {
    open spec fn raw(v: Option<Seq<u8>>) -> Seq<Seq<u8>> {
        match v {
            Some(i) => seq![i],
            None => Seq::empty(),
        }
    }

    open spec fn from_raw(r: Seq<Seq<u8>>) -> Option<Option<Seq<u8>>> {
        if r.len() == 0 {
            Some(None)
        } else if r.len() == 1 {
            Some(Some(r[0]))
        } else {
            None
        }
    }

    proof fn lemma_raw(v: Option<Seq<u8>>) {
    }

    fn to_raw(&self) -> (r: Vec<Vec<u8>>) {
        let mut r: Vec<Vec<u8>> = Vec::new();
        match &self.info {
            Some(i) => {
                r.push(i.clone());
            },
            None => {},
        }
        assert(views(r@) =~= Self::raw(self@));
        r
    }

    fn read_raw(r: Vec<Vec<u8>>) -> (o: Option<MintEntry>) {
        let mut r = r;
        if r.len() == 0 {
            Some(MintEntry { info: None })
        } else if r.len() == 1 {
            let i = take_first(&mut r);
            Some(MintEntry { info: Some(i) })
        } else {
            None
        }
    }
}

/// A keyset's counter.
pub struct Counter {
    pub value: u32,
}

impl View for Counter {
    type V = u32;

    open spec fn view(&self) -> u32 {
        self.value
    }
}

impl Dup for Counter {
    fn dup(&self) -> (r: Self) {
        Counter { value: self.value }
    }
}

impl Record for Counter {
    open spec fn raw(v: u32) -> Seq<Seq<u8>> {
        seq![dec_of(v as nat)]
    }

    open spec fn from_raw(r: Seq<Seq<u8>>) -> Option<u32> {
        if r.len() == 1 && valid_dec(r[0]) && dec_value(r[0]) <= u32::MAX {
            Some(dec_value(r[0]) as u32)
        } else {
            None
        }
    }

    proof fn lemma_raw(v: u32) {
        lemma_dec_round_trip(v as nat);
    }

    fn to_raw(&self) -> (r: Vec<Vec<u8>>) {
        let mut r: Vec<Vec<u8>> = Vec::new();
        r.push(write_decimal(self.value as u64));
        assert(views(r@) =~= Self::raw(self@));
        r
    }

    fn read_raw(r: Vec<Vec<u8>>) -> (o: Option<Counter>) {
        if r.len() != 1 {
            return None;
        }
        match parse_decimal(r[0].as_slice()) {
            Some(n) => if n <= 0xffff_ffff {
                Some(Counter { value: n as u32 })
            } else {
                None
            },
            None => None,
        }
    }
}

/// An ecash proof: its key `y`, where it is from, its state and its spending
/// condition.
pub struct ProofInfo {
    pub y: Vec<u8>,
    pub mint_url: Vec<u8>,
    pub unit: Vec<u8>,
    pub state: ProofState,
    pub spending_condition: Option<Vec<u8>>,
    pub body: Vec<u8>,
}

pub struct ProofInfoView {
    pub y: Seq<u8>,
    pub mint_url: Seq<u8>,
    pub unit: Seq<u8>,
    pub state: ProofState,
    pub spending_condition: Option<Seq<u8>>,
    pub body: Seq<u8>,
}

impl View for ProofInfo {
    type V = ProofInfoView;

    open spec fn view(&self) -> ProofInfoView {
        ProofInfoView {
            y: self.y@,
            mint_url: self.mint_url@,
            unit: self.unit@,
            state: self.state,
            spending_condition: match self.spending_condition {
                Some(c) => Some(c@),
                None => None,
            },
            body: self.body@,
        }
    }
}

impl Dup for ProofInfo {
    fn dup(&self) -> (r: Self) {
        let spending_condition = match &self.spending_condition {
            Some(c) => Some(c.clone()),
            None => None,
        };
        ProofInfo {
            y: self.y.clone(),
            mint_url: self.mint_url.clone(),
            unit: self.unit.clone(),
            state: self.state,
            spending_condition,
            body: self.body.clone(),
        }
    }
}

/// A proof is its key, mint, unit, state code and body, then its spending
/// condition if it has one.
impl Record for ProofInfo {
    open spec fn raw(v: ProofInfoView) -> Seq<Seq<u8>> {
        seq![v.y, v.mint_url, v.unit, seq![state_code(v.state)], v.body] + match v.spending_condition {
            Some(c) => seq![c],
            None => Seq::empty(),
        }
    }

    open spec fn from_raw(r: Seq<Seq<u8>>) -> Option<ProofInfoView> {
        if (r.len() == 5 || r.len() == 6) && r[3].len() == 1 && state_of_code(r[3][0]) is Some {
            Some(ProofInfoView {
                y: r[0],
                mint_url: r[1],
                unit: r[2],
                state: state_of_code(r[3][0])->Some_0,
                spending_condition: if r.len() == 6 { Some(r[5]) } else { None },
                body: r[4],
            })
        } else {
            None
        }
    }

    proof fn lemma_raw(v: ProofInfoView) {
        let r = Self::raw(v);
        assert(r[3] == seq![state_code(v.state)]);
    }

    fn to_raw(&self) -> (r: Vec<Vec<u8>>) {
        let mut r: Vec<Vec<u8>> = Vec::new();
        r.push(self.y.clone());
        r.push(self.mint_url.clone());
        r.push(self.unit.clone());
        let mut code: Vec<u8> = Vec::new();
        code.push(write_state(self.state));
        r.push(code);
        r.push(self.body.clone());
        match &self.spending_condition {
            Some(c) => {
                r.push(c.clone());
            },
            None => {},
        }
        assert(views(r@) =~= Self::raw(self@));
        r
    }

    fn read_raw(r: Vec<Vec<u8>>) -> (o: Option<ProofInfo>) {
        let mut r = r;
        if r.len() != 5 && r.len() != 6 {
            return None;
        }
        if r[3].len() != 1 {
            return None;
        }
        let state = match read_state(r[3][0]) {
            Some(s) => s,
            None => return None,
        };
        let ghost rv = views(r@);
        let y = take_first(&mut r);
        let mint_url = take_first(&mut r);
        let unit = take_first(&mut r);
        let _code = take_first(&mut r);
        let body = take_first(&mut r);
        let spending_condition = if r.len() == 1 {
            Some(take_first(&mut r))
        } else {
            None
        };
        Some(ProofInfo { y, mint_url, unit, state, spending_condition, body })
    }
}

impl Line for ProofInfo {
    open spec fn fields(v: ProofInfoView) -> Seq<Seq<u8>> {
        hex_fields(ProofInfo::raw(v))
    }

    open spec fn parse(f: Seq<Seq<u8>>) -> Option<ProofInfoView> {
        match unhex_fields(f) {
            Some(raw) => ProofInfo::from_raw(raw),
            None => None,
        }
    }

    proof fn lemma_line(v: ProofInfoView) {
        ProofInfo::lemma_raw(v);
        lemma_hex_fields(ProofInfo::raw(v));
    }

    fn write(&self) -> (r: Vec<Vec<u8>>) {
        let raw = self.to_raw();
        write_hex_fields(&raw)
    }

    fn read(f: &Vec<Vec<u8>>) -> (o: Option<ProofInfo>) {
        match read_hex_fields(f.as_slice()) {
            Some(raw) => ProofInfo::read_raw(raw),
            None => None,
        }
    }
}

/// A transaction: the keys of its proofs, its mint, direction and unit.
pub struct Transaction {
    pub ys: Vec<Vec<u8>>,
    pub mint_url: Vec<u8>,
    pub direction: TransactionDirection,
    pub unit: Vec<u8>,
    pub body: Vec<u8>,
}

pub struct TransactionView {
    pub ys: Seq<Seq<u8>>,
    pub mint_url: Seq<u8>,
    pub direction: TransactionDirection,
    pub unit: Seq<u8>,
    pub body: Seq<u8>,
}

impl View for Transaction {
    type V = TransactionView;

    open spec fn view(&self) -> TransactionView {
        TransactionView {
            ys: views(self.ys@),
            mint_url: self.mint_url@,
            direction: self.direction,
            unit: self.unit@,
            body: self.body@,
        }
    }
}

impl Dup for Transaction {
    fn dup(&self) -> (r: Self) {
        Transaction {
            ys: dup_all(&self.ys),
            mint_url: self.mint_url.clone(),
            direction: self.direction,
            unit: self.unit.clone(),
            body: self.body.clone(),
        }
    }
}

/// A transaction is its mint, unit, direction code and body, then its keys.
impl Record for Transaction {
    open spec fn raw(v: TransactionView) -> Seq<Seq<u8>> {
        seq![v.mint_url, v.unit, seq![direction_code(v.direction)], v.body] + v.ys
    }

    open spec fn from_raw(r: Seq<Seq<u8>>) -> Option<TransactionView> {
        if r.len() >= 4 && r[2].len() == 1 && direction_of_code(r[2][0]) is Some {
            Some(TransactionView {
                ys: r.subrange(4, r.len() as int),
                mint_url: r[0],
                direction: direction_of_code(r[2][0])->Some_0,
                unit: r[1],
                body: r[3],
            })
        } else {
            None
        }
    }

    proof fn lemma_raw(v: TransactionView) {
        let r = Self::raw(v);
        assert(r[2] == seq![direction_code(v.direction)]);
        assert(r.subrange(4, r.len() as int) =~= v.ys);
    }

    fn to_raw(&self) -> (r: Vec<Vec<u8>>) {
        let mut r: Vec<Vec<u8>> = Vec::new();
        r.push(self.mint_url.clone());
        r.push(self.unit.clone());
        let mut code: Vec<u8> = Vec::new();
        code.push(match self.direction {
            TransactionDirection::Incoming => 0u8,
            TransactionDirection::Outgoing => 1u8,
        });
        r.push(code);
        r.push(self.body.clone());
        let mut ys = dup_all(&self.ys);
        let ghost head = views(r@);
        let ghost tail = views(ys@);
        r.append(&mut ys);
        assert(views(r@) =~= head + tail);
        assert(views(r@) =~= Self::raw(self@));
        r
    }

    fn read_raw(r: Vec<Vec<u8>>) -> (o: Option<Transaction>) {
        let mut r = r;
        if r.len() < 4 || r[2].len() != 1 {
            return None;
        }
        let direction = if r[2][0] == 0 {
            TransactionDirection::Incoming
        } else if r[2][0] == 1 {
            TransactionDirection::Outgoing
        } else {
            return None;
        };
        let ghost rv = views(r@);
        let mint_url = take_first(&mut r);
        let unit = take_first(&mut r);
        let _code = take_first(&mut r);
        let body = take_first(&mut r);
        assert(views(r@) =~= rv.subrange(4, rv.len() as int));
        Some(Transaction { ys: r, mint_url, direction, unit, body })
    }
}

impl Line for Transaction {
    open spec fn fields(v: TransactionView) -> Seq<Seq<u8>> {
        hex_fields(Transaction::raw(v))
    }

    open spec fn parse(f: Seq<Seq<u8>>) -> Option<TransactionView> {
        match unhex_fields(f) {
            Some(raw) => Transaction::from_raw(raw),
            None => None,
        }
    }

    proof fn lemma_line(v: TransactionView) {
        Transaction::lemma_raw(v);
        lemma_hex_fields(Transaction::raw(v));
    }

    fn write(&self) -> (r: Vec<Vec<u8>>) {
        let raw = self.to_raw();
        write_hex_fields(&raw)
    }

    fn read(f: &Vec<Vec<u8>>) -> (o: Option<Transaction>) {
        match read_hex_fields(f.as_slice()) {
            Some(raw) => Transaction::read_raw(raw),
            None => None,
        }
    }
}

} // verus!
