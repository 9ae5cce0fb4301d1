//! The records that the group-messaging engine hands to the store.
//!
//! Each record holds as plain bytes the fields that the store indexes by, and
//! in `body` the engine's own encoding of everything else; the store carries
//! `body` through without reading it.
use vstd::prelude::*;
use crate::table::{bytes_eq, Dup, Keyed};
use crate::framing::views;
use crate::codec::{hex_fields, lemma_hex_fields, read_hex_fields, unhex_fields, write_hex_fields, Line, Record};

verus! {

/// Copies a list of byte strings.
pub fn dup_all(v: &Vec<Vec<u8>>) -> (r: Vec<Vec<u8>>)
    ensures
        views(r@) == views(v@),
{
    let mut r: Vec<Vec<u8>> = Vec::new();
    let mut i: usize = 0;
    while i < v.len()
        invariant
            0 <= i <= v@.len(),
            views(r@) == views(v@).subrange(0, i as int),
        decreases v@.len() - i,
    {
        let ghost before = r@;
        let c = v[i].clone();
        r.push(c);
        assert(r@ == before.push(c));
        assert(views(r@) =~= views(before).push(v@[i as int]@));
        i = i + 1;
        assert(views(r@) =~= views(v@).subrange(0, i as int));
    }
    assert(views(v@).subrange(0, v@.len() as int) =~= views(v@));
    r
}

/// A group: its protocol id, its 32-byte application id, and its admins.
pub struct Group {
    pub mls_group_id: Vec<u8>,
    pub nostr_group_id: Vec<u8>,
    pub admin_pubkeys: Vec<Vec<u8>>,
    pub body: Vec<u8>,
}

pub struct GroupView {
    pub mls_group_id: Seq<u8>,
    pub nostr_group_id: Seq<u8>,
    pub admin_pubkeys: Seq<Seq<u8>>,
    pub body: Seq<u8>,
}

impl View for Group {
    type V = GroupView;

    open spec fn view(&self) -> GroupView {
        GroupView {
            mls_group_id: self.mls_group_id@,
            nostr_group_id: self.nostr_group_id@,
            admin_pubkeys: views(self.admin_pubkeys@),
            body: self.body@,
        }
    }
}

impl Dup for Group {
    fn dup(&self) -> (r: Self) {
        Group {
            mls_group_id: self.mls_group_id.clone(),
            nostr_group_id: self.nostr_group_id.clone(),
            admin_pubkeys: dup_all(&self.admin_pubkeys),
            body: self.body.clone(),
        }
    }
}

/// A message, found by its event id and listed under its group.
pub struct Message {
    pub id: Vec<u8>,
    pub mls_group_id: Vec<u8>,
    pub body: Vec<u8>,
}

pub struct MessageView {
    pub id: Seq<u8>,
    pub mls_group_id: Seq<u8>,
    pub body: Seq<u8>,
}

impl View for Message {
    type V = MessageView;

    open spec fn view(&self) -> MessageView {
        MessageView { id: self.id@, mls_group_id: self.mls_group_id@, body: self.body@ }
    }
}

impl Dup for Message {
    fn dup(&self) -> (r: Self) {
        Message { id: self.id.clone(), mls_group_id: self.mls_group_id.clone(), body: self.body.clone() }
    }
}

/// A record found by one event id: a welcome (by its own event id), or a
/// marker that an event was already applied (by the id of the outer event
/// that carried it).
pub struct EventRecord {
    pub event_id: Vec<u8>,
    pub body: Vec<u8>,
}

pub struct EventRecordView {
    pub event_id: Seq<u8>,
    pub body: Seq<u8>,
}

impl View for EventRecord {
    type V = EventRecordView;

    open spec fn view(&self) -> EventRecordView {
        EventRecordView { event_id: self.event_id@, body: self.body@ }
    }
}

impl Dup for EventRecord {
    fn dup(&self) -> (r: Self) {
        EventRecord { event_id: self.event_id.clone(), body: self.body.clone() }
    }
}

/// The secret exported for one epoch of one group.
pub struct ExporterSecret {
    pub mls_group_id: Vec<u8>,
    pub epoch: u64,
    pub secret: Vec<u8>,
}

pub struct ExporterSecretView {
    pub mls_group_id: Seq<u8>,
    pub epoch: u64,
    pub secret: Seq<u8>,
}

impl View for ExporterSecret {
    type V = ExporterSecretView;

    open spec fn view(&self) -> ExporterSecretView {
        ExporterSecretView { mls_group_id: self.mls_group_id@, epoch: self.epoch, secret: self.secret@ }
    }
}

impl Dup for ExporterSecret {
    fn dup(&self) -> (r: Self) {
        ExporterSecret { mls_group_id: self.mls_group_id.clone(), epoch: self.epoch, secret: self.secret.clone() }
    }
}

/// A list of byte strings, such as relay URLs or public keys.
pub struct ByteList {
    pub items: Vec<Vec<u8>>,
}

impl View for ByteList {
    type V = Seq<Seq<u8>>;

    open spec fn view(&self) -> Seq<Seq<u8>> {
        views(self.items@)
    }
}

impl Dup for ByteList {
    fn dup(&self) -> (r: Self) {
        ByteList { items: dup_all(&self.items) }
    }
}

impl Record for Vec<u8> {
    open spec fn raw(v: Seq<u8>) -> Seq<Seq<u8>> {
        seq![v]
    }

    open spec fn from_raw(r: Seq<Seq<u8>>) -> Option<Seq<u8>> {
        if r.len() == 1 {
            Some(r[0])
        } else {
            None
        }
    }

    proof fn lemma_raw(v: Seq<u8>) {
    }

    fn to_raw(&self) -> (r: Vec<Vec<u8>>) {
        let mut r: Vec<Vec<u8>> = Vec::new();
        r.push(self.clone());
        assert(views(r@) =~= seq![self@]);
        r
    }

    fn read_raw(r: Vec<Vec<u8>>) -> (o: Option<Vec<u8>>) {
        let mut r = r;
        if r.len() != 1 {
            return None;
        }
        let ghost rv = views(r@);
        let v = r.pop().unwrap();
        assert(v@ == rv[0]);
        Some(v)
    }
}

/// Takes the first item off a list.
pub(crate) fn take_first(r: &mut Vec<Vec<u8>>) -> (x: Vec<u8>)
    requires
        old(r)@.len() > 0,
    ensures
        x@ == views(old(r)@)[0],
        final(r)@.len() == old(r)@.len() - 1,
        views(final(r)@) == views(old(r)@).drop_first(),
{
    let x = r.remove(0);
    assert(views(r@) =~= views(old(r)@).drop_first());
    x
}

/// A group is its protocol id, application id and body, then its admin keys.
impl Record for Group {
    open spec fn raw(v: GroupView) -> Seq<Seq<u8>> {
        seq![v.mls_group_id, v.nostr_group_id, v.body] + v.admin_pubkeys
    }

    open spec fn from_raw(r: Seq<Seq<u8>>) -> Option<GroupView> {
        if r.len() >= 3 {
            Some(GroupView { mls_group_id: r[0], nostr_group_id: r[1], body: r[2], admin_pubkeys: r.subrange(3, r.len() as int) })
        } else {
            None
        }
    }

    proof fn lemma_raw(v: GroupView) {
        let r = Self::raw(v);
        assert(r.subrange(3, r.len() as int) =~= v.admin_pubkeys);
    }

    fn to_raw(&self) -> (r: Vec<Vec<u8>>) {
        let mut r: Vec<Vec<u8>> = Vec::new();
        r.push(self.mls_group_id.clone());
        r.push(self.nostr_group_id.clone());
        r.push(self.body.clone());
        let mut admins = dup_all(&self.admin_pubkeys);
        let ghost head = views(r@);
        let ghost tail = views(admins@);
        r.append(&mut admins);
        assert(views(r@) =~= head + tail);
        assert(views(r@) =~= Self::raw(self@));
        r
    }

    fn read_raw(r: Vec<Vec<u8>>) -> (o: Option<Group>) {
        let mut r = r;
        if r.len() < 3 {
            return None;
        }
        let ghost rv = views(r@);
        let mls_group_id = take_first(&mut r);
        let nostr_group_id = take_first(&mut r);
        let body = take_first(&mut r);
        assert(views(r@) =~= rv.subrange(3, rv.len() as int));
        Some(Group { mls_group_id, nostr_group_id, admin_pubkeys: r, body })
    }
}

impl Record for Message {
    open spec fn raw(v: MessageView) -> Seq<Seq<u8>> {
        seq![v.id, v.mls_group_id, v.body]
    }

    open spec fn from_raw(r: Seq<Seq<u8>>) -> Option<MessageView> {
        if r.len() == 3 {
            Some(MessageView { id: r[0], mls_group_id: r[1], body: r[2] })
        } else {
            None
        }
    }

    proof fn lemma_raw(v: MessageView) {
    }

    fn to_raw(&self) -> (r: Vec<Vec<u8>>) {
        let mut r: Vec<Vec<u8>> = Vec::new();
        r.push(self.id.clone());
        r.push(self.mls_group_id.clone());
        r.push(self.body.clone());
        assert(views(r@) =~= Self::raw(self@));
        r
    }

    fn read_raw(r: Vec<Vec<u8>>) -> (o: Option<Message>) {
        let mut r = r;
        if r.len() != 3 {
            return None;
        }
        let id = take_first(&mut r);
        let mls_group_id = take_first(&mut r);
        let body = take_first(&mut r);
        Some(Message { id, mls_group_id, body })
    }
}

impl Record for EventRecord {
    open spec fn raw(v: EventRecordView) -> Seq<Seq<u8>> {
        seq![v.event_id, v.body]
    }

    open spec fn from_raw(r: Seq<Seq<u8>>) -> Option<EventRecordView> {
        if r.len() == 2 {
            Some(EventRecordView { event_id: r[0], body: r[1] })
        } else {
            None
        }
    }

    proof fn lemma_raw(v: EventRecordView) {
    }

    fn to_raw(&self) -> (r: Vec<Vec<u8>>) {
        let mut r: Vec<Vec<u8>> = Vec::new();
        r.push(self.event_id.clone());
        r.push(self.body.clone());
        assert(views(r@) =~= Self::raw(self@));
        r
    }

    fn read_raw(r: Vec<Vec<u8>>) -> (o: Option<EventRecord>) {
        let mut r = r;
        if r.len() != 2 {
            return None;
        }
        let event_id = take_first(&mut r);
        let body = take_first(&mut r);
        Some(EventRecord { event_id, body })
    }
}

impl Record for ByteList {
    open spec fn raw(v: Seq<Seq<u8>>) -> Seq<Seq<u8>> {
        v
    }

    open spec fn from_raw(r: Seq<Seq<u8>>) -> Option<Seq<Seq<u8>>> {
        Some(r)
    }

    proof fn lemma_raw(v: Seq<Seq<u8>>) {
    }

    fn to_raw(&self) -> (r: Vec<Vec<u8>>) {
        dup_all(&self.items)
    }

    fn read_raw(r: Vec<Vec<u8>>) -> (o: Option<ByteList>) {
        Some(ByteList { items: r })
    }
}

/// A saved message on a line of its own: its raw fields in hex.
impl Line for Message {
    open spec fn fields(v: MessageView) -> Seq<Seq<u8>> {
        hex_fields(Message::raw(v))
    }

    open spec fn parse(f: Seq<Seq<u8>>) -> Option<MessageView> {
        match unhex_fields(f) {
            Some(raw) => Message::from_raw(raw),
            None => None,
        }
    }

    proof fn lemma_line(v: MessageView) {
        lemma_hex_fields(Message::raw(v));
    }

    fn write(&self) -> (r: Vec<Vec<u8>>) {
        let raw = self.to_raw();
        write_hex_fields(&raw)
    }

    fn read(f: &Vec<Vec<u8>>) -> (o: Option<Message>) {
        match read_hex_fields(f.as_slice()) {
            Some(raw) => Message::read_raw(raw),
            None => None,
        }
    }
}

/// Whether two lists of byte strings are equal.
pub fn lists_eq(a: &Vec<Vec<u8>>, b: &Vec<Vec<u8>>) -> (r: bool)
    ensures
        r == (views(a@) == views(b@)),
{
    if a.len() != b.len() {
        assert(views(a@).len() != views(b@).len());
        return false;
    }
    let mut i: usize = 0;
    while i < a.len()
        invariant
            a@.len() == b@.len(),
            0 <= i <= a@.len(),
            forall|j: int| 0 <= j < i ==> views(a@)[j] == views(b@)[j],
        decreases a@.len() - i,
    {
        if !bytes_eq(a[i].as_slice(), b[i].as_slice()) {
            assert(views(a@)[i as int] != views(b@)[i as int]);
            return false;
        }
        i = i + 1;
    }
    assert(views(a@) =~= views(b@));
    true
}

/// Whether two groups are equal.
pub fn group_eq(a: &Group, b: &Group) -> (r: bool)
    ensures
        r == (a@ == b@),
{
    bytes_eq(a.mls_group_id.as_slice(), b.mls_group_id.as_slice())
        && bytes_eq(a.nostr_group_id.as_slice(), b.nostr_group_id.as_slice())
        && lists_eq(&a.admin_pubkeys, &b.admin_pubkeys)
        && bytes_eq(a.body.as_slice(), b.body.as_slice())
}

/// Whether a list holds each byte string once.
pub fn distinct(v: &Vec<Vec<u8>>) -> (r: bool)
    ensures
        r == views(v@).no_duplicates(),
{
    let mut i: usize = 0;
    while i < v.len()
        invariant
            0 <= i <= v@.len(),
            forall|a: int, b: int| 0 <= a < i && 0 <= b < v@.len() && a != b ==> views(v@)[a] != views(v@)[b],
        decreases v@.len() - i,
    {
        let mut j: usize = 0;
        while j < v.len()
            invariant
                0 <= i < v@.len(),
                0 <= j <= v@.len(),
                forall|a: int, b: int| 0 <= a < i && 0 <= b < v@.len() && a != b ==> views(v@)[a] != views(v@)[b],
                forall|b: int| 0 <= b < j && b != i ==> views(v@)[i as int] != views(v@)[b],
            decreases v@.len() - j,
        {
            if j != i && bytes_eq(v[i].as_slice(), v[j].as_slice()) {
                assert(views(v@)[i as int] == views(v@)[j as int]);
                assert(!views(v@).no_duplicates());
                return false;
            }
            j = j + 1;
        }
        i = i + 1;
    }
    true
}

/// A group stands under its protocol id.
impl Keyed for Group {
    open spec fn key_ok(k: Seq<u8>, v: GroupView) -> bool {
        v.mls_group_id == k
    }

    fn check_key(&self, k: &Vec<u8>) -> (r: bool) {
        bytes_eq(self.mls_group_id.as_slice(), k.as_slice())
    }
}

/// A message stands under its 32-byte event id.
impl Keyed for Message {
    open spec fn key_ok(k: Seq<u8>, v: MessageView) -> bool {
        v.id == k && k.len() == 32
    }

    fn check_key(&self, k: &Vec<u8>) -> (r: bool) {
        k.len() == 32 && bytes_eq(self.id.as_slice(), k.as_slice())
    }
}

/// A welcome or a marker stands under its 32-byte event id.
impl Keyed for EventRecord {
    open spec fn key_ok(k: Seq<u8>, v: EventRecordView) -> bool {
        v.event_id == k && k.len() == 32
    }

    fn check_key(&self, k: &Vec<u8>) -> (r: bool) {
        k.len() == 32 && bytes_eq(self.event_id.as_slice(), k.as_slice())
    }
}

/// A relay set holds each URL once.
impl Keyed for ByteList {
    open spec fn key_ok(k: Seq<u8>, v: Seq<Seq<u8>>) -> bool {
        v.no_duplicates()
    }

    fn check_key(&self, k: &Vec<u8>) -> (r: bool) {
        distinct(&self.items)
    }
}

} // verus!
