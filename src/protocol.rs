//! The protocol state store: groups, relays, messages, welcomes, markers and
//! exporter secrets of the group-messaging engine, each held in the indexes
//! that the engine queries, and the engine's own key-value store beside them.
use vstd::prelude::*;
use crate::base64text::{base64_of, decode_base64, encode_base64};
use crate::table::{bytes_eq, keyed_ok, lemma_row_views, view_keys_unique, view_map, Dup, EpochKey, Keyed, Table};
use crate::engine_store::{memory_contents, memory_from_table, memory_get, memory_insert, memory_new, memory_remove, memory_table};
use openmls_memory_storage::MemoryStorage;
use crate::framing::{join, join_fields, lacks, lemma_split_spec, split, split_spec, views};
use crate::codec::{all_views, lemma_lines_round_trip, lemma_table_round_trip, lines_text, parse_lines, parse_table, read_lines, read_table, table_text, write_lines, write_table, SECTION_SEP};
use crate::records::{ByteList, EventRecord, EventRecordView, ExporterSecret, ExporterSecretView, Group, GroupView, Message, MessageView};

verus! {

/// The protocol state store.
pub struct MdkHybridStorage {
    /// Groups by protocol group id.
    pub groups: Table<Vec<u8>, Group>,
    /// The same groups by 32-byte application group id.
    pub groups_by_nostr_id: Table<Vec<u8>, Group>,
    /// Relay URLs by protocol group id.
    pub group_relays: Table<Vec<u8>, ByteList>,
    /// Welcomes by event id.
    pub welcomes: Table<Vec<u8>, EventRecord>,
    /// Markers of applied welcomes, by the id of the event that carried them.
    pub processed_welcomes: Table<Vec<u8>, EventRecord>,
    /// Messages by event id.
    pub messages: Table<Vec<u8>, Message>,
    /// Every saved message, in the order of saving.
    pub message_log: Vec<Message>,
    /// Markers of applied messages, by the id of the event that carried them.
    pub processed_messages: Table<Vec<u8>, EventRecord>,
    /// Exporter secrets by group id and epoch.
    pub exporter_secrets: Table<EpochKey, Vec<u8>>,
    /// The engine's own store of opaque keys and values.
    pub engine: MemoryStorage,
}

/// What the store holds, as maps and sequences.
pub struct ProtocolView {
    pub groups: Map<Seq<u8>, GroupView>,
    pub groups_by_nostr_id: Map<Seq<u8>, GroupView>,
    pub group_relays: Map<Seq<u8>, Seq<Seq<u8>>>,
    pub welcomes: Map<Seq<u8>, EventRecordView>,
    pub processed_welcomes: Map<Seq<u8>, EventRecordView>,
    pub messages: Map<Seq<u8>, MessageView>,
    pub message_log: Seq<MessageView>,
    pub processed_messages: Map<Seq<u8>, EventRecordView>,
    pub exporter_secrets: Map<(Seq<u8>, u64), Seq<u8>>,
    pub engine: Map<Seq<u8>, Seq<u8>>,
}

/// The messages of one group, in the order of saving.
pub open spec fn group_messages(log: Seq<MessageView>, group_id: Seq<u8>) -> Seq<MessageView> {
    log.filter(|m: MessageView| m.mls_group_id == group_id)
}

impl View for MdkHybridStorage {
    type V = ProtocolView;

    open spec fn view(&self) -> ProtocolView {
        ProtocolView {
            groups: self.groups@,
            groups_by_nostr_id: self.groups_by_nostr_id@,
            group_relays: self.group_relays@,
            welcomes: self.welcomes@,
            processed_welcomes: self.processed_welcomes@,
            messages: self.messages@,
            message_log: all_views(self.message_log@),
            processed_messages: self.processed_messages@,
            exporter_secrets: self.exporter_secrets@,
            engine: memory_contents(self.engine),
        }
    }
}

/// No prior state.
pub open spec fn empty_view() -> ProtocolView {
    ProtocolView {
        groups: Map::empty(),
        groups_by_nostr_id: Map::empty(),
        group_relays: Map::empty(),
        welcomes: Map::empty(),
        processed_welcomes: Map::empty(),
        messages: Map::empty(),
        message_log: Seq::empty(),
        processed_messages: Map::empty(),
        exporter_secrets: Map::empty(),
        engine: Map::empty(),
    }
}

/// Every group of the app-id index stands under its own 32-byte app id and is
/// the group that the protocol-id index holds under its protocol id: the
/// app-id index never holds an older version.
pub open spec fn app_index_agrees(groups: Map<Seq<u8>, GroupView>, by_app: Map<Seq<u8>, GroupView>) -> bool {
    forall|k: Seq<u8>| #[trigger] by_app.contains_key(k) ==> {
        &&& by_app[k].nostr_group_id == k
        &&& k.len() == 32
        &&& groups.contains_key(by_app[k].mls_group_id)
        &&& groups[by_app[k].mls_group_id] == by_app[k]
    }
}

/// What ties the indexes to the records they hold: each record stands under
/// its own id, event ids are 32 bytes, relay sets hold each URL once, and the
/// two group indexes agree.
pub open spec fn view_ok(v: ProtocolView) -> bool {
    &&& keyed_ok::<Group>(v.groups)
    &&& app_index_agrees(v.groups, v.groups_by_nostr_id)
    &&& keyed_ok::<ByteList>(v.group_relays)
    &&& keyed_ok::<EventRecord>(v.welcomes)
    &&& keyed_ok::<EventRecord>(v.processed_welcomes)
    &&& keyed_ok::<Message>(v.messages)
    &&& keyed_ok::<EventRecord>(v.processed_messages)
}

/// The app-id entry that saving a group under protocol id `id` makes stale:
/// the one that holds the group saved before under that id.
pub open spec fn stale_app_entry(v: ProtocolView, id: Seq<u8>) -> bool {
    &&& v.groups.contains_key(id)
    &&& v.groups_by_nostr_id.contains_key(v.groups[id].nostr_group_id)
    &&& v.groups_by_nostr_id[v.groups[id].nostr_group_id].mls_group_id == id
}

/// The state after saving group `g`: it stands under both of its ids, and the
/// app-id entry of the version it replaces is gone.
pub open spec fn saved_group(v: ProtocolView, g: GroupView) -> ProtocolView {
    let by_app = if stale_app_entry(v, g.mls_group_id) {
        v.groups_by_nostr_id.remove(v.groups[g.mls_group_id].nostr_group_id)
    } else {
        v.groups_by_nostr_id
    };
    ProtocolView {
        groups: v.groups.insert(g.mls_group_id, g),
        groups_by_nostr_id: by_app.insert(g.nostr_group_id, g),
        ..v
    }
}

/// Saving a group keeps the two group indexes in agreement, so over any
/// sequence of saves the app-id index holds no older version of a group.
pub proof fn lemma_saved_group_keeps_indexes(v: ProtocolView, g: GroupView)
    requires
        keyed_ok::<Group>(v.groups),
        app_index_agrees(v.groups, v.groups_by_nostr_id),
        g.nostr_group_id.len() == 32,
    ensures
        keyed_ok::<Group>(saved_group(v, g).groups),
        app_index_agrees(saved_group(v, g).groups, saved_group(v, g).groups_by_nostr_id),
{
    let w = saved_group(v, g);
    assert forall|k: Seq<u8>| #[trigger] w.groups.contains_key(k) implies Group::key_ok(k, w.groups[k]) by {
        if k != g.mls_group_id {
            assert(Group::key_ok(k, v.groups[k]));
        }
    }
    assert forall|k: Seq<u8>| #[trigger] w.groups_by_nostr_id.contains_key(k) implies {
        &&& w.groups_by_nostr_id[k].nostr_group_id == k
        &&& k.len() == 32
        &&& w.groups.contains_key(w.groups_by_nostr_id[k].mls_group_id)
        &&& w.groups[w.groups_by_nostr_id[k].mls_group_id] == w.groups_by_nostr_id[k]
    } by {
        if k != g.nostr_group_id {
            let u = v.groups_by_nostr_id[k];
            assert(v.groups_by_nostr_id.contains_key(k));
            assert(w.groups_by_nostr_id[k] == u);
            if u.mls_group_id == g.mls_group_id {
                assert(v.groups[g.mls_group_id] == u);
                assert(stale_app_entry(v, g.mls_group_id));
            }
        }
    }
}

/// The state after saving welcome `w`.
pub open spec fn saved_welcome(v: ProtocolView, w: EventRecordView) -> ProtocolView {
    ProtocolView { welcomes: v.welcomes.insert(w.event_id, w), ..v }
}

/// The state after saving the marker `m` of an applied welcome.
pub open spec fn marked_welcome(v: ProtocolView, m: EventRecordView) -> ProtocolView {
    ProtocolView { processed_welcomes: v.processed_welcomes.insert(m.event_id, m), ..v }
}

/// A welcome is pending when it is saved and no marker carries its id.
pub open spec fn is_pending(v: ProtocolView, w: EventRecordView) -> bool {
    &&& v.welcomes.contains_key(w.event_id)
    &&& v.welcomes[w.event_id] == w
    &&& !v.processed_welcomes.contains_key(w.event_id)
}

/// One change to the welcomes: a welcome saved, or a marker saved.
pub enum WelcomeStep {
    Save(EventRecordView),
    Mark(EventRecordView),
}

/// The state after the steps, in order.
pub open spec fn apply_steps(v: ProtocolView, steps: Seq<WelcomeStep>) -> ProtocolView
    decreases steps.len(),
{
    if steps.len() == 0 {
        v
    } else {
        let before = apply_steps(v, steps.drop_last());
        match steps.last() {
            WelcomeStep::Save(w) => saved_welcome(before, w),
            WelcomeStep::Mark(m) => marked_welcome(before, m),
        }
    }
}

/// The step saves a welcome or a marker with event id `id`.
pub open spec fn step_touches(s: WelcomeStep, id: Seq<u8>) -> bool {
    match s {
        WelcomeStep::Save(x) => x.event_id == id,
        WelcomeStep::Mark(m) => m.event_id == id,
    }
}

/// Over any sequence of saves and markers: a welcome that was saved, and after
/// which nothing else was saved under its id and no marker ever carried its id,
/// is pending.
pub proof fn lemma_pending_after_steps(v: ProtocolView, steps: Seq<WelcomeStep>, i: int, w: EventRecordView)
    requires
        0 <= i < steps.len(),
        steps[i] == WelcomeStep::Save(w),
        forall|j: int| i < j < steps.len() ==> !step_touches(#[trigger] steps[j], w.event_id),
        forall|j: int| 0 <= j < steps.len() ==> !(#[trigger] steps[j] matches WelcomeStep::Mark(m) && m.event_id == w.event_id),
        !v.processed_welcomes.contains_key(w.event_id),
    ensures
        is_pending(apply_steps(v, steps), w),
    decreases steps.len(),
{
    let init = steps.drop_last();
    if i == steps.len() - 1 {
        assert forall|j: int| 0 <= j < init.len() implies !(#[trigger] init[j] matches WelcomeStep::Mark(m) && m.event_id == w.event_id) by {
            assert(init[j] == steps[j]);
        }
        lemma_no_marker_after_steps(v, init, w.event_id);
        lemma_saved_welcome_pending(apply_steps(v, init), w);
    } else {
        assert forall|j: int| i < j < init.len() implies !step_touches(#[trigger] init[j], w.event_id) by {
            assert(init[j] == steps[j]);
        }
        assert forall|j: int| 0 <= j < init.len() implies !(#[trigger] init[j] matches WelcomeStep::Mark(m) && m.event_id == w.event_id) by {
            assert(init[j] == steps[j]);
        }
        assert(init[i] == steps[i]);
        lemma_pending_after_steps(v, init, i, w);
        assert(!step_touches(steps[steps.len() - 1], w.event_id));
        match steps.last() {
            WelcomeStep::Save(x) => {
                lemma_other_welcome_keeps_pending(apply_steps(v, init), x, w);
            },
            WelcomeStep::Mark(m) => {
                lemma_marker_ends_pending(apply_steps(v, init), m, w);
            },
        }
    }
}

/// No marker with id `id` among the steps leaves none in the state.
pub proof fn lemma_no_marker_after_steps(v: ProtocolView, steps: Seq<WelcomeStep>, id: Seq<u8>)
    requires
        forall|j: int| 0 <= j < steps.len() ==> !(#[trigger] steps[j] matches WelcomeStep::Mark(m) && m.event_id == id),
        !v.processed_welcomes.contains_key(id),
    ensures
        !apply_steps(v, steps).processed_welcomes.contains_key(id),
    decreases steps.len(),
{
    if steps.len() > 0 {
        let init = steps.drop_last();
        assert forall|j: int| 0 <= j < init.len() implies !(#[trigger] init[j] matches WelcomeStep::Mark(m) && m.event_id == id) by {
            assert(init[j] == steps[j]);
        }
        lemma_no_marker_after_steps(v, init, id);
        assert(!(steps[steps.len() - 1] matches WelcomeStep::Mark(m) && m.event_id == id));
    }
}

/// Saving a welcome with another id leaves `w` as pending as it was.
pub proof fn lemma_other_welcome_keeps_pending(v: ProtocolView, x: EventRecordView, w: EventRecordView)
    requires
        x.event_id != w.event_id,
    ensures
        is_pending(saved_welcome(v, x), w) <==> is_pending(v, w),
{
    let after = saved_welcome(v, x);
    assert(after.welcomes.contains_key(w.event_id) == v.welcomes.contains_key(w.event_id));
}

/// A saved group is found by its protocol id and by its application id, and
/// both lookups give the group that was saved.
pub proof fn lemma_group_found_by_both_ids(v: ProtocolView, g: GroupView)
    ensures
        saved_group(v, g).groups.contains_key(g.mls_group_id),
        saved_group(v, g).groups_by_nostr_id.contains_key(g.nostr_group_id),
        saved_group(v, g).groups[g.mls_group_id] == saved_group(v, g).groups_by_nostr_id[g.nostr_group_id],
        saved_group(v, g).groups[g.mls_group_id] == g,
{
}

/// Saving a welcome makes it pending unless a marker already carries its id.
pub proof fn lemma_saved_welcome_pending(v: ProtocolView, w: EventRecordView)
    ensures
        is_pending(saved_welcome(v, w), w) <==> !v.processed_welcomes.contains_key(w.event_id),
{
    let after = saved_welcome(v, w);
    assert(after.welcomes.contains_key(w.event_id) && after.welcomes[w.event_id] == w);
}

/// Saving a marker ends the pending of every welcome with its id, and leaves
/// every other welcome as pending as it was.
pub proof fn lemma_marker_ends_pending(v: ProtocolView, m: EventRecordView, w: EventRecordView)
    ensures
        w.event_id == m.event_id ==> !is_pending(marked_welcome(v, m), w),
        w.event_id != m.event_id ==> (is_pending(marked_welcome(v, m), w) <==> is_pending(v, w)),
{
    let after = marked_welcome(v, m);
    assert(after.welcomes == v.welcomes);
    if w.event_id != m.event_id {
        assert(after.processed_welcomes.contains_key(w.event_id) == v.processed_welcomes.contains_key(w.event_id));
    }
}

/// The byte strings of `s`, each once, in their first order.
pub open spec fn distinct_of(s: Seq<Seq<u8>>, r: Seq<Seq<u8>>) -> bool {
    r.no_duplicates() && r.to_set() == s.to_set()
}

fn copy_of<V: Dup>(v: Option<&V>) -> (r: Option<V>)
    ensures
        r is Some <==> v is Some,
        r matches Some(x) ==> x@ == v->0@,
{
    match v {
        Some(x) => Some(x.dup()),
        None => None,
    }
}

/// The items of `items`, each once.
fn dedup(items: Vec<Vec<u8>>) -> (r: Vec<Vec<u8>>)
    ensures
        distinct_of(views(items@), views(r@)),
{
    let mut r: Vec<Vec<u8>> = Vec::new();
    let mut i: usize = 0;
    while i < items.len()
        invariant
            0 <= i <= items@.len(),
            views(r@).no_duplicates(),
            views(r@).to_set() == views(items@).subrange(0, i as int).to_set(),
        decreases items@.len() - i,
    {
        let mut seen = false;
        let mut j: usize = 0;
        while j < r.len()
            invariant
                0 <= i < items@.len(),
                0 <= j <= r@.len(),
                seen == exists|t: int| 0 <= t < j && r@[t]@ == items@[i as int]@,
            decreases r@.len() - j,
        {
            if crate::table::bytes_eq(r[j].as_slice(), items[i].as_slice()) {
                seen = true;
            }
            j = j + 1;
        }
        let ghost before = views(r@);
        let ghost x = items@[i as int]@;
        if !seen {
            r.push(items[i].clone());
            proof {
                assert(views(r@) =~= before.push(x));
                assert(!before.contains(x)) by {
                    if before.contains(x) {
                        let t = choose|t: int| 0 <= t < before.len() && before[t] == x;
                        assert(r@[t]@ == x);
                    }
                }
            }
        } else {
            proof {
                let t = choose|t: int| 0 <= t < j && r@[t]@ == items@[i as int]@;
                assert(before[t] == x);
            }
        }
        proof {
            assert(views(items@).subrange(0, i + 1) =~= views(items@).subrange(0, i as int).push(x));
            views(items@).subrange(0, i as int).lemma_push_to_set_commute(x);
            before.lemma_push_to_set_commute(x);
            if seen {
                assert(before.contains(x));
                assert(before.to_set().insert(x) =~= before.to_set());
            }
            assert(views(r@).to_set() =~= views(items@).subrange(0, i + 1).to_set());
        }
        i = i + 1;
    }
    assert(views(items@).subrange(0, items@.len() as int) =~= views(items@));
    r
}

impl MdkHybridStorage {
    pub open spec fn wf(&self) -> bool {
        &&& self.groups.wf()
        &&& self.groups_by_nostr_id.wf()
        &&& self.group_relays.wf()
        &&& self.welcomes.wf()
        &&& self.processed_welcomes.wf()
        &&& self.messages.wf()
        &&& self.processed_messages.wf()
        &&& self.exporter_secrets.wf()
        &&& view_ok(self@)
    }

    /// A store with no groups, messages, welcomes or engine entries.
    pub fn empty() -> (r: Self)
        ensures
            r.wf(),
            r@ == empty_view(),
    {
        let r = MdkHybridStorage {
            groups: Table::new(),
            groups_by_nostr_id: Table::new(),
            group_relays: Table::new(),
            welcomes: Table::new(),
            processed_welcomes: Table::new(),
            messages: Table::new(),
            message_log: Vec::new(),
            processed_messages: Table::new(),
            exporter_secrets: Table::new(),
            engine: memory_new(),
        };
        assert(all_views(r.message_log@) =~= Seq::empty());
        assert(memory_contents(r.engine) =~= Map::<Seq<u8>, Seq<u8>>::empty());
        r
    }

    /// Every group, each once.
    pub fn all_groups(&self) -> (r: Vec<Group>)
        requires
            self.wf(),
        ensures
            forall|i: int| 0 <= i < r@.len() ==> #[trigger] self.groups.holds_value(r@[i]@),
            forall|k: Seq<u8>| #[trigger] self@.groups.contains_key(k) ==> exists|i: int| 0 <= i < r@.len() && r@[i]@ == self@.groups[k],
            r@.len() == self@.groups.dom().len(),
    {
        self.groups.values()
    }

    pub fn find_group_by_mls_group_id(&self, group_id: &Vec<u8>) -> (r: Option<Group>)
        requires
            self.wf(),
        ensures
            r is Some <==> self@.groups.contains_key(group_id@),
            r matches Some(g) ==> g@ == self@.groups[group_id@],
    {
        copy_of(self.groups.get(group_id))
    }

    pub fn find_group_by_nostr_group_id(&self, nostr_group_id: &Vec<u8>) -> (r: Option<Group>)
        requires
            self.wf(),
        ensures
            r is Some <==> self@.groups_by_nostr_id.contains_key(nostr_group_id@),
            r matches Some(g) ==> g@ == self@.groups_by_nostr_id[nostr_group_id@],
    {
        copy_of(self.groups_by_nostr_id.get(nostr_group_id))
    }

    /// Saves `group` under both of its ids.
    pub fn save_group(&mut self, group: Group)
        requires
            old(self).wf(),
            group@.nostr_group_id.len() == 32,
        ensures
            final(self).wf(),
            final(self)@ == saved_group(old(self)@, group@),
    {
        let stale: Option<Vec<u8>> = match self.groups.get(&group.mls_group_id) {
            Some(before) => match self.groups_by_nostr_id.get(&before.nostr_group_id) {
                Some(current) => if bytes_eq(current.mls_group_id.as_slice(), group.mls_group_id.as_slice()) {
                    Some(before.nostr_group_id.clone())
                } else {
                    None
                },
                None => None,
            },
            None => None,
        };
        match stale {
            Some(k) => {
                self.groups_by_nostr_id.remove(&k);
            },
            None => {},
        }
        proof {
            lemma_saved_group_keeps_indexes(old(self)@, group@);
        }
        let copy = group.dup();
        let nostr_id = group.nostr_group_id.clone();
        let mls_id = group.mls_group_id.clone();
        self.groups_by_nostr_id.insert(nostr_id, copy);
        self.groups.insert(mls_id, group);
    }

    /// The group's messages, in the order they were saved; none for an
    /// unknown group.
    pub fn messages(&self, group_id: &Vec<u8>) -> (r: Vec<Message>)
        ensures
            all_views(r@) == group_messages(self@.message_log, group_id@),
    {
        let mut r: Vec<Message> = Vec::new();
        let mut i: usize = 0;
        while i < self.message_log.len()
            invariant
                0 <= i <= self.message_log@.len(),
                all_views(r@) == group_messages(all_views(self.message_log@.subrange(0, i as int)), group_id@),
            decreases self.message_log@.len() - i,
        {
            let m = &self.message_log[i];
            let ghost before = r@;
            let ghost pre = all_views(self.message_log@.subrange(0, i as int));
            proof {
                assert(all_views(self.message_log@.subrange(0, i + 1)) =~= pre.push(m@));
                pre.lemma_filter_push(m@, |x: MessageView| x.mls_group_id == group_id@);
            }
            if crate::table::bytes_eq(m.mls_group_id.as_slice(), group_id.as_slice()) {
                r.push(m.dup());
                assert(all_views(r@) =~= all_views(before).push(m@));
            }
            i = i + 1;
        }
        assert(self.message_log@.subrange(0, self.message_log@.len() as int) =~= self.message_log@);
        r
    }

    /// The group's admin keys; none for an unknown group.
    pub fn admins(&self, group_id: &Vec<u8>) -> (r: Vec<Vec<u8>>)
        requires
            self.wf(),
        ensures
            views(r@) == if self@.groups.contains_key(group_id@) {
                self@.groups[group_id@].admin_pubkeys
            } else {
                Seq::empty()
            },
    {
        match self.groups.get(group_id) {
            Some(g) => crate::records::dup_all(&g.admin_pubkeys),
            None => {
                let r: Vec<Vec<u8>> = Vec::new();
                assert(views(r@) =~= Seq::empty());
                r
            },
        }
    }

    /// The group's relay URLs; none for an unknown group.
    pub fn group_relays(&self, group_id: &Vec<u8>) -> (r: Vec<Vec<u8>>)
        requires
            self.wf(),
        ensures
            views(r@) == if self@.group_relays.contains_key(group_id@) {
                self@.group_relays[group_id@]
            } else {
                Seq::empty()
            },
    {
        match self.group_relays.get(group_id) {
            Some(l) => crate::records::dup_all(&l.items),
            None => {
                let r: Vec<Vec<u8>> = Vec::new();
                assert(views(r@) =~= Seq::empty());
                r
            },
        }
    }

    /// Makes `relays`, each once, the whole relay set of the group.
    pub fn replace_group_relays(&mut self, group_id: &Vec<u8>, relays: Vec<Vec<u8>>)
        requires
            old(self).wf(),
        ensures
            final(self).wf(),
            final(self)@.group_relays.contains_key(group_id@),
            distinct_of(views(relays@), final(self)@.group_relays[group_id@]),
            final(self)@.group_relays.remove(group_id@) == old(self)@.group_relays.remove(group_id@),
            final(self)@ == (ProtocolView { group_relays: final(self)@.group_relays, ..old(self)@ }),
    {
        let items = dedup(relays);
        self.group_relays.insert(group_id.clone(), ByteList { items });
        assert(final(self)@.group_relays.remove(group_id@) =~= old(self)@.group_relays.remove(group_id@));
    }

    pub fn get_group_exporter_secret(&self, group_id: &Vec<u8>, epoch: u64) -> (r: Option<ExporterSecret>)
        requires
            self.wf(),
        ensures
            r is Some <==> self@.exporter_secrets.contains_key((group_id@, epoch)),
            r matches Some(s) ==> s@ == (ExporterSecretView {
                mls_group_id: group_id@,
                epoch,
                secret: self@.exporter_secrets[(group_id@, epoch)],
            }),
    {
        let key = EpochKey { group_id: group_id.clone(), epoch };
        match self.exporter_secrets.get(&key) {
            Some(secret) => Some(ExporterSecret { mls_group_id: group_id.clone(), epoch, secret: secret.clone() }),
            None => None,
        }
    }

    /// Saves the secret of one epoch; a later save for the same epoch wins.
    pub fn save_group_exporter_secret(&mut self, s: ExporterSecret)
        requires
            old(self).wf(),
        ensures
            final(self).wf(),
            final(self)@ == (ProtocolView {
                exporter_secrets: old(self)@.exporter_secrets.insert((s@.mls_group_id, s@.epoch), s@.secret),
                ..old(self)@
            }),
    {
        let key = EpochKey { group_id: s.mls_group_id, epoch: s.epoch };
        self.exporter_secrets.insert(key, s.secret);
    }

    /// Saves `message` under its event id and appends it to the saved order.
    pub fn save_message(&mut self, message: Message)
        requires
            old(self).wf(),
            message@.id.len() == 32,
        ensures
            final(self).wf(),
            final(self)@ == (ProtocolView {
                messages: old(self)@.messages.insert(message@.id, message@),
                message_log: old(self)@.message_log.push(message@),
                ..old(self)@
            }),
    {
        let copy = message.dup();
        let id = message.id.clone();
        self.messages.insert(id, copy);
        self.message_log.push(message);
        assert(all_views(self.message_log@) =~= old(self)@.message_log.push(message@));
    }

    pub fn find_message_by_event_id(&self, event_id: &Vec<u8>) -> (r: Option<Message>)
        requires
            self.wf(),
        ensures
            r is Some <==> self@.messages.contains_key(event_id@),
            r matches Some(m) ==> m@ == self@.messages[event_id@],
    {
        copy_of(self.messages.get(event_id))
    }

    pub fn save_processed_message(&mut self, marker: EventRecord)
        requires
            old(self).wf(),
            marker@.event_id.len() == 32,
        ensures
            final(self).wf(),
            final(self)@ == (ProtocolView {
                processed_messages: old(self)@.processed_messages.insert(marker@.event_id, marker@),
                ..old(self)@
            }),
    {
        let id = marker.event_id.clone();
        self.processed_messages.insert(id, marker);
    }

    pub fn find_processed_message_by_event_id(&self, event_id: &Vec<u8>) -> (r: Option<EventRecord>)
        requires
            self.wf(),
        ensures
            r is Some <==> self@.processed_messages.contains_key(event_id@),
            r matches Some(m) ==> m@ == self@.processed_messages[event_id@],
    {
        copy_of(self.processed_messages.get(event_id))
    }

    pub fn save_welcome(&mut self, welcome: EventRecord)
        requires
            old(self).wf(),
            welcome@.event_id.len() == 32,
        ensures
            final(self).wf(),
            final(self)@ == saved_welcome(old(self)@, welcome@),
    {
        let id = welcome.event_id.clone();
        self.welcomes.insert(id, welcome);
    }

    pub fn find_welcome_by_event_id(&self, event_id: &Vec<u8>) -> (r: Option<EventRecord>)
        requires
            self.wf(),
        ensures
            r is Some <==> self@.welcomes.contains_key(event_id@),
            r matches Some(w) ==> w@ == self@.welcomes[event_id@],
    {
        copy_of(self.welcomes.get(event_id))
    }

    pub fn save_processed_welcome(&mut self, marker: EventRecord)
        requires
            old(self).wf(),
            marker@.event_id.len() == 32,
        ensures
            final(self).wf(),
            final(self)@ == marked_welcome(old(self)@, marker@),
    {
        let id = marker.event_id.clone();
        self.processed_welcomes.insert(id, marker);
    }

    pub fn find_processed_welcome_by_event_id(&self, event_id: &Vec<u8>) -> (r: Option<EventRecord>)
        requires
            self.wf(),
        ensures
            r is Some <==> self@.processed_welcomes.contains_key(event_id@),
            r matches Some(w) ==> w@ == self@.processed_welcomes[event_id@],
    {
        copy_of(self.processed_welcomes.get(event_id))
    }

    /// The saved welcomes without a marker, each once.
    #[verifier::rlimit(80)]
    pub fn pending_welcomes(&self) -> (r: Vec<EventRecord>)
        requires
            self.wf(),
        ensures
            forall|i: int| 0 <= i < r@.len() ==> #[trigger] is_pending(self@, r@[i]@),
            forall|k: Seq<u8>| #[trigger] self@.welcomes.contains_key(k) && is_pending(self@, self@.welcomes[k])
                ==> exists|i: int| 0 <= i < r@.len() && r@[i]@ == self@.welcomes[k],
            forall|a: int, b: int| 0 <= a < r@.len() && 0 <= b < r@.len() && a != b ==> #[trigger] r@[a]@.event_id != #[trigger] r@[b]@.event_id,
    {
        let rows = &self.welcomes.rows;
        let mut r: Vec<EventRecord> = Vec::new();
        let ghost mut idx: Seq<int> = Seq::empty();
        let mut i: usize = 0;
        while i < rows.len()
            invariant
                self.welcomes.wf(),
                self.processed_welcomes.wf(),
                keyed_ok::<EventRecord>(self.welcomes@),
                rows == &self.welcomes.rows,
                0 <= i <= rows@.len(),
                idx.len() == r@.len(),
                forall|t: int| 0 <= t < r@.len() ==> 0 <= #[trigger] idx[t] < i && r@[t]@ == rows@[idx[t]].1@
                    && !self@.processed_welcomes.contains_key(r@[t]@.event_id),
                forall|a: int, b: int| 0 <= a < b < r@.len() ==> #[trigger] idx[a] < #[trigger] idx[b],
                forall|j: int| 0 <= j < i && !self@.processed_welcomes.contains_key(#[trigger] rows@[j].1@.event_id)
                    ==> exists|t: int| 0 <= t < r@.len() && idx[t] == j,
            decreases rows@.len() - i,
        {
            let w = &rows[i].1;
            if self.processed_welcomes.get(&w.event_id).is_none() {
                let ghost before = r@;
                let ghost bidx = idx;
                r.push(w.dup());
                proof {
                    idx = idx.push(i as int);
                    assert forall|j: int| 0 <= j < i + 1 && !self@.processed_welcomes.contains_key(#[trigger] rows@[j].1@.event_id)
                        implies exists|t: int| 0 <= t < r@.len() && idx[t] == j by {
                        if j < i {
                            let t = choose|t: int| 0 <= t < before.len() && bidx[t] == j;
                            assert(idx[t] == j);
                        } else {
                            assert(idx[before.len() as int] == j);
                        }
                    }
                    assert forall|t: int| 0 <= t < r@.len() implies 0 <= #[trigger] idx[t] < i + 1 && r@[t]@ == rows@[idx[t]].1@
                        && !self@.processed_welcomes.contains_key(r@[t]@.event_id) by {
                        if t < before.len() {
                            assert(r@[t] == before[t]);
                            assert(idx[t] == bidx[t]);
                        }
                    }
                }
            }
            i = i + 1;
        }
        proof {
            assert forall|t: int| 0 <= t < r@.len() implies #[trigger] is_pending(self@, r@[t]@) by {
                crate::table::lemma_rows_map_at(rows@, idx[t]);
                assert(EventRecord::key_ok(rows@[idx[t]].0@, rows@[idx[t]].1@));
            }
            assert forall|a: int, b: int| 0 <= a < r@.len() && 0 <= b < r@.len() && a != b implies #[trigger] r@[a]@.event_id != #[trigger] r@[b]@.event_id by {
                crate::table::lemma_rows_map_at(rows@, idx[a]);
                crate::table::lemma_rows_map_at(rows@, idx[b]);
                assert(EventRecord::key_ok(rows@[idx[a]].0@, rows@[idx[a]].1@));
                assert(EventRecord::key_ok(rows@[idx[b]].0@, rows@[idx[b]].1@));
                if a < b {
                    assert(idx[a] < idx[b]);
                } else {
                    assert(idx[b] < idx[a]);
                }
            }
            assert forall|k: Seq<u8>| #[trigger] self@.welcomes.contains_key(k)
                && is_pending(self@, self@.welcomes[k])
                implies exists|t: int| 0 <= t < r@.len() && r@[t]@ == self@.welcomes[k] by {
                let j = choose|j: int| 0 <= j < rows@.len() && rows@[j].0@ == k;
                crate::table::lemma_rows_map_at(rows@, j);
                assert(!self@.processed_welcomes.contains_key(rows@[j].1@.event_id));
                let t = choose|t: int| 0 <= t < r@.len() && idx[t] == j;
                assert(r@[t]@ == self@.welcomes[k]);
            }
        }
        r
    }

    /// The engine's value under `key`.
    pub fn engine_get(&self, key: &Vec<u8>) -> (r: Option<Vec<u8>>)
        requires
            self.wf(),
        ensures
            r is Some <==> self@.engine.contains_key(key@),
            r matches Some(v) ==> v@ == self@.engine[key@],
    {
        memory_get(&self.engine, key)
    }

    pub fn engine_set(&mut self, key: Vec<u8>, value: Vec<u8>)
        requires
            old(self).wf(),
        ensures
            final(self).wf(),
            final(self)@ == (ProtocolView { engine: old(self)@.engine.insert(key@, value@), ..old(self)@ }),
    {
        memory_insert(&mut self.engine, key, value);
    }

    pub fn engine_delete(&mut self, key: &Vec<u8>)
        requires
            old(self).wf(),
        ensures
            final(self).wf(),
            final(self)@ == (ProtocolView { engine: old(self)@.engine.remove(key@), ..old(self)@ }),
    {
        memory_remove(&mut self.engine, key);
    }

    /// The engine's keys that start with `prefix`, each once.
    pub fn engine_keys_with_prefix(&self, prefix: &Vec<u8>) -> (r: Vec<Vec<u8>>)
        requires
            self.wf(),
        ensures
            views(r@).no_duplicates(),
            forall|k: Seq<u8>| #[trigger] views(r@).contains(k) <==> (self@.engine.contains_key(k) && is_prefix(prefix@, k)),
    {
        let table = memory_table(&self.engine);
        let rows = &table.rows;
        let mut r: Vec<Vec<u8>> = Vec::new();
        let mut i: usize = 0;
        while i < rows.len()
            invariant
                table.wf(),
                table@ == self@.engine,
                rows == &table.rows,
                0 <= i <= rows@.len(),
                views(r@).no_duplicates(),
                forall|k: Seq<u8>| #[trigger] views(r@).contains(k) <==> (exists|j: int| 0 <= j < i && rows@[j].0@ == k && is_prefix(prefix@, k)),
            decreases rows@.len() - i,
        {
            let k = &rows[i].0;
            let ghost before = views(r@);
            if starts_with(k.as_slice(), prefix.as_slice()) {
                r.push(k.clone());
                proof {
                    assert(views(r@) =~= before.push(k@));
                    assert(!before.contains(k@)) by {
                        if before.contains(k@) {
                            let j = choose|j: int| 0 <= j < i && rows@[j].0@ == k@ && is_prefix(prefix@, k@);
                        }
                    }
                    assert forall|x: Seq<u8>| #[trigger] views(r@).contains(x) <==> (exists|j: int| 0 <= j < i + 1 && rows@[j].0@ == x && is_prefix(prefix@, x)) by {
                        if views(r@).contains(x) {
                            let t = choose|t: int| 0 <= t < views(r@).len() && views(r@)[t] == x;
                            if t < before.len() {
                                assert(before[t] == x);
                                assert(before.contains(x));
                            } else {
                                assert(x == k@);
                                assert(rows@[i as int].0@ == x);
                            }
                        }
                        if exists|j: int| 0 <= j < i + 1 && rows@[j].0@ == x && is_prefix(prefix@, x) {
                            if x != k@ {
                                let j = choose|j: int| 0 <= j < i + 1 && rows@[j].0@ == x && is_prefix(prefix@, x);
                                assert(j < i);
                                assert(before.contains(x));
                                let t = choose|t: int| 0 <= t < before.len() && before[t] == x;
                                assert(views(r@)[t] == x);
                            } else {
                                assert(views(r@)[before.len() as int] == k@);
                            }
                        }
                    }
                }
            } else {
                proof {
                    assert forall|x: Seq<u8>| #[trigger] views(r@).contains(x) <==> (exists|j: int| 0 <= j < i + 1 && rows@[j].0@ == x && is_prefix(prefix@, x)) by {
                        if exists|j: int| 0 <= j < i + 1 && rows@[j].0@ == x && is_prefix(prefix@, x) {
                            let j = choose|j: int| 0 <= j < i + 1 && rows@[j].0@ == x && is_prefix(prefix@, x);
                            assert(j < i);
                        }
                    }
                }
            }
            i = i + 1;
        }
        proof {
            assert forall|k: Seq<u8>| #[trigger] views(r@).contains(k) <==> (self@.engine.contains_key(k) && is_prefix(prefix@, k)) by {
                if self@.engine.contains_key(k) && is_prefix(prefix@, k) {
                    let j = choose|j: int| 0 <= j < rows@.len() && rows@[j].0@ == k;
                    assert(rows@[j].0@ == k);
                }
            }
        }
        r
    }
}

/// `p` is a prefix of `s`.
pub open spec fn is_prefix(p: Seq<u8>, s: Seq<u8>) -> bool {
    p.len() <= s.len() && s.subrange(0, p.len() as int) == p
}

/// Whether `s` starts with `p`.
pub fn starts_with(s: &[u8], p: &[u8]) -> (r: bool)
    ensures
        r == is_prefix(p@, s@),
{
    if p.len() > s.len() {
        return false;
    }
    let mut i: usize = 0;
    while i < p.len()
        invariant
            p@.len() <= s@.len(),
            0 <= i <= p@.len(),
            forall|j: int| 0 <= j < i ==> s@[j] == p@[j],
        decreases p@.len() - i,
    {
        if s[i] != p[i] {
            assert(s@.subrange(0, p@.len() as int)[i as int] != p@[i as int]);
            return false;
        }
        i = i + 1;
    }
    assert(s@.subrange(0, p@.len() as int) =~= p@);
    true
}

/// The sections of a snapshot of the store's indexes, in order. The engine's
/// own store is written apart, by `engine_text`.
pub open spec fn sections(s: MdkHybridStorage) -> Seq<Seq<u8>> {
    seq![
        table_text::<Vec<u8>, Group>(all_views(s.groups.rows@)),
        table_text::<Vec<u8>, Group>(all_views(s.groups_by_nostr_id.rows@)),
        table_text::<Vec<u8>, ByteList>(all_views(s.group_relays.rows@)),
        table_text::<Vec<u8>, EventRecord>(all_views(s.welcomes.rows@)),
        table_text::<Vec<u8>, EventRecord>(all_views(s.processed_welcomes.rows@)),
        table_text::<Vec<u8>, Message>(all_views(s.messages.rows@)),
        lines_text::<Message>(all_views(s.message_log@)),
        table_text::<Vec<u8>, EventRecord>(all_views(s.processed_messages.rows@)),
        table_text::<EpochKey, Vec<u8>>(all_views(s.exporter_secrets.rows@)),
    ]
}

/// The snapshot text of the store's indexes: its sections, one per line.
pub open spec fn state_text(s: MdkHybridStorage) -> Seq<u8> {
    join(sections(s), SECTION_SEP)
}

/// The indexes that snapshot text stands for, with an empty engine store;
/// `None` unless it has exactly the sections that `state_text` writes, each
/// well formed.
pub open spec fn parse_state(d: Seq<u8>) -> Option<ProtocolView> {
    let p = split_spec(d, SECTION_SEP);
    if p.len() != 9 {
        None
    } else {
        match (
            parse_table::<Vec<u8>, Group>(p[0]),
            parse_table::<Vec<u8>, Group>(p[1]),
            parse_table::<Vec<u8>, ByteList>(p[2]),
            parse_table::<Vec<u8>, EventRecord>(p[3]),
            parse_table::<Vec<u8>, EventRecord>(p[4]),
            parse_table::<Vec<u8>, Message>(p[5]),
            parse_lines::<Message>(p[6]),
            parse_table::<Vec<u8>, EventRecord>(p[7]),
            parse_table::<EpochKey, Vec<u8>>(p[8]),
        ) {
            (Some(g), Some(n), Some(r), Some(w), Some(pw), Some(m), Some(l), Some(pm), Some(x)) => checked(ProtocolView {
                groups: view_map(g),
                groups_by_nostr_id: view_map(n),
                group_relays: view_map(r),
                welcomes: view_map(w),
                processed_welcomes: view_map(pw),
                messages: view_map(m),
                message_log: l,
                processed_messages: view_map(pm),
                exporter_secrets: view_map(x),
                engine: Map::empty(),
            }),
            _ => None,
        }
    }
}

/// The view, if its indexes fit their records.
pub open spec fn checked(v: ProtocolView) -> Option<ProtocolView> {
    if view_ok(v) {
        Some(v)
    } else {
        None
    }
}

/// Whether the app-id index agrees with the protocol-id index.
fn app_index_ok(groups: &Table<Vec<u8>, Group>, by_app: &Table<Vec<u8>, Group>) -> (r: bool)
    requires
        groups.wf(),
        by_app.wf(),
    ensures
        r == app_index_agrees(groups@, by_app@),
{
    let rows = &by_app.rows;
    let mut i: usize = 0;
    while i < rows.len()
        invariant
            groups.wf(),
            by_app.wf(),
            rows == &by_app.rows,
            0 <= i <= rows@.len(),
            forall|j: int| 0 <= j < i ==> {
                &&& (#[trigger] rows@[j]).1@.nostr_group_id == rows@[j].0@
                &&& rows@[j].0@.len() == 32
                &&& groups@.contains_key(rows@[j].1@.mls_group_id)
                &&& groups@[rows@[j].1@.mls_group_id] == rows@[j].1@
            },
        decreases rows@.len() - i,
    {
        proof {
            crate::table::lemma_rows_map_at(rows@, i as int);
        }
        let k = &rows[i].0;
        let g = &rows[i].1;
        let ok = k.len() == 32 && bytes_eq(g.nostr_group_id.as_slice(), k.as_slice()) && match groups.get(&g.mls_group_id) {
            Some(h) => crate::records::group_eq(h, g),
            None => false,
        };
        if !ok {
            assert(by_app@.contains_key(rows@[i as int].0@));
            return false;
        }
        i = i + 1;
    }
    assert forall|k: Seq<u8>| #[trigger] by_app@.contains_key(k) implies {
        &&& by_app@[k].nostr_group_id == k
        &&& k.len() == 32
        &&& groups@.contains_key(by_app@[k].mls_group_id)
        &&& groups@[by_app@[k].mls_group_id] == by_app@[k]
    } by {
        let j = choose|j: int| 0 <= j < rows@.len() && rows@[j].0@ == k;
        crate::table::lemma_rows_map_at(rows@, j);
        assert(rows@[j].1@.nostr_group_id == rows@[j].0@);
    }
    true
}

/// A snapshot of the indexes reads back as the same indexes: groups under both
/// ids, relay sets, welcomes and markers, messages by id and in saved order,
/// and exporter secrets.
#[verifier::rlimit(50)]
pub proof fn lemma_state_round_trip(s: MdkHybridStorage)
    requires
        s.wf(),
    ensures
        parse_state(state_text(s)) == Some(ProtocolView { engine: Map::empty(), ..s@ }),
{
    lemma_table_round_trip(s.groups);
    lemma_table_round_trip(s.groups_by_nostr_id);
    lemma_table_round_trip(s.group_relays);
    lemma_table_round_trip(s.welcomes);
    lemma_table_round_trip(s.processed_welcomes);
    lemma_table_round_trip(s.messages);
    lemma_lines_round_trip::<Message>(all_views(s.message_log@));
    lemma_table_round_trip(s.processed_messages);
    lemma_table_round_trip(s.exporter_secrets);
    let p = sections(s);
    assert(p.len() == 9);
    assert forall|i: int| 0 <= i < p.len() implies lacks(#[trigger] p[i], SECTION_SEP) by {
        if i == 0 { } else if i == 1 { } else if i == 2 { } else if i == 3 { } else if i == 4 { }
        else if i == 5 { } else if i == 6 { } else if i == 7 { } else { }
    }
    assert forall|i: int, j: int| 0 <= i < p.len() && 0 <= j < p[i].len() implies #[trigger] p[i][j] != SECTION_SEP by {
        assert(lacks(p[i], SECTION_SEP));
    }
    lemma_split_spec(p, SECTION_SEP);
    assert(split_spec(state_text(s), SECTION_SEP) == p);
}

impl MdkHybridStorage {
    /// The snapshot text of the store's indexes.
    pub fn state_snapshot(&self) -> (r: Vec<u8>)
        ensures
            r@ == state_text(*self),
    {
        let mut p: Vec<Vec<u8>> = Vec::new();
        p.push(write_table(&self.groups));
        p.push(write_table(&self.groups_by_nostr_id));
        p.push(write_table(&self.group_relays));
        p.push(write_table(&self.welcomes));
        p.push(write_table(&self.processed_welcomes));
        p.push(write_table(&self.messages));
        p.push(write_lines(&self.message_log));
        p.push(write_table(&self.processed_messages));
        p.push(write_table(&self.exporter_secrets));
        assert(views(p@) =~= sections(*self));
        join_fields(&p, SECTION_SEP)
    }

    /// The indexes that snapshot text stands for, with an empty engine store.
    pub fn read_state(d: &[u8]) -> (r: Option<MdkHybridStorage>)
        ensures
            r is Some <==> parse_state(d@) is Some,
            r matches Some(s) ==> s.wf() && s@ == parse_state(d@)->0,
    {
        let p = split(d, SECTION_SEP);
        proof {
            lemma_split_spec(views(p@), SECTION_SEP);
        }
        if p.len() != 9 {
            return None;
        }
        let groups = read_table::<Vec<u8>, Group>(p[0].as_slice());
        let groups_by_nostr_id = read_table::<Vec<u8>, Group>(p[1].as_slice());
        let group_relays = read_table::<Vec<u8>, ByteList>(p[2].as_slice());
        let welcomes = read_table::<Vec<u8>, EventRecord>(p[3].as_slice());
        let processed_welcomes = read_table::<Vec<u8>, EventRecord>(p[4].as_slice());
        let messages = read_table::<Vec<u8>, Message>(p[5].as_slice());
        let message_log = read_lines::<Message>(p[6].as_slice());
        let processed_messages = read_table::<Vec<u8>, EventRecord>(p[7].as_slice());
        let exporter_secrets = read_table::<EpochKey, Vec<u8>>(p[8].as_slice());
        match (groups, groups_by_nostr_id, group_relays, welcomes, processed_welcomes, messages, message_log, processed_messages, exporter_secrets) {
            (Some(groups), Some(groups_by_nostr_id), Some(group_relays), Some(welcomes), Some(processed_welcomes), Some(messages), Some(message_log), Some(processed_messages), Some(exporter_secrets)) => {
                let r = MdkHybridStorage {
                    groups,
                    groups_by_nostr_id,
                    group_relays,
                    welcomes,
                    processed_welcomes,
                    messages,
                    message_log,
                    processed_messages,
                    exporter_secrets,
                    engine: memory_new(),
                };
                assert(memory_contents(r.engine) =~= Map::<Seq<u8>, Seq<u8>>::empty());
                let ok = r.groups.check_keys() && app_index_ok(&r.groups, &r.groups_by_nostr_id)
                    && r.group_relays.check_keys() && r.welcomes.check_keys() && r.processed_welcomes.check_keys()
                    && r.messages.check_keys() && r.processed_messages.check_keys();
                if ok {
                    Some(r)
                } else {
                    None
                }
            },
            _ => None,
        }
    }
}

/// The snapshot text of an engine store with the given rows: table text, in
/// base64.
pub open spec fn engine_text(rs: Seq<(Seq<u8>, Seq<u8>)>) -> Seq<u8> {
    base64_of(table_text::<Vec<u8>, Vec<u8>>(rs))
}

/// The engine store that snapshot text stands for.
pub open spec fn parse_engine(t: Seq<u8>) -> Option<Map<Seq<u8>, Seq<u8>>> {
    if exists|b: Seq<u8>| base64_of(b) == t {
        let b = choose|b: Seq<u8>| base64_of(b) == t;
        match parse_table::<Vec<u8>, Vec<u8>>(b) {
            Some(rs) => Some(view_map(rs)),
            None => None,
        }
    } else {
        None
    }
}

impl MdkHybridStorage {
    /// The snapshot text of the engine's store, its rows in the order the
    /// store lists them; `None` only when the table text is too long for its
    /// base64 length to fit in a `usize`.
    pub fn engine_snapshot(&self) -> (r: Option<Vec<u8>>)
        ensures
            exists|rs: Seq<(Seq<u8>, Seq<u8>)>| #![trigger view_map(rs)]
                view_keys_unique(rs) && view_map(rs) == self@.engine && (match r {
                    Some(t) => t@ == engine_text(rs),
                    None => table_text::<Vec<u8>, Vec<u8>>(rs).len() > usize::MAX / 2,
                }),
    {
        let table = memory_table(&self.engine);
        proof {
            lemma_row_views(table.rows@);
        }
        let text = write_table(&table);
        let ghost rs = all_views(table.rows@);
        if text.len() > usize::MAX / 2 {
            assert(view_map(rs) == self@.engine);
            None
        } else {
            let r = encode_base64(text.as_slice());
            assert(view_map(rs) == self@.engine);
            Some(r)
        }
    }

    /// The engine store that snapshot text stands for. Text written by
    /// `engine_snapshot` reads back as the same store.
    pub fn read_engine(t: &[u8]) -> (r: Option<MemoryStorage>)
        ensures
            r is Some <==> parse_engine(t@) is Some,
            r matches Some(e) ==> memory_contents(e) == parse_engine(t@)->0,
            forall|rs: Seq<(Seq<u8>, Seq<u8>)>| view_keys_unique(rs) && t@ == #[trigger] engine_text(rs)
                ==> (r matches Some(x) && memory_contents(x) == view_map(rs)),
    {
        match decode_base64(t) {
            Ok(b) => {
                proof {
                    let c = choose|c: Seq<u8>| base64_of(c) == t@;
                    assert(b@ == c);
                    assert forall|rs: Seq<(Seq<u8>, Seq<u8>)>| view_keys_unique(rs) && t@ == #[trigger] engine_text(rs)
                        implies b@ == table_text::<Vec<u8>, Vec<u8>>(rs) && parse_table::<Vec<u8>, Vec<u8>>(b@) == Some(rs) by {
                        lemma_lines_round_trip::<(Vec<u8>, Vec<u8>)>(rs);
                    }
                }
                match read_table::<Vec<u8>, Vec<u8>>(b.as_slice()) {
                    Some(table) => Some(memory_from_table(table)),
                    None => None,
                }
            },
            Err(_) => {
                proof {
                    assert forall|rs: Seq<(Seq<u8>, Seq<u8>)>| view_keys_unique(rs) && t@ == #[trigger] engine_text(rs) implies false by {}
                }
                None
            },
        }
    }
}

/// The indexes that a saved snapshot gives: none when nothing was saved or
/// the text does not read.
pub open spec fn loaded_state(saved: Option<Seq<u8>>) -> ProtocolView {
    match saved {
        Some(d) => match parse_state(d) {
            Some(v) => v,
            None => empty_view(),
        },
        None => empty_view(),
    }
}

/// The engine store that a saved snapshot gives: empty when nothing was saved
/// or the text does not read.
pub open spec fn loaded_engine(saved: Option<Seq<u8>>) -> Map<Seq<u8>, Seq<u8>> {
    match saved {
        Some(t) => match parse_engine(t) {
            Some(m) => m,
            None => Map::empty(),
        },
        None => Map::empty(),
    }
}

/// Snapshot text that does not read gives an empty store, as no text does.
pub proof fn lemma_unreadable_state_is_empty(d: Seq<u8>, t: Seq<u8>)
    ensures
        parse_state(d) is None ==> loaded_state(Some(d)) == empty_view(),
        parse_engine(t) is None ==> loaded_engine(Some(t)) == Map::<Seq<u8>, Seq<u8>>::empty(),
        loaded_state(None) == empty_view(),
{
}

impl MdkHybridStorage {
    /// A store holding what the saved snapshots hold. Text that does not read
    /// counts as no prior state: it never stops the store from starting.
    pub fn new(saved_state: Option<&[u8]>, saved_engine: Option<&[u8]>) -> (r: Self)
        ensures
            r.wf(),
            r@ == (ProtocolView {
                engine: loaded_engine(match saved_engine { Some(t) => Some(t@), None => None }),
                ..loaded_state(match saved_state { Some(d) => Some(d@), None => None })
            }),
    {
        let mut store = match saved_state {
            Some(d) => match Self::read_state(d) {
                Some(s) => s,
                None => Self::empty(),
            },
            None => Self::empty(),
        };
        let engine = match saved_engine {
            Some(t) => match Self::read_engine(t) {
                Some(e) => e,
                None => memory_new(),
            },
            None => memory_new(),
        };
        assert(memory_contents(engine) =~= loaded_engine(match saved_engine { Some(t) => Some(t@), None => None }));
        store.engine = engine;
        store
    }
}

} // verus!
