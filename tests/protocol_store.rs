use hybrid_store::{EventRecord, ExporterSecret, Group, MdkHybridStorage, Message};

fn group(mls: &[u8], nostr: &[u8], admins: Vec<Vec<u8>>) -> Group {
    Group { mls_group_id: mls.to_vec(), nostr_group_id: nostr.to_vec(), admin_pubkeys: admins, body: b"{\"name\":\"g\"}".to_vec() }
}

fn message(id: u8, gid: &[u8]) -> Message {
    Message { id: vec![id; 32], mls_group_id: gid.to_vec(), body: vec![id, 0, 10, 32, 59] }
}

fn welcome(id: u8) -> EventRecord {
    EventRecord { event_id: vec![id; 32], body: vec![id] }
}

fn app_id(tag: &[u8]) -> Vec<u8> {
    let mut id = vec![0u8; 32];
    id[..tag.len()].copy_from_slice(tag);
    id
}

fn ids(ms: &[Message]) -> Vec<Vec<u8>> {
    ms.iter().map(|m| m.id.clone()).collect()
}

#[test]
fn messages_keep_order_across_reload() {
    let mut store = MdkHybridStorage::new(None, None);
    store.save_group(group(b"p1", &app_id(b"a1"), vec![vec![7; 32]]));
    store.save_message(message(1, b"p1"));
    store.save_message(message(2, b"p1"));
    store.save_message(message(3, b"p1"));
    let state = store.state_snapshot();
    let engine = store.engine_snapshot().unwrap();
    let reloaded = MdkHybridStorage::new(Some(&state), Some(&engine));
    let ms = reloaded.messages(&b"p1".to_vec());
    assert_eq!(ids(&ms), vec![vec![1u8; 32], vec![2u8; 32], vec![3u8; 32]]);
    assert_eq!(ms[1].body, vec![2, 0, 10, 32, 59]);
}

#[test]
fn messages_of_other_groups_and_unknown_groups() {
    let mut store = MdkHybridStorage::new(None, None);
    store.save_message(message(1, b"g1"));
    store.save_message(message(2, b"g2"));
    store.save_message(message(3, b"g1"));
    assert_eq!(ids(&store.messages(&b"g1".to_vec())), vec![vec![1u8; 32], vec![3u8; 32]]);
    assert!(store.messages(&b"zz".to_vec()).is_empty());
    assert_eq!(store.find_message_by_event_id(&vec![2; 32]).unwrap().mls_group_id, b"g2".to_vec());
    assert!(store.find_message_by_event_id(&vec![9; 32]).is_none());
}

#[test]
fn group_found_by_both_ids() {
    let mut store = MdkHybridStorage::new(None, None);
    store.save_group(group(b"g1", &[1; 32], vec![vec![5; 32], vec![6; 32]]));
    let a = store.find_group_by_mls_group_id(&b"g1".to_vec()).unwrap();
    let b = store.find_group_by_nostr_group_id(&vec![1; 32]).unwrap();
    assert_eq!(a.mls_group_id, b.mls_group_id);
    assert_eq!(a.nostr_group_id, b.nostr_group_id);
    assert_eq!(a.admin_pubkeys, b.admin_pubkeys);
    assert_eq!(store.admins(&b"g1".to_vec()), vec![vec![5u8; 32], vec![6u8; 32]]);
    assert!(store.admins(&b"g2".to_vec()).is_empty());
    assert_eq!(store.all_groups().len(), 1);
    assert!(store.find_group_by_mls_group_id(&b"g2".to_vec()).is_none());
}

#[test]
fn saving_a_group_again_replaces_it() {
    let mut store = MdkHybridStorage::new(None, None);
    store.save_group(group(b"g1", &[1; 32], vec![]));
    store.save_group(group(b"g1", &[1; 32], vec![vec![3; 32]]));
    assert_eq!(store.all_groups().len(), 1);
    assert_eq!(store.admins(&b"g1".to_vec()), vec![vec![3u8; 32]]);
}

#[test]
fn pending_welcomes_leave_out_marked_ones() {
    let mut store = MdkHybridStorage::new(None, None);
    store.save_welcome(welcome(1));
    store.save_welcome(welcome(2));
    store.save_welcome(welcome(3));
    store.save_processed_welcome(EventRecord { event_id: vec![2; 32], body: vec![] });
    let mut pending: Vec<Vec<u8>> = store.pending_welcomes().into_iter().map(|w| w.event_id).collect();
    pending.sort();
    assert_eq!(pending, vec![vec![1u8; 32], vec![3u8; 32]]);
    assert!(store.find_processed_welcome_by_event_id(&vec![2; 32]).is_some());
    assert!(store.find_welcome_by_event_id(&vec![2; 32]).is_some());
    assert!(store.find_welcome_by_event_id(&vec![4; 32]).is_none());
}

#[test]
fn relays_are_replaced_not_merged() {
    let mut store = MdkHybridStorage::new(None, None);
    store.replace_group_relays(&b"g1".to_vec(), vec![b"wss://a".to_vec(), b"wss://b".to_vec()]);
    store.replace_group_relays(&b"g1".to_vec(), vec![b"wss://c".to_vec(), b"wss://c".to_vec()]);
    assert_eq!(store.group_relays(&b"g1".to_vec()), vec![b"wss://c".to_vec()]);
    assert!(store.group_relays(&b"g2".to_vec()).is_empty());
}

#[test]
fn exporter_secrets_by_group_and_epoch_survive_reload() {
    let mut store = MdkHybridStorage::new(None, None);
    store.save_group_exporter_secret(ExporterSecret { mls_group_id: b"g1".to_vec(), epoch: 7, secret: vec![9; 32] });
    store.save_group_exporter_secret(ExporterSecret { mls_group_id: b"g1".to_vec(), epoch: 7, secret: vec![8; 32] });
    store.save_group_exporter_secret(ExporterSecret { mls_group_id: b"g1".to_vec(), epoch: u64::MAX, secret: vec![1] });
    let state = store.state_snapshot();
    let text = String::from_utf8(state.clone()).unwrap();
    assert!(text.contains("6731:7"));
    assert!(text.contains("6731:18446744073709551615"));
    let reloaded = MdkHybridStorage::new(Some(&state), None);
    assert_eq!(reloaded.get_group_exporter_secret(&b"g1".to_vec(), 7).unwrap().secret, vec![8; 32]);
    assert_eq!(reloaded.get_group_exporter_secret(&b"g1".to_vec(), u64::MAX).unwrap().secret, vec![1]);
    assert!(reloaded.get_group_exporter_secret(&b"g1".to_vec(), 8).is_none());
}

#[test]
fn processed_messages_survive_reload() {
    let mut store = MdkHybridStorage::new(None, None);
    store.save_processed_message(EventRecord { event_id: vec![4; 32], body: b"done".to_vec() });
    let state = store.state_snapshot();
    let reloaded = MdkHybridStorage::new(Some(&state), None);
    assert_eq!(reloaded.find_processed_message_by_event_id(&vec![4; 32]).unwrap().body, b"done".to_vec());
    assert!(reloaded.find_processed_message_by_event_id(&vec![5; 32]).is_none());
}

#[test]
fn snapshot_keys_are_hex() {
    let mut store = MdkHybridStorage::new(None, None);
    store.save_group(group(&[0xab, 0x00, 0x0a], &[0xff; 32], vec![]));
    let text = String::from_utf8(store.state_snapshot()).unwrap();
    assert!(text.contains("ab000a"));
    assert!(text.contains("ffff"));
}

#[test]
fn corrupt_snapshots_give_an_empty_store() {
    let store = MdkHybridStorage::new(Some(b"not a snapshot"), Some(b"@@@"));
    assert!(store.all_groups().is_empty());
    assert!(store.engine_get(&b"k".to_vec()).is_none());
    let odd_hex = b";abc 00\n\n\n\n\n\n\n\n";
    let store = MdkHybridStorage::new(Some(odd_hex), None);
    assert!(store.all_groups().is_empty());
    let bad_pair = b"\n\n\n\n\n\n\n\n;6731-07 01";
    let store = MdkHybridStorage::new(Some(bad_pair), None);
    assert!(store.get_group_exporter_secret(&b"g1".to_vec(), 7).is_none());
    let good_pair = b"\n\n\n\n\n\n\n\n;6731:7 01";
    let store = MdkHybridStorage::new(Some(good_pair), None);
    assert_eq!(store.get_group_exporter_secret(&b"g1".to_vec(), 7).unwrap().secret, vec![1]);
    let duplicate_keys = b"\n\n\n\n\n\n\n\n;6731:7 01;6731:7 02";
    let store = MdkHybridStorage::new(Some(duplicate_keys), None);
    assert!(store.get_group_exporter_secret(&b"g1".to_vec(), 7).is_none());
}

#[test]
fn engine_store_round_trips_any_bytes() {
    let mut store = MdkHybridStorage::new(None, None);
    store.engine_set(vec![0, 1, 2, b'\n', b' '], vec![255, 0, b';']);
    store.engine_set(b"prefix/a".to_vec(), b"1".to_vec());
    store.engine_set(b"prefix/b".to_vec(), b"2".to_vec());
    store.engine_set(b"other".to_vec(), Vec::new());
    store.engine_delete(&b"other".to_vec());
    let engine = store.engine_snapshot().unwrap();
    let text = String::from_utf8(engine.clone()).unwrap();
    assert!(!text.contains(';'));
    let reloaded = MdkHybridStorage::new(None, Some(&engine));
    assert_eq!(reloaded.engine_get(&vec![0, 1, 2, b'\n', b' ']), Some(vec![255, 0, b';']));
    assert!(reloaded.engine_get(&b"other".to_vec()).is_none());
    let mut keys = reloaded.engine_keys_with_prefix(&b"prefix/".to_vec());
    keys.sort();
    assert_eq!(keys, vec![b"prefix/a".to_vec(), b"prefix/b".to_vec()]);
}

#[test]
fn empty_store_snapshot_reloads_empty() {
    let store = MdkHybridStorage::new(None, None);
    let state = store.state_snapshot();
    assert_eq!(state, b"\n\n\n\n\n\n\n\n".to_vec());
    let reloaded = MdkHybridStorage::new(Some(&state), None);
    assert!(reloaded.all_groups().is_empty());
}

#[test]
fn resaving_with_a_new_app_id_drops_the_old_entry() {
    let mut store = MdkHybridStorage::new(None, None);
    store.save_group(group(b"g1", &[1; 32], vec![]));
    store.save_group(group(b"g1", &[2; 32], vec![vec![9; 32]]));
    assert!(store.find_group_by_nostr_group_id(&vec![1; 32]).is_none());
    assert_eq!(store.find_group_by_nostr_group_id(&vec![2; 32]).unwrap().admin_pubkeys, vec![vec![9u8; 32]]);
    assert_eq!(store.find_group_by_mls_group_id(&b"g1".to_vec()).unwrap().nostr_group_id, vec![2u8; 32]);
    let reloaded = MdkHybridStorage::new(Some(&store.state_snapshot()), None);
    assert!(reloaded.find_group_by_nostr_group_id(&vec![1; 32]).is_none());
    assert_eq!(reloaded.all_groups().len(), 1);
}

#[test]
fn a_shared_app_id_keeps_the_other_group_entry() {
    let mut store = MdkHybridStorage::new(None, None);
    store.save_group(group(b"g1", &[1; 32], vec![]));
    store.save_group(group(b"g2", &[1; 32], vec![]));
    store.save_group(group(b"g1", &[3; 32], vec![]));
    assert_eq!(store.find_group_by_nostr_group_id(&vec![1; 32]).unwrap().mls_group_id, b"g2".to_vec());
    assert_eq!(store.find_group_by_nostr_group_id(&vec![3; 32]).unwrap().mls_group_id, b"g1".to_vec());
}

#[test]
fn snapshots_with_bad_lengths_or_duplicates_are_refused() {
    let mut store = MdkHybridStorage::new(None, None);
    store.save_group(group(b"g1", &[1; 32], vec![]));
    store.replace_group_relays(&b"g1".to_vec(), vec![b"wss://a".to_vec()]);
    let text = String::from_utf8(store.state_snapshot()).unwrap();
    let short_app_id = text.replace(&"01".repeat(32), &"01".repeat(31));
    let loaded = MdkHybridStorage::new(Some(short_app_id.as_bytes()), None);
    assert!(loaded.all_groups().is_empty());
    let relay_hex: String = b"wss://a".iter().map(|b| format!("{:02x}", b)).collect();
    let doubled = text.replace(&relay_hex, &format!("{} {}", relay_hex, relay_hex));
    let loaded = MdkHybridStorage::new(Some(doubled.as_bytes()), None);
    assert!(loaded.all_groups().is_empty());
    let loaded = MdkHybridStorage::new(Some(text.as_bytes()), None);
    assert_eq!(loaded.all_groups().len(), 1);
    assert_eq!(loaded.group_relays(&b"g1".to_vec()), vec![b"wss://a".to_vec()]);
}

#[test]
fn pending_welcomes_after_resaving_and_other_markers() {
    let mut store = MdkHybridStorage::new(None, None);
    store.save_welcome(welcome(1));
    store.save_welcome(EventRecord { event_id: vec![1; 32], body: b"new".to_vec() });
    store.save_processed_welcome(EventRecord { event_id: vec![5; 32], body: vec![] });
    let pending = store.pending_welcomes();
    assert_eq!(pending.len(), 1);
    assert_eq!(pending[0].body, b"new".to_vec());
}
