use spectacles::client::Client;
use spectacles::command::{Command, Reply};
use spectacles::entry::Message;
use spectacles::id::EntryId;
use spectacles::store::MemoryStore;

fn names(list: &[&str]) -> Vec<Vec<u8>> {
    list.iter().map(|s| s.as_bytes().to_vec()).collect()
}

fn initialize(store: &mut MemoryStore, client: &Client, events: &Vec<Vec<u8>>, now: u64) {
    for cmd in client.ensure_events(events) {
        let reply = store.execute(cmd, now);
        Client::group_ensured(&reply).unwrap();
    }
}

fn publish(store: &mut MemoryStore, client: &Client, event: &str, data: &str, now: u64) -> EntryId {
    let cmd = client.publish(&event.as_bytes().to_vec(), &data.as_bytes().to_vec());
    Client::published(&store.execute(cmd, now)).unwrap()
}

fn read(store: &mut MemoryStore, client: &Client, events: &Vec<Vec<u8>>, now: u64) -> Vec<Message> {
    let reply = store.execute(client.xreadgroup(events), now);
    client.get_messages(&reply).unwrap()
}

fn reclaim(store: &mut MemoryStore, client: &mut Client, event: &str, now: u64) -> Vec<Message> {
    let event = event.as_bytes().to_vec();
    let reply = store.execute(client.xautoclaim(&event), now);
    client.autoclaim_event(&event, &reply).unwrap()
}

fn ack(store: &mut MemoryStore, message: &Message, now: u64) -> u64 {
    Client::acked(&store.execute(message.ack(), now)).unwrap()
}

#[test]
fn publish_then_consume_in_append_order() {
    let mut store = MemoryStore::new();
    let client = Client::with_name(b"workers".to_vec(), b"c1".to_vec());
    let events = names(&["orders"]);
    initialize(&mut store, &client, &events, 1);
    let a = publish(&mut store, &client, "orders", "a", 100);
    let b = publish(&mut store, &client, "orders", "b", 100);
    assert!(a < b);
    let messages = read(&mut store, &client, &events, 101);
    assert_eq!(messages.len(), 2);
    assert_eq!(messages[0].id, a);
    assert_eq!(messages[1].id, b);
    assert_eq!(messages[0].data(), Some(b"a".to_vec()));
    assert_eq!(messages[1].data(), Some(b"b".to_vec()));
    assert_eq!(messages[0].event(), &b"orders".to_vec());
    assert!(messages[0].id.is_before(&messages[1].id));
}

#[test]
fn unacknowledged_entry_is_reclaimed_by_fresh_client() {
    let mut store = MemoryStore::new();
    let first = Client::with_name(b"workers".to_vec(), b"c1".to_vec());
    let events = names(&["orders"]);
    initialize(&mut store, &first, &events, 1);
    let id = publish(&mut store, &first, "orders", "a", 100);
    let claimed = read(&mut store, &first, &events, 200);
    assert_eq!(claimed.len(), 1);
    let mut second = Client::with_name(b"workers".to_vec(), b"c2".to_vec());
    let again = reclaim(&mut store, &mut second, "orders", 200 + 10_000);
    assert_eq!(again.len(), 1);
    assert_eq!(again[0].id, id);
    assert_eq!(again[0].data(), Some(b"a".to_vec()));
    assert_eq!(store.pending[0].consumer, b"c2".to_vec());
    assert_eq!(store.pending[0].deliveries, 2);
}

#[test]
fn second_initialize_succeeds() {
    let mut store = MemoryStore::new();
    let client = Client::with_name(b"workers".to_vec(), b"c1".to_vec());
    let events = names(&["orders"]);
    initialize(&mut store, &client, &events, 1);
    let once = format!("{:?}", store);
    for cmd in client.ensure_events(&events) {
        let reply = store.execute(cmd, 2);
        assert!(matches!(reply, Reply::Error(_)));
        assert!(Client::group_ensured(&reply).is_ok());
    }
    assert_eq!(format!("{:?}", store), once);
}

#[test]
fn acknowledged_entry_is_not_redelivered() {
    let mut store = MemoryStore::new();
    let client = Client::with_name(b"workers".to_vec(), b"c1".to_vec());
    let events = names(&["orders"]);
    initialize(&mut store, &client, &events, 1);
    publish(&mut store, &client, "orders", "a", 100);
    let claimed = read(&mut store, &client, &events, 200);
    assert_eq!(ack(&mut store, &claimed[0], 201), 1);
    let mut other = Client::with_name(b"workers".to_vec(), b"c2".to_vec());
    assert!(reclaim(&mut store, &mut other, "orders", 50_000).is_empty());
    assert!(read(&mut store, &other, &events, 50_001).is_empty());
    assert_eq!(ack(&mut store, &claimed[0], 50_002), 0);
}

#[test]
fn new_entries_are_delivered_once() {
    let mut store = MemoryStore::new();
    let one = Client::with_name(b"workers".to_vec(), b"c1".to_vec());
    let mut two = Client::with_name(b"workers".to_vec(), b"c2".to_vec());
    let events = names(&["orders"]);
    initialize(&mut store, &one, &events, 1);
    publish(&mut store, &one, "orders", "a", 100);
    publish(&mut store, &one, "orders", "b", 101);
    assert_eq!(read(&mut store, &one, &events, 102).len(), 2);
    assert!(read(&mut store, &two, &events, 103).is_empty());
    assert!(read(&mut store, &one, &events, 104).is_empty());
    assert!(reclaim(&mut store, &mut two, "orders", 102 + 9_999).is_empty());
}

#[test]
fn reads_are_batched_and_resume() {
    let mut store = MemoryStore::new();
    let client = Client::with_name(b"workers".to_vec(), b"c1".to_vec());
    let events = names(&["orders"]);
    initialize(&mut store, &client, &events, 1);
    for i in 0..12u64 {
        publish(&mut store, &client, "orders", "x", 100 + i);
    }
    let first = read(&mut store, &client, &events, 200);
    assert_eq!(first.len(), 10);
    let second = read(&mut store, &client, &events, 201);
    assert_eq!(second.len(), 2);
    assert!(first[9].id < second[0].id);
    assert_eq!(second[1].id, EntryId { ms: 111, seq: 0 });
}

#[test]
fn reads_several_streams_in_order() {
    let mut store = MemoryStore::new();
    let client = Client::with_name(b"workers".to_vec(), b"c1".to_vec());
    let events = names(&["orders", "users", "orders"]);
    initialize(&mut store, &client, &events, 1);
    publish(&mut store, &client, "users", "u", 10);
    publish(&mut store, &client, "orders", "o", 11);
    let messages = read(&mut store, &client, &events, 20);
    assert_eq!(messages.len(), 2);
    assert_eq!(messages[0].event, b"orders".to_vec());
    assert_eq!(messages[1].event, b"users".to_vec());
}

#[test]
fn groups_created_at_the_tail_skip_older_entries() {
    let mut store = MemoryStore::new();
    let client = Client::with_name(b"workers".to_vec(), b"c1".to_vec());
    let events = names(&["orders"]);
    publish(&mut store, &client, "orders", "old", 5);
    initialize(&mut store, &client, &events, 6);
    publish(&mut store, &client, "orders", "new", 7);
    let messages = read(&mut store, &client, &events, 8);
    assert_eq!(messages.len(), 1);
    assert_eq!(messages[0].data(), Some(b"new".to_vec()));
}

#[test]
fn reclaim_cursor_follows_the_store() {
    let mut store = MemoryStore::new();
    let client = Client::with_name(b"workers".to_vec(), b"c1".to_vec());
    let events = names(&["orders"]);
    initialize(&mut store, &client, &events, 1);
    for i in 0..12u64 {
        publish(&mut store, &client, "orders", "x", 100 + i);
    }
    assert_eq!(read(&mut store, &client, &events, 200).len(), 10);
    assert_eq!(read(&mut store, &client, &events, 200).len(), 2);
    let mut other = Client::with_name(b"workers".to_vec(), b"c2".to_vec());
    let first = reclaim(&mut store, &mut other, "orders", 20_000);
    assert_eq!(first.len(), 10);
    assert!(first.windows(2).all(|w| w[0].id < w[1].id));
    assert_eq!(other.last_autoclaim, EntryId { ms: 110, seq: 0 });
    let rest = reclaim(&mut store, &mut other, "orders", 20_001);
    assert_eq!(rest.len(), 2);
    assert_eq!(other.last_autoclaim, EntryId { ms: 0, seq: 0 });
}

#[test]
fn reading_without_a_group_fails() {
    let mut store = MemoryStore::new();
    let client = Client::with_name(b"workers".to_vec(), b"c1".to_vec());
    let reply = store.execute(client.xreadgroup(&names(&["orders"])), 1);
    assert!(matches!(reply, Reply::Error(_)));
    assert!(client.get_messages(&reply).is_err());
    let reply = store.execute(client.xautoclaim(&b"orders".to_vec()), 1);
    assert!(matches!(reply, Reply::Error(_)));
}

#[test]
fn store_ids_follow_the_clock() {
    let mut store = MemoryStore::new();
    let client = Client::with_name(b"workers".to_vec(), b"c1".to_vec());
    assert_eq!(publish(&mut store, &client, "s", "a", 0), EntryId { ms: 0, seq: 1 });
    assert_eq!(publish(&mut store, &client, "s", "b", 7), EntryId { ms: 7, seq: 0 });
    assert_eq!(publish(&mut store, &client, "s", "c", 7), EntryId { ms: 7, seq: 1 });
    assert_eq!(publish(&mut store, &client, "s", "d", 3), EntryId { ms: 7, seq: 2 });
    assert_eq!(publish(&mut store, &client, "t", "e", 3), EntryId { ms: 3, seq: 0 });
}

#[test]
fn exhausted_ids_are_refused() {
    let mut store = MemoryStore::new();
    let client = Client::with_name(b"workers".to_vec(), b"c1".to_vec());
    publish(&mut store, &client, "s", "a", 9);
    store.entries[0].entry.id = EntryId { ms: 9, seq: u64::MAX };
    let reply = store.execute(client.publish(&b"s".to_vec(), &b"b".to_vec()), 9);
    assert!(matches!(reply, Reply::Error(_)));
    assert_eq!(store.entries.len(), 1);
    let reply = store.execute(client.publish(&b"s".to_vec(), &b"b".to_vec()), 10);
    assert!(matches!(reply, Reply::Added(EntryId { ms: 10, seq: 0 })));
}

#[test]
fn acknowledging_unknown_entry_counts_zero() {
    let mut store = MemoryStore::new();
    let cmd = Command::Ack {
        stream: b"s".to_vec(),
        group: b"g".to_vec(),
        id: EntryId { ms: 1, seq: 0 },
    };
    assert!(matches!(store.execute(cmd, 1), Reply::Acked(0)));
}
