use spectacles::client::{Client, ClientError};
use spectacles::command::{
    AUTOCLAIM_INTERVAL_MS, BLOCK_INTERVAL_MS, Command, MAX_CHUNK, MIN_IDLE_TIME_MS, Reply,
};
use spectacles::entry::{Entry, Field, Message, StreamEntries};
use spectacles::id::EntryId;

fn words(args: &[&str]) -> Vec<Vec<u8>> {
    args.iter().map(|s| s.as_bytes().to_vec()).collect()
}

fn client() -> Client {
    Client::with_name(b"workers".to_vec(), b"c1".to_vec())
}

#[test]
fn entry_id_text() {
    assert_eq!(EntryId { ms: 1526919030474, seq: 55 }.to_text(), b"1526919030474-55".to_vec());
    assert_eq!(EntryId::zero().to_text(), b"0-0".to_vec());
    assert_eq!(EntryId { ms: u64::MAX, seq: 10 }.to_text(), b"18446744073709551615-10".to_vec());
}

#[test]
fn entry_id_order() {
    let a = EntryId { ms: 5, seq: 9 };
    let b = EntryId { ms: 6, seq: 0 };
    let c = EntryId { ms: 6, seq: 1 };
    assert!(a.is_before(&b));
    assert!(b.is_before(&c));
    assert!(!c.is_before(&b));
    assert!(!b.is_before(&b));
}

#[test]
fn publish_command_wire_form() {
    let cmd = client().publish(&b"orders".to_vec(), &b"payload".to_vec());
    assert_eq!(cmd.args(), words(&["XADD", "orders", "*", "data", "payload"]));
}

#[test]
fn publish_timeout_command_wire_form() {
    let cmd = client().publish_timeout(&b"orders".to_vec(), &b"p".to_vec(), 1_700_000_000_123_456_789);
    assert_eq!(
        cmd.args(),
        words(&["XADD", "orders", "*", "data", "p", "timeout_at", "1700000000123456789"])
    );
}

#[test]
fn group_creation_wire_form() {
    let cmds = client().ensure_events(&words(&["orders", "users"]));
    assert_eq!(cmds.len(), 2);
    assert_eq!(cmds[0].args(), words(&["XGROUP", "CREATE", "orders", "workers", "$", "MKSTREAM"]));
    assert_eq!(cmds[1].args(), words(&["XGROUP", "CREATE", "users", "workers", "$", "MKSTREAM"]));
}

#[test]
fn read_wire_form() {
    let cmd = client().xreadgroup(&words(&["orders", "users"]));
    assert_eq!(
        cmd.args(),
        words(&[
            "XREADGROUP", "GROUP", "workers", "c1", "COUNT", "10", "BLOCK", "5000", "STREAMS",
            "orders", "users", ">", ">",
        ])
    );
}

#[test]
fn autoclaim_wire_form() {
    let mut c = client();
    c.last_autoclaim = EntryId { ms: 17, seq: 3 };
    let cmd = c.xautoclaim(&b"orders".to_vec());
    assert_eq!(
        cmd.args(),
        words(&["XAUTOCLAIM", "orders", "workers", "c1", "10000", "17-3", "COUNT", "10"])
    );
}

#[test]
fn ack_wire_form() {
    let m = Message {
        id: EntryId { ms: 4, seq: 2 },
        event: b"orders".to_vec(),
        group: b"workers".to_vec(),
        fields: vec![],
    };
    assert_eq!(m.ack().args(), words(&["XACK", "orders", "workers", "4-2"]));
}

#[test]
fn fixed_configuration() {
    assert_eq!(MAX_CHUNK, 10);
    assert_eq!(BLOCK_INTERVAL_MS, 5000);
    assert_eq!(MIN_IDLE_TIME_MS, 10000);
    assert_eq!(AUTOCLAIM_INTERVAL_MS, 5000);
    assert_eq!(client().autoclaim_interval_ms(), 5000);
}

#[test]
fn random_consumer_names() {
    let a = Client::new(b"workers".to_vec());
    let b = Client::new(b"workers".to_vec());
    assert_eq!(a.name.len(), 21);
    assert!(a.name.iter().all(|c| c.is_ascii_alphanumeric() || *c == b'_' || *c == b'-'));
    assert_ne!(a.name, b.name);
    assert_eq!(a.group, b"workers".to_vec());
    assert_eq!(a.last_autoclaim, EntryId::zero());
}

#[test]
fn busy_group_is_success() {
    assert!(Client::group_ensured(&Reply::Done).is_ok());
    let busy = Reply::Error(b"BUSYGROUP Consumer Group name already exists".to_vec());
    assert!(Client::group_ensured(&busy).is_ok());
}

#[test]
fn other_group_errors_propagate() {
    let err = Reply::Error(b"WRONGTYPE Operation against a key".to_vec());
    match Client::group_ensured(&err) {
        Err(ClientError::Transport(m)) => assert_eq!(m, b"WRONGTYPE Operation against a key".to_vec()),
        other => panic!("unexpected {:?}", other),
    }
    assert!(matches!(Client::group_ensured(&Reply::Acked(1)), Err(ClientError::Protocol)));
    assert!(matches!(Client::group_ensured(&Reply::Error(b"BUSY".to_vec())), Err(ClientError::Transport(_))));
}

#[test]
fn published_reply() {
    let id = EntryId { ms: 3, seq: 1 };
    assert_eq!(Client::published(&Reply::Added(id)).unwrap(), id);
    assert!(matches!(Client::published(&Reply::Done), Err(ClientError::Protocol)));
    assert!(matches!(
        Client::published(&Reply::Error(b"ERR".to_vec())),
        Err(ClientError::Transport(_))
    ));
}

#[test]
fn acked_reply() {
    assert_eq!(Client::acked(&Reply::Acked(1)).unwrap(), 1);
    assert!(matches!(Client::acked(&Reply::Done), Err(ClientError::Protocol)));
}

fn entry(ms: u64, data: &str) -> Entry {
    Entry {
        id: EntryId { ms, seq: 0 },
        fields: vec![Field::new(b"data".to_vec(), data.as_bytes().to_vec())],
    }
}

#[test]
fn messages_of_a_read() {
    let reply = Reply::Read(vec![
        StreamEntries { stream: b"a".to_vec(), entries: vec![entry(1, "x"), entry(2, "y")] },
        StreamEntries { stream: b"b".to_vec(), entries: vec![entry(3, "z")] },
    ]);
    let ms = client().get_messages(&reply).unwrap();
    assert_eq!(ms.len(), 3);
    assert_eq!(ms[0].event, b"a".to_vec());
    assert_eq!(ms[1].id, EntryId { ms: 2, seq: 0 });
    assert_eq!(ms[2].event, b"b".to_vec());
    assert_eq!(ms[2].data(), Some(b"z".to_vec()));
    assert_eq!(ms[2].group, b"workers".to_vec());
    assert!(client().get_messages(&Reply::Read(vec![])).unwrap().is_empty());
    assert!(matches!(client().get_messages(&Reply::Done), Err(ClientError::Protocol)));
}

#[test]
fn reclaim_moves_the_cursor() {
    let mut c = client();
    let reply = Reply::Claimed { cursor: EntryId { ms: 9, seq: 4 }, entries: vec![entry(1, "x")] };
    let ms = c.autoclaim_event(&b"a".to_vec(), &reply).unwrap();
    assert_eq!(ms.len(), 1);
    assert_eq!(ms[0].event, b"a".to_vec());
    assert_eq!(c.last_autoclaim, EntryId { ms: 9, seq: 4 });
    let failed = c.autoclaim_event(&b"a".to_vec(), &Reply::Error(b"NOGROUP".to_vec()));
    assert!(matches!(failed, Err(ClientError::Transport(_))));
    assert_eq!(c.last_autoclaim, EntryId { ms: 9, seq: 4 });
}

#[test]
fn message_without_data() {
    let m = Message {
        id: EntryId::zero(),
        event: b"a".to_vec(),
        group: b"g".to_vec(),
        fields: vec![Field::new(b"timeout_at".to_vec(), b"5".to_vec())],
    };
    assert_eq!(m.data(), None);
}

#[test]
fn command_kinds() {
    let cmd = client().xreadgroup(&words(&["s"]));
    assert!(matches!(cmd, Command::ReadGroup { count: 10, block_ms: 5000, .. }));
}
