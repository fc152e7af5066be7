//! The consumer-group client: which commands to send, and what each reply means.
//!
//! The client performs no I/O. The caller sends each [`Command`] it returns to the store
//! and hands the store's [`Reply`] back to the matching method.

use vstd::prelude::*;
use crate::command::{
    AUTOCLAIM_INTERVAL_MS, BLOCK_INTERVAL_MS, Command, MAX_CHUNK, MIN_IDLE_TIME_MS, Reply,
    bytes_list,
};
use crate::entry::{
    Entry, Field, Message, StreamEntries, copy_bytes, copy_fields, data_key, data_key_bytes,
    fields_view, is_prefix, starts_with, timeout_key, timeout_key_bytes,
};
use crate::id::{EntryId, decimal, push_decimal};

verus! {

/// Whether `c` belongs to the URL-safe alphabet: `_`, `-`, digits and ASCII letters.
pub open spec fn url_safe(c: char) -> bool {
    c == '_' || c == '-' || ('0' <= c && c <= '9') || ('a' <= c && c <= 'z') || ('A' <= c
        && c <= 'Z')
}

/// Whether the byte `b` is `_`, `-`, an ASCII digit or an ASCII letter.
pub open spec fn url_safe_byte(b: u8) -> bool {
    b == 95u8 || b == 45u8 || (48u8 <= b <= 57u8) || (97u8 <= b <= 122u8) || (65u8 <= b <= 90u8)
}

/// Relies on nanoid::format: a string of `size` characters, each taken from `alphabet`
/// (here the 64-character URL-safe alphabet and the default random source).
#[verifier::external_body]
fn random_name() -> (r: String)
    ensures
        r@.len() == 21,
        forall|i: int| 0 <= i < 21 ==> url_safe(#[trigger] r@[i]),
{
    nanoid::format(nanoid::rngs::default, &nanoid::alphabet::SAFE, 21)
}

/// Why a store operation failed.
#[derive(Debug)]
pub enum ClientError {
    /// The store refused the command; the store's message.
    Transport(Vec<u8>),
    /// The store answered with a reply of the wrong kind.
    Protocol,
}

/// The message a store answers with when a group already exists.
pub open spec fn busy_group_prefix() -> Seq<u8> {
    seq![66u8, 85, 83, 89, 71, 82, 79, 85, 80]
}

/// Whether a reply to group creation counts as success: done, or the group exists already.
pub open spec fn group_accepted(r: Reply) -> bool {
    match r {
        Reply::Done => true,
        Reply::Error(m) => is_prefix(busy_group_prefix(), m@),
        _ => false,
    }
}

/// A message as its stream, id and fields.
pub type MessageView = (Seq<u8>, EntryId, Seq<(Seq<u8>, Seq<u8>)>);

/// The messages for `es`, read from `stream`.
pub open spec fn entries_view(stream: Seq<u8>, es: Seq<Entry>) -> Seq<MessageView> {
    es.map_values(|e: Entry| (stream, e.id, fields_view(e.fields@)))
}

/// The messages for a read, stream after stream, each in the order the store gave.
pub open spec fn read_view(v: Seq<StreamEntries>) -> Seq<MessageView>
    decreases v.len(),
{
    if v.len() == 0 {
        Seq::empty()
    } else {
        read_view(v.drop_last()) + entries_view(v.last().stream@, v.last().entries@)
    }
}

/// Messages as stream, id and fields.
pub open spec fn message_list(ms: Seq<Message>) -> Seq<MessageView> {
    ms.map_values(|m: Message| (m.event@, m.id, fields_view(m.fields@)))
}

/// The error for a reply that is not the expected kind.
pub open spec fn failure(r: Reply, e: ClientError) -> bool {
    match r {
        Reply::Error(m) => e matches ClientError::Transport(x) && x@ == m@,
        _ => e matches ClientError::Protocol,
    }
}

fn failure_of(r: &Reply) -> (e: ClientError)
    ensures
        failure(*r, e),
{
    match r {
        Reply::Error(m) => ClientError::Transport(copy_bytes(m)),
        _ => ClientError::Protocol,
    }
}

/// One consumer of one consumer group.
#[derive(Debug)]
pub struct Client {
    /// This consumer's name, unique to the process.
    pub name: Vec<u8>,
    /// The consumer group.
    pub group: Vec<u8>,
    /// Where the next reclaim scan starts, shared by every stream's reclaim loop.
    pub last_autoclaim: EntryId,
}

impl Client {
    /// A client for `group` under a fresh random consumer name.
    pub fn new(group: Vec<u8>) -> (r: Client)
        ensures
            r.group@ == group@,
            r.name@.len() == 21,
            forall|i: int| 0 <= i < r.name@.len() ==> url_safe_byte(#[trigger] r.name@[i]),
            r.last_autoclaim == EntryId::zero_spec(),
    {
        let name = random_name();
        let text: &str = name.as_str();
        let bytes = text.as_bytes_vec();
        proof {
            assert(vstd::string::is_ascii(text)) by {
                assert forall|i: int| 0 <= i < text@.len() implies (text@[i] as u32) < 128 by {
                    assert(url_safe(name@[i]));
                }
            }
            vstd::string::is_ascii_spec_bytes(text);
            assert forall|i: int| 0 <= i < bytes@.len() implies url_safe_byte(#[trigger] bytes@[i]) by {
                assert(url_safe(name@[i]));
                assert(bytes@[i] == text@[i] as u8);
            }
        }
        Client { name: bytes, group, last_autoclaim: EntryId::zero() }
    }

    /// A client for `group` under the consumer name `name`.
    pub fn with_name(group: Vec<u8>, name: Vec<u8>) -> (r: Client)
        ensures
            r.group@ == group@,
            r.name@ == name@,
            r.last_autoclaim == EntryId::zero_spec(),
    {
        Client { name, group, last_autoclaim: EntryId::zero() }
    }

    /// The command that appends `data` to the stream `event` as its `data` field.
    pub fn publish(&self, event: &Vec<u8>, data: &Vec<u8>) -> (r: Command)
        ensures
            r matches Command::Append { stream, fields } && stream@ == event@ && fields_view(
                fields@,
            ) == seq![(data_key(), data@)],
    {
        let mut fields: Vec<Field> = Vec::new();
        fields.push(Field::new(data_key_bytes(), copy_bytes(data)));
        proof {
            assert(fields_view(fields@) =~= seq![(data_key(), data@)]);
        }
        Command::Append { stream: copy_bytes(event), fields }
    }

    /// The command that appends `data` to the stream `event`, with the deadline
    /// `timeout_nanos` (nanoseconds since the epoch) as decimal text in `timeout_at`.
    pub fn publish_timeout(&self, event: &Vec<u8>, data: &Vec<u8>, timeout_nanos: u128) -> (r:
        Command)
        ensures
            r matches Command::Append { stream, fields } && stream@ == event@ && fields_view(
                fields@,
            ) == seq![(data_key(), data@), (timeout_key(), decimal(timeout_nanos as nat))],
    {
        let mut deadline: Vec<u8> = Vec::new();
        push_decimal(&mut deadline, timeout_nanos);
        let mut fields: Vec<Field> = Vec::new();
        fields.push(Field::new(data_key_bytes(), copy_bytes(data)));
        fields.push(Field::new(timeout_key_bytes(), deadline));
        proof {
            assert(deadline@ =~= decimal(timeout_nanos as nat));
            assert(fields_view(fields@) =~= seq![
                (data_key(), data@),
                (timeout_key(), decimal(timeout_nanos as nat)),
            ]);
        }
        Command::Append { stream: copy_bytes(event), fields }
    }

    /// The id an append was stored under.
    pub fn published(reply: &Reply) -> (r: Result<EntryId, ClientError>)
        ensures
            match *reply {
                Reply::Added(id) => r == Ok::<EntryId, ClientError>(id),
                _ => r matches Err(e) && failure(*reply, e),
            },
    {
        match reply {
            Reply::Added(id) => Ok(*id),
            _ => Err(failure_of(reply)),
        }
    }

    /// The commands that create this client's group on each stream of `events`, at the
    /// stream's tail, creating the stream where it is absent.
    pub fn ensure_events(&self, events: &Vec<Vec<u8>>) -> (r: Vec<Command>)
        ensures
            r@.len() == events@.len(),
            forall|i: int|
                0 <= i < events@.len() ==> (#[trigger] r@[i] matches Command::CreateGroup {
                    stream,
                    group,
                } && stream@ == events@[i]@ && group@ == self.group@),
    {
        let mut r: Vec<Command> = Vec::new();
        let mut i: usize = 0;
        while i < events.len()
            invariant
                i <= events.len(),
                r@.len() == i,
                forall|k: int|
                    0 <= k < i ==> (#[trigger] r@[k] matches Command::CreateGroup {
                        stream,
                        group,
                    } && stream@ == events@[k]@ && group@ == self.group@),
            decreases events.len() - i,
        {
            r.push(
                Command::CreateGroup { stream: copy_bytes(&events[i]), group: copy_bytes(&self.group) },
            );
            i += 1;
        }
        r
    }

    /// What a reply to group creation means: an existing group is no failure.
    pub fn group_ensured(reply: &Reply) -> (r: Result<(), ClientError>)
        ensures
            r is Ok <==> group_accepted(*reply),
            r matches Err(e) ==> failure(*reply, e),
    {
        match reply {
            Reply::Done => Ok(()),
            Reply::Error(m) => {
                let prefix: Vec<u8> = vec![66u8, 85, 83, 89, 71, 82, 79, 85, 80];
                proof {
                    assert(prefix@ =~= busy_group_prefix());
                }
                if starts_with(m.as_slice(), prefix.as_slice()) {
                    Ok(())
                } else {
                    Err(ClientError::Transport(copy_bytes(m)))
                }
            },
            _ => Err(ClientError::Protocol),
        }
    }

    /// The command that reads, for this consumer, entries of `events` never delivered
    /// to the group: at most a batch per stream, waiting a bounded time for them.
    pub fn xreadgroup(&self, events: &Vec<Vec<u8>>) -> (r: Command)
        ensures
            r matches Command::ReadGroup { group, consumer, count, block_ms, streams } && group@
                == self.group@ && consumer@ == self.name@ && count == MAX_CHUNK && block_ms
                == BLOCK_INTERVAL_MS && bytes_list(streams@) == bytes_list(events@),
    {
        let mut streams: Vec<Vec<u8>> = Vec::new();
        let mut i: usize = 0;
        while i < events.len()
            invariant
                i <= events.len(),
                bytes_list(streams@) == bytes_list(events@.subrange(0, i as int)),
            decreases events.len() - i,
        {
            let ghost before = streams@;
            streams.push(copy_bytes(&events[i]));
            i += 1;
            proof {
                assert(bytes_list(streams@) =~= bytes_list(before).push(events@[i - 1]@));
                assert(bytes_list(events@.subrange(0, i as int)) =~= bytes_list(
                    events@.subrange(0, i - 1),
                ).push(events@[i - 1]@));
            }
        }
        proof {
            assert(events@.subrange(0, i as int) =~= events@);
        }
        Command::ReadGroup {
            group: copy_bytes(&self.group),
            consumer: copy_bytes(&self.name),
            count: MAX_CHUNK,
            block_ms: BLOCK_INTERVAL_MS,
            streams,
        }
    }

    /// The messages of a read, stream after stream, in the order the store gave them.
    pub fn get_messages(&self, reply: &Reply) -> (r: Result<Vec<Message>, ClientError>)
        ensures
            match *reply {
                Reply::Read(v) => r matches Ok(ms) && message_list(ms@) == read_view(v@) && (
                forall|k: int| 0 <= k < ms@.len() ==> (#[trigger] ms@[k]).group@ == self.group@),
                _ => r matches Err(e) && failure(*reply, e),
            },
    {
        match reply {
            Reply::Read(v) => {
                let mut ms: Vec<Message> = Vec::new();
                let mut i: usize = 0;
                while i < v.len()
                    invariant
                        i <= v.len(),
                        message_list(ms@) == read_view(v@.subrange(0, i as int)),
                        forall|k: int| 0 <= k < ms@.len() ==> (#[trigger] ms@[k]).group@ == self.group@,
                    decreases v.len() - i,
                {
                    let ghost outer = ms@;
                    let mut j: usize = 0;
                    while j < v[i].entries.len()
                        invariant
                            i < v.len(),
                            j <= v@[i as int].entries@.len(),
                            message_list(ms@) == message_list(outer) + entries_view(
                                v@[i as int].stream@,
                                v@[i as int].entries@.subrange(0, j as int),
                            ),
                            forall|k: int| 0 <= k < ms@.len() ==> (#[trigger] ms@[k]).group@ == self.group@,
                        decreases v@[i as int].entries@.len() - j,
                    {
                        let ghost before = ms@;
                        let e = &v[i].entries[j];
                        let m = Message {
                            id: e.id,
                            event: copy_bytes(&v[i].stream),
                            group: copy_bytes(&self.group),
                            fields: copy_fields(&e.fields),
                        };
                        ms.push(m);
                        j += 1;
                        proof {
                            let es = v@[i as int].entries@;
                            assert(message_list(ms@) =~= message_list(before).push(
                                (v@[i as int].stream@, es[j - 1].id, fields_view(es[j - 1].fields@)),
                            ));
                            assert(entries_view(v@[i as int].stream@, es.subrange(0, j as int))
                                =~= entries_view(v@[i as int].stream@, es.subrange(0, j - 1)).push(
                                (v@[i as int].stream@, es[j - 1].id, fields_view(es[j - 1].fields@)),
                            ));
                        }
                    }
                    i += 1;
                    proof {
                        let p = v@.subrange(0, i as int);
                        assert(p.drop_last() =~= v@.subrange(0, i - 1));
                        assert(v@[i - 1].entries@.subrange(0, j as int) =~= v@[i - 1].entries@);
                    }
                }
                proof {
                    assert(v@.subrange(0, i as int) =~= v@);
                }
                Ok(ms)
            },
            _ => Err(failure_of(reply)),
        }
    }

    /// The command that reclaims, for this consumer, entries of `event` left unacknowledged
    /// for at least the idle threshold, scanning from the shared resumption cursor.
    pub fn xautoclaim(&self, event: &Vec<u8>) -> (r: Command)
        ensures
            r matches Command::AutoClaim { stream, group, consumer, min_idle_ms, start, count }
                && stream@ == event@ && group@ == self.group@ && consumer@ == self.name@
                && min_idle_ms == MIN_IDLE_TIME_MS && start == self.last_autoclaim && count
                == MAX_CHUNK,
    {
        Command::AutoClaim {
            stream: copy_bytes(event),
            group: copy_bytes(&self.group),
            consumer: copy_bytes(&self.name),
            min_idle_ms: MIN_IDLE_TIME_MS,
            start: self.last_autoclaim,
            count: MAX_CHUNK,
        }
    }

    /// The messages reclaimed from `event`; the resumption cursor moves to the one the
    /// store returned.
    pub fn autoclaim_event(&mut self, event: &Vec<u8>, reply: &Reply) -> (r: Result<
        Vec<Message>,
        ClientError,
    >)
        ensures
            final(self).name == old(self).name,
            final(self).group == old(self).group,
            match *reply {
                Reply::Claimed { cursor, entries } => final(self).last_autoclaim == cursor && (r
                    matches Ok(ms) && message_list(ms@) == entries_view(event@, entries@) && (
                forall|k: int| 0 <= k < ms@.len() ==> (#[trigger] ms@[k]).group@ == old(self).group@)),
                _ => final(self).last_autoclaim == old(self).last_autoclaim && (r matches Err(e)
                    && failure(*reply, e)),
            },
    {
        match reply {
            Reply::Claimed { cursor, entries } => {
                let mut ms: Vec<Message> = Vec::new();
                let mut j: usize = 0;
                while j < entries.len()
                    invariant
                        j <= entries@.len(),
                        self.group == old(self).group,
                        message_list(ms@) == entries_view(event@, entries@.subrange(0, j as int)),
                        forall|k: int| 0 <= k < ms@.len() ==> (#[trigger] ms@[k]).group@ == self.group@,
                    decreases entries@.len() - j,
                {
                    let ghost before = ms@;
                    let e = &entries[j];
                    let m = Message {
                        id: e.id,
                        event: copy_bytes(event),
                        group: copy_bytes(&self.group),
                        fields: copy_fields(&e.fields),
                    };
                    ms.push(m);
                    j += 1;
                    proof {
                        assert(message_list(ms@) =~= message_list(before).push(
                            (event@, entries@[j - 1].id, fields_view(entries@[j - 1].fields@)),
                        ));
                        assert(entries_view(event@, entries@.subrange(0, j as int)) =~= entries_view(
                            event@,
                            entries@.subrange(0, j - 1),
                        ).push((event@, entries@[j - 1].id, fields_view(entries@[j - 1].fields@))));
                    }
                }
                proof {
                    assert(entries@.subrange(0, j as int) =~= entries@);
                }
                self.last_autoclaim = *cursor;
                Ok(ms)
            },
            _ => Err(failure_of(reply)),
        }
    }

    /// The number of entries an acknowledgment removed.
    pub fn acked(reply: &Reply) -> (r: Result<u64, ClientError>)
        ensures
            match *reply {
                Reply::Acked(n) => r == Ok::<u64, ClientError>(n),
                _ => r matches Err(e) && failure(*reply, e),
            },
    {
        match reply {
            Reply::Acked(n) => Ok(*n),
            _ => Err(failure_of(reply)),
        }
    }

    /// How long to pause before each reclaim call, in milliseconds.
    pub fn autoclaim_interval_ms(&self) -> (r: u64)
        ensures
            r == AUTOCLAIM_INTERVAL_MS,
    {
        AUTOCLAIM_INTERVAL_MS
    }
}

impl Message {
    /// The command that acknowledges this entry in its stream and group.
    pub fn ack(&self) -> (r: Command)
        ensures
            r matches Command::Ack { stream, group, id } && stream@ == self.event@ && group@
                == self.group@ && id == self.id,
    {
        Command::Ack { stream: copy_bytes(&self.event), group: copy_bytes(&self.group), id: self.id }
    }
}

} // verus!
