//! The commands the client sends to the store, their wire form, and the store's replies.

use vstd::prelude::*;
use vstd::string::*;
use crate::entry::{Entry, Field, StreamEntries, fields_view};
use crate::id::{EntryId, decimal, id_text, push_decimal};

verus! {

/// Largest number of entries asked for per stream and per call.
pub const MAX_CHUNK: u64 = 10;

/// How long a read of new entries may wait on the server, in milliseconds.
pub const BLOCK_INTERVAL_MS: u64 = 5000;

/// How long an entry must have gone unacknowledged before it is reclaimed, in milliseconds.
pub const MIN_IDLE_TIME_MS: u64 = 10000;

/// The pause before each reclaim call, in milliseconds: the reclaim command cannot block.
pub const AUTOCLAIM_INTERVAL_MS: u64 = 5000;

/// The bytes of a command keyword.
pub open spec fn kw(s: &str) -> Seq<u8> {
    s.spec_bytes()
}

fn word(s: &str) -> (r: Vec<u8>)
    ensures
        r@ == kw(s),
{
    s.as_bytes_vec()
}

/// Byte strings as sequences.
pub open spec fn bytes_list(v: Seq<Vec<u8>>) -> Seq<Seq<u8>> {
    v.map_values(|b: Vec<u8>| b@)
}

/// The fields as alternating names and values.
pub open spec fn field_args(fs: Seq<(Seq<u8>, Seq<u8>)>) -> Seq<Seq<u8>>
    decreases fs.len(),
{
    if fs.len() == 0 {
        Seq::empty()
    } else {
        field_args(fs.drop_last()) + seq![fs.last().0, fs.last().1]
    }
}

/// `n` copies of `>`: "entries never delivered to this group", once per stream.
pub open spec fn new_entry_markers(n: nat) -> Seq<Seq<u8>> {
    Seq::new(n, |i: int| seq![62u8])
}

/// One command to the stream store.
#[derive(Debug)]
pub enum Command {
    /// Append an entry with these fields to `stream`, under an id the store picks.
    Append { stream: Vec<u8>, fields: Vec<Field> },
    /// Create `group` on `stream`, starting at its tail; create the stream if absent.
    CreateGroup { stream: Vec<u8>, group: Vec<u8> },
    /// Read, as `consumer` of `group`, entries never delivered to the group.
    ReadGroup {
        group: Vec<u8>,
        consumer: Vec<u8>,
        count: u64,
        block_ms: u64,
        streams: Vec<Vec<u8>>,
    },
    /// Claim, for `consumer`, entries of `group` idle for at least `min_idle_ms`, scanning from `start`.
    AutoClaim {
        stream: Vec<u8>,
        group: Vec<u8>,
        consumer: Vec<u8>,
        min_idle_ms: u64,
        start: EntryId,
        count: u64,
    },
    /// Acknowledge entry `id` of `stream` in `group`.
    Ack { stream: Vec<u8>, group: Vec<u8>, id: EntryId },
}

impl Command {
    /// The arguments of the command as the store reads them.
    pub open spec fn wire(&self) -> Seq<Seq<u8>> {
        match self {
            Command::Append { stream, fields } => seq![kw("XADD"), stream@, kw("*")] + field_args(
                fields_view(fields@),
            ),
            Command::CreateGroup { stream, group } => seq![
                kw("XGROUP"),
                kw("CREATE"),
                stream@,
                group@,
                kw("$"),
                kw("MKSTREAM"),
            ],
            Command::ReadGroup { group, consumer, count, block_ms, streams } => seq![
                kw("XREADGROUP"),
                kw("GROUP"),
                group@,
                consumer@,
                kw("COUNT"),
                decimal(*count as nat),
                kw("BLOCK"),
                decimal(*block_ms as nat),
                kw("STREAMS"),
            ] + bytes_list(streams@) + new_entry_markers(streams@.len()),
            Command::AutoClaim { stream, group, consumer, min_idle_ms, start, count } => seq![
                kw("XAUTOCLAIM"),
                stream@,
                group@,
                consumer@,
                decimal(*min_idle_ms as nat),
                id_text(*start),
                kw("COUNT"),
                decimal(*count as nat),
            ],
            Command::Ack { stream, group, id } => seq![kw("XACK"), stream@, group@, id_text(*id)],
        }
    }

    /// The arguments to send to the store.
    pub fn args(&self) -> (r: Vec<Vec<u8>>)
        ensures
            bytes_list(r@) == self.wire(),
    {
        let mut r: Vec<Vec<u8>> = Vec::new();
        match self {
            Command::Append { stream, fields } => {
                r.push(word("XADD"));
                r.push(crate::entry::copy_bytes(stream));
                r.push(word("*"));
                let ghost head = bytes_list(r@);
                let mut i: usize = 0;
                while i < fields.len()
                    invariant
                        i <= fields.len(),
                        bytes_list(r@) == head + field_args(
                            fields_view(fields@).subrange(0, i as int),
                        ),
                    decreases fields.len() - i,
                {
                    let ghost before = r@;
                    r.push(crate::entry::copy_bytes(&fields[i].name));
                    r.push(crate::entry::copy_bytes(&fields[i].value));
                    i += 1;
                    proof {
                        let fv = fields_view(fields@).subrange(0, i as int);
                        assert(fv.drop_last() =~= fields_view(fields@).subrange(0, i - 1));
                        assert(bytes_list(r@) =~= bytes_list(before) + seq![
                            fields@[i - 1].name@,
                            fields@[i - 1].value@,
                        ]);
                        assert(bytes_list(r@) =~= head + field_args(fv));
                    }
                }
                proof {
                    assert(fields_view(fields@).subrange(0, i as int) =~= fields_view(fields@));
                    assert(bytes_list(r@) =~= self.wire());
                }
            },
            Command::CreateGroup { stream, group } => {
                r.push(word("XGROUP"));
                r.push(word("CREATE"));
                r.push(crate::entry::copy_bytes(stream));
                r.push(crate::entry::copy_bytes(group));
                r.push(word("$"));
                r.push(word("MKSTREAM"));
                proof {
                    assert(bytes_list(r@) =~= self.wire());
                }
            },
            Command::ReadGroup { group, consumer, count, block_ms, streams } => {
                r.push(word("XREADGROUP"));
                r.push(word("GROUP"));
                r.push(crate::entry::copy_bytes(group));
                r.push(crate::entry::copy_bytes(consumer));
                r.push(word("COUNT"));
                let mut c: Vec<u8> = Vec::new();
                push_decimal(&mut c, *count as u128);
                r.push(c);
                r.push(word("BLOCK"));
                let mut b: Vec<u8> = Vec::new();
                push_decimal(&mut b, *block_ms as u128);
                r.push(b);
                r.push(word("STREAMS"));
                let ghost head = bytes_list(r@);
                let mut i: usize = 0;
                while i < streams.len()
                    invariant
                        i <= streams.len(),
                        bytes_list(r@) == head + bytes_list(streams@.subrange(0, i as int)),
                    decreases streams.len() - i,
                {
                    let ghost before = r@;
                    r.push(crate::entry::copy_bytes(&streams[i]));
                    i += 1;
                    proof {
                        assert(bytes_list(r@) =~= bytes_list(before).push(streams@[i - 1]@));
                        assert(bytes_list(streams@.subrange(0, i as int)) =~= bytes_list(
                            streams@.subrange(0, i - 1),
                        ).push(streams@[i - 1]@));
                    }
                }
                proof {
                    assert(streams@.subrange(0, i as int) =~= streams@);
                }
                let ghost mid = bytes_list(r@);
                let mut j: usize = 0;
                while j < streams.len()
                    invariant
                        j <= streams.len(),
                        bytes_list(r@) == mid + new_entry_markers(j as nat),
                    decreases streams.len() - j,
                {
                    let ghost before = r@;
                    let v: Vec<u8> = vec![62u8];
                    r.push(v);
                    j += 1;
                    proof {
                        assert(v@ =~= seq![62u8]);
                        assert(bytes_list(r@) =~= bytes_list(before).push(seq![62u8]));
                        assert(new_entry_markers(j as nat) =~= new_entry_markers(
                            (j - 1) as nat,
                        ).push(seq![62u8]));
                    }
                }
                proof {
                    assert(bytes_list(r@) =~= self.wire());
                }
            },
            Command::AutoClaim { stream, group, consumer, min_idle_ms, start, count } => {
                r.push(word("XAUTOCLAIM"));
                r.push(crate::entry::copy_bytes(stream));
                r.push(crate::entry::copy_bytes(group));
                r.push(crate::entry::copy_bytes(consumer));
                let mut m: Vec<u8> = Vec::new();
                push_decimal(&mut m, *min_idle_ms as u128);
                r.push(m);
                r.push(start.to_text());
                r.push(word("COUNT"));
                let mut c: Vec<u8> = Vec::new();
                push_decimal(&mut c, *count as u128);
                r.push(c);
                proof {
                    assert(bytes_list(r@) =~= self.wire());
                }
            },
            Command::Ack { stream, group, id } => {
                r.push(word("XACK"));
                r.push(crate::entry::copy_bytes(stream));
                r.push(crate::entry::copy_bytes(group));
                r.push(id.to_text());
                proof {
                    assert(bytes_list(r@) =~= self.wire());
                }
            },
        }
        r
    }
}

/// What the store answered to a command.
#[derive(Debug)]
pub enum Reply {
    /// The command succeeded and returns nothing.
    Done,
    /// An entry was appended under this id.
    Added(EntryId),
    /// New entries, per stream; empty when none arrived in time.
    Read(Vec<StreamEntries>),
    /// Reclaimed entries, and the id to resume the next scan from (`0-0` once the scan is done).
    Claimed { cursor: EntryId, entries: Vec<Entry> },
    /// The number of entries acknowledged.
    Acked(u64),
    /// The store refused the command with this message.
    Error(Vec<u8>),
}

} // verus!
