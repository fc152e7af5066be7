//! What holds across calls of the in-memory store model and the client's commands on it:
//! id order, idempotent group creation, single delivery of new entries, reclaim of idle
//! ones, and the finality of acknowledgment.

use vstd::prelude::*;
use crate::client::{busy_group_prefix, group_accepted};
use crate::command::{Command, Reply};
use crate::id::{EntryId, id_le, id_lt};
use crate::store::{
    MemoryStore, claims, find_group, fresh, idle_enough, in_scan, is_pending, last_id,
    lemma_find_group, lemma_find_group_names, lemma_fresh, lemma_last_id_bounds, lemma_scan,
    PendingEntry, lemma_without, next_id, pending_is, plan_deliveries, read_plan, reassigned, scan, without,
};

verus! {

/// Entry `id` of `stream` has been handed to `group` by a read of new entries.
pub open spec fn delivered(s: MemoryStore, stream: Seq<u8>, group: Seq<u8>, id: EntryId) -> bool {
    s.last_delivered(stream, group) matches Some(ld) && id_le(id, ld)
}

/// Entry `id` of `stream` was delivered to `group` and is no longer awaiting acknowledgment.
pub open spec fn settled(s: MemoryStore, stream: Seq<u8>, group: Seq<u8>, id: EntryId) -> bool {
    delivered(s, stream, group, id) && !is_pending(s.pending@, stream, group, id)
}

/// Each step of a read plan: a stream whose group exists, and its fresh entries.
pub proof fn lemma_read_plan(pre: MemoryStore, group: Seq<u8>, streams: Seq<Seq<u8>>, count: nat)
    ensures
        forall|k: int|
            0 <= k < read_plan(pre, group, streams, count).len() ==> (pre.last_delivered(
                (#[trigger] read_plan(pre, group, streams, count)[k]).0,
                group,
            ) matches Some(ld) && read_plan(pre, group, streams, count)[k].1 == fresh(
                pre.entries@,
                pre.entries@.len(),
                read_plan(pre, group, streams, count)[k].0,
                ld,
                count,
            )),
    decreases streams.len(),
{
    if streams.len() > 0 {
        lemma_read_plan(pre, group, streams.drop_last(), count);
    }
}

/// Each delivery of a read plan is of an entry of its stream, after the group's cursor.
pub proof fn lemma_plan_deliveries(pre: MemoryStore, group: Seq<u8>, plan: Seq<(Seq<u8>, Seq<int>)>, count: nat)
    requires
        forall|k: int|
            0 <= k < plan.len() ==> (pre.last_delivered((#[trigger] plan[k]).0, group) matches Some(
                ld,
            ) && plan[k].1 == fresh(pre.entries@, pre.entries@.len(), plan[k].0, ld, count)),
    ensures
        forall|k: int|
            0 <= k < plan_deliveries(plan).len() ==> {
                let d = #[trigger] plan_deliveries(plan)[k];
                &&& 0 <= d.1 < pre.entries@.len()
                &&& pre.entries@[d.1].stream@ == d.0
                &&& pre.last_delivered(d.0, group) matches Some(ld) && id_lt(
                    ld,
                    pre.entries@[d.1].entry.id,
                )
            },
    decreases plan.len(),
{
    if plan.len() > 0 {
        let init = plan.drop_last();
        lemma_plan_deliveries(pre, group, init, count);
        let last = plan.last();
        let ld = pre.last_delivered(last.0, group)->Some_0;
        lemma_fresh(pre.entries@, pre.entries@.len(), last.0, ld, count);
        let d0 = plan_deliveries(init);
        assert forall|k: int| 0 <= k < plan_deliveries(plan).len() implies {
            let d = #[trigger] plan_deliveries(plan)[k];
            &&& 0 <= d.1 < pre.entries@.len()
            &&& pre.entries@[d.1].stream@ == d.0
            &&& pre.last_delivered(d.0, group) matches Some(ld) && id_lt(
                ld,
                pre.entries@[d.1].entry.id,
            )
        } by {
            if k < d0.len() {
                assert(plan_deliveries(plan)[k] == d0[k]);
            } else {
                assert(plan_deliveries(plan)[k] == (last.0, last.1[k - d0.len()]));
            }
        }
    }
}

/// Every entry a read returns comes after its group's cursor before the read.
pub proof fn lemma_read_returns_fresh(
    pre: MemoryStore,
    group: Seq<u8>,
    consumer: Seq<u8>,
    streams: Seq<Seq<u8>>,
    count: nat,
    now: u64,
    post: MemoryStore,
    r: Reply,
)
    requires
        MemoryStore::read(pre, group, consumer, streams, count, now, post, r),
    ensures
        r matches Reply::Read(v) ==> forall|k: int, m: int|
            0 <= k < v@.len() && 0 <= m < v@[k].entries@.len() ==> (pre.last_delivered(
                (#[trigger] v@[k]).stream@,
                group,
            ) matches Some(ld) && id_lt(ld, (#[trigger] v@[k].entries@[m]).id)),
{
    if pre.has_groups(streams, group) {
        let plan = read_plan(pre, group, streams, count);
        lemma_read_plan(pre, group, streams, count);
        let v = r->Read_0;
        assert forall|k: int, m: int|
            0 <= k < v@.len() && 0 <= m < v@[k].entries@.len() implies (pre.last_delivered(
                (#[trigger] v@[k]).stream@,
                group,
            ) matches Some(ld) && id_lt(ld, (#[trigger] v@[k].entries@[m]).id)) by {
            let ld = pre.last_delivered(plan[k].0, group)->Some_0;
            lemma_fresh(pre.entries@, pre.entries@.len(), plan[k].0, ld, count);
            assert(plan[k].1[m] == fresh(pre.entries@, pre.entries@.len(), plan[k].0, ld, count)[m]);
        }
    }
}

/// Every command leaves each group's cursor where it was or moves it forward.
pub proof fn lemma_cursor_monotone(
    pre: MemoryStore,
    cmd: Command,
    now: u64,
    post: MemoryStore,
    r: Reply,
    stream: Seq<u8>,
    group: Seq<u8>,
)
    requires
        pre.wf(),
        MemoryStore::executed(pre, cmd, now, post, r),
        pre.last_delivered(stream, group) is Some,
    ensures
        post.last_delivered(stream, group) matches Some(b) && id_le(
            pre.last_delivered(stream, group)->Some_0,
            b,
        ),
{
    lemma_find_group(pre.groups@, stream, group);
    match cmd {
        Command::CreateGroup { stream: cs, group: cg } => {
            if find_group(pre.groups@, cs@, cg@) is None {
                assert(post.groups@.drop_last() =~= pre.groups@);
            }
        },
        Command::ReadGroup { group: rg, consumer, count, block_ms, streams } => {
            let names = crate::command::bytes_list(streams@);
            if pre.has_groups(names, rg@) {
                lemma_find_group_names(post.groups@, pre.groups@, stream, group);
                let j = find_group(pre.groups@, stream, group)->Some_0;
                let gc = pre.groups@[j];
                lemma_fresh(pre.entries@, pre.entries@.len(), gc.stream@, gc.last_delivered, count as nat);
                let f = fresh(pre.entries@, pre.entries@.len(), gc.stream@, gc.last_delivered, count as nat);
                if f.len() > 0 {
                    assert(f.last() == f[f.len() - 1]);
                }
            }
        },
        _ => {},
    }
}

/// Entries appended to a stream get ids after every entry already in it: of two entries
/// appended one before the other to the same stream, the first has the smaller id.
pub proof fn append_ids_increase(
    pre: MemoryStore,
    stream: Seq<u8>,
    fields: Seq<(Seq<u8>, Seq<u8>)>,
    now: u64,
    post: MemoryStore,
    id: EntryId,
    earlier: int,
)
    requires
        pre.wf(),
        MemoryStore::appended(pre, stream, fields, now, post, Reply::Added(id)),
        0 <= earlier < pre.entries@.len(),
        pre.entries@[earlier].stream@ == stream,
    ensures
        id_lt(pre.entries@[earlier].entry.id, id),
        post.wf() ==> last_id(post.entries@, stream) == id,
{
    lemma_last_id_bounds(pre.entries@, stream);
    let last = last_id(pre.entries@, stream);
    assert(id_le(pre.entries@[earlier].entry.id, last));
    assert(next_id(last, now) == Some(id));
    assert(post.entries@.drop_last() =~= pre.entries@);
}

/// Two appends in a row to the same stream return increasing ids.
pub proof fn successive_appends_increase(
    s0: MemoryStore,
    s1: MemoryStore,
    s2: MemoryStore,
    stream: Seq<u8>,
    f1: Seq<(Seq<u8>, Seq<u8>)>,
    f2: Seq<(Seq<u8>, Seq<u8>)>,
    t1: u64,
    t2: u64,
    a: EntryId,
    b: EntryId,
)
    requires
        MemoryStore::appended(s0, stream, f1, t1, s1, Reply::Added(a)),
        MemoryStore::appended(s1, stream, f2, t2, s2, Reply::Added(b)),
    ensures
        id_lt(a, b),
{
    assert(next_id(last_id(s0.entries@, stream), t1) == Some(a));
    assert(last_id(s1.entries@, stream) == a);
    assert(next_id(a, t2) == Some(b));
}

/// Creating a group is idempotent: after one creation, creating the same group again
/// changes nothing, and each reply counts as success; so any number of creations in a row
/// leave the store as the first one did.
pub proof fn group_creation_idempotent(
    s0: MemoryStore,
    s1: MemoryStore,
    s2: MemoryStore,
    stream: Seq<u8>,
    group: Seq<u8>,
    r1: Reply,
    r2: Reply,
)
    requires
        MemoryStore::group_created(s0, stream, group, s1, r1),
        MemoryStore::group_created(s1, stream, group, s2, r2),
    ensures
        s2 == s1,
        group_accepted(r1),
        group_accepted(r2),
        s1.last_delivered(stream, group) is Some,
{
    assert(crate::store::busy_group_message().subrange(0, 9) =~= busy_group_prefix());
    if find_group(s0.groups@, stream, group) is None {
        assert(find_group(s1.groups@, stream, group) == Some(s0.groups@.len() as int));
    }
}

/// Any number of creations of the same group in a row: each reply counts as success, and
/// the store ends as the first creation left it.
pub proof fn repeated_group_creation(
    states: Seq<MemoryStore>,
    replies: Seq<Reply>,
    stream: Seq<u8>,
    group: Seq<u8>,
)
    requires
        replies.len() >= 1,
        states.len() == replies.len() + 1,
        forall|i: int|
            0 <= i < replies.len() ==> MemoryStore::group_created(
                #[trigger] states[i],
                stream,
                group,
                states[i + 1],
                replies[i],
            ),
    ensures
        states.last() == states[1],
        forall|i: int| 0 <= i < replies.len() ==> group_accepted(#[trigger] replies[i]),
    decreases replies.len(),
{
    assert(crate::store::busy_group_message().subrange(0, 9) =~= busy_group_prefix());
    let n = replies.len();
    if n > 1 {
        let s = states.drop_last();
        let r = replies.drop_last();
        assert forall|i: int| 0 <= i < r.len() implies MemoryStore::group_created(
            #[trigger] s[i],
            stream,
            group,
            s[i + 1],
            r[i],
        ) by {
            assert(s[i] == states[i] && s[i + 1] == states[i + 1] && r[i] == replies[i]);
        }
        repeated_group_creation(s, r, stream, group);
        assert(MemoryStore::group_created(states[n - 2], stream, group, states[n - 1], replies[n - 2]));
        assert(MemoryStore::group_created(states[n - 1], stream, group, states[n as int], replies[n - 1]));
        group_creation_idempotent(
            states[n - 2],
            states[n - 1],
            states[n as int],
            stream,
            group,
            replies[n - 2],
            replies[n - 1],
        );
        assert forall|i: int| 0 <= i < replies.len() implies group_accepted(#[trigger] replies[i]) by {
            if i < n - 1 {
                assert(r[i] == replies[i]);
            }
        }
    } else {
        assert(MemoryStore::group_created(states[0], stream, group, states[1], replies[0]));
    }
}

/// A read of new entries hands out only entries never delivered to the group, and
/// marks each one it hands out as delivered.
pub proof fn read_delivers_once(
    pre: MemoryStore,
    group: Seq<u8>,
    consumer: Seq<u8>,
    streams: Seq<Seq<u8>>,
    count: nat,
    now: u64,
    post: MemoryStore,
    r: Reply,
)
    requires
        pre.wf(),
        MemoryStore::read(pre, group, consumer, streams, count, now, post, r),
    ensures
        r matches Reply::Read(v) ==> forall|k: int, m: int|
            0 <= k < v@.len() && 0 <= m < v@[k].entries@.len() ==> !delivered(
                pre,
                (#[trigger] v@[k]).stream@,
                group,
                (#[trigger] v@[k].entries@[m]).id,
            ) && delivered(post, v@[k].stream@, group, v@[k].entries@[m].id),
{
    lemma_read_returns_fresh(pre, group, consumer, streams, count, now, post, r);
    if pre.has_groups(streams, group) {
        let plan = read_plan(pre, group, streams, count);
        lemma_read_plan(pre, group, streams, count);
        let v = r->Read_0;
        lemma_find_group_names(post.groups@, pre.groups@, plan[0].0, group);
        assert forall|k: int, m: int|
            0 <= k < v@.len() && 0 <= m < v@[k].entries@.len() implies !delivered(
                pre,
                (#[trigger] v@[k]).stream@,
                group,
                (#[trigger] v@[k].entries@[m]).id,
            ) && delivered(post, v@[k].stream@, group, v@[k].entries@[m].id) by {
            let s = plan[k].0;
            let ld = pre.last_delivered(s, group)->Some_0;
            let f = fresh(pre.entries@, pre.entries@.len(), s, ld, count);
            lemma_fresh(pre.entries@, pre.entries@.len(), s, ld, count);
            lemma_find_group(pre.groups@, s, group);
            lemma_find_group_names(post.groups@, pre.groups@, s, group);
            let j = find_group(pre.groups@, s, group)->Some_0;
            lemma_read_plan_streams(pre, group, streams, count, k);
            assert(streams.contains(s));
            assert(post.groups@[j].last_delivered == pre.entries@[f.last()].entry.id);
            let i = f[m];
            if m < f.len() - 1 {
                assert(id_lt(pre.entries@[i].entry.id, pre.entries@[f[f.len() - 1]].entry.id));
            }
        }
    }
}

/// The streams of a read plan are among the streams read.
pub proof fn lemma_read_plan_streams(pre: MemoryStore, group: Seq<u8>, streams: Seq<Seq<u8>>, count: nat, k: int)
    requires
        0 <= k < read_plan(pre, group, streams, count).len(),
    ensures
        streams.contains(read_plan(pre, group, streams, count)[k].0),
    decreases streams.len(),
{
    let init = streams.drop_last();
    let p = read_plan(pre, group, init, count);
    if k < p.len() {
        lemma_read_plan_streams(pre, group, init, count, k);
        let q = choose|q: int| 0 <= q < init.len() && init[q] == p[k].0;
        assert(streams[q] == init[q]);
    } else {
        assert(streams[streams.len() - 1] == streams.last());
    }
}

/// Once delivered to a group, an entry stays delivered, whatever is executed next:
/// the new-entry path never hands it out again.
pub proof fn delivery_is_permanent(
    pre: MemoryStore,
    cmd: Command,
    now: u64,
    post: MemoryStore,
    r: Reply,
    stream: Seq<u8>,
    group: Seq<u8>,
    id: EntryId,
)
    requires
        pre.wf(),
        MemoryStore::executed(pre, cmd, now, post, r),
        delivered(pre, stream, group, id),
    ensures
        delivered(post, stream, group, id),
{
    lemma_cursor_monotone(pre, cmd, now, post, r, stream, group);
}

/// A reclaim never hands out an entry whose every pending delivery in the group has been
/// idle for less than the threshold.
pub proof fn no_reclaim_before_idle(
    pre: MemoryStore,
    stream: Seq<u8>,
    group: Seq<u8>,
    consumer: Seq<u8>,
    min_idle: u64,
    start: EntryId,
    count: nat,
    now: u64,
    post: MemoryStore,
    r: Reply,
    id: EntryId,
)
    requires
        MemoryStore::claimed(pre, stream, group, consumer, min_idle, start, count, now, post, r),
        forall|q: int|
            0 <= q < pre.pending@.len() && pending_is(#[trigger] pre.pending@[q], stream, group, id)
                ==> !idle_enough(pre.pending@[q], min_idle, now),
    ensures
        r matches Reply::Claimed { cursor, entries } ==> forall|m: int|
            0 <= m < entries@.len() ==> (#[trigger] entries@[m]).id != id,
{
    let ps = pre.pending@;
    lemma_scan(ps, ps.len(), stream, group, start, min_idle, now, count);
}

/// A reclaim hands out every pending entry of the group that has been idle for at least
/// the threshold and lies at or after the scan's start, when the batch can hold all
/// pending entries; the entry then belongs to the claimer, its idle time restarted.
pub proof fn idle_entries_are_reclaimed(
    pre: MemoryStore,
    stream: Seq<u8>,
    group: Seq<u8>,
    consumer: Seq<u8>,
    min_idle: u64,
    start: EntryId,
    count: nat,
    now: u64,
    post: MemoryStore,
    r: Reply,
    k: int,
)
    requires
        MemoryStore::claimed(pre, stream, group, consumer, min_idle, start, count, now, post, r),
        pre.last_delivered(stream, group) is Some,
        0 <= k < pre.pending@.len(),
        in_scan(pre.pending@[k], stream, group, start),
        idle_enough(pre.pending@[k], min_idle, now),
        pre.pending@.len() < count,
    ensures
        r matches Reply::Claimed { cursor, entries } && exists|m: int|
            0 <= m < entries@.len() && (#[trigger] entries@[m]).id == pre.pending@[k].id,
        reassigned(pre.pending@[k], post.pending@[k], consumer, now),
{
    let ps = pre.pending@;
    lemma_scan_never_stops(ps, k as nat, stream, group, start, min_idle, now, count);
    lemma_scan(ps, k as nat, stream, group, start, min_idle, now, count);
    assert(claims(ps, k, stream, group, start, min_idle, now, count));
    lemma_scan_keeps(ps, ps.len(), stream, group, start, min_idle, now, count, k);
    let sc = scan(ps, ps.len(), stream, group, start, min_idle, now, count);
    let m = choose|m: int| 0 <= m < sc.0.len() && sc.0[m] == k;
    let entries = r->Claimed_entries;
    assert(entries@[m].id == ps[k].id);
}

/// While fewer than `count` deliveries have been looked at, the scan has not stopped.
pub proof fn lemma_scan_never_stops(
    ps: Seq<PendingEntry>,
    n: nat,
    stream: Seq<u8>,
    group: Seq<u8>,
    start: EntryId,
    min_idle: u64,
    now: u64,
    count: nat,
)
    requires
        n <= ps.len(),
        n < count,
    ensures
        scan(ps, n, stream, group, start, min_idle, now, count).1 is None,
    decreases n,
{
    if n > 0 {
        lemma_scan_never_stops(ps, (n - 1) as nat, stream, group, start, min_idle, now, count);
        lemma_scan(ps, (n - 1) as nat, stream, group, start, min_idle, now, count);
    }
}

/// A position the scan claims stays among the claimed positions to the end of the scan.
pub proof fn lemma_scan_keeps(
    ps: Seq<PendingEntry>,
    n: nat,
    stream: Seq<u8>,
    group: Seq<u8>,
    start: EntryId,
    min_idle: u64,
    now: u64,
    count: nat,
    k: int,
)
    requires
        0 <= k < n <= ps.len(),
        claims(ps, k, stream, group, start, min_idle, now, count),
    ensures
        scan(ps, n, stream, group, start, min_idle, now, count).0.contains(k),
    decreases n,
{
    if n == k + 1 {
        let s = scan(ps, n, stream, group, start, min_idle, now, count).0;
        assert(s[s.len() - 1] == k);
    } else {
        lemma_scan_keeps(ps, (n - 1) as nat, stream, group, start, min_idle, now, count, k);
        let prev = scan(ps, (n - 1) as nat, stream, group, start, min_idle, now, count).0;
        let s = scan(ps, n, stream, group, start, min_idle, now, count).0;
        let q = choose|q: int| 0 <= q < prev.len() && prev[q] == k;
        assert(s[q] == k);
    }
}

/// A delivery that matches nothing removed is kept.
pub proof fn lemma_without_keeps(ps: Seq<PendingEntry>, stream: Seq<u8>, group: Seq<u8>, id: EntryId, k: int)
    requires
        0 <= k < ps.len(),
        !pending_is(ps[k], stream, group, id),
    ensures
        exists|q: int|
            0 <= q < without(ps, stream, group, id).len() && without(ps, stream, group, id)[q]
                == ps[k],
    decreases ps.len(),
{
    let init = ps.drop_last();
    let w = without(init, stream, group, id);
    if k < ps.len() - 1 {
        assert(init[k] == ps[k]);
        lemma_without_keeps(init, stream, group, id, k);
        let q = choose|q: int| 0 <= q < w.len() && w[q] == init[k];
        assert(without(ps, stream, group, id)[q] == w[q]);
    } else {
        assert(without(ps, stream, group, id)[w.len() as int] == ps[k]);
    }
}

/// An entry awaiting acknowledgment stays pending in its group until it is acknowledged:
/// reclaim can always find it again.
pub proof fn pending_until_acked(
    pre: MemoryStore,
    cmd: Command,
    now: u64,
    post: MemoryStore,
    r: Reply,
    stream: Seq<u8>,
    group: Seq<u8>,
    id: EntryId,
)
    requires
        pre.wf(),
        MemoryStore::executed(pre, cmd, now, post, r),
        is_pending(pre.pending@, stream, group, id),
        !(cmd matches Command::Ack { stream: s, group: g, id: i } && s@ == stream && g@ == group
            && i == id),
    ensures
        is_pending(post.pending@, stream, group, id),
{
    let k = choose|k: int| 0 <= k < pre.pending@.len() && pending_is(pre.pending@[k], stream, group, id);
    match cmd {
        Command::ReadGroup { group: rg, consumer, count, block_ms, streams } => {
            if pre.has_groups(crate::command::bytes_list(streams@), rg@) {
                assert(post.pending@[k] == post.pending@.subrange(0, pre.pending@.len() as int)[k]);
            }
        },
        Command::AutoClaim { .. } => {
            assert(pending_is(post.pending@[k], stream, group, id));
        },
        Command::Ack { stream: s, group: g, id: i } => {
            lemma_without_keeps(pre.pending@, s@, g@, i, k);
        },
        _ => {},
    }
}

/// Acknowledging a delivered entry settles it: it is no longer pending in the group.
pub proof fn ack_settles(
    pre: MemoryStore,
    stream: Seq<u8>,
    group: Seq<u8>,
    id: EntryId,
    post: MemoryStore,
    r: Reply,
)
    requires
        delivered(pre, stream, group, id),
        MemoryStore::acked(pre, stream, group, id, post, r),
    ensures
        settled(post, stream, group, id),
{
    lemma_without(pre.pending@, stream, group, id);
}

/// A settled entry stays settled whatever is executed next, and neither a read of new
/// entries nor a reclaim by its group ever hands it out again.
pub proof fn settled_is_final(
    pre: MemoryStore,
    cmd: Command,
    now: u64,
    post: MemoryStore,
    r: Reply,
    stream: Seq<u8>,
    group: Seq<u8>,
    id: EntryId,
)
    requires
        pre.wf(),
        MemoryStore::executed(pre, cmd, now, post, r),
        settled(pre, stream, group, id),
    ensures
        settled(post, stream, group, id),
        (cmd matches Command::ReadGroup { group: g, .. } && g@ == group) ==> (r matches Reply::Read(v)
            ==> forall|k: int, m: int|
            0 <= k < v@.len() && 0 <= m < v@[k].entries@.len() && (#[trigger] v@[k]).stream@ == stream
                ==> (#[trigger] v@[k].entries@[m]).id != id),
        (cmd matches Command::AutoClaim { stream: s, group: g, .. } && s@ == stream && g@ == group)
            ==> (r matches Reply::Claimed { cursor, entries } ==> forall|m: int|
            0 <= m < entries@.len() ==> (#[trigger] entries@[m]).id != id),
{
    lemma_cursor_monotone(pre, cmd, now, post, r, stream, group);
    let ld = pre.last_delivered(stream, group)->Some_0;
    match cmd {
        Command::ReadGroup { group: rg, consumer, count, block_ms, streams } => {
            let names = crate::command::bytes_list(streams@);
            lemma_read_returns_fresh(pre, rg@, consumer@, names, count as nat, now, post, r);
            if pre.has_groups(names, rg@) {
                let plan = read_plan(pre, rg@, names, count as nat);
                lemma_read_plan(pre, rg@, names, count as nat);
                lemma_plan_deliveries(pre, rg@, plan, count as nat);
                let d = plan_deliveries(plan);
                if is_pending(post.pending@, stream, group, id) {
                    let k = choose|k: int|
                        0 <= k < post.pending@.len() && pending_is(post.pending@[k], stream, group, id);
                    if k < pre.pending@.len() {
                        assert(post.pending@[k] == post.pending@.subrange(0, pre.pending@.len() as int)[k]);
                    } else {
                        let q = k - pre.pending@.len();
                        assert(d[q] == d[q]);
                        assert(post.pending@[pre.pending@.len() + q] == post.pending@[k]);
                    }
                }
            }
        },
        Command::AutoClaim { stream: cs, group: cg, consumer, min_idle_ms, start, count } => {
            if find_group(pre.groups@, cs@, cg@) is Some {
                let ps = pre.pending@;
                lemma_scan(ps, ps.len(), cs@, cg@, start, min_idle_ms, now, count as nat);
                if is_pending(post.pending@, stream, group, id) {
                    let k = choose|k: int|
                        0 <= k < post.pending@.len() && pending_is(post.pending@[k], stream, group, id);
                    assert(pending_is(ps[k], stream, group, id));
                }
                if cs@ == stream && cg@ == group {
                    let sc = scan(ps, ps.len(), cs@, cg@, start, min_idle_ms, now, count as nat);
                    let entries = r->Claimed_entries;
                    assert forall|m: int| 0 <= m < entries@.len() implies (#[trigger] entries@[m]).id != id by {
                        assert(claims(ps, sc.0[m], cs@, cg@, start, min_idle_ms, now, count as nat));
                        if entries@[m].id == id {
                            assert(pending_is(ps[sc.0[m]], stream, group, id));
                        }
                    }
                }
            }
        },
        Command::Ack { stream: s, group: g, id: i } => {
            lemma_without(pre.pending@, s@, g@, i);
            if is_pending(post.pending@, stream, group, id) {
                let k = choose|k: int|
                    0 <= k < post.pending@.len() && pending_is(post.pending@[k], stream, group, id);
                let q = choose|q: int| 0 <= q < pre.pending@.len() && pre.pending@[q] == without(
                    pre.pending@,
                    s@,
                    g@,
                    i,
                )[k];
                assert(pending_is(pre.pending@[q], stream, group, id));
            }
        },
        _ => {},
    }
}

/// `states` is a run of the store: each state is what executing `cmds[i]` at `nows[i]` made
/// of the one before, answering `replies[i]`, and each state the commands run on is well formed.
pub open spec fn is_run(states: Seq<MemoryStore>, cmds: Seq<Command>, nows: Seq<u64>, replies: Seq<Reply>) -> bool {
    &&& states.len() == cmds.len() + 1
    &&& nows.len() == cmds.len()
    &&& replies.len() == cmds.len()
    &&& forall|i: int|
        0 <= i < cmds.len() ==> (#[trigger] states[i]).wf() && MemoryStore::executed(
            states[i],
            cmds[i],
            nows[i],
            states[i + 1],
            replies[i],
        )
}

/// A read of new entries by `group` answered `r` and handed out entry `id` of `stream`.
pub open spec fn read_hands_out(cmd: Command, r: Reply, group: Seq<u8>, stream: Seq<u8>, id: EntryId) -> bool {
    &&& cmd matches Command::ReadGroup { group: g, .. } && g@ == group
    &&& r matches Reply::Read(v) && exists|k: int, m: int|
        0 <= k < v@.len() && 0 <= m < v@[k].entries@.len() && (#[trigger] v@[k]).stream@ == stream
            && (#[trigger] v@[k].entries@[m]).id == id
}

/// A reclaim on `group` of `stream` answered `r` and handed out entry `id`.
pub open spec fn reclaim_hands_out(cmd: Command, r: Reply, group: Seq<u8>, stream: Seq<u8>, id: EntryId) -> bool {
    &&& cmd matches Command::AutoClaim { stream: s, group: g, .. } && s@ == stream && g@ == group
    &&& r matches Reply::Claimed { cursor, entries } && exists|m: int|
        0 <= m < entries@.len() && (#[trigger] entries@[m]).id == id
}

/// Along a run, a delivered entry stays delivered.
pub proof fn lemma_delivered_along(
    states: Seq<MemoryStore>,
    cmds: Seq<Command>,
    nows: Seq<u64>,
    replies: Seq<Reply>,
    stream: Seq<u8>,
    group: Seq<u8>,
    id: EntryId,
    i: int,
    j: int,
)
    requires
        is_run(states, cmds, nows, replies),
        0 <= i <= j <= cmds.len(),
        delivered(states[i], stream, group, id),
    ensures
        delivered(states[j], stream, group, id),
    decreases j - i,
{
    if i < j {
        lemma_delivered_along(states, cmds, nows, replies, stream, group, id, i, j - 1);
        assert(states[j - 1].wf());
        delivery_is_permanent(states[j - 1], cmds[j - 1], nows[j - 1], states[j], replies[j - 1], stream, group, id);
    }
}

/// Along a run, a settled entry stays settled.
pub proof fn lemma_settled_along(
    states: Seq<MemoryStore>,
    cmds: Seq<Command>,
    nows: Seq<u64>,
    replies: Seq<Reply>,
    stream: Seq<u8>,
    group: Seq<u8>,
    id: EntryId,
    i: int,
    j: int,
)
    requires
        is_run(states, cmds, nows, replies),
        0 <= i <= j <= cmds.len(),
        settled(states[i], stream, group, id),
    ensures
        settled(states[j], stream, group, id),
    decreases j - i,
{
    if i < j {
        lemma_settled_along(states, cmds, nows, replies, stream, group, id, i, j - 1);
        assert(states[j - 1].wf());
        settled_is_final(states[j - 1], cmds[j - 1], nows[j - 1], states[j], replies[j - 1], stream, group, id);
    }
}

/// Over any run of the store, the new-entry path hands each entry to a group at most once:
/// once a read by the group has handed out an entry, no later read by the group, by any of
/// its consumers and after any other commands, hands it out again.
pub proof fn new_entry_path_hands_out_once(
    states: Seq<MemoryStore>,
    cmds: Seq<Command>,
    nows: Seq<u64>,
    replies: Seq<Reply>,
    group: Seq<u8>,
    stream: Seq<u8>,
    id: EntryId,
    i: int,
    j: int,
)
    requires
        is_run(states, cmds, nows, replies),
        0 <= i < j < cmds.len(),
        read_hands_out(cmds[i], replies[i], group, stream, id),
    ensures
        !read_hands_out(cmds[j], replies[j], group, stream, id),
{
    assert(states[i].wf());
    if let Command::ReadGroup { group: g, consumer, count, block_ms, streams } = cmds[i] {
        read_delivers_once(
            states[i],
            g@,
            consumer@,
            crate::command::bytes_list(streams@),
            count as nat,
            nows[i],
            states[i + 1],
            replies[i],
        );
    }
    lemma_delivered_along(states, cmds, nows, replies, stream, group, id, i + 1, j);
    assert(states[j].wf());
    if let Command::ReadGroup { group: g, consumer, count, block_ms, streams } = cmds[j] {
        read_delivers_once(
            states[j],
            g@,
            consumer@,
            crate::command::bytes_list(streams@),
            count as nat,
            nows[j],
            states[j + 1],
            replies[j],
        );
    }
}

/// Over any run of the store, once a delivered entry is acknowledged, neither the
/// new-entry path nor the reclaim path of its group ever hands it out again.
pub proof fn acknowledged_never_handed_out(
    states: Seq<MemoryStore>,
    cmds: Seq<Command>,
    nows: Seq<u64>,
    replies: Seq<Reply>,
    group: Seq<u8>,
    stream: Seq<u8>,
    id: EntryId,
    i: int,
    j: int,
)
    requires
        is_run(states, cmds, nows, replies),
        0 <= i < j < cmds.len(),
        delivered(states[i], stream, group, id),
        cmds[i] matches Command::Ack { stream: s, group: g, id: x } && s@ == stream && g@ == group
            && x == id,
    ensures
        !read_hands_out(cmds[j], replies[j], group, stream, id),
        !reclaim_hands_out(cmds[j], replies[j], group, stream, id),
{
    assert(states[i].wf());
    ack_settles(states[i], stream, group, id, states[i + 1], replies[i]);
    lemma_settled_along(states, cmds, nows, replies, stream, group, id, i + 1, j);
    assert(states[j].wf());
    settled_is_final(states[j], cmds[j], nows[j], states[j + 1], replies[j], stream, group, id);
}

/// A reclaim hands out the entries of the group's pending list in increasing id order.
pub proof fn reclaim_in_id_order(
    pre: MemoryStore,
    stream: Seq<u8>,
    group: Seq<u8>,
    consumer: Seq<u8>,
    min_idle: u64,
    start: EntryId,
    count: nat,
    now: u64,
    post: MemoryStore,
    r: Reply,
)
    requires
        pre.wf(),
        MemoryStore::claimed(pre, stream, group, consumer, min_idle, start, count, now, post, r),
    ensures
        r matches Reply::Claimed { cursor, entries } ==> forall|a: int, b: int|
            0 <= a < b < entries@.len() ==> id_lt(
                (#[trigger] entries@[a]).id,
                (#[trigger] entries@[b]).id,
            ),
{
    if find_group(pre.groups@, stream, group) is Some {
        let ps = pre.pending@;
        lemma_scan(ps, ps.len(), stream, group, start, min_idle, now, count);
        let sc = scan(ps, ps.len(), stream, group, start, min_idle, now, count);
        let entries = r->Claimed_entries;
        assert forall|a: int, b: int| 0 <= a < b < entries@.len() implies id_lt(
            (#[trigger] entries@[a]).id,
            (#[trigger] entries@[b]).id,
        ) by {
            assert(claims(ps, sc.0[a], stream, group, start, min_idle, now, count));
            assert(claims(ps, sc.0[b], stream, group, start, min_idle, now, count));
            assert(sc.0[a] < sc.0[b]);
        }
    }
}

/// Where the scan stopped is the id of a pending delivery it looked at.
pub proof fn lemma_stop_origin(
    ps: Seq<PendingEntry>,
    n: nat,
    stream: Seq<u8>,
    group: Seq<u8>,
    start: EntryId,
    min_idle: u64,
    now: u64,
    count: nat,
)
    requires
        n <= ps.len(),
    ensures
        scan(ps, n, stream, group, start, min_idle, now, count).1 matches Some(c) ==> exists|k0: int|
            0 <= k0 < n && in_scan(#[trigger] ps[k0], stream, group, start) && ps[k0].id == c,
    decreases n,
{
    if n > 0 {
        lemma_stop_origin(ps, (n - 1) as nat, stream, group, start, min_idle, now, count);
    }
}

/// Once the scan has stopped, it stays stopped where it was.
pub proof fn lemma_stop_persists(
    ps: Seq<PendingEntry>,
    n: nat,
    n2: nat,
    stream: Seq<u8>,
    group: Seq<u8>,
    start: EntryId,
    min_idle: u64,
    now: u64,
    count: nat,
)
    requires
        n <= n2 <= ps.len(),
        scan(ps, n, stream, group, start, min_idle, now, count).1 is Some,
    ensures
        scan(ps, n2, stream, group, start, min_idle, now, count).1 == scan(
            ps,
            n,
            stream,
            group,
            start,
            min_idle,
            now,
            count,
        ).1,
    decreases n2 - n,
{
    if n < n2 {
        lemma_stop_persists(ps, n, (n2 - 1) as nat, stream, group, start, min_idle, now, count);
    }
}

/// A pending entry of the group, at or after the scan's start and idle for at least the
/// threshold, is never skipped by a reclaim: either the reclaim hands it out, or the scan
/// stops at a cursor at or before it, from which the next reclaim resumes.
pub proof fn idle_entry_reclaimed_or_resumed(
    pre: MemoryStore,
    stream: Seq<u8>,
    group: Seq<u8>,
    consumer: Seq<u8>,
    min_idle: u64,
    start: EntryId,
    count: nat,
    now: u64,
    post: MemoryStore,
    r: Reply,
    k: int,
)
    requires
        pre.wf(),
        MemoryStore::claimed(pre, stream, group, consumer, min_idle, start, count, now, post, r),
        pre.last_delivered(stream, group) is Some,
        0 <= k < pre.pending@.len(),
        in_scan(pre.pending@[k], stream, group, start),
        idle_enough(pre.pending@[k], min_idle, now),
    ensures
        r matches Reply::Claimed { cursor, entries } && ((exists|m: int|
            0 <= m < entries@.len() && (#[trigger] entries@[m]).id == pre.pending@[k].id) || (
        scan(pre.pending@, pre.pending@.len(), stream, group, start, min_idle, now, count).1 is Some
            && id_le(cursor, pre.pending@[k].id))),
{
    let ps = pre.pending@;
    let n = ps.len();
    let prev = scan(ps, k as nat, stream, group, start, min_idle, now, count);
    lemma_scan(ps, k as nat, stream, group, start, min_idle, now, count);
    if prev.1 is Some {
        lemma_stop_origin(ps, k as nat, stream, group, start, min_idle, now, count);
        let k0 = choose|k0: int|
            0 <= k0 < k && in_scan(#[trigger] ps[k0], stream, group, start) && ps[k0].id == prev.1->Some_0;
        assert(id_lt(ps[k0].id, ps[k].id));
        lemma_stop_persists(ps, k as nat, n, stream, group, start, min_idle, now, count);
    } else if prev.0.len() >= count {
        assert(scan(ps, (k + 1) as nat, stream, group, start, min_idle, now, count).1 == Some(ps[k].id));
        lemma_stop_persists(ps, (k + 1) as nat, n, stream, group, start, min_idle, now, count);
    } else {
        assert(claims(ps, k, stream, group, start, min_idle, now, count));
        lemma_scan_keeps(ps, n, stream, group, start, min_idle, now, count, k);
        let sc = scan(ps, n, stream, group, start, min_idle, now, count);
        let m = choose|m: int| 0 <= m < sc.0.len() && sc.0[m] == k;
        let entries = r->Claimed_entries;
        assert(entries@[m].id == ps[k].id);
    }
}

} // verus!
