//! An in-memory stream store with consumer groups.
//!
//! It executes the commands of [`Command`] against a clock the caller supplies: appends
//! under increasing ids, idempotent group creation, reads of never-delivered entries,
//! reclaim of idle ones, and acknowledgment. This is a model of the store's semantics, and
//! the laws of the library are proved of it. Pending deliveries are kept in one list; its
//! invariant keeps those of one stream and group in increasing id order, so the reclaim
//! scan, which walks the list, visits them by id as the store does.

use vstd::prelude::*;
use crate::command::{Command, Reply};
use crate::entry::{
    Entry, Field, StreamEntries, bytes_eq, copy_bytes, copy_fields, fields_view, is_prefix,
};
use crate::id::{EntryId, id_le, id_lt};

verus! {

/// An entry and the stream it belongs to.
#[derive(Debug)]
pub struct StoredEntry {
    pub stream: Vec<u8>,
    pub entry: Entry,
}

/// A consumer group of a stream and the last id it has been handed.
#[derive(Debug)]
pub struct GroupCursor {
    pub stream: Vec<u8>,
    pub name: Vec<u8>,
    pub last_delivered: EntryId,
}

/// An entry delivered to a consumer of a group and not yet acknowledged.
#[derive(Debug)]
pub struct PendingEntry {
    pub stream: Vec<u8>,
    pub group: Vec<u8>,
    pub id: EntryId,
    pub consumer: Vec<u8>,
    /// When it was last delivered, in milliseconds.
    pub delivered_at: u64,
    /// How many times it has been delivered.
    pub deliveries: u64,
}

/// The store: every stream's entries, every group's cursor, every pending delivery.
#[derive(Debug)]
pub struct MemoryStore {
    pub entries: Vec<StoredEntry>,
    pub groups: Vec<GroupCursor>,
    pub pending: Vec<PendingEntry>,
}

/// The id of the last entry of `stream`, or `0-0` when it has none.
pub open spec fn last_id(es: Seq<StoredEntry>, stream: Seq<u8>) -> EntryId
    decreases es.len(),
{
    if es.len() == 0 {
        EntryId::zero_spec()
    } else if es.last().stream@ == stream {
        es.last().entry.id
    } else {
        last_id(es.drop_last(), stream)
    }
}

/// The id an append at time `now` gets after `last`: `now-0` when the clock moved past
/// `last`, else the next sequence number of `last`'s millisecond; none when that is exhausted.
pub open spec fn next_id(last: EntryId, now: u64) -> Option<EntryId> {
    if now > last.ms {
        Some(EntryId { ms: now, seq: 0 })
    } else if last.seq < u64::MAX {
        Some(EntryId { ms: last.ms, seq: (last.seq + 1) as u64 })
    } else {
        None
    }
}

/// The position of the group `name` of `stream`, searching from the most recent.
pub open spec fn find_group(gs: Seq<GroupCursor>, stream: Seq<u8>, name: Seq<u8>) -> Option<int>
    decreases gs.len(),
{
    if gs.len() == 0 {
        None
    } else if gs.last().stream@ == stream && gs.last().name@ == name {
        Some(gs.len() - 1)
    } else {
        find_group(gs.drop_last(), stream, name)
    }
}

/// Whether `stream` holds an entry with id `id`.
pub open spec fn has_entry(es: Seq<StoredEntry>, stream: Seq<u8>, id: EntryId) -> bool {
    exists|j: int| 0 <= j < es.len() && (#[trigger] es[j]).stream@ == stream && es[j].entry.id == id
}

/// Whether the pending delivery `p` is of entry `id` of `stream` in `group`.
pub open spec fn pending_is(p: PendingEntry, stream: Seq<u8>, group: Seq<u8>, id: EntryId) -> bool {
    p.stream@ == stream && p.group@ == group && p.id == id
}

/// Whether `group` of `stream` has an entry `id` awaiting acknowledgment.
pub open spec fn is_pending(ps: Seq<PendingEntry>, stream: Seq<u8>, group: Seq<u8>, id: EntryId) -> bool {
    exists|k: int| 0 <= k < ps.len() && pending_is(#[trigger] ps[k], stream, group, id)
}

/// The pending deliveries of one stream and group are in increasing id order.
pub open spec fn pending_ordered(ps: Seq<PendingEntry>) -> bool {
    forall|a: int, b: int|
        0 <= a < b < ps.len() && (#[trigger] ps[a]).stream@ == (#[trigger] ps[b]).stream@
            && ps[a].group@ == ps[b].group@ ==> id_lt(ps[a].id, ps[b].id)
}

/// The message a store answers with when a group already exists.
pub open spec fn busy_group_message() -> Seq<u8> {
    seq![66u8, 85, 83, 89, 71, 82, 79, 85, 80, 32, 103, 114, 111, 117, 112, 32, 101, 120, 105,
        115, 116, 115]
}


/// Positions, among the first `n` entries, of the first `count` entries of `stream`
/// that come after `after`.
pub open spec fn fresh(es: Seq<StoredEntry>, n: nat, stream: Seq<u8>, after: EntryId, count: nat) -> Seq<int>
    decreases n,
{
    if n == 0 {
        Seq::empty()
    } else {
        let p = fresh(es, (n - 1) as nat, stream, after, count);
        if es[n - 1].stream@ == stream && id_lt(after, es[n - 1].entry.id) && p.len() < count {
            p.push(n - 1)
        } else {
            p
        }
    }
}

/// What a read hands out: for each stream named (first naming only) whose group has
/// entries it was never handed, the stream and the positions of those entries.
pub open spec fn read_plan(pre: MemoryStore, group: Seq<u8>, streams: Seq<Seq<u8>>, count: nat) -> Seq<
    (Seq<u8>, Seq<int>),
>
    decreases streams.len(),
{
    if streams.len() == 0 {
        Seq::empty()
    } else {
        let p = read_plan(pre, group, streams.drop_last(), count);
        let s = streams.last();
        if streams.drop_last().contains(s) {
            p
        } else {
            match pre.last_delivered(s, group) {
                Some(ld) => {
                    let f = fresh(pre.entries@, pre.entries@.len(), s, ld, count);
                    if f.len() == 0 {
                        p
                    } else {
                        p.push((s, f))
                    }
                },
                None => p,
            }
        }
    }
}

/// The deliveries of a plan, stream after stream: each stream and entry position.
pub open spec fn plan_deliveries(plan: Seq<(Seq<u8>, Seq<int>)>) -> Seq<(Seq<u8>, int)>
    decreases plan.len(),
{
    if plan.len() == 0 {
        Seq::empty()
    } else {
        plan_deliveries(plan.drop_last()) + plan.last().1.map_values(|i: int| (plan.last().0, i))
    }
}

/// The cursor of group `j` after a read by `group` of `streams`.
pub open spec fn cursor_after_read(
    pre: MemoryStore,
    group: Seq<u8>,
    streams: Seq<Seq<u8>>,
    count: nat,
    j: int,
) -> EntryId {
    let gc = pre.groups@[j];
    if gc.name@ == group && streams.contains(gc.stream@) && find_group(
        pre.groups@,
        gc.stream@,
        group,
    ) == Some(j) {
        let f = fresh(pre.entries@, pre.entries@.len(), gc.stream@, gc.last_delivered, count);
        if f.len() > 0 {
            pre.entries@[f.last()].entry.id
        } else {
            gc.last_delivered
        }
    } else {
        gc.last_delivered
    }
}

/// `v` holds, for each step of `plan`, the stream and copies of the planned entries.
pub open spec fn reply_follows(pre: MemoryStore, plan: Seq<(Seq<u8>, Seq<int>)>, v: Seq<StreamEntries>) -> bool {
    &&& v.len() == plan.len()
    &&& forall|k: int|
        0 <= k < v.len() ==> {
            &&& (#[trigger] v[k]).stream@ == plan[k].0
            &&& v[k].entries@.len() == plan[k].1.len()
            &&& forall|m: int|
                0 <= m < v[k].entries@.len() ==> entry_copies(
                    #[trigger] v[k].entries@[m],
                    pre.entries@[plan[k].1[m]],
                )
        }
}

/// `e` is a copy of the stored entry `se`.
pub open spec fn entry_copies(e: Entry, se: StoredEntry) -> bool {
    e.id == se.entry.id && fields_view(e.fields@) == fields_view(se.entry.fields@)
}

/// `p` records the delivery of the entry at position `d.1` of stream `d.0` to `consumer` at `now`.
pub open spec fn records_delivery(
    pre: MemoryStore,
    p: PendingEntry,
    d: (Seq<u8>, int),
    group: Seq<u8>,
    consumer: Seq<u8>,
    now: u64,
) -> bool {
    &&& p.stream@ == d.0
    &&& p.group@ == group
    &&& p.id == pre.entries@[d.1].entry.id
    &&& p.consumer@ == consumer
    &&& p.delivered_at == now
    &&& p.deliveries == 1
}


/// The positions `fresh` picks are increasing, within range, of the stream, after `after`,
/// and at most `count` of them.
pub proof fn lemma_fresh(es: Seq<StoredEntry>, n: nat, stream: Seq<u8>, after: EntryId, count: nat)
    requires
        n <= es.len(),
    ensures
        fresh(es, n, stream, after, count).len() <= count,
        forall|m: int|
            0 <= m < fresh(es, n, stream, after, count).len() ==> {
                let i = #[trigger] fresh(es, n, stream, after, count)[m];
                &&& 0 <= i < n
                &&& es[i].stream@ == stream
                &&& id_lt(after, es[i].entry.id)
            },
        forall|a: int, b: int|
            0 <= a < b < fresh(es, n, stream, after, count).len() ==> #[trigger] fresh(
                es,
                n,
                stream,
                after,
                count,
            )[a] < #[trigger] fresh(es, n, stream, after, count)[b],
    decreases n,
{
    if n > 0 {
        lemma_fresh(es, (n - 1) as nat, stream, after, count);
    }
}

/// Group lookup depends on the groups' streams and names alone.
pub proof fn lemma_find_group_names(a: Seq<GroupCursor>, b: Seq<GroupCursor>, stream: Seq<u8>, name: Seq<u8>)
    requires
        a.len() == b.len(),
        forall|j: int|
            0 <= j < a.len() ==> (#[trigger] a[j]).stream@ == b[j].stream@ && a[j].name@
                == b[j].name@,
    ensures
        find_group(a, stream, name) == find_group(b, stream, name),
    decreases a.len(),
{
    if a.len() > 0 {
        lemma_find_group_names(a.drop_last(), b.drop_last(), stream, name);
    }
}

/// A group that lookup finds is in range and has the stream and name looked for; one it
/// does not find is nowhere.
pub proof fn lemma_find_group(gs: Seq<GroupCursor>, stream: Seq<u8>, name: Seq<u8>)
    ensures
        find_group(gs, stream, name) matches Some(j) ==> (0 <= j < gs.len() && gs[j].stream@
            == stream && gs[j].name@ == name),
        find_group(gs, stream, name) is None ==> forall|j: int|
            0 <= j < gs.len() ==> !((#[trigger] gs[j]).stream@ == stream && gs[j].name@ == name),
        forall|j: int|
            #![trigger gs[j]]
            0 <= j < gs.len() && gs[j].stream@ == stream && gs[j].name@ == name ==> (find_group(
                gs,
                stream,
                name,
            ) matches Some(k) && j <= k),
    decreases gs.len(),
{
    if gs.len() > 0 {
        let init = gs.drop_last();
        lemma_find_group(init, stream, name);
        assert forall|j: int|
            #![trigger gs[j]]
            0 <= j < gs.len() && gs[j].stream@ == stream && gs[j].name@ == name implies (find_group(
                gs,
                stream,
                name,
            ) matches Some(k) && j <= k) by {
            if !(gs.last().stream@ == stream && gs.last().name@ == name) {
                assert(init[j] == gs[j]);
            }
        }
        if find_group(gs, stream, name) is None {
            assert forall|j: int| 0 <= j < gs.len() implies !((#[trigger] gs[j]).stream@ == stream
                && gs[j].name@ == name) by {
                if j < gs.len() - 1 {
                    assert(init[j] == gs[j]);
                }
            }
        }
    }
}


/// A sequence extended by `y` contains `x` exactly when it did or `x` is `y`.
pub proof fn lemma_contains_push(prefix: Seq<Seq<u8>>, y: Seq<u8>, x: Seq<u8>)
    ensures
        prefix.push(y).contains(x) <==> prefix.contains(x) || x == y,
{
    if prefix.contains(x) {
        let k = choose|k: int| 0 <= k < prefix.len() && prefix[k] == x;
        assert(prefix.push(y)[k] == x);
    }
    if x == y {
        assert(prefix.push(y)[prefix.len() as int] == x);
    }
    if prefix.push(y).contains(x) {
        let k = choose|k: int| 0 <= k < prefix.len() + 1 && prefix.push(y)[k] == x;
        if k < prefix.len() {
            assert(prefix[k] == x);
        }
    }
}


/// Whether `p` has been idle, at `now`, for at least `min_idle` milliseconds.
pub open spec fn idle_enough(p: PendingEntry, min_idle: u64, now: u64) -> bool {
    now >= p.delivered_at && now - p.delivered_at >= min_idle
}

/// Whether the reclaim scan of `group` of `stream` from `start` looks at `p`.
pub open spec fn in_scan(p: PendingEntry, stream: Seq<u8>, group: Seq<u8>, start: EntryId) -> bool {
    p.stream@ == stream && p.group@ == group && id_le(start, p.id)
}

/// The reclaim scan over the first `n` pending deliveries: the positions claimed, and the
/// id the scan stopped at once `count` were claimed, if it stopped.
pub open spec fn scan(
    ps: Seq<PendingEntry>,
    n: nat,
    stream: Seq<u8>,
    group: Seq<u8>,
    start: EntryId,
    min_idle: u64,
    now: u64,
    count: nat,
) -> (Seq<int>, Option<EntryId>)
    decreases n,
{
    if n == 0 {
        (Seq::empty(), None)
    } else {
        let prev = scan(ps, (n - 1) as nat, stream, group, start, min_idle, now, count);
        let p = ps[n - 1];
        if prev.1 is Some || !in_scan(p, stream, group, start) {
            prev
        } else if prev.0.len() >= count {
            (prev.0, Some(p.id))
        } else if idle_enough(p, min_idle, now) {
            (prev.0.push(n - 1), None)
        } else {
            prev
        }
    }
}

/// Whether the reclaim scan claims the pending delivery at position `k`.
pub open spec fn claims(
    ps: Seq<PendingEntry>,
    k: int,
    stream: Seq<u8>,
    group: Seq<u8>,
    start: EntryId,
    min_idle: u64,
    now: u64,
    count: nat,
) -> bool {
    let prev = scan(ps, k as nat, stream, group, start, min_idle, now, count);
    &&& prev.1 is None
    &&& in_scan(ps[k], stream, group, start)
    &&& prev.0.len() < count
    &&& idle_enough(ps[k], min_idle, now)
}

/// `n + 1`, or `n` at the top of the range.
pub open spec fn bumped(n: u64) -> u64 {
    if n < u64::MAX {
        (n + 1) as u64
    } else {
        n
    }
}

/// `q` is `p` handed over to `consumer` at `now`.
pub open spec fn reassigned(p: PendingEntry, q: PendingEntry, consumer: Seq<u8>, now: u64) -> bool {
    &&& q.stream == p.stream
    &&& q.group == p.group
    &&& q.id == p.id
    &&& q.consumer@ == consumer
    &&& q.delivered_at == now
    &&& q.deliveries == bumped(p.deliveries)
}

/// The pending deliveries without those of entry `id` of `stream` in `group`.
pub open spec fn without(ps: Seq<PendingEntry>, stream: Seq<u8>, group: Seq<u8>, id: EntryId) -> Seq<PendingEntry>
    decreases ps.len(),
{
    if ps.len() == 0 {
        Seq::empty()
    } else {
        let w = without(ps.drop_last(), stream, group, id);
        if pending_is(ps.last(), stream, group, id) {
            w
        } else {
            w.push(ps.last())
        }
    }
}

/// The positions the scan claims lie below `n`, in increasing order, and there are at most `count`.
pub proof fn lemma_scan(
    ps: Seq<PendingEntry>,
    n: nat,
    stream: Seq<u8>,
    group: Seq<u8>,
    start: EntryId,
    min_idle: u64,
    now: u64,
    count: nat,
)
    requires
        n <= ps.len(),
    ensures
        scan(ps, n, stream, group, start, min_idle, now, count).0.len() <= count,
        scan(ps, n, stream, group, start, min_idle, now, count).0.len() <= n,
        forall|a: int, b: int|
            0 <= a < b < scan(ps, n, stream, group, start, min_idle, now, count).0.len() ==> #[trigger] scan(
                ps,
                n,
                stream,
                group,
                start,
                min_idle,
                now,
                count,
            ).0[a] < #[trigger] scan(ps, n, stream, group, start, min_idle, now, count).0[b],
        forall|m: int|
            0 <= m < scan(ps, n, stream, group, start, min_idle, now, count).0.len() ==> {
                let k = #[trigger] scan(ps, n, stream, group, start, min_idle, now, count).0[m];
                &&& 0 <= k < n
                &&& claims(ps, k, stream, group, start, min_idle, now, count)
            },
    decreases n,
{
    if n > 0 {
        lemma_scan(ps, (n - 1) as nat, stream, group, start, min_idle, now, count);
    }
}

/// What is left after removing deliveries was there before, and none of it matches what was removed.
pub proof fn lemma_without(ps: Seq<PendingEntry>, stream: Seq<u8>, group: Seq<u8>, id: EntryId)
    ensures
        without(ps, stream, group, id).len() <= ps.len(),
        forall|q: int|
            0 <= q < without(ps, stream, group, id).len() ==> !pending_is(
                #[trigger] without(ps, stream, group, id)[q],
                stream,
                group,
                id,
            ) && exists|k: int| 0 <= k < ps.len() && ps[k] == without(ps, stream, group, id)[q],
    decreases ps.len(),
{
    if ps.len() > 0 {
        let init = ps.drop_last();
        lemma_without(init, stream, group, id);
        let w = without(init, stream, group, id);
        assert forall|q: int|
            0 <= q < without(ps, stream, group, id).len() implies !pending_is(
                #[trigger] without(ps, stream, group, id)[q],
                stream,
                group,
                id,
            ) && exists|k: int| 0 <= k < ps.len() && ps[k] == without(ps, stream, group, id)[q] by {
            if q < w.len() {
                assert(without(ps, stream, group, id)[q] == w[q]);
                let k = choose|k: int| 0 <= k < init.len() && init[k] == w[q];
                assert(ps[k] == init[k]);
            } else {
                assert(ps[ps.len() - 1] == without(ps, stream, group, id)[q]);
            }
        }
    }
}


/// Removing deliveries keeps the rest in order.
pub proof fn lemma_without_ordered(ps: Seq<PendingEntry>, stream: Seq<u8>, group: Seq<u8>, id: EntryId)
    requires
        pending_ordered(ps),
    ensures
        pending_ordered(without(ps, stream, group, id)),
    decreases ps.len(),
{
    if ps.len() > 0 {
        let init = ps.drop_last();
        assert forall|a: int, b: int|
            0 <= a < b < init.len() && (#[trigger] init[a]).stream@ == (#[trigger] init[b]).stream@
                && init[a].group@ == init[b].group@ implies id_lt(init[a].id, init[b].id) by {
            assert(init[a] == ps[a] && init[b] == ps[b]);
        }
        lemma_without_ordered(init, stream, group, id);
        lemma_without(init, stream, group, id);
        let w = without(init, stream, group, id);
        let x = without(ps, stream, group, id);
        assert forall|a: int, b: int|
            0 <= a < b < x.len() && (#[trigger] x[a]).stream@ == (#[trigger] x[b]).stream@
                && x[a].group@ == x[b].group@ implies id_lt(x[a].id, x[b].id) by {
            if b < w.len() {
                assert(x[a] == w[a] && x[b] == w[b]);
            } else {
                assert(x[a] == w[a]);
                let k = choose|k: int| 0 <= k < init.len() && init[k] == w[a];
                assert(ps[k] == init[k]);
                assert(x[b] == ps[ps.len() - 1]);
            }
        }
    }
}

/// The deliveries of a read plan: each is of a stream read, and of an entry the plan
/// picked for that stream; two of one stream come in increasing entry position.
pub proof fn lemma_plan_membership(pre: MemoryStore, group: Seq<u8>, streams: Seq<Seq<u8>>, count: nat)
    ensures
        forall|k: int|
            0 <= k < plan_deliveries(read_plan(pre, group, streams, count)).len() ==> {
                let d = #[trigger] plan_deliveries(read_plan(pre, group, streams, count))[k];
                &&& streams.contains(d.0)
                &&& pre.last_delivered(d.0, group) matches Some(ld) && fresh(
                    pre.entries@,
                    pre.entries@.len(),
                    d.0,
                    ld,
                    count,
                ).contains(d.1)
            },
        forall|a: int, b: int|
            0 <= a < b < plan_deliveries(read_plan(pre, group, streams, count)).len() && (
            #[trigger] plan_deliveries(read_plan(pre, group, streams, count))[a]).0 == (
            #[trigger] plan_deliveries(read_plan(pre, group, streams, count))[b]).0 ==> plan_deliveries(
                read_plan(pre, group, streams, count),
            )[a].1 < plan_deliveries(read_plan(pre, group, streams, count))[b].1,
    decreases streams.len(),
{
    if streams.len() > 0 {
        let init = streams.drop_last();
        lemma_plan_membership(pre, group, init, count);
        let p0 = read_plan(pre, group, init, count);
        let p1 = read_plan(pre, group, streams, count);
        let d0 = plan_deliveries(p0);
        let d1 = plan_deliveries(p1);
        let s = streams.last();
        assert forall|x: Seq<u8>| init.contains(x) implies streams.contains(x) by {
            let q = choose|q: int| 0 <= q < init.len() && init[q] == x;
            assert(streams[q] == init[q]);
        }
        assert(streams[streams.len() - 1] == s);
        if p1 != p0 {
            let ld = pre.last_delivered(s, group)->Some_0;
            let f = fresh(pre.entries@, pre.entries@.len(), s, ld, count);
            lemma_fresh(pre.entries@, pre.entries@.len(), s, ld, count);
            assert(p1 == p0.push((s, f)));
            assert(p1.drop_last() =~= p0);
            assert(d1 == d0 + f.map_values(|i: int| (s, i)));
            assert forall|k: int| 0 <= k < d1.len() implies {
                let d = #[trigger] d1[k];
                &&& streams.contains(d.0)
                &&& pre.last_delivered(d.0, group) matches Some(ld) && fresh(
                    pre.entries@,
                    pre.entries@.len(),
                    d.0,
                    ld,
                    count,
                ).contains(d.1)
            } by {
                if k < d0.len() {
                    assert(d1[k] == d0[k]);
                } else {
                    assert(d1[k] == (s, f[k - d0.len()]));
                }
            }
            assert forall|a: int, b: int|
                0 <= a < b < d1.len() && (#[trigger] d1[a]).0 == (#[trigger] d1[b]).0 implies d1[a].1
                    < d1[b].1 by {
                if b < d0.len() {
                    assert(d1[a] == d0[a] && d1[b] == d0[b]);
                } else if a < d0.len() {
                    assert(d1[a] == d0[a]);
                    assert(d1[b] == (s, f[b - d0.len()]));
                    assert(init.contains(d0[a].0));
                } else {
                    assert(d1[a] == (s, f[a - d0.len()]));
                    assert(d1[b] == (s, f[b - d0.len()]));
                }
            }
        }
    }
}

/// A read keeps pending deliveries within their groups' cursors and in id order.
pub proof fn lemma_read_keeps_order(
    pre: MemoryStore,
    group: Seq<u8>,
    consumer: Seq<u8>,
    streams: Seq<Seq<u8>>,
    count: nat,
    now: u64,
    post: MemoryStore,
    r: Reply,
)
    requires
        pre.wf(),
        MemoryStore::read(pre, group, consumer, streams, count, now, post, r),
    ensures
        post.pending_delivered(),
        pending_ordered(post.pending@),
{
    if pre.has_groups(streams, group) {
        let plan = read_plan(pre, group, streams, count);
        let d = plan_deliveries(plan);
        let n = pre.pending@.len();
        lemma_plan_membership(pre, group, streams, count);
        // The cursor of each group after the read, against its position before.
        assert forall|s: Seq<u8>, g: Seq<u8>| #[trigger] pre.last_delivered(s, g) is Some implies (
        post.last_delivered(s, g) matches Some(b) && id_le(pre.last_delivered(s, g)->Some_0, b)) by {
            lemma_find_group_names(post.groups@, pre.groups@, s, g);
            lemma_find_group(pre.groups@, s, g);
            let j = find_group(pre.groups@, s, g)->Some_0;
            let gc = pre.groups@[j];
            lemma_fresh(pre.entries@, pre.entries@.len(), gc.stream@, gc.last_delivered, count);
            let f = fresh(pre.entries@, pre.entries@.len(), gc.stream@, gc.last_delivered, count);
            if f.len() > 0 {
                assert(f.last() == f[f.len() - 1]);
            }
        }
        assert forall|k: int| 0 <= k < post.pending@.len() implies (post.last_delivered(
            (#[trigger] post.pending@[k]).stream@,
            post.pending@[k].group@,
        ) matches Some(ld) && id_le(post.pending@[k].id, ld)) by {
            let p = post.pending@[k];
            if k < n {
                assert(p == post.pending@.subrange(0, n as int)[k]);
                assert(pre.last_delivered(p.stream@, p.group@) is Some);
            } else {
                let q = k - n;
                assert(records_delivery(pre, post.pending@[n + q], d[q], group, consumer, now));
                let s = d[q].0;
                let ld = pre.last_delivered(s, group)->Some_0;
                let f = fresh(pre.entries@, pre.entries@.len(), s, ld, count);
                lemma_fresh(pre.entries@, pre.entries@.len(), s, ld, count);
                let m = choose|m: int| 0 <= m < f.len() && f[m] == d[q].1;
                lemma_find_group_names(post.groups@, pre.groups@, s, group);
                lemma_find_group(pre.groups@, s, group);
                let j = find_group(pre.groups@, s, group)->Some_0;
                assert(post.groups@[j].last_delivered == pre.entries@[f.last()].entry.id);
                if m < f.len() - 1 {
                    assert(id_lt(pre.entries@[f[m]].entry.id, pre.entries@[f[f.len() - 1]].entry.id));
                }
            }
        }
        assert forall|a: int, b: int|
            0 <= a < b < post.pending@.len() && (#[trigger] post.pending@[a]).stream@ == (
            #[trigger] post.pending@[b]).stream@ && post.pending@[a].group@ == post.pending@[b].group@
            implies id_lt(post.pending@[a].id, post.pending@[b].id) by {
            let pa = post.pending@[a];
            let pb = post.pending@[b];
            if b < n {
                assert(pa == pre.pending@[a] && pb == pre.pending@[b]) by {
                    assert(pa == post.pending@.subrange(0, n as int)[a]);
                    assert(pb == post.pending@.subrange(0, n as int)[b]);
                }
            } else if a < n {
                assert(pa == post.pending@.subrange(0, n as int)[a]);
                assert(pre.pending_delivered());
                assert(pre.last_delivered(pa.stream@, pa.group@) is Some);
                let q = b - n;
                assert(records_delivery(pre, post.pending@[n + q], d[q], group, consumer, now));
                crate::laws::lemma_read_plan(pre, group, streams, count);
                crate::laws::lemma_plan_deliveries(pre, group, plan, count);
            } else {
                let qa = a - n;
                let qb = b - n;
                assert(records_delivery(pre, post.pending@[n + qa], d[qa], group, consumer, now));
                assert(records_delivery(pre, post.pending@[n + qb], d[qb], group, consumer, now));
                crate::laws::lemma_read_plan(pre, group, streams, count);
                crate::laws::lemma_plan_deliveries(pre, group, plan, count);
                assert(d[qa].1 < d[qb].1);
            }
        }
    }
}

impl MemoryStore {
    /// Entries of one stream have strictly increasing ids.
    pub open spec fn entries_ordered(&self) -> bool {
        forall|i: int, j: int|
            0 <= i < j < self.entries@.len() && (#[trigger] self.entries@[i]).stream@ == (
            #[trigger] self.entries@[j]).stream@ ==> id_lt(
                self.entries@[i].entry.id,
                self.entries@[j].entry.id,
            )
    }

    /// Every pending delivery refers to an entry of its stream.
    pub open spec fn pending_known(&self) -> bool {
        forall|k: int|
            0 <= k < self.pending@.len() ==> has_entry(
                self.entries@,
                (#[trigger] self.pending@[k]).stream@,
                self.pending@[k].id,
            )
    }

    /// Every pending delivery belongs to an existing group and lies at or before its cursor.
    pub open spec fn pending_delivered(&self) -> bool {
        forall|k: int|
            0 <= k < self.pending@.len() ==> (self.last_delivered(
                (#[trigger] self.pending@[k]).stream@,
                self.pending@[k].group@,
            ) matches Some(ld) && id_le(self.pending@[k].id, ld))
    }

    /// Entries of one stream have increasing ids; every pending delivery refers to an entry
    /// of its stream, belongs to an existing group, lies at or before the group's cursor, and
    /// the pending deliveries of one stream and group are in increasing id order.
    pub open spec fn wf(&self) -> bool {
        &&& self.entries_ordered()
        &&& self.pending_known()
        &&& self.pending_delivered()
        &&& pending_ordered(self.pending@)
    }

    /// The last id handed to `group` of `stream`, if the group exists.
    pub open spec fn last_delivered(&self, stream: Seq<u8>, group: Seq<u8>) -> Option<EntryId> {
        match find_group(self.groups@, stream, group) {
            Some(j) => Some(self.groups@[j].last_delivered),
            None => None,
        }
    }

    /// `append(stream, fields, now)` turned `pre` into `post` and answered `r`.
    pub open spec fn appended(
        pre: MemoryStore,
        stream: Seq<u8>,
        fields: Seq<(Seq<u8>, Seq<u8>)>,
        now: u64,
        post: MemoryStore,
        r: Reply,
    ) -> bool {
        match next_id(last_id(pre.entries@, stream), now) {
            None => r is Error && post == pre,
            Some(id) => {
                &&& r == Reply::Added(id)
                &&& post.groups == pre.groups
                &&& post.pending == pre.pending
                &&& post.entries@.len() == pre.entries@.len() + 1
                &&& post.entries@.subrange(0, pre.entries@.len() as int) == pre.entries@
                &&& post.entries@.last().stream@ == stream
                &&& post.entries@.last().entry.id == id
                &&& fields_view(post.entries@.last().entry.fields@) == fields
            },
        }
    }

    /// `create_group(stream, group)` turned `pre` into `post` and answered `r`.
    pub open spec fn group_created(
        pre: MemoryStore,
        stream: Seq<u8>,
        group: Seq<u8>,
        post: MemoryStore,
        r: Reply,
    ) -> bool {
        match find_group(pre.groups@, stream, group) {
            Some(_) => post == pre && (r matches Reply::Error(m) && m@ == busy_group_message()),
            None => {
                &&& r == Reply::Done
                &&& post.entries == pre.entries
                &&& post.pending == pre.pending
                &&& post.groups@.len() == pre.groups@.len() + 1
                &&& post.groups@.subrange(0, pre.groups@.len() as int) == pre.groups@
                &&& post.groups@.last().stream@ == stream
                &&& post.groups@.last().name@ == group
                &&& post.groups@.last().last_delivered == last_id(pre.entries@, stream)
            },
        }
    }

    /// Every stream of `streams` has the group `group`.
    pub open spec fn has_groups(&self, streams: Seq<Seq<u8>>, group: Seq<u8>) -> bool {
        forall|k: int| 0 <= k < streams.len() ==> find_group(self.groups@, #[trigger] streams[k], group) is Some
    }

    /// `read_group(group, consumer, streams, count, now)` turned `pre` into `post` and answered `r`.
    pub open spec fn read(
        pre: MemoryStore,
        group: Seq<u8>,
        consumer: Seq<u8>,
        streams: Seq<Seq<u8>>,
        count: nat,
        now: u64,
        post: MemoryStore,
        r: Reply,
    ) -> bool {
        if !pre.has_groups(streams, group) {
            r is Error && post == pre
        } else {
            let plan = read_plan(pre, group, streams, count);
            let d = plan_deliveries(plan);
            &&& r matches Reply::Read(v) && reply_follows(pre, plan, v@)
            &&& post.entries == pre.entries
            &&& post.groups@.len() == pre.groups@.len()
            &&& forall|j: int|
                0 <= j < pre.groups@.len() ==> {
                    &&& (#[trigger] post.groups@[j]).stream == pre.groups@[j].stream
                    &&& post.groups@[j].name == pre.groups@[j].name
                    &&& post.groups@[j].last_delivered == cursor_after_read(pre, group, streams, count, j)
                }
            &&& post.pending@.len() == pre.pending@.len() + d.len()
            &&& post.pending@.subrange(0, pre.pending@.len() as int) == pre.pending@
            &&& forall|k: int|
                0 <= k < d.len() ==> records_delivery(
                    pre,
                    #[trigger] post.pending@[pre.pending@.len() + k],
                    d[k],
                    group,
                    consumer,
                    now,
                )
        }
    }


    /// Copies of the first `count` entries of `stream` that come after `after`, and their positions.
    fn fresh_entries(&self, stream: &Vec<u8>, after: EntryId, count: u64) -> (r: (Vec<usize>, Vec<Entry>))
        ensures
            r.0@.map_values(|x: usize| x as int) == fresh(
                self.entries@,
                self.entries@.len(),
                stream@,
                after,
                count as nat,
            ),
            r.1@.len() == r.0@.len(),
            forall|m: int|
                0 <= m < r.1@.len() ==> r.0@[m] < self.entries@.len() && entry_copies(
                    #[trigger] r.1@[m],
                    self.entries@[r.0@[m] as int],
                ),
    {
        let mut idx: Vec<usize> = Vec::new();
        let mut out: Vec<Entry> = Vec::new();
        let mut k: usize = 0;
        while k < self.entries.len()
            invariant
                k <= self.entries@.len(),
                idx@.map_values(|x: usize| x as int) == fresh(
                    self.entries@,
                    k as nat,
                    stream@,
                    after,
                    count as nat,
                ),
                out@.len() == idx@.len(),
                forall|m: int| 0 <= m < idx@.len() ==> #[trigger] idx@[m] < k,
                forall|m: int|
                    0 <= m < out@.len() ==> entry_copies(
                        #[trigger] out@[m],
                        self.entries@[idx@[m] as int],
                    ),
            decreases self.entries@.len() - k,
        {
            let se = &self.entries[k];
            if bytes_eq(se.stream.as_slice(), stream.as_slice()) && after.is_before(&se.entry.id)
                && (idx.len() as u64) < count {
                let ghost before = idx@;
                let ghost before_out = out@;
                idx.push(k);
                out.push(se.entry.copy());
                proof {
                    assert forall|m: int| 0 <= m < out@.len() implies idx@[m] < k + 1
                        && entry_copies(#[trigger] out@[m], self.entries@[idx@[m] as int]) by {
                        if m < before_out.len() {
                            assert(out@[m] == before_out[m]);
                            assert(idx@[m] == before[m]);
                        }
                    }
                    assert(idx@.map_values(|x: usize| x as int) =~= before.map_values(
                        |x: usize| x as int,
                    ).push(k as int));
                }
            }
            k += 1;
        }
        (idx, out)
    }

    /// Records the delivery to `consumer` of the entries at positions `idx`, all of `stream`.
    fn deliver(&mut self, stream: &Vec<u8>, group: &Vec<u8>, consumer: &Vec<u8>, idx: &Vec<usize>, now: u64)
        requires
            forall|m: int| 0 <= m < idx@.len() ==> #[trigger] idx@[m] < old(self).entries@.len(),
        ensures
            final(self).entries == old(self).entries,
            final(self).groups == old(self).groups,
            final(self).pending@.len() == old(self).pending@.len() + idx@.len(),
            final(self).pending@.subrange(0, old(self).pending@.len() as int) == old(self).pending@,
            forall|m: int|
                0 <= m < idx@.len() ==> records_delivery(
                    *old(self),
                    #[trigger] final(self).pending@[old(self).pending@.len() + m],
                    (stream@, idx@[m] as int),
                    group@,
                    consumer@,
                    now,
                ),
    {
        let ghost pre = *self;
        let mut m: usize = 0;
        while m < idx.len()
            invariant
                m <= idx@.len(),
                self.entries == pre.entries,
                self.groups == pre.groups,
                forall|q: int| 0 <= q < idx@.len() ==> #[trigger] idx@[q] < pre.entries@.len(),
                self.pending@.len() == pre.pending@.len() + m,
                self.pending@.subrange(0, pre.pending@.len() as int) == pre.pending@,
                forall|q: int|
                    0 <= q < m ==> records_delivery(
                        pre,
                        #[trigger] self.pending@[pre.pending@.len() + q],
                        (stream@, idx@[q] as int),
                        group@,
                        consumer@,
                        now,
                    ),
            decreases idx@.len() - m,
        {
            let ghost before = self.pending@;
            let p = PendingEntry {
                stream: copy_bytes(stream),
                group: copy_bytes(group),
                id: self.entries[idx[m]].entry.id,
                consumer: copy_bytes(consumer),
                delivered_at: now,
                deliveries: 1,
            };
            self.pending.push(p);
            m += 1;
            proof {
                assert(self.pending@.subrange(0, pre.pending@.len() as int) =~= before.subrange(
                    0,
                    pre.pending@.len() as int,
                ));
                assert forall|q: int| 0 <= q < m implies records_delivery(
                    pre,
                    #[trigger] self.pending@[pre.pending@.len() + q],
                    (stream@, idx@[q] as int),
                    group@,
                    consumer@,
                    now,
                ) by {
                    if q < m - 1 {
                        assert(self.pending@[pre.pending@.len() + q] == before[pre.pending@.len() + q]);
                    }
                }
            }
        }
    }

    /// Moves the cursor of group `j` to `id`.
    fn set_last_delivered(&mut self, j: usize, id: EntryId)
        requires
            j < old(self).groups@.len(),
        ensures
            final(self).entries == old(self).entries,
            final(self).pending == old(self).pending,
            final(self).groups@.len() == old(self).groups@.len(),
            forall|k: int|
                0 <= k < old(self).groups@.len() && k != j ==> #[trigger] final(self).groups@[k]
                    == old(self).groups@[k],
            final(self).groups@[j as int].stream == old(self).groups@[j as int].stream,
            final(self).groups@[j as int].name == old(self).groups@[j as int].name,
            final(self).groups@[j as int].last_delivered == id,
    {
        let mut gc = self.groups.remove(j);
        gc.last_delivered = id;
        self.groups.insert(j, gc);
    }

    /// Whether `streams[i]` was named before position `i`.
    fn named_before(streams: &Vec<Vec<u8>>, i: usize) -> (r: bool)
        requires
            i < streams@.len(),
        ensures
            r == crate::command::bytes_list(streams@).subrange(0, i as int).contains(streams@[i as int]@),
    {
        let ghost names = crate::command::bytes_list(streams@).subrange(0, i as int);
        let mut k: usize = 0;
        while k < i
            invariant
                k <= i < streams@.len(),
                names == crate::command::bytes_list(streams@).subrange(0, i as int),
                forall|q: int| 0 <= q < k ==> names[q] != streams@[i as int]@,
            decreases i - k,
        {
            if bytes_eq(streams[k].as_slice(), streams[i].as_slice()) {
                assert(names[k as int] == streams@[i as int]@);
                return true;
            }
            k += 1;
        }
        false
    }


    /// Reads, for `consumer` of `group`, up to `count` entries per stream of `streams`
    /// that the group was never handed, and records them as pending for `consumer` at `now`.
    /// A stream named twice is read once. Fails, changing nothing, when a stream lacks the group.
    #[verifier::rlimit(50)]
    pub fn read_group(
        &mut self,
        group: &Vec<u8>,
        consumer: &Vec<u8>,
        streams: &Vec<Vec<u8>>,
        count: u64,
        now: u64,
    ) -> (r: Reply)
        requires
            old(self).wf(),
        ensures
            final(self).wf(),
            MemoryStore::read(
                *old(self),
                group@,
                consumer@,
                crate::command::bytes_list(streams@),
                count as nat,
                now,
                *final(self),
                r,
            ),
    {
        let ghost pre = *self;
        let ghost names = crate::command::bytes_list(streams@);
        let mut i: usize = 0;
        while i < streams.len()
            invariant
                i <= streams@.len(),
                names == crate::command::bytes_list(streams@),
                *self == pre,
                pre.wf(),
                forall|k: int| 0 <= k < i ==> find_group(self.groups@, #[trigger] names[k], group@) is Some,
            decreases streams@.len() - i,
        {
            if self.find_group(&streams[i], group).is_none() {
                assert(find_group(pre.groups@, names[i as int], group@) is None);
                return Reply::Error(no_group_message());
            }
            i += 1;
        }
        assert(pre.has_groups(names, group@));
        let mut out: Vec<StreamEntries> = Vec::new();
        i = 0;
        proof {
            assert(self.pending@.subrange(0, pre.pending@.len() as int) =~= pre.pending@);
            assert(names.subrange(0, 0) =~= Seq::<Seq<u8>>::empty());
            assert forall|j: int| 0 <= j < pre.groups@.len() implies #[trigger] self.groups@[j].last_delivered
                == cursor_after_read(pre, group@, names.subrange(0, 0), count as nat, j) by {
                assert(!names.subrange(0, 0).contains(pre.groups@[j].stream@));
            }
        }
        while i < streams.len()
            invariant
                i <= streams@.len(),
                names == crate::command::bytes_list(streams@),
                pre.wf(),
                pre.has_groups(names, group@),
                self.entries_ordered(),
                self.pending_known(),
                self.entries == pre.entries,
                self.groups@.len() == pre.groups@.len(),
                forall|j: int|
                    0 <= j < pre.groups@.len() ==> {
                        &&& (#[trigger] self.groups@[j]).stream == pre.groups@[j].stream
                        &&& self.groups@[j].name == pre.groups@[j].name
                        &&& self.groups@[j].last_delivered == cursor_after_read(
                            pre,
                            group@,
                            names.subrange(0, i as int),
                            count as nat,
                            j,
                        )
                    },
                self.pending@.len() == pre.pending@.len() + plan_deliveries(
                    read_plan(pre, group@, names.subrange(0, i as int), count as nat),
                ).len(),
                self.pending@.subrange(0, pre.pending@.len() as int) == pre.pending@,
                forall|k: int|
                    0 <= k < plan_deliveries(
                        read_plan(pre, group@, names.subrange(0, i as int), count as nat),
                    ).len() ==> records_delivery(
                        pre,
                        #[trigger] self.pending@[pre.pending@.len() + k],
                        plan_deliveries(
                            read_plan(pre, group@, names.subrange(0, i as int), count as nat),
                        )[k],
                        group@,
                        consumer@,
                        now,
                    ),
                reply_follows(
                    pre,
                    read_plan(pre, group@, names.subrange(0, i as int), count as nat),
                    out@,
                ),
            decreases streams@.len() - i,
        {
            let ghost prefix = names.subrange(0, i as int);
            let ghost next = names.subrange(0, i + 1);
            let ghost s = names[i as int];
            let ghost cur = *self;
            proof {
                assert(next.drop_last() =~= prefix);
                assert(next =~= prefix.push(s));
            }
            if MemoryStore::named_before(streams, i) {
                proof {
                    assert(read_plan(pre, group@, next, count as nat) == read_plan(
                        pre,
                        group@,
                        prefix,
                        count as nat,
                    ));
                    assert forall|j: int| 0 <= j < pre.groups@.len() implies #[trigger] self.groups@[j].last_delivered
                        == cursor_after_read(pre, group@, next, count as nat, j) by {
                        lemma_contains_push(prefix, s, pre.groups@[j].stream@);
                    }
                }
            } else {
                proof {
                    lemma_find_group_names(self.groups@, pre.groups@, s, group@);
                    lemma_find_group(pre.groups@, s, group@);
                    assert(find_group(pre.groups@, names[i as int], group@) is Some);
                }
                let j = match self.find_group(&streams[i], group) {
                    Some(j) => j,
                    None => {
                        proof {
                            assert(false);
                        }
                        return Reply::Read(out);
                    },
                };
                let ld = self.groups[j].last_delivered;
                proof {
                    assert(!prefix.contains(pre.groups@[j as int].stream@));
                    assert(ld == pre.groups@[j as int].last_delivered);
                    assert(pre.last_delivered(s, group@) == Some(ld));
                }
                let ghost f = fresh(pre.entries@, pre.entries@.len(), s, ld, count as nat);
                let (idx, entries) = self.fresh_entries(&streams[i], ld, count);
                proof {
                    lemma_fresh(pre.entries@, pre.entries@.len(), s, ld, count as nat);
                    assert forall|m: int| 0 <= m < idx@.len() implies #[trigger] idx@[m] < self.entries@.len() by {
                        assert(idx@.map_values(|x: usize| x as int)[m] == idx@[m] as int);
                    }
                }
                if idx.len() > 0 {
                    let ghost before_pending = self.pending@;
                    self.deliver(&streams[i], group, consumer, &idx, now);
                    let ghost delivered = *self;
                    let last = self.entries[idx[idx.len() - 1]].entry.id;
                    self.set_last_delivered(j, last);
                    out.push(StreamEntries { stream: copy_bytes(&streams[i]), entries });
                    proof {
                        let plan0 = read_plan(pre, group@, prefix, count as nat);
                        let plan1 = read_plan(pre, group@, next, count as nat);
                        assert(plan1 == plan0.push((s, f)));
                        assert(plan1.drop_last() =~= plan0);
                        let d0 = plan_deliveries(plan0);
                        let d1 = plan_deliveries(plan1);
                        assert(d1 == d0 + f.map_values(|x: int| (s, x)));
                        assert(f.last() == idx@[idx@.len() - 1] as int);
                        assert forall|jj: int| 0 <= jj < pre.groups@.len() implies {
                            &&& (#[trigger] self.groups@[jj]).stream == pre.groups@[jj].stream
                            &&& self.groups@[jj].name == pre.groups@[jj].name
                            &&& self.groups@[jj].last_delivered == cursor_after_read(
                                pre,
                                group@,
                                next,
                                count as nat,
                                jj,
                            )
                        } by {
                            lemma_contains_push(prefix, s, pre.groups@[jj].stream@);
                            if jj != j {
                                assert(self.groups@[jj] == cur.groups@[jj]);
                            }
                        }
                        assert forall|k: int| 0 <= k < d1.len() implies records_delivery(
                            pre,
                            #[trigger] self.pending@[pre.pending@.len() + k],
                            d1[k],
                            group@,
                            consumer@,
                            now,
                        ) by {
                            if k < d0.len() {
                                assert(self.pending@[pre.pending@.len() + k] == before_pending[pre.pending@.len() + k]);
                            } else {
                                let m = k - d0.len();
                                assert(d1[k] == (s, f[m]));
                                assert(f[m] == idx@[m] as int);
                                assert(self.pending@[pre.pending@.len() + k] == self.pending@[before_pending.len() + m]);
                            }
                        }
                        assert(self.pending@.subrange(0, pre.pending@.len() as int) =~= before_pending.subrange(0, pre.pending@.len() as int));
                        assert forall|k: int| 0 <= k < self.pending@.len() implies has_entry(
                            self.entries@,
                            (#[trigger] self.pending@[k]).stream@,
                            self.pending@[k].id,
                        ) by {
                            if k < before_pending.len() {
                                assert(self.pending@[k] == before_pending[k]);
                            } else {
                                let m = k - before_pending.len();
                                assert(f[m] == idx@[m] as int);
                                assert(self.entries@[f[m]].stream@ == s);
                                assert(delivered.pending@[before_pending.len() + m] == self.pending@[k]);
                                assert(records_delivery(
                                    cur,
                                    delivered.pending@[before_pending.len() + m],
                                    (s, idx@[m] as int),
                                    group@,
                                    consumer@,
                                    now,
                                ));
                                assert(self.entries@[f[m]].entry.id == self.pending@[k].id);
                            }
                        }
                        let v = out@;
                        assert forall|k: int| 0 <= k < v.len() implies {
                            &&& (#[trigger] v[k]).stream@ == plan1[k].0
                            &&& v[k].entries@.len() == plan1[k].1.len()
                            &&& forall|m: int|
                                0 <= m < v[k].entries@.len() ==> entry_copies(
                                    #[trigger] v[k].entries@[m],
                                    pre.entries@[plan1[k].1[m]],
                                )
                        } by {
                            if k == v.len() - 1 {
                                assert forall|m: int| 0 <= m < v[k].entries@.len() implies entry_copies(
                                    #[trigger] v[k].entries@[m],
                                    pre.entries@[plan1[k].1[m]],
                                ) by {
                                    assert(f[m] == idx@[m] as int);
                                }
                            }
                        }
                    }
                } else {
                    proof {
                        assert(f.len() == 0);
                        assert(read_plan(pre, group@, next, count as nat) == read_plan(
                            pre,
                            group@,
                            prefix,
                            count as nat,
                        ));
                        assert forall|jj: int| 0 <= jj < pre.groups@.len() implies #[trigger] self.groups@[jj].last_delivered
                            == cursor_after_read(pre, group@, next, count as nat, jj) by {
                            lemma_contains_push(prefix, s, pre.groups@[jj].stream@);
                        }
                    }
                }
            }
            i += 1;
        }
        proof {
            assert(names.subrange(0, i as int) =~= names);
        }
        let r = Reply::Read(out);
        proof {
            assert(MemoryStore::read(pre, group@, consumer@, names, count as nat, now, *self, r));
            lemma_read_keeps_order(pre, group@, consumer@, names, count as nat, now, *self, r);
        }
        r
    }

    /// `autoclaim(stream, group, consumer, min_idle, start, count, now)` turned `pre` into
    /// `post` and answered `r`.
    pub open spec fn claimed(
        pre: MemoryStore,
        stream: Seq<u8>,
        group: Seq<u8>,
        consumer: Seq<u8>,
        min_idle: u64,
        start: EntryId,
        count: nat,
        now: u64,
        post: MemoryStore,
        r: Reply,
    ) -> bool {
        match find_group(pre.groups@, stream, group) {
            None => r is Error && post == pre,
            Some(_) => {
                let sc = scan(pre.pending@, pre.pending@.len(), stream, group, start, min_idle, now, count);
                &&& r matches Reply::Claimed { cursor, entries } && {
                    &&& cursor == match sc.1 {
                        Some(id) => id,
                        None => EntryId::zero_spec(),
                    }
                    &&& entries@.len() == sc.0.len()
                    &&& forall|m: int|
                        0 <= m < entries@.len() ==> (#[trigger] entries@[m]).id == pre.pending@[sc.0[m]].id
                            && exists|j: int|
                            0 <= j < pre.entries@.len() && pre.entries@[j].stream@ == stream
                                && entry_copies(entries@[m], pre.entries@[j])
                }
                &&& post.entries == pre.entries
                &&& post.groups == pre.groups
                &&& post.pending@.len() == pre.pending@.len()
                &&& forall|k: int|
                    0 <= k < pre.pending@.len() ==> if claims(
                        pre.pending@,
                        k,
                        stream,
                        group,
                        start,
                        min_idle,
                        now,
                        count,
                    ) {
                        reassigned(pre.pending@[k], #[trigger] post.pending@[k], consumer, now)
                    } else {
                        post.pending@[k] == pre.pending@[k]
                    }
            },
        }
    }

    /// `ack(stream, group, id)` turned `pre` into `post` and answered `r`.
    pub open spec fn acked(
        pre: MemoryStore,
        stream: Seq<u8>,
        group: Seq<u8>,
        id: EntryId,
        post: MemoryStore,
        r: Reply,
    ) -> bool {
        &&& post.entries == pre.entries
        &&& post.groups == pre.groups
        &&& post.pending@ == without(pre.pending@, stream, group, id)
        &&& r == Reply::Acked((pre.pending@.len() - post.pending@.len()) as u64)
    }

    /// Executing `cmd` at `now` turned `pre` into `post` and answered `r`.
    pub open spec fn executed(pre: MemoryStore, cmd: Command, now: u64, post: MemoryStore, r: Reply) -> bool {
        match cmd {
            Command::Append { stream, fields } => MemoryStore::appended(
                pre,
                stream@,
                fields_view(fields@),
                now,
                post,
                r,
            ),
            Command::CreateGroup { stream, group } => MemoryStore::group_created(
                pre,
                stream@,
                group@,
                post,
                r,
            ),
            Command::ReadGroup { group, consumer, count, block_ms, streams } => MemoryStore::read(
                pre,
                group@,
                consumer@,
                crate::command::bytes_list(streams@),
                count as nat,
                now,
                post,
                r,
            ),
            Command::AutoClaim { stream, group, consumer, min_idle_ms, start, count } =>
                MemoryStore::claimed(
                pre,
                stream@,
                group@,
                consumer@,
                min_idle_ms,
                start,
                count as nat,
                now,
                post,
                r,
            ),
            Command::Ack { stream, group, id } => MemoryStore::acked(
                pre,
                stream@,
                group@,
                id,
                post,
                r,
            ),
        }
    }


    /// The position of entry `id` of `stream`.
    fn find_entry(&self, stream: &Vec<u8>, id: EntryId) -> (r: Option<usize>)
        ensures
            r matches Some(j) ==> (j < self.entries@.len() && self.entries@[j as int].stream@
                == stream@ && self.entries@[j as int].entry.id == id),
            r is None ==> !has_entry(self.entries@, stream@, id),
    {
        let mut j: usize = 0;
        while j < self.entries.len()
            invariant
                j <= self.entries@.len(),
                forall|q: int|
                    0 <= q < j ==> !((#[trigger] self.entries@[q]).stream@ == stream@
                        && self.entries@[q].entry.id == id),
            decreases self.entries@.len() - j,
        {
            if self.entries[j].entry.id == id && bytes_eq(self.entries[j].stream.as_slice(), stream.as_slice()) {
                return Some(j);
            }
            j += 1;
        }
        None
    }

    /// Hands to `consumer`, at `now`, the pending entries of `group` of `stream` from
    /// `start` on that have been idle for at least `min_idle` milliseconds, at most `count`
    /// of them; answers them with the id to resume from, `0-0` once the scan reached the end.
    /// Fails, changing nothing, when the group does not exist.
    #[verifier::rlimit(50)]
    pub fn autoclaim(
        &mut self,
        stream: &Vec<u8>,
        group: &Vec<u8>,
        consumer: &Vec<u8>,
        min_idle: u64,
        start: EntryId,
        count: u64,
        now: u64,
    ) -> (r: Reply)
        requires
            old(self).wf(),
        ensures
            final(self).wf(),
            MemoryStore::claimed(
                *old(self),
                stream@,
                group@,
                consumer@,
                min_idle,
                start,
                count as nat,
                now,
                *final(self),
                r,
            ),
    {
        if self.find_group(stream, group).is_none() {
            return Reply::Error(no_group_message());
        }
        let ghost pre = *self;
        let ghost ps = pre.pending@;
        let mut claimed: Vec<Entry> = Vec::new();
        let mut stop: Option<EntryId> = None;
        let mut k: usize = 0;
        while k < self.pending.len()
            invariant
                pre.wf(),
                ps == pre.pending@,
                k <= ps.len(),
                self.entries == pre.entries,
                self.groups == pre.groups,
                self.pending@.len() == ps.len(),
                stop == scan(ps, k as nat, stream@, group@, start, min_idle, now, count as nat).1,
                claimed@.len() == scan(ps, k as nat, stream@, group@, start, min_idle, now, count as nat).0.len(),
                forall|m: int|
                    0 <= m < claimed@.len() ==> (#[trigger] claimed@[m]).id == ps[scan(
                        ps,
                        k as nat,
                        stream@,
                        group@,
                        start,
                        min_idle,
                        now,
                        count as nat,
                    ).0[m]].id && exists|j: int|
                        0 <= j < pre.entries@.len() && pre.entries@[j].stream@ == stream@
                            && entry_copies(claimed@[m], pre.entries@[j]),
                forall|q: int|
                    0 <= q < k ==> if claims(ps, q, stream@, group@, start, min_idle, now, count as nat) {
                        reassigned(ps[q], #[trigger] self.pending@[q], consumer@, now)
                    } else {
                        self.pending@[q] == ps[q]
                    },
                forall|q: int| k <= q < ps.len() ==> #[trigger] self.pending@[q] == ps[q],
            decreases ps.len() - k,
        {
            let ghost before = *self;
            let ghost before_claimed = claimed@;
            proof {
                lemma_scan(ps, k as nat, stream@, group@, start, min_idle, now, count as nat);
            }
            let pid = self.pending[k].id;
            let in_range = bytes_eq(self.pending[k].stream.as_slice(), stream.as_slice())
                && bytes_eq(self.pending[k].group.as_slice(), group.as_slice())
                && !pid.is_before(&start);
            if stop.is_none() && in_range {
                if claimed.len() as u64 >= count {
                    stop = Some(pid);
                } else if now >= self.pending[k].delivered_at && now - self.pending[k].delivered_at
                    >= min_idle {
                    let ghost mut witness: int = 0;
                    let e = match self.find_entry(stream, pid) {
                        Some(j) => {
                            proof {
                                witness = j as int;
                            }
                            self.entries[j].entry.copy()
                        },
                        None => {
                            proof {
                                assert(has_entry(pre.entries@, ps[k as int].stream@, ps[k as int].id));
                                assert(false);
                            }
                            return Reply::Error(no_group_message());
                        },
                    };
                    claimed.push(e);
                    let mut p = self.pending.remove(k);
                    p.consumer = copy_bytes(consumer);
                    p.delivered_at = now;
                    if p.deliveries < u64::MAX {
                        p.deliveries = p.deliveries + 1;
                    }
                    self.pending.insert(k, p);
                    proof {
                        assert forall|m: int| 0 <= m < claimed@.len() implies (#[trigger] claimed@[m]).id == ps[scan(
                            ps,
                            (k + 1) as nat,
                            stream@,
                            group@,
                            start,
                            min_idle,
                            now,
                            count as nat,
                        ).0[m]].id && exists|j: int|
                            0 <= j < pre.entries@.len() && pre.entries@[j].stream@ == stream@
                                && entry_copies(claimed@[m], pre.entries@[j]) by {
                            if m < before_claimed.len() {
                                assert(claimed@[m] == before_claimed[m]);
                            } else {
                                assert(pre.entries@[witness].stream@ == stream@);
                                assert(entry_copies(claimed@[m], pre.entries@[witness]));
                            }
                        }
                    }
                }
            }
            k += 1;
            proof {
                if claimed@.len() == before_claimed.len() {
                    assert(claimed@ == before_claimed);
                    assert(scan(ps, k as nat, stream@, group@, start, min_idle, now, count as nat).0
                        == scan(ps, (k - 1) as nat, stream@, group@, start, min_idle, now, count as nat).0);
                }
                assert forall|q: int|
                    0 <= q < k implies if claims(ps, q, stream@, group@, start, min_idle, now, count as nat) {
                        reassigned(ps[q], #[trigger] self.pending@[q], consumer@, now)
                    } else {
                        self.pending@[q] == ps[q]
                    } by {
                    if q < k - 1 {
                        assert(self.pending@[q] == before.pending@[q]);
                    }
                }
                assert forall|q: int| k <= q < ps.len() implies #[trigger] self.pending@[q] == ps[q] by {
                    assert(self.pending@[q] == before.pending@[q]);
                }
                assert forall|q: int| 0 <= q < self.pending@.len() implies has_entry(
                    self.entries@,
                    (#[trigger] self.pending@[q]).stream@,
                    self.pending@[q].id,
                ) by {
                    assert(has_entry(pre.entries@, ps[q].stream@, ps[q].id));
                }
            }
        }
        proof {
            assert forall|q: int| 0 <= q < ps.len() implies (#[trigger] self.pending@[q]).stream
                == ps[q].stream && self.pending@[q].group == ps[q].group && self.pending@[q].id
                == ps[q].id by {
                if claims(ps, q, stream@, group@, start, min_idle, now, count as nat) {
                    assert(reassigned(ps[q], self.pending@[q], consumer@, now));
                }
            }
            assert forall|q: int| 0 <= q < self.pending@.len() implies (self.last_delivered(
                (#[trigger] self.pending@[q]).stream@,
                self.pending@[q].group@,
            ) matches Some(ld) && id_le(self.pending@[q].id, ld)) by {
                assert(pre.last_delivered(ps[q].stream@, ps[q].group@) is Some);
            }
            assert forall|a: int, b: int|
                0 <= a < b < self.pending@.len() && (#[trigger] self.pending@[a]).stream@ == (
                #[trigger] self.pending@[b]).stream@ && self.pending@[a].group@ == self.pending@[b].group@
                implies id_lt(self.pending@[a].id, self.pending@[b].id) by {
                assert(ps[a].stream == self.pending@[a].stream && ps[b].stream == self.pending@[b].stream);
            }
        }
        let cursor = match stop {
            Some(id) => id,
            None => EntryId::zero(),
        };
        Reply::Claimed { cursor, entries: claimed }
    }

    /// Removes the pending deliveries of entry `id` of `stream` in `group`; answers how many there were.
    pub fn ack(&mut self, stream: &Vec<u8>, group: &Vec<u8>, id: EntryId) -> (r: Reply)
        requires
            old(self).wf(),
        ensures
            final(self).wf(),
            MemoryStore::acked(*old(self), stream@, group@, id, *final(self), r),
    {
        let ghost pre = self.pending@;
        let before: usize = self.pending.len();
        let mut i: usize = 0;
        let ghost mut k: int = 0;
        proof {
            assert(pre.subrange(0, 0) =~= Seq::<PendingEntry>::empty());
            assert(self.pending@ =~= without(pre.subrange(0, 0), stream@, group@, id) + pre.subrange(0, pre.len() as int));
        }
        while i < self.pending.len()
            invariant
                0 <= k <= pre.len(),
                old(self).wf(),
                pre == old(self).pending@,
                self.entries == old(self).entries,
                self.groups == old(self).groups,
                self.pending@ == without(pre.subrange(0, k), stream@, group@, id) + pre.subrange(k, pre.len() as int),
                i == without(pre.subrange(0, k), stream@, group@, id).len(),
            decreases self.pending@.len() - i,
        {
            let ghost w = without(pre.subrange(0, k), stream@, group@, id);
            proof {
                assert(self.pending@[i as int] == pre[k]);
                assert(pre.subrange(0, k + 1).drop_last() =~= pre.subrange(0, k));
            }
            let p = &self.pending[i];
            if p.id == id && bytes_eq(p.stream.as_slice(), stream.as_slice()) && bytes_eq(p.group.as_slice(), group.as_slice()) {
                self.pending.remove(i);
                proof {
                    assert(self.pending@ =~= w + pre.subrange(k + 1, pre.len() as int));
                }
            } else {
                i += 1;
                proof {
                    assert(self.pending@ =~= w.push(pre[k]) + pre.subrange(k + 1, pre.len() as int));
                }
            }
            proof {
                k = k + 1;
            }
        }
        proof {
            assert(pre.subrange(k, pre.len() as int).len() == 0);
            assert(pre.subrange(0, k) =~= pre);
            assert(self.pending@ =~= without(pre, stream@, group@, id));
            lemma_without(pre, stream@, group@, id);
            assert forall|q: int| 0 <= q < self.pending@.len() implies has_entry(
                self.entries@,
                (#[trigger] self.pending@[q]).stream@,
                self.pending@[q].id,
            ) by {
                let kk = choose|kk: int| 0 <= kk < pre.len() && pre[kk] == without(pre, stream@, group@, id)[q];
                assert(has_entry(self.entries@, pre[kk].stream@, pre[kk].id));
            }
            assert forall|q: int| 0 <= q < self.pending@.len() implies (self.last_delivered(
                (#[trigger] self.pending@[q]).stream@,
                self.pending@[q].group@,
            ) matches Some(ld) && id_le(self.pending@[q].id, ld)) by {
                let kk = choose|kk: int| 0 <= kk < pre.len() && pre[kk] == without(pre, stream@, group@, id)[q];
                assert(old(self).last_delivered(pre[kk].stream@, pre[kk].group@) is Some);
            }
            lemma_without_ordered(pre, stream@, group@, id);
        }
        let n = (before - self.pending.len()) as u64;
        Reply::Acked(n)
    }

    /// Executes `cmd` at `now`.
    pub fn execute(&mut self, cmd: Command, now: u64) -> (r: Reply)
        requires
            old(self).wf(),
        ensures
            final(self).wf(),
            MemoryStore::executed(*old(self), cmd, now, *final(self), r),
    {
        match cmd {
            Command::Append { stream, fields } => self.append(&stream, fields, now),
            Command::CreateGroup { stream, group } => self.create_group(&stream, &group),
            Command::ReadGroup { group, consumer, count, block_ms, streams } => self.read_group(
                &group,
                &consumer,
                &streams,
                count,
                now,
            ),
            Command::AutoClaim { stream, group, consumer, min_idle_ms, start, count } => self.autoclaim(
                &stream,
                &group,
                &consumer,
                min_idle_ms,
                start,
                count,
                now,
            ),
            Command::Ack { stream, group, id } => self.ack(&stream, &group, id),
        }
    }

    /// An empty store.
    pub fn new() -> (r: MemoryStore)
        ensures
            r.wf(),
            r.entries@.len() == 0,
            r.groups@.len() == 0,
            r.pending@.len() == 0,
    {
        MemoryStore { entries: Vec::new(), groups: Vec::new(), pending: Vec::new() }
    }

    /// The id of the last entry of `stream`, or `0-0`.
    pub fn last_id(&self, stream: &Vec<u8>) -> (r: EntryId)
        ensures
            r == last_id(self.entries@, stream@),
    {
        let mut i: usize = self.entries.len();
        proof {
            assert(self.entries@.subrange(0, i as int) =~= self.entries@);
        }
        while i > 0
            invariant
                i <= self.entries@.len(),
                last_id(self.entries@, stream@) == last_id(
                    self.entries@.subrange(0, i as int),
                    stream@,
                ),
            decreases i,
        {
            proof {
                assert(self.entries@.subrange(0, i as int).drop_last() =~= self.entries@.subrange(
                    0,
                    i - 1,
                ));
            }
            if bytes_eq(self.entries[i - 1].stream.as_slice(), stream.as_slice()) {
                return self.entries[i - 1].entry.id;
            }
            i -= 1;
        }
        EntryId::zero()
    }

    /// The position of the group `group` of `stream`.
    pub fn find_group(&self, stream: &Vec<u8>, group: &Vec<u8>) -> (r: Option<usize>)
        ensures
            r matches Some(j) ==> find_group(self.groups@, stream@, group@) == Some(j as int),
            r is None ==> find_group(self.groups@, stream@, group@) is None,
    {
        let mut i: usize = self.groups.len();
        proof {
            assert(self.groups@.subrange(0, i as int) =~= self.groups@);
        }
        while i > 0
            invariant
                i <= self.groups@.len(),
                find_group(self.groups@, stream@, group@) == find_group(
                    self.groups@.subrange(0, i as int),
                    stream@,
                    group@,
                ),
            decreases i,
        {
            proof {
                assert(self.groups@.subrange(0, i as int).drop_last() =~= self.groups@.subrange(
                    0,
                    i - 1,
                ));
            }
            if bytes_eq(self.groups[i - 1].stream.as_slice(), stream.as_slice()) && bytes_eq(
                self.groups[i - 1].name.as_slice(),
                group.as_slice(),
            ) {
                return Some(i - 1);
            }
            i -= 1;
        }
        None
    }

    /// Appends an entry with `fields` to `stream` (creating it) under the next id at `now`.
    pub fn append(&mut self, stream: &Vec<u8>, fields: Vec<Field>, now: u64) -> (r: Reply)
        requires
            old(self).wf(),
        ensures
            final(self).wf(),
            MemoryStore::appended(*old(self), stream@, fields_view(fields@), now, *final(self), r),
    {
        let last = self.last_id(stream);
        let id = if now > last.ms {
            EntryId { ms: now, seq: 0 }
        } else if last.seq < u64::MAX {
            EntryId { ms: last.ms, seq: last.seq + 1 }
        } else {
            return Reply::Error(exhausted_message());
        };
        proof {
            lemma_last_id_bounds(self.entries@, stream@);
        }
        let ghost pre = self.entries@;
        self.entries.push(StoredEntry { stream: copy_bytes(stream), entry: Entry { id, fields } });
        proof {
            assert(self.entries@.subrange(0, pre.len() as int) =~= pre);
            assert forall|k: int| 0 <= k < self.pending@.len() implies has_entry(
                self.entries@,
                (#[trigger] self.pending@[k]).stream@,
                self.pending@[k].id,
            ) by {
                let j = choose|j: int|
                    0 <= j < pre.len() && (#[trigger] pre[j]).stream@ == self.pending@[k].stream@
                        && pre[j].entry.id == self.pending@[k].id;
                assert(self.entries@[j] == pre[j]);
            }
        }
        Reply::Added(id)
    }

    /// Creates `group` on `stream` at the stream's last id; an existing group is refused
    /// with a message starting `BUSYGROUP` and left as it is.
    pub fn create_group(&mut self, stream: &Vec<u8>, group: &Vec<u8>) -> (r: Reply)
        requires
            old(self).wf(),
        ensures
            final(self).wf(),
            MemoryStore::group_created(*old(self), stream@, group@, *final(self), r),
    {
        match self.find_group(stream, group) {
            Some(_) => {
                let m: Vec<u8> = vec![66u8, 85, 83, 89, 71, 82, 79, 85, 80, 32, 103, 114, 111, 117,
                    112, 32, 101, 120, 105, 115, 116, 115];
                proof {
                    assert(m@ =~= busy_group_message());
                }
                Reply::Error(m)
            },
            None => {
                let last = self.last_id(stream);
                let ghost pre = self.groups@;
                self.groups.push(
                    GroupCursor { stream: copy_bytes(stream), name: copy_bytes(group), last_delivered: last },
                );
                proof {
                    assert(self.groups@.subrange(0, pre.len() as int) =~= pre);
                    assert(self.groups@.drop_last() =~= pre);
                    lemma_find_group(pre, stream@, group@);
                    assert forall|k: int| 0 <= k < self.pending@.len() implies (self.last_delivered(
                        (#[trigger] self.pending@[k]).stream@,
                        self.pending@[k].group@,
                    ) matches Some(ld) && id_le(self.pending@[k].id, ld)) by {
                        let p = self.pending@[k];
                        lemma_find_group(pre, p.stream@, p.group@);
                        let j = find_group(pre, p.stream@, p.group@)->Some_0;
                        assert(self.groups@[j] == pre[j]);
                    }
                }
                Reply::Done
            },
        }
    }
}

fn no_group_message() -> (r: Vec<u8>) {
    let m: Vec<u8> = vec![78u8, 79, 71, 82, 79, 85, 80, 32, 110, 111, 32, 115, 117, 99, 104, 32,
        103, 114, 111, 117, 112];
    m
}

fn exhausted_message() -> (r: Vec<u8>) {
    let m: Vec<u8> = vec![69u8, 82, 82, 32, 105, 100, 115, 32, 101, 120, 104, 97, 117, 115, 116,
        101, 100];
    m
}

/// The last id of a stream is the largest id among its entries.
pub proof fn lemma_last_id_bounds(es: Seq<StoredEntry>, stream: Seq<u8>)
    requires
        forall|i: int, j: int|
            0 <= i < j < es.len() && (#[trigger] es[i]).stream@ == (#[trigger] es[j]).stream@
                ==> id_lt(es[i].entry.id, es[j].entry.id),
    ensures
        forall|i: int|
            0 <= i < es.len() && (#[trigger] es[i]).stream@ == stream ==> id_le(
                es[i].entry.id,
                last_id(es, stream),
            ),
    decreases es.len(),
{
    if es.len() > 0 {
        let init = es.drop_last();
        lemma_last_id_bounds(init, stream);
        assert forall|i: int|
            0 <= i < es.len() && (#[trigger] es[i]).stream@ == stream implies id_le(
                es[i].entry.id,
                last_id(es, stream),
            ) by {
            if i < es.len() - 1 {
                assert(init[i] == es[i]);
                if es.last().stream@ == stream {
                    assert(id_lt(es[i].entry.id, es[es.len() - 1].entry.id));
                }
            }
        }
    }
}

} // verus!
