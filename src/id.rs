//! Entry ids: a millisecond timestamp and a per-millisecond sequence number.

use vstd::prelude::*;

verus! {

/// The identifier of one entry of a stream, ordered by timestamp, then sequence.
#[derive(Clone, Copy, Debug, PartialEq, Eq, Structural, Hash, PartialOrd, Ord, Default)]
pub struct EntryId {
    pub ms: u64,
    pub seq: u64,
}

/// `a` comes strictly before `b`.
pub open spec fn id_lt(a: EntryId, b: EntryId) -> bool {
    a.ms < b.ms || (a.ms == b.ms && a.seq < b.seq)
}

/// `a` comes before `b` or is `b`.
pub open spec fn id_le(a: EntryId, b: EntryId) -> bool {
    id_lt(a, b) || a == b
}

/// The decimal digits of `n`, most significant first, without leading zeros.
pub open spec fn decimal(n: nat) -> Seq<u8>
    decreases n,
{
    if n < 10 {
        seq![(48 + n) as u8]
    } else {
        decimal(n / 10).push((48 + n % 10) as u8)
    }
}

/// The text form of an id: `<ms>-<seq>`.
pub open spec fn id_text(id: EntryId) -> Seq<u8> {
    decimal(id.ms as nat) + seq![45u8] + decimal(id.seq as nat)
}

/// Appends the decimal digits of `n` to `out`.
pub fn push_decimal(out: &mut Vec<u8>, n: u128)
    ensures
        final(out)@ == old(out)@ + decimal(n as nat),
    decreases n,
{
    if n >= 10 {
        push_decimal(out, n / 10);
    }
    out.push((48 + n % 10) as u8);
    proof {
        assert(old(out)@ + decimal(n as nat) =~= final(out)@);
    }
}

impl EntryId {
    /// The id `0-0`, which precedes every entry.
    pub open spec fn zero_spec() -> EntryId {
        EntryId { ms: 0, seq: 0 }
    }

    /// The id that precedes every entry: `0-0`.
    pub fn zero() -> (r: EntryId)
        ensures
            r == EntryId::zero_spec(),
    {
        EntryId { ms: 0, seq: 0 }
    }

    /// Whether `self` comes strictly before `other`.
    pub fn is_before(&self, other: &EntryId) -> (r: bool)
        ensures
            r == id_lt(*self, *other),
    {
        self.ms < other.ms || (self.ms == other.ms && self.seq < other.seq)
    }

    /// The text form the store uses, `<ms>-<seq>`.
    pub fn to_text(&self) -> (r: Vec<u8>)
        ensures
            r@ == id_text(*self),
    {
        let mut out: Vec<u8> = Vec::new();
        push_decimal(&mut out, self.ms as u128);
        out.push(45u8);
        push_decimal(&mut out, self.seq as u128);
        proof {
            assert(out@ =~= id_text(*self));
        }
        out
    }
}

} // verus!
