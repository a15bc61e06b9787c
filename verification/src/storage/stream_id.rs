//! Stream entry ids and their order.
use std::cmp::Ordering;
use vstd::prelude::*;

verus! {

/// The id of a stream entry: a time in milliseconds and a sequence number
/// within that time.
#[derive(Debug, Clone, Copy, PartialEq, Eq, Structural)]
pub struct StreamId {
    pub millis_time: u128,
    pub sequence_num: u64,
}

/// Whether `a` comes before `b` or is `b`: by time, then by sequence number.
pub open spec fn id_le(a: StreamId, b: StreamId) -> bool {
    a.millis_time < b.millis_time || (a.millis_time == b.millis_time && a.sequence_num
        <= b.sequence_num)
}

/// The order of ids: by time, then by sequence number.
pub open spec fn id_order(a: StreamId, b: StreamId) -> Option<Ordering> {
    if a.millis_time == b.millis_time {
        if a.sequence_num < b.sequence_num {
            Some(Ordering::Less)
        } else if a.sequence_num == b.sequence_num {
            Some(Ordering::Equal)
        } else {
            Some(Ordering::Greater)
        }
    } else if a.millis_time < b.millis_time {
        Some(Ordering::Less)
    } else {
        Some(Ordering::Greater)
    }
}

impl PartialOrd for StreamId {
    fn partial_cmp(&self, other: &Self) -> (r: Option<Ordering>) {
        if self.millis_time == other.millis_time {
            if self.sequence_num < other.sequence_num {
                return Some(Ordering::Less);
            } else if self.sequence_num == other.sequence_num {
                return Some(Ordering::Equal);
            } else {
                return Some(Ordering::Greater);
            }
        }
        if self.millis_time < other.millis_time {
            Some(Ordering::Less)
        } else {
            Some(Ordering::Greater)
        }
    }
}

impl vstd::std_specs::cmp::PartialOrdSpecImpl for StreamId {
    open spec fn obeys_partial_cmp_spec() -> bool {
        true
    }

    open spec fn partial_cmp_spec(&self, other: &Self) -> Option<Ordering> {
        id_order(*self, *other)
    }
}

/// `a <= b` in the order of ids.
pub fn id_at_most(a: &StreamId, b: &StreamId) -> (r: bool)
    ensures
        r == id_le(*a, *b),
{
    match a.partial_cmp(b) {
        Some(Ordering::Less) => true,
        Some(Ordering::Equal) => true,
        _ => false,
    }
}

} // verus!
