//! The pending-signal queue, kept sorted by time, and what it says about the
//! future level of each junction.
use vstd::prelude::*;
use crate::circuit::{JunctionIndex, Level, Time};

verus! {

/// At time `time`, junction `junction` will be set to `level`.
#[derive(Clone, Copy, Debug, PartialEq, Eq, Structural)]
pub struct Signal {
    pub junction: JunctionIndex,
    pub level: Level,
    pub time: Time,
}

/// The signals are in ascending order of time.
pub open spec fn sorted(q: Seq<Signal>) -> bool {
    forall|a: int, b: int| 0 <= a < b < q.len() ==> q[a].time <= q[b].time
}

/// The position just after the last signal whose time is at most `t`, 0 if none is.
pub open spec fn insert_pos(q: Seq<Signal>, t: Time) -> int
    decreases q.len(),
{
    if q.len() == 0 {
        0
    } else if q.last().time <= t {
        q.len() as int
    } else {
        insert_pos(q.drop_last(), t)
    }
}

/// The queue with `s` placed after every signal due no later than it, so that
/// signals due at one time keep the order in which they were scheduled.
pub open spec fn enqueue(q: Seq<Signal>, s: Signal) -> Seq<Signal> {
    q.insert(insert_pos(q, s.time), s)
}

/// The level that junction `j` is heading for: that of the last pending signal
/// for it in queue order, or its committed level when none is pending.
pub open spec fn destiny(q: Seq<Signal>, committed: Seq<bool>, j: JunctionIndex) -> bool
    decreases q.len(),
{
    if q.len() == 0 {
        committed[j as int]
    } else if q.last().junction == j {
        q.last().level
    } else {
        destiny(q.drop_last(), committed, j)
    }
}

/// The committed levels after applying the signals in order; a later signal
/// for a junction overrides an earlier one.
pub open spec fn commit(committed: Seq<bool>, q: Seq<Signal>) -> Seq<bool>
    decreases q.len(),
{
    if q.len() == 0 {
        committed
    } else {
        commit(committed, q.drop_last()).update(q.last().junction as int, q.last().level)
    }
}

/// Every signal is for a junction below `n`.
pub open spec fn junctions_below(q: Seq<Signal>, n: int) -> bool {
    forall|k: int| 0 <= k < q.len() ==> (#[trigger] q[k]).junction < n
}

/// Every signal of the queue is due at `t` or later.
pub open spec fn due_from(q: Seq<Signal>, t: int) -> bool {
    forall|k: int| 0 <= k < q.len() ==> (#[trigger] q[k]).time >= t
}

/// Everything after the insert position is due later than `t`; on a sorted
/// queue, everything before it is due no later than `t`.
pub proof fn lemma_insert_pos(q: Seq<Signal>, t: Time)
    ensures
        0 <= insert_pos(q, t) <= q.len(),
        forall|k: int| insert_pos(q, t) <= k < q.len() ==> (#[trigger] q[k]).time > t,
        sorted(q) ==> forall|k: int| 0 <= k < insert_pos(q, t) ==> (#[trigger] q[k]).time <= t,
    decreases q.len(),
{
    if q.len() > 0 && q.last().time > t {
        let r = q.drop_last();
        lemma_insert_pos(r, t);
        assert forall|k: int| insert_pos(q, t) <= k < q.len() implies (#[trigger] q[k]).time > t by {
            if k < q.len() - 1 {
                assert(r[k] == q[k]);
            }
        }
        if sorted(q) {
            assert(sorted(r));
            assert forall|k: int| 0 <= k < insert_pos(q, t) implies (#[trigger] q[k]).time <= t by {
                assert(r[k] == q[k]);
            }
        }
    }
}

/// Placing a signal keeps a sorted queue sorted, holds the same signals plus
/// the new one, and keeps every bound that they all meet.
pub proof fn lemma_enqueue(q: Seq<Signal>, s: Signal)
    ensures
        enqueue(q, s).len() == q.len() + 1,
        sorted(q) ==> sorted(enqueue(q, s)),
        forall|n: int| junctions_below(q, n) && s.junction < n ==> junctions_below(enqueue(q, s), n),
        forall|t: int| due_from(q, t) && s.time >= t ==> due_from(enqueue(q, s), t),
{
    lemma_insert_pos(q, s.time);
    let p = insert_pos(q, s.time);
    let r = enqueue(q, s);
    assert forall|k: int| 0 <= k < r.len() implies #[trigger] r[k] == (if k < p {
        q[k]
    } else if k == p {
        s
    } else {
        q[k - 1]
    }) by {}
    if sorted(q) {
        assert forall|a: int, b: int| 0 <= a < b < r.len() implies r[a].time <= r[b].time by {
            assert(r[a] == (if a < p { q[a] } else if a == p { s } else { q[a - 1] }));
            assert(r[b] == (if b < p { q[b] } else if b == p { s } else { q[b - 1] }));
        }
    }
    assert forall|n: int| junctions_below(q, n) && s.junction < n implies junctions_below(r, n) by {
        assert forall|k: int| 0 <= k < r.len() implies (#[trigger] r[k]).junction < n by {
            if k > p {
                assert(q[k - 1].junction < n);
            } else if k < p {
                assert(q[k].junction < n);
            }
        }
    }
    assert forall|t: int| due_from(q, t) && s.time >= t implies due_from(r, t) by {
        assert forall|k: int| 0 <= k < r.len() implies (#[trigger] r[k]).time >= t by {
            if k > p {
                assert(q[k - 1].time >= t);
            } else if k < p {
                assert(q[k].time >= t);
            }
        }
    }
}

/// Committing signals for junctions below the length keeps the length.
pub proof fn lemma_commit_len(committed: Seq<bool>, q: Seq<Signal>)
    requires
        junctions_below(q, committed.len() as int),
    ensures
        commit(committed, q).len() == committed.len(),
    decreases q.len(),
{
    if q.len() > 0 {
        let r = q.drop_last();
        assert(junctions_below(r, committed.len() as int)) by {
            assert forall|k: int| 0 <= k < r.len() implies (#[trigger] r[k]).junction < committed.len() by {
                assert(q[k] == r[k]);
            }
        }
        lemma_commit_len(committed, r);
    }
}

} // verus!
