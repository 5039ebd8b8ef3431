//! Properties of whole runs of a world: determinism and the monotonic clock.
use vstd::prelude::*;
use crate::circuit::{Circuit, Gate, JunctionIndex, Level, Time, Wire};
use crate::queue::{due_from, insert_pos, lemma_enqueue, lemma_insert_pos, Signal};
use crate::world::{
    force, gate_changes, lemma_gate_changes, propagate, schedule_all, run_steps, settled, settles_within, step_fits, step_spec,
    update_gates, update_wires, WorldView,
};

verus! {

/// One call on a world: `set_junction`, `step` or `step_to_settled`.
pub enum Call {
    Force(JunctionIndex, Level),
    Step,
    Settle,
}

/// `r` is a state that `call` can leave behind when made on state `s`, as
/// the contract of the corresponding method states it.
pub open spec fn call_result(c: Circuit, s: WorldView, call: Call, r: WorldView) -> bool {
    match call {
        Call::Force(j, level) => r == force(s, j, level),
        Call::Step => step_fits(c, s) && r == step_spec(c, s),
        Call::Settle => exists|n: nat| settles_within(c, s, n) && r == run_steps(c, s, n),
    }
}

/// `r` is a state that the calls, made in order from state `s`, can leave behind.
pub open spec fn runs_to(c: Circuit, s: WorldView, calls: Seq<Call>, r: WorldView) -> bool
    decreases calls.len(),
{
    if calls.len() == 0 {
        r == s
    } else {
        exists|m: WorldView| runs_to(c, s, calls.drop_last(), m) && call_result(c, m, calls.last(), r)
    }
}

/// Every bound on the number of steps within which a world settles leads to
/// the same settled state.
pub proof fn lemma_settle_unique(c: Circuit, s: WorldView, n: nat, m: nat)
    requires
        settles_within(c, s, n),
        settles_within(c, s, m),
    ensures
        run_steps(c, s, n) == run_steps(c, s, m),
        settled(run_steps(c, s, n)),
    decreases n,
{
    if !settled(s) {
        lemma_settle_unique(c, step_spec(c, s), (n - 1) as nat, (m - 1) as nat);
    }
}

/// Determinism: on one circuit, the same calls made from the same state
/// leave the same state, so the same junction levels and the same time.
pub proof fn lemma_runs_deterministic(
    c: Circuit,
    s: WorldView,
    calls: Seq<Call>,
    r1: WorldView,
    r2: WorldView,
)
    requires
        runs_to(c, s, calls, r1),
        runs_to(c, s, calls, r2),
    ensures
        r1 == r2,
    decreases calls.len(),
{
    if calls.len() > 0 {
        let m1 = choose|m: WorldView| runs_to(c, s, calls.drop_last(), m) && call_result(c, m, calls.last(), r1);
        let m2 = choose|m: WorldView| runs_to(c, s, calls.drop_last(), m) && call_result(c, m, calls.last(), r2);
        lemma_runs_deterministic(c, s, calls.drop_last(), m1, m2);
        if let Call::Settle = calls.last() {
            let n1 = choose|n: nat| settles_within(c, m1, n) && r1 == run_steps(c, m1, n);
            let n2 = choose|n: nat| settles_within(c, m1, n) && r2 == run_steps(c, m1, n);
            lemma_settle_unique(c, m1, n1, n2);
        }
    }
}

/// No wire has a negative delay.
pub open spec fn delays_nonnegative(c: Circuit) -> bool {
    forall|k: int| 0 <= k < c.wires@.len() ==> (#[trigger] c.wires@[k]).delay >= 0
}

/// No pending signal is due before the current time.
pub open spec fn on_schedule(s: WorldView) -> bool {
    due_from(s.signals, s.time as int)
}

proof fn lemma_schedule_all_time(s: WorldView, sigs: Seq<Signal>)
    requires
        on_schedule(s),
        forall|i: int| 0 <= i < sigs.len() ==> (#[trigger] sigs[i]).time >= s.time,
    ensures
        schedule_all(s, sigs).time == s.time,
        on_schedule(schedule_all(s, sigs)),
    decreases sigs.len(),
{
    if sigs.len() > 0 {
        let r = sigs.drop_last();
        assert forall|i: int| 0 <= i < r.len() implies (#[trigger] r[i]).time >= s.time by {
            assert(r[i] == sigs[i]);
        }
        lemma_schedule_all_time(s, r);
        lemma_enqueue(schedule_all(s, r).signals, sigs.last());
    }
}

proof fn lemma_update_gates_time(gs: Seq<Gate>, s: WorldView)
    requires
        on_schedule(s),
    ensures
        update_gates(gs, s).time == s.time,
        on_schedule(update_gates(gs, s)),
{
    lemma_gate_changes(gs, s, usize::MAX as int + 1);
    lemma_schedule_all_time(s, gate_changes(gs, s));
}

proof fn lemma_update_wires_time(ws: Seq<Wire>, s: WorldView)
    requires
        on_schedule(s),
        forall|k: int| 0 <= k < ws.len() ==> 0 <= (#[trigger] ws[k]).delay && s.time + ws[k].delay <= i64::MAX,
    ensures
        update_wires(ws, s).time == s.time,
        on_schedule(update_wires(ws, s)),
    decreases ws.len(),
{
    if ws.len() > 0 {
        let r = ws.drop_last();
        assert forall|k: int| 0 <= k < r.len() implies 0 <= (#[trigger] r[k]).delay && s.time + r[k].delay <= i64::MAX by {
            assert(r[k] == ws[k]);
        }
        lemma_update_wires_time(r, s);
        let m = update_wires(r, s);
        let w = ws.last();
        lemma_enqueue(m.signals, Signal { junction: w.output, level: m.junctions[w.input as int], time: (m.time + w.delay) as Time });
    }
}

/// Monotonic time, for one step: the clock only moves when a signal is
/// pending, and then to the earliest pending time, never backwards; no
/// signal is left due before the new time.
pub proof fn lemma_step_time(c: Circuit, s: WorldView)
    requires
        delays_nonnegative(c),
        on_schedule(s),
        step_fits(c, s),
    ensures
        step_spec(c, s).time == (if settled(s) { s.time } else { s.signals[0].time }),
        step_spec(c, s).time >= s.time,
        on_schedule(step_spec(c, s)),
{
    if !settled(s) {
        let q = s.signals;
        let t = q[0].time;
        lemma_insert_pos(q, t);
        let p = propagate(s);
        assert forall|k: int| 0 <= k < p.signals.len() implies (#[trigger] p.signals[k]).time >= t by {
            assert(p.signals[k] == q[k + insert_pos(q, t)]);
        }
        lemma_update_gates_time(c.gates@, p);
        lemma_update_wires_time(c.wires@, update_gates(c.gates@, p));
    }
}

/// Monotonic time, while stepping to a settled state.
pub proof fn lemma_settle_time(c: Circuit, s: WorldView, n: nat)
    requires
        delays_nonnegative(c),
        on_schedule(s),
        settles_within(c, s, n),
    ensures
        run_steps(c, s, n).time >= s.time,
        on_schedule(run_steps(c, s, n)),
    decreases n,
{
    if !settled(s) {
        lemma_step_time(c, s);
        lemma_settle_time(c, step_spec(c, s), (n - 1) as nat);
    }
}

/// Monotonic time over a world's lifetime: with no negative delay, any
/// sequence of calls leaves the clock at or after where it started.
pub proof fn lemma_runs_time(c: Circuit, s: WorldView, calls: Seq<Call>, r: WorldView)
    requires
        delays_nonnegative(c),
        on_schedule(s),
        runs_to(c, s, calls, r),
    ensures
        r.time >= s.time,
        on_schedule(r),
    decreases calls.len(),
{
    if calls.len() > 0 {
        let m = choose|m: WorldView| runs_to(c, s, calls.drop_last(), m) && call_result(c, m, calls.last(), r);
        lemma_runs_time(c, s, calls.drop_last(), m);
        match calls.last() {
            Call::Force(j, level) => {
                lemma_enqueue(m.signals, Signal { junction: j, level: level, time: m.time });
            },
            Call::Step => {
                lemma_step_time(c, m);
            },
            Call::Settle => {
                let n = choose|n: nat| settles_within(c, m, n) && r == run_steps(c, m, n);
                lemma_settle_time(c, m, n);
            },
        }
    }
}

} // verus!
