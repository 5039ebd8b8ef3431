//! The simulation world: committed junction levels, the clock and the
//! pending-signal queue over a fixed circuit, and the stepping rules.
use vstd::prelude::*;
use crate::circuit::{
    arities_ok, is_full_adder, is_half_adder, outputs, drives, fans_in, gate_output, indices_below, spec_junction_count, Circuit, Gate,
    JunctionIndex, Level, Time, Wire,
};
use crate::queue::{
    commit, destiny, enqueue, insert_pos, junctions_below, lemma_commit_len, lemma_enqueue,
    lemma_insert_pos, sorted, Signal,
};

verus! {

/// Why a world could not be built from a circuit.
#[derive(Clone, Copy, Debug, PartialEq, Eq, Structural)]
pub enum WorldCreationErr {
    /// Two elements drive the same junction.
    FanIn,
    /// A NOT gate does not have exactly one input.
    InvalidGateArity,
}

/// The mutable state of a world, as mathematical values.
pub struct WorldView {
    pub junctions: Seq<bool>,
    pub time: Time,
    pub signals: Seq<Signal>,
}

/// No signal is pending.
pub open spec fn settled(s: WorldView) -> bool {
    s.signals.len() == 0
}

/// The state invariant of a world over circuit `c`.
pub open spec fn valid(c: Circuit, s: WorldView) -> bool {
    &&& !fans_in(c)
    &&& arities_ok(c)
    &&& s.junctions.len() == spec_junction_count(c)
    &&& indices_below(c, s.junctions.len() as int)
    &&& junctions_below(s.signals, s.junctions.len() as int)
    &&& sorted(s.signals)
}

/// A fresh world: every junction low, the clock at 0, nothing pending.
pub open spec fn initial(c: Circuit) -> WorldView {
    WorldView {
        junctions: Seq::new(spec_junction_count(c), |i: int| false),
        time: 0,
        signals: Seq::empty(),
    }
}

/// The state with `sig` added to the pending signals.
pub open spec fn schedule(s: WorldView, sig: Signal) -> WorldView {
    WorldView { junctions: s.junctions, time: s.time, signals: enqueue(s.signals, sig) }
}

/// Forcing junction `j` to `level` at the current time.
pub open spec fn force(s: WorldView, j: JunctionIndex, level: Level) -> WorldView {
    schedule(s, Signal { junction: j, level: level, time: s.time })
}

/// The level that junction `j` is heading for in state `s`.
pub open spec fn destiny_of(s: WorldView, j: JunctionIndex) -> bool {
    destiny(s.signals, s.junctions, j)
}

/// Commits every signal due at the earliest pending time, removes them, and
/// moves the clock to that time.
pub open spec fn propagate(s: WorldView) -> WorldView {
    let t = s.signals[0].time;
    let p = insert_pos(s.signals, t);
    WorldView { junctions: commit(s.junctions, s.signals.take(p)), time: t, signals: s.signals.skip(p) }
}

/// The levels that the inputs of `g` are heading for.
pub open spec fn gate_levels(g: Gate, s: WorldView) -> Seq<bool> {
    g.inputs@.map_values(|j: JunctionIndex| destiny_of(s, j))
}

/// The signal that re-evaluating `g` in state `p` calls for: where its output
/// is not already heading for the level computed from what its inputs are
/// heading for, that level at the current time.
pub open spec fn gate_change(g: Gate, p: WorldView) -> Option<Signal> {
    let v = gate_output(g.behavior, gate_levels(g, p));
    if v != destiny_of(p, g.output) {
        Some(Signal { junction: g.output, level: v, time: p.time })
    } else {
        None
    }
}

/// The signals that the gates call for in state `p`, in gate order. Every
/// gate is evaluated on `p` itself, not on the signals of the others.
pub open spec fn gate_changes(gs: Seq<Gate>, p: WorldView) -> Seq<Signal>
    decreases gs.len(),
{
    if gs.len() == 0 {
        Seq::empty()
    } else {
        match gate_change(gs.last(), p) {
            Some(sig) => gate_changes(gs.drop_last(), p).push(sig),
            None => gate_changes(gs.drop_last(), p),
        }
    }
}

/// The state with the signals scheduled one after the other.
pub open spec fn schedule_all(s: WorldView, sigs: Seq<Signal>) -> WorldView
    decreases sigs.len(),
{
    if sigs.len() == 0 {
        s
    } else {
        schedule(schedule_all(s, sigs.drop_last()), sigs.last())
    }
}

/// Re-evaluates the gates on state `p`, then schedules what they call for.
pub open spec fn update_gates(gs: Seq<Gate>, p: WorldView) -> WorldView {
    schedule_all(p, gate_changes(gs, p))
}

/// Re-evaluates one wire: where its output is not already heading for the
/// committed level of its input, a signal is scheduled after its delay.
pub open spec fn update_wire(w: Wire, s: WorldView) -> WorldView {
    let v = s.junctions[w.input as int];
    if v != destiny_of(s, w.output) {
        schedule(s, Signal { junction: w.output, level: v, time: (s.time + w.delay) as Time })
    } else {
        s
    }
}

/// Re-evaluates the wires in order.
pub open spec fn update_wires(ws: Seq<Wire>, s: WorldView) -> WorldView
    decreases ws.len(),
{
    if ws.len() == 0 {
        s
    } else {
        update_wire(ws.last(), update_wires(ws.drop_last(), s))
    }
}

/// One step of the simulation: nothing when settled; otherwise propagate,
/// then re-evaluate the gates, then the wires.
pub open spec fn step_spec(c: Circuit, s: WorldView) -> WorldView {
    if settled(s) {
        s
    } else {
        update_wires(c.wires@, update_gates(c.gates@, propagate(s)))
    }
}

/// The times that the next step schedules for wires fit the clock's type.
pub open spec fn step_fits(c: Circuit, s: WorldView) -> bool {
    s.signals.len() > 0 ==> forall|k: int|
        0 <= k < c.wires@.len() ==> i64::MIN <= s.signals[0].time + (#[trigger] c.wires@[k]).delay
            <= i64::MAX
}

/// Stepping from `s` reaches a settled state within `n` steps, each of which fits.
pub open spec fn settles_within(c: Circuit, s: WorldView, n: nat) -> bool
    decreases n,
{
    if settled(s) {
        true
    } else if n == 0 {
        false
    } else {
        step_fits(c, s) && settles_within(c, step_spec(c, s), (n - 1) as nat)
    }
}

/// The state after stepping at most `n` times, stopping once settled.
pub open spec fn run_steps(c: Circuit, s: WorldView, n: nat) -> WorldView
    decreases n,
{
    if settled(s) || n == 0 {
        s
    } else {
        run_steps(c, step_spec(c, s), (n - 1) as nat)
    }
}

/// Scheduling a signal for a junction of the world keeps the state valid.
pub proof fn lemma_schedule_valid(c: Circuit, s: WorldView, sig: Signal)
    requires
        valid(c, s),
        sig.junction < s.junctions.len(),
    ensures
        valid(c, schedule(s, sig)),
{
    lemma_enqueue(s.signals, sig);
}

/// Propagating a world with pending signals keeps it valid.
pub proof fn lemma_propagate_valid(c: Circuit, s: WorldView)
    requires
        valid(c, s),
        !settled(s),
    ensures
        valid(c, propagate(s)),
{
    let q = s.signals;
    let p = insert_pos(q, q[0].time);
    lemma_insert_pos(q, q[0].time);
    assert(junctions_below(q.take(p), s.junctions.len() as int)) by {
        assert forall|k: int| 0 <= k < q.take(p).len() implies (#[trigger] q.take(p)[k]).junction < s.junctions.len() by {
            assert(q.take(p)[k] == q[k]);
        }
    }
    lemma_commit_len(s.junctions, q.take(p));
    let r = q.skip(p);
    assert forall|k: int| 0 <= k < r.len() implies (#[trigger] r[k]).junction < s.junctions.len() by {
        assert(r[k] == q[k + p]);
    }
    assert forall|a: int, b: int| 0 <= a < b < r.len() implies r[a].time <= r[b].time by {
        assert(r[a] == q[a + p]);
        assert(r[b] == q[b + p]);
    }
}

/// The gates call only for signals at the current time on their outputs.
pub proof fn lemma_gate_changes(gs: Seq<Gate>, p: WorldView, n: int)
    requires
        forall|k: int| 0 <= k < gs.len() ==> (#[trigger] gs[k]).output < n,
    ensures
        forall|i: int| 0 <= i < gate_changes(gs, p).len() ==> (#[trigger] gate_changes(gs, p)[i]).junction < n
            && gate_changes(gs, p)[i].time == p.time,
    decreases gs.len(),
{
    if gs.len() > 0 {
        let r = gs.drop_last();
        assert forall|k: int| 0 <= k < r.len() implies (#[trigger] r[k]).output < n by {
            assert(r[k] == gs[k]);
        }
        lemma_gate_changes(r, p, n);
        let prev = gate_changes(r, p);
        assert(gs.last() == gs[gs.len() - 1]);
        assert forall|i: int| 0 <= i < gate_changes(gs, p).len() implies (#[trigger] gate_changes(gs, p)[i]).junction < n
            && gate_changes(gs, p)[i].time == p.time by {
            if i < prev.len() {
                assert(gate_changes(gs, p)[i] == prev[i]);
            }
        }
    }
}

/// Scheduling signals for junctions of the world keeps the state valid, its
/// levels and its clock.
pub proof fn lemma_schedule_all_valid(c: Circuit, s: WorldView, sigs: Seq<Signal>)
    requires
        valid(c, s),
        forall|i: int| 0 <= i < sigs.len() ==> (#[trigger] sigs[i]).junction < s.junctions.len(),
    ensures
        valid(c, schedule_all(s, sigs)),
        schedule_all(s, sigs).junctions == s.junctions,
        schedule_all(s, sigs).time == s.time,
    decreases sigs.len(),
{
    if sigs.len() > 0 {
        let r = sigs.drop_last();
        assert forall|i: int| 0 <= i < r.len() implies (#[trigger] r[i]).junction < s.junctions.len() by {
            assert(r[i] == sigs[i]);
        }
        lemma_schedule_all_valid(c, s, r);
        lemma_schedule_valid(c, schedule_all(s, r), sigs.last());
    }
}

/// Re-evaluating gates keeps the state valid.
pub proof fn lemma_update_gates_valid(c: Circuit, gs: Seq<Gate>, s: WorldView)
    requires
        valid(c, s),
        forall|k: int| 0 <= k < gs.len() ==> (#[trigger] gs[k]).output < s.junctions.len(),
    ensures
        valid(c, update_gates(gs, s)),
        update_gates(gs, s).junctions == s.junctions,
        update_gates(gs, s).time == s.time,
{
    lemma_gate_changes(gs, s, s.junctions.len() as int);
    lemma_schedule_all_valid(c, s, gate_changes(gs, s));
}

/// Re-evaluating wires keeps the state valid.
pub proof fn lemma_update_wires_valid(c: Circuit, ws: Seq<Wire>, s: WorldView)
    requires
        valid(c, s),
        forall|k: int| 0 <= k < ws.len() ==> (#[trigger] ws[k]).output < s.junctions.len(),
    ensures
        valid(c, update_wires(ws, s)),
        update_wires(ws, s).junctions == s.junctions,
        update_wires(ws, s).time == s.time,
    decreases ws.len(),
{
    if ws.len() > 0 {
        let r = ws.drop_last();
        assert forall|k: int| 0 <= k < r.len() implies (#[trigger] r[k]).output < s.junctions.len() by {
            assert(r[k] == ws[k]);
        }
        lemma_update_wires_valid(c, r, s);
        let m = update_wires(r, s);
        let w = ws.last();
        let v = m.junctions[w.input as int];
        lemma_schedule_valid(c, m, Signal { junction: w.output, level: v, time: (m.time + w.delay) as Time });
    }
}

/// A step keeps the state valid.
pub proof fn lemma_step_valid(c: Circuit, s: WorldView)
    requires
        valid(c, s),
    ensures
        valid(c, step_spec(c, s)),
{
    if !settled(s) {
        lemma_propagate_valid(c, s);
        let p = propagate(s);
        assert forall|k: int| 0 <= k < c.gates@.len() implies (#[trigger] c.gates@[k]).output < p.junctions.len() by {}
        lemma_update_gates_valid(c, c.gates@, p);
        let g = update_gates(c.gates@, p);
        assert forall|k: int| 0 <= k < c.wires@.len() implies (#[trigger] c.wires@[k]).output < g.junctions.len() by {}
        lemma_update_wires_valid(c, c.wires@, g);
    }
}

/// A circuit together with its committed levels, clock and pending signals.
pub struct World {
    circuit: Circuit,
    junctions: Vec<Level>,
    time: Time,
    signals: Vec<Signal>,
}

impl View for World {
    type V = WorldView;

    closed spec fn view(&self) -> WorldView {
        WorldView { junctions: self.junctions@, time: self.time, signals: self.signals@ }
    }
}

impl World {
    /// The circuit that the world simulates.
    pub closed spec fn spec_circuit(&self) -> Circuit {
        self.circuit
    }

    /// The world's state is valid for its circuit.
    pub open spec fn wf(&self) -> bool {
        valid(self.spec_circuit(), self@)
    }

    /// Builds a world over `circuit`, refusing fan-in and then bad gate arity.
    pub fn new_from_circuit(circuit: Circuit) -> (r: Result<World, WorldCreationErr>)
        requires
            indices_below(circuit, usize::MAX as int),
        ensures
            r matches Ok(w) ==> !fans_in(circuit) && arities_ok(circuit) && w.wf()
                && w.spec_circuit() == circuit && w@ == initial(circuit),
            r matches Err(e) ==> (e == WorldCreationErr::FanIn && fans_in(circuit))
                || (e == WorldCreationErr::InvalidGateArity && !fans_in(circuit) && !arities_ok(circuit)),
    {
        if circuit.has_fan_in() {
            return Err(WorldCreationErr::FanIn);
        }
        if !circuit.gate_arities_valid() {
            return Err(WorldCreationErr::InvalidGateArity);
        }
        let n = circuit.junction_count();
        let mut junctions: Vec<Level> = Vec::new();
        while junctions.len() < n
            invariant
                junctions@.len() <= n,
                forall|x: int| 0 <= x < junctions@.len() ==> !#[trigger] junctions@[x],
            decreases n - junctions@.len(),
        {
            junctions.push(false);
        }
        let w = World { time: 0, signals: Vec::new(), junctions: junctions, circuit: circuit };
        assert(w@.junctions =~= initial(circuit).junctions);
        assert(w@.signals =~= initial(circuit).signals);
        Ok(w)
    }

    /// Builds a world over the given wires and gates.
    pub fn new(wires: Vec<Wire>, gates: Vec<Gate>) -> (r: Result<World, WorldCreationErr>)
        requires
            indices_below(Circuit { wires, gates }, usize::MAX as int),
        ensures
            r matches Ok(w) ==> !fans_in(Circuit { wires, gates }) && arities_ok(Circuit { wires, gates })
                && w.wf() && w.spec_circuit() == (Circuit { wires, gates })
                && w@ == initial(Circuit { wires, gates }),
            r matches Err(e) ==> (e == WorldCreationErr::FanIn && fans_in(Circuit { wires, gates }))
                || (e == WorldCreationErr::InvalidGateArity && !fans_in(Circuit { wires, gates })
                && !arities_ok(Circuit { wires, gates })),
    {
        World::new_from_circuit(Circuit { wires: wires, gates: gates })
    }

    /// Whether no signal is pending.
    pub fn is_settled(&self) -> (r: bool)
        ensures
            r == settled(self@),
    {
        self.signals.len() == 0
    }

    /// The current simulation time.
    pub fn time(&self) -> (r: Time)
        ensures
            r == self@.time,
    {
        self.time
    }

    /// The number of junctions of the world.
    pub fn junction_count(&self) -> (r: usize)
        ensures
            r == self@.junctions.len(),
    {
        self.junctions.len()
    }

    /// The committed level of junction `junction`.
    pub fn junction_level(&self, junction: JunctionIndex) -> (r: Level)
        requires
            junction < self@.junctions.len(),
        ensures
            r == self@.junctions[junction as int],
    {
        self.junctions[junction]
    }

    /// The level that `junction` is heading for: that of its latest pending
    /// signal, else its committed level.
    fn get_junction_destiny(&self, junction: JunctionIndex) -> (r: Level)
        requires
            junction < self@.junctions.len(),
        ensures
            r == destiny_of(self@, junction),
    {
        let mut i: usize = self.signals.len();
        assert(self.signals@.take(i as int) =~= self.signals@);
        while i > 0
            invariant
                i <= self.signals@.len(),
                junction < self@.junctions.len(),
                destiny(self.signals@.take(i as int), self.junctions@, junction) == destiny_of(self@, junction),
            decreases i,
        {
            let s = self.signals[i - 1];
            assert(self.signals@.take(i as int).drop_last() =~= self.signals@.take(i - 1));
            if s.junction == junction {
                return s.level;
            }
            i = i - 1;
        }
        self.junctions[junction]
    }

    /// The position just after the last pending signal due no later than `t`.
    fn position_after(&self, t: Time) -> (r: usize)
        ensures
            r == insert_pos(self.signals@, t),
    {
        let mut i: usize = self.signals.len();
        assert(self.signals@.take(i as int) =~= self.signals@);
        while i > 0 && self.signals[i - 1].time > t
            invariant
                i <= self.signals@.len(),
                insert_pos(self.signals@.take(i as int), t) == insert_pos(self.signals@, t),
            decreases i,
        {
            assert(self.signals@.take(i as int).drop_last() =~= self.signals@.take(i - 1));
            i = i - 1;
        }
        i
    }

    /// Adds a signal to the queue after every signal due no later than it.
    fn insert_signal(&mut self, signal: Signal)
        requires
            old(self).wf(),
            signal.junction < old(self)@.junctions.len(),
        ensures
            final(self).wf(),
            final(self).spec_circuit() == old(self).spec_circuit(),
            final(self)@ == schedule(old(self)@, signal),
    {
        proof {
            lemma_schedule_valid(self.circuit, self@, signal);
            lemma_insert_pos(self.signals@, signal.time);
        }
        let p = self.position_after(signal.time);
        self.signals.insert(p, signal);
    }

    /// Schedules `level` for `junction` at the current time; it is committed
    /// on the next step. The junction is meant to be an input, driven by no
    /// wire or gate.
    pub fn set_junction(&mut self, junction: JunctionIndex, level: Level)
        requires
            old(self).wf(),
            junction < old(self)@.junctions.len(),
            !drives(old(self).spec_circuit(), junction),
        ensures
            final(self).wf(),
            final(self).spec_circuit() == old(self).spec_circuit(),
            final(self)@ == force(old(self)@, junction, level),
    {
        self.insert_signal(Signal { junction: junction, level: level, time: self.time });
    }

    /// Commits the signals due at the earliest pending time and moves the clock there.
    fn propagate_signals(&mut self)
        requires
            old(self).wf(),
            !settled(old(self)@),
        ensures
            final(self).wf(),
            final(self).spec_circuit() == old(self).spec_circuit(),
            final(self)@ == propagate(old(self)@),
    {
        proof {
            lemma_propagate_valid(self.circuit, self@);
        }
        let ghost s0 = self@;
        let ghost c = self.circuit;
        let next_time = self.signals[0].time;
        let p = self.position_after(next_time);
        proof {
            lemma_insert_pos(self.signals@, next_time);
        }
        let mut i: usize = 0;
        while i < p
            invariant
                p <= self.signals@.len(),
                i <= p,
                self.signals@ == s0.signals,
                self.circuit == c,
                self.junctions@.len() == s0.junctions.len(),
                junctions_below(s0.signals, s0.junctions.len() as int),
                self.junctions@ == commit(s0.junctions, s0.signals.take(i as int)),
            decreases p - i,
        {
            let signal = self.signals[i];
            assert(s0.signals.take(i + 1).drop_last() =~= s0.signals.take(i as int));
            self.junctions.set(signal.junction, signal.level);
            i = i + 1;
        }
        let rest = self.signals.split_off(p);
        self.signals = rest;
        self.time = next_time;
        assert(self.signals@ =~= s0.signals.skip(p as int));
    }

    /// The signal that re-evaluating gate `k` schedules, if any.
    fn gate_signal(&self, k: usize) -> (r: Option<Signal>)
        requires
            self.wf(),
            k < self.circuit.gates@.len(),
        ensures
            r == gate_change(self.circuit.gates@[k as int], self@),
    {
        let gate = &self.circuit.gates[k];
        let ghost c = self.circuit;
        let mut levels: Vec<bool> = Vec::new();
        let mut i: usize = 0;
        while i < gate.inputs.len()
            invariant
                i <= gate.inputs@.len(),
                self.wf(),
                c == self.circuit,
                gate == self.circuit.gates@[k as int],
                k < self.circuit.gates@.len(),
                levels@ =~= gate.inputs@.take(i as int).map_values(|j: JunctionIndex| destiny_of(self@, j)),
            decreases gate.inputs@.len() - i,
        {
            assert(gate.inputs@[i as int] < self@.junctions.len());
            let d = self.get_junction_destiny(gate.inputs[i]);
            levels.push(d);
            i = i + 1;
            assert(levels@ =~= gate.inputs@.take(i as int).map_values(|j: JunctionIndex| destiny_of(self@, j)));
        }
        assert(gate.inputs@.take(i as int) =~= gate.inputs@);
        let v = gate.behavior.evaluate(levels.as_slice());
        let d = self.get_junction_destiny(gate.output);
        if v != d {
            Some(Signal { junction: gate.output, level: v, time: self.time })
        } else {
            None
        }
    }

    /// Re-evaluates every gate on the current state, then schedules the
    /// changed outputs at the current time, in gate order.
    fn step_gates(&mut self)
        requires
            old(self).wf(),
        ensures
            final(self).wf(),
            final(self).spec_circuit() == old(self).spec_circuit(),
            final(self)@ == update_gates(old(self).spec_circuit().gates@, old(self)@),
            final(self).time == old(self).time,
    {
        let ghost s0 = self@;
        let ghost c = self.circuit;
        let mut new_signals: Vec<Signal> = Vec::new();
        let mut k: usize = 0;
        while k < self.circuit.gates.len()
            invariant
                k <= c.gates@.len(),
                self.wf(),
                self.circuit == c,
                self@ == s0,
                new_signals@ == gate_changes(c.gates@.take(k as int), s0),
            decreases c.gates@.len() - k,
        {
            assert(c.gates@.take(k + 1).drop_last() =~= c.gates@.take(k as int));
            let sig = self.gate_signal(k);
            match sig {
                Some(sig) => new_signals.push(sig),
                None => {},
            }
            k = k + 1;
        }
        assert(c.gates@.take(k as int) =~= c.gates@);
        proof {
            assert forall|j: int| 0 <= j < c.gates@.len() implies (#[trigger] c.gates@[j]).output < s0.junctions.len() by {}
            lemma_gate_changes(c.gates@, s0, s0.junctions.len() as int);
        }
        let mut i: usize = 0;
        while i < new_signals.len()
            invariant
                i <= new_signals@.len(),
                new_signals@ == gate_changes(c.gates@, s0),
                forall|j: int| 0 <= j < new_signals@.len() ==> (#[trigger] new_signals@[j]).junction < s0.junctions.len(),
                self.wf(),
                valid(c, s0),
                self.circuit == c,
                self@ == schedule_all(s0, new_signals@.take(i as int)),
            decreases new_signals@.len() - i,
        {
            assert(new_signals@.take(i + 1).drop_last() =~= new_signals@.take(i as int));
            proof {
                assert forall|j: int| 0 <= j < new_signals@.take(i as int).len() implies (#[trigger] new_signals@.take(i as int)[j]).junction < s0.junctions.len() by {
                    assert(new_signals@.take(i as int)[j] == new_signals@[j]);
                }
                lemma_schedule_all_valid(c, s0, new_signals@.take(i as int));
            }
            self.insert_signal(new_signals[i]);
            i = i + 1;
        }
        assert(new_signals@.take(i as int) =~= new_signals@);
        proof {
            lemma_schedule_all_valid(c, s0, new_signals@);
        }
    }

    /// The signal that re-evaluating wire `k` schedules, if any.
    fn wire_signal(&self, k: usize) -> (r: Option<Signal>)
        requires
            self.wf(),
            k < self.circuit.wires@.len(),
            i64::MIN <= self.time + self.circuit.wires@[k as int].delay <= i64::MAX,
        ensures
            update_wire(self.circuit.wires@[k as int], self@) == (match r {
                Some(sig) => schedule(self@, sig),
                None => self@,
            }),
            r matches Some(sig) ==> sig.junction < self@.junctions.len(),
    {
        let wire = self.circuit.wires[k];
        let v = self.junctions[wire.input];
        let d = self.get_junction_destiny(wire.output);
        if v != d {
            Some(Signal { junction: wire.output, level: v, time: self.time + wire.delay })
        } else {
            None
        }
    }

    /// Re-evaluates every wire in order, scheduling changed outputs after their delays.
    fn step_wires(&mut self)
        requires
            old(self).wf(),
            forall|k: int| 0 <= k < old(self).circuit.wires@.len() ==> i64::MIN <= old(self).time
                + (#[trigger] old(self).circuit.wires@[k]).delay <= i64::MAX,
        ensures
            final(self).wf(),
            final(self).spec_circuit() == old(self).spec_circuit(),
            final(self)@ == update_wires(old(self).spec_circuit().wires@, old(self)@),
            final(self).time == old(self).time,
    {
        let ghost s0 = self@;
        let ghost c = self.circuit;
        let mut k: usize = 0;
        while k < self.circuit.wires.len()
            invariant
                k <= c.wires@.len(),
                self.wf(),
                self.circuit == c,
                self.time == s0.time,
                forall|k: int| 0 <= k < c.wires@.len() ==> i64::MIN <= s0.time + (#[trigger] c.wires@[k]).delay <= i64::MAX,
                self@ == update_wires(c.wires@.take(k as int), s0),
            decreases c.wires@.len() - k,
        {
            assert(c.wires@.take(k + 1).drop_last() =~= c.wires@.take(k as int));
            let sig = self.wire_signal(k);
            match sig {
                Some(sig) => self.insert_signal(sig),
                None => {},
            }
            k = k + 1;
        }
        assert(c.wires@.take(k as int) =~= c.wires@);
    }

    /// Advances to the earliest pending time: commits what is due, then
    /// re-evaluates gates and wires. Does nothing when settled.
    pub fn step(&mut self)
        requires
            old(self).wf(),
            step_fits(old(self).spec_circuit(), old(self)@),
        ensures
            final(self).wf(),
            final(self).spec_circuit() == old(self).spec_circuit(),
            final(self)@ == step_spec(old(self).spec_circuit(), old(self)@),
            settled(old(self)@) ==> final(self)@ == old(self)@,
            final(self)@.time == (if settled(old(self)@) { old(self)@.time } else { old(self)@.signals[0].time }),
    {
        if self.is_settled() {
            return;
        }
        let ghost s0 = self@;
        self.propagate_signals();
        assert(self.time == s0.signals[0].time);
        self.step_gates();
        assert(forall|k: int| 0 <= k < self.circuit.wires@.len() ==> i64::MIN <= self.time
            + (#[trigger] self.circuit.wires@[k]).delay <= i64::MAX);
        self.step_wires();
    }

    /// Steps until no signal is pending. The world must settle: a circuit
    /// that oscillates never does.
    pub fn step_to_settled(&mut self)
        requires
            old(self).wf(),
            exists|n: nat| settles_within(old(self).spec_circuit(), old(self)@, n),
        ensures
            final(self).wf(),
            final(self).spec_circuit() == old(self).spec_circuit(),
            settled(final(self)@),
            forall|n: nat| #[trigger] settles_within(old(self).spec_circuit(), old(self)@, n)
                ==> final(self)@ == run_steps(old(self).spec_circuit(), old(self)@, n),
    {
        let ghost c = self.circuit;
        let ghost s0 = self@;
        let ghost n0 = choose|n: nat| settles_within(c, s0, n);
        let ghost mut k: nat = 0;
        while !self.is_settled()
            invariant
                self.wf(),
                self.circuit == c,
                settles_within(c, s0, n0),
                forall|n: nat| #[trigger] settles_within(c, s0, n) ==> {
                    &&& n >= k
                    &&& settles_within(c, self@, (n - k) as nat)
                    &&& run_steps(c, s0, n) == run_steps(c, self@, (n - k) as nat)
                },
            decreases n0 - k,
        {
            proof {
                assert(settles_within(c, self@, (n0 - k) as nat));
                assert forall|n: nat| #[trigger] settles_within(c, s0, n) implies {
                    &&& n >= k + 1
                    &&& settles_within(c, step_spec(c, self@), (n - k - 1) as nat)
                    &&& run_steps(c, s0, n) == run_steps(c, step_spec(c, self@), (n - k - 1) as nat)
                } by {
                    assert(settles_within(c, self@, (n - k) as nat));
                }
            }
            self.step();
            proof {
                k = k + 1;
            }
        }
    }

    /// A world over the half adder circuit.
    pub fn new_half_adder() -> (r: World)
        ensures
            r.wf(),
            is_half_adder(r.spec_circuit()),
            r@ == initial(r.spec_circuit()),
    {
        let c = Circuit::new_half_adder();
        proof {
            assert(outputs(c) =~= seq![1usize, 5usize, 3usize, 7usize, 4usize, 9usize, 2usize, 6usize]);
        }
        match World::new_from_circuit(c) {
            Ok(w) => w,
            Err(_) => vstd::pervasive::unreached(),
        }
    }

    /// A world over the full adder circuit.
    pub fn new_full_adder() -> (r: World)
        ensures
            r.wf(),
            is_full_adder(r.spec_circuit()),
            r@ == initial(r.spec_circuit()),
    {
        let c = Circuit::new_full_adder();
        proof {
            assert(outputs(c) =~= seq![
                3usize, 5usize, 4usize, 6usize, 11usize, 9usize, 10usize, 8usize, 14usize, 15usize,
                7usize, 16usize, 12usize, 13usize, 17usize,
            ]);
        }
        match World::new_from_circuit(c) {
            Ok(w) => w,
            Err(_) => vstd::pervasive::unreached(),
        }
    }
}

} // verus!
