//! Circuit topology: wires, gates, their behaviours and structural checks.
use vstd::prelude::*;

verus! {

/// Index of a junction, a two-valued signal line.
pub type JunctionIndex = usize;

/// Simulation clock and wire delays share this unit.
pub type Time = i64;

/// Level of a junction.
pub type Level = bool;

/// How a gate combines the levels of its inputs.
#[derive(Clone, Copy, Debug, PartialEq, Eq, Structural)]
pub enum GateBehavior {
    And,
    Not,
    Or,
    Xor,
}

/// True iff an odd number of the levels are true.
pub open spec fn parity(levels: Seq<bool>) -> bool
    decreases levels.len(),
{
    if levels.len() == 0 {
        false
    } else {
        parity(levels.drop_last()) != levels.last()
    }
}

/// Whether `behavior` can be evaluated on `n` inputs: NOT takes exactly one.
pub open spec fn arity_ok(behavior: GateBehavior, n: nat) -> bool {
    behavior == GateBehavior::Not ==> n == 1
}

/// The output level of a gate with this behaviour on these input levels.
pub open spec fn gate_output(behavior: GateBehavior, levels: Seq<bool>) -> bool {
    match behavior {
        GateBehavior::And => forall|i: int| 0 <= i < levels.len() ==> #[trigger] levels[i],
        GateBehavior::Or => exists|i: int| 0 <= i < levels.len() && #[trigger] levels[i],
        GateBehavior::Xor => parity(levels),
        GateBehavior::Not => !levels[0],
    }
}

impl GateBehavior {
    /// Evaluates the behaviour on the given input levels.
    pub fn evaluate(&self, levels: &[bool]) -> (r: bool)
        requires
            arity_ok(*self, levels@.len()),
        ensures
            r == gate_output(*self, levels@),
    {
        match self {
            GateBehavior::Not => !levels[0],
            GateBehavior::And => {
                let mut acc = true;
                let mut i: usize = 0;
                while i < levels.len()
                    invariant
                        i <= levels@.len(),
                        acc == forall|k: int| 0 <= k < i ==> #[trigger] levels@[k],
                    decreases levels@.len() - i,
                {
                    acc = acc && levels[i];
                    i = i + 1;
                }
                acc
            },
            GateBehavior::Or => {
                let mut acc = false;
                let mut i: usize = 0;
                while i < levels.len()
                    invariant
                        i <= levels@.len(),
                        acc == exists|k: int| 0 <= k < i && #[trigger] levels@[k],
                    decreases levels@.len() - i,
                {
                    acc = acc || levels[i];
                    i = i + 1;
                }
                acc
            },
            GateBehavior::Xor => {
                let mut acc = false;
                let mut i: usize = 0;
                while i < levels.len()
                    invariant
                        i <= levels@.len(),
                        acc == parity(levels@.take(i as int)),
                    decreases levels@.len() - i,
                {
                    assert(levels@.take(i as int + 1).drop_last() =~= levels@.take(i as int));
                    acc = acc != levels[i];
                    i = i + 1;
                }
                assert(levels@.take(levels@.len() as int) =~= levels@);
                acc
            },
        }
    }
}

/// A connection that copies the committed level of `input` to `output`
/// after `delay` time units.
#[derive(Clone, Copy, Debug, PartialEq, Eq, Structural)]
pub struct Wire {
    pub input: JunctionIndex,
    pub output: JunctionIndex,
    pub delay: Time,
}

/// A zero-delay combinational element driving `output` from `inputs`.
pub struct Gate {
    pub inputs: Vec<JunctionIndex>,
    pub output: JunctionIndex,
    pub behavior: GateBehavior,
}

/// The fixed topology of a simulation: its wires and gates, in order.
pub struct Circuit {
    pub wires: Vec<Wire>,
    pub gates: Vec<Gate>,
}

pub open spec fn max(a: usize, b: usize) -> usize {
    if a >= b { a } else { b }
}

/// The largest of the indices, 0 if there are none.
pub open spec fn seq_max(s: Seq<usize>) -> usize
    decreases s.len(),
{
    if s.len() == 0 {
        0
    } else {
        max(seq_max(s.drop_last()), s.last())
    }
}

/// The largest junction that the wires name, 0 if there are none.
pub open spec fn wires_max(ws: Seq<Wire>) -> usize
    decreases ws.len(),
{
    if ws.len() == 0 {
        0
    } else {
        max(wires_max(ws.drop_last()), max(ws.last().input, ws.last().output))
    }
}

/// The largest junction that the gates name, 0 if there are none.
pub open spec fn gates_max(gs: Seq<Gate>) -> usize
    decreases gs.len(),
{
    if gs.len() == 0 {
        0
    } else {
        max(gates_max(gs.drop_last()), max(seq_max(gs.last().inputs@), gs.last().output))
    }
}

/// The largest junction that the circuit names, 0 for an empty circuit.
pub open spec fn spec_max_junction(c: Circuit) -> usize {
    max(wires_max(c.wires@), gates_max(c.gates@))
}

/// The number of junctions of the circuit: one more than the largest it names.
pub open spec fn spec_junction_count(c: Circuit) -> nat {
    (spec_max_junction(c) + 1) as nat
}

/// Every junction that the circuit names is below `n`.
pub open spec fn indices_below(c: Circuit, n: int) -> bool {
    &&& forall|k: int| 0 <= k < c.wires@.len() ==> (#[trigger] c.wires@[k]).input < n
        && c.wires@[k].output < n
    &&& forall|k: int| 0 <= k < c.gates@.len() ==> (#[trigger] c.gates@[k]).output < n
    &&& forall|k: int, i: int|
        0 <= k < c.gates@.len() && 0 <= i < c.gates@[k].inputs@.len()
            ==> #[trigger] c.gates@[k].inputs@[i] < n
}

/// The output junctions of the wires, then of the gates.
pub open spec fn outputs(c: Circuit) -> Seq<usize> {
    c.wires@.map_values(|w: Wire| w.output) + c.gates@.map_values(|g: Gate| g.output)
}

/// Two elements of the circuit drive the same junction.
pub open spec fn fans_in(c: Circuit) -> bool {
    exists|a: int, b: int|
        0 <= a < b < outputs(c).len() && #[trigger] outputs(c)[a] == #[trigger] outputs(c)[b]
}

/// Some wire or gate drives junction `j`.
pub open spec fn drives(c: Circuit, j: usize) -> bool {
    exists|a: int| 0 <= a < outputs(c).len() && #[trigger] outputs(c)[a] == j
}

/// Every gate has an input count that its behaviour can be evaluated on.
pub open spec fn arities_ok(c: Circuit) -> bool {
    forall|k: int|
        0 <= k < c.gates@.len() ==> arity_ok(
            (#[trigger] c.gates@[k]).behavior,
            c.gates@[k].inputs@.len(),
        )
}

impl Wire {
    pub fn new(input: JunctionIndex, output: JunctionIndex, delay: Time) -> (r: Wire)
        ensures
            r == (Wire { input, output, delay }),
    {
        Wire { input: input, output: output, delay: delay }
    }

    /// The same wire with both endpoints moved up by `offset`.
    pub fn offset_junctions(&self, offset: JunctionIndex) -> (r: Wire)
        requires
            self.input + offset <= usize::MAX,
            self.output + offset <= usize::MAX,
        ensures
            r == (Wire { input: (self.input + offset) as usize, output: (self.output + offset) as usize, delay: self.delay }),
    {
        Wire { input: self.input + offset, output: self.output + offset, delay: self.delay }
    }
}

impl Gate {
    pub fn new(inputs: Vec<JunctionIndex>, output: JunctionIndex, behavior: GateBehavior) -> (r: Gate)
        ensures
            r.inputs@ == inputs@,
            r.output == output,
            r.behavior == behavior,
    {
        Gate { inputs: inputs, output: output, behavior: behavior }
    }

    /// The same gate with every junction moved up by `offset`.
    pub fn offset_junctions(&self, offset: JunctionIndex) -> (r: Gate)
        requires
            self.output + offset <= usize::MAX,
            forall|i: int| 0 <= i < self.inputs@.len() ==> #[trigger] self.inputs@[i] + offset <= usize::MAX,
        ensures
            r.inputs@ == self.inputs@.map_values(|j: usize| (j + offset) as usize),
            r.output == self.output + offset,
            r.behavior == self.behavior,
    {
        let mut inputs: Vec<JunctionIndex> = Vec::new();
        let mut i: usize = 0;
        while i < self.inputs.len()
            invariant
                i <= self.inputs@.len(),
                forall|i: int| 0 <= i < self.inputs@.len() ==> #[trigger] self.inputs@[i] + offset <= usize::MAX,
                inputs@ == self.inputs@.take(i as int).map_values(|j: usize| (j + offset) as usize),
            decreases self.inputs@.len() - i,
        {
            inputs.push(self.inputs[i] + offset);
            i = i + 1;
            assert(inputs@ =~= self.inputs@.take(i as int).map_values(|j: usize| (j + offset) as usize));
        }
        assert(self.inputs@.take(i as int) =~= self.inputs@);
        Gate { inputs: inputs, output: self.output + offset, behavior: self.behavior }
    }
}

proof fn lemma_seq_max_below(s: Seq<usize>, n: int)
    requires
        n > 0,
        forall|i: int| 0 <= i < s.len() ==> #[trigger] s[i] < n,
    ensures
        seq_max(s) < n,
    decreases s.len(),
{
    if s.len() > 0 {
        lemma_seq_max_below(s.drop_last(), n);
    }
}

proof fn lemma_wires_max_below(ws: Seq<Wire>, n: int)
    requires
        n > 0,
        forall|k: int| 0 <= k < ws.len() ==> (#[trigger] ws[k]).input < n && ws[k].output < n,
    ensures
        wires_max(ws) < n,
    decreases ws.len(),
{
    if ws.len() > 0 {
        lemma_wires_max_below(ws.drop_last(), n);
    }
}

proof fn lemma_gates_max_below(gs: Seq<Gate>, n: int)
    requires
        n > 0,
        forall|k: int| 0 <= k < gs.len() ==> (#[trigger] gs[k]).output < n,
        forall|k: int, i: int| 0 <= k < gs.len() && 0 <= i < gs[k].inputs@.len() ==> #[trigger] gs[k].inputs@[i] < n,
    ensures
        gates_max(gs) < n,
    decreases gs.len(),
{
    if gs.len() > 0 {
        lemma_gates_max_below(gs.drop_last(), n);
        let last = gs.last();
        assert forall|i: int| 0 <= i < last.inputs@.len() implies #[trigger] last.inputs@[i] < n by {
            assert(gs[gs.len() - 1].inputs@[i] < n);
        }
        lemma_seq_max_below(last.inputs@, n);
    }
}

/// Every index named by a circuit whose indices stay below `n` is below `n`, and so is the largest.
pub proof fn lemma_max_junction_below(c: Circuit, n: int)
    requires
        n > 0,
        indices_below(c, n),
    ensures
        spec_max_junction(c) < n,
{
    lemma_wires_max_below(c.wires@, n);
    lemma_gates_max_below(c.gates@, n);
}

/// The half adder: inputs at junctions 0 and 8, carry at 3, sum at 7.
pub open spec fn is_half_adder(c: Circuit) -> bool {
    &&& c.wires@ == seq![
        Wire { input: 0, output: 1, delay: 4 },
        Wire { input: 0, output: 5, delay: 8 },
        Wire { input: 2, output: 3, delay: 4 },
        Wire { input: 6, output: 7, delay: 3 },
        Wire { input: 8, output: 4, delay: 8 },
        Wire { input: 8, output: 9, delay: 4 },
    ]
    &&& c.gates@.len() == 2
    &&& c.gates@[0].inputs@ == seq![1usize, 4usize] && c.gates@[0].output == 2
        && c.gates@[0].behavior == GateBehavior::And
    &&& c.gates@[1].inputs@ == seq![5usize, 9usize] && c.gates@[1].output == 6
        && c.gates@[1].behavior == GateBehavior::Xor
}

/// The full adder: inputs at junctions 0, 1 and 2, sum at 16, carry at 17.
pub open spec fn is_full_adder(c: Circuit) -> bool {
    &&& c.wires@ == seq![
        Wire { input: 0, output: 3, delay: 1 },
        Wire { input: 0, output: 5, delay: 1 },
        Wire { input: 1, output: 4, delay: 1 },
        Wire { input: 1, output: 6, delay: 1 },
        Wire { input: 2, output: 11, delay: 1 },
        Wire { input: 2, output: 9, delay: 1 },
        Wire { input: 7, output: 10, delay: 1 },
        Wire { input: 7, output: 8, delay: 1 },
        Wire { input: 12, output: 14, delay: 1 },
        Wire { input: 13, output: 15, delay: 1 },
    ]
    &&& c.gates@.len() == 5
    &&& c.gates@[0].inputs@ == seq![3usize, 4usize] && c.gates@[0].output == 7
        && c.gates@[0].behavior == GateBehavior::Xor
    &&& c.gates@[1].inputs@ == seq![10usize, 11usize] && c.gates@[1].output == 16
        && c.gates@[1].behavior == GateBehavior::Xor
    &&& c.gates@[2].inputs@ == seq![8usize, 9usize] && c.gates@[2].output == 12
        && c.gates@[2].behavior == GateBehavior::And
    &&& c.gates@[3].inputs@ == seq![5usize, 6usize] && c.gates@[3].output == 13
        && c.gates@[3].behavior == GateBehavior::And
    &&& c.gates@[4].inputs@ == seq![14usize, 15usize] && c.gates@[4].output == 17
        && c.gates@[4].behavior == GateBehavior::Or
}

impl Circuit {
    pub fn new(wires: Vec<Wire>, gates: Vec<Gate>) -> (r: Circuit)
        ensures
            r.wires@ == wires@,
            r.gates@ == gates@,
    {
        Circuit { wires: wires, gates: gates }
    }

    /// Builds the half adder circuit.
    pub fn new_half_adder() -> (r: Circuit)
        ensures
            is_half_adder(r),
    {
        let wires = Circuit::wires_from_tuples(vec![
            (0, 1, 4),
            (0, 5, 8),
            (2, 3, 4),
            (6, 7, 3),
            (8, 4, 8),
            (8, 9, 4),
        ]);
        let gates = vec![
            Gate { inputs: vec![1, 4], output: 2, behavior: GateBehavior::And },
            Gate { inputs: vec![5, 9], output: 6, behavior: GateBehavior::Xor },
        ];
        let r = Circuit { wires: wires, gates: gates };
        assert(r.wires@ =~= seq![
            Wire { input: 0, output: 1, delay: 4 },
            Wire { input: 0, output: 5, delay: 8 },
            Wire { input: 2, output: 3, delay: 4 },
            Wire { input: 6, output: 7, delay: 3 },
            Wire { input: 8, output: 4, delay: 8 },
            Wire { input: 8, output: 9, delay: 4 },
        ]);
        r
    }

    /// Builds the full adder circuit.
    pub fn new_full_adder() -> (r: Circuit)
        ensures
            is_full_adder(r),
    {
        let wires = Circuit::wires_from_tuples(vec![
            (0, 3, 1),
            (0, 5, 1),
            (1, 4, 1),
            (1, 6, 1),
            (2, 11, 1),
            (2, 9, 1),
            (7, 10, 1),
            (7, 8, 1),
            (12, 14, 1),
            (13, 15, 1),
        ]);
        let gates = vec![
            Gate { inputs: vec![3, 4], output: 7, behavior: GateBehavior::Xor },
            Gate { inputs: vec![10, 11], output: 16, behavior: GateBehavior::Xor },
            Gate { inputs: vec![8, 9], output: 12, behavior: GateBehavior::And },
            Gate { inputs: vec![5, 6], output: 13, behavior: GateBehavior::And },
            Gate { inputs: vec![14, 15], output: 17, behavior: GateBehavior::Or },
        ];
        let r = Circuit { wires: wires, gates: gates };
        assert(r.wires@ =~= seq![
            Wire { input: 0, output: 3, delay: 1 },
            Wire { input: 0, output: 5, delay: 1 },
            Wire { input: 1, output: 4, delay: 1 },
            Wire { input: 1, output: 6, delay: 1 },
            Wire { input: 2, output: 11, delay: 1 },
            Wire { input: 2, output: 9, delay: 1 },
            Wire { input: 7, output: 10, delay: 1 },
            Wire { input: 7, output: 8, delay: 1 },
            Wire { input: 12, output: 14, delay: 1 },
            Wire { input: 13, output: 15, delay: 1 },
        ]);
        r
    }

    /// One wire per `(input, output, delay)` triple, in order.
    pub fn wires_from_tuples(wire_tuples: Vec<(JunctionIndex, JunctionIndex, Time)>) -> (r: Vec<Wire>)
        ensures
            r@.len() == wire_tuples@.len(),
            forall|k: int| 0 <= k < r@.len() ==> #[trigger] r@[k] == (Wire {
                input: wire_tuples@[k].0,
                output: wire_tuples@[k].1,
                delay: wire_tuples@[k].2,
            }),
    {
        let mut r: Vec<Wire> = Vec::new();
        let mut i: usize = 0;
        while i < wire_tuples.len()
            invariant
                i <= wire_tuples@.len(),
                r@.len() == i,
                forall|k: int| 0 <= k < i ==> #[trigger] r@[k] == (Wire {
                    input: wire_tuples@[k].0,
                    output: wire_tuples@[k].1,
                    delay: wire_tuples@[k].2,
                }),
            decreases wire_tuples@.len() - i,
        {
            let t = wire_tuples[i];
            r.push(Wire::new(t.0, t.1, t.2));
            i = i + 1;
        }
        r
    }

    /// The same circuit with every junction moved up by `offset`.
    pub fn offset_junctions(&self, offset: JunctionIndex) -> (r: Circuit)
        requires
            indices_below(*self, usize::MAX - offset + 1),
        ensures
            r.wires@.len() == self.wires@.len(),
            forall|k: int| 0 <= k < r.wires@.len() ==> #[trigger] r.wires@[k] == (Wire {
                input: (self.wires@[k].input + offset) as usize,
                output: (self.wires@[k].output + offset) as usize,
                delay: self.wires@[k].delay,
            }),
            r.gates@.len() == self.gates@.len(),
            forall|k: int| 0 <= k < r.gates@.len() ==> {
                &&& (#[trigger] r.gates@[k]).inputs@ == self.gates@[k].inputs@.map_values(|j: usize| (j + offset) as usize)
                &&& r.gates@[k].output == self.gates@[k].output + offset
                &&& r.gates@[k].behavior == self.gates@[k].behavior
            },
    {
        let mut wires: Vec<Wire> = Vec::new();
        let mut i: usize = 0;
        while i < self.wires.len()
            invariant
                i <= self.wires@.len(),
                indices_below(*self, usize::MAX - offset + 1),
                wires@.len() == i,
                forall|k: int| 0 <= k < i ==> #[trigger] wires@[k] == (Wire {
                    input: (self.wires@[k].input + offset) as usize,
                    output: (self.wires@[k].output + offset) as usize,
                    delay: self.wires@[k].delay,
                }),
            decreases self.wires@.len() - i,
        {
            assert(self.wires@[i as int].input < usize::MAX - offset + 1);
            wires.push(self.wires[i].offset_junctions(offset));
            i = i + 1;
        }
        let mut gates: Vec<Gate> = Vec::new();
        let mut i: usize = 0;
        while i < self.gates.len()
            invariant
                i <= self.gates@.len(),
                indices_below(*self, usize::MAX - offset + 1),
                gates@.len() == i,
                forall|k: int| 0 <= k < i ==> {
                    &&& (#[trigger] gates@[k]).inputs@ == self.gates@[k].inputs@.map_values(|j: usize| (j + offset) as usize)
                    &&& gates@[k].output == self.gates@[k].output + offset
                    &&& gates@[k].behavior == self.gates@[k].behavior
                },
            decreases self.gates@.len() - i,
        {
            let gate = &self.gates[i];
            assert(gate.output < usize::MAX - offset + 1);
            assert forall|j: int| 0 <= j < gate.inputs@.len() implies #[trigger] gate.inputs@[j] + offset <= usize::MAX by {
                assert(self.gates@[i as int].inputs@[j] < usize::MAX - offset + 1);
            }
            gates.push(gate.offset_junctions(offset));
            i = i + 1;
        }
        Circuit { wires: wires, gates: gates }
    }

    /// The largest junction index that a wire or gate names, 0 if none does.
    pub fn max_junction(&self) -> (r: JunctionIndex)
        ensures
            r == spec_max_junction(*self),
            indices_below(*self, r + 1),
    {
        let mut max_wires: usize = 0;
        let mut i: usize = 0;
        while i < self.wires.len()
            invariant
                i <= self.wires@.len(),
                max_wires == wires_max(self.wires@.take(i as int)),
                forall|k: int| 0 <= k < i ==> (#[trigger] self.wires@[k]).input <= max_wires
                    && self.wires@[k].output <= max_wires,
            decreases self.wires@.len() - i,
        {
            let wire = self.wires[i];
            assert(self.wires@.take(i + 1).drop_last() =~= self.wires@.take(i as int));
            let m = if wire.input >= wire.output { wire.input } else { wire.output };
            if m > max_wires {
                max_wires = m;
            }
            i = i + 1;
        }
        assert(self.wires@.take(i as int) =~= self.wires@);
        let mut max_gates: usize = 0;
        let mut i: usize = 0;
        while i < self.gates.len()
            invariant
                i <= self.gates@.len(),
                max_gates == gates_max(self.gates@.take(i as int)),
                forall|k: int| 0 <= k < i ==> (#[trigger] self.gates@[k]).output <= max_gates,
                forall|k: int, j: int| 0 <= k < i && 0 <= j < self.gates@[k].inputs@.len()
                    ==> #[trigger] self.gates@[k].inputs@[j] <= max_gates,
            decreases self.gates@.len() - i,
        {
            let gate = &self.gates[i];
            let mut max_inputs: usize = 0;
            let mut j: usize = 0;
            while j < gate.inputs.len()
                invariant
                    j <= gate.inputs@.len(),
                    max_inputs == seq_max(gate.inputs@.take(j as int)),
                    forall|l: int| 0 <= l < j ==> #[trigger] gate.inputs@[l] <= max_inputs,
                decreases gate.inputs@.len() - j,
            {
                assert(gate.inputs@.take(j + 1).drop_last() =~= gate.inputs@.take(j as int));
                if gate.inputs[j] > max_inputs {
                    max_inputs = gate.inputs[j];
                }
                j = j + 1;
            }
            assert(gate.inputs@.take(j as int) =~= gate.inputs@);
            assert(self.gates@.take(i + 1).drop_last() =~= self.gates@.take(i as int));
            let m = if max_inputs >= gate.output { max_inputs } else { gate.output };
            if m > max_gates {
                max_gates = m;
            }
            i = i + 1;
        }
        assert(self.gates@.take(i as int) =~= self.gates@);
        if max_gates >= max_wires { max_gates } else { max_wires }
    }

    /// How many junctions the circuit has: one more than the largest index it names.
    pub fn junction_count(&self) -> (r: JunctionIndex)
        requires
            indices_below(*self, usize::MAX as int),
        ensures
            r == spec_junction_count(*self),
            indices_below(*self, r as int),
    {
        proof {
            lemma_max_junction_below(*self, usize::MAX as int);
        }
        self.max_junction() + 1
    }

    /// Whether two of the wires and gates drive the same junction.
    pub fn has_fan_in(&self) -> (r: bool)
        requires
            indices_below(*self, usize::MAX as int),
        ensures
            r == fans_in(*self),
    {
        let n = self.junction_count();
        proof {
            lemma_max_junction_below(*self, usize::MAX as int);
        }
        let ghost outs = outputs(*self);
        let ghost nw = self.wires@.len() as int;
        let mut claimed: Vec<bool> = Vec::new();
        while claimed.len() < n
            invariant
                claimed@.len() <= n,
                forall|x: int| 0 <= x < claimed@.len() ==> !#[trigger] claimed@[x],
            decreases n - claimed@.len(),
        {
            claimed.push(false);
        }
        let mut i: usize = 0;
        while i < self.wires.len()
            invariant
                i <= nw,
                nw == self.wires@.len(),
                outs == outputs(*self),
                n == spec_junction_count(*self),
                indices_below(*self, n as int),
                claimed@.len() == n,
                forall|x: int| 0 <= x < n ==> (#[trigger] claimed@[x] <==> exists|k: int| 0 <= k < i && outs[k] == x),
                forall|a: int, b: int| 0 <= a < b < i ==> outs[a] != outs[b],
            decreases nw - i,
        {
            let out = self.wires[i].output;
            assert(outs[i as int] == out);
            if claimed[out] {
                let ghost k = choose|k: int| 0 <= k < i && outs[k] == out;
                assert(outs[k] == outs[i as int]);
                return true;
            }
            claimed.set(out, true);
            i = i + 1;
            assert forall|x: int| 0 <= x < n implies (#[trigger] claimed@[x] <==> exists|k: int| 0 <= k < i && outs[k] == x) by {
                if x == out {
                    assert(outs[i - 1] == x);
                }
            }
        }
        let mut i: usize = 0;
        while i < self.gates.len()
            invariant
                i <= self.gates@.len(),
                nw == self.wires@.len(),
                outs == outputs(*self),
                outs.len() == nw + self.gates@.len(),
                n == spec_junction_count(*self),
                indices_below(*self, n as int),
                claimed@.len() == n,
                forall|x: int| 0 <= x < n ==> (#[trigger] claimed@[x] <==> exists|k: int| 0 <= k < nw + i && outs[k] == x),
                forall|a: int, b: int| 0 <= a < b < nw + i ==> outs[a] != outs[b],
            decreases self.gates@.len() - i,
        {
            let out = self.gates[i].output;
            assert(outs[nw + i] == out);
            if claimed[out] {
                let ghost k = choose|k: int| 0 <= k < nw + i && outs[k] == out;
                assert(outs[k] == outs[nw + i]);
                return true;
            }
            claimed.set(out, true);
            i = i + 1;
            assert forall|x: int| 0 <= x < n implies (#[trigger] claimed@[x] <==> exists|k: int| 0 <= k < nw + i && outs[k] == x) by {
                if x == out {
                    assert(outs[nw + i - 1] == x);
                }
            }
        }
        false
    }

    /// Whether every gate has an input count that its behaviour accepts.
    pub fn gate_arities_valid(&self) -> (r: bool)
        ensures
            r == arities_ok(*self),
    {
        let mut i: usize = 0;
        while i < self.gates.len()
            invariant
                i <= self.gates@.len(),
                forall|k: int| 0 <= k < i ==> arity_ok((#[trigger] self.gates@[k]).behavior, self.gates@[k].inputs@.len()),
            decreases self.gates@.len() - i,
        {
            let gate = &self.gates[i];
            if gate.behavior == GateBehavior::Not && gate.inputs.len() != 1 {
                assert(!arity_ok(self.gates@[i as int].behavior, self.gates@[i as int].inputs@.len()));
                return false;
            }
            i = i + 1;
        }
        true
    }
}

} // verus!
