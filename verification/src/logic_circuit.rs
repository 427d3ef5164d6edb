//! A logic circuit as relations: gates `(gate_id, type)`, wires
//! `(from_gate, to_gate, to_pin)` and the current state `(gate_id, value)`.
//! Each step counts, for every gate, the distinct values that reach it over
//! wires, and the number of true ones; these counts and the kind of gate
//! give its new value. Input gates keep their state.
use vstd::prelude::*;
use crate::graph::{contains_key, push_unique, views, Key};
use crate::text::str_eq;

verus! {

broadcast use vstd::seq_lib::group_seq_properties;

/// A gate and its type ("AND", "OR", "XOR", "NOT" or "IN").
#[derive(Clone, Debug, PartialEq, Eq)]
pub struct Gate {
    pub gate_id: String,
    pub gate_type: String,
}

/// A wire from a gate's output to a pin of another gate.
#[derive(Clone, Debug, PartialEq, Eq)]
pub struct Wire {
    pub from_gate: String,
    pub to_gate: String,
    pub to_pin: i64,
}

/// The value of a gate.
#[derive(Clone, Debug, PartialEq, Eq)]
pub struct GateState {
    pub gate_id: String,
    pub value: bool,
}

impl View for GateState {
    type V = (Seq<char>, bool);

    open spec fn view(&self) -> Self::V {
        (self.gate_id@, self.value)
    }
}

impl Key for GateState {
    fn same(&self, other: &Self) -> (b: bool) {
        self.gate_id == other.gate_id && self.value == other.value
    }

    fn duplicate(&self) -> (c: Self) {
        GateState { gate_id: self.gate_id.clone(), value: self.value }
    }
}

/// An input arriving at a gate: the sending gate, its value and the pin.
#[derive(Clone, Debug, PartialEq, Eq)]
pub struct Arrival {
    pub from_gate: String,
    pub value: bool,
    pub to_pin: i64,
}

impl View for Arrival {
    type V = (Seq<char>, bool, i64);

    open spec fn view(&self) -> Self::V {
        (self.from_gate@, self.value, self.to_pin)
    }
}

impl Key for Arrival {
    fn same(&self, other: &Self) -> (b: bool) {
        self.from_gate == other.from_gate && self.value == other.value && self.to_pin == other.to_pin
    }

    fn duplicate(&self) -> (c: Self) {
        Arrival { from_gate: self.from_gate.clone(), value: self.value, to_pin: self.to_pin }
    }
}

/// Gates, wires and the current state.
pub struct LogicCircuit {
    pub gates: Vec<Gate>,
    pub wires: Vec<Wire>,
    pub state: Vec<GateState>,
}

/// The inputs arriving at gate `g`: for a state entry of a gate and a wire
/// from it to `g`, the sender, its value and the pin.
pub open spec fn arrivals(state: Seq<GateState>, wires: Seq<Wire>, g: Seq<char>) -> Set<(Seq<char>, bool, i64)> {
    Set::new(
        |a: (Seq<char>, bool, i64)|
            exists|s: int, w: int|
                #![trigger state[s], wires[w]]
                0 <= s < state.len() && 0 <= w < wires.len() && state[s].gate_id@ == wires[w].from_gate@
                    && wires[w].to_gate@ == g && a == (state[s].gate_id@, state[s].value, wires[w].to_pin),
    )
}

/// The value of a gate of type `t` with `n` inputs of which `k` are true.
pub open spec fn gate_value(t: Seq<char>, n: nat, k: nat) -> bool {
    if t == "AND"@ {
        k == n && n > 0
    } else if t == "OR"@ {
        k > 0
    } else if t == "XOR"@ {
        k % 2 == 1
    } else if t == "NOT"@ {
        k == 0
    } else {
        false
    }
}

/// The number of inputs arriving at `g`.
pub open spec fn input_count(state: Seq<GateState>, wires: Seq<Wire>, g: Seq<char>) -> nat {
    arrivals(state, wires, g).len()
}

/// The number of true inputs arriving at `g`.
pub open spec fn true_count(state: Seq<GateState>, wires: Seq<Wire>, g: Seq<char>) -> nat {
    arrivals(state, wires, g).filter(|a: (Seq<char>, bool, i64)| a.1).len()
}

/// Some gate named `id` has type "IN".
pub open spec fn is_input_gate(gates: Seq<Gate>, id: Seq<char>) -> bool {
    exists|i: int| 0 <= i < gates.len() && #[trigger] gates[i].gate_id@ == id && gates[i].gate_type@ == "IN"@
}

/// The state after a tick: every gate with inputs and its value, and the
/// state entries of input gates.
pub open spec fn next_state(gates: Seq<Gate>, wires: Seq<Wire>, state: Seq<GateState>, q: (Seq<char>, bool)) -> bool {
    ||| exists|i: int|
        0 <= i < gates.len() && input_count(state, wires, (#[trigger] gates[i]).gate_id@) > 0 && q == (
            gates[i].gate_id@,
            gate_value(
                gates[i].gate_type@,
                input_count(state, wires, gates[i].gate_id@),
                true_count(state, wires, gates[i].gate_id@),
            ),
        )
    ||| exists|s: int| 0 <= s < state.len() && #[trigger] state[s]@ == q && is_input_gate(gates, state[s].gate_id@)
}

/// Whether `t` is the type named `name`.
fn is_type(t: &String, name: &str) -> (b: bool)
    ensures
        b == (t@ == name@),
{
    str_eq(t.as_str(), name)
}

/// The value of a gate of type `t` with `n` inputs of which `k` are true.
fn value_of(t: &String, n: usize, k: usize) -> (v: bool)
    ensures
        v == gate_value(t@, n as nat, k as nat),
{
    if is_type(t, "AND") {
        k == n && n > 0
    } else if is_type(t, "OR") {
        k > 0
    } else if is_type(t, "XOR") {
        k % 2 == 1
    } else if is_type(t, "NOT") {
        k == 0
    } else {
        false
    }
}

impl LogicCircuit {
    /// A circuit with the given gates, wires and state.
    pub fn new(gates: Vec<Gate>, wires: Vec<Wire>, initial_state: Vec<GateState>) -> (c: Self)
        ensures
            c.gates == gates,
            c.wires == wires,
            c.state == initial_state,
    {
        LogicCircuit { gates, wires, state: initial_state }
    }

    /// The number of inputs arriving at `g`, and of true ones.
    fn count_inputs(&self, g: &String) -> (r: (usize, usize))
        ensures
            r.0 == input_count(self.state@, self.wires@, g@),
            r.1 == true_count(self.state@, self.wires@, g@),
    {
        let ghost st = self.state@;
        let ghost ws = self.wires@;
        let mut all: Vec<Arrival> = Vec::new();
        let mut trues: Vec<Arrival> = Vec::new();
        let mut s: usize = 0;
        while s < self.state.len()
            invariant
                st == self.state@,
                ws == self.wires@,
                s <= st.len(),
                views(all@).no_duplicates(),
                views(trues@).no_duplicates(),
                forall|a: (Seq<char>, bool, i64)|
                    #[trigger] views(all@).contains(a) <==> exists|x: int, w: int|
                        #![trigger st[x], ws[w]]
                        0 <= x < s && 0 <= w < ws.len() && st[x].gate_id@ == ws[w].from_gate@ && ws[w].to_gate@ == g@
                            && a == (st[x].gate_id@, st[x].value, ws[w].to_pin),
                forall|a: (Seq<char>, bool, i64)|
                    #[trigger] views(trues@).contains(a) <==> (views(all@).contains(a) && a.1),
            decreases st.len() - s,
        {
            let mut w: usize = 0;
            while w < self.wires.len()
                invariant
                    st == self.state@,
                    ws == self.wires@,
                    s < st.len(),
                    w <= ws.len(),
                    views(all@).no_duplicates(),
                    views(trues@).no_duplicates(),
                    forall|a: (Seq<char>, bool, i64)|
                        #[trigger] views(all@).contains(a) <==> exists|x: int, y: int|
                            #![trigger st[x], ws[y]]
                            (x < s || (x == s && y < w)) && 0 <= x < st.len() && 0 <= y < ws.len() && st[x].gate_id@
                                == ws[y].from_gate@ && ws[y].to_gate@ == g@ && a == (st[x].gate_id@, st[x].value, ws[y].to_pin),
                    forall|a: (Seq<char>, bool, i64)|
                        #[trigger] views(trues@).contains(a) <==> (views(all@).contains(a) && a.1),
                decreases ws.len() - w,
            {
                let ghost before = views(all@);
                let ghost before_t = views(trues@);
                let sv = &self.state[s];
                let wv = &self.wires[w];
                if sv.gate_id == wv.from_gate && wv.to_gate == *g {
                    let a = Arrival { from_gate: sv.gate_id.clone(), value: sv.value, to_pin: wv.to_pin };
                    if sv.value {
                        push_unique(&mut trues, a.duplicate());
                    }
                    push_unique(&mut all, a);
                }
                proof {
                    assert forall|a: (Seq<char>, bool, i64)|
                        #[trigger] views(all@).contains(a) <==> exists|x: int, y: int|
                            #![trigger st[x], ws[y]]
                            (x < s || (x == s && y < w + 1)) && 0 <= x < st.len() && 0 <= y < ws.len() && st[x].gate_id@
                                == ws[y].from_gate@ && ws[y].to_gate@ == g@ && a == (st[x].gate_id@, st[x].value, ws[y].to_pin) by {
                        if exists|x: int, y: int|
                            #![trigger st[x], ws[y]]
                            (x < s || (x == s && y < w + 1)) && 0 <= x < st.len() && 0 <= y < ws.len() && st[x].gate_id@
                                == ws[y].from_gate@ && ws[y].to_gate@ == g@ && a == (st[x].gate_id@, st[x].value, ws[y].to_pin) {
                            let (x, y) = choose|x: int, y: int|
                                #![trigger st[x], ws[y]]
                                (x < s || (x == s && y < w + 1)) && 0 <= x < st.len() && 0 <= y < ws.len() && st[x].gate_id@
                                    == ws[y].from_gate@ && ws[y].to_gate@ == g@ && a == (st[x].gate_id@, st[x].value, ws[y].to_pin);
                            if !(x == s && y == w) {
                                assert(before.contains(a));
                            }
                        }
                    }
                }
                w = w + 1;
            }
            s = s + 1;
        }
        proof {
            let arr = arrivals(st, ws, g@);
            assert(views(all@).to_set() =~= arr);
            assert(views(trues@).to_set() =~= arr.filter(|a: (Seq<char>, bool, i64)| a.1));
            views(all@).unique_seq_to_set();
            views(trues@).unique_seq_to_set();
        }
        (all.len(), trues.len())
    }

    /// Whether some gate named `id` has type "IN".
    fn input_gate(&self, id: &String) -> (b: bool)
        ensures
            b == is_input_gate(self.gates@, id@),
    {
        let mut i: usize = 0;
        while i < self.gates.len()
            invariant
                i <= self.gates@.len(),
                forall|k: int| 0 <= k < i ==> !((#[trigger] self.gates@[k]).gate_id@ == id@ && self.gates@[k].gate_type@ == "IN"@),
            decreases self.gates@.len() - i,
        {
            if self.gates[i].gate_id == *id && is_type(&self.gates[i].gate_type, "IN") {
                return true;
            }
            i = i + 1;
        }
        false
    }

    /// Advances the state by one tick: each gate with inputs takes the value
    /// its type gives from the number of its distinct inputs and of the true
    /// ones, and input gates keep their state entries; gates without inputs
    /// that are not input gates drop out of the state.
    pub fn tick(&mut self)
        ensures
            final(self).gates == old(self).gates,
            final(self).wires == old(self).wires,
            views(final(self).state@).no_duplicates(),
            forall|q: (Seq<char>, bool)|
                #[trigger] views(final(self).state@).contains(q) <==> next_state(
                    old(self).gates@,
                    old(self).wires@,
                    old(self).state@,
                    q,
                ),
    {
        let ghost gs = self.gates@;
        let ghost ws = self.wires@;
        let ghost st = self.state@;
        let mut out: Vec<GateState> = Vec::new();
        let mut i: usize = 0;
        while i < self.gates.len()
            invariant
                gs == self.gates@,
                ws == self.wires@,
                st == self.state@,
                i <= gs.len(),
                views(out@).no_duplicates(),
                forall|q: (Seq<char>, bool)|
                    #[trigger] views(out@).contains(q) <==> exists|k: int|
                        0 <= k < i && input_count(st, ws, (#[trigger] gs[k]).gate_id@) > 0 && q == (
                            gs[k].gate_id@,
                            gate_value(gs[k].gate_type@, input_count(st, ws, gs[k].gate_id@), true_count(st, ws, gs[k].gate_id@)),
                        ),
            decreases gs.len() - i,
        {
            let gate = &self.gates[i];
            let (n, k) = self.count_inputs(&gate.gate_id);
            let ghost before = views(out@);
            if n > 0 {
                let v = value_of(&gate.gate_type, n, k);
                push_unique(&mut out, GateState { gate_id: gate.gate_id.clone(), value: v });
            }
            proof {
                assert forall|q: (Seq<char>, bool)|
                    #[trigger] views(out@).contains(q) <==> exists|x: int|
                        0 <= x < i + 1 && input_count(st, ws, (#[trigger] gs[x]).gate_id@) > 0 && q == (
                            gs[x].gate_id@,
                            gate_value(gs[x].gate_type@, input_count(st, ws, gs[x].gate_id@), true_count(st, ws, gs[x].gate_id@)),
                        ) by {
                    if exists|x: int|
                        0 <= x < i + 1 && input_count(st, ws, (#[trigger] gs[x]).gate_id@) > 0 && q == (
                            gs[x].gate_id@,
                            gate_value(gs[x].gate_type@, input_count(st, ws, gs[x].gate_id@), true_count(st, ws, gs[x].gate_id@)),
                        ) {
                        let x = choose|x: int|
                            0 <= x < i + 1 && input_count(st, ws, (#[trigger] gs[x]).gate_id@) > 0 && q == (
                                gs[x].gate_id@,
                                gate_value(gs[x].gate_type@, input_count(st, ws, gs[x].gate_id@), true_count(st, ws, gs[x].gate_id@)),
                            );
                        if x < i {
                            assert(before.contains(q));
                        }
                    }
                }
            }
            i = i + 1;
        }
        let mut s: usize = 0;
        while s < self.state.len()
            invariant
                gs == self.gates@,
                ws == self.wires@,
                st == self.state@,
                s <= st.len(),
                views(out@).no_duplicates(),
                forall|q: (Seq<char>, bool)|
                    #[trigger] views(out@).contains(q) <==> ((exists|k: int|
                        0 <= k < gs.len() && input_count(st, ws, (#[trigger] gs[k]).gate_id@) > 0 && q == (
                            gs[k].gate_id@,
                            gate_value(gs[k].gate_type@, input_count(st, ws, gs[k].gate_id@), true_count(st, ws, gs[k].gate_id@)),
                        )) || exists|x: int| 0 <= x < s && #[trigger] st[x]@ == q && is_input_gate(gs, st[x].gate_id@)),
            decreases st.len() - s,
        {
            let ghost before = views(out@);
            let entry = &self.state[s];
            if self.input_gate(&entry.gate_id) {
                push_unique(&mut out, entry.duplicate());
            }
            proof {
                assert forall|q: (Seq<char>, bool)|
                    #[trigger] views(out@).contains(q) <==> ((exists|k: int|
                        0 <= k < gs.len() && input_count(st, ws, (#[trigger] gs[k]).gate_id@) > 0 && q == (
                            gs[k].gate_id@,
                            gate_value(gs[k].gate_type@, input_count(st, ws, gs[k].gate_id@), true_count(st, ws, gs[k].gate_id@)),
                        )) || exists|x: int| 0 <= x < s + 1 && #[trigger] st[x]@ == q && is_input_gate(gs, st[x].gate_id@)) by {
                    if exists|x: int| 0 <= x < s + 1 && #[trigger] st[x]@ == q && is_input_gate(gs, st[x].gate_id@) {
                        let x = choose|x: int| 0 <= x < s + 1 && #[trigger] st[x]@ == q && is_input_gate(gs, st[x].gate_id@);
                        if x < s {
                            assert(before.contains(q));
                        }
                    }
                }
            }
            s = s + 1;
        }
        self.state = out;
    }
}

/// Truth table of the gates, for `n` inputs of which `k` are true: AND is
/// true when there are inputs and all of them are true, OR when at least
/// one is true, XOR when an odd number are true, NOT when none is; any
/// other type gives false.
pub proof fn law_gate_truth_table(n: nat, k: nat, t: Seq<char>)
    requires
        k <= n,
    ensures
        gate_value("AND"@, n, k) == (n > 0 && k == n),
        gate_value("OR"@, n, k) == (k >= 1),
        gate_value("XOR"@, n, k) == (k % 2 == 1),
        gate_value("NOT"@, n, k) == (k == 0),
        t != "AND"@ && t != "OR"@ && t != "XOR"@ && t != "NOT"@ ==> !gate_value(t, n, k),
        k >= 1 ==> gate_value("OR"@, n, k),
        k < n ==> !gate_value("AND"@, n, k),
{
    reveal_strlit("AND");
    reveal_strlit("OR");
    reveal_strlit("XOR");
    reveal_strlit("NOT");
    assert("AND"@ != "OR"@) by { assert("AND"@.len() != "OR"@.len()); }
    assert("AND"@ != "XOR"@) by { assert("AND"@[0] != "XOR"@[0]); }
    assert("AND"@ != "NOT"@) by { assert("AND"@[0] != "NOT"@[0]); }
    assert("OR"@ != "XOR"@) by { assert("OR"@.len() != "XOR"@.len()); }
    assert("OR"@ != "NOT"@) by { assert("OR"@.len() != "NOT"@.len()); }
    assert("XOR"@ != "NOT"@) by { assert("XOR"@[0] != "NOT"@[0]); }
}

} // verus!
