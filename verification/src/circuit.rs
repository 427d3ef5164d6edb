//! A synchronous logic simulator over relations: wire values `(wire, val)`,
//! binary gates `(gate, gate_type, in1, in2, out)` and unary gates
//! `(gate, gate_type, in_wire, out)`. One tick drives every gate output from
//! the current wire values; external inputs take precedence over gates.
use vstd::prelude::*;
use crate::graph::{contains_key, push_unique, views, Key};
use crate::text::str_eq;

verus! {

broadcast use vstd::seq_lib::group_seq_properties;

/// The value on a wire.
#[derive(Clone, Debug, PartialEq, Eq)]
pub struct WireValue {
    pub wire: String,
    pub val: bool,
}

impl View for WireValue {
    type V = (Seq<char>, bool);

    open spec fn view(&self) -> Self::V {
        (self.wire@, self.val)
    }
}

impl Key for WireValue {
    fn same(&self, other: &Self) -> (b: bool) {
        self.wire == other.wire && self.val == other.val
    }

    fn duplicate(&self) -> (c: Self) {
        WireValue { wire: self.wire.clone(), val: self.val }
    }
}

/// A gate with two inputs.
#[derive(Clone, Debug, PartialEq, Eq)]
pub struct BinaryGate {
    pub gate: String,
    pub gate_type: String,
    pub in1: String,
    pub in2: String,
    pub out: String,
}

/// A gate with one input.
#[derive(Clone, Debug, PartialEq, Eq)]
pub struct UnaryGate {
    pub gate: String,
    pub gate_type: String,
    pub in_wire: String,
    pub out: String,
}

/// The simulation did not reach a stable state within the allowed ticks.
#[derive(Clone, Copy, Debug, PartialEq, Eq)]
pub enum CircuitError {
    Unstable,
}

/// The gates of a circuit.
pub struct LogicSimulator {
    pub binary_gates: Vec<BinaryGate>,
    pub unary_gates: Vec<UnaryGate>,
}

/// A set of wire values.
pub type Wires = Set<(Seq<char>, bool)>;

/// The output of a binary gate of type `t`; unknown types give `false`.
pub open spec fn eval_binary(t: Seq<char>, v1: bool, v2: bool) -> bool {
    if t == "AND"@ {
        v1 && v2
    } else if t == "OR"@ {
        v1 || v2
    } else if t == "XOR"@ {
        v1 != v2
    } else if t == "NAND"@ {
        !(v1 && v2)
    } else if t == "NOR"@ {
        !(v1 || v2)
    } else if t == "XNOR"@ {
        v1 == v2
    } else {
        false
    }
}

/// The output of a unary gate of type `t`: "NOT" negates, any other type
/// passes the input on.
pub open spec fn eval_unary(t: Seq<char>, v: bool) -> bool {
    if t == "NOT"@ {
        !v
    } else {
        v
    }
}

/// Some binary gate drives `q` from the wire values `cur`.
pub open spec fn binary_out(bin: Seq<BinaryGate>, cur: Wires, q: (Seq<char>, bool)) -> bool {
    exists|g: int, v1: bool, v2: bool|
        #![trigger cur.contains((bin[g].in1@, v1)), cur.contains((bin[g].in2@, v2))]
        0 <= g < bin.len() && cur.contains((bin[g].in1@, v1)) && cur.contains((bin[g].in2@, v2))
            && q == (bin[g].out@, eval_binary(bin[g].gate_type@, v1, v2))
}

/// Some unary gate drives `q` from the wire values `cur`.
pub open spec fn unary_out(un: Seq<UnaryGate>, cur: Wires, q: (Seq<char>, bool)) -> bool {
    exists|g: int, v: bool|
        #![trigger cur.contains((un[g].in_wire@, v))]
        0 <= g < un.len() && cur.contains((un[g].in_wire@, v)) && q == (un[g].out@, eval_unary(
            un[g].gate_type@,
            v,
        ))
}

/// Wire `w` carries an external input.
pub open spec fn input_wire(inputs: Wires, w: Seq<char>) -> bool {
    inputs.contains((w, true)) || inputs.contains((w, false))
}

/// The next wire values: what the gates drive on wires without an external
/// value, together with the external values.
pub open spec fn next_wires(bin: Seq<BinaryGate>, un: Seq<UnaryGate>, cur: Wires, inputs: Wires) -> Wires {
    Set::new(
        |q: (Seq<char>, bool)|
            ((binary_out(bin, cur, q) || unary_out(un, cur, q)) && !input_wire(inputs, q.0)) || inputs.contains(q),
    )
}

/// Whether `t` is the type named `name`.
fn is_type(t: &String, name: &str) -> (b: bool)
    ensures
        b == (t@ == name@),
{
    str_eq(t.as_str(), name)
}

/// The output of a binary gate.
fn binary_value(t: &String, v1: bool, v2: bool) -> (r: bool)
    ensures
        r == eval_binary(t@, v1, v2),
{
    if is_type(t, "AND") {
        v1 && v2
    } else if is_type(t, "OR") {
        v1 || v2
    } else if is_type(t, "XOR") {
        v1 != v2
    } else if is_type(t, "NAND") {
        !(v1 && v2)
    } else if is_type(t, "NOR") {
        !(v1 || v2)
    } else if is_type(t, "XNOR") {
        v1 == v2
    } else {
        false
    }
}

/// The output of a unary gate.
fn unary_value(t: &String, v: bool) -> (r: bool)
    ensures
        r == eval_unary(t@, v),
{
    if is_type(t, "NOT") {
        !v
    } else {
        v
    }
}

/// Whether wire `w` carries an input.
fn is_input_wire(inputs: &Vec<WireValue>, w: &String) -> (b: bool)
    ensures
        b == input_wire(views(inputs@).to_set(), w@),
{
    let t = WireValue { wire: w.clone(), val: true };
    let f = WireValue { wire: w.clone(), val: false };
    contains_key(inputs, &t) || contains_key(inputs, &f)
}

/// Binary gate `g` drives `q` from the wire values `cur`.
pub open spec fn drives_binary(g: BinaryGate, cur: Wires, q: (Seq<char>, bool)) -> bool {
    exists|v1: bool, v2: bool|
        #![trigger cur.contains((g.in1@, v1)), cur.contains((g.in2@, v2))]
        cur.contains((g.in1@, v1)) && cur.contains((g.in2@, v2)) && q == (g.out@, eval_binary(g.gate_type@, v1, v2))
}

/// Unary gate `g` drives `q` from the wire values `cur`.
pub open spec fn drives_unary(g: UnaryGate, cur: Wires, q: (Seq<char>, bool)) -> bool {
    exists|v: bool| #![trigger cur.contains((g.in_wire@, v))] cur.contains((g.in_wire@, v)) && q == (g.out@, eval_unary(g.gate_type@, v))
}

/// One of the first `n` binary gates drives `q`.
pub open spec fn binary_upto(bin: Seq<BinaryGate>, cur: Wires, n: int, q: (Seq<char>, bool)) -> bool {
    exists|g: int| 0 <= g < n && #[trigger] drives_binary(bin[g], cur, q)
}

/// One of the first `n` unary gates drives `q`.
pub open spec fn unary_upto(un: Seq<UnaryGate>, cur: Wires, n: int, q: (Seq<char>, bool)) -> bool {
    exists|g: int| 0 <= g < n && #[trigger] drives_unary(un[g], cur, q)
}

proof fn lemma_binary_upto_all(bin: Seq<BinaryGate>, cur: Wires, q: (Seq<char>, bool))
    ensures
        binary_upto(bin, cur, bin.len() as int, q) == binary_out(bin, cur, q),
{
    if binary_out(bin, cur, q) {
        let (g, v1, v2) = choose|g: int, v1: bool, v2: bool|
            #![trigger cur.contains((bin[g].in1@, v1)), cur.contains((bin[g].in2@, v2))]
            0 <= g < bin.len() && cur.contains((bin[g].in1@, v1)) && cur.contains((bin[g].in2@, v2))
                && q == (bin[g].out@, eval_binary(bin[g].gate_type@, v1, v2));
        assert(drives_binary(bin[g], cur, q));
    }
    if binary_upto(bin, cur, bin.len() as int, q) {
        let g = choose|g: int| 0 <= g < bin.len() && #[trigger] drives_binary(bin[g], cur, q);
        let (v1, v2) = choose|v1: bool, v2: bool|
            #![trigger cur.contains((bin[g].in1@, v1)), cur.contains((bin[g].in2@, v2))]
            cur.contains((bin[g].in1@, v1)) && cur.contains((bin[g].in2@, v2)) && q == (bin[g].out@, eval_binary(bin[g].gate_type@, v1, v2));
        assert(binary_out(bin, cur, q));
    }
}

proof fn lemma_unary_upto_all(un: Seq<UnaryGate>, cur: Wires, q: (Seq<char>, bool))
    ensures
        unary_upto(un, cur, un.len() as int, q) == unary_out(un, cur, q),
{
    if unary_out(un, cur, q) {
        let (g, v) = choose|g: int, v: bool|
            #![trigger cur.contains((un[g].in_wire@, v))]
            0 <= g < un.len() && cur.contains((un[g].in_wire@, v)) && q == (un[g].out@, eval_unary(un[g].gate_type@, v));
        assert(drives_unary(un[g], cur, q));
    }
    if unary_upto(un, cur, un.len() as int, q) {
        let g = choose|g: int| 0 <= g < un.len() && #[trigger] drives_unary(un[g], cur, q);
        let v = choose|v: bool| #![trigger cur.contains((un[g].in_wire@, v))] cur.contains((un[g].in_wire@, v)) && q == (un[g].out@, eval_unary(un[g].gate_type@, v));
        assert(unary_out(un, cur, q));
    }
}

/// Adds `(wire, val)` unless the wire carries an input.
fn push_unless_input(out: &mut Vec<WireValue>, inputs: &Vec<WireValue>, wire: &String, val: bool)
    requires
        views(old(out)@).no_duplicates(),
    ensures
        views(final(out)@).no_duplicates(),
        forall|q: (Seq<char>, bool)|
            #[trigger] views(final(out)@).contains(q) <==> (views(old(out)@).contains(q) || (q == (wire@, val)
                && !input_wire(views(inputs@).to_set(), wire@))),
{
    if !is_input_wire(inputs, wire) {
        push_unique(out, WireValue { wire: wire.clone(), val });
    }
}

/// Whether `(wire, val)` is among `cur`.
fn has_value(cur: &Vec<WireValue>, wire: &String, val: bool) -> (b: bool)
    ensures
        b == views(cur@).to_set().contains((wire@, val)),
{
    contains_key(cur, &WireValue { wire: wire.clone(), val })
}

/// Adds what binary gate `gate` drives from `cur`, on wires without input.
fn push_binary(gate: &BinaryGate, cur: &Vec<WireValue>, inputs: &Vec<WireValue>, out: &mut Vec<WireValue>)
    requires
        views(old(out)@).no_duplicates(),
    ensures
        views(final(out)@).no_duplicates(),
        forall|q: (Seq<char>, bool)|
            #[trigger] views(final(out)@).contains(q) <==> (views(old(out)@).contains(q) || (drives_binary(
                *gate,
                views(cur@).to_set(),
                q,
            ) && !input_wire(views(inputs@).to_set(), q.0))),
{
    let ghost c = views(cur@).to_set();
    let ghost inp = views(inputs@).to_set();
    let ghost start = views(out@);
    let t1 = has_value(cur, &gate.in1, true);
    let f1 = has_value(cur, &gate.in1, false);
    let t2 = has_value(cur, &gate.in2, true);
    let f2 = has_value(cur, &gate.in2, false);
    if t1 && t2 {
        push_unless_input(out, inputs, &gate.out, binary_value(&gate.gate_type, true, true));
    }
    if t1 && f2 {
        push_unless_input(out, inputs, &gate.out, binary_value(&gate.gate_type, true, false));
    }
    if f1 && t2 {
        push_unless_input(out, inputs, &gate.out, binary_value(&gate.gate_type, false, true));
    }
    if f1 && f2 {
        push_unless_input(out, inputs, &gate.out, binary_value(&gate.gate_type, false, false));
    }
    proof {
        assert forall|q: (Seq<char>, bool)|
            #[trigger] views(out@).contains(q) <==> (start.contains(q) || (drives_binary(*gate, c, q)
                && !input_wire(inp, q.0))) by {
            if drives_binary(*gate, c, q) {
                let (v1, v2) = choose|v1: bool, v2: bool|
                    #![trigger c.contains((gate.in1@, v1)), c.contains((gate.in2@, v2))]
                    c.contains((gate.in1@, v1)) && c.contains((gate.in2@, v2)) && q == (gate.out@, eval_binary(gate.gate_type@, v1, v2));
                if v1 {
                    assert(t1);
                } else {
                    assert(f1);
                }
                if v2 {
                    assert(t2);
                } else {
                    assert(f2);
                }
            }
            if t1 && t2 && q == (gate.out@, eval_binary(gate.gate_type@, true, true)) {
                assert(c.contains((gate.in1@, true)) && c.contains((gate.in2@, true)));
            }
            if t1 && f2 && q == (gate.out@, eval_binary(gate.gate_type@, true, false)) {
                assert(c.contains((gate.in1@, true)) && c.contains((gate.in2@, false)));
            }
            if f1 && t2 && q == (gate.out@, eval_binary(gate.gate_type@, false, true)) {
                assert(c.contains((gate.in1@, false)) && c.contains((gate.in2@, true)));
            }
            if f1 && f2 && q == (gate.out@, eval_binary(gate.gate_type@, false, false)) {
                assert(c.contains((gate.in1@, false)) && c.contains((gate.in2@, false)));
            }
        }
    }
}

/// Adds what unary gate `gate` drives from `cur`, on wires without input.
fn push_unary(gate: &UnaryGate, cur: &Vec<WireValue>, inputs: &Vec<WireValue>, out: &mut Vec<WireValue>)
    requires
        views(old(out)@).no_duplicates(),
    ensures
        views(final(out)@).no_duplicates(),
        forall|q: (Seq<char>, bool)|
            #[trigger] views(final(out)@).contains(q) <==> (views(old(out)@).contains(q) || (drives_unary(
                *gate,
                views(cur@).to_set(),
                q,
            ) && !input_wire(views(inputs@).to_set(), q.0))),
{
    let ghost c = views(cur@).to_set();
    let ghost inp = views(inputs@).to_set();
    let ghost start = views(out@);
    let t = has_value(cur, &gate.in_wire, true);
    let f = has_value(cur, &gate.in_wire, false);
    if t {
        push_unless_input(out, inputs, &gate.out, unary_value(&gate.gate_type, true));
    }
    if f {
        push_unless_input(out, inputs, &gate.out, unary_value(&gate.gate_type, false));
    }
    proof {
        assert forall|q: (Seq<char>, bool)|
            #[trigger] views(out@).contains(q) <==> (start.contains(q) || (drives_unary(*gate, c, q)
                && !input_wire(inp, q.0))) by {
            if drives_unary(*gate, c, q) {
                let v = choose|v: bool| #![trigger c.contains((gate.in_wire@, v))] c.contains((gate.in_wire@, v)) && q == (gate.out@, eval_unary(gate.gate_type@, v));
                if v {
                    assert(t);
                } else {
                    assert(f);
                }
            }
            if t && q == (gate.out@, eval_unary(gate.gate_type@, true)) {
                assert(c.contains((gate.in_wire@, true)));
            }
            if f && q == (gate.out@, eval_unary(gate.gate_type@, false)) {
                assert(c.contains((gate.in_wire@, false)));
            }
        }
    }
}

impl LogicSimulator {
    /// A simulator over the given gates.
    pub fn new(binary_gates: Vec<BinaryGate>, unary_gates: Vec<UnaryGate>) -> (s: Self)
        ensures
            s.binary_gates == binary_gates,
            s.unary_gates == unary_gates,
    {
        LogicSimulator { binary_gates, unary_gates }
    }

    /// The wire values after one tick: every gate output, computed from
    /// `current_wires`, on a wire that carries no input, and every input;
    /// each value once.
    pub fn tick(&self, current_wires: &Vec<WireValue>, inputs: &Vec<WireValue>) -> (next: Vec<WireValue>)
        ensures
            views(next@).no_duplicates(),
            views(next@).to_set() == next_wires(
                self.binary_gates@,
                self.unary_gates@,
                views(current_wires@).to_set(),
                views(inputs@).to_set(),
            ),
    {
        let ghost cur = views(current_wires@).to_set();
        let ghost inp = views(inputs@).to_set();
        let ghost bin = self.binary_gates@;
        let ghost un = self.unary_gates@;
        let mut out: Vec<WireValue> = Vec::new();
        let mut g: usize = 0;
        while g < self.binary_gates.len()
            invariant
                cur == views(current_wires@).to_set(),
                inp == views(inputs@).to_set(),
                bin == self.binary_gates@,
                g <= bin.len(),
                views(out@).no_duplicates(),
                forall|q: (Seq<char>, bool)|
                    #[trigger] views(out@).contains(q) <==> (binary_upto(bin, cur, g as int, q) && !input_wire(inp, q.0)),
            decreases bin.len() - g,
        {
            let ghost before = views(out@);
            push_binary(&self.binary_gates[g], current_wires, inputs, &mut out);
            proof {
                assert forall|q: (Seq<char>, bool)|
                    #[trigger] views(out@).contains(q) <==> (binary_upto(bin, cur, g + 1, q) && !input_wire(inp, q.0)) by {
                    if binary_upto(bin, cur, g + 1, q) {
                        let x = choose|x: int| 0 <= x < g + 1 && #[trigger] drives_binary(bin[x], cur, q);
                        if x < g {
                            assert(binary_upto(bin, cur, g as int, q));
                        }
                    }
                    if drives_binary(bin[g as int], cur, q) {
                        assert(binary_upto(bin, cur, g + 1, q));
                    }
                    if binary_upto(bin, cur, g as int, q) {
                        let x = choose|x: int| 0 <= x < g && #[trigger] drives_binary(bin[x], cur, q);
                        assert(binary_upto(bin, cur, g + 1, q));
                    }
                }
            }
            g = g + 1;
        }
        let ghost after_binary = views(out@);
        let mut g: usize = 0;
        while g < self.unary_gates.len()
            invariant
                cur == views(current_wires@).to_set(),
                inp == views(inputs@).to_set(),
                bin == self.binary_gates@,
                un == self.unary_gates@,
                g <= un.len(),
                views(out@).no_duplicates(),
                forall|q: (Seq<char>, bool)|
                    #[trigger] views(out@).contains(q) <==> ((binary_upto(bin, cur, bin.len() as int, q)
                        || unary_upto(un, cur, g as int, q)) && !input_wire(inp, q.0)),
            decreases un.len() - g,
        {
            let ghost before = views(out@);
            push_unary(&self.unary_gates[g], current_wires, inputs, &mut out);
            proof {
                assert forall|q: (Seq<char>, bool)|
                    #[trigger] views(out@).contains(q) <==> ((binary_upto(bin, cur, bin.len() as int, q)
                        || unary_upto(un, cur, g + 1, q)) && !input_wire(inp, q.0)) by {
                    if unary_upto(un, cur, g + 1, q) {
                        let x = choose|x: int| 0 <= x < g + 1 && #[trigger] drives_unary(un[x], cur, q);
                        if x < g {
                            assert(unary_upto(un, cur, g as int, q));
                        }
                    }
                    if drives_unary(un[g as int], cur, q) {
                        assert(unary_upto(un, cur, g + 1, q));
                    }
                    if unary_upto(un, cur, g as int, q) {
                        let x = choose|x: int| 0 <= x < g && #[trigger] drives_unary(un[x], cur, q);
                        assert(unary_upto(un, cur, g + 1, q));
                    }
                }
            }
            g = g + 1;
        }
        let mut k: usize = 0;
        while k < inputs.len()
            invariant
                cur == views(current_wires@).to_set(),
                inp == views(inputs@).to_set(),
                bin == self.binary_gates@,
                un == self.unary_gates@,
                k <= inputs@.len(),
                views(out@).no_duplicates(),
                forall|q: (Seq<char>, bool)|
                    #[trigger] views(out@).contains(q) <==> (((binary_upto(bin, cur, bin.len() as int, q)
                        || unary_upto(un, cur, un.len() as int, q)) && !input_wire(inp, q.0)) || views(inputs@).take(k as int).contains(q)),
            decreases inputs@.len() - k,
        {
            assert(views(inputs@).take(k + 1) == views(inputs@).take(k as int).push(inputs@[k as int]@));
            let ghost before = views(out@);
            push_unique(&mut out, inputs[k].duplicate());
            proof {
                let t0 = views(inputs@).take(k as int);
                let t1 = views(inputs@).take(k + 1);
                assert forall|q: (Seq<char>, bool)| t1.contains(q) <==> (t0.contains(q) || q == inputs@[k as int]@) by {
                    if t1.contains(q) {
                        let i = choose|i: int| 0 <= i < t1.len() && t1[i] == q;
                        if i < k {
                            assert(t0[i] == q);
                        }
                    }
                    if t0.contains(q) {
                        let i = choose|i: int| 0 <= i < t0.len() && t0[i] == q;
                        assert(t1[i] == q);
                    }
                    if q == inputs@[k as int]@ {
                        assert(t1[k as int] == q);
                    }
                }
            }
            k = k + 1;
        }
        proof {
            assert(views(inputs@).take(inputs@.len() as int) == views(inputs@));
            assert forall|q: (Seq<char>, bool)|
                views(out@).to_set().contains(q) <==> next_wires(bin, un, cur, inp).contains(q) by {
                lemma_binary_upto_all(bin, cur, q);
                lemma_unary_upto_all(un, cur, q);
            }
            assert(views(out@).to_set() =~= next_wires(bin, un, cur, inp));
        }
        out
    }
}

/// The wire values after `k` ticks from `init`.
pub open spec fn iterate(bin: Seq<BinaryGate>, un: Seq<UnaryGate>, init: Wires, inputs: Wires, k: nat) -> Wires
    decreases k,
{
    if k == 0 {
        init
    } else {
        next_wires(bin, un, iterate(bin, un, init, inputs, (k - 1) as nat), inputs)
    }
}

/// After `k` ticks a further tick changes nothing.
pub open spec fn stable_at(bin: Seq<BinaryGate>, un: Seq<UnaryGate>, init: Wires, inputs: Wires, k: nat) -> bool {
    next_wires(bin, un, iterate(bin, un, init, inputs, k), inputs) == iterate(bin, un, init, inputs, k)
}

/// The first `k` at which the ticks from `init` are stable.
pub open spec fn settles_at(bin: Seq<BinaryGate>, un: Seq<UnaryGate>, init: Wires, inputs: Wires, k: nat) -> bool {
    stable_at(bin, un, init, inputs, k) && forall|j: nat| j < k ==> !#[trigger] stable_at(bin, un, init, inputs, j)
}

/// Whether two vectors hold the same wire values.
fn same_wires(a: &Vec<WireValue>, b: &Vec<WireValue>) -> (same: bool)
    ensures
        same == (views(a@).to_set() == views(b@).to_set()),
{
    let mut i: usize = 0;
    while i < a.len()
        invariant
            i <= a@.len(),
            forall|k: int| 0 <= k < i ==> views(b@).contains(#[trigger] a@[k]@),
        decreases a@.len() - i,
    {
        if !contains_key(b, &a[i]) {
            assert(views(a@)[i as int] == a@[i as int]@);
            assert(views(a@).contains(a@[i as int]@));
            assert(views(a@).to_set().contains(a@[i as int]@));
            assert(!views(b@).to_set().contains(a@[i as int]@));
            return false;
        }
        i = i + 1;
    }
    let mut j: usize = 0;
    while j < b.len()
        invariant
            j <= b@.len(),
            forall|k: int| 0 <= k < a@.len() ==> views(b@).contains(#[trigger] a@[k]@),
            forall|k: int| 0 <= k < j ==> views(a@).contains(#[trigger] b@[k]@),
        decreases b@.len() - j,
    {
        if !contains_key(a, &b[j]) {
            assert(views(b@)[j as int] == b@[j as int]@);
            assert(views(b@).contains(b@[j as int]@));
            assert(views(b@).to_set().contains(b@[j as int]@));
            assert(!views(a@).to_set().contains(b@[j as int]@));
            return false;
        }
        j = j + 1;
    }
    assert forall|q: (Seq<char>, bool)| views(a@).to_set().contains(q) <==> views(b@).to_set().contains(q) by {
        if views(a@).contains(q) {
            let k = choose|k: int| 0 <= k < views(a@).len() && views(a@)[k] == q;
            assert(views(b@).contains(a@[k]@));
        }
        if views(b@).contains(q) {
            let k = choose|k: int| 0 <= k < views(b@).len() && views(b@)[k] == q;
            assert(views(a@).contains(b@[k]@));
        }
    }
    assert(views(a@).to_set() =~= views(b@).to_set());
    true
}

/// A copy of the wire values.
fn copy_wires(v: &Vec<WireValue>) -> (out: Vec<WireValue>)
    ensures
        views(out@) == views(v@),
{
    let mut out: Vec<WireValue> = Vec::new();
    let mut i: usize = 0;
    while i < v.len()
        invariant
            i <= v@.len(),
            views(out@) == views(v@).take(i as int),
        decreases v@.len() - i,
    {
        let ghost before = views(out@);
        out.push(v[i].duplicate());
        assert(views(out@) =~= before.push(v@[i as int]@));
        assert(views(v@).take(i + 1) =~= views(v@).take(i as int).push(v@[i as int]@));
        i = i + 1;
    }
    assert(views(v@).take(v@.len() as int) =~= views(v@));
    out
}

/// Inputs take precedence: after a tick every input holds, and a wire that
/// carries an input holds no other value.
pub proof fn law_inputs_take_precedence(
    bin: Seq<BinaryGate>,
    un: Seq<UnaryGate>,
    cur: Wires,
    inputs: Wires,
    w: Seq<char>,
    v: bool,
)
    ensures
        inputs.contains((w, v)) ==> next_wires(bin, un, cur, inputs).contains((w, v)),
        input_wire(inputs, w) ==> (next_wires(bin, un, cur, inputs).contains((w, v)) <==> inputs.contains((w, v))),
{
}

/// What `run_until_stable` settles on is a fixed point of a tick.
pub proof fn law_settled_wires_are_fixed(
    bin: Seq<BinaryGate>,
    un: Seq<UnaryGate>,
    init: Wires,
    inputs: Wires,
    k: nat,
    w: Wires,
)
    requires
        settles_at(bin, un, init, inputs, k),
        w == iterate(bin, un, init, inputs, k),
    ensures
        next_wires(bin, un, w, inputs) == w,
{
}

impl LogicSimulator {
    /// Ticks from `initial_wires` until a tick changes nothing, trying at
    /// most `max_ticks` ticks; returns the stable wire values, or
    /// `Unstable` when no tick within the limit left them unchanged.
    pub fn run_until_stable(
        &self,
        initial_wires: &Vec<WireValue>,
        inputs: &Vec<WireValue>,
        max_ticks: usize,
    ) -> (r: Result<Vec<WireValue>, CircuitError>)
        ensures
            r is Ok ==> exists|k: nat|
                k < max_ticks && #[trigger] settles_at(
                    self.binary_gates@,
                    self.unary_gates@,
                    views(initial_wires@).to_set(),
                    views(inputs@).to_set(),
                    k,
                ) && views(r->Ok_0@).to_set() == iterate(
                    self.binary_gates@,
                    self.unary_gates@,
                    views(initial_wires@).to_set(),
                    views(inputs@).to_set(),
                    k,
                ),
            r is Err ==> forall|k: nat|
                k < max_ticks ==> !#[trigger] stable_at(
                    self.binary_gates@,
                    self.unary_gates@,
                    views(initial_wires@).to_set(),
                    views(inputs@).to_set(),
                    k,
                ),
    {
        let ghost bin = self.binary_gates@;
        let ghost un = self.unary_gates@;
        let ghost init = views(initial_wires@).to_set();
        let ghost inp = views(inputs@).to_set();
        let mut wires = copy_wires(initial_wires);
        let mut t: usize = 0;
        while t < max_ticks
            invariant
                bin == self.binary_gates@,
                un == self.unary_gates@,
                init == views(initial_wires@).to_set(),
                inp == views(inputs@).to_set(),
                t <= max_ticks,
                views(wires@).to_set() == iterate(bin, un, init, inp, t as nat),
                forall|j: nat| j < t ==> !#[trigger] stable_at(bin, un, init, inp, j),
            decreases max_ticks - t,
        {
            let next = self.tick(&wires, inputs);
            if same_wires(&next, &wires) {
                assert(stable_at(bin, un, init, inp, t as nat));
                assert(settles_at(bin, un, init, inp, t as nat));
                return Ok(next);
            }
            assert(iterate(bin, un, init, inp, (t + 1) as nat) == next_wires(bin, un, iterate(bin, un, init, inp, t as nat), inp));
            wires = next;
            t = t + 1;
        }
        Err(CircuitError::Unstable)
    }
}

/// Binary gates compute the boolean function their type names, and unary
/// gates invert (NOT) or pass their input on; an unknown binary type
/// computes false.
pub proof fn law_gate_functions(v1: bool, v2: bool, t: Seq<char>)
    ensures
        eval_binary("AND"@, v1, v2) == (v1 && v2),
        eval_binary("OR"@, v1, v2) == (v1 || v2),
        eval_binary("XOR"@, v1, v2) == (v1 != v2),
        eval_binary("NAND"@, v1, v2) == !(v1 && v2),
        eval_binary("NOR"@, v1, v2) == !(v1 || v2),
        eval_binary("XNOR"@, v1, v2) == (v1 == v2),
        t != "AND"@ && t != "OR"@ && t != "XOR"@ && t != "NAND"@ && t != "NOR"@ && t != "XNOR"@
            ==> !eval_binary(t, v1, v2),
        eval_unary("NOT"@, v1) == !v1,
        t != "NOT"@ ==> eval_unary(t, v1) == v1,
        eval_binary("OR"@, true, v2) && eval_binary("OR"@, v1, true),
        !eval_binary("AND"@, false, v2) && !eval_binary("AND"@, v1, false),
{
    reveal_strlit("AND");
    reveal_strlit("OR");
    reveal_strlit("XOR");
    reveal_strlit("NAND");
    reveal_strlit("NOR");
    reveal_strlit("XNOR");
    reveal_strlit("NOT");
    assert("AND"@ != "OR"@) by { assert("AND"@.len() != "OR"@.len()); }
    assert("AND"@ != "XOR"@) by { assert("AND"@[0] != "XOR"@[0]); }
    assert("AND"@ != "NAND"@) by { assert("AND"@.len() != "NAND"@.len()); }
    assert("AND"@ != "NOR"@) by { assert("AND"@[0] != "NOR"@[0]); }
    assert("AND"@ != "XNOR"@) by { assert("AND"@.len() != "XNOR"@.len()); }
    assert("OR"@ != "XOR"@) by { assert("OR"@.len() != "XOR"@.len()); }
    assert("OR"@ != "NAND"@) by { assert("OR"@.len() != "NAND"@.len()); }
    assert("OR"@ != "NOR"@) by { assert("OR"@.len() != "NOR"@.len()); }
    assert("OR"@ != "XNOR"@) by { assert("OR"@.len() != "XNOR"@.len()); }
    assert("XOR"@ != "NAND"@) by { assert("XOR"@.len() != "NAND"@.len()); }
    assert("XOR"@ != "NOR"@) by { assert("XOR"@[0] != "NOR"@[0]); }
    assert("XOR"@ != "XNOR"@) by { assert("XOR"@.len() != "XNOR"@.len()); }
    assert("NAND"@ != "NOR"@) by { assert("NAND"@.len() != "NOR"@.len()); }
    assert("NAND"@ != "XNOR"@) by { assert("NAND"@[0] != "XNOR"@[0]); }
    assert("NOR"@ != "XNOR"@) by { assert("NOR"@.len() != "XNOR"@.len()); }
}

} // verus!
