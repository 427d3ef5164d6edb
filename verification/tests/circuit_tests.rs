use relvar::circuit::{BinaryGate, CircuitError, LogicSimulator, UnaryGate, WireValue};

fn bin(g: &str, t: &str, a: &str, b: &str, o: &str) -> BinaryGate {
    BinaryGate {
        gate: g.to_string(),
        gate_type: t.to_string(),
        in1: a.to_string(),
        in2: b.to_string(),
        out: o.to_string(),
    }
}

fn un(g: &str, t: &str, i: &str, o: &str) -> UnaryGate {
    UnaryGate { gate: g.to_string(), gate_type: t.to_string(), in_wire: i.to_string(), out: o.to_string() }
}

fn w(name: &str, val: bool) -> WireValue {
    WireValue { wire: name.to_string(), val }
}

fn value(ws: &[WireValue], name: &str) -> bool {
    ws.iter().find(|x| x.wire == name).unwrap().val
}

#[test]
fn test_full_adder() {
    let gates = vec![
        bin("X1", "XOR", "A", "B", "S1"),
        bin("A1", "AND", "A", "B", "C1"),
        bin("X2", "XOR", "S1", "Cin", "S"),
        bin("A2", "AND", "S1", "Cin", "C2"),
        bin("O1", "OR", "C1", "C2", "Cout"),
    ];
    let sim = LogicSimulator::new(gates, vec![]);
    let inputs = vec![w("A", true), w("B", true), w("Cin", true)];
    let final_state = sim.run_until_stable(&inputs, &inputs, 10).unwrap();
    assert!(value(&final_state, "S"));
    assert!(value(&final_state, "Cout"));
}

#[test]
fn test_oscillator() {
    let sim = LogicSimulator::new(vec![], vec![un("N1", "NOT", "CLK", "CLK")]);
    let initial = vec![w("CLK", false)];
    let state1 = sim.tick(&initial, &vec![]);
    assert!(value(&state1, "CLK"));
    let state2 = sim.tick(&state1, &vec![]);
    assert!(!value(&state2, "CLK"));
    let res = sim.run_until_stable(&initial, &vec![], 10);
    assert_eq!(res.unwrap_err(), CircuitError::Unstable);
}

#[test]
fn circuit_inputs_override_gate_outputs() {
    let sim = LogicSimulator::new(vec![], vec![un("B1", "BUF", "X", "Y")]);
    let next = sim.tick(&vec![w("X", true)], &vec![w("Y", false)]);
    assert_eq!(next, vec![w("Y", false)]);
}

#[test]
fn circuit_gate_types() {
    let gates = vec![
        bin("g1", "NAND", "A", "B", "nand"),
        bin("g2", "NOR", "A", "B", "nor"),
        bin("g3", "XNOR", "A", "B", "xnor"),
        bin("g4", "WHAT", "A", "B", "unknown"),
    ];
    let sim = LogicSimulator::new(gates, vec![un("n", "NOT", "A", "nota")]);
    let next = sim.tick(&vec![w("A", true), w("B", false)], &vec![]);
    assert!(value(&next, "nand"));
    assert!(!value(&next, "nor"));
    assert!(!value(&next, "xnor"));
    assert!(!value(&next, "unknown"));
    assert!(!value(&next, "nota"));
    assert_eq!(next.len(), 5);
}

#[test]
fn circuit_zero_ticks_is_unstable() {
    let sim = LogicSimulator::new(vec![], vec![]);
    assert!(sim.run_until_stable(&vec![], &vec![], 0).is_err());
    assert_eq!(sim.run_until_stable(&vec![], &vec![], 1).unwrap(), vec![]);
}
