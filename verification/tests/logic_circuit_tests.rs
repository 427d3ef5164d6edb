use relvar::logic_circuit::{Gate, GateState, LogicCircuit, Wire};

fn gate(id: &str, t: &str) -> Gate {
    Gate { gate_id: id.to_string(), gate_type: t.to_string() }
}

fn wire(f: &str, t: &str, p: i64) -> Wire {
    Wire { from_gate: f.to_string(), to_gate: t.to_string(), to_pin: p }
}

fn st(id: &str, v: bool) -> GateState {
    GateState { gate_id: id.to_string(), value: v }
}

fn value(c: &LogicCircuit, id: &str) -> bool {
    c.state.iter().find(|s| s.gate_id == id).unwrap().value
}

#[test]
fn test_logic_circuit_and_gate() {
    let mut c = LogicCircuit::new(
        vec![gate("IN1", "IN"), gate("IN2", "IN"), gate("AND1", "AND")],
        vec![wire("IN1", "AND1", 0), wire("IN2", "AND1", 1)],
        vec![st("IN1", true), st("IN2", true)],
    );
    c.tick();
    assert!(value(&c, "AND1"));
}

#[test]
fn test_logic_circuit_half_adder() {
    let mut c = LogicCircuit::new(
        vec![gate("A", "IN"), gate("B", "IN"), gate("XOR1", "XOR"), gate("AND1", "AND")],
        vec![wire("A", "XOR1", 0), wire("B", "XOR1", 1), wire("A", "AND1", 0), wire("B", "AND1", 1)],
        vec![st("A", true), st("B", false)],
    );
    c.tick();
    assert!(value(&c, "XOR1"));
    assert!(!value(&c, "AND1"));
}

#[test]
fn logic_inputs_keep_state_and_idle_gates_drop() {
    let mut c = LogicCircuit::new(
        vec![gate("A", "IN"), gate("N", "NOT"), gate("O", "OR")],
        vec![wire("A", "N", 0)],
        vec![st("A", false), st("O", true)],
    );
    c.tick();
    assert!(value(&c, "N"));
    assert!(!value(&c, "A"));
    assert!(c.state.iter().all(|s| s.gate_id != "O"));
    assert_eq!(c.state.len(), 2);
}
