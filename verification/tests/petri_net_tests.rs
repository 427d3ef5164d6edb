use relvar::petri_net::PetriNet;

fn tokens(net: &PetriNet, place: &str) -> i64 {
    net.places.iter().find(|p| p.place_id == place).unwrap().tokens
}

#[test]
fn test_petri_net_basic_flow() {
    let mut net = PetriNet::new();
    net.add_place("p_ready", 1);
    net.add_place("p_working", 0);
    net.add_place("p_done", 0);
    net.add_transition("t_start");
    net.add_transition("t_finish");
    net.add_input_arc("p_ready", "t_start", 1);
    net.add_output_arc("t_start", "p_working", 1);
    net.add_input_arc("p_working", "t_finish", 1);
    net.add_output_arc("t_finish", "p_done", 1);

    let enabled = net.enabled_transitions();
    assert_eq!(enabled.len(), 1);
    assert!(enabled.contains(&"t_start".to_string()));

    assert!(net.fire("t_start"));

    let enabled2 = net.enabled_transitions();
    assert_eq!(enabled2.len(), 1);
    assert!(enabled2.contains(&"t_finish".to_string()));

    assert!(net.fire("t_finish"));

    let enabled3 = net.enabled_transitions();
    assert_eq!(enabled3.len(), 0);

    assert_eq!(tokens(&net, "p_done"), 1);
}

#[test]
fn test_petri_net_multiple_inputs() {
    let mut net = PetriNet::new();
    net.add_place("hydrogen", 2);
    net.add_place("oxygen", 1);
    net.add_place("water", 0);
    net.add_transition("synthesize");
    net.add_input_arc("hydrogen", "synthesize", 2);
    net.add_input_arc("oxygen", "synthesize", 1);
    net.add_output_arc("synthesize", "water", 1);

    assert!(net.fire("synthesize"));
    assert_eq!(tokens(&net, "water"), 1);
    assert_eq!(tokens(&net, "hydrogen"), 0);
}

#[test]
fn petri_doc_fire_then_disabled() {
    let mut net = PetriNet::new();
    net.add_place("p1", 1);
    net.add_place("p2", 0);
    net.add_transition("t1");
    net.add_input_arc("p1", "t1", 1);
    net.add_output_arc("t1", "p2", 1);
    assert!(net.fire("t1"));
    assert!(!net.fire("t1"));
    assert_eq!(tokens(&net, "p1"), 0);
    assert_eq!(tokens(&net, "p2"), 1);
}

#[test]
fn petri_unknown_transition_does_not_fire() {
    let mut net = PetriNet::default();
    net.add_place("p", 3);
    assert!(!net.fire("nope"));
    assert_eq!(tokens(&net, "p"), 3);
}

#[test]
fn petri_adding_same_tuple_twice_keeps_one() {
    let mut net = PetriNet::new();
    net.add_place("p", 5);
    net.add_place("p", 5);
    net.add_transition("t");
    net.add_transition("t");
    assert_eq!(net.places.len(), 1);
    assert_eq!(net.transitions.len(), 1);
}

#[test]
fn petri_self_loop_nets_to_zero() {
    let mut net = PetriNet::new();
    net.add_place("p", 2);
    net.add_transition("t");
    net.add_input_arc("p", "t", 2);
    net.add_output_arc("t", "p", 2);
    assert!(net.fire("t"));
    assert_eq!(tokens(&net, "p"), 2);
}

#[test]
fn petri_tokens_stay_nonnegative() {
    let mut net = PetriNet::new();
    net.add_place("a", 3);
    net.add_place("b", 0);
    net.add_transition("t");
    net.add_input_arc("a", "t", 2);
    net.add_output_arc("t", "b", 4);
    assert!(net.fire("t"));
    assert!(!net.fire("t"));
    assert!(net.places.iter().all(|p| p.tokens >= 0));
    assert_eq!(tokens(&net, "a"), 1);
    assert_eq!(tokens(&net, "b"), 4);
}

#[test]
fn test_fire_change_is_arc_weights() {
    let mut net = PetriNet::new();
    net.add_place("a", 5);
    net.add_place("b", 1);
    net.add_transition("t");
    net.add_input_arc("a", "t", 2);
    net.add_input_arc("b", "t", 1);
    net.add_output_arc("t", "b", 3);
    net.add_output_arc("t", "a", 1);
    assert!(net.fire("t"));
    assert_eq!(tokens(&net, "a"), 4);
    assert_eq!(tokens(&net, "b"), 3);
}
