use relvar::ecs::{NamedTuple, World, WorldError};
use relvar::relation::{ScalarType, ScalarValue};

fn attrs(list: &[(&str, ScalarType)]) -> Vec<(String, ScalarType)> {
    list.iter().map(|(n, t)| (n.to_string(), *t)).collect()
}

fn named(list: &[(&str, i64)]) -> NamedTuple {
    list.iter().map(|(n, v)| (n.to_string(), ScalarValue::Int(*v))).collect()
}

fn int_of(t: &NamedTuple, name: &str) -> i64 {
    match t.iter().find(|(n, _)| n == name) {
        Some((_, ScalarValue::Int(v))) => *v,
        _ => panic!("no integer {}", name),
    }
}

fn physics_world() -> (World, i64, i64, i64) {
    let mut world = World::new();
    world.register_component("Position", &attrs(&[("x", ScalarType::Int), ("y", ScalarType::Int)])).unwrap();
    world.register_component("Velocity", &attrs(&[("vx", ScalarType::Int), ("vy", ScalarType::Int)])).unwrap();
    let e1 = world.spawn().unwrap();
    world.add_component(e1, "Position", named(&[("x", 0), ("y", 0)])).unwrap();
    world.add_component(e1, "Velocity", named(&[("vx", 1), ("vy", 1)])).unwrap();
    let e2 = world.spawn().unwrap();
    world.add_component(e2, "Position", named(&[("x", 10), ("y", 10)])).unwrap();
    let e3 = world.spawn().unwrap();
    world.add_component(e3, "Position", named(&[("x", 5), ("y", 5)])).unwrap();
    world.add_component(e3, "Velocity", named(&[("vx", -1), ("vy", -2)])).unwrap();
    (world, e1, e2, e3)
}

fn movement(joined: &NamedTuple) -> NamedTuple {
    let x = int_of(joined, "x");
    let y = int_of(joined, "y");
    let vx = int_of(joined, "vx");
    let vy = int_of(joined, "vy");
    named(&[("x", x + vx), ("y", y + vy)])
}

#[test]
fn test_ecs_physics_system() {
    let (mut world, e1, e2, e3) = physics_world();
    let count = world.run_update_system("Position", &vec!["Velocity".to_string()], movement).unwrap();
    assert_eq!(count, 2);
    let pos1 = world.get_component(e1, "Position").unwrap();
    assert_eq!(int_of(&pos1, "x"), 1);
    assert_eq!(int_of(&pos1, "y"), 1);
    let pos2 = world.get_component(e2, "Position").unwrap();
    assert_eq!(int_of(&pos2, "x"), 10);
    assert_eq!(int_of(&pos2, "y"), 10);
    let pos3 = world.get_component(e3, "Position").unwrap();
    assert_eq!(int_of(&pos3, "x"), 4);
    assert_eq!(int_of(&pos3, "y"), 3);
}

#[test]
fn test_spawn_counts_from_one() {
    let mut world = World::new();
    assert_eq!(world.spawn().unwrap(), 1);
    assert_eq!(world.spawn().unwrap(), 2);
    assert_eq!(world.spawn().unwrap(), 3);
}

#[test]
fn test_register_reserved_and_duplicate() {
    let mut world = World::new();
    match world.register_component("Tag", &attrs(&[("entity_id", ScalarType::Int)])) {
        Err(WorldError::AlgebraError(m)) => assert_eq!(m, "Attribute name 'entity_id' is reserved"),
        other => panic!("unexpected {:?}", other),
    }
    world.register_component("Tag", &attrs(&[("label", ScalarType::String)])).unwrap();
    assert!(matches!(
        world.register_component("Tag", &attrs(&[])),
        Err(WorldError::ComponentExists(n)) if n == "Tag"
    ));
}

#[test]
fn test_add_get_remove_component() {
    let mut world = World::new();
    world.register_component("Health", &attrs(&[("hp", ScalarType::Int)])).unwrap();
    let e = world.spawn().unwrap();
    world.add_component(e, "Health", named(&[("hp", 7)])).unwrap();
    let got = world.get_component(e, "Health").unwrap();
    assert_eq!(got.len(), 2);
    assert_eq!(int_of(&got, "entity_id"), e);
    assert_eq!(int_of(&got, "hp"), 7);
    assert!(matches!(world.add_component(e, "Health", named(&[("hp", 8)])), Err(WorldError::KeyViolation(x)) if x == e));
    world.remove_component(e, "Health").unwrap();
    assert!(matches!(world.get_component(e, "Health"), Err(WorldError::TupleMismatch)));
    world.remove_component(e, "Health").unwrap();
}

#[test]
fn test_component_errors() {
    let mut world = World::new();
    world.register_component("Health", &attrs(&[("hp", ScalarType::Int)])).unwrap();
    let e = world.spawn().unwrap();
    assert!(matches!(world.add_component(e, "Mana", named(&[("mp", 1)])), Err(WorldError::ComponentNotFound(n)) if n == "Mana"));
    assert!(matches!(world.add_component(e, "Health", named(&[("mp", 1)])), Err(WorldError::InvalidTuple)));
    assert!(matches!(world.add_component(e, "Health", vec![("hp".to_string(), ScalarValue::Bool(true))]), Err(WorldError::InvalidTuple)));
    assert!(matches!(world.get_component(e, "Mana"), Err(WorldError::ComponentNotFound(_))));
    assert!(matches!(world.remove_component(e, "Mana"), Err(WorldError::ComponentNotFound(_))));
    assert!(matches!(
        world.run_update_system("Health", &vec!["Mana".to_string()], |t: &NamedTuple| t.clone()),
        Err(WorldError::ComponentNotFound(n)) if n == "Mana"
    ));
}

#[test]
fn test_joined_tuples_inner_join() {
    let (world, e1, _e2, e3) = physics_world();
    let joined = world.joined_tuples("Position", &vec!["Velocity".to_string()]).unwrap();
    let entities: Vec<i64> = joined.iter().map(|(e, _)| *e).collect();
    assert_eq!(entities, vec![e1, e3]);
    assert_eq!(int_of(&joined[1].1, "vy"), -2);
    assert_eq!(joined[0].1.len(), 5);
}

#[test]
fn test_update_with_bad_values_changes_nothing() {
    let (mut world, e1, _e2, _e3) = physics_world();
    let r = world.run_update_system("Position", &vec!["Velocity".to_string()], |_t: &NamedTuple| named(&[("x", 1)]));
    assert!(matches!(r, Err(WorldError::InvalidTuple)));
    assert_eq!(int_of(&world.get_component(e1, "Position").unwrap(), "x"), 0);
}
