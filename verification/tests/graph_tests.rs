use relvar::graph::Graph;
use relvar::relation::{Attribute, Relation, Row, ScalarType, ScalarValue};

fn attr(name: &str, ty: ScalarType) -> Attribute {
    Attribute { name: name.to_string(), ty }
}

fn chain_graph(edges_list: &[(i64, i64)]) -> Graph {
    let mut nodes = Relation::new(vec![attr("id", ScalarType::Int)]);
    for i in 1..=4 {
        nodes.insert(Row { values: vec![ScalarValue::Int(i)] });
    }
    let mut edges = Relation::new(vec![attr("from", ScalarType::Int), attr("to", ScalarType::Int)]);
    for (a, b) in edges_list {
        edges.insert(Row { values: vec![ScalarValue::Int(*a), ScalarValue::Int(*b)] });
    }
    Graph::new(nodes, edges, "id", "from", "to")
}

fn distance_of(result: &Relation, id: i64) -> Option<i64> {
    let id_pos = result.attribute_index(&"id".to_string()).unwrap();
    let d_pos = result.attribute_index(&"distance".to_string()).unwrap();
    result.tuples.iter().find(|t| t.values[id_pos] == ScalarValue::Int(id)).map(|t| match &t.values[d_pos] {
        ScalarValue::Int(d) => *d,
        _ => panic!("distance is an integer"),
    })
}

#[test]
fn test_bfs_simple_chain() {
    let graph = chain_graph(&[(1, 2), (2, 3)]);
    let result = graph.bfs(ScalarValue::Int(1)).unwrap();
    assert_eq!(result.cardinality(), 3);
    assert_eq!(distance_of(&result, 1), Some(0));
    assert_eq!(distance_of(&result, 2), Some(1));
    assert_eq!(distance_of(&result, 3), Some(2));
}

#[test]
fn test_bfs_shortest_of_two_routes_and_cycle() {
    let graph = chain_graph(&[(1, 2), (2, 3), (3, 4), (1, 4), (4, 1)]);
    let result = graph.bfs(ScalarValue::Int(1)).unwrap();
    assert_eq!(result.cardinality(), 4);
    assert_eq!(distance_of(&result, 4), Some(1));
    assert_eq!(distance_of(&result, 3), Some(2));
}

#[test]
fn test_bfs_unreachable_and_wrong_type() {
    let graph = chain_graph(&[(2, 3)]);
    let result = graph.bfs(ScalarValue::Int(1)).unwrap();
    assert_eq!(result.cardinality(), 1);
    assert_eq!(distance_of(&result, 3), None);
    assert!(graph.bfs(ScalarValue::Bool(true)).is_err());
}
