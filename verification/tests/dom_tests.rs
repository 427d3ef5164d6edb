use relvar::dom::{DomAttribute, DomNode, RelationalDom};

fn node(id: i64, tag: &str) -> DomNode {
    DomNode { node_id: id, tag: tag.to_string() }
}

fn class(id: i64, value: &str) -> DomAttribute {
    DomAttribute { node_id: id, attr_name: "class".to_string(), attr_value: value.to_string() }
}

fn setup_dom() -> RelationalDom {
    let nodes = vec![node(1, "div"), node(2, "div"), node(3, "p"), node(4, "span"), node(5, "footer")];
    let edges = vec![(1, 2), (2, 3), (2, 4), (1, 5)];
    let attributes = vec![class(1, "container"), class(2, "content"), class(3, "text"), class(4, "highlight")];
    RelationalDom::new(nodes, edges, attributes)
}

#[test]
fn test_query_class() {
    let dom = setup_dom();
    let content_nodes = dom.query_class("content");
    assert_eq!(content_nodes.len(), 1);
    assert_eq!(content_nodes[0], 2);
}

#[test]
fn test_query_descendant() {
    let dom = setup_dom();
    let containers = dom.query_class("container");
    let targets = dom.query_class("highlight");
    let descendants = dom.query_descendant(&containers, &targets);
    assert_eq!(descendants.len(), 1);
    assert_eq!(descendants[0], 4);
}

#[test]
fn a_node_is_not_its_own_descendant() {
    let dom = setup_dom();
    assert!(dom.query_descendant(&vec![2], &vec![2]).is_empty());
    assert_eq!(dom.query_descendant(&vec![1], &vec![1, 3, 5]), vec![3, 5]);
}

#[test]
fn other_attribute_names_are_not_classes() {
    let mut dom = setup_dom();
    dom.attributes.push(DomAttribute { node_id: 5, attr_name: "id".to_string(), attr_value: "content".to_string() });
    dom.attributes.push(class(3, "content"));
    let mut found = dom.query_class("content");
    found.sort();
    assert_eq!(found, vec![2, 3]);
}
