//! A document tree as relations: nodes `(node_id, tag)`, parent-child edges
//! `(parent_id, child_id)` and attributes `(node_id, attr_name, attr_value)`.
use vstd::prelude::*;
use crate::graph::{contains_key, lemma_int_views, reachable_from, reached_from};
use crate::text::str_eq;

verus! {

broadcast use vstd::seq_lib::group_seq_properties;

/// A node of the tree.
#[derive(Clone, Debug, PartialEq, Eq)]
pub struct DomNode {
    pub node_id: i64,
    pub tag: String,
}

/// One attribute of a node.
#[derive(Clone, Debug, PartialEq, Eq)]
pub struct DomAttribute {
    pub node_id: i64,
    pub attr_name: String,
    pub attr_value: String,
}

/// The tree.
pub struct RelationalDom {
    pub nodes: Vec<DomNode>,
    /// `(parent_id, child_id)` pairs.
    pub edges: Vec<(i64, i64)>,
    pub attributes: Vec<DomAttribute>,
}

/// `node` carries the class `class_name`.
pub open spec fn has_class(attributes: Seq<DomAttribute>, node: i64, class_name: Seq<char>) -> bool {
    exists|i: int|
        0 <= i < attributes.len() && #[trigger] attributes[i].node_id == node
            && attributes[i].attr_name@ == "class"@ && attributes[i].attr_value@ == class_name
}

impl RelationalDom {
    /// A document over the given relations.
    pub fn new(nodes: Vec<DomNode>, edges: Vec<(i64, i64)>, attributes: Vec<DomAttribute>) -> (dom:
        Self)
        ensures
            dom.nodes == nodes,
            dom.edges == edges,
            dom.attributes == attributes,
    {
        RelationalDom { nodes, edges, attributes }
    }

    /// The nodes of class `class_name`, each once.
    pub fn query_class(&self, class_name: &str) -> (ids: Vec<i64>)
        ensures
            ids@.no_duplicates(),
            forall|n: i64| ids@.contains(n) <==> has_class(self.attributes@, n, class_name@),
    {
        let mut ids: Vec<i64> = Vec::new();
        let mut i: usize = 0;
        while i < self.attributes.len()
            invariant
                i <= self.attributes@.len(),
                ids@.no_duplicates(),
                forall|n: i64|
                    ids@.contains(n) <==> has_class(
                        self.attributes@.take(i as int),
                        n,
                        class_name@,
                    ),
            decreases self.attributes@.len() - i,
        {
            let a = &self.attributes[i];
            let is_match = str_eq(a.attr_name.as_str(), "class") && str_eq(
                a.attr_value.as_str(),
                class_name,
            );
            let ghost prefix = self.attributes@.take(i as int);
            let ghost next = self.attributes@.take(i + 1);
            assert(next == prefix.push(self.attributes@[i as int]));
            proof {
                lemma_int_views(ids@, Seq::empty());
            }
            let ghost old_ids = ids@;
            if is_match && !contains_key(&ids, &a.node_id) {
                let ghost before = ids@;
                ids.push(a.node_id);
                proof {
                    assert forall|x: int, y: int| 0 <= x < y < ids@.len() implies ids@[x]
                        != ids@[y] by {
                        if y == ids@.len() - 1 {
                            assert(before.contains(before[x]));
                        } else {
                            assert(before[x] != before[y]);
                        }
                    }
                }
            }
            proof {
                assert(forall|n: i64|
                    ids@.contains(n) <==> (old_ids.contains(n) || (is_match && n
                        == self.attributes@[i as int].node_id)));
                assert(next[i as int] == self.attributes@[i as int]);
                assert forall|n: i64| ids@.contains(n) <==> has_class(next, n, class_name@) by {
                    if is_match && n == self.attributes@[i as int].node_id {
                        assert(has_class(next, n, class_name@));
                    }
                    if has_class(next, n, class_name@) {
                        let k = choose|k: int|
                            0 <= k < next.len() && #[trigger] next[k].node_id == n
                                && next[k].attr_name@ == "class"@ && next[k].attr_value@
                                == class_name@;
                        if k < i {
                            assert(prefix[k] == next[k]);
                            assert(has_class(prefix, n, class_name@));
                        }
                    }
                    if has_class(prefix, n, class_name@) {
                        let k = choose|k: int|
                            0 <= k < prefix.len() && #[trigger] prefix[k].node_id == n
                                && prefix[k].attr_name@ == "class"@ && prefix[k].attr_value@
                                == class_name@;
                        assert(next[k] == prefix[k]);
                    }
                }
            }
            i = i + 1;
        }
        assert(self.attributes@.take(self.attributes@.len() as int) == self.attributes@);
        ids
    }

    /// The target nodes that lie strictly below some ancestor node, in the
    /// order of `target_nodes`.
    pub fn query_descendant(&self, ancestor_nodes: &Vec<i64>, target_nodes: &Vec<i64>) -> (ids:
        Vec<i64>)
        ensures
            ids@ == target_nodes@.filter(|t: i64| reached_from(self.edges@, ancestor_nodes@, t)),
    {
        let below = reachable_from(&self.edges, ancestor_nodes);
        proof {
            lemma_int_views(below@, self.edges@);
            lemma_int_views(ancestor_nodes@, self.edges@);
        }
        let ghost pred = |t: i64| reached_from(self.edges@, ancestor_nodes@, t);
        let mut ids: Vec<i64> = Vec::new();
        let mut i: usize = 0;
        while i < target_nodes.len()
            invariant
                i <= target_nodes@.len(),
                pred == (|t: i64| reached_from(self.edges@, ancestor_nodes@, t)),
                forall|t: i64| below@.contains(t) <==> pred(t),
                ids@ == target_nodes@.take(i as int).filter(pred),
            decreases target_nodes@.len() - i,
        {
            proof {
                lemma_int_views(below@, Seq::empty());
                assert(target_nodes@.take(i + 1) == target_nodes@.take(i as int).push(
                    target_nodes@[i as int],
                ));
                target_nodes@.take(i as int).lemma_filter_push(target_nodes@[i as int], pred);
            }
            let t = target_nodes[i];
            if contains_key(&below, &t) {
                ids.push(t);
            }
            i = i + 1;
        }
        assert(target_nodes@.take(target_nodes@.len() as int) == target_nodes@);
        ids
    }
}

} // verus!
