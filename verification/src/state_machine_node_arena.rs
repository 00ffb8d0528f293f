use vstd::prelude::*;

use crate::keys_well_behaved;
use crate::state_machine_node::StateMachineNode;
use crate::state_machine_node::lemma_edges_model_absent;
use crate::state_machine_node::edges_model;
use crate::state_machine_node::lemma_edges_model_found;
use crate::state_machine_node_id::StateMachineNodeId;
use crate::state_machine_result::AddError;
use crate::trie::NodeModel;
use crate::trie::edge_target;

verus! {

/// Exclusive owner of all nodes.  A node's id is its index in `nodes`: ids
/// count up from zero and are never reused, entries are never removed, so
/// every id the arena ever returned resolves to a live node for the arena's
/// whole life.
#[derive(Clone, Debug)]
pub struct StateMachineNodeArena<K, V> {
    nodes: Vec<StateMachineNode<K, V>>,
}

impl<K: PartialEq, V> StateMachineNodeArena<K, V> {
    pub closed spec fn model(&self) -> Seq<NodeModel<K, V>> {
        self.nodes@.map_values(|n: StateMachineNode<K, V>| n.model())
    }

    pub fn new() -> (r: StateMachineNodeArena<K, V>)
        ensures
            r.model() == Seq::<NodeModel<K, V>>::empty(),
    {
        let r = StateMachineNodeArena { nodes: Vec::new() };
        proof {
            assert(r.model() =~= Seq::<NodeModel<K, V>>::empty());
        }
        r
    }

    fn register_node(&mut self, node: StateMachineNode<K, V>) -> (r: StateMachineNodeId)
        ensures
            final(self).model() == old(self).model().push(node.model()),
            r@ == old(self).model().len(),
    {
        let node_id = StateMachineNodeId::new(self.nodes.len());
        self.nodes.push(node);
        proof {
            assert(self.model() =~= old(self).model().push(node.model()));
        }
        node_id
    }

    /// Allocates a fresh ordinary node with no edges; always succeeds.
    pub fn make_new_ordinary_node(&mut self) -> (r: StateMachineNodeId)
        ensures
            final(self).model() == old(self).model().push(
                (NodeModel::<K, V>::Ordinary { edges: Map::empty() }),
            ),
            r@ == old(self).model().len(),
    {
        let node = StateMachineNode::ordinary();
        self.register_node(node)
    }

    /// Allocates a fresh terminal node holding `v`; always succeeds.
    pub fn make_new_end_node(&mut self, v: V) -> (r: StateMachineNodeId)
        ensures
            final(self).model() == old(self).model().push((NodeModel::<K, V>::End { value: v })),
            r@ == old(self).model().len(),
    {
        let node = StateMachineNode::end(v);
        self.register_node(node)
    }

    /// The node for a valid id.  Handing the arena an id it never issued is
    /// a caller bug, ruled out by the precondition.
    pub fn get_node(&self, node_id: StateMachineNodeId) -> (r: &StateMachineNode<K, V>)
        requires
            0 <= node_id@ < self.model().len(),
        ensures
            r.model() == self.model()[node_id@],
    {
        let i = node_id.as_index();
        &self.nodes[i]
    }

    /// The node that `key` leads to from the node at `node_id`, if any; a
    /// terminal node has no outgoing edges, whatever the key.
    pub fn get_next_node(&self, node_id: StateMachineNodeId, key: &K) -> (r: Option<
        StateMachineNodeId,
    >)
        requires
            keys_well_behaved::<K>(),
            0 <= node_id@ < self.model().len(),
        ensures
            (match r {
                Some(t) => edge_target(self.model()[node_id@], *key) == Some(t@),
                None => edge_target(self.model()[node_id@], *key) is None,
            }),
    {
        let i = node_id.as_index();
        proof {
            assert(self.model().len() == self.nodes@.len());
            assert(self.model()[node_id@] == self.nodes@[node_id@].model());
        }
        match &self.nodes[i] {
            StateMachineNode::Ordinary(edges) => {
                let ghost s = edges@;
                let mut j: usize = 0;
                while j < edges.len()
                    invariant
                        keys_well_behaved::<K>(),
                        j <= edges.len(),
                        edges@ == s,
                        self.model()[node_id@] == (NodeModel::<K, V>::Ordinary {
                            edges: edges_model(s),
                        }),
                        forall|jj: int| 0 <= jj < j ==> (#[trigger] s[jj]).0 != *key,
                    decreases edges.len() - j,
                {
                    if edges[j].0 == *key {
                        proof {
                            lemma_edges_model_found(s, *key, j as int);
                            assert(edge_target(self.model()[node_id@], *key) == Some(
                                s[j as int].1@,
                            ));
                        }
                        return Some(edges[j].1);
                    }
                    j += 1;
                }
                proof {
                    lemma_edges_model_absent(s, *key);
                    assert(self.nodes@[node_id@].model() == (NodeModel::<K, V>::Ordinary {
                        edges: edges_model(s),
                    }));
                }
                None
            },
            StateMachineNode::End(_) => None,
        }
    }

    /// Sets the edge for `key` at the node at `node_id` to `next_node_id`,
    /// overwriting any earlier edge for that key.  Fails when that node is
    /// terminal: a completed path cannot be extended past its end.
    pub fn add_next_node(
        &mut self,
        node_id: StateMachineNodeId,
        key: K,
        next_node_id: StateMachineNodeId,
    ) -> (r: Result<(), AddError>)
        requires
            keys_well_behaved::<K>(),
            0 <= node_id@ < old(self).model().len(),
        ensures
            (match old(self).model()[node_id@] {
                NodeModel::Ordinary { edges } => r is Ok && final(self).model() == old(
                    self,
                ).model().update(
                    node_id@,
                    (NodeModel::<K, V>::Ordinary { edges: edges.insert(key, next_node_id@) }),
                ),
                NodeModel::End { .. } => r == Result::<(), AddError>::Err(
                    AddError::InvalidExtension,
                ) && final(self).model() == old(self).model(),
            }),
    {
        let i = node_id.as_index();
        let node_ref = &mut self.nodes[i];
        let r = node_ref.set_edge(key, next_node_id);
        proof {
            match old(self).model()[node_id@] {
                NodeModel::Ordinary { edges } => {
                    assert(self.model() =~= old(self).model().update(
                        node_id@,
                        (NodeModel::<K, V>::Ordinary {
                            edges: edges.insert(key, next_node_id@),
                        }),
                    ));
                },
                NodeModel::End { .. } => {
                    assert(self.model() =~= old(self).model());
                },
            }
        }
        r
    }
}

} // verus!
