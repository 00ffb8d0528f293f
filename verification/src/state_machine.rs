use vstd::prelude::*;

use crate::keys_well_behaved;
use crate::state_machine_node::StateMachineNode;
use crate::state_machine_node_arena::StateMachineNodeArena;
use crate::state_machine_node_id::StateMachineNodeId;
use crate::state_machine_result::AddError;
use crate::state_machine_result::ResultModel;
use crate::state_machine_result::StateMachineResult;
use crate::trie::NodeModel;
use crate::trie::accepts_from;
use crate::trie::add_model;
use crate::trie::edge_target;
use crate::trie::end_on_walk;
use crate::trie::grown_at;
use crate::trie::lemma_accepts_push;
use crate::trie::lemma_add_model_effect;
use crate::trie::lemma_add_model_from_edgeless;
use crate::trie::lemma_link_fresh_inv;
use crate::trie::lemma_push_edgeless_inv;
use crate::trie::trie_inv;
use crate::trie::walk_from;
use crate::values_well_behaved;

verus! {

/// Spec-level state of a machine: the arena's nodes, the root and current
/// node indices, and the keys consumed since the last reset to root.
#[verifier::reject_recursive_types(K)]
pub ghost struct MachineModel<K, V> {
    pub nodes: Seq<NodeModel<K, V>>,
    pub root: int,
    pub cur: int,
    pub path: Seq<K>,
}

/// The machine's invariant: the root is the first node ever created and is
/// ordinary, edges point forward and never share a target (the reachable
/// structure is a tree), the current node exists and is ordinary, and at the
/// root the consumed-key run is empty.
pub open spec fn machine_inv<K, V>(m: MachineModel<K, V>) -> bool {
    &&& trie_inv(m.nodes)
    &&& m.root == 0
    &&& 0 < m.nodes.len()
    &&& m.nodes[m.root] is Ordinary
    &&& 0 <= m.cur < m.nodes.len()
    &&& m.nodes[m.cur] is Ordinary
    &&& (m.cur == m.root ==> m.path.len() == 0)
}

/// The machine is in its at-root state.
pub open spec fn at_root<K, V>(m: MachineModel<K, V>) -> bool {
    m.cur == m.root
}

/// Path `p` is registered with value `v`: from the root, every key of `p`
/// has an edge, the nodes along the way are ordinary, and the last edge
/// leads to a terminal node holding `v`.
pub open spec fn registered<K, V>(m: MachineModel<K, V>, p: Seq<K>, v: V) -> bool {
    accepts_from(m.nodes, m.root, p, v)
}

/// Some strict, nonempty prefix of `p` is itself a registered path: adding
/// `p` would have to extend past that path's terminal node.
pub open spec fn extends_completed_path<K, V>(m: MachineModel<K, V>, p: Seq<K>) -> bool {
    exists|i: int, w: V| 1 <= i < p.len() && #[trigger] registered(m, p.take(i), w)
}

/// One `excite` step on the model: the machine's full transition function.
/// An edge to an ordinary node advances; an edge to a terminal node yields
/// its value and resets; a missing edge yields the consumed keys plus the
/// failing one and resets.
pub open spec fn step<K, V>(m: MachineModel<K, V>, k: K) -> (MachineModel<K, V>, ResultModel<
    K,
    V,
>) {
    match edge_target(m.nodes[m.cur], k) {
        Some(t) => if m.nodes[t] is Ordinary {
            (MachineModel { cur: t, path: m.path.push(k), ..m }, ResultModel::Transition)
        } else {
            (
                MachineModel { cur: m.root, path: Seq::empty(), ..m },
                ResultModel::Excited { value: m.nodes[t]->value },
            )
        },
        None => (
            MachineModel { cur: m.root, path: Seq::empty(), ..m },
            ResultModel::Fallback { run: m.path.push(k) },
        ),
    }
}

/// The public facade: the arena, the root node, the current node, and the
/// keys consumed since the last reset to root.
#[derive(Clone, Debug)]
pub struct StateMachine<K, V> {
    arena: StateMachineNodeArena<K, V>,
    current_node_id: StateMachineNodeId,
    root_node_id: StateMachineNodeId,
    current_path: Vec<K>,
}

/// A failed registration: the walk ran into a terminal node, so some strict
/// prefix of the path was already registered; the one node created before
/// the failure was never linked, so no acceptance changes.
proof fn lemma_add_failure<K, V>(
    m0: MachineModel<K, V>,
    keys0: Seq<K>,
    value: V,
    orphan: NodeModel<K, V>,
)
    requires
        machine_inv(m0),
        keys0.len() >= 1,
        add_model(m0.nodes, m0.root, keys0, value) is None,
        forall|k: K| #[trigger] edge_target(orphan, k) is None,
    ensures
        extends_completed_path(m0, keys0),
        trie_inv(m0.nodes.push(orphan)),
        forall|q: Seq<K>, w: V|
            accepts_from(m0.nodes.push(orphan), m0.root, q, w) == accepts_from(
                m0.nodes,
                m0.root,
                q,
                w,
            ),
        forall|q: Seq<K>|
            #[trigger] walk_from(m0.nodes.push(orphan), m0.root, q) == walk_from(
                m0.nodes,
                m0.root,
                q,
            ),
{
    lemma_add_model_effect(m0.nodes, m0.root, keys0, value);
    let i = choose|i: int| 0 <= i < keys0.len() && #[trigger] end_on_walk(
        m0.nodes,
        m0.root,
        keys0,
        i,
    );
    assert(keys0.take(0) =~= Seq::<K>::empty());
    assert(i != 0);
    let t = walk_from(m0.nodes, m0.root, keys0.take(i))->Some_0;
    let w = m0.nodes[t]->value;
    assert(m0.nodes[t] == (NodeModel::<K, V>::End { value: w }));
    assert(keys0.take(i).len() == i);
    assert(registered(m0, keys0.take(i), w));
    assert(extends_completed_path(m0, keys0));
    lemma_push_edgeless_inv(m0.nodes, orphan);
    assert forall|q: Seq<K>, w2: V|
        accepts_from(m0.nodes.push(orphan), m0.root, q, w2) == accepts_from(
            m0.nodes,
            m0.root,
            q,
            w2,
        ) by {
        lemma_accepts_push(m0.nodes, orphan, m0.root, q);
    }
    assert forall|q: Seq<K>|
        #[trigger] walk_from(m0.nodes.push(orphan), m0.root, q) == walk_from(
            m0.nodes,
            m0.root,
            q,
        ) by {
        lemma_accepts_push(m0.nodes, orphan, m0.root, q);
    }
}

impl<K: PartialEq + Eq + Clone, V: Clone> StateMachine<K, V> {
    pub closed spec fn model(&self) -> MachineModel<K, V> {
        MachineModel {
            nodes: self.arena.model(),
            root: self.root_node_id@,
            cur: self.current_node_id@,
            path: self.current_path@,
        }
    }

    pub open spec fn wf(&self) -> bool {
        machine_inv(self.model())
    }

    /// A fresh machine: one ordinary root node, the cursor on it, and an
    /// empty consumed-key run.
    pub fn new() -> (r: StateMachine<K, V>)
        ensures
            r.wf(),
            r.model().nodes == seq![(NodeModel::<K, V>::Ordinary { edges: Map::empty() })],
            r.model().root == 0,
            r.model().cur == 0,
            r.model().path == Seq::<K>::empty(),
    {
        let mut arena = StateMachineNodeArena::new();
        let root_node_id = arena.make_new_ordinary_node();
        let current_node_id = root_node_id;
        let current_path = Vec::new();
        let state_machine = StateMachine { arena, current_node_id, root_node_id, current_path };
        proof {
            let nodes = state_machine.model().nodes;
            assert(nodes =~= seq![(NodeModel::<K, V>::Ordinary { edges: Map::empty() })]);
            assert forall|i: int, k: K|
                #![trigger edge_target(nodes[i], k)]
                0 <= i < nodes.len() implies edge_target(nodes[i], k) is None by {
                assert(!nodes[i]->edges.contains_key(k));
            }
        }
        state_machine
    }

    /// Registers `keys` as a path completed by `value`.  Success is owed
    /// exactly when `keys` is nonempty and no strict prefix of it is already
    /// a completed path; afterwards exactly the old paths that `keys` is not
    /// a prefix of survive (the others are shadowed), plus `keys` itself.
    /// The arena is append-only: registering never removes a node, never
    /// changes a node's kind or payload, and rewires at most one
    /// pre-existing edge; a failed registration changes no behavior, though
    /// the one node created before the failure stays in the arena,
    /// unreachable.
    pub fn add(&mut self, keys: Vec<K>, value: V) -> (r: Result<(), AddError>)
        requires
            old(self).wf(),
            keys_well_behaved::<K>(),
        ensures
            final(self).wf(),
            final(self).model().root == old(self).model().root,
            final(self).model().cur == old(self).model().cur,
            final(self).model().path == old(self).model().path,
            (match r {
                Ok(()) => {
                    &&& keys@.len() > 0
                    &&& !extends_completed_path(old(self).model(), keys@)
                    &&& registered(final(self).model(), keys@, value)
                    &&& old(self).model().nodes.len() < final(self).model().nodes.len()
                    &&& final(self).model().nodes.len() <= old(self).model().nodes.len()
                        + keys@.len()
                    &&& (exists|m: int, j: int|
                        #[trigger] grown_at(
                            old(self).model().nodes,
                            final(self).model().nodes,
                            old(self).model().root,
                            keys@,
                            m,
                            j,
                        ))
                    &&& (forall|q: Seq<K>|
                        #![trigger walk_from(final(self).model().nodes, final(self).model().root, q)]
                        walk_from(final(self).model().nodes, final(self).model().root, q) is Some
                            <==> (q.is_prefix_of(keys@) || (walk_from(
                            old(self).model().nodes,
                            old(self).model().root,
                            q,
                        ) is Some && (keys@.is_prefix_of(q) ==> q == keys@))))
                    &&& (forall|q: Seq<K>, w: V|
                        #![trigger registered(final(self).model(), q, w)]
                        #![trigger registered(old(self).model(), q, w)]
                        registered(final(self).model(), q, w) <==> ((q == keys@ && w == value) || (
                        registered(old(self).model(), q, w) && !keys@.is_prefix_of(q))))
                },
                Err(AddError::EmptyPath) => keys@.len() == 0 && final(self).model() == old(
                    self,
                ).model(),
                Err(AddError::InvalidExtension) => {
                    &&& keys@.len() > 0
                    &&& extends_completed_path(old(self).model(), keys@)
                    &&& old(self).model().nodes.is_prefix_of(final(self).model().nodes)
                    &&& final(self).model().nodes.len() == old(self).model().nodes.len() + 1
                    &&& (forall|k: K|
                        #[trigger] edge_target(final(self).model().nodes.last(), k) is None)
                    &&& (forall|q: Seq<K>|
                        #![trigger walk_from(final(self).model().nodes, final(self).model().root, q)]
                        walk_from(final(self).model().nodes, final(self).model().root, q)
                            == walk_from(old(self).model().nodes, old(self).model().root, q))
                    &&& (forall|q: Seq<K>, w: V|
                        #![trigger registered(final(self).model(), q, w)]
                        #![trigger registered(old(self).model(), q, w)]
                        registered(final(self).model(), q, w) <==> registered(
                            old(self).model(),
                            q,
                            w,
                        ))
                },
            }),
    {
        if keys.len() == 0 {
            return Err(AddError::EmptyPath);
        }
        let ghost m0 = self.model();
        let ghost keys0 = keys@;
        let mut ks = keys;
        let mut current_node_id = self.root_node_id;
        proof {
            assert(keys0.skip(0) =~= keys0);
        }
        while ks.len() > 1
            invariant
                keys_well_behaved::<K>(),
                m0 == old(self).model(),
                keys0 == keys@,
                machine_inv(m0),
                self.model().nodes.len() >= m0.nodes.len(),
                self.model().root == m0.root,
                self.model().cur == m0.cur,
                self.model().path == m0.path,
                keys0.len() >= 1,
                1 <= ks@.len() <= keys0.len(),
                ks@ == keys0.skip(keys0.len() - ks@.len()),
                trie_inv(self.model().nodes),
                0 <= current_node_id@ < self.model().nodes.len(),
                add_model(m0.nodes, m0.root, keys0, value) == add_model(
                    self.model().nodes,
                    current_node_id@,
                    ks@,
                    value,
                ),
                self.model().nodes == m0.nodes || add_model(
                    self.model().nodes,
                    current_node_id@,
                    ks@,
                    value,
                ) is Some,
            decreases ks.len(),
        {
            let ghost nodes_pre = self.model().nodes;
            let ghost ks_pre = ks@;
            let ghost d: int = keys0.len() - ks_pre.len();
            let next = self.arena.get_next_node(current_node_id, &ks[0]);
            let k = ks.remove(0);
            proof {
                assert(ks_pre.remove(0) =~= ks_pre.drop_first());
                assert(keys0.skip(d + 1) =~= keys0.skip(d).drop_first());
            }
            match next {
                Some(next_node_id) => {
                    proof {
                        assert(edge_target(nodes_pre[current_node_id@], k) == Some(next_node_id@));
                        assert(!(nodes_pre[current_node_id@] is End));
                        assert(add_model(nodes_pre, current_node_id@, ks_pre, value) == add_model(
                            nodes_pre,
                            next_node_id@,
                            ks_pre.drop_first(),
                            value,
                        ));
                    }
                    current_node_id = next_node_id;
                },
                None => {
                    let next_node_id = self.arena.make_new_ordinary_node();
                    let res = self.arena.add_next_node(current_node_id, k, next_node_id);
                    match res {
                        Ok(()) => {
                            proof {
                                let fresh = NodeModel::<K, V>::Ordinary { edges: Map::empty() };
                                let nodes_a = nodes_pre.push(fresh).update(
                                    current_node_id@,
                                    crate::trie::with_edge(
                                        nodes_pre[current_node_id@],
                                        k,
                                        nodes_pre.len() as int,
                                    ),
                                );
                                assert(self.model().nodes =~= nodes_a);
                                assert(!(nodes_pre[current_node_id@] is End));
                                assert(add_model(nodes_pre, current_node_id@, ks_pre, value)
                                    == add_model(
                                    nodes_a,
                                    nodes_pre.len() as int,
                                    ks_pre.drop_first(),
                                    value,
                                ));
                                lemma_link_fresh_inv(nodes_pre, current_node_id@, k, fresh);
                                assert(nodes_a[nodes_pre.len() as int] == fresh);
                                lemma_add_model_from_edgeless(
                                    nodes_a,
                                    nodes_pre.len() as int,
                                    ks_pre.drop_first(),
                                    value,
                                );
                            }
                            current_node_id = next_node_id;
                        },
                        Err(_) => {
                            proof {
                                assert(nodes_pre[current_node_id@] is End);
                                assert(add_model(nodes_pre, current_node_id@, ks_pre, value)
                                    is None);
                                assert(nodes_pre == m0.nodes);
                                let orphan = NodeModel::<K, V>::Ordinary { edges: Map::empty() };
                                assert(self.model().nodes =~= m0.nodes.push(orphan));
                                lemma_add_failure(m0, keys0, value, orphan);
                                assert(machine_inv(self.model()));
                                assert(m0.nodes =~= self.model().nodes.subrange(
                                    0,
                                    m0.nodes.len() as int,
                                ));
                                assert(m0.nodes.is_prefix_of(self.model().nodes));
                                assert(self.model().nodes.last() == orphan);
                            }
                            return Err(AddError::InvalidExtension);
                        },
                    }
                },
            }
        }
        let ghost nodes_pre = self.model().nodes;
        let ghost ks_pre = ks@;
        let end_node_id = self.arena.make_new_end_node(value);
        let last_key = ks.remove(0);
        let res = self.arena.add_next_node(current_node_id, last_key, end_node_id);
        match res {
            Ok(()) => {
                proof {
                    assert(!(nodes_pre[current_node_id@] is End));
                    assert(self.model().nodes =~= nodes_pre.push(
                        NodeModel::End { value: value },
                    ).update(
                        current_node_id@,
                        crate::trie::with_edge(
                            nodes_pre[current_node_id@],
                            last_key,
                            nodes_pre.len() as int,
                        ),
                    ));
                    assert(add_model(nodes_pre, current_node_id@, ks_pre, value) == Some(
                        self.model().nodes,
                    ));
                    assert(add_model(m0.nodes, m0.root, keys0, value) == Some(self.model().nodes));
                    lemma_add_model_effect(m0.nodes, m0.root, keys0, value);
                    let nodes2 = self.model().nodes;
                    let (m, j) = choose|m: int, j: int| #[trigger] grown_at(
                        m0.nodes,
                        nodes2,
                        m0.root,
                        keys0,
                        m,
                        j,
                    );
                    assert(grown_at(m0.nodes, nodes2, m0.root, keys0, m, j));
                    assert(machine_inv(self.model()));
                    assert forall|i: int, w: V|
                        !(1 <= i < keys0.len() && #[trigger] registered(
                            m0,
                            keys0.take(i),
                            w,
                        )) by {
                        if 1 <= i < keys0.len() && registered(m0, keys0.take(i), w) {
                            assert(keys0.take(i).len() == i);
                            assert(end_on_walk(m0.nodes, m0.root, keys0, i));
                        }
                    }
                    assert(!extends_completed_path(m0, keys0));
                    assert(registered(self.model(), keys0, value));
                }
                Ok(())
            },
            Err(_) => {
                proof {
                    assert(nodes_pre[current_node_id@] is End);
                    assert(add_model(nodes_pre, current_node_id@, ks_pre, value) is None);
                    assert(nodes_pre == m0.nodes);
                    let orphan = NodeModel::<K, V>::End { value: value };
                    assert(self.model().nodes =~= m0.nodes.push(orphan));
                    lemma_add_failure(m0, keys0, value, orphan);
                    assert(machine_inv(self.model()));
                    assert(m0.nodes =~= self.model().nodes.subrange(0, m0.nodes.len() as int));
                    assert(m0.nodes.is_prefix_of(self.model().nodes));
                    assert(self.model().nodes.last() == orphan);
                }
                Err(AddError::InvalidExtension)
            },
        }
    }

    /// Feeds one key to the machine.  Never fails: it advances along an
    /// edge to an ordinary node, completes a path (yielding a copy of its
    /// value and resetting to root), or falls back (yielding the keys
    /// consumed since the last reset, this one included, and resetting).
    pub fn excite(&mut self, key: K) -> (r: StateMachineResult<K, V>)
        requires
            old(self).wf(),
            keys_well_behaved::<K>(),
            values_well_behaved::<V>(),
        ensures
            final(self).wf(),
            final(self).model() == step(old(self).model(), key).0,
            r.model() == step(old(self).model(), key).1,
    {
        let ghost m0 = self.model();
        let current_node_id = self.current_node_id;
        let next = self.arena.get_next_node(current_node_id, &key);
        match next {
            Some(next_node_id) => {
                proof {
                    assert(edge_target(m0.nodes[m0.cur], key) == Some(next_node_id@));
                    assert(0 <= next_node_id@ < m0.nodes.len());
                }
                match self.arena.get_node(next_node_id) {
                    StateMachineNode::Ordinary(_) => {
                        self.current_node_id = next_node_id;
                        self.current_path.push(key);
                        proof {
                            assert(m0.nodes[next_node_id@] is Ordinary);
                            assert(self.model() == step(m0, key).0);
                        }
                        StateMachineResult::transition()
                    },
                    StateMachineNode::End(v) => {
                        let value = v.clone();
                        proof {
                            assert(vstd::pervasive::cloned::<V>(*v, value));
                            assert(m0.nodes[next_node_id@] == (NodeModel::<K, V>::End {
                                value: *v,
                            }));
                        }
                        self.current_node_id = self.root_node_id;
                        self.current_path = Vec::new();
                        proof {
                            assert(self.model().path =~= Seq::<K>::empty());
                            assert(self.model() == step(m0, key).0);
                        }
                        StateMachineResult::excited(value)
                    },
                }
            },
            None => {
                self.current_node_id = self.root_node_id;
                let mut run: Vec<K> = Vec::new();
                core::mem::swap(&mut self.current_path, &mut run);
                run.push(key);
                proof {
                    assert(self.model().path =~= Seq::<K>::empty());
                    assert(run@ == m0.path.push(key));
                    assert(self.model() == step(m0, key).0);
                }
                StateMachineResult::fallback(run)
            },
        }
    }
}

} // verus!
