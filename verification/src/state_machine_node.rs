use vstd::prelude::*;

use crate::keys_well_behaved;
use crate::state_machine_node_id::StateMachineNodeId;
use crate::state_machine_result::AddError;
use crate::trie::NodeModel;

verus! {

/// An automaton node: an ordinary state with its outgoing key-labelled
/// edges, or a terminal state holding exactly one value.  Within one edge
/// list a key occurs at most once; the model below makes the first pair for
/// a key authoritative, matching a front-to-back scan.
#[derive(Clone, Debug)]
pub enum StateMachineNode<K, V> {
    Ordinary(Vec<(K, StateMachineNodeId)>),
    End(V),
}

/// The edge map an association list denotes: the first pair for a key wins.
pub open spec fn edges_model<K>(s: Seq<(K, StateMachineNodeId)>) -> Map<K, int>
    decreases s.len(),
{
    if s.len() == 0 {
        Map::empty()
    } else {
        edges_model(s.drop_first()).insert(s[0].0, s[0].1@)
    }
}

impl<K, V> StateMachineNode<K, V> {
    pub open spec fn model(&self) -> NodeModel<K, V> {
        match self {
            StateMachineNode::Ordinary(edges) => NodeModel::Ordinary {
                edges: edges_model(edges@),
            },
            StateMachineNode::End(v) => NodeModel::End { value: *v },
        }
    }

    pub fn ordinary() -> (r: StateMachineNode<K, V>)
        ensures
            r.model() == (NodeModel::<K, V>::Ordinary { edges: Map::empty() }),
    {
        let r = StateMachineNode::Ordinary(Vec::new());
        proof {
            assert(r.model()->edges =~= Map::<K, int>::empty());
        }
        r
    }

    pub fn end(v: V) -> (r: StateMachineNode<K, V>)
        ensures
            r.model() == (NodeModel::<K, V>::End { value: v }),
    {
        StateMachineNode::End(v)
    }
}

impl<K: PartialEq, V> StateMachineNode<K, V> {
    /// Sets the edge for `key` to `next_node_id`, overwriting any earlier
    /// edge for that key; refused on a terminal node.
    pub(crate) fn set_edge(&mut self, key: K, next_node_id: StateMachineNodeId) -> (r: Result<
        (),
        AddError,
    >)
        requires
            keys_well_behaved::<K>(),
        ensures
            (match old(self).model() {
                NodeModel::Ordinary { edges } => r is Ok && final(self).model() == (
                NodeModel::<K, V>::Ordinary { edges: edges.insert(key, next_node_id@) }),
                NodeModel::End { .. } => r == Result::<(), AddError>::Err(
                    AddError::InvalidExtension,
                ) && *final(self) == *old(self),
            }),
    {
        match self {
            StateMachineNode::Ordinary(edges) => {
                let ghost s = edges@;
                let n_edges = edges.len();
                let mut j: usize = 0;
                let mut found: bool = false;
                while j < n_edges && !found
                    invariant
                        keys_well_behaved::<K>(),
                        j <= n_edges,
                        edges@ == s,
                        n_edges == s.len(),
                        forall|jj: int| 0 <= jj < j ==> (#[trigger] s[jj]).0 != key,
                        found ==> j < s.len() && s[j as int].0 == key,
                    decreases n_edges - j, (if found {
                        0int
                    } else {
                        1int
                    }),
                {
                    if edges[j].0 == key {
                        found = true;
                    } else {
                        j += 1;
                    }
                }
                if found {
                    proof {
                        lemma_edges_model_update(s, key, j as int, next_node_id);
                    }
                    edges[j] = (key, next_node_id);
                } else {
                    proof {
                        lemma_edges_model_push(s, key, next_node_id);
                    }
                    edges.push((key, next_node_id));
                }
                Ok(())
            },
            StateMachineNode::End(_) => Err(AddError::InvalidExtension),
        }
    }
}

/// A scan that matched no pair: the key is absent from the edge map.
pub(crate) proof fn lemma_edges_model_absent<K>(s: Seq<(K, StateMachineNodeId)>, k: K)
    requires
        forall|j: int| 0 <= j < s.len() ==> (#[trigger] s[j]).0 != k,
    ensures
        !edges_model(s).contains_key(k),
    decreases s.len(),
{
    if s.len() > 0 {
        assert forall|j: int| 0 <= j < s.drop_first().len() implies (#[trigger] s.drop_first()[j]).0
            != k by {
            assert(s.drop_first()[j] == s[j + 1]);
        }
        lemma_edges_model_absent(s.drop_first(), k);
    }
}

/// A scan whose first match sits at `i`: the edge map holds that target.
pub(crate) proof fn lemma_edges_model_found<K>(s: Seq<(K, StateMachineNodeId)>, k: K, i: int)
    requires
        0 <= i < s.len(),
        s[i].0 == k,
        forall|j: int| 0 <= j < i ==> (#[trigger] s[j]).0 != k,
    ensures
        edges_model(s).contains_key(k),
        edges_model(s)[k] == s[i].1@,
    decreases i,
{
    if i > 0 {
        assert(s.drop_first()[i - 1] == s[i]);
        assert forall|j: int| 0 <= j < i - 1 implies (#[trigger] s.drop_first()[j]).0 != k by {
            assert(s.drop_first()[j] == s[j + 1]);
        }
        lemma_edges_model_found(s.drop_first(), k, i - 1);
    }
}

/// Overwriting the first matching pair updates exactly that key.
pub(crate) proof fn lemma_edges_model_update<K>(
    s: Seq<(K, StateMachineNodeId)>,
    k: K,
    i: int,
    t: StateMachineNodeId,
)
    requires
        0 <= i < s.len(),
        s[i].0 == k,
        forall|j: int| 0 <= j < i ==> (#[trigger] s[j]).0 != k,
    ensures
        edges_model(s.update(i, (k, t))) == edges_model(s).insert(k, t@),
    decreases i,
{
    let s2 = s.update(i, (k, t));
    if i == 0 {
        assert(s2.drop_first() =~= s.drop_first());
        assert(s2[0] == (k, t));
        assert(edges_model(s2) =~= edges_model(s).insert(k, t@));
    } else {
        assert(s2.drop_first() =~= s.drop_first().update(i - 1, (k, t)));
        assert(s.drop_first()[i - 1] == s[i]);
        assert forall|j: int| 0 <= j < i - 1 implies (#[trigger] s.drop_first()[j]).0 != k by {
            assert(s.drop_first()[j] == s[j + 1]);
        }
        lemma_edges_model_update(s.drop_first(), k, i - 1, t);
        assert(s2[0] == s[0]);
        assert(edges_model(s2) =~= edges_model(s).insert(k, t@));
    }
}

/// Appending a pair for a key not yet present inserts it.
pub(crate) proof fn lemma_edges_model_push<K>(
    s: Seq<(K, StateMachineNodeId)>,
    k: K,
    t: StateMachineNodeId,
)
    requires
        forall|j: int| 0 <= j < s.len() ==> (#[trigger] s[j]).0 != k,
    ensures
        edges_model(s.push((k, t))) == edges_model(s).insert(k, t@),
    decreases s.len(),
{
    let s2 = s.push((k, t));
    if s.len() == 0 {
        assert(s2.drop_first() =~= Seq::<(K, StateMachineNodeId)>::empty());
        assert(s2[0] == (k, t));
        assert(edges_model(Seq::<(K, StateMachineNodeId)>::empty()) =~= Map::<K, int>::empty());
        assert(edges_model(s2) =~= edges_model(s).insert(k, t@));
    } else {
        assert(s2.drop_first() =~= s.drop_first().push((k, t)));
        assert forall|j: int| 0 <= j < s.drop_first().len() implies (#[trigger] s.drop_first()[j]).0
            != k by {
            assert(s.drop_first()[j] == s[j + 1]);
        }
        lemma_edges_model_push(s.drop_first(), k, t);
        assert(s2[0] == s[0]);
        assert(edges_model(s2) =~= edges_model(s).insert(k, t@));
    }
}

} // verus!
