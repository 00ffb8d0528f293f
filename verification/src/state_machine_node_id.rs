use vstd::prelude::*;

verus! {

/// Opaque, copyable handle identifying one node within one arena.  Ids are
/// assigned by a counter that only ever counts up, so no two nodes share one.
#[derive(Clone, Copy, Debug, PartialEq, Eq, Hash, Structural)]
pub struct StateMachineNodeId {
    id: usize,
}

impl View for StateMachineNodeId {
    type V = int;

    closed spec fn view(&self) -> int {
        self.id as int
    }
}

impl StateMachineNodeId {
    pub fn new(id: usize) -> (r: StateMachineNodeId)
        ensures
            r@ == id,
    {
        StateMachineNodeId { id }
    }

    /// The arena stores its nodes densely, indexed by id.
    pub(crate) fn as_index(&self) -> (r: usize)
        ensures
            r == self@,
    {
        self.id
    }
}

/// An id is nothing but its wrapped value: two ids are equal exactly when
/// their values are.
pub proof fn lemma_node_id_eq(a: StateMachineNodeId, b: StateMachineNodeId)
    ensures
        a == b <==> a@ == b@,
{
}

} // verus!
