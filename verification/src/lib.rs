//! An incremental sequence recognizer: register key paths, each with a
//! value, then feed keys one at a time; after each key the machine reports
//! that it advanced, that it completed a registered path (yielding the
//! value), or that it diverged (yielding the keys consumed since the last
//! reset, the failing one included).

pub mod trie;

pub mod laws;

pub mod state_machine_result;

pub mod state_machine_node_id;
pub mod state_machine_node;
pub mod state_machine_node_arena;
pub mod state_machine;

pub use crate::state_machine::StateMachine;
pub use crate::state_machine_node::StateMachineNode;
pub use crate::state_machine_node_arena::StateMachineNodeArena;
pub use crate::state_machine_node_id::StateMachineNodeId;
pub use crate::state_machine_result::AddError;
pub use crate::state_machine_result::StateMachineResult;

use vstd::prelude::*;

verus! {

use vstd::std_specs::cmp::PartialEqSpec;

/// The key type's `==` agrees with logical equality: what the machine's
/// contracts take for granted when exec code compares keys.
pub open spec fn keys_well_behaved<K: PartialEq>() -> bool {
    &&& K::obeys_eq_spec()
    &&& forall|a: &K, b: &K| #[trigger] a.eq_spec(b) <==> a == b
}

/// The value type's `clone` returns the value itself: what `excite` takes
/// for granted when it hands out a copy of a completed path's value.
pub open spec fn values_well_behaved<V: Clone>() -> bool {
    forall|a: V, b: V| #[trigger] vstd::pervasive::cloned::<V>(a, b) ==> b == a
}

} // verus!
