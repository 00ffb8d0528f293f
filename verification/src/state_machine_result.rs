use vstd::prelude::*;

verus! {

/// Spec-level view of one `excite` outcome.
pub ghost enum ResultModel<K, V> {
    Transition,
    Fallback { run: Seq<K> },
    Excited { value: V },
}

/// Outcome of feeding one key to the machine: it advanced along a path, it
/// fell back to the root (carrying the keys consumed since the last reset,
/// the failing one included), or it completed a path and produced its value.
#[derive(Clone, Debug, PartialEq, Eq)]
pub enum StateMachineResult<K, V> {
    Transition(),
    Fallback(Vec<K>),
    Excited(V),
}

impl<K, V> StateMachineResult<K, V> {
    pub open spec fn model(&self) -> ResultModel<K, V> {
        match self {
            StateMachineResult::Transition() => ResultModel::Transition,
            StateMachineResult::Fallback(run) => ResultModel::Fallback { run: run@ },
            StateMachineResult::Excited(value) => ResultModel::Excited { value: *value },
        }
    }

    pub fn transition() -> (r: StateMachineResult<K, V>)
        ensures
            r.model() == ResultModel::<K, V>::Transition,
    {
        StateMachineResult::Transition()
    }

    pub fn fallback(fallback_value: Vec<K>) -> (r: StateMachineResult<K, V>)
        ensures
            r.model() == (ResultModel::<K, V>::Fallback { run: fallback_value@ }),
    {
        StateMachineResult::Fallback(fallback_value)
    }

    pub fn excited(v: V) -> (r: StateMachineResult<K, V>)
        ensures
            r.model() == (ResultModel::<K, V>::Excited { value: v }),
    {
        StateMachineResult::Excited(v)
    }
}

/// Why a registration was refused: the path was empty, or it would extend
/// past the terminal node of a shorter path registered earlier.
#[derive(Clone, Copy, Debug, PartialEq, Eq, Structural)]
pub enum AddError {
    EmptyPath,
    InvalidExtension,
}

} // verus!
