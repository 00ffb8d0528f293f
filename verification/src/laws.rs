//! The behavioral laws of the recognizer, stated over the machine's model
//! and proved from the transition function `step`: what `excite` does over
//! whole runs of keys.

use vstd::prelude::*;

use crate::state_machine::MachineModel;
use crate::state_machine::at_root;
use crate::state_machine::machine_inv;
use crate::state_machine::registered;
use crate::state_machine::step;
use crate::state_machine_result::ResultModel;
use crate::trie::accepts_from;
use crate::trie::edge_target;
use crate::trie::lemma_accepts_step;

verus! {

/// The machine after feeding the keys of `p`, one step at a time.
pub open spec fn run_model<K, V>(m: MachineModel<K, V>, p: Seq<K>) -> MachineModel<K, V>
    decreases p.len(),
{
    if p.len() == 0 {
        m
    } else {
        run_model(step(m, p[0]).0, p.drop_first())
    }
}

/// The outcomes of feeding the keys of `p`, in order.
pub open spec fn run_outcomes<K, V>(m: MachineModel<K, V>, p: Seq<K>) -> Seq<ResultModel<K, V>>
    decreases p.len(),
{
    if p.len() == 0 {
        Seq::empty()
    } else {
        seq![step(m, p[0]).1] + run_outcomes(step(m, p[0]).0, p.drop_first())
    }
}

proof fn lemma_run_outcomes_len<K, V>(m: MachineModel<K, V>, p: Seq<K>)
    ensures
        run_outcomes(m, p).len() == p.len(),
    decreases p.len(),
{
    if p.len() > 0 {
        lemma_run_outcomes_len(step(m, p[0]).0, p.drop_first());
    }
}

/// Feeding a path accepted from the current node yields `Transition` for
/// every key but the last and `Excited` with its value on the last, ending
/// at the root with an empty run.
proof fn lemma_run_accepted<K, V>(m: MachineModel<K, V>, p: Seq<K>, v: V)
    requires
        machine_inv(m),
        accepts_from(m.nodes, m.cur, p, v),
    ensures
        run_outcomes(m, p).len() == p.len(),
        forall|i: int|
            0 <= i < p.len() - 1 ==> run_outcomes(m, p)[i] == ResultModel::<K, V>::Transition,
        run_outcomes(m, p)[p.len() - 1] == (ResultModel::<K, V>::Excited { value: v }),
        at_root(run_model(m, p)),
        machine_inv(run_model(m, p)),
        run_model(m, p).path.len() == 0,
        run_model(m, p).nodes == m.nodes,
        run_model(m, p).root == m.root,
    decreases p.len(),
{
    lemma_accepts_step(m.nodes, m.cur, p, v);
    let t = edge_target(m.nodes[m.cur], p[0])->Some_0;
    let m1 = step(m, p[0]).0;
    if p.len() == 1 {
        assert(!(m.nodes[t] is Ordinary));
        assert(step(m, p[0]).1 == (ResultModel::<K, V>::Excited { value: v }));
        assert(p.drop_first() =~= Seq::<K>::empty());
        assert(run_outcomes(m1, p.drop_first()) =~= Seq::<ResultModel<K, V>>::empty());
        assert(run_model(m1, p.drop_first()) == m1);
        assert(run_outcomes(m, p) =~= seq![step(m, p[0]).1]);
    } else {
        let pr = p.drop_first();
        lemma_accepts_step(m.nodes, t, pr, v);
        assert(edge_target(m.nodes[t], pr[0]) is Some);
        assert(m.nodes[t] is Ordinary);
        assert(step(m, p[0]).1 == ResultModel::<K, V>::Transition);
        assert(machine_inv(m1));
        lemma_run_accepted(m1, pr, v);
        lemma_run_outcomes_len(m, p);
        lemma_run_outcomes_len(m1, pr);
        assert(run_outcomes(m, p) == seq![step(m, p[0]).1] + run_outcomes(m1, pr));
        assert forall|i: int| 0 <= i < p.len() - 1 implies run_outcomes(m, p)[i]
            == ResultModel::<K, V>::Transition by {
            if i >= 1 {
                assert(run_outcomes(m, p)[i] == run_outcomes(m1, pr)[i - 1]);
            }
        }
        assert(run_outcomes(m, p)[p.len() - 1] == run_outcomes(m1, pr)[pr.len() - 1]);
    }
}

/// Round trip: from the root, feeding a registered path yields `Transition`
/// for every key but the last and `Excited` with the path's value on the
/// last key; the machine ends back at the root with an empty run and the
/// automaton unchanged.
pub proof fn lemma_round_trip<K, V>(m: MachineModel<K, V>, p: Seq<K>, v: V)
    requires
        machine_inv(m),
        at_root(m),
        registered(m, p, v),
    ensures
        run_outcomes(m, p).len() == p.len(),
        forall|i: int|
            0 <= i < p.len() - 1 ==> run_outcomes(m, p)[i] == ResultModel::<K, V>::Transition,
        run_outcomes(m, p)[p.len() - 1] == (ResultModel::<K, V>::Excited { value: v }),
        at_root(run_model(m, p)),
        machine_inv(run_model(m, p)),
        run_model(m, p).path.len() == 0,
        run_model(m, p).nodes == m.nodes,
        run_model(m, p).root == m.root,
{
    assert(accepts_from(m.nodes, m.cur, p, v));
    lemma_run_accepted(m, p, v);
}

/// Auto-reset after completion: a step that reports `Excited` leaves the
/// machine at the root with an empty run and the automaton unchanged, and
/// any registered path then plays out from the start exactly as on a fresh
/// machine.
pub proof fn lemma_auto_reset<K, V>(m: MachineModel<K, V>, k: K, p: Seq<K>, v: V)
    requires
        machine_inv(m),
        step(m, k).1 is Excited,
        registered(m, p, v),
    ensures
        at_root(step(m, k).0),
        step(m, k).0.path.len() == 0,
        step(m, k).0.nodes == m.nodes,
        machine_inv(step(m, k).0),
        run_outcomes(step(m, k).0, p).len() == p.len(),
        forall|i: int|
            0 <= i < p.len() - 1 ==> run_outcomes(step(m, k).0, p)[i]
                == ResultModel::<K, V>::Transition,
        run_outcomes(step(m, k).0, p)[p.len() - 1] == (ResultModel::<K, V>::Excited { value: v }),
{
    let m1 = step(m, k).0;
    assert(machine_inv(m1));
    assert(registered(m1, p, v));
    lemma_round_trip(m1, p, v);
}

/// A run of `Transition` outcomes only moves the cursor and appends the
/// consumed keys to the run; the automaton itself never changes.
proof fn lemma_transitions_keep_state<K, V>(m: MachineModel<K, V>, q: Seq<K>)
    requires
        machine_inv(m),
        forall|i: int|
            0 <= i < q.len() ==> #[trigger] run_outcomes(m, q)[i]
                == ResultModel::<K, V>::Transition,
    ensures
        machine_inv(run_model(m, q)),
        run_model(m, q).path == m.path + q,
        run_model(m, q).nodes == m.nodes,
        run_model(m, q).root == m.root,
    decreases q.len(),
{
    if q.len() == 0 {
        assert(m.path + q =~= m.path);
    } else {
        let o = step(m, q[0]).1;
        assert(run_outcomes(m, q)[0] == o);
        assert(o == ResultModel::<K, V>::Transition);
        let m1 = step(m, q[0]).0;
        let t = edge_target(m.nodes[m.cur], q[0])->Some_0;
        assert(m.nodes[t] is Ordinary);
        assert(machine_inv(m1));
        let qr = q.drop_first();
        lemma_run_outcomes_len(m, q);
        lemma_run_outcomes_len(m1, qr);
        assert forall|i: int| 0 <= i < qr.len() implies #[trigger] run_outcomes(m1, qr)[i]
            == ResultModel::<K, V>::Transition by {
            assert(run_outcomes(m, q)[i + 1] == run_outcomes(m1, qr)[i]);
        }
        lemma_transitions_keep_state(m1, qr);
        assert(run_model(m, q) == run_model(m1, qr));
        assert(m1.path + qr =~= m.path + q);
    }
}

/// Divergence reports the whole failing run: after a sequence of
/// `Transition` outcomes from the root, a key with no edge at the current
/// node yields `Fallback` carrying every consumed key plus the failing one,
/// and resets the machine to the root.
pub proof fn lemma_divergence_payload<K, V>(m: MachineModel<K, V>, q: Seq<K>, k: K)
    requires
        machine_inv(m),
        at_root(m),
        forall|i: int|
            0 <= i < q.len() ==> #[trigger] run_outcomes(m, q)[i]
                == ResultModel::<K, V>::Transition,
        edge_target(run_model(m, q).nodes[run_model(m, q).cur], k) is None,
    ensures
        step(run_model(m, q), k).1 == (ResultModel::<K, V>::Fallback { run: q.push(k) }),
        at_root(step(run_model(m, q), k).0),
        step(run_model(m, q), k).0.path.len() == 0,
        machine_inv(step(run_model(m, q), k).0),
{
    lemma_transitions_keep_state(m, q);
    let mr = run_model(m, q);
    assert(m.path.len() == 0);
    assert(mr.path =~= q);
    assert(mr.path.push(k) =~= q.push(k));
}

/// Divergence from the root reports a singleton: at the root, a key with no
/// edge yields `Fallback` carrying just that key, and the machine stays at
/// the root.
pub proof fn lemma_root_divergence<K, V>(m: MachineModel<K, V>, k: K)
    requires
        machine_inv(m),
        at_root(m),
        edge_target(m.nodes[m.root], k) is None,
    ensures
        step(m, k).1 == (ResultModel::<K, V>::Fallback { run: seq![k] }),
        at_root(step(m, k).0),
        step(m, k).0.path.len() == 0,
        machine_inv(step(m, k).0),
{
    assert(m.path.push(k) =~= seq![k]);
}

} // verus!
