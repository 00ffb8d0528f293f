use state_machine::AddError;
use state_machine::StateMachineNode;
use state_machine::StateMachineNodeArena;
use state_machine::StateMachineNodeId;
use state_machine::StateMachineResult;

#[test]
fn node_ids_compare_by_value() {
    assert_eq!(StateMachineNodeId::new(3), StateMachineNodeId::new(3));
    assert_ne!(StateMachineNodeId::new(3), StateMachineNodeId::new(4));
}

#[test]
fn result_constructors_build_the_variants() {
    let t: StateMachineResult<i32, i32> = StateMachineResult::transition();
    assert_eq!(StateMachineResult::Transition(), t);

    let f: StateMachineResult<i32, i32> = StateMachineResult::fallback(vec![1, 2]);
    assert_eq!(StateMachineResult::Fallback(vec![1, 2]), f);

    let e: StateMachineResult<i32, i32> = StateMachineResult::excited(9);
    assert_eq!(StateMachineResult::Excited(9), e);
}

#[test]
fn node_constructors_build_the_variants() {
    let o: StateMachineNode<i32, i32> = StateMachineNode::ordinary();
    assert!(matches!(o, StateMachineNode::Ordinary(ref edges) if edges.is_empty()));

    let e: StateMachineNode<i32, i32> = StateMachineNode::end(7);
    assert!(matches!(e, StateMachineNode::End(7)));
}

#[test]
fn arena_links_and_looks_up_edges() {
    let mut arena: StateMachineNodeArena<i32, i32> = StateMachineNodeArena::new();

    let n0 = arena.make_new_ordinary_node();
    let n1 = arena.make_new_end_node(9);
    assert_ne!(n0, n1);

    assert_eq!(Ok(()), arena.add_next_node(n0, 5, n1));
    assert_eq!(Some(n1), arena.get_next_node(n0, &5));
    assert_eq!(None, arena.get_next_node(n0, &6));

    assert!(matches!(arena.get_node(n1), StateMachineNode::End(9)));
    assert!(matches!(arena.get_node(n0), StateMachineNode::Ordinary(_)));
}

#[test]
fn arena_refuses_edges_out_of_terminal_nodes() {
    let mut arena: StateMachineNodeArena<i32, i32> = StateMachineNodeArena::new();

    let n0 = arena.make_new_end_node(1);
    let n1 = arena.make_new_ordinary_node();

    assert_eq!(Err(AddError::InvalidExtension), arena.add_next_node(n0, 5, n1));
    assert_eq!(None, arena.get_next_node(n0, &5));
}

#[test]
fn arena_overwrites_an_edge_for_the_same_key() {
    let mut arena: StateMachineNodeArena<i32, i32> = StateMachineNodeArena::new();

    let n0 = arena.make_new_ordinary_node();
    let n1 = arena.make_new_end_node(1);
    let n2 = arena.make_new_end_node(2);

    assert_eq!(Ok(()), arena.add_next_node(n0, 5, n1));
    assert_eq!(Ok(()), arena.add_next_node(n0, 5, n2));
    assert_eq!(Some(n2), arena.get_next_node(n0, &5));
}
