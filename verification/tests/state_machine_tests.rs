use state_machine::AddError;
use state_machine::StateMachine;
use state_machine::StateMachineResult;

#[test]
fn works_on_one_item_path() {
    let mut state_machine: StateMachine<i32, i32> = StateMachine::new();

    state_machine.add(vec!(1), 11).unwrap();
    state_machine.add(vec!(2), 12).unwrap();
    state_machine.add(vec!(3), 13).unwrap();

    assert_eq!(StateMachineResult::Excited(11), state_machine.excite(1));
    assert_eq!(StateMachineResult::Excited(12), state_machine.excite(2));
    assert_eq!(StateMachineResult::Excited(13), state_machine.excite(3));
}

#[test]
fn makes_paths() {
    let mut state_machine: StateMachine<i32, i32> = StateMachine::new();

    state_machine.add(vec!(1, 2, 3), 1).unwrap();
    state_machine.add(vec!(1, 2, 4), 2).unwrap();
    state_machine.add(vec!(1, 4), 3).unwrap();

    assert_eq!(StateMachineResult::Transition(), state_machine.excite(1));
    assert_eq!(StateMachineResult::Transition(), state_machine.excite(2));
    assert_eq!(StateMachineResult::Excited(1), state_machine.excite(3));

    assert_eq!(StateMachineResult::Transition(), state_machine.excite(1));
    assert_eq!(StateMachineResult::Transition(), state_machine.excite(2));
    assert_eq!(StateMachineResult::Excited(2), state_machine.excite(4));

    assert_eq!(StateMachineResult::Transition(), state_machine.excite(1));
    assert_eq!(StateMachineResult::Excited(3), state_machine.excite(4));
}

#[test]
fn fallbacks_to_root_state_if_next_node_with_the_key_was_not_found() {
    let mut state_machine: StateMachine<i32, i32> = StateMachine::new();

    state_machine.add(vec!(1, 2, 3), 1).unwrap();
    state_machine.add(vec!(4), 2).unwrap();

    assert_eq!(StateMachineResult::Transition(), state_machine.excite(1));
    assert_eq!(StateMachineResult::Transition(), state_machine.excite(2));
    assert_eq!(StateMachineResult::Fallback(vec!(1, 2, 1)), state_machine.excite(1));

    assert_eq!(StateMachineResult::Excited(2), state_machine.excite(4));
    assert_eq!(StateMachineResult::Fallback(vec!(2)), state_machine.excite(2));
}

#[test]
fn fallbacks_to_root_state_after_returning_value() {
    let mut state_machine: StateMachine<i32, i32> = StateMachine::new();

    state_machine.add(vec!(1, 2, 3), 1).unwrap();
    state_machine.add(vec!(4), 2).unwrap();

    assert_eq!(StateMachineResult::Transition(), state_machine.excite(1));
    assert_eq!(StateMachineResult::Transition(), state_machine.excite(2));
    assert_eq!(StateMachineResult::Excited(1), state_machine.excite(3));

    assert_eq!(StateMachineResult::Excited(2), state_machine.excite(4));
}

#[test]
fn round_trips_a_registered_path() {
    let mut machine: StateMachine<i32, String> = StateMachine::new();

    machine.add(vec![1, 2, 3], String::from("a")).unwrap();

    assert_eq!(StateMachineResult::Transition(), machine.excite(1));
    assert_eq!(StateMachineResult::Transition(), machine.excite(2));
    assert_eq!(StateMachineResult::Excited(String::from("a")), machine.excite(3));
}

#[test]
fn resets_after_completion_and_replays() {
    let mut machine: StateMachine<i32, String> = StateMachine::new();

    machine.add(vec![1, 2, 3], String::from("a")).unwrap();
    machine.add(vec![4], String::from("b")).unwrap();

    assert_eq!(StateMachineResult::Transition(), machine.excite(1));
    assert_eq!(StateMachineResult::Transition(), machine.excite(2));
    assert_eq!(StateMachineResult::Excited(String::from("a")), machine.excite(3));

    assert_eq!(StateMachineResult::Excited(String::from("b")), machine.excite(4));

    assert_eq!(StateMachineResult::Transition(), machine.excite(1));
    assert_eq!(StateMachineResult::Transition(), machine.excite(2));
    assert_eq!(StateMachineResult::Excited(String::from("a")), machine.excite(3));
}

#[test]
fn divergence_reports_run_including_current_key() {
    let mut machine: StateMachine<i32, &str> = StateMachine::new();

    machine.add(vec![1, 2, 3], "a").unwrap();

    assert_eq!(StateMachineResult::Transition(), machine.excite(1));
    assert_eq!(StateMachineResult::Transition(), machine.excite(2));
    assert_eq!(StateMachineResult::Fallback(vec![1, 2, 1]), machine.excite(1));

    assert_eq!(StateMachineResult::Transition(), machine.excite(1));
}

#[test]
fn divergence_from_root_reports_singleton() {
    let mut machine: StateMachine<i32, i32> = StateMachine::new();

    assert_eq!(StateMachineResult::Fallback(vec![7]), machine.excite(7));

    machine.add(vec![1], 10).unwrap();
    assert_eq!(StateMachineResult::Fallback(vec![9]), machine.excite(9));
}

#[test]
fn shorter_path_shadows_longer_one() {
    let mut machine: StateMachine<i32, &str> = StateMachine::new();

    machine.add(vec![1, 2, 3], "a").unwrap();
    machine.add(vec![1], "b").unwrap();

    assert_eq!(StateMachineResult::Excited("b"), machine.excite(1));

    assert_eq!(StateMachineResult::Excited("b"), machine.excite(1));
    assert_eq!(StateMachineResult::Fallback(vec![2]), machine.excite(2));
}

#[test]
fn reregistering_a_path_replaces_its_value() {
    let mut machine: StateMachine<i32, &str> = StateMachine::new();

    machine.add(vec![1, 2], "a").unwrap();
    machine.add(vec![1, 2], "b").unwrap();

    assert_eq!(StateMachineResult::Transition(), machine.excite(1));
    assert_eq!(StateMachineResult::Excited("b"), machine.excite(2));
}

#[test]
fn extension_past_terminal_fails_and_leaves_path_intact() {
    let mut machine: StateMachine<i32, &str> = StateMachine::new();

    machine.add(vec![1], "a").unwrap();
    assert_eq!(Err(AddError::InvalidExtension), machine.add(vec![1, 2], "b"));

    assert_eq!(StateMachineResult::Excited("a"), machine.excite(1));
}

#[test]
fn deep_extension_past_terminal_fails() {
    let mut machine: StateMachine<i32, &str> = StateMachine::new();

    machine.add(vec![1, 2], "a").unwrap();
    assert_eq!(Err(AddError::InvalidExtension), machine.add(vec![1, 2, 3, 4], "b"));

    assert_eq!(StateMachineResult::Transition(), machine.excite(1));
    assert_eq!(StateMachineResult::Excited("a"), machine.excite(2));
}

#[test]
fn empty_path_is_rejected_without_side_effects() {
    let mut machine: StateMachine<i32, i32> = StateMachine::new();

    machine.add(vec![1], 5).unwrap();
    assert_eq!(Err(AddError::EmptyPath), machine.add(vec![], 6));

    assert_eq!(StateMachineResult::Excited(5), machine.excite(1));
}

#[test]
fn shared_prefixes_share_structure() {
    let mut machine: StateMachine<u8, u64> = StateMachine::new();

    machine.add(vec![10, 20], 100).unwrap();
    machine.add(vec![10, 30], 200).unwrap();

    assert_eq!(StateMachineResult::Transition(), machine.excite(10));
    assert_eq!(StateMachineResult::Excited(100), machine.excite(20));
    assert_eq!(StateMachineResult::Transition(), machine.excite(10));
    assert_eq!(StateMachineResult::Excited(200), machine.excite(30));
}

#[test]
fn add_mid_path_does_not_disturb_the_run() {
    let mut machine: StateMachine<i32, &str> = StateMachine::new();

    machine.add(vec![1, 2, 3], "a").unwrap();

    assert_eq!(StateMachineResult::Transition(), machine.excite(1));
    machine.add(vec![4], "b").unwrap();
    assert_eq!(StateMachineResult::Transition(), machine.excite(2));
    assert_eq!(StateMachineResult::Excited("a"), machine.excite(3));

    assert_eq!(StateMachineResult::Excited("b"), machine.excite(4));
}
