use lib::call_graph::{
    CallSiteId, CallTargetCompleteness, CallTargetSet, ProgramFunctionId, TargetSolver, TargetState,
};

fn function(module: u32, function: u32) -> ProgramFunctionId {
    ProgramFunctionId { module, function }
}

#[test]
fn call_site_ids_keep_their_position() {
    let id = CallSiteId::from_index(41);
    assert_eq!(id.index(), 41);
    assert!(CallSiteId::from_index(3) < CallSiteId::from_index(4));
}

#[test]
fn exact_targets_need_one_complete_function() {
    let exact = CallTargetSet::new(vec![function(0, 2)], CallTargetCompleteness::Complete);
    let incomplete = CallTargetSet::new(vec![function(0, 2)], CallTargetCompleteness::Incomplete);
    let two = CallTargetSet::new(vec![function(0, 1), function(0, 2)], CallTargetCompleteness::Complete);

    assert_eq!(exact.exact_function(), Some(function(0, 2)));
    assert_eq!(incomplete.exact_function(), None);
    assert_eq!(two.exact_function(), None);
    assert_eq!(CallTargetSet::unknown().functions(), &[]);
    assert_eq!(CallTargetSet::unknown().completeness(), CallTargetCompleteness::Incomplete);
}

#[test]
fn target_states_join_into_sorted_sets() {
    let mut state = TargetState::bottom();
    assert!(!state.join(&TargetState::bottom()));
    assert!(state.join(&TargetState::exact(function(1, 4))));
    assert!(!state.join(&TargetState::exact(function(1, 4))));
    assert!(state.join(&TargetState::exact(function(0, 9))));
    assert!(state.join(&TargetState::unknown()));
    assert!(!state.join(&TargetState::unknown()));

    let set = state.as_target_set();
    assert_eq!(set.functions(), &[function(0, 9), function(1, 4)]);
    assert_eq!(set.completeness(), CallTargetCompleteness::Incomplete);
    assert_eq!(TargetState::bottom().as_target_set().completeness(), CallTargetCompleteness::Incomplete);
}

#[test]
fn target_solver_propagates_along_dependencies() {
    let mut solver = TargetSolver::new(5);
    solver.add_dependency(0, 1);
    solver.add_dependency(1, 2);
    solver.add_dependency(2, 1);
    solver.add_dependency(3, 2);
    solver.seed(0, &TargetState::exact(function(0, 1)));
    solver.seed(3, &TargetState::exact(function(0, 2)));
    let states = solver.solve();

    assert_eq!(states[0].as_target_set().exact_function(), Some(function(0, 1)));
    assert_eq!(states[1].as_target_set().functions(), &[function(0, 1), function(0, 2)]);
    assert_eq!(states[2].as_target_set().functions(), &[function(0, 1), function(0, 2)]);
    assert_eq!(states[2].as_target_set().completeness(), CallTargetCompleteness::Complete);
    assert_eq!(states[4].as_target_set().completeness(), CallTargetCompleteness::Incomplete);
    assert_eq!(states[4].as_target_set().functions(), &[]);
}
