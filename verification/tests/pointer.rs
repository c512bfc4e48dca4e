use lib::function_escape::{EscapeGraph, FunctionEscapeAnalysis, ValueEscape};
use lib::function_pointer::{AliasResult, EscapeResult, FunctionPointerAnalysis};
use lib::pointer_solver::PointerSolver;
use lib::points_to::{AbstractObjectId, AbstractObjectKind, AnalysisOwner, PointsToSet};
use lib::sparse_bitset::SparseBitSet;

fn sorted_indices(set: &SparseBitSet) -> Vec<usize> {
    let mut indices = set.indices();
    indices.sort_unstable();
    indices
}

#[test]
fn sparse_bitsets_report_only_new_union_bits() {
    let mut current = SparseBitSet::new();
    current.insert(1);
    current.insert(130);

    let mut incoming = SparseBitSet::new();
    incoming.insert(1);
    incoming.insert(64);
    incoming.insert(130);

    let mut delta = SparseBitSet::new();
    current.union_delta(&incoming, &mut delta);

    assert_eq!(sorted_indices(&current), vec![1, 64, 130]);
    assert_eq!(sorted_indices(&delta), vec![64]);
}

#[test]
fn sparse_bitsets_do_not_store_leading_zero_words() {
    let mut set = SparseBitSet::new();
    set.insert(1_000_000);

    assert_eq!(set.word_count(), 1);
    assert_eq!(sorted_indices(&set), vec![1_000_000]);
}

#[test]
fn sparse_bitsets_merge_interleaved_words() {
    let mut current = SparseBitSet::new();
    current.insert(64);
    current.insert(192);

    let mut incoming = SparseBitSet::new();
    incoming.insert(1);
    incoming.insert(128);

    let mut delta = SparseBitSet::new();
    current.union_delta(&incoming, &mut delta);

    assert_eq!(sorted_indices(&current), vec![1, 64, 128, 192]);
    assert_eq!(sorted_indices(&delta), vec![1, 128]);
    assert!(current.intersects(&incoming));
}

#[test]
fn sparse_bitsets_answer_membership_and_single_indices() {
    let mut set = SparseBitSet::new();
    assert!(set.is_empty());
    assert_eq!(set.sole_index(), None);
    assert!(set.insert(70));
    assert!(!set.insert(70));
    assert!(set.contains(70));
    assert!(!set.contains(71));
    assert!(!set.contains(6));
    assert_eq!(set.sole_index(), Some(70));
    set.insert(71);
    assert_eq!(set.sole_index(), None);
    assert!(!set.is_empty());

    let mut other = SparseBitSet::new();
    other.insert(72);
    assert!(!set.intersects(&other));
    set.union(&other);
    assert_eq!(sorted_indices(&set), vec![70, 71, 72]);
    assert!(set.intersects(&other));
    assert_eq!(set.clone().indices(), vec![70, 71, 72]);
}

fn owner() -> AnalysisOwner {
    AnalysisOwner::new(1, 7)
}

#[test]
fn points_to_sets_join_and_report_their_delta() {
    let first = AbstractObjectId::from_index(owner(), 0);
    let second = AbstractObjectId::from_index(owner(), 1);
    let mut fact = PointsToSet::singleton(first);
    assert_eq!(fact.sole_known_object(), Some(first));
    assert!(fact.is_definitely_object());

    let mut incoming = PointsToSet::singleton(second);
    let delta_of_nothing = incoming.join_delta(&PointsToSet::bottom(owner()));
    assert!(delta_of_nothing.is_bottom());

    let delta = fact.join_delta(&incoming);
    assert!(fact.contains(first) && fact.contains(second));
    assert!(delta.contains(second) && !delta.contains(first));
    assert_eq!(fact.sole_known_object(), None);
    assert_eq!(fact.objects(), vec![first, second]);

    let widened = fact.join_delta(&PointsToSet::unknown(owner()));
    assert!(widened.may_point_to_unknown_object());
    assert!(!fact.is_definitely_object());
    assert!(fact.may_be_object());
    assert!(fact.known_objects_overlap(&incoming));
    assert!(!PointsToSet::primitive(owner()).may_be_object());
    assert!(PointsToSet::unknown_object(owner()).is_definitely_object());
    let other_owner = AbstractObjectId::from_index(AnalysisOwner::new(2, 7), 0);
    assert!(!fact.contains(other_owner));
}

/// Values 0 and 1 are fresh allocations, value 2 is a primitive, value 3 a
/// parameter, value 4 and value 5 load `arguments`, value 6 copies value 0
/// through binding node 7, and value 1 is stored to an escaping binding node 8.
fn solved_analysis() -> FunctionPointerAnalysis {
    let mut solver = PointerSolver::new(owner(), 9);
    let first = solver.allocate_object(AbstractObjectKind::Allocation(100));
    let second = solver.allocate_object(AbstractObjectKind::Allocation(101));
    let arguments = solver.arguments_object();
    assert_eq!(solver.arguments_object(), arguments);
    solver.add_fact(0, PointsToSet::singleton(first));
    solver.add_fact(1, PointsToSet::singleton(second));
    solver.add_fact(2, PointsToSet::primitive(owner()));
    solver.add_fact(3, PointsToSet::unknown(owner()));
    solver.add_fact(4, PointsToSet::singleton(arguments));
    solver.add_fact(5, PointsToSet::singleton(arguments));
    solver.add_copy(0, 7);
    solver.add_copy(7, 6);
    solver.add_copy(1, 8);
    solver.seed_escape(8);
    FunctionPointerAnalysis::from_solution(7, 7, solver.solve())
}

#[test]
fn solved_facts_distinguish_fresh_allocations() {
    let analysis = solved_analysis();
    assert_eq!(analysis.function(), 7);
    assert_eq!(analysis.alias(0, 1), AliasResult::NoAlias);
    assert_eq!(analysis.alias(0, 0), AliasResult::MustAlias);
    assert_eq!(analysis.alias(0, 6), AliasResult::MayAlias);
    assert_eq!(analysis.alias(6, 0), AliasResult::MayAlias);
    assert!(!analysis.may_alias(0, 1));
}

#[test]
fn solved_facts_follow_stable_identities_and_unknown_values() {
    let analysis = solved_analysis();
    assert_eq!(analysis.alias(4, 5), AliasResult::MustAlias);
    assert_eq!(analysis.alias(3, 0), AliasResult::MayAlias);
    assert_eq!(analysis.alias(2, 0), AliasResult::NoAlias);
    assert_eq!(analysis.alias(2, 2), AliasResult::NoAlias);
    assert_eq!(analysis.alias(0, 99), AliasResult::MayAlias);
    assert!(analysis.points_to(99).is_none());
    assert!(analysis.points_to(6).unwrap().contains(AbstractObjectId::from_index(owner(), 0)));
}

#[test]
fn solved_facts_report_escaping_objects() {
    let analysis = solved_analysis();
    let first = AbstractObjectId::from_index(owner(), 0);
    let second = AbstractObjectId::from_index(owner(), 1);
    assert_eq!(analysis.escape_result(0), Some(EscapeResult::DoesNotEscape));
    assert_eq!(analysis.escape_result(1), Some(EscapeResult::MayEscape));
    assert_eq!(analysis.escape_result(2), None);
    assert_eq!(analysis.escape_result(3), None);
    assert!(analysis.may_escape(3));
    assert!(!analysis.may_escape(2));
    assert!(analysis.may_escape(1));
    assert!(!analysis.may_escape(0));
    assert!(analysis.may_escape(42));
    assert_eq!(analysis.object_escape_result(first), Some(EscapeResult::DoesNotEscape));
    assert_eq!(analysis.object_escape_result(second), Some(EscapeResult::MayEscape));
    assert!(analysis.object_may_escape(second));
    assert!(!analysis.object_may_escape(first));
}

#[test]
fn rejects_objects_of_another_result() {
    let analysis = solved_analysis();
    let foreign = AbstractObjectId::from_index(AnalysisOwner::new(2, 7), 0);
    assert!(analysis.object(foreign).is_none());
    assert_eq!(analysis.object_escape_result(foreign), None);
    assert!(analysis.object_may_escape(foreign));
    let own = AbstractObjectId::from_index(owner(), 2);
    assert_eq!(analysis.object(own).map(|object| object.kind()), Some(AbstractObjectKind::ArgumentsObject));
}

#[test]
fn escape_graph_spreads_from_seeds() {
    let mut graph = EscapeGraph::new(5);
    graph.add_escape_dependency(4, 0);
    graph.add_escape_dependency(0, 1);
    graph.add_escape_dependency(2, 3);
    graph.seed(4);
    let analysis = FunctionEscapeAnalysis::from_graph(9, 4, &[0, 2], graph);

    assert_eq!(analysis.function(), 9);
    assert_eq!(analysis.escape_result(0), Some(ValueEscape::MayEscape));
    assert_eq!(analysis.escape_result(2), Some(ValueEscape::DoesNotEscape));
    assert_eq!(analysis.escape_result(1), None);
    assert!(analysis.may_escape(1));
    assert!(!analysis.may_escape(2));
    assert!(analysis.may_escape(0));
    assert!(analysis.may_escape(17));
}
