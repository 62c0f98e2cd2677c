use biodivine_lib_bdd::Bdd;
use logical_models::binary::BinaryIntegerDomain;
use logical_models::expression::{ComparisonOperator, Expression, Proposition};
use logical_models::gray::GrayCodeIntegerDomain;
use logical_models::petri_net::PetriNetIntegerDomain;
use logical_models::reachability::{count_states_exact, pick_state, reach_bwd, reach_fwd, weak_sccs};
use logical_models::symbolic_domain::SymbolicDomainOrd;
use logical_models::system::SmartSystemUpdateFn;
use logical_models::unary::UnaryIntegerDomain;
use logical_models::unprocessed::{find_max_values, UnprocessedVariableUpdateFn};
use num_bigint::BigInt;

fn prop(variable: &str, comparison_operator: ComparisonOperator, value: u8) -> Expression {
    Expression::Terminal(Proposition {
        comparison_operator,
        variable: variable.to_string(),
        value,
    })
}

fn function(
    name: &str,
    terms: Vec<(u8, Expression)>,
    default: u8,
) -> (String, UnprocessedVariableUpdateFn) {
    (
        name.to_string(),
        UnprocessedVariableUpdateFn::new(Vec::new(), name.to_string(), terms, default),
    )
}

fn state<D: SymbolicDomainOrd>(system: &SmartSystemUpdateFn<D>, values: &[(&str, u8)]) -> Bdd {
    let mut result = system.unit_vertex_set();
    for (name, value) in values {
        result = result.and(&system.encode_one(name, value));
    }
    result
}

fn count<D: SymbolicDomainOrd>(system: &SmartSystemUpdateFn<D>, set: &Bdd) -> BigInt {
    count_states_exact(system, set)
}

fn same(left: &Bdd, right: &Bdd) -> bool {
    left.iff(right).is_true()
}

fn toggle() -> Vec<(String, UnprocessedVariableUpdateFn)> {
    vec![
        function("B", vec![(1, prop("A", ComparisonOperator::Eq, 1))], 0),
        function("A", vec![(1, prop("B", ComparisonOperator::Eq, 0))], 0),
    ]
}

fn toggle_reaches_all<D: SymbolicDomainOrd>() {
    let system = SmartSystemUpdateFn::<D>::from_update_fns(toggle());
    assert_eq!(
        system.get_system_variables(),
        vec!["A".to_string(), "B".to_string()]
    );
    let unit = system.unit_vertex_set();
    assert_eq!(count(&system, &unit), BigInt::from(4));
    let start = state(&system, &[("A", 0), ("B", 0)]);
    assert_eq!(count(&system, &start), BigInt::from(1));
    let reached = reach_fwd(&system, &start, &unit);
    assert_eq!(count(&system, &reached), BigInt::from(4));
    assert!(same(&reached, &unit));
    let next = system.successors_async("A", &start);
    assert!(same(&next, &state(&system, &[("A", 1), ("B", 0)])));
    let previous = system.predecessors_async("A", state(&system, &[("A", 1), ("B", 0)]));
    assert!(same(
        &previous,
        &state(&system, &[("A", 0), ("B", 0)]).or(&state(&system, &[("A", 1), ("B", 0)]))
    ));
    let components = weak_sccs(&system, &unit);
    assert_eq!(components.len(), 1);
    assert!(same(&components[0], &unit));
}

#[test]
fn toggle_reaches_all_unary() {
    toggle_reaches_all::<UnaryIntegerDomain>();
}

#[test]
fn toggle_reaches_all_binary() {
    toggle_reaches_all::<BinaryIntegerDomain>();
}

#[test]
fn toggle_reaches_all_gray() {
    toggle_reaches_all::<GrayCodeIntegerDomain>();
}

#[test]
fn toggle_reaches_all_petri_net() {
    toggle_reaches_all::<PetriNetIntegerDomain>();
}

fn saturator() -> Vec<(String, UnprocessedVariableUpdateFn)> {
    vec![function(
        "X",
        vec![
            (2, prop("X", ComparisonOperator::Geq, 2)),
            (2, prop("X", ComparisonOperator::Geq, 1)),
        ],
        1,
    )]
}

fn saturator_climbs<D: SymbolicDomainOrd>() {
    let system = SmartSystemUpdateFn::<D>::from_update_fns(saturator());
    let unit = system.unit_vertex_set();
    assert_eq!(count(&system, &unit), BigInt::from(3));
    let start = state(&system, &[("X", 0)]);
    let reached = reach_fwd(&system, &start, &unit);
    assert!(same(&reached, &unit));
    let from_one = reach_fwd(&system, &state(&system, &[("X", 1)]), &unit);
    assert_eq!(count(&system, &from_one), BigInt::from(2));
    let into_two = reach_bwd(&system, &state(&system, &[("X", 2)]), &unit);
    assert!(same(&into_two, &unit));
    let into_zero = reach_bwd(&system, &start, &unit);
    assert!(same(&into_zero, &start));
    // Going backwards and then forwards joins the whole chain.
    let components = weak_sccs(&system, &unit);
    assert_eq!(components.len(), 1);
    assert!(same(&components[0], &unit));
}

#[test]
fn saturator_climbs_unary() {
    saturator_climbs::<UnaryIntegerDomain>();
}

#[test]
fn saturator_climbs_binary() {
    saturator_climbs::<BinaryIntegerDomain>();
}

#[test]
fn saturator_climbs_gray() {
    saturator_climbs::<GrayCodeIntegerDomain>();
}

#[test]
fn saturator_climbs_petri_net() {
    saturator_climbs::<PetriNetIntegerDomain>();
}

fn self_loops() -> Vec<(String, UnprocessedVariableUpdateFn)> {
    vec![
        function("A", vec![(1, prop("A", ComparisonOperator::Eq, 1))], 0),
        function("B", vec![(1, prop("B", ComparisonOperator::Eq, 1))], 0),
    ]
}

fn self_loops_stay_apart<D: SymbolicDomainOrd>() {
    let system = SmartSystemUpdateFn::<D>::from_update_fns(self_loops());
    let unit = system.unit_vertex_set();
    assert_eq!(count(&system, &unit), BigInt::from(4));
    let components = weak_sccs(&system, &unit);
    assert_eq!(components.len(), 4);
    let mut union = system.unit_vertex_set().and_not(&unit);
    for component in &components {
        assert_eq!(count(&system, component), BigInt::from(1));
        assert!(union.and(component).is_false());
        union = union.or(component);
    }
    assert!(same(&union, &unit));
    let start = state(&system, &[("A", 1), ("B", 0)]);
    assert!(system.successors_async_exclude_loops("A", &start).is_false());
    assert!(system.predecessors_async_exclude_loops("A", &start).is_false());
    assert!(same(&system.successors_async("A", &start), &start));
}

#[test]
fn self_loops_stay_apart_unary() {
    self_loops_stay_apart::<UnaryIntegerDomain>();
}

#[test]
fn self_loops_stay_apart_binary() {
    self_loops_stay_apart::<BinaryIntegerDomain>();
}

#[test]
fn self_loops_stay_apart_gray() {
    self_loops_stay_apart::<GrayCodeIntegerDomain>();
}

#[test]
fn self_loops_stay_apart_petri_net() {
    self_loops_stay_apart::<PetriNetIntegerDomain>();
}

fn sink() -> Vec<(String, UnprocessedVariableUpdateFn)> {
    vec![
        function("A", vec![(0, prop("A", ComparisonOperator::Gt, 1))], 1),
        function("B", vec![(1, prop("B", ComparisonOperator::Eq, 1))], 0),
    ]
}

fn sink_is_not_reached<D: SymbolicDomainOrd>() {
    let system = SmartSystemUpdateFn::<D>::from_update_fns(sink());
    let unit = system.unit_vertex_set();
    let start = state(&system, &[("A", 0), ("B", 0)]);
    let reached = reach_fwd(&system, &start, &unit);
    let expected = start.or(&state(&system, &[("A", 1), ("B", 0)]));
    assert!(same(&reached, &expected));
    assert!(reached.and(&state(&system, &[("A", 0), ("B", 1)])).is_false());
    let moving = system.successors_async_exclude_loops("A", &unit);
    assert!(same(&moving, &system.encode_one("A", &1).and(&unit)));
    let movers = system.predecessors_async_exclude_loops("A", &unit);
    assert!(same(&movers, &system.encode_one("A", &0).and(&unit)));
}

#[test]
fn sink_is_not_reached_unary() {
    sink_is_not_reached::<UnaryIntegerDomain>();
}

#[test]
fn sink_is_not_reached_binary() {
    sink_is_not_reached::<BinaryIntegerDomain>();
}

#[test]
fn sink_is_not_reached_gray() {
    sink_is_not_reached::<GrayCodeIntegerDomain>();
}

#[test]
fn sink_is_not_reached_petri_net() {
    sink_is_not_reached::<PetriNetIntegerDomain>();
}

fn sixty_four_booleans<D: SymbolicDomainOrd>() {
    let mut network = Vec::new();
    for i in 0..64 {
        let name = format!("v{:02}", i);
        network.push(function(
            &name,
            vec![(1, prop(&name, ComparisonOperator::Eq, 1))],
            0,
        ));
    }
    let system = SmartSystemUpdateFn::<D>::from_update_fns(network);
    let unit = system.unit_vertex_set();
    let expected = "18446744073709551616".parse::<BigInt>().unwrap();
    assert_eq!(count(&system, &unit), expected);
}

#[test]
fn sixty_four_booleans_unary() {
    sixty_four_booleans::<UnaryIntegerDomain>();
}

#[test]
fn sixty_four_booleans_binary() {
    sixty_four_booleans::<BinaryIntegerDomain>();
}

#[test]
fn sixty_four_booleans_gray() {
    sixty_four_booleans::<GrayCodeIntegerDomain>();
}

#[test]
fn sixty_four_booleans_petri_net() {
    sixty_four_booleans::<PetriNetIntegerDomain>();
}

fn lone_state<D: SymbolicDomainOrd>() {
    let system = SmartSystemUpdateFn::<D>::from_update_fns(vec![function("X", Vec::new(), 0)]);
    let unit = system.unit_vertex_set();
    assert_eq!(count(&system, &unit), BigInt::from(1));
    assert!(same(&system.successors_async("X", &unit), &unit));
    assert!(same(&system.predecessors_async("X", unit.clone()), &unit));
    let picked = pick_state(&system, &unit);
    assert!(same(&reach_fwd(&system, &picked.and(&unit), &unit), &unit));
    assert!(system.successors_async("X", &unit.and_not(&unit)).is_false());
    assert!(system.predecessors_async("X", unit.and_not(&unit)).is_false());
}

#[test]
fn lone_state_unary() {
    lone_state::<UnaryIntegerDomain>();
}

#[test]
fn lone_state_binary() {
    lone_state::<BinaryIntegerDomain>();
}

#[test]
fn lone_state_gray() {
    lone_state::<GrayCodeIntegerDomain>();
}

#[test]
fn lone_state_petri_net() {
    lone_state::<PetriNetIntegerDomain>();
}

fn unmatched_guards<D: SymbolicDomainOrd>() {
    let network = vec![function(
        "A",
        vec![
            (2, prop("A", ComparisonOperator::Lt, 0)),
            (
                2,
                Expression::And(vec![
                    prop("A", ComparisonOperator::Eq, 0),
                    prop("A", ComparisonOperator::Eq, 1),
                ]),
            ),
        ],
        1,
    )];
    let system = SmartSystemUpdateFn::<D>::from_update_fns(network);
    let unit = system.unit_vertex_set();
    assert_eq!(count(&system, &unit), BigInt::from(3));
    assert!(same(
        &system.successors_async("A", &unit),
        &state(&system, &[("A", 1)])
    ));
}

#[test]
fn unmatched_guards_unary() {
    unmatched_guards::<UnaryIntegerDomain>();
}

#[test]
fn unmatched_guards_binary() {
    unmatched_guards::<BinaryIntegerDomain>();
}

#[test]
fn unmatched_guards_gray() {
    unmatched_guards::<GrayCodeIntegerDomain>();
}

#[test]
fn unmatched_guards_petri_net() {
    unmatched_guards::<PetriNetIntegerDomain>();
}

fn widened() -> Vec<(String, UnprocessedVariableUpdateFn)> {
    vec![
        function("A", Vec::new(), 1),
        function("B", vec![(1, prop("A", ComparisonOperator::Geq, 3))], 0),
    ]
}

#[test]
fn maximum_is_widened_by_a_guard() {
    assert_eq!(find_max_values(&widened()), vec![3, 1]);
}

fn widened_domain<D: SymbolicDomainOrd>() {
    let system = SmartSystemUpdateFn::<D>::from_update_fns(widened());
    let unit = system.unit_vertex_set();
    assert_eq!(count(&system, &unit), BigInt::from(8));
    let high = state(&system, &[("A", 3), ("B", 0)]);
    assert_eq!(count(&system, &high), BigInt::from(1));
    assert!(same(
        &system.successors_async("B", &high),
        &state(&system, &[("A", 3), ("B", 1)])
    ));
    let low = state(&system, &[("A", 2), ("B", 1)]);
    assert!(same(
        &system.successors_async("B", &low),
        &state(&system, &[("A", 2), ("B", 0)])
    ));
}

#[test]
fn widened_domain_unary() {
    widened_domain::<UnaryIntegerDomain>();
}

#[test]
fn widened_domain_binary() {
    widened_domain::<BinaryIntegerDomain>();
}

#[test]
fn widened_domain_gray() {
    widened_domain::<GrayCodeIntegerDomain>();
}

#[test]
fn widened_domain_petri_net() {
    widened_domain::<PetriNetIntegerDomain>();
}
