use biodivine_lib_bdd::Bdd;
use logical_models::binary::BinaryIntegerDomain;
use logical_models::cross_check::ComputationStep;
use logical_models::expression::{ComparisonOperator, Expression, Proposition};
use logical_models::gray::GrayCodeIntegerDomain;
use logical_models::petri_net::PetriNetIntegerDomain;
use logical_models::reachability::{
    count_states_exact, pick_state, reach_bwd, reach_fwd, saturate, weak_scc, weak_sccs,
};
use logical_models::symbolic_domain::{SymbolicDomain, SymbolicDomainOrd};
use logical_models::system::SmartSystemUpdateFn;
use logical_models::unary::UnaryIntegerDomain;
use logical_models::unprocessed::UnprocessedVariableUpdateFn;
use num_bigint::BigInt;

fn when(variable: &str, comparison_operator: ComparisonOperator, value: u8) -> Expression {
    Expression::Terminal(Proposition {
        comparison_operator,
        variable: variable.to_string(),
        value,
    })
}

fn rule(
    name: &str,
    terms: Vec<(u8, Expression)>,
    default: u8,
) -> (String, UnprocessedVariableUpdateFn) {
    (
        name.to_string(),
        UnprocessedVariableUpdateFn::new(Vec::new(), name.to_string(), terms, default),
    )
}

/// Two variables: `g` counts up to three while `s` is on and falls back to
/// zero while it is off; `s` is on while `g` is below two.
fn counter() -> Vec<(String, UnprocessedVariableUpdateFn)> {
    vec![
        rule(
            "s",
            vec![(1, when("g", ComparisonOperator::Lt, 2))],
            0,
        ),
        rule(
            "g",
            vec![
                (
                    3,
                    Expression::And(vec![
                        when("s", ComparisonOperator::Eq, 1),
                        when("g", ComparisonOperator::Geq, 2),
                    ]),
                ),
                (
                    2,
                    Expression::And(vec![
                        when("s", ComparisonOperator::Eq, 1),
                        when("g", ComparisonOperator::Eq, 1),
                    ]),
                ),
                (1, when("s", ComparisonOperator::Eq, 1)),
            ],
            0,
        ),
    ]
}

fn state<D: SymbolicDomainOrd>(system: &SmartSystemUpdateFn<D>, g: u8, s: u8) -> Bdd {
    system.encode_state(&vec![g, s])
}

fn all_states() -> Vec<(u8, u8)> {
    let mut states = Vec::new();
    for g in 0..=3 {
        for s in 0..=1 {
            states.push((g, s));
        }
    }
    states
}

fn subset(left: &Bdd, right: &Bdd) -> bool {
    left.imp(right).is_true()
}

fn next(g: u8, s: u8, variable: &str) -> (u8, u8) {
    if variable == "s" {
        (g, if g < 2 { 1 } else { 0 })
    } else if s == 1 {
        (if g >= 2 { 3 } else { g + 1 }, s)
    } else {
        (0, s)
    }
}

fn steps_follow_the_update_functions<D: SymbolicDomainOrd>() {
    let system = SmartSystemUpdateFn::<D>::from_update_fns(counter());
    let unit = system.unit_vertex_set();
    assert_eq!(count_states_exact(&system, &unit), BigInt::from(8));
    for variable in ["g", "s"] {
        for (g, s) in all_states() {
            let here = state(&system, g, s);
            let (g_next, s_next) = next(g, s, variable);
            let there = state(&system, g_next, s_next);
            let successors = system.successors_async(variable, &here);
            assert_eq!(successors, there);
            // A successor is a state.
            assert!(subset(&successors, &unit));
            // The step is seen from both ends.
            for (g_other, s_other) in all_states() {
                let other = state(&system, g_other, s_other);
                let forwards = !system
                    .successors_async(variable, &here)
                    .and(&other)
                    .is_false();
                let backwards = !system
                    .predecessors_async(variable, other.clone())
                    .and(&here)
                    .is_false();
                assert_eq!(forwards, backwards);
                assert_eq!(forwards, (g_other, s_other) == (g_next, s_next));
            }
            let moves = (g_next, s_next) != (g, s);
            assert_eq!(
                !system
                    .successors_async_exclude_loops(variable, &here)
                    .is_false(),
                moves
            );
        }
        let empty = unit.and_not(&unit);
        assert!(system.successors_async(variable, &empty).is_false());
        assert!(system.predecessors_async(variable, empty.clone()).is_false());
        assert!(subset(&system.predecessors_async(variable, unit.clone()), &unit));
        // A larger set has a larger image.
        let small = state(&system, 1, 1);
        let large = small.or(&state(&system, 3, 0)).or(&state(&system, 2, 1));
        assert!(subset(
            &system.successors_async(variable, &small),
            &system.successors_async(variable, &large)
        ));
        assert!(subset(
            &system.predecessors_async(variable, small.clone()),
            &system.predecessors_async(variable, large.clone())
        ));
    }
}

#[test]
fn steps_follow_the_update_functions_unary() {
    steps_follow_the_update_functions::<UnaryIntegerDomain>();
}

#[test]
fn steps_follow_the_update_functions_binary() {
    steps_follow_the_update_functions::<BinaryIntegerDomain>();
}

#[test]
fn steps_follow_the_update_functions_gray() {
    steps_follow_the_update_functions::<GrayCodeIntegerDomain>();
}

#[test]
fn steps_follow_the_update_functions_petri_net() {
    steps_follow_the_update_functions::<PetriNetIntegerDomain>();
}

fn reachability_is_a_closure<D: SymbolicDomainOrd>() {
    let system = SmartSystemUpdateFn::<D>::from_update_fns(counter());
    let unit = system.unit_vertex_set();
    for (g, s) in all_states() {
        let start = state(&system, g, s);
        for forward in [true, false] {
            let reached = saturate(&system, forward, &start);
            assert!(subset(&start, &reached));
            assert!(subset(&reached, &unit));
            for variable in ["g", "s"] {
                let image = if forward {
                    system.successors_async(variable, &reached)
                } else {
                    system.predecessors_async(variable, reached.clone())
                };
                assert!(subset(&image, &reached));
            }
            assert_eq!(saturate(&system, forward, &reached), reached);
        }
        assert_eq!(reach_fwd(&system, &start, &unit), saturate(&system, true, &start));
        assert_eq!(reach_bwd(&system, &start, &unit), saturate(&system, false, &start));
    }
    // From (0, 1) the counter climbs to three, the switch goes off, and the
    // counter falls back: seven states, all but (1, 0).
    let reached = reach_fwd(&system, &state(&system, 0, 1), &unit);
    assert_eq!(count_states_exact(&system, &reached), BigInt::from(7));
    assert!(reached.and(&state(&system, 1, 0)).is_false());
    // (1, 0) is reached from nowhere but itself.
    assert_eq!(
        reach_bwd(&system, &state(&system, 1, 0), &unit),
        state(&system, 1, 0)
    );
}

#[test]
fn reachability_is_a_closure_unary() {
    reachability_is_a_closure::<UnaryIntegerDomain>();
}

#[test]
fn reachability_is_a_closure_binary() {
    reachability_is_a_closure::<BinaryIntegerDomain>();
}

#[test]
fn reachability_is_a_closure_gray() {
    reachability_is_a_closure::<GrayCodeIntegerDomain>();
}

#[test]
fn reachability_is_a_closure_petri_net() {
    reachability_is_a_closure::<PetriNetIntegerDomain>();
}

fn components_partition_the_universe<D: SymbolicDomainOrd>() {
    let system = SmartSystemUpdateFn::<D>::from_update_fns(counter());
    let unit = system.unit_vertex_set();
    let components = weak_sccs(&system, &unit);
    let mut union = unit.and_not(&unit);
    for component in &components {
        assert!(!component.is_false());
        assert!(union.and(component).is_false());
        union = union.or(component);
    }
    assert_eq!(union, unit);
    // Every state leads into the cycle: there is one component.
    let sizes: Vec<BigInt> = components
        .iter()
        .map(|component| count_states_exact(&system, component))
        .collect();
    assert_eq!(sizes, vec![BigInt::from(8)]);

    let pivot = state(&system, 2, 1);
    let component = weak_scc(&system, &pivot, &unit);
    assert!(subset(&pivot, &component));
    assert_eq!(count_states_exact(&system, &component), BigInt::from(8));
    // Within a smaller universe the component is smaller.
    let half = system.encode_one("s", &1).and(&unit);
    let component = weak_scc(&system, &pivot, &half);
    assert!(subset(&component, &half));
    assert_eq!(count_states_exact(&system, &component), BigInt::from(4));
}

#[test]
fn components_partition_the_universe_unary() {
    components_partition_the_universe::<UnaryIntegerDomain>();
}

#[test]
fn components_partition_the_universe_binary() {
    components_partition_the_universe::<BinaryIntegerDomain>();
}

#[test]
fn components_partition_the_universe_gray() {
    components_partition_the_universe::<GrayCodeIntegerDomain>();
}

#[test]
fn components_partition_the_universe_petri_net() {
    components_partition_the_universe::<PetriNetIntegerDomain>();
}

fn a_state_is_picked<D: SymbolicDomainOrd>() {
    let system = SmartSystemUpdateFn::<D>::from_update_fns(counter());
    let unit = system.unit_vertex_set();
    let set = state(&system, 2, 0).or(&state(&system, 3, 1));
    let picked = pick_state(&system, &set);
    assert_eq!(picked, system.pick_state_bdd(&set));
    assert_eq!(count_states_exact(&system, &picked.and(&unit)), BigInt::from(1));
    assert!(subset(&picked, &set));
    assert!(picked == state(&system, 2, 0) || picked == state(&system, 3, 1));
    // The primed variables are left free.
    for variable in system.primed_variables() {
        assert!(!picked.support_set().contains(&variable));
    }
    let values = system.pick_state_values(&set);
    assert!(values == vec![2, 0] || values == vec![3, 1]);
    assert_eq!(system.pick_state_values(&state(&system, 1, 1)), vec![1, 1]);
}

#[test]
fn a_state_is_picked_unary() {
    a_state_is_picked::<UnaryIntegerDomain>();
}

#[test]
fn a_state_is_picked_binary() {
    a_state_is_picked::<BinaryIntegerDomain>();
}

#[test]
fn a_state_is_picked_gray() {
    a_state_is_picked::<GrayCodeIntegerDomain>();
}

#[test]
fn a_state_is_picked_petri_net() {
    a_state_is_picked::<PetriNetIntegerDomain>();
}

#[test]
fn the_parts_of_a_system() {
    let system = SmartSystemUpdateFn::<BinaryIntegerDomain>::from_update_fns(counter());
    assert_eq!(system.variable_count(), 2);
    assert_eq!(system.get_system_variables(), vec!["g", "s"]);
    assert_eq!(system.get_primed_system_variables(), vec!["g'", "s'"]);
    let variables = system.get_bdd_variable_set();
    // Each variable is followed by its primed twin.
    assert_eq!(
        variables.variable_names(),
        vec!["g_v1", "g_v2", "g'_v1", "g'_v2", "s_v1", "s'_v1"]
    );
    let standard: Vec<usize> = system
        .standard_variables()
        .iter()
        .map(|variable| variable.to_index())
        .collect();
    assert_eq!(standard, vec![0, 1, 4]);
    let primed: Vec<usize> = system
        .primed_variables()
        .iter()
        .map(|variable| variable.to_index())
        .collect();
    assert_eq!(primed, vec![2, 3, 5]);
    assert_eq!(system.get_variable_index("s"), Some(1));
    assert_eq!(system.get_variable_index("t"), None);
    assert_eq!(system.get_domain("g").unwrap().max_value(), 3);
    assert_eq!(system.get_domain("s").unwrap().max_value(), 1);
    assert!(system.get_domain("g'").is_none());
    let domains = system.standard_domains();
    assert_eq!(domains.len(), 2);
    assert_eq!(domains[0].symbolic_size(), 2);
    let named = system.standard_variables_names_and_domains();
    assert_eq!(named[0].0, "g");
    assert_eq!(named[1].0, "s");
    assert_eq!(named[1].1.symbolic_size(), 1);
    let unit = system.unit_vertex_set();
    let drawing = system.bdd_to_dot_string(&unit);
    assert_eq!(drawing, unit.to_dot_string(variables, false));
    assert!(drawing.starts_with("digraph G {\n"));
    // Every value of g and of s is a state: the set of all states is the
    // one node that stands for true, drawn beside the node for false.
    assert_eq!(
        drawing,
        concat_lines(&[
            "digraph G {",
            "init__ [label=\"\", style=invis, height=0, width=0];",
            "init__ -> 1;",
            "0 [shape=box, label=\"0\", style=filled, shape=box, height=0.3, width=0.3];",
            "1 [shape=box, label=\"1\", style=filled, shape=box, height=0.3, width=0.3];",
            "}",
        ])
    );
    // One state of s: a single node under the name of the bit of s.
    let on = system.encode_one("s", &1);
    assert_eq!(
        system.bdd_to_dot_string(&on),
        concat_lines(&[
            "digraph G {",
            "init__ [label=\"\", style=invis, height=0, width=0];",
            "init__ -> 2;",
            "0 [shape=box, label=\"0\", style=filled, shape=box, height=0.3, width=0.3];",
            "1 [shape=box, label=\"1\", style=filled, shape=box, height=0.3, width=0.3];",
            "2[label=\"s_v1\"];",
            "2 -> 1 [style=filled];",
            "2 -> 0 [style=dotted];",
            "}",
        ])
    );
    // The states in which a step of g changes g: all but (0, 0) and (3, 1).
    let moving = system.those_states_capable_of_transitioning_under(0);
    assert_eq!(count_states_exact(&system, &moving), BigInt::from(6));
    assert!(moving.and(&system.encode_state(&vec![0, 0])).is_false());
    assert!(moving.and(&system.encode_state(&vec![3, 1])).is_false());
}

fn concat_lines(lines: &[&str]) -> String {
    let mut text = String::new();
    for line in lines {
        text.push_str(line);
        text.push('\n');
    }
    text
}

fn other_dynamics() -> Vec<(String, UnprocessedVariableUpdateFn)> {
    vec![
        rule("s", Vec::new(), 1),
        rule("g", vec![(3, when("g", ComparisonOperator::Leq, 3))], 0),
    ]
}

#[test]
fn different_counts_are_told_apart() {
    // Four systems of the same shape that are not of one network: the
    // third steps otherwise, and the counts show it.
    let mut computation = ComputationStep::new(
        SmartSystemUpdateFn::from_update_fns(counter()),
        SmartSystemUpdateFn::from_update_fns(counter()),
        SmartSystemUpdateFn::from_update_fns(other_dynamics()),
        SmartSystemUpdateFn::from_update_fns(counter()),
    );
    assert_eq!(computation.counts(), (None, None, None, None));
    assert!(computation.check_consistency());
    computation.initialize();
    let one = Some(BigInt::from(1));
    assert_eq!(
        computation.counts(),
        (one.clone(), one.clone(), one.clone(), one)
    );
    assert!(computation.check_consistency());
    let mut steps = 0;
    while computation.check_consistency() && !computation.can_initialize() {
        computation.perform_fwd_step();
        steps += 1;
        assert!(steps <= 8);
    }
    assert!(!computation.check_consistency());
    let (unary, binary, gray, petri_net) = computation.counts();
    assert_eq!(unary, binary);
    assert_eq!(unary, petri_net);
    assert_ne!(unary, gray);
}

/// Two variables: `a` keeps its value among three, `b` alternates between
/// two. The weak components are the three pairs of states of one `a`.
fn kept_and_alternating() -> Vec<(String, UnprocessedVariableUpdateFn)> {
    vec![
        rule(
            "a",
            vec![
                (1, when("a", ComparisonOperator::Eq, 1)),
                (2, when("a", ComparisonOperator::Eq, 2)),
            ],
            0,
        ),
        rule("b", vec![(1, when("b", ComparisonOperator::Eq, 0))], 0),
    ]
}

fn family_of_components<D: SymbolicDomainOrd>() -> Vec<Vec<(u8, u8)>> {
    let system = SmartSystemUpdateFn::<D>::from_update_fns(kept_and_alternating());
    let unit = system.unit_vertex_set();
    let components = weak_sccs(&system, &unit);
    let mut family = Vec::new();
    for component in &components {
        let mut states = Vec::new();
        for a in 0..=2 {
            for b in 0..=1 {
                if subset(&system.encode_state(&vec![a, b]), component) {
                    states.push((a, b));
                }
            }
        }
        assert_eq!(
            count_states_exact(&system, component),
            BigInt::from(states.len())
        );
        family.push(states);
    }
    family.sort();
    family
}

#[test]
fn the_family_of_components_is_that_of_the_network() {
    let expected = vec![
        vec![(0, 0), (0, 1)],
        vec![(1, 0), (1, 1)],
        vec![(2, 0), (2, 1)],
    ];
    assert_eq!(family_of_components::<UnaryIntegerDomain>(), expected);
    assert_eq!(family_of_components::<BinaryIntegerDomain>(), expected);
    assert_eq!(family_of_components::<GrayCodeIntegerDomain>(), expected);
    assert_eq!(family_of_components::<PetriNetIntegerDomain>(), expected);
}
