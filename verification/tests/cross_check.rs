use logical_models::cross_check::{bwd_step, fwd_step, ComputationStep};
use logical_models::expression::{ComparisonOperator, Expression, Proposition};
use logical_models::reachability::count_states_exact;
use logical_models::system::SmartSystemUpdateFn;
use logical_models::unary::UnaryIntegerDomain;
use logical_models::unprocessed::UnprocessedVariableUpdateFn;
use num_bigint::BigInt;

fn guard(variable: &str, comparison_operator: ComparisonOperator, value: u8) -> Expression {
    Expression::Terminal(Proposition {
        comparison_operator,
        variable: variable.to_string(),
        value,
    })
}

fn variable(
    name: &str,
    terms: Vec<(u8, Expression)>,
    default: u8,
) -> (String, UnprocessedVariableUpdateFn) {
    (
        name.to_string(),
        UnprocessedVariableUpdateFn::new(Vec::new(), name.to_string(), terms, default),
    )
}

fn three_levels() -> Vec<(String, UnprocessedVariableUpdateFn)> {
    vec![
        variable(
            "p",
            vec![
                (2, guard("q", ComparisonOperator::Geq, 2)),
                (
                    1,
                    Expression::Or(vec![
                        guard("q", ComparisonOperator::Eq, 1),
                        guard("r", ComparisonOperator::Neq, 0),
                    ]),
                ),
            ],
            0,
        ),
        variable(
            "q",
            vec![
                (
                    2,
                    Expression::Xor(
                        Box::new(guard("p", ComparisonOperator::Lt, 2)),
                        Box::new(guard("r", ComparisonOperator::Eq, 1)),
                    ),
                ),
                (
                    1,
                    Expression::Implies(
                        Box::new(guard("p", ComparisonOperator::Leq, 1)),
                        Box::new(guard("q", ComparisonOperator::Gt, 0)),
                    ),
                ),
            ],
            0,
        ),
        variable(
            "r",
            vec![(
                1,
                Expression::And(vec![
                    guard("p", ComparisonOperator::Geq, 1),
                    Expression::Not(Box::new(guard("q", ComparisonOperator::Eq, 2))),
                ]),
            )],
            0,
        ),
    ]
}

fn computation() -> ComputationStep {
    ComputationStep::new(
        SmartSystemUpdateFn::from_update_fns(three_levels()),
        SmartSystemUpdateFn::from_update_fns(three_levels()),
        SmartSystemUpdateFn::from_update_fns(three_levels()),
        SmartSystemUpdateFn::from_update_fns(three_levels()),
    )
}

#[test]
fn encodings_agree_step_by_step_forwards() {
    let mut computation = computation();
    assert!(!computation.is_done());
    assert!(computation.can_initialize());
    assert_eq!(computation.remaining(), BigInt::from(18));
    assert!(computation.check_consistency());
    assert_eq!(computation.counts(), (None, None, None, None));
    let mut components = 0;
    while !computation.is_done() {
        computation.initialize();
        assert_eq!(computation.step_count(), 0);
        assert!(computation.check_consistency());
        while !computation.can_initialize() {
            computation.perform_fwd_step();
            let (unary, binary, gray, petri_net) = computation.counts();
            assert!(
                computation.check_consistency(),
                "the counts differ at step {}: {:?} {:?} {:?} {:?}",
                computation.step_count(),
                unary,
                binary,
                gray,
                petri_net
            );
            assert_eq!(unary, binary);
            assert_eq!(unary, gray);
            assert_eq!(unary, petri_net);
        }
        components += 1;
        assert!(components <= 18);
    }
    assert_eq!(computation.remaining(), BigInt::from(0));
}

#[test]
fn encodings_agree_step_by_step_backwards() {
    let mut computation = computation();
    let mut rounds = 0;
    while !computation.is_done() {
        computation.initialize();
        while !computation.can_initialize() {
            computation.perform_bwd_step();
            assert!(
                computation.check_consistency(),
                "the counts differ at step {}",
                computation.step_count()
            );
        }
        rounds += 1;
        assert!(rounds <= 18);
    }
}

#[test]
fn one_step_adds_the_image_of_the_last_variable_that_leaves() {
    let system = SmartSystemUpdateFn::<UnaryIntegerDomain>::from_update_fns(three_levels());
    let unit = system.unit_vertex_set();
    let start = unit
        .and(&system.encode_one("p", &0))
        .and(&system.encode_one("q", &0))
        .and(&system.encode_one("r", &0));
    // r stays at 0 and q goes to 2: the step of q is the one that is taken.
    let next = fwd_step(&system, &start).unwrap();
    assert_eq!(count_states_exact(&system, &next), BigInt::from(2));
    let expected = start.or(
        &unit
            .and(&system.encode_one("p", &0))
            .and(&system.encode_one("q", &2))
            .and(&system.encode_one("r", &0)),
    );
    assert!(next.iff(&expected).is_true());
    assert!(fwd_step(&system, &unit).is_none());
    assert!(bwd_step(&system, &unit).is_none());
    let before = bwd_step(&system, &start).unwrap();
    assert!(before.and(&start).iff(&start).is_true());
    assert!(!before.iff(&start).is_true());
}
