use logical_models::binary::BinaryIntegerDomain;
use logical_models::expression::{ComparisonOperator, Expression, Proposition};
use logical_models::order::sort_by_name;
use logical_models::petri_net::PetriNetIntegerDomain;
use logical_models::system::SmartSystemUpdateFn;
use logical_models::unary::UnaryIntegerDomain;
use logical_models::unprocessed::{
    find_max_values, max_output, update_from_proposition, update_max, UnprocessedVariableUpdateFn,
};
use logical_models::validate::{
    check_network, has_distinct_names, has_name, is_clean_name, is_closed_network, ModelMalformed,
};

fn test_of(variable: &str, comparison_operator: ComparisonOperator, value: u8) -> Expression {
    Expression::Terminal(Proposition {
        comparison_operator,
        variable: variable.to_string(),
        value,
    })
}

fn named(
    name: &str,
    terms: Vec<(u8, Expression)>,
    default: u8,
) -> (String, UnprocessedVariableUpdateFn) {
    (
        name.to_string(),
        UnprocessedVariableUpdateFn::new(Vec::new(), name.to_string(), terms, default),
    )
}

fn fault(
    network: Vec<(String, UnprocessedVariableUpdateFn)>,
) -> Option<ModelMalformed> {
    SmartSystemUpdateFn::<UnaryIntegerDomain>::try_from_update_fns(network).err()
}

#[test]
fn a_sound_network_is_built() {
    let system = SmartSystemUpdateFn::<UnaryIntegerDomain>::try_from_update_fns(vec![
        named("b", vec![(1, test_of("a", ComparisonOperator::Eq, 1))], 0),
        named("a", Vec::new(), 1),
    ])
    .ok()
    .unwrap();
    assert_eq!(system.variable_count(), 2);
    assert_eq!(system.get_system_variables(), vec!["a", "b"]);
}

#[test]
fn a_tick_in_a_name_is_refused() {
    assert_eq!(
        fault(vec![named("a'", Vec::new(), 1)]),
        Some(ModelMalformed::ReservedCharacter)
    );
    for refused in "!&|^=<>()?:'".chars() {
        assert!(!is_clean_name(&format!("x{}y", refused)));
    }
    assert!(is_clean_name("Mdm2_nuc-1.a"));
    assert!(is_clean_name(""));
}

#[test]
fn a_repeated_name_is_refused() {
    let network = vec![
        named("a", Vec::new(), 1),
        named("b", Vec::new(), 1),
        named("a", Vec::new(), 0),
    ];
    assert!(!has_distinct_names(&network));
    assert_eq!(fault(network), Some(ModelMalformed::DuplicateVariable));
}

#[test]
fn an_unknown_variable_in_a_guard_is_refused() {
    let network = vec![
        named("a", Vec::new(), 1),
        named(
            "b",
            vec![(
                1,
                Expression::Or(vec![
                    test_of("a", ComparisonOperator::Eq, 1),
                    Expression::Not(Box::new(test_of("c", ComparisonOperator::Eq, 1))),
                ]),
            )],
            0,
        ),
    ];
    assert!(has_name(&network, "b"));
    assert!(!has_name(&network, "c"));
    assert!(!is_closed_network(&network));
    assert_eq!(fault(network), Some(ModelMalformed::UnknownVariable));
}

#[test]
fn too_many_bits_are_refused() {
    let mut network = Vec::new();
    for i in 0..128 {
        network.push(named(&format!("v{:03}", i), Vec::new(), 255));
    }
    // 128 variables of 256 bits, twice: 65536 bits.
    let sorted = sort_by_name(network);
    assert_eq!(
        check_network::<PetriNetIntegerDomain>(&sorted),
        Err(ModelMalformed::TooManyBits)
    );
    // The same network takes 2048 bits in the binary encoding.
    assert_eq!(check_network::<BinaryIntegerDomain>(&sorted), Ok(()));
}

#[test]
fn the_first_fault_is_reported() {
    let network = vec![
        named("a'", vec![(1, test_of("c", ComparisonOperator::Eq, 1))], 0),
        named("a'", Vec::new(), 0),
    ];
    assert_eq!(fault(network), Some(ModelMalformed::ReservedCharacter));
    let network = vec![
        named("a", vec![(1, test_of("c", ComparisonOperator::Eq, 1))], 0),
        named("a", Vec::new(), 0),
    ];
    assert_eq!(fault(network), Some(ModelMalformed::DuplicateVariable));
}

#[test]
fn variables_are_sorted_by_name() {
    let names = ["b", "a", "ab", "B", "", "a'", "aa", "z", "Z", "é", "a0"];
    let network = names.iter().map(|name| named(name, Vec::new(), 0)).collect();
    let sorted: Vec<String> = sort_by_name(network).into_iter().map(|it| it.0).collect();
    let mut expected: Vec<String> = names.iter().map(|name| name.to_string()).collect();
    expected.sort();
    assert_eq!(sorted, expected);
    assert_eq!(
        sorted,
        vec!["", "B", "Z", "a", "a'", "a0", "aa", "ab", "b", "z", "é"]
    );
}

#[test]
fn the_largest_mentioned_value_is_found() {
    let network = vec![
        named(
            "a",
            vec![
                (2, test_of("b", ComparisonOperator::Lt, 7)),
                (4, test_of("a", ComparisonOperator::Eq, 3)),
            ],
            1,
        ),
        named(
            "b",
            vec![(
                0,
                Expression::Implies(
                    Box::new(Expression::And(vec![
                        test_of("a", ComparisonOperator::Geq, 9),
                        test_of("b", ComparisonOperator::Geq, 2),
                    ])),
                    Box::new(Expression::Xor(
                        Box::new(test_of("c", ComparisonOperator::Neq, 200)),
                        Box::new(test_of("a", ComparisonOperator::Gt, 5)),
                    )),
                ),
            )],
            5,
        ),
        named("c", Vec::new(), 0),
    ];
    assert_eq!(max_output(&network[0].1), 4);
    assert_eq!(max_output(&network[1].1), 5);
    assert_eq!(find_max_values(&network), vec![9, 7, 200]);

    let mut bounds = vec![0, 3, 250];
    update_max(&mut bounds, &network, &network[1].1.terms[0].1);
    assert_eq!(bounds, vec![9, 3, 250]);

    let mut bounds = vec![0, 0, 0];
    let proposition = Proposition {
        comparison_operator: ComparisonOperator::Eq,
        variable: "b".to_string(),
        value: 6,
    };
    update_from_proposition(&mut bounds, &network, &proposition);
    assert_eq!(bounds, vec![0, 6, 0]);
    let smaller = Proposition {
        comparison_operator: ComparisonOperator::Eq,
        variable: "b".to_string(),
        value: 2,
    };
    update_from_proposition(&mut bounds, &network, &smaller);
    assert_eq!(bounds, vec![0, 6, 0]);
}
