use biodivine_lib_bdd::Bdd;
use logical_models::binary::BinaryIntegerDomain;
use logical_models::eager::SystemUpdateFn;
use logical_models::expression::{ComparisonOperator, Expression, Proposition};
use logical_models::gray::GrayCodeIntegerDomain;
use logical_models::petri_net::PetriNetIntegerDomain;
use logical_models::symbolic_domain::SymbolicDomainOrd;
use logical_models::unary::UnaryIntegerDomain;
use logical_models::unprocessed::UnprocessedVariableUpdateFn;
use logical_models::validate::ModelMalformed;

fn compare(variable: &str, comparison_operator: ComparisonOperator, value: u8) -> Expression {
    Expression::Terminal(Proposition {
        comparison_operator,
        variable: variable.to_string(),
        value,
    })
}

fn entry(
    name: &str,
    terms: Vec<(u8, Expression)>,
    default: u8,
) -> (String, UnprocessedVariableUpdateFn) {
    (
        name.to_string(),
        UnprocessedVariableUpdateFn::new(Vec::new(), name.to_string(), terms, default),
    )
}

fn climbing() -> Vec<(String, UnprocessedVariableUpdateFn)> {
    vec![
        entry(
            "level",
            vec![
                (2, compare("level", ComparisonOperator::Geq, 1)),
                (1, compare("switch", ComparisonOperator::Eq, 1)),
            ],
            0,
        ),
        entry(
            "switch",
            vec![(
                1,
                Expression::Not(Box::new(compare("level", ComparisonOperator::Gt, 1))),
            )],
            0,
        ),
    ]
}

fn at<D: SymbolicDomainOrd>(system: &SystemUpdateFn<D>, level: u8, switch: u8) -> Bdd {
    system
        .unit_vertex_set()
        .and(&system.encode_one("level", &level))
        .and(&system.encode_one("switch", &switch))
}

fn equal(left: &Bdd, right: &Bdd) -> bool {
    left.iff(right).is_true()
}

fn eager_steps<D: SymbolicDomainOrd>() {
    let system = SystemUpdateFn::<D>::from_update_fns(climbing());
    let unit = system.unit_vertex_set();
    assert_eq!(unit.exact_cardinality(), 6.into());

    // level: 0 -> 1 with the switch on, 0 -> 0 with the switch off.
    assert!(equal(
        &system.successors_async("level", &at(&system, 0, 1)),
        &at(&system, 1, 1)
    ));
    assert!(equal(
        &system.successors_async("level", &at(&system, 0, 0)),
        &at(&system, 0, 0)
    ));
    // level: 1 -> 2 and 2 -> 2, whatever the switch.
    assert!(equal(
        &system.successors_async("level", &at(&system, 1, 0).or(&at(&system, 2, 0))),
        &at(&system, 2, 0)
    ));
    // switch: on below two, off at two.
    assert!(equal(
        &system.successors_async("switch", &at(&system, 2, 1)),
        &at(&system, 2, 0)
    ));
    assert!(equal(
        &system.successors_async("switch", &at(&system, 1, 0)),
        &at(&system, 1, 1)
    ));

    assert!(equal(
        &system.predecessors_async("level", &at(&system, 2, 0)),
        &at(&system, 1, 0).or(&at(&system, 2, 0))
    ));
    assert!(equal(
        &system.predecessors_async("level", &at(&system, 1, 1)),
        &at(&system, 0, 1)
    ));
    assert!(system
        .predecessors_async("level", &at(&system, 1, 0))
        .is_false());
    assert!(system
        .successors_async("level", &unit.and_not(&unit))
        .is_false());

    assert!(equal(
        &system.successors_async_exclude_loops("level", &unit),
        &system
            .encode_one("level", &1)
            .and(&system.encode_one("switch", &1))
            .or(&system.encode_one("level", &2))
            .and(&unit)
    ));
    assert!(equal(
        &system.predecessors_async_exclude_loops("level", &unit),
        &at(&system, 0, 1).or(&at(&system, 1, 0)).or(&at(&system, 1, 1))
    ));
    let one = system.encode_one("switch", &1);
    let drawing = system.bdd_to_dot_string(&one);
    assert!(drawing.starts_with("digraph G {\n"));
    assert!(drawing.contains("[label=\"switch_v1\"];"));
    assert!(!drawing.contains("level_v1"));
    assert_eq!(drawing, one.to_dot_string(system.get_bdd_variable_set(), false));
    assert_ne!(drawing, one.to_dot_string(system.get_bdd_variable_set(), true));
    assert!(system.get_update_fn_and_domain_of("level").is_some());
    assert!(system.get_update_fn_and_domain_of("missing").is_none());
}

#[test]
fn eager_steps_unary() {
    eager_steps::<UnaryIntegerDomain>();
}

#[test]
fn eager_steps_binary() {
    eager_steps::<BinaryIntegerDomain>();
}

#[test]
fn eager_steps_gray() {
    eager_steps::<GrayCodeIntegerDomain>();
}

#[test]
fn eager_steps_petri_net() {
    eager_steps::<PetriNetIntegerDomain>();
}

#[test]
fn an_eager_system_is_built_or_refused() {
    let system = SystemUpdateFn::<UnaryIntegerDomain>::try_from_update_fns(climbing())
        .ok()
        .unwrap();
    assert_eq!(system.unit_vertex_set().exact_cardinality(), 6.into());
    // Without primed twins a tick is a character like any other.
    let ticked = vec![entry("a'", Vec::new(), 1), entry("a", Vec::new(), 1)];
    assert!(SystemUpdateFn::<UnaryIntegerDomain>::try_from_update_fns(ticked).is_ok());

    let fault = |network| SystemUpdateFn::<BinaryIntegerDomain>::try_from_update_fns(network).err();
    assert_eq!(
        fault(vec![entry("a|b", Vec::new(), 1)]),
        Some(ModelMalformed::ReservedCharacter)
    );
    assert_eq!(
        fault(vec![entry("a", Vec::new(), 1), entry("a", Vec::new(), 0)]),
        Some(ModelMalformed::DuplicateVariable)
    );
    assert_eq!(
        fault(vec![entry(
            "a",
            vec![(1, compare("b", ComparisonOperator::Eq, 1))],
            0
        )]),
        Some(ModelMalformed::UnknownVariable)
    );
    let mut wide = Vec::new();
    for i in 0..256 {
        wide.push(entry(&format!("v{:03}", i), Vec::new(), 255));
    }
    // 256 variables of 256 bits: 65536 bits in the one-hot encoding.
    assert_eq!(
        SystemUpdateFn::<PetriNetIntegerDomain>::try_from_update_fns(wide).err(),
        Some(ModelMalformed::TooManyBits)
    );
}
