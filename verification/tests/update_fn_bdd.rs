use biodivine_lib_bdd::{BddPartialValuation, BddValuation, BddVariableSetBuilder};
use logical_models::expression::{ComparisonOperator, Expression, Proposition};
use logical_models::update_fn_bdd::{
    first_list, leq, lt, qualitative_species, FirstList, UpdateFn, UpdateFnBdd,
};
use logical_models::symbolic_domain::SymbolicDomain;
use logical_models::unary::UnaryIntegerDomain;

fn holds(variable: &str, comparison_operator: ComparisonOperator, value: u8) -> Expression {
    Expression::Terminal(Proposition {
        comparison_operator,
        variable: variable.to_string(),
        value,
    })
}

#[test]
fn update_fn_keeps_its_fields() {
    let update_fn = UpdateFn::new(
        vec!["p53".to_string(), "Mdm2nuc".to_string()],
        "Mdm2cyt".to_string(),
        vec![(2, holds("p53", ComparisonOperator::Eq, 2))],
        1,
    );
    assert_eq!(update_fn.input_vars_names, vec!["p53", "Mdm2nuc"]);
    assert_eq!(update_fn.target_var_name, "Mdm2cyt");
    assert_eq!(update_fn.terms.len(), 1);
    assert_eq!(update_fn.terms[0].0, 2);
    assert_eq!(update_fn.default, 1);
}

#[test]
fn guards_are_compiled_over_unary_domains() {
    let update_fn = UpdateFn::new(
        vec!["p53".to_string(), "Mdm2nuc".to_string()],
        "Mdm2cyt".to_string(),
        vec![
            (700, holds("Mdm2nuc", ComparisonOperator::Eq, 1)),
            (
                3,
                Expression::And(vec![
                    holds("p53", ComparisonOperator::Geq, 1),
                    holds("Mdm2nuc", ComparisonOperator::Lt, 2),
                ]),
            ),
        ],
        1,
    );
    let compiled = UpdateFnBdd::from(update_fn);
    assert_eq!(compiled.names, vec!["p53", "Mdm2nuc"]);
    assert_eq!(compiled.named_symbolic_domains.len(), 2);
    assert_eq!(compiled.bdd_variable_set.num_vars(), 4);
    assert_eq!(compiled.terms.len(), 2);
    assert_eq!(compiled.terms[0].0, 700);
    assert_eq!(compiled.terms[1].0, 3);

    // p53 = 0 and Mdm2nuc = 1.
    let valuation = BddValuation::new(vec![false, false, true, false]);
    assert!(compiled.terms[0].1.eval_in(&valuation));
    assert!(!compiled.terms[1].1.eval_in(&valuation));
    // p53 = 2 and Mdm2nuc = 1.
    let valuation = BddValuation::new(vec![true, true, true, false]);
    assert!(compiled.terms[0].1.eval_in(&valuation));
    assert!(compiled.terms[1].1.eval_in(&valuation));
    // p53 = 1 and Mdm2nuc = 2.
    let valuation = BddValuation::new(vec![true, false, true, true]);
    assert!(!compiled.terms[0].1.eval_in(&valuation));
    assert!(!compiled.terms[1].1.eval_in(&valuation));
}

#[test]
fn bounds_on_a_unary_domain() {
    let mut builder = BddVariableSetBuilder::new();
    let domain = UnaryIntegerDomain::new(&mut builder, "x", 4);
    let variables = builder.build();
    assert_eq!(
        domain.decode_collection(&variables, &lt(&domain, &variables, 3)),
        vec![0, 1, 2]
    );
    assert_eq!(
        domain.decode_collection(&variables, &leq(&domain, &variables, 3)),
        vec![0, 1, 2, 3]
    );
    assert!(lt(&domain, &variables, 0).is_false());
    assert_eq!(
        leq(&domain, &variables, 1000),
        domain.unit_collection(&variables)
    );
    assert_eq!(
        lt(&domain, &variables, 65535),
        domain.unit_collection(&variables)
    );
}

#[test]
fn a_transition_begins_with_its_inputs_or_its_outputs() {
    assert_eq!(first_list("listOfInputs"), Some(FirstList::Inputs));
    assert_eq!(first_list("listOfOutputs"), Some(FirstList::Outputs));
    assert_eq!(first_list("listOfFunctionTerms"), None);
    assert_eq!(first_list("listofinputs"), None);
    assert_eq!(first_list(""), None);
}

#[test]
fn an_input_names_its_species() {
    let pair = |name: &str, value: &str| (name.to_string(), value.to_string());
    let attributes = vec![
        pair("id", "tr_p53_in_1"),
        pair("qualitativeSpecies", "Mdm2nuc"),
        pair("transitionEffect", "none"),
        pair("qualitativeSpecies", "other"),
    ];
    assert_eq!(qualitative_species(&attributes), Some("Mdm2nuc".to_string()));
    assert_eq!(qualitative_species(&attributes[..1].to_vec()), None);
    assert_eq!(qualitative_species(&Vec::new()), None);
    assert_eq!(
        qualitative_species(&vec![pair("QualitativeSpecies", "x")]),
        None
    );
}

fn get_update_fn() -> UpdateFn {
    UpdateFn::new(
        vec!["p53".to_string(), "Mdm2nuc".to_string()],
        "Mdm2cyt".to_string(),
        vec![
            (2, holds("p53", ComparisonOperator::Eq, 2)),
            (1, holds("Mdm2nuc", ComparisonOperator::Lt, 1)),
        ],
        0,
    )
}

#[test]
pub fn test_update_fn() {
    let update_fn = get_update_fn();

    println!("update fn: {:?}", update_fn);

    let update_fn_bdd = UpdateFnBdd::from(update_fn);

    let place = update_fn_bdd
        .names
        .iter()
        .position(|name| name == "Mdm2nuc")
        .unwrap();
    let domain = &update_fn_bdd.named_symbolic_domains[place];

    let mut valuation = BddPartialValuation::empty();

    domain.encode_bits(&mut valuation, &1);

    let bdd = update_fn_bdd.terms[0].1.clone();

    println!(
        "var is represented by {:?} in bdd",
        domain.symbolic_variables()
    );

    let actual_valuation = BddValuation::new({
        let mut vec = vec![false; update_fn_bdd.bdd_variable_set.num_vars() as usize];
        vec[0] = true;
        vec
    });

    let bdd_res = bdd.eval_in(&actual_valuation);

    println!("bdd res: {:?}", bdd_res);
}
