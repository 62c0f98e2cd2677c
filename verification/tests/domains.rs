use biodivine_lib_bdd::BddVariableSetBuilder;
use logical_models::state_space::GenericStateSpaceDomain;
use logical_models::symbolic_domain::SymbolicDomain;
use logical_models::unary::UnaryIntegerDomain;

#[test]
pub fn test_unary_domain() {
    let mut builder = BddVariableSetBuilder::new();
    let domain = UnaryIntegerDomain::new(&mut builder, "x", 5);
    let var_set = builder.build();

    assert_eq!(domain.symbolic_size(), 5);
    assert_eq!(domain.symbolic_variables().len(), domain.symbolic_size());

    let unit_set = domain.unit_collection(&var_set);
    let decoded_unit_set = domain.decode_collection(&var_set, &unit_set);
    assert_eq!(decoded_unit_set.len(), 6);

    let empty_set = domain.empty_collection(&var_set);
    let decoded_empty_set = domain.decode_collection(&var_set, &empty_set);
    assert_eq!(decoded_empty_set.len(), 0);

    let test_set = vec![1, 2, 5];
    let encoded_test_set = domain.encode_collection(&var_set, &test_set);
    let decoded_test_set = domain.decode_collection(&var_set, &encoded_test_set);
    // In this particular encoding, the order of elements is preserved.
    assert_eq!(test_set, decoded_test_set);
}

#[test]
pub fn test_generic_state_space() {
    let mut builder = BddVariableSetBuilder::new();
    let domain_x = Box::new(UnaryIntegerDomain::new(&mut builder, "x", 5));
    let domain_y = Box::new(UnaryIntegerDomain::new(&mut builder, "y", 14));
    let var_set = builder.build();
    let state_space = GenericStateSpaceDomain::new(vec![domain_x, domain_y]);

    assert_eq!(state_space.symbolic_size(), 5 + 14);
    assert_eq!(state_space.symbolic_variables(), var_set.variables());

    let empty_set = state_space.empty_collection(&var_set);
    let decoded_empty_set = state_space.decode_collection(&var_set, &empty_set);
    assert_eq!(decoded_empty_set.len(), 0);

    let unit_set = state_space.unit_collection(&var_set);
    let decoded_unit_set = state_space.decode_collection(&var_set, &unit_set);
    assert_eq!(decoded_unit_set.len(), 6 * 15);

    // Build a test set that is restricted to specific states.
    let test_set = vec![vec![0, 12], vec![1, 3], vec![5, 5]];
    let encoded_test_set = state_space.encode_collection(&var_set, &test_set);
    let decoded_test_set = state_space.decode_collection(&var_set, &encoded_test_set);
    assert_eq!(test_set, decoded_test_set);

    // Build a test set that is restricted in a specific variable (i.e. only x/y is restricted
    // and the remaining values are unconstrained).
    let restrict_x = vec![0, 2, 5];
    let restrict_y = vec![8, 11, 12, 13];

    let encoded_restrict_x = state_space
        .get_raw_domain(0)
        .encode_collection(&var_set, &restrict_x);
    let encoded_restrict_y = state_space
        .get_raw_domain(1)
        .encode_collection(&var_set, &restrict_y);
    // "Sanitize" the encoding by removing values which are invalid for the remaining variables.
    // This is necessary because the BDDs we just created do not depend on the second variable
    // at all, and hence if we "naively" extend them to the full state space domain, the invalid
    // encodings will still be present.
    let encoded_restrict_x = encoded_restrict_x.and(&unit_set);
    let encoded_restrict_y = encoded_restrict_y.and(&unit_set);

    let decoded_restrict_x = state_space.decode_collection(&var_set, &encoded_restrict_x);
    let decoded_restrict_y = state_space.decode_collection(&var_set, &encoded_restrict_y);

    // Here the x/y component is restricted to the values in `restrict_x/y` and the second
    // variable can be any value from its domain.
    assert_eq!(decoded_restrict_x.len(), 3 * 15);
    assert_eq!(decoded_restrict_y.len(), 6 * 4);

    let restrict_both = encoded_restrict_x.and(&encoded_restrict_y);

    let decoded_both = state_space.decode_collection(&var_set, &restrict_both);
    // Here, both variables are restricted to the values from `restrict_x/y`, but any
    // combination of such values is allowed.
    assert_eq!(decoded_both.len(), 3 * 4);
}

#[test]
fn states_are_written_and_read() {
    let mut builder = BddVariableSetBuilder::new();
    let domain_x = Box::new(UnaryIntegerDomain::new(&mut builder, "x", 3));
    let domain_y = Box::new(UnaryIntegerDomain::new(&mut builder, "y", 2));
    let var_set = builder.build();
    let state_space = GenericStateSpaceDomain::new(vec![domain_x, domain_y]);

    let mut valuation = biodivine_lib_bdd::BddPartialValuation::empty();
    state_space.encode_bits(&mut valuation, &vec![2, 1]);
    let expected = [true, true, false, true, false];
    for (variable, bit) in state_space.symbolic_variables().iter().zip(expected) {
        assert_eq!(valuation.get_value(*variable), Some(bit));
    }
    assert_eq!(state_space.decode_bits(&valuation), vec![2, 1]);

    let one = state_space.encode_one(&var_set, &vec![2, 1]);
    assert_eq!(one, var_set.mk_conjunctive_clause(&valuation));
    assert_eq!(
        state_space.decode_collection(&var_set, &one),
        vec![vec![2, 1]]
    );
    assert_eq!(
        state_space.decode_collection(
            &var_set,
            &state_space.encode_collection(&var_set, &[vec![3, 0], vec![0, 2], vec![0, 0]])
        ),
        vec![vec![0, 0], vec![0, 2], vec![3, 0]]
    );
    assert_eq!(state_space.get_raw_domain(1).symbolic_size(), 2);
}
