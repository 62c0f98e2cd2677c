use biodivine_lib_bdd::{BddPartialValuation, BddVariableSet, BddVariableSetBuilder};
use logical_models::binary::BinaryIntegerDomain;
use logical_models::gray::GrayCodeIntegerDomain;
use logical_models::petri_net::PetriNetIntegerDomain;
use logical_models::relation::find_bdd_variables_prime;
use logical_models::symbolic_domain::{allocate_block, same_bits, SymbolicDomain, SymbolicDomainOrd};
use logical_models::unary::UnaryIntegerDomain;

fn domain_of<D: SymbolicDomainOrd>(max: u8) -> (D, BddVariableSet) {
    let mut builder = BddVariableSetBuilder::new();
    builder.make_variable("before");
    let domain = D::new(&mut builder, "x", max);
    builder.make_variable("after");
    (domain, builder.build())
}

fn bits(pattern: &str) -> Vec<bool> {
    pattern.chars().map(|c| c == '1').collect()
}

#[test]
fn unary_patterns() {
    let (domain, _) = domain_of::<UnaryIntegerDomain>(3);
    assert_eq!(domain.symbolic_size(), 3);
    assert_eq!(UnaryIntegerDomain::size_for(3), 3);
    assert_eq!(domain.max_value(), 3);
    assert_eq!(domain.raw_bdd_variables_encode(&0), bits("000"));
    assert_eq!(domain.raw_bdd_variables_encode(&1), bits("100"));
    assert_eq!(domain.raw_bdd_variables_encode(&2), bits("110"));
    assert_eq!(domain.raw_bdd_variables_encode(&3), bits("111"));
}

#[test]
fn binary_patterns() {
    let (domain, _) = domain_of::<BinaryIntegerDomain>(5);
    assert_eq!(domain.symbolic_size(), 3);
    assert_eq!(BinaryIntegerDomain::size_for(0), 0);
    assert_eq!(BinaryIntegerDomain::size_for(1), 1);
    assert_eq!(BinaryIntegerDomain::size_for(2), 2);
    assert_eq!(BinaryIntegerDomain::size_for(3), 2);
    assert_eq!(BinaryIntegerDomain::size_for(4), 3);
    assert_eq!(BinaryIntegerDomain::size_for(127), 7);
    assert_eq!(BinaryIntegerDomain::size_for(128), 8);
    assert_eq!(BinaryIntegerDomain::size_for(255), 8);
    assert_eq!(domain.max_value(), 5);
    // The lowest digit comes first.
    assert_eq!(domain.raw_bdd_variables_encode(&0), bits("000"));
    assert_eq!(domain.raw_bdd_variables_encode(&1), bits("100"));
    assert_eq!(domain.raw_bdd_variables_encode(&2), bits("010"));
    assert_eq!(domain.raw_bdd_variables_encode(&3), bits("110"));
    assert_eq!(domain.raw_bdd_variables_encode(&4), bits("001"));
    assert_eq!(domain.raw_bdd_variables_encode(&5), bits("101"));
}

#[test]
fn gray_patterns() {
    let (domain, _) = domain_of::<GrayCodeIntegerDomain>(7);
    assert_eq!(domain.symbolic_size(), 3);
    assert_eq!(GrayCodeIntegerDomain::size_for(7), 3);
    assert_eq!(domain.max_value(), 7);
    let expected = ["000", "100", "110", "010", "011", "111", "101", "001"];
    for (value, pattern) in expected.iter().enumerate() {
        assert_eq!(domain.raw_bdd_variables_encode(&(value as u8)), bits(pattern));
    }
    // Neighbouring values differ in exactly one bit.
    for value in 0..7u8 {
        let here = domain.raw_bdd_variables_encode(&value);
        let next = domain.raw_bdd_variables_encode(&(value + 1));
        assert_eq!(here.iter().zip(&next).filter(|(a, b)| a != b).count(), 1);
    }
}

#[test]
fn one_hot_patterns() {
    let (domain, _) = domain_of::<PetriNetIntegerDomain>(3);
    assert_eq!(domain.symbolic_size(), 4);
    assert_eq!(PetriNetIntegerDomain::size_for(3), 4);
    assert_eq!(PetriNetIntegerDomain::size_for(255), 256);
    assert_eq!(domain.max_value(), 3);
    assert_eq!(domain.raw_bdd_variables_encode(&0), bits("1000"));
    assert_eq!(domain.raw_bdd_variables_encode(&1), bits("0100"));
    assert_eq!(domain.raw_bdd_variables_encode(&2), bits("0010"));
    assert_eq!(domain.raw_bdd_variables_encode(&3), bits("0001"));
}

fn domain_laws<D: SymbolicDomainOrd>(max: u8) {
    let (domain, variables) = domain_of::<D>(max);
    let unit = domain.unit_collection(&variables);
    assert_eq!(domain.raw_bdd_variables(), domain.symbolic_variables());
    assert_eq!(domain.symbolic_size(), D::size_for(max));
    assert!(domain.empty_collection(&variables).is_false());

    // The two variables around the block are free: each value is four valuations.
    assert_eq!(unit.exact_cardinality(), (4 * (max as u32 + 1)).into());

    let mut union = variables.mk_false();
    for value in 0..=max {
        let one = domain.encode_one(&variables, &value);
        assert_eq!(one.exact_cardinality(), 4.into());
        // A value lies within the unit collection.
        assert_eq!(one.and(&unit), one);
        assert_eq!(domain.encode_one_not(&variables, &value), one.not());
        assert_eq!(domain.decode_one(&variables, &one), value);
        for other in 0..value {
            assert!(one.and(&domain.encode_one(&variables, &other)).is_false());
        }
        union = union.or(&one);

        // Decoding what was encoded gives the value back, and the other
        // variables of the valuation are left alone.
        let mut valuation = BddPartialValuation::empty();
        let outsider = variables.var_by_name("after").unwrap();
        valuation.set_value(outsider, true);
        domain.encode_bits(&mut valuation, &value);
        assert_eq!(domain.decode_bits(&valuation), value);
        assert_eq!(valuation.get_value(outsider), Some(true));
        assert_eq!(valuation.cardinality() as usize, domain.symbolic_size() + 1);
        let code = domain.raw_bdd_variables_encode(&value);
        for (variable, bit) in domain.raw_bdd_variables().iter().zip(&code) {
            assert_eq!(valuation.get_value(*variable), Some(*bit));
        }
    }
    // The values together are the unit collection.
    assert_eq!(union, unit);

    for bound in 0..=max {
        let below: Vec<u8> = (0..bound).collect();
        let up_to: Vec<u8> = (0..=bound).collect();
        let above: Vec<u8> = (bound..=max).skip(1).collect();
        let from: Vec<u8> = (bound..=max).collect();
        assert_eq!(
            domain.decode_collection(&variables, &domain.encode_lt(&variables, &bound).and(&unit)),
            below
        );
        assert_eq!(
            domain.decode_collection(&variables, &domain.encode_le(&variables, &bound).and(&unit)),
            up_to
        );
        assert_eq!(
            domain.decode_collection(&variables, &domain.encode_gt(&variables, &bound).and(&unit)),
            above
        );
        assert_eq!(
            domain.decode_collection(&variables, &domain.encode_ge(&variables, &bound).and(&unit)),
            from
        );
        assert_eq!(
            domain.encode_collection(&variables, &below),
            domain.encode_range(&variables, 0, bound as usize)
        );
        assert_eq!(
            domain.encode_lt(&variables, &bound).and(&unit),
            domain.encode_collection(&variables, &below)
        );
    }
    // A bound above the largest value leaves every value below it.
    if max < 255 {
        let all: Vec<u8> = (0..=max).collect();
        assert_eq!(
            domain.decode_collection(
                &variables,
                &domain.encode_lt(&variables, &(max + 1)).and(&unit)
            ),
            all
        );
        assert!(domain
            .encode_gt(&variables, &max)
            .and(&unit)
            .is_false());
    }
    assert_eq!(
        domain.encode_range(&variables, 1, 1),
        variables.mk_false()
    );
    assert_eq!(domain.encode_range(&variables, 0, 256), unit);
}

#[test]
fn domain_laws_unary() {
    for max in [0, 1, 2, 5, 9] {
        domain_laws::<UnaryIntegerDomain>(max);
    }
}

#[test]
fn domain_laws_binary() {
    for max in [0, 1, 2, 5, 8, 15, 16] {
        domain_laws::<BinaryIntegerDomain>(max);
    }
}

#[test]
fn domain_laws_gray() {
    for max in [0, 1, 2, 5, 8, 15, 16] {
        domain_laws::<GrayCodeIntegerDomain>(max);
    }
}

#[test]
fn domain_laws_petri_net() {
    for max in [0, 1, 2, 5, 9] {
        domain_laws::<PetriNetIntegerDomain>(max);
    }
}

#[test]
fn widest_domains() {
    let (binary, variables) = domain_of::<BinaryIntegerDomain>(255);
    assert_eq!(binary.symbolic_size(), 8);
    assert!(binary.unit_collection(&variables).is_true());
    assert_eq!(binary.raw_bdd_variables_encode(&255), bits("11111111"));
    let (gray, variables) = domain_of::<GrayCodeIntegerDomain>(255);
    assert!(gray.unit_collection(&variables).is_true());
    assert_eq!(gray.raw_bdd_variables_encode(&255), bits("00000001"));
    assert_eq!(gray.raw_bdd_variables_encode(&128), bits("00000011"));
}

#[test]
fn bits_are_named_after_the_variable() {
    let mut builder = BddVariableSetBuilder::new();
    let block = allocate_block(&mut builder, "gene", 12);
    let primed = allocate_block(&mut builder, "gene'", 2);
    let variables = builder.build();
    assert_eq!(block.len(), 12);
    assert_eq!(variables.name_of(block[0]), "gene_v1");
    assert_eq!(variables.name_of(block[8]), "gene_v9");
    assert_eq!(variables.name_of(block[9]), "gene_v10");
    assert_eq!(variables.name_of(block[11]), "gene_v12");
    assert_eq!(variables.name_of(primed[1]), "gene'_v2");
    for (place, variable) in block.iter().enumerate() {
        assert_eq!(variable.to_index(), place);
    }
}

#[test]
fn primed_twin_is_found_by_place() {
    let mut builder = BddVariableSetBuilder::new();
    let plain = BinaryIntegerDomain::new(&mut builder, "x", 7);
    let primed = BinaryIntegerDomain::new(&mut builder, "x'", 7);
    let here = plain.raw_bdd_variables();
    let there = primed.raw_bdd_variables();
    for place in 0..3 {
        assert_eq!(
            find_bdd_variables_prime(&here[place], &plain, &primed),
            there[place]
        );
    }
}

#[test]
fn lists_of_bits_compare_entry_by_entry() {
    assert!(same_bits(&bits("0110"), &bits("0110")));
    assert!(!same_bits(&bits("0110"), &bits("0111")));
    assert!(!same_bits(&bits("011"), &bits("0110")));
    assert!(same_bits(&bits(""), &bits("")));
}
