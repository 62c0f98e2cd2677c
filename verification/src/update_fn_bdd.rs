//! Update functions with outputs of sixteen bits, and their guards compiled
//! over unary domains.

use crate::bdd::{
    bdd_num_vars, bdd_sat, builder_names, new_builder, refused_in_name, variable_count,
};
use crate::expression::Expression;
use crate::names::same_name;
use crate::names::{bit_name, lemma_bit_name_injective};
use crate::symbolic_domain::{can_allocate, consecutive, fits, positions, range_set, SymbolicDomain};
use crate::unary::UnaryIntegerDomain;
use crate::variable_update_fn::{
    bdd_from_expression, blocks_of, decides, domains_fit, names_view, tables_of,
};
use biodivine_lib_bdd::{Bdd, BddVariableSet};
use vstd::prelude::*;

verus! {

/// The update function of the variable `target_var_name`: the outputs with
/// their guards, in the order of their priority, and the default. The
/// guards speak of the variables of `input_vars_names`.
#[derive(Debug)]
pub struct UpdateFn {
    pub input_vars_names: Vec<String>,
    pub target_var_name: String,
    pub terms: Vec<(u16, Expression)>,
    pub default: u16,
}

impl UpdateFn {
    /// An update function with the given fields.
    pub fn new(
        input_vars_names: Vec<String>,
        target_var_name: String,
        terms: Vec<(u16, Expression)>,
        default: u16,
    ) -> (r: Self)
        ensures
            r.input_vars_names == input_vars_names,
            r.target_var_name == target_var_name,
            r.terms == terms,
            r.default == default,
    {
        Self { input_vars_names, target_var_name, terms, default }
    }
}

/// An update function whose guards are compiled: each output with the
/// diagram of its guard, and the unary domain of every input variable, at
/// the place of its name. Every domain reaches to the value two.
pub struct UpdateFnBdd {
    pub terms: Vec<(u16, Bdd)>,
    pub names: Vec<String>,
    pub named_symbolic_domains: Vec<UnaryIntegerDomain>,
    pub bdd_variable_set: BddVariableSet,
}

/// The name of a bit of one of the first `upto` names.
pub open spec fn bit_of_earlier(bit: Seq<char>, names: Seq<Seq<char>>, upto: int) -> bool {
    exists|j: int, k: nat| 0 <= j < upto && bit == #[trigger] bit_name(names[j], k)
}

impl UpdateFnBdd {
    /// Compiles the guards of an update function over unary domains of its
    /// input variables, each of which reaches to the value two.
    pub fn from(source: UpdateFn) -> (r: Self)
        requires
            names_view(source.input_vars_names@).no_duplicates(),
            2 * source.input_vars_names@.len() < 65534,
            forall|i: int, k: int|
                0 <= i < source.input_vars_names@.len() && 0 <= k
                    < source.input_vars_names@[i]@.len() ==> !refused_in_name(
                    #[trigger] source.input_vars_names@[i]@[k],
                ),
            forall|j: int, name: Seq<char>, v: int|
                0 <= j < source.terms@.len() && #[trigger] source.terms@[j].1.compares_with(
                    name,
                    v,
                ) ==> names_view(source.input_vars_names@).contains(name) && 0 <= v <= 2,
        ensures
            names_view(r.names@) == names_view(source.input_vars_names@),
            r.named_symbolic_domains@.len() == r.names@.len(),
            domains_fit(r.named_symbolic_domains@, variable_count(r.bdd_variable_set)),
            forall|i: int|
                0 <= i < r.named_symbolic_domains@.len() ==> (
                #[trigger] r.named_symbolic_domains@[i]).max_spec() == 2,
            r.terms@.len() == source.terms@.len(),
            forall|j: int|
                0 <= j < r.terms@.len() ==> {
                    &&& (#[trigger] r.terms@[j]).0 == source.terms@[j].0
                    &&& bdd_num_vars(r.terms@[j].1) == variable_count(r.bdd_variable_set)
                    &&& decides(
                        bdd_sat(r.terms@[j].1),
                        variable_count(r.bdd_variable_set),
                        blocks_of(r.named_symbolic_domains@),
                        tables_of(r.named_symbolic_domains@),
                        names_view(r.names@),
                        &source.terms@[j].1,
                    )
                },
    {
        let hardcoded_max_var_value: u8 = 2;
        let ghost all = names_view(source.input_vars_names@);
        let mut bdd_variable_set_builder = new_builder();
        let mut names: Vec<String> = Vec::new();
        let mut domains: Vec<UnaryIntegerDomain> = Vec::new();
        let mut i: usize = 0;
        while i < source.input_vars_names.len()
            invariant
                i <= source.input_vars_names@.len(),
                2 * source.input_vars_names@.len() < 65534,
                all == names_view(source.input_vars_names@),
                all.no_duplicates(),
                forall|a: int, k: int|
                    0 <= a < source.input_vars_names@.len() && 0 <= k
                        < source.input_vars_names@[a]@.len() ==> !refused_in_name(
                        #[trigger] source.input_vars_names@[a]@[k],
                    ),
                hardcoded_max_var_value == 2,
                names@.len() == i,
                domains@.len() == i,
                forall|a: int| 0 <= a < i ==> (#[trigger] names@[a])@ == all[a],
                forall|a: int|
                    0 <= a < i ==> {
                        &&& (#[trigger] domains@[a]).wf()
                        &&& domains@[a].max_spec() == 2
                        &&& positions(domains@[a].variables()) == consecutive(2 * a, 2)
                    },
                builder_names(bdd_variable_set_builder).len() == 2 * i,
                forall|q: int|
                    0 <= q < builder_names(bdd_variable_set_builder).len() ==> bit_of_earlier(
                        #[trigger] builder_names(bdd_variable_set_builder)[q],
                        all,
                        i as int,
                    ),
            decreases source.input_vars_names@.len() - i,
        {
            let name = source.input_vars_names[i].clone();
            let ghost taken = builder_names(bdd_variable_set_builder);
            proof {
                assert(name@ == all[i as int]);
                assert forall|k: nat| k < 2 implies !taken.contains(
                    #[trigger] bit_name(name@, k),
                ) by {
                    if taken.contains(bit_name(name@, k)) {
                        let q = choose|q: int|
                            0 <= q < taken.len() && taken[q] == bit_name(name@, k);
                        assert(bit_of_earlier(taken[q], all, i as int));
                        let (j, m) = choose|j: int, m: nat|
                            0 <= j < i && taken[q] == #[trigger] bit_name(all[j], m);
                        lemma_bit_name_injective(all[j], m, name@, k);
                    }
                }
                assert forall|k: int| 0 <= k < name@.len() implies !refused_in_name(
                    #[trigger] name@[k],
                ) by {
                    assert(!refused_in_name(source.input_vars_names@[i as int]@[k]));
                }
                assert(can_allocate(taken, name@, 2));
            }
            let var = UnaryIntegerDomain::new(
                &mut bdd_variable_set_builder,
                name.as_str(),
                hardcoded_max_var_value,
            );
            proof {
                let after = builder_names(bdd_variable_set_builder);
                assert forall|q: int| 0 <= q < after.len() implies bit_of_earlier(
                    #[trigger] after[q],
                    all,
                    i + 1,
                ) by {
                    if q < taken.len() {
                        assert(after[q] == taken[q]);
                        assert(bit_of_earlier(taken[q], all, i as int));
                        let (j, m) = choose|j: int, m: nat|
                            0 <= j < i && taken[q] == #[trigger] bit_name(all[j], m);
                        assert(0 <= j < i + 1 && after[q] == bit_name(all[j], m));
                    } else {
                        let m = (q - taken.len()) as nat;
                        assert(after[q] == bit_name(all[i as int], m));
                    }
                }
            }
            names.push(name);
            domains.push(var);
            i = i + 1;
        }
        let bdd_variable_set = bdd_variable_set_builder.build();
        let ghost n = variable_count(bdd_variable_set);
        proof {
            assert(names_view(names@) =~= all);
            assert forall|a: int| 0 <= a < domains@.len() implies (#[trigger] domains@[a]).wf()
                && fits(positions(domains@[a].variables()), n) by {
                assert(positions(domains@[a].variables()) == consecutive(2 * a, 2));
            }
        }
        let mut terms: Vec<(u16, Bdd)> = Vec::new();
        let mut j: usize = 0;
        while j < source.terms.len()
            invariant
                j <= source.terms@.len(),
                n == variable_count(bdd_variable_set),
                names@.len() == domains@.len(),
                names_view(names@) == all,
                all.no_duplicates(),
                domains_fit(domains@, n),
                forall|a: int| 0 <= a < domains@.len() ==> (#[trigger] domains@[a]).max_spec() == 2,
                forall|t: int, name: Seq<char>, v: int|
                    0 <= t < source.terms@.len() && #[trigger] source.terms@[t].1.compares_with(
                        name,
                        v,
                    ) ==> all.contains(name) && 0 <= v <= 2,
                terms@.len() == j,
                forall|t: int|
                    0 <= t < j ==> {
                        &&& (#[trigger] terms@[t]).0 == source.terms@[t].0
                        &&& bdd_num_vars(terms@[t].1) == n
                        &&& decides(
                            bdd_sat(terms@[t].1),
                            n,
                            blocks_of(domains@),
                            tables_of(domains@),
                            all,
                            &source.terms@[t].1,
                        )
                    },
            decreases source.terms@.len() - j,
        {
            proof {
                let e = &source.terms@[j as int].1;
                assert forall|name: Seq<char>, v: int| #[trigger]
                    e.compares_with(name, v) implies all.contains(name) && 0 <= v < tables_of(
                    domains@,
                )[all.index_of(name)].len() by {
                    assert(source.terms@[j as int].1.compares_with(name, v));
                    let k = all.index_of(name);
                    assert(0 <= k < all.len() && all[k] == name);
                    crate::variable_update_fn::lemma_tables(domains@, n, k);
                }
            }
            let bdd = bdd_from_expression(&source.terms[j].1, &names, &domains, &bdd_variable_set);
            let ghost listed = terms@;
            terms.push((source.terms[j].0, bdd));
            proof {
                assert forall|t: int| 0 <= t < j + 1 implies {
                    &&& (#[trigger] terms@[t]).0 == source.terms@[t].0
                    &&& bdd_num_vars(terms@[t].1) == n
                    &&& decides(
                        bdd_sat(terms@[t].1),
                        n,
                        blocks_of(domains@),
                        tables_of(domains@),
                        all,
                        &source.terms@[t].1,
                    )
                } by {
                    if t < j {
                        assert(terms@[t] == listed[t]);
                    }
                }
            }
            j = j + 1;
        }
        Self { terms, names, named_symbolic_domains: domains, bdd_variable_set }
    }
}

/// The diagram of the values of a unary domain that are less than a
/// bound.
pub fn lt(
    symbolic_domain: &UnaryIntegerDomain,
    bdd_variable_set: &BddVariableSet,
    lower_than_this: u16,
) -> (r: Bdd)
    requires
        symbolic_domain.wf(),
        fits(positions(symbolic_domain.variables()), variable_count(*bdd_variable_set)),
    ensures
        bdd_num_vars(r) == variable_count(*bdd_variable_set),
        bdd_sat(r) == range_set(
            variable_count(*bdd_variable_set),
            positions(symbolic_domain.variables()),
            UnaryIntegerDomain::table(symbolic_domain.max_spec()),
            0,
            lower_than_this as int,
        ),
{
    symbolic_domain.encode_range(bdd_variable_set, 0, lower_than_this as usize)
}

/// The diagram of the values of a unary domain up to a bound.
pub fn leq(
    symbolic_domain: &UnaryIntegerDomain,
    bdd_variable_set: &BddVariableSet,
    lower_or_same_as_this: u16,
) -> (r: Bdd)
    requires
        symbolic_domain.wf(),
        fits(positions(symbolic_domain.variables()), variable_count(*bdd_variable_set)),
    ensures
        bdd_num_vars(r) == variable_count(*bdd_variable_set),
        bdd_sat(r) == range_set(
            variable_count(*bdd_variable_set),
            positions(symbolic_domain.variables()),
            UnaryIntegerDomain::table(symbolic_domain.max_spec()),
            0,
            lower_or_same_as_this + 1,
        ),
{
    symbolic_domain.encode_range(bdd_variable_set, 0, lower_or_same_as_this as usize + 1)
}

/// The list with which the description of a transition begins.
#[derive(Debug, Clone, Copy, PartialEq, Eq, Structural)]
pub enum FirstList {
    /// The list of inputs, which the list of outputs must follow.
    Inputs,
    /// The list of outputs: the transition has no list of inputs.
    Outputs,
}

/// Which list the description of a transition begins with, by the name of
/// its first element. Any other element is refused.
pub fn first_list(local_name: &str) -> (r: Option<FirstList>)
    ensures
        r == if local_name@ == "listOfInputs"@ {
            Some(FirstList::Inputs)
        } else if local_name@ == "listOfOutputs"@ {
            Some(FirstList::Outputs)
        } else {
            None
        },
{
    if same_name(local_name, "listOfInputs") {
        Some(FirstList::Inputs)
    } else if same_name(local_name, "listOfOutputs") {
        Some(FirstList::Outputs)
    } else {
        None
    }
}

/// Attribute `i` is the first that is called `qualitativeSpecies`.
pub open spec fn first_species(attributes: Seq<(String, String)>, i: int) -> bool {
    &&& 0 <= i < attributes.len()
    &&& attributes[i].0@ == "qualitativeSpecies"@
    &&& forall|k: int| 0 <= k < i ==> (#[trigger] attributes[k]).0@ != "qualitativeSpecies"@
}

/// The variable that an input of a transition names: the value of its
/// first attribute called `qualitativeSpecies`, if it has one. The
/// attributes are given as pairs of a name and a value.
pub fn qualitative_species(attributes: &Vec<(String, String)>) -> (r: Option<String>)
    ensures
        match r {
            Some(name) => exists|i: int|
                first_species(attributes@, i) && name@ == (#[trigger] attributes@[i]).1@,
            None => forall|i: int|
                0 <= i < attributes@.len() ==> (#[trigger] attributes@[i]).0@
                    != "qualitativeSpecies"@,
        },
{
    let mut i: usize = 0;
    while i < attributes.len()
        invariant
            i <= attributes@.len(),
            forall|k: int| 0 <= k < i ==> (#[trigger] attributes@[k]).0@ != "qualitativeSpecies"@,
        decreases attributes@.len() - i,
    {
        if same_name(attributes[i].0.as_str(), "qualitativeSpecies") {
            let name = attributes[i].1.clone();
            proof {
                assert(first_species(attributes@, i as int) && name@ == attributes@[i as int].1@);
            }
            return Some(name);
        }
        i = i + 1;
    }
    None
}

} // verus!
