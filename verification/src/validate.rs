//! Whether a system can be built of a network.

use crate::bdd::refused_in_name;
use crate::expression::Expression;
use crate::names::same_name;
use crate::order::{sort_by_name, sorted_model};
use crate::eager::{plain_name, plain_network_ok, plain_offset, SystemUpdateFn};
use crate::relation::{clean_name, offset};
use crate::symbolic_domain::{SymbolicDomain, SymbolicDomainOrd};
use crate::system::{closed_network, network_ok, SmartSystemUpdateFn};
use crate::unprocessed::{find_max_values, is_max_value, names_of, UnprocessedVariableUpdateFn};
use vstd::prelude::*;
use vstd::string::StrSliceExecFns;

verus! {

/// Why no system can be built of a network.
#[derive(Debug, Clone, Copy, PartialEq, Eq, Structural)]
pub enum ModelMalformed {
    /// A name holds a character that a variable set refuses or, where the
    /// system has primed twins, a tick, which marks the twin of a variable.
    ReservedCharacter,
    /// Two variables share a name.
    DuplicateVariable,
    /// A guard speaks of a variable that the network does not have.
    UnknownVariable,
    /// The bits of all variables and their primed twins are 65534 or more.
    TooManyBits,
}

/// Every name of the network is clean.
pub open spec fn clean_names(model: Seq<(String, UnprocessedVariableUpdateFn)>) -> bool {
    forall|i: int| 0 <= i < model.len() ==> clean_name(#[trigger] names_of(model)[i])
}

/// The bits of all variables and their primed twins, at the largest values
/// that the network mentions, are fewer than 65534.
pub open spec fn fits_variable_set<D: SymbolicDomain>(
    model: Seq<(String, UnprocessedVariableUpdateFn)>,
) -> bool {
    forall|maxes: Seq<u8>|
        maxes.len() == model.len() && (forall|i: int|
            0 <= i < model.len() ==> is_max_value(model, i, #[trigger] maxes[i] as int))
            ==> #[trigger] offset::<D>(maxes, model.len() as int) < 65534
}

/// What is wrong with a network, if anything: the first of the four
/// faults, in the order of their declaration, that the network has.
pub open spec fn fault_of<D: SymbolicDomain>(
    model: Seq<(String, UnprocessedVariableUpdateFn)>,
) -> Option<ModelMalformed> {
    if !clean_names(model) {
        Some(ModelMalformed::ReservedCharacter)
    } else if !names_of(model).no_duplicates() {
        Some(ModelMalformed::DuplicateVariable)
    } else if !closed_network(model) {
        Some(ModelMalformed::UnknownVariable)
    } else if !fits_variable_set::<D>(model) {
        Some(ModelMalformed::TooManyBits)
    } else {
        None
    }
}

/// A network without a fault is one of which a system can be built.
pub proof fn lemma_no_fault<D: SymbolicDomain>(model: Seq<(String, UnprocessedVariableUpdateFn)>)
    ensures
        fault_of::<D>(model) is None <==> network_ok::<D>(model),
{
}

/// Whether a name is clean: without a tick and without a character that a
/// variable set refuses.
pub fn is_clean_name(name: &str) -> (r: bool)
    ensures
        r == clean_name(name@),
{
    let length = name.unicode_len();
    let mut k: usize = 0;
    while k < length
        invariant
            k <= length,
            length == name@.len(),
            forall|j: int|
                0 <= j < k ==> !refused_in_name(#[trigger] name@[j]) && name@[j] != '\'',
        decreases length - k,
    {
        let c = name.get_char(k);
        if c == '\'' || c == '!' || c == '&' || c == '|' || c == '^' || c == '=' || c == '<' || c
            == '>' || c == '(' || c == ')' || c == '?' || c == ':' {
            assert(refused_in_name(name@[k as int]) || name@[k as int] == '\'');
            return false;
        }
        k = k + 1;
    }
    true
}

/// Whether no two variables of the network share a name.
pub fn has_distinct_names(model: &Vec<(String, UnprocessedVariableUpdateFn)>) -> (r: bool)
    ensures
        r == names_of(model@).no_duplicates(),
{
    let ghost names = names_of(model@);
    let mut i: usize = 0;
    while i < model.len()
        invariant
            i <= model@.len(),
            names == names_of(model@),
            forall|a: int, b: int| 0 <= a < i && 0 <= b < a ==> names[a] != names[b],
        decreases model@.len() - i,
    {
        let mut j: usize = 0;
        while j < i
            invariant
                j <= i,
                i < model@.len(),
                names == names_of(model@),
                forall|b: int| 0 <= b < j ==> names[i as int] != names[b],
            decreases i - j,
        {
            if same_name(model[i].0.as_str(), model[j].0.as_str()) {
                assert(names[i as int] == names[j as int]);
                return false;
            }
            j = j + 1;
        }
        i = i + 1;
    }
    proof {
        assert forall|a: int, b: int|
            0 <= a < names.len() && 0 <= b < names.len() && a != b implies names[a]
            != names[b] by {
            if a < b {
                assert(names[b] != names[a]);
            }
        }
    }
    true
}

/// Whether the network has a variable of the given name.
pub fn has_name(model: &Vec<(String, UnprocessedVariableUpdateFn)>, name: &str) -> (r: bool)
    ensures
        r == names_of(model@).contains(name@),
{
    let ghost names = names_of(model@);
    let mut i: usize = 0;
    while i < model.len()
        invariant
            i <= model@.len(),
            names == names_of(model@),
            forall|k: int| 0 <= k < i ==> names[k] != name@,
        decreases model@.len() - i,
    {
        if same_name(model[i].0.as_str(), name) {
            assert(names[i as int] == name@);
            return true;
        }
        i = i + 1;
    }
    false
}

/// The expression speaks of variables of `names` only.
pub open spec fn speaks_within(e: &Expression, names: Seq<Seq<char>>) -> bool {
    forall|name: Seq<char>, v: int| #[trigger] e.compares_with(name, v) ==> names.contains(name)
}

/// Whether an expression speaks of variables of the network only.
pub fn is_closed_expression(
    expression: &Expression,
    model: &Vec<(String, UnprocessedVariableUpdateFn)>,
) -> (r: bool)
    ensures
        r == speaks_within(expression, names_of(model@)),
    decreases expression,
{
    let ghost names = names_of(model@);
    match expression {
        Expression::Terminal(proposition) => {
            let found = has_name(model, proposition.variable.as_str());
            proof {
                assert(expression.compares_with(proposition.variable@, proposition.value as int));
            }
            found
        },
        Expression::Not(inner) => {
            let closed = is_closed_expression(inner, model);
            proof {
                assert(forall|name: Seq<char>, v: int|
                    expression.compares_with(name, v) <==> inner.compares_with(name, v));
            }
            closed
        },
        Expression::And(clauses) => {
            let closed = are_closed_expressions(clauses, model);
            proof {
                lemma_clauses_within(expression, clauses@, names);
            }
            closed
        },
        Expression::Or(clauses) => {
            let closed = are_closed_expressions(clauses, model);
            proof {
                lemma_clauses_within(expression, clauses@, names);
            }
            closed
        },
        Expression::Xor(lhs, rhs) => {
            let left = is_closed_expression(lhs, model);
            let right = is_closed_expression(rhs, model);
            proof {
                assert(forall|name: Seq<char>, v: int|
                    expression.compares_with(name, v) <==> lhs.compares_with(name, v)
                        || rhs.compares_with(name, v));
            }
            left && right
        },
        Expression::Implies(lhs, rhs) => {
            let left = is_closed_expression(lhs, model);
            let right = is_closed_expression(rhs, model);
            proof {
                assert(forall|name: Seq<char>, v: int|
                    expression.compares_with(name, v) <==> lhs.compares_with(name, v)
                        || rhs.compares_with(name, v));
            }
            left && right
        },
    }
}

/// A conjunction or disjunction speaks of what its clauses speak of.
pub proof fn lemma_clauses_within(e: &Expression, clauses: Seq<Expression>, names: Seq<Seq<char>>)
    requires
        forall|name: Seq<char>, v: int|
            e.compares_with(name, v) <==> exists|i: int|
                0 <= i < clauses.len() && (#[trigger] clauses[i]).compares_with(name, v),
    ensures
        speaks_within(e, names) <==> forall|i: int|
            0 <= i < clauses.len() ==> speaks_within(#[trigger] &clauses[i], names),
{
    if speaks_within(e, names) {
        assert forall|i: int| 0 <= i < clauses.len() implies speaks_within(
            #[trigger] &clauses[i],
            names,
        ) by {
            assert forall|name: Seq<char>, v: int| #[trigger]
                clauses[i].compares_with(name, v) implies names.contains(name) by {
                assert(e.compares_with(name, v));
            }
        }
    }
    if forall|i: int| 0 <= i < clauses.len() ==> speaks_within(#[trigger] &clauses[i], names) {
        assert forall|name: Seq<char>, v: int| #[trigger]
            e.compares_with(name, v) implies names.contains(name) by {
            let i = choose|i: int|
                0 <= i < clauses.len() && (#[trigger] clauses[i]).compares_with(name, v);
            assert(speaks_within(&clauses[i], names));
        }
    }
}

/// Whether every expression of a list speaks of variables of the network
/// only.
pub fn are_closed_expressions(
    clauses: &Vec<Expression>,
    model: &Vec<(String, UnprocessedVariableUpdateFn)>,
) -> (r: bool)
    ensures
        r == forall|i: int|
            0 <= i < clauses@.len() ==> speaks_within(#[trigger] &clauses@[i], names_of(model@)),
    decreases clauses,
{
    let mut k: usize = 0;
    while k < clauses.len()
        invariant
            k <= clauses@.len(),
            forall|i: int|
                0 <= i < k ==> speaks_within(#[trigger] &clauses@[i], names_of(model@)),
        decreases clauses@.len() - k,
    {
        if !is_closed_expression(&clauses[k], model) {
            return false;
        }
        k = k + 1;
    }
    true
}

/// Whether every guard of the network speaks of variables of the network
/// only.
pub fn is_closed_network(model: &Vec<(String, UnprocessedVariableUpdateFn)>) -> (r: bool)
    ensures
        r == closed_network(model@),
{
    let ghost names = names_of(model@);
    let mut i: usize = 0;
    while i < model.len()
        invariant
            i <= model@.len(),
            names == names_of(model@),
            forall|a: int, j: int|
                0 <= a < i && 0 <= j < model@[a].1.terms@.len() ==> speaks_within(
                    &(#[trigger] model@[a].1.terms@[j]).1,
                    names,
                ),
        decreases model@.len() - i,
    {
        let terms = &model[i].1.terms;
        let mut j: usize = 0;
        while j < terms.len()
            invariant
                j <= terms@.len(),
                i < model@.len(),
                terms == &model@[i as int].1.terms,
                names == names_of(model@),
                forall|b: int| 0 <= b < j ==> speaks_within(&(#[trigger] terms@[b]).1, names),
            decreases terms@.len() - j,
        {
            if !is_closed_expression(&terms[j].1, model) {
                proof {
                    let (name, v) = choose|name: Seq<char>, v: int| #[trigger]
                        terms@[j as int].1.compares_with(name, v) && !names.contains(name);
                    assert(model@[i as int].1.terms@[j as int].1.compares_with(name, v));
                }
                return false;
            }
            j = j + 1;
        }
        i = i + 1;
    }
    proof {
        assert forall|a: int, j: int, name: Seq<char>, v: int|
            0 <= a < model@.len() && 0 <= j < model@[a].1.terms@.len()
                && #[trigger] model@[a].1.terms@[j].1.compares_with(
                name,
                v,
            ) implies names.contains(name) by {
            assert(speaks_within(&model@[a].1.terms@[j].1, names));
        }
    }
    true
}

/// The largest values that a network mentions are what they are: the
/// network fits exactly if its bits at those values are few enough.
pub proof fn lemma_fits_by_maxes<D: SymbolicDomain>(
    model: Seq<(String, UnprocessedVariableUpdateFn)>,
    maxes: Seq<u8>,
)
    requires
        maxes.len() == model.len(),
        forall|i: int| 0 <= i < model.len() ==> is_max_value(model, i, #[trigger] maxes[i] as int),
    ensures
        fits_variable_set::<D>(model) <==> offset::<D>(maxes, model.len() as int) < 65534,
{
    if offset::<D>(maxes, model.len() as int) < 65534 {
        assert forall|other: Seq<u8>|
            other.len() == model.len() && (forall|i: int|
                0 <= i < model.len() ==> is_max_value(
                    model,
                    i,
                    #[trigger] other[i] as int,
                )) implies #[trigger] offset::<D>(other, model.len() as int) < 65534 by {
            assert forall|i: int| 0 <= i < model.len() implies other[i] == maxes[i] by {
                assert(is_max_value(model, i, other[i] as int));
                assert(is_max_value(model, i, maxes[i] as int));
            }
            assert(other =~= maxes);
        }
    }
}

/// Whether the bits of all variables and their primed twins, at the
/// largest values that the network mentions, are fewer than 65534.
pub fn fits_in_variable_set<D: SymbolicDomainOrd>(
    model: &Vec<(String, UnprocessedVariableUpdateFn)>,
) -> (r: bool)
    ensures
        r == fits_variable_set::<D>(model@),
{
    let max_values = find_max_values(model);
    let ghost maxes = max_values@;
    proof {
        lemma_fits_by_maxes::<D>(model@, maxes);
    }
    let mut total: usize = 0;
    let mut i: usize = 0;
    while i < max_values.len()
        invariant
            i <= max_values@.len(),
            maxes == max_values@,
            maxes.len() == model@.len(),
            fits_variable_set::<D>(model@) <==> offset::<D>(maxes, model@.len() as int) < 65534,
            total == offset::<D>(maxes, i as int),
            total < 65534,
        decreases max_values@.len() - i,
    {
        let width = D::size_for(max_values[i]);
        assert(offset::<D>(maxes, i + 1) == offset::<D>(maxes, i as int) + 2 * D::width(
            maxes[i as int] as nat,
        ));
        if total + 2 * width >= 65534 {
            proof {
                crate::relation::lemma_offset_rises::<D>(maxes, i + 1, maxes.len() as int);
                assert(offset::<D>(maxes, model@.len() as int) >= 65534);
            }
            return false;
        }
        total = total + 2 * width;
        i = i + 1;
    }
    true
}

/// What is wrong with a network that is in the order of its names, if
/// anything.
pub fn check_network<D: SymbolicDomainOrd>(
    model: &Vec<(String, UnprocessedVariableUpdateFn)>,
) -> (r: Result<(), ModelMalformed>)
    ensures
        r is Ok <==> network_ok::<D>(model@),
        r matches Err(fault) ==> fault_of::<D>(model@) == Some(fault),
{
    let ghost names = names_of(model@);
    let mut i: usize = 0;
    while i < model.len()
        invariant
            i <= model@.len(),
            names == names_of(model@),
            forall|k: int| 0 <= k < i ==> clean_name(#[trigger] names[k]),
        decreases model@.len() - i,
    {
        if !is_clean_name(model[i].0.as_str()) {
            assert(!clean_name(names[i as int]));
            return Err(ModelMalformed::ReservedCharacter);
        }
        i = i + 1;
    }
    if !has_distinct_names(model) {
        return Err(ModelMalformed::DuplicateVariable);
    }
    if !is_closed_network(model) {
        return Err(ModelMalformed::UnknownVariable);
    }
    if !fits_in_variable_set::<D>(model) {
        return Err(ModelMalformed::TooManyBits);
    }
    Ok(())
}

impl<D: SymbolicDomainOrd> SmartSystemUpdateFn<D> {
    /// The system of a network, or what is wrong with the network. The
    /// variables are taken in the order of their names.
    pub fn try_from_update_fns(
        vars_and_their_update_fns: Vec<(String, UnprocessedVariableUpdateFn)>,
    ) -> (r: Result<Self, ModelMalformed>)
        ensures
            r is Ok <==> network_ok::<D>(sorted_model(vars_and_their_update_fns@)),
            r matches Ok(system) ==> system.wf() && system.model() == sorted_model(
                vars_and_their_update_fns@,
            ),
            r matches Err(fault) ==> fault_of::<D>(sorted_model(vars_and_their_update_fns@))
                == Some(fault),
    {
        let named_update_fns_sorted = sort_by_name(vars_and_their_update_fns);
        match check_network::<D>(&named_update_fns_sorted) {
            Ok(()) => Ok(Self::from_sorted(named_update_fns_sorted)),
            Err(fault) => Err(fault),
        }
    }
}

/// Every name of the network is without a character that a variable set
/// refuses.
pub open spec fn plain_names(model: Seq<(String, UnprocessedVariableUpdateFn)>) -> bool {
    forall|i: int| 0 <= i < model.len() ==> plain_name(#[trigger] names_of(model)[i])
}

/// The bits of all variables, at the largest values that the network
/// mentions, are fewer than 65534.
pub open spec fn fits_plain_variable_set<D: SymbolicDomain>(
    model: Seq<(String, UnprocessedVariableUpdateFn)>,
) -> bool {
    forall|maxes: Seq<u8>|
        maxes.len() == model.len() && (forall|i: int|
            0 <= i < model.len() ==> is_max_value(model, i, #[trigger] maxes[i] as int))
            ==> #[trigger] plain_offset::<D>(maxes, model.len() as int) < 65534
}

/// What is wrong with a network of which a system without primed variables
/// is to be built, if anything: the first of the four faults, in the order
/// of their declaration, that the network has. A tick in a name is no
/// fault here.
pub open spec fn plain_fault_of<D: SymbolicDomain>(
    model: Seq<(String, UnprocessedVariableUpdateFn)>,
) -> Option<ModelMalformed> {
    if !plain_names(model) {
        Some(ModelMalformed::ReservedCharacter)
    } else if !names_of(model).no_duplicates() {
        Some(ModelMalformed::DuplicateVariable)
    } else if !closed_network(model) {
        Some(ModelMalformed::UnknownVariable)
    } else if !fits_plain_variable_set::<D>(model) {
        Some(ModelMalformed::TooManyBits)
    } else {
        None
    }
}

/// Whether a name is without a character that a variable set refuses.
pub fn is_plain_name(name: &str) -> (r: bool)
    ensures
        r == plain_name(name@),
{
    let length = name.unicode_len();
    let mut k: usize = 0;
    while k < length
        invariant
            k <= length,
            length == name@.len(),
            forall|j: int| 0 <= j < k ==> !refused_in_name(#[trigger] name@[j]),
        decreases length - k,
    {
        let c = name.get_char(k);
        if c == '!' || c == '&' || c == '|' || c == '^' || c == '=' || c == '<' || c == '>' || c
            == '(' || c == ')' || c == '?' || c == ':' {
            assert(refused_in_name(name@[k as int]));
            return false;
        }
        k = k + 1;
    }
    true
}

/// The largest values that a network mentions are what they are: the
/// network fits exactly if its bits at those values are few enough.
pub proof fn lemma_plain_fits_by_maxes<D: SymbolicDomain>(
    model: Seq<(String, UnprocessedVariableUpdateFn)>,
    maxes: Seq<u8>,
)
    requires
        maxes.len() == model.len(),
        forall|i: int| 0 <= i < model.len() ==> is_max_value(model, i, #[trigger] maxes[i] as int),
    ensures
        fits_plain_variable_set::<D>(model) <==> plain_offset::<D>(maxes, model.len() as int)
            < 65534,
{
    if plain_offset::<D>(maxes, model.len() as int) < 65534 {
        assert forall|other: Seq<u8>|
            other.len() == model.len() && (forall|i: int|
                0 <= i < model.len() ==> is_max_value(
                    model,
                    i,
                    #[trigger] other[i] as int,
                )) implies #[trigger] plain_offset::<D>(other, model.len() as int) < 65534 by {
            assert forall|i: int| 0 <= i < model.len() implies other[i] == maxes[i] by {
                assert(is_max_value(model, i, other[i] as int));
                assert(is_max_value(model, i, maxes[i] as int));
            }
            assert(other =~= maxes);
        }
    }
}

/// Whether the bits of all variables, at the largest values that the
/// network mentions, are fewer than 65534.
pub fn fits_in_plain_variable_set<D: SymbolicDomainOrd>(
    model: &Vec<(String, UnprocessedVariableUpdateFn)>,
) -> (r: bool)
    ensures
        r == fits_plain_variable_set::<D>(model@),
{
    let max_values = find_max_values(model);
    let ghost maxes = max_values@;
    proof {
        lemma_plain_fits_by_maxes::<D>(model@, maxes);
    }
    let mut total: usize = 0;
    let mut i: usize = 0;
    while i < max_values.len()
        invariant
            i <= max_values@.len(),
            maxes == max_values@,
            maxes.len() == model@.len(),
            fits_plain_variable_set::<D>(model@) <==> plain_offset::<D>(
                maxes,
                model@.len() as int,
            ) < 65534,
            total == plain_offset::<D>(maxes, i as int),
            total < 65534,
        decreases max_values@.len() - i,
    {
        let width = D::size_for(max_values[i]);
        assert(plain_offset::<D>(maxes, i + 1) == plain_offset::<D>(maxes, i as int) + D::width(
            maxes[i as int] as nat,
        ));
        if total + width >= 65534 {
            proof {
                crate::eager::lemma_plain_offset_rises::<D>(maxes, i + 1, maxes.len() as int);
            }
            return false;
        }
        total = total + width;
        i = i + 1;
    }
    true
}

/// What is wrong with a network that is in the order of its names and of
/// which a system without primed variables is to be built, if anything.
pub fn check_plain_network<D: SymbolicDomainOrd>(
    model: &Vec<(String, UnprocessedVariableUpdateFn)>,
) -> (r: Result<(), ModelMalformed>)
    ensures
        r is Ok <==> plain_network_ok::<D>(model@),
        r matches Err(fault) ==> plain_fault_of::<D>(model@) == Some(fault),
{
    let ghost names = names_of(model@);
    let mut i: usize = 0;
    while i < model.len()
        invariant
            i <= model@.len(),
            names == names_of(model@),
            forall|k: int| 0 <= k < i ==> plain_name(#[trigger] names[k]),
        decreases model@.len() - i,
    {
        if !is_plain_name(model[i].0.as_str()) {
            assert(!plain_name(names[i as int]));
            return Err(ModelMalformed::ReservedCharacter);
        }
        i = i + 1;
    }
    if !has_distinct_names(model) {
        return Err(ModelMalformed::DuplicateVariable);
    }
    if !is_closed_network(model) {
        return Err(ModelMalformed::UnknownVariable);
    }
    if !fits_in_plain_variable_set::<D>(model) {
        return Err(ModelMalformed::TooManyBits);
    }
    Ok(())
}

impl<D: SymbolicDomainOrd> SystemUpdateFn<D> {
    /// The system of a network, or what is wrong with the network. The
    /// variables are taken in the order of their names.
    pub fn try_from_update_fns(
        vars_and_their_update_fns: Vec<(String, UnprocessedVariableUpdateFn)>,
    ) -> (r: Result<Self, ModelMalformed>)
        ensures
            r is Ok <==> plain_network_ok::<D>(sorted_model(vars_and_their_update_fns@)),
            r matches Ok(system) ==> system.wf() && system.model() == sorted_model(
                vars_and_their_update_fns@,
            ),
            r matches Err(fault) ==> plain_fault_of::<D>(sorted_model(vars_and_their_update_fns@))
                == Some(fault),
    {
        let named_update_fns_sorted = sort_by_name(vars_and_their_update_fns);
        match check_plain_network::<D>(&named_update_fns_sorted) {
            Ok(()) => Ok(Self::from_sorted(named_update_fns_sorted)),
            Err(fault) => Err(fault),
        }
    }
}

} // verus!
