//! The decision-diagram primitives that the rest of the crate builds on.
//!
//! The diagrams come from `biodivine_lib_bdd`. What this module says of
//! them is not proved: each item states what the corresponding function of
//! that crate does, over the set of valuations that a diagram denotes.

use biodivine_lib_bdd::{Bdd, BddPartialValuation, BddVariable, BddVariableSet, BddVariableSetBuilder};
use num_bigint::BigInt;
use vstd::prelude::*;

verus! {

#[verifier::external_type_specification]
#[verifier::external_body]
pub struct ExBdd(Bdd);

#[verifier::external_type_specification]
#[verifier::external_body]
pub struct ExBddVariable(BddVariable);

#[verifier::external_type_specification]
#[verifier::external_body]
pub struct ExBddVariableSet(BddVariableSet);

#[verifier::external_type_specification]
#[verifier::external_body]
pub struct ExBddVariableSetBuilder(BddVariableSetBuilder);

#[verifier::external_type_specification]
#[verifier::external_body]
pub struct ExBddPartialValuation(BddPartialValuation);

#[verifier::external_type_specification]
#[verifier::external_body]
pub struct ExBigInt(BigInt);

/// The valuations on which a diagram evaluates to true. Each is a sequence
/// of `bdd_num_vars` Booleans, indexed by variable.
pub uninterp spec fn bdd_sat(b: Bdd) -> Set<Seq<bool>>;

/// The number of variables of the variable set that a diagram was made for.
pub uninterp spec fn bdd_num_vars(b: Bdd) -> nat;

/// The position of a variable in its variable set.
pub uninterp spec fn var_index(v: BddVariable) -> int;

/// The number of variables of a variable set.
pub uninterp spec fn variable_count(vs: BddVariableSet) -> nat;

/// The names given to a builder so far, in the order of their creation.
pub uninterp spec fn builder_names(b: BddVariableSetBuilder) -> Seq<Seq<char>>;

/// The variables that a partial valuation fixes, with their values.
pub uninterp spec fn assignment(p: BddPartialValuation) -> Map<int, bool>;

/// The text that `Bdd::to_dot_string` makes of a diagram: its nodes in
/// their order, each under the name that the variable set gives to its
/// variable, with the edges to the zero node left out where `zero_pruned`
/// is set.
pub uninterp spec fn dot_drawing(b: Bdd, variables: BddVariableSet, zero_pruned: bool) -> Seq<char>;

/// The integer that a big integer holds.
pub uninterp spec fn bigint_value(x: BigInt) -> int;

/// All valuations of `n` variables.
pub open spec fn valuations(n: nat) -> Set<Seq<bool>> {
    Set::new(|v: Seq<bool>| v.len() == n)
}

/// The valuations of `n` variables that give variable `k` the value `value`.
pub open spec fn literal_set(n: nat, k: int, value: bool) -> Set<Seq<bool>> {
    Set::new(|v: Seq<bool>| v.len() == n && 0 <= k < n && v[k] == value)
}

/// The valuations of `n` variables that agree with every entry of `fixed`.
pub open spec fn clause_set(n: nat, fixed: Map<int, bool>) -> Set<Seq<bool>> {
    Set::new(
        |v: Seq<bool>|
            v.len() == n && forall|k: int|
                0 <= k < n && #[trigger] fixed.dom().contains(k) ==> v[k] == fixed[k],
    )
}

/// The assignment that fixes no variable.
pub open spec fn unassigned() -> Map<int, bool> {
    Map::empty()
}

/// The assignment that a list of variables with values makes: each
/// variable is given its value, one after the other, so that of two
/// entries of one variable the later counts.
pub open spec fn fixed(pairs: Seq<(BddVariable, bool)>) -> Map<int, bool>
    decreases pairs.len(),
{
    if pairs.len() == 0 {
        Map::empty()
    } else {
        fixed(pairs.drop_last()).insert(var_index(pairs.last().0), pairs.last().1)
    }
}

/// The valuations of `n` variables that agree with every entry of one of
/// the clauses.
pub open spec fn dnf_set(n: nat, clauses: Seq<BddPartialValuation>) -> Set<Seq<bool>> {
    Set::new(
        |v: Seq<bool>|
            exists|i: int|
                0 <= i < clauses.len() && clause_set(n, assignment(#[trigger] clauses[i])).contains(
                    v,
                ),
    )
}

/// The positions of a list of variables.
pub open spec fn indices(vars: Seq<BddVariable>) -> Set<int> {
    Set::new(|k: int| exists|i: int| 0 <= i < vars.len() && #[trigger] var_index(vars[i]) == k)
}

/// Two valuations of the same length that differ at most on `hidden`.
pub open spec fn same_outside(v: Seq<bool>, w: Seq<bool>, hidden: Set<int>) -> bool {
    v.len() == w.len() && forall|k: int|
        0 <= k < v.len() && !hidden.contains(k) ==> #[trigger] v[k] == w[k]
}

/// Existential projection: the valuations that some member of `s` matches
/// outside `hidden`.
pub open spec fn projection(s: Set<Seq<bool>>, hidden: Set<int>) -> Set<Seq<bool>> {
    Set::new(|v: Seq<bool>| exists|w: Seq<bool>| #[trigger] s.contains(w) && same_outside(v, w, hidden))
}

/// Two to the power `k`.
pub open spec fn pow2(k: nat) -> nat
    decreases k,
{
    if k == 0 {
        1
    } else {
        2 * pow2((k - 1) as nat)
    }
}

/// A character that `BddVariableSetBuilder::make_variable` refuses in a name.
pub open spec fn refused_in_name(c: char) -> bool {
    c == '!' || c == '&' || c == '|' || c == '^' || c == '=' || c == '<' || c == '>' || c == '('
        || c == ')' || c == '?' || c == ':'
}

/// `Bdd::num_vars`: the number of variables, together with the fact that
/// only valuations of that length count as satisfying.
pub assume_specification[ Bdd::num_vars ](this: &Bdd) -> (n: u16)
    ensures
        n == bdd_num_vars(*this),
        bdd_sat(*this).subset_of(valuations(n as nat)),
;

/// `Bdd::clone`: the copy denotes the same set.
pub assume_specification[ <Bdd as Clone>::clone ](this: &Bdd) -> (r: Bdd)
    ensures
        bdd_num_vars(r) == bdd_num_vars(*this),
        bdd_sat(r) == bdd_sat(*this),
;

/// `Bdd::not`: negation, the complement among the valuations of that length.
pub assume_specification[ Bdd::not ](this: &Bdd) -> (r: Bdd)
    ensures
        bdd_num_vars(r) == bdd_num_vars(*this),
        bdd_sat(r) == valuations(bdd_num_vars(*this)).difference(bdd_sat(*this)),
;

/// `Bdd::and`: conjunction, the intersection. The crate panics on diagrams
/// of different variable counts.
pub assume_specification[ Bdd::and ](this: &Bdd, right: &Bdd) -> (r: Bdd)
    requires
        bdd_num_vars(*this) == bdd_num_vars(*right),
    ensures
        bdd_num_vars(r) == bdd_num_vars(*this),
        bdd_sat(r) == bdd_sat(*this).intersect(bdd_sat(*right)),
;

/// `Bdd::or`: disjunction, the union.
pub assume_specification[ Bdd::or ](this: &Bdd, right: &Bdd) -> (r: Bdd)
    requires
        bdd_num_vars(*this) == bdd_num_vars(*right),
    ensures
        bdd_num_vars(r) == bdd_num_vars(*this),
        bdd_sat(r) == bdd_sat(*this).union(bdd_sat(*right)),
;

/// `Bdd::and_not`: the left set without the right one.
pub assume_specification[ Bdd::and_not ](this: &Bdd, right: &Bdd) -> (r: Bdd)
    requires
        bdd_num_vars(*this) == bdd_num_vars(*right),
    ensures
        bdd_num_vars(r) == bdd_num_vars(*this),
        bdd_sat(r) == bdd_sat(*this).difference(bdd_sat(*right)),
;

/// `Bdd::imp`: implication, valuation by valuation.
pub assume_specification[ Bdd::imp ](this: &Bdd, right: &Bdd) -> (r: Bdd)
    requires
        bdd_num_vars(*this) == bdd_num_vars(*right),
    ensures
        bdd_num_vars(r) == bdd_num_vars(*this),
        bdd_sat(r) == Set::new(
            |v: Seq<bool>|
                v.len() == bdd_num_vars(*this) && (bdd_sat(*this).contains(v) ==> bdd_sat(
                    *right,
                ).contains(v)),
        ),
;

/// `Bdd::iff`: equivalence, valuation by valuation.
pub assume_specification[ Bdd::iff ](this: &Bdd, right: &Bdd) -> (r: Bdd)
    requires
        bdd_num_vars(*this) == bdd_num_vars(*right),
    ensures
        bdd_num_vars(r) == bdd_num_vars(*this),
        bdd_sat(r) == Set::new(
            |v: Seq<bool>|
                v.len() == bdd_num_vars(*this) && (bdd_sat(*this).contains(v) <==> bdd_sat(
                    *right,
                ).contains(v)),
        ),
;

/// `Bdd::xor`: exclusive or, valuation by valuation.
pub assume_specification[ Bdd::xor ](this: &Bdd, right: &Bdd) -> (r: Bdd)
    requires
        bdd_num_vars(*this) == bdd_num_vars(*right),
    ensures
        bdd_num_vars(r) == bdd_num_vars(*this),
        bdd_sat(r) == Set::new(
            |v: Seq<bool>|
                v.len() == bdd_num_vars(*this) && (bdd_sat(*this).contains(v) != bdd_sat(
                    *right,
                ).contains(v)),
        ),
;

/// `Bdd::exists`: existential projection on the given variables.
pub assume_specification[ Bdd::exists ](this: &Bdd, variables: &[BddVariable]) -> (r: Bdd)
    ensures
        bdd_num_vars(r) == bdd_num_vars(*this),
        bdd_sat(r) == projection(bdd_sat(*this), indices(variables@)),
;

/// `Bdd::select`: the valuations of the diagram that give the listed
/// variables the listed values. The crate builds a clause of the list and
/// joins it with the diagram; the clause is what it should be where every
/// listed variable is one of the diagram's.
pub assume_specification[ Bdd::select ](this: &Bdd, variables: &[(BddVariable, bool)]) -> (r: Bdd)
    requires
        forall|i: int|
            0 <= i < variables@.len() ==> 0 <= var_index((#[trigger] variables@[i]).0)
                < bdd_num_vars(*this),
    ensures
        bdd_num_vars(r) == bdd_num_vars(*this),
        bdd_sat(r) == bdd_sat(*this).intersect(clause_set(bdd_num_vars(*this), fixed(variables@))),
;

/// `Bdd::is_true`: whether every valuation satisfies the diagram.
pub assume_specification[ Bdd::is_true ](this: &Bdd) -> (r: bool)
    ensures
        r <==> bdd_sat(*this) == valuations(bdd_num_vars(*this)),
;

/// `Bdd::is_false`: whether no valuation satisfies the diagram.
pub assume_specification[ Bdd::is_false ](this: &Bdd) -> (r: bool)
    ensures
        r <==> bdd_sat(*this) == Set::<Seq<bool>>::empty(),
;

/// `Bdd::exact_cardinality`: the number of satisfying valuations.
pub assume_specification[ Bdd::exact_cardinality ](this: &Bdd) -> (r: BigInt)
    ensures
        bigint_value(r) == bdd_sat(*this).len(),
;

/// `Bdd::to_dot_string`: the drawing of the diagram in the `.dot` format,
/// with the names of the variable set. The text is named, not spelled out.
/// The crate panics where the set has another number of variables than the
/// diagram.
pub assume_specification[ Bdd::to_dot_string ](
    this: &Bdd,
    variables: &BddVariableSet,
    zero_pruned: bool,
) -> (r: String)
    requires
        bdd_num_vars(*this) == variable_count(*variables),
    ensures
        r@ == dot_drawing(*this, *variables, zero_pruned),
;

/// `Bdd::sat_witness`: a satisfying valuation, if there is one. Which one
/// is left open.
#[verifier::external_body]
pub(crate) fn sat_witness(b: &Bdd) -> (r: Option<Vec<bool>>)
    ensures
        r is None <==> bdd_sat(*b) == Set::<Seq<bool>>::empty(),
        r matches Some(v) ==> bdd_sat(*b).contains(v@),
{
    b.sat_witness().map(biodivine_lib_bdd::BddValuation::into_vector)
}

/// `BigInt >> usize`: division by a power of two, for a number that is not
/// negative.
#[verifier::external_body]
pub(crate) fn shift_right(x: BigInt, k: usize) -> (r: BigInt)
    requires
        bigint_value(x) >= 0,
    ensures
        bigint_value(r) == bigint_value(x) / (pow2(k as nat) as int),
{
    x >> k
}

/// `BddVariable::to_index`: the position of the variable.
pub assume_specification[ BddVariable::to_index ](this: BddVariable) -> (r: usize)
    ensures
        r == var_index(this),
;

/// `BigInt::eq`: whether two big integers hold the same integer.
#[verifier::external_body]
pub(crate) fn same_number(a: &BigInt, b: &BigInt) -> (r: bool)
    ensures
        r <==> bigint_value(*a) == bigint_value(*b),
{
    a == b
}

/// `BddVariableSetBuilder::new`: a builder without variables.
#[verifier::external_body]
pub(crate) fn new_builder() -> (r: BddVariableSetBuilder)
    ensures
        builder_names(r) == Seq::<Seq<char>>::empty(),
{
    BddVariableSetBuilder::new()
}

/// `BddVariableSetBuilder::make_variable`: the next variable, under a new
/// name. The crate panics on a name that it has already, on a name with a
/// refused character, and once 65534 variables exist.
pub assume_specification[ BddVariableSetBuilder::make_variable ](
    this: &mut BddVariableSetBuilder,
    name: &str,
) -> (r: BddVariable)
    requires
        builder_names(*old(this)).len() < 65534,
        !builder_names(*old(this)).contains(name@),
        forall|i: int| 0 <= i < name@.len() ==> !refused_in_name(#[trigger] name@[i]),
    ensures
        var_index(r) == builder_names(*old(this)).len(),
        builder_names(*final(this)) == builder_names(*old(this)).push(name@),
;

/// `BddVariableSetBuilder::build`: the variable set of the variables made.
pub assume_specification[ BddVariableSetBuilder::build ](this: BddVariableSetBuilder) -> (r:
    BddVariableSet)
    ensures
        variable_count(r) == builder_names(this).len(),
;

/// `BddVariableSet::num_vars`: the number of variables.
pub assume_specification[ BddVariableSet::num_vars ](this: &BddVariableSet) -> (n: u16)
    ensures
        n == variable_count(*this),
;

/// `BddVariableSet::mk_true`: the diagram that every valuation satisfies.
pub assume_specification[ BddVariableSet::mk_true ](this: &BddVariableSet) -> (r: Bdd)
    ensures
        bdd_num_vars(r) == variable_count(*this),
        bdd_sat(r) == valuations(variable_count(*this)),
;

/// `BddVariableSet::mk_false`: the diagram that no valuation satisfies.
pub assume_specification[ BddVariableSet::mk_false ](this: &BddVariableSet) -> (r: Bdd)
    ensures
        bdd_num_vars(r) == variable_count(*this),
        bdd_sat(r) == Set::<Seq<bool>>::empty(),
;

/// `BddVariableSet::mk_var`: the diagram of one variable of the set.
pub assume_specification[ BddVariableSet::mk_var ](this: &BddVariableSet, var: BddVariable) -> (r:
    Bdd)
    requires
        0 <= var_index(var) < variable_count(*this),
    ensures
        bdd_num_vars(r) == variable_count(*this),
        bdd_sat(r) == literal_set(variable_count(*this), var_index(var), true),
;

/// `BddVariableSet::mk_conjunctive_clause`: the conjunction of the literals
/// that a partial valuation fixes. The crate panics on a fixed variable
/// outside the set.
pub assume_specification[ BddVariableSet::mk_conjunctive_clause ](
    this: &BddVariableSet,
    clause: &BddPartialValuation,
) -> (r: Bdd)
    requires
        forall|k: int| #[trigger]
            assignment(*clause).dom().contains(k) ==> 0 <= k < variable_count(*this),
    ensures
        bdd_num_vars(r) == variable_count(*this),
        bdd_sat(r) == clause_set(variable_count(*this), assignment(*clause)),
;

/// `BddVariableSet::mk_dnf`: the disjunction of the conjunctive clauses
/// that the partial valuations stand for. Every fixed variable must belong
/// to the set.
pub assume_specification[ BddVariableSet::mk_dnf ](
    this: &BddVariableSet,
    dnf: &[BddPartialValuation],
) -> (r: Bdd)
    requires
        forall|i: int, k: int|
            0 <= i < dnf@.len() && #[trigger] assignment(dnf@[i]).dom().contains(k) ==> 0 <= k
                < variable_count(*this),
    ensures
        bdd_num_vars(r) == variable_count(*this),
        bdd_sat(r) == dnf_set(variable_count(*this), dnf@),
;

/// `BddPartialValuation::empty`: the valuation that fixes nothing.
pub assume_specification[ BddPartialValuation::empty ]() -> (r: BddPartialValuation)
    ensures
        assignment(r) == unassigned(),
;

/// `BddPartialValuation::set_value`: fixes one variable and leaves the
/// others as they were.
pub assume_specification[ BddPartialValuation::set_value ](
    this: &mut BddPartialValuation,
    id: BddVariable,
    value: bool,
)
    ensures
        assignment(*final(this)) == assignment(*old(this)).insert(var_index(id), value),
;

/// `BddPartialValuation::get_value`: the value of a variable, if it is
/// fixed.
pub assume_specification[ BddPartialValuation::get_value ](
    this: &BddPartialValuation,
    id: BddVariable,
) -> (r: Option<bool>)
    ensures
        r == if assignment(*this).dom().contains(var_index(id)) {
            Some(assignment(*this)[var_index(id)])
        } else {
            None::<bool>
        },
;

/// Recalls that a diagram is satisfied by valuations of its own number of
/// variables only.
pub fn recall_width(b: &Bdd)
    ensures
        bdd_sat(*b).subset_of(valuations(bdd_num_vars(*b))),
{
    let _ = b.num_vars();
}

} // verus!
