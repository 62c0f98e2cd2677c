//! The compiler of update functions: from a prioritised table of guarded
//! values to one diagram for each bit of the next value.

use crate::bdd::{bdd_num_vars, bdd_sat, valuations, variable_count};
use crate::expression::{compares, ComparisonOperator, Expression, Proposition};
use crate::symbolic_domain::{fits, pattern, positions, SymbolicDomain, SymbolicDomainOrd};
use crate::names::same_name;
use crate::unprocessed::UnprocessedVariableUpdateFn;
use biodivine_lib_bdd::{Bdd, BddVariable, BddVariableSet};
use vstd::prelude::*;

verus! {

/// The valuation shows the pattern of the value `v` of `table` on `block`.
pub open spec fn shows(block: Seq<int>, table: Seq<Seq<bool>>, t: Seq<bool>, v: int) -> bool {
    0 <= v < table.len() && pattern(block, t) == table[v]
}

/// The valuation shows the pattern of some value of `table` on `block`.
pub open spec fn encodes(block: Seq<int>, table: Seq<Seq<bool>>, t: Seq<bool>) -> bool {
    exists|v: int| shows(block, table, t, v)
}

/// The value whose pattern the valuation shows on `block`.
pub open spec fn value_in(block: Seq<int>, table: Seq<Seq<bool>>, t: Seq<bool>) -> int {
    choose|v: int| shows(block, table, t, v)
}

/// The valuation shows a value on every block: it stands for a state.
pub open spec fn legal(blocks: Seq<Seq<int>>, tables: Seq<Seq<Seq<bool>>>, t: Seq<bool>) -> bool {
    forall|j: int| 0 <= j < blocks.len() ==> encodes(#[trigger] blocks[j], tables[j], t)
}

/// The state that a valuation stands for: the value of each variable, by
/// position.
pub open spec fn state_of(blocks: Seq<Seq<int>>, tables: Seq<Seq<Seq<bool>>>, t: Seq<bool>) -> Seq<
    int,
> {
    Seq::new(blocks.len(), |j: int| value_in(blocks[j], tables[j], t))
}

/// No two values of the table share a pattern.
pub open spec fn distinct_rows(table: Seq<Seq<bool>>) -> bool {
    forall|a: int, b: int| 0 <= a < b < table.len() ==> #[trigger] table[a] != #[trigger] table[b]
}

/// The blocks of a list of domains, by position.
pub open spec fn blocks_of<D: SymbolicDomain>(domains: Seq<D>) -> Seq<Seq<int>> {
    Seq::new(domains.len(), |j: int| positions(domains[j].variables()))
}

/// The tables of a list of domains, by position.
pub open spec fn tables_of<D: SymbolicDomain>(domains: Seq<D>) -> Seq<Seq<Seq<bool>>> {
    Seq::new(domains.len(), |j: int| D::table(domains[j].max_spec()))
}

/// The names of a list, as sequences of characters.
pub open spec fn names_view(names: Seq<String>) -> Seq<Seq<char>> {
    Seq::new(names.len(), |j: int| names[j]@)
}

/// Every domain of the list is well formed and lies within `n` variables.
pub open spec fn domains_fit<D: SymbolicDomain>(domains: Seq<D>, n: nat) -> bool {
    forall|j: int|
        0 <= j < domains.len() ==> (#[trigger] domains[j]).wf() && fits(
            positions(domains[j].variables()),
            n,
        )
}

/// Every comparison of the expression is with a variable of `names`, and
/// with a number of that variable's table.
pub open spec fn known(e: &Expression, names: Seq<Seq<char>>, tables: Seq<Seq<Seq<bool>>>) -> bool {
    forall|name: Seq<char>, v: int| #[trigger]
        e.compares_with(name, v) ==> names.contains(name) && 0 <= v < tables[names.index_of(
            name,
        )].len()
}

/// The set holds, of the valuations of `n` variables that stand for a
/// state, exactly those in whose state the expression holds.
pub open spec fn decides(
    s: Set<Seq<bool>>,
    n: nat,
    blocks: Seq<Seq<int>>,
    tables: Seq<Seq<Seq<bool>>>,
    names: Seq<Seq<char>>,
    e: &Expression,
) -> bool {
    forall|t: Seq<bool>|
        t.len() == n && legal(blocks, tables, t) ==> (#[trigger] s.contains(t) <==> e.holds(
            names,
            state_of(blocks, tables, t),
        ))
}

/// Where no two values share a pattern, the value that a valuation shows
/// is the only one.
pub proof fn lemma_value_in(block: Seq<int>, table: Seq<Seq<bool>>, t: Seq<bool>, v: int)
    requires
        shows(block, table, t, v),
        distinct_rows(table),
    ensures
        value_in(block, table, t) == v,
{
    let w = value_in(block, table, t);
    assert(shows(block, table, t, w));
    if w < v {
        assert(table[w] != table[v]);
    }
    if v < w {
        assert(table[v] != table[w]);
    }
}

/// The tables of well-formed domains have one row for each value, and no
/// two rows are the same.
pub proof fn lemma_tables<D: SymbolicDomain>(domains: Seq<D>, n: nat, j: int)
    requires
        domains_fit(domains, n),
        0 <= j < domains.len(),
    ensures
        tables_of(domains)[j].len() == domains[j].max_spec() + 1,
        distinct_rows(tables_of(domains)[j]),
        domains[j].max_spec() <= 255,
{
    domains[j].lemma_wf();
    D::lemma_table(domains[j].max_spec());
}

/// The place of a name in a list, if it is there.
pub fn find_name(names: &Vec<String>, name: &str) -> (r: Option<usize>)
    ensures
        match r {
            Some(i) => i < names@.len() && names@[i as int]@ == name@,
            None => !names_view(names@).contains(name@),
        },
        names_view(names@).no_duplicates() ==> match r {
            Some(i) => names_view(names@).index_of(name@) == i,
            None => true,
        },
{
    let mut i: usize = 0;
    while i < names.len()
        invariant
            i <= names@.len(),
            forall|k: int| 0 <= k < i ==> names@[k]@ != name@,
        decreases names@.len() - i,
    {
        if same_name(names[i].as_str(), name) {
            proof {
                let view = names_view(names@);
                assert(view[i as int] == name@);
                if view.no_duplicates() {
                    let k = view.index_of(name@);
                    assert(0 <= k < view.len() && view[k] == name@);
                }
            }
            return Some(i);
        }
        i = i + 1;
    }
    proof {
        let view = names_view(names@);
        if view.contains(name@) {
            let k = choose|k: int| 0 <= k < view.len() && view[k] == name@;
            assert(names@[k]@ == name@);
        }
    }
    None
}

/// The diagram of a proposition: the states in which the named variable
/// stands to the number as the operator says.
pub fn bdd_from_proposition<D: SymbolicDomainOrd>(
    proposition: &Proposition,
    names: &Vec<String>,
    domains: &Vec<D>,
    bdd_variable_set: &BddVariableSet,
) -> (r: Bdd)
    requires
        names@.len() == domains@.len(),
        names_view(names@).no_duplicates(),
        domains_fit(domains@, variable_count(*bdd_variable_set)),
        known(&Expression::Terminal(*proposition), names_view(names@), tables_of(domains@)),
    ensures
        bdd_num_vars(r) == variable_count(*bdd_variable_set),
        decides(
            bdd_sat(r),
            variable_count(*bdd_variable_set),
            blocks_of(domains@),
            tables_of(domains@),
            names_view(names@),
            &Expression::Terminal(*proposition),
        ),
{
    let ghost n = variable_count(*bdd_variable_set);
    let ghost whole = Expression::Terminal(*proposition);
    let ghost view = names_view(names@);
    let ghost blocks = blocks_of(domains@);
    let ghost tables = tables_of(domains@);
    proof {
        assert(whole.compares_with(proposition.variable@, proposition.value as int));
    }
    let found = find_name(names, proposition.variable.as_str());
    let index = found.unwrap();
    let domain = &domains[index];
    let ghost block = blocks[index as int];
    let ghost table = tables[index as int];
    proof {
        lemma_tables(domains@, n, index as int);
    }
    let result = match proposition.comparison_operator {
        ComparisonOperator::Eq => domain.encode_one(bdd_variable_set, &proposition.value),
        ComparisonOperator::Neq => domain.encode_one(bdd_variable_set, &proposition.value).not(),
        ComparisonOperator::Lt => domain.encode_lt(bdd_variable_set, &proposition.value),
        ComparisonOperator::Leq => domain.encode_le(bdd_variable_set, &proposition.value),
        ComparisonOperator::Gt => domain.encode_gt(bdd_variable_set, &proposition.value),
        ComparisonOperator::Geq => domain.encode_ge(bdd_variable_set, &proposition.value),
    };
    proof {
        assert forall|t: Seq<bool>| t.len() == n && legal(blocks, tables, t) implies (
        #[trigger] bdd_sat(result).contains(t) <==> whole.holds(
            view,
            state_of(blocks, tables, t),
        )) by {
            assert(encodes(blocks[index as int], tables[index as int], t));
            let x = value_in(block, table, t);
            assert(shows(block, table, t, x));
            assert(state_of(blocks, tables, t)[index as int] == x);
            assert(whole.holds(view, state_of(blocks, tables, t)) == compares(
                proposition.comparison_operator,
                x,
                proposition.value as int,
            ));
            if pattern(block, t) == table[proposition.value as int] {
                lemma_value_in(block, table, t, proposition.value as int);
            }
        }
    }
    result
}

/// Whether the first `upto` clauses all hold, or, for a disjunction,
/// whether one of them holds.
pub open spec fn clauses_hold(
    clauses: Seq<Expression>,
    upto: int,
    conjunction: bool,
    names: Seq<Seq<char>>,
    state: Seq<int>,
) -> bool {
    if conjunction {
        forall|i: int| 0 <= i < upto ==> (#[trigger] clauses[i]).holds(names, state)
    } else {
        exists|i: int| 0 <= i < upto && (#[trigger] clauses[i]).holds(names, state)
    }
}

/// The diagram of a conjunction or a disjunction of clauses.
pub fn bdd_from_clauses<D: SymbolicDomainOrd>(
    clauses: &Vec<Expression>,
    conjunction: bool,
    names: &Vec<String>,
    domains: &Vec<D>,
    bdd_variable_set: &BddVariableSet,
) -> (r: Bdd)
    requires
        names@.len() == domains@.len(),
        names_view(names@).no_duplicates(),
        domains_fit(domains@, variable_count(*bdd_variable_set)),
        forall|k: int|
            0 <= k < clauses@.len() ==> known(
                #[trigger] &clauses@[k],
                names_view(names@),
                tables_of(domains@),
            ),
    ensures
        bdd_num_vars(r) == variable_count(*bdd_variable_set),
        forall|t: Seq<bool>|
            t.len() == variable_count(*bdd_variable_set) && legal(
                blocks_of(domains@),
                tables_of(domains@),
                t,
            ) ==> (#[trigger] bdd_sat(r).contains(t) <==> clauses_hold(
                clauses@,
                clauses@.len() as int,
                conjunction,
                names_view(names@),
                state_of(blocks_of(domains@), tables_of(domains@), t),
            )),
    decreases clauses,
{
    let ghost n = variable_count(*bdd_variable_set);
    let ghost view = names_view(names@);
    let ghost blocks = blocks_of(domains@);
    let ghost tables = tables_of(domains@);
    let mut result = if conjunction {
        bdd_variable_set.mk_true()
    } else {
        bdd_variable_set.mk_false()
    };
    let mut k: usize = 0;
    while k < clauses.len()
        invariant
            k <= clauses@.len(),
            names@.len() == domains@.len(),
            names_view(names@).no_duplicates(),
            domains_fit(domains@, variable_count(*bdd_variable_set)),
            forall|j: int|
                0 <= j < clauses@.len() ==> known(
                    #[trigger] &clauses@[j],
                    names_view(names@),
                    tables_of(domains@),
                ),
            n == variable_count(*bdd_variable_set),
            view == names_view(names@),
            blocks == blocks_of(domains@),
            tables == tables_of(domains@),
            bdd_num_vars(result) == n,
            forall|t: Seq<bool>|
                t.len() == n && legal(blocks, tables, t) ==> (#[trigger] bdd_sat(result).contains(t)
                    <==> clauses_hold(
                    clauses@,
                    k as int,
                    conjunction,
                    view,
                    state_of(blocks, tables, t),
                )),
        decreases clauses@.len() - k,
    {
        let clause = bdd_from_expression(&clauses[k], names, domains, bdd_variable_set);
        let ghost before = bdd_sat(result);
        result = if conjunction {
            result.and(&clause)
        } else {
            result.or(&clause)
        };
        proof {
            assert forall|t: Seq<bool>| t.len() == n && legal(blocks, tables, t) implies (
            #[trigger] bdd_sat(result).contains(t) <==> clauses_hold(
                clauses@,
                k + 1,
                conjunction,
                view,
                state_of(blocks, tables, t),
            )) by {
                let state = state_of(blocks, tables, t);
                assert(before.contains(t) <==> clauses_hold(
                    clauses@,
                    k as int,
                    conjunction,
                    view,
                    state,
                ));
                assert(bdd_sat(clause).contains(t) <==> clauses@[k as int].holds(view, state));
                if conjunction {
                    if clauses_hold(clauses@, k + 1, conjunction, view, state) {
                        assert(clauses@[k as int].holds(view, state));
                    }
                } else {
                    if clauses_hold(clauses@, k + 1, conjunction, view, state) {
                        let i = choose|i: int|
                            0 <= i < k + 1 && (#[trigger] clauses@[i]).holds(view, state);
                        if i < k {
                            assert(clauses_hold(clauses@, k as int, conjunction, view, state));
                        }
                    }
                    if clauses_hold(clauses@, k as int, conjunction, view, state) {
                        let i = choose|i: int|
                            0 <= i < k && (#[trigger] clauses@[i]).holds(view, state);
                        assert(clauses@[i].holds(view, state));
                    }
                }
            }
        }
        k = k + 1;
    }
    result
}

/// The diagram of an expression: the states in which it holds.
pub fn bdd_from_expression<D: SymbolicDomainOrd>(
    expression: &Expression,
    names: &Vec<String>,
    domains: &Vec<D>,
    bdd_variable_set: &BddVariableSet,
) -> (r: Bdd)
    requires
        names@.len() == domains@.len(),
        names_view(names@).no_duplicates(),
        domains_fit(domains@, variable_count(*bdd_variable_set)),
        known(expression, names_view(names@), tables_of(domains@)),
    ensures
        bdd_num_vars(r) == variable_count(*bdd_variable_set),
        decides(
            bdd_sat(r),
            variable_count(*bdd_variable_set),
            blocks_of(domains@),
            tables_of(domains@),
            names_view(names@),
            expression,
        ),
    decreases expression,
{
    let ghost n = variable_count(*bdd_variable_set);
    let ghost view = names_view(names@);
    let ghost blocks = blocks_of(domains@);
    let ghost tables = tables_of(domains@);
    match expression {
        Expression::Terminal(proposition) => {
            bdd_from_proposition(proposition, names, domains, bdd_variable_set)
        },
        Expression::Not(inner) => {
            proof {
                assert forall|name: Seq<char>, v: int| #[trigger]
                    inner.compares_with(name, v) implies expression.compares_with(name, v) by {}
            }
            bdd_from_expression(inner, names, domains, bdd_variable_set).not()
        },
        Expression::And(clauses) => {
            proof {
                assert forall|k: int| 0 <= k < clauses@.len() implies known(
                    #[trigger] &clauses@[k],
                    view,
                    tables,
                ) by {
                    assert forall|name: Seq<char>, v: int| #[trigger]
                        clauses@[k].compares_with(name, v) implies expression.compares_with(
                        name,
                        v,
                    ) by {}
                }
            }
            bdd_from_clauses(clauses, true, names, domains, bdd_variable_set)
        },
        Expression::Or(clauses) => {
            proof {
                assert forall|k: int| 0 <= k < clauses@.len() implies known(
                    #[trigger] &clauses@[k],
                    view,
                    tables,
                ) by {
                    assert forall|name: Seq<char>, v: int| #[trigger]
                        clauses@[k].compares_with(name, v) implies expression.compares_with(
                        name,
                        v,
                    ) by {}
                }
            }
            bdd_from_clauses(clauses, false, names, domains, bdd_variable_set)
        },
        Expression::Xor(lhs, rhs) => {
            proof {
                assert forall|name: Seq<char>, v: int| #[trigger]
                    lhs.compares_with(name, v) implies expression.compares_with(name, v) by {}
                assert forall|name: Seq<char>, v: int| #[trigger]
                    rhs.compares_with(name, v) implies expression.compares_with(name, v) by {}
            }
            let lhs = bdd_from_expression(lhs, names, domains, bdd_variable_set);
            let rhs = bdd_from_expression(rhs, names, domains, bdd_variable_set);
            lhs.xor(&rhs)
        },
        Expression::Implies(lhs, rhs) => {
            proof {
                assert forall|name: Seq<char>, v: int| #[trigger]
                    lhs.compares_with(name, v) implies expression.compares_with(name, v) by {}
                assert forall|name: Seq<char>, v: int| #[trigger]
                    rhs.compares_with(name, v) implies expression.compares_with(name, v) by {}
            }
            let lhs = bdd_from_expression(lhs, names, domains, bdd_variable_set);
            let rhs = bdd_from_expression(rhs, names, domains, bdd_variable_set);
            lhs.imp(&rhs)
        },
    }
}

/// One diagram for each bit of a variable's block, with the variable of
/// that bit: the diagram holds the states after which the bit is set.
#[derive(Debug)]
pub struct VariableUpdateFn {
    pub bit_answering_bdds: Vec<(BddVariable, Bdd)>,
}

/// The set holds, of the valuations of `n` variables that stand for a
/// state, exactly those in whose state term `j` is the first to match;
/// for `j` the number of terms, those in which none matches.
pub open spec fn fires(
    s: Set<Seq<bool>>,
    n: nat,
    blocks: Seq<Seq<int>>,
    tables: Seq<Seq<Seq<bool>>>,
    names: Seq<Seq<char>>,
    update_fn: &UnprocessedVariableUpdateFn,
    j: int,
) -> bool {
    forall|t: Seq<bool>|
        t.len() == n && legal(blocks, tables, t) ==> (#[trigger] s.contains(t)
            <==> update_fn.first_match(names, state_of(blocks, tables, t), 0) == j)
}

/// The set holds, of the valuations of `n` variables that stand for a
/// state, exactly those after whose state bit `k` of the target's pattern
/// is set.
pub open spec fn answers(
    s: Set<Seq<bool>>,
    n: nat,
    blocks: Seq<Seq<int>>,
    tables: Seq<Seq<Seq<bool>>>,
    names: Seq<Seq<char>>,
    update_fn: &UnprocessedVariableUpdateFn,
    table: Seq<Seq<bool>>,
    k: int,
) -> bool {
    forall|t: Seq<bool>|
        t.len() == n && legal(blocks, tables, t) ==> (#[trigger] s.contains(t) <==> table[update_fn.next_value(
            names,
            state_of(blocks, tables, t),
        )][k])
}

/// The first match from `from` on lies at or after `from`, no term
/// between the two matches, and the term at the first match does.
pub proof fn lemma_first_match(
    update_fn: &UnprocessedVariableUpdateFn,
    names: Seq<Seq<char>>,
    state: Seq<int>,
    from: int,
)
    requires
        0 <= from <= update_fn.terms@.len(),
    ensures
        from <= update_fn.first_match(names, state, from) <= update_fn.terms@.len(),
        forall|j: int|
            from <= j < update_fn.first_match(names, state, from) ==> !(
            #[trigger] update_fn.terms@[j]).1.holds(names, state),
        update_fn.first_match(names, state, from) < update_fn.terms@.len()
            ==> update_fn.terms@[update_fn.first_match(names, state, from)].1.holds(names, state),
    decreases update_fn.terms@.len() - from,
{
    if from < update_fn.terms@.len() && !update_fn.terms@[from].1.holds(names, state) {
        lemma_first_match(update_fn, names, state, from + 1);
    }
}

impl VariableUpdateFn {
    /// Compiles the update function of the variable `target_variable_name`
    /// into one diagram for each bit of its block.
    pub fn from_update_fn<D: SymbolicDomainOrd>(
        update_fn: &UnprocessedVariableUpdateFn,
        target_variable_name: &str,
        bdd_variable_set: &BddVariableSet,
        names: &Vec<String>,
        domains: &Vec<D>,
    ) -> (r: Self)
        requires
            names@.len() == domains@.len(),
            names_view(names@).no_duplicates(),
            names_view(names@).contains(target_variable_name@),
            domains_fit(domains@, variable_count(*bdd_variable_set)),
            forall|j: int|
                0 <= j < update_fn.terms@.len() ==> known(
                    &(#[trigger] update_fn.terms@[j]).1,
                    names_view(names@),
                    tables_of(domains@),
                ),
            forall|v: int|
                update_fn.yields(v) ==> 0 <= v < tables_of(domains@)[names_view(names@).index_of(
                    target_variable_name@,
                )].len(),
        ensures
            r.bit_answering_bdds@.len() == blocks_of(domains@)[names_view(names@).index_of(
                target_variable_name@,
            )].len(),
            forall|k: int|
                0 <= k < r.bit_answering_bdds@.len() ==> {
                    &&& (#[trigger] r.bit_answering_bdds@[k]).0 == domains@[names_view(
                        names@,
                    ).index_of(target_variable_name@)].variables()[k]
                    &&& bdd_num_vars(r.bit_answering_bdds@[k].1) == variable_count(
                        *bdd_variable_set,
                    )
                    &&& answers(
                        bdd_sat(r.bit_answering_bdds@[k].1),
                        variable_count(*bdd_variable_set),
                        blocks_of(domains@),
                        tables_of(domains@),
                        names_view(names@),
                        update_fn,
                        tables_of(domains@)[names_view(names@).index_of(target_variable_name@)],
                        k,
                    )
                },
    {
        let ghost n = variable_count(*bdd_variable_set);
        let ghost view = names_view(names@);
        let ghost blocks = blocks_of(domains@);
        let ghost tables = tables_of(domains@);
        let ghost count = update_fn.terms@.len() as int;
        let terms = &update_fn.terms;

        // The guards, made exclusive by priority: a term fires where its
        // guard holds and the guard of no earlier term does.
        let mut exclusive: Vec<Bdd> = Vec::new();
        let mut seen_states = bdd_variable_set.mk_false();
        let mut j: usize = 0;
        proof {
            assert forall|t: Seq<bool>| t.len() == n && legal(blocks, tables, t) implies (
            #[trigger] bdd_sat(seen_states).contains(t) <==> update_fn.first_match(
                view,
                state_of(blocks, tables, t),
                0,
            ) < 0) by {
                lemma_first_match(update_fn, view, state_of(blocks, tables, t), 0);
            }
        }
        while j < terms.len()
            invariant
                j <= terms@.len(),
                terms == &update_fn.terms,
                count == terms@.len(),
                names@.len() == domains@.len(),
                names_view(names@).no_duplicates(),
                domains_fit(domains@, variable_count(*bdd_variable_set)),
                forall|i: int|
                    0 <= i < update_fn.terms@.len() ==> known(
                        &(#[trigger] update_fn.terms@[i]).1,
                        names_view(names@),
                        tables_of(domains@),
                    ),
                n == variable_count(*bdd_variable_set),
                view == names_view(names@),
                blocks == blocks_of(domains@),
                tables == tables_of(domains@),
                exclusive@.len() == j,
                bdd_num_vars(seen_states) == n,
                forall|t: Seq<bool>|
                    t.len() == n && legal(blocks, tables, t) ==> (#[trigger] bdd_sat(
                        seen_states,
                    ).contains(t) <==> update_fn.first_match(view, state_of(blocks, tables, t), 0)
                        < j),
                forall|i: int|
                    0 <= i < j ==> bdd_num_vars(#[trigger] exclusive@[i]) == n && fires(
                        bdd_sat(exclusive@[i]),
                        n,
                        blocks,
                        tables,
                        view,
                        update_fn,
                        i,
                    ),
            decreases terms@.len() - j,
        {
            let term_bdd = bdd_from_expression(&terms[j].1, names, domains, bdd_variable_set);
            let mutually_exclusive_bdd = term_bdd.and(&seen_states.not());
            let ghost seen_before = bdd_sat(seen_states);
            seen_states = seen_states.or(&term_bdd);
            proof {
                assert forall|t: Seq<bool>| t.len() == n && legal(blocks, tables, t) implies (
                #[trigger] bdd_sat(seen_states).contains(t) <==> update_fn.first_match(
                    view,
                    state_of(blocks, tables, t),
                    0,
                ) < j + 1) by {
                    let state = state_of(blocks, tables, t);
                    lemma_first_match(update_fn, view, state, 0);
                    assert(seen_before.contains(t) <==> update_fn.first_match(view, state, 0) < j);
                    assert(bdd_sat(term_bdd).contains(t) <==> terms@[j as int].1.holds(
                        view,
                        state,
                    ));
                }
                assert forall|t: Seq<bool>| t.len() == n && legal(blocks, tables, t) implies (
                #[trigger] bdd_sat(mutually_exclusive_bdd).contains(t) <==> update_fn.first_match(
                    view,
                    state_of(blocks, tables, t),
                    0,
                ) == j) by {
                    let state = state_of(blocks, tables, t);
                    lemma_first_match(update_fn, view, state, 0);
                    assert(seen_before.contains(t) <==> update_fn.first_match(view, state, 0) < j);
                    assert(bdd_sat(term_bdd).contains(t) <==> terms@[j as int].1.holds(
                        view,
                        state,
                    ));
                }
            }
            let ghost listed = exclusive@;
            exclusive.push(mutually_exclusive_bdd);
            proof {
                assert forall|i: int| 0 <= i < j + 1 implies bdd_num_vars(
                    #[trigger] exclusive@[i],
                ) == n && fires(bdd_sat(exclusive@[i]), n, blocks, tables, view, update_fn, i) by {
                    if i < j {
                        assert(exclusive@[i] == listed[i]);
                    }
                }
            }
            j = j + 1;
        }
        // The default fires where no guard holds.
        let default_bdd = bdd_variable_set.mk_true().and(&seen_states.not());
        proof {
            assert forall|t: Seq<bool>| t.len() == n && legal(blocks, tables, t) implies (
            #[trigger] bdd_sat(default_bdd).contains(t) <==> update_fn.first_match(
                view,
                state_of(blocks, tables, t),
                0,
            ) == count) by {
                lemma_first_match(update_fn, view, state_of(blocks, tables, t), 0);
            }
        }
        let ghost listed = exclusive@;
        exclusive.push(default_bdd);
        proof {
            assert forall|i: int| 0 <= i < count + 1 implies bdd_num_vars(
                #[trigger] exclusive@[i],
            ) == n && fires(bdd_sat(exclusive@[i]), n, blocks, tables, view, update_fn, i) by {
                if i < count {
                    assert(exclusive@[i] == listed[i]);
                }
            }
        }

        let found = find_name(names, target_variable_name);
        let target = found.unwrap();
        let target_domain = &domains[target];
        let ghost table = tables[target as int];
        proof {
            lemma_tables(domains@, n, target as int);
            target_domain.lemma_wf();
            assert(update_fn.yields(update_fn.default as int));
        }

        // The pattern of each output, the default last.
        let mut bit_matrix: Vec<Vec<bool>> = Vec::new();
        let mut row: usize = 0;
        while row < terms.len()
            invariant
                row <= terms@.len(),
                terms == &update_fn.terms,
                count == terms@.len(),
                target_domain.wf(),
                table == D::table(target_domain.max_spec()),
                table.len() == target_domain.max_spec() + 1,
                forall|v: int| update_fn.yields(v) ==> 0 <= v < table.len(),
                bit_matrix@.len() == row,
                forall|i: int|
                    0 <= i < row ==> (#[trigger] bit_matrix@[i])@ == table[terms@[i].0 as int],
            decreases terms@.len() - row,
        {
            assert(update_fn.yields(terms@[row as int].0 as int));
            let code = target_domain.raw_bdd_variables_encode(&terms[row].0);
            bit_matrix.push(code);
            row = row + 1;
        }
        let code = target_domain.raw_bdd_variables_encode(&update_fn.default);
        bit_matrix.push(code);

        let variables = target_domain.raw_bdd_variables();
        let width = variables.len();
        let mut bit_answering_bdds: Vec<(BddVariable, Bdd)> = Vec::new();
        let mut bit_idx: usize = 0;
        proof {
            D::lemma_table(target_domain.max_spec());
            assert(positions(target_domain.variables()).len() == width);
            assert(blocks[target as int].len() == width);
            assert forall|v: int| 0 <= v < table.len() implies (#[trigger] table[v]).len()
                == width by {
                assert(D::table(target_domain.max_spec())[v].len() == D::width(
                    target_domain.max_spec(),
                ));
            }
        }
        while bit_idx < width
            invariant
                bit_idx <= width,
                width == variables@.len(),
                variables@ == target_domain.variables(),
                terms == &update_fn.terms,
                count == terms@.len(),
                n == variable_count(*bdd_variable_set),
                forall|v: int| 0 <= v < table.len() ==> (#[trigger] table[v]).len() == width,
                forall|v: int| update_fn.yields(v) ==> 0 <= v < table.len(),
                bit_matrix@.len() == count + 1,
                exclusive@.len() == count + 1,
                forall|i: int|
                    0 <= i < count ==> (#[trigger] bit_matrix@[i])@ == table[terms@[i].0 as int],
                bit_matrix@[count]@ == table[update_fn.default as int],
                forall|i: int|
                    0 <= i < count + 1 ==> bdd_num_vars(#[trigger] exclusive@[i]) == n && fires(
                        bdd_sat(exclusive@[i]),
                        n,
                        blocks,
                        tables,
                        view,
                        update_fn,
                        i,
                    ),
                bit_answering_bdds@.len() == bit_idx,
                forall|k: int|
                    0 <= k < bit_idx ==> {
                        &&& (#[trigger] bit_answering_bdds@[k]).0 == variables@[k]
                        &&& bdd_num_vars(bit_answering_bdds@[k].1) == n
                        &&& answers(
                            bdd_sat(bit_answering_bdds@[k].1),
                            n,
                            blocks,
                            tables,
                            view,
                            update_fn,
                            table,
                            k,
                        )
                    },
            decreases width - bit_idx,
        {
            let mut answer = bdd_variable_set.mk_false();
            let mut row_idx: usize = 0;
            proof {
                assert forall|t: Seq<bool>| t.len() == n && legal(blocks, tables, t) implies !(
                update_fn.first_match(view, state_of(blocks, tables, t), 0) < 0) by {
                    lemma_first_match(update_fn, view, state_of(blocks, tables, t), 0);
                }
            }
            while row_idx < bit_matrix.len()
                invariant
                    row_idx <= bit_matrix@.len(),
                    bit_idx < width,
                    terms == &update_fn.terms,
                    count == terms@.len(),
                    n == variable_count(*bdd_variable_set),
                    forall|v: int| 0 <= v < table.len() ==> (#[trigger] table[v]).len() == width,
                    forall|v: int| update_fn.yields(v) ==> 0 <= v < table.len(),
                    bit_matrix@.len() == count + 1,
                    exclusive@.len() == count + 1,
                    forall|i: int|
                        0 <= i < count ==> (#[trigger] bit_matrix@[i])@ == table[terms@[i].0 as int],
                    bit_matrix@[count]@ == table[update_fn.default as int],
                    forall|i: int|
                        0 <= i < count + 1 ==> bdd_num_vars(#[trigger] exclusive@[i]) == n
                            && fires(
                            bdd_sat(exclusive@[i]),
                            n,
                            blocks,
                            tables,
                            view,
                            update_fn,
                            i,
                        ),
                    bdd_num_vars(answer) == n,
                    forall|t: Seq<bool>|
                        t.len() == n && legal(blocks, tables, t) ==> (#[trigger] bdd_sat(
                            answer,
                        ).contains(t) <==> update_fn.first_match(
                            view,
                            state_of(blocks, tables, t),
                            0,
                        ) < row_idx && table[update_fn.next_value(
                            view,
                            state_of(blocks, tables, t),
                        )][bit_idx as int]),
                decreases bit_matrix@.len() - row_idx,
            {
                proof {
                    if row_idx < count {
                        assert(update_fn.yields(terms@[row_idx as int].0 as int));
                    } else {
                        assert(update_fn.yields(update_fn.default as int));
                    }
                }
                let ghost before = bdd_sat(answer);
                let ghost fired = bdd_sat(exclusive@[row_idx as int]);
                let set = bit_matrix[row_idx][bit_idx];
                if set {
                    answer = answer.or(&exclusive[row_idx]);
                }
                proof {
                    assert forall|t: Seq<bool>| t.len() == n && legal(blocks, tables, t) implies (
                    #[trigger] bdd_sat(answer).contains(t) <==> update_fn.first_match(
                        view,
                        state_of(blocks, tables, t),
                        0,
                    ) < row_idx + 1 && table[update_fn.next_value(
                        view,
                        state_of(blocks, tables, t),
                    )][bit_idx as int]) by {
                        let state = state_of(blocks, tables, t);
                        lemma_first_match(update_fn, view, state, 0);
                        assert(fired.contains(t) <==> update_fn.first_match(view, state, 0)
                            == row_idx);
                        assert(before.contains(t) <==> update_fn.first_match(view, state, 0)
                            < row_idx && table[update_fn.next_value(view, state)][bit_idx as int]);
                    }
                }
                row_idx = row_idx + 1;
            }
            proof {
                assert forall|t: Seq<bool>| t.len() == n && legal(blocks, tables, t) implies (
                #[trigger] bdd_sat(answer).contains(t) <==> table[update_fn.next_value(
                    view,
                    state_of(blocks, tables, t),
                )][bit_idx as int]) by {
                    lemma_first_match(update_fn, view, state_of(blocks, tables, t), 0);
                }
            }
            let ghost listed = bit_answering_bdds@;
            bit_answering_bdds.push((variables[bit_idx], answer));
            proof {
                assert forall|k: int| 0 <= k < bit_idx + 1 implies {
                    &&& (#[trigger] bit_answering_bdds@[k]).0 == variables@[k]
                    &&& bdd_num_vars(bit_answering_bdds@[k].1) == n
                    &&& answers(
                        bdd_sat(bit_answering_bdds@[k].1),
                        n,
                        blocks,
                        tables,
                        view,
                        update_fn,
                        table,
                        k,
                    )
                } by {
                    if k < bit_idx {
                        assert(bit_answering_bdds@[k] == listed[k]);
                    }
                }
            }
            bit_idx = bit_idx + 1;
        }
        Self { bit_answering_bdds }
    }
}

} // verus!
