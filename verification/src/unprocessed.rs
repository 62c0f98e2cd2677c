//! Update functions as they are read: a prioritised table of guarded
//! values with a default.

use crate::expression::{Expression, Proposition};
use vstd::prelude::*;

verus! {

/// The update function of one variable: the next value is the output of
/// the first term whose guard holds, and `default` where none holds.
#[derive(Debug)]
pub struct UnprocessedVariableUpdateFn {
    pub input_vars_names: Vec<String>,
    pub target_var_name: String,
    pub terms: Vec<(u8, Expression)>,
    pub default: u8,
}

impl UnprocessedVariableUpdateFn {
    /// A function with the given fields.
    pub fn new(
        input_vars_names: Vec<String>,
        target_var_name: String,
        terms: Vec<(u8, Expression)>,
        default: u8,
    ) -> (r: Self)
        ensures
            r.input_vars_names == input_vars_names,
            r.target_var_name == target_var_name,
            r.terms == terms,
            r.default == default,
    {
        Self { input_vars_names, target_var_name, terms, default }
    }

    /// The place of the first term from `from` on whose guard holds in the
    /// state, and the number of terms where there is none.
    pub open spec fn first_match(&self, names: Seq<Seq<char>>, state: Seq<int>, from: int) -> int
        decreases self.terms@.len() - from,
    {
        if from < 0 || from >= self.terms@.len() {
            self.terms@.len() as int
        } else if self.terms@[from].1.holds(names, state) {
            from
        } else {
            self.first_match(names, state, from + 1)
        }
    }

    /// The value that the variable takes next in the state.
    pub open spec fn next_value(&self, names: Seq<Seq<char>>, state: Seq<int>) -> int {
        let j = self.first_match(names, state, 0);
        if j < self.terms@.len() {
            self.terms@[j].0 as int
        } else {
            self.default as int
        }
    }

    /// Whether `value` is the default or the output of a term.
    pub open spec fn yields(&self, value: int) -> bool {
        self.default == value || exists|j: int|
            0 <= j < self.terms@.len() && (#[trigger] self.terms@[j]).0 == value
    }

    /// Whether some guard compares the variable `name` with `value`.
    pub open spec fn compares_with(&self, name: Seq<char>, value: int) -> bool {
        exists|j: int|
            0 <= j < self.terms@.len() && (#[trigger] self.terms@[j]).1.compares_with(name, value)
    }
}

/// The names of the variables of a network, by position.
pub open spec fn names_of(model: Seq<(String, UnprocessedVariableUpdateFn)>) -> Seq<Seq<char>> {
    Seq::new(model.len(), |i: int| model[i].0@)
}

/// Whether the network mentions `value` for its variable `i`: as an output
/// of that variable's function, or in a comparison with that variable in
/// any guard.
pub open spec fn mentions(
    model: Seq<(String, UnprocessedVariableUpdateFn)>,
    i: int,
    value: int,
) -> bool {
    model[i].1.yields(value) || exists|j: int|
        0 <= j < model.len() && (#[trigger] model[j]).1.compares_with(model[i].0@, value)
}

/// Whether `max` is the largest value that the network mentions for its
/// variable `i`.
pub open spec fn is_max_value(
    model: Seq<(String, UnprocessedVariableUpdateFn)>,
    i: int,
    max: int,
) -> bool {
    mentions(model, i, max) && forall|value: int| mentions(model, i, value) ==> value <= max
}

/// What `update_max` does to the bound of one variable: it rises to the
/// largest number that the expression compares the variable with, or stays.
pub open spec fn raised(before: int, after: int, expression: &Expression, name: Seq<char>) -> bool {
    &&& before <= after
    &&& forall|value: int| expression.compares_with(name, value) ==> value <= after
    &&& after == before || expression.compares_with(name, after)
}

/// Raises the bound of the proposition's variable to the proposition's
/// number where that is larger.
pub fn update_from_proposition(
    acc: &mut Vec<u8>,
    model: &Vec<(String, UnprocessedVariableUpdateFn)>,
    proposition: &Proposition,
)
    requires
        old(acc)@.len() == model@.len(),
    ensures
        final(acc)@.len() == old(acc)@.len(),
        forall|i: int|
            0 <= i < model@.len() ==> #[trigger] final(acc)@[i] == if model@[i].0@
                == proposition.variable@ && old(acc)@[i] < proposition.value {
                proposition.value
            } else {
                old(acc)@[i]
            },
{
    let mut i: usize = 0;
    while i < model.len()
        invariant
            i <= model@.len(),
            acc@.len() == model@.len(),
            acc@.len() == old(acc)@.len(),
            forall|k: int|
                0 <= k < i ==> #[trigger] acc@[k] == if model@[k].0@ == proposition.variable@
                    && old(acc)@[k] < proposition.value {
                    proposition.value
                } else {
                    old(acc)@[k]
                },
            forall|k: int| i <= k < model@.len() ==> #[trigger] acc@[k] == old(acc)@[k],
        decreases model@.len() - i,
    {
        if model[i].0 == proposition.variable && acc[i] < proposition.value {
            acc.set(i, proposition.value);
        }
        i = i + 1;
    }
}

/// Raises the bound of every variable to the largest number that the
/// expression compares it with, where that is larger.
pub fn update_max(
    acc: &mut Vec<u8>,
    model: &Vec<(String, UnprocessedVariableUpdateFn)>,
    expr: &Expression,
)
    requires
        old(acc)@.len() == model@.len(),
    ensures
        final(acc)@.len() == old(acc)@.len(),
        forall|i: int|
            0 <= i < model@.len() ==> raised(
                old(acc)@[i] as int,
                #[trigger] final(acc)@[i] as int,
                expr,
                model@[i].0@,
            ),
    decreases expr,
{
    let ghost before = acc@;
    match expr {
        Expression::Terminal(proposition) => {
            update_from_proposition(acc, model, proposition);
            proof {
                assert forall|i: int| 0 <= i < model@.len() implies raised(
                    before[i] as int,
                    #[trigger] acc@[i] as int,
                    expr,
                    model@[i].0@,
                ) by {
                    let name = model@[i].0@;
                    assert(forall|value: int|
                        expr.compares_with(name, value) <==> proposition.variable@ == name
                            && proposition.value == value);
                }
            }
        },
        Expression::Not(expression) => {
            update_max(acc, model, expression);
            proof {
                assert forall|i: int| 0 <= i < model@.len() implies raised(
                    before[i] as int,
                    #[trigger] acc@[i] as int,
                    expr,
                    model@[i].0@,
                ) by {
                    let name = model@[i].0@;
                    assert(raised(before[i] as int, acc@[i] as int, expression, name));
                    assert(forall|value: int|
                        expr.compares_with(name, value) <==> expression.compares_with(name, value));
                }
            }
        },
        Expression::And(clauses) => {
            update_max_all(acc, model, clauses);
            proof {
                assert forall|i: int| 0 <= i < model@.len() implies raised(
                    before[i] as int,
                    #[trigger] acc@[i] as int,
                    expr,
                    model@[i].0@,
                ) by {
                    let name = model@[i].0@;
                    assert(raised_by_any(
                        before[i] as int,
                        acc@[i] as int,
                        clauses@,
                        clauses@.len() as int,
                        name,
                    ));
                    assert forall|value: int| expr.compares_with(name, value) implies value
                        <= acc@[i] by {
                        let j = choose|j: int|
                            0 <= j < clauses@.len() && (#[trigger] clauses@[j]).compares_with(
                                name,
                                value,
                            );
                        assert(clauses@[j].compares_with(name, value));
                    }
                }
            }
        },
        Expression::Or(clauses) => {
            update_max_all(acc, model, clauses);
            proof {
                assert forall|i: int| 0 <= i < model@.len() implies raised(
                    before[i] as int,
                    #[trigger] acc@[i] as int,
                    expr,
                    model@[i].0@,
                ) by {
                    let name = model@[i].0@;
                    assert(raised_by_any(
                        before[i] as int,
                        acc@[i] as int,
                        clauses@,
                        clauses@.len() as int,
                        name,
                    ));
                    assert forall|value: int| expr.compares_with(name, value) implies value
                        <= acc@[i] by {
                        let j = choose|j: int|
                            0 <= j < clauses@.len() && (#[trigger] clauses@[j]).compares_with(
                                name,
                                value,
                            );
                        assert(clauses@[j].compares_with(name, value));
                    }
                }
            }
        },
        Expression::Xor(lhs, rhs) => {
            update_max(acc, model, lhs);
            let ghost between = acc@;
            update_max(acc, model, rhs);
            proof {
                assert forall|i: int| 0 <= i < model@.len() implies raised(
                    before[i] as int,
                    #[trigger] acc@[i] as int,
                    expr,
                    model@[i].0@,
                ) by {
                    let name = model@[i].0@;
                    assert(raised(before[i] as int, between[i] as int, lhs, name));
                    assert(raised(between[i] as int, acc@[i] as int, rhs, name));
                    assert(forall|value: int|
                        expr.compares_with(name, value) <==> lhs.compares_with(name, value)
                            || rhs.compares_with(name, value));
                }
            }
        },
        Expression::Implies(lhs, rhs) => {
            update_max(acc, model, lhs);
            let ghost between = acc@;
            update_max(acc, model, rhs);
            proof {
                assert forall|i: int| 0 <= i < model@.len() implies raised(
                    before[i] as int,
                    #[trigger] acc@[i] as int,
                    expr,
                    model@[i].0@,
                ) by {
                    let name = model@[i].0@;
                    assert(raised(before[i] as int, between[i] as int, lhs, name));
                    assert(raised(between[i] as int, acc@[i] as int, rhs, name));
                    assert(forall|value: int|
                        expr.compares_with(name, value) <==> lhs.compares_with(name, value)
                            || rhs.compares_with(name, value));
                }
            }
        },
    }
}

/// What `update_max_all` does to the bound of one variable.
pub open spec fn raised_by_any(
    before: int,
    after: int,
    clauses: Seq<Expression>,
    upto: int,
    name: Seq<char>,
) -> bool {
    &&& before <= after
    &&& forall|j: int, value: int|
        0 <= j < upto && #[trigger] clauses[j].compares_with(name, value) ==> value <= after
    &&& after == before || exists|j: int|
        0 <= j < upto && (#[trigger] clauses[j]).compares_with(name, after)
}

/// `update_max` for each expression of a list.
pub fn update_max_all(
    acc: &mut Vec<u8>,
    model: &Vec<(String, UnprocessedVariableUpdateFn)>,
    clauses: &Vec<Expression>,
)
    requires
        old(acc)@.len() == model@.len(),
    ensures
        final(acc)@.len() == old(acc)@.len(),
        forall|i: int|
            0 <= i < model@.len() ==> raised_by_any(
                old(acc)@[i] as int,
                #[trigger] final(acc)@[i] as int,
                clauses@,
                clauses@.len() as int,
                model@[i].0@,
            ),
    decreases clauses,
{
    let mut k: usize = 0;
    while k < clauses.len()
        invariant
            k <= clauses@.len(),
            acc@.len() == model@.len(),
            acc@.len() == old(acc)@.len(),
            forall|i: int|
                0 <= i < model@.len() ==> raised_by_any(
                    old(acc)@[i] as int,
                    #[trigger] acc@[i] as int,
                    clauses@,
                    k as int,
                    model@[i].0@,
                ),
        decreases clauses@.len() - k,
    {
        let ghost before = acc@;
        update_max(acc, model, &clauses[k]);
        proof {
            assert forall|i: int| 0 <= i < model@.len() implies raised_by_any(
                old(acc)@[i] as int,
                #[trigger] acc@[i] as int,
                clauses@,
                k + 1,
                model@[i].0@,
            ) by {
                let name = model@[i].0@;
                assert(raised(before[i] as int, acc@[i] as int, &clauses@[k as int], name));
                assert(raised_by_any(
                    old(acc)@[i] as int,
                    before[i] as int,
                    clauses@,
                    k as int,
                    name,
                ));
                if acc@[i] != old(acc)@[i] {
                    if acc@[i] == before[i] {
                        let j = choose|j: int|
                            0 <= j < k && (#[trigger] clauses@[j]).compares_with(
                                name,
                                before[i] as int,
                            );
                        assert(clauses@[j].compares_with(name, acc@[i] as int));
                    } else {
                        assert(clauses@[k as int].compares_with(name, acc@[i] as int));
                    }
                }
            }
        }
        k = k + 1;
    }
}

/// The largest output of a function, its default included.
pub fn max_output(update_fn: &UnprocessedVariableUpdateFn) -> (r: u8)
    ensures
        update_fn.yields(r as int),
        forall|value: int| update_fn.yields(value) ==> value <= r,
{
    let mut result = update_fn.default;
    let mut k: usize = 0;
    while k < update_fn.terms.len()
        invariant
            k <= update_fn.terms@.len(),
            update_fn.yields(result as int),
            update_fn.default <= result,
            forall|j: int| 0 <= j < k ==> (#[trigger] update_fn.terms@[j]).0 <= result,
        decreases update_fn.terms@.len() - k,
    {
        if update_fn.terms[k].0 > result {
            result = update_fn.terms[k].0;
            assert(update_fn.terms@[k as int].0 == result);
        }
        k = k + 1;
    }
    result
}

/// What the guards of the first `upto` terms do to the bound of one
/// variable.
pub open spec fn raised_by_terms(
    before: int,
    after: int,
    terms: Seq<(u8, Expression)>,
    upto: int,
    name: Seq<char>,
) -> bool {
    &&& before <= after
    &&& forall|j: int, value: int|
        0 <= j < upto && #[trigger] terms[j].1.compares_with(name, value) ==> value <= after
    &&& after == before || exists|j: int|
        0 <= j < upto && (#[trigger] terms[j]).1.compares_with(name, after)
}

/// What the guards of the first `upto` functions do to the bound of one
/// variable.
pub open spec fn raised_by_functions(
    before: int,
    after: int,
    model: Seq<(String, UnprocessedVariableUpdateFn)>,
    upto: int,
    name: Seq<char>,
) -> bool {
    &&& before <= after
    &&& forall|j: int, value: int|
        0 <= j < upto && #[trigger] model[j].1.compares_with(name, value) ==> value <= after
    &&& after == before || exists|j: int|
        0 <= j < upto && (#[trigger] model[j]).1.compares_with(name, after)
}

/// `update_max` for each guard of one function.
pub fn update_max_terms(
    acc: &mut Vec<u8>,
    model: &Vec<(String, UnprocessedVariableUpdateFn)>,
    terms: &Vec<(u8, Expression)>,
)
    requires
        old(acc)@.len() == model@.len(),
    ensures
        final(acc)@.len() == old(acc)@.len(),
        forall|i: int|
            0 <= i < model@.len() ==> raised_by_terms(
                old(acc)@[i] as int,
                #[trigger] final(acc)@[i] as int,
                terms@,
                terms@.len() as int,
                model@[i].0@,
            ),
{
    let mut k: usize = 0;
    while k < terms.len()
        invariant
            k <= terms@.len(),
            acc@.len() == model@.len(),
            acc@.len() == old(acc)@.len(),
            forall|i: int|
                0 <= i < model@.len() ==> raised_by_terms(
                    old(acc)@[i] as int,
                    #[trigger] acc@[i] as int,
                    terms@,
                    k as int,
                    model@[i].0@,
                ),
        decreases terms@.len() - k,
    {
        let ghost before = acc@;
        update_max(acc, model, &terms[k].1);
        proof {
            assert forall|i: int| 0 <= i < model@.len() implies raised_by_terms(
                old(acc)@[i] as int,
                #[trigger] acc@[i] as int,
                terms@,
                k + 1,
                model@[i].0@,
            ) by {
                let name = model@[i].0@;
                assert(raised(before[i] as int, acc@[i] as int, &terms@[k as int].1, name));
                assert(raised_by_terms(
                    old(acc)@[i] as int,
                    before[i] as int,
                    terms@,
                    k as int,
                    name,
                ));
                if acc@[i] != old(acc)@[i] {
                    if acc@[i] == before[i] {
                        let j = choose|j: int|
                            0 <= j < k && (#[trigger] terms@[j]).1.compares_with(
                                name,
                                before[i] as int,
                            );
                        assert(terms@[j].1.compares_with(name, acc@[i] as int));
                    } else {
                        assert(terms@[k as int].1.compares_with(name, acc@[i] as int));
                    }
                }
            }
        }
        k = k + 1;
    }
}

/// For every variable of the network, the largest value that the network
/// mentions for it: the largest of its own outputs, raised to any larger
/// number that a guard compares the variable with.
pub fn find_max_values(vars_and_their_update_fns: &Vec<(String, UnprocessedVariableUpdateFn)>) -> (r:
    Vec<u8>)
    ensures
        r@.len() == vars_and_their_update_fns@.len(),
        forall|i: int|
            0 <= i < r@.len() ==> is_max_value(vars_and_their_update_fns@, i, #[trigger] r@[i] as int),
{
    let model = vars_and_their_update_fns;
    let mut acc: Vec<u8> = Vec::new();
    let mut i: usize = 0;
    while i < model.len()
        invariant
            i <= model@.len(),
            acc@.len() == i,
            forall|k: int|
                0 <= k < i ==> model@[k].1.yields(#[trigger] acc@[k] as int) && forall|value: int|
                    model@[k].1.yields(value) ==> value <= acc@[k],
        decreases model@.len() - i,
    {
        let top = max_output(&model[i].1);
        acc.push(top);
        i = i + 1;
    }
    let ghost outputs = acc@;
    let mut j: usize = 0;
    while j < model.len()
        invariant
            j <= model@.len(),
            acc@.len() == model@.len(),
            outputs.len() == model@.len(),
            forall|k: int|
                0 <= k < model@.len() ==> model@[k].1.yields(#[trigger] outputs[k] as int)
                    && forall|value: int| model@[k].1.yields(value) ==> value <= outputs[k],
            forall|k: int|
                0 <= k < model@.len() ==> raised_by_functions(
                    outputs[k] as int,
                    #[trigger] acc@[k] as int,
                    model@,
                    j as int,
                    model@[k].0@,
                ),
        decreases model@.len() - j,
    {
        let ghost before = acc@;
        update_max_terms(&mut acc, model, &model[j].1.terms);
        proof {
            assert forall|k: int| 0 <= k < model@.len() implies raised_by_functions(
                outputs[k] as int,
                #[trigger] acc@[k] as int,
                model@,
                j + 1,
                model@[k].0@,
            ) by {
                let name = model@[k].0@;
                let terms = model@[j as int].1.terms@;
                assert(raised_by_terms(
                    before[k] as int,
                    acc@[k] as int,
                    terms,
                    terms.len() as int,
                    name,
                ));
                assert(raised_by_functions(
                    outputs[k] as int,
                    before[k] as int,
                    model@,
                    j as int,
                    name,
                ));
                assert forall|f: int, value: int|
                    0 <= f < j + 1 && #[trigger] model@[f].1.compares_with(
                        name,
                        value,
                    ) implies value <= acc@[k] by {
                    if f == j {
                        let t = choose|t: int|
                            0 <= t < terms.len() && (#[trigger] terms[t]).1.compares_with(
                                name,
                                value,
                            );
                        assert(terms[t].1.compares_with(name, value));
                    }
                }
                if acc@[k] != outputs[k] {
                    if acc@[k] == before[k] {
                        let f = choose|f: int|
                            0 <= f < j && (#[trigger] model@[f]).1.compares_with(
                                name,
                                before[k] as int,
                            );
                        assert(model@[f].1.compares_with(name, acc@[k] as int));
                    } else {
                        let t = choose|t: int|
                            0 <= t < terms.len() && (#[trigger] terms[t]).1.compares_with(
                                name,
                                acc@[k] as int,
                            );
                        assert(model@[j as int].1.compares_with(name, acc@[k] as int));
                    }
                }
            }
        }
        j = j + 1;
    }
    proof {
        assert forall|k: int| 0 <= k < acc@.len() implies is_max_value(
            model@,
            k,
            #[trigger] acc@[k] as int,
        ) by {
            let name = model@[k].0@;
            assert(raised_by_functions(
                outputs[k] as int,
                acc@[k] as int,
                model@,
                model@.len() as int,
                name,
            ));
            if acc@[k] != outputs[k] {
                let f = choose|f: int|
                    0 <= f < model@.len() && (#[trigger] model@[f]).1.compares_with(
                        name,
                        acc@[k] as int,
                    );
                assert(mentions(model@, k, acc@[k] as int));
            }
            assert forall|value: int| mentions(model@, k, value) implies value <= acc@[k] by {
                if !model@[k].1.yields(value) {
                    let f = choose|f: int|
                        0 <= f < model@.len() && (#[trigger] model@[f]).1.compares_with(
                            name,
                            value,
                        );
                    assert(model@[f].1.compares_with(name, value));
                }
            }
        }
    }
    acc
}

/// Where no guard holds, the next value is the default.
pub proof fn lemma_default_where_none_holds(
    update_fn: &UnprocessedVariableUpdateFn,
    names: Seq<Seq<char>>,
    state: Seq<int>,
)
    requires
        forall|j: int|
            0 <= j < update_fn.terms@.len() ==> !(#[trigger] update_fn.terms@[j]).1.holds(
                names,
                state,
            ),
    ensures
        update_fn.next_value(names, state) == update_fn.default,
{
    lemma_no_match_from(update_fn, names, state, 0);
}

/// Where no guard holds from a term on, there is no first match from it on.
pub proof fn lemma_no_match_from(
    update_fn: &UnprocessedVariableUpdateFn,
    names: Seq<Seq<char>>,
    state: Seq<int>,
    from: int,
)
    requires
        0 <= from,
        forall|j: int|
            from <= j < update_fn.terms@.len() ==> !(#[trigger] update_fn.terms@[j]).1.holds(
                names,
                state,
            ),
    ensures
        update_fn.first_match(names, state, from) == update_fn.terms@.len(),
    decreases update_fn.terms@.len() - from,
{
    if from < update_fn.terms@.len() {
        assert(!update_fn.terms@[from].1.holds(names, state));
        lemma_no_match_from(update_fn, names, state, from + 1);
    }
}

} // verus!
