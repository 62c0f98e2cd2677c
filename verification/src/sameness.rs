//! When two networks are one network: the same names, outputs, defaults
//! and guards, whatever values hold them.

use crate::closure::{abstract_closed, abstract_closure, abstract_step};
use crate::expression::{Expression, Proposition};
use crate::order::{insert_by_name, sorted_model};
use crate::semantics::{abstract_post, abstract_pre, in_domain};
use crate::unprocessed::{is_max_value, mentions, names_of, UnprocessedVariableUpdateFn};
use vstd::prelude::*;

verus! {

/// Two propositions that compare the same variable with the same number in
/// the same way.
pub open spec fn same_proposition(a: &Proposition, b: &Proposition) -> bool {
    a.comparison_operator == b.comparison_operator && a.variable@ == b.variable@ && a.value
        == b.value
}

/// Two expressions of the same structure over the same propositions.
pub open spec fn same_expression(a: &Expression, b: &Expression) -> bool
    decreases a,
{
    match a {
        Expression::Terminal(p) => match b {
            Expression::Terminal(q) => same_proposition(p, q),
            _ => false,
        },
        Expression::Not(x) => match b {
            Expression::Not(y) => same_expression(x, y),
            _ => false,
        },
        Expression::And(xs) => match b {
            Expression::And(ys) => xs@.len() == ys@.len() && forall|i: int|
                0 <= i < xs@.len() ==> same_expression(#[trigger] &xs@[i], &ys@[i]),
            _ => false,
        },
        Expression::Or(xs) => match b {
            Expression::Or(ys) => xs@.len() == ys@.len() && forall|i: int|
                0 <= i < xs@.len() ==> same_expression(#[trigger] &xs@[i], &ys@[i]),
            _ => false,
        },
        Expression::Xor(x1, x2) => match b {
            Expression::Xor(y1, y2) => same_expression(x1, y1) && same_expression(x2, y2),
            _ => false,
        },
        Expression::Implies(x1, x2) => match b {
            Expression::Implies(y1, y2) => same_expression(x1, y1) && same_expression(x2, y2),
            _ => false,
        },
    }
}

/// Two update functions with the same default and the same terms.
pub open spec fn same_function(a: &UnprocessedVariableUpdateFn, b: &UnprocessedVariableUpdateFn) -> bool {
    &&& a.default == b.default
    &&& a.terms@.len() == b.terms@.len()
    &&& forall|j: int|
        0 <= j < a.terms@.len() ==> (#[trigger] a.terms@[j]).0 == b.terms@[j].0 && same_expression(
            &a.terms@[j].1,
            &b.terms@[j].1,
        )
}

/// Two networks with the same variables, by name and in the same order,
/// each with the same update function.
pub open spec fn same_network(
    a: Seq<(String, UnprocessedVariableUpdateFn)>,
    b: Seq<(String, UnprocessedVariableUpdateFn)>,
) -> bool {
    &&& a.len() == b.len()
    &&& forall|i: int|
        0 <= i < a.len() ==> (#[trigger] a[i]).0@ == b[i].0@ && same_function(&a[i].1, &b[i].1)
}

/// An expression is the same as itself.
pub proof fn lemma_same_expression_reflexive(a: &Expression)
    ensures
        same_expression(a, a),
    decreases a,
{
    match a {
        Expression::Terminal(p) => {},
        Expression::Not(x) => {
            lemma_same_expression_reflexive(x);
        },
        Expression::And(xs) => {
            assert forall|i: int| 0 <= i < xs@.len() implies same_expression(
                #[trigger] &xs@[i],
                &xs@[i],
            ) by {
                lemma_same_expression_reflexive(&xs@[i]);
            }
        },
        Expression::Or(xs) => {
            assert forall|i: int| 0 <= i < xs@.len() implies same_expression(
                #[trigger] &xs@[i],
                &xs@[i],
            ) by {
                lemma_same_expression_reflexive(&xs@[i]);
            }
        },
        Expression::Xor(x1, x2) => {
            lemma_same_expression_reflexive(x1);
            lemma_same_expression_reflexive(x2);
        },
        Expression::Implies(x1, x2) => {
            lemma_same_expression_reflexive(x1);
            lemma_same_expression_reflexive(x2);
        },
    }
}

/// A network is the same as itself.
pub proof fn lemma_same_network_reflexive(a: Seq<(String, UnprocessedVariableUpdateFn)>)
    ensures
        same_network(a, a),
{
    assert forall|i: int| 0 <= i < a.len() implies (#[trigger] a[i]).0@ == a[i].0@
        && same_function(&a[i].1, &a[i].1) by {
        assert forall|j: int| 0 <= j < a[i].1.terms@.len() implies (#[trigger] a[i].1.terms@[j]).0
            == a[i].1.terms@[j].0 && same_expression(&a[i].1.terms@[j].1, &a[i].1.terms@[j].1) by {
            lemma_same_expression_reflexive(&a[i].1.terms@[j].1);
        }
    }
}

/// The same expressions hold in the same states.
pub proof fn lemma_same_holds(a: &Expression, b: &Expression, names: Seq<Seq<char>>, state: Seq<int>)
    requires
        same_expression(a, b),
    ensures
        a.holds(names, state) == b.holds(names, state),
    decreases a,
{
    match a {
        Expression::Terminal(p) => {},
        Expression::Not(x) => match b {
            Expression::Not(y) => {
                lemma_same_holds(x, y, names, state);
            },
            _ => {},
        },
        Expression::And(xs) => match b {
            Expression::And(ys) => {
                assert forall|i: int| 0 <= i < xs@.len() implies (#[trigger] xs@[i]).holds(
                    names,
                    state,
                ) == ys@[i].holds(names, state) by {
                    assert(same_expression(&xs@[i], &ys@[i]));
                    lemma_same_holds(&xs@[i], &ys@[i], names, state);
                }
                if a.holds(names, state) {
                    assert forall|i: int| 0 <= i < ys@.len() implies (#[trigger] ys@[i]).holds(
                        names,
                        state,
                    ) by {
                        assert(xs@[i].holds(names, state));
                    }
                }
                if b.holds(names, state) {
                    assert forall|i: int| 0 <= i < xs@.len() implies (#[trigger] xs@[i]).holds(
                        names,
                        state,
                    ) by {
                        assert(ys@[i].holds(names, state));
                    }
                }
            },
            _ => {},
        },
        Expression::Or(xs) => match b {
            Expression::Or(ys) => {
                assert forall|i: int| 0 <= i < xs@.len() implies (#[trigger] xs@[i]).holds(
                    names,
                    state,
                ) == ys@[i].holds(names, state) by {
                    assert(same_expression(&xs@[i], &ys@[i]));
                    lemma_same_holds(&xs@[i], &ys@[i], names, state);
                }
                if a.holds(names, state) {
                    let i = choose|i: int|
                        0 <= i < xs@.len() && (#[trigger] xs@[i]).holds(names, state);
                    assert(ys@[i].holds(names, state));
                }
                if b.holds(names, state) {
                    let i = choose|i: int|
                        0 <= i < ys@.len() && (#[trigger] ys@[i]).holds(names, state);
                    assert(xs@[i].holds(names, state));
                }
            },
            _ => {},
        },
        Expression::Xor(x1, x2) => match b {
            Expression::Xor(y1, y2) => {
                lemma_same_holds(x1, y1, names, state);
                lemma_same_holds(x2, y2, names, state);
            },
            _ => {},
        },
        Expression::Implies(x1, x2) => match b {
            Expression::Implies(y1, y2) => {
                lemma_same_holds(x1, y1, names, state);
                lemma_same_holds(x2, y2, names, state);
            },
            _ => {},
        },
    }
}

/// The same expressions compare the same variables with the same numbers.
pub proof fn lemma_same_compares(a: &Expression, b: &Expression, name: Seq<char>, value: int)
    requires
        same_expression(a, b),
    ensures
        a.compares_with(name, value) == b.compares_with(name, value),
    decreases a,
{
    match a {
        Expression::Terminal(p) => {},
        Expression::Not(x) => match b {
            Expression::Not(y) => {
                lemma_same_compares(x, y, name, value);
            },
            _ => {},
        },
        Expression::And(xs) => match b {
            Expression::And(ys) => {
                assert forall|i: int| 0 <= i < xs@.len() implies (
                #[trigger] xs@[i]).compares_with(name, value) == ys@[i].compares_with(
                    name,
                    value,
                ) by {
                    assert(same_expression(&xs@[i], &ys@[i]));
                    lemma_same_compares(&xs@[i], &ys@[i], name, value);
                }
                if a.compares_with(name, value) {
                    let i = choose|i: int|
                        0 <= i < xs@.len() && (#[trigger] xs@[i]).compares_with(name, value);
                    assert(ys@[i].compares_with(name, value));
                }
                if b.compares_with(name, value) {
                    let i = choose|i: int|
                        0 <= i < ys@.len() && (#[trigger] ys@[i]).compares_with(name, value);
                    assert(xs@[i].compares_with(name, value));
                }
            },
            _ => {},
        },
        Expression::Or(xs) => match b {
            Expression::Or(ys) => {
                assert forall|i: int| 0 <= i < xs@.len() implies (
                #[trigger] xs@[i]).compares_with(name, value) == ys@[i].compares_with(
                    name,
                    value,
                ) by {
                    assert(same_expression(&xs@[i], &ys@[i]));
                    lemma_same_compares(&xs@[i], &ys@[i], name, value);
                }
                if a.compares_with(name, value) {
                    let i = choose|i: int|
                        0 <= i < xs@.len() && (#[trigger] xs@[i]).compares_with(name, value);
                    assert(ys@[i].compares_with(name, value));
                }
                if b.compares_with(name, value) {
                    let i = choose|i: int|
                        0 <= i < ys@.len() && (#[trigger] ys@[i]).compares_with(name, value);
                    assert(xs@[i].compares_with(name, value));
                }
            },
            _ => {},
        },
        Expression::Xor(x1, x2) => match b {
            Expression::Xor(y1, y2) => {
                lemma_same_compares(x1, y1, name, value);
                lemma_same_compares(x2, y2, name, value);
            },
            _ => {},
        },
        Expression::Implies(x1, x2) => match b {
            Expression::Implies(y1, y2) => {
                lemma_same_compares(x1, y1, name, value);
                lemma_same_compares(x2, y2, name, value);
            },
            _ => {},
        },
    }
}

/// The same functions have their first match at the same term.
pub proof fn lemma_same_first_match(
    a: &UnprocessedVariableUpdateFn,
    b: &UnprocessedVariableUpdateFn,
    names: Seq<Seq<char>>,
    state: Seq<int>,
    from: int,
)
    requires
        same_function(a, b),
    ensures
        a.first_match(names, state, from) == b.first_match(names, state, from),
    decreases a.terms@.len() - from,
{
    if 0 <= from < a.terms@.len() {
        assert(same_expression(&a.terms@[from].1, &b.terms@[from].1));
        lemma_same_holds(&a.terms@[from].1, &b.terms@[from].1, names, state);
        if !a.terms@[from].1.holds(names, state) {
            lemma_same_first_match(a, b, names, state, from + 1);
        }
    }
}

/// The same functions give the same next value, have the same outputs and
/// compare the same variables with the same numbers.
pub proof fn lemma_same_function(
    a: &UnprocessedVariableUpdateFn,
    b: &UnprocessedVariableUpdateFn,
    names: Seq<Seq<char>>,
    state: Seq<int>,
    name: Seq<char>,
    value: int,
)
    requires
        same_function(a, b),
    ensures
        a.next_value(names, state) == b.next_value(names, state),
        a.yields(value) == b.yields(value),
        a.compares_with(name, value) == b.compares_with(name, value),
{
    lemma_same_first_match(a, b, names, state, 0);
    crate::variable_update_fn::lemma_first_match(a, names, state, 0);
    let j = a.first_match(names, state, 0);
    if j < a.terms@.len() {
        assert(a.terms@[j].0 == b.terms@[j].0);
    }
    if a.yields(value) && a.default != value {
        let k = choose|k: int| 0 <= k < a.terms@.len() && (#[trigger] a.terms@[k]).0 == value;
        assert(b.terms@[k].0 == value);
    }
    if b.yields(value) && b.default != value {
        let k = choose|k: int| 0 <= k < b.terms@.len() && (#[trigger] b.terms@[k]).0 == value;
        assert(a.terms@[k].0 == value);
    }
    if a.compares_with(name, value) {
        let k = choose|k: int|
            0 <= k < a.terms@.len() && (#[trigger] a.terms@[k]).1.compares_with(name, value);
        lemma_same_compares(&a.terms@[k].1, &b.terms@[k].1, name, value);
        assert(b.terms@[k].1.compares_with(name, value));
    }
    if b.compares_with(name, value) {
        let k = choose|k: int|
            0 <= k < b.terms@.len() && (#[trigger] b.terms@[k]).1.compares_with(name, value);
        assert(same_expression(&a.terms@[k].1, &b.terms@[k].1));
        lemma_same_compares(&a.terms@[k].1, &b.terms@[k].1, name, value);
        assert(a.terms@[k].1.compares_with(name, value));
    }
}

/// The same networks have the same names and mention the same values.
pub proof fn lemma_same_mentions(
    a: Seq<(String, UnprocessedVariableUpdateFn)>,
    b: Seq<(String, UnprocessedVariableUpdateFn)>,
    i: int,
    value: int,
)
    requires
        same_network(a, b),
        0 <= i < a.len(),
    ensures
        names_of(a) == names_of(b),
        mentions(a, i, value) == mentions(b, i, value),
{
    assert(names_of(a) =~= names_of(b));
    let names = names_of(a);
    let state = Seq::<int>::empty();
    lemma_same_function(&a[i].1, &b[i].1, names, state, a[i].0@, value);
    if mentions(a, i, value) && !a[i].1.yields(value) {
        let j = choose|j: int|
            0 <= j < a.len() && (#[trigger] a[j]).1.compares_with(a[i].0@, value);
        lemma_same_function(&a[j].1, &b[j].1, names, state, a[i].0@, value);
        assert(b[j].1.compares_with(b[i].0@, value));
    }
    if mentions(b, i, value) && !b[i].1.yields(value) {
        let j = choose|j: int|
            0 <= j < b.len() && (#[trigger] b[j]).1.compares_with(b[i].0@, value);
        assert(same_function(&a[j].1, &b[j].1));
        lemma_same_function(&a[j].1, &b[j].1, names, state, a[i].0@, value);
        assert(a[j].1.compares_with(a[i].0@, value));
    }
}

/// The same networks have the same largest values and the same states.
pub proof fn lemma_same_domains(
    a: Seq<(String, UnprocessedVariableUpdateFn)>,
    b: Seq<(String, UnprocessedVariableUpdateFn)>,
)
    requires
        same_network(a, b),
    ensures
        forall|i: int, max: int|
            0 <= i < a.len() ==> #[trigger] is_max_value(a, i, max) == is_max_value(b, i, max),
        forall|x: Seq<int>| #[trigger] in_domain(a, x) == in_domain(b, x),
{
    assert forall|i: int, v: int| 0 <= i < a.len() implies #[trigger] mentions(a, i, v)
        == mentions(b, i, v) by {
        lemma_same_mentions(a, b, i, v);
    }
    assert forall|i: int, max: int| 0 <= i < a.len() implies #[trigger] is_max_value(a, i, max)
        == is_max_value(b, i, max) by {
        if is_max_value(a, i, max) {
            assert forall|v: int| mentions(b, i, v) implies v <= max by {
                assert(mentions(a, i, v));
            }
        }
        if is_max_value(b, i, max) {
            assert forall|v: int| mentions(a, i, v) implies v <= max by {
                assert(mentions(b, i, v));
            }
        }
    }
    assert forall|x: Seq<int>| #[trigger] in_domain(a, x) == in_domain(b, x) by {
        if in_domain(a, x) {
            assert forall|j: int| 0 <= j < b.len() implies 0 <= #[trigger] x[j] && exists|v: int|
                mentions(b, j, v) && x[j] <= v by {
                let v = choose|v: int| mentions(a, j, v) && x[j] <= v;
                assert(mentions(b, j, v) && x[j] <= v);
            }
        }
        if in_domain(b, x) {
            assert forall|j: int| 0 <= j < a.len() implies 0 <= #[trigger] x[j] && exists|v: int|
                mentions(a, j, v) && x[j] <= v by {
                let v = choose|v: int| mentions(b, j, v) && x[j] <= v;
                assert(mentions(a, j, v) && x[j] <= v);
            }
        }
    }
}

/// The same networks take the same steps on states, forwards and
/// backwards.
pub proof fn lemma_same_steps(
    a: Seq<(String, UnprocessedVariableUpdateFn)>,
    b: Seq<(String, UnprocessedVariableUpdateFn)>,
    forward: bool,
    i: int,
    xs: Set<Seq<int>>,
)
    requires
        same_network(a, b),
        0 <= i < a.len(),
    ensures
        abstract_step(a, forward, i, xs) == abstract_step(b, forward, i, xs),
{
    lemma_same_domains(a, b);
    assert(names_of(a) =~= names_of(b));
    let names = names_of(a);
    assert forall|x: Seq<int>|
        a[i].1.next_value(names, x) == #[trigger] b[i].1.next_value(names, x) by {
        lemma_same_function(&a[i].1, &b[i].1, names, x, names[i], 0);
    }
    if forward {
        assert forall|y: Seq<int>| abstract_post(a, i, xs).contains(y) <==> abstract_post(
            b,
            i,
            xs,
        ).contains(y) by {
            if abstract_post(a, i, xs).contains(y) {
                let x = choose|x: Seq<int>|
                    #[trigger] xs.contains(x) && y == x.update(i, a[i].1.next_value(names, x));
                assert(xs.contains(x) && y == x.update(i, b[i].1.next_value(names, x)));
            }
            if abstract_post(b, i, xs).contains(y) {
                let x = choose|x: Seq<int>|
                    #[trigger] xs.contains(x) && y == x.update(i, b[i].1.next_value(names, x));
                assert(xs.contains(x) && y == x.update(i, a[i].1.next_value(names, x)));
            }
        }
        assert(abstract_post(a, i, xs) =~= abstract_post(b, i, xs));
    } else {
        assert forall|x: Seq<int>| abstract_pre(a, i, xs).contains(x) <==> abstract_pre(
            b,
            i,
            xs,
        ).contains(x) by {
            assert(in_domain(a, x) == in_domain(b, x));
            assert(a[i].1.next_value(names, x) == b[i].1.next_value(names, x));
        }
        assert(abstract_pre(a, i, xs) =~= abstract_pre(b, i, xs));
    }
}

/// In the same networks the same states are reached from the same states.
pub proof fn lemma_same_closure(
    a: Seq<(String, UnprocessedVariableUpdateFn)>,
    b: Seq<(String, UnprocessedVariableUpdateFn)>,
    forward: bool,
    xs: Set<Seq<int>>,
)
    requires
        same_network(a, b),
    ensures
        abstract_closure(a, forward, xs) == abstract_closure(b, forward, xs),
{
    assert forall|c: Set<Seq<int>>| #[trigger]
        abstract_closed(a, forward, c) == abstract_closed(b, forward, c) by {
        assert forall|i: int| 0 <= i < a.len() implies #[trigger] abstract_step(a, forward, i, c)
            == abstract_step(b, forward, i, c) by {
            lemma_same_steps(a, b, forward, i, c);
        }
        if abstract_closed(a, forward, c) {
            assert forall|i: int| 0 <= i < b.len() implies (#[trigger] abstract_step(
                b,
                forward,
                i,
                c,
            )).subset_of(c) by {
                assert(abstract_step(a, forward, i, c).subset_of(c));
            }
        }
        if abstract_closed(b, forward, c) {
            assert forall|i: int| 0 <= i < a.len() implies (#[trigger] abstract_step(
                a,
                forward,
                i,
                c,
            )).subset_of(c) by {
                assert(abstract_step(b, forward, i, c).subset_of(c));
            }
        }
    }
    assert forall|y: Seq<int>| abstract_closure(a, forward, xs).contains(y) <==> abstract_closure(
        b,
        forward,
        xs,
    ).contains(y) by {
        if abstract_closure(a, forward, xs).contains(y) {
            assert forall|c: Set<Seq<int>>|
                xs.subset_of(c) && #[trigger] abstract_closed(b, forward, c) implies c.contains(
                y,
            ) by {
                assert(abstract_closed(a, forward, c));
            }
        }
        if abstract_closure(b, forward, xs).contains(y) {
            assert forall|c: Set<Seq<int>>|
                xs.subset_of(c) && #[trigger] abstract_closed(a, forward, c) implies c.contains(
                y,
            ) by {
                assert(abstract_closed(b, forward, c));
            }
        }
    }
    assert(abstract_closure(a, forward, xs) =~= abstract_closure(b, forward, xs));
}

/// Inserting the same entry into the same lists gives the same lists.
pub proof fn lemma_same_insert(
    a: Seq<(String, UnprocessedVariableUpdateFn)>,
    b: Seq<(String, UnprocessedVariableUpdateFn)>,
    x: (String, UnprocessedVariableUpdateFn),
    y: (String, UnprocessedVariableUpdateFn),
)
    requires
        same_network(a, b),
        x.0@ == y.0@,
        same_function(&x.1, &y.1),
    ensures
        same_network(insert_by_name(a, x), insert_by_name(b, y)),
    decreases a.len(),
{
    if a.len() > 0 {
        assert(a.last().0@ == b.last().0@);
        assert(a[a.len() - 1].0@ == b[b.len() - 1].0@);
    }
    if a.len() > 0 && crate::order::lex_less(x.0@, a.last().0@) {
        let shorter_a = a.drop_last();
        let shorter_b = b.drop_last();
        assert forall|i: int| 0 <= i < shorter_a.len() implies (#[trigger] shorter_a[i]).0@
            == shorter_b[i].0@ && same_function(&shorter_a[i].1, &shorter_b[i].1) by {
            assert(shorter_a[i] == a[i] && shorter_b[i] == b[i]);
        }
        lemma_same_insert(shorter_a, shorter_b, x, y);
        let inner_a = insert_by_name(shorter_a, x);
        let inner_b = insert_by_name(shorter_b, y);
        let out_a = inner_a.push(a.last());
        let out_b = inner_b.push(b.last());
        assert forall|i: int| 0 <= i < out_a.len() implies (#[trigger] out_a[i]).0@ == out_b[i].0@
            && same_function(&out_a[i].1, &out_b[i].1) by {
            if i < inner_a.len() {
                assert(out_a[i] == inner_a[i] && out_b[i] == inner_b[i]);
            } else {
                assert(out_a[i] == a[a.len() - 1] && out_b[i] == b[b.len() - 1]);
            }
        }
    } else {
        let out_a = a.push(x);
        let out_b = b.push(y);
        assert forall|i: int| 0 <= i < out_a.len() implies (#[trigger] out_a[i]).0@ == out_b[i].0@
            && same_function(&out_a[i].1, &out_b[i].1) by {
            if i < a.len() {
                assert(out_a[i] == a[i] && out_b[i] == b[i]);
            }
        }
    }
}

/// The same networks are the same after sorting: two systems built of the
/// same network, however it was written down twice, are systems of one
/// network.
pub proof fn lemma_same_sorted(
    a: Seq<(String, UnprocessedVariableUpdateFn)>,
    b: Seq<(String, UnprocessedVariableUpdateFn)>,
)
    requires
        same_network(a, b),
    ensures
        same_network(sorted_model(a), sorted_model(b)),
    decreases a.len(),
{
    if a.len() > 0 {
        let rest_a = a.drop_first();
        let rest_b = b.drop_first();
        assert forall|i: int| 0 <= i < rest_a.len() implies (#[trigger] rest_a[i]).0@
            == rest_b[i].0@ && same_function(&rest_a[i].1, &rest_b[i].1) by {
            assert(rest_a[i] == a[i + 1] && rest_b[i] == b[i + 1]);
        }
        lemma_same_sorted(rest_a, rest_b);
        lemma_same_insert(sorted_model(rest_a), sorted_model(rest_b), a[0], b[0]);
    }
}

} // verus!
