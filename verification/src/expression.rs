//! Guards: Boolean expressions over comparisons of a variable with a
//! number.

use vstd::prelude::*;

verus! {

/// How a proposition compares its variable with its number.
#[derive(Clone, Copy, Debug, PartialEq, Eq, Structural)]
pub enum ComparisonOperator {
    Eq,
    Neq,
    Lt,
    Leq,
    Gt,
    Geq,
}

/// A comparison of the variable called `variable` with `value`.
#[derive(Clone, Debug)]
pub struct Proposition {
    pub comparison_operator: ComparisonOperator,
    pub variable: String,
    pub value: u8,
}

/// A Boolean expression over propositions.
#[derive(Debug)]
pub enum Expression {
    Terminal(Proposition),
    Not(Box<Expression>),
    And(Vec<Expression>),
    Or(Vec<Expression>),
    Xor(Box<Expression>, Box<Expression>),
    Implies(Box<Expression>, Box<Expression>),
}

/// Whether `left` stands to `right` as the operator says.
pub open spec fn compares(operator: ComparisonOperator, left: int, right: int) -> bool {
    match operator {
        ComparisonOperator::Eq => left == right,
        ComparisonOperator::Neq => left != right,
        ComparisonOperator::Lt => left < right,
        ComparisonOperator::Leq => left <= right,
        ComparisonOperator::Gt => left > right,
        ComparisonOperator::Geq => left >= right,
    }
}

impl Proposition {
    /// Whether the proposition holds in a state, which gives each variable
    /// of `names` its value, by position.
    pub open spec fn holds(&self, names: Seq<Seq<char>>, state: Seq<int>) -> bool {
        compares(
            self.comparison_operator,
            state[names.index_of(self.variable@)],
            self.value as int,
        )
    }
}

impl Expression {
    /// Whether the expression holds in a state, which gives each variable
    /// of `names` its value, by position.
    pub open spec fn holds(&self, names: Seq<Seq<char>>, state: Seq<int>) -> bool
        decreases self,
    {
        match self {
            Expression::Terminal(proposition) => proposition.holds(names, state),
            Expression::Not(inner) => !inner.holds(names, state),
            Expression::And(clauses) => forall|i: int|
                0 <= i < clauses@.len() ==> (#[trigger] clauses@[i]).holds(names, state),
            Expression::Or(clauses) => exists|i: int|
                0 <= i < clauses@.len() && (#[trigger] clauses@[i]).holds(names, state),
            Expression::Xor(lhs, rhs) => lhs.holds(names, state) != rhs.holds(names, state),
            Expression::Implies(lhs, rhs) => lhs.holds(names, state) ==> rhs.holds(names, state),
        }
    }

    /// Whether the expression compares the variable `name` with `value`
    /// somewhere.
    pub open spec fn compares_with(&self, name: Seq<char>, value: int) -> bool
        decreases self,
    {
        match self {
            Expression::Terminal(proposition) => proposition.variable@ == name
                && proposition.value == value,
            Expression::Not(inner) => inner.compares_with(name, value),
            Expression::And(clauses) => exists|i: int|
                0 <= i < clauses@.len() && (#[trigger] clauses@[i]).compares_with(name, value),
            Expression::Or(clauses) => exists|i: int|
                0 <= i < clauses@.len() && (#[trigger] clauses@[i]).compares_with(name, value),
            Expression::Xor(lhs, rhs) => lhs.compares_with(name, value) || rhs.compares_with(
                name,
                value,
            ),
            Expression::Implies(lhs, rhs) => lhs.compares_with(name, value) || rhs.compares_with(
                name,
                value,
            ),
        }
    }

    /// Whether the expression speaks of the variable `name`.
    pub open spec fn speaks_of(&self, name: Seq<char>) -> bool {
        exists|value: int| self.compares_with(name, value)
    }
}

/// Every number that an expression compares a variable with is a byte.
pub proof fn lemma_compared_values(e: &Expression, name: Seq<char>, value: int)
    requires
        e.compares_with(name, value),
    ensures
        0 <= value <= 255,
    decreases e,
{
    match e {
        Expression::Terminal(proposition) => {},
        Expression::Not(inner) => {
            lemma_compared_values(inner, name, value);
        },
        Expression::And(clauses) => {
            let i = choose|i: int|
                0 <= i < clauses@.len() && (#[trigger] clauses@[i]).compares_with(name, value);
            lemma_compared_values(&clauses@[i], name, value);
        },
        Expression::Or(clauses) => {
            let i = choose|i: int|
                0 <= i < clauses@.len() && (#[trigger] clauses@[i]).compares_with(name, value);
            lemma_compared_values(&clauses@[i], name, value);
        },
        Expression::Xor(lhs, rhs) => {
            if lhs.compares_with(name, value) {
                lemma_compared_values(lhs, name, value);
            } else {
                lemma_compared_values(rhs, name, value);
            }
        },
        Expression::Implies(lhs, rhs) => {
            if lhs.compares_with(name, value) {
                lemma_compared_values(lhs, name, value);
            } else {
                lemma_compared_values(rhs, name, value);
            }
        },
    }
}

} // verus!
