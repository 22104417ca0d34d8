//! What a tree evaluates to, under any arithmetic.
//!
//! Evaluation folds a tree with four operations and an embedding of the
//! integers. A tree that holds a variable has no value.

use crate::expression::{Atom, AtomView, Expression, ExpressionView, MExpression, MExpressionView};
use vstd::prelude::*;

verus! {

/// An arithmetic over values of type `V`: what an integer stands for, and
/// the four operations.
#[verifier::reject_recursive_types(V)]
pub ghost struct Arithmetic<V> {
    pub number: spec_fn(i64) -> V,
    pub add: spec_fn(V, V) -> V,
    pub subtract: spec_fn(V, V) -> V,
    pub multiply: spec_fn(V, V) -> V,
    pub divide: spec_fn(V, V) -> V,
}

/// `operation` applied to two values, if both are there.
pub open spec fn combine<V>(operation: spec_fn(V, V) -> V, left: Option<V>, right: Option<V>)
    -> Option<V> {
    match (left, right) {
        (Some(a), Some(b)) => Some(operation(a, b)),
        _ => None,
    }
}

impl ExpressionView {
    /// The value of the expression: the left side plus or minus the right.
    pub open spec fn value<V>(self, arithmetic: Arithmetic<V>) -> Option<V>
        decreases self,
    {
        match self {
            ExpressionView::Add(left, right) => combine(
                arithmetic.add,
                left.value(arithmetic),
                right.value(arithmetic),
            ),
            ExpressionView::Subtract(left, right) => combine(
                arithmetic.subtract,
                left.value(arithmetic),
                right.value(arithmetic),
            ),
            ExpressionView::MExpression(inner) => inner.value(arithmetic),
        }
    }

    /// Whether a variable stands anywhere in the expression.
    pub open spec fn has_variable(self) -> bool
        decreases self,
    {
        match self {
            ExpressionView::Add(left, right) => left.has_variable() || right.has_variable(),
            ExpressionView::Subtract(left, right) => left.has_variable() || right.has_variable(),
            ExpressionView::MExpression(inner) => inner.has_variable(),
        }
    }

    /// An expression has a value exactly if it holds no variable.
    pub proof fn lemma_value_is_some<V>(self, arithmetic: Arithmetic<V>)
        ensures
            self.value(arithmetic) is Some <==> !self.has_variable(),
        decreases self,
    {
        match self {
            ExpressionView::Add(left, right) => {
                left.lemma_value_is_some(arithmetic);
                right.lemma_value_is_some(arithmetic);
            },
            ExpressionView::Subtract(left, right) => {
                left.lemma_value_is_some(arithmetic);
                right.lemma_value_is_some(arithmetic);
            },
            ExpressionView::MExpression(inner) => {
                inner.lemma_value_is_some(arithmetic);
            },
        }
    }
}

impl MExpressionView {
    /// The value of the term: the left side times or over the right.
    pub open spec fn value<V>(self, arithmetic: Arithmetic<V>) -> Option<V>
        decreases self,
    {
        match self {
            MExpressionView::Multiply(left, right) => combine(
                arithmetic.multiply,
                left.value(arithmetic),
                right.value(arithmetic),
            ),
            MExpressionView::Divide(left, right) => combine(
                arithmetic.divide,
                left.value(arithmetic),
                right.value(arithmetic),
            ),
            MExpressionView::Atom(inner) => inner.value(arithmetic),
        }
    }

    /// Whether a variable stands anywhere in the term.
    pub open spec fn has_variable(self) -> bool
        decreases self,
    {
        match self {
            MExpressionView::Multiply(left, right) => left.has_variable() || right.has_variable(),
            MExpressionView::Divide(left, right) => left.has_variable() || right.has_variable(),
            MExpressionView::Atom(inner) => inner.has_variable(),
        }
    }

    /// A term has a value exactly if it holds no variable.
    pub proof fn lemma_value_is_some<V>(self, arithmetic: Arithmetic<V>)
        ensures
            self.value(arithmetic) is Some <==> !self.has_variable(),
        decreases self,
    {
        match self {
            MExpressionView::Multiply(left, right) => {
                left.lemma_value_is_some(arithmetic);
                right.lemma_value_is_some(arithmetic);
            },
            MExpressionView::Divide(left, right) => {
                left.lemma_value_is_some(arithmetic);
                right.lemma_value_is_some(arithmetic);
            },
            MExpressionView::Atom(inner) => {
                inner.lemma_value_is_some(arithmetic);
            },
        }
    }
}

impl AtomView {
    /// The value of the atom: that of the expression in the parentheses, or
    /// what the integer stands for. A variable has none.
    pub open spec fn value<V>(self, arithmetic: Arithmetic<V>) -> Option<V>
        decreases self,
    {
        match self {
            AtomView::Expression(inner) => inner.value(arithmetic),
            AtomView::Integer(n) => Some((arithmetic.number)(n)),
            AtomView::Variable(_) => None,
        }
    }

    /// Whether a variable stands anywhere in the atom.
    pub open spec fn has_variable(self) -> bool
        decreases self,
    {
        match self {
            AtomView::Expression(inner) => inner.has_variable(),
            AtomView::Integer(_) => false,
            AtomView::Variable(_) => true,
        }
    }

    /// An atom has a value exactly if it holds no variable.
    pub proof fn lemma_value_is_some<V>(self, arithmetic: Arithmetic<V>)
        ensures
            self.value(arithmetic) is Some <==> !self.has_variable(),
        decreases self,
    {
        match self {
            AtomView::Expression(inner) => {
                inner.lemma_value_is_some(arithmetic);
            },
            _ => {},
        }
    }
}

impl Expression {
    /// Whether a variable stands anywhere in the expression, so that it
    /// cannot be evaluated.
    pub fn has_variable(&self) -> (found: bool)
        ensures
            found == self@.has_variable(),
        decreases self,
    {
        match self {
            Expression::Add(left, right) => left.has_variable() || right.has_variable(),
            Expression::Subtract(left, right) => left.has_variable() || right.has_variable(),
            Expression::MExpression(inner) => inner.has_variable(),
        }
    }
}

impl MExpression {
    /// Whether a variable stands anywhere in the term.
    pub fn has_variable(&self) -> (found: bool)
        ensures
            found == self@.has_variable(),
        decreases self,
    {
        match self {
            MExpression::Multiply(left, right) => left.has_variable() || right.has_variable(),
            MExpression::Divide(left, right) => left.has_variable() || right.has_variable(),
            MExpression::Atom(inner) => inner.has_variable(),
        }
    }
}

impl Atom {
    /// Whether a variable stands anywhere in the atom.
    pub fn has_variable(&self) -> (found: bool)
        ensures
            found == self@.has_variable(),
        decreases self,
    {
        match self {
            Atom::Expression(inner) => inner.has_variable(),
            Atom::Integer(_) => false,
            Atom::Variable(_) => true,
        }
    }
}

} // verus!
