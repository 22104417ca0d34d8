//! Printable trees, and trees with their products and quotients in
//! parentheses.
//!
//! The text of a tree shows every product and quotient in parentheses, so
//! reading it gives the tree in which each of them is an atom of its own. A
//! tree is printable if its text can be read back at all.

use crate::evaluation::Arithmetic;
use crate::expression::{AtomView, ExpressionView, MExpressionView};
use crate::lexer::all_printable;
use crate::token::{is_name, TokenView};
use vstd::prelude::*;

verus! {

impl ExpressionView {
    /// Whether the text of the expression can be read back: no integer in it
    /// is negative, and every name in it is a run of at least one name
    /// character.
    pub open spec fn printable(self) -> bool
        decreases self,
    {
        match self {
            ExpressionView::Add(left, right) => left.printable() && right.printable(),
            ExpressionView::Subtract(left, right) => left.printable() && right.printable(),
            ExpressionView::MExpression(inner) => inner.printable(),
        }
    }

    /// The expression with every product and quotient in parentheses of its
    /// own, as the text shows them.
    pub open spec fn parenthesised(self) -> ExpressionView
        decreases self,
    {
        match self {
            ExpressionView::Add(left, right) => ExpressionView::Add(
                left.parenthesised(),
                Box::new(right.parenthesised()),
            ),
            ExpressionView::Subtract(left, right) => ExpressionView::Subtract(
                left.parenthesised(),
                Box::new(right.parenthesised()),
            ),
            ExpressionView::MExpression(inner) => ExpressionView::MExpression(
                inner.parenthesised(),
            ),
        }
    }
}

impl MExpressionView {
    /// Whether the text of the term can be read back.
    pub open spec fn printable(self) -> bool
        decreases self,
    {
        match self {
            MExpressionView::Multiply(left, right) => left.printable() && right.printable(),
            MExpressionView::Divide(left, right) => left.printable() && right.printable(),
            MExpressionView::Atom(inner) => inner.printable(),
        }
    }

    /// The term with every product and quotient in parentheses of its own:
    /// a product or quotient becomes an atom that holds it.
    pub open spec fn parenthesised(self) -> MExpressionView
        decreases self,
    {
        match self {
            MExpressionView::Multiply(left, right) => MExpressionView::Atom(
                AtomView::Expression(
                    Box::new(
                        ExpressionView::MExpression(
                            MExpressionView::Multiply(
                                left.parenthesised(),
                                Box::new(right.parenthesised()),
                            ),
                        ),
                    ),
                ),
            ),
            MExpressionView::Divide(left, right) => MExpressionView::Atom(
                AtomView::Expression(
                    Box::new(
                        ExpressionView::MExpression(
                            MExpressionView::Divide(
                                left.parenthesised(),
                                Box::new(right.parenthesised()),
                            ),
                        ),
                    ),
                ),
            ),
            MExpressionView::Atom(inner) => MExpressionView::Atom(inner.parenthesised()),
        }
    }
}

impl AtomView {
    /// Whether the text of the atom can be read back.
    pub open spec fn printable(self) -> bool
        decreases self,
    {
        match self {
            AtomView::Expression(inner) => inner.printable(),
            AtomView::Integer(n) => n >= 0,
            AtomView::Variable(name) => is_name(name),
        }
    }

    /// The atom with every product and quotient in parentheses of its own.
    pub open spec fn parenthesised(self) -> AtomView
        decreases self,
    {
        match self {
            AtomView::Expression(inner) => AtomView::Expression(Box::new(inner.parenthesised())),
            _ => self,
        }
    }
}

/// Parentheses do not change a value: under any arithmetic an expression
/// with every product and quotient in parentheses evaluates as the
/// expression itself.
pub proof fn lemma_expression_value_parenthesised<V>(
    expression: ExpressionView,
    arithmetic: Arithmetic<V>,
)
    ensures
        expression.parenthesised().value(arithmetic) == expression.value(arithmetic),
    decreases expression,
{
    match expression {
        ExpressionView::Add(left, right) => {
            lemma_m_expression_value_parenthesised(left, arithmetic);
            lemma_expression_value_parenthesised(*right, arithmetic);
        },
        ExpressionView::Subtract(left, right) => {
            lemma_m_expression_value_parenthesised(left, arithmetic);
            lemma_expression_value_parenthesised(*right, arithmetic);
        },
        ExpressionView::MExpression(inner) => {
            lemma_m_expression_value_parenthesised(inner, arithmetic);
        },
    }
}

/// Parentheses do not change the value of a term.
pub proof fn lemma_m_expression_value_parenthesised<V>(
    term: MExpressionView,
    arithmetic: Arithmetic<V>,
)
    ensures
        term.parenthesised().value(arithmetic) == term.value(arithmetic),
    decreases term,
{
    match term {
        MExpressionView::Multiply(left, right) => {
            lemma_atom_value_parenthesised(left, arithmetic);
            lemma_m_expression_value_parenthesised(*right, arithmetic);
            let product = MExpressionView::Multiply(
                left.parenthesised(),
                Box::new(right.parenthesised()),
            );
            let inside = ExpressionView::MExpression(product);
            let atom = AtomView::Expression(Box::new(inside));
            assert(inside.value(arithmetic) == product.value(arithmetic));
            assert(atom.value(arithmetic) == inside.value(arithmetic));
            assert(MExpressionView::Atom(atom).value(arithmetic) == atom.value(arithmetic));
        },
        MExpressionView::Divide(left, right) => {
            lemma_atom_value_parenthesised(left, arithmetic);
            lemma_m_expression_value_parenthesised(*right, arithmetic);
            let product = MExpressionView::Divide(
                left.parenthesised(),
                Box::new(right.parenthesised()),
            );
            let inside = ExpressionView::MExpression(product);
            let atom = AtomView::Expression(Box::new(inside));
            assert(inside.value(arithmetic) == product.value(arithmetic));
            assert(atom.value(arithmetic) == inside.value(arithmetic));
            assert(MExpressionView::Atom(atom).value(arithmetic) == atom.value(arithmetic));
        },
        MExpressionView::Atom(inner) => {
            lemma_atom_value_parenthesised(inner, arithmetic);
        },
    }
}

/// Parentheses do not change the value of an atom.
pub proof fn lemma_atom_value_parenthesised<V>(atom: AtomView, arithmetic: Arithmetic<V>)
    ensures
        atom.parenthesised().value(arithmetic) == atom.value(arithmetic),
    decreases atom,
{
    match atom {
        AtomView::Expression(inner) => {
            lemma_expression_value_parenthesised(*inner, arithmetic);
        },
        _ => {},
    }
}

/// If every token of a sequence is printable, so is every token of each of
/// its two parts.
pub proof fn lemma_all_printable_parts(first: Seq<TokenView>, second: Seq<TokenView>)
    requires
        all_printable(first + second),
    ensures
        all_printable(first),
        all_printable(second),
{
    let whole = first + second;
    assert forall|i: int| 0 <= i < first.len() implies (#[trigger] first[i]).printable() by {
        assert(whole[i] == first[i]);
    }
    assert forall|i: int| 0 <= i < second.len() implies (#[trigger] second[i]).printable() by {
        assert(whole[first.len() + i] == second[i]);
    }
}

/// An atom whose tokens are printable is printable.
pub proof fn lemma_atom_printable(atom: AtomView)
    requires
        all_printable(atom.tokens()),
    ensures
        atom.printable(),
    decreases atom,
{
    match atom {
        AtomView::Expression(inner) => {
            lemma_all_printable_parts(
                seq![TokenView::LeftParenthesis] + inner.tokens(),
                seq![TokenView::RightParenthesis],
            );
            lemma_all_printable_parts(seq![TokenView::LeftParenthesis], inner.tokens());
            lemma_expression_printable(*inner);
        },
        _ => {
            assert(atom.tokens()[0].printable());
        },
    }
}

/// A term whose tokens are printable is printable.
pub proof fn lemma_m_expression_printable(term: MExpressionView)
    requires
        all_printable(term.tokens()),
    ensures
        term.printable(),
    decreases term,
{
    match term {
        MExpressionView::Multiply(left, right) => {
            lemma_all_printable_parts(left.tokens() + seq![TokenView::Multiply], right.tokens());
            lemma_all_printable_parts(left.tokens(), seq![TokenView::Multiply]);
            lemma_atom_printable(left);
            lemma_m_expression_printable(*right);
        },
        MExpressionView::Divide(left, right) => {
            lemma_all_printable_parts(left.tokens() + seq![TokenView::Divide], right.tokens());
            lemma_all_printable_parts(left.tokens(), seq![TokenView::Divide]);
            lemma_atom_printable(left);
            lemma_m_expression_printable(*right);
        },
        MExpressionView::Atom(inner) => {
            lemma_atom_printable(inner);
        },
    }
}

/// An expression whose tokens are printable is printable.
pub proof fn lemma_expression_printable(expression: ExpressionView)
    requires
        all_printable(expression.tokens()),
    ensures
        expression.printable(),
    decreases expression,
{
    match expression {
        ExpressionView::Add(left, right) => {
            lemma_all_printable_parts(left.tokens() + seq![TokenView::Add], right.tokens());
            lemma_all_printable_parts(left.tokens(), seq![TokenView::Add]);
            lemma_m_expression_printable(left);
            lemma_expression_printable(*right);
        },
        ExpressionView::Subtract(left, right) => {
            lemma_all_printable_parts(left.tokens() + seq![TokenView::Subtract], right.tokens());
            lemma_all_printable_parts(left.tokens(), seq![TokenView::Subtract]);
            lemma_m_expression_printable(left);
            lemma_expression_printable(*right);
        },
        ExpressionView::MExpression(inner) => {
            lemma_m_expression_printable(inner);
        },
    }
}

/// Parentheses do not make an atom printable that was not.
pub proof fn lemma_atom_printable_parenthesised(atom: AtomView)
    ensures
        atom.parenthesised().printable() == atom.printable(),
    decreases atom,
{
    match atom {
        AtomView::Expression(inner) => {
            lemma_expression_printable_parenthesised(*inner);
        },
        _ => {},
    }
}

/// Parentheses do not make a term printable that was not.
pub proof fn lemma_m_expression_printable_parenthesised(term: MExpressionView)
    ensures
        term.parenthesised().printable() == term.printable(),
    decreases term,
{
    match term {
        MExpressionView::Multiply(left, right) => {
            lemma_atom_printable_parenthesised(left);
            lemma_m_expression_printable_parenthesised(*right);
            let product = MExpressionView::Multiply(
                left.parenthesised(),
                Box::new(right.parenthesised()),
            );
            let inside = ExpressionView::MExpression(product);
            let atom = AtomView::Expression(Box::new(inside));
            assert(inside.printable() == product.printable());
            assert(atom.printable() == inside.printable());
            assert(MExpressionView::Atom(atom).printable() == atom.printable());
        },
        MExpressionView::Divide(left, right) => {
            lemma_atom_printable_parenthesised(left);
            lemma_m_expression_printable_parenthesised(*right);
            let product = MExpressionView::Divide(
                left.parenthesised(),
                Box::new(right.parenthesised()),
            );
            let inside = ExpressionView::MExpression(product);
            let atom = AtomView::Expression(Box::new(inside));
            assert(inside.printable() == product.printable());
            assert(atom.printable() == inside.printable());
            assert(MExpressionView::Atom(atom).printable() == atom.printable());
        },
        MExpressionView::Atom(inner) => {
            lemma_atom_printable_parenthesised(inner);
        },
    }
}

/// Parentheses do not make an expression printable that was not.
pub proof fn lemma_expression_printable_parenthesised(expression: ExpressionView)
    ensures
        expression.parenthesised().printable() == expression.printable(),
    decreases expression,
{
    match expression {
        ExpressionView::Add(left, right) => {
            lemma_m_expression_printable_parenthesised(left);
            lemma_expression_printable_parenthesised(*right);
        },
        ExpressionView::Subtract(left, right) => {
            lemma_m_expression_printable_parenthesised(left);
            lemma_expression_printable_parenthesised(*right);
        },
        ExpressionView::MExpression(inner) => {
            lemma_m_expression_printable_parenthesised(inner);
        },
    }
}

} // verus!
