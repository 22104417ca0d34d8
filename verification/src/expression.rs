//! The syntax tree: three levels of nodes, one for each level of precedence.

use crate::decimal::{integer_string, integer_text};
use crate::token::TokenView;
use vstd::prelude::*;
use vstd::string::StringExecFns;

verus! {

/// A sum or difference of terms, nested to the right.
#[derive(Debug, PartialEq, Eq)]
pub enum Expression {
    Add(MExpression, Box<Expression>),
    Subtract(MExpression, Box<Expression>),
    MExpression(MExpression),
}

/// A product or quotient of atoms, nested to the right.
#[derive(Debug, PartialEq, Eq)]
pub enum MExpression {
    Multiply(Atom, Box<MExpression>),
    Divide(Atom, Box<MExpression>),
    Atom(Atom),
}

/// An integer, a variable, or an expression in parentheses.
#[derive(Debug, PartialEq, Eq)]
pub enum Atom {
    Expression(Box<Expression>),
    Integer(i64),
    Variable(String),
}

/// The mathematical value of an [`Expression`].
pub ghost enum ExpressionView {
    Add(MExpressionView, Box<ExpressionView>),
    Subtract(MExpressionView, Box<ExpressionView>),
    MExpression(MExpressionView),
}

/// The mathematical value of an [`MExpression`].
pub ghost enum MExpressionView {
    Multiply(AtomView, Box<MExpressionView>),
    Divide(AtomView, Box<MExpressionView>),
    Atom(AtomView),
}

/// The mathematical value of an [`Atom`]: a name is its sequence of
/// characters.
pub ghost enum AtomView {
    Expression(Box<ExpressionView>),
    Integer(i64),
    Variable(Seq<char>),
}

impl View for Expression {
    type V = ExpressionView;

    open spec fn view(&self) -> ExpressionView
        decreases self,
    {
        match self {
            Expression::Add(left, right) => ExpressionView::Add(
                left.view(),
                Box::new((**right).view()),
            ),
            Expression::Subtract(left, right) => ExpressionView::Subtract(
                left.view(),
                Box::new((**right).view()),
            ),
            Expression::MExpression(inner) => ExpressionView::MExpression(inner.view()),
        }
    }
}

impl View for MExpression {
    type V = MExpressionView;

    open spec fn view(&self) -> MExpressionView
        decreases self,
    {
        match self {
            MExpression::Multiply(left, right) => MExpressionView::Multiply(
                left.view(),
                Box::new((**right).view()),
            ),
            MExpression::Divide(left, right) => MExpressionView::Divide(
                left.view(),
                Box::new((**right).view()),
            ),
            MExpression::Atom(inner) => MExpressionView::Atom(inner.view()),
        }
    }
}

impl View for Atom {
    type V = AtomView;

    open spec fn view(&self) -> AtomView
        decreases self,
    {
        match self {
            Atom::Expression(inner) => AtomView::Expression(Box::new((**inner).view())),
            Atom::Integer(n) => AtomView::Integer(*n),
            Atom::Variable(name) => AtomView::Variable(name@),
        }
    }
}

impl DeepView for Expression {
    type V = ExpressionView;

    open spec fn deep_view(&self) -> ExpressionView {
        self@
    }
}

impl DeepView for MExpression {
    type V = MExpressionView;

    open spec fn deep_view(&self) -> MExpressionView {
        self@
    }
}

impl DeepView for Atom {
    type V = AtomView;

    open spec fn deep_view(&self) -> AtomView {
        self@
    }
}

impl ExpressionView {
    /// The text of the expression: its two sides about the operator.
    pub open spec fn text(self) -> Seq<char>
        decreases self,
    {
        match self {
            ExpressionView::Add(left, right) => left.text() + seq![' ', '+', ' '] + right.text(),
            ExpressionView::Subtract(left, right) => left.text() + seq![' ', '-', ' ']
                + right.text(),
            ExpressionView::MExpression(inner) => inner.text(),
        }
    }

    /// The tokens of the expression, from left to right.
    pub open spec fn tokens(self) -> Seq<TokenView>
        decreases self,
    {
        match self {
            ExpressionView::Add(left, right) => left.tokens() + seq![TokenView::Add]
                + right.tokens(),
            ExpressionView::Subtract(left, right) => left.tokens() + seq![TokenView::Subtract]
                + right.tokens(),
            ExpressionView::MExpression(inner) => inner.tokens(),
        }
    }
}

impl MExpressionView {
    /// The text of the term: a product or quotient stands in parentheses.
    pub open spec fn text(self) -> Seq<char>
        decreases self,
    {
        match self {
            MExpressionView::Multiply(left, right) => seq!['('] + left.text() + seq![' ', '*', ' ']
                + right.text() + seq![')'],
            MExpressionView::Divide(left, right) => seq!['('] + left.text() + seq![' ', '/', ' ']
                + right.text() + seq![')'],
            MExpressionView::Atom(inner) => inner.text(),
        }
    }

    /// The tokens of the term, from left to right.
    pub open spec fn tokens(self) -> Seq<TokenView>
        decreases self,
    {
        match self {
            MExpressionView::Multiply(left, right) => left.tokens() + seq![TokenView::Multiply]
                + right.tokens(),
            MExpressionView::Divide(left, right) => left.tokens() + seq![TokenView::Divide]
                + right.tokens(),
            MExpressionView::Atom(inner) => inner.tokens(),
        }
    }
}

impl AtomView {
    /// The text of the atom: an expression in parentheses, the decimal
    /// notation of an integer, the name of a variable.
    pub open spec fn text(self) -> Seq<char>
        decreases self,
    {
        match self {
            AtomView::Expression(inner) => seq!['('] + inner.text() + seq![')'],
            AtomView::Integer(n) => integer_text(n as int),
            AtomView::Variable(name) => name,
        }
    }

    /// The tokens of the atom, from left to right.
    pub open spec fn tokens(self) -> Seq<TokenView>
        decreases self,
    {
        match self {
            AtomView::Expression(inner) => seq![TokenView::LeftParenthesis] + inner.tokens()
                + seq![TokenView::RightParenthesis],
            AtomView::Integer(n) => seq![TokenView::Integer(n)],
            AtomView::Variable(name) => seq![TokenView::Variable(name)],
        }
    }
}

impl Expression {
    /// The text of the expression.
    pub fn to_string(&self) -> (text: String)
        ensures
            text@ == self@.text(),
        decreases self,
    {
        proof {
            reveal_strlit(" + ");
            reveal_strlit(" - ");
        }
        match self {
            Expression::Add(left, right) => {
                let mut text = left.to_string();
                text.append(" + ");
                text.append(right.to_string().as_str());
                assert(text@ =~= self@.text());
                text
            },
            Expression::Subtract(left, right) => {
                let mut text = left.to_string();
                text.append(" - ");
                text.append(right.to_string().as_str());
                assert(text@ =~= self@.text());
                text
            },
            Expression::MExpression(inner) => inner.to_string(),
        }
    }
}

impl MExpression {
    /// The text of the term.
    pub fn to_string(&self) -> (text: String)
        ensures
            text@ == self@.text(),
        decreases self,
    {
        proof {
            reveal_strlit("(");
            reveal_strlit(" * ");
            reveal_strlit(" / ");
            reveal_strlit(")");
        }
        match self {
            MExpression::Multiply(left, right) => {
                let mut text = String::from_str("(");
                text.append(left.to_string().as_str());
                text.append(" * ");
                text.append(right.to_string().as_str());
                text.append(")");
                assert(text@ =~= self@.text());
                text
            },
            MExpression::Divide(left, right) => {
                let mut text = String::from_str("(");
                text.append(left.to_string().as_str());
                text.append(" / ");
                text.append(right.to_string().as_str());
                text.append(")");
                assert(text@ =~= self@.text());
                text
            },
            MExpression::Atom(inner) => inner.to_string(),
        }
    }
}

impl Atom {
    /// The text of the atom.
    pub fn to_string(&self) -> (text: String)
        ensures
            text@ == self@.text(),
        decreases self,
    {
        proof {
            reveal_strlit("(");
            reveal_strlit(")");
        }
        match self {
            Atom::Expression(inner) => {
                let mut text = String::from_str("(");
                text.append(inner.to_string().as_str());
                text.append(")");
                assert(text@ =~= self@.text());
                text
            },
            Atom::Integer(n) => integer_string(*n),
            Atom::Variable(name) => name.clone(),
        }
    }
}

} // verus!
