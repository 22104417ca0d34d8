//! The parser: recursive descent over a queue of tokens, with one token of
//! lookahead. Each level nests to the right.

use crate::expression::{AtomView, ExpressionView, MExpressionView};
use crate::outcome::result_view;
use crate::token::{Token, TokenView};
use std::collections::VecDeque;
use vstd::prelude::*;

pub use crate::expression::{Atom, Expression, MExpression};

verus! {

/// Why a sequence of tokens is no expression.
#[derive(Clone, Copy, Debug, PartialEq, Eq)]
pub enum ParseError {
    /// The tokens do not start with an expression.
    NoExpression,
    /// An expression after a left parenthesis is not followed by a right
    /// parenthesis.
    UnmatchedParentheses,
}

/// What a parse yields, and the tokens it leaves. `Ok(None)` says that
/// nothing of the kind was found.
pub ghost struct Parse<T> {
    pub outcome: Result<Option<T>, ParseError>,
    pub rest: Seq<TokenView>,
}

/// Whether `tokens` starts with `token`.
pub open spec fn starts_with(tokens: Seq<TokenView>, token: TokenView) -> bool {
    tokens.len() > 0 && tokens[0] == token
}

/// Whether `tokens` starts with `*` or `/`.
pub open spec fn continues_term(tokens: Seq<TokenView>) -> bool {
    starts_with(tokens, TokenView::Multiply) || starts_with(tokens, TokenView::Divide)
}

/// Whether `tokens` starts with one of the four operators.
pub open spec fn continues_expression(tokens: Seq<TokenView>) -> bool {
    starts_with(tokens, TokenView::Add) || starts_with(tokens, TokenView::Subtract)
        || continues_term(tokens)
}

/// The atom at the head of `tokens`: an integer, a variable, or an
/// expression between parentheses. Any other token, or none, is left in
/// place and no atom is found. A left parenthesis is taken; if no expression
/// follows it, no atom is found; if one follows, the next token must be a
/// right parenthesis.
pub open spec fn parsed_atom(tokens: Seq<TokenView>) -> Parse<AtomView>
    decreases tokens.len(), 0nat,
{
    if tokens.len() == 0 {
        Parse { outcome: Ok(None), rest: tokens }
    } else {
        match tokens[0] {
            TokenView::Integer(n) => Parse {
                outcome: Ok(Some(AtomView::Integer(n))),
                rest: tokens.drop_first(),
            },
            TokenView::Variable(name) => Parse {
                outcome: Ok(Some(AtomView::Variable(name))),
                rest: tokens.drop_first(),
            },
            TokenView::LeftParenthesis => {
                let inner = parsed_expression(tokens.drop_first());
                match inner.outcome {
                    Ok(Some(expression)) => if starts_with(
                        inner.rest,
                        TokenView::RightParenthesis,
                    ) {
                        Parse {
                            outcome: Ok(Some(AtomView::Expression(Box::new(expression)))),
                            rest: inner.rest.drop_first(),
                        }
                    } else {
                        Parse { outcome: Err(ParseError::UnmatchedParentheses), rest: inner.rest }
                    },
                    Ok(None) => Parse { outcome: Ok(None), rest: inner.rest },
                    Err(error) => Parse { outcome: Err(error), rest: inner.rest },
                }
            },
            _ => Parse { outcome: Ok(None), rest: tokens },
        }
    }
}

/// The term at the head of `tokens`: an atom, and, if `*` or `/` follows it,
/// the term after that operator. The operator is taken before its right
/// side is parsed; if no term follows it, no term is found.
///
/// The test that the atom left no more tokens than it was given holds of
/// every input; it is there to show that the definition is well founded.
pub open spec fn parsed_m_expression(tokens: Seq<TokenView>) -> Parse<MExpressionView>
    decreases tokens.len(), 1nat,
{
    let first = parsed_atom(tokens);
    match first.outcome {
        Ok(Some(left)) => {
            let multiply = starts_with(first.rest, TokenView::Multiply);
            let divide = starts_with(first.rest, TokenView::Divide);
            if first.rest.len() <= tokens.len() && (multiply || divide) {
                let second = parsed_m_expression(first.rest.drop_first());
                match second.outcome {
                    Ok(Some(right)) => Parse {
                        outcome: Ok(
                            Some(
                                if multiply {
                                    MExpressionView::Multiply(left, Box::new(right))
                                } else {
                                    MExpressionView::Divide(left, Box::new(right))
                                },
                            ),
                        ),
                        rest: second.rest,
                    },
                    Ok(None) => Parse { outcome: Ok(None), rest: second.rest },
                    Err(error) => Parse { outcome: Err(error), rest: second.rest },
                }
            } else {
                Parse { outcome: Ok(Some(MExpressionView::Atom(left))), rest: first.rest }
            }
        },
        Ok(None) => Parse { outcome: Ok(None), rest: first.rest },
        Err(error) => Parse { outcome: Err(error), rest: first.rest },
    }
}

/// The expression at the head of `tokens`: a term, and, if `+` or `-`
/// follows it, the expression after that operator. The operator is taken
/// before its right side is parsed; if no expression follows it, no
/// expression is found.
///
/// The test that the term left no more tokens than it was given holds of
/// every input; it is there to show that the definition is well founded.
pub open spec fn parsed_expression(tokens: Seq<TokenView>) -> Parse<ExpressionView>
    decreases tokens.len(), 2nat,
{
    let first = parsed_m_expression(tokens);
    match first.outcome {
        Ok(Some(left)) => {
            let add = starts_with(first.rest, TokenView::Add);
            let subtract = starts_with(first.rest, TokenView::Subtract);
            if first.rest.len() <= tokens.len() && (add || subtract) {
                let second = parsed_expression(first.rest.drop_first());
                match second.outcome {
                    Ok(Some(right)) => Parse {
                        outcome: Ok(
                            Some(
                                if add {
                                    ExpressionView::Add(left, Box::new(right))
                                } else {
                                    ExpressionView::Subtract(left, Box::new(right))
                                },
                            ),
                        ),
                        rest: second.rest,
                    },
                    Ok(None) => Parse { outcome: Ok(None), rest: second.rest },
                    Err(error) => Parse { outcome: Err(error), rest: second.rest },
                }
            } else {
                Parse { outcome: Ok(Some(ExpressionView::MExpression(left))), rest: first.rest }
            }
        },
        Ok(None) => Parse { outcome: Ok(None), rest: first.rest },
        Err(error) => Parse { outcome: Err(error), rest: first.rest },
    }
}

/// The expression that a whole sequence of tokens starts with. Tokens after
/// it are ignored.
pub open spec fn parsed(tokens: Seq<TokenView>) -> Result<ExpressionView, ParseError> {
    match parsed_expression(tokens).outcome {
        Ok(Some(expression)) => Ok(expression),
        Ok(None) => Err(ParseError::NoExpression),
        Err(error) => Err(error),
    }
}

/// An atom never leaves more tokens than it was given, and the tokens of an
/// atom that was found, followed by those it left, are the tokens given.
pub proof fn lemma_parsed_atom(tokens: Seq<TokenView>)
    ensures
        parsed_atom(tokens).rest.len() <= tokens.len(),
        parsed_atom(tokens).outcome matches Ok(Some(atom)) ==> tokens == atom.tokens()
            + parsed_atom(tokens).rest && atom.tokens().len() > 0,
    decreases tokens.len(), 0nat,
{
    if tokens.len() > 0 {
        let tail = tokens.drop_first();
        match tokens[0] {
            TokenView::Integer(n) => {
                assert(tokens =~= seq![tokens[0]] + tail);
            },
            TokenView::Variable(name) => {
                assert(tokens =~= seq![tokens[0]] + tail);
            },
            TokenView::LeftParenthesis => {
                lemma_parsed_expression(tail);
                let inner = parsed_expression(tail);
                match inner.outcome {
                    Ok(Some(expression)) => {
                        if starts_with(inner.rest, TokenView::RightParenthesis) {
                            assert(inner.rest =~= seq![TokenView::RightParenthesis]
                                + inner.rest.drop_first());
                            assert(tokens =~= seq![TokenView::LeftParenthesis] + tail);
                            assert(tokens =~= seq![TokenView::LeftParenthesis]
                                + expression.tokens() + seq![TokenView::RightParenthesis]
                                + inner.rest.drop_first());
                        }
                    },
                    _ => {},
                }
            },
            _ => {},
        }
    }
}

/// A term never leaves more tokens than it was given; the tokens of a term
/// that was found, followed by those it left, are the tokens given; and
/// those it left do not go on with `*` or `/`.
pub proof fn lemma_parsed_m_expression(tokens: Seq<TokenView>)
    ensures
        parsed_m_expression(tokens).rest.len() <= tokens.len(),
        parsed_m_expression(tokens).outcome matches Ok(Some(term)) ==> tokens == term.tokens()
            + parsed_m_expression(tokens).rest && term.tokens().len() > 0,
        parsed_m_expression(tokens).outcome matches Ok(Some(term)) ==> !continues_term(
            parsed_m_expression(tokens).rest,
        ),
    decreases tokens.len(), 1nat,
{
    lemma_parsed_atom(tokens);
    let first = parsed_atom(tokens);
    match first.outcome {
        Ok(Some(left)) => {
            let multiply = starts_with(first.rest, TokenView::Multiply);
            let divide = starts_with(first.rest, TokenView::Divide);
            if multiply || divide {
                let tail = first.rest.drop_first();
                lemma_parsed_m_expression(tail);
                let second = parsed_m_expression(tail);
                match second.outcome {
                    Ok(Some(right)) => {
                        assert(first.rest =~= seq![first.rest[0]] + tail);
                        assert(tokens =~= left.tokens() + seq![first.rest[0]] + right.tokens()
                            + second.rest);
                    },
                    _ => {},
                }
            }
        },
        _ => {},
    }
}

/// An expression never leaves more tokens than it was given; the tokens of
/// an expression that was found, followed by those it left, are the tokens
/// given; and those it left do not go on with an operator.
pub proof fn lemma_parsed_expression(tokens: Seq<TokenView>)
    ensures
        parsed_expression(tokens).rest.len() <= tokens.len(),
        parsed_expression(tokens).outcome matches Ok(Some(expression)) ==> tokens
            == expression.tokens() + parsed_expression(tokens).rest && expression.tokens().len()
            > 0,
        parsed_expression(tokens).outcome matches Ok(Some(expression)) ==> !continues_expression(
            parsed_expression(tokens).rest,
        ),
    decreases tokens.len(), 2nat,
{
    lemma_parsed_m_expression(tokens);
    let first = parsed_m_expression(tokens);
    match first.outcome {
        Ok(Some(left)) => {
            let add = starts_with(first.rest, TokenView::Add);
            let subtract = starts_with(first.rest, TokenView::Subtract);
            if add || subtract {
                let tail = first.rest.drop_first();
                lemma_parsed_expression(tail);
                let second = parsed_expression(tail);
                match second.outcome {
                    Ok(Some(right)) => {
                        assert(first.rest =~= seq![first.rest[0]] + tail);
                        assert(tokens =~= left.tokens() + seq![first.rest[0]] + right.tokens()
                            + second.rest);
                    },
                    _ => {},
                }
            }
        },
        _ => {},
    }
}

/// Takes the first token off the queue.
fn take_first(stream: &mut VecDeque<Token>) -> (token: Option<Token>)
    ensures
        token.deep_view() == if old(stream).deep_view().len() > 0 {
            Some(old(stream).deep_view()[0])
        } else {
            None
        },
        final(stream).deep_view() == if old(stream).deep_view().len() > 0 {
            old(stream).deep_view().drop_first()
        } else {
            old(stream).deep_view()
        },
{
    let token = stream.pop_front();
    assert(stream.deep_view() =~= if old(stream).deep_view().len() > 0 {
        old(stream).deep_view().drop_first()
    } else {
        old(stream).deep_view()
    });
    token
}

/// Puts `token` back at the head of the queue.
fn put_back(stream: &mut VecDeque<Token>, token: Token)
    ensures
        final(stream).deep_view() == seq![token@] + old(stream).deep_view(),
{
    stream.push_front(token);
    assert(stream.deep_view() =~= seq![token@] + old(stream).deep_view());
}

/// Parses the atom at the head of the queue.
pub fn parse_atom(stream: &mut VecDeque<Token>) -> (atom: Result<Option<Atom>, ParseError>)
    ensures
        result_view(atom) == parsed_atom(old(stream).deep_view()).outcome,
        final(stream).deep_view() == parsed_atom(old(stream).deep_view()).rest,
        atom matches Ok(Some(found)) ==> old(stream).deep_view() == found@.tokens()
            + final(stream).deep_view(),
    decreases old(stream).deep_view().len(), 0nat,
{
    let ghost tokens = stream.deep_view();
    proof {
        lemma_parsed_atom(tokens);
    }
    match take_first(stream) {
        Some(Token::Integer(n)) => Ok(Some(Atom::Integer(n))),
        Some(Token::Variable(name)) => Ok(Some(Atom::Variable(name))),
        Some(Token::LeftParenthesis) => {
            match parse_expression(stream) {
                Ok(Some(inner)) => {
                    match take_first(stream) {
                        Some(Token::RightParenthesis) => Ok(
                            Some(Atom::Expression(Box::new(inner))),
                        ),
                        Some(other) => {
                            put_back(stream, other);
                            assert(stream.deep_view() =~= parsed_expression(
                                tokens.drop_first(),
                            ).rest);
                            Err(ParseError::UnmatchedParentheses)
                        },
                        None => Err(ParseError::UnmatchedParentheses),
                    }
                },
                Ok(None) => Ok(None),
                Err(error) => Err(error),
            }
        },
        Some(other) => {
            put_back(stream, other);
            assert(stream.deep_view() =~= tokens);
            Ok(None)
        },
        None => Ok(None),
    }
}

/// Parses the term at the head of the queue.
pub fn parse_m_expression(stream: &mut VecDeque<Token>) -> (term: Result<
    Option<MExpression>,
    ParseError,
>)
    ensures
        result_view(term) == parsed_m_expression(old(stream).deep_view()).outcome,
        final(stream).deep_view() == parsed_m_expression(old(stream).deep_view()).rest,
        term matches Ok(Some(found)) ==> old(stream).deep_view() == found@.tokens()
            + final(stream).deep_view() && !continues_term(final(stream).deep_view()),
    decreases old(stream).deep_view().len(), 1nat,
{
    let ghost tokens = stream.deep_view();
    proof {
        lemma_parsed_atom(tokens);
        lemma_parsed_m_expression(tokens);
    }
    let left = match parse_atom(stream) {
        Ok(Some(left)) => left,
        Ok(None) => {
            return Ok(None);
        },
        Err(error) => {
            return Err(error);
        },
    };
    let ghost rest = stream.deep_view();
    match take_first(stream) {
        Some(Token::Multiply) => match parse_m_expression(stream) {
            Ok(Some(right)) => Ok(Some(MExpression::Multiply(left, Box::new(right)))),
            Ok(None) => Ok(None),
            Err(error) => Err(error),
        },
        Some(Token::Divide) => match parse_m_expression(stream) {
            Ok(Some(right)) => Ok(Some(MExpression::Divide(left, Box::new(right)))),
            Ok(None) => Ok(None),
            Err(error) => Err(error),
        },
        Some(other) => {
            put_back(stream, other);
            assert(stream.deep_view() =~= rest);
            Ok(Some(MExpression::Atom(left)))
        },
        None => Ok(Some(MExpression::Atom(left))),
    }
}

/// Parses the expression at the head of the queue.
pub fn parse_expression(stream: &mut VecDeque<Token>) -> (expression: Result<
    Option<Expression>,
    ParseError,
>)
    ensures
        result_view(expression) == parsed_expression(old(stream).deep_view()).outcome,
        final(stream).deep_view() == parsed_expression(old(stream).deep_view()).rest,
        expression matches Ok(Some(found)) ==> old(stream).deep_view() == found@.tokens()
            + final(stream).deep_view() && !continues_expression(final(stream).deep_view()),
    decreases old(stream).deep_view().len(), 2nat,
{
    let ghost tokens = stream.deep_view();
    proof {
        lemma_parsed_m_expression(tokens);
        lemma_parsed_expression(tokens);
    }
    let left = match parse_m_expression(stream) {
        Ok(Some(left)) => left,
        Ok(None) => {
            return Ok(None);
        },
        Err(error) => {
            return Err(error);
        },
    };
    let ghost rest = stream.deep_view();
    match take_first(stream) {
        Some(Token::Add) => match parse_expression(stream) {
            Ok(Some(right)) => Ok(Some(Expression::Add(left, Box::new(right)))),
            Ok(None) => Ok(None),
            Err(error) => Err(error),
        },
        Some(Token::Subtract) => match parse_expression(stream) {
            Ok(Some(right)) => Ok(Some(Expression::Subtract(left, Box::new(right)))),
            Ok(None) => Ok(None),
            Err(error) => Err(error),
        },
        Some(other) => {
            put_back(stream, other);
            assert(stream.deep_view() =~= rest);
            Ok(Some(Expression::MExpression(left)))
        },
        None => Ok(Some(Expression::MExpression(left))),
    }
}

impl Expression {
    /// Parses the expression that `stream` starts with. Tokens after it are
    /// ignored.
    pub fn from_tokens(stream: Vec<Token>) -> (expression: Result<Expression, ParseError>)
        ensures
            result_view(expression) == parsed(stream.deep_view()),
            expression matches Ok(found) ==> found@.tokens().is_prefix_of(stream.deep_view()),
    {
        let mut stream = stream;
        let ghost tokens = stream.deep_view();
        let mut queue: VecDeque<Token> = VecDeque::new();
        while stream.len() > 0
            invariant
                stream.deep_view() + queue.deep_view() == tokens,
            decreases stream.len(),
        {
            let ghost head = stream.deep_view();
            let ghost tail = queue.deep_view();
            match stream.pop() {
                Some(token) => {
                    put_back(&mut queue, token);
                    assert(stream.deep_view() =~= head.drop_last());
                    assert(head.drop_last() + (seq![head.last()] + tail) =~= head + tail);
                },
                None => {},
            }
        }
        assert(queue.deep_view() =~= tokens);
        proof {
            lemma_parsed_expression(tokens);
            let found = parsed_expression(tokens);
            if found.outcome matches Ok(Some(expression)) {
                let head = found.outcome->Ok_0->0.tokens();
                assert((head + found.rest).subrange(0, head.len() as int) =~= head);
            }
        }
        match parse_expression(&mut queue) {
            Ok(Some(expression)) => Ok(expression),
            Ok(None) => Err(ParseError::NoExpression),
            Err(error) => Err(error),
        }
    }
}

} // verus!
