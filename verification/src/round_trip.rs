//! From a tree to its tokens or its text, and back.
//!
//! The tokens of any tree parse to that tree. The text of a printable tree
//! has tokens, which parse to the tree with its products and quotients in
//! parentheses; that tree has the value of the first. The text of no other
//! tree reads back in this way.

use crate::decimal::lemma_decimal;
use crate::evaluation::Arithmetic;
use crate::expression::{AtomView, ExpressionView, MExpressionView};
use crate::lexer::{
    ends_clean, followed, lemma_lex_token, lemma_lex_whitespace, lemma_lexed_tokens_printable,
    lex_all, LexError,
};
use crate::parser::{
    continues_expression, continues_term, lemma_parsed_atom, lemma_parsed_expression,
    lemma_parsed_m_expression, parsed, parsed_atom, parsed_expression, parsed_m_expression,
    Parse, ParseError,
};
use crate::printable::{
    lemma_all_printable_parts, lemma_expression_printable,
    lemma_expression_printable_parenthesised, lemma_expression_value_parenthesised,
};
use crate::text::{is_digit, is_name_char, trimmed};
use crate::token::TokenView;
use vstd::prelude::*;

verus! {

/// The tokens of an atom, followed by any tokens, parse to that atom and
/// leave the tokens that follow.
pub proof fn lemma_atom_from_tokens(atom: AtomView, rest: Seq<TokenView>)
    ensures
        parsed_atom(atom.tokens() + rest) == (Parse { outcome: Ok(Some(atom)), rest }),
    decreases atom,
{
    let tokens = atom.tokens() + rest;
    match atom {
        AtomView::Expression(inner) => {
            let after = seq![TokenView::RightParenthesis] + rest;
            lemma_expression_from_tokens(*inner, after);
            assert(tokens.drop_first() =~= inner.tokens() + after);
            assert(after.drop_first() =~= rest);
        },
        AtomView::Integer(n) => {
            assert(tokens.drop_first() =~= rest);
        },
        AtomView::Variable(name) => {
            assert(tokens.drop_first() =~= rest);
        },
    }
}

/// The tokens of a term, followed by tokens that do not go on with `*` or
/// `/`, parse to that term and leave the tokens that follow.
pub proof fn lemma_m_expression_from_tokens(term: MExpressionView, rest: Seq<TokenView>)
    requires
        !continues_term(rest),
    ensures
        parsed_m_expression(term.tokens() + rest) == (Parse { outcome: Ok(Some(term)), rest }),
    decreases term,
{
    let tokens = term.tokens() + rest;
    match term {
        MExpressionView::Multiply(left, right) => {
            let after = seq![TokenView::Multiply] + (right.tokens() + rest);
            lemma_atom_from_tokens(left, after);
            lemma_parsed_atom(left.tokens() + after);
            lemma_m_expression_from_tokens(*right, rest);
            assert(tokens =~= left.tokens() + after);
            assert(after.drop_first() =~= right.tokens() + rest);
        },
        MExpressionView::Divide(left, right) => {
            let after = seq![TokenView::Divide] + (right.tokens() + rest);
            lemma_atom_from_tokens(left, after);
            lemma_parsed_atom(left.tokens() + after);
            lemma_m_expression_from_tokens(*right, rest);
            assert(tokens =~= left.tokens() + after);
            assert(after.drop_first() =~= right.tokens() + rest);
        },
        MExpressionView::Atom(inner) => {
            lemma_atom_from_tokens(inner, rest);
        },
    }
}

/// The tokens of an expression, followed by tokens that do not go on with an
/// operator, parse to that expression and leave the tokens that follow.
pub proof fn lemma_expression_from_tokens(expression: ExpressionView, rest: Seq<TokenView>)
    requires
        !continues_expression(rest),
    ensures
        parsed_expression(expression.tokens() + rest) == (Parse {
            outcome: Ok(Some(expression)),
            rest,
        }),
    decreases expression,
{
    let tokens = expression.tokens() + rest;
    match expression {
        ExpressionView::Add(left, right) => {
            let after = seq![TokenView::Add] + (right.tokens() + rest);
            lemma_m_expression_from_tokens(left, after);
            lemma_parsed_m_expression(left.tokens() + after);
            lemma_expression_from_tokens(*right, rest);
            assert(tokens =~= left.tokens() + after);
            assert(after.drop_first() =~= right.tokens() + rest);
        },
        ExpressionView::Subtract(left, right) => {
            let after = seq![TokenView::Subtract] + (right.tokens() + rest);
            lemma_m_expression_from_tokens(left, after);
            lemma_parsed_m_expression(left.tokens() + after);
            lemma_expression_from_tokens(*right, rest);
            assert(tokens =~= left.tokens() + after);
            assert(after.drop_first() =~= right.tokens() + rest);
        },
        ExpressionView::MExpression(inner) => {
            lemma_m_expression_from_tokens(inner, rest);
        },
    }
}

/// Parsing undoes flattening: the tokens of any expression parse to that
/// expression.
pub proof fn lemma_parse_inverts_tokens(expression: ExpressionView)
    ensures
        parsed(expression.tokens()) == Ok::<ExpressionView, ParseError>(expression),
{
    lemma_expression_from_tokens(expression, Seq::empty());
    assert(expression.tokens() + Seq::<TokenView>::empty() =~= expression.tokens());
}

/// Whether `rest` is empty or starts with a character that is neither a
/// digit nor a name character, so that it lengthens no token before it.
pub open spec fn starts_apart(rest: Seq<char>) -> bool {
    rest.len() == 0 || !(is_digit(rest[0]) || is_name_char(rest[0]))
}

/// Text that ends clean, before text that ends clean, ends clean.
proof fn lemma_ends_clean(text: Seq<char>, rest: Seq<char>)
    requires
        text.len() > 0,
        ends_clean(text),
        ends_clean(rest),
    ensures
        (text + rest).len() > 0,
        ends_clean(text + rest),
{
    if rest.len() > 0 {
        assert((text + rest).last() == rest.last());
    } else {
        assert(text + rest =~= text);
    }
}

/// Tokens, and then tokens, and then the rest.
proof fn lemma_followed_twice(
    first: Seq<TokenView>,
    second: Seq<TokenView>,
    more: Result<Seq<TokenView>, LexError>,
)
    ensures
        followed(first, followed(second, more)) == followed(first + second, more),
{
    if more is Ok {
        assert(first + (second + more->Ok_0) =~= (first + second) + more->Ok_0);
    }
}

/// An operator between two spaces reads as its token.
proof fn lemma_lex_operator(token: TokenView, rest: Seq<char>)
    requires
        token.literal() is Some,
        rest.len() > 0,
        ends_clean(rest),
    ensures
        lex_all(seq![' '] + (token.literal()->0 + (seq![' '] + rest))) == followed(
            seq![token],
            lex_all(rest),
        ),
{
    let after = seq![' '] + rest;
    assert(after.last() == rest.last());
    lemma_lex_whitespace(' ', token.text() + after);
    lemma_lex_token(token, after);
    lemma_lex_whitespace(' ', rest);
}

/// The text of a printable atom is not empty and ends clean.
pub proof fn lemma_atom_text_shape(atom: AtomView)
    requires
        atom.printable(),
    ensures
        atom.text().len() > 0,
        ends_clean(atom.text()),
    decreases atom,
{
    match atom {
        AtomView::Expression(inner) => {},
        AtomView::Integer(n) => {
            lemma_decimal(n as nat);
            assert(is_digit(atom.text().last()));
        },
        AtomView::Variable(name) => {
            assert(is_name_char(name.last()));
        },
    }
}

/// The text of a printable term is not empty and ends clean.
pub proof fn lemma_m_expression_text_shape(term: MExpressionView)
    requires
        term.printable(),
    ensures
        term.text().len() > 0,
        ends_clean(term.text()),
    decreases term,
{
    match term {
        MExpressionView::Atom(inner) => {
            lemma_atom_text_shape(inner);
        },
        _ => {},
    }
}

/// The text of a printable expression is not empty and ends clean.
pub proof fn lemma_expression_text_shape(expression: ExpressionView)
    requires
        expression.printable(),
    ensures
        expression.text().len() > 0,
        ends_clean(expression.text()),
    decreases expression,
{
    match expression {
        ExpressionView::Add(left, right) => {
            lemma_expression_text_shape(*right);
            assert(expression.text().last() == right.text().last());
        },
        ExpressionView::Subtract(left, right) => {
            lemma_expression_text_shape(*right);
            assert(expression.text().last() == right.text().last());
        },
        ExpressionView::MExpression(inner) => {
            lemma_m_expression_text_shape(inner);
        },
    }
}

/// How the text of a product or quotient, followed by more text, falls into
/// parts from left to right.
proof fn lemma_product_text_parts(
    operator: char,
    left: Seq<char>,
    right: Seq<char>,
    rest: Seq<char>,
)
    ensures
        seq!['('] + left + seq![' ', operator, ' '] + right + seq![')'] + rest == seq!['('] + (left
            + (seq![' '] + (seq![operator] + (seq![' '] + (right + (seq![')'] + rest)))))),
{
    assert(seq!['('] + left + seq![' ', operator, ' '] + right + seq![')'] + rest =~= seq!['('] + (
    left + (seq![' '] + (seq![operator] + (seq![' '] + (right + (seq![')'] + rest)))))));
}

/// How the text of a sum or difference, followed by more text, falls into
/// parts from left to right.
proof fn lemma_sum_text_parts(operator: char, left: Seq<char>, right: Seq<char>, rest: Seq<char>)
    ensures
        left + seq![' ', operator, ' '] + right + rest == left + (seq![' '] + (seq![operator] + (
        seq![' '] + (right + rest)))),
{
    assert(left + seq![' ', operator, ' '] + right + rest =~= left + (seq![' '] + (seq![operator]
        + (seq![' '] + (right + rest)))));
}

/// The text of a printable atom, before text that lengthens no token, reads
/// as the tokens of the atom with its products and quotients in
/// parentheses, and then as what follows.
pub proof fn lemma_lex_atom_text(atom: AtomView, rest: Seq<char>)
    requires
        atom.printable(),
        ends_clean(rest),
        starts_apart(rest),
    ensures
        lex_all(atom.text() + rest) == followed(atom.parenthesised().tokens(), lex_all(rest)),
    decreases atom, 1nat,
{
    match atom {
        AtomView::Expression(inner) => {
            let left = TokenView::LeftParenthesis;
            let right = TokenView::RightParenthesis;
            let closing = right.text() + rest;
            let inside = inner.text() + closing;
            assert(closing.last() == if rest.len() > 0 {
                rest.last()
            } else {
                ')'
            });
            assert(inside.last() == closing.last());
            assert(atom.text() + rest =~= left.text() + inside);
            lemma_lex_token(left, inside);
            lemma_lex_expression_text(*inner, closing);
            lemma_lex_token(right, rest);
            let tokens = inner.parenthesised().tokens();
            lemma_followed_twice(tokens, seq![right], lex_all(rest));
            lemma_followed_twice(seq![left], tokens + seq![right], lex_all(rest));
            assert(seq![left] + (tokens + seq![right]) =~= atom.parenthesised().tokens());
        },
        AtomView::Integer(n) => {
            lemma_lex_token(TokenView::Integer(n), rest);
        },
        AtomView::Variable(name) => {
            lemma_lex_token(TokenView::Variable(name), rest);
        },
    }
}

/// The text of a printable product or quotient reads as a left parenthesis,
/// the tokens of the left side, the operator, the tokens of the right side
/// and a right parenthesis, and then as what follows.
proof fn lemma_lex_product_text(term: MExpressionView, rest: Seq<char>)
    requires
        term is Multiply || term is Divide,
        term.printable(),
        ends_clean(rest),
    ensures
        lex_all(term.text() + rest) == followed(term.parenthesised().tokens(), lex_all(rest)),
    decreases term, 0nat,
{
    let (operator, sign, left, right) = match term {
        MExpressionView::Multiply(left, right) => (TokenView::Multiply, '*', left, *right),
        MExpressionView::Divide(left, right) => (TokenView::Divide, '/', left, *right),
        MExpressionView::Atom(inner) => arbitrary(),
    };
    let open = TokenView::LeftParenthesis;
    let close = TokenView::RightParenthesis;
    let end = lex_all(rest);
    // The text, part by part from the right.
    let closing = seq![')'] + rest;
    let second = right.text() + closing;
    let gap = seq![' '] + second;
    let spaced = seq![' '] + (seq![sign] + gap);
    let first = left.text() + spaced;
    assert(closing.last() == if rest.len() > 0 {
        rest.last()
    } else {
        ')'
    });
    assert(second.last() == closing.last());
    assert(gap.last() == second.last());
    assert(spaced.last() == gap.last());
    assert(first.last() == spaced.last());
    assert(term.text() + rest == seq!['('] + first) by {
        lemma_product_text_parts(sign, left.text(), right.text(), rest);
    }
    // The tokens, part by part from the right.
    let a = left.parenthesised().tokens();
    let b = right.parenthesised().tokens();
    assert(lex_all(closing) == followed(seq![close], end)) by {
        lemma_lex_token(close, rest);
    }
    assert(lex_all(second) == followed(b, lex_all(closing))) by {
        lemma_lex_m_expression_text(right, closing);
    }
    assert(lex_all(spaced) == followed(seq![operator], lex_all(second))) by {
        lemma_lex_operator(operator, second);
    }
    assert(lex_all(first) == followed(a, lex_all(spaced))) by {
        lemma_lex_atom_text(left, spaced);
    }
    assert(lex_all(seq!['('] + first) == followed(seq![open], lex_all(first))) by {
        lemma_lex_token(open, first);
    }
    lemma_followed_twice(b, seq![close], end);
    lemma_followed_twice(seq![operator], b + seq![close], end);
    lemma_followed_twice(a, seq![operator] + (b + seq![close]), end);
    lemma_followed_twice(seq![open], a + (seq![operator] + (b + seq![close])), end);
    let product = if term is Multiply {
        MExpressionView::Multiply(left.parenthesised(), Box::new(right.parenthesised()))
    } else {
        MExpressionView::Divide(left.parenthesised(), Box::new(right.parenthesised()))
    };
    let inside = ExpressionView::MExpression(product);
    let atom = AtomView::Expression(Box::new(inside));
    assert(product.tokens() == a + seq![operator] + b);
    assert(inside.tokens() == product.tokens());
    assert(atom.tokens() == seq![open] + inside.tokens() + seq![close]);
    assert(term.parenthesised() == MExpressionView::Atom(atom));
    assert(MExpressionView::Atom(atom).tokens() == atom.tokens());
    assert(seq![open] + (a + (seq![operator] + (b + seq![close]))) =~= seq![open] + (a + seq![
        operator,
    ] + b) + seq![close]);
}

/// The text of a printable term, before text that lengthens no token, reads
/// as the tokens of the term with its products and quotients in
/// parentheses, and then as what follows.
pub proof fn lemma_lex_m_expression_text(term: MExpressionView, rest: Seq<char>)
    requires
        term.printable(),
        ends_clean(rest),
        starts_apart(rest),
    ensures
        lex_all(term.text() + rest) == followed(term.parenthesised().tokens(), lex_all(rest)),
    decreases term, 1nat,
{
    match term {
        MExpressionView::Atom(inner) => {
            lemma_lex_atom_text(inner, rest);
        },
        _ => {
            lemma_lex_product_text(term, rest);
        },
    }
}

/// The text of a printable sum or difference reads as the tokens of the left
/// side, the operator and the tokens of the right side, and then as what
/// follows.
proof fn lemma_lex_sum_text(expression: ExpressionView, rest: Seq<char>)
    requires
        expression is Add || expression is Subtract,
        expression.printable(),
        ends_clean(rest),
        starts_apart(rest),
    ensures
        lex_all(expression.text() + rest) == followed(
            expression.parenthesised().tokens(),
            lex_all(rest),
        ),
    decreases expression, 0nat,
{
    let (operator, sign, left, right) = match expression {
        ExpressionView::Add(left, right) => (TokenView::Add, '+', left, *right),
        ExpressionView::Subtract(left, right) => (TokenView::Subtract, '-', left, *right),
        ExpressionView::MExpression(inner) => arbitrary(),
    };
    let end = lex_all(rest);
    let second = right.text() + rest;
    let gap = seq![' '] + second;
    let spaced = seq![' '] + (seq![sign] + gap);
    lemma_expression_text_shape(right);
    lemma_ends_clean(right.text(), rest);
    assert(gap.last() == second.last());
    assert(spaced.last() == gap.last());
    assert(expression.text() + rest == left.text() + spaced) by {
        lemma_sum_text_parts(sign, left.text(), right.text(), rest);
    }
    let a = left.parenthesised().tokens();
    let b = right.parenthesised().tokens();
    assert(lex_all(second) == followed(b, end)) by {
        lemma_lex_expression_text(right, rest);
    }
    assert(lex_all(spaced) == followed(seq![operator], lex_all(second))) by {
        lemma_lex_operator(operator, second);
    }
    assert(lex_all(left.text() + spaced) == followed(a, lex_all(spaced))) by {
        lemma_lex_m_expression_text(left, spaced);
    }
    lemma_followed_twice(seq![operator], b, end);
    lemma_followed_twice(a, seq![operator] + b, end);
    assert(a + (seq![operator] + b) =~= a + seq![operator] + b);
}

/// The text of a printable expression, before text that lengthens no token,
/// reads as the tokens of the expression with its products and quotients in
/// parentheses, and then as what follows.
pub proof fn lemma_lex_expression_text(expression: ExpressionView, rest: Seq<char>)
    requires
        expression.printable(),
        ends_clean(rest),
        starts_apart(rest),
    ensures
        lex_all(expression.text() + rest) == followed(
            expression.parenthesised().tokens(),
            lex_all(rest),
        ),
    decreases expression, 1nat,
{
    match expression {
        ExpressionView::MExpression(inner) => {
            lemma_lex_m_expression_text(inner, rest);
        },
        _ => {
            lemma_lex_sum_text(expression, rest);
        },
    }
}

/// The text of a tree reads back as a tree of the same value. If no integer
/// in an expression is negative and every name in it is a run of name
/// characters, then its text has tokens, the tokens parse to the expression
/// with every product and quotient in parentheses of its own, and under any
/// arithmetic that expression evaluates as the first.
pub proof fn lemma_text_round_trip<V>(expression: ExpressionView, arithmetic: Arithmetic<V>)
    requires
        expression.printable(),
    ensures
        lex_all(expression.text()) == Ok::<Seq<TokenView>, LexError>(
            expression.parenthesised().tokens(),
        ),
        parsed(expression.parenthesised().tokens()) == Ok::<ExpressionView, ParseError>(
            expression.parenthesised(),
        ),
        expression.parenthesised().value(arithmetic) == expression.value(arithmetic),
{
    let tokens = expression.parenthesised().tokens();
    lemma_lex_expression_text(expression, Seq::empty());
    assert(expression.text() + Seq::<char>::empty() =~= expression.text());
    assert(lex_all(Seq::<char>::empty()) == Ok::<Seq<TokenView>, LexError>(Seq::empty())) by {
        assert(trimmed(Seq::<char>::empty()).len() == 0);
    }
    assert(tokens + Seq::<TokenView>::empty() =~= tokens);
    lemma_parse_inverts_tokens(expression.parenthesised());
    lemma_expression_value_parenthesised(expression, arithmetic);
}

/// Only the text of a printable tree reads back as that tree: if the text of
/// an expression has tokens, and they parse to the expression with every
/// product and quotient in parentheses of its own, then no integer in the
/// expression is negative and every name in it is a run of name characters.
pub proof fn lemma_round_trip_only_if_printable(expression: ExpressionView)
    requires
        lex_all(expression.text()) is Ok,
        parsed(lex_all(expression.text())->Ok_0) == Ok::<ExpressionView, ParseError>(
            expression.parenthesised(),
        ),
    ensures
        expression.printable(),
{
    let tokens = lex_all(expression.text())->Ok_0;
    let tree = expression.parenthesised();
    lemma_lexed_tokens_printable(expression.text());
    lemma_parsed_expression(tokens);
    lemma_all_printable_parts(tree.tokens(), parsed_expression(tokens).rest);
    lemma_expression_printable(tree);
    lemma_expression_printable_parenthesised(expression);
}

} // verus!
