//! Lexical tokens.

use crate::decimal::{integer_string, integer_text};
use crate::text::is_name_char;
use vstd::prelude::*;
use vstd::string::StringExecFns;

verus! {

/// One lexical token.
///
/// The first six variants are static: each has a fixed literal text. The last
/// two are dynamic: their payload is scanned from the input.
#[derive(Clone, Debug, PartialEq, Eq)]
pub enum Token {
    Add,
    Subtract,
    Multiply,
    Divide,
    LeftParenthesis,
    RightParenthesis,
    Integer(i64),
    Variable(String),
}

/// The mathematical value of a [`Token`]: a name is its sequence of characters.
pub ghost enum TokenView {
    Add,
    Subtract,
    Multiply,
    Divide,
    LeftParenthesis,
    RightParenthesis,
    Integer(i64),
    Variable(Seq<char>),
}

impl View for Token {
    type V = TokenView;

    open spec fn view(&self) -> TokenView {
        match self {
            Token::Add => TokenView::Add,
            Token::Subtract => TokenView::Subtract,
            Token::Multiply => TokenView::Multiply,
            Token::Divide => TokenView::Divide,
            Token::LeftParenthesis => TokenView::LeftParenthesis,
            Token::RightParenthesis => TokenView::RightParenthesis,
            Token::Integer(n) => TokenView::Integer(*n),
            Token::Variable(name) => TokenView::Variable(name@),
        }
    }
}

impl DeepView for Token {
    type V = TokenView;

    open spec fn deep_view(&self) -> TokenView {
        self@
    }
}

/// Whether `name` is a run of at least one name character.
pub open spec fn is_name(name: Seq<char>) -> bool {
    name.len() > 0 && forall|i: int| 0 <= i < name.len() ==> is_name_char(#[trigger] name[i])
}

/// The static tokens, in the order of their declaration.
pub open spec fn static_tokens() -> Seq<TokenView> {
    seq![
        TokenView::Add,
        TokenView::Subtract,
        TokenView::Multiply,
        TokenView::Divide,
        TokenView::LeftParenthesis,
        TokenView::RightParenthesis,
    ]
}

impl TokenView {
    /// The text of a token: the literal of a static token, the decimal
    /// notation of an integer, the name of a variable.
    pub open spec fn text(self) -> Seq<char> {
        match self {
            TokenView::Integer(n) => integer_text(n as int),
            TokenView::Variable(name) => name,
            _ => self.literal()->0,
        }
    }

    /// Whether the text of the token can be read back as the token: an
    /// integer is not negative, and a name is a run of at least one name
    /// character.
    pub open spec fn printable(self) -> bool {
        match self {
            TokenView::Integer(n) => n >= 0,
            TokenView::Variable(name) => is_name(name),
            _ => true,
        }
    }

    /// The literal text of a static token; `None` for a dynamic one.
    pub open spec fn literal(self) -> Option<Seq<char>> {
        match self {
            TokenView::Add => Some(seq!['+']),
            TokenView::Subtract => Some(seq!['-']),
            TokenView::Multiply => Some(seq!['*']),
            TokenView::Divide => Some(seq!['/']),
            TokenView::LeftParenthesis => Some(seq!['(']),
            TokenView::RightParenthesis => Some(seq![')']),
            TokenView::Integer(_) => None,
            TokenView::Variable(_) => None,
        }
    }
}

impl Token {
    /// The static tokens, in the order of their declaration.
    pub fn statics() -> (list: Vec<Token>)
        ensures
            list.deep_view() == static_tokens(),
    {
        let list = vec![
            Token::Add,
            Token::Subtract,
            Token::Multiply,
            Token::Divide,
            Token::LeftParenthesis,
            Token::RightParenthesis,
        ];
        assert(list.deep_view() =~= static_tokens());
        list
    }

    /// The text of the token.
    pub fn to_string(&self) -> (text: String)
        ensures
            text@ == self@.text(),
    {
        match self {
            Token::Integer(n) => integer_string(*n),
            Token::Variable(name) => name.clone(),
            _ => self.try_fmt().unwrap(),
        }
    }

    /// The literal text of a static token; `None` for a dynamic one.
    pub fn try_fmt(&self) -> (text: Option<String>)
        ensures
            text.deep_view() == self@.literal(),
    {
        proof {
            reveal_strlit("+");
            reveal_strlit("-");
            reveal_strlit("*");
            reveal_strlit("/");
            reveal_strlit("(");
            reveal_strlit(")");
        }
        let literal: Option<&str> = match self {
            Token::Add => Some("+"),
            Token::Subtract => Some("-"),
            Token::Multiply => Some("*"),
            Token::Divide => Some("/"),
            Token::LeftParenthesis => Some("("),
            Token::RightParenthesis => Some(")"),
            _ => None,
        };
        match literal {
            Some(s) => {
                let owned = String::from_str(s);
                assert(owned@ =~= self@.literal()->0);
                Some(owned)
            },
            None => None,
        }
    }
}

} // verus!
