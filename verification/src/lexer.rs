//! The tokeniser: from a buffer of text to tokens, one step at a time.

use crate::decimal::{all_digits, digits_value, lemma_decimal, parse_digits};
use crate::outcome::result_view;
use crate::text::{
    in_range, is_digit, is_name_char, is_whitespace, leading_run, lemma_leading_whitespace,
    lemma_run_length, lemma_run_length_is, lemma_trailing_whitespace,
    lemma_trimmed_after_whitespace, lemma_trimmed_of_clean, run_length, starts_with, trim,
    trimmed, trimmed_start,
};
use crate::token::{static_tokens, Token, TokenView};
use vstd::prelude::*;
use vstd::string::StrSliceExecFns;

verus! {

/// Why the text at the head of the buffer is no token.
#[derive(Clone, Copy, Debug, PartialEq, Eq)]
pub enum LexError {
    /// The buffer starts with a character that begins no token.
    UnknownToken,
    /// The digits at the head of the buffer denote a number beyond the largest
    /// 64-bit signed integer.
    IntegerOverflow,
}

/// The first static token, from index `from` on in the order of declaration,
/// whose literal is a prefix of `buffer`.
pub open spec fn static_match_from(buffer: Seq<char>, from: int) -> Option<TokenView>
    decreases static_tokens().len() - from,
{
    if 0 <= from < static_tokens().len() {
        let token = static_tokens()[from];
        if token.literal() is Some && token.literal()->0.is_prefix_of(buffer) {
            Some(token)
        } else {
            static_match_from(buffer, from + 1)
        }
    } else {
        None
    }
}

/// The first static token, in the order of declaration, whose literal is a
/// prefix of `buffer`.
pub open spec fn static_match(buffer: Seq<char>) -> Option<TokenView> {
    static_match_from(buffer, 0)
}

/// The dynamic token at the head of `buffer`: an integer if the buffer starts
/// with a digit, else a variable if it starts with a name character. The
/// token takes the longest run of its class. A run of digits whose number
/// does not fit a 64-bit signed integer is an error.
pub open spec fn dynamic_match(buffer: Seq<char>) -> Result<Option<TokenView>, LexError> {
    let digits = buffer.take(run_length(buffer, '0', '9') as int);
    let name = buffer.take(run_length(buffer, 'A', 'z') as int);
    if digits.len() > 0 {
        if digits_value(digits) <= i64::MAX {
            Ok(Some(TokenView::Integer(digits_value(digits) as i64)))
        } else {
            Err(LexError::IntegerOverflow)
        }
    } else if name.len() > 0 {
        Ok(Some(TokenView::Variable(name)))
    } else {
        Ok(None)
    }
}

/// The number of characters that `token` takes at the head of `buffer`: the
/// length of its literal if it is static, else the length of the run that
/// was scanned for it.
pub open spec fn token_width(token: TokenView, buffer: Seq<char>) -> nat {
    match token {
        TokenView::Integer(_) => run_length(buffer, '0', '9'),
        TokenView::Variable(name) => name.len(),
        _ => token.literal()->0.len(),
    }
}

/// What one step of the tokeniser yields, and the buffer it leaves.
pub ghost struct LexStep {
    pub outcome: Result<Option<TokenView>, LexError>,
    pub rest: Seq<char>,
}

/// One step of the tokeniser on `buffer`. The buffer is trimmed first. If
/// nothing is left, there is no token. Otherwise the token is the static one
/// that matches, else the dynamic one; the buffer moves past it. Where
/// neither matches the step fails and leaves the trimmed buffer.
pub open spec fn lex_step(buffer: Seq<char>) -> LexStep {
    let text = trimmed(buffer);
    if text.len() == 0 {
        LexStep { outcome: Ok(None), rest: text }
    } else {
        match static_match(text) {
            Some(token) => LexStep {
                outcome: Ok(Some(token)),
                rest: text.skip(token_width(token, text) as int),
            },
            None => match dynamic_match(text) {
                Ok(Some(token)) => LexStep {
                    outcome: Ok(Some(token)),
                    rest: text.skip(token_width(token, text) as int),
                },
                Ok(None) => LexStep { outcome: Err(LexError::UnknownToken), rest: text },
                Err(error) => LexStep { outcome: Err(error), rest: text },
            },
        }
    }
}

/// A step never leaves a longer buffer, and a step that yields a token
/// leaves a shorter one.
pub proof fn lemma_lex_step_consumes(buffer: Seq<char>)
    ensures
        lex_step(buffer).rest.len() <= buffer.len(),
        lex_step(buffer).outcome is Ok && lex_step(buffer).outcome->Ok_0 is Some ==> lex_step(
            buffer,
        ).rest.len() < buffer.len(),
{
    lemma_leading_whitespace(buffer);
    lemma_trailing_whitespace(trimmed_start(buffer));
    let text = trimmed(buffer);
    lemma_run_length(text, '0', '9');
    lemma_run_length(text, 'A', 'z');
    lemma_static_match(text);
}

/// The static token whose literal is the character `c`.
pub open spec fn static_token_of(c: char) -> Option<TokenView> {
    if c == '+' {
        Some(TokenView::Add)
    } else if c == '-' {
        Some(TokenView::Subtract)
    } else if c == '*' {
        Some(TokenView::Multiply)
    } else if c == '/' {
        Some(TokenView::Divide)
    } else if c == '(' {
        Some(TokenView::LeftParenthesis)
    } else if c == ')' {
        Some(TokenView::RightParenthesis)
    } else {
        None
    }
}

/// The static token that matches is the one whose literal is the first
/// character of the buffer.
pub proof fn lemma_static_match(buffer: Seq<char>)
    ensures
        static_match(buffer) == if buffer.len() > 0 {
            static_token_of(buffer[0])
        } else {
            None
        },
{
    reveal_with_fuel(static_match_from, 7);
    assert forall|c: char| (#[trigger] seq![c]).is_prefix_of(buffer) implies buffer.len() > 0
        && buffer[0] == c by {
        assert(buffer.subrange(0, 1)[0] == seq![c][0]);
    }
    assert forall|c: char| buffer.len() > 0 && buffer[0] == c implies (#[trigger] seq![
        c,
    ]).is_prefix_of(buffer) by {
        assert(buffer.subrange(0, 1) =~= seq![c]);
    }
}

/// `tokens`, and then what the rest of the text gave.
pub open spec fn followed(tokens: Seq<TokenView>, more: Result<Seq<TokenView>, LexError>)
    -> Result<Seq<TokenView>, LexError> {
    match more {
        Ok(rest) => Ok(tokens + rest),
        Err(error) => Err(error),
    }
}

/// The tokens of `buffer`, from its first to its last, or the error of the
/// first step that fails.
pub open spec fn lex_all(buffer: Seq<char>) -> Result<Seq<TokenView>, LexError>
    decreases buffer.len(),
{
    let step = lex_step(buffer);
    match step.outcome {
        Ok(Some(token)) => {
            proof {
                lemma_lex_step_consumes(buffer);
            }
            followed(seq![token], lex_all(step.rest))
        },
        Ok(None) => Ok(Seq::empty()),
        Err(error) => Err(error),
    }
}

/// Whether text that starts with `rest` would lengthen `token` if it stood
/// right after it: a digit after an integer, a name character after a
/// variable.
pub open spec fn runs_into(token: TokenView, rest: Seq<char>) -> bool {
    match token {
        TokenView::Integer(_) => rest.len() > 0 && is_digit(rest[0]),
        TokenView::Variable(_) => rest.len() > 0 && is_name_char(rest[0]),
        _ => false,
    }
}

/// Whether `s` is empty or ends with a character that is no white space.
pub open spec fn ends_clean(s: Seq<char>) -> bool {
    s.len() == 0 || !is_whitespace(s.last())
}

/// White space at the start of the buffer changes nothing.
pub proof fn lemma_lex_whitespace(c: char, rest: Seq<char>)
    requires
        is_whitespace(c),
    ensures
        lex_step(seq![c] + rest) == lex_step(rest),
        lex_all(seq![c] + rest) == lex_all(rest),
{
    lemma_trimmed_after_whitespace(c, rest);
}

/// The text of a token reads back as the token: if what follows does not
/// lengthen it, the step yields the token and leaves what follows.
pub proof fn lemma_lex_token(token: TokenView, rest: Seq<char>)
    requires
        token.printable(),
        ends_clean(rest),
        !runs_into(token, rest),
    ensures
        lex_step(token.text() + rest) == (LexStep { outcome: Ok(Some(token)), rest }),
        lex_all(token.text() + rest) == followed(seq![token], lex_all(rest)),
{
    let text = token.text();
    let buffer = text + rest;
    match token {
        TokenView::Integer(n) => {
            lemma_decimal(n as nat);
            assert(is_digit(text[0]));
            assert(is_digit(text.last()));
        },
        TokenView::Variable(name) => {
            assert(is_name_char(text[0]));
            assert(is_name_char(text.last()));
        },
        _ => {},
    }
    assert(buffer[0] == text[0]);
    assert(buffer.last() == if rest.len() > 0 {
        rest.last()
    } else {
        text.last()
    });
    lemma_trimmed_of_clean(buffer);
    lemma_static_match(buffer);
    assert(buffer.skip(text.len() as int) =~= rest);
    assert(buffer.take(text.len() as int) =~= text);
    match token {
        TokenView::Integer(n) => {
            assert forall|i: int| 0 <= i < text.len() implies in_range(
                #[trigger] buffer[i],
                '0',
                '9',
            ) by {
                assert(buffer[i] == text[i]);
            }
            if text.len() < buffer.len() {
                assert(buffer[text.len() as int] == rest[0]);
            }
            lemma_run_length_is(buffer, '0', '9', text.len());
        },
        TokenView::Variable(name) => {
            assert forall|i: int| 0 <= i < text.len() implies in_range(
                #[trigger] buffer[i],
                'A',
                'z',
            ) by {
                assert(buffer[i] == text[i]);
            }
            if text.len() < buffer.len() {
                assert(buffer[text.len() as int] == rest[0]);
            }
            lemma_run_length_is(buffer, 'A', 'z', text.len());
            assert(run_length(buffer, '0', '9') == 0);
        },
        _ => {},
    }
}

/// A token that a step yields is printable: an integer is not negative, and
/// a name is a run of at least one name character.
pub proof fn lemma_lexed_token_printable(buffer: Seq<char>)
    ensures
        lex_step(buffer).outcome matches Ok(Some(token)) ==> token.printable(),
{
    let text = trimmed(buffer);
    lemma_static_match(text);
    lemma_run_length(text, 'A', 'z');
    let name = text.take(run_length(text, 'A', 'z') as int);
    assert forall|i: int| 0 <= i < name.len() implies is_name_char(#[trigger] name[i]) by {
        assert(name[i] == text[i]);
    }
}

/// Whether every token of `tokens` is printable.
pub open spec fn all_printable(tokens: Seq<TokenView>) -> bool {
    forall|i: int| 0 <= i < tokens.len() ==> (#[trigger] tokens[i]).printable()
}

/// The tokens of any text are printable.
pub proof fn lemma_lexed_tokens_printable(buffer: Seq<char>)
    ensures
        lex_all(buffer) matches Ok(tokens) ==> all_printable(tokens),
    decreases buffer.len(),
{
    let step = lex_step(buffer);
    match step.outcome {
        Ok(Some(token)) => {
            lemma_lex_step_consumes(buffer);
            lemma_lexed_token_printable(buffer);
            lemma_lexed_tokens_printable(step.rest);
        },
        _ => {},
    }
}

/// A tokeniser over a buffer of text. Its view is the text that is still to
/// be read.
pub struct Tokeniser {
    buffer: String,
}

impl View for Tokeniser {
    type V = Seq<char>;

    closed spec fn view(&self) -> Seq<char> {
        self.buffer@
    }
}

impl Tokeniser {
    /// A tokeniser that is about to read `buffer`.
    pub fn new(buffer: String) -> (tokeniser: Self)
        ensures
            tokeniser@ == buffer@,
    {
        Tokeniser { buffer }
    }

    /// The first static token, in the order of declaration, whose literal
    /// the buffer starts with.
    pub fn match_static(&self) -> (token: Option<Token>)
        ensures
            token.deep_view() == static_match(self@),
    {
        let mut list = Token::statics();
        let mut i: usize = 0;
        while i < list.len()
            invariant
                list.deep_view() == static_tokens(),
                0 <= i <= list.len(),
                static_match(self@) == static_match_from(self@, i as int),
            decreases list.len() - i,
        {
            assert(list.deep_view()[i as int] == list[i as int]@);
            let matched = match list[i].try_fmt() {
                Some(display) => starts_with(self.buffer.as_str(), display.as_str()),
                None => false,
            };
            if matched {
                let token = list.remove(i);
                return Some(token);
            }
            i += 1;
        }
        None
    }

    /// The dynamic token at the head of the buffer: an integer, else a
    /// variable.
    pub fn match_dynamic(&self) -> (token: Result<Option<Token>, LexError>)
        ensures
            result_view(token) == dynamic_match(self@),
    {
        let digits = self.substring_for_range('0', '9');
        if digits.as_str().unicode_len() > 0 {
            proof {
                lemma_run_length(self@, '0', '9');
                assert(all_digits(digits@));
            }
            return match parse_digits(digits.as_str()) {
                Some(value) => Ok(Some(Token::Integer(value))),
                None => Err(LexError::IntegerOverflow),
            };
        }
        let name = self.substring_for_range('A', 'z');
        if name.as_str().unicode_len() > 0 {
            return Ok(Some(Token::Variable(name)));
        }
        Ok(None)
    }

    /// The longest prefix of the buffer whose characters all lie in the
    /// inclusive range from `low` to `high`.
    pub fn substring_for_range(&self, low: char, high: char) -> (run: String)
        ensures
            run@ == self@.take(run_length(self@, low, high) as int),
    {
        leading_run(self.buffer.as_str(), low, high).to_owned()
    }

    /// The number of characters that `token` takes at the head of the buffer.
    fn width(&self, token: &Token) -> (width: usize)
        ensures
            width == token_width(token@, self@),
    {
        match token {
            Token::Integer(_) => {
                proof {
                    lemma_run_length(self@, '0', '9');
                }
                leading_run(self.buffer.as_str(), '0', '9').unicode_len()
            },
            Token::Variable(name) => name.as_str().unicode_len(),
            _ => match token.try_fmt() {
                Some(display) => display.as_str().unicode_len(),
                None => 0,
            },
        }
    }

    /// Reads the next token. `Ok(None)` says that the buffer holds no more
    /// tokens.
    pub fn next(&mut self) -> (token: Result<Option<Token>, LexError>)
        ensures
            result_view(token) == lex_step(old(self)@).outcome,
            final(self)@ == lex_step(old(self)@).rest,
    {
        self.buffer = trim(self.buffer.as_str()).to_owned();
        let len: usize = self.buffer.as_str().unicode_len();
        if len == 0 {
            return Ok(None);
        }
        let token = match self.match_static() {
            Some(token) => token,
            None => match self.match_dynamic() {
                Ok(Some(token)) => token,
                Ok(None) => {
                    return Err(LexError::UnknownToken);
                },
                Err(error) => {
                    return Err(error);
                },
            },
        };
        let width: usize = self.width(&token);
        proof {
            lemma_run_length(self@, '0', '9');
            lemma_run_length(self@, 'A', 'z');
            lemma_static_match(self@);
        }
        self.buffer = self.buffer.as_str().substring_char(width, len).to_owned();
        Ok(Some(token))
    }

    /// Reads the buffer to its end and returns its tokens, or the error of
    /// the first step that fails.
    pub fn collect(self) -> (tokens: Result<Vec<Token>, LexError>)
        ensures
            result_view(tokens) == lex_all(self@),
    {
        let mut tokeniser = self;
        let mut tokens: Vec<Token> = Vec::new();
        loop
            invariant
                match lex_all(tokeniser@) {
                    Ok(rest) => lex_all(self@) == Ok::<Seq<TokenView>, LexError>(
                        tokens.deep_view() + rest,
                    ),
                    Err(error) => lex_all(self@) == Err::<Seq<TokenView>, LexError>(error),
                },
            decreases tokeniser@.len(),
        {
            let ghost before = tokeniser@;
            let ghost sofar = tokens.deep_view();
            proof {
                lemma_lex_step_consumes(before);
            }
            match tokeniser.next() {
                Ok(Some(token)) => {
                    tokens.push(token);
                    proof {
                        assert(tokens.deep_view() =~= sofar.push(token@));
                        if lex_all(tokeniser@) is Ok {
                            let rest = lex_all(tokeniser@)->Ok_0;
                            assert(sofar + (seq![token@] + rest) =~= sofar.push(token@) + rest);
                        }
                    }
                },
                Ok(None) => {
                    proof {
                        assert(sofar + Seq::<TokenView>::empty() =~= sofar);
                    }
                    return Ok(tokens);
                },
                Err(error) => {
                    return Err(error);
                },
            }
        }
    }
}

} // verus!
