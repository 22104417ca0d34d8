use tokeniser::decimal::{decimal_string, integer_string, parse_digits};
use tokeniser::text::{leading_run, starts_with, trim, whitespace, within};
use tokeniser::{LexError, Token, Tokeniser};

fn lex(text: &str) -> Result<Vec<Token>, LexError> {
    Tokeniser::new(String::from(text)).collect()
}

fn name(text: &str) -> Token {
    Token::Variable(String::from(text))
}

#[test]
fn digits_then_letters_are_two_tokens() {
    assert_eq!(lex("12a"), Ok(vec![Token::Integer(12), name("a")]));
}

#[test]
fn letters_then_digits_are_two_tokens() {
    assert_eq!(lex("a12"), Ok(vec![name("a"), Token::Integer(12)]));
}

#[test]
fn unknown_character_fails() {
    assert_eq!(lex("1 # 2"), Err(LexError::UnknownToken));
}

#[test]
fn unknown_character_leaves_the_trimmed_buffer() {
    let mut tokeniser = Tokeniser::new(String::from("  # 2  "));
    assert_eq!(tokeniser.next(), Err(LexError::UnknownToken));
    assert_eq!(tokeniser.next(), Err(LexError::UnknownToken));
    assert_eq!(tokeniser.substring_for_range('#', '#'), "#");
}

#[test]
fn empty_text_has_no_tokens() {
    assert_eq!(lex(""), Ok(vec![]));
    assert_eq!(lex("   \t\r\n "), Ok(vec![]));
}

#[test]
fn next_returns_none_at_the_end_again_and_again() {
    let mut tokeniser = Tokeniser::new(String::from(" 7 "));
    assert_eq!(tokeniser.next(), Ok(Some(Token::Integer(7))));
    assert_eq!(tokeniser.next(), Ok(None));
    assert_eq!(tokeniser.next(), Ok(None));
}

#[test]
fn every_static_token_is_read() {
    assert_eq!(
        lex("+-*/()"),
        Ok(vec![
            Token::Add,
            Token::Subtract,
            Token::Multiply,
            Token::Divide,
            Token::LeftParenthesis,
            Token::RightParenthesis,
        ])
    );
}

#[test]
fn white_space_only_separates() {
    assert_eq!(
        lex("  ( 1+x )\t*  22\n"),
        Ok(vec![
            Token::LeftParenthesis,
            Token::Integer(1),
            Token::Add,
            name("x"),
            Token::RightParenthesis,
            Token::Multiply,
            Token::Integer(22),
        ])
    );
}

#[test]
fn white_space_splits_a_run() {
    assert_eq!(lex("1 2"), Ok(vec![Token::Integer(1), Token::Integer(2)]));
    assert_eq!(lex("ab cd"), Ok(vec![name("ab"), name("cd")]));
}

#[test]
fn a_name_takes_the_characters_between_the_letters() {
    assert_eq!(lex("a_b"), Ok(vec![name("a_b")]));
    assert_eq!(lex("[\\]^_`"), Ok(vec![name("[\\]^_`")]));
    assert_eq!(lex("Az"), Ok(vec![name("Az")]));
}

#[test]
fn characters_next_to_the_name_range_are_unknown() {
    assert_eq!(lex("@"), Err(LexError::UnknownToken));
    assert_eq!(lex("{"), Err(LexError::UnknownToken));
    assert_eq!(lex("x{"), Err(LexError::UnknownToken));
    assert_eq!(lex("."), Err(LexError::UnknownToken));
    assert_eq!(lex("\u{e9}"), Err(LexError::UnknownToken));
}

#[test]
fn leading_zeros_are_one_integer() {
    assert_eq!(lex("007"), Ok(vec![Token::Integer(7)]));
    assert_eq!(
        lex("007 + 010"),
        Ok(vec![Token::Integer(7), Token::Add, Token::Integer(10)])
    );
    assert_eq!(lex("0"), Ok(vec![Token::Integer(0)]));
    assert_eq!(lex("000"), Ok(vec![Token::Integer(0)]));
}

#[test]
fn the_largest_integer_is_read() {
    assert_eq!(
        lex("9223372036854775807"),
        Ok(vec![Token::Integer(i64::MAX)])
    );
    assert_eq!(
        lex("0000000000000000000009223372036854775807"),
        Ok(vec![Token::Integer(i64::MAX)])
    );
}

#[test]
fn an_integer_beyond_the_largest_overflows() {
    assert_eq!(lex("9223372036854775808"), Err(LexError::IntegerOverflow));
    assert_eq!(lex("1 + 99999999999999999999"), Err(LexError::IntegerOverflow));
    assert_eq!(lex("92233720368547758070"), Err(LexError::IntegerOverflow));
}

#[test]
fn a_minus_sign_is_its_own_token() {
    assert_eq!(lex("-5"), Ok(vec![Token::Subtract, Token::Integer(5)]));
}

#[test]
fn match_static_takes_the_first_character() {
    assert_eq!(Tokeniser::new(String::from("+1")).match_static(), Some(Token::Add));
    assert_eq!(Tokeniser::new(String::from("-")).match_static(), Some(Token::Subtract));
    assert_eq!(Tokeniser::new(String::from("*x")).match_static(), Some(Token::Multiply));
    assert_eq!(Tokeniser::new(String::from("/ ")).match_static(), Some(Token::Divide));
    assert_eq!(
        Tokeniser::new(String::from("()")).match_static(),
        Some(Token::LeftParenthesis)
    );
    assert_eq!(
        Tokeniser::new(String::from(")(")).match_static(),
        Some(Token::RightParenthesis)
    );
    assert_eq!(Tokeniser::new(String::from("1+")).match_static(), None);
    assert_eq!(Tokeniser::new(String::from(" +")).match_static(), None);
    assert_eq!(Tokeniser::new(String::new()).match_static(), None);
}

#[test]
fn match_dynamic_tries_digits_before_letters() {
    assert_eq!(
        Tokeniser::new(String::from("12a")).match_dynamic(),
        Ok(Some(Token::Integer(12)))
    );
    assert_eq!(
        Tokeniser::new(String::from("a12")).match_dynamic(),
        Ok(Some(name("a")))
    );
    assert_eq!(Tokeniser::new(String::from("+")).match_dynamic(), Ok(None));
    assert_eq!(Tokeniser::new(String::from(" 1")).match_dynamic(), Ok(None));
    assert_eq!(Tokeniser::new(String::new()).match_dynamic(), Ok(None));
    assert_eq!(
        Tokeniser::new(String::from("9223372036854775808x")).match_dynamic(),
        Err(LexError::IntegerOverflow)
    );
}

#[test]
fn substring_for_range_is_the_longest_prefix_in_the_range() {
    let tokeniser = Tokeniser::new(String::from("123abc456"));
    assert_eq!(tokeniser.substring_for_range('0', '9'), "123");
    assert_eq!(tokeniser.substring_for_range('A', 'z'), "");
    assert_eq!(tokeniser.substring_for_range('1', '2'), "12");
    assert_eq!(tokeniser.substring_for_range('0', 'z'), "123abc456");
    assert_eq!(tokeniser.substring_for_range('9', '0'), "");
}

#[test]
fn statics_are_in_the_order_of_declaration() {
    assert_eq!(
        Token::statics(),
        vec![
            Token::Add,
            Token::Subtract,
            Token::Multiply,
            Token::Divide,
            Token::LeftParenthesis,
            Token::RightParenthesis,
        ]
    );
}

#[test]
fn try_fmt_gives_the_literal_of_a_static_token() {
    assert_eq!(Token::Add.try_fmt(), Some(String::from("+")));
    assert_eq!(Token::Subtract.try_fmt(), Some(String::from("-")));
    assert_eq!(Token::Multiply.try_fmt(), Some(String::from("*")));
    assert_eq!(Token::Divide.try_fmt(), Some(String::from("/")));
    assert_eq!(Token::LeftParenthesis.try_fmt(), Some(String::from("(")));
    assert_eq!(Token::RightParenthesis.try_fmt(), Some(String::from(")")));
    assert_eq!(Token::Integer(3).try_fmt(), None);
    assert_eq!(name("x").try_fmt(), None);
}

#[test]
fn token_text() {
    assert_eq!(Token::Add.to_string(), "+");
    assert_eq!(Token::RightParenthesis.to_string(), ")");
    assert_eq!(Token::Integer(0).to_string(), "0");
    assert_eq!(Token::Integer(1234567890).to_string(), "1234567890");
    assert_eq!(Token::Integer(-42).to_string(), "-42");
    assert_eq!(name("abc").to_string(), "abc");
}

#[test]
fn the_text_of_a_token_reads_back() {
    let tokens = vec![
        Token::Add,
        Token::Subtract,
        Token::Multiply,
        Token::Divide,
        Token::LeftParenthesis,
        Token::RightParenthesis,
        Token::Integer(0),
        Token::Integer(907),
        Token::Integer(i64::MAX),
        name("x"),
        name("some_Name"),
    ];
    for token in tokens {
        let text = token.to_string();
        assert_eq!(lex(&text), Ok(vec![token.clone()]));
        let spaced = format!("  {} )", text);
        assert_eq!(lex(&spaced), Ok(vec![token, Token::RightParenthesis]));
    }
}

#[test]
fn whitespace_is_what_std_calls_white_space() {
    for code in 0..=0x10FFFFu32 {
        if let Some(c) = char::from_u32(code) {
            assert_eq!(whitespace(c), c.is_whitespace(), "U+{:04X}", code);
        }
    }
}

#[test]
fn trim_is_what_std_trims() {
    let texts = [
        "",
        " ",
        "a",
        " a",
        "a ",
        "  a b  ",
        "\t\n\u{b}\u{c}\r x \u{85}\u{a0}",
        "\u{1680}\u{2000}\u{200a}\u{2028}\u{2029}\u{202f}\u{205f}\u{3000}",
        "\u{200b} x \u{200b}",
        " \u{e9} ",
    ];
    for text in texts {
        assert_eq!(trim(text), text.trim());
    }
}

#[test]
fn within_is_inclusive() {
    assert!(within('0', '0', '9'));
    assert!(within('9', '0', '9'));
    assert!(!within('/', '0', '9'));
    assert!(!within(':', '0', '9'));
    assert!(within('A', 'A', 'z'));
    assert!(within('z', 'A', 'z'));
    assert!(within('_', 'A', 'z'));
    assert!(!within('@', 'A', 'z'));
    assert!(!within('{', 'A', 'z'));
}

#[test]
fn starts_with_is_what_std_says() {
    let texts = ["", "a", "ab", "abc", "b", "+", "+1", "\u{e9}x"];
    for text in texts {
        for prefix in texts {
            assert_eq!(starts_with(text, prefix), text.starts_with(prefix));
        }
    }
}

#[test]
fn leading_run_stops_at_the_first_character_outside() {
    assert_eq!(leading_run("123abc", '0', '9'), "123");
    assert_eq!(leading_run("abc123", '0', '9'), "");
    assert_eq!(leading_run("abc", 'a', 'c'), "abc");
    assert_eq!(leading_run("", 'a', 'c'), "");
    assert_eq!(leading_run("\u{e9}\u{e9}x", '\u{e9}', '\u{e9}'), "\u{e9}\u{e9}");
}

#[test]
fn parse_digits_is_the_number() {
    assert_eq!(parse_digits("0"), Some(0));
    assert_eq!(parse_digits("42"), Some(42));
    assert_eq!(parse_digits("0042"), Some(42));
    assert_eq!(parse_digits("9223372036854775807"), Some(i64::MAX));
    assert_eq!(parse_digits("9223372036854775808"), None);
    assert_eq!(parse_digits("18446744073709551616"), None);
    assert_eq!(parse_digits(""), None);
    assert_eq!(parse_digits("12a"), None);
    assert_eq!(parse_digits("-1"), None);
    assert_eq!(parse_digits("+1"), None);
    assert_eq!(parse_digits("\u{661}"), None);
}

#[test]
fn decimal_string_is_what_std_prints() {
    let numbers = [0u64, 1, 9, 10, 11, 99, 100, 101, 12345, u64::MAX, 1 << 63];
    for n in numbers {
        assert_eq!(decimal_string(n), format!("{}", n));
    }
}

#[test]
fn integer_string_is_what_std_prints() {
    let numbers = [0i64, 1, -1, 9, -9, 10, -10, 1234, -1234, i64::MAX, i64::MIN, i64::MIN + 1];
    for n in numbers {
        assert_eq!(integer_string(n), format!("{}", n));
    }
}

#[test]
fn parse_digits_is_what_std_parses() {
    let texts = [
        "0",
        "00",
        "1",
        "10",
        "0123456789",
        "999999999999999",
        "9999999999999999",
        "9223372036854775806",
        "9223372036854775807",
        "9223372036854775808",
        "9223372036854775810",
        "10000000000000000000",
        "00000000000000000000000000000000000000001",
        "99999999999999999999999999999999999999999",
    ];
    for text in texts {
        assert_eq!(parse_digits(text), text.parse::<i64>().ok());
    }
}

#[test]
fn long_white_space_is_skipped() {
    let space = " ".repeat(200_000);
    let text = format!("{}12{}+{}x{}", space, space, space, space);
    assert_eq!(
        lex(&text),
        Ok(vec![Token::Integer(12), Token::Add, name("x")])
    );
}

#[test]
fn a_long_name_is_one_token() {
    let long = "x".repeat(100_000);
    assert_eq!(lex(&long), Ok(vec![name(&long)]));
}
