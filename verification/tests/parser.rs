use std::collections::VecDeque;
use tokeniser::parser::{parse_atom, parse_expression, parse_m_expression};
use tokeniser::{Atom, Expression, LexError, MExpression, ParseError, Token, Tokeniser};

fn tokens_of(text: &str) -> Vec<Token> {
    match Tokeniser::new(String::from(text)).collect() {
        Ok(tokens) => tokens,
        Err(error) => panic!("{:?}", error),
    }
}

fn queue_of(text: &str) -> VecDeque<Token> {
    VecDeque::from(tokens_of(text))
}

fn read(text: &str) -> Result<Expression, ParseError> {
    Expression::from_tokens(tokens_of(text))
}

fn num(n: i64) -> Atom {
    Atom::Integer(n)
}

fn var(name: &str) -> Atom {
    Atom::Variable(String::from(name))
}

fn term(atom: Atom) -> MExpression {
    MExpression::Atom(atom)
}

fn times(left: Atom, right: MExpression) -> MExpression {
    MExpression::Multiply(left, Box::new(right))
}

fn over(left: Atom, right: MExpression) -> MExpression {
    MExpression::Divide(left, Box::new(right))
}

fn just(term: MExpression) -> Expression {
    Expression::MExpression(term)
}

fn plus(left: MExpression, right: Expression) -> Expression {
    Expression::Add(left, Box::new(right))
}

fn minus(left: MExpression, right: Expression) -> Expression {
    Expression::Subtract(left, Box::new(right))
}

fn group(inner: Expression) -> Atom {
    Atom::Expression(Box::new(inner))
}

fn value_of(expression: &Expression) -> f64 {
    match expression {
        Expression::Add(left, right) => value_of_term(left) + value_of(right),
        Expression::Subtract(left, right) => value_of_term(left) - value_of(right),
        Expression::MExpression(inner) => value_of_term(inner),
    }
}

fn value_of_term(term: &MExpression) -> f64 {
    match term {
        MExpression::Multiply(left, right) => value_of_atom(left) * value_of_term(right),
        MExpression::Divide(left, right) => value_of_atom(left) / value_of_term(right),
        MExpression::Atom(inner) => value_of_atom(inner),
    }
}

fn value_of_atom(atom: &Atom) -> f64 {
    match atom {
        Atom::Expression(inner) => value_of(inner),
        Atom::Integer(n) => *n as f64,
        Atom::Variable(name) => panic!("no value for {}", name),
    }
}

#[test]
fn product_binds_tighter_than_sum() {
    let expression = read("2 + 3 * 4").unwrap();
    assert_eq!(
        expression,
        plus(term(num(2)), just(times(num(3), term(num(4)))))
    );
    assert_eq!(value_of(&expression), 14.0);
}

#[test]
fn product_before_sum_binds_tighter_too() {
    let expression = read("2 * 3 + 4").unwrap();
    assert_eq!(
        expression,
        plus(times(num(2), term(num(3))), just(term(num(4))))
    );
    assert_eq!(value_of(&expression), 10.0);
}

#[test]
fn subtraction_nests_to_the_right() {
    let expression = read("10 - 2 - 3").unwrap();
    assert_eq!(
        expression,
        minus(term(num(10)), minus(term(num(2)), just(term(num(3)))))
    );
    assert_eq!(value_of(&expression), 11.0);
}

#[test]
fn one_minus_two_minus_three_is_two() {
    assert_eq!(value_of(&read("1 - 2 - 3").unwrap()), 2.0);
}

#[test]
fn division_nests_to_the_right() {
    let expression = read("8 / 4 / 2").unwrap();
    assert_eq!(
        expression,
        just(over(num(8), over(num(4), term(num(2)))))
    );
    assert_eq!(value_of(&expression), 4.0);
}

#[test]
fn parentheses_group() {
    let expression = read("(2 + 3) * 4").unwrap();
    assert_eq!(
        expression,
        just(times(
            group(plus(term(num(2)), just(term(num(3))))),
            term(num(4))
        ))
    );
    assert_eq!(value_of(&expression), 20.0);
}

#[test]
fn division_by_zero_is_infinite() {
    let expression = read("1 / 0").unwrap();
    assert_eq!(expression, just(over(num(1), term(num(0)))));
    assert_eq!(value_of(&expression), f64::INFINITY);
}

#[test]
fn zero_over_zero_is_no_number() {
    assert!(value_of(&read("0 / 0").unwrap()).is_nan());
}

#[test]
fn missing_right_parenthesis_fails() {
    assert_eq!(read("(1 + 2"), Err(ParseError::UnmatchedParentheses));
    assert_eq!(read("(1 + 2 3)"), Err(ParseError::UnmatchedParentheses));
    assert_eq!(read("((1)"), Err(ParseError::UnmatchedParentheses));
    assert_eq!(read("2 * (1 + (3)"), Err(ParseError::UnmatchedParentheses));
}

#[test]
fn missing_right_parenthesis_leaves_the_next_token() {
    let mut queue = queue_of("(1 + 2 x");
    assert_eq!(parse_atom(&mut queue), Err(ParseError::UnmatchedParentheses));
    assert_eq!(queue, VecDeque::from(vec![Token::Variable(String::from("x"))]));
}

#[test]
fn a_variable_parses_but_has_no_value() {
    let expression = read("x + 1").unwrap();
    assert_eq!(expression, plus(term(var("x")), just(term(num(1)))));
    assert!(expression.has_variable());
}

#[test]
fn has_variable_looks_everywhere() {
    assert!(!read("1").unwrap().has_variable());
    assert!(!read("(1 + 2) * 3 - 4 / 5").unwrap().has_variable());
    assert!(read("x").unwrap().has_variable());
    assert!(read("1 + 2 * (3 - (4 / y))").unwrap().has_variable());
    assert!(read("1 - x").unwrap().has_variable());
    assert!(read("x * 2").unwrap().has_variable());
    assert!(read("2 / x").unwrap().has_variable());
    assert!(times(var("a"), term(num(1))).has_variable());
    assert!(!over(num(2), term(num(1))).has_variable());
    assert!(group(just(term(var("a")))).has_variable());
    assert!(!num(3).has_variable());
}

#[test]
fn nothing_is_no_expression() {
    assert_eq!(read(""), Err(ParseError::NoExpression));
    assert_eq!(Expression::from_tokens(vec![]), Err(ParseError::NoExpression));
}

#[test]
fn an_operator_without_a_right_side_is_no_expression() {
    assert_eq!(read("1 +"), Err(ParseError::NoExpression));
    assert_eq!(read("1 -"), Err(ParseError::NoExpression));
    assert_eq!(read("1 *"), Err(ParseError::NoExpression));
    assert_eq!(read("1 /"), Err(ParseError::NoExpression));
    assert_eq!(read("1 + * 2"), Err(ParseError::NoExpression));
}

#[test]
fn an_operator_at_the_start_is_no_expression() {
    assert_eq!(read("+ 1"), Err(ParseError::NoExpression));
    assert_eq!(read("- 1"), Err(ParseError::NoExpression));
    assert_eq!(read("* 1"), Err(ParseError::NoExpression));
    assert_eq!(read(") 1"), Err(ParseError::NoExpression));
}

#[test]
fn empty_parentheses_are_no_expression() {
    assert_eq!(read("()"), Err(ParseError::NoExpression));
    assert_eq!(read("( + 1)"), Err(ParseError::NoExpression));
    assert_eq!(read("(1 + )"), Err(ParseError::NoExpression));
    assert_eq!(read("("), Err(ParseError::NoExpression));
}

#[test]
fn tokens_after_the_expression_are_ignored() {
    assert_eq!(read("1 2"), Ok(just(term(num(1)))));
    assert_eq!(read("1 )"), Ok(just(term(num(1)))));
    assert_eq!(read("1 + 2 ( 3"), Ok(plus(term(num(1)), just(term(num(2))))));
}

#[test]
fn parse_expression_leaves_what_follows() {
    let mut queue = queue_of("1 + 2 ) * 3");
    assert_eq!(
        parse_expression(&mut queue),
        Ok(Some(plus(term(num(1)), just(term(num(2))))))
    );
    assert_eq!(queue, queue_of(") * 3"));
}

#[test]
fn parse_expression_takes_the_operator_before_it_fails() {
    let mut queue = queue_of("1 + ) 2");
    assert_eq!(parse_expression(&mut queue), Ok(None));
    assert_eq!(queue, queue_of(") 2"));
}

#[test]
fn parse_m_expression_stops_at_a_sum() {
    let mut queue = queue_of("2 * x / 3 + 4");
    assert_eq!(
        parse_m_expression(&mut queue),
        Ok(Some(times(num(2), over(var("x"), term(num(3))))))
    );
    assert_eq!(queue, queue_of("+ 4"));
}

#[test]
fn parse_m_expression_takes_the_operator_before_it_fails() {
    let mut queue = queue_of("2 * + 4");
    assert_eq!(parse_m_expression(&mut queue), Ok(None));
    assert_eq!(queue, queue_of("+ 4"));
}

#[test]
fn parse_atom_takes_one_atom() {
    let mut queue = queue_of("12 x (3)");
    assert_eq!(parse_atom(&mut queue), Ok(Some(num(12))));
    assert_eq!(parse_atom(&mut queue), Ok(Some(var("x"))));
    assert_eq!(
        parse_atom(&mut queue),
        Ok(Some(group(just(term(num(3))))))
    );
    assert_eq!(parse_atom(&mut queue), Ok(None));
    assert!(queue.is_empty());
}

#[test]
fn parse_atom_puts_back_what_is_no_atom() {
    for text in ["+ 1", "- 1", "* 1", "/ 1", ") 1"] {
        let mut queue = queue_of(text);
        assert_eq!(parse_atom(&mut queue), Ok(None));
        assert_eq!(queue, queue_of(text));
    }
}

#[test]
fn parse_atom_takes_the_parenthesis_before_it_fails() {
    let mut queue = queue_of("( ) 1");
    assert_eq!(parse_atom(&mut queue), Ok(None));
    assert_eq!(queue, queue_of(") 1"));
}

#[test]
fn nested_parentheses() {
    let expression = read("((1))").unwrap();
    assert_eq!(
        expression,
        just(term(group(just(term(group(just(term(num(1)))))))))
    );
    assert_eq!(value_of(&expression), 1.0);
}

#[test]
fn expression_text() {
    assert_eq!(read("2+3*4").unwrap().to_string(), "2 + (3 * 4)");
    assert_eq!(read("10-2-3").unwrap().to_string(), "10 - 2 - 3");
    assert_eq!(read("(2+3)*4").unwrap().to_string(), "((2 + 3) * 4)");
    assert_eq!(read("8/4/2").unwrap().to_string(), "(8 / (4 / 2))");
    assert_eq!(read("x").unwrap().to_string(), "x");
    assert_eq!(read("( x )").unwrap().to_string(), "(x)");
    assert_eq!(read("a_b - 007").unwrap().to_string(), "a_b - 7");
}

#[test]
fn text_of_each_level() {
    assert_eq!(num(-5).to_string(), "-5");
    assert_eq!(num(i64::MIN).to_string(), "-9223372036854775808");
    assert_eq!(var("abc").to_string(), "abc");
    assert_eq!(group(just(term(num(1)))).to_string(), "(1)");
    assert_eq!(term(num(1)).to_string(), "1");
    assert_eq!(times(num(1), term(var("x"))).to_string(), "(1 * x)");
    assert_eq!(over(num(1), term(var("x"))).to_string(), "(1 / x)");
    assert_eq!(plus(term(num(1)), just(term(num(2)))).to_string(), "1 + 2");
    assert_eq!(minus(term(num(1)), just(term(num(2)))).to_string(), "1 - 2");
}

fn read_back(expression: &Expression) -> Expression {
    read(&expression.to_string()).unwrap()
}

#[test]
fn the_text_of_a_tree_reads_back_with_the_same_value() {
    let trees = vec![
        just(term(num(7))),
        plus(term(num(2)), just(times(num(3), term(num(4))))),
        minus(term(num(10)), minus(term(num(2)), just(term(num(3))))),
        minus(
            term(num(10)),
            plus(term(num(2)), minus(term(num(3)), just(term(num(4))))),
        ),
        just(over(num(8), over(num(4), term(num(2))))),
        just(times(
            group(plus(term(num(2)), just(term(num(3))))),
            over(num(4), term(group(just(term(num(5)))))),
        )),
        just(over(num(1), term(num(0)))),
    ];
    for tree in trees {
        let again = read_back(&tree);
        assert_eq!(value_of(&again), value_of(&tree));
        assert_eq!(again.to_string().replace("(", "").replace(")", ""),
            tree.to_string().replace("(", "").replace(")", ""));
    }
}

#[test]
fn a_product_reads_back_in_parentheses() {
    let tree = just(times(num(3), term(var("x"))));
    assert_eq!(tree.to_string(), "(3 * x)");
    assert_eq!(
        read_back(&tree),
        just(term(group(just(times(num(3), term(var("x")))))))
    );
}

#[test]
fn a_tree_without_products_reads_back_as_itself() {
    let tree = minus(
        term(var("a")),
        plus(term(group(just(term(num(2))))), just(term(num(3)))),
    );
    assert_eq!(tree.to_string(), "a - (2) + 3");
    assert_eq!(read_back(&tree), tree);
}

#[test]
fn the_tokens_of_a_tree_parse_to_the_tree() {
    let tokens = vec![
        Token::Integer(-2),
        Token::Multiply,
        Token::Variable(String::from("")),
        Token::Subtract,
        Token::LeftParenthesis,
        Token::Variable(String::from("1 +")),
        Token::RightParenthesis,
    ];
    assert_eq!(
        Expression::from_tokens(tokens),
        Ok(minus(
            times(num(-2), term(var(""))),
            just(term(group(just(term(var("1 +")))))),
        ))
    );
}

#[test]
fn a_negative_integer_does_not_read_back() {
    let tree = just(term(num(-5)));
    assert_eq!(tree.to_string(), "-5");
    assert_eq!(read("-5"), Err(ParseError::NoExpression));
}

#[test]
fn lexing_fails_before_parsing() {
    let tokens: Result<Vec<Token>, LexError> = Tokeniser::new(String::from("(1 # 2")).collect();
    assert_eq!(tokens, Err(LexError::UnknownToken));
}

#[test]
fn a_long_sum_nests_to_the_right() {
    let mut text = String::from("1");
    for _ in 0..500 {
        text.push_str(" - 1");
    }
    let expression = read(&text).unwrap();
    assert_eq!(expression.to_string(), text);
    assert_eq!(value_of(&expression), 1.0);
}
