use expr_tokenizer::lexer::{lex, parse_while, RunKind};
use expr_tokenizer::normalize::fix_tokens;
use expr_tokenizer::token::{Direction, Operator, Token, TokenizeError};
use expr_tokenizer::tokenize::{non_whitespace_chars, tokenize};

fn lit(v: i128) -> Token {
    Token::Literal(v)
}

fn op(o: Operator) -> Token {
    Token::Operator(o)
}

fn var(name: &str) -> Token {
    Token::Variable(name.to_string())
}

const OPEN: Operator = Operator::Parenthesis(Direction::Open);
const CLOSE: Operator = Operator::Parenthesis(Direction::Close);

#[test]
fn whitespace_only_gives_no_tokens() {
    assert_eq!(tokenize("   \t\n  "), Ok(vec![]));
    assert_eq!(tokenize(""), Ok(vec![]));
    assert_eq!(tokenize("\u{00A0}\u{3000}"), Ok(vec![]));
}

#[test]
fn digit_run_keeps_its_value() {
    assert_eq!(tokenize("42"), Ok(vec![lit(42)]));
    assert_eq!(tokenize("007"), Ok(vec![lit(7)]));
    assert_eq!(tokenize("1 + 2"), Ok(vec![lit(1), op(Operator::Add), lit(2)]));
    assert_eq!(tokenize("3 - 4"), Ok(vec![lit(3), op(Operator::Sub), lit(4)]));
}

#[test]
fn whitespace_does_not_change_tokens() {
    let expected = Ok(vec![lit(1), op(Operator::Add), var("x"), op(Operator::Mul), lit(30)]);
    assert_eq!(tokenize("1+x*30"), expected);
    assert_eq!(tokenize("  1 +\tx *\n30  "), expected);
    assert_eq!(tokenize("1 + x * 3 0"), expected);
}

#[test]
fn whitespace_inside_runs_is_dropped() {
    assert_eq!(tokenize("12 34"), Ok(vec![lit(1234)]));
    assert_eq!(tokenize("ab cd"), Ok(vec![var("abcd")]));
}

#[test]
fn letters_then_digits_are_two_tokens() {
    assert_eq!(tokenize("abc123"), Ok(vec![var("abc"), lit(123)]));
    assert_eq!(tokenize("12ab"), Ok(vec![lit(12), var("ab")]));
}

#[test]
fn unicode_letters_form_a_variable() {
    assert_eq!(tokenize("héllo+Ωx"), Ok(vec![var("héllo"), op(Operator::Add), var("Ωx")]));
}

#[test]
fn doubled_operator_minus_is_folded() {
    let r = tokenize("1 + 2 - (4 * 5 + -20 - 40) / -60");
    assert_eq!(
        r,
        Ok(vec![
            lit(1),
            op(Operator::Add),
            lit(2),
            op(Operator::Sub),
            op(OPEN),
            lit(4),
            op(Operator::Mul),
            lit(5),
            op(Operator::Add),
            lit(-20),
            op(Operator::Sub),
            lit(40),
            op(CLOSE),
            op(Operator::Div),
            lit(-60),
        ])
    );
}

#[test]
fn leading_minus_is_not_folded() {
    assert_eq!(tokenize("-5"), Ok(vec![op(Operator::Sub), lit(5)]));
    assert_eq!(
        tokenize("-5 + 3"),
        Ok(vec![op(Operator::Sub), lit(5), op(Operator::Add), lit(3)])
    );
    assert_eq!(
        tokenize("(-5)"),
        Ok(vec![op(OPEN), op(Operator::Sub), lit(5), op(CLOSE)])
    );
}

#[test]
fn minus_after_inner_parenthesis_is_folded() {
    assert_eq!(
        tokenize("1*(-5)"),
        Ok(vec![lit(1), op(Operator::Mul), op(OPEN), lit(-5), op(CLOSE)])
    );
}

#[test]
fn minus_between_literals_stays_binary() {
    assert_eq!(
        tokenize("1 - 2 - 3"),
        Ok(vec![lit(1), op(Operator::Sub), lit(2), op(Operator::Sub), lit(3)])
    );
}

#[test]
fn minus_before_variable_is_not_folded() {
    assert_eq!(
        tokenize("1 + -x"),
        Ok(vec![lit(1), op(Operator::Add), op(Operator::Sub), var("x")])
    );
}

#[test]
fn unrecognized_symbol_fails() {
    assert_eq!(tokenize("5 % 2"), Err(TokenizeError::UnrecognizedCharacter('%')));
    assert_eq!(tokenize("1 + 2 $ 99999999999999999999999999999999999999999"), Err(TokenizeError::UnrecognizedCharacter('$')));
}

#[test]
fn too_large_literal_fails() {
    assert_eq!(
        tokenize("170141183460469231731687303715884105728"),
        Err(TokenizeError::NumericOverflow)
    );
    assert_eq!(
        tokenize("1 + 99999999999999999999999999999999999999999 % 2"),
        Err(TokenizeError::NumericOverflow)
    );
}

#[test]
fn largest_literal_is_accepted() {
    assert_eq!(
        tokenize("170141183460469231731687303715884105727"),
        Ok(vec![lit(i128::MAX)])
    );
    assert_eq!(
        tokenize("2 * -170141183460469231731687303715884105727"),
        Ok(vec![lit(2), op(Operator::Mul), lit(-i128::MAX)])
    );
}

#[test]
fn operator_from_symbol() {
    assert_eq!(Operator::try_from('('), Ok(OPEN));
    assert_eq!(Operator::try_from(')'), Ok(CLOSE));
    assert_eq!(Operator::try_from('/'), Ok(Operator::Div));
    assert_eq!(Operator::try_from('*'), Ok(Operator::Mul));
    assert_eq!(Operator::try_from('-'), Ok(Operator::Sub));
    assert_eq!(Operator::try_from('+'), Ok(Operator::Add));
    assert_eq!(Operator::try_from('%'), Err(()));
    assert_eq!(Operator::from_symbol('a'), None);
}

#[test]
fn fix_tokens_folds_and_removes() {
    let mut tokens = vec![
        lit(7),
        op(Operator::Mul),
        op(Operator::Sub),
        lit(3),
        op(Operator::Div),
        op(Operator::Sub),
        lit(2),
    ];
    fix_tokens(&mut tokens);
    assert_eq!(tokens, vec![lit(7), op(Operator::Mul), lit(-3), op(Operator::Div), lit(-2)]);
}

#[test]
fn fix_tokens_leaves_other_sequences() {
    let mut tokens = vec![op(Operator::Add), op(Operator::Sub), lit(5)];
    fix_tokens(&mut tokens);
    assert_eq!(tokens, vec![op(Operator::Add), op(Operator::Sub), lit(5)]);
    let mut empty: Vec<Token> = vec![];
    fix_tokens(&mut empty);
    assert!(empty.is_empty());
}

#[test]
fn parse_while_stops_at_other_kind() {
    let chars: Vec<char> = "ab12+".chars().collect();
    assert_eq!(parse_while(&chars, 0, RunKind::Letters), 2);
    assert_eq!(parse_while(&chars, 2, RunKind::Digits), 4);
    assert_eq!(parse_while(&chars, 4, RunKind::Digits), 5);
}

#[test]
fn non_whitespace_chars_drops_blanks() {
    assert_eq!(non_whitespace_chars(" a\t1 \n+"), vec!['a', '1', '+']);
}

#[test]
fn lex_does_not_fold() {
    let chars: Vec<char> = "1+-2".chars().collect();
    assert_eq!(
        lex(&chars),
        Ok(vec![lit(1), op(Operator::Add), op(Operator::Sub), lit(2)])
    );
}

#[test]
fn is_operator_tells_kinds_apart() {
    assert!(op(Operator::Add).is_operator());
    assert!(!lit(1).is_operator());
    assert!(!var("a").is_operator());
}
