use calculator::cursor::{consume_while, Cursor};
use calculator::token::{Operator, Token, TokenizeError};
use calculator::tokenizer::{is_decimal_digit, next_token, parse_decimal, Calculator};

fn tokens(text: &str) -> Result<Vec<Token>, TokenizeError> {
    Calculator::new(String::from(text)).tokenize()
}

#[test]
fn test_addition() {
    assert_eq!(2 + 2, 4);
    let expect = vec![
        Token::Number(5),
        Token::Operation(Operator::Addition),
        Token::Number(8),
    ];
    let expr = Calculator { expr: String::from("5+8") };
    assert_eq!(expr.tokenize(), Ok(expect));
}

#[test]
fn test_sub_add() {
    assert_eq!(2 + 2, 4);
    let expect = vec![
        Token::Number(5),
        Token::Operation(Operator::Subtraction),
        Token::Number(8),
        Token::Operation(Operator::Addition),
        Token::Number(9),
    ];
    let expr = Calculator { expr: String::from("5-8+9") };
    assert_eq!(expr.tokenize(), Ok(expect));
}

#[test]
fn test_tokenize_spaces() {
    assert_eq!(2 + 2, 4);
    let expect = vec![
        Token::Number(5),
        Token::Operation(Operator::Addition),
        Token::Number(8),
    ];
    let expr = Calculator { expr: String::from(" 5 +  8 ") };
    assert_eq!(expr.tokenize(), Ok(expect));
}

#[test]
fn empty_input_gives_no_tokens() {
    assert_eq!(tokens(""), Ok(vec![]));
}

#[test]
fn only_whitespace_gives_no_tokens() {
    assert_eq!(tokens(" \t\n\r "), Ok(vec![]));
}

#[test]
fn single_number() {
    assert_eq!(tokens("42"), Ok(vec![Token::Number(42)]));
}

#[test]
fn digit_run_is_one_token() {
    assert_eq!(tokens("123"), Ok(vec![Token::Number(123)]));
    assert_eq!(tokens("007"), Ok(vec![Token::Number(7)]));
}

#[test]
fn whitespace_splits_digit_runs() {
    assert_eq!(tokens("12 34"), Ok(vec![Token::Number(12), Token::Number(34)]));
}

#[test]
fn operator_needs_no_separator() {
    assert_eq!(
        tokens("5+"),
        Ok(vec![Token::Number(5), Token::Operation(Operator::Addition)])
    );
    assert_eq!(
        tokens("--1"),
        Ok(vec![
            Token::Operation(Operator::Subtraction),
            Token::Operation(Operator::Subtraction),
            Token::Number(1),
        ])
    );
}

#[test]
fn unicode_whitespace_is_skipped() {
    assert_eq!(
        tokens("1\u{3000}+\u{a0}2\u{2028}"),
        Ok(vec![
            Token::Number(1),
            Token::Operation(Operator::Addition),
            Token::Number(2),
        ])
    );
}

#[test]
fn multiplication_is_unsupported() {
    assert_eq!(
        tokens("12*3"),
        Err(TokenizeError::UnsupportedCharacter { ch: '*', position: 2 })
    );
}

#[test]
fn division_is_unsupported() {
    assert_eq!(
        tokens(" 8 / 2"),
        Err(TokenizeError::UnsupportedCharacter { ch: '/', position: 3 })
    );
}

#[test]
fn non_ascii_digit_is_unsupported() {
    assert_eq!(
        tokens("5\u{b2}"),
        Err(TokenizeError::UnsupportedCharacter { ch: '\u{b2}', position: 1 })
    );
}

#[test]
fn first_unsupported_character_is_reported() {
    assert_eq!(
        tokens("1+a*b"),
        Err(TokenizeError::UnsupportedCharacter { ch: 'a', position: 2 })
    );
}

#[test]
fn largest_number_fits() {
    let text = format!("{}", usize::MAX);
    assert_eq!(tokens(&text), Ok(vec![Token::Number(usize::MAX)]));
}

#[test]
fn number_too_large_overflows() {
    let text = format!("1 + {}0", usize::MAX);
    assert_eq!(tokens(&text), Err(TokenizeError::NumberOverflow { position: 4 }));
}

#[test]
fn overflow_comes_before_a_later_bad_character() {
    let text = format!("{}9*", usize::MAX);
    assert_eq!(tokens(&text), Err(TokenizeError::NumberOverflow { position: 0 }));
}

#[test]
fn tokenizing_twice_gives_equal_results() {
    let expr = Calculator::new(String::from(" 3 - 14+ 15 "));
    assert_eq!(expr.tokenize(), expr.tokenize());
    let bad = Calculator::new(String::from("3 % 4"));
    assert_eq!(bad.tokenize(), bad.tokenize());
}

#[test]
fn extra_whitespace_between_tokens_changes_nothing() {
    assert_eq!(tokens("5+8-13"), tokens("  5 +\t8  - 13\n"));
}

#[test]
fn reconstructs_visible_characters() {
    let text = "10 + 2-03";
    let rendered: String = tokens(text)
        .unwrap()
        .iter()
        .map(|t| match t {
            Token::Number(v) => format!("{}", v),
            Token::Operation(Operator::Addition) => String::from("+"),
            Token::Operation(Operator::Subtraction) => String::from("-"),
            Token::Operation(_) => String::from("?"),
        })
        .collect();
    assert_eq!(rendered, "10+2-3");
}

#[test]
fn parse_decimal_values() {
    assert_eq!(parse_decimal(&vec!['0']), Some(0));
    assert_eq!(parse_decimal(&vec!['9', '0', '7']), Some(907));
    assert_eq!(parse_decimal(&vec![]), Some(0));
    let too_big: Vec<char> = format!("{}1", usize::MAX).chars().collect();
    assert_eq!(parse_decimal(&too_big), None);
}

#[test]
fn decimal_digit_class() {
    assert!(is_decimal_digit('0'));
    assert!(is_decimal_digit('9'));
    assert!(!is_decimal_digit('a'));
    assert!(!is_decimal_digit('\u{663}'));
}

#[test]
fn cursor_peeks_and_advances() {
    let mut cursor = Cursor::new("ab");
    assert_eq!(cursor.peek(), Some('a'));
    assert_eq!(cursor.advance(), 'a');
    assert_eq!(cursor.peek(), Some('b'));
    assert_eq!(cursor.advance(), 'b');
    assert_eq!(cursor.peek(), None);
}

#[test]
fn consume_while_takes_the_longest_run() {
    let mut cursor = Cursor::new("123+4");
    let run = consume_while(&mut cursor, is_decimal_digit);
    assert_eq!(run, vec!['1', '2', '3']);
    assert_eq!(cursor.pos, 3);
    let none = consume_while(&mut cursor, is_decimal_digit);
    assert!(none.is_empty());
    assert_eq!(cursor.pos, 3);
}

#[test]
fn consume_while_skips_whitespace() {
    let mut cursor = Cursor::new(" \t x");
    let run = consume_while(&mut cursor, char::is_whitespace);
    assert_eq!(run.len(), 3);
    assert_eq!(cursor.peek(), Some('x'));
}

#[test]
fn next_token_steps_through_the_text() {
    let mut cursor = Cursor::new(" 12 - ");
    assert_eq!(next_token(&mut cursor), Ok(Some(Token::Number(12))));
    assert_eq!(
        next_token(&mut cursor),
        Ok(Some(Token::Operation(Operator::Subtraction)))
    );
    assert_eq!(next_token(&mut cursor), Ok(None));
}
