use my_rust_eval::error::EvalError;
use my_rust_eval::lexer::{lexer_impl, to_10_digit, tokenize, Lexer};
use my_rust_eval::reader::string_reader;
use my_rust_eval::token::Token;

fn token_vec_of_string(s: &str) -> Vec<Token> {
    let mut tokens = lexer_impl(string_reader(s)).tokens();
    let mut out = Vec::new();
    while let Some(t) = tokens.next_token().unwrap() {
        out.push(t);
    }
    out
}

#[test]
fn lexer_impl_lex_eleven_plus_three() {
    let actual = token_vec_of_string("11 + 3");
    assert_eq!(vec![Token::Value(11), Token::Plus, Token::Value(3)], actual);
}

#[test]
fn lexer_impl_lex_big_whitespace() {
    let actual = token_vec_of_string("   325      +123*    66");
    let expected = vec![Token::Value(325), Token::Plus, Token::Value(123), Token::Times, Token::Value(66)];
    assert_eq!(expected, actual);
}

#[test]
fn lexer_impl_lex_empty() {
    let actual = token_vec_of_string("   ");
    let expected: Vec<Token> = vec![];
    assert_eq!(expected, actual);
}

#[test]
fn whitespace_does_not_change_tokens() {
    assert_eq!(tokenize("   325      +123*    66"), tokenize("325+123*66"));
    assert_eq!(
        Ok(vec![Token::Value(325), Token::Plus, Token::Value(123), Token::Times, Token::Value(66)]),
        tokenize("325+123*66")
    );
}

#[test]
fn tokenizing_twice_gives_equal_tokens() {
    let s = "(2 + 3) * 4 - 10 / 5";
    let first = tokenize(s);
    let second = tokenize(s);
    assert_eq!(first, second);
    assert_eq!(11, first.unwrap().len());
}

#[test]
fn lex_all_symbols() {
    assert_eq!(
        Ok(vec![
            Token::LeftParenthesis,
            Token::Plus,
            Token::Minus,
            Token::Times,
            Token::Div,
            Token::RightParenthesis,
            Token::Value(0),
        ]),
        tokenize("(+-*/)0")
    );
}

#[test]
fn lex_tabs_and_newlines_are_whitespace() {
    assert_eq!(Ok(vec![Token::Value(1), Token::Plus, Token::Value(2)]), tokenize("\t1\n+\r\n2 "));
}

#[test]
fn lex_unsupported_character() {
    assert_eq!(Err(EvalError::UnsupportedCharacter('$')), tokenize("2 $ 3"));
    assert_eq!(Err(EvalError::UnsupportedCharacter('x')), tokenize("x"));
}

#[test]
fn lex_largest_literal() {
    assert_eq!(Ok(vec![Token::Value(2147483647)]), tokenize("2147483647"));
    assert_eq!(Err(EvalError::Overflow), tokenize("2147483648"));
    assert_eq!(Ok(vec![Token::Value(7)]), tokenize("0007"));
}

#[test]
fn lex_stream_stops_at_the_error() {
    let mut tokens = lexer_impl(string_reader("1 + #")).tokens();
    assert_eq!(Ok(Some(Token::Value(1))), tokens.next_token());
    assert_eq!(Ok(Some(Token::Plus)), tokens.next_token());
    assert_eq!(Err(EvalError::UnsupportedCharacter('#')), tokens.next_token());
}

#[test]
fn digit_values() {
    assert_eq!(0, to_10_digit('0'));
    assert_eq!(7, to_10_digit('7'));
    assert_eq!(9, to_10_digit('9'));
}

#[test]
fn lex_eleven_plus_three() {
    let actual = tokenize("11 + 3").unwrap();
    assert_eq!(vec![Token::Value(11), Token::Plus, Token::Value(3)], actual);
}

#[test]
fn lex_big_whitespace() {
    let actual = tokenize("   325      +123*    66").unwrap();
    let expected = vec![Token::Value(325), Token::Plus, Token::Value(123), Token::Times, Token::Value(66)];
    assert_eq!(expected, actual);
}

#[test]
fn lex_empty() {
    let actual = tokenize("   ").unwrap();
    let expected: Vec<Token> = vec![];
    assert_eq!(expected, actual);
}
