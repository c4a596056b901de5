use my_rust_eval::token::Token;

#[test]
fn token_plus_debug_string() {
    assert_eq!("Plus", format!("{:?}", Token::Plus));
}

#[test]
fn new_token() {
    assert_eq!("Value(42)", format!("{:?}", Token::Value(42)));
}
