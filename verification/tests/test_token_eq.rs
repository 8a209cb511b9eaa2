use luar::lex::Token;

#[test]
fn test_eq_between_tokens() {
    assert_eq!(Token::Add, Token::Add);
    assert_eq!(Token::Integer(1), Token::Integer(1));

    assert_ne!(Token::Integer(1), Token::Integer(2));
    assert_ne!(Token::Integer(1), Token::String(String::from("value").into_bytes()));
    assert_ne!(
        Token::String(String::from("value").into_bytes()),
        Token::String(String::from("value2").into_bytes())
    );
}

#[test]
fn tokens_of_different_kinds_with_the_same_bytes_differ() {
    assert_ne!(Token::String(b"x".to_vec()), Token::Name(b"x".to_vec()));
    assert_eq!(Token::Name(b"x".to_vec()), Token::Name(b"x".to_vec()));
    assert_ne!(Token::Add, Token::Sub);
    assert_ne!(Token::And, Token::Integer(0));
}

#[test]
fn a_cloned_token_equals_the_token() {
    let tokens = vec![
        Token::While,
        Token::Dots,
        Token::Integer(-7),
        Token::String(b"a\tb".to_vec()),
        Token::Name(b"print".to_vec()),
    ];
    for t in tokens.iter() {
        assert_eq!(&t.clone(), t);
    }
}
