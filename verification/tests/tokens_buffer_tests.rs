use tergo::tokens::{CommentedToken, Token};
use tergo::tokens_buffer::{Error, TokensBuffer};

#[test]
fn test_displaying_tokens() {
    let tokens = [
        CommentedToken::new(Token::Symbol("a"), 1, 0),
        CommentedToken::new(Token::Symbol("b"), 1, 1),
    ];
    let displayed = TokensBuffer(&[&tokens[0], &tokens[1]]).to_string();
    assert_eq!("Symbol(\"a\") Symbol(\"b\")", displayed);
}

#[test]
fn displaying_no_tokens_gives_nothing() {
    let displayed = TokensBuffer(&[]).to_string();
    assert_eq!("", displayed);
}

#[test]
fn displaying_an_error_closes_its_context() {
    let error = Error::UnexpectedCharacter("at line 1 (column 3".to_string());
    assert_eq!(error.to_string(), "at line 1 (column 3)");
}
