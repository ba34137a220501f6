use tergo::ast::{Args, Delimiter, Expression, FunctionDefinition, TermExpr};
use tergo::parser::{eof, expr, literal, literal_expr, parse, program, symbol, symbol_expr};
use tergo::pre_parsing_hooks::pre_parse;
use tergo::tokens::{CommentedToken, Token};

fn commented_tokens(tokens: Vec<Token<'static>>) -> Vec<CommentedToken<'static>> {
    tokens
        .into_iter()
        .map(|token| CommentedToken::new(token, 0, 0))
        .collect()
}

fn binary_op_tokens() -> Vec<Token<'static>> {
    vec![
        Token::Help,
        Token::RAssign,
        Token::Tilde,
        Token::Or,
        Token::VectorizedOr,
        Token::And,
        Token::VectorizedAnd,
        Token::NotEqual,
        Token::GreaterThan,
        Token::GreaterEqual,
        Token::LowerThan,
        Token::LowerEqual,
        Token::Equal,
        Token::NotEqual,
        Token::Plus,
        Token::Minus,
        Token::Multiply,
        Token::Divide,
        Token::Colon,
        Token::Dollar,
        Token::Slot,
        Token::NsGet,
        Token::NsGetInt,
        Token::LAssign,
        Token::OldAssign,
        Token::Power,
        Token::Special("%>%"),
    ]
}

#[test]
fn helpers_commented_tokens_macro() {
    let tokens = commented_tokens(vec![Token::Symbol("a"), Token::InlineComment("# Comment")]);
    assert_eq!(tokens.len(), 2);
    assert_eq!(tokens[0].token, Token::Symbol("a"));
    assert_eq!(tokens[1].token, Token::InlineComment("# Comment"));
}

#[test]
fn program_parses_newline() {
    let tokens = commented_tokens(vec![Token::Newline, Token::EOF]);
    let res = parse(&tokens).unwrap();
    assert_eq!(
        res,
        vec![Expression::Whitespace(&tokens[..1]), Expression::EOF(&tokens[1])]
    );
}

#[test]
fn parses_literal_ending_with_a_newline() {
    let tokens = commented_tokens(vec![Token::Literal("7"), Token::Newline, Token::EOF]);
    let res = parse(&tokens).unwrap();
    assert_eq!(
        res,
        vec![Expression::Literal(&tokens[0]), Expression::EOF(&tokens[2])]
    );
}

#[test]
fn parses_literal_ending_with_2_newlines() {
    let tokens = commented_tokens(vec![
        Token::Literal("a"),
        Token::Newline,
        Token::Newline,
        Token::EOF,
    ]);
    let res = parse(&tokens).unwrap();
    assert_eq!(
        res,
        vec![
            Expression::Literal(&tokens[0]),
            Expression::Whitespace(&tokens[2..3]),
            Expression::EOF(&tokens[3]),
        ]
    );
}

#[test]
fn token_parsers_symbols() {
    let examples = [commented_tokens(vec![Token::Symbol("a")])];
    for tokens in &examples {
        let res = symbol(tokens, 0).unwrap().1;
        assert_eq!(res, &tokens[0]);
    }
}

#[test]
fn literals() {
    let examples = [commented_tokens(vec![Token::Literal("a")])];
    for tokens in &examples {
        let res = literal(tokens, 0).unwrap().1;
        assert_eq!(res, &tokens[0]);
    }
}

#[test]
fn test_eof() {
    let examples = commented_tokens(vec![Token::EOF]);
    let res = eof(&examples, 0).unwrap().1;
    assert_eq!(res, &examples[0]);
}

#[test]
fn expressions_symbol_exprs() {
    let tokens = commented_tokens(vec![Token::Symbol("a")]);
    let res = symbol_expr(&tokens, 0).unwrap().1;
    assert_eq!(res, Expression::Symbol(&tokens[0]));
}

#[test]
fn expressions_literal_exprs() {
    let tokens = commented_tokens(vec![Token::Literal("1")]);
    let res = literal_expr(&tokens, 0).unwrap().1;
    assert_eq!(res, Expression::Literal(&tokens[0]));
}

#[test]
fn expressions() {
    for token in binary_op_tokens() {
        let tokens = commented_tokens(vec![Token::Literal("1"), token, Token::Literal("1"), Token::EOF]);
        let res = expr(&tokens, 0).unwrap().1;
        assert_eq!(
            res,
            Expression::Bop(
                &tokens[1],
                Box::new(Expression::Literal(&tokens[0])),
                Box::new(Expression::Literal(&tokens[2]))
            )
        );
    }
}

#[test]
fn right_associative_bop() {
    let tokens = commented_tokens(vec![
        Token::Literal("1"),
        Token::Power,
        Token::Literal("2"),
        Token::Power,
        Token::Literal("3"),
        Token::EOF,
    ]);
    let res = expr(&tokens, 0).unwrap().1;
    assert_eq!(
        res,
        Expression::Bop(
            &tokens[1],
            Box::new(Expression::Literal(&tokens[0])),
            Box::new(Expression::Bop(
                &tokens[3],
                Box::new(Expression::Literal(&tokens[2])),
                Box::new(Expression::Literal(&tokens[4]))
            ))
        )
    );
}

#[test]
fn left_associative_bop() {
    let tokens = commented_tokens(vec![
        Token::Literal("1"),
        Token::Plus,
        Token::Literal("2"),
        Token::Plus,
        Token::Literal("3"),
        Token::EOF,
    ]);
    let res = expr(&tokens, 0).unwrap().1;
    assert_eq!(
        res,
        Expression::Bop(
            &tokens[3],
            Box::new(Expression::Bop(
                &tokens[1],
                Box::new(Expression::Literal(&tokens[0])),
                Box::new(Expression::Literal(&tokens[2]))
            )),
            Box::new(Expression::Literal(&tokens[4]))
        )
    );
}

#[test]
fn bop_precedence() {
    let tokens = commented_tokens(vec![
        Token::Literal("1"),
        Token::Multiply,
        Token::Literal("2"),
        Token::Plus,
        Token::Literal("3"),
        Token::EOF,
    ]);
    let res = expr(&tokens, 0).unwrap().1;
    assert_eq!(
        res,
        Expression::Bop(
            &tokens[3],
            Box::new(Expression::Bop(
                &tokens[1],
                Box::new(Expression::Literal(&tokens[0])),
                Box::new(Expression::Literal(&tokens[2]))
            )),
            Box::new(Expression::Literal(&tokens[4]))
        )
    )
}

#[test]
fn double_brace() {
    let tokens = commented_tokens(vec![
        Token::LBrace,
        Token::LBrace,
        Token::Literal("1"),
        Token::RBrace,
        Token::RBrace,
    ]);
    let res = expr(&tokens, 0).unwrap().1;
    assert_eq!(
        res,
        Expression::Term(Box::new(TermExpr {
            pre_delimiters: Some(&tokens[0]),
            term: vec![Expression::Term(Box::new(TermExpr {
                pre_delimiters: Some(&tokens[1]),
                term: vec![Expression::Literal(&tokens[2])],
                post_delimiters: Some(&tokens[3])
            }))],
            post_delimiters: Some(&tokens[4])
        }))
    )
}

#[test]
fn no_args_no_body_function_def() {
    let tokens = commented_tokens(vec![
        Token::Function,
        Token::LParen,
        Token::RParen,
        Token::LBrace,
        Token::RBrace,
        Token::EOF,
    ]);
    let parsed = expr(&tokens, 0).unwrap();
    let res = parsed.1;
    assert_eq!(
        res,
        Expression::FunctionDef(FunctionDefinition::new(
            &tokens[0],
            Args::new(Delimiter::Paren(&tokens[1]), vec![], Delimiter::Paren(&tokens[2])),
            Box::new(Expression::Term(Box::new(TermExpr::new(
                Some(&tokens[3]),
                vec![],
                Some(&tokens[4])
            ))))
        ))
    );

    // Because the eof is left
    assert_eq!(tokens.len() - parsed.0, 1);
}

#[test]
fn test_pre_parse() {
    let tokens = commented_tokens(vec![
        Token::Comment("Comment"),
        Token::Newline,
        Token::Symbol("7"),
        Token::InlineComment("Inline comment"),
    ]);
    let commented_tokens = pre_parse(&tokens);
    assert!(commented_tokens.len() == 1);
    let res_token = &commented_tokens[0];

    // Comments
    assert_eq!(
        res_token.leading_comments,
        Some(vec!["Comment"]),
        "The length of the leading comments does not match"
    );

    // Inlined comments
    assert!(res_token.inline_comment.is_some());
    assert!(matches!(res_token.inline_comment.unwrap(), "Inline comment"));
}

#[test]
fn parse_fails_on_a_lone_operator() {
    let tokens = commented_tokens(vec![Token::Plus, Token::EOF]);
    assert_eq!(parse(&tokens), Err("Could not parse: Plus EOF".to_string()));
}

#[test]
fn program_reads_a_symbol_as_a_term() {
    let tokens = commented_tokens(vec![Token::Symbol("a"), Token::EOF]);
    let res = program(&tokens).unwrap();
    assert_eq!(
        res,
        Expression::Term(Box::new(TermExpr::new(None, vec![Expression::Symbol(&tokens[0])], None)))
    );
}

#[test]
fn program_reads_a_term_in_parentheses() {
    let tokens = commented_tokens(vec![
        Token::LParen,
        Token::Newline,
        Token::Literal("1"),
        Token::RParen,
        Token::EOF,
    ]);
    let res = program(&tokens).unwrap();
    let inner = Expression::Term(Box::new(TermExpr::new(None, vec![Expression::Literal(&tokens[2])], None)));
    assert_eq!(
        res,
        Expression::Term(Box::new(TermExpr::new(Some(&tokens[0]), vec![inner], Some(&tokens[3]))))
    );
}

#[test]
fn program_fails_without_a_term() {
    let tokens = commented_tokens(vec![Token::RParen, Token::EOF]);
    assert_eq!(program(&tokens), Err("Could not parse: RParen EOF".to_string()));
    let empty = commented_tokens(vec![]);
    assert_eq!(program(&empty), Err("Could not parse: ".to_string()));
}

#[test]
fn parse_stops_at_the_first_end_of_file() {
    let tokens = commented_tokens(vec![
        Token::Symbol("a"),
        Token::Newline,
        Token::EOF,
        Token::Symbol("b"),
        Token::EOF,
    ]);
    let res = parse(&tokens).unwrap();
    assert_eq!(res.len(), 2);
    assert_eq!(res[0], Expression::Symbol(&tokens[0]));
    assert_eq!(res[1], Expression::EOF(&tokens[2]));
}
