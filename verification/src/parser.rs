//! The parser: reads the tokens (comments squeezed in) into expressions, and
//! is proved to build exactly the trees that the grammar gives.
use crate::ast::{
    arg_csts, args_cst, cst, csts, else_ifs_cst, tok, Arg, Args, Delimiter, ElseIfConditional,
    Expression, ForLoop, FunctionCall, FunctionDefinition, IfConditional, IfExpression, Lambda,
    RepeatExpression, SubsetExpression, TermExpr, TrailingElse, WhileExpression,
};
use crate::grammar;
use crate::grammar::{Cst, DelimKind, NodeKind};
use crate::pre_parsing_hooks::tokens_view;
use crate::tokens::{CommentedToken, CommentedTokenV, Token};
use crate::tokens_buffer::{debug_texts_from, spaced, tokens_text_from};
use vstd::prelude::*;
use vstd::string::StringExecFns;

verus! {

/// The tokens as values.
pub open spec fn tv(tokens: &[CommentedToken]) -> Seq<CommentedTokenV> {
    tokens_view(tokens@)
}

/// A parse result as a position and a tree.
pub open spec fn parsed(r: Option<(usize, Expression)>) -> Option<(int, Cst)> {
    match r {
        Some((k, e)) => Some((k as int, cst(e))),
        None => None,
    }
}

pub open spec fn parsed_args(r: Option<(usize, Args)>) -> Option<(int, Cst)> {
    match r {
        Some((k, a)) => Some((k as int, args_cst(a))),
        None => None,
    }
}

pub proof fn lemma_csts_cons(e: Expression, rest: Seq<Expression>)
    ensures
        csts(seq![e] + rest) == seq![cst(e)] + csts(rest),
{
    reveal_with_fuel(csts, 1);
    let s = seq![e] + rest;
    assert(s.subrange(1, s.len() as int) =~= rest);
}

pub proof fn lemma_csts_one(e: Expression)
    ensures
        csts(seq![e]) == seq![cst(e)],
{
    reveal_with_fuel(csts, 1);
    lemma_csts_cons(e, Seq::empty());
    assert(seq![e] + Seq::<Expression>::empty() =~= seq![e]);
    assert(csts(Seq::<Expression>::empty()) =~= Seq::<Cst>::empty());
    assert(seq![cst(e)] + Seq::<Cst>::empty() =~= seq![cst(e)]);
}

pub proof fn lemma_else_ifs_cons(e: ElseIfConditional, rest: Seq<ElseIfConditional>)
    ensures
        else_ifs_cst(seq![e] + rest) == seq![
            Cst::Node(
                NodeKind::ElseIf,
                seq![tok(e.else_keyword), crate::ast::if_conditional_cst(e.if_conditional)],
            ),
        ] + else_ifs_cst(rest),
{
    reveal_with_fuel(else_ifs_cst, 1);
    let s = seq![e] + rest;
    assert(s.subrange(1, s.len() as int) =~= rest);
}

pub proof fn lemma_arg_csts_cons(a: Arg, rest: Seq<Arg>)
    ensures
        arg_csts(seq![a] + rest) == seq![crate::ast::arg_node(a)] + arg_csts(rest),
{
    reveal_with_fuel(arg_csts, 1);
    let s = seq![a] + rest;
    assert(s.subrange(1, s.len() as int) =~= rest);
}

pub proof fn lemma_arg_csts_one(a: Arg)
    ensures
        arg_csts(seq![a]) == seq![crate::ast::arg_node(a)],
{
    reveal_with_fuel(arg_csts, 1);
    lemma_arg_csts_cons(a, Seq::empty());
    assert(seq![a] + Seq::<Arg>::empty() =~= seq![a]);
    assert(arg_csts(Seq::<Arg>::empty()) =~= Seq::<Cst>::empty());
    assert(seq![crate::ast::arg_node(a)] + Seq::<Cst>::empty() =~= seq![crate::ast::arg_node(a)]);
}

/// The position after the newlines that start at `pos`.
#[verifier::spinoff_prover]
fn skip_newlines(tokens: &[CommentedToken], pos: usize) -> (r: usize)
    requires
        pos <= tokens@.len(),
    ensures
        r as int == grammar::skip_newlines(tv(tokens), pos as int),
        pos <= r <= tokens@.len(),
{
    let ghost toks = tv(tokens);
    let mut r = pos;
    while r < tokens.len() && matches!(tokens[r].token, Token::Newline)
        invariant
            toks == tv(tokens),
            pos <= r <= tokens@.len(),
            grammar::skip_newlines(toks, pos as int) == grammar::skip_newlines(toks, r as int),
        decreases tokens@.len() - r,
    {
        r = r + 1;
    }
    r
}

/// The end of the whole-line comments and newlines that start at `pos`.
#[verifier::spinoff_prover]
fn blank_end(tokens: &[CommentedToken], pos: usize) -> (r: usize)
    requires
        pos <= tokens@.len(),
    ensures
        r as int == grammar::blank_end(tv(tokens), pos as int),
        pos <= r <= tokens@.len(),
{
    let ghost toks = tv(tokens);
    let mut r = pos;
    while r < tokens.len() && matches!(tokens[r].token, Token::Newline | Token::Comment(_))
        invariant
            toks == tv(tokens),
            pos <= r <= tokens@.len(),
            grammar::blank_end(toks, pos as int) == grammar::blank_end(toks, r as int),
        decreases tokens@.len() - r,
    {
        r = r + 1;
    }
    r
}

/// A symbol token.
#[verifier::spinoff_prover]
pub fn symbol<'a>(tokens: &'a [CommentedToken<'a>], pos: usize) -> (r: Option<(usize, &'a CommentedToken<'a>)>)
    requires
        pos <= tokens@.len(),
    ensures
        r is Some <==> (pos < tokens@.len() && tokens@[pos as int].token is Symbol),
        r matches Some((k, t)) ==> k == pos + 1 && *t == tokens@[pos as int],
{
    if pos < tokens.len() && matches!(tokens[pos].token, Token::Symbol(_)) {
        Some((pos + 1, &tokens[pos]))
    } else {
        None
    }
}

/// A literal token.
#[verifier::spinoff_prover]
pub fn literal<'a>(tokens: &'a [CommentedToken<'a>], pos: usize) -> (r: Option<(usize, &'a CommentedToken<'a>)>)
    requires
        pos <= tokens@.len(),
    ensures
        r is Some <==> (pos < tokens@.len() && tokens@[pos as int].token is Literal),
        r matches Some((k, t)) ==> k == pos + 1 && *t == tokens@[pos as int],
{
    if pos < tokens.len() && matches!(tokens[pos].token, Token::Literal(_)) {
        Some((pos + 1, &tokens[pos]))
    } else {
        None
    }
}

/// The end-of-file token.
#[verifier::spinoff_prover]
pub fn eof<'a>(tokens: &'a [CommentedToken<'a>], pos: usize) -> (r: Option<(usize, &'a CommentedToken<'a>)>)
    requires
        pos <= tokens@.len(),
    ensures
        r is Some <==> (pos < tokens@.len() && tokens@[pos as int].token is EOF),
        r matches Some((k, t)) ==> k == pos + 1 && *t == tokens@[pos as int],
{
    if pos < tokens.len() && matches!(tokens[pos].token, Token::EOF) {
        Some((pos + 1, &tokens[pos]))
    } else {
        None
    }
}

/// A symbol, as an expression.
#[verifier::spinoff_prover]
pub fn symbol_expr<'a>(tokens: &'a [CommentedToken<'a>], pos: usize) -> (r: Option<(usize, Expression<'a>)>)
    requires
        pos <= tokens@.len(),
    ensures
        r is Some <==> (pos < tokens@.len() && tokens@[pos as int].token is Symbol),
        r matches Some((k, e)) ==> k == pos + 1 && e == Expression::Symbol(&tokens@[pos as int]),
{
    match symbol(tokens, pos) {
        Some((k, t)) => Some((k, Expression::Symbol(t))),
        None => None,
    }
}

/// A literal, as an expression.
#[verifier::spinoff_prover]
pub fn literal_expr<'a>(tokens: &'a [CommentedToken<'a>], pos: usize) -> (r: Option<(usize, Expression<'a>)>)
    requires
        pos <= tokens@.len(),
    ensures
        r is Some <==> (pos < tokens@.len() && tokens@[pos as int].token is Literal),
        r matches Some((k, e)) ==> k == pos + 1 && e == Expression::Literal(&tokens@[pos as int]),
{
    match literal(tokens, pos) {
        Some((k, t)) => Some((k, Expression::Literal(t))),
        None => None,
    }
}

/// An expression in parentheses, newlines allowed inside them.
#[verifier::spinoff_prover]
fn paren_term<'a>(tokens: &'a [CommentedToken<'a>], pos: usize) -> (r: Option<(usize, Expression<'a>)>)
    requires
        pos < tokens@.len(),
        tokens@[pos as int].token is LParen,
    ensures
        parsed(r) == grammar::term_expr(tv(tokens), pos as int),
    decreases tokens@.len() - pos, 1nat,
{
    proof {
        reveal_with_fuel(grammar::term_expr, 1);
    }
    let ghost toks = tv(tokens);
    let p1 = skip_newlines(tokens, pos + 1);
    let ghost spec_inner = match grammar::after(toks, grammar::expr(toks, p1 as int), p1 + 1) {
        Some((k, c)) => (k, seq![c]),
        None => (p1 as int, Seq::<Cst>::empty()),
    };
    let (p2, inner) = match expr_after(tokens, p1) {
        Some((k, e)) => {
            let v = vec![e];
            proof {
                lemma_csts_one(e);
                assert(v@ =~= seq![e]);
            }
            (k, v)
        },
        None => {
            let v: Vec<Expression<'a>> = Vec::new();
            proof {
                assert(v@ =~= Seq::<Expression>::empty());
                reveal_with_fuel(csts, 1);
                assert(csts(v@) =~= Seq::<Cst>::empty());
            }
            (p1, v)
        },
    };
    assert(spec_inner == (p2 as int, csts(inner@)));
    let p3 = skip_newlines(tokens, p2);
    if p3 < tokens.len() && matches!(tokens[p3].token, Token::RParen) {
        let ghost inner_cst = csts(inner@);
        let term = TermExpr::new(Some(&tokens[pos]), inner, Some(&tokens[p3]));
        let e = Expression::Term(Box::new(term));
        assert(cst(e)->Node_1 =~= seq![
            tok(&tokens[pos as int]),
            Cst::Node(NodeKind::List, inner_cst),
            tok(&tokens[p3 as int]),
        ]);
        Some((p3 + 1, e))
    } else {
        None
    }
}

/// A block: statements in braces.
#[verifier::spinoff_prover]
fn brace_term<'a>(tokens: &'a [CommentedToken<'a>], pos: usize) -> (r: Option<(usize, Expression<'a>)>)
    requires
        pos < tokens@.len(),
        tokens@[pos as int].token is LBrace,
    ensures
        parsed(r) == grammar::term_expr(tv(tokens), pos as int),
    decreases tokens@.len() - pos, 1nat,
{
    proof {
        reveal_with_fuel(grammar::term_expr, 1);
    }
    let n = tokens.len();
    let p1 = skip_newlines(tokens, pos + 1);
    let (p2, stmts) = statements(tokens, p1);
    let p3 = skip_newlines(tokens, p2);
    if p3 < tokens.len() && matches!(tokens[p3].token, Token::RBrace) {
        let ghost inner_cst = csts(stmts@);
        let term = TermExpr::new(Some(&tokens[pos]), stmts, Some(&tokens[p3]));
        let e = Expression::Term(Box::new(term));
        assert(cst(e)->Node_1 =~= seq![
            tok(&tokens[pos as int]),
            Cst::Node(NodeKind::List, inner_cst),
            tok(&tokens[p3 as int]),
        ]);
        Some((p3 + 1, e))
    } else {
        None
    }
}

/// A term: a compound expression, `break`, `next`, a symbol, a literal, an
/// expression in parentheses or a block in braces.
#[verifier::spinoff_prover]
pub fn term_expr<'a>(tokens: &'a [CommentedToken<'a>], pos: usize) -> (r: Option<(usize, Expression<'a>)>)
    requires
        pos <= tokens@.len(),
    ensures
        parsed(r) == grammar::term_expr(tv(tokens), pos as int),
    decreases tokens@.len() - pos, 2nat,
{
    proof {
        reveal_with_fuel(grammar::term_expr, 1);
    }
    let ghost toks = tv(tokens);
    if pos >= tokens.len() {
        return None;
    }
    match tokens[pos].token {
        Token::For => for_loop_expression(tokens, pos),
        Token::While => while_expression(tokens, pos),
        Token::Repeat => repeat_expression(tokens, pos),
        Token::Function => function_def(tokens, pos),
        Token::Lambda => lambda_function(tokens, pos),
        Token::If => if_expression(tokens, pos),
        Token::Break => Some((pos + 1, Expression::Break(&tokens[pos]))),
        Token::Continue => Some((pos + 1, Expression::Continue(&tokens[pos]))),
        Token::Symbol(_) => symbol_expr(tokens, pos),
        Token::Literal(_) => literal_expr(tokens, pos),
        Token::LParen => paren_term(tokens, pos),
        Token::LBrace => brace_term(tokens, pos),
        _ => None,
    }
}

/// An expression that must move past `min`: its position and tree, or `None`.
#[verifier::spinoff_prover]
fn expr_after<'a>(tokens: &'a [CommentedToken<'a>], pos: usize) -> (r: Option<(usize, Expression<'a>)>)
    requires
        pos <= tokens@.len(),
    ensures
        parsed(r) == grammar::after(tv(tokens), grammar::expr(tv(tokens), pos as int), pos + 1),
        r matches Some((k, _)) ==> pos < k <= tokens@.len(),
    decreases tokens@.len() - pos, 6nat,
{
    match expr(tokens, pos) {
        Some((k, e)) => if pos < k && k <= tokens.len() {
            Some((k, e))
        } else {
            None
        },
        None => None,
    }
}

/// `for ( identifier in collection ) body`, newlines allowed around the parts.
#[verifier::spinoff_prover]
pub fn for_loop_expression<'a>(tokens: &'a [CommentedToken<'a>], pos: usize) -> (r: Option<
    (usize, Expression<'a>),
>)
    requires
        pos <= tokens@.len(),
    ensures
        parsed(r) == grammar::for_loop_expression(tv(tokens), pos as int),
    decreases tokens@.len() - pos, 0nat,
{
    proof {
        reveal_with_fuel(grammar::for_loop_expression, 1);
    }
    if pos >= tokens.len() || !matches!(tokens[pos].token, Token::For) {
        return None;
    }
    let p1 = skip_newlines(tokens, pos + 1);
    if !(p1 < tokens.len() && matches!(tokens[p1].token, Token::LParen)) {
        return None;
    }
    let p2 = skip_newlines(tokens, p1 + 1);
    let (p3, identifier) = match expr_after(tokens, p2) {
        Some(x) => x,
        None => return None,
    };
    let p4 = skip_newlines(tokens, p3);
    if !(p4 < tokens.len() && matches!(tokens[p4].token, Token::In)) {
        return None;
    }
    let p5 = skip_newlines(tokens, p4 + 1);
    let (p6, collection) = match expr_after(tokens, p5) {
        Some(x) => x,
        None => return None,
    };
    let p7 = skip_newlines(tokens, p6);
    if !(p7 < tokens.len() && matches!(tokens[p7].token, Token::RParen)) {
        return None;
    }
    let p8 = skip_newlines(tokens, p7 + 1);
    let (p9, body) = match expr_after(tokens, p8) {
        Some(x) => x,
        None => return None,
    };
    Some(
        (
            p9,
            Expression::ForLoopExpression(
                ForLoop {
                    keyword: &tokens[pos],
                    left_delim: Delimiter::Paren(&tokens[p1]),
                    identifier: Box::new(identifier),
                    in_keyword: &tokens[p4],
                    collection: Box::new(collection),
                    right_delim: Delimiter::Paren(&tokens[p7]),
                    body: Box::new(body),
                },
            ),
        ),
    )
}

/// `while condition body`, newlines allowed after the keyword and the condition.
#[verifier::spinoff_prover]
pub fn while_expression<'a>(tokens: &'a [CommentedToken<'a>], pos: usize) -> (r: Option<
    (usize, Expression<'a>),
>)
    requires
        pos <= tokens@.len(),
    ensures
        parsed(r) == grammar::while_expression(tv(tokens), pos as int),
    decreases tokens@.len() - pos, 0nat,
{
    proof {
        reveal_with_fuel(grammar::while_expression, 1);
    }
    if pos >= tokens.len() || !matches!(tokens[pos].token, Token::While) {
        return None;
    }
    let p1 = skip_newlines(tokens, pos + 1);
    let (p2, condition) = match expr_after(tokens, p1) {
        Some(x) => x,
        None => return None,
    };
    let p3 = skip_newlines(tokens, p2);
    let (p4, body) = match expr_after(tokens, p3) {
        Some(x) => x,
        None => return None,
    };
    Some(
        (
            p4,
            Expression::WhileExpression(
                WhileExpression {
                    while_keyword: &tokens[pos],
                    condition: Box::new(condition),
                    body: Box::new(body),
                },
            ),
        ),
    )
}

/// `repeat body`, newlines allowed after the keyword.
#[verifier::spinoff_prover]
pub fn repeat_expression<'a>(tokens: &'a [CommentedToken<'a>], pos: usize) -> (r: Option<
    (usize, Expression<'a>),
>)
    requires
        pos <= tokens@.len(),
    ensures
        parsed(r) == grammar::repeat_expression(tv(tokens), pos as int),
    decreases tokens@.len() - pos, 0nat,
{
    proof {
        reveal_with_fuel(grammar::repeat_expression, 1);
    }
    if pos >= tokens.len() || !matches!(tokens[pos].token, Token::Repeat) {
        return None;
    }
    let p1 = skip_newlines(tokens, pos + 1);
    let (p2, body) = match expr_after(tokens, p1) {
        Some(x) => x,
        None => return None,
    };
    Some(
        (
            p2,
            Expression::RepeatExpression(
                RepeatExpression { repeat_keyword: &tokens[pos], body: Box::new(body) },
            ),
        ),
    )
}

/// `function ( arguments ) body`, newlines allowed after the keyword and the arguments.
#[verifier::spinoff_prover]
pub fn function_def<'a>(tokens: &'a [CommentedToken<'a>], pos: usize) -> (r: Option<
    (usize, Expression<'a>),
>)
    requires
        pos <= tokens@.len(),
    ensures
        parsed(r) == grammar::function_def(tv(tokens), pos as int),
    decreases tokens@.len() - pos, 0nat,
{
    proof {
        reveal_with_fuel(grammar::function_def, 1);
    }
    if pos >= tokens.len() || !matches!(tokens[pos].token, Token::Function) {
        return None;
    }
    let p1 = skip_newlines(tokens, pos + 1);
    let (p2, args) = match delimited_comma_sep_exprs(tokens, p1, DelimKind::Paren) {
        Some((k, a)) => if p1 < k && k <= tokens.len() {
            (k, a)
        } else {
            return None;
        },
        None => return None,
    };
    let p3 = skip_newlines(tokens, p2);
    let (p4, body) = match expr_after(tokens, p3) {
        Some(x) => x,
        None => return None,
    };
    Some((p4, Expression::FunctionDef(FunctionDefinition::new(&tokens[pos], args, Box::new(body)))))
}

/// `\ ( arguments ) body`, the body being a statement.
#[verifier::spinoff_prover]
pub fn lambda_function<'a>(tokens: &'a [CommentedToken<'a>], pos: usize) -> (r: Option<
    (usize, Expression<'a>),
>)
    requires
        pos <= tokens@.len(),
    ensures
        parsed(r) == grammar::lambda_function(tv(tokens), pos as int),
    decreases tokens@.len() - pos, 0nat,
{
    proof {
        reveal_with_fuel(grammar::lambda_function, 1);
    }
    if pos >= tokens.len() || !matches!(tokens[pos].token, Token::Lambda) {
        return None;
    }
    let p1 = skip_newlines(tokens, pos + 1);
    let (p2, args) = match delimited_comma_sep_exprs(tokens, p1, DelimKind::Paren) {
        Some((k, a)) => if p1 < k && k <= tokens.len() {
            (k, a)
        } else {
            return None;
        },
        None => return None,
    };
    let p3 = skip_newlines(tokens, p2);
    let (p4, body) = match statement_or_expr(tokens, p3) {
        Some((k, b)) => if p3 < k && k <= tokens.len() {
            (k, b)
        } else {
            return None;
        },
        None => return None,
    };
    Some(
        (
            p4,
            Expression::LambdaFunction(Lambda { keyword: &tokens[pos], args, body: Box::new(body) }),
        ),
    )
}

/// `if ( condition ) body`.
#[verifier::spinoff_prover]
fn if_conditional<'a>(tokens: &'a [CommentedToken<'a>], pos: usize) -> (r: Option<
    (usize, IfConditional<'a>),
>)
    requires
        pos <= tokens@.len(),
    ensures
        match r {
            Some((k, c)) => grammar::if_conditional(tv(tokens), pos as int) == Some(
                (k as int, crate::ast::if_conditional_cst(c)),
            ),
            None => grammar::if_conditional(tv(tokens), pos as int) is None,
        },
    decreases tokens@.len() - pos, 0nat,
{
    proof {
        reveal_with_fuel(grammar::if_conditional, 1);
        reveal_with_fuel(crate::ast::if_conditional_cst, 1);
    }
    if pos >= tokens.len() || !matches!(tokens[pos].token, Token::If) || !(pos + 1 < tokens.len()
        && matches!(tokens[pos + 1].token, Token::LParen)) {
        return None;
    }
    let (p1, condition) = match expr(tokens, pos + 2) {
        Some((k, e)) => if pos + 2 < k && k <= tokens.len() {
            (k, e)
        } else {
            return None;
        },
        None => return None,
    };
    if !(p1 < tokens.len() && matches!(tokens[p1].token, Token::RParen)) {
        return None;
    }
    let (p2, body) = match expr(tokens, p1 + 1) {
        Some((k, e)) => if p1 + 1 < k && k <= tokens.len() {
            (k, e)
        } else {
            return None;
        },
        None => return None,
    };
    Some(
        (
            p2,
            IfConditional {
                keyword: &tokens[pos],
                left_delimiter: &tokens[pos + 1],
                condition: Box::new(condition),
                right_delimiter: &tokens[p1],
                body: Box::new(body),
            },
        ),
    )
}

/// The `else if ( condition ) body` that follow, as many as there are.
#[verifier::spinoff_prover]
fn else_ifs<'a>(tokens: &'a [CommentedToken<'a>], pos: usize) -> (r: (usize, Vec<ElseIfConditional<'a>>))
    requires
        pos <= tokens@.len(),
    ensures
        grammar::else_ifs(tv(tokens), pos as int) == (r.0 as int, else_ifs_cst(r.1@)),
        pos <= r.0 <= tokens@.len(),
    decreases tokens@.len() - pos, 0nat,
{
    proof {
        reveal_with_fuel(grammar::else_ifs, 1);
    }
    proof {
        reveal_with_fuel(else_ifs_cst, 1);
        assert(else_ifs_cst(Seq::<ElseIfConditional>::empty()) =~= Seq::<Cst>::empty());
    }
    if pos >= tokens.len() || !matches!(tokens[pos].token, Token::Else) {
        return (pos, Vec::new());
    }
    let (p1, conditional) = match if_conditional(tokens, pos + 1) {
        Some((k, c)) => if pos + 1 < k && k <= tokens.len() {
            (k, c)
        } else {
            return (pos, Vec::new());
        },
        None => return (pos, Vec::new()),
    };
    let (p2, mut rest) = else_ifs(tokens, p1);
    let ghost rest0 = rest@;
    let e = ElseIfConditional { else_keyword: &tokens[pos], if_conditional: conditional };
    proof {
        lemma_else_ifs_cons(e, rest0);
    }
    rest.insert(0, e);
    proof {
        assert(rest@ =~= seq![e] + rest0);
    }
    (p2, rest)
}

/// An `if` conditional, the `else if` ones that follow and an optional trailing `else`.
#[verifier::spinoff_prover]
#[verifier::rlimit(40)]
pub fn if_expression<'a>(tokens: &'a [CommentedToken<'a>], pos: usize) -> (r: Option<
    (usize, Expression<'a>),
>)
    requires
        pos <= tokens@.len(),
    ensures
        parsed(r) == grammar::if_expression(tv(tokens), pos as int),
    decreases tokens@.len() - pos, 1nat,
{
    proof {
        reveal_with_fuel(grammar::if_expression, 1);
    }
    if pos >= tokens.len() {
        return None;
    }
    let (p1, if_conditional) = match if_conditional(tokens, pos) {
        Some((k, c)) => if pos < k && k <= tokens.len() {
            (k, c)
        } else {
            return None;
        },
        None => return None,
    };
    let (p2, else_ifs) = else_ifs(tokens, p1);
    let (p3, trailing_else) = match trailing_else(tokens, p2) {
        Some((k, t)) => if p2 < k && k <= tokens.len() {
            (k, Some(t))
        } else {
            (p2, None)
        },
        None => (p2, None),
    };
    let ghost toks = tv(tokens);
    let ghost cc = crate::ast::if_conditional_cst(if_conditional);
    let ghost ee = else_ifs_cst(else_ifs@);
    let ghost tc = if trailing_else is Some { Cst::Node(NodeKind::TrailingElse, seq![tok(trailing_else->Some_0.else_keyword), cst(*trailing_else->Some_0.body)]) } else { grammar::absent() };
    let e = Expression::IfExpression(IfExpression { if_conditional, else_ifs, trailing_else });
    assert(cst(e)->Node_1 =~= seq![cc, Cst::Node(NodeKind::List, ee), tc]);
    Some((p3, e))
}

/// `else body`.
/// `else body`.
#[verifier::spinoff_prover]
fn trailing_else<'a>(tokens: &'a [CommentedToken<'a>], pos: usize) -> (r: Option<
    (usize, TrailingElse<'a>),
>)
    requires
        pos <= tokens@.len(),
    ensures
        match r {
            Some((k, t)) => grammar::trailing_else(tv(tokens), pos as int) == Some(
                (
                    k as int,
                    Cst::Node(NodeKind::TrailingElse, seq![tok(t.else_keyword), cst(*t.body)]),
                ),
            ),
            None => grammar::trailing_else(tv(tokens), pos as int) is None,
        },
    decreases tokens@.len() - pos, 0nat,
{
    proof {
        reveal_with_fuel(grammar::trailing_else, 1);
    }
    if pos >= tokens.len() || !matches!(tokens[pos].token, Token::Else) {
        return None;
    }
    match expr(tokens, pos + 1) {
        Some((k, body)) => if pos + 1 < k && k <= tokens.len() {
            Some((k, TrailingElse { else_keyword: &tokens[pos], body: Box::new(body) }))
        } else {
            None
        },
        None => None,
    }
}

/// The last argument of a list: no comma follows it.
#[verifier::spinoff_prover]
fn last_arg<'a>(prev: Expression<'a>) -> (r: Vec<Arg<'a>>)
    ensures
        arg_csts(r@) == seq![Cst::Node(NodeKind::Arg, seq![cst(prev), grammar::absent()])],
{
    let a = Arg(prev, None);
    let v = vec![a];
    proof {
        lemma_arg_csts_one(a);
        assert(v@ =~= seq![a]);
    }
    v
}

/// An argument and the comma that follows it, put before the arguments that follow.
#[verifier::spinoff_prover]
fn cons_arg<'a>(prev: Expression<'a>, comma: &'a CommentedToken<'a>, rest: Vec<Arg<'a>>) -> (r: Vec<
    Arg<'a>,
>)
    ensures
        arg_csts(r@) == seq![
            Cst::Node(NodeKind::Arg, seq![cst(prev), Cst::Node(NodeKind::Literal, seq![tok(comma)])]),
        ] + arg_csts(rest@),
{
    let ghost rest0 = rest@;
    let mut rest = rest;
    let a = Arg(prev, Some(Expression::Literal(comma)));
    proof {
        lemma_arg_csts_cons(a, rest0);
    }
    rest.insert(0, a);
    proof {
        assert(rest@ =~= seq![a] + rest0);
    }
    rest
}

/// The arguments from the one already read, `prev`, on: each argument with the
/// comma that follows it, kept as a literal; the last argument has none.
#[verifier::spinoff_prover]
fn args_rest<'a>(tokens: &'a [CommentedToken<'a>], pos: usize, prev: Expression<'a>) -> (r: (
    usize,
    Vec<Arg<'a>>,
))
    requires
        pos <= tokens@.len(),
    ensures
        grammar::args_rest(tv(tokens), pos as int, cst(prev)) == (r.0 as int, arg_csts(r.1@)),
        pos <= r.0 <= tokens@.len(),
    decreases tokens@.len() - pos, 0nat,
{
    proof {
        reveal_with_fuel(grammar::args_rest, 1);
    }
    if pos >= tokens.len() || !matches!(tokens[pos].token, Token::Comma) {
        return (pos, last_arg(prev));
    }
    let p1 = skip_newlines(tokens, pos + 1);
    let (p2, x) = match expr_after(tokens, p1) {
        Some(v) => v,
        None => return (pos, last_arg(prev)),
    };
    let p3 = skip_newlines(tokens, p2);
    let (p4, rest) = args_rest(tokens, p3, x);
    (p4, cons_arg(prev, &tokens[pos], rest))
}

/// The opening delimiter of a list of arguments.
#[verifier::spinoff_prover]
fn open_delim<'a>(tokens: &'a [CommentedToken<'a>], pos: usize, kind: DelimKind) -> (r: Option<
    (usize, Delimiter<'a>),
>)
    requires
        pos <= tokens@.len(),
    ensures
        match r {
            Some((k, d)) => grammar::open_delim(tv(tokens), pos as int, kind) == Some(
                (k as int, crate::ast::delimiter_cst(d)),
            ),
            None => grammar::open_delim(tv(tokens), pos as int, kind) is None,
        },
        r matches Some((k, _)) ==> pos < k <= tokens@.len(),
{
    match kind {
        DelimKind::Paren => if pos < tokens.len() && matches!(tokens[pos].token, Token::LParen) {
            Some((pos + 1, Delimiter::Paren(&tokens[pos])))
        } else {
            None
        },
        DelimKind::DoubleBracket => if pos < tokens.len() && pos + 1 < tokens.len() && matches!(
            tokens[pos].token,
            Token::LSubscript
        ) && matches!(tokens[pos + 1].token, Token::LSubscript) {
            Some((pos + 2, Delimiter::DoubleBracket((&tokens[pos], &tokens[pos + 1]))))
        } else {
            None
        },
        DelimKind::SingleBracket => if pos < tokens.len() && matches!(
            tokens[pos].token,
            Token::LSubscript
        ) {
            Some((pos + 1, Delimiter::SingleBracket(&tokens[pos])))
        } else {
            None
        },
    }
}

/// The closing delimiter of a list of arguments.
#[verifier::spinoff_prover]
fn close_delim<'a>(tokens: &'a [CommentedToken<'a>], pos: usize, kind: DelimKind) -> (r: Option<
    (usize, Delimiter<'a>),
>)
    requires
        pos <= tokens@.len(),
    ensures
        match r {
            Some((k, d)) => grammar::close_delim(tv(tokens), pos as int, kind) == Some(
                (k as int, crate::ast::delimiter_cst(d)),
            ),
            None => grammar::close_delim(tv(tokens), pos as int, kind) is None,
        },
        r matches Some((k, _)) ==> pos < k <= tokens@.len(),
{
    match kind {
        DelimKind::Paren => if pos < tokens.len() && matches!(tokens[pos].token, Token::RParen) {
            Some((pos + 1, Delimiter::Paren(&tokens[pos])))
        } else {
            None
        },
        DelimKind::DoubleBracket => if pos < tokens.len() && pos + 1 < tokens.len() && matches!(
            tokens[pos].token,
            Token::RSubscript
        ) && matches!(tokens[pos + 1].token, Token::RSubscript) {
            Some((pos + 2, Delimiter::DoubleBracket((&tokens[pos], &tokens[pos + 1]))))
        } else {
            None
        },
        DelimKind::SingleBracket => if pos < tokens.len() && matches!(
            tokens[pos].token,
            Token::RSubscript
        ) {
            Some((pos + 1, Delimiter::SingleBracket(&tokens[pos])))
        } else {
            None
        },
    }
}

/// A delimited list of comma separated expressions.
#[verifier::spinoff_prover]
pub fn delimited_comma_sep_exprs<'a>(tokens: &'a [CommentedToken<'a>], pos: usize, kind: DelimKind) -> (r:
    Option<(usize, Args<'a>)>)
    requires
        pos <= tokens@.len(),
    ensures
        parsed_args(r) == grammar::delimited_comma_sep_exprs(tv(tokens), pos as int, kind),
    decreases tokens@.len() - pos, 0nat,
{
    proof {
        reveal_with_fuel(grammar::delimited_comma_sep_exprs, 1);
        reveal_with_fuel(args_cst, 1);
    }
    if pos >= tokens.len() {
        return None;
    }
    let (p1, ldelim) = match open_delim(tokens, pos, kind) {
        Some(x) => x,
        None => return None,
    };
    let p2 = skip_newlines(tokens, p1);
    let (p3, args) = match expr_after(tokens, p2) {
        None => {
            proof {
                reveal_with_fuel(arg_csts, 1);
                assert(arg_csts(Seq::<Arg>::empty()) =~= Seq::<Cst>::empty());
            }
            (p2, Vec::new())
        },
        Some((k, x0)) => args_rest(tokens, k, x0),
    };
    let p4 = skip_newlines(tokens, p3);
    match close_delim(tokens, p4, kind) {
        None => None,
        Some((p5, rdelim)) => Some((p5, Args::new(ldelim, args, rdelim))),
    }
}

/// The calls and subsets that follow a term, applied to it in turn.
#[verifier::spinoff_prover]
#[verifier::rlimit(40)]
pub fn atomic_term<'a>(tokens: &'a [CommentedToken<'a>], pos: usize) -> (r: Option<
    (usize, Expression<'a>),
>)
    requires
        pos <= tokens@.len(),
    ensures
        parsed(r) == grammar::atomic_term(tv(tokens), pos as int),
    decreases tokens@.len() - pos, 3nat,
{
    proof {
        reveal_with_fuel(grammar::atomic_term, 1);
    }
    let ghost toks = tv(tokens);
    let (p0, lhs) = match term_expr(tokens, pos) {
        Some((k, e)) => if pos < k && k <= tokens.len() {
            (k, e)
        } else {
            return None;
        },
        None => return None,
    };
    proof {
        reveal_with_fuel(grammar::tails, 1);
    }
    let ghost goal = grammar::tails(toks, p0 as int, cst(lhs));
    let mut p = p0;
    let mut acc = lhs;
    loop
        invariant
            toks == tv(tokens),
            pos < p <= tokens@.len(),
            goal == grammar::tails(toks, p as int, cst(acc)),
        ensures
            goal == Some((p as int, cst(acc))),
            pos < p <= tokens@.len(),
        decreases tokens@.len() - p,
    {
        proof {
            reveal_with_fuel(grammar::tails, 1);
        }
        match delimited_comma_sep_exprs(tokens, p, DelimKind::Paren) {
            Some((k, args)) => if p < k && k <= tokens.len() {
                acc = Expression::FunctionCall(FunctionCall { function_ref: Box::new(acc), args });
                p = k;
                continue ;
            },
            None => {},
        }
        match delimited_comma_sep_exprs(tokens, p, DelimKind::DoubleBracket) {
            Some((k, args)) => if p < k && k <= tokens.len() {
                acc = Expression::SubsetExpression(SubsetExpression { object_ref: Box::new(acc), args });
                p = k;
                continue ;
            },
            None => {},
        }
        match delimited_comma_sep_exprs(tokens, p, DelimKind::SingleBracket) {
            Some((k, args)) => if p < k && k <= tokens.len() {
                acc = Expression::SubsetExpression(SubsetExpression { object_ref: Box::new(acc), args });
                p = k;
                continue ;
            },
            None => {},
        }
        break ;
    }
    Some((p, acc))
}

/// Whether a token is one of the unary operators.
#[verifier::spinoff_prover]
fn is_unary_op(t: &Token) -> (r: bool)
    ensures
        r == grammar::is_unary_op(t@),
{
    proof {
        reveal(grammar::is_unary_op);
    }
    matches!(t, Token::Minus | Token::Plus | Token::UnaryNot | Token::Tilde | Token::Help)
}

/// A formula (`~` expression), a unary operator applied to a unary term, or an atomic term.
#[verifier::spinoff_prover]
pub fn unary_term<'a>(tokens: &'a [CommentedToken<'a>], pos: usize) -> (r: Option<
    (usize, Expression<'a>),
>)
    requires
        pos <= tokens@.len(),
    ensures
        parsed(r) == grammar::unary_term(tv(tokens), pos as int),
    decreases tokens@.len() - pos, 4nat,
{
    proof {
        reveal_with_fuel(grammar::unary_term, 1);
    }
    if pos >= tokens.len() {
        return None;
    }
    if matches!(tokens[pos].token, Token::Tilde) {
        match expr(tokens, pos + 1) {
            Some((k, e)) => if pos + 1 < k && k <= tokens.len() {
                return Some((k, Expression::Formula(&tokens[pos], Box::new(e))));
            },
            None => {},
        }
    }
    if is_unary_op(&tokens[pos].token) {
        match unary_term(tokens, pos + 1) {
            Some((k, e)) => if pos + 1 < k && k <= tokens.len() {
                return Some((k, Expression::Unary(&tokens[pos], Box::new(e))));
            },
            None => {},
        }
    }
    atomic_term(tokens, pos)
}

/// How a binary operator associates.
#[derive(Debug, Clone, Copy, PartialEq, Eq, Structural)]
pub enum Associativity {
    Left,
    Right,
    Non,
}

#[verifier::spinoff_prover]
pub fn associativity(t: &Token) -> (r: Associativity)
    ensures
        (r == Associativity::Right) == grammar::is_right_assoc(t@),
        (r == Associativity::Left) == grammar::is_left_assoc(t@),
{
    proof {
        reveal(grammar::is_right_assoc);
        reveal(grammar::is_left_assoc);
    }
    match t {
        Token::Help | Token::RAssign | Token::Tilde | Token::Or | Token::VectorizedOr | Token::And
        | Token::VectorizedAnd | Token::NotEqual | Token::Plus | Token::Minus | Token::Multiply
        | Token::Divide | Token::Colon | Token::Dollar | Token::Slot | Token::NsGet
        | Token::NsGetInt | Token::Modulo => Associativity::Left,
        Token::LAssign | Token::OldAssign | Token::Power => Associativity::Right,
        _ => Associativity::Non,
    }
}

/// The precedence of a binary operator.
#[verifier::spinoff_prover]
pub fn precedence(t: &Token) -> (r: u8)
    requires
        grammar::is_binop(t@),
    ensures
        r as int == grammar::prec(t@),
        1 <= r <= 20,
{
    proof {
        reveal(grammar::prec);
        reveal(grammar::is_binop);
    }
    match t {
        Token::Help => 1,
        Token::LAssign => 5,
        Token::OldAssign => 6,
        Token::RAssign => 7,
        Token::Pipe | Token::Tilde => 8,
        Token::Or | Token::VectorizedOr => 9,
        Token::And | Token::VectorizedAnd => 10,
        Token::GreaterThan | Token::GreaterEqual | Token::LowerThan | Token::LowerEqual
        | Token::Equal | Token::NotEqual => 12,
        Token::Plus | Token::Minus => 13,
        Token::Multiply | Token::Divide => 14,
        Token::Special(_) | Token::Modulo => 15,
        Token::Colon => 16,
        Token::Power => 18,
        Token::Dollar | Token::Slot => 19,
        _ => 20,
    }
}

#[verifier::spinoff_prover]
pub fn is_binary_operator(t: &Token) -> (r: bool)
    ensures
        r == grammar::is_binop(t@),
{
    proof {
        reveal(grammar::is_binop);
    }
    matches!(
        t,
        Token::Help | Token::RAssign | Token::Tilde | Token::Or | Token::VectorizedOr | Token::And
            | Token::VectorizedAnd | Token::NotEqual | Token::GreaterThan | Token::GreaterEqual
            | Token::LowerThan | Token::LowerEqual | Token::Equal | Token::Plus | Token::Modulo
            | Token::Minus | Token::Multiply | Token::Divide | Token::Colon | Token::Dollar
            | Token::Slot | Token::NsGet | Token::NsGetInt | Token::LAssign | Token::OldAssign
            | Token::Power | Token::Pipe | Token::Special(_)
    )
}

/// Binary operators of precedence at least `min_prec` applied in turn to `lhs`:
/// precedence climbing.
#[verifier::spinoff_prover]
fn climb<'a>(tokens: &'a [CommentedToken<'a>], pos: usize, lhs: Expression<'a>, min_prec: u8) -> (r:
    Option<(usize, Expression<'a>)>)
    requires
        pos <= tokens@.len(),
    ensures
        parsed(r) == grammar::climb(tv(tokens), pos as int, cst(lhs), min_prec as int),
    decreases tokens@.len() - pos, 0nat,
{
    proof {
        reveal_with_fuel(grammar::climb, 1);
    }
    let ghost toks = tv(tokens);
    let ghost goal = grammar::climb(toks, pos as int, cst(lhs), min_prec as int);
    let mut p = pos;
    let mut acc = lhs;
    loop
        invariant
            toks == tv(tokens),
            pos <= p <= tokens@.len(),
            goal == grammar::climb(toks, pos as int, cst(lhs), min_prec as int),
            goal == grammar::climb(toks, p as int, cst(acc), min_prec as int),
        decreases tokens@.len() - p,
    {
        proof {
            reveal_with_fuel(grammar::climb, 1);
        }
        if p >= tokens.len() {
            return None;
        }
        let op = &tokens[p];
        if !(is_binary_operator(&op.token) && precedence(&op.token) >= min_prec) {
            return Some((p, acc));
        }
        let j = skip_newlines(tokens, p + 1);
        if j >= tokens.len() {
            return None;
        }
        let (k, rhs) = match unary_term(tokens, j) {
            Some((k, e)) => if j < k && k <= tokens.len() {
                (k, e)
            } else {
                return None;
            },
            None => return None,
        };
        let (k2, rhs2) = match climb_rhs(tokens, k, rhs, op) {
            Some((k2, e)) => if k <= k2 && k2 <= tokens.len() {
                (k2, e)
            } else {
                return None;
            },
            None => return None,
        };
        acc = Expression::Bop(op, Box::new(acc), Box::new(rhs2));
        p = k2;
    }
}

/// The right operand of `op`, extended with the operators that bind tighter
/// than `op` (or as tight, when right associative).
#[verifier::spinoff_prover]
fn climb_rhs<'a>(
    tokens: &'a [CommentedToken<'a>],
    pos: usize,
    rhs: Expression<'a>,
    op: &'a CommentedToken<'a>,
) -> (r: Option<(usize, Expression<'a>)>)
    requires
        pos <= tokens@.len(),
        grammar::is_binop(op.token@),
    ensures
        parsed(r) == grammar::climb_rhs(tv(tokens), pos as int, cst(rhs), op.token@),
    decreases tokens@.len() - pos, 1nat,
{
    proof {
        reveal_with_fuel(grammar::climb_rhs, 1);
    }
    let ghost toks = tv(tokens);
    let ghost goal = grammar::climb_rhs(toks, pos as int, cst(rhs), op.token@);
    let op_prec = precedence(&op.token);
    let mut p = pos;
    let mut acc = rhs;
    loop
        invariant
            toks == tv(tokens),
            pos <= p <= tokens@.len(),
            goal == grammar::climb_rhs(toks, pos as int, cst(rhs), op.token@),
            grammar::is_binop(op.token@),
            op_prec as int == grammar::prec(op.token@),
            1 <= op_prec <= 20,
            goal == grammar::climb_rhs(toks, p as int, cst(acc), op.token@),
        decreases tokens@.len() - p,
    {
        proof {
            reveal_with_fuel(grammar::climb_rhs, 1);
        }
        if p >= tokens.len() {
            return None;
        }
        let la = &tokens[p].token;
        if is_binary_operator(la) && (precedence(la) > op_prec || (matches!(
            associativity(la),
            Associativity::Right
        ) && op_prec == precedence(la))) {
            let q = op_prec + if precedence(la) > op_prec {
                1
            } else {
                0
            };
            match climb(tokens, p, acc, q) {
                Some((k, r2)) => if p < k && k <= tokens.len() {
                    acc = r2;
                    p = k;
                } else {
                    return None;
                },
                None => return None,
            }
        } else {
            return Some((p, acc));
        }
    }
}

/// An expression: a unary term, and the binary operators that follow it.
#[verifier::spinoff_prover]
pub fn expr<'a>(tokens: &'a [CommentedToken<'a>], pos: usize) -> (r: Option<(usize, Expression<'a>)>)
    requires
        pos <= tokens@.len(),
    ensures
        parsed(r) == grammar::expr(tv(tokens), pos as int),
    decreases tokens@.len() - pos, 5nat,
{
    proof {
        reveal_with_fuel(grammar::expr, 1);
    }
    match unary_term(tokens, pos) {
        Some((k, term)) => if pos < k && k <= tokens.len() {
            if k >= tokens.len() {
                Some((k, term))
            } else {
                climb(tokens, k, term, 0)
            }
        } else {
            None
        },
        None => None,
    }
}

/// An expression with an optional `;` or newline after it, a run of whole-line
/// comments and newlines, or the end of the program.
#[verifier::spinoff_prover]
pub fn statement_or_expr<'a>(tokens: &'a [CommentedToken<'a>], pos: usize) -> (r: Option<
    (usize, Expression<'a>),
>)
    requires
        pos <= tokens@.len(),
    ensures
        parsed(r) == grammar::statement_or_expr(tv(tokens), pos as int),
    decreases tokens@.len() - pos, 7nat,
{
    proof {
        reveal_with_fuel(grammar::statement_or_expr, 1);
    }
    let ghost toks = tv(tokens);
    match expr_after(tokens, pos) {
        Some((k, e)) => {
            if k < tokens.len() && matches!(tokens[k].token, Token::Semicolon | Token::Newline) {
                return Some((k + 1, e));
            } else {
                return Some((k, e));
            }
        },
        None => {},
    }
    if pos >= tokens.len() {
        return None;
    }
    let k = blank_end(tokens, pos);
    if k != pos {
        let blank = vstd::slice::slice_subrange(tokens, pos, k);
        proof {
            assert(blank@.map_values(|t: CommentedToken| Cst::Leaf(t@)) =~= toks.subrange(
                pos as int,
                k as int,
            ).map_values(|t: CommentedTokenV| Cst::Leaf(t)));
        }
        return Some((k, Expression::Whitespace(blank)));
    }
    if matches!(tokens[pos].token, Token::EOF) {
        Some((pos + 1, Expression::EOF(&tokens[pos])))
    } else {
        None
    }
}

/// Statements, as many as there are.
#[verifier::spinoff_prover]
fn statements<'a>(tokens: &'a [CommentedToken<'a>], pos: usize) -> (r: (usize, Vec<Expression<'a>>))
    requires
        pos <= tokens@.len(),
    ensures
        grammar::statements(tv(tokens), pos as int) == (r.0 as int, csts(r.1@)),
        pos <= r.0 <= tokens@.len(),
    decreases tokens@.len() - pos, 8nat,
{
    proof {
        reveal_with_fuel(grammar::statements, 1);
    }
    proof {
        reveal_with_fuel(csts, 1);
        assert(csts(Seq::<Expression>::empty()) =~= Seq::<Cst>::empty());
    }
    match statement_or_expr(tokens, pos) {
        Some((k, s)) => if pos < k && k <= tokens.len() {
            let (k2, mut rest) = statements(tokens, k);
            let ghost rest0 = rest@;
            proof {
                lemma_csts_cons(s, rest0);
            }
            rest.insert(0, s);
            proof {
                assert(rest@ =~= seq![s] + rest0);
            }
            (k2, rest)
        } else {
            (pos, Vec::new())
        },
        None => (pos, Vec::new()),
    }
}

pub proof fn lemma_csts_push(s: Seq<Expression>, e: Expression)
    ensures
        csts(s.push(e)) == csts(s) + seq![cst(e)],
    decreases s.len(),
{
    if s.len() == 0 {
        assert(s.push(e) =~= seq![e]);
        lemma_csts_one(e);
        assert(csts(s) =~= Seq::<Cst>::empty());
        assert(csts(s) + seq![cst(e)] =~= seq![cst(e)]);
    } else {
        let t = s.subrange(1, s.len() as int);
        lemma_csts_push(t, e);
        assert(s.push(e).subrange(1, s.push(e).len() as int) =~= t.push(e));
        assert(csts(s) =~= seq![cst(s[0])] + csts(t));
        assert(csts(s.push(e)) =~= seq![cst(s[0])] + csts(t.push(e)));
    }
}

/// Where reading the statements of a program from `pos` stops: the first
/// statement that cannot be read, or the end of the tokens.
pub open spec fn stuck_at(toks: Seq<CommentedTokenV>, pos: int) -> int
    decreases toks.len() - pos,
{
    if pos < 0 || pos >= toks.len() || toks[pos].token is EOF {
        pos
    } else {
        match grammar::after(toks, grammar::statement_or_expr(toks, pos), pos + 1) {
            None => pos,
            Some((k, _)) => stuck_at(toks, k),
        }
    }
}

/// The message of a parse that stops at `at`: the tokens from there on.
pub open spec fn parse_error_message(toks: Seq<CommentedTokenV>, at: int) -> Seq<char> {
    "Could not parse: "@ + spaced(debug_texts_from(toks, at))
}

/// Parses a program: its statements, read one after another until an
/// end-of-file token, which ends the list; what follows that token is not read.
pub fn parse<'a>(tokens: &'a [CommentedToken<'a>]) -> (r: Result<Vec<Expression<'a>>, String>)
    requires
        exists|i: int| 0 <= i < tokens@.len() && (#[trigger] tokens@[i]).token is EOF,
    ensures
        match r {
            Ok(v) => grammar::program_from(tv(tokens), 0) == Some(csts(v@)),
            Err(msg) => grammar::program_from(tv(tokens), 0) is None && msg@ == parse_error_message(
                tv(tokens),
                stuck_at(tv(tokens), 0),
            ),
        },
{
    let ghost toks = tv(tokens);
    let mut expressions: Vec<Expression<'a>> = Vec::new();
    let mut pos: usize = 0;
    proof {
        reveal_with_fuel(csts, 1);
        assert(csts(expressions@) =~= Seq::<Cst>::empty());
        assert(grammar::program_from(toks, 0) == match grammar::program_from(toks, 0) {
            Some(rest) => Some(Seq::<Cst>::empty() + rest),
            None => None,
        }) by {
            match grammar::program_from(toks, 0) {
                Some(rest) => {
                    assert(Seq::<Cst>::empty() + rest =~= rest);
                },
                None => {},
            }
        }
    }
    loop
        invariant
            toks == tv(tokens),
            pos <= tokens@.len(),
            grammar::program_from(toks, 0) == match grammar::program_from(toks, pos as int) {
                Some(rest) => Some(csts(expressions@) + rest),
                None => None,
            },
            stuck_at(toks, 0) == stuck_at(toks, pos as int),
        decreases tokens@.len() - pos,
    {
        if pos >= tokens.len() {
            return Err(parse_failure(tokens, pos));
        }
        if matches!(tokens[pos].token, Token::EOF) {
            let ghost before = expressions@;
            let e = Expression::EOF(&tokens[pos]);
            proof {
                lemma_csts_push(before, e);
            }
            expressions.push(e);
            proof {
                assert(csts(expressions@) =~= csts(before) + seq![cst(e)]);
                assert(csts(before) + seq![cst(e)] =~= csts(before) + seq![
                    grammar::node(NodeKind::EOF, seq![grammar::leaf(toks, pos as int)]),
                ]);
            }
            return Ok(expressions);
        }
        match statement_or_expr(tokens, pos) {
            Some((k, s)) => {
                if pos < k && k <= tokens.len() {
                    let ghost before = expressions@;
                    proof {
                        lemma_csts_push(before, s);
                    }
                    expressions.push(s);
                    proof {
                        match grammar::program_from(toks, k as int) {
                            Some(rest) => {
                                assert(csts(expressions@) + rest =~= csts(before) + (seq![cst(s)]
                                    + rest));
                            },
                            None => {},
                        }
                    }
                    pos = k;
                } else {
                    return Err(parse_failure(tokens, pos));
                }
            },
            None => {
                return Err(parse_failure(tokens, pos));
            },
        }
    }
}

/// The message of a parse that stops at `pos`.
fn parse_failure(tokens: &[CommentedToken], pos: usize) -> (r: String)
    requires
        pos <= tokens@.len(),
    ensures
        r@ == parse_error_message(tv(tokens), pos as int),
{
    let mut msg = String::from_str("Could not parse: ");
    let rest = tokens_text_from(tokens, pos);
    msg.append(rest.as_str());
    proof {
        assert(tokens@.map_values(|t: CommentedToken| t@) =~= tv(tokens));
    }
    msg
}



/// A term as `program` reads it: a symbol or a literal, each as a term of its
/// own, or such a term in parentheses or braces, newlines allowed inside them.
pub open spec fn simple_term(toks: Seq<CommentedTokenV>, pos: int) -> Option<(int, Cst)>
    decreases toks.len() - pos,
{
    if pos < 0 || pos >= toks.len() {
        None
    } else {
        let t = toks[pos].token;
        if t is Symbol || t is Literal {
            let k = if t is Symbol {
                NodeKind::Symbol
            } else {
                NodeKind::Literal
            };
            Some(
                (
                    pos + 1,
                    grammar::node(
                        NodeKind::Term,
                        seq![
                            grammar::absent(),
                            grammar::node(
                                NodeKind::List,
                                seq![grammar::node(k, seq![grammar::leaf(toks, pos)])],
                            ),
                            grammar::absent(),
                        ],
                    ),
                ),
            )
        } else if t is LParen || t is LBrace {
            let p1 = grammar::skip_newlines(toks, pos + 1);
            proof {
                grammar::lemma_skip_newlines(toks, pos + 1);
            }
            match grammar::after(toks, simple_term(toks, p1), p1 + 1) {
                None => None,
                Some((k, c)) => {
                    let p2 = grammar::skip_newlines(toks, k);
                    if p2 < toks.len() && ((t is LParen && toks[p2].token is RParen) || (
                    t is LBrace && toks[p2].token is RBrace)) {
                        Some(
                            (
                                p2 + 1,
                                grammar::node(
                                    NodeKind::Term,
                                    seq![
                                        grammar::leaf(toks, pos),
                                        grammar::node(NodeKind::List, seq![c]),
                                        grammar::leaf(toks, p2),
                                    ],
                                ),
                            ),
                        )
                    } else {
                        None
                    }
                },
            }
        } else {
            None
        }
    }
}

fn read_simple_term<'a>(tokens: &'a [CommentedToken<'a>], pos: usize) -> (r: Option<
    (usize, Expression<'a>),
>)
    requires
        pos <= tokens@.len(),
    ensures
        parsed(r) == simple_term(tv(tokens), pos as int),
        r matches Some((k, _)) ==> k <= tokens@.len(),
    decreases tokens@.len() - pos,
{
    let ghost toks = tv(tokens);
    if pos >= tokens.len() {
        return None;
    }
    let is_symbol = matches!(tokens[pos].token, Token::Symbol(_));
    let is_literal = matches!(tokens[pos].token, Token::Literal(_));
    if is_symbol || is_literal {
        let inner = if is_symbol {
            Expression::Symbol(&tokens[pos])
        } else {
            Expression::Literal(&tokens[pos])
        };
        let ghost ic = cst(inner);
        let mut v: Vec<Expression<'a>> = Vec::new();
        v.push(inner);
        proof {
            assert(v@ =~= seq![inner]);
            lemma_csts_one(inner);
        }
        let e = Expression::Term(Box::new(TermExpr::new(None, v, None)));
        return Some((pos + 1, e));
    }
    let is_paren = matches!(tokens[pos].token, Token::LParen);
    let is_brace = matches!(tokens[pos].token, Token::LBrace);
    if !is_paren && !is_brace {
        return None;
    }
    let p1 = skip_newlines(tokens, pos + 1);
    match read_simple_term(tokens, p1) {
        None => None,
        Some((k, c)) => {
            if !(p1 + 1 <= k && k <= tokens.len()) {
                return None;
            }
            let p2 = skip_newlines(tokens, k);
            let closes = p2 < tokens.len() && ((is_paren && matches!(tokens[p2].token, Token::RParen))
                || (is_brace && matches!(tokens[p2].token, Token::RBrace)));
            if !closes {
                return None;
            }
            let ghost cc = cst(c);
            let mut v: Vec<Expression<'a>> = Vec::new();
            v.push(c);
            proof {
                lemma_csts_one(c);
            }
            assert(v@ =~= seq![c]);
            let e = Expression::Term(Box::new(TermExpr::new(Some(&tokens[pos]), v, Some(&tokens[p2]))));
            Some((p2 + 1, e))
        },
    }
}

/// Reads one term from the start of the tokens: a symbol or a literal, or such
/// a term in parentheses or braces, each read as a term of its own.
pub fn program<'a>(tokens: &'a [CommentedToken<'a>]) -> (r: Result<Expression<'a>, String>)
    ensures
        match r {
            Ok(e) => exists|k: int| simple_term(tv(tokens), 0) == Some((k, cst(e))),
            Err(msg) => simple_term(tv(tokens), 0) is None && msg@ == parse_error_message(tv(tokens), 0),
        },
{
    match read_simple_term(tokens, 0) {
        Some((k, e)) => Ok(e),
        None => Err(parse_failure(tokens, 0)),
    }
}

} // verus!
