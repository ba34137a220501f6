//! The concrete syntax tree that the parser builds: the tokens of the program
//! (comments squeezed into the tokens) stay in it, in order, but the newlines
//! that the parser skips and the semicolons that end statements.
use crate::grammar::{absent, Cst, NodeKind};
use crate::tokens::CommentedToken;
use vstd::prelude::*;

verus! {

#[derive(Debug, PartialEq)]
pub enum Expression<'a> {
    Symbol(&'a CommentedToken<'a>),
    Literal(&'a CommentedToken<'a>),
    Comment(&'a CommentedToken<'a>),
    Term(Box<TermExpr<'a>>),
    Unary(&'a CommentedToken<'a>, Box<Expression<'a>>),
    Bop(&'a CommentedToken<'a>, Box<Expression<'a>>, Box<Expression<'a>>),
    Formula(&'a CommentedToken<'a>, Box<Expression<'a>>),
    Newline(&'a CommentedToken<'a>),
    Whitespace(&'a [CommentedToken<'a>]),
    EOF(&'a CommentedToken<'a>),
    FunctionDef(FunctionDefinition<'a>),
    LambdaFunction(Lambda<'a>),
    IfExpression(IfExpression<'a>),
    WhileExpression(WhileExpression<'a>),
    RepeatExpression(RepeatExpression<'a>),
    FunctionCall(FunctionCall<'a>),
    SubsetExpression(SubsetExpression<'a>),
    ForLoopExpression(ForLoop<'a>),
    Break(&'a CommentedToken<'a>),
    Continue(&'a CommentedToken<'a>),
}

/// A list of expressions, as printed for debugging.
#[derive(Debug, PartialEq)]
pub struct ExpressionsBuffer<'a>(pub &'a [Expression<'a>]);

/// Expressions between optional delimiters: `( x )`, `{ a; b }`, or the whole
/// program, which has none.
#[derive(Debug, PartialEq)]
pub struct TermExpr<'a> {
    pub pre_delimiters: Option<&'a CommentedToken<'a>>,
    pub term: Vec<Expression<'a>>,
    pub post_delimiters: Option<&'a CommentedToken<'a>>,
}

impl<'a> TermExpr<'a> {
    pub fn new(
        pre_delimiters: Option<&'a CommentedToken<'a>>,
        term: Vec<Expression<'a>>,
        post_delimiters: Option<&'a CommentedToken<'a>>,
    ) -> (r: Self)
        ensures
            r.pre_delimiters == pre_delimiters,
            r.term@ == term@,
            r.post_delimiters == post_delimiters,
    {
        TermExpr { pre_delimiters, term, post_delimiters }
    }
}

/// An argument and the comma that follows it, kept as a literal: comments may
/// be squeezed into the comma.
#[derive(Debug, PartialEq)]
pub struct Arg<'a>(pub Expression<'a>, pub Option<Expression<'a>>);

#[derive(Debug, PartialEq)]
pub enum Delimiter<'a> {
    Paren(&'a CommentedToken<'a>),
    SingleBracket(&'a CommentedToken<'a>),
    DoubleBracket((&'a CommentedToken<'a>, &'a CommentedToken<'a>)),
}

#[derive(Debug, PartialEq)]
pub struct Args<'a> {
    pub left_delimeter: Delimiter<'a>,
    pub args: Vec<Arg<'a>>,
    pub right_delimeter: Delimiter<'a>,
}

impl<'a> Args<'a> {
    pub fn new(left_delimeter: Delimiter<'a>, args: Vec<Arg<'a>>, right_delimeter: Delimiter<'a>) -> (r:
        Self)
        ensures
            r.left_delimeter == left_delimeter,
            r.args@ == args@,
            r.right_delimeter == right_delimeter,
    {
        Args { left_delimeter, args, right_delimeter }
    }
}

#[derive(Debug, PartialEq)]
pub struct FunctionDefinition<'a> {
    pub keyword: &'a CommentedToken<'a>,
    pub arguments: Args<'a>,
    pub body: Box<Expression<'a>>,
}

impl<'a> FunctionDefinition<'a> {
    pub fn new(keyword: &'a CommentedToken<'a>, arguments: Args<'a>, body: Box<Expression<'a>>) -> (r:
        Self)
        ensures
            r.keyword == keyword,
            r.arguments == arguments,
            r.body == body,
    {
        FunctionDefinition { keyword, arguments, body }
    }
}

#[derive(Debug, PartialEq)]
pub struct IfConditional<'a> {
    pub keyword: &'a CommentedToken<'a>,
    pub left_delimiter: &'a CommentedToken<'a>,
    pub condition: Box<Expression<'a>>,
    pub right_delimiter: &'a CommentedToken<'a>,
    pub body: Box<Expression<'a>>,
}

#[derive(Debug, PartialEq)]
pub struct ElseIfConditional<'a> {
    pub else_keyword: &'a CommentedToken<'a>,
    pub if_conditional: IfConditional<'a>,
}

#[derive(Debug, PartialEq)]
pub struct TrailingElse<'a> {
    pub else_keyword: &'a CommentedToken<'a>,
    pub body: Box<Expression<'a>>,
}

#[derive(Debug, PartialEq)]
pub struct IfExpression<'a> {
    pub if_conditional: IfConditional<'a>,
    pub else_ifs: Vec<ElseIfConditional<'a>>,
    pub trailing_else: Option<TrailingElse<'a>>,
}

#[derive(Debug, PartialEq)]
pub struct WhileExpression<'a> {
    pub while_keyword: &'a CommentedToken<'a>,
    pub condition: Box<Expression<'a>>,
    pub body: Box<Expression<'a>>,
}

#[derive(Debug, PartialEq)]
pub struct RepeatExpression<'a> {
    pub repeat_keyword: &'a CommentedToken<'a>,
    pub body: Box<Expression<'a>>,
}

#[derive(Debug, PartialEq)]
pub struct FunctionCall<'a> {
    pub function_ref: Box<Expression<'a>>,
    pub args: Args<'a>,
}

#[derive(Debug, PartialEq)]
pub struct SubsetExpression<'a> {
    pub object_ref: Box<Expression<'a>>,
    pub args: Args<'a>,
}

#[derive(Debug, PartialEq)]
pub struct ForLoop<'a> {
    pub keyword: &'a CommentedToken<'a>,
    pub left_delim: Delimiter<'a>,
    pub identifier: Box<Expression<'a>>,
    pub in_keyword: &'a CommentedToken<'a>,
    pub collection: Box<Expression<'a>>,
    pub right_delim: Delimiter<'a>,
    pub body: Box<Expression<'a>>,
}

#[derive(Debug, PartialEq)]
pub struct Lambda<'a> {
    pub keyword: &'a CommentedToken<'a>,
    pub args: Args<'a>,
    pub body: Box<Expression<'a>>,
}

/// A token as a leaf of the tree.
pub open spec fn tok(t: &CommentedToken) -> Cst {
    Cst::Leaf(t@)
}

/// An optional token: a leaf, or an absent part.
pub open spec fn opt_tok(t: Option<&CommentedToken>) -> Cst {
    match t {
        Some(t) => tok(t),
        None => absent(),
    }
}

pub open spec fn delimiter_cst(d: Delimiter) -> Cst {
    match d {
        Delimiter::Paren(t) => Cst::Node(NodeKind::Paren, seq![tok(t)]),
        Delimiter::SingleBracket(t) => Cst::Node(NodeKind::SingleBracket, seq![tok(t)]),
        Delimiter::DoubleBracket((a, b)) => Cst::Node(NodeKind::DoubleBracket, seq![tok(a), tok(b)]),
    }
}

/// The tree of an expression.
pub open spec fn cst(e: Expression) -> Cst
    decreases e,
{
    match e {
        Expression::Symbol(t) => Cst::Node(NodeKind::Symbol, seq![tok(t)]),
        Expression::Literal(t) => Cst::Node(NodeKind::Literal, seq![tok(t)]),
        Expression::Comment(t) => Cst::Node(NodeKind::Comment, seq![tok(t)]),
        Expression::Term(te) => Cst::Node(
            NodeKind::Term,
            seq![
                opt_tok(te.pre_delimiters),
                Cst::Node(NodeKind::List, csts(te.term@)),
                opt_tok(te.post_delimiters),
            ],
        ),
        Expression::Unary(op, x) => Cst::Node(NodeKind::Unary, seq![tok(op), cst(*x)]),
        Expression::Bop(op, l, r) => Cst::Node(NodeKind::Bop, seq![cst(*l), tok(op), cst(*r)]),
        Expression::Formula(t, x) => Cst::Node(NodeKind::Formula, seq![tok(t), cst(*x)]),
        Expression::Newline(t) => Cst::Node(NodeKind::Newline, seq![tok(t)]),
        Expression::Whitespace(ts) => Cst::Node(
            NodeKind::Whitespace,
            ts@.map_values(|t: CommentedToken| Cst::Leaf(t@)),
        ),
        Expression::EOF(t) => Cst::Node(NodeKind::EOF, seq![tok(t)]),
        Expression::FunctionDef(fd) => Cst::Node(
            NodeKind::FunctionDef,
            seq![tok(fd.keyword), args_cst(fd.arguments), cst(*fd.body)],
        ),
        Expression::LambdaFunction(l) => Cst::Node(
            NodeKind::Lambda,
            seq![tok(l.keyword), args_cst(l.args), cst(*l.body)],
        ),
        Expression::IfExpression(ie) => Cst::Node(
            NodeKind::If,
            seq![
                if_conditional_cst(ie.if_conditional),
                Cst::Node(NodeKind::List, else_ifs_cst(ie.else_ifs@)),
                match ie.trailing_else {
                    Some(te) => Cst::Node(NodeKind::TrailingElse, seq![tok(te.else_keyword), cst(*te.body)]),
                    None => absent(),
                },
            ],
        ),
        Expression::WhileExpression(w) => Cst::Node(
            NodeKind::While,
            seq![tok(w.while_keyword), cst(*w.condition), cst(*w.body)],
        ),
        Expression::RepeatExpression(r) => Cst::Node(
            NodeKind::Repeat,
            seq![tok(r.repeat_keyword), cst(*r.body)],
        ),
        Expression::FunctionCall(c) => Cst::Node(
            NodeKind::Call,
            seq![cst(*c.function_ref), args_cst(c.args)],
        ),
        Expression::SubsetExpression(s) => Cst::Node(
            NodeKind::Subset,
            seq![cst(*s.object_ref), args_cst(s.args)],
        ),
        Expression::ForLoopExpression(f) => Cst::Node(
            NodeKind::For,
            seq![
                tok(f.keyword),
                delimiter_cst(f.left_delim),
                cst(*f.identifier),
                tok(f.in_keyword),
                cst(*f.collection),
                delimiter_cst(f.right_delim),
                cst(*f.body),
            ],
        ),
        Expression::Break(t) => Cst::Node(NodeKind::Break, seq![tok(t)]),
        Expression::Continue(t) => Cst::Node(NodeKind::Continue, seq![tok(t)]),
    }
}

/// The trees of a list of expressions.
pub open spec fn csts(s: Seq<Expression>) -> Seq<Cst>
    decreases s,
{
    if s.len() == 0 {
        Seq::empty()
    } else {
        seq![cst(s[0])] + csts(s.subrange(1, s.len() as int))
    }
}

pub open spec fn if_conditional_cst(c: IfConditional) -> Cst
    decreases c,
{
    Cst::Node(
        NodeKind::IfConditional,
        seq![
            tok(c.keyword),
            tok(c.left_delimiter),
            cst(*c.condition),
            tok(c.right_delimiter),
            cst(*c.body),
        ],
    )
}

pub open spec fn else_ifs_cst(s: Seq<ElseIfConditional>) -> Seq<Cst>
    decreases s,
{
    if s.len() == 0 {
        Seq::empty()
    } else {
        seq![
            Cst::Node(
                NodeKind::ElseIf,
                seq![tok(s[0].else_keyword), if_conditional_cst(s[0].if_conditional)],
            ),
        ] + else_ifs_cst(s.subrange(1, s.len() as int))
    }
}

/// The tree of one argument: the expression, and the comma after it or an absent part.
pub open spec fn arg_node(a: Arg) -> Cst {
    Cst::Node(
        NodeKind::Arg,
        seq![
            cst(a.0),
            if a.1 is Some {
                cst(a.1->Some_0)
            } else {
                absent()
            },
        ],
    )
}

/// The trees of a list of arguments: each argument with the comma after it,
/// or an absent part.
pub open spec fn arg_csts(s: Seq<Arg>) -> Seq<Cst>
    decreases s,
{
    if s.len() == 0 {
        Seq::empty()
    } else {
        let comma = if s[0].1 is Some {
            cst(s[0].1->Some_0)
        } else {
            absent()
        };
        seq![Cst::Node(NodeKind::Arg, seq![cst(s[0].0), comma])] + arg_csts(s.subrange(1, s.len() as int))
    }
}

pub open spec fn args_cst(a: Args) -> Cst
    decreases a,
{
    Cst::Node(
        NodeKind::Args,
        seq![
            delimiter_cst(a.left_delimeter),
            Cst::Node(NodeKind::List, arg_csts(a.args@)),
            delimiter_cst(a.right_delimeter),
        ],
    )
}

} // verus!
