//! From the syntax tree to the document that the layout algorithm prints.
//! Groups are numbered by a counter that is threaded through the tree in the
//! order in which the documents are made.
use crate::ast::{Arg, Args, Delimiter, ElseIfConditional, Expression, IfConditional};
use crate::format::{
    flat_text, flat_width, lemma_flat_width_nonneg, lemma_rendered_on_one_line, rendered, soft,
    cons_doc, group_doc, nest_doc, query_inline_position, CommonProperties, Doc, DocAlgebra,
    GroupDocProperties, InlineCommentPosition, ShouldBreak, layout, push_front, lemma_push_front,
    sdoc_string, Mode, Triple, SimpleDoc,
};
use crate::tokens::{CommentedToken, Token};
use std::rc::Rc;
use vstd::prelude::*;
use vstd::string::StrSliceExecFns;

verus! {

/// A text, its length counted in characters.
pub open spec fn text_doc<'a>(s: &'a str) -> Rc<Doc<'a>> {
    Rc::new(Doc::Text(s, s@.len() as usize, CommonProperties(InlineCommentPosition::No, 0)))
}

pub open spec fn break_doc<'a>(s: &'static str) -> Rc<Doc<'a>> {
    Rc::new(Doc::Break(s))
}

pub open spec fn nil_doc<'a>() -> Rc<Doc<'a>> {
    Rc::new(Doc::Nil)
}

/// The number that the next group gets: one more than the last, except at the
/// largest value, where it stays.
pub open spec fn next_ref(r: usize) -> usize {
    if r < usize::MAX {
        (r + 1) as usize
    } else {
        r
    }
}

/// A group of the document, and the counter after it.
pub open spec fn grouped<'a>(d: Rc<Doc<'a>>, sb: ShouldBreak, r: usize) -> (Rc<Doc<'a>>, usize) {
    (group_doc(d, sb, next_ref(r)), next_ref(r))
}

/// How a token is printed.
pub open spec fn token_text<'a>(t: Token<'a>) -> &'a str {
    match t {
        Token::Symbol(s) => s,
        Token::Literal(s) => s,
        Token::Semicolon => ";",
        Token::Newline => "\n",
        Token::LParen => "(",
        Token::RParen => ")",
        Token::LBrace => "{",
        Token::RBrace => "}",
        Token::LSubscript => "[",
        Token::RSubscript => "]",
        Token::Comma => ",",
        Token::Continue => "continue",
        Token::Break => "break",
        Token::If => "if",
        Token::Else => "else",
        Token::While => "while",
        Token::For => "for",
        Token::Repeat => "repeat",
        Token::In => "in",
        Token::Function => "function",
        Token::Lambda => "\\",
        Token::LAssign => "<-",
        Token::RAssign => "->",
        Token::OldAssign => "=",
        Token::Equal => "==",
        Token::NotEqual => "!=",
        Token::LowerThan => "<",
        Token::GreaterThan => ">",
        Token::LowerEqual => "<=",
        Token::GreaterEqual => ">=",
        Token::Power => "^",
        Token::Divide => "/",
        Token::Multiply => "*",
        Token::Minus => "-",
        Token::Plus => "+",
        Token::Help => "?",
        Token::And => "&&",
        Token::VectorizedAnd => "&",
        Token::Or => "||",
        Token::VectorizedOr => "|",
        Token::Dollar => "$",
        Token::Pipe => "|>",
        Token::Modulo => "%%",
        Token::NsGet => "::",
        Token::NsGetInt => ":::",
        Token::Tilde => "~",
        Token::Colon => ":",
        Token::Slot => "@",
        Token::Special(s) => s,
        Token::UnaryNot => "!",
        Token::InlineComment(s) => s,
        Token::Comment(s) => s,
        Token::EOF => "",
    }
}

pub open spec fn token_doc<'a>(t: Token<'a>) -> Rc<Doc<'a>> {
    text_doc(token_text(t))
}

/// A comment as a document: its text, marked as ending a line.
pub open spec fn comment_doc<'a>(c: &'a str) -> Rc<Doc<'a>> {
    Rc::new(Doc::Text(c, c@.len() as usize, CommonProperties(InlineCommentPosition::End, 0)))
}

/// Comments on lines of their own, each followed by a line break.
pub open spec fn leading_docs<'a>(cs: Seq<&'a str>) -> Rc<Doc<'a>>
    decreases cs.len(),
{
    if cs.len() == 0 {
        nil_doc()
    } else {
        cons_doc(leading_docs(cs.drop_last()), cons_doc(comment_doc(cs.last()), break_doc("\n")))
    }
}

/// How a token is printed with its comments: the comments that lead it, each on
/// a line of its own, then the token, then its inline comment, after a space and
/// followed by a line break.
#[verifier::opaque]
pub open spec fn commented_doc<'a>(t: &CommentedToken<'a>) -> Rc<Doc<'a>> {
    let base = token_doc(t.token);
    let with_inline = match t.inline_comment {
        Some(c) => cons_doc(cons_doc(cons_doc(base, text_doc(" ")), comment_doc(c)), break_doc("\n")),
        None => base,
    };
    match t.leading_comments {
        Some(v) => cons_doc(leading_docs(v@), with_inline),
        None => with_inline,
    }
}

pub open spec fn delimiter_doc<'a>(d: Delimiter<'a>) -> Rc<Doc<'a>> {
    match d {
        Delimiter::Paren(t) => commented_doc(t),
        Delimiter::SingleBracket(t) => commented_doc(t),
        Delimiter::DoubleBracket((a, b)) => cons_doc(commented_doc(a), commented_doc(b)),
    }
}

/// The binary operators printed with spaces around them, the right operand
/// going to the next line when the group breaks.
pub open spec fn is_spaced_binop(t: Token) -> bool {
    match t {
        Token::LAssign | Token::RAssign | Token::OldAssign | Token::Equal | Token::NotEqual
        | Token::LowerThan | Token::GreaterThan | Token::LowerEqual | Token::GreaterEqual
        | Token::Power | Token::Divide | Token::Multiply | Token::Minus | Token::Plus | Token::Help
        | Token::And | Token::VectorizedAnd | Token::Or | Token::VectorizedOr | Token::Pipe
        | Token::Modulo | Token::Tilde | Token::Special(_) => true,
        _ => false,
    }
}

/// The binary operators printed with nothing around them.
pub open spec fn is_tight_binop(t: Token) -> bool {
    t is Dollar || t is NsGet || t is NsGetInt || t is Colon || t is Slot
}

/// A tree that the formatter can print: its terms have delimiters on both
/// sides or on neither, and its binary expressions have binary operators.
pub open spec fn formattable(e: Expression) -> bool
    decreases e,
{
    match e {
        Expression::Term(te) => (te.pre_delimiters is Some == te.post_delimiters is Some)
            && all_formattable(te.term@),
        Expression::Unary(_, x) => formattable(*x),
        Expression::Bop(op, l, r) => (is_spaced_binop(op.token) || is_tight_binop(op.token))
            && formattable(*l) && formattable(*r),
        Expression::Formula(_, x) => formattable(*x),
        Expression::FunctionDef(fd) => args_formattable(fd.arguments.args@) && formattable(
            *fd.body,
        ),
        Expression::LambdaFunction(l) => args_formattable(l.args.args@) && formattable(*l.body),
        Expression::IfExpression(ie) => formattable(*ie.if_conditional.condition) && formattable(
            *ie.if_conditional.body,
        ) && else_ifs_formattable(ie.else_ifs@) && (ie.trailing_else is Some ==> formattable(
            *ie.trailing_else->Some_0.body,
        )),
        Expression::WhileExpression(w) => formattable(*w.condition) && formattable(*w.body),
        Expression::RepeatExpression(r) => formattable(*r.body),
        Expression::FunctionCall(c) => formattable(*c.function_ref) && args_formattable(
            c.args.args@,
        ),
        Expression::SubsetExpression(s) => formattable(*s.object_ref) && args_formattable(
            s.args.args@,
        ),
        Expression::ForLoopExpression(f) => formattable(*f.identifier) && formattable(*f.collection)
            && formattable(*f.body),
        _ => true,
    }
}

pub open spec fn all_formattable(s: Seq<Expression>) -> bool
    decreases s,
{
    s.len() == 0 || (formattable(s[0]) && all_formattable(s.subrange(1, s.len() as int)))
}

pub open spec fn args_formattable(s: Seq<Arg>) -> bool
    decreases s,
{
    s.len() == 0 || (formattable(s[0].0) && (s[0].1 is Some ==> formattable(s[0].1->Some_0))
        && args_formattable(s.subrange(1, s.len() as int)))
}

pub open spec fn else_ifs_formattable(s: Seq<ElseIfConditional>) -> bool
    decreases s,
{
    s.len() == 0 || (formattable(*s[0].if_conditional.condition) && formattable(
        *s[0].if_conditional.body,
    ) && else_ifs_formattable(s.subrange(1, s.len() as int)))
}

/// The documents joined one after the other, each but the first after the
/// separator and a break; nil documents are left out.
pub open spec fn join_rest<'a>(docs: Seq<Rc<Doc<'a>>>, sep: Rc<Doc<'a>>, acc: Rc<Doc<'a>>) -> Rc<
    Doc<'a>,
>
    decreases docs.len(),
{
    if docs.len() == 0 {
        acc
    } else {
        let next = if *docs.last() is Nil {
            join_rest(docs.drop_last(), sep, acc)
        } else {
            cons_doc(
                cons_doc(join_rest(docs.drop_last(), sep, acc), cons_doc(sep, break_doc(" "))),
                docs.last(),
            )
        };
        next
    }
}

/// A group of the documents, joined by the separator and breaks.
pub open spec fn joined<'a>(docs: Seq<Rc<Doc<'a>>>, sep: Rc<Doc<'a>>, sb: ShouldBreak, r: usize) -> (
    Rc<Doc<'a>>,
    usize,
) {
    let start = if docs.len() > 0 && !(*docs[0] is Nil) {
        cons_doc(nil_doc(), docs[0])
    } else {
        nil_doc()
    };
    let body = if docs.len() > 0 {
        join_rest(docs.subrange(1, docs.len() as int), sep, start)
    } else {
        start
    };
    grouped(body, sb, r)
}

/// The document of an expression and the counter after it.
pub open spec fn expr_docs<'a>(e: Expression<'a>, ind: i32, r: usize) -> (Rc<Doc<'a>>, usize)
    decreases e,
{
    match e {
        Expression::Symbol(t) => (commented_doc(t), r),
        Expression::Literal(t) => (commented_doc(t), r),
        Expression::Comment(t) => (commented_doc(t), r),
        Expression::Continue(t) => (commented_doc(t), r),
        Expression::Break(t) => (commented_doc(t), r),
        Expression::Term(te) => {
            let (docs, r1) = exprs_docs(te.term@, ind, r);
            if te.pre_delimiters is Some && te.post_delimiters is Some {
                let pre = commented_doc(te.pre_delimiters->Some_0);
                let post = commented_doc(te.post_delimiters->Some_0);
                let braces = te.pre_delimiters->Some_0.token is LBrace;
                if te.term@.len() == 0 {
                    (cons_doc(pre, post), r)
                } else {
                    let sb = if braces {
                        ShouldBreak::Yes
                    } else {
                        ShouldBreak::No
                    };
                    let line: &'static str = if braces {
                        " "
                    } else {
                        ""
                    };
                    let (inner, r2) = joined(docs, nil_doc(), sb, r1);
                    grouped(
                        cons_doc(
                            cons_doc(
                                nest_doc(cons_doc(cons_doc(pre, break_doc(line)), inner), ind),
                                break_doc(line),
                            ),
                            post,
                        ),
                        sb,
                        r2,
                    )
                }
            } else {
                joined(docs, nil_doc(), ShouldBreak::Yes, r1)
            }
        },
        Expression::Unary(op, x) => {
            let (d, r1) = expr_docs(*x, ind, r);
            (cons_doc(commented_doc(op), d), r1)
        },
        Expression::Bop(op, lhs, rhs) => {
            let (l, r1) = expr_docs(*lhs, ind, r);
            let (rd, r2) = expr_docs(*rhs, ind, r1);
            if is_tight_binop(op.token) {
                grouped(cons_doc(cons_doc(l, commented_doc(op)), rd), ShouldBreak::No, r2)
            } else {
                grouped(
                    cons_doc(
                        cons_doc(cons_doc(l, text_doc(" ")), commented_doc(op)),
                        nest_doc(cons_doc(break_doc(" "), rd), ind),
                    ),
                    ShouldBreak::No,
                    r2,
                )
            }
        },
        Expression::Formula(t, x) => {
            let (d, r1) = expr_docs(*x, ind, r);
            (cons_doc(commented_doc(t), d), r1)
        },
        Expression::Newline(_) => (break_doc("\n"), r),
        Expression::Whitespace(_) => (text_doc(""), r),
        Expression::EOF(t) => (commented_doc(t), r),
        Expression::FunctionDef(fd) => {
            let (items, r1) = def_args_docs(fd.arguments.args@, ind, r);
            let (args_doc, r2) = joined(items, nil_doc(), ShouldBreak::No, r1);
            let (args_group, r3) = grouped(
                cons_doc(
                    cons_doc(
                        nest_doc(
                            cons_doc(
                                cons_doc(delimiter_doc(fd.arguments.left_delimeter), break_doc("")),
                                args_doc,
                            ),
                            (2 * ind) as i32,
                        ),
                        break_doc(""),
                    ),
                    delimiter_doc(fd.arguments.right_delimeter),
                ),
                ShouldBreak::No,
                r2,
            );
            let (body, r4) = expr_docs(*fd.body, ind, r3);
            grouped(
                cons_doc(
                    cons_doc(cons_doc(commented_doc(fd.keyword), args_group), text_doc(" ")),
                    body,
                ),
                ShouldBreak::No,
                r4,
            )
        },
        Expression::IfExpression(ie) => {
            let (first, r1) = if_conditional_docs(ie.if_conditional, ind, r);
            let (docs, r2) = else_ifs_docs(ie.else_ifs@, ind, first, r1);
            if ie.trailing_else is Some {
                let te = ie.trailing_else->Some_0;
                let (body, r3) = expr_docs(*te.body, ind, r2);
                (
                    cons_doc(
                        cons_doc(
                            cons_doc(cons_doc(docs, text_doc(" ")), commented_doc(te.else_keyword)),
                            text_doc(" "),
                        ),
                        body,
                    ),
                    r3,
                )
            } else {
                (docs, r2)
            }
        },
        Expression::WhileExpression(w) => {
            let (cond, r1) = expr_docs(*w.condition, ind, r);
            let (body, r2) = expr_docs(*w.body, ind, r1);
            grouped(
                cons_doc(
                    cons_doc(
                        cons_doc(cons_doc(commented_doc(w.while_keyword), text_doc(" ")), cond),
                        text_doc(" "),
                    ),
                    body,
                ),
                ShouldBreak::No,
                r2,
            )
        },
        Expression::RepeatExpression(rp) => {
            let (body, r1) = expr_docs(*rp.body, ind, r);
            grouped(cons_doc(commented_doc(rp.repeat_keyword), body), ShouldBreak::No, r1)
        },
        Expression::FunctionCall(c) => {
            let (f, r1) = expr_docs(*c.function_ref, ind, r);
            let (a, r2) = args_docs(c.args, ind, r1);
            grouped(cons_doc(f, a), ShouldBreak::No, r2)
        },
        Expression::SubsetExpression(s) => {
            let (o, r1) = expr_docs(*s.object_ref, ind, r);
            let (a, r2) = args_docs(s.args, ind, r1);
            grouped(cons_doc(o, a), ShouldBreak::No, r2)
        },
        Expression::ForLoopExpression(f) => {
            let (ident, r1) = expr_docs(*f.identifier, ind, r);
            let (coll, r2) = expr_docs(*f.collection, ind, r1);
            let head = cons_doc(
                cons_doc(
                    cons_doc(
                        cons_doc(
                            cons_doc(
                                cons_doc(
                                    cons_doc(
                                        cons_doc(commented_doc(f.keyword), text_doc(" ")),
                                        delimiter_doc(f.left_delim),
                                    ),
                                    break_doc(""),
                                ),
                                ident,
                            ),
                            text_doc(" "),
                        ),
                        commented_doc(f.in_keyword),
                    ),
                    break_doc(" "),
                ),
                coll,
            );
            let (head_group, r3) = grouped(
                cons_doc(cons_doc(nest_doc(head, ind), break_doc("")), delimiter_doc(f.right_delim)),
                ShouldBreak::No,
                r2,
            );
            let (body, r4) = expr_docs(*f.body, ind, r3);
            grouped(cons_doc(cons_doc(head_group, text_doc(" ")), body), ShouldBreak::No, r4)
        },
        Expression::LambdaFunction(l) => {
            let (a, r1) = args_docs(l.args, ind, r);
            let (body, r2) = expr_docs(*l.body, ind, r1);
            grouped(
                cons_doc(cons_doc(cons_doc(commented_doc(l.keyword), a), text_doc(" ")), body),
                ShouldBreak::No,
                r2,
            )
        },
    }
}

/// The documents of the expressions, in order.
pub open spec fn exprs_docs<'a>(s: Seq<Expression<'a>>, ind: i32, r: usize) -> (
    Seq<Rc<Doc<'a>>>,
    usize,
)
    decreases s,
{
    if s.len() == 0 {
        (Seq::empty(), r)
    } else {
        let (ds, r1) = exprs_docs(s.subrange(0, s.len() - 1), ind, r);
        let (d, r2) = expr_docs(s[s.len() - 1], ind, r1);
        (ds.push(d), r2)
    }
}

/// The arguments of a function definition: each argument with its comma, or
/// with a nil document.
pub open spec fn def_args_docs<'a>(s: Seq<Arg<'a>>, ind: i32, r: usize) -> (Seq<Rc<Doc<'a>>>, usize)
    decreases s,
{
    if s.len() == 0 {
        (Seq::empty(), r)
    } else {
        let (ds, r1) = def_args_docs(s.subrange(0, s.len() - 1), ind, r);
        let a = s[s.len() - 1];
        let (d0, r2) = expr_docs(a.0, ind, r1);
        let (d1, r3) = if a.1 is Some {
            expr_docs(a.1->Some_0, ind, r2)
        } else {
            (nil_doc(), r2)
        };
        (ds.push(cons_doc(d0, d1)), r3)
    }
}

/// The arguments of a call, after `start`: each argument with its comma, the
/// arguments after the first after a break.
pub open spec fn args_body<'a>(s: Seq<Arg<'a>>, ind: i32, start: Rc<Doc<'a>>, r: usize) -> (
    Rc<Doc<'a>>,
    usize,
)
    decreases s,
{
    if s.len() == 0 {
        (start, r)
    } else {
        let (acc, r1) = args_body(s.subrange(0, s.len() - 1), ind, start, r);
        let sep_acc = if s.len() == 1 {
            acc
        } else {
            cons_doc(acc, break_doc(" "))
        };
        let a = s[s.len() - 1];
        let (d0, r2) = expr_docs(a.0, ind, r1);
        let (d, r3) = if a.1 is Some {
            let (d1, r3) = expr_docs(a.1->Some_0, ind, r2);
            (cons_doc(d0, d1), r3)
        } else {
            (d0, r2)
        };
        (cons_doc(sep_acc, d), r3)
    }
}

pub open spec fn args_docs<'a>(a: Args<'a>, ind: i32, r: usize) -> (Rc<Doc<'a>>, usize)
    decreases a,
{
    let (body, r1) = args_body(
        a.args@,
        ind,
        cons_doc(delimiter_doc(a.left_delimeter), break_doc("")),
        r,
    );
    grouped(
        cons_doc(cons_doc(nest_doc(body, ind), break_doc("")), delimiter_doc(a.right_delimeter)),
        ShouldBreak::No,
        r1,
    )
}

pub open spec fn if_conditional_docs<'a>(c: IfConditional<'a>, ind: i32, r: usize) -> (
    Rc<Doc<'a>>,
    usize,
)
    decreases c,
{
    let (cond, r1) = expr_docs(*c.condition, ind, r);
    let (cond_group, r2) = grouped(
        cons_doc(
            cons_doc(
                nest_doc(cons_doc(cons_doc(commented_doc(c.left_delimiter), break_doc("")), cond), ind),
                break_doc(""),
            ),
            commented_doc(c.right_delimiter),
        ),
        ShouldBreak::No,
        r1,
    );
    let (body, r3) = expr_docs(*c.body, ind, r2);
    (
        cons_doc(
            cons_doc(
                cons_doc(cons_doc(commented_doc(c.keyword), text_doc(" ")), cond_group),
                text_doc(" "),
            ),
            body,
        ),
        r3,
    )
}

pub open spec fn else_ifs_docs<'a>(
    s: Seq<ElseIfConditional<'a>>,
    ind: i32,
    start: Rc<Doc<'a>>,
    r: usize,
) -> (Rc<Doc<'a>>, usize)
    decreases s,
{
    if s.len() == 0 {
        (start, r)
    } else {
        let (acc, r1) = else_ifs_docs(s.subrange(0, s.len() - 1), ind, start, r);
        let e = s[s.len() - 1];
        let (c, r2) = if_conditional_docs(e.if_conditional, ind, r1);
        (
            cons_doc(
                cons_doc(cons_doc(cons_doc(acc, text_doc(" ")), commented_doc(e.else_keyword)), text_doc(" ")),
                c,
            ),
            r2,
        )
    }
}

pub open spec fn commented_flat_text(t: &CommentedToken) -> Seq<char> {
    flat_text(*commented_doc(t))
}

/// On one line, a binary expression prints its left operand, the operator (with
/// its comments) and its right operand: with nothing between them for `$`, `::`, `:::`, `:` and
/// `@`, and with a space on each side of the operator for the other operators.
#[verifier::spinoff_prover]
pub proof fn lemma_bop_on_one_line<'a>(e: Expression<'a>, ind: i32, r: usize)
    requires
        e is Bop,
    ensures
        ({
            let (op, l, rhs) = (e->Bop_0, *e->Bop_1, *e->Bop_2);
            let (ld, r1) = expr_docs(l, ind, r);
            let rd = expr_docs(rhs, ind, r1).0;
            let op_text = commented_flat_text(op);
            flat_text(*expr_docs(e, ind, r).0) == if (op.token is Dollar || op.token is NsGet || op.token is NsGetInt || op.token is Colon
                || op.token is Slot) {
                flat_text(*ld) + op_text + flat_text(*rd)
            } else {
                flat_text(*ld) + " "@ + op_text + " "@ + flat_text(*rd)
            }
        }),
{
    let (op, l, rhs) = (e->Bop_0, *e->Bop_1, *e->Bop_2);
    let (ld, r1) = expr_docs(l, ind, r);
    let (rd, r2) = expr_docs(rhs, ind, r1);
    let opd = commented_doc(op);
    let op_text = commented_flat_text(op);
    if is_tight_binop(op.token) {
        let inner = cons_doc(cons_doc(ld, opd), rd);
        assert(expr_docs(e, ind, r).0 == grouped(inner, ShouldBreak::No, r2).0);
        assert(flat_text(*cons_doc(ld, opd)) == flat_text(*ld) + op_text);
        assert(flat_text(*inner) == flat_text(*cons_doc(ld, opd)) + flat_text(*rd));
        assert(flat_text(*grouped(inner, ShouldBreak::No, r2).0) == flat_text(*inner));
        assert(flat_text(*expr_docs(e, ind, r).0) =~= flat_text(*ld) + op_text + flat_text(*rd));
    } else {
        let a1 = cons_doc(ld, text_doc(" "));
        let a2 = cons_doc(a1, opd);
        let b1 = cons_doc(break_doc(" "), rd);
        let b2 = nest_doc(b1, ind);
        let inner = cons_doc(a2, b2);
        assert(expr_docs(e, ind, r).0 == grouped(inner, ShouldBreak::No, r2).0);
        assert(flat_text(*text_doc(" ")) == " "@);
        assert(flat_text(*break_doc(" ")) == " "@);
        assert(flat_text(*a1) == flat_text(*ld) + " "@);
        assert(flat_text(*a2) == flat_text(*a1) + op_text);
        assert(flat_text(*b1) == " "@ + flat_text(*rd));
        assert(flat_text(*b2) == flat_text(*b1));
        assert(flat_text(*inner) == flat_text(*a2) + flat_text(*b2));
        assert(flat_text(*grouped(inner, ShouldBreak::No, r2).0) == flat_text(*inner));
        assert(flat_text(*expr_docs(e, ind, r).0) =~= flat_text(*ld) + " "@ + op_text + " "@
            + flat_text(*rd));
    }
}

/// Printed from the first column, a binary expression that can be laid out on
/// one line and fits in the line is its left operand printed alone, the
/// operator (with its comments) and its right operand printed alone: with
/// nothing between them for `$`, `::`, `:::`, `:` and `@`, and with a space on
/// each side of the operator for the other operators.
#[verifier::spinoff_prover]
pub proof fn lemma_bop_rendered<'a>(e: Expression<'a>, ind: i32, r: usize, line_length: int)
    requires
        e is Bop,
        soft(*expr_docs(e, ind, r).0),
        flat_width(*expr_docs(e, ind, r).0) <= line_length,
    ensures
        ({
            let (op, l, rhs) = (e->Bop_0, *e->Bop_1, *e->Bop_2);
            let (ld, r1) = expr_docs(l, ind, r);
            let rd = expr_docs(rhs, ind, r1).0;
            let op_text = commented_flat_text(op);
            rendered(expr_docs(e, ind, r).0, line_length) == if (op.token is Dollar || op.token is NsGet || op.token is NsGetInt || op.token is Colon
                || op.token is Slot) {
                rendered(ld, line_length) + op_text + rendered(rd, line_length)
            } else {
                rendered(ld, line_length) + " "@ + op_text + " "@ + rendered(rd, line_length)
            }
        }),
{
    let (op, l, rhs) = (e->Bop_0, *e->Bop_1, *e->Bop_2);
    let (ld, r1) = expr_docs(l, ind, r);
    let (rd, r2) = expr_docs(rhs, ind, r1);
    let opd = commented_doc(op);
    let d = expr_docs(e, ind, r).0;
    lemma_bop_on_one_line(e, ind, r);
    lemma_flat_width_nonneg(ld);
    lemma_flat_width_nonneg(rd);
    lemma_flat_width_nonneg(opd);
    if is_tight_binop(op.token) {
        let inner = cons_doc(cons_doc(ld, opd), rd);
        assert(d == grouped(inner, ShouldBreak::No, r2).0);
        assert(soft(*inner));
        assert(soft(*cons_doc(ld, opd)));
        assert(soft(*ld) && soft(*rd));
        assert(flat_width(*cons_doc(ld, opd)) == flat_width(*ld) + flat_width(*opd));
        assert(flat_width(*inner) == flat_width(*cons_doc(ld, opd)) + flat_width(*rd));
        assert(flat_width(*d) == flat_width(*inner));
    } else {
        let a1 = cons_doc(ld, text_doc(" "));
        let a2 = cons_doc(a1, opd);
        let b1 = cons_doc(break_doc(" "), rd);
        let b2 = nest_doc(b1, ind);
        let inner = cons_doc(a2, b2);
        assert(d == grouped(inner, ShouldBreak::No, r2).0);
        assert(soft(*inner));
        assert(soft(*a2) && soft(*b2));
        assert(soft(*a1) && soft(*b1));
        assert(soft(*ld) && soft(*rd));
        lemma_flat_width_nonneg(text_doc(" "));
        lemma_flat_width_nonneg(break_doc(" "));
        assert(flat_width(*a1) == flat_width(*ld) + flat_width(*text_doc(" ")));
        assert(flat_width(*a2) == flat_width(*a1) + flat_width(*opd));
        assert(flat_width(*b1) == flat_width(*break_doc(" ")) + flat_width(*rd));
        assert(flat_width(*b2) == flat_width(*b1));
        assert(flat_width(*inner) == flat_width(*a2) + flat_width(*b2));
        assert(flat_width(*d) == flat_width(*inner));
    }
    lemma_rendered_on_one_line(d, line_length);
    lemma_rendered_on_one_line(ld, line_length);
    lemma_rendered_on_one_line(rd, line_length);
}

/// The largest indentation the formatter takes: function arguments are nested
/// by twice the indentation, which must stay within `WIDTH_LIMIT`.
pub const MAX_INDENT: i32 = 536870912;

/// A text document.
fn text<'a>(s: &'a str) -> (r: Rc<Doc<'a>>)
    ensures
        r == text_doc(s),
{
    Rc::new(Doc::Text(s, s.unicode_len(), CommonProperties(InlineCommentPosition::No, 0)))
}

/// A break: the text when the group is flat, a new line when it breaks.
fn line<'a>(s: &'static str) -> (r: Rc<Doc<'a>>)
    ensures
        r == break_doc(s),
{
    Rc::new(Doc::Break(s))
}

fn nil<'a>() -> (r: Rc<Doc<'a>>)
    ensures
        r == nil_doc(),
{
    Rc::new(Doc::Nil)
}

/// A group of the document, numbered by the next value of the counter.
fn group<'a>(d: Rc<Doc<'a>>, sb: ShouldBreak, doc_ref: &mut usize) -> (r: Rc<Doc<'a>>)
    ensures
        (r, *final(doc_ref)) == grouped(d, sb, *old(doc_ref)),
{
    if *doc_ref < usize::MAX {
        d.to_group(sb, doc_ref)
    } else {
        let properties = CommonProperties(query_inline_position(&d), *doc_ref);
        Rc::new(Doc::Group(GroupDocProperties(d, sb), properties))
    }
}

impl<'a> Token<'a> {
    /// How the token is printed.
    pub fn text(&self) -> (r: &'a str)
        ensures
            r == token_text(*self),
    {
        match *self {
            Token::Symbol(s) => s,
            Token::Literal(s) => s,
            Token::Semicolon => ";",
            Token::Newline => "\n",
            Token::LParen => "(",
            Token::RParen => ")",
            Token::LBrace => "{",
            Token::RBrace => "}",
            Token::LSubscript => "[",
            Token::RSubscript => "]",
            Token::Comma => ",",
            Token::Continue => "continue",
            Token::Break => "break",
            Token::If => "if",
            Token::Else => "else",
            Token::While => "while",
            Token::For => "for",
            Token::Repeat => "repeat",
            Token::In => "in",
            Token::Function => "function",
            Token::Lambda => "\\",
            Token::LAssign => "<-",
            Token::RAssign => "->",
            Token::OldAssign => "=",
            Token::Equal => "==",
            Token::NotEqual => "!=",
            Token::LowerThan => "<",
            Token::GreaterThan => ">",
            Token::LowerEqual => "<=",
            Token::GreaterEqual => ">=",
            Token::Power => "^",
            Token::Divide => "/",
            Token::Multiply => "*",
            Token::Minus => "-",
            Token::Plus => "+",
            Token::Help => "?",
            Token::And => "&&",
            Token::VectorizedAnd => "&",
            Token::Or => "||",
            Token::VectorizedOr => "|",
            Token::Dollar => "$",
            Token::Pipe => "|>",
            Token::Modulo => "%%",
            Token::NsGet => "::",
            Token::NsGetInt => ":::",
            Token::Tilde => "~",
            Token::Colon => ":",
            Token::Slot => "@",
            Token::Special(s) => s,
            Token::UnaryNot => "!",
            Token::InlineComment(s) => s,
            Token::Comment(s) => s,
            Token::EOF => "",
        }
    }

    pub fn to_docs(&self) -> (r: Rc<Doc<'a>>)
        ensures
            r == token_doc(*self),
    {
        text(self.text())
    }
}

/// A comment as a document.
fn comment<'a>(c: &'a str) -> (r: Rc<Doc<'a>>)
    ensures
        r == comment_doc(c),
{
    Rc::new(Doc::Text(c, c.unicode_len(), CommonProperties(InlineCommentPosition::End, 0)))
}

impl<'a> CommentedToken<'a> {
    /// The document of the token with the comments squeezed into it.
    pub fn to_docs(&self) -> (r: Rc<Doc<'a>>)
        ensures
            r == commented_doc(self),
    {
        proof {
            reveal(commented_doc);
        }
        let base = self.token.to_docs();
        let with_inline = match self.inline_comment {
            Some(c) => base.cons(text(" ")).cons(comment(c)).cons(line("\n")),
            None => base,
        };
        match &self.leading_comments {
            Some(v) => {
                let mut acc = nil();
                let mut i: usize = 0;
                while i < v.len()
                    invariant
                        i <= v@.len(),
                        acc == leading_docs(v@.subrange(0, i as int)),
                    decreases v@.len() - i,
                {
                    let c = v[i];
                    proof {
                        let next = v@.subrange(0, i + 1);
                        assert(next.drop_last() =~= v@.subrange(0, i as int));
                        assert(next.last() == c);
                    }
                    acc = acc.cons(comment(c).cons(line("\n")));
                    i = i + 1;
                }
                proof {
                    assert(v@.subrange(0, v@.len() as int) =~= v@);
                }
                acc.cons(with_inline)
            },
            None => with_inline,
        }
    }
}

impl<'a> Delimiter<'a> {
    pub fn to_docs(&self) -> (r: Rc<Doc<'a>>)
        ensures
            r == delimiter_doc(*self),
    {
        match self {
            Delimiter::Paren(single) => single.to_docs(),
            Delimiter::SingleBracket(single) => single.to_docs(),
            Delimiter::DoubleBracket((b1, b2)) => b1.to_docs().cons(b2.to_docs()),
        }
    }
}

/// A group of the documents, each but the first after the separator and a
/// break; nil documents are left out.
pub fn join_docs<'a>(
    docs: Vec<Rc<Doc<'a>>>,
    separator: Rc<Doc<'a>>,
    should_break: ShouldBreak,
    doc_ref: &mut usize,
) -> (r: Rc<Doc<'a>>)
    ensures
        (r, *final(doc_ref)) == joined(docs@, separator, should_break, *old(doc_ref)),
{
    let mut res = nil();
    let n = docs.len();
    if n > 0 {
        let first = Rc::clone(&docs[0]);
        if !matches!(*first, Doc::Nil) {
            res = res.cons(first);
        }
    }
    let ghost start = res;
    if n > 0 {
        let mut i: usize = 1;
        assert(docs@.subrange(1, 1) =~= Seq::<Rc<Doc<'a>>>::empty());
        while i < n
            invariant
                1 <= i <= n,
                n == docs@.len(),
                res == join_rest(docs@.subrange(1, i as int), separator, start),
            decreases n - i,
        {
            let next = Rc::clone(&docs[i]);
            let ghost prev = docs@.subrange(1, i as int);
            assert(docs@.subrange(1, i + 1).drop_last() =~= prev);
            if !matches!(*next, Doc::Nil) {
                res = res.cons(Rc::clone(&separator).cons(line(" ")));
                res = res.cons(next);
            }
            i = i + 1;
        }
    }
    group(res, should_break, doc_ref)
}

/// The documents of the expressions, in order.
fn exprs_to_docs<'a>(exprs: &Vec<Expression<'a>>, indent: i32, doc_ref: &mut usize) -> (r: Vec<
    Rc<Doc<'a>>,
>)
    requires
        all_formattable(exprs@),
        0 <= indent <= MAX_INDENT,
    ensures
        (r@, *final(doc_ref)) == exprs_docs(exprs@, indent, *old(doc_ref)),
    decreases exprs@, 0nat,
{
    let ghost r0 = *doc_ref;
    let mut out: Vec<Rc<Doc<'a>>> = Vec::new();
    let mut i: usize = 0;
    proof {
        assert(exprs@.subrange(0, 0) =~= Seq::<Expression>::empty());
    }
    while i < exprs.len()
        invariant
            i <= exprs@.len(),
            all_formattable(exprs@),
            0 <= indent <= MAX_INDENT,
            exprs_docs(exprs@.subrange(0, i as int), indent, r0) == (out@, *doc_ref),
        decreases exprs@.len() - i,
    {
        proof {
            lemma_all_formattable(exprs@, i as int);
            assert(exprs@.subrange(0, i + 1).subrange(0, i as int) =~= exprs@.subrange(0, i as int));
        }
        let d = exprs[i].to_docs(indent, doc_ref);
        out.push(d);
        i = i + 1;
    }
    proof {
        assert(exprs@.subrange(0, exprs@.len() as int) =~= exprs@);
    }
    out
}

pub proof fn lemma_all_formattable(s: Seq<Expression>, i: int)
    requires
        all_formattable(s),
        0 <= i < s.len(),
    ensures
        formattable(s[i]),
    decreases s.len(),
{
    if i > 0 {
        lemma_all_formattable(s.subrange(1, s.len() as int), i - 1);
    }
}

pub proof fn lemma_args_formattable(s: Seq<Arg>, i: int)
    requires
        args_formattable(s),
        0 <= i < s.len(),
    ensures
        formattable(s[i].0),
        s[i].1 is Some ==> formattable(s[i].1->Some_0),
    decreases s.len(),
{
    if i > 0 {
        lemma_args_formattable(s.subrange(1, s.len() as int), i - 1);
    }
}

pub proof fn lemma_else_ifs_formattable(s: Seq<ElseIfConditional>, i: int)
    requires
        else_ifs_formattable(s),
        0 <= i < s.len(),
    ensures
        formattable(*s[i].if_conditional.condition),
        formattable(*s[i].if_conditional.body),
    decreases s.len(),
{
    if i > 0 {
        lemma_else_ifs_formattable(s.subrange(1, s.len() as int), i - 1);
    }
}

/// The arguments of a function definition: each with its comma, or with a nil
/// document.
fn def_args_to_docs<'a>(args: &Vec<Arg<'a>>, indent: i32, doc_ref: &mut usize) -> (r: Vec<
    Rc<Doc<'a>>,
>)
    requires
        args_formattable(args@),
        0 <= indent <= MAX_INDENT,
    ensures
        (r@, *final(doc_ref)) == def_args_docs(args@, indent, *old(doc_ref)),
    decreases args@, 0nat,
{
    let ghost r0 = *doc_ref;
    let mut out: Vec<Rc<Doc<'a>>> = Vec::new();
    let mut i: usize = 0;
    proof {
        assert(args@.subrange(0, 0) =~= Seq::<Arg>::empty());
    }
    while i < args.len()
        invariant
            i <= args@.len(),
            args_formattable(args@),
            0 <= indent <= MAX_INDENT,
            def_args_docs(args@.subrange(0, i as int), indent, r0) == (out@, *doc_ref),
        decreases args@.len() - i,
    {
        proof {
            lemma_args_formattable(args@, i as int);
            assert(args@.subrange(0, i + 1).subrange(0, i as int) =~= args@.subrange(0, i as int));
        }
        let arg = &args[i];
        let d0 = arg.0.to_docs(indent, doc_ref);
        let d1 = match &arg.1 {
            Some(sep) => sep.to_docs(indent, doc_ref),
            None => nil(),
        };
        out.push(d0.cons(d1));
        i = i + 1;
    }
    proof {
        assert(args@.subrange(0, args@.len() as int) =~= args@);
    }
    out
}

impl<'a> Arg<'a> {
    /// The argument and the comma after it.
    pub fn to_docs(&self, indent: i32, doc_ref: &mut usize) -> (r: Rc<Doc<'a>>)
        requires
            formattable(self.0),
            self.1 is Some ==> formattable(self.1->Some_0),
            0 <= indent <= MAX_INDENT,
        ensures
            (r, *final(doc_ref)) == ({
                let (d0, r1) = expr_docs(self.0, indent, *old(doc_ref));
                if self.1 is Some {
                    let (d1, r2) = expr_docs(self.1->Some_0, indent, r1);
                    (cons_doc(d0, d1), r2)
                } else {
                    (d0, r1)
                }
            }),
        decreases self, 0nat,
    {
        let d0 = self.0.to_docs(indent, doc_ref);
        match &self.1 {
            Some(comma) => d0.cons(comma.to_docs(indent, doc_ref)),
            None => d0,
        }
    }
}

impl<'a> Args<'a> {
    pub fn to_docs(&self, indent: i32, doc_ref: &mut usize) -> (r: Rc<Doc<'a>>)
        requires
            args_formattable(self.args@),
            0 <= indent <= MAX_INDENT,
        ensures
            (r, *final(doc_ref)) == args_docs(*self, indent, *old(doc_ref)),
        decreases self, 0nat,
    {
        let ghost r0 = *doc_ref;
        let start = self.left_delimeter.to_docs().cons(line(""));
        let ghost start0 = start;
        let mut docs = start;
        let mut i: usize = 0;
        proof {
            assert(self.args@.subrange(0, 0) =~= Seq::<Arg>::empty());
        }
        while i < self.args.len()
            invariant
                i <= self.args@.len(),
                args_formattable(self.args@),
                0 <= indent <= MAX_INDENT,
                args_body(self.args@.subrange(0, i as int), indent, start0, r0) == (docs, *doc_ref),
            decreases self.args@.len() - i,
        {
            proof {
                lemma_args_formattable(self.args@, i as int);
                assert(self.args@.subrange(0, i + 1).subrange(0, i as int) =~= self.args@.subrange(
                    0,
                    i as int,
                ));
            }
            if i > 0 {
                docs = docs.cons(line(" "));
            }
            let d = self.args[i].to_docs(indent, doc_ref);
            docs = docs.cons(d);
            i = i + 1;
        }
        proof {
            assert(self.args@.subrange(0, self.args@.len() as int) =~= self.args@);
        }
        let body = docs.nest(indent).cons(line("")).cons(self.right_delimeter.to_docs());
        group(body, ShouldBreak::No, doc_ref)
    }
}

/// `if (condition) body`.
fn if_conditional_to_docs<'a>(c: &IfConditional<'a>, indent: i32, doc_ref: &mut usize) -> (r: Rc<
    Doc<'a>,
>)
    requires
        formattable(*c.condition),
        formattable(*c.body),
        0 <= indent <= MAX_INDENT,
    ensures
        (r, *final(doc_ref)) == if_conditional_docs(*c, indent, *old(doc_ref)),
    decreases c, 0nat,
{
    let condition = c.condition.to_docs(indent, doc_ref);
    let condition_docs = c.left_delimiter.to_docs().cons(line("")).cons(condition).nest(indent).cons(
        line(""),
    ).cons(c.right_delimiter.to_docs());
    let condition_group = group(condition_docs, ShouldBreak::No, doc_ref);
    let body = c.body.to_docs(indent, doc_ref);
    c.keyword.to_docs().cons(text(" ")).cons(condition_group).cons(text(" ")).cons(body)
}

/// The `else if` parts after `start`.
fn else_ifs_to_docs<'a>(
    else_ifs: &Vec<ElseIfConditional<'a>>,
    start: Rc<Doc<'a>>,
    indent: i32,
    doc_ref: &mut usize,
) -> (r: Rc<Doc<'a>>)
    requires
        else_ifs_formattable(else_ifs@),
        0 <= indent <= MAX_INDENT,
    ensures
        (r, *final(doc_ref)) == else_ifs_docs(else_ifs@, indent, start, *old(doc_ref)),
    decreases else_ifs@, 0nat,
{
    let ghost r1 = *doc_ref;
    let ghost first = start;
    let mut docs = start;
    let mut i: usize = 0;
    proof {
        assert(else_ifs@.subrange(0, 0) =~= Seq::<ElseIfConditional>::empty());
    }
    while i < else_ifs.len()
        invariant
            i <= else_ifs@.len(),
            else_ifs_formattable(else_ifs@),
            0 <= indent <= MAX_INDENT,
            else_ifs_docs(else_ifs@.subrange(0, i as int), indent, first, r1) == (docs, *doc_ref),
        decreases else_ifs@.len() - i,
    {
        proof {
            lemma_else_ifs_formattable(else_ifs@, i as int);
            assert(else_ifs@.subrange(0, i + 1).subrange(0, i as int) =~= else_ifs@.subrange(
                0,
                i as int,
            ));
        }
        let else_if = &else_ifs[i];
        let conditional = if_conditional_to_docs(&else_if.if_conditional, indent, doc_ref);
        docs = docs.cons(text(" ")).cons(else_if.else_keyword.to_docs()).cons(text(" ")).cons(
            conditional,
        );
        i = i + 1;
    }
    proof {
        assert(else_ifs@.subrange(0, else_ifs@.len() as int) =~= else_ifs@);
    }
    docs
}

fn term_to_docs<'a>(e: &Expression<'a>, indent: i32, doc_ref: &mut usize) -> (r: Rc<Doc<'a>>)
    requires
        e is Term,
        formattable(*e),
        0 <= indent <= MAX_INDENT,
    ensures
        (r, *final(doc_ref)) == expr_docs(*e, indent, *old(doc_ref)),
    decreases e, 0nat,
{
    match e {
        Expression::Term(term_expr) => {
        let docs = exprs_to_docs(&term_expr.term, indent, doc_ref);
        match (term_expr.pre_delimiters, term_expr.post_delimiters) {
            (Some(pre_delim), Some(post_delim)) => {
                if term_expr.term.len() == 0 {
                    pre_delim.to_docs().cons(post_delim.to_docs())
                } else {
                    let braces = matches!(pre_delim.token, Token::LBrace);
                    let sb = if braces {
                        ShouldBreak::Yes
                    } else {
                        ShouldBreak::No
                    };
                    let brk: &'static str = if braces {
                        " "
                    } else {
                        ""
                    };
                    let inner = join_docs(docs, nil(), sb, doc_ref);
                    let d = pre_delim.to_docs().cons(line(brk)).cons(inner).nest(
                        indent,
                    ).cons(line(brk)).cons(post_delim.to_docs());
                    group(d, sb, doc_ref)
                }
            },
            _ => join_docs(docs, nil(), ShouldBreak::Yes, doc_ref),
        }
        },
        _ => {
            assert(false);
            nil()
        },
    }
}

fn bop_to_docs<'a>(e: &Expression<'a>, indent: i32, doc_ref: &mut usize) -> (r: Rc<Doc<'a>>)
    requires
        e is Bop,
        formattable(*e),
        0 <= indent <= MAX_INDENT,
    ensures
        (r, *final(doc_ref)) == expr_docs(*e, indent, *old(doc_ref)),
    decreases e, 0nat,
{
    match e {
        Expression::Bop(op, lhs, rhs) => {
        let l = lhs.to_docs(indent, doc_ref);
        let r = rhs.to_docs(indent, doc_ref);
        if matches!(
            op.token,
            Token::Dollar | Token::NsGet | Token::NsGetInt | Token::Colon | Token::Slot
        ) {
            group(l.cons(op.to_docs()).cons(r), ShouldBreak::No, doc_ref)
        } else {
            let d = l.cons(text(" ")).cons(op.to_docs()).cons(line(" ").cons(r).nest(indent));
            group(d, ShouldBreak::No, doc_ref)
        }
        },
        _ => {
            assert(false);
            nil()
        },
    }
}

fn function_def_to_docs<'a>(e: &Expression<'a>, indent: i32, doc_ref: &mut usize) -> (r: Rc<Doc<'a>>)
    requires
        e is FunctionDef,
        formattable(*e),
        0 <= indent <= MAX_INDENT,
    ensures
        (r, *final(doc_ref)) == expr_docs(*e, indent, *old(doc_ref)),
    decreases e, 0nat,
{
    match e {
        Expression::FunctionDef(function_def) => {
        let args = &function_def.arguments;
        let items = def_args_to_docs(&args.args, indent, doc_ref);
        let args_doc = join_docs(items, nil(), ShouldBreak::No, doc_ref);
        let args_docs = args.left_delimeter.to_docs().cons(line("")).cons(args_doc).nest(
            2 * indent,
        ).cons(line("")).cons(args.right_delimeter.to_docs());
        let args_group = group(args_docs, ShouldBreak::No, doc_ref);
        let body = function_def.body.to_docs(indent, doc_ref);
        let d = function_def.keyword.to_docs().cons(args_group).cons(text(" ")).cons(body);
        group(d, ShouldBreak::No, doc_ref)
        },
        _ => {
            assert(false);
            nil()
        },
    }
}

fn if_expression_to_docs<'a>(e: &Expression<'a>, indent: i32, doc_ref: &mut usize) -> (r: Rc<Doc<'a>>)
    requires
        e is IfExpression,
        formattable(*e),
        0 <= indent <= MAX_INDENT,
    ensures
        (r, *final(doc_ref)) == expr_docs(*e, indent, *old(doc_ref)),
    decreases e, 0nat,
{
    match e {
        Expression::IfExpression(if_expression) => {
        let first = if_conditional_to_docs(&if_expression.if_conditional, indent, doc_ref);
        let docs = else_ifs_to_docs(&if_expression.else_ifs, first, indent, doc_ref);
        match &if_expression.trailing_else {
            Some(trailing_else) => {
                let body = trailing_else.body.to_docs(indent, doc_ref);
                docs.cons(text(" ")).cons(trailing_else.else_keyword.to_docs()).cons(
                    text(" "),
                ).cons(body)
            },
            None => docs,
        }
        },
        _ => {
            assert(false);
            nil()
        },
    }
}

fn for_loop_to_docs<'a>(e: &Expression<'a>, indent: i32, doc_ref: &mut usize) -> (r: Rc<Doc<'a>>)
    requires
        e is ForLoopExpression,
        formattable(*e),
        0 <= indent <= MAX_INDENT,
    ensures
        (r, *final(doc_ref)) == expr_docs(*e, indent, *old(doc_ref)),
    decreases e, 0nat,
{
    match e {
        Expression::ForLoopExpression(for_loop) => {
        let identifier = for_loop.identifier.to_docs(indent, doc_ref);
        let collection = for_loop.collection.to_docs(indent, doc_ref);
        let head = for_loop.keyword.to_docs().cons(text(" ")).cons(
            for_loop.left_delim.to_docs(),
        ).cons(line("")).cons(identifier).cons(text(" ")).cons(
            for_loop.in_keyword.to_docs(),
        ).cons(line(" ")).cons(collection);
        let head_group = group(
            head.nest(indent).cons(line("")).cons(for_loop.right_delim.to_docs()),
            ShouldBreak::No,
            doc_ref,
        );
        let body = for_loop.body.to_docs(indent, doc_ref);
        group(head_group.cons(text(" ")).cons(body), ShouldBreak::No, doc_ref)
        },
        _ => {
            assert(false);
            nil()
        },
    }
}

impl<'a> Expression<'a> {
    /// The document of the expression, its groups numbered from the counter on.
    pub fn to_docs(&self, indent: i32, doc_ref: &mut usize) -> (r: Rc<Doc<'a>>)
        requires
            formattable(*self),
            0 <= indent <= MAX_INDENT,
        ensures
            (r, *final(doc_ref)) == expr_docs(*self, indent, *old(doc_ref)),
        decreases self, 1nat,
    {
        match self {
            Expression::Symbol(token) => token.to_docs(),
            Expression::Literal(token) => token.to_docs(),
            Expression::Comment(token) => token.to_docs(),
            Expression::Continue(token) => token.to_docs(),
            Expression::Break(token) => token.to_docs(),
            Expression::Term(_) => term_to_docs(self, indent, doc_ref),
            Expression::Bop(..) => bop_to_docs(self, indent, doc_ref),
            Expression::FunctionDef(_) => function_def_to_docs(self, indent, doc_ref),
            Expression::IfExpression(_) => if_expression_to_docs(self, indent, doc_ref),
            Expression::ForLoopExpression(_) => for_loop_to_docs(self, indent, doc_ref),
            Expression::Unary(op, x) => {
                let d = x.to_docs(indent, doc_ref);
                op.to_docs().cons(d)
            },
            Expression::Formula(tilde, x) => {
                let d = x.to_docs(indent, doc_ref);
                tilde.to_docs().cons(d)
            },
            Expression::Newline(_) => line("\n"),
            Expression::Whitespace(_) => text(""),
            Expression::EOF(eof) => eof.to_docs(),
            Expression::WhileExpression(while_expression) => {
                let condition = while_expression.condition.to_docs(indent, doc_ref);
                let body = while_expression.body.to_docs(indent, doc_ref);
                let d = while_expression.while_keyword.to_docs().cons(text(" ")).cons(
                    condition,
                ).cons(text(" ")).cons(body);
                group(d, ShouldBreak::No, doc_ref)
            },
            Expression::RepeatExpression(repeat_expression) => {
                let body = repeat_expression.body.to_docs(indent, doc_ref);
                group(repeat_expression.repeat_keyword.to_docs().cons(body), ShouldBreak::No, doc_ref)
            },
            Expression::FunctionCall(function_call) => {
                let f = function_call.function_ref.to_docs(indent, doc_ref);
                let a = function_call.args.to_docs(indent, doc_ref);
                group(f.cons(a), ShouldBreak::No, doc_ref)
            },
            Expression::SubsetExpression(subset_expression) => {
                let o = subset_expression.object_ref.to_docs(indent, doc_ref);
                let a = subset_expression.args.to_docs(indent, doc_ref);
                group(o.cons(a), ShouldBreak::No, doc_ref)
            },
            Expression::LambdaFunction(lambda) => {
                let a = lambda.args.to_docs(indent, doc_ref);
                let body = lambda.body.to_docs(indent, doc_ref);
                group(
                    lambda.keyword.to_docs().cons(a).cons(text(" ")).cons(body),
                    ShouldBreak::No,
                    doc_ref,
                )
            },
        }
    }
}

/// How a braced block's document starts to be laid out: the group must break,
/// so the break after the opening brace becomes a line break at the nested
/// indentation.
#[verifier::spinoff_prover]
proof fn lemma_brace_layout<'a>(
    inner: Rc<Doc<'a>>,
    post: Rc<Doc<'a>>,
    ind: i32,
    g: usize,
    consumed: int,
    i: i32,
    m: Mode,
    rest: Seq<Triple<'a>>,
    line_length: int,
    broken: Set<usize>,
)
    requires
        0 <= i,
        0 <= ind,
        i + ind <= i32::MAX,
    ensures
        ({
            let brk = break_doc(" ");
            let body = cons_doc(
                cons_doc(nest_doc(cons_doc(cons_doc(text_doc("{"), brk), inner), ind), brk),
                post,
            );
            let out = sdoc_string(
                layout(
                    consumed,
                    push_front((i, m, group_doc(body, ShouldBreak::Yes, g)), rest),
                    line_length,
                    broken,
                ).0,
            );
            out.len() >= 2 + i + ind && out.subrange(0, 2 + i + ind) == "{"@ + seq!['\n'] + Seq::new(
                (i + ind) as nat,
                |k: int| ' ',
            )
        }),
{
    let pre = text_doc("{");
    let brk = break_doc(" ");
    let x = cons_doc(cons_doc(pre, brk), inner);
    let n = nest_doc(x, ind);
    let a = cons_doc(n, brk);
    let body = cons_doc(a, post);
    let d = group_doc(body, ShouldBreak::Yes, g);
    let q0 = push_front((i, m, d), rest);
    lemma_push_front((i, m, d), rest);
    let s1 = broken.insert(g);
    let q1 = push_front((i, Mode::Break, body), rest);
    lemma_push_front((i, Mode::Break, body), rest);
    assert(layout(consumed, q0, line_length, broken) == layout(consumed, q1, line_length, s1));
    let q2b = push_front((i, Mode::Break, post), rest);
    let q2 = push_front((i, Mode::Break, a), q2b);
    lemma_push_front((i, Mode::Break, post), rest);
    lemma_push_front((i, Mode::Break, a), q2b);
    assert(layout(consumed, q1, line_length, s1) == layout(consumed, q2, line_length, s1));
    let q3b = push_front((i, Mode::Break, brk), q2b);
    let q3 = push_front((i, Mode::Break, n), q3b);
    lemma_push_front((i, Mode::Break, brk), q2b);
    lemma_push_front((i, Mode::Break, n), q3b);
    assert(layout(consumed, q2, line_length, s1) == layout(consumed, q3, line_length, s1));
    let j = (i + ind) as i32;
    let q4 = push_front((j, Mode::Break, x), q3b);
    lemma_push_front((j, Mode::Break, x), q3b);
    assert(layout(consumed, q3, line_length, s1) == layout(consumed, q4, line_length, s1));
    let p = cons_doc(pre, brk);
    let q5b = push_front((j, Mode::Break, inner), q3b);
    let q5 = push_front((j, Mode::Break, p), q5b);
    lemma_push_front((j, Mode::Break, inner), q3b);
    lemma_push_front((j, Mode::Break, p), q5b);
    assert(layout(consumed, q4, line_length, s1) == layout(consumed, q5, line_length, s1));
    let q6b = push_front((j, Mode::Break, brk), q5b);
    let q6 = push_front((j, Mode::Break, pre), q6b);
    lemma_push_front((j, Mode::Break, brk), q5b);
    lemma_push_front((j, Mode::Break, pre), q6b);
    assert(layout(consumed, q5, line_length, s1) == layout(consumed, q6, line_length, s1));
    let len = "{"@.len() as usize as int;
    let (t7, b7) = layout(consumed + len, q6b, line_length, s1);
    assert(layout(consumed, q6, line_length, s1) == (SimpleDoc::Text("{", Box::new(t7)), b7));
    let (t8, b8) = layout(j as int, q5b, line_length, s1);
    assert(layout(consumed + len, q6b, line_length, s1) == (
        SimpleDoc::Line(j as usize, Box::new(t8)),
        b8,
    ));
    reveal_strlit("{");
    let head = "{"@ + seq!['\n'] + Seq::new((i + ind) as nat, |k: int| ' ');
    assert(t7 == SimpleDoc::Line(j as usize, Box::new(t8)));
    assert(sdoc_string(t7) == seq!['\n'] + Seq::new(j as usize as nat, |k: int| ' ') + sdoc_string(t8));
    assert(sdoc_string(SimpleDoc::Text("{", Box::new(t7))) == "{"@ + sdoc_string(t7));
    assert(sdoc_string(layout(consumed, q0, line_length, broken).0) == "{"@ + (seq!['\n']
        + Seq::new(j as usize as nat, |k: int| ' ') + sdoc_string(t8)));
    assert("{"@ + (seq!['\n'] + Seq::new(j as usize as nat, |k: int| ' ') + sdoc_string(t8)) =~= head
        + sdoc_string(t8));
    assert((head + sdoc_string(t8)).subrange(0, 2 + i + ind) =~= head);
}

/// A block in braces that holds statements is laid out on lines of its own:
/// wherever it stands, at indentation `i`, its opening brace is followed by a
/// line break, and its first statement starts on the next line, indented by
/// the configured `ind` more than `i` (`{ b }` prints as `{`, then `b` on a
/// line indented by `ind`).
#[verifier::spinoff_prover]
pub proof fn lemma_braces_indent_their_body<'a>(
    e: Expression<'a>,
    ind: i32,
    r: usize,
    consumed: int,
    i: i32,
    m: Mode,
    rest: Seq<Triple<'a>>,
    line_length: int,
    broken: Set<usize>,
)
    requires
        e is Term,
        e->Term_0.pre_delimiters matches Some(t) && t.token is LBrace && t.leading_comments is None
            && t.inline_comment is None,
        e->Term_0.post_delimiters is Some,
        e->Term_0.term@.len() > 0,
        0 <= i,
        0 <= ind,
        i + ind <= i32::MAX,
    ensures
        ({
            let out = sdoc_string(
                layout(consumed, push_front((i, m, expr_docs(e, ind, r).0), rest), line_length, broken).0,
            );
            out.len() >= 2 + i + ind && out.subrange(0, 2 + i + ind) == "{"@ + seq!['\n'] + Seq::new(
                (i + ind) as nat,
                |k: int| ' ',
            )
        }),
{
    let te = e->Term_0;
    let lb = te.pre_delimiters->Some_0;
    let (docs, r1) = exprs_docs(te.term@, ind, r);
    let post = commented_doc(te.post_delimiters->Some_0);
    let (inner, r2) = joined(docs, nil_doc(), ShouldBreak::Yes, r1);
    let brk = break_doc(" ");
    assert(commented_doc(lb) == text_doc("{")) by {
        reveal(commented_doc);
    }
    let body = cons_doc(
        cons_doc(nest_doc(cons_doc(cons_doc(text_doc("{"), brk), inner), ind), brk),
        post,
    );
    assert(expr_docs(e, ind, r).0 == group_doc(body, ShouldBreak::Yes, next_ref(r2)));
    lemma_brace_layout(inner, post, ind, next_ref(r2), consumed, i, m, rest, line_length, broken);
}

} // verus!
