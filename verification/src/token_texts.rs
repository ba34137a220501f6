//! The texts of the tokens of a tree, and the proof that formatting keeps them:
//! the formatter changes spaces and line breaks and keeps every token, in order.
use crate::ast::{Arg, Args, Delimiter, ElseIfConditional, Expression, IfConditional};
use crate::code::{
    all_formattable, args_body, args_docs, args_formattable, break_doc, def_args_docs,
    delimiter_doc, else_ifs_docs, else_ifs_formattable, expr_docs, exprs_docs, formattable,
    grouped, if_conditional_docs, join_rest, joined, lemma_all_formattable,
    lemma_args_formattable, lemma_else_ifs_formattable, nil_doc, text_doc, token_doc, token_text, commented_doc, comment_doc, leading_docs,
};
use crate::format::{
    all_blank_breaks, blank_breaks, cons_doc, doc_text, docs_text, group_doc,
    lemma_layout_keeps_text, lemma_visible_add, lemma_visible_blank, nest_doc, visible, Doc, Mode,
    Triple,
};
use crate::formatter::{document, formatted};
use crate::ast::{arg_csts, arg_node, args_cst, cst, csts, delimiter_cst, else_ifs_cst, if_conditional_cst, tok};
use crate::grammar::{absent, leaves, leaves_of, Cst, NodeKind};
use crate::parser::{lemma_arg_csts_cons, lemma_csts_cons, lemma_else_ifs_cons};
use crate::tokens::{CommentedToken, CommentedTokenV, TokenV};
use crate::lexer_spec::{lex, lex_from, lex_step, lines_after, opt_seq, prev_after, LexState, Prev, SpecToken};
use crate::tree_tokens::{
    all_clean, clean, held, held_all, kept, lemma_held_1, lemma_held_2, lemma_held_3,
    lemma_held_5, lemma_held_7, lemma_held_cons, lemma_held_nil, lemma_kept_add,
    lemma_kept_empty,
};
use std::rc::Rc;
use vstd::prelude::*;

verus! {

/// The text of a token as it is printed: its leading comments, the token and
/// its inline comment, line breaks left out.
pub open spec fn tok_text(t: &CommentedToken) -> Seq<char> {
    doc_text(*commented_doc(t))
}

pub open spec fn delimiter_text(d: Delimiter) -> Seq<char> {
    match d {
        Delimiter::Paren(t) => tok_text(t),
        Delimiter::SingleBracket(t) => tok_text(t),
        Delimiter::DoubleBracket((a, b)) => tok_text(a) + tok_text(b),
    }
}

/// The texts of the tokens of an expression, in the order of the program. A
/// newline or a whitespace expression holds nothing to print but layout.
pub open spec fn expr_text(e: Expression) -> Seq<char>
    decreases e,
{
    match e {
        Expression::Symbol(t) => tok_text(t),
        Expression::Literal(t) => tok_text(t),
        Expression::Comment(t) => tok_text(t),
        Expression::Continue(t) => tok_text(t),
        Expression::Break(t) => tok_text(t),
        Expression::EOF(t) => tok_text(t),
        Expression::Newline(_) => Seq::empty(),
        Expression::Whitespace(_) => Seq::empty(),
        Expression::Term(te) => {
            let pre = match te.pre_delimiters {
                Some(t) => tok_text(t),
                None => Seq::empty(),
            };
            let post = match te.post_delimiters {
                Some(t) => tok_text(t),
                None => Seq::empty(),
            };
            pre + exprs_text(te.term@) + post
        },
        Expression::Unary(op, x) => tok_text(op) + expr_text(*x),
        Expression::Bop(op, l, r) => expr_text(*l) + tok_text(op) + expr_text(*r),
        Expression::Formula(t, x) => tok_text(t) + expr_text(*x),
        Expression::FunctionDef(fd) => tok_text(fd.keyword) + args_text(fd.arguments) + expr_text(
            *fd.body,
        ),
        Expression::LambdaFunction(l) => tok_text(l.keyword) + args_text(l.args) + expr_text(
            *l.body,
        ),
        Expression::IfExpression(ie) => {
            let tail = match ie.trailing_else {
                Some(te) => tok_text(te.else_keyword) + expr_text(*te.body),
                None => Seq::empty(),
            };
            if_conditional_text(ie.if_conditional) + else_ifs_text(ie.else_ifs@) + tail
        },
        Expression::WhileExpression(w) => tok_text(w.while_keyword) + expr_text(*w.condition)
            + expr_text(*w.body),
        Expression::RepeatExpression(r) => tok_text(r.repeat_keyword) + expr_text(*r.body),
        Expression::FunctionCall(c) => expr_text(*c.function_ref) + args_text(c.args),
        Expression::SubsetExpression(s) => expr_text(*s.object_ref) + args_text(s.args),
        Expression::ForLoopExpression(f) => tok_text(f.keyword) + delimiter_text(f.left_delim)
            + expr_text(*f.identifier) + tok_text(f.in_keyword) + expr_text(*f.collection)
            + delimiter_text(f.right_delim) + expr_text(*f.body),
    }
}

pub open spec fn exprs_text(s: Seq<Expression>) -> Seq<char>
    decreases s,
{
    if s.len() == 0 {
        Seq::empty()
    } else {
        exprs_text(s.subrange(0, s.len() - 1)) + expr_text(s[s.len() - 1])
    }
}

/// The texts of a list of arguments, each followed by its comma where it has one.
pub open spec fn arg_list_text(s: Seq<Arg>) -> Seq<char>
    decreases s,
{
    if s.len() == 0 {
        Seq::empty()
    } else {
        let a = s[s.len() - 1];
        let comma = if a.1 is Some {
            expr_text(a.1->Some_0)
        } else {
            Seq::empty()
        };
        arg_list_text(s.subrange(0, s.len() - 1)) + expr_text(a.0) + comma
    }
}

pub open spec fn args_text(a: Args) -> Seq<char>
    decreases a,
{
    delimiter_text(a.left_delimeter) + arg_list_text(a.args@) + delimiter_text(a.right_delimeter)
}

pub open spec fn if_conditional_text(c: IfConditional) -> Seq<char>
    decreases c,
{
    tok_text(c.keyword) + tok_text(c.left_delimiter) + expr_text(*c.condition) + tok_text(
        c.right_delimiter,
    ) + expr_text(*c.body)
}

pub open spec fn else_ifs_text(s: Seq<ElseIfConditional>) -> Seq<char>
    decreases s,
{
    if s.len() == 0 {
        Seq::empty()
    } else {
        let e = s[s.len() - 1];
        else_ifs_text(s.subrange(0, s.len() - 1)) + tok_text(e.else_keyword) + if_conditional_text(
            e.if_conditional,
        )
    }
}

/// The visible text of a document: its texts, spaces and line breaks left out.
pub open spec fn shown(d: Rc<Doc>) -> Seq<char> {
    visible(doc_text(*d))
}

pub open spec fn shown_all(docs: Seq<Rc<Doc>>) -> Seq<char>
    decreases docs.len(),
{
    if docs.len() == 0 {
        Seq::empty()
    } else {
        shown_all(docs.drop_last()) + shown(docs.last())
    }
}

pub open spec fn text_of(d: Rc<Doc>) -> Seq<char> {
    doc_text(*d)
}

pub open spec fn is_nil(d: Rc<Doc>) -> bool {
    *d is Nil
}

pub open spec fn all_blank(docs: Seq<Rc<Doc>>) -> bool {
    forall|k: int| 0 <= k < docs.len() ==> blank_breaks(*#[trigger] docs[k])
}

proof fn lemma_visible_splits()
    ensures
        forall|a: Seq<char>, b: Seq<char>| #[trigger] visible(a + b) == visible(a) + visible(b),
{
    assert forall|a: Seq<char>, b: Seq<char>| #[trigger] visible(a + b) == visible(a) + visible(
        b,
    ) by {
        lemma_visible_add(a, b);
    }
}

proof fn lemma_breaks_blank()
    ensures
        blank_breaks(*break_doc(" ")),
        blank_breaks(*break_doc("")),
        blank_breaks(*break_doc("\n")),
{
    reveal_strlit(" ");
    reveal_strlit("");
    reveal_strlit("\n");
}

proof fn lemma_leading_blank(cs: Seq<&str>)
    ensures
        blank_breaks(*leading_docs(cs)),
    decreases cs.len(),
{
    lemma_breaks_blank();
    if cs.len() > 0 {
        lemma_leading_blank(cs.drop_last());
        let c = cons_doc(comment_doc(cs.last()), break_doc("\n"));
        lemma_cons(comment_doc(cs.last()), break_doc("\n"));
        lemma_cons(leading_docs(cs.drop_last()), c);
    }
}

/// The breaks of a token's document print only line breaks.
proof fn lemma_commented_blank(t: &CommentedToken)
    ensures
        blank_breaks(*commented_doc(t)),
{
    reveal(commented_doc);
    lemma_breaks_blank();
    let base = token_doc(t.token);
    let with_inline = match t.inline_comment {
        Some(c) => {
            let a = cons_doc(base, text_doc(" "));
            let b = cons_doc(a, comment_doc(c));
            lemma_cons(base, text_doc(" "));
            lemma_cons(a, comment_doc(c));
            lemma_cons(b, break_doc("\n"));
            cons_doc(b, break_doc("\n"))
        },
        None => base,
    };
    match t.leading_comments {
        Some(v) => {
            lemma_leading_blank(v@);
            lemma_cons(leading_docs(v@), with_inline);
        },
        None => {},
    }
}

/// The texts and breaks that the formatter adds of its own: nothing visible.
proof fn lemma_blank_pieces()
    ensures
        forall|t: &CommentedToken| #[trigger] blank_breaks(*commented_doc(t)),
        shown(text_doc(" ")) == Seq::<char>::empty(),
        shown(text_doc("")) == Seq::<char>::empty(),
        shown(nil_doc()) == Seq::<char>::empty(),
        blank_breaks(*break_doc(" ")),
        blank_breaks(*break_doc("")),
        blank_breaks(*break_doc("\n")),
        shown(break_doc(" ")) == Seq::<char>::empty(),
        shown(break_doc("")) == Seq::<char>::empty(),
        shown(break_doc("\n")) == Seq::<char>::empty(),
{
    assert forall|t: &CommentedToken| #[trigger] blank_breaks(*commented_doc(t)) by {
        lemma_commented_blank(t);
    }
    reveal_strlit(" ");
    reveal_strlit("");
    reveal_strlit("\n");
    lemma_visible_blank(" "@);
    lemma_visible_blank(""@);
    lemma_visible_blank(Seq::<char>::empty());
}

proof fn lemma_cons(a: Rc<Doc>, b: Rc<Doc>)
    ensures
        shown(cons_doc(a, b)) == shown(a) + shown(b),
        blank_breaks(*cons_doc(a, b)) == (blank_breaks(*a) && blank_breaks(*b)),
{
    lemma_visible_add(text_of(a), text_of(b));
}

proof fn lemma_wrapped(a: Rc<Doc>, sb: crate::format::ShouldBreak, r: usize, ind: i32)
    ensures
        shown(grouped(a, sb, r).0) == shown(a),
        blank_breaks(*grouped(a, sb, r).0) == blank_breaks(*a),
        shown(nest_doc(a, ind)) == shown(a),
        blank_breaks(*nest_doc(a, ind)) == blank_breaks(*a),
{
}

proof fn lemma_delimiter(d: Delimiter)
    ensures
        shown(delimiter_doc(d)) == visible(delimiter_text(d)),
        blank_breaks(*delimiter_doc(d)),
{
    lemma_blank_pieces();
    lemma_visible_splits();
    match d {
        Delimiter::DoubleBracket((a, b)) => {
            lemma_cons(commented_doc(a), commented_doc(b));
        },
        _ => {},
    }
}

proof fn lemma_shown_all_front(docs: Seq<Rc<Doc>>)
    requires
        docs.len() > 0,
    ensures
        shown_all(docs) == shown(docs[0]) + shown_all(docs.subrange(1, docs.len() as int)),
    decreases docs.len(),
{
    if docs.len() == 1 {
        assert(shown_all(docs.drop_last()) == Seq::<char>::empty());
        assert(shown_all(docs.subrange(1, 1)) == Seq::<char>::empty());
        assert(shown_all(docs) =~= shown(docs[0]));
    } else {
        lemma_shown_all_front(docs.drop_last());
        let tail = docs.subrange(1, docs.len() as int);
        assert(tail.drop_last() =~= docs.drop_last().subrange(1, docs.len() - 1));
        assert(tail.last() == docs.last());
        assert(shown_all(docs) =~= shown(docs[0]) + shown_all(tail));
    }
}

/// Joining documents with nil separators keeps their visible texts, in order.
proof fn lemma_join_rest(docs: Seq<Rc<Doc>>, acc: Rc<Doc>)
    requires
        all_blank(docs),
        blank_breaks(*acc),
    ensures
        shown(join_rest(docs, nil_doc(), acc)) == shown(acc) + shown_all(docs),
        blank_breaks(*join_rest(docs, nil_doc(), acc)),
    decreases docs.len(),
{
    lemma_blank_pieces();
    if docs.len() == 0 {
        assert(shown(acc) + shown_all(docs) =~= shown(acc));
    } else {
        let init = docs.drop_last();
        assert(all_blank(init)) by {
            assert forall|k: int| 0 <= k < init.len() implies blank_breaks(*#[trigger] init[k]) by {
                assert(init[k] == docs[k]);
            }
        }
        assert(blank_breaks(*docs.last()));
        lemma_join_rest(init, acc);
        let j = join_rest(init, nil_doc(), acc);
        if is_nil(docs.last()) {
            assert(shown(docs.last()) =~= Seq::<char>::empty());
            assert(shown(acc) + shown_all(docs) =~= shown(acc) + shown_all(init));
        } else {
            lemma_cons(nil_doc(), break_doc(" "));
            lemma_cons(j, cons_doc(nil_doc(), break_doc(" ")));
            lemma_cons(cons_doc(j, cons_doc(nil_doc(), break_doc(" "))), docs.last());
            assert(shown(acc) + shown_all(docs) =~= shown(acc) + shown_all(init) + shown(
                docs.last(),
            ));
        }
    }
}

proof fn lemma_joined(docs: Seq<Rc<Doc>>, sb: crate::format::ShouldBreak, r: usize)
    requires
        all_blank(docs),
    ensures
        shown(joined(docs, nil_doc(), sb, r).0) == shown_all(docs),
        blank_breaks(*joined(docs, nil_doc(), sb, r).0),
{
    lemma_blank_pieces();
    if docs.len() > 0 {
        let start = if !is_nil(docs[0]) {
            cons_doc(nil_doc(), docs[0])
        } else {
            nil_doc()
        };
        lemma_cons(nil_doc(), docs[0]);
        assert(shown(start) == shown(docs[0])) by {
            if is_nil(docs[0]) {
                assert(shown(docs[0]) =~= Seq::<char>::empty());
            }
        }
        assert(blank_breaks(*docs[0]));
        let rest = docs.subrange(1, docs.len() as int);
        assert(all_blank(rest)) by {
            assert forall|k: int| 0 <= k < rest.len() implies blank_breaks(*#[trigger] rest[k]) by {
                assert(rest[k] == docs[k + 1]);
            }
        }
        lemma_join_rest(rest, start);
        lemma_shown_all_front(docs);
    } else {
        assert(shown_all(docs) =~= Seq::<char>::empty());
    }
    let body = if docs.len() > 0 {
        join_rest(
            docs.subrange(1, docs.len() as int),
            nil_doc(),
            if !is_nil(docs[0]) {
                cons_doc(nil_doc(), docs[0])
            } else {
                nil_doc()
            },
        )
    } else {
        nil_doc()
    };
    lemma_wrapped(body, sb, r, 0);
}


/// How the pieces of a document show: a concatenation shows both parts, a
/// nesting or a group shows what it holds.
proof fn lemma_doc_pieces()
    ensures
        forall|a: Rc<Doc>, b: Rc<Doc>| #[trigger] shown(cons_doc(a, b)) == shown(a) + shown(b),
        forall|a: Rc<Doc>, b: Rc<Doc>| #[trigger]
            blank_breaks(*cons_doc(a, b)) == (blank_breaks(*a) && blank_breaks(*b)),
        forall|a: Rc<Doc>, i: i32| #[trigger] shown(nest_doc(a, i)) == shown(a),
        forall|a: Rc<Doc>, i: i32| #[trigger] blank_breaks(*nest_doc(a, i)) == blank_breaks(*a),
        forall|a: Rc<Doc>, sb: crate::format::ShouldBreak, r: usize| #[trigger]
            shown(group_doc(a, sb, r)) == shown(a),
        forall|a: Rc<Doc>, sb: crate::format::ShouldBreak, r: usize| #[trigger]
            blank_breaks(*group_doc(a, sb, r)) == blank_breaks(*a),
{
    assert forall|a: Rc<Doc>, b: Rc<Doc>| #[trigger] shown(cons_doc(a, b)) == shown(a) + shown(
        b,
    ) by {
        lemma_cons(a, b);
    }
    assert forall|a: Rc<Doc>, b: Rc<Doc>| #[trigger]
        blank_breaks(*cons_doc(a, b)) == (blank_breaks(*a) && blank_breaks(*b)) by {
        lemma_cons(a, b);
    }
}

proof fn lemma_shown_push(ds: Seq<Rc<Doc>>, d: Rc<Doc>)
    ensures
        shown_all(ds.push(d)) == shown_all(ds) + shown(d),
        all_blank(ds) && blank_breaks(*d) ==> all_blank(ds.push(d)),
{
    assert(all_blank(seq![d]) == blank_breaks(*d)) by {
        assert(seq![d][0] == d);
    }
    assert(ds.push(d).drop_last() =~= ds);
    if all_blank(ds) && all_blank(seq![d]) {
        assert forall|k: int| 0 <= k < ds.push(d).len() implies blank_breaks(
            *#[trigger] ds.push(d)[k],
        ) by {
            if k < ds.len() {
                assert(ds.push(d)[k] == ds[k]);
            } else {
                assert(seq![d][0] == d);
            }
        }
    }
}

/// An argument whose expression and comma the formatter can print.
pub open spec fn arg_ok(a: Arg) -> bool {
    formattable(a.0) && (a.1 is Some ==> formattable(a.1->Some_0))
}

pub open spec fn else_if_ok(e: ElseIfConditional) -> bool {
    formattable(*e.if_conditional.condition) && formattable(*e.if_conditional.body)
}

proof fn lemma_exprs(s: Seq<Expression>, ind: i32, r: usize)
    requires
        forall|k: int| 0 <= k < s.len() ==> formattable(#[trigger] s[k]),
    ensures
        shown_all(exprs_docs(s, ind, r).0) == visible(exprs_text(s)),
        all_blank(exprs_docs(s, ind, r).0),
    decreases s,
{
    reveal(keeps);
    lemma_visible_splits();
    if s.len() > 0 {
        let init = s.subrange(0, s.len() - 1);
        assert forall|k: int| 0 <= k < init.len() implies formattable(#[trigger] init[k]) by {
            assert(init[k] == s[k]);
        }
        lemma_exprs(init, ind, r);
        let (ds, r1) = exprs_docs(init, ind, r);
        lemma_expr(s[s.len() - 1], ind, r1);
        lemma_shown_push(ds, expr_docs(s[s.len() - 1], ind, r1).0);
    } else {
        assert(visible(Seq::<char>::empty()) =~= Seq::<char>::empty()) by {
            lemma_visible_blank(Seq::<char>::empty());
        }
    }
}

proof fn lemma_def_args(s: Seq<Arg>, ind: i32, r: usize)
    requires
        forall|k: int| 0 <= k < s.len() ==> arg_ok(#[trigger] s[k]),
    ensures
        shown_all(def_args_docs(s, ind, r).0) == visible(arg_list_text(s)),
        all_blank(def_args_docs(s, ind, r).0),
    decreases s,
{
    reveal(keeps);
    lemma_visible_splits();
    lemma_doc_pieces();
    lemma_blank_pieces();
    if s.len() > 0 {
        let init = s.subrange(0, s.len() - 1);
        assert forall|k: int| 0 <= k < init.len() implies arg_ok(#[trigger] init[k]) by {
            assert(init[k] == s[k]);
        }
        lemma_def_args(init, ind, r);
        let (ds, r1) = def_args_docs(init, ind, r);
        let a = s[s.len() - 1];
        assert(arg_ok(a));
        lemma_expr(a.0, ind, r1);
        let (d0, r2) = expr_docs(a.0, ind, r1);
        if a.1 is Some {
            lemma_expr(a.1->Some_0, ind, r2);
        } else {
            assert(visible(Seq::<char>::empty()) =~= Seq::<char>::empty()) by {
                lemma_visible_blank(Seq::<char>::empty());
            }
        }
        let d1 = if a.1 is Some {
            expr_docs(a.1->Some_0, ind, r2).0
        } else {
            nil_doc()
        };
        lemma_shown_push(ds, cons_doc(d0, d1));
        assert(shown_all(def_args_docs(s, ind, r).0) =~= visible(arg_list_text(s)));
    } else {
        assert(visible(Seq::<char>::empty()) =~= Seq::<char>::empty()) by {
            lemma_visible_blank(Seq::<char>::empty());
        }
    }
}

proof fn lemma_args_body(s: Seq<Arg>, ind: i32, start: Rc<Doc>, r: usize)
    requires
        forall|k: int| 0 <= k < s.len() ==> arg_ok(#[trigger] s[k]),
        blank_breaks(*start),
    ensures
        shown(args_body(s, ind, start, r).0) == shown(start) + visible(arg_list_text(s)),
        blank_breaks(*args_body(s, ind, start, r).0),
    decreases s,
{
    reveal(keeps);
    lemma_visible_splits();
    lemma_doc_pieces();
    lemma_blank_pieces();
    if s.len() > 0 {
        let init = s.subrange(0, s.len() - 1);
        assert forall|k: int| 0 <= k < init.len() implies arg_ok(#[trigger] init[k]) by {
            assert(init[k] == s[k]);
        }
        lemma_args_body(init, ind, start, r);
        let (acc, r1) = args_body(init, ind, start, r);
        let a = s[s.len() - 1];
        assert(arg_ok(a));
        lemma_expr(a.0, ind, r1);
        let (d0, r2) = expr_docs(a.0, ind, r1);
        if a.1 is Some {
            lemma_expr(a.1->Some_0, ind, r2);
        } else {
            assert(visible(Seq::<char>::empty()) =~= Seq::<char>::empty()) by {
                lemma_visible_blank(Seq::<char>::empty());
            }
        }
        assert(shown(args_body(s, ind, start, r).0) =~= shown(start) + visible(arg_list_text(s)));
    } else {
        assert(visible(Seq::<char>::empty()) =~= Seq::<char>::empty()) by {
            lemma_visible_blank(Seq::<char>::empty());
        }
        assert(shown(start) + Seq::<char>::empty() =~= shown(start));
    }
}

proof fn lemma_args(a: Args, ind: i32, r: usize)
    requires
        args_formattable(a.args@),
    ensures
        shown(args_docs(a, ind, r).0) == visible(args_text(a)),
        blank_breaks(*args_docs(a, ind, r).0),
    decreases a,
{
    lemma_visible_splits();
    lemma_doc_pieces();
    lemma_blank_pieces();
    assert forall|k: int| 0 <= k < a.args@.len() implies arg_ok(#[trigger] a.args@[k]) by {
        lemma_args_formattable(a.args@, k);
    }
    lemma_delimiter(a.left_delimeter);
    lemma_delimiter(a.right_delimeter);
    let start = cons_doc(delimiter_doc(a.left_delimeter), break_doc(""));
    lemma_args_body(a.args@, ind, start, r);
    assert(shown(args_docs(a, ind, r).0) =~= visible(args_text(a)));
}

proof fn lemma_if_conditional(c: IfConditional, ind: i32, r: usize)
    requires
        formattable(*c.condition),
        formattable(*c.body),
    ensures
        shown(if_conditional_docs(c, ind, r).0) == visible(if_conditional_text(c)),
        blank_breaks(*if_conditional_docs(c, ind, r).0),
    decreases c,
{
    reveal(keeps);
    lemma_visible_splits();
    lemma_doc_pieces();
    lemma_blank_pieces();
    lemma_expr(*c.condition, ind, r);
    let r1 = expr_docs(*c.condition, ind, r).1;
    let r2 = next_ref_of(r1);
    lemma_expr(*c.body, ind, r2);
    assert(shown(if_conditional_docs(c, ind, r).0) =~= visible(if_conditional_text(c)));
}

proof fn lemma_else_ifs(s: Seq<ElseIfConditional>, ind: i32, start: Rc<Doc>, r: usize)
    requires
        forall|k: int| 0 <= k < s.len() ==> else_if_ok(#[trigger] s[k]),
        blank_breaks(*start),
    ensures
        shown(else_ifs_docs(s, ind, start, r).0) == shown(start) + visible(else_ifs_text(s)),
        blank_breaks(*else_ifs_docs(s, ind, start, r).0),
    decreases s,
{
    lemma_blank_pieces();
    if s.len() > 0 {
        let init = s.subrange(0, s.len() - 1);
        assert forall|k: int| 0 <= k < init.len() implies else_if_ok(#[trigger] init[k]) by {
            assert(init[k] == s[k]);
        }
        lemma_else_ifs(init, ind, start, r);
        let (acc, r1) = else_ifs_docs(init, ind, start, r);
        let e = s[s.len() - 1];
        assert(else_if_ok(e));
        lemma_if_conditional(e.if_conditional, ind, r1);
        let c = if_conditional_docs(e.if_conditional, ind, r1).0;
        let kw = commented_doc(e.else_keyword);
        let d1 = cons_doc(acc, text_doc(" "));
        let d2 = cons_doc(d1, kw);
        let d3 = cons_doc(d2, text_doc(" "));
        let d4 = cons_doc(d3, c);
        lemma_cons(acc, text_doc(" "));
        lemma_cons(d1, kw);
        lemma_cons(d2, text_doc(" "));
        lemma_cons(d3, c);
        assert(else_ifs_docs(s, ind, start, r).0 == d4);
        let t0 = else_ifs_text(init);
        let t1 = tok_text(e.else_keyword);
        let t2 = if_conditional_text(e.if_conditional);
        assert(else_ifs_text(s) == t0 + t1 + t2);
        lemma_visible_add(t0 + t1, t2);
        lemma_visible_add(t0, t1);
        assert(shown(d4) =~= shown(start) + visible(else_ifs_text(s)));
    } else {
        assert(visible(Seq::<char>::empty()) =~= Seq::<char>::empty()) by {
            lemma_visible_blank(Seq::<char>::empty());
        }
        assert(shown(start) + Seq::<char>::empty() =~= shown(start));
    }
}

pub open spec fn next_ref_of(r: usize) -> usize {
    crate::code::next_ref(r)
}

/// The document of the expression shows the texts of its tokens, and its
/// breaks print only spaces and line breaks.
#[verifier::opaque]
pub open spec fn keeps(e: Expression, ind: i32, r: usize) -> bool {
    &&& shown(expr_docs(e, ind, r).0) == visible(expr_text(e))
    &&& blank_breaks(*expr_docs(e, ind, r).0)
}

proof fn case_term(e: Expression, ind: i32, r: usize)
    requires
        e is Term,
        formattable(e),
        shown_all(exprs_docs(e->Term_0.term@, ind, r).0) == visible(exprs_text(e->Term_0.term@)),
        all_blank(exprs_docs(e->Term_0.term@, ind, r).0),
    ensures
        keeps(e, ind, r),
{
    reveal(keeps);
    lemma_visible_splits();
    lemma_doc_pieces();
    lemma_blank_pieces();
    let te = e->Term_0;
    let (docs, r1) = exprs_docs(te.term@, ind, r);
    if te.pre_delimiters is Some && te.post_delimiters is Some {
        let braces = te.pre_delimiters->Some_0.token is LBrace;
        let sb = if braces {
            crate::format::ShouldBreak::Yes
        } else {
            crate::format::ShouldBreak::No
        };
        if te.term@.len() == 0 {
            assert(exprs_text(te.term@) =~= Seq::<char>::empty());
            assert(visible(expr_text(e)) =~= shown(expr_docs(e, ind, r).0));
        } else {
            lemma_joined(docs, sb, r1);
            assert(visible(expr_text(e)) =~= shown(expr_docs(e, ind, r).0));
        }
    } else {
        lemma_joined(docs, crate::format::ShouldBreak::Yes, r1);
        assert(visible(expr_text(e)) =~= shown(expr_docs(e, ind, r).0));
    }
}

proof fn case_leaf(e: Expression, ind: i32, r: usize)
    requires
        e is Symbol || e is Literal || e is Comment || e is Continue || e is Break || e is Newline
            || e is EOF || e is Whitespace,
    ensures
        keeps(e, ind, r),
{
    reveal(keeps);
    lemma_blank_pieces();
    assert(visible(Seq::<char>::empty()) =~= Seq::<char>::empty()) by {
        lemma_visible_blank(Seq::<char>::empty());
    }
}

proof fn case_bop(e: Expression, ind: i32, r: usize)
    requires
        e is Bop,
        keeps(*e->Bop_1, ind, r),
        keeps(*e->Bop_2, ind, expr_docs(*e->Bop_1, ind, r).1),
    ensures
        keeps(e, ind, r),
{
    reveal(keeps);
    lemma_visible_splits();
    lemma_doc_pieces();
    lemma_blank_pieces();
    assert(visible(expr_text(e)) =~= shown(expr_docs(e, ind, r).0));
}

proof fn case_prefixed(e: Expression, ind: i32, r: usize)
    requires
        e is Unary || e is Formula,
        e is Unary ==> keeps(*e->Unary_1, ind, r),
        e is Formula ==> keeps(*e->Formula_1, ind, r),
    ensures
        keeps(e, ind, r),
{
    reveal(keeps);
    lemma_visible_splits();
    lemma_blank_pieces();
    lemma_doc_pieces();
}

proof fn case_function_def(e: Expression, ind: i32, r: usize)
    requires
        e is FunctionDef,
        shown_all(def_args_docs(e->FunctionDef_0.arguments.args@, ind, r).0) == visible(
            arg_list_text(e->FunctionDef_0.arguments.args@),
        ),
        all_blank(def_args_docs(e->FunctionDef_0.arguments.args@, ind, r).0),
        keeps(
            *e->FunctionDef_0.body,
            ind,
            next_ref_of(
                joined(
                    def_args_docs(e->FunctionDef_0.arguments.args@, ind, r).0,
                    nil_doc(),
                    crate::format::ShouldBreak::No,
                    def_args_docs(e->FunctionDef_0.arguments.args@, ind, r).1,
                ).1,
            ),
        ),
    ensures
        keeps(e, ind, r),
{
    reveal(keeps);
    lemma_visible_splits();
    lemma_doc_pieces();
    lemma_blank_pieces();
    let fd = e->FunctionDef_0;
    let (items, r1) = def_args_docs(fd.arguments.args@, ind, r);
    lemma_joined(items, crate::format::ShouldBreak::No, r1);
    lemma_delimiter(fd.arguments.left_delimeter);
    lemma_delimiter(fd.arguments.right_delimeter);
    let (args_doc, r2) = joined(items, nil_doc(), crate::format::ShouldBreak::No, r1);
    let inner = cons_doc(
        cons_doc(
            nest_doc(
                cons_doc(
                    cons_doc(delimiter_doc(fd.arguments.left_delimeter), break_doc("")),
                    args_doc,
                ),
                (2 * ind) as i32,
            ),
            break_doc(""),
        ),
        delimiter_doc(fd.arguments.right_delimeter),
    );
    assert(args_text(fd.arguments) == delimiter_text(fd.arguments.left_delimeter) + arg_list_text(
        fd.arguments.args@,
    ) + delimiter_text(fd.arguments.right_delimeter));
    assert(shown(inner) =~= visible(args_text(fd.arguments)));
    assert(blank_breaks(*inner));
    assert(visible(expr_text(e)) =~= shown(expr_docs(e, ind, r).0));
}

proof fn case_lambda(e: Expression, ind: i32, r: usize)
    requires
        e is LambdaFunction,
        shown(args_docs(e->LambdaFunction_0.args, ind, r).0) == visible(
            args_text(e->LambdaFunction_0.args),
        ),
        blank_breaks(*args_docs(e->LambdaFunction_0.args, ind, r).0),
        keeps(*e->LambdaFunction_0.body, ind, args_docs(e->LambdaFunction_0.args, ind, r).1),
    ensures
        keeps(e, ind, r),
{
    reveal(keeps);
    lemma_visible_splits();
    lemma_doc_pieces();
    lemma_blank_pieces();
    assert(visible(expr_text(e)) =~= shown(expr_docs(e, ind, r).0));
}

proof fn case_if(e: Expression, ind: i32, r: usize)
    requires
        e is IfExpression,
        shown(if_conditional_docs(e->IfExpression_0.if_conditional, ind, r).0) == visible(
            if_conditional_text(e->IfExpression_0.if_conditional),
        ),
        blank_breaks(*if_conditional_docs(e->IfExpression_0.if_conditional, ind, r).0),
        ({
            let (first, r1) = if_conditional_docs(e->IfExpression_0.if_conditional, ind, r);
            let (docs, r2) = else_ifs_docs(e->IfExpression_0.else_ifs@, ind, first, r1);
            &&& shown(docs) == shown(first) + visible(else_ifs_text(e->IfExpression_0.else_ifs@))
            &&& blank_breaks(*docs)
            &&& e->IfExpression_0.trailing_else is Some ==> keeps(
                *e->IfExpression_0.trailing_else->Some_0.body,
                ind,
                r2,
            )
        }),
    ensures
        keeps(e, ind, r),
{
    reveal(keeps);
    lemma_visible_splits();
    lemma_doc_pieces();
    lemma_blank_pieces();
    if e->IfExpression_0.trailing_else is None {
        assert(visible(Seq::<char>::empty()) =~= Seq::<char>::empty()) by {
            lemma_visible_blank(Seq::<char>::empty());
        }
    }
    assert(visible(expr_text(e)) =~= shown(expr_docs(e, ind, r).0));
}

proof fn case_while(e: Expression, ind: i32, r: usize)
    requires
        e is WhileExpression,
        keeps(*e->WhileExpression_0.condition, ind, r),
        keeps(
            *e->WhileExpression_0.body,
            ind,
            expr_docs(*e->WhileExpression_0.condition, ind, r).1,
        ),
    ensures
        keeps(e, ind, r),
{
    reveal(keeps);
    lemma_visible_splits();
    lemma_doc_pieces();
    lemma_blank_pieces();
    assert(visible(expr_text(e)) =~= shown(expr_docs(e, ind, r).0));
}

proof fn case_call(e: Expression, ind: i32, r: usize)
    requires
        e is FunctionCall || e is SubsetExpression || e is RepeatExpression,
        e is FunctionCall ==> ({
            let c = e->FunctionCall_0;
            &&& keeps(*c.function_ref, ind, r)
            &&& shown(args_docs(c.args, ind, expr_docs(*c.function_ref, ind, r).1).0) == visible(
                args_text(c.args),
            )
            &&& blank_breaks(*args_docs(c.args, ind, expr_docs(*c.function_ref, ind, r).1).0)
        }),
        e is SubsetExpression ==> ({
            let c = e->SubsetExpression_0;
            &&& keeps(*c.object_ref, ind, r)
            &&& shown(args_docs(c.args, ind, expr_docs(*c.object_ref, ind, r).1).0) == visible(
                args_text(c.args),
            )
            &&& blank_breaks(*args_docs(c.args, ind, expr_docs(*c.object_ref, ind, r).1).0)
        }),
        e is RepeatExpression ==> keeps(*e->RepeatExpression_0.body, ind, r),
    ensures
        keeps(e, ind, r),
{
    reveal(keeps);
    lemma_visible_splits();
    lemma_blank_pieces();
    lemma_doc_pieces();
}

proof fn case_for(e: Expression, ind: i32, r: usize)
    requires
        e is ForLoopExpression,
        ({
            let f = e->ForLoopExpression_0;
            let r1 = expr_docs(*f.identifier, ind, r).1;
            let r2 = expr_docs(*f.collection, ind, r1).1;
            &&& keeps(*f.identifier, ind, r)
            &&& keeps(*f.collection, ind, r1)
            &&& keeps(*f.body, ind, next_ref_of(r2))
        }),
    ensures
        keeps(e, ind, r),
{
    reveal(keeps);
    lemma_visible_splits();
    lemma_doc_pieces();
    lemma_blank_pieces();
    let f = e->ForLoopExpression_0;
    lemma_delimiter(f.left_delim);
    lemma_delimiter(f.right_delim);
    assert(visible(expr_text(e)) =~= shown(expr_docs(e, ind, r).0));
}

#[verifier::spinoff_prover]
#[verifier::rlimit(40)]
proof fn lemma_expr(e: Expression, ind: i32, r: usize)
    requires
        formattable(e),
    ensures
        keeps(e, ind, r),
    decreases e,
{
    match e {
        Expression::Term(te) => {
            assert forall|k: int| 0 <= k < te.term@.len() implies formattable(
                #[trigger] te.term@[k],
            ) by {
                lemma_all_formattable(te.term@, k);
            }
            lemma_exprs(te.term@, ind, r);
            case_term(e, ind, r);
        },
        Expression::Unary(_, x) => {
            lemma_expr(*x, ind, r);
            case_prefixed(e, ind, r);
        },
        Expression::Formula(_, x) => {
            lemma_expr(*x, ind, r);
            case_prefixed(e, ind, r);
        },
        Expression::Bop(_, lhs, rhs) => {
            lemma_expr(*lhs, ind, r);
            lemma_expr(*rhs, ind, expr_docs(*lhs, ind, r).1);
            case_bop(e, ind, r);
        },
        Expression::Whitespace(_) => {
            case_leaf(e, ind, r);
        },
        Expression::FunctionDef(fd) => {
            assert forall|k: int| 0 <= k < fd.arguments.args@.len() implies arg_ok(
                #[trigger] fd.arguments.args@[k],
            ) by {
                lemma_args_formattable(fd.arguments.args@, k);
            }
            lemma_def_args(fd.arguments.args@, ind, r);
            let (items, r1) = def_args_docs(fd.arguments.args@, ind, r);
            let r2 = joined(items, nil_doc(), crate::format::ShouldBreak::No, r1).1;
            lemma_expr(*fd.body, ind, next_ref_of(r2));
            case_function_def(e, ind, r);
        },
        Expression::LambdaFunction(l) => {
            lemma_args(l.args, ind, r);
            lemma_expr(*l.body, ind, args_docs(l.args, ind, r).1);
            case_lambda(e, ind, r);
        },
        Expression::IfExpression(ie) => {
            lemma_if_conditional(ie.if_conditional, ind, r);
            let (first, r1) = if_conditional_docs(ie.if_conditional, ind, r);
            assert forall|k: int| 0 <= k < ie.else_ifs@.len() implies else_if_ok(
                #[trigger] ie.else_ifs@[k],
            ) by {
                lemma_else_ifs_formattable(ie.else_ifs@, k);
            }
            lemma_else_ifs(ie.else_ifs@, ind, first, r1);
            let r2 = else_ifs_docs(ie.else_ifs@, ind, first, r1).1;
            if ie.trailing_else is Some {
                lemma_expr(*ie.trailing_else->Some_0.body, ind, r2);
            }
            case_if(e, ind, r);
        },
        Expression::WhileExpression(w) => {
            lemma_expr(*w.condition, ind, r);
            lemma_expr(*w.body, ind, expr_docs(*w.condition, ind, r).1);
            case_while(e, ind, r);
        },
        Expression::RepeatExpression(rp) => {
            lemma_expr(*rp.body, ind, r);
            case_call(e, ind, r);
        },
        Expression::FunctionCall(c) => {
            lemma_expr(*c.function_ref, ind, r);
            lemma_args(c.args, ind, expr_docs(*c.function_ref, ind, r).1);
            case_call(e, ind, r);
        },
        Expression::SubsetExpression(s) => {
            lemma_expr(*s.object_ref, ind, r);
            lemma_args(s.args, ind, expr_docs(*s.object_ref, ind, r).1);
            case_call(e, ind, r);
        },
        Expression::ForLoopExpression(f) => {
            lemma_expr(*f.identifier, ind, r);
            let r1 = expr_docs(*f.identifier, ind, r).1;
            lemma_expr(*f.collection, ind, r1);
            let r2 = expr_docs(*f.collection, ind, r1).1;
            lemma_expr(*f.body, ind, next_ref_of(r2));
            case_for(e, ind, r);
        },
        _ => {
            case_leaf(e, ind, r);
        },
    }
}

/// Formatting keeps the tokens of the expression, in order: the printed text,
/// spaces and line breaks left out, is the texts of the expression's tokens,
/// spaces and line breaks left out.
pub proof fn lemma_formatting_keeps_tokens(e: Expression, indent: i32, line_length: i32)
    requires
        formatted(e, indent, line_length) is Some,
    ensures
        visible(formatted(e, indent, line_length)->Some_0) == visible(expr_text(e)),
{
    lemma_expr(e, indent, 0);
    reveal(keeps);
    let d = document(e, indent);
    let docs: Seq<Triple> = seq![(0i32, Mode::Flat, d)];
    assert(all_blank_breaks(docs)) by {
        assert forall|k: int| 0 <= k < docs.len() implies blank_breaks(*#[trigger] docs[k].2) by {
            assert(k == 0);
        }
    }
    lemma_layout_keeps_text(0, docs, line_length as int, Set::empty());
    assert(docs.drop_first() =~= Seq::<Triple>::empty());
    assert(docs_text(docs) == doc_text(*d) + docs_text(docs.drop_first()));
    assert(docs_text(docs) =~= doc_text(*d));
}

/// The text of a token, read from its kind and its text.
pub open spec fn token_string(t: TokenV) -> Seq<char> {
    match t {
        TokenV::Symbol(s) => s,
        TokenV::Literal(s) => s,
        TokenV::Semicolon => ";"@,
        TokenV::Newline => "\n"@,
        TokenV::LParen => "("@,
        TokenV::RParen => ")"@,
        TokenV::LBrace => "{"@,
        TokenV::RBrace => "}"@,
        TokenV::LSubscript => "["@,
        TokenV::RSubscript => "]"@,
        TokenV::Comma => ","@,
        TokenV::Continue => "continue"@,
        TokenV::Break => "break"@,
        TokenV::If => "if"@,
        TokenV::Else => "else"@,
        TokenV::While => "while"@,
        TokenV::For => "for"@,
        TokenV::Repeat => "repeat"@,
        TokenV::In => "in"@,
        TokenV::Function => "function"@,
        TokenV::Lambda => "\\"@,
        TokenV::LAssign => "<-"@,
        TokenV::RAssign => "->"@,
        TokenV::OldAssign => "="@,
        TokenV::Equal => "=="@,
        TokenV::NotEqual => "!="@,
        TokenV::LowerThan => "<"@,
        TokenV::GreaterThan => ">"@,
        TokenV::LowerEqual => "<="@,
        TokenV::GreaterEqual => ">="@,
        TokenV::Power => "^"@,
        TokenV::Divide => "/"@,
        TokenV::Multiply => "*"@,
        TokenV::Minus => "-"@,
        TokenV::Plus => "+"@,
        TokenV::Help => "?"@,
        TokenV::And => "&&"@,
        TokenV::VectorizedAnd => "&"@,
        TokenV::Or => "||"@,
        TokenV::VectorizedOr => "|"@,
        TokenV::Dollar => "$"@,
        TokenV::Pipe => "|>"@,
        TokenV::Modulo => "%%"@,
        TokenV::NsGet => "::"@,
        TokenV::NsGetInt => ":::"@,
        TokenV::Tilde => "~"@,
        TokenV::Colon => ":"@,
        TokenV::Slot => "@"@,
        TokenV::Special(s) => s,
        TokenV::UnaryNot => "!"@,
        TokenV::InlineComment(s) => s,
        TokenV::Comment(s) => s,
        TokenV::EOF => ""@,
    }
}

/// The texts of the tokens, one after the other.
pub open spec fn texts(ts: Seq<CommentedTokenV>) -> Seq<char>
    decreases ts.len(),
{
    if ts.len() == 0 {
        Seq::empty()
    } else {
        token_with_comments(ts[0]) + texts(ts.drop_first())
    }
}

/// Comments, one after the other.
pub open spec fn comments_text(cs: Seq<Seq<char>>) -> Seq<char>
    decreases cs.len(),
{
    if cs.len() == 0 {
        Seq::empty()
    } else {
        comments_text(cs.drop_last()) + cs.last()
    }
}

/// The text of a token with its comments: the comments that lead it, the
/// token, and its inline comment after a space.
pub open spec fn token_with_comments(t: CommentedTokenV) -> Seq<char> {
    let lead = match t.leading_comments {
        Some(cs) => comments_text(cs),
        None => Seq::empty(),
    };
    let inline = match t.inline_comment {
        Some(c) => " "@ + c,
        None => Seq::empty(),
    };
    lead + token_string(t.token) + inline
}

proof fn lemma_leading_text(cs: Seq<&str>)
    ensures
        doc_text(*leading_docs(cs)) == comments_text(cs.map_values(|s: &str| s@)),
    decreases cs.len(),
{
    let m = cs.map_values(|s: &str| s@);
    if cs.len() > 0 {
        lemma_leading_text(cs.drop_last());
        assert(cs.drop_last().map_values(|s: &str| s@) =~= m.drop_last());
        assert(m.last() == cs.last()@);
        let c = cons_doc(comment_doc(cs.last()), break_doc("\n"));
        assert(doc_text(*comment_doc(cs.last())) == cs.last()@);
        assert(doc_text(*break_doc("\n")) == Seq::<char>::empty());
        assert(doc_text(*c) =~= cs.last()@);
        assert(doc_text(*leading_docs(cs)) =~= doc_text(*leading_docs(cs.drop_last())) + doc_text(*c));
    } else {
        assert(doc_text(*leading_docs(cs)) =~= Seq::<char>::empty());
    }
}

proof fn lemma_token_string(t: &CommentedToken)
    ensures
        tok_text(t) == token_with_comments(t@),
{
    reveal(commented_doc);
    let base = token_doc(t.token);
    assert(doc_text(*base) == token_string(t@.token));
    let inline = match t@.inline_comment {
        Some(c) => " "@ + c,
        None => Seq::<char>::empty(),
    };
    let with_inline = match t.inline_comment {
        Some(c) => cons_doc(cons_doc(cons_doc(base, text_doc(" ")), comment_doc(c)), break_doc("\n")),
        None => base,
    };
    match t.inline_comment {
        Some(c) => {
            let a = cons_doc(base, text_doc(" "));
            let b = cons_doc(a, comment_doc(c));
            assert(doc_text(*text_doc(" ")) == " "@);
            assert(doc_text(*a) == doc_text(*base) + " "@);
            assert(doc_text(*comment_doc(c)) == c@);
            assert(doc_text(*b) == doc_text(*a) + c@);
            assert(doc_text(*break_doc("\n")) == Seq::<char>::empty());
            assert(doc_text(*cons_doc(b, break_doc("\n"))) == doc_text(*b) + Seq::<char>::empty());
        },
        None => {},
    }
    assert(doc_text(*with_inline) =~= token_string(t@.token) + inline);
    match t.leading_comments {
        Some(v) => {
            lemma_leading_text(v@);
            assert(tok_text(t) =~= token_with_comments(t@));
        },
        None => {
            assert(tok_text(t) =~= token_with_comments(t@));
        },
    }
}

proof fn lemma_texts_add(a: Seq<CommentedTokenV>, b: Seq<CommentedTokenV>)
    ensures
        texts(a + b) == texts(a) + texts(b),
    decreases a.len(),
{
    if a.len() == 0 {
        assert(a + b =~= b);
        assert(texts(a) + texts(b) =~= texts(b));
    } else {
        lemma_texts_add(a.drop_first(), b);
        assert((a + b).drop_first() =~= a.drop_first() + b);
        assert(texts(a + b) =~= texts(a) + texts(b));
    }
}

/// The visible text of the tokens that a tree holds.
pub open spec fn tree_text(c: Cst) -> Seq<char> {
    visible(texts(held(c)))
}

pub open spec fn trees_text(s: Seq<Cst>) -> Seq<char> {
    visible(texts(held_all(s)))
}

proof fn lemma_tree_text_add(a: Seq<CommentedTokenV>, b: Seq<CommentedTokenV>)
    ensures
        visible(texts(a + b)) == visible(texts(a)) + visible(texts(b)),
{
    lemma_texts_add(a, b);
    lemma_visible_add(texts(a), texts(b));
}

/// How the trees of the pieces show.
proof fn lemma_tree_pieces()
    ensures
        forall|a: Seq<CommentedTokenV>, b: Seq<CommentedTokenV>| #[trigger]
            visible(texts(a + b)) == visible(texts(a)) + visible(texts(b)),
        visible(texts(Seq::<CommentedTokenV>::empty())) == Seq::<char>::empty(),
{
    assert forall|a: Seq<CommentedTokenV>, b: Seq<CommentedTokenV>| #[trigger]
        visible(texts(a + b)) == visible(texts(a)) + visible(texts(b)) by {
        lemma_tree_text_add(a, b);
    }
    lemma_visible_blank(Seq::<char>::empty());
}

/// A token as a leaf shows its text, but a newline, which shows nothing.
proof fn lemma_leaf_text(t: &CommentedToken)
    requires
        !(t@.token is Semicolon),
        t@.token is Newline ==> t@.leading_comments is None && t@.inline_comment is None,
    ensures
        tree_text(tok(t)) == visible(tok_text(t)),
{
    lemma_token_string(t);
    reveal_with_fuel(leaves_of, 1);
    assert(leaves(tok(t)) == seq![t@]);
    reveal_with_fuel(Seq::filter, 2);
    lemma_kept_empty();
    lemma_tree_pieces();
    assert(seq![t@].drop_first() =~= Seq::<CommentedTokenV>::empty());
    if t@.token is Newline {
        assert(kept(seq![t@]) =~= Seq::<CommentedTokenV>::empty());
        reveal_strlit("\n");
        assert(token_with_comments(t@) =~= "\n"@);
        lemma_visible_blank("\n"@);
    } else {
        assert(kept(seq![t@]) =~= seq![t@]);
        assert(texts(seq![t@]) =~= token_with_comments(t@));
    }
}

proof fn lemma_delimiter_tree(d: Delimiter)
    requires
        clean(delimiter_cst(d)),
    ensures
        tree_text(delimiter_cst(d)) == visible(delimiter_text(d)),
{
    lemma_visible_splits();
    lemma_tree_pieces();
    match d {
        Delimiter::Paren(t) => {
            assert(seq![tok(t)][0] == tok(t));
            assert(clean(tok(t)));
            lemma_leaf_text(t);
            lemma_held_1(tok(t));
        },
        Delimiter::SingleBracket(t) => {
            assert(seq![tok(t)][0] == tok(t));
            assert(clean(tok(t)));
            lemma_leaf_text(t);
            lemma_held_1(tok(t));
        },
        Delimiter::DoubleBracket((a, b)) => {
            assert(seq![tok(a), tok(b)][0] == tok(a));
            assert(seq![tok(a), tok(b)][1] == tok(b));
            assert(clean(tok(a)));
            assert(clean(tok(b)));
            lemma_leaf_text(a);
            lemma_leaf_text(b);
            lemma_held_2(tok(a), tok(b));
        },
    }
}

proof fn lemma_exprs_text_front(x: Expression, rest: Seq<Expression>)
    ensures
        exprs_text(seq![x] + rest) == expr_text(x) + exprs_text(rest),
    decreases rest.len(),
{
    let s = seq![x] + rest;
    if rest.len() == 0 {
        assert(s.subrange(0, 0) =~= Seq::<Expression>::empty());
        assert(s[0] == x);
        assert(exprs_text(Seq::<Expression>::empty()) =~= Seq::<char>::empty());
        assert(exprs_text(rest) =~= Seq::<char>::empty());
        assert(exprs_text(s) == exprs_text(s.subrange(0, 0)) + expr_text(x));
        assert(exprs_text(s) =~= expr_text(x) + exprs_text(rest));
    } else {
        let init = rest.subrange(0, rest.len() - 1);
        lemma_exprs_text_front(x, init);
        assert(s.subrange(0, s.len() - 1) =~= seq![x] + init);
        assert(s[s.len() - 1] == rest[rest.len() - 1]);
        assert(exprs_text(s) =~= expr_text(x) + exprs_text(rest));
    }
}

proof fn lemma_arg_list_text_front(a: Arg, rest: Seq<Arg>)
    ensures
        arg_list_text(seq![a] + rest) == arg_list_text(seq![a]) + arg_list_text(rest),
    decreases rest.len(),
{
    let s = seq![a] + rest;
    if rest.len() == 0 {
        assert(s =~= seq![a]);
        assert(arg_list_text(seq![a]) + arg_list_text(rest) =~= arg_list_text(seq![a]));
    } else {
        let init = rest.subrange(0, rest.len() - 1);
        lemma_arg_list_text_front(a, init);
        assert(s.subrange(0, s.len() - 1) =~= seq![a] + init);
        assert(s[s.len() - 1] == rest[rest.len() - 1]);
        assert(arg_list_text(s) =~= arg_list_text(seq![a]) + arg_list_text(rest));
    }
}

proof fn lemma_else_ifs_text_front(e: ElseIfConditional, rest: Seq<ElseIfConditional>)
    ensures
        else_ifs_text(seq![e] + rest) == else_ifs_text(seq![e]) + else_ifs_text(rest),
    decreases rest.len(),
{
    let s = seq![e] + rest;
    if rest.len() == 0 {
        assert(s =~= seq![e]);
        assert(else_ifs_text(seq![e]) + else_ifs_text(rest) =~= else_ifs_text(seq![e]));
    } else {
        let init = rest.subrange(0, rest.len() - 1);
        lemma_else_ifs_text_front(e, init);
        assert(s.subrange(0, s.len() - 1) =~= seq![e] + init);
        assert(s[s.len() - 1] == rest[rest.len() - 1]);
        assert(else_ifs_text(s) =~= else_ifs_text(seq![e]) + else_ifs_text(rest));
    }
}

proof fn lemma_clean_kid(k: NodeKind, kids: Seq<Cst>, i: int)
    requires
        clean(Cst::Node(k, kids)),
        0 <= i < kids.len(),
    ensures
        clean(kids[i]),
{
}

proof fn lemma_newline_leaves(kids: Seq<Cst>)
    requires
        forall|i: int|
            0 <= i < kids.len() ==> (#[trigger] kids[i] is Leaf) && kids[i]->Leaf_0.token is Newline,
    ensures
        held_all(kids) == Seq::<CommentedTokenV>::empty(),
    decreases kids.len(),
{
    lemma_kept_empty();
    if kids.len() > 0 {
        let rest = kids.drop_first();
        assert forall|i: int| 0 <= i < rest.len() implies (#[trigger] rest[i] is Leaf)
            && rest[i]->Leaf_0.token is Newline by {
            assert(rest[i] == kids[i + 1]);
        }
        lemma_newline_leaves(rest);
        assert(kids[0] is Leaf);
        assert(leaves(kids[0]) == seq![kids[0]->Leaf_0]);
        reveal_with_fuel(Seq::filter, 2);
        assert(kept(seq![kids[0]->Leaf_0]) =~= Seq::<CommentedTokenV>::empty());
        lemma_kept_add(leaves(kids[0]), leaves_of(rest));
        assert(held_all(kids) =~= Seq::<CommentedTokenV>::empty());
    }
}

/// An expression shows the texts of the tokens that its tree holds.
#[verifier::opaque]
pub open spec fn shows(e: Expression) -> bool {
    visible(expr_text(e)) == tree_text(cst(e))
}

proof fn bridge_single(e: Expression, t: &CommentedToken, k: NodeKind)
    requires
        cst(e) == Cst::Node(k, seq![tok(t)]),
        expr_text(e) == tok_text(t),
        clean(cst(e)),
    ensures
        shows(e),
{
    reveal(shows);
    lemma_clean_kid(k, seq![tok(t)], 0);
    assert(seq![tok(t)][0] == tok(t));
    lemma_leaf_text(t);
    lemma_held_1(tok(t));
}

proof fn bridge_whitespace(e: Expression)
    requires
        e is Whitespace,
        clean(cst(e)),
    ensures
        shows(e),
{
    reveal(shows);
    lemma_tree_pieces();
    let kids = e->Whitespace_0@.map_values(|t: CommentedToken| Cst::Leaf(t@));
    assert(cst(e) == Cst::Node(NodeKind::Whitespace, kids));
    lemma_newline_leaves(kids);
    assert(held(cst(e)) == held_all(kids));
}

proof fn lemma_opt_tok(t: Option<&CommentedToken>)
    requires
        clean(crate::ast::opt_tok(t)),
    ensures
        tree_text(crate::ast::opt_tok(t)) == visible(
            match t {
                Some(t) => tok_text(t),
                None => Seq::<char>::empty(),
            },
        ),
{
    lemma_tree_pieces();
    lemma_held_nil();
    match t {
        Some(t) => {
            lemma_leaf_text(t);
        },
        None => {},
    }
}

proof fn bridge_term(e: Expression)
    requires
        e is Term,
        clean(cst(e)),
    ensures
        shows(e),
    decreases e, 0nat,
{
    let te0 = e->Term_0;
    let list0 = Cst::Node(NodeKind::List, csts(te0.term@));
    lemma_clean_3(
        NodeKind::Term,
        crate::ast::opt_tok(te0.pre_delimiters),
        list0,
        crate::ast::opt_tok(te0.post_delimiters),
    );
    lemma_clean_list(NodeKind::List, csts(te0.term@));
    bridge_exprs(te0.term@);
    reveal(shows);
    lemma_visible_splits();
    lemma_tree_pieces();
    let te = e->Term_0;
    let pre = crate::ast::opt_tok(te.pre_delimiters);
    let list = Cst::Node(NodeKind::List, csts(te.term@));
    let post = crate::ast::opt_tok(te.post_delimiters);
    lemma_clean_kid(NodeKind::Term, seq![pre, list, post], 0);
    lemma_clean_kid(NodeKind::Term, seq![pre, list, post], 2);
    lemma_opt_tok(te.pre_delimiters);
    lemma_opt_tok(te.post_delimiters);
    lemma_held_3(pre, list, post);
    assert(held(list) == held_all(csts(te.term@)));
    assert(visible(expr_text(e)) =~= tree_text(cst(e)));
}

proof fn lemma_clean_2(k: NodeKind, a: Cst, b: Cst)
    requires
        clean(Cst::Node(k, seq![a, b])),
    ensures
        clean(a),
        clean(b),
{
    lemma_clean_kid(k, seq![a, b], 0);
    lemma_clean_kid(k, seq![a, b], 1);
    assert(seq![a, b][0] == a);
    assert(seq![a, b][1] == b);
}

proof fn lemma_clean_3(k: NodeKind, a: Cst, b: Cst, c: Cst)
    requires
        clean(Cst::Node(k, seq![a, b, c])),
    ensures
        clean(a),
        clean(b),
        clean(c),
{
    lemma_clean_kid(k, seq![a, b, c], 0);
    lemma_clean_kid(k, seq![a, b, c], 1);
    lemma_clean_kid(k, seq![a, b, c], 2);
    assert(seq![a, b, c][0] == a);
    assert(seq![a, b, c][1] == b);
    assert(seq![a, b, c][2] == c);
}

proof fn lemma_clean_list(k: NodeKind, s: Seq<Cst>)
    requires
        clean(Cst::Node(k, s)),
    ensures
        all_clean(s),
{
}

proof fn lemma_all_clean_front(s: Seq<Cst>)
    requires
        all_clean(s),
        s.len() > 0,
    ensures
        clean(s[0]),
        all_clean(s.subrange(1, s.len() as int)),
{
    let rest = s.subrange(1, s.len() as int);
    assert forall|i: int| 0 <= i < rest.len() implies clean(#[trigger] rest[i]) by {
        assert(rest[i] == s[i + 1]);
    }
}

proof fn bridge_prefixed(e: Expression)
    requires
        e is Unary || e is Formula,
        clean(cst(e)),
    ensures
        shows(e),
    decreases e, 0nat,
{
    let (t, x) = if e is Unary {
        (e->Unary_0, *e->Unary_1)
    } else {
        (e->Formula_0, *e->Formula_1)
    };
    let k = if e is Unary {
        NodeKind::Unary
    } else {
        NodeKind::Formula
    };
    assert(cst(e) == Cst::Node(k, seq![tok(t), cst(x)]));
    lemma_clean_2(k, tok(t), cst(x));
    bridge_expr(x);
    reveal(shows);
    lemma_visible_splits();
    lemma_tree_pieces();
    lemma_leaf_text(t);
    lemma_held_2(tok(t), cst(x));
}

proof fn bridge_bop(e: Expression)
    requires
        e is Bop,
        clean(cst(e)),
    ensures
        shows(e),
    decreases e, 0nat,
{
    let (op, l, r) = (e->Bop_0, *e->Bop_1, *e->Bop_2);
    lemma_clean_3(NodeKind::Bop, cst(l), tok(op), cst(r));
    bridge_expr(l);
    bridge_expr(r);
    reveal(shows);
    lemma_visible_splits();
    lemma_tree_pieces();
    lemma_leaf_text(op);
    lemma_held_3(cst(l), tok(op), cst(r));
}

proof fn bridge_keyword_3(e: Expression, kw: &CommentedToken, k: NodeKind, mid: Cst, body: Expression, mid_text: Seq<char>)
    requires
        cst(e) == Cst::Node(k, seq![tok(kw), mid, cst(body)]),
        expr_text(e) == tok_text(kw) + mid_text + expr_text(body),
        clean(cst(e)),
        tree_text(mid) == visible(mid_text),
        shows(body),
    ensures
        shows(e),
{
    reveal(shows);
    lemma_visible_splits();
    lemma_tree_pieces();
    lemma_clean_3(k, tok(kw), mid, cst(body));
    lemma_leaf_text(kw);
    lemma_held_3(tok(kw), mid, cst(body));
}

proof fn bridge_repeat(e: Expression)
    requires
        e is RepeatExpression,
        clean(cst(e)),
    ensures
        shows(e),
    decreases e, 0nat,
{
    let r = e->RepeatExpression_0;
    lemma_clean_2(NodeKind::Repeat, tok(r.repeat_keyword), cst(*r.body));
    bridge_expr(*r.body);
    reveal(shows);
    lemma_visible_splits();
    lemma_tree_pieces();
    lemma_leaf_text(r.repeat_keyword);
    lemma_held_2(tok(r.repeat_keyword), cst(*r.body));
}

proof fn bridge_applied(e: Expression, f: Expression, a: Args, k: NodeKind)
    requires
        cst(e) == Cst::Node(k, seq![cst(f), args_cst(a)]),
        expr_text(e) == expr_text(f) + args_text(a),
        clean(cst(e)),
        shows(f),
        tree_text(args_cst(a)) == visible(args_text(a)),
    ensures
        shows(e),
{
    reveal(shows);
    lemma_visible_splits();
    lemma_tree_pieces();
    lemma_held_2(cst(f), args_cst(a));
}

#[verifier::spinoff_prover]
#[verifier::rlimit(40)]
proof fn bridge_if(e: Expression)
    requires
        e is IfExpression,
        clean(cst(e)),
    ensures
        shows(e),
    decreases e, 0nat,
{
    let ie = e->IfExpression_0;
    let first = if_conditional_cst(ie.if_conditional);
    let list = Cst::Node(NodeKind::List, else_ifs_cst(ie.else_ifs@));
    let trailing = match ie.trailing_else {
        Some(te) => Cst::Node(NodeKind::TrailingElse, seq![tok(te.else_keyword), cst(*te.body)]),
        None => absent(),
    };
    let tail = match ie.trailing_else {
        Some(te) => tok_text(te.else_keyword) + expr_text(*te.body),
        None => Seq::empty(),
    };
    assert(cst(e) is Node);
    assert(cst(e)->Node_0 is If);
    assert(cst(e)->Node_1[0] == first);
    assert(cst(e)->Node_1[1] == list);
    assert(cst(e)->Node_1[2] == trailing);
    assert(cst(e)->Node_1 =~= seq![first, list, trailing]);
    assert(cst(e) == Cst::Node(NodeKind::If, seq![first, list, trailing]));
    lemma_clean_3(NodeKind::If, first, list, trailing);
    lemma_clean_list(NodeKind::List, else_ifs_cst(ie.else_ifs@));
    bridge_if_conditional(ie.if_conditional);
    bridge_else_ifs(ie.else_ifs@);
    lemma_visible_splits();
    lemma_tree_pieces();
    lemma_held_nil();
    match ie.trailing_else {
        Some(te) => {
            lemma_clean_2(NodeKind::TrailingElse, tok(te.else_keyword), cst(*te.body));
            bridge_expr(*te.body);
            reveal(shows);
            lemma_leaf_text(te.else_keyword);
            lemma_held_2(tok(te.else_keyword), cst(*te.body));
            assert(tree_text(trailing) == visible(tail));
        },
        None => {
            assert(tree_text(trailing) == visible(tail));
        },
    }
    lemma_held_3(first, list, trailing);
    assert(held(list) == held_all(else_ifs_cst(ie.else_ifs@)));
    assert(tree_text(cst(e)) == tree_text(first) + trees_text(else_ifs_cst(ie.else_ifs@))
        + tree_text(trailing));
    assert(expr_text(e) == if_conditional_text(ie.if_conditional) + else_ifs_text(ie.else_ifs@)
        + tail);
    reveal(shows);
    assert(visible(expr_text(e)) =~= tree_text(cst(e)));
}

proof fn bridge_for(e: Expression)
    requires
        e is ForLoopExpression,
        clean(cst(e)),
    ensures
        shows(e),
    decreases e, 0nat,
{
    let f = e->ForLoopExpression_0;
    let kids0 = seq![
        tok(f.keyword),
        delimiter_cst(f.left_delim),
        cst(*f.identifier),
        tok(f.in_keyword),
        cst(*f.collection),
        delimiter_cst(f.right_delim),
        cst(*f.body),
    ];
    assert(cst(e) == Cst::Node(NodeKind::For, kids0));
    lemma_clean_kid(NodeKind::For, kids0, 2);
    lemma_clean_kid(NodeKind::For, kids0, 4);
    lemma_clean_kid(NodeKind::For, kids0, 6);
    assert(kids0[2] == cst(*f.identifier));
    assert(kids0[4] == cst(*f.collection));
    assert(kids0[6] == cst(*f.body));
    bridge_expr(*f.identifier);
    bridge_expr(*f.collection);
    bridge_expr(*f.body);
    reveal(shows);
    lemma_visible_splits();
    lemma_tree_pieces();
    let kids = seq![
        tok(f.keyword),
        delimiter_cst(f.left_delim),
        cst(*f.identifier),
        tok(f.in_keyword),
        cst(*f.collection),
        delimiter_cst(f.right_delim),
        cst(*f.body),
    ];
    assert(cst(e) == Cst::Node(NodeKind::For, kids));
    lemma_clean_kid(NodeKind::For, kids, 0);
    lemma_clean_kid(NodeKind::For, kids, 1);
    lemma_clean_kid(NodeKind::For, kids, 3);
    lemma_clean_kid(NodeKind::For, kids, 5);
    assert(kids[0] == tok(f.keyword));
    assert(kids[1] == delimiter_cst(f.left_delim));
    assert(kids[3] == tok(f.in_keyword));
    assert(kids[5] == delimiter_cst(f.right_delim));
    lemma_leaf_text(f.keyword);
    lemma_leaf_text(f.in_keyword);
    lemma_delimiter_tree(f.left_delim);
    lemma_delimiter_tree(f.right_delim);
    lemma_held_7(
        tok(f.keyword),
        delimiter_cst(f.left_delim),
        cst(*f.identifier),
        tok(f.in_keyword),
        cst(*f.collection),
        delimiter_cst(f.right_delim),
        cst(*f.body),
    );
    assert(visible(expr_text(e)) =~= tree_text(cst(e)));
}

/// Expressions whose trees are clean show the texts of the tokens that their
/// trees hold.
pub proof fn bridge_exprs(s: Seq<Expression>)
    requires
        all_clean(csts(s)),
    ensures
        visible(exprs_text(s)) == trees_text(csts(s)),
    decreases s, 0nat,
{
    lemma_visible_splits();
    lemma_tree_pieces();
    lemma_held_nil();
    if s.len() == 0 {
        assert(exprs_text(s) =~= Seq::<char>::empty());
        assert(csts(s) =~= Seq::<Cst>::empty());
    } else {
        let rest = s.subrange(1, s.len() as int);
        assert(s =~= seq![s[0]] + rest);
        lemma_csts_cons(s[0], rest);
        lemma_all_clean_front(csts(s));
        assert(csts(s).subrange(1, csts(s).len() as int) =~= csts(rest));
        bridge_expr(s[0]);
        bridge_exprs(rest);
        reveal(shows);
        lemma_held_cons(cst(s[0]), csts(rest));
        lemma_exprs_text_front(s[0], rest);
    }
}

proof fn bridge_arg_list(s: Seq<Arg>)
    requires
        all_clean(arg_csts(s)),
    ensures
        visible(arg_list_text(s)) == trees_text(arg_csts(s)),
    decreases s, 0nat,
{
    lemma_visible_splits();
    lemma_tree_pieces();
    lemma_held_nil();
    if s.len() == 0 {
        assert(arg_list_text(s) =~= Seq::<char>::empty());
        assert(arg_csts(s) =~= Seq::<Cst>::empty());
    } else {
        let rest = s.subrange(1, s.len() as int);
        let a = s[0];
        assert(s =~= seq![a] + rest);
        lemma_arg_csts_cons(a, rest);
        lemma_all_clean_front(arg_csts(s));
        assert(arg_csts(s).subrange(1, arg_csts(s).len() as int) =~= arg_csts(rest));
        bridge_arg_list(rest);
        let comma = if a.1 is Some {
            cst(a.1->Some_0)
        } else {
            absent()
        };
        assert(arg_node(a) == Cst::Node(NodeKind::Arg, seq![cst(a.0), comma]));
        lemma_clean_2(NodeKind::Arg, cst(a.0), comma);
        bridge_expr(a.0);
        if a.1 is Some {
            bridge_expr(a.1->Some_0);
        }
        reveal(shows);
        lemma_held_2(cst(a.0), comma);
        lemma_held_cons(arg_node(a), arg_csts(rest));
        lemma_arg_list_text_front(a, rest);
        assert(seq![a].subrange(0, 0) =~= Seq::<Arg>::empty());
        assert(arg_list_text(Seq::<Arg>::empty()) =~= Seq::<char>::empty());
        assert(arg_list_text(seq![a]) =~= expr_text(a.0) + (if a.1 is Some {
            expr_text(a.1->Some_0)
        } else {
            Seq::<char>::empty()
        }));
        assert(visible(arg_list_text(s)) =~= trees_text(arg_csts(s)));
    }
}

proof fn bridge_args(a: Args)
    requires
        clean(args_cst(a)),
    ensures
        tree_text(args_cst(a)) == visible(args_text(a)),
    decreases a, 0nat,
{
    lemma_visible_splits();
    lemma_tree_pieces();
    let list = Cst::Node(NodeKind::List, arg_csts(a.args@));
    lemma_clean_3(NodeKind::Args, delimiter_cst(a.left_delimeter), list, delimiter_cst(a.right_delimeter));
    lemma_clean_list(NodeKind::List, arg_csts(a.args@));
    bridge_arg_list(a.args@);
    lemma_delimiter_tree(a.left_delimeter);
    lemma_delimiter_tree(a.right_delimeter);
    lemma_held_3(delimiter_cst(a.left_delimeter), list, delimiter_cst(a.right_delimeter));
    assert(held(list) == held_all(arg_csts(a.args@)));
    assert(tree_text(args_cst(a)) =~= visible(args_text(a)));
}

proof fn bridge_if_conditional(c: IfConditional)
    requires
        clean(if_conditional_cst(c)),
    ensures
        tree_text(if_conditional_cst(c)) == visible(if_conditional_text(c)),
    decreases c, 0nat,
{
    lemma_visible_splits();
    lemma_tree_pieces();
    let kids = seq![
        tok(c.keyword),
        tok(c.left_delimiter),
        cst(*c.condition),
        tok(c.right_delimiter),
        cst(*c.body),
    ];
    lemma_clean_kid(NodeKind::IfConditional, kids, 0);
    lemma_clean_kid(NodeKind::IfConditional, kids, 1);
    lemma_clean_kid(NodeKind::IfConditional, kids, 2);
    lemma_clean_kid(NodeKind::IfConditional, kids, 3);
    lemma_clean_kid(NodeKind::IfConditional, kids, 4);
    assert(kids[0] == tok(c.keyword));
    assert(kids[1] == tok(c.left_delimiter));
    assert(kids[2] == cst(*c.condition));
    assert(kids[3] == tok(c.right_delimiter));
    assert(kids[4] == cst(*c.body));
    lemma_leaf_text(c.keyword);
    lemma_leaf_text(c.left_delimiter);
    lemma_leaf_text(c.right_delimiter);
    bridge_expr(*c.condition);
    bridge_expr(*c.body);
    reveal(shows);
    lemma_held_5(
        tok(c.keyword),
        tok(c.left_delimiter),
        cst(*c.condition),
        tok(c.right_delimiter),
        cst(*c.body),
    );
    assert(tree_text(if_conditional_cst(c)) =~= visible(if_conditional_text(c)));
}

proof fn bridge_else_ifs(s: Seq<ElseIfConditional>)
    requires
        all_clean(else_ifs_cst(s)),
    ensures
        visible(else_ifs_text(s)) == trees_text(else_ifs_cst(s)),
    decreases s, 0nat,
{
    lemma_visible_splits();
    lemma_tree_pieces();
    lemma_held_nil();
    if s.len() == 0 {
        assert(else_ifs_text(s) =~= Seq::<char>::empty());
        assert(else_ifs_cst(s) =~= Seq::<Cst>::empty());
    } else {
        let rest = s.subrange(1, s.len() as int);
        let e = s[0];
        assert(s =~= seq![e] + rest);
        lemma_else_ifs_cons(e, rest);
        let node = Cst::Node(
            NodeKind::ElseIf,
            seq![tok(e.else_keyword), if_conditional_cst(e.if_conditional)],
        );
        lemma_all_clean_front(else_ifs_cst(s));
        assert(else_ifs_cst(s)[0] == node);
        assert(else_ifs_cst(s).subrange(1, else_ifs_cst(s).len() as int) =~= else_ifs_cst(rest));
        bridge_else_ifs(rest);
        lemma_clean_2(NodeKind::ElseIf, tok(e.else_keyword), if_conditional_cst(e.if_conditional));
        lemma_leaf_text(e.else_keyword);
        bridge_if_conditional(e.if_conditional);
        lemma_held_2(tok(e.else_keyword), if_conditional_cst(e.if_conditional));
        lemma_held_cons(node, else_ifs_cst(rest));
        lemma_else_ifs_text_front(e, rest);
        assert(seq![e].subrange(0, 0) =~= Seq::<ElseIfConditional>::empty());
        assert(else_ifs_text(Seq::<ElseIfConditional>::empty()) =~= Seq::<char>::empty());
        assert(else_ifs_text(seq![e]) =~= tok_text(e.else_keyword) + if_conditional_text(
            e.if_conditional,
        ));
        assert(visible(else_ifs_text(s)) =~= trees_text(else_ifs_cst(s)));
    }
}

proof fn bridge_function_def(e: Expression)
    requires
        e is FunctionDef,
        clean(cst(e)),
    ensures
        shows(e),
    decreases e, 0nat,
{
    let fd = e->FunctionDef_0;
    lemma_clean_3(NodeKind::FunctionDef, tok(fd.keyword), args_cst(fd.arguments), cst(*fd.body));
    bridge_args(fd.arguments);
    bridge_expr(*fd.body);
    bridge_keyword_3(
        e,
        fd.keyword,
        NodeKind::FunctionDef,
        args_cst(fd.arguments),
        *fd.body,
        args_text(fd.arguments),
    );
}

proof fn bridge_lambda(e: Expression)
    requires
        e is LambdaFunction,
        clean(cst(e)),
    ensures
        shows(e),
    decreases e, 0nat,
{
    let l = e->LambdaFunction_0;
    lemma_clean_3(NodeKind::Lambda, tok(l.keyword), args_cst(l.args), cst(*l.body));
    bridge_args(l.args);
    bridge_expr(*l.body);
    bridge_keyword_3(e, l.keyword, NodeKind::Lambda, args_cst(l.args), *l.body, args_text(l.args));
}

proof fn bridge_while(e: Expression)
    requires
        e is WhileExpression,
        clean(cst(e)),
    ensures
        shows(e),
    decreases e, 0nat,
{
    let w = e->WhileExpression_0;
    lemma_clean_3(NodeKind::While, tok(w.while_keyword), cst(*w.condition), cst(*w.body));
    bridge_expr(*w.condition);
    bridge_expr(*w.body);
    reveal(shows);
    bridge_keyword_3(
        e,
        w.while_keyword,
        NodeKind::While,
        cst(*w.condition),
        *w.body,
        expr_text(*w.condition),
    );
}

proof fn bridge_call(e: Expression)
    requires
        e is FunctionCall || e is SubsetExpression,
        clean(cst(e)),
    ensures
        shows(e),
    decreases e, 0nat,
{
    if e is FunctionCall {
        let c = e->FunctionCall_0;
        lemma_clean_2(NodeKind::Call, cst(*c.function_ref), args_cst(c.args));
        bridge_expr(*c.function_ref);
        bridge_args(c.args);
        bridge_applied(e, *c.function_ref, c.args, NodeKind::Call);
    } else {
        let c = e->SubsetExpression_0;
        lemma_clean_2(NodeKind::Subset, cst(*c.object_ref), args_cst(c.args));
        bridge_expr(*c.object_ref);
        bridge_args(c.args);
        bridge_applied(e, *c.object_ref, c.args, NodeKind::Subset);
    }
}

/// A clean tree of an expression holds the texts that the expression shows.
proof fn bridge_expr(e: Expression)
    requires
        clean(cst(e)),
    ensures
        shows(e),
    decreases e, 1nat,
{
    match e {
        Expression::Symbol(t) => bridge_single(e, t, NodeKind::Symbol),
        Expression::Literal(t) => bridge_single(e, t, NodeKind::Literal),
        Expression::Comment(t) => bridge_single(e, t, NodeKind::Comment),
        Expression::Continue(t) => bridge_single(e, t, NodeKind::Continue),
        Expression::Break(t) => bridge_single(e, t, NodeKind::Break),
        Expression::EOF(t) => bridge_single(e, t, NodeKind::EOF),
        Expression::Newline(_) => {},
        Expression::Whitespace(_) => bridge_whitespace(e),
        Expression::Term(_) => bridge_term(e),
        Expression::Unary(_, _) => bridge_prefixed(e),
        Expression::Formula(_, _) => bridge_prefixed(e),
        Expression::Bop(_, _, _) => bridge_bop(e),
        Expression::FunctionDef(_) => bridge_function_def(e),
        Expression::LambdaFunction(_) => bridge_lambda(e),
        Expression::WhileExpression(_) => bridge_while(e),
        Expression::RepeatExpression(_) => bridge_repeat(e),
        Expression::FunctionCall(_) => bridge_call(e),
        Expression::SubsetExpression(_) => bridge_call(e),
        Expression::IfExpression(_) => bridge_if(e),
        Expression::ForLoopExpression(_) => bridge_for(e),
    }
}

/// Every token that the tokenizer reads prints as the characters it was read
/// from: a name, a number, a string, a comment, a reserved word or an operator
/// is printed as written. The two exceptions are a line break written `\r\n`,
/// which prints as `\n`, and the power operator written `**`, which prints as
/// `^`.
#[verifier::spinoff_prover]
#[verifier::rlimit(50)]
pub proof fn lemma_tokens_print_as_read(src: Seq<char>, st: LexState, prev: Prev)
    requires
        0 <= st.it < src.len(),
    ensures
        lex_step(src, st, prev) matches Some((Some(t), st2)) ==> (src[st.it] == '\r' && t.token is Newline)
            || (src[st.it] == '*' && t.token is Power) || token_string(t.token) == src.subrange(
            st.it,
            st2.it,
        ),
{
    let i = st.it;
    assert(src.subrange(i, i + 1) =~= seq![src[i]]);
    if i + 1 < src.len() {
        assert(src.subrange(i, i + 2) =~= seq![src[i], src[i + 1]]);
    }
    if i + 2 < src.len() {
        assert(src.subrange(i, i + 3) =~= seq![src[i], src[i + 1], src[i + 2]]);
    }
    reveal_strlit(";");
    reveal_strlit("\n");
    reveal_strlit("(");
    reveal_strlit(")");
    reveal_strlit("{");
    reveal_strlit("}");
    reveal_strlit("[");
    reveal_strlit("]");
    reveal_strlit(",");
    reveal_strlit("continue");
    reveal_strlit("break");
    reveal_strlit("if");
    reveal_strlit("else");
    reveal_strlit("while");
    reveal_strlit("for");
    reveal_strlit("repeat");
    reveal_strlit("in");
    reveal_strlit("function");
    reveal_strlit("\\");
    reveal_strlit("<-");
    reveal_strlit("->");
    reveal_strlit("=");
    reveal_strlit("==");
    reveal_strlit("!=");
    reveal_strlit("<");
    reveal_strlit(">");
    reveal_strlit("<=");
    reveal_strlit(">=");
    reveal_strlit("^");
    reveal_strlit("/");
    reveal_strlit("*");
    reveal_strlit("-");
    reveal_strlit("+");
    reveal_strlit("?");
    reveal_strlit("&&");
    reveal_strlit("&");
    reveal_strlit("||");
    reveal_strlit("|");
    reveal_strlit("$");
    reveal_strlit("|>");
    reveal_strlit("%%");
    reveal_strlit("::");
    reveal_strlit(":::");
    reveal_strlit("~");
    reveal_strlit(":");
    reveal_strlit("@");
    reveal_strlit("!");
}

/// A program written on one line.
pub open spec fn one_line(src: Seq<char>) -> bool {
    forall|k: int| 0 <= k < src.len() ==> #[trigger] src[k] != '\n' && src[k] != '\r'
}

proof fn lemma_lines_after_one_line(src: Seq<char>, a: int, b: int, line: int, offset: int)
    requires
        one_line(src),
        0 <= a,
        b <= src.len(),
    ensures
        lines_after(src, a, b, line, offset) == (line, offset + if a < b { b - a } else { 0 }),
    decreases b - a,
{
    if a < b {
        lemma_lines_after_one_line(src, a + 1, b, line, offset + 1);
    }
}

/// On one line, a token is placed where the tokenizer starts to read it, and
/// reading it moves the column by the characters it reads.
#[verifier::spinoff_prover]
proof fn lemma_lex_step_one_line(src: Seq<char>, st: LexState, prev: Prev)
    requires
        one_line(src),
        0 <= st.it < src.len(),
    ensures
        lex_step(src, st, prev) matches Some((t, st2)) ==> st2.it <= src.len() && st2.line == st.line
            && st2.offset == st.offset + (st2.it - st.it) && (t matches Some(tk) ==> tk.line == st.line
            && tk.offset == st.offset),
{
    assert(src[st.it] != '\n' && src[st.it] != '\r');
    crate::lexer_spec::lemma_ident_end_bounds(src, st.it);
    crate::lexer_spec::lemma_comment_end(src, st.it);
    crate::tokenizer::lemma_number_end(src, st.it);
    crate::tokenizer::lemma_word_end(src, st.it);
    if src[st.it] == '"' || src[st.it] == '\'' {
        match crate::lexer_spec::string_end(src, src[st.it], st.it + 1) {
            Some(j) => {
                crate::lexer_spec::lemma_string_end_bounds(src, src[st.it], st.it + 1);
                lemma_lines_after_one_line(src, st.it, j + 1, st.line, st.offset);
            },
            None => {},
        }
    }
}

/// The tokens of a program written on one line: each stands on that line, at
/// the column where its text starts, and its text there is what it prints as
/// (but the power operator written `**`, which prints as `^`).
pub open spec fn placed_as_read(src: Seq<char>, toks: Seq<SpecToken>) -> bool {
    forall|k: int|
        0 <= k < toks.len() - 1 ==> (#[trigger] toks[k]).line == 0 && ((toks[k].token is Power
            && src[toks[k].offset] == '*') || (0 <= toks[k].offset && toks[k].offset + token_string(
            toks[k].token,
        ).len() <= src.len() && src.subrange(
            toks[k].offset,
            toks[k].offset + token_string(toks[k].token).len(),
        ) == token_string(toks[k].token)))
}

#[verifier::spinoff_prover]
proof fn lemma_lex_from_one_line(src: Seq<char>, st: LexState, prev: Prev)
    requires
        one_line(src),
        0 <= st.it,
        st.line == 0,
        st.offset == st.it,
    ensures
        lex_from(src, st, prev) matches Some(toks) ==> placed_as_read(src, toks),
    decreases src.len() + 1 - st.it,
{
    if st.it < src.len() {
        lemma_lex_step_one_line(src, st, prev);
        lemma_tokens_print_as_read(src, st, prev);
        match lex_step(src, st, prev) {
            None => {},
            Some((t, st2)) => {
                if st.it < st2.it <= src.len() + 1 {
                    let prev2 = prev_after(prev, t);
                    lemma_lex_from_one_line(src, st2, prev2);
                    match lex_from(src, st2, prev2) {
                        None => {},
                        Some(rest) => {
                            let toks = opt_seq(t) + rest;
                            assert forall|k: int| 0 <= k < toks.len() - 1 implies (#[trigger] toks[k]).line
                                == 0 && ((toks[k].token is Power && src[toks[k].offset] == '*') || (0
                                <= toks[k].offset && toks[k].offset + token_string(toks[k].token).len()
                                <= src.len() && src.subrange(
                                toks[k].offset,
                                toks[k].offset + token_string(toks[k].token).len(),
                            ) == token_string(toks[k].token))) by {
                                match t {
                                    None => {
                                        assert(toks[k] == rest[k]);
                                    },
                                    Some(tk) => {
                                        if k == 0 {
                                            assert(toks[0] == tk);
                                        } else {
                                            assert(toks[k] == rest[k - 1]);
                                        }
                                    },
                                }
                            }
                        },
                    }
                }
            },
        }
    }
}

/// A program written on one line is read into tokens that each stand on that
/// line at the column where their text starts: the characters there are the
/// text the token prints as (but `**`, which prints as `^`). So `a <- 1` is
/// read as `a` at column 0, `<-` at column 2 and `1` at column 5.
#[verifier::spinoff_prover]
pub proof fn lemma_tokens_are_placed_where_read(src: Seq<char>)
    requires
        one_line(src),
    ensures
        lex(src) matches Some(toks) ==> placed_as_read(src, toks),
{
    lemma_lex_from_one_line(src, LexState { it: 0, line: 0, offset: 0 }, Prev::Nothing);
}

} // verus!
