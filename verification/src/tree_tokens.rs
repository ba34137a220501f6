//! The tokens that a tree holds: the parser keeps every token that it reads, in
//! order, but the newlines it skips and the semicolons that end statements;
//! and how it groups binary operations, by precedence and associativity.
use crate::grammar::{
    absent, after, args_rest, atomic_term, blank_end, climb, climb_rhs, close_delim,
    delimited_comma_sep_exprs, else_ifs, expr, for_loop_expression, function_def, if_conditional,
    if_expression, lambda_function, leaf, leaves, leaves_of, lemma_blank_end, lemma_skip_newlines,
    node, open_delim, program_from, repeat_expression, skip_newlines, statement_or_expr,
    statements, tails, term_expr, token_is, trailing_else, unary_term, while_expression,
    Cst, DelimKind, NodeKind, is_binop, is_right_assoc, prec,
};
use crate::pre_parsing_hooks::{
    comment_run, lemma_comment_run, squeeze_from, with_inline, with_leading,
};
use crate::tokens::{CommentedTokenV, TokenV};
use vstd::prelude::*;

verus! {

/// The tokens that only lay out a program: newlines and semicolons.
pub open spec fn is_layout_token(t: TokenV) -> bool {
    t is Newline || t is Semicolon
}

/// The tokens, the layout tokens left out.
pub open spec fn kept(ts: Seq<CommentedTokenV>) -> Seq<CommentedTokenV> {
    ts.filter(|t: CommentedTokenV| !is_layout_token(t.token))
}

/// The tokens from `a` up to `b`, the layout tokens left out.
pub open spec fn span(toks: Seq<CommentedTokenV>, a: int, b: int) -> Seq<CommentedTokenV> {
    kept(toks.subrange(a, b))
}

/// The tokens of a tree, the layout tokens left out.
pub open spec fn held(c: Cst) -> Seq<CommentedTokenV> {
    kept(leaves(c))
}

pub open spec fn held_all(s: Seq<Cst>) -> Seq<CommentedTokenV> {
    kept(leaves_of(s))
}

/// No whole-line comment among the tokens.
pub open spec fn no_comments(toks: Seq<CommentedTokenV>) -> bool {
    forall|i: int| 0 <= i < toks.len() ==> !(#[trigger] toks[i].token is Comment)
}

/// No newline among the tokens carries a comment.
pub open spec fn plain_newlines(toks: Seq<CommentedTokenV>) -> bool {
    forall|i: int|
        0 <= i < toks.len() && #[trigger] toks[i].token is Newline ==> toks[i].leading_comments is None
            && toks[i].inline_comment is None
}

/// A tree with no semicolon or comment among its leaves, no comment carried by
/// a newline, no newline node, and only newlines in its whitespace nodes.
pub open spec fn clean(c: Cst) -> bool
    decreases c,
{
    match c {
        Cst::Leaf(t) => !(t.token is Semicolon) && !(t.token is Comment) && (t.token is Newline
            ==> t.leading_comments is None && t.inline_comment is None),
        Cst::Node(k, kids) => !(k is Newline) && (k is Whitespace ==> forall|i: int|
            0 <= i < kids.len() ==> (#[trigger] kids[i] is Leaf) && kids[i]->Leaf_0.token is Newline)
            && forall|i: int| 0 <= i < kids.len() ==> clean(#[trigger] kids[i]),
    }
}

pub open spec fn all_clean(s: Seq<Cst>) -> bool {
    forall|i: int| 0 <= i < s.len() ==> clean(#[trigger] s[i])
}

/// A tree read from `pos` up to its end holds the tokens read, the layout
/// tokens left out; where the tokens hold no whole-line comment, it is clean.
pub open spec fn reads(toks: Seq<CommentedTokenV>, pos: int, r: Option<(int, Cst)>) -> bool {
    match r {
        Some((k, c)) => pos <= k <= toks.len() && held(c) == span(toks, pos, k) && (no_comments(
            toks,
        ) && plain_newlines(toks) ==> clean(c)),
        None => true,
    }
}

/// A tree built on `prev` and read from `pos` on holds the tokens of `prev`, then
/// those read.
pub open spec fn reads_on(toks: Seq<CommentedTokenV>, pos: int, prev: Cst, r: Option<(int, Cst)>) -> bool {
    match r {
        Some((k, c)) => pos <= k <= toks.len() && held(c) == held(prev) + span(toks, pos, k) && (
        no_comments(toks) && plain_newlines(toks) && clean(prev) ==> clean(c)),
        None => true,
    }
}

pub proof fn lemma_kept_add(a: Seq<CommentedTokenV>, b: Seq<CommentedTokenV>)
    ensures
        kept(a + b) == kept(a) + kept(b),
{
    Seq::filter_distributes_over_add(a, b, |t: CommentedTokenV| !is_layout_token(t.token));
}

pub proof fn lemma_kept_empty()
    ensures
        kept(Seq::<CommentedTokenV>::empty()) == Seq::<CommentedTokenV>::empty(),
{
    reveal_with_fuel(Seq::filter, 1);
    assert(kept(Seq::<CommentedTokenV>::empty()) =~= Seq::<CommentedTokenV>::empty());
}

proof fn lemma_split(toks: Seq<CommentedTokenV>, a: int, b: int, c: int)
    requires
        0 <= a <= b <= c <= toks.len(),
    ensures
        span(toks, a, c) == span(toks, a, b) + span(toks, b, c),
{
    assert(toks.subrange(a, c) =~= toks.subrange(a, b) + toks.subrange(b, c));
    lemma_kept_add(toks.subrange(a, b), toks.subrange(b, c));
}

proof fn lemma_span_empty(toks: Seq<CommentedTokenV>, a: int)
    requires
        0 <= a <= toks.len(),
    ensures
        span(toks, a, a) == Seq::<CommentedTokenV>::empty(),
{
    assert(toks.subrange(a, a) =~= Seq::<CommentedTokenV>::empty());
    lemma_kept_empty();
}

/// The newlines skipped from `b` on add nothing to what is kept from `a`.
proof fn lemma_gap(toks: Seq<CommentedTokenV>, a: int, b: int)
    requires
        0 <= a <= b <= toks.len(),
    ensures
        b <= skip_newlines(toks, b) <= toks.len(),
        span(toks, a, skip_newlines(toks, b)) == span(toks, a, b),
    decreases toks.len() - b,
{
    lemma_skip_newlines(toks, b);
    if b < toks.len() && toks[b].token is Newline {
        lemma_gap(toks, a, b + 1);
        lemma_split(toks, a, b, b + 1);
        assert(toks.subrange(b, b + 1) =~= seq![toks[b]]);
        reveal_with_fuel(Seq::filter, 2);
        assert(kept(seq![toks[b]]) =~= Seq::<CommentedTokenV>::empty());
        assert(span(toks, a, b) + Seq::<CommentedTokenV>::empty() =~= span(toks, a, b));
    }
}

/// One token as a leaf holds what is kept of it.
proof fn lemma_leaf(toks: Seq<CommentedTokenV>, p: int)
    requires
        0 <= p < toks.len(),
    ensures
        held(leaf(toks, p)) == span(toks, p, p + 1),
        is_layout_token(toks[p].token) ==> span(toks, p, p + 1) == Seq::<CommentedTokenV>::empty(),
        clean(leaf(toks, p)) == (!(toks[p].token is Semicolon) && !(toks[p].token is Comment) && (
        toks[p].token is Newline ==> toks[p].leading_comments is None && toks[p].inline_comment
            is None)),
{
    assert(toks.subrange(p, p + 1) =~= seq![toks[p]]);
    reveal_with_fuel(leaves_of, 1);
    assert(leaves(leaf(toks, p)) == seq![toks[p]]);
    reveal_with_fuel(Seq::filter, 2);
    if is_layout_token(toks[p].token) {
        assert(kept(seq![toks[p]]) =~= Seq::<CommentedTokenV>::empty());
    }
}

pub proof fn lemma_held_cons(x: Cst, s: Seq<Cst>)
    ensures
        held_all(seq![x] + s) == held(x) + held_all(s),
{
    assert((seq![x] + s).drop_first() =~= s);
    assert((seq![x] + s)[0] == x);
    lemma_kept_add(leaves(x), leaves_of(s));
}

pub proof fn lemma_held_nil()
    ensures
        held_all(Seq::<Cst>::empty()) == Seq::<CommentedTokenV>::empty(),
        held(absent()) == Seq::<CommentedTokenV>::empty(),
{
    lemma_kept_empty();
}

pub proof fn lemma_held_1(a: Cst)
    ensures
        held_all(seq![a]) == held(a),
{
    lemma_held_cons(a, Seq::empty());
    assert(seq![a] + Seq::<Cst>::empty() =~= seq![a]);
    lemma_held_nil();
    assert(held(a) + Seq::<CommentedTokenV>::empty() =~= held(a));
}

pub proof fn lemma_held_2(a: Cst, b: Cst)
    ensures
        held_all(seq![a, b]) == held(a) + held(b),
{
    assert(seq![a, b] =~= seq![a] + seq![b]);
    lemma_held_cons(a, seq![b]);
    lemma_held_1(b);
}

pub proof fn lemma_held_3(a: Cst, b: Cst, c: Cst)
    ensures
        held_all(seq![a, b, c]) == held(a) + held(b) + held(c),
{
    assert(seq![a, b, c] =~= seq![a] + seq![b, c]);
    lemma_held_cons(a, seq![b, c]);
    lemma_held_2(b, c);
    assert(held(a) + (held(b) + held(c)) =~= held(a) + held(b) + held(c));
}

pub proof fn lemma_held_5(a: Cst, b: Cst, c: Cst, d: Cst, e: Cst)
    ensures
        held_all(seq![a, b, c, d, e]) == held(a) + held(b) + held(c) + held(d) + held(e),
{
    assert(seq![a, b, c, d, e] =~= seq![a] + seq![b] + seq![c, d, e]);
    assert(seq![a] + seq![b] + seq![c, d, e] =~= seq![a] + (seq![b] + seq![c, d, e]));
    lemma_held_cons(a, seq![b] + seq![c, d, e]);
    lemma_held_cons(b, seq![c, d, e]);
    lemma_held_3(c, d, e);
    assert(held(a) + (held(b) + (held(c) + held(d) + held(e))) =~= held(a) + held(b) + held(c)
        + held(d) + held(e));
}

pub proof fn lemma_held_7(a: Cst, b: Cst, c: Cst, d: Cst, e: Cst, f: Cst, g: Cst)
    ensures
        held_all(seq![a, b, c, d, e, f, g]) == held(a) + held(b) + held(c) + held(d) + held(e)
            + held(f) + held(g),
{
    assert(seq![a, b, c, d, e, f, g] =~= seq![a] + (seq![b] + seq![c, d, e, f, g]));
    lemma_held_cons(a, seq![b] + seq![c, d, e, f, g]);
    lemma_held_cons(b, seq![c, d, e, f, g]);
    lemma_held_5(c, d, e, f, g);
    assert(held(a) + (held(b) + (held(c) + held(d) + held(e) + held(f) + held(g))) =~= held(a)
        + held(b) + held(c) + held(d) + held(e) + held(f) + held(g));
}

proof fn lemma_leaves_of_leaves(s: Seq<CommentedTokenV>)
    ensures
        leaves_of(s.map_values(|t: CommentedTokenV| Cst::Leaf(t))) == s,
    decreases s.len(),
{
    let m = s.map_values(|t: CommentedTokenV| Cst::Leaf(t));
    if s.len() > 0 {
        lemma_leaves_of_leaves(s.drop_first());
        assert(m.drop_first() =~= s.drop_first().map_values(|t: CommentedTokenV| Cst::Leaf(t)));
        assert(leaves(m[0]) == seq![s[0]]);
        assert(s =~= seq![s[0]] + s.drop_first());
    } else {
        assert(m.len() == 0);
        assert(s =~= Seq::<CommentedTokenV>::empty());
    }
}

/// The tokens of a run of whole-line comments and newlines.
proof fn lemma_blank_run(toks: Seq<CommentedTokenV>, pos: int)
    requires
        0 <= pos,
    ensures
        forall|i: int|
            pos <= i < blank_end(toks, pos) ==> (#[trigger] toks[i].token is Newline
                || toks[i].token is Comment),
    decreases toks.len() - pos,
{
    if 0 <= pos < toks.len() && (toks[pos].token is Newline || toks[pos].token is Comment) {
        lemma_blank_run(toks, pos + 1);
    }
}

proof fn lemma_open_delim(toks: Seq<CommentedTokenV>, pos: int, kind: DelimKind)
    requires
        0 <= pos,
    ensures
        reads(toks, pos, open_delim(toks, pos, kind)),
        reads(toks, pos, close_delim(toks, pos, kind)),
{
    if pos < toks.len() {
        lemma_leaf(toks, pos);
        lemma_held_1(leaf(toks, pos));
        if pos + 1 < toks.len() {
            lemma_leaf(toks, pos + 1);
            lemma_held_2(leaf(toks, pos), leaf(toks, pos + 1));
            lemma_split(toks, pos, pos + 1, pos + 2);
        }
    }
}

/// A keyword or token read as a node of one leaf.
proof fn lemma_single(toks: Seq<CommentedTokenV>, pos: int, k: NodeKind)
    requires
        0 <= pos < toks.len(),
        !(k is Newline),
        !(k is Whitespace),
    ensures
        held(node(k, seq![leaf(toks, pos)])) == span(toks, pos, pos + 1),
        clean(node(k, seq![leaf(toks, pos)])) == clean(leaf(toks, pos)),
{
    lemma_leaf(toks, pos);
    lemma_held_1(leaf(toks, pos));
    assert(seq![leaf(toks, pos)][0] == leaf(toks, pos));
}

#[verifier::spinoff_prover]
proof fn lemma_term_expr(toks: Seq<CommentedTokenV>, pos: int)
    requires
        0 <= pos,
    ensures
        reads(toks, pos, term_expr(toks, pos)),
    decreases toks.len() - pos, 2nat,
{
    reveal_with_fuel(term_expr, 1);
    if pos < toks.len() {
        let t = toks[pos].token;
        if t is For {
            lemma_for(toks, pos);
        } else if t is While {
            lemma_while(toks, pos);
        } else if t is Repeat {
            lemma_repeat(toks, pos);
        } else if t is Function {
            lemma_function_def(toks, pos);
        } else if t is Lambda {
            lemma_lambda(toks, pos);
        } else if t is If {
            lemma_if_expression(toks, pos);
        } else if t is Break || t is Continue || t is Symbol || t is Literal {
            lemma_single(toks, pos, NodeKind::Break);
            lemma_single(toks, pos, NodeKind::Continue);
            lemma_single(toks, pos, NodeKind::Symbol);
            lemma_single(toks, pos, NodeKind::Literal);
        } else if t is LParen || t is LBrace {
            let p1 = skip_newlines(toks, pos + 1);
            lemma_leaf(toks, pos);
            lemma_gap(toks, pos, pos + 1);
            lemma_split(toks, pos, pos + 1, p1);
            if t is LParen {
                lemma_expr(toks, p1);
                let (p2, inner) = match after(toks, expr(toks, p1), p1 + 1) {
                    Some((k, c)) => (k, seq![c]),
                    None => (p1, Seq::<Cst>::empty()),
                };
                match after(toks, expr(toks, p1), p1 + 1) {
                    Some((k, c)) => {
                        lemma_held_1(c);
                    },
                    None => {
                        lemma_held_nil();
                        lemma_span_empty(toks, p1);
                    },
                }
                assert(held_all(inner) == span(toks, p1, p2));
                let p3 = skip_newlines(toks, p2);
                lemma_gap(toks, p1, p2);
                if token_is(toks, p3, |t: TokenV| t is RParen) {
                    lemma_leaf(toks, p3);
                    lemma_held_3(leaf(toks, pos), node(NodeKind::List, inner), leaf(toks, p3));
                    if no_comments(toks) && plain_newlines(toks) {
                        match after(toks, expr(toks, p1), p1 + 1) {
                            Some((k, c)) => {
                                assert(inner[0] == c);
                            },
                            None => {},
                        }
                        assert(clean(node(NodeKind::List, inner)));
                    }
                    lemma_split(toks, pos, p1, p3);
                    lemma_split(toks, pos, p3, p3 + 1);
                    assert(span(toks, p1, p3) == held_all(inner));
                }
            } else {
                lemma_statements(toks, p1);
                let (p2, stmts) = statements(toks, p1);
                let p3 = skip_newlines(toks, p2);
                lemma_gap(toks, p1, p2);
                if token_is(toks, p3, |t: TokenV| t is RBrace) {
                    lemma_leaf(toks, p3);
                    lemma_held_3(leaf(toks, pos), node(NodeKind::List, stmts), leaf(toks, p3));
                    assert(all_clean(stmts) ==> clean(node(NodeKind::List, stmts)));
                    lemma_split(toks, pos, p1, p3);
                    lemma_split(toks, pos, p3, p3 + 1);
                }
            }
        }
    }
}

#[verifier::spinoff_prover]
proof fn lemma_for(toks: Seq<CommentedTokenV>, pos: int)
    requires
        0 <= pos,
    ensures
        reads(toks, pos, for_loop_expression(toks, pos)),
    decreases toks.len() - pos, 0nat,
{
    reveal_with_fuel(for_loop_expression, 1);
    if pos < toks.len() && toks[pos].token is For {
        let p1 = skip_newlines(toks, pos + 1);
        lemma_leaf(toks, pos);
        lemma_gap(toks, pos, pos + 1);
        if token_is(toks, p1, |t: TokenV| t is LParen) {
            let p2 = skip_newlines(toks, p1 + 1);
            lemma_leaf(toks, p1);
            lemma_held_1(leaf(toks, p1));
            lemma_split(toks, pos, pos + 1, p1);
            lemma_split(toks, pos, p1, p1 + 1);
            lemma_gap(toks, pos, p1 + 1);
            lemma_expr(toks, p2);
            match after(toks, expr(toks, p2), p2 + 1) {
                None => {},
                Some((p3, identifier)) => {
                    let p4 = skip_newlines(toks, p3);
                    lemma_split(toks, pos, p2, p3);
                    lemma_gap(toks, pos, p3);
                    if token_is(toks, p4, |t: TokenV| t is In) {
                        let p5 = skip_newlines(toks, p4 + 1);
                        lemma_leaf(toks, p4);
                        lemma_split(toks, pos, p4, p4 + 1);
                        lemma_gap(toks, pos, p4 + 1);
                        lemma_expr(toks, p5);
                        match after(toks, expr(toks, p5), p5 + 1) {
                            None => {},
                            Some((p6, collection)) => {
                                let p7 = skip_newlines(toks, p6);
                                lemma_split(toks, pos, p5, p6);
                                lemma_gap(toks, pos, p6);
                                if token_is(toks, p7, |t: TokenV| t is RParen) {
                                    let p8 = skip_newlines(toks, p7 + 1);
                                    lemma_leaf(toks, p7);
                                    lemma_held_1(leaf(toks, p7));
                                    lemma_split(toks, pos, p7, p7 + 1);
                                    lemma_gap(toks, pos, p7 + 1);
                                    lemma_expr(toks, p8);
                                    match after(toks, expr(toks, p8), p8 + 1) {
                                        None => {},
                                        Some((p9, body)) => {
                                            lemma_split(toks, pos, p8, p9);
                                            assert(clean(node(NodeKind::Paren, seq![leaf(toks, p1)])));
                                            assert(clean(node(NodeKind::Paren, seq![leaf(toks, p7)])));
                                            lemma_held_7(
                                                leaf(toks, pos),
                                                node(NodeKind::Paren, seq![leaf(toks, p1)]),
                                                identifier,
                                                leaf(toks, p4),
                                                collection,
                                                node(NodeKind::Paren, seq![leaf(toks, p7)]),
                                                body,
                                            );
                                        },
                                    }
                                }
                            },
                        }
                    }
                },
            }
        }
    }
}

#[verifier::spinoff_prover]
proof fn lemma_while(toks: Seq<CommentedTokenV>, pos: int)
    requires
        0 <= pos,
    ensures
        reads(toks, pos, while_expression(toks, pos)),
    decreases toks.len() - pos, 0nat,
{
    reveal_with_fuel(while_expression, 1);
    if pos < toks.len() && toks[pos].token is While {
        let p1 = skip_newlines(toks, pos + 1);
        lemma_leaf(toks, pos);
        lemma_gap(toks, pos, pos + 1);
        lemma_expr(toks, p1);
        match after(toks, expr(toks, p1), p1 + 1) {
            None => {},
            Some((p2, condition)) => {
                let p3 = skip_newlines(toks, p2);
                lemma_split(toks, pos, p1, p2);
                lemma_gap(toks, pos, p2);
                lemma_expr(toks, p3);
                match after(toks, expr(toks, p3), p3 + 1) {
                    None => {},
                    Some((p4, body)) => {
                        lemma_split(toks, pos, p3, p4);
                        lemma_held_3(leaf(toks, pos), condition, body);
                    },
                }
            },
        }
    }
}

#[verifier::spinoff_prover]
proof fn lemma_repeat(toks: Seq<CommentedTokenV>, pos: int)
    requires
        0 <= pos,
    ensures
        reads(toks, pos, repeat_expression(toks, pos)),
    decreases toks.len() - pos, 0nat,
{
    reveal_with_fuel(repeat_expression, 1);
    if pos < toks.len() && toks[pos].token is Repeat {
        let p1 = skip_newlines(toks, pos + 1);
        lemma_leaf(toks, pos);
        lemma_gap(toks, pos, pos + 1);
        lemma_expr(toks, p1);
        match after(toks, expr(toks, p1), p1 + 1) {
            None => {},
            Some((p2, body)) => {
                lemma_split(toks, pos, p1, p2);
                lemma_held_2(leaf(toks, pos), body);
            },
        }
    }
}

#[verifier::spinoff_prover]
proof fn lemma_function_def(toks: Seq<CommentedTokenV>, pos: int)
    requires
        0 <= pos,
    ensures
        reads(toks, pos, function_def(toks, pos)),
    decreases toks.len() - pos, 0nat,
{
    reveal_with_fuel(function_def, 1);
    if pos < toks.len() && toks[pos].token is Function {
        let p1 = skip_newlines(toks, pos + 1);
        lemma_leaf(toks, pos);
        lemma_gap(toks, pos, pos + 1);
        lemma_delimited(toks, p1, DelimKind::Paren);
        match after(toks, delimited_comma_sep_exprs(toks, p1, DelimKind::Paren), p1 + 1) {
            None => {},
            Some((p2, args)) => {
                let p3 = skip_newlines(toks, p2);
                lemma_split(toks, pos, p1, p2);
                lemma_gap(toks, pos, p2);
                lemma_expr(toks, p3);
                match after(toks, expr(toks, p3), p3 + 1) {
                    None => {},
                    Some((p4, body)) => {
                        lemma_split(toks, pos, p3, p4);
                        lemma_held_3(leaf(toks, pos), args, body);
                    },
                }
            },
        }
    }
}

#[verifier::spinoff_prover]
proof fn lemma_lambda(toks: Seq<CommentedTokenV>, pos: int)
    requires
        0 <= pos,
    ensures
        reads(toks, pos, lambda_function(toks, pos)),
    decreases toks.len() - pos, 0nat,
{
    reveal_with_fuel(lambda_function, 1);
    if pos < toks.len() && toks[pos].token is Lambda {
        let p1 = skip_newlines(toks, pos + 1);
        lemma_leaf(toks, pos);
        lemma_gap(toks, pos, pos + 1);
        lemma_delimited(toks, p1, DelimKind::Paren);
        match after(toks, delimited_comma_sep_exprs(toks, p1, DelimKind::Paren), p1 + 1) {
            None => {},
            Some((p2, args)) => {
                let p3 = skip_newlines(toks, p2);
                lemma_split(toks, pos, p1, p2);
                lemma_gap(toks, pos, p2);
                lemma_statement_or_expr(toks, p3);
                match after(toks, statement_or_expr(toks, p3), p3 + 1) {
                    None => {},
                    Some((p4, body)) => {
                        lemma_split(toks, pos, p3, p4);
                        lemma_held_3(leaf(toks, pos), args, body);
                    },
                }
            },
        }
    }
}

#[verifier::spinoff_prover]
proof fn lemma_if_conditional(toks: Seq<CommentedTokenV>, pos: int)
    requires
        0 <= pos,
    ensures
        reads(toks, pos, if_conditional(toks, pos)),
    decreases toks.len() - pos, 0nat,
{
    reveal_with_fuel(if_conditional, 1);
    if pos + 1 < toks.len() && toks[pos].token is If {
        lemma_leaf(toks, pos);
        lemma_leaf(toks, pos + 1);
        lemma_split(toks, pos, pos + 1, pos + 2);
        lemma_expr(toks, pos + 2);
        match after(toks, expr(toks, pos + 2), pos + 3) {
            None => {},
            Some((p1, condition)) => {
                lemma_split(toks, pos, pos + 2, p1);
                if token_is(toks, p1, |t: TokenV| t is RParen) {
                    lemma_leaf(toks, p1);
                    lemma_split(toks, pos, p1, p1 + 1);
                    lemma_expr(toks, p1 + 1);
                    match after(toks, expr(toks, p1 + 1), p1 + 2) {
                        None => {},
                        Some((p2, body)) => {
                            lemma_split(toks, pos, p1 + 1, p2);
                            lemma_held_5(
                                leaf(toks, pos),
                                leaf(toks, pos + 1),
                                condition,
                                leaf(toks, p1),
                                body,
                            );
                        },
                    }
                }
            },
        }
    }
}

#[verifier::spinoff_prover]
proof fn lemma_else_ifs(toks: Seq<CommentedTokenV>, pos: int)
    requires
        0 <= pos <= toks.len(),
    ensures
        pos <= else_ifs(toks, pos).0 <= toks.len(),
        held_all(else_ifs(toks, pos).1) == span(toks, pos, else_ifs(toks, pos).0),
        no_comments(toks) && plain_newlines(toks) ==> all_clean(else_ifs(toks, pos).1),
    decreases toks.len() - pos, 0nat,
{
    reveal_with_fuel(else_ifs, 1);
    lemma_held_nil();
    lemma_span_empty(toks, pos);
    if pos < toks.len() && toks[pos].token is Else {
        lemma_if_conditional(toks, pos + 1);
        match after(toks, if_conditional(toks, pos + 1), pos + 2) {
            None => {},
            Some((p1, conditional)) => {
                lemma_else_ifs(toks, p1);
                let (p2, rest) = else_ifs(toks, p1);
                lemma_leaf(toks, pos);
                lemma_held_2(leaf(toks, pos), conditional);
                lemma_held_cons(node(NodeKind::ElseIf, seq![leaf(toks, pos), conditional]), rest);
                lemma_split(toks, pos, pos + 1, p1);
                lemma_split(toks, pos, p1, p2);
            },
        }
    }
}

#[verifier::spinoff_prover]
proof fn lemma_trailing_else(toks: Seq<CommentedTokenV>, pos: int)
    requires
        0 <= pos,
    ensures
        reads(toks, pos, trailing_else(toks, pos)),
    decreases toks.len() - pos, 0nat,
{
    reveal_with_fuel(trailing_else, 1);
    if pos < toks.len() && toks[pos].token is Else {
        lemma_expr(toks, pos + 1);
        match after(toks, expr(toks, pos + 1), pos + 2) {
            None => {},
            Some((p1, body)) => {
                lemma_leaf(toks, pos);
                lemma_held_2(leaf(toks, pos), body);
                lemma_split(toks, pos, pos + 1, p1);
            },
        }
    }
}

#[verifier::spinoff_prover]
proof fn lemma_if_expression(toks: Seq<CommentedTokenV>, pos: int)
    requires
        0 <= pos,
    ensures
        reads(toks, pos, if_expression(toks, pos)),
    decreases toks.len() - pos, 1nat,
{
    reveal_with_fuel(if_expression, 1);
    if pos < toks.len() {
        lemma_if_conditional(toks, pos);
        match after(toks, if_conditional(toks, pos), pos + 1) {
            None => {},
            Some((p1, conditional)) => {
                lemma_else_ifs(toks, p1);
                let (p2, elses) = else_ifs(toks, p1);
                lemma_trailing_else(toks, p2);
                lemma_held_nil();
                lemma_span_empty(toks, p2);
                let (p3, trailing) = match after(toks, trailing_else(toks, p2), p2 + 1) {
                    Some((k, c)) => (k, c),
                    None => (p2, absent()),
                };
                lemma_held_3(conditional, node(NodeKind::List, elses), trailing);
                assert(all_clean(elses) ==> clean(node(NodeKind::List, elses)));
                assert(clean(absent()));
                lemma_split(toks, pos, p1, p2);
                lemma_split(toks, pos, p2, p3);
            },
        }
    }
}

#[verifier::spinoff_prover]
proof fn lemma_args_rest(toks: Seq<CommentedTokenV>, pos: int, prev: Cst)
    requires
        0 <= pos <= toks.len(),
    ensures
        pos <= args_rest(toks, pos, prev).0 <= toks.len(),
        held_all(args_rest(toks, pos, prev).1) == held(prev) + span(
            toks,
            pos,
            args_rest(toks, pos, prev).0,
        ),
        no_comments(toks) && plain_newlines(toks) && clean(prev) ==> all_clean(args_rest(toks, pos, prev).1),
    decreases toks.len() - pos, 0nat,
{
    reveal_with_fuel(args_rest, 1);
    lemma_held_nil();
    lemma_span_empty(toks, pos);
    lemma_held_2(prev, absent());
    lemma_held_1(node(NodeKind::Arg, seq![prev, absent()]));
    assert(held(prev) + Seq::<CommentedTokenV>::empty() =~= held(prev));
    assert(clean(absent()));
    assert(clean(prev) ==> clean(node(NodeKind::Arg, seq![prev, absent()])));
    assert(clean(prev) ==> all_clean(seq![node(NodeKind::Arg, seq![prev, absent()])]));
    if pos < toks.len() && toks[pos].token is Comma {
        let p1 = skip_newlines(toks, pos + 1);
        lemma_leaf(toks, pos);
        lemma_gap(toks, pos, pos + 1);
        lemma_expr(toks, p1);
        match after(toks, expr(toks, p1), p1 + 1) {
            None => {},
            Some((p2, x)) => {
                let p3 = skip_newlines(toks, p2);
                lemma_split(toks, pos, p1, p2);
                lemma_gap(toks, pos, p2);
                lemma_args_rest(toks, p3, x);
                let (p4, rest) = args_rest(toks, p3, x);
                lemma_split(toks, pos, p3, p4);
                lemma_held_1(leaf(toks, pos));
                let comma = node(NodeKind::Literal, seq![leaf(toks, pos)]);
                lemma_held_2(prev, comma);
                lemma_held_cons(node(NodeKind::Arg, seq![prev, comma]), rest);
                if no_comments(toks) && plain_newlines(toks) && clean(prev) {
                    assert(clean(leaf(toks, pos)));
                    assert(clean(comma));
                    assert(clean(node(NodeKind::Arg, seq![prev, comma])));
                    let all = seq![node(NodeKind::Arg, seq![prev, comma])] + rest;
                    assert(all_clean(all)) by {
                        assert forall|i: int| 0 <= i < all.len() implies clean(#[trigger] all[i]) by {
                            if i > 0 {
                                assert(all[i] == rest[i - 1]);
                            }
                        }
                    }
                }
                assert(held_all(args_rest(toks, pos, prev).1) =~= held(prev) + span(toks, pos, p4));
            },
        }
    }
}

#[verifier::spinoff_prover]
proof fn lemma_delimited(toks: Seq<CommentedTokenV>, pos: int, kind: DelimKind)
    requires
        0 <= pos,
    ensures
        reads(toks, pos, delimited_comma_sep_exprs(toks, pos, kind)),
    decreases toks.len() - pos, 0nat,
{
    reveal_with_fuel(delimited_comma_sep_exprs, 1);
    if pos < toks.len() {
        lemma_open_delim(toks, pos, kind);
        match open_delim(toks, pos, kind) {
            None => {},
            Some((p1, ldelim)) => {
                let p2 = skip_newlines(toks, p1);
                lemma_gap(toks, pos, p1);
                lemma_expr(toks, p2);
                lemma_held_nil();
                lemma_span_empty(toks, p2);
                let (p3, args) = match after(toks, expr(toks, p2), p2 + 1) {
                    None => (p2, Seq::<Cst>::empty()),
                    Some((k, x0)) => args_rest(toks, k, x0),
                };
                match after(toks, expr(toks, p2), p2 + 1) {
                    None => {},
                    Some((k, x0)) => {
                        lemma_args_rest(toks, k, x0);
                        lemma_split(toks, p2, k, p3);
                    },
                }
                assert(held_all(args) == span(toks, p2, p3));
                let p4 = skip_newlines(toks, p3);
                lemma_gap(toks, p2, p3);
                lemma_open_delim(toks, p4, kind);
                match close_delim(toks, p4, kind) {
                    None => {},
                    Some((p5, rdelim)) => {
                        lemma_split(toks, pos, p2, p4);
                        lemma_split(toks, pos, p4, p5);
                        lemma_held_3(ldelim, node(NodeKind::List, args), rdelim);
                        assert(all_clean(args) ==> clean(node(NodeKind::List, args)));
                    },
                }
            },
        }
    }
}

#[verifier::spinoff_prover]
proof fn lemma_tails(toks: Seq<CommentedTokenV>, pos: int, acc: Cst)
    requires
        0 <= pos,
    ensures
        reads_on(toks, pos, acc, tails(toks, pos, acc)),
    decreases toks.len() - pos, 1nat,
{
    reveal_with_fuel(tails, 1);
    if pos <= toks.len() {
        lemma_span_empty(toks, pos);
        assert(held(acc) + Seq::<CommentedTokenV>::empty() =~= held(acc));
        lemma_delimited(toks, pos, DelimKind::Paren);
        lemma_delimited(toks, pos, DelimKind::DoubleBracket);
        lemma_delimited(toks, pos, DelimKind::SingleBracket);
        match after(toks, delimited_comma_sep_exprs(toks, pos, DelimKind::Paren), pos + 1) {
            Some((k, args)) => {
                let c = node(NodeKind::Call, seq![acc, args]);
                lemma_tails(toks, k, c);
                lemma_held_2(acc, args);
                match tails(toks, k, c) {
                    Some((k2, c2)) => {
                        lemma_split(toks, pos, k, k2);
                        assert(held(c2) =~= held(acc) + span(toks, pos, k2));
                    },
                    None => {},
                }
            },
            None => match after(
                toks,
                delimited_comma_sep_exprs(toks, pos, DelimKind::DoubleBracket),
                pos + 1,
            ) {
                Some((k, args)) => {
                    let c = node(NodeKind::Subset, seq![acc, args]);
                    lemma_tails(toks, k, c);
                    lemma_held_2(acc, args);
                    match tails(toks, k, c) {
                        Some((k2, c2)) => {
                            lemma_split(toks, pos, k, k2);
                            assert(held(c2) =~= held(acc) + span(toks, pos, k2));
                        },
                        None => {},
                    }
                },
                None => match after(
                    toks,
                    delimited_comma_sep_exprs(toks, pos, DelimKind::SingleBracket),
                    pos + 1,
                ) {
                    Some((k, args)) => {
                        let c = node(NodeKind::Subset, seq![acc, args]);
                        lemma_tails(toks, k, c);
                        lemma_held_2(acc, args);
                        match tails(toks, k, c) {
                            Some((k2, c2)) => {
                                lemma_split(toks, pos, k, k2);
                                assert(held(c2) =~= held(acc) + span(toks, pos, k2));
                            },
                            None => {},
                        }
                    },
                    None => {},
                },
            },
        }
    }
}

#[verifier::spinoff_prover]
proof fn lemma_atomic_term(toks: Seq<CommentedTokenV>, pos: int)
    requires
        0 <= pos,
    ensures
        reads(toks, pos, atomic_term(toks, pos)),
    decreases toks.len() - pos, 3nat,
{
    reveal_with_fuel(atomic_term, 1);
    lemma_term_expr(toks, pos);
    match after(toks, term_expr(toks, pos), pos + 1) {
        None => {},
        Some((k, term)) => {
            lemma_tails(toks, k, term);
            match tails(toks, k, term) {
                Some((k2, _)) => {
                    lemma_split(toks, pos, k, k2);
                },
                None => {},
            }
        },
    }
}

#[verifier::spinoff_prover]
proof fn lemma_unary_term(toks: Seq<CommentedTokenV>, pos: int)
    requires
        0 <= pos,
    ensures
        reads(toks, pos, unary_term(toks, pos)),
    decreases toks.len() - pos, 4nat,
{
    reveal_with_fuel(unary_term, 1);
    reveal(crate::grammar::is_unary_op);
    if pos < toks.len() {
        lemma_leaf(toks, pos);
        lemma_expr(toks, pos + 1);
        lemma_unary_term(toks, pos + 1);
        lemma_atomic_term(toks, pos);
        match after(toks, expr(toks, pos + 1), pos + 2) {
            Some((k, e)) => {
                lemma_held_2(leaf(toks, pos), e);
                lemma_split(toks, pos, pos + 1, k);
            },
            None => {},
        }
        match after(toks, unary_term(toks, pos + 1), pos + 2) {
            Some((k, e)) => {
                lemma_held_2(leaf(toks, pos), e);
                lemma_split(toks, pos, pos + 1, k);
            },
            None => {},
        }
    }
}

#[verifier::spinoff_prover]
proof fn lemma_climb(toks: Seq<CommentedTokenV>, pos: int, lhs: Cst, min_prec: int)
    requires
        0 <= pos,
    ensures
        reads_on(toks, pos, lhs, climb(toks, pos, lhs, min_prec)),
    decreases toks.len() - pos, 0nat,
{
    reveal_with_fuel(climb, 1);
    reveal(crate::grammar::is_binop);
    if pos < toks.len() {
        lemma_span_empty(toks, pos);
        assert(held(lhs) + Seq::<CommentedTokenV>::empty() =~= held(lhs));
        let op = toks[pos].token;
        let j = skip_newlines(toks, pos + 1);
        lemma_leaf(toks, pos);
        lemma_gap(toks, pos, pos + 1);
        if j < toks.len() {
            lemma_unary_term(toks, j);
            match after(toks, unary_term(toks, j), j + 1) {
                None => {},
                Some((k, rhs)) => {
                    lemma_climb_rhs(toks, k, rhs, op);
                    match after(toks, climb_rhs(toks, k, rhs, op), k) {
                        None => {},
                        Some((k2, rhs2)) => {
                            let b = node(NodeKind::Bop, seq![lhs, leaf(toks, pos), rhs2]);
                            lemma_climb(toks, k2, b, min_prec);
                            lemma_held_3(lhs, leaf(toks, pos), rhs2);
                            lemma_split(toks, pos, j, k);
                            lemma_split(toks, pos, k, k2);
                            match climb(toks, k2, b, min_prec) {
                                Some((k3, c3)) => {
                                    lemma_split(toks, pos, k2, k3);
                                    assert(held(b) =~= held(lhs) + span(toks, pos, pos + 1) + held(rhs2));
                                    assert(held(c3) =~= held(lhs) + span(toks, pos, k3));
                                },
                                None => {},
                            }
                        },
                    }
                },
            }
        }
    }
}

#[verifier::spinoff_prover]
proof fn lemma_climb_rhs(toks: Seq<CommentedTokenV>, pos: int, rhs: Cst, op: TokenV)
    requires
        0 <= pos,
    ensures
        reads_on(toks, pos, rhs, climb_rhs(toks, pos, rhs, op)),
    decreases toks.len() - pos, 1nat,
{
    reveal_with_fuel(climb_rhs, 1);
    if pos < toks.len() {
        lemma_span_empty(toks, pos);
        assert(held(rhs) + Seq::<CommentedTokenV>::empty() =~= held(rhs));
        let la = toks[pos].token;
        let q = crate::grammar::prec(op) + if crate::grammar::prec(la) > crate::grammar::prec(op) {
            1int
        } else {
            0int
        };
        lemma_climb(toks, pos, rhs, q);
        match after(toks, climb(toks, pos, rhs, q), pos + 1) {
            None => {},
            Some((k, r2)) => {
                lemma_climb_rhs(toks, k, r2, op);
                match climb_rhs(toks, k, r2, op) {
                    Some((k2, c2)) => {
                        lemma_split(toks, pos, k, k2);
                        assert(held(c2) =~= held(rhs) + span(toks, pos, k2));
                    },
                    None => {},
                }
            },
        }
    }
}

#[verifier::spinoff_prover]
proof fn lemma_expr(toks: Seq<CommentedTokenV>, pos: int)
    requires
        0 <= pos,
    ensures
        reads(toks, pos, expr(toks, pos)),
    decreases toks.len() - pos, 5nat,
{
    reveal_with_fuel(expr, 1);
    lemma_unary_term(toks, pos);
    match after(toks, unary_term(toks, pos), pos + 1) {
        None => {},
        Some((k, term)) => {
            if k < toks.len() {
                lemma_climb(toks, k, term, 0);
                match climb(toks, k, term, 0) {
                    Some((k2, _)) => {
                        lemma_split(toks, pos, k, k2);
                    },
                    None => {},
                }
            }
        },
    }
}

#[verifier::spinoff_prover]
proof fn lemma_statement_or_expr(toks: Seq<CommentedTokenV>, pos: int)
    requires
        0 <= pos,
    ensures
        reads(toks, pos, statement_or_expr(toks, pos)),
    decreases toks.len() - pos, 6nat,
{
    reveal_with_fuel(statement_or_expr, 1);
    lemma_expr(toks, pos);
    match after(toks, expr(toks, pos), pos + 1) {
        Some((k, e)) => {
            if k < toks.len() {
                lemma_leaf(toks, k);
                lemma_split(toks, pos, k, k + 1);
                assert(span(toks, pos, k) + Seq::<CommentedTokenV>::empty() =~= span(toks, pos, k));
            }
        },
        None => {
            if pos < toks.len() {
                lemma_blank_end(toks, pos);
                let k = blank_end(toks, pos);
                lemma_leaves_of_leaves(toks.subrange(pos, k));
                lemma_blank_run(toks, pos);
                let kids = toks.subrange(pos, k).map_values(|t: CommentedTokenV| Cst::Leaf(t));
                if no_comments(toks) && plain_newlines(toks) {
                    assert forall|i: int| 0 <= i < kids.len() implies (#[trigger] kids[i] is Leaf)
                        && kids[i]->Leaf_0.token is Newline && clean(kids[i]) by {
                        assert(kids[i] == Cst::Leaf(toks[pos + i]));
                        assert(toks[pos + i].token is Newline || toks[pos + i].token is Comment);
                    }
                    assert(clean(node(NodeKind::Whitespace, kids)));
                }
                lemma_single(toks, pos, NodeKind::EOF);
            }
        },
    }
}

#[verifier::spinoff_prover]
proof fn lemma_statements(toks: Seq<CommentedTokenV>, pos: int)
    requires
        0 <= pos <= toks.len(),
    ensures
        pos <= statements(toks, pos).0 <= toks.len(),
        held_all(statements(toks, pos).1) == span(toks, pos, statements(toks, pos).0),
        no_comments(toks) && plain_newlines(toks) ==> all_clean(statements(toks, pos).1),
    decreases toks.len() - pos, 7nat,
{
    reveal_with_fuel(statements, 1);
    lemma_held_nil();
    lemma_span_empty(toks, pos);
    lemma_statement_or_expr(toks, pos);
    match after(toks, statement_or_expr(toks, pos), pos + 1) {
        None => {},
        Some((k, s)) => {
            lemma_statements(toks, k);
            let (k2, rest) = statements(toks, k);
            lemma_held_cons(s, rest);
            lemma_split(toks, pos, k, k2);
        },
    }
}

/// The parser keeps the tokens of a program: the statements that it reads from
/// `pos` hold, in order, every token from `pos` up to the `EOF` token that ends
/// the program, but the newlines that it skips and the semicolons that end
/// statements.
pub proof fn lemma_program_keeps_tokens(toks: Seq<CommentedTokenV>, pos: int)
    requires
        0 <= pos,
        program_from(toks, pos) is Some,
    ensures
        exists|k: int|
            pos < k <= toks.len() && toks[k - 1].token is EOF && #[trigger] held_all(
                program_from(toks, pos)->Some_0,
            ) == span(toks, pos, k),
    decreases toks.len() - pos,
{
    if toks[pos].token is EOF {
        lemma_single(toks, pos, NodeKind::EOF);
        lemma_held_1(node(NodeKind::EOF, seq![leaf(toks, pos)]));
        assert(held_all(program_from(toks, pos)->Some_0) == span(toks, pos, pos + 1));
    } else {
        lemma_statement_or_expr(toks, pos);
        let (k, s) = after(toks, statement_or_expr(toks, pos), pos + 1)->Some_0;
        lemma_program_keeps_tokens(toks, k);
        let rest = program_from(toks, k)->Some_0;
        let k2 = choose|k2: int|
            k < k2 <= toks.len() && toks[k2 - 1].token is EOF && #[trigger] held_all(rest) == span(
                toks,
                k,
                k2,
            );
        lemma_held_cons(s, rest);
        lemma_split(toks, pos, k, k2);
        assert(program_from(toks, pos)->Some_0 == seq![s] + rest);
        assert(held_all(program_from(toks, pos)->Some_0) == span(toks, pos, k2));
    }
}

/// The statements read from tokens with no whole-line comment are clean trees.
pub proof fn lemma_program_clean(toks: Seq<CommentedTokenV>, pos: int)
    requires
        0 <= pos,
        program_from(toks, pos) is Some,
        no_comments(toks),
        plain_newlines(toks),
    ensures
        all_clean(program_from(toks, pos)->Some_0),
    decreases toks.len() - pos,
{
    let cs = program_from(toks, pos)->Some_0;
    if toks[pos].token is EOF {
        lemma_single(toks, pos, NodeKind::EOF);
        lemma_leaf(toks, pos);
        assert(cs == seq![node(NodeKind::EOF, seq![leaf(toks, pos)])]);
        assert(all_clean(cs)) by {
            assert forall|i: int| 0 <= i < cs.len() implies clean(#[trigger] cs[i]) by {
                assert(i == 0);
            }
        }
    } else {
        lemma_statement_or_expr(toks, pos);
        let (k, s) = after(toks, statement_or_expr(toks, pos), pos + 1)->Some_0;
        lemma_program_clean(toks, k);
        let rest = program_from(toks, k)->Some_0;
        assert(cs == seq![s] + rest);
        assert(all_clean(cs)) by {
            assert forall|i: int| 0 <= i < cs.len() implies clean(#[trigger] cs[i]) by {
                if i > 0 {
                    assert(cs[i] == rest[i - 1]);
                }
            }
        }
    }
}

/// Squeezing the comments into the tokens leaves no whole-line comment among them.
pub proof fn lemma_squeeze_no_comments(
    toks: Seq<CommentedTokenV>,
    it: int,
    out: Seq<CommentedTokenV>,
    last_kept: bool,
)
    requires
        no_comments(out),
        squeeze_from(toks, it, out, last_kept) is Some,
    ensures
        no_comments(squeeze_from(toks, it, out, last_kept)->Some_0),
    decreases toks.len() - it,
{
    if 0 <= it < toks.len() {
        if toks[it].token is Comment {
            let c0 = seq![toks[it].token->Comment_0];
            lemma_comment_run(toks, it + 1, c0);
            let (j, comments) = comment_run(toks, it + 1, c0)->Some_0;
            let out2 = out.push(with_leading(toks[j], comments));
            assert(no_comments(out2)) by {
                assert forall|i: int| 0 <= i < out2.len() implies !(#[trigger] out2[i].token is Comment) by {
                    if i < out.len() {
                        assert(out2[i] == out[i]);
                    }
                }
            }
            lemma_squeeze_no_comments(toks, j + 1, out2, true);
        } else if toks[it].token is InlineComment {
            if it != 0 {
                if last_kept && out.len() > 0 {
                    let out2 = out.drop_last().push(
                        with_inline(out.last(), toks[it].token->InlineComment_0),
                    );
                    assert(no_comments(out2)) by {
                        assert forall|i: int| 0 <= i < out2.len() implies !(
                        #[trigger] out2[i].token is Comment) by {
                            if i < out.len() - 1 {
                                assert(out2[i] == out[i]);
                            } else {
                                assert(out2[i].token == out[out.len() - 1].token);
                            }
                        }
                    }
                    lemma_squeeze_no_comments(toks, it + 1, out2, false);
                } else {
                    lemma_squeeze_no_comments(toks, it + 1, out, false);
                }
            }
        } else {
            let out2 = out.push(toks[it]);
            assert(no_comments(out2)) by {
                assert forall|i: int| 0 <= i < out2.len() implies !(#[trigger] out2[i].token is Comment) by {
                    if i < out.len() {
                        assert(out2[i] == out[i]);
                    }
                }
            }
            lemma_squeeze_no_comments(toks, it + 1, out2, true);
        }
    }
}

/// No inline comment comes right after a newline.
pub open spec fn inline_after_tokens(toks: Seq<CommentedTokenV>) -> bool {
    forall|i: int|
        0 < i < toks.len() && #[trigger] toks[i].token is InlineComment ==> !(toks[i
            - 1].token is Newline)
}

/// Squeezing the comments into the tokens attaches none to a newline.
pub proof fn lemma_squeeze_plain_newlines(
    toks: Seq<CommentedTokenV>,
    it: int,
    out: Seq<CommentedTokenV>,
    last_kept: bool,
)
    requires
        plain_newlines(toks),
        inline_after_tokens(toks),
        plain_newlines(out),
        last_kept ==> 0 < it <= toks.len() && out.len() > 0 && out.last().token == toks[it
            - 1].token,
        squeeze_from(toks, it, out, last_kept) is Some,
    ensures
        plain_newlines(squeeze_from(toks, it, out, last_kept)->Some_0),
    decreases toks.len() - it,
{
    if 0 <= it < toks.len() {
        if toks[it].token is Comment {
            let c0 = seq![toks[it].token->Comment_0];
            lemma_comment_run(toks, it + 1, c0);
            let (j, comments) = comment_run(toks, it + 1, c0)->Some_0;
            let out2 = out.push(with_leading(toks[j], comments));
            assert(plain_newlines(out2)) by {
                assert forall|i: int| 0 <= i < out2.len() && #[trigger] out2[i].token is Newline implies out2[i].leading_comments is None
                    && out2[i].inline_comment is None by {
                    assert(i < out.len());
                    assert(out2[i] == out[i]);
                }
            }
            lemma_squeeze_plain_newlines(toks, j + 1, out2, true);
        } else if toks[it].token is InlineComment {
            if it != 0 {
                if last_kept && out.len() > 0 {
                    let out2 = out.drop_last().push(
                        with_inline(out.last(), toks[it].token->InlineComment_0),
                    );
                    assert(!(toks[it - 1].token is Newline));
                    assert(plain_newlines(out2)) by {
                        assert forall|i: int| 0 <= i < out2.len() && #[trigger] out2[i].token is Newline implies out2[i].leading_comments
                            is None && out2[i].inline_comment is None by {
                            assert(i < out.len() - 1);
                            assert(out2[i] == out[i]);
                        }
                    }
                    lemma_squeeze_plain_newlines(toks, it + 1, out2, false);
                } else {
                    lemma_squeeze_plain_newlines(toks, it + 1, out, false);
                }
            }
        } else {
            let out2 = out.push(toks[it]);
            assert(plain_newlines(out2)) by {
                assert forall|i: int| 0 <= i < out2.len() && #[trigger] out2[i].token is Newline implies out2[i].leading_comments
                    is None && out2[i].inline_comment is None by {
                    if i < out.len() {
                        assert(out2[i] == out[i]);
                    }
                }
            }
            lemma_squeeze_plain_newlines(toks, it + 1, out2, true);
        }
    }
}

/// A node of a binary operation: its left operand, its operator and its right operand.
pub open spec fn is_bop_node(c: Cst) -> bool {
    &&& c is Node
    &&& c->Node_0 is Bop
    &&& c->Node_1.len() == 3
    &&& c->Node_1[1] is Leaf
}

/// The operator of a binary operation node.
pub open spec fn top_op(c: Cst) -> TokenV {
    c->Node_1[1]->Leaf_0.token
}

/// The operator at the top of `r` binds tighter than `op`, or as tight where
/// it is right associative (where `r` is a binary operation).
pub open spec fn right_ok(op: TokenV, r: Cst) -> bool {
    is_bop_node(r) ==> prec(top_op(r)) > prec(op) || (prec(top_op(r)) == prec(op)
        && is_right_assoc(top_op(r)))
}

/// The operator at the top of `l` binds tighter than `op`, or as tight where
/// `op` is not right associative (where `l` is a binary operation).
pub open spec fn left_ok(l: Cst, op: TokenV) -> bool {
    is_bop_node(l) ==> prec(top_op(l)) > prec(op) || (prec(top_op(l)) == prec(op)
        && !is_right_assoc(op))
}

/// A tree of binary operations that respects the precedence and the
/// associativity of its operators: at each binary operation, the operations at
/// the top of its operands bind tighter than it, or as tight on the side that
/// its associativity puts them.
pub open spec fn shaped(c: Cst) -> bool
    decreases c,
{
    match c {
        Cst::Node(NodeKind::Bop, kids) => if kids.len() == 3 && kids[1] is Leaf {
            &&& shaped(kids[0])
            &&& shaped(kids[2])
            &&& left_ok(kids[0], kids[1]->Leaf_0.token)
            &&& right_ok(kids[1]->Leaf_0.token, kids[2])
        } else {
            true
        },
        _ => true,
    }
}

/// `climb_rhs` does not take the token at `pos` into the right operand of `op`.
pub open spec fn stops_rhs(toks: Seq<CommentedTokenV>, pos: int, op: TokenV) -> bool {
    !(0 <= pos < toks.len() && is_binop(toks[pos].token) && (prec(toks[pos].token) > prec(op) || (
    is_right_assoc(toks[pos].token) && prec(op) == prec(toks[pos].token))))
}

#[verifier::spinoff_prover]
proof fn lemma_right_assoc_class(x: TokenV, y: TokenV)
    requires
        is_binop(x),
        is_right_assoc(y),
        prec(x) == prec(y),
    ensures
        is_right_assoc(x),
{
    reveal(is_binop);
    reveal(prec);
    reveal(is_right_assoc);
}

#[verifier::spinoff_prover]
proof fn lemma_climb_shape(toks: Seq<CommentedTokenV>, pos: int, lhs: Cst, min_prec: int)
    requires
        0 <= pos <= toks.len(),
        shaped(lhs),
        is_bop_node(lhs) ==> stops_rhs(toks, pos, top_op(lhs)),
    ensures
        climb(toks, pos, lhs, min_prec) matches Some((k, c)) ==> {
            &&& shaped(c)
            &&& c == lhs || (is_bop_node(c) && is_binop(top_op(c)) && prec(top_op(c)) >= min_prec)
            &&& is_bop_node(c) ==> stops_rhs(toks, k, top_op(c))
        },
    decreases toks.len() - pos, 0nat,
{
    reveal_with_fuel(climb, 1);
    if 0 <= pos < toks.len() {
        let op = toks[pos].token;
        if is_binop(op) && prec(op) >= min_prec {
            let j = skip_newlines(toks, pos + 1);
            lemma_skip_newlines(toks, pos + 1);
            if j < toks.len() {
                lemma_unary_term_not_bop(toks, j);
                match after(toks, unary_term(toks, j), j + 1) {
                    None => {},
                    Some((k, rhs)) => {
                        lemma_climb_rhs_shape(toks, k, rhs, op);
                        match after(toks, climb_rhs(toks, k, rhs, op), k) {
                            None => {},
                            Some((k2, rhs2)) => {
                                let b = node(NodeKind::Bop, seq![lhs, leaf(toks, pos), rhs2]);
                                assert(b->Node_1[1] == leaf(toks, pos));
                                assert(top_op(b) == op);
                                assert(b->Node_1[0] == lhs);
                                assert(b->Node_1[2] == rhs2);
                                assert(left_ok(lhs, op));
                                assert(shaped(b));
                                lemma_climb_shape(toks, k2, b, min_prec);
                            },
                        }
                    },
                }
            }
        }
    }
}

#[verifier::spinoff_prover]
proof fn lemma_climb_rhs_shape(toks: Seq<CommentedTokenV>, pos: int, rhs: Cst, op: TokenV)
    requires
        0 <= pos <= toks.len(),
        shaped(rhs),
        right_ok(op, rhs),
        is_bop_node(rhs) ==> stops_rhs(toks, pos, top_op(rhs)),
    ensures
        climb_rhs(toks, pos, rhs, op) matches Some((k, r)) ==> shaped(r) && right_ok(op, r)
            && stops_rhs(toks, k, op),
    decreases toks.len() - pos, 1nat,
{
    reveal_with_fuel(climb_rhs, 1);
    if 0 <= pos < toks.len() {
        let la = toks[pos].token;
        if is_binop(la) && (prec(la) > prec(op) || (is_right_assoc(la) && prec(op) == prec(la))) {
            let q = prec(op) + if prec(la) > prec(op) {
                1int
            } else {
                0int
            };
            lemma_climb_shape(toks, pos, rhs, q);
            match after(toks, climb(toks, pos, rhs, q), pos + 1) {
                None => {},
                Some((k, r2)) => {
                    if r2 != rhs && prec(top_op(r2)) == prec(op) {
                        lemma_right_assoc_class(top_op(r2), la);
                    }
                    lemma_climb_rhs_shape(toks, k, r2, op);
                },
            }
        }
    }
}

#[verifier::spinoff_prover]
proof fn lemma_tails_not_bop(toks: Seq<CommentedTokenV>, pos: int, acc: Cst)
    requires
        0 <= pos,
        !is_bop_node(acc),
    ensures
        tails(toks, pos, acc) matches Some((_, c)) ==> !is_bop_node(c),
    decreases toks.len() - pos,
{
    reveal_with_fuel(tails, 1);
    if pos <= toks.len() {
        match after(toks, delimited_comma_sep_exprs(toks, pos, DelimKind::Paren), pos + 1) {
            Some((k, args)) => {
                assert(tails(toks, pos, acc) == tails(toks, k, node(NodeKind::Call, seq![acc, args])));
                lemma_tails_not_bop(toks, k, node(NodeKind::Call, seq![acc, args]));
            },
            None => match after(toks, 
                delimited_comma_sep_exprs(toks, pos, DelimKind::DoubleBracket),
                pos + 1,
            ) {
                Some((k, args)) => lemma_tails_not_bop(toks, k, node(NodeKind::Subset, seq![acc, args])),
                None => match after(toks, 
                    delimited_comma_sep_exprs(toks, pos, DelimKind::SingleBracket),
                    pos + 1,
                ) {
                    Some((k, args)) => lemma_tails_not_bop(toks, k, node(NodeKind::Subset, seq![acc, args])),
                    None => {},
                },
            },
        }
    }
}

#[verifier::spinoff_prover]
proof fn lemma_term_expr_not_bop(toks: Seq<CommentedTokenV>, pos: int)
    requires
        0 <= pos <= toks.len(),
    ensures
        term_expr(toks, pos) matches Some((_, c)) ==> !is_bop_node(c),
{
    reveal_with_fuel(term_expr, 1);
    reveal_with_fuel(for_loop_expression, 1);
    reveal_with_fuel(while_expression, 1);
    reveal_with_fuel(repeat_expression, 1);
    reveal_with_fuel(function_def, 1);
    reveal_with_fuel(lambda_function, 1);
    reveal_with_fuel(if_expression, 1);
}

#[verifier::spinoff_prover]
proof fn lemma_unary_term_not_bop(toks: Seq<CommentedTokenV>, pos: int)
    requires
        0 <= pos <= toks.len(),
    ensures
        unary_term(toks, pos) matches Some((_, c)) ==> !is_bop_node(c),
{
    reveal_with_fuel(unary_term, 1);
    lemma_atomic_term_not_bop(toks, pos);
}

#[verifier::spinoff_prover]
proof fn lemma_atomic_term_not_bop(toks: Seq<CommentedTokenV>, pos: int)
    requires
        0 <= pos <= toks.len(),
    ensures
        atomic_term(toks, pos) matches Some((_, c)) ==> !is_bop_node(c),
{
    reveal_with_fuel(atomic_term, 1);
    lemma_term_expr_not_bop(toks, pos);
    match after(toks, term_expr(toks, pos), pos + 1) {
        None => {},
        Some((k, term)) => {
            assert(!is_bop_node(term));
            lemma_tails_not_bop(toks, k, term);
            assert(atomic_term(toks, pos) == tails(toks, k, term));
        },
    }
}

/// An expression that the parser reads groups its binary operations by their
/// precedence and associativity: at each binary operation, the operations at
/// the top of its operands bind tighter than it, or as tight on the side that
/// its associativity puts them.
#[verifier::spinoff_prover]
pub proof fn lemma_expr_shaped(toks: Seq<CommentedTokenV>, pos: int)
    requires
        0 <= pos <= toks.len(),
    ensures
        expr(toks, pos) matches Some((_, c)) ==> shaped(c),
{
    reveal_with_fuel(expr, 1);
    lemma_unary_term_not_bop(toks, pos);
    match after(toks, unary_term(toks, pos), pos + 1) {
        None => {},
        Some((k, term)) => {
            if k < toks.len() {
                lemma_climb_shape(toks, k, term, 0);
            }
        },
    }
}

/// Addition and subtraction.
pub open spec fn is_additive(t: TokenV) -> bool {
    t is Plus || t is Minus
}

/// Multiplication and division.
pub open spec fn is_multiplicative(t: TokenV) -> bool {
    t is Multiply || t is Divide
}

/// No sum or difference stands, without parentheses, as an operand of a
/// product or a quotient.
pub open spec fn products_over_sums(c: Cst) -> bool
    decreases c,
{
    match c {
        Cst::Node(NodeKind::Bop, kids) => if kids.len() == 3 && kids[1] is Leaf {
            &&& products_over_sums(kids[0])
            &&& products_over_sums(kids[2])
            &&& is_multiplicative(kids[1]->Leaf_0.token) ==> !(is_bop_node(kids[0]) && is_additive(
                top_op(kids[0]),
            )) && !(is_bop_node(kids[2]) && is_additive(top_op(kids[2])))
        } else {
            true
        },
        _ => true,
    }
}

#[verifier::spinoff_prover]
proof fn lemma_shaped_products_over_sums(c: Cst)
    requires
        shaped(c),
    ensures
        products_over_sums(c),
    decreases c,
{
    reveal(prec);
    match c {
        Cst::Node(NodeKind::Bop, kids) => if kids.len() == 3 && kids[1] is Leaf {
            lemma_shaped_products_over_sums(kids[0]);
            lemma_shaped_products_over_sums(kids[2]);
        },
        _ => {},
    }
}

/// Products and quotients bind tighter than sums and differences: in an
/// expression that the parser reads, no sum or difference is an operand of a
/// product or a quotient unless it stands in parentheses (`a + b * c` is a
/// sum whose right operand is the product).
#[verifier::spinoff_prover]
pub proof fn lemma_products_bind_tighter_than_sums(toks: Seq<CommentedTokenV>, pos: int)
    requires
        0 <= pos <= toks.len(),
    ensures
        expr(toks, pos) matches Some((_, c)) ==> products_over_sums(c),
{
    lemma_expr_shaped(toks, pos);
    match expr(toks, pos) {
        Some((_, c)) => lemma_shaped_products_over_sums(c),
        None => {},
    }
}

/// No binary operation of the tree has, without parentheses, an operation as
/// an operand that `bad` forbids there: `bad(op, operand_op, is_left)`.
pub open spec fn no_operand(c: Cst, bad: spec_fn(TokenV, TokenV, bool) -> bool) -> bool
    decreases c,
{
    match c {
        Cst::Node(NodeKind::Bop, kids) => if kids.len() == 3 && kids[1] is Leaf {
            &&& no_operand(kids[0], bad)
            &&& no_operand(kids[2], bad)
            &&& !(is_bop_node(kids[0]) && bad(kids[1]->Leaf_0.token, top_op(kids[0]), true))
            &&& !(is_bop_node(kids[2]) && bad(kids[1]->Leaf_0.token, top_op(kids[2]), false))
        } else {
            true
        },
        _ => true,
    }
}

/// Whether an operation on `child` may stand as an operand of one on `parent`
/// in a tree that respects precedence and associativity.
pub open spec fn may_stand_under(parent: TokenV, child: TokenV, left: bool) -> bool {
    if left {
        prec(child) > prec(parent) || (prec(child) == prec(parent) && !is_right_assoc(parent))
    } else {
        prec(child) > prec(parent) || (prec(child) == prec(parent) && is_right_assoc(child))
    }
}

#[verifier::spinoff_prover]
proof fn lemma_shaped_no_operand(c: Cst, bad: spec_fn(TokenV, TokenV, bool) -> bool)
    requires
        shaped(c),
        forall|p: TokenV, ch: TokenV, left: bool| #[trigger] bad(p, ch, left) ==> !may_stand_under(p, ch, left),
    ensures
        no_operand(c, bad),
    decreases c,
{
    match c {
        Cst::Node(NodeKind::Bop, kids) => if kids.len() == 3 && kids[1] is Leaf {
            lemma_shaped_no_operand(kids[0], bad);
            lemma_shaped_no_operand(kids[2], bad);
            let op = kids[1]->Leaf_0.token;
            if is_bop_node(kids[0]) {
                assert(may_stand_under(op, top_op(kids[0]), true));
            }
            if is_bop_node(kids[2]) {
                assert(may_stand_under(op, top_op(kids[2]), false));
            }
        },
        _ => {},
    }
}

#[verifier::spinoff_prover]
proof fn lemma_expr_no_operand(
    toks: Seq<CommentedTokenV>,
    pos: int,
    bad: spec_fn(TokenV, TokenV, bool) -> bool,
)
    requires
        0 <= pos <= toks.len(),
        forall|p: TokenV, ch: TokenV, left: bool| #[trigger] bad(p, ch, left) ==> !may_stand_under(p, ch, left),
    ensures
        expr(toks, pos) matches Some((_, c)) ==> no_operand(c, bad),
{
    lemma_expr_shaped(toks, pos);
    match expr(toks, pos) {
        Some((_, c)) => lemma_shaped_no_operand(c, bad),
        None => {},
    }
}

/// The arithmetic operators.
pub open spec fn is_arithmetic(t: TokenV) -> bool {
    is_additive(t) || is_multiplicative(t) || t is Power || t is Modulo || t is Special
}

/// The comparison operators.
pub open spec fn is_comparison(t: TokenV) -> bool {
    t is Equal || t is NotEqual || t is LowerThan || t is GreaterThan || t is LowerEqual
        || t is GreaterEqual
}

/// The logical operators.
pub open spec fn is_logical(t: TokenV) -> bool {
    t is And || t is VectorizedAnd || t is Or || t is VectorizedOr
}

/// Sums and differences associate to the left: in an expression that the
/// parser reads, no sum or difference is, without parentheses, the right
/// operand of a sum or difference (`a - b - c` is `(a - b) - c`).
#[verifier::spinoff_prover]
pub proof fn lemma_sums_associate_to_the_left(toks: Seq<CommentedTokenV>, pos: int)
    requires
        0 <= pos <= toks.len(),
    ensures
        expr(toks, pos) matches Some((_, c)) ==> no_operand(
            c,
            |p: TokenV, ch: TokenV, left: bool| is_additive(p) && is_additive(ch) && !left,
        ),
{
    reveal(prec);
    reveal(is_right_assoc);
    lemma_expr_no_operand(
        toks,
        pos,
        |p: TokenV, ch: TokenV, left: bool| is_additive(p) && is_additive(ch) && !left,
    );
}

/// Powers associate to the right: in an expression that the parser reads, no
/// power is, without parentheses, the left operand of a power (`a ^ b ^ c` is
/// `a ^ (b ^ c)`).
#[verifier::spinoff_prover]
pub proof fn lemma_powers_associate_to_the_right(toks: Seq<CommentedTokenV>, pos: int)
    requires
        0 <= pos <= toks.len(),
    ensures
        expr(toks, pos) matches Some((_, c)) ==> no_operand(
            c,
            |p: TokenV, ch: TokenV, left: bool| p is Power && ch is Power && left,
        ),
{
    reveal(prec);
    reveal(is_right_assoc);
    lemma_expr_no_operand(
        toks,
        pos,
        |p: TokenV, ch: TokenV, left: bool| p is Power && ch is Power && left,
    );
}

/// Arithmetic binds tighter than comparison, and comparison tighter than the
/// logical operators: in an expression that the parser reads, no comparison
/// or logical operation is, without parentheses, an operand of an arithmetic
/// operation, and no logical operation an operand of a comparison.
#[verifier::spinoff_prover]
pub proof fn lemma_arithmetic_binds_tighter_than_comparison(toks: Seq<CommentedTokenV>, pos: int)
    requires
        0 <= pos <= toks.len(),
    ensures
        expr(toks, pos) matches Some((_, c)) ==> no_operand(
            c,
            |p: TokenV, ch: TokenV, left: bool| (is_arithmetic(p) && (is_comparison(ch) || is_logical(
                ch,
            ))) || (is_comparison(p) && is_logical(ch)),
        ),
{
    reveal(prec);
    reveal(is_right_assoc);
    lemma_expr_no_operand(
        toks,
        pos,
        |p: TokenV, ch: TokenV, left: bool| (is_arithmetic(p) && (is_comparison(ch) || is_logical(ch)))
            || (is_comparison(p) && is_logical(ch)),
    );
}

/// Assignments bind loosest: in an expression that the parser reads, no
/// assignment is, without parentheses, an operand of an arithmetic, comparison
/// or logical operation (`x <- a + b` assigns the sum).
#[verifier::spinoff_prover]
pub proof fn lemma_assignments_bind_loosest(toks: Seq<CommentedTokenV>, pos: int)
    requires
        0 <= pos <= toks.len(),
    ensures
        expr(toks, pos) matches Some((_, c)) ==> no_operand(
            c,
            |p: TokenV, ch: TokenV, left: bool| (is_arithmetic(p) || is_comparison(p) || is_logical(p))
                && (ch is LAssign || ch is RAssign || ch is OldAssign),
        ),
{
    reveal(prec);
    reveal(is_right_assoc);
    lemma_expr_no_operand(
        toks,
        pos,
        |p: TokenV, ch: TokenV, left: bool| (is_arithmetic(p) || is_comparison(p) || is_logical(p))
            && (ch is LAssign || ch is RAssign || ch is OldAssign),
    );
}

} // verus!
