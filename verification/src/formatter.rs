//! Formatting an expression: its document, laid out in lines, as a string.
use crate::ast::{Arg, ElseIfConditional, Expression};
use crate::code::{
    all_formattable, args_formattable, else_ifs_formattable, expr_docs, formattable,
    is_spaced_binop, is_tight_binop, MAX_INDENT,
};
use crate::config::FormattingConfig;
use crate::format::{
    doc_size, doc_weight, doc_wf, format_to_sdoc, layout, lemma_doc_weight_nonneg, sdoc_string,
    simple_doc_to_string, Doc, Mode, Triple, WIDTH_LIMIT,
};
use crate::tokens::Token;
use std::collections::{HashSet, VecDeque};
use std::rc::Rc;
use vstd::prelude::*;

verus! {

/// The weight of a well formed document within the limit; `None` for any other.
pub fn measure(doc: &Doc) -> (r: Option<u64>)
    ensures
        r is Some <==> (doc_wf(*doc) && doc_weight(*doc) <= WIDTH_LIMIT),
        r matches Some(w) ==> w == doc_weight(*doc),
    decreases doc_size(*doc),
{
    let limit: u64 = 1073741824;
    match doc {
        Doc::Nil => Some(0),
        Doc::Cons(a, b, _) => {
            let ma = measure(a);
            let mb = measure(b);
            proof {
                lemma_doc_weight_nonneg(&**a);
                lemma_doc_weight_nonneg(&**b);
            }
            match (ma, mb) {
                (Some(x), Some(y)) => if x + y <= limit {
                    Some(x + y)
                } else {
                    None
                },
                _ => None,
            }
        },
        Doc::Text(_, len, _) => {
            let len = *len as u64;
            if len <= limit {
                Some(len)
            } else {
                None
            }
        },
        Doc::Nest(step, a, _) => {
            if *step < 0 {
                return None;
            }
            proof {
                lemma_doc_weight_nonneg(&**a);
            }
            match measure(a) {
                Some(x) => if (*step as u64) + x <= limit {
                    Some((*step as u64) + x)
                } else {
                    None
                },
                None => None,
            }
        },
        Doc::NestIfBreak(step, a, _, _) => {
            if *step < 0 {
                return None;
            }
            proof {
                lemma_doc_weight_nonneg(&**a);
            }
            match measure(a) {
                Some(x) => if (*step as u64) + x <= limit {
                    Some((*step as u64) + x)
                } else {
                    None
                },
                None => None,
            }
        },
        Doc::Break(s) => {
            let len = s.len() as u64;
            if len <= limit {
                Some(len)
            } else {
                None
            }
        },
        Doc::Group(g, _) => measure(&g.0),
    }
}

/// Whether the formatter can print the expression.
pub fn is_formattable(e: &Expression) -> (r: bool)
    ensures
        r == formattable(*e),
    decreases e, 1nat,
{
    match e {
        Expression::Term(te) => {
            let matching = te.pre_delimiters.is_some() == te.post_delimiters.is_some();
            matching && all_are_formattable(&te.term)
        },
        Expression::Unary(_, x) => is_formattable(x),
        Expression::Bop(op, l, r) => {
            let known = matches!(
                op.token,
                Token::LAssign | Token::RAssign | Token::OldAssign | Token::Equal | Token::NotEqual
                    | Token::LowerThan | Token::GreaterThan | Token::LowerEqual
                    | Token::GreaterEqual | Token::Power | Token::Divide | Token::Multiply
                    | Token::Minus | Token::Plus | Token::Help | Token::And | Token::VectorizedAnd
                    | Token::Or | Token::VectorizedOr | Token::Pipe | Token::Modulo | Token::Tilde
                    | Token::Special(_) | Token::Dollar | Token::NsGet | Token::NsGetInt
                    | Token::Colon | Token::Slot
            );
            known && is_formattable(l) && is_formattable(r)
        },
        Expression::Formula(_, x) => is_formattable(x),
        Expression::FunctionDef(fd) => args_are_formattable(&fd.arguments.args) && is_formattable(
            &fd.body,
        ),
        Expression::LambdaFunction(l) => args_are_formattable(&l.args.args) && is_formattable(
            &l.body,
        ),
        Expression::IfExpression(ie) => {
            let head = is_formattable(&ie.if_conditional.condition) && is_formattable(
                &ie.if_conditional.body,
            );
            let middle = else_ifs_are_formattable(&ie.else_ifs);
            let tail = match &ie.trailing_else {
                Some(te) => is_formattable(&te.body),
                None => true,
            };
            head && middle && tail
        },
        Expression::WhileExpression(w) => is_formattable(&w.condition) && is_formattable(&w.body),
        Expression::RepeatExpression(r) => is_formattable(&r.body),
        Expression::FunctionCall(c) => is_formattable(&c.function_ref) && args_are_formattable(
            &c.args.args,
        ),
        Expression::SubsetExpression(s) => is_formattable(&s.object_ref) && args_are_formattable(
            &s.args.args,
        ),
        Expression::ForLoopExpression(f) => is_formattable(&f.identifier) && is_formattable(
            &f.collection,
        ) && is_formattable(&f.body),
        _ => true,
    }
}

fn all_are_formattable(s: &Vec<Expression>) -> (r: bool)
    ensures
        r == all_formattable(s@),
    decreases s@, 0nat,
{
    let mut i: usize = s.len();
    let mut ok = true;
    proof {
        assert(s@.subrange(s@.len() as int, s@.len() as int) =~= Seq::<Expression>::empty());
    }
    while i > 0
        invariant
            i <= s@.len(),
            ok == all_formattable(s@.subrange(i as int, s@.len() as int)),
        decreases i,
    {
        i = i - 1;
        let here = is_formattable(&s[i]);
        proof {
            let t = s@.subrange(i as int, s@.len() as int);
            assert(t.subrange(1, t.len() as int) =~= s@.subrange(i + 1, s@.len() as int));
        }
        ok = here && ok;
    }
    proof {
        assert(s@.subrange(0, s@.len() as int) =~= s@);
    }
    ok
}

fn args_are_formattable(s: &Vec<Arg>) -> (r: bool)
    ensures
        r == args_formattable(s@),
    decreases s@, 0nat,
{
    let mut i: usize = s.len();
    let mut ok = true;
    proof {
        assert(s@.subrange(s@.len() as int, s@.len() as int) =~= Seq::<Arg>::empty());
    }
    while i > 0
        invariant
            i <= s@.len(),
            ok == args_formattable(s@.subrange(i as int, s@.len() as int)),
        decreases i,
    {
        i = i - 1;
        let arg = &s[i];
        let first = is_formattable(&arg.0);
        let comma = match &arg.1 {
            Some(c) => is_formattable(c),
            None => true,
        };
        proof {
            let t = s@.subrange(i as int, s@.len() as int);
            assert(t.subrange(1, t.len() as int) =~= s@.subrange(i + 1, s@.len() as int));
        }
        ok = first && comma && ok;
    }
    proof {
        assert(s@.subrange(0, s@.len() as int) =~= s@);
    }
    ok
}

fn else_ifs_are_formattable(s: &Vec<ElseIfConditional>) -> (r: bool)
    ensures
        r == else_ifs_formattable(s@),
    decreases s@, 0nat,
{
    let mut i: usize = s.len();
    let mut ok = true;
    proof {
        assert(s@.subrange(s@.len() as int, s@.len() as int) =~= Seq::<ElseIfConditional>::empty());
    }
    while i > 0
        invariant
            i <= s@.len(),
            ok == else_ifs_formattable(s@.subrange(i as int, s@.len() as int)),
        decreases i,
    {
        i = i - 1;
        let c = &s[i].if_conditional;
        let here = is_formattable(&c.condition) && is_formattable(&c.body);
        proof {
            let t = s@.subrange(i as int, s@.len() as int);
            assert(t.subrange(1, t.len() as int) =~= s@.subrange(i + 1, s@.len() as int));
        }
        ok = here && ok;
    }
    proof {
        assert(s@.subrange(0, s@.len() as int) =~= s@);
    }
    ok
}

/// The document of an expression, with its groups numbered from one.
pub open spec fn document(e: Expression, indent: i32) -> Rc<Doc> {
    expr_docs(e, indent, 0).0
}

/// The printed expression: its document laid out from the first column in lines of
/// `line_length` columns. `None` where the formatter cannot print it: the expression
/// is not formattable, the indentation is negative or over `MAX_INDENT`, the line
/// length is below `-WIDTH_LIMIT`, or the widths of the document add up to more
/// than `WIDTH_LIMIT`. These are the bounds under which the `i32` arithmetic of the
/// layout cannot overflow (see `WIDTH_LIMIT`); a negative indentation would ask
/// for a line indented by a negative number of spaces, which cannot be printed.
pub open spec fn formatted(e: Expression, indent: i32, line_length: i32) -> Option<Seq<char>> {
    if formattable(e) && 0 <= indent <= MAX_INDENT && line_length >= -WIDTH_LIMIT && doc_wf(
        *document(e, indent),
    ) && doc_weight(*document(e, indent)) <= WIDTH_LIMIT {
        Some(
            sdoc_string(
                layout(
                    0,
                    seq![(0i32, Mode::Flat, document(e, indent))],
                    line_length as int,
                    Set::empty(),
                ).0,
            ),
        )
    } else {
        None
    }
}

/// Formats an expression with the given indentation and line length.
pub fn format_expression(expression: &Expression, indent: i32, line_length: i32) -> (r: Option<String>)
    ensures
        match r {
            Some(s) => formatted(*expression, indent, line_length) == Some(s@),
            None => formatted(*expression, indent, line_length) is None,
        },
{
    if !(0 <= indent && indent <= MAX_INDENT && line_length >= -WIDTH_LIMIT) {
        return None;
    }
    if !is_formattable(expression) {
        return None;
    }
    let mut doc_ref: usize = 0;
    let doc = expression.to_docs(indent, &mut doc_ref);
    match measure(&doc) {
        None => None,
        Some(_) => {
            let mut docs: VecDeque<Triple> = VecDeque::new();
            docs.push_back((0i32, Mode::Flat, doc));
            proof {
                assert(docs@ =~= seq![(0i32, Mode::Flat, document(*expression, indent))]);
                assert(docs@.drop_first() =~= Seq::<Triple>::empty());
                assert(crate::format::docs_weight(docs@.drop_first()) == 0);
                assert(crate::format::indents_ok(docs@.drop_first()));
                assert(crate::format::docs_weight(docs@) == doc_weight(*document(*expression, indent)));
            }
            let mut broken: HashSet<usize> = HashSet::new();
            let sdoc = format_to_sdoc(0, &mut docs, line_length, &mut broken);
            Some(simple_doc_to_string(&sdoc))
        },
    }
}

/// Formats an expression with the indentation and the line length that the
/// configuration gives. `None` where the formatter cannot print it with them.
pub fn format_code<T: FormattingConfig>(expression: Expression, formatting_config: &T) -> (r: Option<
    String,
>)
    ensures
        match r {
            Some(s) => formatted(
                expression,
                formatting_config.indent_spec(),
                formatting_config.line_length_spec(),
            ) == Some(s@),
            None => formatted(
                expression,
                formatting_config.indent_spec(),
                formatting_config.line_length_spec(),
            ) is None,
        },
{
    let indent = formatting_config.indent();
    let line_length = formatting_config.line_length();
    format_expression(&expression, indent, line_length)
}

} // verus!
