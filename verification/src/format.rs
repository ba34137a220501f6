// Implementing Wadler and https://lindig.github.io/papers/strictly-pretty-2000.pdf
use crate::numbers::{decimal, digits, push_decimal, push_natural};
use std::collections::{HashSet, VecDeque};
use std::rc::Rc;
use vstd::prelude::*;
use vstd::string::{StrSliceExecFns, StringExecFns};

verus! {

/// The bound on the widths that a layout adds up: every indentation, every
/// column and the sum of the widths of all texts and breaks stay below it. The
/// layout computes columns and remaining widths in `i32`, adding a width to a
/// column and subtracting a column from the line length; with every operand
/// below this bound (half of `i32::MAX`), no such sum or difference overflows.
pub const WIDTH_LIMIT: i32 = 1073741824;

/// ShouldBreak is a linebreak that propagates to the parents
#[derive(Debug, Clone, Copy)]
pub enum ShouldBreak {
    Yes,
    No,
}

/// (doc, should parents break?)
#[derive(Debug, Clone)]
pub struct GroupDocProperties<'a>(pub Rc<Doc<'a>>, pub ShouldBreak);

#[derive(Debug, Clone, Copy)]
pub enum InlineCommentPosition {
    No,
    Middle,
    End,
}

/// Where an inline comment sits in a concatenation of two documents whose
/// inline comments sit at `lhs` and at `rhs`.
pub open spec fn combined_position(
    lhs: InlineCommentPosition,
    rhs: InlineCommentPosition,
) -> InlineCommentPosition {
    match (lhs, rhs) {
        (InlineCommentPosition::No, InlineCommentPosition::No) => InlineCommentPosition::No,
        (InlineCommentPosition::No, InlineCommentPosition::Middle) => InlineCommentPosition::Middle,
        (InlineCommentPosition::No, InlineCommentPosition::End) => InlineCommentPosition::End,
        (InlineCommentPosition::Middle, _) => InlineCommentPosition::Middle,
        (InlineCommentPosition::End, _) => InlineCommentPosition::Middle,
    }
}

impl InlineCommentPosition {
    pub fn add(self, rhs: Self) -> (r: Self)
        ensures
            r == combined_position(self, rhs),
    {
        match (self, rhs) {
            (InlineCommentPosition::No, InlineCommentPosition::No) => InlineCommentPosition::No,
            (InlineCommentPosition::No, InlineCommentPosition::Middle) => {
                InlineCommentPosition::Middle
            },
            (InlineCommentPosition::No, InlineCommentPosition::End) => InlineCommentPosition::End,
            (InlineCommentPosition::Middle, _) => InlineCommentPosition::Middle,
            (InlineCommentPosition::End, _) => InlineCommentPosition::Middle,
        }
    }
}

/// inlineCommentPosition, doc ref
#[derive(Debug, Clone, Copy)]
pub struct CommonProperties(pub InlineCommentPosition, pub usize);

impl Default for CommonProperties {
    fn default() -> (r: Self)
        ensures
            r == CommonProperties(InlineCommentPosition::No, 0),
    {
        CommonProperties(InlineCommentPosition::No, 0)
    }
}

#[derive(Debug, Clone)]
pub enum Doc<'a> {
    Nil,
    Cons(Rc<Doc<'a>>, Rc<Doc<'a>>, CommonProperties),
    /// text, text length
    Text(&'a str, usize, CommonProperties),
    /// indent size, doc
    Nest(i32, Rc<Doc<'a>>, CommonProperties),
    // This NestIfBreak supports an important layout feature of
    // tidyverse styleguide for R, e.g.
    // test_that("something", {
    //   TRUE
    // })
    // The content of the closure is basically indented only if
    // the group observed by it breaks.
    /// indent size, indented doc, props, possibly broken doc
    NestIfBreak(i32, Rc<Doc<'a>>, CommonProperties, usize),
    Break(&'static str),
    Group(GroupDocProperties<'a>, CommonProperties),
}

pub open spec fn inline_position(doc: Doc) -> InlineCommentPosition {
    match doc {
        Doc::Nil => InlineCommentPosition::No,
        Doc::Cons(_, _, props) => props.0,
        Doc::Text(_, _, props) => props.0,
        Doc::Nest(_, _, props) => props.0,
        Doc::NestIfBreak(_, _, props, _) => props.0,
        Doc::Break(_) => InlineCommentPosition::No,
        Doc::Group(_, props) => props.0,
    }
}

pub fn query_inline_position(doc: &Doc) -> (r: InlineCommentPosition)
    ensures
        r == inline_position(*doc),
{
    match doc {
        Doc::Nil => InlineCommentPosition::No,
        Doc::Cons(_, _, props) => props.0,
        Doc::Text(_, _, props) => props.0,
        Doc::Nest(_, _, props) => props.0,
        Doc::NestIfBreak(_, _, props, _) => props.0,
        Doc::Break(_) => InlineCommentPosition::No,
        Doc::Group(_, props) => props.0,
    }
}

/// The operations that build documents.
pub trait DocAlgebra<'a> {
    fn cons(self, other: Rc<Doc<'a>>) -> Rc<Doc<'a>>;

    fn to_group(self, should_break: ShouldBreak, doc_ref: &mut usize) -> Rc<Doc<'a>>
        requires
            *old(doc_ref) < usize::MAX,
    ;

    fn nest(self, indent: i32) -> Rc<Doc<'a>>;

    fn nest_if_break(self, indent: i32, observed_doc: usize) -> Rc<Doc<'a>>;
}

pub open spec fn cons_doc<'a>(a: Rc<Doc<'a>>, b: Rc<Doc<'a>>) -> Rc<Doc<'a>> {
    Rc::new(
        Doc::Cons(
            a,
            b,
            CommonProperties(combined_position(inline_position(*a), inline_position(*b)), 0),
        ),
    )
}

pub open spec fn group_doc<'a>(a: Rc<Doc<'a>>, should_break: ShouldBreak, doc_ref: usize) -> Rc<
    Doc<'a>,
> {
    Rc::new(
        Doc::Group(
            GroupDocProperties(a, should_break),
            CommonProperties(inline_position(*a), doc_ref),
        ),
    )
}

pub open spec fn nest_doc<'a>(a: Rc<Doc<'a>>, indent: i32) -> Rc<Doc<'a>> {
    Rc::new(Doc::Nest(indent, a, CommonProperties(inline_position(*a), 0)))
}

pub open spec fn nest_if_break_doc<'a>(a: Rc<Doc<'a>>, indent: i32, observed: usize) -> Rc<
    Doc<'a>,
> {
    Rc::new(Doc::NestIfBreak(indent, a, CommonProperties(inline_position(*a), 0), observed))
}

impl<'a> DocAlgebra<'a> for Rc<Doc<'a>> {
    fn cons(self, other: Rc<Doc<'a>>) -> (r: Rc<Doc<'a>>)
        ensures
            r == cons_doc(self, other),
    {
        let properties = CommonProperties(
            query_inline_position(&self).add(query_inline_position(&other)),
            0,
        );
        Rc::new(Doc::Cons(self, other, properties))
    }

    /// A group of the document, numbered by the next value of `doc_ref`.
    fn to_group(self, should_break: ShouldBreak, doc_ref: &mut usize) -> (r: Rc<Doc<'a>>)
        ensures
            *final(doc_ref) == *old(doc_ref) + 1,
            r == group_doc(self, should_break, *final(doc_ref)),
    {
        *doc_ref = *doc_ref + 1;
        let properties = CommonProperties(query_inline_position(&self), *doc_ref);
        Rc::new(Doc::Group(GroupDocProperties(self, should_break), properties))
    }

    fn nest(self, indent: i32) -> (r: Rc<Doc<'a>>)
        ensures
            r == nest_doc(self, indent),
    {
        let properties = CommonProperties(query_inline_position(&self), 0);
        Rc::new(Doc::Nest(indent, self, properties))
    }

    fn nest_if_break(self, indent: i32, observed_doc: usize) -> (r: Rc<Doc<'a>>)
        ensures
            r == nest_if_break_doc(self, indent, observed_doc),
    {
        let properties = CommonProperties(query_inline_position(&self), 0);
        Rc::new(Doc::NestIfBreak(indent, self, properties, observed_doc))
    }
}

#[derive(Debug)]
pub enum SimpleDoc<'a> {
    Nil,
    Text(&'a str, Box<SimpleDoc<'a>>),
    Line(usize, Box<SimpleDoc<'a>>),
}

/// The text that a simple document stands for.
pub open spec fn sdoc_string(doc: SimpleDoc) -> Seq<char>
    decreases doc,
{
    match doc {
        SimpleDoc::Nil => Seq::empty(),
        SimpleDoc::Text(s, rest) => s@ + sdoc_string(*rest),
        SimpleDoc::Line(indent, rest) => seq!['\n'] + Seq::new(indent as nat, |k: int| ' ')
            + sdoc_string(*rest),
    }
}

pub fn simple_doc_to_string(doc: &SimpleDoc) -> (r: String)
    ensures
        r@ == sdoc_string(*doc),
    decreases doc,
{
    match doc {
        SimpleDoc::Nil => String::new(),
        SimpleDoc::Text(s, rest) => {
            let tail = simple_doc_to_string(rest);
            let mut out = String::new();
            out.append(s);
            out.append(tail.as_str());
            out
        },
        SimpleDoc::Line(indent, rest) => {
            let tail = simple_doc_to_string(rest);
            let mut out = String::new();
            out.append("\n");
            proof {
                reveal_strlit("\n");
                reveal_strlit(" ");
            }
            let mut k: usize = 0;
            while k < *indent
                invariant
                    k <= *indent,
                    out@ == seq!['\n'] + Seq::new(k as nat, |j: int| ' '),
                decreases *indent - k,
            {
                let ghost before = out@;
                out.append(" ");
                k = k + 1;
                proof {
                    reveal_strlit(" ");
                    assert(" "@ =~= seq![' ']);
                }
                assert(out@ =~= seq!['\n'] + Seq::new(k as nat, |j: int| ' '));
            }
            out.append(tail.as_str());
            out
        },
    }
}

#[derive(Debug, Clone, Copy)]
pub enum Mode {
    Flat,
    Break,
}

pub type Triple<'a> = (i32, Mode, Rc<Doc<'a>>);

pub open spec fn doc_size(doc: Doc) -> nat
    decreases doc,
{
    match doc {
        Doc::Nil => 1,
        Doc::Cons(a, b, _) => 1 + doc_size(*a) + doc_size(*b),
        Doc::Text(_, _, _) => 1,
        Doc::Nest(_, a, _) => 1 + doc_size(*a),
        Doc::NestIfBreak(_, a, _, _) => 1 + doc_size(*a),
        Doc::Break(_) => 1,
        Doc::Group(g, _) => 1 + doc_size(*g.0),
    }
}

pub open spec fn docs_size(docs: Seq<Triple>) -> nat
    decreases docs.len(),
{
    if docs.len() == 0 {
        0
    } else {
        doc_size(*docs[0].2) + docs_size(docs.drop_first())
    }
}

/// The width that a document can add to a line or to an indentation: its texts,
/// its breaks and its indentation steps.
pub open spec fn doc_weight(doc: Doc) -> int
    decreases doc,
{
    match doc {
        Doc::Nil => 0,
        Doc::Cons(a, b, _) => doc_weight(*a) + doc_weight(*b),
        Doc::Text(_, len, _) => len as int,
        Doc::Nest(step, a, _) => step + doc_weight(*a),
        Doc::NestIfBreak(step, a, _, _) => step + doc_weight(*a),
        Doc::Break(s) => s.len() as int,
        Doc::Group(g, _) => doc_weight(*g.0),
    }
}

/// A document whose indentation steps are not negative.
pub open spec fn doc_wf(doc: Doc) -> bool
    decreases doc,
{
    match doc {
        Doc::Nil => true,
        Doc::Cons(a, b, _) => doc_wf(*a) && doc_wf(*b),
        Doc::Text(_, _, _) => true,
        Doc::Nest(step, a, _) => step >= 0 && doc_wf(*a),
        Doc::NestIfBreak(step, a, _, _) => step >= 0 && doc_wf(*a),
        Doc::Break(_) => true,
        Doc::Group(g, _) => doc_wf(*g.0),
    }
}

pub open spec fn docs_weight(docs: Seq<Triple>) -> int
    decreases docs.len(),
{
    if docs.len() == 0 {
        0
    } else {
        doc_weight(*docs[0].2) + docs_weight(docs.drop_first())
    }
}

/// Every document of the queue is well formed, and its indentation plus the
/// weight of it and of all the documents after it stays within the limit.
pub open spec fn indents_ok(docs: Seq<Triple>) -> bool
    decreases docs.len(),
{
    docs.len() == 0 || {
        &&& 0 <= docs[0].0
        &&& docs[0].0 + docs_weight(docs) <= WIDTH_LIMIT
        &&& doc_wf(*docs[0].2)
        &&& indents_ok(docs.drop_first())
    }
}

pub open spec fn all_flat(docs: Seq<Triple>) -> bool {
    forall|k: int| 0 <= k < docs.len() ==> docs[k].1 is Flat
}

pub open spec fn push_front<T>(x: T, s: Seq<T>) -> Seq<T> {
    seq![x] + s
}

pub proof fn lemma_push_front<'a>(x: Triple<'a>, rest: Seq<Triple<'a>>)
    ensures
        push_front(x, rest).drop_first() == rest,
        push_front(x, rest)[0] == x,
        docs_size(push_front(x, rest)) == doc_size(*x.2) + docs_size(rest),
        docs_weight(push_front(x, rest)) == doc_weight(*x.2) + docs_weight(rest),
{
    assert(push_front(x, rest).drop_first() =~= rest);
}

proof fn lemma_weight_nonneg(doc: Rc<Doc>)
    requires
        doc_wf(*doc),
    ensures
        doc_weight(*doc) >= 0,
    decreases *doc,
{
    match *doc {
        Doc::Cons(a, b, _) => {
            lemma_weight_nonneg(a);
            lemma_weight_nonneg(b);
        },
        Doc::Nest(_, a, _) => lemma_weight_nonneg(a),
        Doc::NestIfBreak(_, a, _, _) => lemma_weight_nonneg(a),
        Doc::Group(g, _) => lemma_weight_nonneg(g.0),
        _ => {},
    }
}

/// A well formed document has a weight of zero or more.
pub proof fn lemma_doc_weight_nonneg(doc: &Doc)
    ensures
        doc_wf(*doc) ==> doc_weight(*doc) >= 0,
    decreases *doc,
{
    match *doc {
        Doc::Cons(a, b, _) => {
            lemma_doc_weight_nonneg(&*a);
            lemma_doc_weight_nonneg(&*b);
        },
        Doc::Nest(_, a, _) => lemma_doc_weight_nonneg(&*a),
        Doc::NestIfBreak(_, a, _, _) => lemma_doc_weight_nonneg(&*a),
        Doc::Group(g, _) => lemma_doc_weight_nonneg(&*g.0),
        _ => {},
    }
}

proof fn lemma_docs_weight_nonneg(docs: Seq<Triple>)
    requires
        indents_ok(docs),
    ensures
        docs_weight(docs) >= 0,
    decreases docs.len(),
{
    if docs.len() > 0 {
        lemma_weight_nonneg(docs[0].2);
        lemma_docs_weight_nonneg(docs.drop_first());
    }
}

/// Whether the documents fit in `w` columns when laid out flat, up to their end
/// or to the first break that must be a line break: an inline comment in the
/// middle of a document never fits.
pub open spec fn fits_spec<'a>(w: int, docs: Seq<Triple<'a>>) -> bool
    decreases docs_size(docs),
{
    if w < 0 {
        false
    } else if docs.len() == 0 {
        true
    } else {
        let i = docs[0].0;
        let m = docs[0].1;
        let rest = docs.drop_first();
        match *docs[0].2 {
            Doc::Nil => fits_spec(w, rest),
            Doc::Cons(first, second, props) => if props.0 is Middle {
                false
            } else {
                proof {
                    lemma_push_front((i, m, second), rest);
                    lemma_push_front((i, m, first), push_front((i, m, second), rest));
                }
                fits_spec(w, push_front((i, m, first), push_front((i, m, second), rest)))
            },
            Doc::Nest(step, doc, _) => {
                proof {
                    lemma_push_front(((i + step) as i32, m, doc), rest);
                }
                fits_spec(w, push_front(((i + step) as i32, m, doc), rest))
            },
            Doc::NestIfBreak(step, doc, _, _) => {
                proof {
                    lemma_push_front(((i + step) as i32, m, doc), rest);
                }
                fits_spec(w, push_front(((i + step) as i32, m, doc), rest))
            },
            Doc::Text(_, len, _) => fits_spec(w - len, rest),
            Doc::Break(s) => fits_spec(w - s.len(), rest),
            Doc::Group(g, props) => if props.0 is Middle {
                false
            } else {
                proof {
                    lemma_push_front((i, Mode::Flat, g.0), rest);
                }
                fits_spec(w, push_front((i, Mode::Flat, g.0), rest))
            },
        }
    }
}

/// The layout of the documents of the queue, the line being filled up to column
/// `consumed`, in lines of `line_length` columns: a group is laid out flat where it
/// fits, and broken (its breaks become line breaks) where it does not, where it must
/// break, or where an inline comment sits in its middle. `broken` holds the numbers
/// of the groups laid out broken so far, which a `NestIfBreak` observes; the result
/// holds them at the end.
pub open spec fn layout<'a>(
    consumed: int,
    docs: Seq<Triple<'a>>,
    line_length: int,
    broken: Set<usize>,
) -> (SimpleDoc<'a>, Set<usize>)
    decreases docs_size(docs),
{
    if docs.len() == 0 {
        (SimpleDoc::Nil, broken)
    } else {
        let i = docs[0].0;
        let m = docs[0].1;
        let rest = docs.drop_first();
        match *docs[0].2 {
            Doc::Nil => layout(consumed, rest, line_length, broken),
            Doc::Cons(first, second, _) => {
                proof {
                    lemma_push_front((i, m, second), rest);
                    lemma_push_front((i, m, first), push_front((i, m, second), rest));
                }
                layout(
                    consumed,
                    push_front((i, m, first), push_front((i, m, second), rest)),
                    line_length,
                    broken,
                )
            },
            Doc::Nest(step, doc, _) => {
                proof {
                    lemma_push_front(((i + step) as i32, m, doc), rest);
                }
                layout(consumed, push_front(((i + step) as i32, m, doc), rest), line_length, broken)
            },
            Doc::NestIfBreak(step, doc, _, observed) => {
                proof {
                    lemma_push_front(((i + step) as i32, m, doc), rest);
                    lemma_push_front((i, m, doc), rest);
                }
                if broken.contains(observed) {
                    layout(
                        consumed,
                        push_front(((i + step) as i32, m, doc), rest),
                        line_length,
                        broken,
                    )
                } else {
                    layout(consumed, push_front((i, m, doc), rest), line_length, broken)
                }
            },
            Doc::Text(s, len, _) => {
                let (tail, b) = layout(consumed + len, rest, line_length, broken);
                (SimpleDoc::Text(s, Box::new(tail)), b)
            },
            Doc::Break(s) => if m is Flat {
                let (tail, b) = layout(consumed + s.len(), rest, line_length, broken);
                (SimpleDoc::Text(s, Box::new(tail)), b)
            } else {
                let (tail, b) = layout(i as int, rest, line_length, broken);
                (SimpleDoc::Line(i as usize, Box::new(tail)), b)
            },
            Doc::Group(g, props) => {
                proof {
                    lemma_push_front((i, Mode::Break, g.0), rest);
                    lemma_push_front((i, Mode::Flat, g.0), rest);
                }
                if g.1 is Yes || props.0 is Middle || !fits_spec(
                    line_length - consumed,
                    seq![(i, Mode::Flat, g.0)],
                ) {
                    layout(
                        consumed,
                        push_front((i, Mode::Break, g.0), rest),
                        line_length,
                        broken.insert(props.1),
                    )
                } else {
                    layout(consumed, push_front((i, Mode::Flat, g.0), rest), line_length, broken)
                }
            },
        }
    }
}


proof fn lemma_indents_push<'a>(x: Triple<'a>, rest: Seq<Triple<'a>>)
    requires
        indents_ok(rest),
        0 <= x.0,
        x.0 + doc_weight(*x.2) + docs_weight(rest) <= WIDTH_LIMIT,
        doc_wf(*x.2),
    ensures
        indents_ok(push_front(x, rest)),
        docs_weight(push_front(x, rest)) == doc_weight(*x.2) + docs_weight(rest),
{
    lemma_push_front(x, rest);
}

/// Facts on the first document of a queue that is within the limits.
proof fn lemma_indents_first<'a>(docs: Seq<Triple<'a>>)
    requires
        indents_ok(docs),
        docs.len() > 0,
    ensures
        indents_ok(docs.drop_first()),
        docs_weight(docs.drop_first()) >= 0,
        doc_weight(*docs[0].2) >= 0,
        docs_weight(docs) == doc_weight(*docs[0].2) + docs_weight(docs.drop_first()),
        0 <= docs[0].0,
        docs[0].0 + doc_weight(*docs[0].2) + docs_weight(docs.drop_first()) <= WIDTH_LIMIT,
        doc_wf(*docs[0].2),
{
    lemma_docs_weight_nonneg(docs.drop_first());
    lemma_weight_nonneg(docs[0].2);
}

proof fn lemma_all_flat_push<'a>(x: Triple<'a>, rest: Seq<Triple<'a>>)
    requires
        all_flat(rest),
        x.1 is Flat,
    ensures
        all_flat(push_front(x, rest)),
{
    assert forall|k: int| 0 <= k < push_front(x, rest).len() implies push_front(x, rest)[k].1 is Flat by {
        if k > 0 {
            assert(push_front(x, rest)[k] == rest[k - 1]);
        }
    }
}

fn fits<'a>(remaining_width: i32, docs: &mut VecDeque<Triple<'a>>) -> (r: bool)
    requires
        indents_ok(old(docs)@),
        all_flat(old(docs)@),
    ensures
        r == fits_spec(remaining_width as int, old(docs)@),
    decreases docs_size(old(docs)@),
{
    if remaining_width < 0 {
        false
    } else {
        let ghost old_docs = docs@;
        match docs.pop_front() {
            None => true,
            Some((indent, mode, doc)) => {
                let ghost rest = docs@;
                proof {
                    assert(rest == old_docs.drop_first());
                    lemma_indents_first(old_docs);
                    assert(all_flat(rest));
                    assert(old_docs[0].1 is Flat);
                }
                match &*doc {
                    Doc::Nil => fits(remaining_width, docs),
                    Doc::Cons(first, second, CommonProperties(inline_comment_pos, _)) => {
                        if matches!(inline_comment_pos, InlineCommentPosition::Middle) {
                            false
                        } else {
                            proof {
                                lemma_weight_nonneg(*first);
                                lemma_weight_nonneg(*second);
                                lemma_indents_push((indent, mode, *second), rest);
                                lemma_indents_push((indent, mode, *first), push_front((indent, mode, *second), rest));
                                lemma_all_flat_push((indent, mode, *second), rest);
                                lemma_all_flat_push((indent, mode, *first), push_front((indent, mode, *second), rest));
                                lemma_push_front((indent, mode, *second), rest);
                                lemma_push_front((indent, mode, *first), push_front((indent, mode, *second), rest));
                            }
                            docs.push_front((indent, mode, Rc::clone(second)));
                            docs.push_front((indent, mode, Rc::clone(first)));
                            fits(remaining_width, docs)
                        }
                    },
                    Doc::Nest(step, inner, _) => {
                        proof {
                            lemma_weight_nonneg(*inner);
                        }
                        let x = (indent + *step, mode, Rc::clone(inner));
                        proof {
                            lemma_indents_push(x, rest);
                            lemma_all_flat_push(x, rest);
                            lemma_push_front(x, rest);
                        }
                        docs.push_front(x);
                        fits(remaining_width, docs)
                    },
                    Doc::NestIfBreak(step, inner, _, _) => {
                        proof {
                            lemma_weight_nonneg(*inner);
                        }
                        let x = (indent + *step, mode, Rc::clone(inner));
                        proof {
                            lemma_indents_push(x, rest);
                            lemma_all_flat_push(x, rest);
                            lemma_push_front(x, rest);
                        }
                        docs.push_front(x);
                        fits(remaining_width, docs)
                    },
                    Doc::Text(_, s_len, _) => fits(remaining_width - *s_len as i32, docs),
                    Doc::Break(s) => match mode {
                        Mode::Flat => fits(remaining_width - s.len() as i32, docs),
                        Mode::Break => {
                            proof {
                                assert(false);
                            }
                            false
                        },
                    },
                    Doc::Group(groupped_doc, CommonProperties(inline_comment_pos, _)) => {
                        if matches!(inline_comment_pos, InlineCommentPosition::Middle) {
                            false
                        } else {
                            let x = (indent, Mode::Flat, Rc::clone(&groupped_doc.0));
                            proof {
                                lemma_indents_push(x, rest);
                                lemma_all_flat_push(x, rest);
                                lemma_push_front(x, rest);
                            }
                            docs.push_front(x);
                            fits(remaining_width, docs)
                        }
                    },
                }
            },
        }
    }
}

/// Lays out the documents of the queue into a simple document, the line being
/// filled up to column `consumed`, in lines of `line_length` columns. The numbers
/// of the groups laid out broken are added to `broken_docs`.
pub fn format_to_sdoc<'a>(
    consumed: i32,
    docs: &mut VecDeque<Triple<'a>>,
    line_length: i32,
    broken_docs: &mut HashSet<usize>,
) -> (r: SimpleDoc<'a>)
    requires
        indents_ok(old(docs)@),
        0 <= consumed,
        consumed + docs_weight(old(docs)@) <= WIDTH_LIMIT,
        line_length >= -WIDTH_LIMIT,
    ensures
        (r, final(broken_docs)@) == layout(
            consumed as int,
            old(docs)@,
            line_length as int,
            old(broken_docs)@,
        ),
    decreases docs_size(old(docs)@),
{
    broadcast use vstd::std_specs::hash::group_hash_axioms;

    let ghost old_docs = docs@;
    match docs.pop_front() {
        None => SimpleDoc::Nil,
        Some((indent, mode, doc)) => {
            let ghost rest = docs@;
            proof {
                assert(rest == old_docs.drop_first());
                lemma_indents_first(old_docs);
            }
            match &*doc {
                Doc::Nil => format_to_sdoc(consumed, docs, line_length, broken_docs),
                Doc::Cons(first, second, _) => {
                    proof {
                        lemma_weight_nonneg(*first);
                        lemma_weight_nonneg(*second);
                        lemma_indents_push((indent, mode, *second), rest);
                        lemma_indents_push((indent, mode, *first), push_front((indent, mode, *second), rest));
                        lemma_push_front((indent, mode, *second), rest);
                        lemma_push_front((indent, mode, *first), push_front((indent, mode, *second), rest));
                    }
                    docs.push_front((indent, mode, Rc::clone(second)));
                    docs.push_front((indent, mode, Rc::clone(first)));
                    format_to_sdoc(consumed, docs, line_length, broken_docs)
                },
                Doc::Nest(step, inner, _) => {
                    proof {
                        lemma_weight_nonneg(*inner);
                    }
                    let x = (indent + *step, mode, Rc::clone(inner));
                    proof {
                        lemma_indents_push(x, rest);
                        lemma_push_front(x, rest);
                    }
                    docs.push_front(x);
                    format_to_sdoc(consumed, docs, line_length, broken_docs)
                },
                Doc::NestIfBreak(step, inner, _, observed_doc) => {
                    if broken_docs.contains(observed_doc) {
                        proof {
                            lemma_weight_nonneg(*inner);
                        }
                        let x = (indent + *step, mode, Rc::clone(inner));
                        proof {
                            lemma_indents_push(x, rest);
                            lemma_push_front(x, rest);
                        }
                        docs.push_front(x);
                    } else {
                        let x = (indent, mode, Rc::clone(inner));
                        proof {
                            lemma_weight_nonneg(*inner);
                            lemma_indents_push(x, rest);
                            lemma_push_front(x, rest);
                        }
                        docs.push_front(x);
                    }
                    format_to_sdoc(consumed, docs, line_length, broken_docs)
                },
                Doc::Text(s, width, _) => {
                    let length = *width as i32;
                    let tail = format_to_sdoc(consumed + length, docs, line_length, broken_docs);
                    SimpleDoc::Text(s, Box::new(tail))
                },
                Doc::Break(s) => match mode {
                    Mode::Flat => {
                        let length = s.len() as i32;
                        let tail = format_to_sdoc(consumed + length, docs, line_length, broken_docs);
                        SimpleDoc::Text(s, Box::new(tail))
                    },
                    Mode::Break => {
                        let tail = format_to_sdoc(indent, docs, line_length, broken_docs);
                        SimpleDoc::Line(indent as usize, Box::new(tail))
                    },
                },
                Doc::Group(groupped_doc, CommonProperties(inline_comment_pos, doc_ref)) => {
                    let mut group_docs: VecDeque<Triple<'a>> = VecDeque::new();
                    let x = (indent, Mode::Flat, Rc::clone(&groupped_doc.0));
                    group_docs.push_back(x);
                    proof {
                        lemma_weight_nonneg(groupped_doc.0);
                        assert(group_docs@ == seq![x]);
                        assert(seq![x] == push_front(x, Seq::<Triple<'a>>::empty()));
                        lemma_indents_push(x, Seq::<Triple<'a>>::empty());
                        lemma_all_flat_push(x, Seq::<Triple<'a>>::empty());
                        lemma_indents_push(x, rest);
                        lemma_push_front(x, rest);
                        lemma_indents_push((indent, Mode::Break, groupped_doc.0), rest);
                        lemma_push_front((indent, Mode::Break, groupped_doc.0), rest);
                    }
                    if matches!(groupped_doc.1, ShouldBreak::Yes) || matches!(
                        inline_comment_pos,
                        InlineCommentPosition::Middle,
                    ) || !fits(line_length - consumed, &mut group_docs) {
                        docs.push_front((indent, Mode::Break, Rc::clone(&groupped_doc.0)));
                        broken_docs.insert(*doc_ref);
                        format_to_sdoc(consumed, docs, line_length, broken_docs)
                    } else {
                        docs.push_front((indent, Mode::Flat, Rc::clone(&groupped_doc.0)));
                        format_to_sdoc(consumed, docs, line_length, broken_docs)
                    }
                },
            }
        },
    }
}
/// The characters that laying out a document adds: spaces and line breaks.
pub open spec fn is_layout_space(c: char) -> bool {
    c == ' ' || c == '\n'
}

/// The characters of a text other than spaces and line breaks, in order.
pub open spec fn visible(s: Seq<char>) -> Seq<char> {
    s.filter(|c: char| !is_layout_space(c))
}

/// The texts of a document, in order; its breaks are left out.
pub open spec fn doc_text(doc: Doc) -> Seq<char>
    decreases doc,
{
    match doc {
        Doc::Nil => Seq::empty(),
        Doc::Cons(a, b, _) => doc_text(*a) + doc_text(*b),
        Doc::Text(s, _, _) => s@,
        Doc::Nest(_, a, _) => doc_text(*a),
        Doc::NestIfBreak(_, a, _, _) => doc_text(*a),
        Doc::Break(_) => Seq::empty(),
        Doc::Group(g, _) => doc_text(*g.0),
    }
}

pub open spec fn docs_text(docs: Seq<Triple>) -> Seq<char>
    decreases docs.len(),
{
    if docs.len() == 0 {
        Seq::empty()
    } else {
        doc_text(*docs[0].2) + docs_text(docs.drop_first())
    }
}

/// A document whose breaks print only spaces and line breaks.
pub open spec fn blank_breaks(doc: Doc) -> bool
    decreases doc,
{
    match doc {
        Doc::Cons(a, b, _) => blank_breaks(*a) && blank_breaks(*b),
        Doc::Nest(_, a, _) => blank_breaks(*a),
        Doc::NestIfBreak(_, a, _, _) => blank_breaks(*a),
        Doc::Break(s) => forall|i: int| 0 <= i < s@.len() ==> is_layout_space(#[trigger] s@[i]),
        Doc::Group(g, _) => blank_breaks(*g.0),
        _ => true,
    }
}

pub open spec fn all_blank_breaks(docs: Seq<Triple>) -> bool {
    forall|k: int| 0 <= k < docs.len() ==> blank_breaks(*#[trigger] docs[k].2)
}

pub proof fn lemma_visible_add(a: Seq<char>, b: Seq<char>)
    ensures
        visible(a + b) == visible(a) + visible(b),
{
    Seq::filter_distributes_over_add(a, b, |c: char| !is_layout_space(c));
}

pub proof fn lemma_visible_blank(s: Seq<char>)
    requires
        forall|i: int| 0 <= i < s.len() ==> is_layout_space(#[trigger] s[i]),
    ensures
        visible(s) == Seq::<char>::empty(),
    decreases s.len(),
{
    reveal_with_fuel(Seq::filter, 1);
    if s.len() > 0 {
        lemma_visible_blank(s.drop_last());
    }
}

proof fn lemma_blank_push<'a>(x: Triple<'a>, rest: Seq<Triple<'a>>)
    requires
        blank_breaks(*x.2),
        all_blank_breaks(rest),
    ensures
        all_blank_breaks(push_front(x, rest)),
        docs_text(push_front(x, rest)) == doc_text(*x.2) + docs_text(rest),
{
    lemma_push_front(x, rest);
    assert forall|k: int| 0 <= k < push_front(x, rest).len() implies blank_breaks(
        *#[trigger] push_front(x, rest)[k].2,
    ) by {
        if k > 0 {
            assert(push_front(x, rest)[k] == rest[k - 1]);
        }
    }
}

/// Laying out a document changes only spaces and line breaks: the printed
/// text, without them, is the text of the documents, without them.
pub proof fn lemma_layout_keeps_text<'a>(
    consumed: int,
    docs: Seq<Triple<'a>>,
    line_length: int,
    broken: Set<usize>,
)
    requires
        all_blank_breaks(docs),
    ensures
        visible(sdoc_string(layout(consumed, docs, line_length, broken).0)) == visible(
            docs_text(docs),
        ),
    decreases docs_size(docs),
{
    if docs.len() > 0 {
        let i = docs[0].0;
        let m = docs[0].1;
        let rest = docs.drop_first();
        assert(blank_breaks(*docs[0].2));
        assert(all_blank_breaks(rest)) by {
            assert forall|k: int| 0 <= k < rest.len() implies blank_breaks(*#[trigger] rest[k].2) by {
                assert(rest[k] == docs[k + 1]);
            }
        }
        assert(docs_text(docs) == doc_text(*docs[0].2) + docs_text(rest));
        match *docs[0].2 {
            Doc::Nil => {
                assert(doc_text(*docs[0].2) =~= Seq::<char>::empty());
                assert(docs_text(docs) =~= docs_text(rest));
                lemma_push_front(docs[0], rest);
                lemma_layout_keeps_text(consumed, rest, line_length, broken);
            },
            Doc::Cons(first, second, _) => {
                lemma_push_front((i, m, second), rest);
                lemma_blank_push((i, m, second), rest);
                lemma_push_front((i, m, first), push_front((i, m, second), rest));
                lemma_blank_push((i, m, first), push_front((i, m, second), rest));
                lemma_layout_keeps_text(
                    consumed,
                    push_front((i, m, first), push_front((i, m, second), rest)),
                    line_length,
                    broken,
                );
                assert(docs_text(push_front((i, m, first), push_front((i, m, second), rest)))
                    =~= docs_text(docs));
            },
            Doc::Nest(step, doc, _) => {
                lemma_push_front(((i + step) as i32, m, doc), rest);
                lemma_blank_push(((i + step) as i32, m, doc), rest);
                lemma_layout_keeps_text(
                    consumed,
                    push_front(((i + step) as i32, m, doc), rest),
                    line_length,
                    broken,
                );
            },
            Doc::NestIfBreak(step, doc, _, observed) => {
                lemma_push_front(((i + step) as i32, m, doc), rest);
                lemma_blank_push(((i + step) as i32, m, doc), rest);
                lemma_push_front((i, m, doc), rest);
                lemma_blank_push((i, m, doc), rest);
                if broken.contains(observed) {
                    lemma_layout_keeps_text(
                        consumed,
                        push_front(((i + step) as i32, m, doc), rest),
                        line_length,
                        broken,
                    );
                } else {
                    lemma_layout_keeps_text(
                        consumed,
                        push_front((i, m, doc), rest),
                        line_length,
                        broken,
                    );
                }
            },
            Doc::Text(s, len, _) => {
                lemma_push_front(docs[0], rest);
                lemma_layout_keeps_text(consumed + len, rest, line_length, broken);
                let tail = layout(consumed + len, rest, line_length, broken).0;
                lemma_visible_add(s@, sdoc_string(tail));
                lemma_visible_add(s@, docs_text(rest));
            },
            Doc::Break(s) => {
                lemma_push_front(docs[0], rest);
                lemma_visible_blank(s@);
                assert(doc_text(*docs[0].2) =~= Seq::<char>::empty());
                assert(docs_text(docs) =~= docs_text(rest));
                if m is Flat {
                    lemma_layout_keeps_text(consumed + s.len(), rest, line_length, broken);
                    let tail = layout(consumed + s.len(), rest, line_length, broken).0;
                    lemma_visible_add(s@, sdoc_string(tail));
                } else {
                    lemma_layout_keeps_text(i as int, rest, line_length, broken);
                    let tail = layout(i as int, rest, line_length, broken).0;
                    let head = seq!['\n'] + Seq::new(i as usize as nat, |k: int| ' ');
                    lemma_visible_blank(head);
                    lemma_visible_add(head, sdoc_string(tail));
                }
            },
            Doc::Group(g, props) => {
                lemma_push_front((i, Mode::Break, g.0), rest);
                lemma_blank_push((i, Mode::Break, g.0), rest);
                lemma_push_front((i, Mode::Flat, g.0), rest);
                lemma_blank_push((i, Mode::Flat, g.0), rest);
                if g.1 is Yes || props.0 is Middle || !fits_spec(
                    line_length - consumed,
                    seq![(i, Mode::Flat, g.0)],
                ) {
                    lemma_layout_keeps_text(
                        consumed,
                        push_front((i, Mode::Break, g.0), rest),
                        line_length,
                        broken.insert(props.1),
                    );
                } else {
                    lemma_layout_keeps_text(
                        consumed,
                        push_front((i, Mode::Flat, g.0), rest),
                        line_length,
                        broken,
                    );
                }
            },
        }
    }
}

/// A group at the front is laid out broken, and its number recorded (it is
/// among the broken groups at the end), exactly when it must break, holds an
/// inline comment in its middle, or does not fit in what is left of the line;
/// otherwise it is laid out flat.
#[verifier::spinoff_prover]
pub proof fn lemma_layout_group<'a>(
    consumed: int,
    docs: Seq<Triple<'a>>,
    line_length: int,
    broken: Set<usize>,
)
    requires
        docs.len() > 0,
        *docs[0].2 is Group,
    ensures
        ({
            let (i, g, props) = (docs[0].0, docs[0].2->Group_0, docs[0].2->Group_1);
            let rest = docs.drop_first();
            layout(consumed, docs, line_length, broken) == if g.1 is Yes || props.0 is Middle
                || !fits_spec(line_length - consumed, seq![(i, Mode::Flat, g.0)]) {
                layout(
                    consumed,
                    push_front((i, Mode::Break, g.0), rest),
                    line_length,
                    broken.insert(props.1),
                )
            } else {
                layout(consumed, push_front((i, Mode::Flat, g.0), rest), line_length, broken)
            }
        }),
        g_breaks(docs, consumed, line_length) ==> layout(consumed, docs, line_length, broken).1.contains(
            docs[0].2->Group_1.1,
        ),
{
    let i = docs[0].0;
    let rest = docs.drop_first();
    match *docs[0].2 {
        Doc::Group(g, props) => {
            lemma_push_front((i, Mode::Break, g.0), rest);
            lemma_layout_keeps_broken(
                consumed,
                push_front((i, Mode::Break, g.0), rest),
                line_length,
                broken.insert(props.1),
            );
        },
        _ => {},
    }
}

/// Whether the group at the front of the documents is laid out broken: it must
/// break, holds an inline comment in its middle, or does not fit in what is left
/// of the line.
pub open spec fn g_breaks<'a>(docs: Seq<Triple<'a>>, consumed: int, line_length: int) -> bool {
    let (i, g, props) = (docs[0].0, docs[0].2->Group_0, docs[0].2->Group_1);
    g.1 is Yes || props.0 is Middle || !fits_spec(line_length - consumed, seq![(i, Mode::Flat, g.0)])
}

/// Laying out documents only adds to the groups recorded as broken.
pub proof fn lemma_layout_keeps_broken<'a>(
    consumed: int,
    docs: Seq<Triple<'a>>,
    line_length: int,
    broken: Set<usize>,
)
    ensures
        broken.subset_of(layout(consumed, docs, line_length, broken).1),
    decreases docs_size(docs),
{
    if docs.len() > 0 {
        let i = docs[0].0;
        let m = docs[0].1;
        let rest = docs.drop_first();
        match *docs[0].2 {
            Doc::Nil => {
                lemma_push_front(docs[0], rest);
                lemma_layout_keeps_broken(consumed, rest, line_length, broken);
            },
            Doc::Cons(first, second, _) => {
                lemma_push_front((i, m, second), rest);
                lemma_push_front((i, m, first), push_front((i, m, second), rest));
                lemma_layout_keeps_broken(
                    consumed,
                    push_front((i, m, first), push_front((i, m, second), rest)),
                    line_length,
                    broken,
                );
            },
            Doc::Nest(step, doc, _) => {
                lemma_push_front(((i + step) as i32, m, doc), rest);
                lemma_layout_keeps_broken(
                    consumed,
                    push_front(((i + step) as i32, m, doc), rest),
                    line_length,
                    broken,
                );
            },
            Doc::NestIfBreak(step, doc, _, observed) => {
                lemma_push_front(((i + step) as i32, m, doc), rest);
                lemma_push_front((i, m, doc), rest);
                if broken.contains(observed) {
                    lemma_layout_keeps_broken(
                        consumed,
                        push_front(((i + step) as i32, m, doc), rest),
                        line_length,
                        broken,
                    );
                } else {
                    lemma_layout_keeps_broken(
                        consumed,
                        push_front((i, m, doc), rest),
                        line_length,
                        broken,
                    );
                }
            },
            Doc::Text(s, len, _) => {
                lemma_push_front(docs[0], rest);
                lemma_layout_keeps_broken(consumed + len, rest, line_length, broken);
            },
            Doc::Break(s) => {
                lemma_push_front(docs[0], rest);
                if m is Flat {
                    lemma_layout_keeps_broken(consumed + s.len(), rest, line_length, broken);
                } else {
                    lemma_layout_keeps_broken(i as int, rest, line_length, broken);
                }
            },
            Doc::Group(g, props) => {
                lemma_push_front((i, Mode::Break, g.0), rest);
                lemma_push_front((i, Mode::Flat, g.0), rest);
                if g.1 is Yes || props.0 is Middle || !fits_spec(
                    line_length - consumed,
                    seq![(i, Mode::Flat, g.0)],
                ) {
                    lemma_layout_keeps_broken(
                        consumed,
                        push_front((i, Mode::Break, g.0), rest),
                        line_length,
                        broken.insert(props.1),
                    );
                } else {
                    lemma_layout_keeps_broken(
                        consumed,
                        push_front((i, Mode::Flat, g.0), rest),
                        line_length,
                        broken,
                    );
                }
            },
        }
    }
}

/// How a document is printed for debugging.
pub open spec fn doc_string(doc: Doc) -> Seq<char>
    decreases doc,
{
    match doc {
        Doc::Nil => "Nil"@,
        Doc::Cons(l, r, _) => doc_string(*l) + " + "@ + doc_string(*r),
        Doc::Text(t, _, _) => "'"@ + t@ + "'"@,
        Doc::Nest(i, b, _) => "Nest"@ + decimal(i as int) + "("@ + doc_string(*b) + ")"@,
        Doc::NestIfBreak(i, b, _, w) => "NestIfBreak"@ + decimal(i as int) + "<if"@ + digits(
            w as nat,
        ) + ">("@ + doc_string(*b) + ")"@,
        Doc::Break(nl) => "NL("@ + nl@ + ")"@,
        Doc::Group(inside, props) => "SB:<ref"@ + digits(props.1 as nat) + ">"@ + match inside.1 {
            ShouldBreak::Yes => "Yes"@,
            ShouldBreak::No => "No"@,
        } + "<"@ + doc_string(*inside.0) + ">"@,
    }
}

fn push_doc(out: &mut String, doc: &Doc)
    ensures
        final(out)@ == old(out)@ + doc_string(*doc),
    decreases doc,
{
    match doc {
        Doc::Nil => {
            out.append("Nil");
        },
        Doc::Cons(l, r, _) => {
            push_doc(out, &**l);
            out.append(" + ");
            push_doc(out, &**r);
        },
        Doc::Text(t, _, _) => {
            out.append("'");
            out.append(*t);
            out.append("'");
        },
        Doc::Nest(i, b, _) => {
            out.append("Nest");
            push_decimal(out, *i as i64);
            out.append("(");
            push_doc(out, &**b);
            out.append(")");
        },
        Doc::NestIfBreak(i, b, _, w) => {
            out.append("NestIfBreak");
            push_decimal(out, *i as i64);
            out.append("<if");
            push_natural(out, *w as u64);
            out.append(">(");
            push_doc(out, &**b);
            out.append(")");
        },
        Doc::Break(nl) => {
            out.append("NL(");
            out.append(*nl);
            out.append(")");
        },
        Doc::Group(inside, props) => {
            out.append("SB:<ref");
            push_natural(out, props.1 as u64);
            out.append(">");
            match inside.1 {
                ShouldBreak::Yes => out.append("Yes"),
                ShouldBreak::No => out.append("No"),
            }
            out.append("<");
            push_doc(out, &*inside.0);
            out.append(">");
        },
    }
    assert(final(out)@ =~= old(out)@ + doc_string(*doc));
}

impl<'a> Doc<'a> {
    /// The document as printed for debugging: texts in quotes, breaks, nestings
    /// and groups by name.
    pub fn to_string(&self) -> (r: String)
        ensures
            r@ == doc_string(*self),
    {
        let mut out = String::new();
        push_doc(&mut out, self);
        assert(out@ =~= doc_string(*self));
        out
    }
}

/// The text of a document laid out on one line: its texts, and each break as
/// its own text.
pub open spec fn flat_text(d: Doc) -> Seq<char>
    decreases d,
{
    match d {
        Doc::Nil => Seq::empty(),
        Doc::Cons(a, b, _) => flat_text(*a) + flat_text(*b),
        Doc::Text(s, _, _) => s@,
        Doc::Nest(_, a, _) => flat_text(*a),
        Doc::NestIfBreak(_, a, _, _) => flat_text(*a),
        Doc::Break(s) => s@,
        Doc::Group(g, _) => flat_text(*g.0),
    }
}

/// A document that can be laid out on one line: no group in it must break, and
/// no inline comment sits in the middle of it or of a part of it.
pub open spec fn soft(d: Doc) -> bool
    decreases d,
{
    match d {
        Doc::Nil => true,
        Doc::Cons(a, b, props) => !(props.0 is Middle) && soft(*a) && soft(*b),
        Doc::Text(_, _, _) => true,
        Doc::Nest(_, a, _) => soft(*a),
        Doc::NestIfBreak(_, a, _, _) => soft(*a),
        Doc::Break(_) => true,
        Doc::Group(g, props) => g.1 is No && !(props.0 is Middle) && soft(*g.0),
    }
}

/// The width of a document laid out on one line: its texts and its breaks.
pub open spec fn flat_width(d: Doc) -> int
    decreases d,
{
    match d {
        Doc::Nil => 0,
        Doc::Cons(a, b, _) => flat_width(*a) + flat_width(*b),
        Doc::Text(_, len, _) => len as int,
        Doc::Nest(_, a, _) => flat_width(*a),
        Doc::NestIfBreak(_, a, _, _) => flat_width(*a),
        Doc::Break(s) => s.len() as int,
        Doc::Group(g, _) => flat_width(*g.0),
    }
}

pub open spec fn docs_flat_width(docs: Seq<Triple>) -> int
    decreases docs.len(),
{
    if docs.len() == 0 {
        0
    } else {
        flat_width(*docs[0].2) + docs_flat_width(docs.drop_first())
    }
}

pub open spec fn docs_flat_text(docs: Seq<Triple>) -> Seq<char>
    decreases docs.len(),
{
    if docs.len() == 0 {
        Seq::empty()
    } else {
        flat_text(*docs[0].2) + docs_flat_text(docs.drop_first())
    }
}

pub open spec fn all_soft(docs: Seq<Triple>) -> bool {
    forall|k: int| 0 <= k < docs.len() ==> soft(*#[trigger] docs[k].2)
}

pub proof fn lemma_flat_width_nonneg(d: Rc<Doc>)
    ensures
        flat_width(*d) >= 0,
    decreases *d,
{
    match *d {
        Doc::Cons(a, b, _) => {
            lemma_flat_width_nonneg(a);
            lemma_flat_width_nonneg(b);
        },
        Doc::Nest(_, a, _) => lemma_flat_width_nonneg(a),
        Doc::NestIfBreak(_, a, _, _) => lemma_flat_width_nonneg(a),
        Doc::Group(g, _) => lemma_flat_width_nonneg(g.0),
        _ => {},
    }
}

proof fn lemma_docs_flat_width_nonneg(docs: Seq<Triple>)
    ensures
        docs_flat_width(docs) >= 0,
    decreases docs.len(),
{
    if docs.len() > 0 {
        lemma_flat_width_nonneg(docs[0].2);
        lemma_docs_flat_width_nonneg(docs.drop_first());
    }
}

#[verifier::spinoff_prover]
proof fn lemma_push_front_flat<'a>(x: Triple<'a>, rest: Seq<Triple<'a>>)
    ensures
        docs_flat_width(push_front(x, rest)) == flat_width(*x.2) + docs_flat_width(rest),
        docs_flat_text(push_front(x, rest)) == flat_text(*x.2) + docs_flat_text(rest),
        all_soft(push_front(x, rest)) <==> soft(*x.2) && all_soft(rest),
        all_flat(push_front(x, rest)) <==> x.1 is Flat && all_flat(rest),
{
    lemma_push_front(x, rest);
    let s = push_front(x, rest);
    assert forall|k: int| 0 < k < s.len() implies #[trigger] s[k] == rest[k - 1] by {}
    assert forall|k: int| 0 <= k < rest.len() implies #[trigger] rest[k] == s[k + 1] by {}
}

/// Documents that can be laid out on one line fit in any width at least theirs.
#[verifier::spinoff_prover]
proof fn lemma_soft_fits<'a>(w: int, docs: Seq<Triple<'a>>)
    requires
        all_soft(docs),
        docs_flat_width(docs) <= w,
    ensures
        fits_spec(w, docs),
    decreases docs_size(docs),
{
    lemma_docs_flat_width_nonneg(docs);
    if docs.len() > 0 {
        let i = docs[0].0;
        let m = docs[0].1;
        let rest = docs.drop_first();
        lemma_push_front_flat(docs[0], rest);
        assert(push_front(docs[0], rest) =~= docs);
        match *docs[0].2 {
            Doc::Nil => {
                lemma_soft_fits(w, rest);
            },
            Doc::Cons(first, second, _) => {
                lemma_push_front((i, m, second), rest);
                lemma_push_front((i, m, first), push_front((i, m, second), rest));
                lemma_push_front_flat((i, m, second), rest);
                lemma_push_front_flat((i, m, first), push_front((i, m, second), rest));
                lemma_soft_fits(w, push_front((i, m, first), push_front((i, m, second), rest)));
            },
            Doc::Nest(step, doc, _) => {
                lemma_push_front(((i + step) as i32, m, doc), rest);
                lemma_push_front_flat(((i + step) as i32, m, doc), rest);
                lemma_soft_fits(w, push_front(((i + step) as i32, m, doc), rest));
            },
            Doc::NestIfBreak(step, doc, _, _) => {
                lemma_push_front(((i + step) as i32, m, doc), rest);
                lemma_push_front_flat(((i + step) as i32, m, doc), rest);
                lemma_soft_fits(w, push_front(((i + step) as i32, m, doc), rest));
            },
            Doc::Text(_, len, _) => {
                lemma_soft_fits(w - len, rest);
            },
            Doc::Break(s) => {
                lemma_soft_fits(w - s.len(), rest);
            },
            Doc::Group(g, _) => {
                lemma_push_front((i, Mode::Flat, g.0), rest);
                lemma_push_front_flat((i, Mode::Flat, g.0), rest);
                lemma_soft_fits(w, push_front((i, Mode::Flat, g.0), rest));
            },
        }
    }
}

/// Documents laid out flat that can be laid out on one line, and whose width
/// fits in what is left of the line, print their texts and breaks on that line.
#[verifier::spinoff_prover]
pub proof fn lemma_layout_on_one_line<'a>(
    consumed: int,
    docs: Seq<Triple<'a>>,
    line_length: int,
    broken: Set<usize>,
)
    requires
        all_flat(docs),
        all_soft(docs),
        consumed + docs_flat_width(docs) <= line_length,
    ensures
        sdoc_string(layout(consumed, docs, line_length, broken).0) == docs_flat_text(docs),
    decreases docs_size(docs),
{
    lemma_docs_flat_width_nonneg(docs);
    if docs.len() > 0 {
        let i = docs[0].0;
        let m = docs[0].1;
        let rest = docs.drop_first();
        lemma_push_front_flat(docs[0], rest);
        assert(push_front(docs[0], rest) =~= docs);
        lemma_docs_flat_width_nonneg(rest);
        match *docs[0].2 {
            Doc::Nil => {
                lemma_layout_on_one_line(consumed, rest, line_length, broken);
                assert(docs_flat_text(docs) =~= docs_flat_text(rest));
            },
            Doc::Cons(first, second, _) => {
                let q = push_front((i, m, first), push_front((i, m, second), rest));
                lemma_push_front((i, m, second), rest);
                lemma_push_front((i, m, first), push_front((i, m, second), rest));
                lemma_push_front_flat((i, m, second), rest);
                lemma_push_front_flat((i, m, first), push_front((i, m, second), rest));
                lemma_layout_on_one_line(consumed, q, line_length, broken);
                assert(docs_flat_text(docs) =~= docs_flat_text(q));
            },
            Doc::Nest(step, doc, _) => {
                let q = push_front(((i + step) as i32, m, doc), rest);
                lemma_push_front(((i + step) as i32, m, doc), rest);
                lemma_push_front_flat(((i + step) as i32, m, doc), rest);
                lemma_layout_on_one_line(consumed, q, line_length, broken);
            },
            Doc::NestIfBreak(step, doc, _, observed) => {
                lemma_push_front(((i + step) as i32, m, doc), rest);
                lemma_push_front_flat(((i + step) as i32, m, doc), rest);
                lemma_push_front((i, m, doc), rest);
                lemma_push_front_flat((i, m, doc), rest);
                lemma_layout_on_one_line(consumed, push_front(((i + step) as i32, m, doc), rest), line_length, broken);
                lemma_layout_on_one_line(consumed, push_front((i, m, doc), rest), line_length, broken);
            },
            Doc::Text(s, len, _) => {
                lemma_layout_on_one_line(consumed + len, rest, line_length, broken);
            },
            Doc::Break(s) => {
                assert(m is Flat);
                lemma_layout_on_one_line(consumed + s.len(), rest, line_length, broken);
            },
            Doc::Group(g, props) => {
                lemma_push_front((i, Mode::Flat, g.0), rest);
                lemma_push_front_flat((i, Mode::Flat, g.0), rest);
                lemma_push_front_flat((i, Mode::Flat, g.0), Seq::empty());
                assert(docs_flat_width(Seq::<Triple>::empty()) == 0);
                lemma_soft_fits(line_length - consumed, push_front((i, Mode::Flat, g.0), Seq::empty()));
                assert(push_front((i, Mode::Flat, g.0), Seq::<Triple>::empty()) =~= seq![(i, Mode::Flat, g.0)]);
                lemma_layout_on_one_line(consumed, push_front((i, Mode::Flat, g.0), rest), line_length, broken);
            },
        }
    }
}

/// A document printed from the first column in lines of `line_length` columns.
pub open spec fn rendered(d: Rc<Doc>, line_length: int) -> Seq<char> {
    sdoc_string(layout(0, seq![(0i32, Mode::Flat, d)], line_length, Set::empty()).0)
}

/// A document that can be laid out on one line, and whose width is at most the
/// line length, prints as its texts and breaks on one line.
#[verifier::spinoff_prover]
pub proof fn lemma_rendered_on_one_line(d: Rc<Doc>, line_length: int)
    requires
        soft(*d),
        flat_width(*d) <= line_length,
    ensures
        rendered(d, line_length) == flat_text(*d),
{
    let docs = seq![(0i32, Mode::Flat, d)];
    assert(docs.drop_first() =~= Seq::<Triple>::empty());
    assert(docs_flat_width(Seq::<Triple>::empty()) == 0);
    assert(docs_flat_text(Seq::<Triple>::empty()) =~= Seq::<char>::empty());
    assert(docs_flat_width(docs) == flat_width(*d));
    assert(docs_flat_text(docs) =~= flat_text(*d));
    lemma_layout_on_one_line(0, docs, line_length, Set::empty());
}

} // verus!
