//! The grammar of R that the parser reads, stated over the sequence of tokens
//! (with their comments squeezed in) and giving concrete syntax trees.
use crate::tokens::{CommentedTokenV, TokenV};
use vstd::prelude::*;

verus! {

/// The kinds of the nodes of a concrete syntax tree.
pub enum NodeKind {
    Symbol,
    Literal,
    Comment,
    Term,
    Unary,
    Bop,
    Formula,
    Newline,
    Whitespace,
    EOF,
    FunctionDef,
    Lambda,
    If,
    While,
    Repeat,
    Call,
    Subset,
    For,
    Break,
    Continue,
    Args,
    Arg,
    Paren,
    SingleBracket,
    DoubleBracket,
    IfConditional,
    ElseIf,
    TrailingElse,
    /// A part that is absent (an optional delimiter, comma or else branch).
    Absent,
    /// A list of parts.
    List,
}

/// A concrete syntax tree: its leaves are the tokens, in the order of the program.
pub enum Cst {
    Leaf(CommentedTokenV),
    Node(NodeKind, Seq<Cst>),
}

/// The tokens that a tree holds, in order.
pub open spec fn leaves(c: Cst) -> Seq<CommentedTokenV>
    decreases c,
{
    match c {
        Cst::Leaf(t) => seq![t],
        Cst::Node(_, kids) => leaves_of(kids),
    }
}

pub open spec fn leaves_of(s: Seq<Cst>) -> Seq<CommentedTokenV>
    decreases s,
{
    if s.len() == 0 {
        Seq::empty()
    } else {
        leaves(s[0]) + leaves_of(s.drop_first())
    }
}

/// The binary operators.
#[verifier::opaque]
pub open spec fn is_binop(t: TokenV) -> bool {
    match t {
        TokenV::Help | TokenV::RAssign | TokenV::Tilde | TokenV::Or | TokenV::VectorizedOr
        | TokenV::And | TokenV::VectorizedAnd | TokenV::NotEqual | TokenV::GreaterThan
        | TokenV::GreaterEqual | TokenV::LowerThan | TokenV::LowerEqual | TokenV::Equal
        | TokenV::Plus | TokenV::Modulo | TokenV::Minus | TokenV::Multiply | TokenV::Divide
        | TokenV::Colon | TokenV::Dollar | TokenV::Slot | TokenV::NsGet | TokenV::NsGetInt
        | TokenV::LAssign | TokenV::OldAssign | TokenV::Power | TokenV::Pipe | TokenV::Special(
            _,
        ) => true,
        _ => false,
    }
}

// Precedence table from https://github.com/SurajGupta/r-source/blob/master/src/main/gram.y
// /* This is the precedence table, low to high */
// %left		'?'
// %left		LOW WHILE FOR REPEAT
// %right		IF
// %left		ELSE
// %right		LEFT_ASSIGN
// %right		EQ_ASSIGN
// %left		RIGHT_ASSIGN
// %left		'~' TILDE
// %left		OR OR3
// %left		AND AND3
// %left		UNOT NOT
// %nonassoc   	GT GE LT LE EQ NE
// %left		'+' '-'
// %left		'*' '/'
// %left		SPECIAL
// %left		':'
// %left		UMINUS UPLUS
// %right		'^'
// %left		'$' '@'
// %left		NS_GET NS_GET_INT
// %nonassoc	'(' '[' LBB
/// The precedence of a binary operator (0 for a token that is none).
#[verifier::opaque]
pub open spec fn prec(t: TokenV) -> int {
    match t {
        TokenV::Help => 1,
        TokenV::LAssign => 5,
        TokenV::OldAssign => 6,
        TokenV::RAssign => 7,
        TokenV::Pipe => 8,
        TokenV::Tilde => 8,
        TokenV::Or | TokenV::VectorizedOr => 9,
        TokenV::And | TokenV::VectorizedAnd => 10,
        TokenV::GreaterThan | TokenV::GreaterEqual | TokenV::LowerThan | TokenV::LowerEqual
        | TokenV::Equal | TokenV::NotEqual => 12,
        TokenV::Plus | TokenV::Minus => 13,
        TokenV::Multiply | TokenV::Divide => 14,
        TokenV::Special(_) | TokenV::Modulo => 15,
        TokenV::Colon => 16,
        TokenV::Power => 18,
        TokenV::Dollar | TokenV::Slot => 19,
        TokenV::NsGet | TokenV::NsGetInt => 20,
        _ => 0,
    }
}

/// The right-associative operators.
#[verifier::opaque]
pub open spec fn is_right_assoc(t: TokenV) -> bool {
    t is LAssign || t is OldAssign || t is Power
}

/// The left-associative operators.
#[verifier::opaque]
pub open spec fn is_left_assoc(t: TokenV) -> bool {
    match t {
        TokenV::Help | TokenV::RAssign | TokenV::Tilde | TokenV::Or | TokenV::VectorizedOr
        | TokenV::And | TokenV::VectorizedAnd | TokenV::NotEqual | TokenV::Plus | TokenV::Minus
        | TokenV::Multiply | TokenV::Divide | TokenV::Colon | TokenV::Dollar | TokenV::Slot
        | TokenV::NsGet | TokenV::NsGetInt | TokenV::Modulo => true,
        _ => false,
    }
}

/// The binary operators are exactly the tokens that have a precedence, and
/// every associative operator is a binary operator.
pub proof fn lemma_binary_operators_have_a_precedence(t: TokenV)
    ensures
        is_binop(t) <==> prec(t) > 0,
        is_right_assoc(t) ==> is_binop(t),
        is_left_assoc(t) ==> is_binop(t),
{
    reveal(is_binop);
    reveal(prec);
    reveal(is_right_assoc);
    reveal(is_left_assoc);
}

#[verifier::opaque]
pub open spec fn is_unary_op(t: TokenV) -> bool {
    t is Minus || t is Plus || t is UnaryNot || t is Tilde || t is Help
}

pub open spec fn leaf(toks: Seq<CommentedTokenV>, pos: int) -> Cst {
    Cst::Leaf(toks[pos])
}

pub open spec fn node(k: NodeKind, kids: Seq<Cst>) -> Cst {
    Cst::Node(k, kids)
}

pub open spec fn absent() -> Cst {
    Cst::Node(NodeKind::Absent, Seq::empty())
}

pub open spec fn token_is(toks: Seq<CommentedTokenV>, pos: int, pred: spec_fn(TokenV) -> bool) -> bool {
    0 <= pos < toks.len() && pred(toks[pos].token)
}

/// A result whose position is at least `min` and within the tokens; `None` otherwise.
pub open spec fn after(toks: Seq<CommentedTokenV>, r: Option<(int, Cst)>, min: int) -> Option<(int, Cst)> {
    match r {
        Some((k, c)) => if min <= k <= toks.len() {
            Some((k, c))
        } else {
            None
        },
        None => None,
    }
}

/// The position after the newlines that start at `pos`.
pub open spec fn skip_newlines(toks: Seq<CommentedTokenV>, pos: int) -> int
    decreases toks.len() - pos,
{
    if 0 <= pos < toks.len() && toks[pos].token is Newline {
        skip_newlines(toks, pos + 1)
    } else {
        pos
    }
}

/// The end of the whole-line comments and newlines that start at `pos`.
pub open spec fn blank_end(toks: Seq<CommentedTokenV>, pos: int) -> int
    decreases toks.len() - pos,
{
    if 0 <= pos < toks.len() && (toks[pos].token is Newline || toks[pos].token is Comment) {
        blank_end(toks, pos + 1)
    } else {
        pos
    }
}

pub proof fn lemma_skip_newlines(toks: Seq<CommentedTokenV>, pos: int)
    requires
        0 <= pos,
    ensures
        pos <= skip_newlines(toks, pos),
        pos <= toks.len() ==> skip_newlines(toks, pos) <= toks.len(),
        skip_newlines(toks, pos) < toks.len() ==> !(toks[skip_newlines(toks, pos)].token is Newline),
    decreases toks.len() - pos,
{
    if 0 <= pos < toks.len() && toks[pos].token is Newline {
        lemma_skip_newlines(toks, pos + 1);
    }
}

pub proof fn lemma_blank_end(toks: Seq<CommentedTokenV>, pos: int)
    requires
        0 <= pos,
    ensures
        pos <= blank_end(toks, pos),
        pos <= toks.len() ==> blank_end(toks, pos) <= toks.len(),
    decreases toks.len() - pos,
{
    if 0 <= pos < toks.len() && (toks[pos].token is Newline || toks[pos].token is Comment) {
        lemma_blank_end(toks, pos + 1);
    }
}

/// One token that satisfies `pred`, as a leaf.
pub open spec fn accept(toks: Seq<CommentedTokenV>, pos: int, pred: spec_fn(TokenV) -> bool) -> Option<
    (int, Cst),
> {
    if token_is(toks, pos, pred) {
        Some((pos + 1, leaf(toks, pos)))
    } else {
        None
    }
}

/// A run of whole-line comments and newlines, as a whitespace node.
pub open spec fn whitespace(toks: Seq<CommentedTokenV>, pos: int) -> Option<(int, Cst)> {
    let k = blank_end(toks, pos);
    if pos < 0 || pos >= toks.len() || k == pos {
        None
    } else {
        Some(
            (
                k,
                node(
                    NodeKind::Whitespace,
                    toks.subrange(pos, k).map_values(|t: CommentedTokenV| Cst::Leaf(t)),
                ),
            ),
        )
    }
}

/// The kinds of delimiters around a list of arguments.
#[derive(Clone, Copy)]
pub enum DelimKind {
    Paren,
    DoubleBracket,
    SingleBracket,
}

pub open spec fn open_delim(toks: Seq<CommentedTokenV>, pos: int, kind: DelimKind) -> Option<(int, Cst)> {
    match kind {
        DelimKind::Paren => if token_is(toks, pos, |t: TokenV| t is LParen) {
            Some((pos + 1, node(NodeKind::Paren, seq![leaf(toks, pos)])))
        } else {
            None
        },
        DelimKind::DoubleBracket => if token_is(toks, pos, |t: TokenV| t is LSubscript)
            && token_is(toks, pos + 1, |t: TokenV| t is LSubscript) {
            Some((pos + 2, node(NodeKind::DoubleBracket, seq![leaf(toks, pos), leaf(toks, pos + 1)])))
        } else {
            None
        },
        DelimKind::SingleBracket => if token_is(toks, pos, |t: TokenV| t is LSubscript) {
            Some((pos + 1, node(NodeKind::SingleBracket, seq![leaf(toks, pos)])))
        } else {
            None
        },
    }
}

pub open spec fn close_delim(toks: Seq<CommentedTokenV>, pos: int, kind: DelimKind) -> Option<(int, Cst)> {
    match kind {
        DelimKind::Paren => if token_is(toks, pos, |t: TokenV| t is RParen) {
            Some((pos + 1, node(NodeKind::Paren, seq![leaf(toks, pos)])))
        } else {
            None
        },
        DelimKind::DoubleBracket => if token_is(toks, pos, |t: TokenV| t is RSubscript)
            && token_is(toks, pos + 1, |t: TokenV| t is RSubscript) {
            Some((pos + 2, node(NodeKind::DoubleBracket, seq![leaf(toks, pos), leaf(toks, pos + 1)])))
        } else {
            None
        },
        DelimKind::SingleBracket => if token_is(toks, pos, |t: TokenV| t is RSubscript) {
            Some((pos + 1, node(NodeKind::SingleBracket, seq![leaf(toks, pos)])))
        } else {
            None
        },
    }
}

/// A term: a compound expression, `break`, `next`, a symbol, a literal, an
/// expression in parentheses or a block in braces.
#[verifier::opaque]
pub open spec fn term_expr(toks: Seq<CommentedTokenV>, pos: int) -> Option<(int, Cst)>
    decreases toks.len() - pos, 2nat,
{
    if pos < 0 || pos >= toks.len() {
        None
    } else {
        let t = toks[pos].token;
        if t is For {
            for_loop_expression(toks, pos)
        } else if t is While {
            while_expression(toks, pos)
        } else if t is Repeat {
            repeat_expression(toks, pos)
        } else if t is Function {
            function_def(toks, pos)
        } else if t is Lambda {
            lambda_function(toks, pos)
        } else if t is If {
            if_expression(toks, pos)
        } else if t is Break {
            Some((pos + 1, node(NodeKind::Break, seq![leaf(toks, pos)])))
        } else if t is Continue {
            Some((pos + 1, node(NodeKind::Continue, seq![leaf(toks, pos)])))
        } else if t is Symbol {
            Some((pos + 1, node(NodeKind::Symbol, seq![leaf(toks, pos)])))
        } else if t is Literal {
            Some((pos + 1, node(NodeKind::Literal, seq![leaf(toks, pos)])))
        } else if t is LParen {
            let p1 = skip_newlines(toks, pos + 1);
            proof {
                lemma_skip_newlines(toks, pos + 1);
            }
            let (p2, inner) = match after(toks, expr(toks, p1), p1 + 1) {
                Some((k, c)) => (k, seq![c]),
                None => (p1, Seq::<Cst>::empty()),
            };
            let p3 = skip_newlines(toks, p2);
            if token_is(toks, p3, |t: TokenV| t is RParen) {
                Some(
                    (
                        p3 + 1,
                        node(
                            NodeKind::Term,
                            seq![leaf(toks, pos), node(NodeKind::List, inner), leaf(toks, p3)],
                        ),
                    ),
                )
            } else {
                None
            }
        } else if t is LBrace {
            let p1 = skip_newlines(toks, pos + 1);
            proof {
                lemma_skip_newlines(toks, pos + 1);
            }
            let (p2, stmts) = statements(toks, p1);
            let p3 = skip_newlines(toks, p2);
            if token_is(toks, p3, |t: TokenV| t is RBrace) {
                Some(
                    (
                        p3 + 1,
                        node(
                            NodeKind::Term,
                            seq![leaf(toks, pos), node(NodeKind::List, stmts), leaf(toks, p3)],
                        ),
                    ),
                )
            } else {
                None
            }
        } else {
            None
        }
    }
}

/// `for ( identifier in collection ) body`, newlines allowed around the parts.
#[verifier::opaque]
pub open spec fn for_loop_expression(toks: Seq<CommentedTokenV>, pos: int) -> Option<(int, Cst)>
    decreases toks.len() - pos, 0nat,
{
    if pos < 0 || pos >= toks.len() || !(toks[pos].token is For) {
        None
    } else {
        let p1 = skip_newlines(toks, pos + 1);
        proof {
            lemma_skip_newlines(toks, pos + 1);
        }
        if !token_is(toks, p1, |t: TokenV| t is LParen) {
            None
        } else {
            let p2 = skip_newlines(toks, p1 + 1);
            proof {
                lemma_skip_newlines(toks, p1 + 1);
            }
            match after(toks, expr(toks, p2), p2 + 1) {
                None => None,
                Some((p3, identifier)) => {
                    let p4 = skip_newlines(toks, p3);
                    proof {
                        lemma_skip_newlines(toks, p3);
                    }
                    if !token_is(toks, p4, |t: TokenV| t is In) {
                        None
                    } else {
                        let p5 = skip_newlines(toks, p4 + 1);
                        proof {
                            lemma_skip_newlines(toks, p4 + 1);
                        }
                        match after(toks, expr(toks, p5), p5 + 1) {
                            None => None,
                            Some((p6, collection)) => {
                                let p7 = skip_newlines(toks, p6);
                                proof {
                                    lemma_skip_newlines(toks, p6);
                                }
                                if !token_is(toks, p7, |t: TokenV| t is RParen) {
                                    None
                                } else {
                                    let p8 = skip_newlines(toks, p7 + 1);
                                    proof {
                                        lemma_skip_newlines(toks, p7 + 1);
                                    }
                                    match after(toks, expr(toks, p8), p8 + 1) {
                                        None => None,
                                        Some((p9, body)) => Some(
                                            (
                                                p9,
                                                node(
                                                    NodeKind::For,
                                                    seq![
                                                        leaf(toks, pos),
                                                        node(NodeKind::Paren, seq![leaf(toks, p1)]),
                                                        identifier,
                                                        leaf(toks, p4),
                                                        collection,
                                                        node(NodeKind::Paren, seq![leaf(toks, p7)]),
                                                        body,
                                                    ],
                                                ),
                                            ),
                                        ),
                                    }
                                }
                            },
                        }
                    }
                },
            }
        }
    }
}

/// `while condition body`, newlines allowed after the keyword and the condition.
#[verifier::opaque]
pub open spec fn while_expression(toks: Seq<CommentedTokenV>, pos: int) -> Option<(int, Cst)>
    decreases toks.len() - pos, 0nat,
{
    if pos < 0 || pos >= toks.len() || !(toks[pos].token is While) {
        None
    } else {
        let p1 = skip_newlines(toks, pos + 1);
        proof {
            lemma_skip_newlines(toks, pos + 1);
        }
        match after(toks, expr(toks, p1), p1 + 1) {
            None => None,
            Some((p2, condition)) => {
                let p3 = skip_newlines(toks, p2);
                proof {
                    lemma_skip_newlines(toks, p2);
                }
                match after(toks, expr(toks, p3), p3 + 1) {
                    None => None,
                    Some((p4, body)) => Some(
                        (p4, node(NodeKind::While, seq![leaf(toks, pos), condition, body])),
                    ),
                }
            },
        }
    }
}

/// `repeat body`, newlines allowed after the keyword.
#[verifier::opaque]
pub open spec fn repeat_expression(toks: Seq<CommentedTokenV>, pos: int) -> Option<(int, Cst)>
    decreases toks.len() - pos, 0nat,
{
    if pos < 0 || pos >= toks.len() || !(toks[pos].token is Repeat) {
        None
    } else {
        let p1 = skip_newlines(toks, pos + 1);
        proof {
            lemma_skip_newlines(toks, pos + 1);
        }
        match after(toks, expr(toks, p1), p1 + 1) {
            None => None,
            Some((p2, body)) => Some((p2, node(NodeKind::Repeat, seq![leaf(toks, pos), body]))),
        }
    }
}

/// `function ( arguments ) body`, newlines allowed after the keyword and the arguments.
#[verifier::opaque]
pub open spec fn function_def(toks: Seq<CommentedTokenV>, pos: int) -> Option<(int, Cst)>
    decreases toks.len() - pos, 0nat,
{
    if pos < 0 || pos >= toks.len() || !(toks[pos].token is Function) {
        None
    } else {
        let p1 = skip_newlines(toks, pos + 1);
        proof {
            lemma_skip_newlines(toks, pos + 1);
        }
        match after(toks, delimited_comma_sep_exprs(toks, p1, DelimKind::Paren), p1 + 1) {
            None => None,
            Some((p2, args)) => {
                let p3 = skip_newlines(toks, p2);
                proof {
                    lemma_skip_newlines(toks, p2);
                }
                match after(toks, expr(toks, p3), p3 + 1) {
                    None => None,
                    Some((p4, body)) => Some(
                        (p4, node(NodeKind::FunctionDef, seq![leaf(toks, pos), args, body])),
                    ),
                }
            },
        }
    }
}

/// `\ ( arguments ) body`, the body being a statement.
#[verifier::opaque]
pub open spec fn lambda_function(toks: Seq<CommentedTokenV>, pos: int) -> Option<(int, Cst)>
    decreases toks.len() - pos, 0nat,
{
    if pos < 0 || pos >= toks.len() || !(toks[pos].token is Lambda) {
        None
    } else {
        let p1 = skip_newlines(toks, pos + 1);
        proof {
            lemma_skip_newlines(toks, pos + 1);
        }
        match after(toks, delimited_comma_sep_exprs(toks, p1, DelimKind::Paren), p1 + 1) {
            None => None,
            Some((p2, args)) => {
                let p3 = skip_newlines(toks, p2);
                proof {
                    lemma_skip_newlines(toks, p2);
                }
                match after(toks, statement_or_expr(toks, p3), p3 + 1) {
                    None => None,
                    Some((p4, body)) => Some(
                        (p4, node(NodeKind::Lambda, seq![leaf(toks, pos), args, body])),
                    ),
                }
            },
        }
    }
}

/// `if ( condition ) body`.
#[verifier::opaque]
pub open spec fn if_conditional(toks: Seq<CommentedTokenV>, pos: int) -> Option<(int, Cst)>
    decreases toks.len() - pos, 0nat,
{
    if pos < 0 || pos >= toks.len() || !(toks[pos].token is If) || !token_is(
        toks,
        pos + 1,
        |t: TokenV| t is LParen,
    ) {
        None
    } else {
        match after(toks, expr(toks, pos + 2), pos + 3) {
            None => None,
            Some((p1, condition)) => if !token_is(toks, p1, |t: TokenV| t is RParen) {
                None
            } else {
                match after(toks, expr(toks, p1 + 1), p1 + 2) {
                    None => None,
                    Some((p2, body)) => Some(
                        (
                            p2,
                            node(
                                NodeKind::IfConditional,
                                seq![leaf(toks, pos), leaf(toks, pos + 1), condition, leaf(toks, p1), body],
                            ),
                        ),
                    ),
                }
            },
        }
    }
}

/// The `else if ( condition ) body` that follow, as many as there are.
#[verifier::opaque]
pub open spec fn else_ifs(toks: Seq<CommentedTokenV>, pos: int) -> (int, Seq<Cst>)
    decreases toks.len() - pos, 0nat,
{
    if pos < 0 || pos >= toks.len() || !(toks[pos].token is Else) {
        (pos, Seq::empty())
    } else {
        match after(toks, if_conditional(toks, pos + 1), pos + 2) {
            None => (pos, Seq::empty()),
            Some((p1, conditional)) => {
                let (p2, rest) = else_ifs(toks, p1);
                (p2, seq![node(NodeKind::ElseIf, seq![leaf(toks, pos), conditional])] + rest)
            },
        }
    }
}

/// `else body`.
#[verifier::opaque]
pub open spec fn trailing_else(toks: Seq<CommentedTokenV>, pos: int) -> Option<(int, Cst)>
    decreases toks.len() - pos, 0nat,
{
    if pos < 0 || pos >= toks.len() || !(toks[pos].token is Else) {
        None
    } else {
        match after(toks, expr(toks, pos + 1), pos + 2) {
            None => None,
            Some((p1, body)) => Some((p1, node(NodeKind::TrailingElse, seq![leaf(toks, pos), body]))),
        }
    }
}

/// An `if` conditional, the `else if` ones that follow and an optional trailing `else`.
#[verifier::opaque]
pub open spec fn if_expression(toks: Seq<CommentedTokenV>, pos: int) -> Option<(int, Cst)>
    decreases toks.len() - pos, 1nat,
{
    if pos < 0 || pos >= toks.len() {
        None
    } else {
    match after(toks, if_conditional(toks, pos), pos + 1) {
        None => None,
        Some((p1, conditional)) => {
            let (p2, elses) = else_ifs(toks, p1);
            if p2 < p1 || p2 > toks.len() {
                None
            } else {
                let (p3, trailing) = match after(toks, trailing_else(toks, p2), p2 + 1) {
                    Some((k, c)) => (k, c),
                    None => (p2, absent()),
                };
                Some((p3, node(NodeKind::If, seq![conditional, node(NodeKind::List, elses), trailing])))
            }
        },
    }
    }
}

/// The arguments from the one already read, `prev`, on: each argument with the
/// comma that follows it (a comma is kept as a literal), newlines allowed
/// around the commas; the last argument has none.
#[verifier::opaque]
pub open spec fn args_rest(toks: Seq<CommentedTokenV>, pos: int, prev: Cst) -> (int, Seq<Cst>)
    decreases toks.len() - pos, 0nat,
{
    let last = seq![node(NodeKind::Arg, seq![prev, absent()])];
    if pos < 0 || pos >= toks.len() || !(toks[pos].token is Comma) {
        (pos, last)
    } else {
        let p1 = skip_newlines(toks, pos + 1);
        proof {
            lemma_skip_newlines(toks, pos + 1);
        }
        match after(toks, expr(toks, p1), p1 + 1) {
            None => (pos, last),
            Some((p2, x)) => {
                let p3 = skip_newlines(toks, p2);
                proof {
                    lemma_skip_newlines(toks, p2);
                }
                let (p4, rest) = args_rest(toks, p3, x);
                (
                    p4,
                    seq![node(NodeKind::Arg, seq![prev, node(NodeKind::Literal, seq![leaf(toks, pos)])])]
                        + rest,
                )
            },
        }
    }
}

/// A delimited list of comma separated expressions.
#[verifier::opaque]
pub open spec fn delimited_comma_sep_exprs(
    toks: Seq<CommentedTokenV>,
    pos: int,
    kind: DelimKind,
) -> Option<(int, Cst)>
    decreases toks.len() - pos, 0nat,
{
    if pos < 0 || pos >= toks.len() {
        None
    } else {
        match open_delim(toks, pos, kind) {
            None => None,
            Some((p1, ldelim)) => {
                let p2 = skip_newlines(toks, p1);
                proof {
                    lemma_skip_newlines(toks, p1);
                }
                let (p3, args) = match after(toks, expr(toks, p2), p2 + 1) {
                    None => (p2, Seq::<Cst>::empty()),
                    Some((k, x0)) => args_rest(toks, k, x0),
                };
                let p4 = skip_newlines(toks, p3);
                match close_delim(toks, p4, kind) {
                    None => None,
                    Some((p5, rdelim)) => Some(
                        (p5, node(NodeKind::Args, seq![ldelim, node(NodeKind::List, args), rdelim])),
                    ),
                }
            },
        }
    }
}

/// The calls and subsets that follow a term, applied to it in turn.
#[verifier::opaque]
pub open spec fn tails(toks: Seq<CommentedTokenV>, pos: int, acc: Cst) -> Option<(int, Cst)>
    decreases toks.len() - pos, 1nat,
{
    if pos < 0 || pos > toks.len() {
        None
    } else {
        match after(toks, delimited_comma_sep_exprs(toks, pos, DelimKind::Paren), pos + 1) {
            Some((k, args)) => tails(toks, k, node(NodeKind::Call, seq![acc, args])),
            None => match after(toks, 
                delimited_comma_sep_exprs(toks, pos, DelimKind::DoubleBracket),
                pos + 1,
            ) {
                Some((k, args)) => tails(toks, k, node(NodeKind::Subset, seq![acc, args])),
                None => match after(toks, 
                    delimited_comma_sep_exprs(toks, pos, DelimKind::SingleBracket),
                    pos + 1,
                ) {
                    Some((k, args)) => tails(toks, k, node(NodeKind::Subset, seq![acc, args])),
                    None => Some((pos, acc)),
                },
            },
        }
    }
}

/// A term followed by its calls and subsets.
#[verifier::opaque]
pub open spec fn atomic_term(toks: Seq<CommentedTokenV>, pos: int) -> Option<(int, Cst)>
    decreases toks.len() - pos, 3nat,
{
    match after(toks, term_expr(toks, pos), pos + 1) {
        None => None,
        Some((k, term)) => tails(toks, k, term),
    }
}

/// A formula (`~` expression), a unary operator applied to a unary term, or an atomic term.
#[verifier::opaque]
pub open spec fn unary_term(toks: Seq<CommentedTokenV>, pos: int) -> Option<(int, Cst)>
    decreases toks.len() - pos, 4nat,
{
    if pos < 0 || pos >= toks.len() {
        None
    } else {
        let formula = if toks[pos].token is Tilde {
            after(toks, expr(toks, pos + 1), pos + 2)
        } else {
            None
        };
        match formula {
            Some((k, e)) => Some((k, node(NodeKind::Formula, seq![leaf(toks, pos), e]))),
            None => {
                let unary = if is_unary_op(toks[pos].token) {
                    after(toks, unary_term(toks, pos + 1), pos + 2)
                } else {
                    None
                };
                match unary {
                    Some((k, e)) => Some((k, node(NodeKind::Unary, seq![leaf(toks, pos), e]))),
                    None => atomic_term(toks, pos),
                }
            },
        }
    }
}

/// Binary operators of precedence at least `min_prec` applied in turn to `lhs`:
/// precedence climbing.
#[verifier::opaque]
pub open spec fn climb(toks: Seq<CommentedTokenV>, pos: int, lhs: Cst, min_prec: int) -> Option<
    (int, Cst),
>
    decreases toks.len() - pos, 0nat,
{
    if pos < 0 || pos >= toks.len() {
        None
    } else {
        let op = toks[pos].token;
        if is_binop(op) && prec(op) >= min_prec {
            let j = skip_newlines(toks, pos + 1);
            proof {
                lemma_skip_newlines(toks, pos + 1);
            }
            if j >= toks.len() {
                None
            } else {
                match after(toks, unary_term(toks, j), j + 1) {
                    None => None,
                    Some((k, rhs)) => match after(toks, climb_rhs(toks, k, rhs, op), k) {
                        None => None,
                        Some((k2, rhs2)) => climb(
                            toks,
                            k2,
                            node(NodeKind::Bop, seq![lhs, leaf(toks, pos), rhs2]),
                            min_prec,
                        ),
                    },
                }
            }
        } else {
            Some((pos, lhs))
        }
    }
}

/// The right operand of `op`, extended with the operators that bind tighter than
/// `op` (or as tight, when right associative).
#[verifier::opaque]
pub open spec fn climb_rhs(toks: Seq<CommentedTokenV>, pos: int, rhs: Cst, op: TokenV) -> Option<
    (int, Cst),
>
    decreases toks.len() - pos, 1nat,
{
    if pos < 0 || pos >= toks.len() {
        None
    } else {
        let la = toks[pos].token;
        if is_binop(la) && (prec(la) > prec(op) || (is_right_assoc(la) && prec(op) == prec(la))) {
            let q = prec(op) + if prec(la) > prec(op) {
                1int
            } else {
                0int
            };
            match after(toks, climb(toks, pos, rhs, q), pos + 1) {
                None => None,
                Some((k, r2)) => climb_rhs(toks, k, r2, op),
            }
        } else {
            Some((pos, rhs))
        }
    }
}

/// An expression: a unary term, and the binary operators that follow it.
#[verifier::opaque]
pub open spec fn expr(toks: Seq<CommentedTokenV>, pos: int) -> Option<(int, Cst)>
    decreases toks.len() - pos, 5nat,
{
    match after(toks, unary_term(toks, pos), pos + 1) {
        None => None,
        Some((k, term)) => if k >= toks.len() {
            Some((k, term))
        } else {
            climb(toks, k, term, 0)
        },
    }
}

/// An expression with an optional `;` or newline after it, a run of whole-line
/// comments and newlines, or the end of the program.
#[verifier::opaque]
pub open spec fn statement_or_expr(toks: Seq<CommentedTokenV>, pos: int) -> Option<(int, Cst)>
    decreases toks.len() - pos, 6nat,
{
    match after(toks, expr(toks, pos), pos + 1) {
        Some((k, e)) => if token_is(toks, k, |t: TokenV| t is Semicolon || t is Newline) {
            Some((k + 1, e))
        } else {
            Some((k, e))
        },
        None => match whitespace(toks, pos) {
            Some(r) => Some(r),
            None => if token_is(toks, pos, |t: TokenV| t is EOF) {
                Some((pos + 1, node(NodeKind::EOF, seq![leaf(toks, pos)])))
            } else {
                None
            },
        },
    }
}

/// Statements, as many as there are.
#[verifier::opaque]
pub open spec fn statements(toks: Seq<CommentedTokenV>, pos: int) -> (int, Seq<Cst>)
    decreases toks.len() - pos, 7nat,
{
    match after(toks, statement_or_expr(toks, pos), pos + 1) {
        None => (pos, Seq::empty()),
        Some((k, s)) => {
            let (k2, rest) = statements(toks, k);
            (k2, seq![s] + rest)
        },
    }
}

/// The statements of a program from `pos` up to its `EOF` token, which ends the list.
/// `None` where a statement cannot be read, or the tokens end without `EOF`.
pub open spec fn program_from(toks: Seq<CommentedTokenV>, pos: int) -> Option<Seq<Cst>>
    decreases toks.len() - pos, 8nat,
{
    if pos < 0 || pos >= toks.len() {
        None
    } else if toks[pos].token is EOF {
        Some(seq![node(NodeKind::EOF, seq![leaf(toks, pos)])])
    } else {
        match after(toks, statement_or_expr(toks, pos), pos + 1) {
            None => None,
            Some((k, s)) => match program_from(toks, k) {
                None => None,
                Some(rest) => Some(seq![s] + rest),
            },
        }
    }
}

} // verus!
