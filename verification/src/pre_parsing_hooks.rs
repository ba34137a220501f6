use crate::tokens::{CommentedToken, CommentedTokenV, Token, TokenV};
use vstd::prelude::*;

verus! {

pub open spec fn tokens_view(s: Seq<CommentedToken>) -> Seq<CommentedTokenV> {
    s.map_values(|t: CommentedToken| t@)
}

/// The comments of a run of whole-line comments and newlines that starts at `j`,
/// `comments` being those read before it: a newline that follows a newline adds
/// an empty comment (a blank line). The run ends at the first token that is neither;
/// `None` when the tokens end inside the run.
pub open spec fn comment_run(toks: Seq<CommentedTokenV>, j: int, comments: Seq<Seq<char>>) -> Option<
    (int, Seq<Seq<char>>),
>
    decreases toks.len() - j,
{
    if j < 1 || j >= toks.len() {
        None
    } else if toks[j].token is Newline {
        comment_run(
            toks,
            j + 1,
            if toks[j - 1].token is Newline {
                comments.push(Seq::empty())
            } else {
                comments
            },
        )
    } else if toks[j].token is Comment {
        comment_run(toks, j + 1, comments.push(toks[j].token->Comment_0))
    } else {
        Some((j, comments))
    }
}

pub open spec fn with_leading(t: CommentedTokenV, comments: Seq<Seq<char>>) -> CommentedTokenV {
    CommentedTokenV { leading_comments: Some(comments), ..t }
}

pub open spec fn with_inline(t: CommentedTokenV, comment: Seq<char>) -> CommentedTokenV {
    CommentedTokenV { inline_comment: Some(comment), ..t }
}

/// The tokens kept from position `it` on, after `out`: comments are squeezed into
/// the tokens. A run of whole-line comments goes to the token that ends the run as
/// its leading comments; an inline comment goes to the token before it (when that
/// token is kept, `last_kept`). `None` when a run of comments reaches the end of the
/// tokens, or an inline comment comes first.
pub open spec fn squeeze_from(
    toks: Seq<CommentedTokenV>,
    it: int,
    out: Seq<CommentedTokenV>,
    last_kept: bool,
) -> Option<Seq<CommentedTokenV>>
    decreases toks.len() - it,
{
    if it < 0 {
        None
    } else if it >= toks.len() {
        Some(out)
    } else if toks[it].token is Comment {
        match comment_run(toks, it + 1, seq![toks[it].token->Comment_0]) {
            None => None,
            Some((j, comments)) => if it < j < toks.len() {
                squeeze_from(toks, j + 1, out.push(with_leading(toks[j], comments)), true)
            } else {
                None
            },
        }
    } else if toks[it].token is InlineComment {
        if it == 0 {
            None
        } else if last_kept && out.len() > 0 {
            squeeze_from(
                toks,
                it + 1,
                out.drop_last().push(with_inline(out.last(), toks[it].token->InlineComment_0)),
                false,
            )
        } else {
            squeeze_from(toks, it + 1, out, false)
        }
    } else {
        squeeze_from(toks, it + 1, out.push(toks[it]), true)
    }
}

/// The tokens of a program with its comments squeezed into them.
pub open spec fn squeeze_comments(toks: Seq<CommentedTokenV>) -> Option<Seq<CommentedTokenV>> {
    squeeze_from(toks, 0, Seq::empty(), false)
}

proof fn lemma_tokens_view_push(s: Seq<CommentedToken>, t: CommentedToken)
    ensures
        tokens_view(s.push(t)) == tokens_view(s).push(t@),
{
    assert(tokens_view(s.push(t)) =~= tokens_view(s).push(t@));
}

proof fn lemma_tokens_view_drop_last(s: Seq<CommentedToken>)
    requires
        s.len() > 0,
    ensures
        tokens_view(s.drop_last()) == tokens_view(s).drop_last(),
        tokens_view(s).last() == s.last()@,
{
    assert(tokens_view(s.drop_last()) =~= tokens_view(s).drop_last());
}

pub proof fn lemma_comment_run(toks: Seq<CommentedTokenV>, j: int, comments: Seq<Seq<char>>)
    ensures
        comment_run(toks, j, comments) matches Some((k, _)) ==> j <= k < toks.len(),
        comment_run(toks, j, comments) matches Some((k, _)) ==> !(toks[k].token is Comment),
        comment_run(toks, j, comments) matches Some((k, _)) ==> !(toks[k].token is Newline),
    decreases toks.len() - j,
{
    if 1 <= j < toks.len() {
        if toks[j].token is Newline {
            let c2 = if toks[j - 1].token is Newline {
                comments.push(Seq::empty())
            } else {
                comments
            };
            lemma_comment_run(toks, j + 1, c2);
        } else if toks[j].token is Comment {
            lemma_comment_run(toks, j + 1, comments.push(toks[j].token->Comment_0));
        }
    }
}

/// This function aims to squeeze the comments into the tokens, so the
/// parser doesn't have to worry about comments.
///
/// It achieves this by attaching all the comments that precede
/// a token, and the inline comments that follow a token to the token itself.
/// Thus, all the comments are attached to non-comment tokens.
/// The comments are then unfurled in the formatting stage.
pub fn pre_parse<'a>(tokens: &[CommentedToken<'a>]) -> (r: Vec<CommentedToken<'a>>)
    requires
        squeeze_comments(tokens_view(tokens@)) is Some,
    ensures
        tokens_view(r@) == squeeze_comments(tokens_view(tokens@))->0,
{
    let ghost toks = tokens_view(tokens@);
    let mut out: Vec<CommentedToken<'a>> = Vec::new();
    let mut last_kept = false;
    let mut it: usize = 0;
    assert(tokens_view(out@) =~= Seq::empty());
    while it < tokens.len()
        invariant
            toks == tokens_view(tokens@),
            it <= tokens@.len(),
            squeeze_from(toks, 0, Seq::empty(), false) == squeeze_from(
                toks,
                it as int,
                tokens_view(out@),
                last_kept,
            ),
            squeeze_from(toks, it as int, tokens_view(out@), last_kept) is Some,
        decreases tokens@.len() - it,
    {
        let ghost out0 = tokens_view(out@);
        if let Token::Comment(comment) = tokens[it].token {
            let mut comments: Vec<&'a str> = Vec::new();
            comments.push(comment);
            let ghost c0 = toks[it as int].token->Comment_0;
            proof {
                assert(comments@.map_values(|s: &str| s@) =~= seq![c0]);
            }
            let start = it;
            it = it + 1;
            loop
                invariant
                    toks == tokens_view(tokens@),
                    start < it <= tokens@.len(),
                    toks[start as int].token is Comment,
                    comment_run(toks, start + 1, seq![c0]) == comment_run(
                        toks,
                        it as int,
                        comments@.map_values(|s: &str| s@),
                    ),
                    comment_run(toks, start + 1, seq![c0]) is Some,
                ensures
                    start < it < tokens@.len(),
                    comment_run(toks, start + 1, seq![c0]) == comment_run(
                        toks,
                        it as int,
                        comments@.map_values(|s: &str| s@),
                    ),
                    !(toks[it as int].token is Newline),
                    !(toks[it as int].token is Comment),
                decreases tokens@.len() - it,
            {
                proof {
                    lemma_comment_run(toks, it as int, comments@.map_values(|s: &str| s@));
                }
                match tokens[it].token {
                    Token::Newline => {
                        if matches!(tokens[it - 1].token, Token::Newline) {
                            let ghost before = comments@.map_values(|s: &str| s@);
                            comments.push("");
                            proof {
                                reveal_strlit("");
                                assert(""@ =~= Seq::<char>::empty());
                                assert(comments@.map_values(|s: &str| s@) =~= before.push(Seq::empty()));
                            }
                        }
                    },
                    Token::Comment(comment) => {
                        let ghost before = comments@.map_values(|s: &str| s@);
                        comments.push(comment);
                        proof {
                            assert(comments@.map_values(|s: &str| s@) =~= before.push(comment@));
                        }
                    },
                    _ => break,
                }
                it = it + 1;
            }
            proof {
                lemma_comment_run(toks, it as int, comments@.map_values(|s: &str| s@));
            }
            let mut token = tokens[it].duplicate();
            token.leading_comments = Some(comments);
            proof {
                lemma_tokens_view_push(out@, token);
            }
            out.push(token);
            last_kept = true;
            proof {
                let cv = comments@.map_values(|s: &str| s@);
                assert(comment_run(toks, it as int, cv) == Some((it as int, cv)));
                assert(token@ == with_leading(toks[it as int], cv));
                assert(squeeze_from(toks, start as int, out0, false) == squeeze_from(toks, it + 1, tokens_view(out@), true));
            }
        } else if let Token::InlineComment(comment) = tokens[it].token {
            if last_kept && out.len() > 0 {
                proof {
                    lemma_tokens_view_drop_last(out@);
                }
                let mut last = out.pop().unwrap();
                last.inline_comment = Some(comment);
                proof {
                    lemma_tokens_view_push(out@, last);
                }
                out.push(last);
            }
            last_kept = false;
        } else {
            let token = tokens[it].duplicate();
            proof {
                lemma_tokens_view_push(out@, token);
            }
            out.push(token);
            last_kept = true;
        }
        it = it + 1;
    }
    out
}

/// A run of comments and newlines ends before a program that ends with the
/// end-of-file token does.
pub proof fn lemma_comment_run_ends(toks: Seq<CommentedTokenV>, j: int, comments: Seq<Seq<char>>)
    requires
        1 <= j < toks.len(),
        toks.last().token is EOF,
    ensures
        comment_run(toks, j, comments) is Some,
    decreases toks.len() - j,
{
    if toks[j].token is Newline {
        let c2 = if toks[j - 1].token is Newline {
            comments.push(Seq::empty())
        } else {
            comments
        };
        lemma_comment_run_ends(toks, j + 1, c2);
    } else if toks[j].token is Comment {
        lemma_comment_run_ends(toks, j + 1, comments.push(toks[j].token->Comment_0));
    }
}

/// The comments of a program that ends with the end-of-file token and does not
/// start with an inline comment can be squeezed into its tokens, and the tokens
/// kept end with the end-of-file token.
pub proof fn lemma_squeeze_from_ends(
    toks: Seq<CommentedTokenV>,
    it: int,
    out: Seq<CommentedTokenV>,
    last_kept: bool,
)
    requires
        0 <= it <= toks.len(),
        toks.len() > 0,
        toks.last().token is EOF,
        it == 0 ==> !(toks[0].token is InlineComment),
        it == toks.len() ==> out.len() > 0 && out.last().token is EOF,
    ensures
        squeeze_from(toks, it, out, last_kept) matches Some(res) && res.len() > 0
            && res.last().token is EOF,
    decreases toks.len() - it,
{
    if it < toks.len() {
        if toks[it].token is Comment {
            lemma_comment_run_ends(toks, it + 1, seq![toks[it].token->Comment_0]);
            lemma_comment_run(toks, it + 1, seq![toks[it].token->Comment_0]);
            match comment_run(toks, it + 1, seq![toks[it].token->Comment_0]) {
                None => {},
                Some((j, comments)) => {
                    lemma_squeeze_from_ends(
                        toks,
                        j + 1,
                        out.push(with_leading(toks[j], comments)),
                        true,
                    );
                },
            }
        } else if toks[it].token is InlineComment {
            if last_kept && out.len() > 0 {
                lemma_squeeze_from_ends(
                    toks,
                    it + 1,
                    out.drop_last().push(with_inline(out.last(), toks[it].token->InlineComment_0)),
                    false,
                );
            } else {
                lemma_squeeze_from_ends(toks, it + 1, out, false);
            }
        } else {
            lemma_squeeze_from_ends(toks, it + 1, out.push(toks[it]), true);
        }
    }
}

/// The comments among the tokens, in order.
pub open spec fn source_comments(toks: Seq<CommentedTokenV>) -> Seq<Seq<char>>
    decreases toks.len(),
{
    if toks.len() == 0 {
        Seq::empty()
    } else {
        source_comments(toks.drop_last()) + match toks.last().token {
            TokenV::Comment(c) => seq![c],
            TokenV::InlineComment(c) => seq![c],
            _ => Seq::empty(),
        }
    }
}

/// The comments that are not blank lines.
pub open spec fn non_blank(cs: Seq<Seq<char>>) -> Seq<Seq<char>> {
    cs.filter(|c: Seq<char>| c.len() > 0)
}

/// The comments that a token carries: those that lead it, blank lines left
/// out, then its inline comment.
pub open spec fn carried(t: CommentedTokenV) -> Seq<Seq<char>> {
    (match t.leading_comments {
        Some(cs) => non_blank(cs),
        None => Seq::empty(),
    }) + (match t.inline_comment {
        Some(c) => seq![c],
        None => Seq::empty(),
    })
}

/// The comments that the tokens carry, in order.
pub open spec fn carried_comments(toks: Seq<CommentedTokenV>) -> Seq<Seq<char>>
    decreases toks.len(),
{
    if toks.len() == 0 {
        Seq::empty()
    } else {
        carried_comments(toks.drop_last()) + carried(toks.last())
    }
}

/// Tokens as the tokenizer gives them: none carries a comment yet, no comment
/// is empty, and an inline comment follows neither a comment nor a newline.
#[verifier::opaque]
pub open spec fn uncommented(toks: Seq<CommentedTokenV>) -> bool {
    &&& forall|i: int|
        0 <= i < toks.len() ==> (#[trigger] toks[i]).leading_comments is None
            && toks[i].inline_comment is None
    &&& forall|i: int|
        0 <= i < toks.len() && (#[trigger] toks[i]).token is Comment ==> toks[i].token->Comment_0.len()
            > 0
    &&& forall|i: int|
        0 < i < toks.len() && (#[trigger] toks[i]).token is InlineComment ==> !(toks[i
            - 1].token is InlineComment) && !(toks[i - 1].token is Comment) && !(toks[i
            - 1].token is Newline)
}

proof fn lemma_source_step(toks: Seq<CommentedTokenV>, b: int)
    requires
        0 <= b < toks.len(),
    ensures
        source_comments(toks.subrange(0, b + 1)) == source_comments(toks.subrange(0, b))
            + match toks[b].token {
            TokenV::Comment(c) => seq![c],
            TokenV::InlineComment(c) => seq![c],
            _ => Seq::empty(),
        },
{
    assert(toks.subrange(0, b + 1).drop_last() =~= toks.subrange(0, b));
}

proof fn lemma_non_blank_push(cs: Seq<Seq<char>>, c: Seq<char>)
    ensures
        non_blank(cs.push(c)) == if c.len() > 0 {
            non_blank(cs).push(c)
        } else {
            non_blank(cs)
        },
{
    let f = |c: Seq<char>| c.len() > 0;
    assert(cs.push(c) =~= cs + seq![c]);
    Seq::filter_distributes_over_add(cs, seq![c], f);
    reveal(Seq::filter);
    assert(seq![c].drop_last() =~= Seq::<Seq<char>>::empty());
    assert(Seq::<Seq<char>>::empty().filter(f) =~= Seq::<Seq<char>>::empty());
    if c.len() > 0 {
        assert(seq![c].filter(f) =~= seq![c]);
    } else {
        assert(seq![c].filter(f) =~= Seq::<Seq<char>>::empty());
    }
}

proof fn lemma_comment_run_comments(
    toks: Seq<CommentedTokenV>,
    j: int,
    comments: Seq<Seq<char>>,
    base: Seq<Seq<char>>,
)
    requires
        uncommented(toks),
        1 <= j,
        toks[j - 1].token is Comment || toks[j - 1].token is Newline,
        base + non_blank(comments) == source_comments(toks.subrange(0, j)),
        comment_run(toks, j, comments) is Some,
    ensures
        comment_run(toks, j, comments) matches Some((k, _)) ==> !(toks[k].token is InlineComment),
        comment_run(toks, j, comments) matches Some((k, cs)) ==> base + non_blank(cs)
            == source_comments(toks.subrange(0, k)),
    decreases toks.len() - j,
{
    if !(toks[j].token is Newline) && !(toks[j].token is Comment) {
        assert(!(toks[j].token is InlineComment)) by {
            reveal(uncommented);
        }
    }
    if toks[j].token is Newline {
        let c2 = if toks[j - 1].token is Newline {
            comments.push(Seq::empty())
        } else {
            comments
        };
        lemma_non_blank_push(comments, Seq::empty());
        lemma_source_step(toks, j);
        assert(source_comments(toks.subrange(0, j + 1)) =~= source_comments(toks.subrange(0, j)));
        lemma_comment_run_comments(toks, j + 1, c2, base);
    } else if toks[j].token is Comment {
        let c = toks[j].token->Comment_0;
        assert(c.len() > 0) by {
            reveal(uncommented);
        }
        lemma_non_blank_push(comments, c);
        lemma_source_step(toks, j);
        assert(base + non_blank(comments.push(c)) =~= (base + non_blank(comments)) + seq![c]);
        lemma_comment_run_comments(toks, j + 1, comments.push(c), base);
    }
}

proof fn lemma_carried_push(out: Seq<CommentedTokenV>, t: CommentedTokenV)
    ensures
        carried_comments(out.push(t)) == carried_comments(out) + carried(t),
{
    assert(out.push(t).drop_last() =~= out);
}

proof fn lemma_squeeze_comments_from(
    toks: Seq<CommentedTokenV>,
    it: int,
    out: Seq<CommentedTokenV>,
    last_kept: bool,
)
    requires
        uncommented(toks),
        0 <= it <= toks.len(),
        carried_comments(out) == source_comments(toks.subrange(0, it)),
        last_kept ==> out.len() > 0 && out.last().inline_comment is None,
        !last_kept && it > 0 ==> toks[it - 1].token is InlineComment,
        squeeze_from(toks, it, out, last_kept) is Some,
    ensures
        carried_comments(squeeze_from(toks, it, out, last_kept)->0) == source_comments(toks),
    decreases toks.len() - it,
{
    if it >= toks.len() {
        assert(toks.subrange(0, it) =~= toks);
    } else if toks[it].token is Comment {
        let c0 = toks[it].token->Comment_0;
        assert(c0.len() > 0) by {
            reveal(uncommented);
        }
        lemma_source_step(toks, it);
        lemma_non_blank_push(Seq::empty(), c0);
        assert(Seq::<Seq<char>>::empty().push(c0) =~= seq![c0]);
        assert(Seq::<Seq<char>>::empty().filter(|c: Seq<char>| c.len() > 0) =~= Seq::<Seq<char>>::empty()) by {
            reveal(Seq::filter);
        }
        assert(carried_comments(out) + non_blank(seq![c0]) =~= source_comments(toks.subrange(0, it + 1)));
        lemma_comment_run_comments(toks, it + 1, seq![c0], carried_comments(out));
        let (j, comments) = comment_run(toks, it + 1, seq![c0])->Some_0;
        let t = with_leading(toks[j], comments);
        assert(toks[j].inline_comment is None) by {
            reveal(uncommented);
        }
        lemma_carried_push(out, t);
        lemma_source_step(toks, j);
        lemma_comment_run(toks, it + 1, seq![c0]);
        assert(carried(t) =~= non_blank(comments));
        assert(carried_comments(out.push(t)) =~= source_comments(toks.subrange(0, j + 1)));
        lemma_squeeze_comments_from(toks, j + 1, out.push(t), true);
    } else if toks[it].token is InlineComment {
        let c = toks[it].token->InlineComment_0;
        lemma_source_step(toks, it);
        if last_kept && out.len() > 0 {
            let t = with_inline(out.last(), c);
            let out2 = out.drop_last().push(t);
            lemma_carried_push(out.drop_last(), t);
            lemma_carried_push(out.drop_last(), out.last());
            assert(out.drop_last().push(out.last()) =~= out);
            assert(carried(t) =~= carried(out.last()) + seq![c]);
            assert(carried_comments(out2) =~= source_comments(toks.subrange(0, it + 1)));
            lemma_squeeze_comments_from(toks, it + 1, out2, false);
        } else {
            assert(false) by {
                reveal(uncommented);
            }
        }
    } else {
        lemma_source_step(toks, it);
        lemma_carried_push(out, toks[it]);
        assert(toks[it].leading_comments is None && toks[it].inline_comment is None) by {
            reveal(uncommented);
        }
        assert(carried(toks[it]) =~= Seq::<Seq<char>>::empty());
        assert(carried_comments(out.push(toks[it])) =~= source_comments(toks.subrange(0, it + 1)));
        lemma_squeeze_comments_from(toks, it + 1, out.push(toks[it]), true);
    }
}

/// Pre-parsing keeps every comment: the comments that the squeezed tokens
/// carry, blank lines left out, are the comments among the tokens, in order.
pub proof fn lemma_pre_parse_keeps_comments(toks: Seq<CommentedTokenV>)
    requires
        uncommented(toks),
        squeeze_comments(toks) is Some,
    ensures
        carried_comments(squeeze_comments(toks)->0) == source_comments(toks),
{
    assert(toks.subrange(0, 0) =~= Seq::<CommentedTokenV>::empty());
    lemma_squeeze_comments_from(toks, 0, Seq::empty(), false);
}

} // verus!
