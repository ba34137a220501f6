//! Printing tokens for people, and the tokenizer's error.
use crate::tokens::{CommentedToken, CommentedTokenV, Token, TokenV};
use vstd::prelude::*;
use vstd::string::StringExecFns;

verus! {

/// The text that the derived `Debug` of `Token` prints for a token, such as
/// `Symbol("a")`.
pub uninterp spec fn token_debug_text(t: TokenV) -> Seq<char>;

/// `format!("{:?}", t)`: std's formatting through the derived `Debug` of
/// `Token`. The contract claims that the text depends on the token alone.
#[verifier::external_body]
fn token_debug(t: &Token) -> (r: String)
    ensures
        r@ == token_debug_text(t@),
{
    format!("{:?}", t)
}

/// The texts, separated by single spaces.
pub open spec fn spaced(s: Seq<Seq<char>>) -> Seq<char>
    decreases s.len(),
{
    if s.len() == 0 {
        Seq::empty()
    } else if s.len() == 1 {
        s[0]
    } else {
        spaced(s.drop_last()) + seq![' '] + s.last()
    }
}

/// The debugging texts of the tokens from `from` on.
pub open spec fn debug_texts_from(toks: Seq<CommentedTokenV>, from: int) -> Seq<Seq<char>> {
    Seq::new((toks.len() - from) as nat, |i: int| token_debug_text(toks[from + i].token))
}

/// The tokens from `from` on, each as its `Debug` text, separated by spaces.
pub fn tokens_text_from(tokens: &[CommentedToken], from: usize) -> (r: String)
    requires
        from <= tokens@.len(),
    ensures
        r@ == spaced(debug_texts_from(tokens@.map_values(|t: CommentedToken| t@), from as int)),
{
    let ghost toks = tokens@.map_values(|t: CommentedToken| t@);
    let ghost all = debug_texts_from(toks, from as int);
    let mut out = String::new();
    let mut i: usize = from;
    while i < tokens.len()
        invariant
            from <= i <= tokens@.len(),
            toks == tokens@.map_values(|t: CommentedToken| t@),
            all == debug_texts_from(toks, from as int),
            out@ == spaced(all.subrange(0, i - from)),
        decreases tokens@.len() - i,
    {
        let text = token_debug(&tokens[i].token);
        let ghost before = all.subrange(0, i - from);
        let ghost after = all.subrange(0, i + 1 - from);
        assert(after.drop_last() =~= before);
        assert(after.last() == token_debug_text(tokens@[i as int].token@));
        if i > from {
            out.append(" ");
            proof {
                reveal_strlit(" ");
                assert(" "@ =~= seq![' ']);
            }
        }
        out.append(text.as_str());
        i = i + 1;
        proof {
            if i == from + 1 {
                assert(out@ =~= spaced(after));
            }
        }
    }
    assert(all.subrange(0, tokens@.len() - from) =~= all);
    out
}

/// Wrapper for a buffer of tokens used for pretty printing.
#[derive(Debug)]
pub struct TokensBuffer<'a>(pub &'a [&'a CommentedToken<'a>]);

impl<'a> TokensBuffer<'a> {
    /// The debugging texts of the tokens, separated by spaces.
    pub open spec fn texts(&self) -> Seq<Seq<char>> {
        Seq::new(self.0@.len(), |i: int| token_debug_text(self.0@[i].token@))
    }

    /// The tokens as printed: each as its `Debug` text, separated by spaces.
    pub fn to_string(&self) -> (r: String)
        ensures
            r@ == spaced(self.texts()),
    {
        let mut out = String::new();
        let mut i: usize = 0;
        while i < self.0.len()
            invariant
                i <= self.0@.len(),
                out@ == spaced(self.texts().subrange(0, i as int)),
            decreases self.0@.len() - i,
        {
            let text = token_debug(&self.0[i].token);
            let ghost before = self.texts().subrange(0, i as int);
            let ghost after = self.texts().subrange(0, i + 1);
            assert(after.drop_last() =~= before);
            if i > 0 {
                out.append(" ");
                proof {
                    reveal_strlit(" ");
                    assert(" "@ =~= seq![' ']);
                }
            }
            out.append(text.as_str());
            i = i + 1;
            proof {
                if i == 1 {
                    assert(out@ =~= spaced(after));
                }
            }
        }
        assert(self.texts().subrange(0, self.0@.len() as int) =~= self.texts());
        out
    }
}

/// The errors of the tokenizer.
#[derive(Debug)]
pub enum Error {
    UnexpectedCharacter(String),
}

impl Error {
    /// The error as printed: its context and a closing parenthesis.
    pub fn to_string(&self) -> (r: String)
        ensures
            r@ == match self {
                Error::UnexpectedCharacter(context) => context@ + seq![')'],
            },
    {
        match self {
            Error::UnexpectedCharacter(context) => {
                let mut out = String::new();
                out.append(context.as_str());
                out.append(")");
                proof {
                    reveal_strlit(")");
                    assert(")"@ =~= seq![')']);
                }
                out
            },
        }
    }
}

} // verus!
