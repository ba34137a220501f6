//! An R code formatter: a tokenizer, a parser into a concrete syntax tree and a
//! pretty printer, each proved against its specification.
use crate::ast::{Expression, TermExpr};
use crate::config::Config;
use crate::formatter::{format_expression, formatted};
use crate::grammar::program_from;
use crate::lexer_spec::{
    lemma_lex_from_ends_with_eof, lemma_lex_from_no_leading_inline, lemma_lex_from_inline_after_token,
    lemma_lex_from_comments_end_lines, lex, tokenizable, view_tokens,
    prev_of, LexState, Prev, SpecToken,
};
use crate::ast::csts;
use crate::parser::{parse, parse_error_message, stuck_at};
use crate::pre_parsing_hooks::{
    carried_comments, lemma_pre_parse_keeps_comments, lemma_squeeze_from_ends, pre_parse, source_comments,
    squeeze_comments, tokens_view, uncommented,
};
use crate::tokenizer::Tokenizer;
use crate::tokens::{CommentedToken, CommentedTokenV, LocatedToken};
use crate::token_texts::{bridge_exprs, expr_text, exprs_text, lemma_formatting_keeps_tokens, texts};
use crate::format::visible;
use crate::tree_tokens::{
    lemma_program_clean, lemma_program_keeps_tokens, lemma_squeeze_no_comments, no_comments, span,
    plain_newlines, inline_after_tokens, lemma_squeeze_plain_newlines,
};
use vstd::prelude::*;
use vstd::string::{StrSliceExecFns, StringExecFns};

pub mod ast;
pub mod code;
pub mod config;
pub mod format;
pub mod formatter;
pub mod grammar;
pub mod lexer_spec;
pub mod numbers;
pub mod parser;
pub mod pre_parsing_hooks;
pub mod tokenizer;
pub mod tokens;
pub mod token_texts;
pub mod tokens_buffer;
pub mod tree_tokens;

verus! {

/// The tokens with no comments attached to them yet.
pub open spec fn commented(s: Seq<SpecToken>) -> Seq<CommentedTokenV> {
    s.map_values(
        |t: SpecToken|
            CommentedTokenV {
                token: t.token,
                line: t.line as u32,
                offset: t.offset as usize,
                leading_comments: None,
                inline_comment: None,
            },
    )
}

/// The tokens of a program, read by the tokenizer.
pub open spec fn tokens_of(src: Seq<char>) -> Seq<CommentedTokenV> {
    commented(lex(src)->0)
}

/// The tokens of a program, its comments squeezed into them.
pub open spec fn kept_tokens(src: Seq<char>) -> Seq<CommentedTokenV> {
    squeeze_comments(tokens_of(src))->0
}

/// `e` is the program read from `src`: a term without delimiters whose
/// expressions are the statements of the program.
pub open spec fn is_program_of(e: Expression, src: Seq<char>) -> bool {
    &&& e is Term
    &&& e->Term_0.pre_delimiters is None
    &&& e->Term_0.post_delimiters is None
    &&& program_from(kept_tokens(src), 0) == Some(csts(e->Term_0.term@))
}

/// The message of a program that is read but cannot be printed.
pub open spec fn format_error_message() -> Seq<char> {
    "The code cannot be formatted within the limits of the formatter"@
}

/// The indentation that the formatting uses: the configuration's, or the default one.
pub open spec fn indent_of(config: Option<&Config>) -> i32 {
    match config {
        Some(c) => c.indent,
        None => 2,
    }
}

/// The line length that the formatting uses: the configuration's, or the default one.
pub open spec fn line_length_of(config: Option<&Config>) -> i32 {
    match config {
        Some(c) => c.line_length,
        None => 120,
    }
}

/// The tokens with no comments attached to them.
fn to_commented<'a>(v: &Vec<LocatedToken<'a>>) -> (r: Vec<CommentedToken<'a>>)
    ensures
        tokens_view(r@) == commented(view_tokens(v@)),
{
    let mut out: Vec<CommentedToken<'a>> = Vec::new();
    let mut i: usize = 0;
    while i < v.len()
        invariant
            i <= v@.len(),
            tokens_view(out@) =~= commented(view_tokens(v@.subrange(0, i as int))),
        decreases v@.len() - i,
    {
        let t = &v[i];
        let c = CommentedToken::new(t.token, t.line, t.offset);
        let ghost before = out@;
        out.push(c);
        proof {
            assert(c@ == commented(view_tokens(v@))[i as int]);
            assert(tokens_view(out@) =~= tokens_view(before).push(c@));
            assert(commented(view_tokens(v@.subrange(0, i + 1))) =~= commented(
                view_tokens(v@.subrange(0, i as int)),
            ).push(commented(view_tokens(v@))[i as int]));
        }
        i = i + 1;
    }
    assert(v@.subrange(0, v@.len() as int) =~= v@);
    out
}

/// Format the input code with the given configuration.
///
/// # Arguments
///
/// * `input` - The input code to format.
/// * `config` - The configuration to use for formatting.
///   If not provided, the default configuration will be used.
///   An instance of [Config].
///
/// # Returns
///
/// The formatted code.
pub fn tergo_format(input: &str, config: Option<&Config>) -> (r: Result<String, String>)
    requires
        tokenizable(input@),
    ensures
        match r {
            Ok(s) => exists|e: Expression|
                is_program_of(e, input@) && formatted(e, indent_of(config), line_length_of(config))
                    == Some(s@),
            Err(msg) => (program_from(kept_tokens(input@), 0) is None && msg@ == parse_error_message(
                kept_tokens(input@),
                stuck_at(kept_tokens(input@), 0),
            ))
                || (exists|e: Expression|
                is_program_of(e, input@) && formatted(e, indent_of(config), line_length_of(config))
                    is None) && msg@ == format_error_message(),
        },
{
    let ghost config_param = config;
    let default_config = Config::default();
    let config = match config {
        Some(c) => c,
        None => &default_config,
    };
    let mut tokenizer = Tokenizer::new(input);
    let located = tokenizer.tokenize();
    let commented_tokens = to_commented(&located);
    proof {
        let start = LexState { it: 0, line: 0, offset: 0 };
        assert(Seq::<SpecToken>::empty() + lex(input@)->0 =~= lex(input@)->0);
        lemma_lex_from_ends_with_eof(input@, start, Prev::Nothing);
        lemma_lex_from_no_leading_inline(input@, start, Prev::Nothing);
        lemma_squeeze_from_ends(tokens_of(input@), 0, Seq::empty(), false);
    }
    let tokens_without_comments = pre_parse(&commented_tokens);
    proof {
        let kept = tokens_view(tokens_without_comments@);
        assert(kept.last() == tokens_without_comments@.last()@);
    }
    let cst = match parse(&tokens_without_comments) {
        Ok(cst) => cst,
        Err(msg) => return Err(msg),
    };
    let ghost stmts = cst@;
    let top_node = Expression::Term(Box::new(TermExpr::new(None, cst, None)));
    proof {
        assert(view_tokens(located@) == lex(input@)->0);
        assert(tokens_view(commented_tokens@) == tokens_of(input@));
        assert(tokens_view(tokens_without_comments@) == kept_tokens(input@));
        assert(top_node->Term_0.term@ == stmts);
        assert(is_program_of(top_node, input@));
        assert(config.indent == indent_of(config_param));
        assert(config.line_length == line_length_of(config_param));
    }
    match format_expression(&top_node, config.indent, config.line_length) {
        Some(s) => Ok(s),
        None => {
            let msg = String::from_str("The code cannot be formatted within the limits of the formatter");
            proof {
                reveal_strlit("The code cannot be formatted within the limits of the formatter");
            }
            Err(msg)
        },
    }
}

/// Formats the code where the tokenizer can read all of it, as `tergo_format`
/// does; `None` where it cannot.
pub fn try_tergo_format(input: &str, config: Option<&Config>) -> (res: Option<Result<String, String>>)
    ensures
        res is Some <==> tokenizable(input@),
        res matches Some(r) ==> (match r {
            Ok(s) => exists|e: Expression|
                is_program_of(e, input@) && formatted(e, indent_of(config), line_length_of(config))
                    == Some(s@),
            Err(msg) => (program_from(kept_tokens(input@), 0) is None && msg@ == parse_error_message(
                kept_tokens(input@),
                stuck_at(kept_tokens(input@), 0),
            ))
                || (exists|e: Expression|
                is_program_of(e, input@) && formatted(e, indent_of(config), line_length_of(config))
                    is None) && msg@ == format_error_message(),
        }),
{
    if input.unicode_len() >= 4294967295 {
        return None;
    }
    let mut tokenizer = Tokenizer::new(input);
    proof {
        assert(prev_of(tokenizer.recorded()) == Prev::Nothing);
    }
    match tokenizer.try_tokenize() {
        None => None,
        Some(_) => Some(tergo_format(input, config)),
    }
}

/// Formatting without a configuration is formatting with the default one: the
/// indentation and the line length that `tergo_format` uses are the same, and
/// so, for every program tree read from `src`, is the text it prints.
pub proof fn lemma_no_configuration_is_the_default(c: Config, src: Seq<char>)
    requires
        c.indent == 2,
        c.line_length == 120,
    ensures
        indent_of(None) == indent_of(Some(&c)),
        line_length_of(None) == line_length_of(Some(&c)),
        forall|e: Expression|
            is_program_of(e, src) ==> #[trigger] formatted(e, indent_of(None), line_length_of(None))
                == formatted(e, indent_of(Some(&c)), line_length_of(Some(&c))),
{
}

/// Formatting keeps the tokens of a program and their comments, in order: the
/// printed text of the program read from `src`, spaces and line breaks left
/// out, is the texts of the program's tokens up to its end, each with the
/// comments that lead it and its inline comment, spaces and line breaks left
/// out. The semicolons that end statements are not part of the program that the
/// parser reads, and are not printed.
pub proof fn lemma_formatting_keeps_program(
    e: Expression,
    src: Seq<char>,
    indent: i32,
    line_length: i32,
)
    requires
        tokenizable(src),
        is_program_of(e, src),
        formatted(e, indent, line_length) is Some,
    ensures
        exists|k: int|
            0 < k <= kept_tokens(src).len() && kept_tokens(src)[k - 1].token is EOF && visible(
                formatted(e, indent, line_length)->Some_0,
            ) == visible(texts(#[trigger] span(kept_tokens(src), 0, k))),
{
    let start = LexState { it: 0, line: 0, offset: 0 };
    lemma_lex_from_ends_with_eof(src, start, Prev::Nothing);
    lemma_lex_from_no_leading_inline(src, start, Prev::Nothing);
    lemma_squeeze_from_ends(tokens_of(src), 0, Seq::empty(), false);
    let kept = kept_tokens(src);
    assert(no_comments(Seq::<CommentedTokenV>::empty()));
    lemma_squeeze_no_comments(tokens_of(src), 0, Seq::empty(), false);
    lemma_lex_from_inline_after_token(src, start, Prev::Nothing);
    let toks = tokens_of(src);
    let lexed = lex(src)->Some_0;
    assert(plain_newlines(toks));
    assert(inline_after_tokens(toks)) by {
        assert forall|i: int|
            0 < i < toks.len() && #[trigger] toks[i].token is InlineComment implies !(toks[i
                - 1].token is Newline) by {
            assert(toks[i].token == lexed[i].token);
            assert(toks[i - 1].token == lexed[i - 1].token);
        }
    }
    assert(plain_newlines(Seq::<CommentedTokenV>::empty()));
    lemma_squeeze_plain_newlines(toks, 0, Seq::empty(), false);
    let term = e->Term_0.term@;
    lemma_program_clean(kept, 0);
    lemma_program_keeps_tokens(kept, 0);
    bridge_exprs(term);
    lemma_formatting_keeps_tokens(e, indent, line_length);
    assert(expr_text(e) =~= exprs_text(term));
}

/// Pre-parsing a program keeps its comments: the comments that its tokens carry
/// once the comments are squeezed into them, blank lines left out, are the
/// comments of the program, in order.
pub proof fn lemma_program_keeps_comments(src: Seq<char>)
    requires
        tokenizable(src),
    ensures
        carried_comments(kept_tokens(src)) == source_comments(tokens_of(src)),
{
    let start = LexState { it: 0, line: 0, offset: 0 };
    lemma_lex_from_ends_with_eof(src, start, Prev::Nothing);
    lemma_lex_from_no_leading_inline(src, start, Prev::Nothing);
    lemma_lex_from_inline_after_token(src, start, Prev::Nothing);
    lemma_lex_from_comments_end_lines(src, start, Prev::Nothing);
    lemma_squeeze_from_ends(tokens_of(src), 0, Seq::empty(), false);
    let toks = tokens_of(src);
    let lexed = lex(src)->Some_0;
    assert(uncommented(toks)) by {
        reveal(uncommented);
        assert forall|i: int|
            0 <= i < toks.len() && (#[trigger] toks[i]).token is Comment implies toks[i].token->Comment_0.len()
                > 0 by {
            assert(toks[i].token == lexed[i].token);
        }
        assert forall|i: int|
            0 < i < toks.len() && (#[trigger] toks[i]).token is InlineComment implies !(toks[i
                - 1].token is InlineComment) && !(toks[i - 1].token is Comment) && !(toks[i
                - 1].token is Newline) by {
            assert(toks[i].token == lexed[i].token);
            assert(toks[i - 1].token == lexed[i - 1].token);
            assert(lexed[i].token is InlineComment);
            if lexed[i - 1].token is Comment || lexed[i - 1].token is InlineComment {
                assert(lexed[i - 1 + 1].token is Newline || lexed[i - 1 + 1].token is EOF);
            }
        }
    }
    lemma_pre_parse_keeps_comments(toks);
}

} // verus!
