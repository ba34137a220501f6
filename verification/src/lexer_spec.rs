//! The lexical grammar of R as the tokenizer reads it, stated over the
//! sequence of characters of a program.
use crate::tokens::{LocatedToken, TokenV};
use vstd::prelude::*;

verus! {

/// Whether a character is alphabetic in the sense of Unicode.
pub uninterp spec fn char_is_alphabetic(c: char) -> bool;

pub open spec fn is_ascii_letter(c: char) -> bool {
    ('a' <= c && c <= 'z') || ('A' <= c && c <= 'Z')
}

pub open spec fn is_digit(c: char) -> bool {
    '0' <= c && c <= '9'
}

pub open spec fn is_hex_digit(c: char) -> bool {
    is_digit(c) || ('a' <= c && c <= 'f') || ('A' <= c && c <= 'F')
}

/// The characters that end a word (an identifier or a reserved word).
pub open spec fn is_symbol_ending(c: char) -> bool {
    c == ' ' || c == '(' || c == ')' || c == '{' || c == '}' || c == '#' || c == ';' || c == '\n'
        || c == '\t' || c == '\r' || c == '+' || c == '-' || c == '/' || c == '\\' || c == '%'
        || c == '*' || c == '^' || c == '!' || c == '&' || c == '|' || c == '<' || c == '>'
        || c == '=' || c == ',' || c == '[' || c == ']' || c == '$' || c == '`' || c == '"'
}

/// A token with the line and the column offset at which the tokenizer records it.
pub struct SpecToken {
    pub token: TokenV,
    pub line: int,
    pub offset: int,
}

pub open spec fn located_view(t: LocatedToken) -> SpecToken {
    SpecToken { token: t.token@, line: t.line as int, offset: t.offset as int }
}

pub open spec fn view_tokens(s: Seq<LocatedToken>) -> Seq<SpecToken> {
    s.map_values(|t: LocatedToken| located_view(t))
}

/// The position of the tokenizer in a program: the index of the next character,
/// the current line and the column offset on that line.
pub struct LexState {
    pub it: int,
    pub line: int,
    pub offset: int,
}

/// What the last token recorded was: a comment after a newline (or at the start)
/// is a whole-line comment, any other is an inline comment.
pub enum Prev {
    Nothing,
    Newline,
    Other,
}

pub open spec fn prev_of(tokens: Seq<SpecToken>) -> Prev {
    if tokens.len() == 0 {
        Prev::Nothing
    } else if tokens.last().token is Newline {
        Prev::Newline
    } else {
        Prev::Other
    }
}

/// The end of an identifier that starts at `j`: the first character that is neither
/// alphabetic nor a dot nor an underscore. `None` when the identifier runs to the
/// end of the program.
pub open spec fn ident_end(src: Seq<char>, j: int) -> Option<int>
    decreases src.len() - j,
{
    if j < 0 || j >= src.len() {
        None
    } else if char_is_alphabetic(src[j]) || src[j] == '.' || src[j] == '_' {
        ident_end(src, j + 1)
    } else {
        Some(j)
    }
}

/// The end of a word that starts at `j`: the first symbol-ending character, or the end.
pub open spec fn word_end(src: Seq<char>, j: int) -> int
    decreases src.len() - j,
{
    if j < 0 || j >= src.len() || is_symbol_ending(src[j]) {
        j
    } else {
        word_end(src, j + 1)
    }
}

pub open spec fn digits_end(src: Seq<char>, j: int) -> int
    decreases src.len() - j,
{
    if j < 0 || j >= src.len() || !is_digit(src[j]) {
        j
    } else {
        digits_end(src, j + 1)
    }
}

pub open spec fn hex_end(src: Seq<char>, j: int) -> int
    decreases src.len() - j,
{
    if j < 0 || j >= src.len() || !is_hex_digit(src[j]) {
        j
    } else {
        hex_end(src, j + 1)
    }
}

pub open spec fn char_at(src: Seq<char>, j: int) -> Option<char> {
    if 0 <= j < src.len() {
        Some(src[j])
    } else {
        None
    }
}

/// An optional exponent at `k`: `e` or `E`, an optional sign, and decimal digits.
pub open spec fn exponent_end(src: Seq<char>, k: int) -> int {
    if char_at(src, k) == Some('e') || char_at(src, k) == Some('E') {
        if char_at(src, k + 1) == Some('+') || char_at(src, k + 1) == Some('-') {
            digits_end(src, k + 2)
        } else {
            digits_end(src, k + 1)
        }
    } else {
        k
    }
}

/// The end of a number literal that starts at `it`: a hexadecimal number
/// (`0x` digits, optionally `.` digits and `p` digits), or a decimal one
/// (digits, optionally `.` digits, optionally an exponent).
pub open spec fn number_end(src: Seq<char>, it: int) -> int {
    if char_at(src, it) == Some('0') && (char_at(src, it + 1) == Some('x') || char_at(src, it + 1)
        == Some('X')) {
        let j = hex_end(src, it + 2);
        if char_at(src, j) == Some('.') {
            let k = hex_end(src, j + 1);
            if char_at(src, k) == Some('p') || char_at(src, k) == Some('P') {
                hex_end(src, k + 1)
            } else {
                k
            }
        } else {
            j
        }
    } else {
        let j = digits_end(src, it);
        if char_at(src, j) == Some('.') {
            exponent_end(src, digits_end(src, j + 1))
        } else {
            exponent_end(src, j)
        }
    }
}

/// The end of a comment that starts at `j`: the next newline, or the end.
pub open spec fn comment_end(src: Seq<char>, j: int) -> int
    decreases src.len() - j,
{
    if j < 0 || j >= src.len() || src[j] == '\n' {
        j
    } else {
        comment_end(src, j + 1)
    }
}

/// The closing delimiter of a string literal, searched from `j`: the first `d`
/// that does not follow a backslash. `None` when the string is not closed.
pub open spec fn string_end(src: Seq<char>, d: char, j: int) -> Option<int>
    decreases src.len() - j,
{
    if j < 1 || j >= src.len() {
        None
    } else if src[j] == d && src[j - 1] != '\\' {
        Some(j)
    } else {
        string_end(src, d, j + 1)
    }
}

/// The line and offset after reading the characters `a..b`, a newline starting a new line.
pub open spec fn lines_after(src: Seq<char>, a: int, b: int, line: int, offset: int) -> (int, int)
    decreases b - a,
{
    if a >= b {
        (line, offset)
    } else if src[a] == '\n' {
        lines_after(src, a + 1, b, line + 1, 0)
    } else {
        lines_after(src, a + 1, b, line, offset + 1)
    }
}

/// The token that a word stands for: a reserved word, a logical constant, or a symbol.
pub open spec fn word_token(text: Seq<char>) -> TokenV {
    if text == "continue"@ {
        TokenV::Continue
    } else if text == "break"@ {
        TokenV::Break
    } else if text == "for"@ {
        TokenV::For
    } else if text == "if"@ {
        TokenV::If
    } else if text == "else"@ {
        TokenV::Else
    } else if text == "in"@ {
        TokenV::In
    } else if text == "while"@ {
        TokenV::While
    } else if text == "repeat"@ {
        TokenV::Repeat
    } else if text == "function"@ {
        TokenV::Function
    } else if text == "TRUE"@ || text == "FALSE"@ {
        TokenV::Literal(text)
    } else {
        TokenV::Symbol(text)
    }
}

pub open spec fn adv(st: LexState, n: int) -> LexState {
    LexState { it: st.it + n, line: st.line, offset: st.offset + n }
}

pub open spec fn tok_at(t: TokenV, st: LexState) -> Option<SpecToken> {
    Some(SpecToken { token: t, line: st.line, offset: st.offset })
}

/// A token of `n` characters recorded at the current position.
pub open spec fn simple(t: TokenV, st: LexState, n: int) -> Option<(Option<SpecToken>, LexState)> {
    Some((tok_at(t, st), adv(st, n)))
}

/// A token whose characters are `st.it..end`, recorded where it starts.
pub open spec fn scanned(t: TokenV, st: LexState, end: int) -> Option<(Option<SpecToken>, LexState)> {
    Some((tok_at(t, st), adv(st, end - st.it)))
}

pub open spec fn lex_identifier(src: Seq<char>, st: LexState) -> Option<(Option<SpecToken>, LexState)> {
    match ident_end(src, st.it) {
        None => None,
        Some(j) => if j > st.it {
            scanned(TokenV::Symbol(src.subrange(st.it, j)), st, j)
        } else {
            None
        },
    }
}

pub open spec fn lex_word(src: Seq<char>, st: LexState) -> Option<(Option<SpecToken>, LexState)> {
    let j = word_end(src, st.it);
    scanned(word_token(src.subrange(st.it, j)), st, j)
}

pub open spec fn lex_number(src: Seq<char>, st: LexState) -> Option<(Option<SpecToken>, LexState)> {
    let j = number_end(src, st.it);
    scanned(TokenV::Literal(src.subrange(st.it, j)), st, j)
}

pub open spec fn lex_comment(src: Seq<char>, st: LexState, prev: Prev) -> Option<
    (Option<SpecToken>, LexState),
> {
    let j = comment_end(src, st.it);
    let text = src.subrange(st.it, j);
    scanned(if prev is Other { TokenV::InlineComment(text) } else { TokenV::Comment(text) }, st, j)
}

pub open spec fn lex_string(src: Seq<char>, st: LexState) -> Option<(Option<SpecToken>, LexState)> {
    match string_end(src, src[st.it], st.it + 1) {
        None => None,
        Some(j) => {
            let (line, offset) = lines_after(src, st.it, j + 1, st.line, st.offset);
            Some(
                (
                    tok_at(TokenV::Literal(src.subrange(st.it, j + 1)), st),
                    LexState { it: j + 1, line, offset },
                ),
            )
        },
    }
}

/// One step of the tokenizer at a position inside the program: the token it records,
/// if any, and the position after it. `None` where the tokenizer cannot go on: a
/// character that no rule reads, an operator character that ends the program, an
/// unclosed string, an identifier that runs to the end of the program, or an
/// identifier rule that reads no character.
pub open spec fn lex_step(src: Seq<char>, st: LexState, prev: Prev) -> Option<
    (Option<SpecToken>, LexState),
> {
    let c = src[st.it];
    let la = char_at(src, st.it + 1);
    if c == ' ' || c == '\t' {
        Some((None, adv(st, 1)))
    } else if c == '\r' {
        Some((tok_at(TokenV::Newline, st), LexState { it: st.it + 2, line: st.line + 1, offset: 0 }))
    } else if c == '\n' {
        Some((tok_at(TokenV::Newline, st), LexState { it: st.it + 1, line: st.line + 1, offset: 0 }))
    } else if c == ';' {
        simple(TokenV::Semicolon, st, 1)
    } else if c == ',' {
        simple(TokenV::Comma, st, 1)
    } else if c == '(' {
        simple(TokenV::LParen, st, 1)
    } else if c == ')' {
        simple(TokenV::RParen, st, 1)
    } else if c == '{' {
        simple(TokenV::LBrace, st, 1)
    } else if c == '}' {
        simple(TokenV::RBrace, st, 1)
    } else if c == '[' {
        simple(TokenV::LSubscript, st, 1)
    } else if c == ']' {
        simple(TokenV::RSubscript, st, 1)
    } else if c == '\'' || c == '"' {
        lex_string(src, st)
    } else if c == '*' {
        if la is None {
            None
        } else if la == Some('*') {
            simple(TokenV::Power, st, 2)
        } else {
            simple(TokenV::Multiply, st, 1)
        }
    } else if c == '/' {
        simple(TokenV::Divide, st, 1)
    } else if c == '^' {
        simple(TokenV::Power, st, 1)
    } else if c == '+' {
        simple(TokenV::Plus, st, 1)
    } else if c == '?' {
        simple(TokenV::Help, st, 1)
    } else if c == '<' {
        if la is None {
            None
        } else if la == Some('-') {
            simple(TokenV::LAssign, st, 2)
        } else if la == Some('=') {
            simple(TokenV::LowerEqual, st, 2)
        } else {
            simple(TokenV::LowerThan, st, 1)
        }
    } else if c == '>' {
        if la is None {
            None
        } else if la == Some('=') {
            simple(TokenV::GreaterEqual, st, 2)
        } else {
            simple(TokenV::GreaterThan, st, 1)
        }
    } else if c == '|' {
        if la is None {
            None
        } else if la == Some('|') {
            simple(TokenV::Or, st, 2)
        } else if la == Some('>') {
            simple(TokenV::Pipe, st, 2)
        } else {
            simple(TokenV::VectorizedOr, st, 1)
        }
    } else if c == '&' {
        if la is None {
            None
        } else if la == Some('&') {
            simple(TokenV::And, st, 2)
        } else {
            simple(TokenV::VectorizedAnd, st, 1)
        }
    } else if c == '=' {
        if la is None {
            None
        } else if la == Some('=') {
            simple(TokenV::Equal, st, 2)
        } else {
            simple(TokenV::OldAssign, st, 1)
        }
    } else if c == '$' {
        simple(TokenV::Dollar, st, 1)
    } else if c == '-' {
        if la is None {
            None
        } else if la == Some('>') {
            simple(TokenV::RAssign, st, 2)
        } else {
            simple(TokenV::Minus, st, 1)
        }
    } else if c == '!' {
        if la == Some('=') {
            Some((tok_at(TokenV::NotEqual, st), adv(st, 2)))
        } else {
            Some((tok_at(TokenV::UnaryNot, st), adv(st, 1)))
        }
    } else if c == '.' {
        if la is None {
            None
        } else if is_digit(la->0) {
            lex_number(src, st)
        } else {
            lex_identifier(src, st)
        }
    } else if c == '`' || c == '_' {
        lex_identifier(src, st)
    } else if c == '%' {
        if la is None {
            None
        } else if la == Some('%') {
            simple(TokenV::Modulo, st, 2)
        } else {
            lex_identifier(src, st)
        }
    } else if is_ascii_letter(c) {
        lex_word(src, st)
    } else if is_digit(c) {
        lex_number(src, st)
    } else if c == '\\' {
        simple(TokenV::Lambda, st, 1)
    } else if c == '#' {
        lex_comment(src, st, prev)
    } else if c == '~' {
        simple(TokenV::Tilde, st, 1)
    } else if c == '@' {
        simple(TokenV::Slot, st, 1)
    } else if c == ':' {
        if la == Some(':') {
            if char_at(src, st.it + 2) == Some(':') {
                Some((tok_at(TokenV::NsGetInt, st), adv(st, 3)))
            } else {
                Some((tok_at(TokenV::NsGet, st), adv(st, 2)))
            }
        } else {
            Some((tok_at(TokenV::Colon, st), adv(st, 1)))
        }
    } else {
        None
    }
}

pub open spec fn opt_seq(t: Option<SpecToken>) -> Seq<SpecToken> {
    match t {
        None => Seq::empty(),
        Some(t) => seq![t],
    }
}

pub open spec fn prev_after(prev: Prev, t: Option<SpecToken>) -> Prev {
    match t {
        None => prev,
        Some(t) => if t.token is Newline {
            Prev::Newline
        } else {
            Prev::Other
        },
    }
}

/// The tokens of the program read from position `st` on, ending with an `EOF` token
/// at the position where the reading stops; `None` where the tokenizer cannot go on.
pub open spec fn lex_from(src: Seq<char>, st: LexState, prev: Prev) -> Option<Seq<SpecToken>>
    decreases src.len() + 1 - st.it,
{
    if st.it < 0 {
        None
    } else if st.it >= src.len() {
        Some(seq![SpecToken { token: TokenV::EOF, line: st.line, offset: st.offset }])
    } else {
        match lex_step(src, st, prev) {
            None => None,
            Some((t, st2)) => if st.it < st2.it <= src.len() + 1 {
                match lex_from(src, st2, prev_after(prev, t)) {
                    None => None,
                    Some(rest) => Some(opt_seq(t) + rest),
                }
            } else {
                None
            },
        }
    }
}

/// The tokens of a whole program, read from its start.
pub open spec fn lex(src: Seq<char>) -> Option<Seq<SpecToken>> {
    lex_from(src, LexState { it: 0, line: 0, offset: 0 }, Prev::Nothing)
}

/// A program that the tokenizer reads to its end.
pub open spec fn tokenizable(src: Seq<char>) -> bool {
    lex(src) is Some && src.len() < u32::MAX
}

/// The tokens that the tokenizer reads end with the end-of-file token.
pub proof fn lemma_lex_from_ends_with_eof(src: Seq<char>, st: LexState, prev: Prev)
    ensures
        lex_from(src, st, prev) matches Some(s) ==> s.len() > 0 && s.last().token is EOF,
    decreases src.len() + 1 - st.it,
{
    if 0 <= st.it < src.len() {
        match lex_step(src, st, prev) {
            None => {},
            Some((t, st2)) => {
                if st.it < st2.it <= src.len() + 1 {
                    lemma_lex_from_ends_with_eof(src, st2, prev_after(prev, t));
                    match lex_from(src, st2, prev_after(prev, t)) {
                        None => {},
                        Some(rest) => {
                            assert((opt_seq(t) + rest).last() == rest.last());
                        },
                    }
                }
            },
        }
    }
}

/// A step of the tokenizer reads an inline comment only after another token on
/// the same line.
pub proof fn lemma_lex_step_inline(src: Seq<char>, st: LexState, prev: Prev)
    requires
        0 <= st.it < src.len(),
    ensures
        lex_step(src, st, prev) matches Some((Some(t), _)) ==> (t.token is InlineComment ==> prev is Other),
{
}

/// The first token of a program, or of a line, is not an inline comment.
pub proof fn lemma_lex_from_no_leading_inline(src: Seq<char>, st: LexState, prev: Prev)
    requires
        !(prev is Other),
    ensures
        lex_from(src, st, prev) matches Some(s) ==> s.len() > 0 && !(s[0].token is InlineComment),
    decreases src.len() + 1 - st.it,
{
    lemma_lex_from_ends_with_eof(src, st, prev);
    if 0 <= st.it < src.len() {
        lemma_lex_step_inline(src, st, prev);
        match lex_step(src, st, prev) {
            None => {},
            Some((t, st2)) => {
                if st.it < st2.it <= src.len() + 1 {
                    match t {
                        None => {
                            lemma_lex_from_no_leading_inline(src, st2, prev);
                            match lex_from(src, st2, prev) {
                                None => {},
                                Some(rest) => {
                                    assert(opt_seq(t) + rest =~= rest);
                                },
                            }
                        },
                        Some(tk) => {
                            match lex_from(src, st2, prev_after(prev, t)) {
                                None => {},
                                Some(rest) => {
                                    assert((opt_seq(t) + rest)[0] == tk);
                                },
                            }
                        },
                    }
                }
            },
        }
    }
}

/// An inline comment follows a token of its line: never a newline, and it
/// comes first only after another token.
pub proof fn lemma_lex_from_inline_after_token(src: Seq<char>, st: LexState, prev: Prev)
    ensures
        lex_from(src, st, prev) matches Some(s) ==> (s.len() > 0 && s[0].token is InlineComment
            ==> prev is Other),
        lex_from(src, st, prev) matches Some(s) ==> forall|i: int|
            0 < i < s.len() && #[trigger] s[i].token is InlineComment ==> !(s[i - 1].token is Newline),
    decreases src.len() + 1 - st.it,
{
    if 0 <= st.it < src.len() {
        lemma_lex_step_inline(src, st, prev);
        match lex_step(src, st, prev) {
            None => {},
            Some((t, st2)) => {
                if st.it < st2.it <= src.len() + 1 {
                    let prev2 = prev_after(prev, t);
                    lemma_lex_from_inline_after_token(src, st2, prev2);
                    match lex_from(src, st2, prev2) {
                        None => {},
                        Some(rest) => {
                            let s = opt_seq(t) + rest;
                            match t {
                                None => {
                                    assert(s =~= rest);
                                },
                                Some(tk) => {
                                    assert(s[0] == tk);
                                    assert forall|i: int|
                                        0 < i < s.len() && #[trigger] s[i].token is InlineComment implies !(
                                    s[i - 1].token is Newline) by {
                                        assert(s[i] == rest[i - 1]);
                                        if i > 1 {
                                            assert(s[i - 1] == rest[i - 2]);
                                        }
                                    }
                                },
                            }
                        },
                    }
                }
            },
        }
    }
}

pub(crate) proof fn lemma_comment_end(src: Seq<char>, j: int)
    requires
        0 <= j <= src.len(),
    ensures
        j <= comment_end(src, j) <= src.len(),
        comment_end(src, j) == src.len() || src[comment_end(src, j)] == '\n',
    decreases src.len() - j,
{
    if j < src.len() && src[j] != '\n' {
        lemma_comment_end(src, j + 1);
    }
}

/// A comment that the tokenizer reads is not empty and runs to the end of its line.
proof fn lemma_lex_step_comment(src: Seq<char>, st: LexState, prev: Prev)
    requires
        0 <= st.it < src.len(),
    ensures
        lex_step(src, st, prev) matches Some((Some(t), st2)) ==> (t.token is Comment
            || t.token is InlineComment ==> (st2.it == src.len() || (0 <= st2.it < src.len()
            && src[st2.it] == '\n')) && (match t.token {
            TokenV::Comment(c) => c.len() > 0,
            TokenV::InlineComment(c) => c.len() > 0,
            _ => true,
        })),
{
    if src[st.it] == '#' {
        lemma_comment_end(src, st.it + 1);
    }
}

proof fn lemma_lex_from_at_line_end(src: Seq<char>, st: LexState, prev: Prev)
    requires
        st.it == src.len() || (0 <= st.it < src.len() && src[st.it] == '\n'),
    ensures
        lex_from(src, st, prev) matches Some(s) ==> s.len() > 0 && (s[0].token is Newline
            || s[0].token is EOF),
{
    if st.it < src.len() {
        match lex_step(src, st, prev) {
            None => {},
            Some((t, st2)) => {
                if st.it < st2.it <= src.len() + 1 {
                    match lex_from(src, st2, prev_after(prev, t)) {
                        None => {},
                        Some(rest) => {
                            assert((opt_seq(t) + rest)[0] == t->Some_0);
                        },
                    }
                }
            },
        }
    }
}

/// Every comment among the tokens is non-empty and is followed by a newline or
/// by the end of the file.
pub open spec fn comments_end_lines(s: Seq<SpecToken>) -> bool {
    forall|i: int|
        0 <= i < s.len() && (#[trigger] s[i].token is Comment || s[i].token is InlineComment) ==> i + 1
            < s.len() && (s[i + 1].token is Newline || s[i + 1].token is EOF) && match s[i].token {
            TokenV::Comment(c) => c.len() > 0,
            TokenV::InlineComment(c) => c.len() > 0,
            _ => true,
        }
}

/// A comment that the tokenizer reads is never empty and ends its line.
pub proof fn lemma_lex_from_comments_end_lines(src: Seq<char>, st: LexState, prev: Prev)
    ensures
        lex_from(src, st, prev) matches Some(s) ==> comments_end_lines(s),
    decreases src.len() + 1 - st.it,
{
    if 0 <= st.it < src.len() {
        lemma_lex_step_comment(src, st, prev);
        match lex_step(src, st, prev) {
            None => {},
            Some((t, st2)) => {
                if st.it < st2.it <= src.len() + 1 {
                    let prev2 = prev_after(prev, t);
                    lemma_lex_from_comments_end_lines(src, st2, prev2);
                    match lex_from(src, st2, prev2) {
                        None => {},
                        Some(rest) => {
                            let s = opt_seq(t) + rest;
                            match t {
                                None => {
                                    assert(s =~= rest);
                                },
                                Some(tk) => {
                                    assert(s[0] == tk);
                                    if tk.token is Comment || tk.token is InlineComment {
                                        lemma_lex_from_at_line_end(src, st2, prev2);
                                    }
                                    assert forall|i: int|
                                        0 <= i < s.len() && (#[trigger] s[i].token is Comment
                                            || s[i].token is InlineComment) implies i + 1 < s.len() && (s[i
                                        + 1].token is Newline || s[i + 1].token is EOF) && match s[i].token {
                                        TokenV::Comment(c) => c.len() > 0,
                                        TokenV::InlineComment(c) => c.len() > 0,
                                        _ => true,
                                    } by {
                                        assert(s[i + 1] == rest[i]);
                                        if i > 0 {
                                            assert(s[i] == rest[i - 1]);
                                        }
                                    }
                                },
                            }
                        },
                    }
                }
            },
        }
    }
}

/// Every delimiter `d` in `body` is escaped by a backslash before it, and the
/// body does not end with a backslash.
pub open spec fn escaped_body(body: Seq<char>, d: char) -> bool {
    &&& forall|k: int| 0 <= k < body.len() && #[trigger] body[k] == d ==> k > 0 && body[k - 1] == '\\'
    &&& body.len() > 0 ==> body.last() != '\\'
}

#[verifier::spinoff_prover]
proof fn lemma_string_end_escaped(src: Seq<char>, d: char, j: int)
    requires
        src.len() >= 2,
        src[0] == d,
        src.last() == d,
        d != '\\',
        escaped_body(src.subrange(1, src.len() - 1), d),
        1 <= j <= src.len() - 1,
    ensures
        string_end(src, d, j) == Some(src.len() - 1),
    decreases src.len() - j,
{
    let body = src.subrange(1, src.len() - 1);
    if j < src.len() - 1 {
        assert(src[j] == body[j - 1]);
        if src[j] == d {
            assert(body[j - 2] == '\\');
            assert(src[j - 1] == body[j - 2]);
        }
        lemma_string_end_escaped(src, d, j + 1);
    } else {
        if body.len() > 0 {
            assert(src[j - 1] == body.last());
        }
    }
}

/// A string literal runs to the first delimiter that no backslash escapes: a
/// program that is one string, whose delimiters inside are all escaped, is read
/// as one literal holding the whole program (`"a\"b"` is one literal).
#[verifier::spinoff_prover]
pub proof fn lemma_escaped_delimiter_does_not_end_a_string(src: Seq<char>)
    requires
        src.len() >= 2,
        src[0] == '"' || src[0] == '\'',
        src.last() == src[0],
        escaped_body(src.subrange(1, src.len() - 1), src[0]),
    ensures
        lex(src) matches Some(toks) && toks.len() == 2 && toks[0].token == TokenV::Literal(src)
            && toks[0].line == 0 && toks[0].offset == 0 && toks[1].token is EOF,
{
    let d = src[0];
    lemma_string_end_escaped(src, d, 1);
    let st = LexState { it: 0, line: 0, offset: 0 };
    assert(src.subrange(0, src.len() as int) =~= src);
    let (line, offset) = lines_after(src, 0, src.len() as int, 0, 0);
    let st2 = LexState { it: src.len() as int, line, offset };
    assert(lex_step(src, st, Prev::Nothing) == Some((tok_at(TokenV::Literal(src), st), st2)));
    let rest = lex_from(src, st2, prev_after(Prev::Nothing, tok_at(TokenV::Literal(src), st)));
    assert(rest == Some(seq![SpecToken { token: TokenV::EOF, line, offset }]));
}

/// Where a string ends: past its start, inside the program.
pub proof fn lemma_string_end_bounds(src: Seq<char>, d: char, j: int)
    ensures
        string_end(src, d, j) matches Some(k) ==> j <= k < src.len(),
    decreases src.len() - j,
{
    if 1 <= j < src.len() {
        lemma_string_end_bounds(src, d, j + 1);
    }
}

/// Where a name ends: at or past its start, inside the program.
pub proof fn lemma_ident_end_bounds(src: Seq<char>, j: int)
    ensures
        ident_end(src, j) matches Some(k) ==> j <= k < src.len(),
    decreases src.len() - j,
{
    if 0 <= j < src.len() {
        lemma_ident_end_bounds(src, j + 1);
    }
}

} // verus!
