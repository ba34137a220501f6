use crate::lexer_spec::{
    adv, char_at, lex_from, lex_step, prev_after, char_is_alphabetic, comment_end, digits_end, exponent_end, hex_end, ident_end,
    is_digit, is_hex_digit, is_symbol_ending, lex_comment, lex_identifier, lex_word, lines_after,
    located_view, number_end, opt_seq, prev_of, string_end, view_tokens, word_end, LexState,
    SpecToken,
};
use crate::tokens::{LocatedToken, Token};
use vstd::prelude::*;

verus! {

/// `char::is_alphabetic` of std: whether the character has Unicode's
/// `Alphabetic` property. The contract claims only that the answer depends on
/// the character alone; the tables of Unicode are not stated.
#[verifier::external_body]
fn is_alphabetic(c: char) -> (b: bool)
    ensures
        b == char_is_alphabetic(c),
{
    c.is_alphabetic()
}

fn is_digit_char(c: char) -> (b: bool)
    ensures
        b == is_digit(c),
{
    '0' <= c && c <= '9'
}

fn is_hex_digit_char(c: char) -> (b: bool)
    ensures
        b == is_hex_digit(c),
{
    ('0' <= c && c <= '9') || ('a' <= c && c <= 'f') || ('A' <= c && c <= 'F')
}

fn is_symbol_ending_char(c: char) -> (b: bool)
    ensures
        b == is_symbol_ending(c),
{
    c == ' ' || c == '(' || c == ')' || c == '{' || c == '}' || c == '#' || c == ';' || c == '\n'
        || c == '\t' || c == '\r' || c == '+' || c == '-' || c == '/' || c == '\\' || c == '%'
        || c == '*' || c == '^' || c == '!' || c == '&' || c == '|' || c == '<' || c == '>'
        || c == '=' || c == ',' || c == '[' || c == ']' || c == '$' || c == '`' || c == '"'
}

/// The characters of a string, in order.
fn chars_of(s: &str) -> (v: Vec<char>)
    ensures
        v@ == s@,
{
    broadcast use vstd::string::group_string_axioms;

    let mut v: Vec<char> = Vec::new();
    for c in it: s.chars()
        invariant
            v@ == it.seq().take(it.index() as int),
            it.seq() == s@,
    {
        v.push(c);
    }
    v
}

/// Whether the characters `a..b` of `src` spell `word`.
fn spells(src: &Vec<char>, a: usize, b: usize, word: &str) -> (r: bool)
    requires
        a <= b <= src@.len(),
    ensures
        r == (src@.subrange(a as int, b as int) == word@),
{
    let n = word.unicode_len();
    if b - a != n {
        return false;
    }
    let mut i: usize = 0;
    while i < n
        invariant
            a <= b <= src@.len(),
            b - a == n,
            n == word@.len(),
            i <= n,
            forall|k: int| 0 <= k < i ==> src@[a + k] == word@[k],
        decreases n - i,
    {
        if src[a + i] != word.get_char(i) {
            assert(src@.subrange(a as int, b as int)[i as int] != word@[i as int]);
            return false;
        }
        i = i + 1;
    }
    assert(src@.subrange(a as int, b as int) =~= word@);
    true
}

pub open spec fn prepend(p: Seq<SpecToken>, o: Option<Seq<SpecToken>>) -> Option<Seq<SpecToken>> {
    match o {
        None => None,
        Some(s) => Some(p + s),
    }
}

proof fn lemma_prepend_none(p: Seq<SpecToken>, o: Option<Seq<SpecToken>>)
    requires
        prepend(p, o) is None,
    ensures
        o is None,
{
}

proof fn lemma_prepend_assoc(a: Seq<SpecToken>, b: Seq<SpecToken>, o: Option<Seq<SpecToken>>)
    ensures
        prepend(a, prepend(b, o)) == prepend(a + b, o),
{
    if let Some(s) = o {
        assert(a + (b + s) =~= (a + b) + s);
    }
}

proof fn lemma_prev_after(before: Seq<SpecToken>, t: Option<SpecToken>)
    ensures
        prev_of(before + opt_seq(t)) == prev_after(prev_of(before), t),
{
    if let Some(tk) = t {
        assert((before + seq![tk]).last() == tk);
    } else {
        assert(before + Seq::<SpecToken>::empty() =~= before);
    }
}

proof fn lemma_view_tokens_push(s: Seq<LocatedToken>, t: LocatedToken)
    ensures
        view_tokens(s.push(t)) == view_tokens(s) + seq![located_view(t)],
{
    assert(view_tokens(s.push(t)) =~= view_tokens(s) + seq![located_view(t)]);
}

proof fn lemma_lines_after_snoc(src: Seq<char>, a: int, b: int, line: int, offset: int)
    requires
        a <= b < src.len(),
    ensures
        lines_after(src, a, b + 1, line, offset) == (if src[b] == '\n' {
            (lines_after(src, a, b, line, offset).0 + 1, 0)
        } else {
            (lines_after(src, a, b, line, offset).0, lines_after(src, a, b, line, offset).1 + 1)
        }),
    decreases b - a,
{
    if a < b {
        if src[a] == '\n' {
            lemma_lines_after_snoc(src, a + 1, b, line + 1, 0);
        } else {
            lemma_lines_after_snoc(src, a + 1, b, line, offset + 1);
        }
    } else {
        reveal_with_fuel(lines_after, 2);
    }
}

proof fn lemma_lines_after_bound(src: Seq<char>, a: int, b: int, line: int, offset: int)
    requires
        a <= b,
        offset >= 0,
    ensures
        lines_after(src, a, b, line, offset).0 <= line + (b - a),
        lines_after(src, a, b, line, offset).1 <= offset + (b - a),
        lines_after(src, a, b, line, offset).0 >= line,
        lines_after(src, a, b, line, offset).1 >= 0,
    decreases b - a,
{
    if a < b {
        if src[a] == '\n' {
            lemma_lines_after_bound(src, a + 1, b, line + 1, 0);
        } else {
            lemma_lines_after_bound(src, a + 1, b, line, offset + 1);
        }
    }
}

proof fn lemma_digits_end(src: Seq<char>, j: int)
    requires
        0 <= j <= src.len(),
    ensures
        j <= digits_end(src, j) <= src.len(),
    decreases src.len() - j,
{
    if j < src.len() && is_digit(src[j]) {
        lemma_digits_end(src, j + 1);
    }
}

proof fn lemma_hex_end(src: Seq<char>, j: int)
    requires
        0 <= j <= src.len(),
    ensures
        j <= hex_end(src, j) <= src.len(),
    decreases src.len() - j,
{
    if j < src.len() && is_hex_digit(src[j]) {
        lemma_hex_end(src, j + 1);
    }
}

proof fn lemma_string_end(src: Seq<char>, d: char, j: int)
    requires
        1 <= j,
    ensures
        string_end(src, d, j) matches Some(k) ==> j <= k < src.len() && src[k] == d,
    decreases src.len() - j,
{
    if j < src.len() && !(src[j] == d && src[j - 1] != '\\') {
        lemma_string_end(src, d, j + 1);
    }
}

proof fn lemma_exponent_end(src: Seq<char>, k: int)
    requires
        0 <= k <= src.len(),
    ensures
        k <= exponent_end(src, k) <= src.len(),
{
    if k + 2 <= src.len() {
        lemma_digits_end(src, k + 2);
    }
    if k + 1 <= src.len() {
        lemma_digits_end(src, k + 1);
    }
}

pub(crate) proof fn lemma_number_end(src: Seq<char>, it: int)
    requires
        0 <= it < src.len(),
    ensures
        it <= number_end(src, it) <= src.len(),
        is_digit(src[it]) ==> it < number_end(src, it),
        src[it] == '.' && it + 1 < src.len() && is_digit(src[it + 1]) ==> it < number_end(src, it),
{
    lemma_digits_end(src, it);
    let j = digits_end(src, it);
    if is_digit(src[it]) {
        assert(digits_end(src, it) == digits_end(src, it + 1));
        lemma_digits_end(src, it + 1);
    }
    if j < src.len() {
        lemma_digits_end(src, j + 1);
        lemma_exponent_end(src, digits_end(src, j + 1));
        if src[it] == '.' && it + 1 < src.len() && is_digit(src[it + 1]) {
            assert(digits_end(src, it + 1) == digits_end(src, it + 2));
            lemma_digits_end(src, it + 2);
        }
    }
    lemma_exponent_end(src, j);
    if it + 2 <= src.len() {
        lemma_hex_end(src, it + 2);
        let h = hex_end(src, it + 2);
        if h < src.len() {
            lemma_hex_end(src, h + 1);
            let k = hex_end(src, h + 1);
            if k < src.len() {
                lemma_hex_end(src, k + 1);
            }
        }
    }
}

pub(crate) proof fn lemma_word_end(src: Seq<char>, j: int)
    requires
        0 <= j <= src.len(),
    ensures
        j <= word_end(src, j) <= src.len(),
    decreases src.len() - j,
{
    if j < src.len() && !is_symbol_ending(src[j]) {
        lemma_word_end(src, j + 1);
    }
}

proof fn lemma_comment_end(src: Seq<char>, j: int)
    requires
        0 <= j <= src.len(),
    ensures
        j <= comment_end(src, j) <= src.len(),
    decreases src.len() - j,
{
    if j < src.len() && src[j] != '\n' {
        lemma_comment_end(src, j + 1);
    }
}

/// Tokenizer for an R program.
///
/// Transforms an R program into an array of language tokens.
pub struct Tokenizer<'a> {
    pub tokens: Vec<LocatedToken<'a>>,
    line: u32,
    offset: usize,
    it: usize,
    source: Vec<char>,
    raw_source: &'a str,
    ascii: bool,
}

impl<'a> Tokenizer<'a> {
    /// The characters of the program.
    pub closed spec fn src(&self) -> Seq<char> {
        self.source@
    }

    /// The position of the tokenizer in the program.
    pub closed spec fn state(&self) -> LexState {
        LexState { it: self.it as int, line: self.line as int, offset: self.offset as int }
    }

    pub closed spec fn wf(&self) -> bool {
        &&& self.source@ == self.raw_source@
        &&& self.ascii == self.raw_source.is_ascii()
        &&& self.line <= self.it <= self.source@.len() + 1
        &&& self.offset <= self.it
    }

    /// The tokens recorded so far, as values.
    pub closed spec fn recorded(&self) -> Seq<SpecToken> {
        view_tokens(self.tokens@)
    }

    /// Returns a new tokenizer from an R program.
    ///
    /// # Arguments
    ///
    /// * `input` - the R program to tokenize
    pub fn new(input: &'a str) -> (r: Self)
        ensures
            r.wf(),
            r.src() == input@,
            r.state() == (LexState { it: 0, line: 0, offset: 0 }),
            r.recorded().len() == 0,
    {
        Self {
            tokens: Vec::new(),
            line: 0,
            offset: 0,
            it: 0,
            source: chars_of(input),
            raw_source: input,
            ascii: input.is_ascii(),
        }
    }

    fn next(&mut self)
        requires
            old(self).wf(),
            old(self).it <= old(self).source@.len(),
            old(self).source@.len() < u32::MAX,
        ensures
            final(self).wf(),
            final(self).src() == old(self).src(),
            final(self).tokens == old(self).tokens,
            final(self).state() == adv(old(self).state(), 1),
    {
        self.it = self.it + 1;
        self.offset = self.offset + 1;
    }

    fn next_line(&mut self)
        requires
            old(self).wf(),
            old(self).it <= old(self).source@.len(),
            old(self).source@.len() < u32::MAX,
        ensures
            final(self).wf(),
            final(self).src() == old(self).src(),
            final(self).tokens == old(self).tokens,
            final(self).state() == (LexState {
                it: old(self).state().it + 1,
                line: old(self).state().line + 1,
                offset: 0,
            }),
    {
        self.it = self.it + 1;
        self.line = self.line + 1;
        self.offset = 0;
    }

    fn lookahead(&self) -> (r: Option<char>)
        requires
            self.wf(),
            self.state().it < self.src().len(),
            self.src().len() < u32::MAX,
        ensures
            r == char_at(self.src(), self.state().it + 1),
    {
        if self.it + 1 < self.source.len() {
            Some(self.source[self.it + 1])
        } else {
            None
        }
    }

    fn push_token(&mut self, token: Token<'a>)
        ensures
            final(self).tokens@ == old(self).tokens@.push(LocatedToken { token, line: final(self).line, offset: final(self).offset }),
            final(self).recorded() == old(self).recorded() + seq![
                SpecToken { token: token@, line: final(self).state().line, offset: final(self).state().offset },
            ],
            final(self).line == old(self).line,
            final(self).offset == old(self).offset,
            final(self).it == old(self).it,
            final(self).source == old(self).source,
            final(self).raw_source == old(self).raw_source,
            final(self).ascii == old(self).ascii,
    {
        let t = LocatedToken::new(token, self.line, self.offset);
        proof {
            lemma_view_tokens_push(self.tokens@, t);
        }
        self.tokens.push(t);
    }

    /// Records a token at the given line and column, where it starts.
    fn push_token_at(&mut self, token: Token<'a>, line: u32, offset: usize)
        ensures
            final(self).tokens@ == old(self).tokens@.push(LocatedToken { token, line, offset }),
            final(self).recorded() == old(self).recorded() + seq![
                SpecToken { token: token@, line: line as int, offset: offset as int },
            ],
            final(self).line == old(self).line,
            final(self).offset == old(self).offset,
            final(self).it == old(self).it,
            final(self).source == old(self).source,
            final(self).raw_source == old(self).raw_source,
            final(self).ascii == old(self).ascii,
    {
        let t = LocatedToken::new(token, line, offset);
        proof {
            lemma_view_tokens_push(self.tokens@, t);
        }
        self.tokens.push(t);
    }

    /// The characters `a..b` of the program, as a slice of it.
    fn text(&self, a: usize, b: usize) -> (r: &'a str)
        requires
            self.wf(),
            a <= b <= self.src().len(),
        ensures
            r@ == self.src().subrange(a as int, b as int),
    {
        if self.ascii {
            self.raw_source.substring_ascii(a, b)
        } else {
            self.raw_source.substring_char(a, b)
        }
    }

    fn string_literal(&mut self) -> (ok: bool)
        requires
            old(self).wf(),
            old(self).src().len() < u32::MAX,
            old(self).it < old(self).source@.len(),
            old(self).src()[old(self).state().it] == '\'' || old(self).src()[old(self).state().it] == '"',
        ensures
            ok == (string_end(old(self).src(), old(self).src()[old(self).state().it], old(self).state().it + 1) is Some),
            ok ==> ({
                let src = old(self).src();
                let st = old(self).state();
                let j = string_end(src, src[st.it], st.it + 1)->0;
                let (line, offset) = lines_after(src, st.it, j, st.line, st.offset);
                &&& final(self).wf()
                &&& final(self).src() == src
                &&& final(self).state() == (LexState { it: j, line, offset })
                &&& final(self).recorded() == old(self).recorded() + seq![
                    SpecToken { token: crate::tokens::TokenV::Literal(src.subrange(st.it, j + 1)), line: st.line, offset: st.offset },
                ]
            }),
    {
        let ghost src = self.src();
        let delimiter = self.source[self.it];
        let start_line = self.line;
        let start_offset = self.offset;
        let start_it = self.it;
        self.next();
        proof {
            reveal_with_fuel(lines_after, 2);
        }
        while self.it < self.source.len() && (self.source[self.it] != delimiter || self.source[self.it
            - 1] == '\\')
            invariant
                self.wf(),
                self.src() == src,
                src.len() < u32::MAX,
                self.tokens == old(self).tokens,
                start_it < self.it <= src.len(),
                delimiter == src[start_it as int],
                string_end(src, delimiter, start_it + 1) == string_end(src, delimiter, self.it as int),
                (self.line as int, self.offset as int) == lines_after(src, start_it as int, self.it as int, start_line as int, start_offset as int),
            decreases src.len() - self.it,
        {
            proof {
                lemma_lines_after_snoc(src, start_it as int, self.it as int, start_line as int, start_offset as int);
            }
            if self.source[self.it] == '\n' {
                self.next_line();
            } else {
                self.next();
            }
        }
        if self.it >= self.source.len() {
            return false;
        }
        let text = self.text(start_it, self.it + 1);
        let t = LocatedToken::new(Token::Literal(text), start_line, start_offset);
        proof {
            lemma_view_tokens_push(self.tokens@, t);
        }
        self.tokens.push(t);
        true
    }

    fn parse_decimal(&mut self)
        requires
            old(self).wf(),
            old(self).src().len() < u32::MAX,
            old(self).it <= old(self).source@.len(),
        ensures
            final(self).wf(),
            final(self).src() == old(self).src(),
            final(self).tokens == old(self).tokens,
            final(self).state() == adv(old(self).state(), digits_end(old(self).src(), old(self).state().it) - old(self).state().it),
    {
        let ghost st0 = self.state();
        while self.it < self.source.len() && is_digit_char(self.source[self.it])
            invariant
                self.wf(),
                self.src() == old(self).src(),
                self.src().len() < u32::MAX,
                self.tokens == old(self).tokens,
                st0.it <= self.it <= self.source@.len(),
                self.state() == adv(st0, self.it - st0.it),
                digits_end(self.src(), st0.it) == digits_end(self.src(), self.it as int),
            decreases self.source@.len() - self.it,
        {
            self.next();
        }
    }

    fn parse_hexadecimal(&mut self)
        requires
            old(self).wf(),
            old(self).src().len() < u32::MAX,
            old(self).it <= old(self).source@.len(),
        ensures
            final(self).wf(),
            final(self).src() == old(self).src(),
            final(self).tokens == old(self).tokens,
            final(self).state() == adv(old(self).state(), hex_end(old(self).src(), old(self).state().it) - old(self).state().it),
    {
        let ghost st0 = self.state();
        while self.it < self.source.len() && is_hex_digit_char(self.source[self.it])
            invariant
                self.wf(),
                self.src() == old(self).src(),
                self.src().len() < u32::MAX,
                self.tokens == old(self).tokens,
                st0.it <= self.it <= self.source@.len(),
                self.state() == adv(st0, self.it - st0.it),
                hex_end(self.src(), st0.it) == hex_end(self.src(), self.it as int),
            decreases self.source@.len() - self.it,
        {
            self.next();
        }
    }

    /// Whether the character at `j` is `c`.
    fn char_is(&self, j: usize, c: char) -> (r: bool)
        requires
            self.wf(),
        ensures
            r == (char_at(self.src(), j as int) == Some(c)),
    {
        j < self.source.len() && self.source[j] == c
    }

    fn exponent(&mut self)
        requires
            old(self).wf(),
            old(self).src().len() < u32::MAX,
            old(self).it <= old(self).source@.len(),
        ensures
            final(self).wf(),
            final(self).src() == old(self).src(),
            final(self).tokens == old(self).tokens,
            final(self).state() == adv(old(self).state(), exponent_end(old(self).src(), old(self).state().it) - old(self).state().it),
    {
        let ghost src = self.src();
        if self.char_is(self.it, 'e') || self.char_is(self.it, 'E') {
            if self.char_is(self.it + 1, '+') || self.char_is(self.it + 1, '-') {
                self.next();
                self.next();
                proof { lemma_digits_end(src, self.it as int); }
                self.parse_decimal();
            } else {
                self.next();
                proof { lemma_digits_end(src, self.it as int); }
                self.parse_decimal();
            }
        }
    }

    fn number_literal(&mut self)
        requires
            old(self).wf(),
            old(self).src().len() < u32::MAX,
            old(self).it < old(self).source@.len(),
        ensures
            ({
                let src = old(self).src();
                let st = old(self).state();
                let j = number_end(src, st.it);
                let st2 = adv(st, j - st.it);
                &&& final(self).wf()
                &&& final(self).src() == src
                &&& final(self).state() == st2
                &&& st.it <= j <= src.len()
                &&& final(self).recorded() == old(self).recorded() + seq![
                    SpecToken { token: crate::tokens::TokenV::Literal(src.subrange(st.it, j)), line: st.line, offset: st.offset },
                ]
            }),
    {
        let ghost src = self.src();
        let start_line = self.line;
        let start_offset = self.offset;
        let start_it = self.it;
        if self.char_is(self.it, '0') && (self.char_is(self.it + 1, 'x') || self.char_is(self.it + 1, 'X')) {
            // Hexadecimal
            self.next();
            self.next();
            proof { lemma_hex_end(src, self.it as int); }
            self.parse_hexadecimal();
            if self.char_is(self.it, '.') {
                self.next();
                proof { lemma_hex_end(src, self.it as int); }
                self.parse_hexadecimal();
                if self.char_is(self.it, 'p') || self.char_is(self.it, 'P') {
                    self.next();
                    proof { lemma_hex_end(src, self.it as int); }
                    self.parse_hexadecimal();
                }
            }
        } else {
            // Decimal
            proof { lemma_digits_end(src, self.it as int); }
            self.parse_decimal();
            if self.char_is(self.it, '.') {
                self.next();
                proof { lemma_digits_end(src, self.it as int); }
                self.parse_decimal();
                proof { lemma_digits_end(src, self.it as int); }
                self.exponent();
            } else {
                proof { lemma_digits_end(src, self.it as int); }
                self.exponent();
            }
        }
        proof {
            lemma_number_end(src, start_it as int);
        }
        let text = self.text(start_it, self.it);
        self.push_token_at(Token::Literal(text), start_line, start_offset);
    }

    fn identifier(&mut self) -> (ok: bool)
        requires
            old(self).wf(),
            old(self).src().len() < u32::MAX,
            old(self).it < old(self).source@.len(),
        ensures
            ok == (lex_identifier(old(self).src(), old(self).state()) is Some),
            ok ==> ({
                let (t, st2) = lex_identifier(old(self).src(), old(self).state())->0;
                &&& final(self).wf()
                &&& final(self).src() == old(self).src()
                &&& final(self).state() == st2
                &&& old(self).state().it < st2.it <= final(self).src().len()
                &&& final(self).recorded() == old(self).recorded() + opt_seq(t)
            }),
    {
        let ghost src = self.src();
        let start_line = self.line;
        let start_offset = self.offset;
        let start_it = self.it;
        while self.it < self.source.len() && (is_alphabetic(self.source[self.it])
            || self.source[self.it] == '.' || self.source[self.it] == '_')
            invariant
                self.wf(),
                self.src() == src,
                src.len() < u32::MAX,
                self.tokens == old(self).tokens,
                start_it <= self.it <= src.len(),
                self.state() == adv(old(self).state(), self.it - start_it),
                ident_end(src, start_it as int) == ident_end(src, self.it as int),
            decreases src.len() - self.it,
        {
            self.next();
        }
        if self.it >= self.source.len() || self.it == start_it {
            return false;
        }
        let text = self.text(start_it, self.it);
        self.push_token_at(Token::Symbol(text), start_line, start_offset);
        true
    }

    fn identifier_or_reserved(&mut self)
        requires
            old(self).wf(),
            old(self).src().len() < u32::MAX,
            old(self).it < old(self).source@.len(),
        ensures
            ({
                let (t, st2) = lex_word(old(self).src(), old(self).state())->0;
                &&& final(self).wf()
                &&& final(self).src() == old(self).src()
                &&& final(self).state() == st2
                &&& old(self).state().it <= st2.it <= final(self).src().len()
                &&& final(self).recorded() == old(self).recorded() + opt_seq(t)
            }),
    {
        let ghost src = self.src();
        let start_line = self.line;
        let start_offset = self.offset;
        let start_it = self.it;
        while self.it < self.source.len() && !is_symbol_ending_char(self.source[self.it])
            invariant
                self.wf(),
                self.src() == src,
                src.len() < u32::MAX,
                self.tokens == old(self).tokens,
                start_it <= self.it <= src.len(),
                self.state() == adv(old(self).state(), self.it - start_it),
                word_end(src, start_it as int) == word_end(src, self.it as int),
            decreases src.len() - self.it,
        {
            self.next();
        }
        let end = self.it;
        let src_ref = &self.source;
        if spells(src_ref, start_it, end, "continue") {
            self.push_token_at(Token::Continue, start_line, start_offset);
        } else if spells(src_ref, start_it, end, "break") {
            self.push_token_at(Token::Break, start_line, start_offset);
        } else if spells(src_ref, start_it, end, "for") {
            self.push_token_at(Token::For, start_line, start_offset);
        } else if spells(src_ref, start_it, end, "if") {
            self.push_token_at(Token::If, start_line, start_offset);
        } else if spells(src_ref, start_it, end, "else") {
            self.push_token_at(Token::Else, start_line, start_offset);
        } else if spells(src_ref, start_it, end, "in") {
            self.push_token_at(Token::In, start_line, start_offset);
        } else if spells(src_ref, start_it, end, "while") {
            self.push_token_at(Token::While, start_line, start_offset);
        } else if spells(src_ref, start_it, end, "repeat") {
            self.push_token_at(Token::Repeat, start_line, start_offset);
        } else if spells(src_ref, start_it, end, "function") {
            self.push_token_at(Token::Function, start_line, start_offset);
        } else if spells(src_ref, start_it, end, "TRUE") || spells(src_ref, start_it, end, "FALSE") {
            let text = self.text(start_it, end);
            self.push_token_at(Token::Literal(text), start_line, start_offset);
        } else {
            let text = self.text(start_it, end);
            self.push_token_at(Token::Symbol(text), start_line, start_offset);
        }
    }

    fn comment(&mut self)
        requires
            old(self).wf(),
            old(self).src().len() < u32::MAX,
            old(self).it < old(self).source@.len(),
        ensures
            ({
                let (t, st2) = lex_comment(old(self).src(), old(self).state(), prev_of(old(self).recorded()))->0;
                &&& final(self).wf()
                &&& final(self).src() == old(self).src()
                &&& final(self).state() == st2
                &&& old(self).state().it <= st2.it <= final(self).src().len()
                &&& final(self).recorded() == old(self).recorded() + opt_seq(t)
            }),
    {
        let ghost src = self.src();
        let start_line = self.line;
        let start_offset = self.offset;
        let start_it = self.it;
        while self.it < self.source.len() && self.source[self.it] != '\n'
            invariant
                self.wf(),
                self.src() == src,
                src.len() < u32::MAX,
                self.tokens == old(self).tokens,
                start_it <= self.it <= src.len(),
                self.state() == adv(old(self).state(), self.it - start_it),
                comment_end(src, start_it as int) == comment_end(src, self.it as int),
            decreases src.len() - self.it,
        {
            self.next();
        }
        let text = self.text(start_it, self.it);
        let n = self.tokens.len();
        if n == 0 {
            self.push_token_at(Token::Comment(text), start_line, start_offset);
        } else {
            let last = self.tokens[n - 1].token;
            proof {
                assert(self.recorded().last() == located_view(self.tokens@[n - 1]));
            }
            match last {
                Token::Newline => self.push_token_at(Token::Comment(text), start_line, start_offset),
                _ => self.push_token_at(Token::InlineComment(text), start_line, start_offset),
            }
        }
    }

    /// Reads one token (or one blank) of the program.
    fn lex_one(&mut self) -> (ok: bool)
        requires
            old(self).wf(),
            old(self).src().len() < u32::MAX,
            old(self).state().it < old(self).src().len(),
        ensures
            ok == (lex_step(old(self).src(), old(self).state(), prev_of(old(self).recorded())) is Some),
            ok ==> ({
                let (t, st2) = lex_step(old(self).src(), old(self).state(), prev_of(old(self).recorded()))->0;
                &&& final(self).wf()
                &&& final(self).src() == old(self).src()
                &&& final(self).state() == st2
                &&& old(self).state().it < st2.it <= old(self).src().len() + 1
                &&& final(self).recorded() == old(self).recorded() + opt_seq(t)
            }),
    {
        let ghost src = self.src();
        let ghost st = self.state();
        let c = self.source[self.it];
        match c {
            ' ' | '\t' => {
                self.next();
            },
            '\r' => {
                self.push_token(Token::Newline);
                self.next();
                self.next_line();
            },
            '\n' => {
                self.push_token(Token::Newline);
                self.next_line();
            },
            ';' => {
                self.push_token(Token::Semicolon);
                self.next();
            },
            ',' => {
                self.push_token(Token::Comma);
                self.next();
            },
            '(' => {
                self.push_token(Token::LParen);
                self.next();
            },
            ')' => {
                self.push_token(Token::RParen);
                self.next();
            },
            '{' => {
                self.push_token(Token::LBrace);
                self.next();
            },
            '}' => {
                self.push_token(Token::RBrace);
                self.next();
            },
            '[' => {
                self.push_token(Token::LSubscript);
                self.next();
            },
            ']' => {
                self.push_token(Token::RSubscript);
                self.next();
            },
            '\'' | '"' => {
                if !self.string_literal() {
                    return false;
                }
                proof {
                    lemma_string_end(src, src[st.it], st.it + 1);
                    let j = string_end(src, src[st.it], st.it + 1)->0;
                    lemma_lines_after_snoc(src, st.it, j, st.line, st.offset);
                    lemma_lines_after_bound(src, st.it, j, st.line, st.offset);
                }
                self.next();
            },
            '*' => {
                match self.lookahead() {
                    None => {
                        return false;
                    },
                    Some('*') => {
                        // That's undocumented, but it actually works...
                        self.push_token(Token::Power);
                        self.next();
                    },
                    Some(_) => self.push_token(Token::Multiply),
                }
                self.next();
            },
            '/' => {
                self.push_token(Token::Divide);
                self.next();
            },
            '^' => {
                self.push_token(Token::Power);
                self.next();
            },
            '+' => {
                self.push_token(Token::Plus);
                self.next();
            },
            '?' => {
                self.push_token(Token::Help);
                self.next();
            },
            '<' => {
                match self.lookahead() {
                    None => {
                        return false;
                    },
                    Some('-') => {
                        self.push_token(Token::LAssign);
                        self.next();
                    },
                    Some('=') => {
                        self.push_token(Token::LowerEqual);
                        self.next();
                    },
                    Some(_) => self.push_token(Token::LowerThan),
                }
                self.next();
            },
            '>' => {
                match self.lookahead() {
                    None => {
                        return false;
                    },
                    Some('=') => {
                        self.push_token(Token::GreaterEqual);
                        self.next();
                    },
                    Some(_) => self.push_token(Token::GreaterThan),
                }
                self.next();
            },
            '|' => {
                match self.lookahead() {
                    None => {
                        return false;
                    },
                    Some('|') => {
                        self.push_token(Token::Or);
                        self.next();
                    },
                    Some('>') => {
                        self.push_token(Token::Pipe);
                        self.next();
                    },
                    Some(_) => self.push_token(Token::VectorizedOr),
                }
                self.next();
            },
            '&' => {
                match self.lookahead() {
                    None => {
                        return false;
                    },
                    Some('&') => {
                        self.push_token(Token::And);
                        self.next();
                    },
                    Some(_) => self.push_token(Token::VectorizedAnd),
                }
                self.next();
            },
            '=' => {
                match self.lookahead() {
                    None => {
                        return false;
                    },
                    Some('=') => {
                        self.push_token(Token::Equal);
                        self.next();
                    },
                    Some(_) => self.push_token(Token::OldAssign),
                }
                self.next();
            },
            '$' => {
                self.push_token(Token::Dollar);
                self.next();
            },
            '-' => {
                match self.lookahead() {
                    None => {
                        return false;
                    },
                    Some('>') => {
                        self.push_token(Token::RAssign);
                        self.next();
                    },
                    Some(_) => self.push_token(Token::Minus),
                }
                self.next();
            },
            '!' => {
                let (start_line, start_offset) = (self.line, self.offset);
                self.next();
                if self.char_is(self.it, '=') {
                    self.push_token_at(Token::NotEqual, start_line, start_offset);
                    self.next();
                } else {
                    self.push_token_at(Token::UnaryNot, start_line, start_offset);
                }
            },
            '.' => {
                match self.lookahead() {
                    None => {
                        return false;
                    },
                    Some(next_char) => {
                        if is_digit_char(next_char) && !(('a' <= next_char && next_char <= 'z') || ('A' <= next_char && next_char <= 'Z')) {
                            proof {
                                lemma_number_end(src, st.it);
                            }
                            self.number_literal();
                        } else {
                            return self.identifier();
                        }
                    },
                }
            },
            '`' | '_' => {
                return self.identifier();
            },
            '%' => {
                match self.lookahead() {
                    None => {
                        return false;
                    },
                    Some('%') => {
                        self.push_token(Token::Modulo);
                        self.next();
                        self.next();
                    },
                    Some(_) => {
                        return self.identifier();
                    },
                }
            },
            'a'..='z' | 'A'..='Z' => {
                proof {
                    lemma_word_end(src, st.it + 1);
                }
                self.identifier_or_reserved();
            },
            '0'..='9' => {
                proof {
                    lemma_number_end(src, st.it);
                }
                self.number_literal();
            },
            '\\' => {
                self.push_token(Token::Lambda);
                self.next();
            },
            '#' => {
                proof {
                    lemma_comment_end(src, st.it + 1);
                }
                self.comment();
            },
            '~' => {
                self.push_token(Token::Tilde);
                self.next();
            },
            '@' => {
                self.push_token(Token::Slot);
                self.next();
            },
            ':' => {
                let (start_line, start_offset) = (self.line, self.offset);
                self.next();
                if self.char_is(self.it, ':') {
                    if self.char_is(self.it + 1, ':') {
                        self.push_token_at(Token::NsGetInt, start_line, start_offset);
                        self.next();
                        self.next();
                    } else {
                        self.push_token_at(Token::NsGet, start_line, start_offset);
                        self.next();
                    }
                } else {
                    self.push_token_at(Token::Colon, start_line, start_offset);
                }
            },
            _ => {
                return false;
            },
        }
        true
    }

    /// Reads the rest of the program, or says that the tokenizer cannot read it
    /// (`None`): where a character cannot be read, or the program ends inside an
    /// operator, a string or an identifier.
    pub fn try_tokenize(&mut self) -> (r: Option<Vec<LocatedToken<'a>>>)
        requires
            old(self).wf(),
            old(self).src().len() < u32::MAX,
        ensures
            match lex_from(old(self).src(), old(self).state(), prev_of(old(self).recorded())) {
                None => r is None,
                Some(s) => r matches Some(v) && view_tokens(v@) == old(self).recorded() + s
                    && final(self).recorded() == view_tokens(v@),
            },
    {
        let ghost src = self.src();
        let ghost st0 = self.state();
        let ghost p0 = prev_of(self.recorded());
        let ghost r0 = self.recorded();
        while self.it < self.source.len()
            invariant
                self.wf(),
                self.src() == src,
                src == old(self).src(),
                st0 == old(self).state(),
                p0 == prev_of(old(self).recorded()),
                r0 == old(self).recorded(),
                src.len() < u32::MAX,
                prepend(r0, lex_from(src, st0, p0)) == prepend(
                    self.recorded(),
                    lex_from(src, self.state(), prev_of(self.recorded())),
                ),
            decreases src.len() + 1 - self.it,
        {
            let ghost before = self.recorded();
            let ghost st = self.state();
            let ok = self.lex_one();
            if !ok {
                proof {
                    assert(lex_from(src, st, prev_of(before)) is None);
                    assert(prepend(r0, lex_from(src, st0, p0)) is None);
                    lemma_prepend_none(r0, lex_from(src, st0, p0));
                }
                return None;
            }
            proof {
                let (t, st2) = lex_step(src, st, prev_of(before))->0;
                lemma_prev_after(before, t);
                assert(lex_from(src, st, prev_of(before)) == prepend(
                    opt_seq(t),
                    lex_from(src, st2, prev_after(prev_of(before), t)),
                ));
                lemma_prepend_assoc(before, opt_seq(t), lex_from(src, st2, prev_after(prev_of(before), t)));
            }
        }
        let eof = LocatedToken::new(Token::EOF, self.line, self.offset);
        proof {
            lemma_view_tokens_push(self.tokens@, eof);
        }
        self.tokens.push(eof);
        let mut copy: Vec<LocatedToken<'a>> = Vec::new();
        let mut i: usize = 0;
        while i < self.tokens.len()
            invariant
                i <= self.tokens@.len(),
                copy@ == self.tokens@.subrange(0, i as int),
            decreases self.tokens@.len() - i,
        {
            copy.push(self.tokens[i]);
            i = i + 1;
        }
        assert(copy@ == self.tokens@);
        Some(copy)
    }

    /// Returns an array of tokens: those recorded before, then those of the rest
    /// of the program, the last of them `EOF`.
    pub fn tokenize(&mut self) -> (r: Vec<LocatedToken<'a>>)
        requires
            old(self).wf(),
            old(self).src().len() < u32::MAX,
            lex_from(old(self).src(), old(self).state(), prev_of(old(self).recorded())) is Some,
        ensures
            view_tokens(r@) == old(self).recorded() + lex_from(
                old(self).src(),
                old(self).state(),
                prev_of(old(self).recorded()),
            )->0,
            final(self).recorded() == view_tokens(r@),
    {
        match self.try_tokenize() {
            Some(tokens) => tokens,
            None => {
                proof {
                    assert(false);
                }
                Vec::new()
            },
        }
    }
}

} // verus!
