use vstd::prelude::*;
use vstd::string::StrSliceExecFns;

verus! {

/// This represents all the different token types encountered
/// in an R program.
#[derive(Debug, Clone, Copy, PartialEq)]
pub enum Token<'a> {
    Symbol(&'a str),
    Literal(&'a str),
    Semicolon,
    Newline,
    LParen,
    RParen,
    LBrace,
    RBrace,
    LSubscript,
    RSubscript,
    Comma,
    // Reserved
    Continue,
    Break,
    // Compound
    If,
    Else,
    While,
    For,
    Repeat,
    In,
    Function,
    Lambda,
    // Binary operators
    LAssign,
    RAssign,
    OldAssign,
    Equal,
    NotEqual,
    LowerThan,
    GreaterThan,
    LowerEqual,
    GreaterEqual,
    Power,
    Divide,
    Multiply,
    Minus,
    Plus,
    Help,
    And,
    VectorizedAnd,
    Or,
    VectorizedOr,
    Dollar,
    Pipe,
    Modulo,
    NsGet,
    NsGetInt,
    Tilde,
    Colon,
    Slot,
    Special(&'a str),
    // Unary operators
    UnaryNot,
    // Comments
    InlineComment(&'a str),
    Comment(&'a str),
    // EOF
    EOF,
}

/// The mathematical value of a token: the same variants, with the text of a
/// token that carries text given as a sequence of characters.
pub enum TokenV {
    Symbol(Seq<char>),
    Literal(Seq<char>),
    Semicolon,
    Newline,
    LParen,
    RParen,
    LBrace,
    RBrace,
    LSubscript,
    RSubscript,
    Comma,
    Continue,
    Break,
    If,
    Else,
    While,
    For,
    Repeat,
    In,
    Function,
    Lambda,
    LAssign,
    RAssign,
    OldAssign,
    Equal,
    NotEqual,
    LowerThan,
    GreaterThan,
    LowerEqual,
    GreaterEqual,
    Power,
    Divide,
    Multiply,
    Minus,
    Plus,
    Help,
    And,
    VectorizedAnd,
    Or,
    VectorizedOr,
    Dollar,
    Pipe,
    Modulo,
    NsGet,
    NsGetInt,
    Tilde,
    Colon,
    Slot,
    Special(Seq<char>),
    UnaryNot,
    InlineComment(Seq<char>),
    Comment(Seq<char>),
    EOF,
}

impl<'a> View for Token<'a> {
    type V = TokenV;

    open spec fn view(&self) -> TokenV {
        match *self {
            Token::Symbol(s) => TokenV::Symbol(s@),
            Token::Literal(s) => TokenV::Literal(s@),
            Token::Semicolon => TokenV::Semicolon,
            Token::Newline => TokenV::Newline,
            Token::LParen => TokenV::LParen,
            Token::RParen => TokenV::RParen,
            Token::LBrace => TokenV::LBrace,
            Token::RBrace => TokenV::RBrace,
            Token::LSubscript => TokenV::LSubscript,
            Token::RSubscript => TokenV::RSubscript,
            Token::Comma => TokenV::Comma,
            Token::Continue => TokenV::Continue,
            Token::Break => TokenV::Break,
            Token::If => TokenV::If,
            Token::Else => TokenV::Else,
            Token::While => TokenV::While,
            Token::For => TokenV::For,
            Token::Repeat => TokenV::Repeat,
            Token::In => TokenV::In,
            Token::Function => TokenV::Function,
            Token::Lambda => TokenV::Lambda,
            Token::LAssign => TokenV::LAssign,
            Token::RAssign => TokenV::RAssign,
            Token::OldAssign => TokenV::OldAssign,
            Token::Equal => TokenV::Equal,
            Token::NotEqual => TokenV::NotEqual,
            Token::LowerThan => TokenV::LowerThan,
            Token::GreaterThan => TokenV::GreaterThan,
            Token::LowerEqual => TokenV::LowerEqual,
            Token::GreaterEqual => TokenV::GreaterEqual,
            Token::Power => TokenV::Power,
            Token::Divide => TokenV::Divide,
            Token::Multiply => TokenV::Multiply,
            Token::Minus => TokenV::Minus,
            Token::Plus => TokenV::Plus,
            Token::Help => TokenV::Help,
            Token::And => TokenV::And,
            Token::VectorizedAnd => TokenV::VectorizedAnd,
            Token::Or => TokenV::Or,
            Token::VectorizedOr => TokenV::VectorizedOr,
            Token::Dollar => TokenV::Dollar,
            Token::Pipe => TokenV::Pipe,
            Token::Modulo => TokenV::Modulo,
            Token::NsGet => TokenV::NsGet,
            Token::NsGetInt => TokenV::NsGetInt,
            Token::Tilde => TokenV::Tilde,
            Token::Colon => TokenV::Colon,
            Token::Slot => TokenV::Slot,
            Token::Special(s) => TokenV::Special(s@),
            Token::UnaryNot => TokenV::UnaryNot,
            Token::InlineComment(s) => TokenV::InlineComment(s@),
            Token::Comment(s) => TokenV::Comment(s@),
            Token::EOF => TokenV::EOF,
        }
    }
}

/// Whether two strings hold the same text.
fn same_text(a: &str, b: &str) -> (r: bool)
    ensures
        r == (a@ == b@),
{
    let n = a.unicode_len();
    if n != b.unicode_len() {
        return false;
    }
    let mut i: usize = 0;
    while i < n
        invariant
            n == a@.len(),
            n == b@.len(),
            i <= n,
            a@.subrange(0, i as int) == b@.subrange(0, i as int),
        decreases n - i,
    {
        if a.get_char(i) != b.get_char(i) {
            return false;
        }
        proof {
            assert(a@.subrange(0, i + 1) =~= a@.subrange(0, i as int).push(a@[i as int]));
            assert(b@.subrange(0, i + 1) =~= b@.subrange(0, i as int).push(b@[i as int]));
        }
        i = i + 1;
    }
    proof {
        assert(a@ =~= a@.subrange(0, n as int));
        assert(b@ =~= b@.subrange(0, n as int));
    }
    true
}

impl<'a> Token<'a> {
    /// Whether two tokens are the same token: the same kind, and the same text
    /// where the kind carries one.
    pub fn same_token(&self, other: &Token) -> (r: bool)
        ensures
            r == (self@ == other@),
    {
        match self {
            Token::Symbol(x) => match other {
                Token::Symbol(y) => same_text(x, y),
                _ => false,
            },
            Token::Literal(x) => match other {
                Token::Literal(y) => same_text(x, y),
                _ => false,
            },
            Token::Semicolon => matches!(other, Token::Semicolon),
            Token::Newline => matches!(other, Token::Newline),
            Token::LParen => matches!(other, Token::LParen),
            Token::RParen => matches!(other, Token::RParen),
            Token::LBrace => matches!(other, Token::LBrace),
            Token::RBrace => matches!(other, Token::RBrace),
            Token::LSubscript => matches!(other, Token::LSubscript),
            Token::RSubscript => matches!(other, Token::RSubscript),
            Token::Comma => matches!(other, Token::Comma),
            Token::Continue => matches!(other, Token::Continue),
            Token::Break => matches!(other, Token::Break),
            Token::If => matches!(other, Token::If),
            Token::Else => matches!(other, Token::Else),
            Token::While => matches!(other, Token::While),
            Token::For => matches!(other, Token::For),
            Token::Repeat => matches!(other, Token::Repeat),
            Token::In => matches!(other, Token::In),
            Token::Function => matches!(other, Token::Function),
            Token::Lambda => matches!(other, Token::Lambda),
            Token::LAssign => matches!(other, Token::LAssign),
            Token::RAssign => matches!(other, Token::RAssign),
            Token::OldAssign => matches!(other, Token::OldAssign),
            Token::Equal => matches!(other, Token::Equal),
            Token::NotEqual => matches!(other, Token::NotEqual),
            Token::LowerThan => matches!(other, Token::LowerThan),
            Token::GreaterThan => matches!(other, Token::GreaterThan),
            Token::LowerEqual => matches!(other, Token::LowerEqual),
            Token::GreaterEqual => matches!(other, Token::GreaterEqual),
            Token::Power => matches!(other, Token::Power),
            Token::Divide => matches!(other, Token::Divide),
            Token::Multiply => matches!(other, Token::Multiply),
            Token::Minus => matches!(other, Token::Minus),
            Token::Plus => matches!(other, Token::Plus),
            Token::Help => matches!(other, Token::Help),
            Token::And => matches!(other, Token::And),
            Token::VectorizedAnd => matches!(other, Token::VectorizedAnd),
            Token::Or => matches!(other, Token::Or),
            Token::VectorizedOr => matches!(other, Token::VectorizedOr),
            Token::Dollar => matches!(other, Token::Dollar),
            Token::Pipe => matches!(other, Token::Pipe),
            Token::Modulo => matches!(other, Token::Modulo),
            Token::NsGet => matches!(other, Token::NsGet),
            Token::NsGetInt => matches!(other, Token::NsGetInt),
            Token::Tilde => matches!(other, Token::Tilde),
            Token::Colon => matches!(other, Token::Colon),
            Token::Slot => matches!(other, Token::Slot),
            Token::Special(x) => match other {
                Token::Special(y) => same_text(x, y),
                _ => false,
            },
            Token::UnaryNot => matches!(other, Token::UnaryNot),
            Token::InlineComment(x) => match other {
                Token::InlineComment(y) => same_text(x, y),
                _ => false,
            },
            Token::Comment(x) => match other {
                Token::Comment(y) => same_text(x, y),
                _ => false,
            },
            Token::EOF => matches!(other, Token::EOF),
        }
    }
}

/// Representation of a token.
///
/// This represents a single token in an R program along with the line on which it occurs
/// and the column offset.
#[derive(Debug, Clone, Copy)]
pub struct LocatedToken<'a> {
    /// The actual token stored in this struct.
    pub token: Token<'a>,
    /// The line of the start of this token.
    pub line: u32,
    /// The column offset of the start of this token.
    pub offset: usize,
}

impl<'a> LocatedToken<'a> {
    pub fn new(token: Token<'a>, line: u32, offset: usize) -> (r: Self)
        ensures
            r.token == token,
            r.line == line,
            r.offset == offset,
    {
        Self { token, line, offset }
    }
}

/// When comparing two tokens, only the token itself is compared.
/// The line and offset are ignored.
impl<'a> PartialEq for LocatedToken<'a> {
    fn eq(&self, other: &Self) -> (r: bool) {
        self.token.same_token(&other.token)
    }
}

impl<'a> vstd::std_specs::cmp::PartialEqSpecImpl for LocatedToken<'a> {
    open spec fn obeys_eq_spec() -> bool {
        true
    }

    open spec fn eq_spec(&self, other: &Self) -> bool {
        self.token@ == other.token@
    }
}

/// A token together with the comments that the pre-parsing stage attached to it:
/// the whole-line comments that precede it and the inline comment that follows it.
#[derive(Debug, Clone, PartialEq)]
pub struct CommentedToken<'a> {
    pub token: Token<'a>,
    pub line: u32,
    pub offset: usize,
    pub leading_comments: Option<Vec<&'a str>>,
    pub inline_comment: Option<&'a str>,
}

/// The mathematical value of a commented token.
pub struct CommentedTokenV {
    pub token: TokenV,
    pub line: u32,
    pub offset: usize,
    pub leading_comments: Option<Seq<Seq<char>>>,
    pub inline_comment: Option<Seq<char>>,
}

pub open spec fn comments_view(c: Option<Vec<&str>>) -> Option<Seq<Seq<char>>> {
    match c {
        None => None,
        Some(v) => Some(v@.map_values(|s: &str| s@)),
    }
}

pub open spec fn opt_str_view(c: Option<&str>) -> Option<Seq<char>> {
    match c {
        None => None,
        Some(s) => Some(s@),
    }
}

impl<'a> View for CommentedToken<'a> {
    type V = CommentedTokenV;

    open spec fn view(&self) -> CommentedTokenV {
        CommentedTokenV {
            token: self.token@,
            line: self.line,
            offset: self.offset,
            leading_comments: comments_view(self.leading_comments),
            inline_comment: opt_str_view(self.inline_comment),
        }
    }
}

impl<'a> CommentedToken<'a> {
    pub fn new(token: Token<'a>, line: u32, offset: usize) -> (r: Self)
        ensures
            r.token == token,
            r.line == line,
            r.offset == offset,
            r.leading_comments is None,
            r.inline_comment is None,
    {
        Self { token, line, offset, leading_comments: None, inline_comment: None }
    }

    /// A copy of this token, comments included.
    pub fn duplicate(&self) -> (r: Self)
        ensures
            r@ == self@,
    {
        let leading_comments = match &self.leading_comments {
            None => None,
            Some(comments) => {
                let mut copy: Vec<&'a str> = Vec::new();
                let mut i: usize = 0;
                while i < comments.len()
                    invariant
                        i <= comments.len(),
                        copy@ == comments@.subrange(0, i as int),
                    decreases comments.len() - i,
                {
                    copy.push(comments[i]);
                    i = i + 1;
                }
                assert(copy@ == comments@);
                assert(copy@.map_values(|s: &str| s@) == comments@.map_values(|s: &str| s@));
                Some(copy)
            },
        };
        CommentedToken {
            token: self.token,
            line: self.line,
            offset: self.offset,
            leading_comments,
            inline_comment: self.inline_comment,
        }
    }
}

} // verus!
