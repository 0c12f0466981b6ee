use vstd::prelude::*;

verus! {

/// The lexeme categories as mathematical values: identifier text is a
/// sequence of characters, an integer literal an unbounded integer.
pub ghost enum TokenModel {
    Fn,
    Identifier(Seq<char>),
    LeftParen,
    RightParen,
    LeftCurlyBrace,
    RightCurlyBrace,
    Return,
    Integer(int),
    Colon,
    Void,
    I32,
}

/// A token together with the place of its lexeme: the 0-based source line,
/// and inclusive 0-based character offsets from the beginning of that line.
pub ghost struct SpannedModel {
    pub token: TokenModel,
    pub line: int,
    pub start: int,
    pub end: int,
}

/// A classified lexeme. `Identifier` carries its spelling and `Integer` its
/// parsed value; the reserved words and the punctuation carry nothing.
#[derive(Debug)]
pub enum Token {
    Fn,
    Identifier(String),
    LeftParen,
    RightParen,
    LeftCurlyBrace,
    RightCurlyBrace,
    Return,
    Integer(i64),
    Colon,
    Void,
    I32,
}

impl View for Token {
    type V = TokenModel;

    open spec fn view(&self) -> TokenModel {
        match self {
            Token::Fn => TokenModel::Fn,
            Token::Identifier(text) => TokenModel::Identifier(text@),
            Token::LeftParen => TokenModel::LeftParen,
            Token::RightParen => TokenModel::RightParen,
            Token::LeftCurlyBrace => TokenModel::LeftCurlyBrace,
            Token::RightCurlyBrace => TokenModel::RightCurlyBrace,
            Token::Return => TokenModel::Return,
            Token::Integer(value) => TokenModel::Integer(*value as int),
            Token::Colon => TokenModel::Colon,
            Token::Void => TokenModel::Void,
            Token::I32 => TokenModel::I32,
        }
    }
}

impl PartialEq for Token {
    fn eq(&self, other: &Token) -> (r: bool) {
        match (self, other) {
            (Token::Fn, Token::Fn) => true,
            (Token::Identifier(a), Token::Identifier(b)) => *a == *b,
            (Token::LeftParen, Token::LeftParen) => true,
            (Token::RightParen, Token::RightParen) => true,
            (Token::LeftCurlyBrace, Token::LeftCurlyBrace) => true,
            (Token::RightCurlyBrace, Token::RightCurlyBrace) => true,
            (Token::Return, Token::Return) => true,
            (Token::Integer(a), Token::Integer(b)) => *a == *b,
            (Token::Colon, Token::Colon) => true,
            (Token::Void, Token::Void) => true,
            (Token::I32, Token::I32) => true,
            _ => false,
        }
    }
}

impl vstd::std_specs::cmp::PartialEqSpecImpl for Token {
    open spec fn obeys_eq_spec() -> bool {
        true
    }

    open spec fn eq_spec(&self, other: &Token) -> bool {
        self@ == other@
    }
}

/// A token paired with its span. Structural equality: same token, same span.
#[derive(Debug)]
pub struct SpannedToken {
    pub token: Token,
    pub line: usize,
    pub start: usize,
    pub end: usize,
}

impl View for SpannedToken {
    type V = SpannedModel;

    open spec fn view(&self) -> SpannedModel {
        SpannedModel {
            token: self.token@,
            line: self.line as int,
            start: self.start as int,
            end: self.end as int,
        }
    }
}

impl PartialEq for SpannedToken {
    fn eq(&self, other: &SpannedToken) -> (r: bool) {
        self.token == other.token && self.line == other.line && self.start == other.start
            && self.end == other.end
    }
}

impl vstd::std_specs::cmp::PartialEqSpecImpl for SpannedToken {
    open spec fn obeys_eq_spec() -> bool {
        true
    }

    open spec fn eq_spec(&self, other: &SpannedToken) -> bool {
        self@ == other@
    }
}

impl SpannedToken {
    /// Pairs a token with the span from `start` through `end` on `line`.
    pub fn new(token: Token, line: usize, start: usize, end: usize) -> (st: SpannedToken)
        ensures
            st@ == (SpannedModel {
                token: token@,
                line: line as int,
                start: start as int,
                end: end as int,
            }),
    {
        SpannedToken { token, line, start, end }
    }

    /// Pairs a token with the single-character span at `pos` on `line`.
    pub fn new_single(token: Token, line: usize, pos: usize) -> (st: SpannedToken)
        ensures
            st@ == (SpannedModel {
                token: token@,
                line: line as int,
                start: pos as int,
                end: pos as int,
            }),
    {
        SpannedToken { token, line, start: pos, end: pos }
    }
}

} // verus!
