use vstd::prelude::*;
use crate::value::Value;

verus! {

/// The tag of a token.
#[derive(Clone, Copy, Debug, PartialEq, Eq, Structural)]
pub enum TokenKind {
    // Single-character punctuation.
    LeftParen,
    RightParen,
    LeftBrace,
    RightBrace,
    Comma,
    Dot,
    Minus,
    Plus,
    Semicolon,
    Slash,
    Star,
    // One- or two-character operators.
    Bang,
    BangEqual,
    Equal,
    EqualEqual,
    Greater,
    GreaterEqual,
    Less,
    LessEqual,
    // Literals.
    Identifier,
    String,
    Number,
    // Keywords.
    And,
    Class,
    Else,
    ElseIf,
    False,
    Fun,
    For,
    If,
    Nil,
    Or,
    Print,
    Return,
    Super,
    Self_,
    True,
    Var,
    While,
    // End of input.
    Eof,
}

/// A lexeme with its kind, its 1-based position, and, for string and number tokens, its value.
#[derive(Clone, Debug, PartialEq)]
pub struct Token {
    pub kind: TokenKind,
    pub lexeme: String,
    pub line: usize,
    pub column: usize,
    pub literal: Option<Value>,
}

impl Token {
    /// A copy of the token.
    pub fn duplicate(&self) -> (r: Token)
        ensures
            r == *self,
    {
        let literal = match &self.literal {
            Some(v) => Some(v.duplicate()),
            None => None,
        };
        Token {
            kind: self.kind,
            lexeme: self.lexeme.clone(),
            line: self.line,
            column: self.column,
            literal,
        }
    }
}

/// The keyword that a word spells, if any.
pub open spec fn keyword_kind(w: Seq<char>) -> Option<TokenKind> {
    if w == seq!['a', 'n', 'd'] {
        Some(TokenKind::And)
    } else if w == seq!['c', 'l', 'a', 's', 's'] {
        Some(TokenKind::Class)
    } else if w == seq!['e', 'l', 's', 'e'] {
        Some(TokenKind::Else)
    } else if w == seq!['e', 'l', 'i', 'f'] {
        Some(TokenKind::ElseIf)
    } else if w == seq!['f', 'a', 'l', 's', 'e'] {
        Some(TokenKind::False)
    } else if w == seq!['f', 'o', 'r'] {
        Some(TokenKind::For)
    } else if w == seq!['f', 'u', 'n'] {
        Some(TokenKind::Fun)
    } else if w == seq!['i', 'f'] {
        Some(TokenKind::If)
    } else if w == seq!['n', 'i', 'l'] {
        Some(TokenKind::Nil)
    } else if w == seq!['o', 'r'] {
        Some(TokenKind::Or)
    } else if w == seq!['p', 'r', 'i', 'n', 't'] {
        Some(TokenKind::Print)
    } else if w == seq!['r', 'e', 't', 'u', 'r', 'n'] {
        Some(TokenKind::Return)
    } else if w == seq!['s', 'u', 'p', 'e', 'r'] {
        Some(TokenKind::Super)
    } else if w == seq!['s', 'e', 'l', 'f'] {
        Some(TokenKind::Self_)
    } else if w == seq!['t', 'r', 'u', 'e'] {
        Some(TokenKind::True)
    } else if w == seq!['v', 'a', 'r'] {
        Some(TokenKind::Var)
    } else if w == seq!['w', 'h', 'i', 'l', 'e'] {
        Some(TokenKind::While)
    } else {
        None
    }
}

/// The kind of a word: its keyword, or `Identifier`.
pub open spec fn word_kind(w: Seq<char>) -> TokenKind {
    match keyword_kind(w) {
        Some(k) => k,
        None => TokenKind::Identifier,
    }
}

fn word_is(w: &[char], k: &[char]) -> (r: bool)
    ensures
        r == (w@ == k@),
{
    if w.len() != k.len() {
        return false;
    }
    let mut i: usize = 0;
    while i < w.len()
        invariant
            w@.len() == k@.len(),
            0 <= i <= w@.len(),
            forall|j: int| 0 <= j < i ==> w@[j] == k@[j],
        decreases w@.len() - i,
    {
        if w[i] != k[i] {
            return false;
        }
        i = i + 1;
    }
    assert(w@ =~= k@);
    true
}

/// The kind of a word: a keyword of the table, or `Identifier`.
pub fn match_keyword(w: &[char]) -> (r: TokenKind)
    ensures
        r == word_kind(w@),
{
    if word_is(w, &['a', 'n', 'd']) {
        TokenKind::And
    } else if word_is(w, &['c', 'l', 'a', 's', 's']) {
        TokenKind::Class
    } else if word_is(w, &['e', 'l', 's', 'e']) {
        TokenKind::Else
    } else if word_is(w, &['e', 'l', 'i', 'f']) {
        TokenKind::ElseIf
    } else if word_is(w, &['f', 'a', 'l', 's', 'e']) {
        TokenKind::False
    } else if word_is(w, &['f', 'o', 'r']) {
        TokenKind::For
    } else if word_is(w, &['f', 'u', 'n']) {
        TokenKind::Fun
    } else if word_is(w, &['i', 'f']) {
        TokenKind::If
    } else if word_is(w, &['n', 'i', 'l']) {
        TokenKind::Nil
    } else if word_is(w, &['o', 'r']) {
        TokenKind::Or
    } else if word_is(w, &['p', 'r', 'i', 'n', 't']) {
        TokenKind::Print
    } else if word_is(w, &['r', 'e', 't', 'u', 'r', 'n']) {
        TokenKind::Return
    } else if word_is(w, &['s', 'u', 'p', 'e', 'r']) {
        TokenKind::Super
    } else if word_is(w, &['s', 'e', 'l', 'f']) {
        TokenKind::Self_
    } else if word_is(w, &['t', 'r', 'u', 'e']) {
        TokenKind::True
    } else if word_is(w, &['v', 'a', 'r']) {
        TokenKind::Var
    } else if word_is(w, &['w', 'h', 'i', 'l', 'e']) {
        TokenKind::While
    } else {
        TokenKind::Identifier
    }
}

} // verus!
