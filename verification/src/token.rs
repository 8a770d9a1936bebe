//! Tokens: the classified spans of source text that the matcher chain emits.

use vstd::prelude::*;

verus! {

/// The kind of a token: a closed tag over the lexical classes the scanner
/// recognizes. `EOF` marks the end of the input stream.
#[derive(Debug, Clone, Copy, PartialEq, Eq, Structural)]
pub enum TokenType {
    IntLiteral,
    FloatLiteral,
    Keyword,
    Symbol,
    Operator,
    Identifier,
    Whitespace,
    StringLiteral,
    CharLiteral,
    EOF,
}

/// The span a token covers: the half-open range `[start, end)` of character
/// offsets into the scanned character sequence.
#[derive(Debug, Copy, Clone, PartialEq, Eq, Structural)]
pub struct TokenPosition {
    pub start: usize,
    pub end: usize,
}

impl TokenPosition {
    pub fn new(start: usize, end: usize) -> (r: TokenPosition)
        ensures
            r == (TokenPosition { start, end }),
    {
        TokenPosition { start, end }
    }
}

/// One token: its kind, the span it was read from, and its canonicalized
/// textual payload (for example, a hexadecimal literal's content is its
/// decimal rendering).
#[derive(Debug)]
pub struct Token {
    pub token_type: TokenType,
    pub position: TokenPosition,
    pub content: String,
}

impl Token {
    pub fn new(token_type: TokenType, position: TokenPosition, content: String) -> (r: Token)
        ensures
            r.token_type == token_type,
            r.position == position,
            r.content == content,
    {
        Token { token_type, position, content }
    }

    pub fn token_type(&self) -> (r: &TokenType)
        ensures
            *r == self.token_type,
    {
        &self.token_type
    }

    pub fn position(&self) -> (r: &TokenPosition)
        ensures
            *r == self.position,
    {
        &self.position
    }

    pub fn content(&self) -> (r: &String)
        ensures
            *r == self.content,
    {
        &self.content
    }

    pub fn token_type_mut(&mut self) -> (r: &mut TokenType)
        ensures
            *r == old(self).token_type,
            final(self).token_type == *final(r),
            final(self).position == old(self).position,
            final(self).content == old(self).content,
    {
        &mut self.token_type
    }

    pub fn position_mut(&mut self) -> (r: &mut TokenPosition)
        ensures
            *r == old(self).position,
            final(self).position == *final(r),
            final(self).token_type == old(self).token_type,
            final(self).content == old(self).content,
    {
        &mut self.position
    }

    pub fn content_mut(&mut self) -> (r: &mut String)
        ensures
            *r == old(self).content,
            final(self).content == *final(r),
            final(self).token_type == old(self).token_type,
            final(self).position == old(self).position,
    {
        &mut self.content
    }
}

/// A token, in specification form: its kind, payload and span.
pub struct SpecToken {
    pub kind: TokenType,
    pub text: Seq<char>,
    pub start: int,
    pub end: int,
}

/// Whether the executable token `t` is the token that `m` describes.
pub open spec fn token_fits(t: Token, m: SpecToken) -> bool {
    &&& t.token_type == m.kind
    &&& t.content@ == m.text
    &&& t.position == (TokenPosition { start: m.start as usize, end: m.end as usize })
}

/// The description that fits the executable token `t`.
pub open spec fn token_model(t: Token) -> SpecToken {
    SpecToken {
        kind: t.token_type,
        text: t.content@,
        start: t.position.start as int,
        end: t.position.end as int,
    }
}

/// Copies a token.
pub fn clone_token(t: &Token) -> (r: Token)
    ensures
        r == *t,
{
    Token { token_type: t.token_type, position: t.position, content: t.content.clone() }
}

/// Tokens compare by kind alone: two tokens of the same kind are equal
/// whatever their spans and payloads.
impl PartialEq for Token {
    fn eq(&self, other: &Token) -> (r: bool) {
        self.token_type == other.token_type
    }
}

impl vstd::std_specs::cmp::PartialEqSpecImpl for Token {
    open spec fn obeys_eq_spec() -> bool {
        true
    }

    open spec fn eq_spec(&self, other: &Token) -> bool {
        self.token_type == other.token_type
    }
}

} // verus!
