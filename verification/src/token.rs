//! The token tree: the recursive value type produced by the lexer and
//! consumed and mutated in place by the validator. A group's children are
//! ordered; the first child is the head/operator position.

use vstd::prelude::*;

use crate::source_info::SourceInfo;

verus! {

#[derive(Debug)]
pub struct Token {
    pub kind: TokenKind,
    pub si: SourceInfo,
}

#[derive(Debug)]
pub enum TokenKind {
    /// A `{`/`}`-delimited group of tokens; nesting is unbounded.
    SExpr(Vec<Token>),
    /// An explicit or synthetic type annotation slot.
    TypeExpr(Type),
    Identifier(String),
    /// Untyped signed integer literal (reserved; the lexer emits `UInt`).
    Int(i128),
    /// Untyped unsigned integer literal.
    UInt(u128),
    /// Untyped decimal float literal, kept as its exact source digits
    /// (`digits.digits`); converting to a machine float is left to the
    /// embedding program.
    Float(Vec<u8>),
    /// String literal: the raw bytes between the quotes, no escapes.
    String(Vec<u8>),
}

/// The base a numeric literal was written in: a dotted decimal, or an
/// integer in one of the supported radixes (`0b`, `0o`, bare, `0x`).
#[derive(Debug, Clone, Copy, PartialEq, Eq, Structural)]
pub enum NumberKind {
    /// A literal with a decimal point.
    Decimal,
    Base2,
    Base8,
    Base10,
    Base16,
}

/// The radix the digits of a literal of this kind are read in.
pub open spec fn spec_radix(k: NumberKind) -> u32 {
    match k {
        NumberKind::Decimal => 10,
        NumberKind::Base2 => 2,
        NumberKind::Base8 => 8,
        NumberKind::Base10 => 10,
        NumberKind::Base16 => 16,
    }
}

impl NumberKind {
    pub fn radix(self) -> (r: u32)
        ensures
            r == spec_radix(self),
    {
        match self {
            NumberKind::Decimal => 10,
            NumberKind::Base2 => 2,
            NumberKind::Base8 => 8,
            NumberKind::Base10 => 10,
            NumberKind::Base16 => 16,
        }
    }
}

// [Int]
// [Int, Int -> int]
// [List Int]
// [Either a b]
// [Num a, Eq a b => a, b -> c]
#[derive(Debug)]
pub enum Type {
    /// Placeholder inserted wherever an explicit annotation was omitted,
    /// for a later inference pass to resolve.
    Unknown,
    Simple(String),
    Generic { name: String, traits: Vec<String> },
    Complex { name: String, params: Vec<Type> },
    Function { params: Vec<Type>, return_type: Box<Type> },
}

impl Token {
    /// The children of a group token, if it is one.
    pub fn sexpr(&self) -> (r: Option<&Vec<Token>>)
        ensures
            match r {
                Some(v) => self.kind matches TokenKind::SExpr(w) && v == w,
                None => !(self.kind is SExpr),
            },
    {
        match &self.kind {
            TokenKind::SExpr(sexp) => Some(sexp),
            _ => None,
        }
    }

    /// Mutable access to the children of a group token, if it is one.
    pub fn sexpr_mut(&mut self) -> (r: Option<&mut Vec<Token>>)
        ensures
            match r {
                Some(v) => {
                    &&& old(self).kind matches TokenKind::SExpr(w) && *v == w
                    &&& final(self).kind matches TokenKind::SExpr(w2) && w2 == *final(v)
                    &&& final(self).si == old(self).si
                },
                None => !(old(self).kind is SExpr) && *final(self) == *old(self),
            },
    {
        match &mut self.kind {
            TokenKind::SExpr(sexp) => Some(sexp),
            _ => None,
        }
    }

    pub fn is_sexpr(&self) -> (r: bool)
        ensures
            r == self.kind is SExpr,
    {
        match &self.kind {
            TokenKind::SExpr(_) => true,
            _ => false,
        }
    }

    pub fn is_identifier(&self) -> (r: bool)
        ensures
            r == self.kind is Identifier,
    {
        match &self.kind {
            TokenKind::Identifier(_) => true,
            _ => false,
        }
    }

    pub fn is_type(&self) -> (r: bool)
        ensures
            r == self.kind is TypeExpr,
    {
        match &self.kind {
            TokenKind::TypeExpr(_) => true,
            _ => false,
        }
    }

    /// The identifier text, if this token is an identifier.
    pub fn identifier(&self) -> (r: Option<&String>)
        ensures
            match r {
                Some(s) => self.kind matches TokenKind::Identifier(t) && s == t,
                None => !(self.kind is Identifier),
            },
    {
        match &self.kind {
            TokenKind::Identifier(id) => Some(id),
            _ => None,
        }
    }
}

/// Whether a token is an identifier whose text is exactly `s`.
pub open spec fn spec_is_identifier_named(t: Token, s: Seq<char>) -> bool {
    t.kind matches TokenKind::Identifier(id) && id@ == s
}

/// Whether a group's child at `index` is an identifier named `s`.
pub open spec fn spec_nth_child_named(t: Token, index: int, s: Seq<char>) -> bool {
    t.kind matches TokenKind::SExpr(v) && 0 <= index < v@.len() && spec_is_identifier_named(
        v@[index],
        s,
    )
}

impl Token {
    pub fn match_identifier(&self, s: &str) -> (r: bool)
        ensures
            r == spec_is_identifier_named(*self, s@),
    {
        match &self.kind {
            TokenKind::Identifier(name) => *name == s.to_owned(),
            _ => false,
        }
    }

    pub fn match_n_identifier(&self, s: &str, index: usize) -> (r: bool)
        ensures
            r == spec_nth_child_named(*self, index as int, s@),
    {
        if let TokenKind::SExpr(sexp) = &self.kind {
            if index < sexp.len() {
                let token = &sexp[index];
                if let TokenKind::Identifier(id) = &token.kind {
                    return *id == s.to_owned();
                }
            }
        }
        false
    }

    pub fn match_first_identifier(&self, s: &str) -> (r: bool)
        ensures
            r == spec_nth_child_named(*self, 0, s@),
    {
        self.match_n_identifier(s, 0)
    }
}

/// The number of nodes in a token tree; useful as a termination measure and
/// to bound traversals.
pub open spec fn token_size(t: Token) -> nat
    decreases t,
{
    match t.kind {
        TokenKind::SExpr(v) => 1 + token_list_size(v@),
        _ => 1,
    }
}

pub open spec fn token_list_size(s: Seq<Token>) -> nat
    decreases s, s.len(),
{
    if s.len() == 0 {
        0
    } else {
        token_size(s[0]) + token_list_size(s.drop_first())
    }
}

} // verus!
