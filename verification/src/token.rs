//! Tokens and a reader over a sequence of them.
use vstd::prelude::*;

use crate::source::{Loc, SpecLoc};

verus! {

/// What a token is.
#[derive(Clone, Debug, PartialEq, Eq)]
pub enum TokenKind {
    IntLiteral(i64),
    Error(String),
}

/// A token kind in mathematical terms.
pub enum SpecTokenKind {
    IntLiteral(int),
    Error(Seq<char>),
}

impl View for TokenKind {
    type V = SpecTokenKind;

    open spec fn view(&self) -> SpecTokenKind {
        match self {
            TokenKind::IntLiteral(n) => SpecTokenKind::IntLiteral(*n as int),
            TokenKind::Error(msg) => SpecTokenKind::Error(msg@),
        }
    }
}

/// A token and where it stands in the source.
#[derive(Clone, Debug, PartialEq, Eq)]
pub struct Token {
    pub loc: Loc,
    pub kind: TokenKind,
}

/// A token in mathematical terms.
pub struct SpecToken {
    pub loc: SpecLoc,
    pub kind: SpecTokenKind,
}

impl View for Token {
    type V = SpecToken;

    open spec fn view(&self) -> SpecToken {
        SpecToken { loc: self.loc@, kind: self.kind@ }
    }
}

impl Token {
    /// An integer literal token.
    pub fn int_literal(value: i64, loc: Loc) -> (res: Token)
        ensures
            res.loc == loc,
            res.kind == TokenKind::IntLiteral(value),
    {
        Token { loc, kind: TokenKind::IntLiteral(value) }
    }
}

impl TokenKind {
    /// A copy of this kind.
    pub fn duplicate(&self) -> (res: TokenKind)
        ensures
            res == *self,
    {
        match self {
            TokenKind::IntLiteral(n) => TokenKind::IntLiteral(*n),
            TokenKind::Error(msg) => TokenKind::Error(msg.clone()),
        }
    }
}

impl Token {
    /// A copy of this token.
    pub fn duplicate(&self) -> (res: Token)
        ensures
            res == *self,
    {
        Token { loc: self.loc, kind: self.kind.duplicate() }
    }
}

/// The views of a sequence of tokens.
pub open spec fn tokens_view(tokens: Seq<Token>) -> Seq<SpecToken> {
    tokens.map_values(|t: Token| t@)
}

/// Reads tokens one by one, with one token of lookahead.
pub struct TokenReader {
    tokens: Vec<Token>,
    pos: usize,
}

impl View for TokenReader {
    type V = Seq<SpecToken>;

    /// The tokens that are left to read.
    closed spec fn view(&self) -> Seq<SpecToken> {
        tokens_view(self.tokens@.skip(self.pos as int))
    }
}

impl TokenReader {
    pub closed spec fn wf(&self) -> bool {
        self.pos <= self.tokens@.len()
    }

    /// A reader over the given tokens, in order.
    pub fn new(tokens: Vec<Token>) -> (res: TokenReader)
        ensures
            res.wf(),
            res@ == tokens_view(tokens@),
    {
        let res = TokenReader { tokens, pos: 0 };
        assert(res.tokens@.skip(0) =~= res.tokens@);
        res
    }

    /// The next token, without reading it.
    pub fn peek(&self) -> (res: Option<&Token>)
        requires
            self.wf(),
        ensures
            self@.len() == 0 ==> res is None,
            self@.len() > 0 ==> (res matches Some(t) && t@ == self@[0]),
    {
        if self.pos < self.tokens.len() {
            Some(&self.tokens[self.pos])
        } else {
            None
        }
    }

    /// Reads the next token.
    pub fn read(&mut self) -> (res: Option<Token>)
        requires
            old(self).wf(),
        ensures
            final(self).wf(),
            old(self)@.len() == 0 ==> res is None && final(self)@ == old(self)@,
            old(self)@.len() > 0 ==> (res matches Some(t) && t@ == old(self)@[0] && final(self)@
                == old(self)@.drop_first()),
    {
        if self.pos < self.tokens.len() {
            let t = self.tokens[self.pos].duplicate();
            self.pos = self.pos + 1;
            assert(self.tokens@.skip(self.pos as int) =~= old(self).tokens@.skip(
                old(self).pos as int,
            ).drop_first());
            Some(t)
        } else {
            None
        }
    }
}

} // verus!
