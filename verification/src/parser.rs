//! The parser: from tokens to a syntax tree.
use vstd::prelude::*;

use crate::ast::{Expr, File, Stmt};
use crate::error::{ComposedResult, Error, SpecError, errors_view};
use crate::source::{Loc, SpecLoc};
use crate::lexer::is_error_token;
use crate::token::{SpecToken, SpecTokenKind, Token, TokenKind, TokenReader};

verus! {

/// The message of the error for a token that cannot start a statement.
pub open spec fn unexpected_token_message() -> Seq<char> {
    "unexpected token"@
}

/// The statement that a token makes, if it makes one.
pub open spec fn token_stmt(t: SpecToken) -> Option<Stmt> {
    match t.kind {
        SpecTokenKind::IntLiteral(v) => Some(Stmt::Expr(Expr::IntLiteral(v as i64))),
        SpecTokenKind::Error(_) => None,
    }
}

/// The error that a token causes, if it causes one.
pub open spec fn token_error(t: SpecToken) -> Option<SpecError> {
    match t.kind {
        SpecTokenKind::IntLiteral(_) => None,
        SpecTokenKind::Error(_) => Some(
            SpecError { message: unexpected_token_message(), loc: t.loc },
        ),
    }
}

/// The error for reading past the last token, at the parser's location.
pub open spec fn eof_error(loc: SpecLoc) -> SpecError {
    SpecError { message: "unexpected EOF"@, loc }
}

pub open spec fn stmt_of() -> spec_fn(SpecToken) -> Option<Stmt> {
    |t: SpecToken| token_stmt(t)
}

pub open spec fn error_of() -> spec_fn(SpecToken) -> Option<SpecError> {
    |t: SpecToken| token_error(t)
}

/// What parsing a sequence of tokens gives: every integer literal is a
/// statement; every other token is an "unexpected token" error at its
/// location. Parsing succeeds when there is no error.
pub open spec fn parse_tokens(toks: Seq<SpecToken>) -> Result<Seq<Stmt>, Seq<SpecError>> {
    let errors = toks.filter_map(error_of());
    if errors.len() == 0 {
        Ok(toks.filter_map(stmt_of()))
    } else {
        Err(errors)
    }
}

/// Reads statements from tokens.
pub struct Parser {
    reader: TokenReader,
    loc: Loc,
}

impl View for Parser {
    type V = Seq<SpecToken>;

    /// The tokens that are left to parse.
    closed spec fn view(&self) -> Seq<SpecToken> {
        self.reader@
    }
}

impl Parser {
    pub closed spec fn wf(&self) -> bool {
        self.reader.wf()
    }

    /// The location of the last token read, where errors are reported.
    pub closed spec fn location(&self) -> Loc {
        self.loc
    }

    /// A parser over the tokens of `reader`.
    pub fn new(reader: TokenReader) -> (res: Parser)
        requires
            reader.wf(),
        ensures
            res.wf(),
            res@ == reader@,
            res.location() == (Loc { index: 0, len: 0, line: 1, column: 1 }),
    {
        Parser { reader, loc: Loc::head() }
    }

    fn peek(&self) -> (res: Option<&Token>)
        requires
            self.wf(),
        ensures
            self@.len() == 0 ==> res is None,
            self@.len() > 0 ==> (res matches Some(t) && t@ == self@[0]),
    {
        self.reader.peek()
    }

    fn error(&self, msg: &str) -> (res: Error)
        ensures
            res.message@ == msg@,
            res.loc == self.loc,
    {
        Error::new(msg, self.loc)
    }

    fn read(&mut self) -> (res: Result<Token, Error>)
        requires
            old(self).wf(),
        ensures
            final(self).wf(),
            old(self)@.len() == 0 ==> (res matches Err(e) && e@ == eof_error(
                old(self).location()@,
            ) && final(self)@ == old(self)@ && final(self).location() == old(self).location()),
            old(self)@.len() > 0 ==> (res matches Ok(t) && t@ == old(self)@[0] && final(self)@
                == old(self)@.drop_first() && final(self).location() == t.loc),
    {
        match self.reader.read() {
            Some(tok) => {
                self.loc = tok.loc;
                Ok(tok)
            },
            None => Err(self.error("unexpected EOF")),
        }
    }

    fn eof(&self) -> (res: bool)
        requires
            self.wf(),
        ensures
            res == (self@.len() == 0),
    {
        self.peek().is_none()
    }

    /// Parses every statement that is left.
    pub fn parse(&mut self) -> (res: ComposedResult<File>)
        requires
            old(self).wf(),
        ensures
            final(self).wf(),
            final(self)@.len() == 0,
            match parse_tokens(old(self)@) {
                Ok(stmts) => res matches Ok(f) && f.stmts@ == stmts,
                Err(errs) => res matches Err(e) && errors_view(e@) == errs,
            },
    {
        let ghost toks = self@;
        let mut f = File::new();
        let mut errors: Vec<Error> = Vec::new();
        assert(toks.take(0) =~= Seq::<SpecToken>::empty());
        while !self.eof()
            invariant
                self.wf(),
                0 <= toks.len() - self@.len() <= toks.len(),
                self@ == toks.skip(toks.len() - self@.len()),
                f.stmts@ == toks.take(toks.len() - self@.len()).filter_map(stmt_of()),
                errors_view(errors@) == toks.take(toks.len() - self@.len()).filter_map(
                    error_of(),
                ),
            decreases self@.len(),
        {
            let ghost i = toks.len() - self@.len();
            let ghost prev_stmts = f.stmts@;
            let ghost prev_errors = errors@;
            proof {
                toks.lemma_filter_map_take_succ(stmt_of(), i);
                toks.lemma_filter_map_take_succ(error_of(), i);
                assert(toks[i] == self@[0]);
                assert(self@.drop_first() =~= toks.skip(i + 1));
            }
            match self.parse_stmt() {
                Ok(v) => {
                    f.stmts.push(v);
                    assert(errors_view(errors@) =~= toks.take(i + 1).filter_map(error_of()));
                },
                Err(err) => {
                    errors.push(err);
                    assert(errors_view(errors@) =~= errors_view(prev_errors) + seq![err@]);
                },
            }
        }
        assert(toks.take(toks.len() as int) =~= toks);
        if errors.len() == 0 {
            Ok(f)
        } else {
            Err(errors)
        }
    }

    fn parse_stmt(&mut self) -> (res: Result<Stmt, Error>)
        requires
            old(self).wf(),
        ensures
            final(self).wf(),
            old(self)@.len() == 0 ==> (res matches Err(e) && e@ == eof_error(
                old(self).location()@,
            ) && final(self)@ == old(self)@ && final(self).location() == old(self).location()),
            old(self)@.len() > 0 ==> {
                &&& final(self)@ == old(self)@.drop_first()
                &&& final(self).location()@ == old(self)@[0].loc
                &&& match res {
                    Ok(s) => token_stmt(old(self)@[0]) == Some(s) && token_error(old(self)@[0]) is None,
                    Err(e) => token_error(old(self)@[0]) == Some(e@) && token_stmt(old(self)@[0]) is None,
                }
            },
    {
        Ok(Stmt::Expr(self.parse_expr()?))
    }

    fn parse_expr(&mut self) -> (res: Result<Expr, Error>)
        requires
            old(self).wf(),
        ensures
            final(self).wf(),
            old(self)@.len() == 0 ==> (res matches Err(e) && e@ == eof_error(
                old(self).location()@,
            ) && final(self)@ == old(self)@ && final(self).location() == old(self).location()),
            old(self)@.len() > 0 ==> {
                &&& final(self)@ == old(self)@.drop_first()
                &&& final(self).location()@ == old(self)@[0].loc
                &&& match res {
                    Ok(e) => token_stmt(old(self)@[0]) == Some(Stmt::Expr(e)),
                    Err(e) => token_error(old(self)@[0]) == Some(e@),
                }
            },
    {
        self.parse_literal()
    }

    fn parse_literal(&mut self) -> (res: Result<Expr, Error>)
        requires
            old(self).wf(),
        ensures
            final(self).wf(),
            old(self)@.len() == 0 ==> (res matches Err(e) && e@ == eof_error(
                old(self).location()@,
            ) && final(self)@ == old(self)@ && final(self).location() == old(self).location()),
            old(self)@.len() > 0 ==> {
                &&& final(self)@ == old(self)@.drop_first()
                &&& final(self).location()@ == old(self)@[0].loc
                &&& match res {
                    Ok(e) => token_stmt(old(self)@[0]) == Some(Stmt::Expr(e)),
                    Err(e) => token_error(old(self)@[0]) == Some(e@),
                }
            },
    {
        let tok = self.read()?;
        match tok.kind {
            TokenKind::IntLiteral(n) => Ok(Expr::IntLiteral(n)),
            _ => Err(Error::new("unexpected token", tok.loc)),
        }
    }
}

/// Parses the tokens of `reader` into a program, or reports every error.
pub fn parse(reader: TokenReader) -> (res: ComposedResult<File>)
    requires
        reader.wf(),
    ensures
        match parse_tokens(reader@) {
            Ok(stmts) => res matches Ok(f) && f.stmts@ == stmts,
            Err(errs) => res matches Err(e) && errors_view(e@) == errs,
        },
{
    Parser::new(reader).parse()
}

proof fn lemma_filter_maps(toks: Seq<SpecToken>)
    ensures
        toks.filter_map(error_of()).len() == 0 <==> (forall|a: int|
            0 <= a < toks.len() ==> !is_error_token(#[trigger] toks[a])),
        (forall|a: int| 0 <= a < toks.len() ==> !is_error_token(#[trigger] toks[a])) ==> {
            &&& toks.filter_map(stmt_of()).len() == toks.len()
            &&& forall|a: int|
                0 <= a < toks.len() ==> Some(#[trigger] toks.filter_map(stmt_of())[a])
                    == token_stmt(toks[a])
        },
    decreases toks.len(),
{
    if toks.len() > 0 {
        let init = toks.drop_last();
        lemma_filter_maps(init);
        let last = toks.last();
        if is_error_token(last) {
            assert(toks.filter_map(error_of()).len() > 0);
            assert(!is_error_token(toks[toks.len() - 1]) == false);
        } else {
            assert(toks.filter_map(error_of()) == init.filter_map(error_of()));
            if forall|a: int| 0 <= a < init.len() ==> !is_error_token(#[trigger] init[a]) {
                assert forall|a: int| 0 <= a < toks.len() implies !is_error_token(
                    #[trigger] toks[a],
                ) by {
                    if a < init.len() {
                        assert(toks[a] == init[a]);
                    }
                }
            } else {
                let a = choose|a: int| 0 <= a < init.len() && is_error_token(#[trigger] init[a]);
                assert(toks[a] == init[a]);
            }
            if forall|a: int| 0 <= a < toks.len() ==> !is_error_token(#[trigger] toks[a]) {
                assert forall|a: int| 0 <= a < init.len() implies !is_error_token(
                    #[trigger] init[a],
                ) by {
                    assert(toks[a] == init[a]);
                }
                let m = toks.filter_map(stmt_of());
                assert(m == init.filter_map(stmt_of()) + seq![token_stmt(last).unwrap()]);
                assert forall|a: int| 0 <= a < toks.len() implies Some(#[trigger] m[a])
                    == token_stmt(toks[a]) by {
                    if a < init.len() {
                        assert(toks[a] == init[a]);
                        assert(m[a] == init.filter_map(stmt_of())[a]);
                    }
                }
            }
        }
    }
}

/// Parsing succeeds exactly when no token is an error token; it then makes
/// one statement per token, in order, each holding its token's value.
/// Otherwise every error says "unexpected token", and there is one error per
/// error token.
pub proof fn lemma_parse_tokens(toks: Seq<SpecToken>)
    ensures
        parse_tokens(toks) is Ok <==> (forall|a: int|
            0 <= a < toks.len() ==> !is_error_token(#[trigger] toks[a])),
        parse_tokens(toks) matches Ok(stmts) ==> {
            &&& stmts.len() == toks.len()
            &&& forall|a: int|
                0 <= a < toks.len() ==> ((#[trigger] toks[a]).kind matches SpecTokenKind::IntLiteral(
                    v,
                ) && stmts[a] == Stmt::Expr(Expr::IntLiteral(v as i64)))
        },
        parse_tokens(toks) matches Err(errs) ==> {
            &&& errs.len() == toks.filter(|t: SpecToken| is_error_token(t)).len()
            &&& forall|a: int|
                0 <= a < errs.len() ==> (#[trigger] errs[a]).message == unexpected_token_message()
        },
{
    lemma_filter_maps(toks);
    lemma_errors_count(toks);
    if parse_tokens(toks) is Ok {
        let stmts = toks.filter_map(stmt_of());
        assert forall|a: int| 0 <= a < toks.len() implies ((#[trigger] toks[a]).kind matches SpecTokenKind::IntLiteral(
            v,
        ) && stmts[a] == Stmt::Expr(Expr::IntLiteral(v as i64))) by {
            assert(Some(stmts[a]) == token_stmt(toks[a]));
        }
    }
}

proof fn lemma_errors_count(toks: Seq<SpecToken>)
    ensures
        toks.filter_map(error_of()).len() == toks.filter(|t: SpecToken| is_error_token(t)).len(),
        forall|a: int|
            0 <= a < toks.filter_map(error_of()).len() ==> (#[trigger] toks.filter_map(
                error_of(),
            )[a]).message == unexpected_token_message(),
    decreases toks.len(),
{
    reveal(Seq::filter);
    if toks.len() > 0 {
        let init = toks.drop_last();
        lemma_errors_count(init);
        let m = toks.filter_map(error_of());
        let mi = init.filter_map(error_of());
        if is_error_token(toks.last()) {
            assert(m == mi + seq![token_error(toks.last()).unwrap()]);
            assert forall|a: int| 0 <= a < m.len() implies (#[trigger] m[a]).message
                == unexpected_token_message() by {
                if a < mi.len() {
                    assert(m[a] == mi[a]);
                }
            }
        } else {
            assert(m == mi);
        }
    }
}

} // verus!
