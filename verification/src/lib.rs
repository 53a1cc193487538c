//! A compiler from Cotowali to POSIX shell script.
pub mod ast;
pub mod chars;
pub mod emitter;
pub mod error;
pub mod lexer;
pub mod parser;
pub mod source;
pub mod token;

use vstd::prelude::*;

use crate::emitter::{Emitters, emit, sh_script, sh_header, sh_stmts};
use crate::error::{ComposedResult, errors_view};
use crate::lexer::{has_stray_char, int_literals_fit, lex, lemma_lex_errors, tokenize};
use crate::parser::{parse, parse_tokens, lemma_parse_tokens};
use crate::source::Source;

verus! {

/// Compiles a source to a shell script, or reports every error in it.
pub fn compile(source: Source) -> (res: ComposedResult<String>)
    requires
        source.code@.len() < usize::MAX,
        int_literals_fit(lex(source.code@)),
    ensures
        match parse_tokens(lex(source.code@)) {
            Ok(stmts) => res matches Ok(out) && out@ == sh_script(stmts),
            Err(errs) => res matches Err(e) && errors_view(e@) == errs,
        },
{
    let s = source;
    match parse(tokenize(&s)) {
        Ok(file) => Ok(emit(Emitters::Sh, &file)),
        Err(errors) => Err(errors),
    }
}

/// A source compiles exactly when every character in it is whitespace or a
/// decimal digit.
pub proof fn lemma_compile_succeeds(s: Seq<char>)
    ensures
        parse_tokens(lex(s)) is Ok <==> !has_stray_char(s, 0),
{
    lemma_lex_errors(s);
    lemma_parse_tokens(lex(s));
}

/// A source that is all whitespace compiles to the header line alone.
pub proof fn lemma_compile_blank(s: Seq<char>)
    requires
        forall|j: int| 0 <= j < s.len() ==> crate::chars::spec_is_whitespace(#[trigger] s[j]),
    ensures
        parse_tokens(lex(s)) matches Ok(stmts) && sh_script(stmts) == sh_header(),
{
    lemma_lex_errors(s);
    lemma_parse_tokens(lex(s));
    let stmts = parse_tokens(lex(s))->Ok_0;
    assert(sh_stmts(stmts) =~= Seq::<char>::empty());
    assert(sh_script(stmts) =~= sh_header());
}

} // verus!
