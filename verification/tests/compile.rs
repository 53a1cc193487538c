use cotowali::compile;
use cotowali::error::Error;
use cotowali::lexer::tokenize;
use cotowali::source::{Loc, Source};
use cotowali::token::TokenKind;

#[test]
fn test_compile_program() {
    assert_eq!(
        compile(Source::inline("1 2\n3")),
        Ok("#!/bin/sh\nprintf '%s\\n' 1\nprintf '%s\\n' 2\nprintf '%s\\n' 3\n".to_string())
    );
}

#[test]
fn test_compile_errors() {
    assert_eq!(
        compile(Source::inline("1 x")),
        Err(vec![Error { message: "unexpected token".to_string(), loc: Loc::new(2, 3, 1, 3) }])
    );
}

#[test]
fn test_compile_single_error() {
    assert_eq!(
        compile(Source::inline("x")),
        Err(vec![Error { message: "unexpected token".to_string(), loc: Loc::new(0, 1, 1, 1) }])
    );
}

#[test]
fn test_compile_blank_law() {
    assert_eq!(compile(Source::inline("")), Ok("#!/bin/sh\n".to_string()));
    assert_eq!(compile(Source::inline(" \r\n\t ")), Ok("#!/bin/sh\n".to_string()));
}

#[test]
fn test_compile_succeeds_iff_only_digits_and_whitespace_law() {
    for code in ["12 3", "\n\n4", "", "1-2", "a", "3 ３"] {
        let only_digits_ws = code.chars().all(|c| c.is_whitespace() || c.is_ascii_digit());
        assert_eq!(compile(Source::dummy("t", code.to_string())).is_ok(), only_digits_ws);
    }
}

#[test]
fn test_emitted_number_lexes_back_law() {
    for n in [0i64, 7, 10, 4294967295] {
        let out = compile(Source::inline(&n.to_string())).unwrap();
        let line = out.lines().nth(1).unwrap();
        let printed = line.strip_prefix("printf '%s\\n' ").unwrap();
        let s = Source::inline(printed);
        let mut r = tokenize(&s);
        let t = r.read().unwrap();
        assert_eq!(t.kind, TokenKind::IntLiteral(n));
        assert_eq!(t.loc, Loc::new(0, printed.len(), 1, 1));
        assert_eq!(r.read(), None);
    }
}

#[test]
fn test_source_constructors() {
    let s = Source::dummy("stdin", "1".to_string());
    assert_eq!(s.name, "stdin");
    assert_eq!(s.code, "1");
    let s = Source::inline("2");
    assert_eq!(s.name, "<inline>");
    assert_eq!(s.code, "2");
    assert_eq!(Loc::head(), Loc::new(0, 0, 1, 1));
}
