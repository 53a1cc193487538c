use cotowali::ast::{Expr, File, Stmt};
use cotowali::error::Error;
use cotowali::lexer::tokenize;
use cotowali::parser::{parse, Parser};
use cotowali::source::{Loc, Source};

fn parse_code(code: &str) -> Result<File, Vec<Error>> {
    let s = Source::inline(code);
    parse(tokenize(&s))
}

fn test(code: &str, expected: File) {
    assert_eq!(parse_code(code).unwrap(), expected);
}

fn test_error(code: &str, expected: Vec<Error>) {
    assert_eq!(parse_code(code).unwrap_err(), expected);
}

fn file(values: &[i64]) -> File {
    File { stmts: values.iter().map(|v| Stmt::Expr(Expr::IntLiteral(*v))).collect() }
}

fn error(message: &str, begin: usize, end: usize, line: usize, column: usize) -> Error {
    Error { message: message.to_string(), loc: Loc::new(begin, end, line, column) }
}

#[test]
fn test_simple() {
    test("42", file(&[42]));
    test("1 2\n3 4", file(&[1, 2, 3, 4]));
}

#[test]
fn test_error_simple() {
    test_error("x", vec![error("unexpected token", 0, 1, 1, 1)]);
}

#[test]
fn test_empty_program() {
    test("", file(&[]));
    test(" \n ", file(&[]));
}

#[test]
fn test_all_errors_reported() {
    test_error(
        "1 x 2 yy\n3 z",
        vec![
            error("unexpected token", 2, 4, 1, 3),
            error("unexpected token", 6, 9, 1, 7),
            error("unexpected token", 11, 12, 2, 3),
        ],
    );
}

#[test]
fn test_parser_struct() {
    let s = Source::inline("7 8");
    let mut p = Parser::new(tokenize(&s));
    assert_eq!(p.parse(), Ok(file(&[7, 8])));
    // everything was read
    assert_eq!(p.parse(), Ok(file(&[])));
}

#[test]
fn test_parse_ok_iff_no_error_tokens_law() {
    for code in ["1 2 3", "", "9\r\n8", "1 a", "b", "1\t2 ?"] {
        let s = Source::inline(code);
        let mut r = tokenize(&s);
        let mut n = 0;
        let mut n_err = 0;
        while let Some(t) = r.read() {
            n += 1;
            if let cotowali::token::TokenKind::Error(_) = t.kind {
                n_err += 1;
            }
        }
        match parse_code(code) {
            Ok(f) => {
                assert_eq!(n_err, 0);
                assert_eq!(f.stmts.len(), n);
            }
            Err(e) => {
                assert_eq!(e.len(), n_err);
                assert!(n_err > 0);
            }
        }
    }
}
