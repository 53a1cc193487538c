use cotowali::lexer::{check_int_literals, tokenize, Lexer};
use cotowali::source::{Loc, Source};
use cotowali::token::{Token, TokenKind, TokenReader};

fn read_all(mut r: TokenReader) -> Vec<Token> {
    let mut v = Vec::new();
    while let Some(t) = r.read() {
        v.push(t);
    }
    v
}

fn lex(code: &str) -> Vec<Token> {
    let s = Source::inline(code);
    read_all(tokenize(&s))
}

fn lit(v: i64, begin: usize, end: usize, line: usize, column: usize) -> Token {
    Token::int_literal(v, Loc::new(begin, end, line, column))
}

fn err(begin: usize, end: usize, line: usize, column: usize) -> Token {
    Token { loc: Loc::new(begin, end, line, column), kind: TokenKind::Error("err".to_string()) }
}

#[test]
fn test_newline() {
    assert_eq!(
        lex("1\n2\r3\r\n4\n\r6\n\n8\r\r10\n\r\n\r\n13"),
        vec![
            lit(1, 0, 1, 1, 1),
            lit(2, 2, 3, 2, 1),
            lit(3, 4, 5, 3, 1),
            lit(4, 7, 8, 4, 1),
            lit(6, 10, 11, 6, 1),
            lit(8, 13, 14, 8, 1),
            lit(10, 16, 18, 10, 1),
            lit(13, 23, 25, 13, 1),
        ]
    );
}

#[test]
fn test_number() {
    assert_eq!(
        lex("1 16 256 2048"),
        vec![lit(1, 0, 1, 1, 1), lit(16, 2, 4, 1, 3), lit(256, 5, 8, 1, 6), lit(2048, 9, 13, 1, 10),]
    );
}

#[test]
fn test_empty_and_blank() {
    assert_eq!(lex(""), vec![]);
    assert_eq!(lex(" \t\r\n \u{3000}"), vec![]);
}

#[test]
fn test_error_token_runs_to_next_digit() {
    // the error token takes everything, whitespace included, up to the next digit
    assert_eq!(lex("x y 7"), vec![err(0, 4, 1, 1), lit(7, 4, 5, 1, 5)]);
    assert_eq!(lex("  ab"), vec![err(2, 4, 1, 3)]);
}

#[test]
fn test_multibyte_positions() {
    // "あ" is three bytes; columns count characters
    assert_eq!(lex("あ1"), vec![err(0, 3, 1, 1), lit(1, 3, 4, 1, 2)]);
    assert_eq!(lex("🐈\n12"), vec![err(0, 5, 1, 1), lit(12, 5, 7, 2, 1)]);
}

#[test]
fn test_adjacent_literal_and_error() {
    assert_eq!(lex("12ab34"), vec![lit(12, 0, 2, 1, 1), err(2, 4, 1, 3), lit(34, 4, 6, 1, 5)]);
}

#[test]
fn test_leading_zeros_and_max() {
    assert_eq!(lex("007"), vec![lit(7, 0, 3, 1, 1)]);
    assert_eq!(lex("4294967295"), vec![lit(4294967295, 0, 10, 1, 1)]);
}

#[test]
fn test_check_int_literals() {
    assert!(check_int_literals(&Source::inline("")));
    assert!(check_int_literals(&Source::inline("1 x 4294967295")));
    assert!(!check_int_literals(&Source::inline("4294967296")));
    assert!(!check_int_literals(&Source::inline("1 99999999999 2")));
    assert!(check_int_literals(&Source::inline("0000000000004294967295")));
}

#[test]
fn test_lexer_next() {
    let s = Source::inline(" 5 ");
    let mut l = Lexer::new(&s);
    assert_eq!(l.next(), Some(lit(5, 1, 2, 1, 2)));
    assert_eq!(l.next(), None);
    assert_eq!(l.next(), None);
}

#[test]
fn test_token_reader_peek_read() {
    let s = Source::inline("1 2");
    let mut r = tokenize(&s);
    assert_eq!(r.peek(), Some(&lit(1, 0, 1, 1, 1)));
    assert_eq!(r.read(), Some(lit(1, 0, 1, 1, 1)));
    assert_eq!(r.peek(), Some(&lit(2, 2, 3, 1, 3)));
    assert_eq!(r.read(), Some(lit(2, 2, 3, 1, 3)));
    assert_eq!(r.peek(), None);
    assert_eq!(r.read(), None);
}

#[test]
fn test_spans_ordered_law() {
    let toks = lex("12 ab\r\n  3 4x 567");
    for w in toks.windows(2) {
        assert!(w[0].loc.index + w[0].loc.len <= w[1].loc.index);
        assert!(w[0].loc.line <= w[1].loc.line);
    }
    for t in &toks {
        assert!(t.loc.len > 0);
        assert!(t.loc.index + t.loc.len <= "12 ab\r\n  3 4x 567".len());
    }
}
