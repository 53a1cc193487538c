use cotowali::ast::{Expr, File, Stmt};
use cotowali::emitter::{emit, new_emitter, Emitter, Emitters, ShEmitter};

fn file(values: &[i64]) -> File {
    File { stmts: values.iter().map(|v| Stmt::Expr(Expr::IntLiteral(*v))).collect() }
}

#[test]
fn test_emit_empty() {
    assert_eq!(emit(Emitters::Sh, &file(&[])), "#!/bin/sh\n");
}

#[test]
fn test_emit_values() {
    assert_eq!(
        emit(Emitters::Sh, &file(&[1, 42, 0])),
        "#!/bin/sh\nprintf '%s\\n' 1\nprintf '%s\\n' 42\nprintf '%s\\n' 0\n"
    );
}

#[test]
fn test_emit_negative_and_extremes() {
    assert_eq!(emit(Emitters::Sh, &file(&[-5])), "#!/bin/sh\nprintf '%s\\n' -5\n");
    assert_eq!(
        emit(Emitters::Sh, &file(&[i64::MIN, i64::MAX])),
        format!("#!/bin/sh\nprintf '%s\\n' {}\nprintf '%s\\n' {}\n", i64::MIN, i64::MAX)
    );
    assert_eq!(emit(Emitters::Sh, &file(&[1234567890])), "#!/bin/sh\nprintf '%s\\n' 1234567890\n");
}

#[test]
fn test_emitter_is_reusable() {
    let mut e: ShEmitter = new_emitter(Emitters::Sh);
    assert_eq!(e.emit(&file(&[3])), "#!/bin/sh\nprintf '%s\\n' 3\n");
    assert_eq!(e.emit(&file(&[])), "#!/bin/sh\n");
}

#[test]
fn test_writeln_ln() {
    let mut e = ShEmitter::new();
    e.writeln("a");
    e.ln();
    assert_eq!(e.emit(&file(&[])), "a\n\n#!/bin/sh\n");
}

#[test]
fn test_line_count_law() {
    for vals in [&[][..], &[1][..], &[-7, 8, 9][..]] {
        let out = emit(Emitters::Sh, &file(vals));
        assert_eq!(out.matches('\n').count(), vals.len() + 1);
        assert!(out.starts_with("#!/bin/sh\n"));
    }
}
