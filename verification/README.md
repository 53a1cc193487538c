# cotowali

A compiler from Cotowali to POSIX shell script, verified with Verus.

- `src/chars.rs`: characters and their classes (whitespace, newline, digits).
- `src/source.rs`: sources and locations in them.
- `src/token.rs`: tokens and a reader over them.
- `src/lexer.rs`: the lexer, with `lex`, the mathematical statement of what it reads.
- `src/ast.rs`, `src/error.rs`: the syntax tree and compile errors.
- `src/parser.rs`: the parser, with `parse_tokens`, what it computes.
- `src/emitter.rs`: the shell emitter, with `sh_script`, what it writes.
- `src/lib.rs`: `compile`, from source code to script.
- `app/main.rs`: the command line program (reading files, running scripts).
