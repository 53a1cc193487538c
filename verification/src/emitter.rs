//! Emitters: from a syntax tree to a script.
use vstd::prelude::*;

use crate::ast::{Expr, File, Stmt};
use crate::chars::{digit_value, spec_is_decimal_digit};
use crate::lexer::{decimal_value, lex};
use crate::token::SpecTokenKind;

verus! {

/// The character of the digit `d`.
pub open spec fn digit_char(d: nat) -> char {
    ('0' as u32 + d) as char
}

/// The decimal representation of `n`, without leading zeros.
pub open spec fn nat_decimal(n: nat) -> Seq<char>
    decreases n,
{
    if n < 10 {
        seq![digit_char(n)]
    } else {
        nat_decimal(n / 10) + seq![digit_char(n % 10)]
    }
}

/// The decimal representation of `n`, with a minus sign when it is negative.
pub open spec fn int_decimal(n: int) -> Seq<char> {
    if n < 0 {
        seq!['-'] + nat_decimal((-n) as nat)
    } else {
        nat_decimal(n as nat)
    }
}

/// The first line of every script.
pub open spec fn sh_header() -> Seq<char> {
    "#!/bin/sh"@ + "\n"@
}

/// The line that prints the value of a statement.
pub open spec fn sh_stmt(stmt: Stmt) -> Seq<char> {
    match stmt {
        Stmt::Expr(Expr::IntLiteral(n)) => "printf '%s\\n' "@ + int_decimal(n as int) + "\n"@,
    }
}

/// The lines of a sequence of statements.
pub open spec fn sh_stmts(stmts: Seq<Stmt>) -> Seq<char>
    decreases stmts.len(),
{
    if stmts.len() == 0 {
        seq![]
    } else {
        sh_stmts(stmts.drop_last()) + sh_stmt(stmts.last())
    }
}

/// The shell script for a program: the header line, then one line that
/// prints each statement's value, in order.
pub open spec fn sh_script(stmts: Seq<Stmt>) -> Seq<char> {
    sh_header() + sh_stmts(stmts)
}

/// Turns a program into a script.
pub trait Emitter {
    fn emit(&mut self, file: &File) -> String;
}

/// The kinds of emitters.
pub enum Emitters {
    Sh,
}

/// The emitter of POSIX shell scripts.
pub struct ShEmitter {
    out: String,
}

/// The text of the digit `d`.
fn digit_str(d: u64) -> (res: &'static str)
    requires
        d < 10,
    ensures
        res@ == seq![digit_char(d as nat)],
{
    proof {
        vstd::utf8::char_u32_cast('0', 48);
        vstd::utf8::char_u32_cast('1', 49);
        vstd::utf8::char_u32_cast('2', 50);
        vstd::utf8::char_u32_cast('3', 51);
        vstd::utf8::char_u32_cast('4', 52);
        vstd::utf8::char_u32_cast('5', 53);
        vstd::utf8::char_u32_cast('6', 54);
        vstd::utf8::char_u32_cast('7', 55);
        vstd::utf8::char_u32_cast('8', 56);
        vstd::utf8::char_u32_cast('9', 57);
    }
    if d == 0 {
        proof {
            reveal_strlit("0");
        }
        "0"
    } else if d == 1 {
        proof {
            reveal_strlit("1");
        }
        "1"
    } else if d == 2 {
        proof {
            reveal_strlit("2");
        }
        "2"
    } else if d == 3 {
        proof {
            reveal_strlit("3");
        }
        "3"
    } else if d == 4 {
        proof {
            reveal_strlit("4");
        }
        "4"
    } else if d == 5 {
        proof {
            reveal_strlit("5");
        }
        "5"
    } else if d == 6 {
        proof {
            reveal_strlit("6");
        }
        "6"
    } else if d == 7 {
        proof {
            reveal_strlit("7");
        }
        "7"
    } else if d == 8 {
        proof {
            reveal_strlit("8");
        }
        "8"
    } else {
        proof {
            reveal_strlit("9");
        }
        "9"
    }
}

impl ShEmitter {
    /// The text written so far.
    pub closed spec fn output(&self) -> Seq<char> {
        self.out@
    }

    /// An emitter that has written nothing yet.
    pub fn new() -> (res: ShEmitter)
        ensures
            res.output() == Seq::<char>::empty(),
    {
        ShEmitter { out: String::new() }
    }

    fn write(&mut self, s: &str)
        ensures
            final(self).output() == old(self).output() + s@,
    {
        self.out.append(s);
    }

    pub fn writeln(&mut self, s: &str)
        ensures
            final(self).output() == old(self).output() + s@ + "\n"@,
    {
        self.write(s);
        self.ln();
    }

    pub fn ln(&mut self)
        ensures
            final(self).output() == old(self).output() + "\n"@,
    {
        self.write("\n");
    }

    /// Writes `n` in decimal.
    fn write_nat(&mut self, n: u64)
        ensures
            final(self).output() == old(self).output() + nat_decimal(n as nat),
        decreases n,
    {
        if n >= 10 {
            self.write_nat(n / 10);
        }
        self.write(digit_str(n % 10));
        assert(final(self).output() =~= old(self).output() + nat_decimal(n as nat));
    }

    /// Writes `n` in decimal, as `Display` shows it.
    fn write_int(&mut self, n: i64)
        ensures
            final(self).output() == old(self).output() + int_decimal(n as int),
    {
        if n < 0 {
            proof {
                reveal_strlit("-");
            }
            self.write("-");
            let m: u64 = (0i128 - (n as i128)) as u64;
            self.write_nat(m);
            assert(final(self).output() =~= old(self).output() + int_decimal(n as int));
        } else {
            self.write_nat(n as u64);
        }
    }

    fn file(&mut self, file: &File)
        ensures
            final(self).output() == old(self).output() + sh_script(file.stmts@),
    {
        self.writeln("#!/bin/sh");
        let n = file.stmts.len();
        for i in 0..n
            invariant
                n == file.stmts@.len(),
                self.output() == old(self).output() + sh_header() + sh_stmts(
                    file.stmts@.take(i as int),
                ),
        {
            self.stmt(&file.stmts[i]);
            assert(file.stmts@.take(i + 1).drop_last() =~= file.stmts@.take(i as int));
            assert(self.output() =~= old(self).output() + sh_header() + sh_stmts(
                file.stmts@.take(i + 1),
            ));
        }
        assert(file.stmts@.take(n as int) =~= file.stmts@);
        assert(self.output() =~= old(self).output() + sh_script(file.stmts@));
    }

    fn stmt(&mut self, stmt: &Stmt)
        ensures
            final(self).output() == old(self).output() + sh_stmt(*stmt),
    {
        match stmt {
            Stmt::Expr(expr) => {
                self.write("printf '%s\\n' ");
                self.expr(expr);
                proof {
                    reveal_strlit("");
                }
                self.writeln("");
            },
        }
        assert(final(self).output() =~= old(self).output() + sh_stmt(*stmt));
    }

    fn expr(&mut self, expr: &Expr)
        ensures
            final(self).output() == old(self).output() + match *expr {
                Expr::IntLiteral(n) => int_decimal(n as int),
            },
    {
        match expr {
            Expr::IntLiteral(n) => self.write_int(*n),
        }
    }
}

impl Emitter for ShEmitter {
    /// Writes the script for `file` and hands back all that was written.
    fn emit(&mut self, file: &File) -> (res: String)
        ensures
            res@ == old(self).output() + sh_script(file.stmts@),
            final(self).output() == Seq::<char>::empty(),
    {
        self.file(file);
        let mut out = String::new();
        std::mem::swap(&mut out, &mut self.out);
        out
    }
}

/// A new emitter of the given kind.
pub fn new_emitter(emitter: Emitters) -> (res: ShEmitter)
    ensures
        res.output() == Seq::<char>::empty(),
{
    match emitter {
        Emitters::Sh => ShEmitter::new(),
    }
}

/// The script that an emitter of the given kind writes for `file`.
pub fn emit(emitter: Emitters, file: &File) -> (res: String)
    ensures
        res@ == sh_script(file.stmts@),
{
    let mut e = new_emitter(emitter);
    let res = e.emit(file);
    assert(res@ =~= sh_script(file.stmts@));
    res
}

// ---------------------------------------------------------------------------
// Properties of scripts
// ---------------------------------------------------------------------------

/// The number of line feeds in `s`.
pub open spec fn count_newlines(s: Seq<char>) -> nat
    decreases s.len(),
{
    if s.len() == 0 {
        0
    } else {
        count_newlines(s.drop_last()) + if s.last() == '\n' {
            1nat
        } else {
            0nat
        }
    }
}

pub proof fn lemma_count_newlines_add(a: Seq<char>, b: Seq<char>)
    ensures
        count_newlines(a + b) == count_newlines(a) + count_newlines(b),
    decreases b.len(),
{
    if b.len() == 0 {
        assert(a + b =~= a);
    } else {
        lemma_count_newlines_add(a, b.drop_last());
        assert((a + b).drop_last() =~= a + b.drop_last());
    }
}

pub proof fn lemma_count_newlines_none(s: Seq<char>)
    requires
        forall|i: int| 0 <= i < s.len() ==> s[i] != '\n',
    ensures
        count_newlines(s) == 0,
    decreases s.len(),
{
    if s.len() > 0 {
        lemma_count_newlines_none(s.drop_last());
    }
}

/// The character of a digit is a decimal digit, and its value is the digit.
pub proof fn lemma_digit_char(d: nat)
    requires
        d < 10,
    ensures
        spec_is_decimal_digit(digit_char(d)),
        digit_value(digit_char(d)) == d,
{
    assert(('0' as u32) == 48);
    assert(((48 + d) as char) as u32 == 48 + d);
}

/// The decimal representation of `n` is a nonempty run of decimal digits
/// that denotes `n`.
pub proof fn lemma_nat_decimal(n: nat)
    ensures
        nat_decimal(n).len() > 0,
        forall|i: int| 0 <= i < nat_decimal(n).len() ==> spec_is_decimal_digit(
            #[trigger] nat_decimal(n)[i],
        ),
        decimal_value(nat_decimal(n)) == n,
    decreases n,
{
    if n < 10 {
        lemma_digit_char(n);
        assert(nat_decimal(n).drop_last() =~= Seq::<char>::empty());
        assert(decimal_value(Seq::<char>::empty()) == 0);
        assert(nat_decimal(n).last() == digit_char(n));
        assert(decimal_value(nat_decimal(n)) == 10 * decimal_value(nat_decimal(n).drop_last())
            + digit_value(nat_decimal(n).last()));
    } else {
        lemma_nat_decimal(n / 10);
        lemma_digit_char(n % 10);
        let p = nat_decimal(n / 10);
        assert(nat_decimal(n).drop_last() =~= p);
        assert(nat_decimal(n).last() == digit_char(n % 10));
        assert(n == 10 * (n / 10) + n % 10) by (nonlinear_arith);
        assert(decimal_value(nat_decimal(n)) == 10 * decimal_value(nat_decimal(n).drop_last())
            + digit_value(nat_decimal(n).last()));
        assert forall|i: int| 0 <= i < nat_decimal(n).len() implies spec_is_decimal_digit(
            #[trigger] nat_decimal(n)[i],
        ) by {
            if i < p.len() {
                assert(nat_decimal(n)[i] == p[i]);
            }
        }
    }
}

/// What the emitter writes for a number, the lexer reads back as that number:
/// the decimal representation of `n` is one integer literal token of value
/// `n`, spanning the whole text from line 1, column 1.
pub proof fn lemma_lex_nat_decimal(n: nat)
    ensures
        lex(nat_decimal(n)).len() == 1,
        lex(nat_decimal(n))[0].kind == SpecTokenKind::IntLiteral(n as int),
        lex(nat_decimal(n))[0].loc.index == 0,
        lex(nat_decimal(n))[0].loc.len == crate::lexer::byte_len(nat_decimal(n)),
        lex(nat_decimal(n))[0].loc.line == 1,
        lex(nat_decimal(n))[0].loc.column == 1,
{
    let s = nat_decimal(n);
    lemma_nat_decimal(n);
    assert(crate::lexer::skip_whitespace(s, 0) == 0);
    crate::lexer::lemma_digits_end_bounds(s, 0);
    let e = crate::lexer::digits_end(s, 0);
    if e < s.len() {
        assert(spec_is_decimal_digit(s[e]));
    }
    assert(e == s.len());
    assert(s.subrange(0, e) =~= s);
    assert(s.take(e) =~= s);
    assert(s.take(0) =~= Seq::<char>::empty());
    assert(crate::lexer::tokens_from(s, e) =~= Seq::<crate::token::SpecToken>::empty());
}

/// The decimal representation of `n` has no leading zero: it is longer than
/// one digit exactly when `n` is at least ten, and then it starts with a
/// nonzero digit.
pub proof fn lemma_nat_decimal_no_leading_zero(n: nat)
    ensures
        (nat_decimal(n).len() > 1) == (n >= 10),
        n >= 1 ==> nat_decimal(n)[0] != '0',
    decreases n,
{
    lemma_nat_decimal(n);
    if n < 10 {
        assert(((48 + n) as char) as u32 == 48 + n);
        assert(('0' as u32) == 48);
    } else {
        lemma_nat_decimal_no_leading_zero(n / 10);
        lemma_nat_decimal(n / 10);
        assert(nat_decimal(n)[0] == nat_decimal(n / 10)[0]);
    }
}

/// What the emitter writes for an integer: a nonnegative `n` is written as
/// digits without leading zeros whose base-ten value is `n`, and which the
/// lexer reads back as one integer literal of value `n`; a negative `n` is
/// written as `-` followed by the digits of `-n`.
pub proof fn lemma_int_decimal(n: i64)
    ensures
        n >= 0 ==> {
            let t = int_decimal(n as int);
            &&& t.len() > 0
            &&& forall|i: int| 0 <= i < t.len() ==> spec_is_decimal_digit(#[trigger] t[i])
            &&& decimal_value(t) == n
            &&& (t.len() > 1 ==> t[0] != '0')
            &&& lex(t).len() == 1
            &&& lex(t)[0].kind == SpecTokenKind::IntLiteral(n as int)
        },
        n < 0 ==> {
            let t = int_decimal(n as int);
            let r = t.drop_first();
            &&& t.len() > 1
            &&& t[0] == '-'
            &&& forall|i: int| 0 <= i < r.len() ==> spec_is_decimal_digit(#[trigger] r[i])
            &&& decimal_value(r) == -n
            &&& (r.len() > 1 ==> r[0] != '0')
        },
{
    if n >= 0 {
        lemma_nat_decimal(n as nat);
        lemma_nat_decimal_no_leading_zero(n as nat);
        lemma_lex_nat_decimal(n as nat);
    } else {
        let m = (-n) as nat;
        lemma_nat_decimal(m);
        lemma_nat_decimal_no_leading_zero(m);
        assert(int_decimal(n as int).drop_first() =~= nat_decimal(m));
    }
}

/// The decimal representation of an integer holds no line feed.
proof fn lemma_int_decimal_no_newline(n: int)
    ensures
        count_newlines(int_decimal(n)) == 0,
{
    let m: nat = if n < 0 {
        (-n) as nat
    } else {
        n as nat
    };
    lemma_nat_decimal(m);
    assert forall|i: int| 0 <= i < int_decimal(n).len() implies int_decimal(n)[i] != '\n' by {
        if n < 0 {
            if i > 0 {
                assert(int_decimal(n)[i] == nat_decimal(m)[i - 1]);
            }
        } else {
            assert(int_decimal(n)[i] == nat_decimal(m)[i]);
        }
    }
    lemma_count_newlines_none(int_decimal(n));
}

/// The lines of `stmts` hold one line feed per statement.
proof fn lemma_sh_stmts_newlines(stmts: Seq<Stmt>)
    ensures
        count_newlines(sh_stmts(stmts)) == stmts.len(),
    decreases stmts.len(),
{
    if stmts.len() > 0 {
        lemma_sh_stmts_newlines(stmts.drop_last());
        let st = stmts.last();
        match st {
            Stmt::Expr(Expr::IntLiteral(n)) => {
                reveal_strlit("printf '%s\\n' ");
                reveal_strlit("\n");
                let pre = "printf '%s\\n' "@;
                lemma_count_newlines_none(pre);
                lemma_int_decimal_no_newline(n as int);
                assert("\n"@ =~= seq!['\n']);
                assert(count_newlines(seq!['\n']) == 1) by {
                    assert(seq!['\n'].drop_last() =~= Seq::<char>::empty());
                    assert(seq!['\n'].last() == '\n');
                    assert(count_newlines(Seq::<char>::empty()) == 0);
                }
                lemma_count_newlines_add(pre, int_decimal(n as int));
                lemma_count_newlines_add(pre + int_decimal(n as int), "\n"@);
            },
        }
        lemma_count_newlines_add(sh_stmts(stmts.drop_last()), sh_stmt(st));
    }
}

/// A script has one line for the header and one line per statement: it
/// holds exactly `stmts.len() + 1` line feeds, and it starts with the header.
pub proof fn lemma_sh_script_lines(stmts: Seq<Stmt>)
    ensures
        count_newlines(sh_script(stmts)) == stmts.len() + 1,
        sh_script(stmts).take(sh_header().len() as int) == sh_header(),
{
    reveal_strlit("#!/bin/sh");
    reveal_strlit("\n");
    lemma_count_newlines_none("#!/bin/sh"@);
    assert("\n"@ =~= seq!['\n']);
    assert(count_newlines(seq!['\n']) == 1) by {
        assert(seq!['\n'].drop_last() =~= Seq::<char>::empty());
        assert(seq!['\n'].last() == '\n');
        assert(count_newlines(Seq::<char>::empty()) == 0);
    }
    lemma_count_newlines_add("#!/bin/sh"@, "\n"@);
    lemma_sh_stmts_newlines(stmts);
    lemma_count_newlines_add(sh_header(), sh_stmts(stmts));
    assert(sh_script(stmts).take(sh_header().len() as int) =~= sh_header());
}

} // verus!
