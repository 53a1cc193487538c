//! The lexer: from source code to tokens.
use vstd::prelude::*;
use vstd::arithmetic::power::pow;
use vstd::utf8::*;

use crate::chars::{
    char_is_decimal_digit, char_is_newline, char_is_whitespace, char_digit_value, char_utf8_width,
    digit_value, spec_is_decimal_digit, spec_is_newline, spec_is_whitespace, utf8_width,
};
use crate::source::{Loc, Source, SpecLoc};
use crate::token::{SpecToken, SpecTokenKind, Token, TokenKind, TokenReader, tokens_view};

verus! {

// ---------------------------------------------------------------------------
// What the lexer computes
// ---------------------------------------------------------------------------

/// The number of bytes that `s` takes in UTF-8.
pub open spec fn byte_len(s: Seq<char>) -> nat {
    encode_utf8(s).len()
}

/// Whether the character at `j` starts a new line. A carriage return followed
/// by a line feed counts once.
pub open spec fn is_line_break(s: Seq<char>, j: int) -> bool {
    s[j] == '\r' || (s[j] == '\n' && !(j > 0 && s[j - 1] == '\r'))
}

/// The line, counted from 1, of position `i` of `s`.
pub open spec fn line_at(s: Seq<char>, i: int) -> int
    decreases i,
{
    if i <= 0 {
        1
    } else {
        line_at(s, i - 1) + if is_line_break(s, i - 1) {
            1int
        } else {
            0int
        }
    }
}

/// The column, counted from 1, of position `i` of `s`: one more than the
/// number of characters since the last line feed or carriage return.
pub open spec fn column_at(s: Seq<char>, i: int) -> int
    decreases i,
{
    if i <= 0 {
        1
    } else if spec_is_newline(s[i - 1]) {
        1
    } else {
        column_at(s, i - 1) + 1
    }
}

/// The first position at or after `i` that does not hold whitespace.
pub open spec fn skip_whitespace(s: Seq<char>, i: int) -> int
    decreases s.len() - i,
{
    if 0 <= i < s.len() && spec_is_whitespace(s[i]) {
        skip_whitespace(s, i + 1)
    } else {
        i
    }
}

/// The first position at or after `i` that does not hold a decimal digit.
pub open spec fn digits_end(s: Seq<char>, i: int) -> int
    decreases s.len() - i,
{
    if 0 <= i < s.len() && spec_is_decimal_digit(s[i]) {
        digits_end(s, i + 1)
    } else {
        i
    }
}

/// The first position at or after `i` that holds a decimal digit, or the end.
pub open spec fn non_digits_end(s: Seq<char>, i: int) -> int
    decreases s.len() - i,
{
    if 0 <= i < s.len() && !spec_is_decimal_digit(s[i]) {
        non_digits_end(s, i + 1)
    } else {
        i
    }
}

/// The number that a sequence of decimal digits denotes.
pub open spec fn decimal_value(s: Seq<char>) -> nat
    decreases s.len(),
{
    if s.len() == 0 {
        0
    } else {
        10 * decimal_value(s.drop_last()) + digit_value(s.last())
    }
}

/// The location of the characters from position `b` to position `e` of `s`.
pub open spec fn span(s: Seq<char>, b: int, e: int) -> SpecLoc {
    SpecLoc {
        index: byte_len(s.take(b)) as int,
        len: byte_len(s.take(e)) - byte_len(s.take(b)),
        line: line_at(s, b),
        column: column_at(s, b),
    }
}

/// The message of the token that stands for text the lexer does not know.
pub open spec fn error_message() -> Seq<char> {
    "err"@
}

/// The tokens of `s` from position `i` on. Whitespace separates tokens and is
/// dropped; a maximal run of decimal digits is an integer literal; anything
/// else, up to the next digit, is an error token (whitespace included).
pub open spec fn tokens_from(s: Seq<char>, i: int) -> Seq<SpecToken>
    decreases s.len() - i,
{
    if i < 0 || i >= s.len() {
        seq![]
    } else {
        let k = skip_whitespace(s, i);
        if k >= s.len() {
            seq![]
        } else if spec_is_decimal_digit(s[k]) {
            let e = digits_end(s, k);
            proof {
                lemma_skip_whitespace_bounds(s, i);
                lemma_digits_end_bounds(s, k);
            }
            seq![
                SpecToken {
                    loc: span(s, k, e),
                    kind: SpecTokenKind::IntLiteral(decimal_value(s.subrange(k, e)) as int),
                },
            ] + tokens_from(s, e)
        } else {
            let e = non_digits_end(s, k);
            proof {
                lemma_skip_whitespace_bounds(s, i);
                lemma_non_digits_end_bounds(s, k);
            }
            seq![SpecToken { loc: span(s, k, e), kind: SpecTokenKind::Error(error_message()) }]
                + tokens_from(s, e)
        }
    }
}

/// The tokens of the source code `s`.
pub open spec fn lex(s: Seq<char>) -> Seq<SpecToken> {
    tokens_from(s, 0)
}

/// Whether a token, if it is an integer literal, is at most `u32::MAX`.
pub open spec fn literal_fits(t: SpecToken) -> bool {
    match t.kind {
        SpecTokenKind::IntLiteral(v) => v <= u32::MAX,
        SpecTokenKind::Error(_) => true,
    }
}

/// Whether every integer literal among `toks` is at most `u32::MAX`.
pub open spec fn int_literals_fit(toks: Seq<SpecToken>) -> bool {
    forall|i: int| 0 <= i < toks.len() ==> #[trigger] literal_fits(toks[i])
}

// ---------------------------------------------------------------------------
// Lemmas
// ---------------------------------------------------------------------------

pub proof fn lemma_skip_whitespace_bounds(s: Seq<char>, i: int)
    requires
        0 <= i <= s.len(),
    ensures
        i <= skip_whitespace(s, i) <= s.len(),
        skip_whitespace(s, i) < s.len() ==> !spec_is_whitespace(s[skip_whitespace(s, i)]),
    decreases s.len() - i,
{
    if i < s.len() && spec_is_whitespace(s[i]) {
        lemma_skip_whitespace_bounds(s, i + 1);
    }
}

pub proof fn lemma_digits_end_bounds(s: Seq<char>, i: int)
    requires
        0 <= i <= s.len(),
    ensures
        i <= digits_end(s, i) <= s.len(),
        i < s.len() && spec_is_decimal_digit(s[i]) ==> i < digits_end(s, i),
        digits_end(s, i) < s.len() ==> !spec_is_decimal_digit(s[digits_end(s, i)]),
        forall|j: int| i <= j < digits_end(s, i) ==> spec_is_decimal_digit(#[trigger] s[j]),
    decreases s.len() - i,
{
    if i < s.len() && spec_is_decimal_digit(s[i]) {
        lemma_digits_end_bounds(s, i + 1);
    }
}

pub proof fn lemma_non_digits_end_bounds(s: Seq<char>, i: int)
    requires
        0 <= i <= s.len(),
    ensures
        i <= non_digits_end(s, i) <= s.len(),
        i < s.len() && !spec_is_decimal_digit(s[i]) ==> i < non_digits_end(s, i),
        non_digits_end(s, i) < s.len() ==> spec_is_decimal_digit(s[non_digits_end(s, i)]),
        forall|j: int|
            i <= j < non_digits_end(s, i) ==> !spec_is_decimal_digit(#[trigger] s[j]),
    decreases s.len() - i,
{
    if i < s.len() && !spec_is_decimal_digit(s[i]) {
        lemma_non_digits_end_bounds(s, i + 1);
    }
}

/// UTF-8 encoding maps concatenation to concatenation.
pub proof fn lemma_encode_utf8_append(a: Seq<char>, b: Seq<char>)
    ensures
        encode_utf8(a + b) == encode_utf8(a) + encode_utf8(b),
    decreases a.len(),
{
    if a.len() == 0 {
        assert(a + b =~= b);
        assert(encode_utf8(a) + encode_utf8(b) =~= encode_utf8(b));
    } else {
        lemma_encode_utf8_append(a.drop_first(), b);
        assert((a + b).drop_first() =~= a.drop_first() + b);
        assert(encode_utf8(a + b) =~= encode_utf8(a) + encode_utf8(b));
    }
}

/// One more character adds its width to the byte count.
pub proof fn lemma_byte_len_step(s: Seq<char>, i: int)
    requires
        0 <= i < s.len(),
    ensures
        byte_len(s.take(i + 1)) == byte_len(s.take(i)) + utf8_width(s[i]),
{
    lemma_encode_utf8_append(s.take(i), seq![s[i]]);
    assert(s.take(i + 1) =~= s.take(i) + seq![s[i]]);
    let t = seq![s[i]];
    assert(t[0] == s[i]);
    assert(t.drop_first() =~= Seq::<char>::empty());
    assert(encode_utf8(t.drop_first()) =~= Seq::<u8>::empty());
    assert(encode_utf8(t) =~= encode_scalar(s[i] as u32));
}

/// A prefix takes no more bytes than a longer prefix.
pub proof fn lemma_byte_len_mono(s: Seq<char>, i: int, j: int)
    requires
        0 <= i <= j <= s.len(),
    ensures
        byte_len(s.take(i)) <= byte_len(s.take(j)) <= byte_len(s),
{
    lemma_encode_utf8_append(s.take(i), s.subrange(i, j));
    assert(s.take(j) =~= s.take(i) + s.subrange(i, j));
    lemma_encode_utf8_append(s.take(j), s.subrange(j, s.len() as int));
    assert(s =~= s.take(j) + s.subrange(j, s.len() as int));
}

pub proof fn lemma_line_column_bounds(s: Seq<char>, i: int)
    requires
        0 <= i,
    ensures
        1 <= line_at(s, i) <= i + 1,
        1 <= column_at(s, i) <= i + 1,
    decreases i,
{
    if i > 0 {
        lemma_line_column_bounds(s, i - 1);
    }
}

/// A prefix of a run of digits denotes no more than the whole run.
pub proof fn lemma_decimal_value_prefix(s: Seq<char>, k: int)
    requires
        0 <= k <= s.len(),
    ensures
        decimal_value(s.take(k)) <= decimal_value(s),
    decreases s.len(),
{
    if k < s.len() {
        lemma_decimal_value_prefix(s.drop_last(), k);
        assert(s.drop_last().take(k) =~= s.take(k));
    } else {
        assert(s.take(k) =~= s);
    }
}

/// The value of a run of digits, read in base ten: the digits of `a`
/// followed by those of `b` denote `a`'s value shifted left by the length of
/// `b`, plus `b`'s value.
pub proof fn lemma_decimal_value_concat(a: Seq<char>, b: Seq<char>)
    ensures
        decimal_value(a + b) == decimal_value(a) * pow(10, b.len()) + decimal_value(b),
    decreases b.len(),
{
    reveal(pow);
    if b.len() == 0 {
        assert(a + b =~= a);
        assert(pow(10, 0) == 1);
        assert(decimal_value(a) * 1 == decimal_value(a));
    } else {
        let k = b.len();
        lemma_decimal_value_concat(a, b.drop_last());
        assert((a + b).drop_last() =~= a + b.drop_last());
        assert((a + b).last() == b.last());
        assert(pow(10, k) == 10 * pow(10, (k - 1) as nat));
        let x = decimal_value(a);
        let p = pow(10, (k - 1) as nat);
        assert(10 * (x * p) == x * (10 * p)) by (nonlinear_arith);
    }
}

/// Leading zeros do not change the value of a run of digits.
pub proof fn lemma_decimal_value_leading_zero(s: Seq<char>)
    ensures
        decimal_value(seq!['0'] + s) == decimal_value(s),
{
    lemma_decimal_value_concat(seq!['0'], s);
    assert(seq!['0'].drop_last() =~= Seq::<char>::empty());
    assert(decimal_value(Seq::<char>::empty()) == 0);
    assert(digit_value('0') == 0);
    assert(decimal_value(seq!['0']) == 0);
    assert(0 * pow(10, s.len()) == 0);
}

/// A single decimal digit denotes its own value, below ten.
pub proof fn lemma_decimal_value_digit(c: char)
    requires
        spec_is_decimal_digit(c),
    ensures
        decimal_value(seq![c]) == c as u32 - 0x30,
        decimal_value(seq![c]) < 10,
{
    assert(seq![c].drop_last() =~= Seq::<char>::empty());
    assert(decimal_value(Seq::<char>::empty()) == 0);
    assert(seq![c].last() == c);
}

/// A run of `n` digits denotes less than ten to the `n`.
pub proof fn lemma_decimal_value_bound(s: Seq<char>)
    requires
        forall|i: int| 0 <= i < s.len() ==> spec_is_decimal_digit(#[trigger] s[i]),
    ensures
        decimal_value(s) < pow(10, s.len()),
    decreases s.len(),
{
    reveal(pow);
    if s.len() > 0 {
        let k = s.len();
        lemma_decimal_value_bound(s.drop_last());
        assert(spec_is_decimal_digit(s[k - 1]));
        assert(pow(10, k) == 10 * pow(10, (k - 1) as nat));
        let x = decimal_value(s.drop_last());
        let p = pow(10, (k - 1) as nat);
        let d = digit_value(s.last());
        assert(x + 1 <= p);
        assert(d < 10);
        assert(10 * x + d < 10 * p) by (nonlinear_arith)
            requires
                x + 1 <= p,
                d < 10,
        ;
    }
}

/// A nonempty sequence of tokens fits when its first token fits and the rest do.
pub proof fn lemma_int_literals_fit_first(toks: Seq<SpecToken>)
    requires
        toks.len() > 0,
    ensures
        int_literals_fit(toks) == (literal_fits(toks[0]) && int_literals_fit(toks.drop_first())),
{
    if literal_fits(toks[0]) && int_literals_fit(toks.drop_first()) {
        assert forall|i: int| 0 <= i < toks.len() implies #[trigger] literal_fits(toks[i]) by {
            if i > 0 {
                assert(toks[i] == toks.drop_first()[i - 1]);
            }
        }
    }
    if int_literals_fit(toks) {
        assert forall|i: int| 0 <= i < toks.drop_first().len() implies #[trigger] literal_fits(
            toks.drop_first()[i],
        ) by {
            assert(toks.drop_first()[i] == toks[i + 1]);
        }
    }
}

// ---------------------------------------------------------------------------
// The lexer
// ---------------------------------------------------------------------------

/// The characters of a piece of text, in order.
pub fn collect_chars(s: &str) -> (res: Vec<char>)
    ensures
        res@ == s@,
{
    let mut res: Vec<char> = Vec::new();
    for c in it: s.chars()
        invariant
            res@ == it.seq().take(it.index() as int),
            it.seq() == s@,
    {
        res.push(c);
    }
    res
}

/// Reads the tokens of a source one by one.
pub struct Lexer {
    chars: Vec<char>,
    pos: usize,
    loc: Loc,
    loc_head: Loc,
}

impl View for Lexer {
    type V = Seq<SpecToken>;

    /// The tokens that are left to read.
    closed spec fn view(&self) -> Seq<SpecToken> {
        tokens_from(self.chars@, self.pos as int)
    }
}

impl Lexer {
    /// The characters that the lexer reads.
    pub closed spec fn text(&self) -> Seq<char> {
        self.chars@
    }

    /// The byte counts agree with the read position.
    closed spec fn wf_bytes(&self) -> bool {
        let s = self.chars@;
        &&& self.pos <= s.len() < usize::MAX
        &&& byte_len(s) <= usize::MAX
        &&& self.loc_head.index == byte_len(s.take(self.pos as int))
        &&& self.loc.index + self.loc.len == self.loc_head.index
    }

    pub closed spec fn wf(&self) -> bool {
        let s = self.chars@;
        &&& self.wf_bytes()
        &&& self.loc_head.line == line_at(s, self.pos as int)
        &&& self.loc_head.column == column_at(s, self.pos as int)
        &&& (0 < self.pos < s.len() && s[self.pos - 1] == '\r' ==> s[self.pos as int] != '\n')
    }

    /// A lexer at the start of `s`.
    pub fn new(s: &Source) -> (res: Lexer)
        requires
            s.code@.len() < usize::MAX,
        ensures
            res.wf(),
            res.text() == s.code@,
            res@ == lex(s.code@),
    {
        let code = s.code.as_str();
        // The encoded code is a slice in memory, so its length fits in usize.
        let _n = code.as_bytes().len();
        let chars = collect_chars(code);
        let res = Lexer { chars, pos: 0, loc: Loc::head(), loc_head: Loc::head() };
        assert(res.chars@.take(0) =~= Seq::<char>::empty());
        res
    }

    fn eof(&self) -> (res: bool)
        requires
            self.wf(),
        ensures
            res == (self.pos >= self.chars@.len()),
    {
        self.pos >= self.chars.len()
    }

    /// Moves past one character, not yet counting a new line.
    fn advance(&mut self) -> (c: char)
        requires
            old(self).wf_bytes(),
            old(self).pos < old(self).chars@.len(),
            old(self).loc_head.column <= old(self).pos + 1,
        ensures
            c == old(self).chars@[old(self).pos as int],
            final(self).wf_bytes(),
            final(self).chars@ == old(self).chars@,
            final(self).pos == old(self).pos + 1,
            final(self).loc_head.line == old(self).loc_head.line,
            final(self).loc_head.column == old(self).loc_head.column + 1,
            final(self).loc.index == old(self).loc.index,
            final(self).loc.line == old(self).loc.line,
            final(self).loc.column == old(self).loc.column,
            final(self).loc.index + final(self).loc.len == final(self).loc_head.index,
    {
        let ghost s = self.chars@;
        let c = self.chars[self.pos];
        let w = char_utf8_width(c);
        proof {
            lemma_byte_len_step(s, self.pos as int);
            lemma_byte_len_mono(s, self.pos + 1, s.len() as int);
        }
        self.pos = self.pos + 1;
        self.loc_head.index = self.loc_head.index + w;
        self.loc_head.column = self.loc_head.column + 1;
        self.loc.len = self.loc.len + w;
        c
    }

    /// Reads one character, or a carriage return and the line feed after it.
    fn consume(&mut self) -> (c: char)
        requires
            old(self).wf(),
            old(self).pos < old(self).chars@.len(),
        ensures
            final(self).wf(),
            final(self).chars@ == old(self).chars@,
            c == old(self).chars@[old(self).pos as int],
            ({
                let s = old(self).chars@;
                let p = old(self).pos as int;
                if c == '\r' && p + 1 < s.len() && s[p + 1] == '\n' {
                    final(self).pos == p + 2
                } else {
                    final(self).pos == p + 1
                }
            }),
            final(self).loc.index == old(self).loc.index,
            final(self).loc.line == old(self).loc.line,
            final(self).loc.column == old(self).loc.column,
    {
        let ghost s = self.chars@;
        let ghost p = self.pos as int;
        proof {
            lemma_line_column_bounds(s, p);
        }
        let c = self.advance();
        if c == '\r' && self.pos < self.chars.len() && self.chars[self.pos] == '\n' {
            self.advance();
            assert(is_line_break(s, p));
            assert(!is_line_break(s, p + 1));
            assert(line_at(s, p + 1) == line_at(s, p) + 1);
            assert(line_at(s, p + 2) == line_at(s, p) + 1);
            assert(column_at(s, p + 2) == 1);
        } else {
            assert(line_at(s, p + 1) == line_at(s, p) + if is_line_break(s, p) {
                1int
            } else {
                0int
            });
            assert(is_line_break(s, p) == spec_is_newline(c));
        }
        if char_is_newline(c) {
            self.loc_head.line = self.loc_head.line + 1;
            self.loc_head.column = 1;
        }
        c
    }

    /// Skips the whitespace at the read position.
    fn skip_whitespaces(&mut self)
        requires
            old(self).wf(),
        ensures
            final(self).wf(),
            final(self).chars@ == old(self).chars@,
            final(self).pos == skip_whitespace(old(self).chars@, old(self).pos as int),
    {
        let ghost s = self.chars@;
        let ghost p0 = self.pos as int;
        while self.pos < self.chars.len() && char_is_whitespace(self.chars[self.pos])
            invariant
                self.wf(),
                self.chars@ == s,
                p0 <= self.pos,
                skip_whitespace(s, self.pos as int) == skip_whitespace(s, p0),
            decreases s.len() - self.pos,
        {
            let ghost p = self.pos as int;
            let c = self.consume();
            proof {
                if self.pos == p + 2 {
                    assert(spec_is_whitespace(s[p + 1]));
                    assert(skip_whitespace(s, p + 1) == skip_whitespace(s, p + 2));
                }
            }
        }
    }

    /// Reads a run of digits and computes its value; `None` when the value
    /// exceeds `u32::MAX`.
    fn read_number_checked(&mut self) -> (res: Option<u32>)
        requires
            old(self).wf(),
            old(self).pos < old(self).chars@.len(),
            spec_is_decimal_digit(old(self).chars@[old(self).pos as int]),
        ensures
            final(self).wf(),
            final(self).chars@ == old(self).chars@,
            final(self).loc.index == old(self).loc.index,
            final(self).loc.line == old(self).loc.line,
            final(self).loc.column == old(self).loc.column,
            ({
                let s = old(self).chars@;
                let p = old(self).pos as int;
                let v = decimal_value(s.subrange(p, digits_end(s, p)));
                match res {
                    Some(n) => n == v && final(self).pos == digits_end(s, p),
                    None => v > u32::MAX,
                }
            }),
    {
        let ghost s = self.chars@;
        let ghost p = self.pos as int;
        let ghost e = digits_end(s, p);
        proof {
            lemma_digits_end_bounds(s, p);
            assert(s.subrange(p, p) =~= Seq::<char>::empty());
        }
        let mut value: u32 = 0;
        while self.pos < self.chars.len() && char_is_decimal_digit(self.chars[self.pos])
            invariant
                self.wf(),
                self.chars@ == s,
                s == old(self).chars@,
                p == old(self).pos,
                p <= self.pos <= e,
                e == digits_end(s, p),
                e <= s.len(),
                digits_end(s, self.pos as int) == e,
                value == decimal_value(s.subrange(p, self.pos as int)),
                self.loc.index == old(self).loc.index,
                self.loc.line == old(self).loc.line,
                self.loc.column == old(self).loc.column,
            decreases s.len() - self.pos,
        {
            let ghost q = self.pos as int;
            let c = self.consume();
            let d = char_digit_value(c);
            proof {
                assert(s.subrange(p, q + 1).drop_last() =~= s.subrange(p, q));
                assert(s.subrange(p, q + 1).last() == c);
                assert(decimal_value(s.subrange(p, q + 1)) == 10 * value + d);
                lemma_digits_end_bounds(s, q + 1);
                lemma_decimal_value_prefix(s.subrange(p, e), q + 1 - p);
                assert(s.subrange(p, e).take(q + 1 - p) =~= s.subrange(p, q + 1));
            }
            match value.checked_mul(10) {
                Some(m) => match m.checked_add(d) {
                    Some(v) => {
                        value = v;
                    },
                    None => {
                        return None;
                    },
                },
                None => {
                    return None;
                },
            }
        }
        Some(value)
    }

    /// Reads up to the next decimal digit.
    fn consume_non_digits(&mut self)
        requires
            old(self).wf(),
        ensures
            final(self).wf(),
            final(self).chars@ == old(self).chars@,
            final(self).pos == non_digits_end(old(self).chars@, old(self).pos as int),
            final(self).loc.index == old(self).loc.index,
            final(self).loc.line == old(self).loc.line,
            final(self).loc.column == old(self).loc.column,
    {
        let ghost s = self.chars@;
        let ghost p0 = self.pos as int;
        while self.pos < self.chars.len() && !char_is_decimal_digit(self.chars[self.pos])
            invariant
                self.wf(),
                self.chars@ == s,
                p0 <= self.pos,
                non_digits_end(s, self.pos as int) == non_digits_end(s, p0),
                self.loc.index == old(self).loc.index,
                self.loc.line == old(self).loc.line,
                self.loc.column == old(self).loc.column,
            decreases s.len() - self.pos,
        {
            let ghost p = self.pos as int;
            let c = self.consume();
            proof {
                if self.pos == p + 2 {
                    assert(!spec_is_decimal_digit(s[p + 1]));
                    assert(non_digits_end(s, p + 1) == non_digits_end(s, p + 2));
                }
            }
        }
    }

    /// Reads the next token; `Err` when it is an integer literal above
    /// `u32::MAX`.
    fn read_checked(&mut self) -> (res: Result<Option<Token>, ()>)
        requires
            old(self).wf(),
        ensures
            final(self).wf(),
            final(self).chars@ == old(self).chars@,
            match res {
                Ok(None) => old(self)@.len() == 0 && final(self)@ == old(self)@,
                Ok(Some(t)) => old(self)@.len() > 0 && t@ == old(self)@[0] && literal_fits(
                    old(self)@[0],
                ) && final(self)@ == old(self)@.drop_first(),
                Err(_) => old(self)@.len() > 0 && !literal_fits(old(self)@[0]),
            },
    {
        let ghost s = self.chars@;
        let ghost i = self.pos as int;
        proof {
            lemma_skip_whitespace_bounds(s, i);
        }
        self.skip_whitespaces();
        let ghost k = self.pos as int;
        self.loc = self.loc_head;
        self.loc.len = 0;
        if self.eof() {
            return Ok(None);
        }
        if char_is_decimal_digit(self.chars[self.pos]) {
            proof {
                lemma_digits_end_bounds(s, k);
            }
            match self.read_number_checked() {
                Some(v) => {
                    let t = self.new_token(TokenKind::IntLiteral(v as i64));
                    assert(t@.loc == span(s, k, digits_end(s, k)));
                    Ok(Some(t))
                },
                None => Err(()),
            }
        } else {
            proof {
                lemma_non_digits_end_bounds(s, k);
            }
            self.consume_non_digits();
            let t = self.new_token(TokenKind::Error(String::from_str("err")));
            assert(t@.loc == span(s, k, non_digits_end(s, k)));
            Ok(Some(t))
        }
    }

    /// Reads the next token, if there is one left.
    pub fn next(&mut self) -> (res: Option<Token>)
        requires
            old(self).wf(),
            int_literals_fit(old(self)@),
        ensures
            final(self).wf(),
            final(self).text() == old(self).text(),
            int_literals_fit(final(self)@),
            old(self)@.len() == 0 ==> res is None && final(self)@ == old(self)@,
            old(self)@.len() > 0 ==> (res matches Some(t) && t@ == old(self)@[0] && final(self)@
                == old(self)@.drop_first()),
    {
        let r = self.read_checked();
        proof {
            if old(self)@.len() > 0 {
                lemma_int_literals_fit_first(old(self)@);
            }
        }
        match r {
            Ok(t) => t,
            Err(_) => None,
        }
    }

    fn new_token(&self, kind: TokenKind) -> (res: Token)
        ensures
            res.loc == self.loc,
            res.kind == kind,
    {
        Token { loc: self.loc, kind }
    }
}

/// The tokens of a source, ready to be read one by one.
pub fn tokenize(s: &Source) -> (res: TokenReader)
    requires
        s.code@.len() < usize::MAX,
        int_literals_fit(lex(s.code@)),
    ensures
        res.wf(),
        res@ == lex(s.code@),
{
    let mut lexer = Lexer::new(s);
    let mut tokens: Vec<Token> = Vec::new();
    loop
        invariant
            lexer.wf(),
            int_literals_fit(lexer@),
            tokens_view(tokens@) + lexer@ == lex(s.code@),
        ensures
            lexer@.len() == 0,
            tokens_view(tokens@) + lexer@ == lex(s.code@),
        decreases lexer@.len(),
    {
        let ghost before = lexer@;
        let ghost prev = tokens@;
        match lexer.next() {
            Some(t) => {
                tokens.push(t);
                assert(tokens_view(tokens@) =~= tokens_view(prev) + seq![t@]);
                assert(before =~= seq![t@] + lexer@);
                assert(tokens_view(tokens@) + lexer@ =~= lex(s.code@));
            },
            None => {
                break ;
            },
        }
    }
    assert(lexer@.len() == 0);
    assert(tokens_view(tokens@) =~= lex(s.code@));
    TokenReader::new(tokens)
}

/// Whether every integer literal of a source is at most `u32::MAX`, which is
/// what reading its tokens needs.
pub fn check_int_literals(s: &Source) -> (res: bool)
    requires
        s.code@.len() < usize::MAX,
    ensures
        res == int_literals_fit(lex(s.code@)),
{
    let mut lexer = Lexer::new(s);
    loop
        invariant
            lexer.wf(),
            int_literals_fit(lexer@) == int_literals_fit(lex(s.code@)),
        decreases lexer@.len(),
    {
        let ghost before = lexer@;
        proof {
            if before.len() > 0 {
                lemma_int_literals_fit_first(before);
            }
        }
        match lexer.read_checked() {
            Ok(Some(_)) => {},
            Ok(None) => {
                return true;
            },
            Err(_) => {
                return false;
            },
        }
    }
}

// ---------------------------------------------------------------------------
// Properties of the tokens
// ---------------------------------------------------------------------------

/// A longer prefix takes strictly more bytes.
pub proof fn lemma_byte_len_strict(s: Seq<char>, i: int, j: int)
    requires
        0 <= i < j <= s.len(),
    ensures
        byte_len(s.take(i)) < byte_len(s.take(j)),
{
    lemma_byte_len_step(s, i);
    lemma_byte_len_mono(s, i + 1, j);
}

/// Lines do not decrease along the source.
pub proof fn lemma_line_mono(s: Seq<char>, i: int, j: int)
    requires
        0 <= i <= j,
    ensures
        line_at(s, i) <= line_at(s, j),
    decreases j,
{
    if i < j {
        lemma_line_mono(s, i, j - 1);
    }
}

/// The spans of the tokens from position `i` on.
proof fn lemma_tokens_from_spans(s: Seq<char>, i: int)
    requires
        0 <= i <= s.len(),
    ensures
        forall|a: int|
            0 <= a < tokens_from(s, i).len() ==> {
                let l = #[trigger] tokens_from(s, i)[a].loc;
                &&& byte_len(s.take(i)) <= l.index
                &&& 0 < l.len
                &&& l.index + l.len <= byte_len(s)
                &&& line_at(s, i) <= l.line
            },
        forall|a: int, b: int|
            0 <= a < b < tokens_from(s, i).len() ==> #[trigger] tokens_from(s, i)[a].loc.index
                + tokens_from(s, i)[a].loc.len <= #[trigger] tokens_from(s, i)[b].loc.index
                && tokens_from(s, i)[a].loc.line <= tokens_from(s, i)[b].loc.line,
    decreases s.len() - i,
{
    if i < s.len() {
        let k = skip_whitespace(s, i);
        lemma_skip_whitespace_bounds(s, i);
        if k < s.len() {
            let e = if spec_is_decimal_digit(s[k]) {
                lemma_digits_end_bounds(s, k);
                digits_end(s, k)
            } else {
                lemma_non_digits_end_bounds(s, k);
                non_digits_end(s, k)
            };
            let t = tokens_from(s, i);
            let rest = tokens_from(s, e);
            assert(t == seq![t[0]] + rest);
            assert(t[0].loc == span(s, k, e));
            lemma_tokens_from_spans(s, e);
            lemma_byte_len_mono(s, i, k);
            lemma_byte_len_mono(s, e, s.len() as int);
            lemma_byte_len_strict(s, k, e);
            lemma_line_mono(s, i, k);
            lemma_line_mono(s, k, e);
            assert forall|a: int| 0 <= a < t.len() implies {
                let l = #[trigger] t[a].loc;
                &&& byte_len(s.take(i)) <= l.index
                &&& 0 < l.len
                &&& l.index + l.len <= byte_len(s)
                &&& line_at(s, i) <= l.line
            } by {
                if a > 0 {
                    assert(t[a] == rest[a - 1]);
                }
            }
            assert forall|a: int, b: int| 0 <= a < b < t.len() implies #[trigger] t[a].loc.index
                + t[a].loc.len <= #[trigger] t[b].loc.index && t[a].loc.line <= t[b].loc.line by {
                assert(t[b] == rest[b - 1]);
                if a > 0 {
                    assert(t[a] == rest[a - 1]);
                }
            }
        }
    }
}

/// The tokens of a source appear in order, each covers at least one byte,
/// no two overlap, all lie within the source, and their lines do not
/// decrease.
pub proof fn lemma_lex_spans_ordered(s: Seq<char>)
    ensures
        forall|a: int|
            0 <= a < lex(s).len() ==> {
                let l = #[trigger] lex(s)[a].loc;
                &&& 0 <= l.index
                &&& 0 < l.len
                &&& l.index + l.len <= byte_len(s)
                &&& 1 <= l.line
            },
        forall|a: int, b: int|
            0 <= a < b < lex(s).len() ==> #[trigger] lex(s)[a].loc.index + lex(s)[a].loc.len
                <= #[trigger] lex(s)[b].loc.index && lex(s)[a].loc.line <= lex(s)[b].loc.line,
{
    lemma_tokens_from_spans(s, 0);
}

/// Whether `s` holds, from position `i` on, a character that is neither
/// whitespace nor a decimal digit.
pub open spec fn has_stray_char(s: Seq<char>, i: int) -> bool {
    exists|j: int|
        i <= j < s.len() && !spec_is_whitespace(#[trigger] s[j]) && !spec_is_decimal_digit(s[j])
}

/// Whether a token is an error token.
pub open spec fn is_error_token(t: SpecToken) -> bool {
    t.kind is Error
}

proof fn lemma_tokens_from_errors(s: Seq<char>, i: int)
    requires
        0 <= i <= s.len(),
    ensures
        (exists|a: int| 0 <= a < tokens_from(s, i).len() && is_error_token(
            #[trigger] tokens_from(s, i)[a],
        )) <==> has_stray_char(s, i),
        tokens_from(s, i).len() == 0 <==> (forall|j: int|
            i <= j < s.len() ==> spec_is_whitespace(#[trigger] s[j])),
    decreases s.len() - i,
{
    let t = tokens_from(s, i);
    if i == s.len() {
        if has_stray_char(s, i) {
            let j = choose|j: int|
                i <= j < s.len() && !spec_is_whitespace(#[trigger] s[j])
                    && !spec_is_decimal_digit(s[j]);
        }
    } else {
        let k = skip_whitespace(s, i);
        lemma_skip_whitespace_bounds(s, i);
        lemma_skip_whitespace_all(s, i);
        if k == s.len() {
            if has_stray_char(s, i) {
                let j = choose|j: int|
                    i <= j < s.len() && !spec_is_whitespace(#[trigger] s[j])
                        && !spec_is_decimal_digit(s[j]);
                assert(spec_is_whitespace(s[j]));
            }
        } else {
            assert(!spec_is_whitespace(s[k]));
            assert(!(forall|j: int| i <= j < s.len() ==> spec_is_whitespace(#[trigger] s[j])));
            if spec_is_decimal_digit(s[k]) {
                let e = digits_end(s, k);
                lemma_digits_end_bounds(s, k);
                lemma_tokens_from_errors(s, e);
                let rest = tokens_from(s, e);
                assert(t == seq![t[0]] + rest);
                assert(!is_error_token(t[0]));
                if has_stray_char(s, i) {
                    let j = choose|j: int|
                        i <= j < s.len() && !spec_is_whitespace(#[trigger] s[j])
                            && !spec_is_decimal_digit(s[j]);
                    assert(j >= e);
                    assert(has_stray_char(s, e));
                    let a = choose|a: int| 0 <= a < rest.len() && is_error_token(#[trigger] rest[a]);
                    assert(t[a + 1] == rest[a]);
                }
                if exists|a: int| 0 <= a < t.len() && is_error_token(#[trigger] t[a]) {
                    let a = choose|a: int| 0 <= a < t.len() && is_error_token(#[trigger] t[a]);
                    assert(a > 0);
                    assert(t[a] == rest[a - 1]);
                    assert(has_stray_char(s, e));
                    let j = choose|j: int|
                        e <= j < s.len() && !spec_is_whitespace(#[trigger] s[j])
                            && !spec_is_decimal_digit(s[j]);
                    assert(i <= j);
                }
            } else {
                assert(is_error_token(t[0]));
                assert(has_stray_char(s, i) && !spec_is_whitespace(s[k])
                    && !spec_is_decimal_digit(s[k]));
            }
        }
    }
}

/// Every position from `i` up to where whitespace skipping stops holds
/// whitespace.
proof fn lemma_skip_whitespace_all(s: Seq<char>, i: int)
    requires
        0 <= i <= s.len(),
    ensures
        forall|j: int| i <= j < skip_whitespace(s, i) ==> spec_is_whitespace(#[trigger] s[j]),
    decreases s.len() - i,
{
    if i < s.len() && spec_is_whitespace(s[i]) {
        lemma_skip_whitespace_all(s, i + 1);
    }
}

/// A source has an error token exactly when it holds a character that is
/// neither whitespace nor a decimal digit, and it has no token at all exactly
/// when it is all whitespace.
pub proof fn lemma_lex_errors(s: Seq<char>)
    ensures
        (exists|a: int| 0 <= a < lex(s).len() && is_error_token(#[trigger] lex(s)[a]))
            <==> has_stray_char(s, 0),
        lex(s).len() == 0 <==> (forall|j: int| 0 <= j < s.len() ==> spec_is_whitespace(
            #[trigger] s[j],
        )),
{
    lemma_tokens_from_errors(s, 0);
    let t = tokens_from(s, 0);
    if has_stray_char(s, 0) {
        let a = choose|a: int| 0 <= a < t.len() && is_error_token(#[trigger] t[a]);
        assert(is_error_token(lex(s)[a]));
    }
}

} // verus!
