//! Characters of Cotowali source code and their classification.
use vstd::prelude::*;
use vstd::std_specs::cmp::PartialEqSpec;
use vstd::utf8::*;

verus! {

/// Whether `c` has the Unicode `White_Space` property.
pub open spec fn spec_is_whitespace(c: char) -> bool {
    let v = c as u32;
    ||| 0x09 <= v <= 0x0D
    ||| v == 0x20
    ||| v == 0x85
    ||| v == 0xA0
    ||| v == 0x1680
    ||| 0x2000 <= v <= 0x200A
    ||| v == 0x2028
    ||| v == 0x2029
    ||| v == 0x202F
    ||| v == 0x205F
    ||| v == 0x3000
}

/// Whether `c` ends a line: a line feed or a carriage return.
pub open spec fn spec_is_newline(c: char) -> bool {
    c == '\n' || c == '\r'
}

/// Whether `c` is one of the ASCII digits `0` to `9`.
pub open spec fn spec_is_decimal_digit(c: char) -> bool {
    '0' as u32 <= c as u32 <= '9' as u32
}

/// Whether `c` is one of the ASCII digits `0` to `7`.
pub open spec fn spec_is_octal_digit(c: char) -> bool {
    '0' as u32 <= c as u32 <= '7' as u32
}

/// Whether `c` is an ASCII hexadecimal digit, of either case.
pub open spec fn spec_is_hex_digit(c: char) -> bool {
    let v = c as u32;
    ||| '0' as u32 <= v <= '9' as u32
    ||| 'a' as u32 <= v <= 'f' as u32
    ||| 'A' as u32 <= v <= 'F' as u32
}

/// Every octal digit is a decimal digit, every decimal digit is a
/// hexadecimal digit, every newline is whitespace, and no digit is whitespace.
pub proof fn lemma_char_classes(c: char)
    ensures
        spec_is_octal_digit(c) ==> spec_is_decimal_digit(c),
        spec_is_decimal_digit(c) ==> spec_is_hex_digit(c),
        spec_is_newline(c) ==> spec_is_whitespace(c),
        spec_is_hex_digit(c) ==> !spec_is_whitespace(c),
{
    assert('\n' as u32 == 0x0A);
    assert('\r' as u32 == 0x0D);
}

/// The digit classes by code point: decimal digits are 0x30..=0x39 (`0` to
/// `9`), octal digits 0x30..=0x37 (`0` to `7`), and hexadecimal digits are
/// the decimal digits together with 0x61..=0x66 (`a` to `f`) and 0x41..=0x46
/// (`A` to `F`).
pub proof fn lemma_digit_ranges(c: char)
    ensures
        spec_is_decimal_digit(c) <==> 0x30 <= c as u32 <= 0x39,
        spec_is_octal_digit(c) <==> 0x30 <= c as u32 <= 0x37,
        spec_is_hex_digit(c) <==> (0x30 <= c as u32 <= 0x39 || 0x61 <= c as u32 <= 0x66 || 0x41
            <= c as u32 <= 0x46),
{
    assert('0' as u32 == 0x30);
    assert('7' as u32 == 0x37);
    assert('9' as u32 == 0x39);
    assert('a' as u32 == 0x61);
    assert('f' as u32 == 0x66);
    assert('A' as u32 == 0x41);
    assert('F' as u32 == 0x46);
}

/// Of the letters, exactly `a` to `f` and `A` to `F` are hexadecimal digits.
pub proof fn lemma_hex_letters()
    ensures
        spec_is_hex_digit('a') && spec_is_hex_digit('b') && spec_is_hex_digit('c')
            && spec_is_hex_digit('d') && spec_is_hex_digit('e') && spec_is_hex_digit('f'),
        spec_is_hex_digit('A') && spec_is_hex_digit('B') && spec_is_hex_digit('C')
            && spec_is_hex_digit('D') && spec_is_hex_digit('E') && spec_is_hex_digit('F'),
        !spec_is_hex_digit('g') && !spec_is_hex_digit('G') && !spec_is_hex_digit('z')
            && !spec_is_hex_digit('Z'),
{
    lemma_digit_ranges('a');
    lemma_digit_ranges('b');
    lemma_digit_ranges('c');
    lemma_digit_ranges('d');
    lemma_digit_ranges('e');
    lemma_digit_ranges('f');
    lemma_digit_ranges('A');
    lemma_digit_ranges('B');
    lemma_digit_ranges('C');
    lemma_digit_ranges('D');
    lemma_digit_ranges('E');
    lemma_digit_ranges('F');
    lemma_digit_ranges('g');
    lemma_digit_ranges('G');
    lemma_digit_ranges('z');
    lemma_digit_ranges('Z');
}

/// The value of a decimal digit.
pub open spec fn digit_value(c: char) -> nat {
    (c as u32 - '0' as u32) as nat
}

/// The number of bytes that `c` takes in UTF-8.
pub open spec fn utf8_width(c: char) -> nat {
    encode_scalar(c as u32).len()
}

pub fn char_is_whitespace(c: char) -> (res: bool)
    ensures
        res == spec_is_whitespace(c),
{
    let v = c as u32;
    (0x09 <= v && v <= 0x0D) || v == 0x20 || v == 0x85 || v == 0xA0 || v == 0x1680 || (0x2000
        <= v && v <= 0x200A) || v == 0x2028 || v == 0x2029 || v == 0x202F || v == 0x205F || v
        == 0x3000
}

pub fn char_is_newline(c: char) -> (res: bool)
    ensures
        res == spec_is_newline(c),
{
    c == '\n' || c == '\r'
}

pub fn char_is_decimal_digit(c: char) -> (res: bool)
    ensures
        res == spec_is_decimal_digit(c),
{
    let v = c as u32;
    '0' as u32 <= v && v <= '9' as u32
}

pub fn char_is_hex_digit(c: char) -> (res: bool)
    ensures
        res == spec_is_hex_digit(c),
{
    let v = c as u32;
    ('0' as u32 <= v && v <= '9' as u32) || ('a' as u32 <= v && v <= 'f' as u32) || ('A' as u32
        <= v && v <= 'F' as u32)
}

/// The value of the decimal digit `c`.
pub fn char_digit_value(c: char) -> (res: u32)
    requires
        spec_is_decimal_digit(c),
    ensures
        res == digit_value(c),
        res < 10,
{
    (c as u32) - ('0' as u32)
}

/// The number of bytes that `c` takes in UTF-8.
pub fn char_utf8_width(c: char) -> (res: usize)
    ensures
        res == utf8_width(c),
        1 <= res <= 4,
{
    proof {
        char_is_scalar(c);
    }
    let v = c as u32;
    if v < 0x80 {
        1
    } else if v < 0x800 {
        2
    } else if v < 0x10000 {
        3
    } else {
        4
    }
}

/// The first byte of the UTF-8 encoding of a sequence that starts with `c`
/// is below 0x80 exactly when `c` is, and then it is `c` itself.
pub proof fn lemma_first_byte(s: Seq<char>)
    requires
        s.len() > 0,
    ensures
        encode_utf8(s).len() > 0,
        (encode_utf8(s)[0] < 0x80) == ((s[0] as u32) < 0x80),
        (s[0] as u32) < 0x80 ==> encode_utf8(s)[0] == s[0] as u32,
{
    let v = s[0] as u32;
    char_is_scalar(s[0]);
    assert(encode_utf8(s) == encode_scalar(v) + encode_utf8(s.drop_first()));
    if has_width_1_encoding(v) {
        assert((v & 0x7F) as u8 == v) by (bit_vector)
            requires
                v <= 0x7F,
        ;
    } else if has_width_2_encoding(v) {
        assert((0xC0u8 | ((v >> 6) & 0x1F) as u8) >= 0x80) by (bit_vector);
    } else if has_width_3_encoding(v) {
        assert((0xE0u8 | ((v >> 12) & 0x0F) as u8) >= 0x80) by (bit_vector);
    } else {
        assert((0xF0u8 | ((v >> 18) & 0x7) as u8) >= 0x80) by (bit_vector);
    }
}

/// A piece of source text that stands for one character.
#[derive(Clone, Copy, Eq, Hash, Debug)]
pub struct Char<'a>(&'a str);

impl<'a> View for Char<'a> {
    type V = Seq<char>;

    closed spec fn view(&self) -> Seq<char> {
        self.0@
    }
}

impl<'a> Char<'a> {
    /// The first byte of the encoded text.
    pub fn byte(&self) -> (res: u8)
        requires
            self@.len() > 0,
        ensures
            res == encode_utf8(self@)[0],
            (res < 0x80) == ((self@[0] as u32) < 0x80),
            (self@[0] as u32) < 0x80 ==> res == self@[0] as u32,
    {
        proof {
            lemma_first_byte(self@);
        }
        let b = self.0.as_bytes();
        b[0]
    }

    /// The (first) character.
    pub fn char(&self) -> (res: char)
        requires
            self@.len() > 0,
        ensures
            res == self@[0],
    {
        self.0.get_char(0)
    }

    /// The character's code when it is ASCII.
    pub fn ascii(&self) -> (res: Option<u8>)
        requires
            self@.len() > 0,
        ensures
            res == (if (self@[0] as u32) < 0x80 {
                Some((self@[0] as u32) as u8)
            } else {
                None
            }),
    {
        let b = self.byte();
        if b < 0x80 {
            Some(b)
        } else {
            None
        }
    }

    /// The number of bytes of the text.
    pub fn len(&self) -> (res: usize)
        ensures
            res == encode_utf8(self@).len() as usize,
    {
        self.0.len()
    }

    /// Whether the text is empty.
    pub fn is_empty(&self) -> (res: bool)
        ensures
            res == (self@.len() == 0),
    {
        self.0.is_empty()
    }

    /// The text itself.
    pub fn as_str(&self) -> (res: &'a str)
        ensures
            res@ == self@,
    {
        self.0
    }

    /// The text, as `Display` shows it.
    pub fn to_display_string(&self) -> (res: String)
        ensures
            res@ == self@,
    {
        String::from_str(self.0)
    }
}

impl<'a> From<&'a str> for Char<'a> {
    fn from(s: &'a str) -> (res: Self) {
        Char(s)
    }
}

impl<'a> vstd::std_specs::convert::FromSpecImpl<&'a str> for Char<'a> {
    open spec fn obeys_from_spec() -> bool {
        true
    }

    closed spec fn from_spec(s: &'a str) -> Self {
        Char(s)
    }
}

/// A character made from a piece of text stands for that text.
pub broadcast proof fn lemma_char_from_view<'a>(s: &'a str)
    ensures
        #[trigger] <Char<'a> as vstd::std_specs::convert::FromSpec<&'a str>>::from_spec(s)@ == s@,
{
}

/// Whether two pieces of text are the same.
pub fn str_eq(a: &str, b: &str) -> (res: bool)
    ensures
        res == (a@ == b@),
{
    let x = a.as_bytes();
    let y = b.as_bytes();
    proof {
        encode_utf8_decode_utf8(a@);
        encode_utf8_decode_utf8(b@);
    }
    if x.len() != y.len() {
        return false;
    }
    let mut i: usize = 0;
    while i < x.len()
        invariant
            x@.len() == y@.len(),
            x@ == encode_utf8(a@),
            y@ == encode_utf8(b@),
            i <= x@.len(),
            forall|j: int| 0 <= j < i ==> x@[j] == y@[j],
        decreases x@.len() - i,
    {
        if x[i] != y[i] {
            return false;
        }
        i = i + 1;
    }
    assert(x@ =~= y@);
    true
}

impl<'a, 'b> PartialEq<Char<'b>> for Char<'a> {
    fn eq(&self, other: &Char<'b>) -> (res: bool) {
        str_eq(self.0, other.0)
    }
}

impl<'a, 'b> vstd::std_specs::cmp::PartialEqSpecImpl<Char<'b>> for Char<'a> {
    open spec fn obeys_eq_spec() -> bool {
        true
    }

    open spec fn eq_spec(&self, other: &Char<'b>) -> bool {
        self@ == other@
    }
}

impl<'a> PartialEq<str> for Char<'a> {
    fn eq(&self, other: &str) -> (res: bool) {
        str_eq(self.0, other)
    }
}

impl<'a> vstd::std_specs::cmp::PartialEqSpecImpl<str> for Char<'a> {
    open spec fn obeys_eq_spec() -> bool {
        true
    }

    open spec fn eq_spec(&self, other: &str) -> bool {
        self@ == other@
    }
}

impl<'a> PartialEq<Char<'a>> for str {
    fn eq(&self, other: &Char<'a>) -> (res: bool) {
        str_eq(self, other.0)
    }
}

impl<'a> vstd::std_specs::cmp::PartialEqSpecImpl<Char<'a>> for str {
    open spec fn obeys_eq_spec() -> bool {
        true
    }

    open spec fn eq_spec(&self, other: &Char<'a>) -> bool {
        self@ == other@
    }
}

impl<'a> PartialEq<String> for Char<'a> {
    fn eq(&self, other: &String) -> (res: bool) {
        str_eq(self.0, other.as_str())
    }
}

impl<'a> vstd::std_specs::cmp::PartialEqSpecImpl<String> for Char<'a> {
    open spec fn obeys_eq_spec() -> bool {
        true
    }

    open spec fn eq_spec(&self, other: &String) -> bool {
        self@ == other@
    }
}

impl<'a> PartialEq<Char<'a>> for String {
    fn eq(&self, other: &Char<'a>) -> (res: bool) {
        str_eq(self.as_str(), other.0)
    }
}

impl<'a> vstd::std_specs::cmp::PartialEqSpecImpl<Char<'a>> for String {
    open spec fn obeys_eq_spec() -> bool {
        true
    }

    open spec fn eq_spec(&self, other: &Char<'a>) -> bool {
        self@ == other@
    }
}

impl<'b, 'a> PartialEq<&'b str> for Char<'a> {
    fn eq(&self, other: &&'b str) -> (res: bool) {
        str_eq(self.0, *other)
    }
}

impl<'b, 'a> vstd::std_specs::cmp::PartialEqSpecImpl<&'b str> for Char<'a> {
    open spec fn obeys_eq_spec() -> bool {
        true
    }

    open spec fn eq_spec(&self, other: &&'b str) -> bool {
        self@ == other@
    }
}

impl<'b, 'a> PartialEq<Char<'a>> for &'b str {
    fn eq(&self, other: &Char<'a>) -> (res: bool) {
        str_eq(*self, other.0)
    }
}

impl<'b, 'a> vstd::std_specs::cmp::PartialEqSpecImpl<Char<'a>> for &'b str {
    open spec fn obeys_eq_spec() -> bool {
        true
    }

    open spec fn eq_spec(&self, other: &Char<'a>) -> bool {
        self@ == other@
    }
}

/// Equality of characters, and of a character with text, is equality of the
/// whole texts, in either order.
pub proof fn lemma_char_eq<'a, 'b>(a: Char<'a>, b: Char<'b>, t: &str, u: String)
    ensures
        <Char<'a> as PartialEqSpec<Char<'b>>>::obeys_eq_spec(),
        <Char<'a> as PartialEqSpec<Char<'b>>>::eq_spec(&a, &b) <==> a@ == b@,
        <Char<'b> as PartialEqSpec<Char<'a>>>::eq_spec(&b, &a) <==> a@ == b@,
        <Char<'a> as PartialEqSpec<str>>::obeys_eq_spec(),
        <Char<'a> as PartialEqSpec<str>>::eq_spec(&a, t) <==> a@ == t@,
        <str as PartialEqSpec<Char<'a>>>::obeys_eq_spec(),
        <str as PartialEqSpec<Char<'a>>>::eq_spec(t, &a) <==> a@ == t@,
        <Char<'a> as PartialEqSpec<String>>::obeys_eq_spec(),
        <Char<'a> as PartialEqSpec<String>>::eq_spec(&a, &u) <==> a@ == u@,
        <String as PartialEqSpec<Char<'a>>>::obeys_eq_spec(),
        <String as PartialEqSpec<Char<'a>>>::eq_spec(&u, &a) <==> a@ == u@,
{
}

pub fn is_whitespace(c: Char<'_>) -> (res: bool)
    requires
        c@.len() > 0,
    ensures
        res == spec_is_whitespace(c@[0]),
{
    char_is_whitespace(c.char())
}

pub fn is_newline(c: Char<'_>) -> (res: bool)
    requires
        c@.len() > 0,
    ensures
        res == spec_is_newline(c@[0]),
{
    char_is_newline(c.char())
}

pub fn is_octal_digit(c: Char<'_>) -> (res: bool)
    requires
        c@.len() > 0,
    ensures
        res == spec_is_octal_digit(c@[0]),
{
    let b = c.byte();
    0x30 <= b && b < 0x38
}

pub fn is_decimal_digit(c: Char<'_>) -> (res: bool)
    requires
        c@.len() > 0,
    ensures
        res == spec_is_decimal_digit(c@[0]),
{
    char_is_decimal_digit(c.char())
}

pub fn is_hex_digit(c: Char<'_>) -> (res: bool)
    requires
        c@.len() > 0,
    ensures
        res == spec_is_hex_digit(c@[0]),
{
    char_is_hex_digit(c.char())
}

} // verus!
