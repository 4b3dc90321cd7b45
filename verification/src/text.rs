use vstd::prelude::*;
use vstd::string::*;

verus! {

/// Whether `char::is_alphabetic` holds of `c` (the Unicode Alphabetic property).
pub uninterp spec fn is_alphabetic_char(c: char) -> bool;

/// Whether `char::is_alphanumeric` holds of `c`.
pub uninterp spec fn is_alphanumeric_char(c: char) -> bool;


/// What `str::to_lowercase` gives for a string.
pub uninterp spec fn lowercase(s: Seq<char>) -> Seq<char>;

/// What `{:?}` prints for a `char`.
pub uninterp spec fn char_debug(c: char) -> Seq<char>;

/// What `{:?}` prints for a `str`.
pub uninterp spec fn str_debug(s: Seq<char>) -> Seq<char>;

/// Whether `c` is one of the 128 ASCII characters.
pub open spec fn is_ascii_char(c: char) -> bool {
    (c as u32) < 128
}

/// Whether `c` is an ASCII letter.
pub open spec fn is_ascii_letter(c: char) -> bool {
    ('a' <= c && c <= 'z') || ('A' <= c && c <= 'Z')
}

/// `c` with an ASCII capital turned into its small letter.
pub open spec fn ascii_lower(c: char) -> char {
    if 'A' <= c && c <= 'Z' {
        ((c as u32) + 32) as char
    } else {
        c
    }
}

/// `char::is_alphabetic`: among ASCII characters exactly the letters.
pub open spec fn alphabetic(c: char) -> bool {
    if is_ascii_char(c) {
        is_ascii_letter(c)
    } else {
        is_alphabetic_char(c)
    }
}

/// `char::is_alphanumeric`: among ASCII characters exactly the letters and digits.
pub open spec fn alphanumeric(c: char) -> bool {
    if is_ascii_char(c) {
        is_ascii_letter(c) || ('0' <= c && c <= '9')
    } else {
        is_alphanumeric_char(c)
    }
}

/// `char::is_whitespace`: Unicode's White_Space property, which holds of tab, line
/// feed, vertical tab, form feed, carriage return and space, and of U+0085, U+00A0,
/// U+1680, U+2000 to U+200A, U+2028, U+2029, U+202F, U+205F and U+3000.
pub open spec fn white_space(c: char) -> bool {
    let n = c as u32;
    (0x9 <= n && n <= 0xD) || n == 0x20 || n == 0x85 || n == 0xA0 || n == 0x1680 || (0x2000 <= n
        && n <= 0x200A) || n == 0x2028 || n == 0x2029 || n == 0x202F || n == 0x205F || n == 0x3000
}

/// `str::to_lowercase`: on ASCII text, each capital becomes its small letter.
pub open spec fn lower(s: Seq<char>) -> Seq<char> {
    if forall|i: int| 0 <= i < s.len() ==> is_ascii_char(#[trigger] s[i]) {
        s.map_values(|c: char| ascii_lower(c))
    } else {
        lowercase(s)
    }
}

/// Calls `char::is_alphabetic`; the result is named `is_alphabetic_char`. Unicode's
/// Alphabetic property holds of the 52 ASCII letters and of no other ASCII character:
/// that is stated; of other characters nothing is.
#[verifier::external_body]
pub(crate) fn char_is_alphabetic(c: char) -> (r: bool)
    ensures
        r == is_alphabetic_char(c),
        is_ascii_char(c) ==> (r == is_ascii_letter(c)),
{
    c.is_alphabetic()
}

/// Calls `char::is_alphanumeric`; the result is named `is_alphanumeric_char`.
/// Its documentation defines it as `is_alphabetic() || is_numeric()`, so every
/// alphabetic character is alphanumeric; among ASCII characters it holds of exactly
/// the letters and the digits. Those facts are stated.
#[verifier::external_body]
pub(crate) fn char_is_alphanumeric(c: char) -> (r: bool)
    ensures
        r == is_alphanumeric_char(c),
        is_alphabetic_char(c) ==> r,
        is_ascii_char(c) ==> (r == (is_ascii_letter(c) || ('0' <= c && c <= '9'))),
{
    c.is_alphanumeric()
}

/// Calls `char::is_whitespace`, documented as Unicode's White_Space property (the
/// 25 code points of the Unicode Character Database's PropList.txt, which std's own
/// table holds): the result is stated as `white_space`.
#[verifier::external_body]
pub(crate) fn char_is_whitespace(c: char) -> (r: bool)
    ensures
        r == white_space(c),
{
    c.is_whitespace()
}

/// Calls `str::to_lowercase`; the result is named `lowercase`. On a string of ASCII
/// characters it maps each capital to its small letter and keeps every other
/// character, as its documentation and Unicode's case mapping give: that is stated.
/// Of other strings nothing is, as some characters lower to several.
#[verifier::external_body]
pub(crate) fn to_lowercase(s: &str) -> (r: String)
    ensures
        r@ == lowercase(s@),
        (forall|i: int| 0 <= i < s@.len() ==> is_ascii_char(#[trigger] s@[i])) ==> r@ == s@.map_values(
            |c: char| ascii_lower(c),
        ),
{
    s.to_lowercase()
}

/// Formats a `char` with `{:?}`; the result is named `char_debug`.
#[verifier::external_body]
pub(crate) fn debug_char(c: char) -> (r: String)
    ensures
        r@ == char_debug(c),
{
    format!("{:?}", c)
}

/// Formats a `str` with `{:?}`; the result is named `str_debug`.
#[verifier::external_body]
pub(crate) fn debug_str(s: &str) -> (r: String)
    ensures
        r@ == str_debug(s@),
{
    format!("{:?}", s)
}

/// Calls `String::push`, which appends one character.
#[verifier::external_body]
pub(crate) fn push_char(s: &mut String, c: char)
    ensures
        final(s)@ == old(s)@.push(c),
{
    s.push(c)
}

/// A `String` holding the characters of `s`.
pub(crate) fn text(s: &str) -> (r: String)
    ensures
        r@ == s@,
{
    String::from_str(s)
}

/// Appends `s` to `out`.
pub(crate) fn push_text(out: &mut String, s: &str)
    ensures
        final(out)@ == old(out)@ + s@,
{
    out.append(s);
}

/// The characters of a string, in order.
pub fn chars_of(s: &str) -> (r: Vec<char>)
    ensures
        r@ == s@,
{
    let n = s.unicode_len();
    let mut v: Vec<char> = Vec::new();
    let mut i: usize = 0;
    while i < n
        invariant
            n == s@.len(),
            i <= n,
            v@ == s@.take(i as int),
        decreases n - i,
    {
        let c = s.get_char(i);
        v.push(c);
        i = i + 1;
        assert(v@ == s@.take(i as int));
    }
    assert(s@.take(n as int) == s@);
    v
}

/// A `String` holding the characters `v[from..to]`.
pub fn string_of(v: &Vec<char>, from: usize, to: usize) -> (r: String)
    requires
        from <= to <= v@.len(),
    ensures
        r@ == v@.subrange(from as int, to as int),
{
    let mut s = String::new();
    let mut i = from;
    while i < to
        invariant
            from <= i <= to <= v@.len(),
            s@ == v@.subrange(from as int, i as int),
        decreases to - i,
    {
        push_char(&mut s, v[i]);
        i = i + 1;
        assert(s@ == v@.subrange(from as int, i as int));
    }
    s
}

/// Whether `v[from..]` spells exactly `lit`.
pub fn tail_is(v: &Vec<char>, from: usize, lit: &str) -> (r: bool)
    requires
        from <= v@.len(),
    ensures
        r == (v@.skip(from as int) == lit@),
{
    let n = lit.unicode_len();
    if v.len() - from != n {
        assert(v@.skip(from as int).len() != lit@.len());
        return false;
    }
    let mut i: usize = 0;
    while i < n
        invariant
            n == lit@.len(),
            from + n == v.len(),
            i <= n,
            forall|j: int| 0 <= j < i ==> v@[from + j] == lit@[j],
        decreases n - i,
    {
        if v[from + i] != lit.get_char(i) {
            assert(v@.skip(from as int)[i as int] != lit@[i as int]);
            return false;
        }
        i = i + 1;
    }
    assert(v@.skip(from as int) =~= lit@);
    true
}

/// Whether `s` spells exactly `lit`.
pub fn string_is(s: &String, lit: &str) -> (r: bool)
    ensures
        r == (s@ == lit@),
{
    let v = chars_of(s.as_str());
    let r = tail_is(&v, 0, lit);
    assert(v@.skip(0) == v@);
    r
}

/// The character of a decimal digit.
pub open spec fn digit_char(d: int) -> char {
    if d == 0 {
        '0'
    } else if d == 1 {
        '1'
    } else if d == 2 {
        '2'
    } else if d == 3 {
        '3'
    } else if d == 4 {
        '4'
    } else if d == 5 {
        '5'
    } else if d == 6 {
        '6'
    } else if d == 7 {
        '7'
    } else if d == 8 {
        '8'
    } else {
        '9'
    }
}

/// Whether `c` is one of the ASCII digits `0`..`9`.
pub open spec fn is_digit(c: char) -> bool {
    '0' <= c <= '9'
}

/// The value of an ASCII digit.
pub open spec fn digit_value(c: char) -> int {
    c as int - '0' as int
}

/// The value of a string of ASCII digits read in base ten.
pub open spec fn digits_value(s: Seq<char>) -> nat
    decreases s.len(),
{
    if s.len() == 0 {
        0
    } else {
        (digits_value(s.drop_last()) * 10 + digit_value(s.last())) as nat
    }
}

/// The decimal digits of `n`, without leading zeros (as `{}` prints an integer).
pub open spec fn decimal(n: nat) -> Seq<char>
    decreases n,
{
    if n < 10 {
        seq![digit_char(n as int)]
    } else {
        decimal(n / 10).push(digit_char((n % 10) as int))
    }
}

/// The last `width` decimal digits of `n`, with leading zeros.
pub open spec fn padded(n: nat, width: nat) -> Seq<char>
    decreases width,
{
    if width == 0 {
        seq![]
    } else {
        padded(n / 10, (width - 1) as nat).push(digit_char((n % 10) as int))
    }
}

/// Ten to the power `p`.
pub open spec fn pow10(p: nat) -> nat
    decreases p,
{
    if p == 0 {
        1
    } else {
        10 * pow10((p - 1) as nat)
    }
}

/// `v / 10^places` printed with `places` digits after the point, as `{:.N}` prints it.
pub open spec fn fixed_point(v: nat, places: nat) -> Seq<char> {
    decimal(v / pow10(places)) + seq!['.'] + padded(v % pow10(places), places)
}

fn digit_of(d: u64) -> (c: char)
    requires
        d < 10,
    ensures
        c == digit_char(d as int),
{
    if d == 0 {
        '0'
    } else if d == 1 {
        '1'
    } else if d == 2 {
        '2'
    } else if d == 3 {
        '3'
    } else if d == 4 {
        '4'
    } else if d == 5 {
        '5'
    } else if d == 6 {
        '6'
    } else if d == 7 {
        '7'
    } else if d == 8 {
        '8'
    } else {
        '9'
    }
}

/// Appends the decimal digits of `n`.
pub fn push_decimal(out: &mut String, n: u128)
    ensures
        final(out)@ == old(out)@ + decimal(n as nat),
    decreases n,
{
    if n < 10 {
        push_char(out, digit_of(n as u64));
        assert(old(out)@.push(digit_char(n as int)) == old(out)@ + decimal(n as nat));
    } else {
        push_decimal(out, n / 10);
        push_char(out, digit_of((n % 10) as u64));
        assert(old(out)@ + decimal((n / 10) as nat) + seq![digit_char((n % 10) as int)]
            == old(out)@ + decimal(n as nat));
    }
}

/// Appends the last `width` decimal digits of `n`, with leading zeros.
fn push_padded(out: &mut String, n: u128, width: u32)
    ensures
        final(out)@ == old(out)@ + padded(n as nat, width as nat),
    decreases width,
{
    if width == 0 {
        assert(old(out)@ + padded(n as nat, 0) == old(out)@);
    } else {
        push_padded(out, n / 10, width - 1);
        push_char(out, digit_of((n % 10) as u64));
        assert(old(out)@ + padded((n / 10) as nat, (width - 1) as nat) + seq![
            digit_char((n % 10) as int),
        ] == old(out)@ + padded(n as nat, width as nat));
    }
}

fn pow10_of(p: u32) -> (r: u128)
    requires
        p <= 6,
    ensures
        r == pow10(p as nat),
        r >= 1,
    decreases p,
{
    if p == 0 {
        1
    } else {
        let q = pow10_of(p - 1);
        assert(pow10((p - 1) as nat) <= 100000) by {
            reveal_with_fuel(pow10, 7);
        }
        10 * q
    }
}

/// Appends `v / 10^places` with `places` digits after the point.
pub fn push_fixed(out: &mut String, v: u128, places: u32)
    requires
        1 <= places <= 6,
    ensures
        final(out)@ == old(out)@ + fixed_point(v as nat, places as nat),
{
    let p = pow10_of(places);
    push_decimal(out, v / p);
    push_char(out, '.');
    push_padded(out, v % p, places);
    assert(old(out)@ + decimal((v / p) as nat) + seq!['.'] + padded((v % p) as nat, places as nat)
        == old(out)@ + fixed_point(v as nat, places as nat));
}

} // verus!
