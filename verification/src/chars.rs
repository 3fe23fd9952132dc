//! Character classes and small string builders shared by the text modules.

use vstd::prelude::*;

verus! {

/// The Unicode `White_Space` property, as `char::is_whitespace` defines it.
pub open spec fn spec_is_whitespace(c: char) -> bool {
    let u = c as u32;
    ||| 0x9 <= u <= 0xd
    ||| u == 0x20
    ||| u == 0x85
    ||| u == 0xa0
    ||| u == 0x1680
    ||| 0x2000 <= u <= 0x200a
    ||| u == 0x2028
    ||| u == 0x2029
    ||| u == 0x202f
    ||| u == 0x205f
    ||| u == 0x3000
}

/// The ASCII punctuation characters, as `char::is_ascii_punctuation` defines them.
pub open spec fn spec_is_ascii_punctuation(c: char) -> bool {
    let u = c as u32;
    ||| 0x21 <= u <= 0x2f
    ||| 0x3a <= u <= 0x40
    ||| 0x5b <= u <= 0x60
    ||| 0x7b <= u <= 0x7e
}

/// The ASCII decimal digits.
pub open spec fn spec_is_ascii_digit(c: char) -> bool {
    '0' <= c <= '9'
}

/// Whether every character of the text is white space (true of the empty text).
pub open spec fn spec_all_whitespace(s: Seq<char>) -> bool {
    forall|i: int| 0 <= i < s.len() ==> spec_is_whitespace(#[trigger] s[i])
}

/// Whether every character of the text is ASCII punctuation (true of the empty text).
pub open spec fn spec_all_punctuation(s: Seq<char>) -> bool {
    forall|i: int| 0 <= i < s.len() ==> spec_is_ascii_punctuation(#[trigger] s[i])
}

pub fn is_whitespace_char(c: char) -> (r: bool)
    ensures
        r == spec_is_whitespace(c),
{
    let u = c as u32;
    (0x9 <= u && u <= 0xd) || u == 0x20 || u == 0x85 || u == 0xa0 || u == 0x1680 || (0x2000
        <= u && u <= 0x200a) || u == 0x2028 || u == 0x2029 || u == 0x202f || u == 0x205f || u
        == 0x3000
}

pub fn is_ascii_punctuation_char(c: char) -> (r: bool)
    ensures
        r == spec_is_ascii_punctuation(c),
{
    let u = c as u32;
    (0x21 <= u && u <= 0x2f) || (0x3a <= u && u <= 0x40) || (0x5b <= u && u <= 0x60) || (0x7b
        <= u && u <= 0x7e)
}

pub fn is_ascii_digit_char(c: char) -> (r: bool)
    ensures
        r == spec_is_ascii_digit(c),
{
    '0' <= c && c <= '9'
}

/// Appends one character to a `String` (`String::push`).
#[verifier::external_body]
pub(crate) fn push_char(s: &mut String, c: char)
    ensures
        final(s)@ == old(s)@.push(c),
{
    s.push(c);
}

/// The characters of a text, in order.
pub fn chars_of(s: &str) -> (r: Vec<char>)
    ensures
        r@ == s@,
{
    let mut r: Vec<char> = Vec::new();
    for c in it: s.chars()
        invariant
            r@ == it.seq().take(it.index() as int),
            it.seq() == s@,
    {
        r.push(c);
    }
    r
}

/// A text made of the characters `v[from..till]`.
pub fn string_of_range(v: &Vec<char>, from: usize, till: usize) -> (r: String)
    requires
        from <= till <= v.len(),
    ensures
        r@ == v@.subrange(from as int, till as int),
{
    let mut r = String::new();
    let mut i = from;
    while i < till
        invariant
            from <= i <= till <= v.len(),
            r@ == v@.subrange(from as int, i as int),
        decreases till - i,
    {
        push_char(&mut r, v[i]);
        assert(v@.subrange(from as int, i + 1) == v@.subrange(from as int, i as int).push(v@[i as int]));
        i = i + 1;
    }
    r
}

/// A text made of all the given characters.
pub fn string_of(v: &Vec<char>) -> (r: String)
    ensures
        r@ == v@,
{
    let r = string_of_range(v, 0, v.len());
    assert(v@.subrange(0, v@.len() as int) == v@);
    r
}

/// A copy of a text slice as an owned `String`.
pub fn string_from(s: &str) -> (r: String)
    ensures
        r@ == s@,
{
    s.to_owned()
}

/// Whether two texts are equal, compared character by character.
pub fn str_equals(a: &str, b: &str) -> (r: bool)
    ensures
        r == (a@ == b@),
{
    let va = chars_of(a);
    let vb = chars_of(b);
    if va.len() != vb.len() {
        return false;
    }
    let mut i: usize = 0;
    while i < va.len()
        invariant
            va@ == a@,
            vb@ == b@,
            va.len() == vb.len(),
            i <= va.len(),
            forall|j: int| 0 <= j < i ==> va@[j] == vb@[j],
        decreases va.len() - i,
    {
        if va[i] != vb[i] {
            return false;
        }
        i = i + 1;
    }
    assert(va@ =~= vb@);
    true
}

/// Whether a text starts with another, compared character by character.
pub fn str_starts_with(text: &str, prefix: &str) -> (r: bool)
    ensures
        r == prefix@.is_prefix_of(text@),
{
    let vt = chars_of(text);
    let vp = chars_of(prefix);
    if vp.len() > vt.len() {
        return false;
    }
    let mut i: usize = 0;
    while i < vp.len()
        invariant
            vt@ == text@,
            vp@ == prefix@,
            vp.len() <= vt.len(),
            i <= vp.len(),
            forall|j: int| 0 <= j < i ==> vt@[j] == vp@[j],
        decreases vp.len() - i,
    {
        if vt[i] != vp[i] {
            return false;
        }
        i = i + 1;
    }
    assert(vp@ =~= vt@.subrange(0, vp@.len() as int));
    true
}

/// Whether a text ends with another, compared character by character.
pub fn str_ends_with(text: &str, suffix: &str) -> (r: bool)
    ensures
        r == suffix@.is_suffix_of(text@),
{
    let vt = chars_of(text);
    let vs = chars_of(suffix);
    if vs.len() > vt.len() {
        return false;
    }
    let off = vt.len() - vs.len();
    let mut i: usize = 0;
    while i < vs.len()
        invariant
            vt@ == text@,
            vs@ == suffix@,
            off + vs.len() == vt.len(),
            i <= vs.len(),
            forall|j: int| 0 <= j < i ==> vt@[off + j] == vs@[j],
        decreases vs.len() - i,
    {
        if vt[off + i] != vs[i] {
            return false;
        }
        i = i + 1;
    }
    assert(vs@ =~= vt@.subrange(off as int, vt@.len() as int));
    true
}

/// The lowercase form of a text (`str::to_lowercase`).
pub uninterp spec fn text_lowercase(s: Seq<char>) -> Seq<char>;

/// The uppercase form of a text (`str::to_uppercase`).
pub uninterp spec fn text_uppercase(s: Seq<char>) -> Seq<char>;

/// The lowercase form of a text, from `str::to_lowercase`; the contract names
/// the result and claims nothing more of it.
#[verifier::external_body]
pub(crate) fn str_to_lowercase(s: &str) -> (r: String)
    ensures
        r@ == text_lowercase(s@),
{
    s.to_lowercase()
}

/// The uppercase form of a text, from `str::to_uppercase`; the contract names
/// the result and claims nothing more of it.
#[verifier::external_body]
pub(crate) fn str_to_uppercase(s: &str) -> (r: String)
    ensures
        r@ == text_uppercase(s@),
{
    s.to_uppercase()
}

/// The lowercase mapping of a character (`char::to_lowercase`), which may be
/// several characters long.
pub uninterp spec fn char_lowercase(c: char) -> Seq<char>;

/// The lowercase form of a character, from `char::to_lowercase`; the contract
/// names the result and claims nothing more of it.
#[verifier::external_body]
pub(crate) fn char_to_lowercase(c: char) -> (r: String)
    ensures
        r@ == char_lowercase(c),
{
    c.to_lowercase().collect::<String>()
}

/// Whether a character is numeric (`char::is_numeric`: one of the Unicode
/// general categories for numbers).
pub uninterp spec fn char_numeric(c: char) -> bool;

/// Whether a character is numeric, from `char::is_numeric`. The contract
/// names the result and states what the documentation of the general
/// categories for numbers gives of ASCII: the digits `0` to `9` (category Nd)
/// are numeric, and the punctuation `[`, `,` and `]` is not.
#[verifier::external_body]
pub(crate) fn is_numeric_char(c: char) -> (r: bool)
    ensures
        r == char_numeric(c),
        '0' <= c <= '9' ==> r,
        c == '[' || c == ',' || c == ']' ==> !r,
{
    c.is_numeric()
}

/// The decimal digit of a number below ten.
pub open spec fn digit(d: nat) -> char {
    if d == 0 { '0' } else if d == 1 { '1' } else if d == 2 { '2' } else if d == 3 { '3' } else if d == 4 {
        '4'
    } else if d == 5 { '5' } else if d == 6 { '6' } else if d == 7 { '7' } else if d == 8 { '8' } else {
        '9'
    }
}

/// The decimal writing of a number, without leading zeros.
pub open spec fn decimal(n: nat) -> Seq<char>
    decreases n,
{
    if n < 10 {
        seq![digit(n)]
    } else {
        decimal(n / 10).push(digit(n % 10))
    }
}

fn digit_char(d: usize) -> (r: char)
    requires
        d < 10,
    ensures
        r == digit(d as nat),
{
    if d == 0 { '0' } else if d == 1 { '1' } else if d == 2 { '2' } else if d == 3 { '3' } else if d == 4 {
        '4'
    } else if d == 5 { '5' } else if d == 6 { '6' } else if d == 7 { '7' } else if d == 8 { '8' } else {
        '9'
    }
}

/// The decimal writing of a number.
pub fn decimal_text(n: usize) -> (r: String)
    ensures
        r@ == decimal(n as nat),
{
    let mut digits: Vec<char> = Vec::new();
    let mut m = n;
    loop
        invariant
            m <= n,
            decimal(n as nat) == decimal(m as nat) + digits@,
        decreases m,
    {
        let d = digit_char(m % 10);
        let ghost before = digits@;
        digits.insert(0, d);
        if m < 10 {
            assert(digits@ =~= seq![d] + before);
            assert(decimal(n as nat) =~= digits@);
            return string_of(&digits);
        }
        assert(decimal(m as nat) == decimal((m / 10) as nat).push(digit((m % 10) as nat)));
        assert(decimal((m / 10) as nat) + digits@ =~= decimal((m / 10) as nat).push(d) + before);
        m = m / 10;
    }
}

} // verus!
