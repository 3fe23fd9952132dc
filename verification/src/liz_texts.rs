//! Small operations on texts.

use vstd::prelude::*;

use crate::liz_forms::texts_of;
use crate::chars::{
    char_lowercase, char_to_lowercase, chars_of, is_ascii_punctuation_char, is_whitespace_char,
    push_char, spec_all_punctuation, spec_all_whitespace, spec_is_whitespace, str_ends_with,
    str_equals, str_starts_with, str_to_lowercase, str_to_uppercase, string_from, string_of_range,
    text_lowercase, text_uppercase, char_numeric, decimal, decimal_text, is_numeric_char,
};

verus! {

/// The characters of a text that are not white space, in order.
pub open spec fn solid(s: Seq<char>) -> Seq<char>
    decreases s.len(),
{
    if s.len() == 0 {
        s
    } else if spec_is_whitespace(s.last()) {
        solid(s.drop_last())
    } else {
        solid(s.drop_last()).push(s.last())
    }
}

/// Whether a text is "likely" another: leaving white space out and comparing
/// lowercase forms, each character of the first matches the character of the
/// second at the same place (the second may go on longer).
pub open spec fn spec_likely(text: Seq<char>, with: Seq<char>) -> bool {
    let a = solid(text);
    let b = solid(with);
    &&& a.len() <= b.len()
    &&& forall|i: int| 0 <= i < a.len() ==> char_lowercase(#[trigger] a[i]) == char_lowercase(b[i])
}

proof fn lemma_solid_step(s: Seq<char>, n: int)
    requires
        0 <= n < s.len(),
    ensures
        solid(s.take(n + 1)) == if spec_is_whitespace(s[n]) {
            solid(s.take(n))
        } else {
            solid(s.take(n)).push(s[n])
        },
{
    assert(s.take(n + 1).drop_last() =~= s.take(n));
}

proof fn lemma_solid_add(a: Seq<char>, b: Seq<char>)
    ensures
        solid(a + b) == solid(a) + solid(b),
    decreases b.len(),
{
    if b.len() == 0 {
        assert(a + b =~= a);
        assert(solid(b) =~= Seq::<char>::empty());
        assert(solid(a) + solid(b) =~= solid(a));
    } else {
        assert((a + b).drop_last() =~= a + b.drop_last());
        lemma_solid_add(a, b.drop_last());
        if spec_is_whitespace(b.last()) {
        } else {
            assert(solid(a) + solid(b.drop_last()).push(b.last()) =~= (solid(a) + solid(
                b.drop_last(),
            )).push(b.last()));
        }
    }
}

proof fn lemma_solid_prefix(s: Seq<char>, n: int)
    requires
        0 <= n <= s.len(),
    ensures
        solid(s.take(n)).len() <= solid(s).len(),
        forall|k: int| 0 <= k < solid(s.take(n)).len() ==> solid(s.take(n))[k] == #[trigger] solid(s)[k],
{
    assert(s =~= s.take(n) + s.skip(n));
    lemma_solid_add(s.take(n), s.skip(n));
}

/// Whether two texts are equal.
pub fn is_equals(text: &str, with: &str) -> (r: bool)
    ensures
        r == (text@ == with@),
{
    str_equals(text, with)
}

/// Whether a text is likely another (see `spec_likely`).
pub fn is_likely(text: &str, with: &str) -> (r: bool)
    ensures
        r == spec_likely(text@, with@),
{
    let a = chars_of(text);
    let b = chars_of(with);
    let ghost sa = a@;
    let ghost sb = b@;
    let mut i: usize = 0;
    let mut j: usize = 0;
    while i < a.len()
        invariant
            a@ == sa,
            b@ == sb,
            sa == text@,
            sb == with@,
            i <= sa.len(),
            j <= sb.len(),
            solid(sa.take(i as int)).len() == solid(sb.take(j as int)).len(),
            forall|k: int|
                0 <= k < solid(sa.take(i as int)).len() ==> char_lowercase(
                    #[trigger] solid(sa.take(i as int))[k],
                ) == char_lowercase(solid(sb.take(j as int))[k]),
        decreases sa.len() - i,
    {
        proof {
            lemma_solid_step(sa, i as int);
        }
        if !is_whitespace_char(a[i]) {
            let test_a = char_to_lowercase(a[i]);
            let mut checked = false;
            // Skip white space in the other text, then compare one character.
            let ghost j0 = j;
            while j < b.len()
                invariant_except_break
                    !checked,
                    solid(sb.take(j as int)) == solid(sb.take(j0 as int)),
                invariant
                    b@ == sb,
                    j0 <= j <= sb.len(),
                    i < sa.len(),
                    test_a@ == char_lowercase(sa[i as int]),
                ensures
                    checked ==> {
                        &&& j0 < j
                        &&& solid(sb.take(j as int)) == solid(sb.take(j0 as int)).push(sb[j - 1])
                        &&& char_lowercase(sb[j - 1]) == char_lowercase(sa[i as int])
                    },
                    !checked ==> {
                        ||| (j == sb.len() && solid(sb.take(j as int)) == solid(sb.take(j0 as int)))
                        ||| (j0 < j && solid(sb.take(j as int)) == solid(sb.take(j0 as int)).push(
                            sb[j - 1],
                        ) && char_lowercase(sb[j - 1]) != char_lowercase(sa[i as int]))
                    },
                decreases sb.len() - j,
            {
                proof {
                    lemma_solid_step(sb, j as int);
                }
                let item_b = b[j];
                j = j + 1;
                if !is_whitespace_char(item_b) {
                    let test_b = char_to_lowercase(item_b);
                    checked = str_equals(test_a.as_str(), test_b.as_str());
                    break;
                }
            }
            if !checked {
                proof {
                    let k = solid(sa.take(i as int)).len() as int;
                    lemma_solid_prefix(sa, i + 1);
                    lemma_solid_prefix(sb, j as int);
                    if j == sb.len() && solid(sb.take(j as int)) == solid(sb.take(j0 as int)) {
                        assert(sb.take(j as int) =~= sb);
                        assert(solid(sa.take(i + 1)).len() == k + 1);
                        assert(solid(sa).len() > solid(sb).len());
                    } else {
                        assert(solid(sa.take(i + 1))[k] == sa[i as int]);
                        assert(solid(sb.take(j as int))[k] == sb[j - 1]);
                        if solid(sa).len() <= solid(sb).len() {
                            assert(char_lowercase(solid(sa)[k]) != char_lowercase(solid(sb)[k]));
                        }
                    }
                }
                return false;
            }
            proof {
                let k = solid(sa.take(i as int)).len() as int;
                assert forall|m: int|
                    0 <= m < solid(sa.take(i + 1)).len() implies char_lowercase(
                    #[trigger] solid(sa.take(i + 1))[m],
                ) == char_lowercase(solid(sb.take(j as int))[m]) by {
                    if m < k {
                        assert(solid(sa.take(i + 1))[m] == solid(sa.take(i as int))[m]);
                        assert(solid(sb.take(j as int))[m] == solid(sb.take(j0 as int))[m]);
                    }
                }
            }
        }
        i = i + 1;
    }
    proof {
        assert(sa.take(i as int) =~= sa);
        lemma_solid_prefix(sb, j as int);
        assert forall|k: int| 0 <= k < solid(sa).len() implies char_lowercase(
            #[trigger] solid(sa)[k],
        ) == char_lowercase(solid(sb)[k]) by {
            assert(solid(sb.take(j as int))[k] == solid(sb)[k]);
        }
    }
    true
}

/// Whether every character of a text is white space (true of the empty text).
pub fn is_whitespace(text: &str) -> (r: bool)
    ensures
        r == spec_all_whitespace(text@),
{
    let v = chars_of(text);
    let mut i: usize = 0;
    while i < v.len()
        invariant
            v@ == text@,
            i <= v@.len(),
            forall|k: int| 0 <= k < i ==> spec_is_whitespace(#[trigger] v@[k]),
        decreases v@.len() - i,
    {
        if !is_whitespace_char(v[i]) {
            return false;
        }
        i = i + 1;
    }
    true
}

/// Whether every character of a text is ASCII punctuation (true of the empty text).
pub fn is_punctuation(text: &str) -> (r: bool)
    ensures
        r == spec_all_punctuation(text@),
{
    let v = chars_of(text);
    let mut i: usize = 0;
    while i < v.len()
        invariant
            v@ == text@,
            i <= v@.len(),
            forall|k: int|
                0 <= k < i ==> crate::chars::spec_is_ascii_punctuation(#[trigger] v@[k]),
        decreases v@.len() - i,
    {
        if !is_ascii_punctuation_char(v[i]) {
            return false;
        }
        i = i + 1;
    }
    true
}

/// The number of bytes of the UTF-8 encoding of a text.
pub fn len(text: &str) -> (r: usize)
    requires
        vstd::utf8::encode_utf8(text@).len() <= usize::MAX,
    ensures
        r == vstd::utf8::encode_utf8(text@).len(),
{
    text.len()
}

/// A text without the characters at the places `start..end`, where `start` is
/// first brought down to the byte length of the text and `end` up to `start`.
pub open spec fn spec_del(s: Seq<char>, start: int, end: int, bytes: int) -> Seq<char> {
    let from = if start > bytes {
        bytes
    } else {
        start
    };
    let till = if end < from {
        from
    } else {
        end
    };
    let a = if from > s.len() {
        s.len() as int
    } else {
        from
    };
    let b = if till > s.len() {
        s.len() as int
    } else {
        till
    };
    s.take(a) + s.skip(b)
}

/// Removes the characters at the places `start..end` (see `spec_del`).
pub fn del(text: &str, start: usize, end: usize) -> (r: String)
    requires
        vstd::utf8::encode_utf8(text@).len() <= usize::MAX,
    ensures
        r@ == spec_del(text@, start as int, end as int, vstd::utf8::encode_utf8(text@).len() as int),
{
    let mut start = start;
    let mut end = end;
    if start > text.len() {
        start = text.len();
    }
    if end < start {
        end = start;
    }
    let v = chars_of(text);
    let ghost a = if start > v@.len() {
        v@.len() as int
    } else {
        start as int
    };
    let ghost b = if end > v@.len() {
        v@.len() as int
    } else {
        end as int
    };
    let mut result = String::new();
    let mut i: usize = 0;
    while i < v.len()
        invariant
            v@ == text@,
            i <= v@.len(),
            start <= end,
            a == if start > v@.len() {
                v@.len() as int
            } else {
                start as int
            },
            b == if end > v@.len() {
                v@.len() as int
            } else {
                end as int
            },
            result@ == v@.take(i as int).take(if a < i { a } else { i as int }) + v@.take(i as int).skip(
                if b < i {
                    b
                } else {
                    i as int
                },
            ),
        decreases v@.len() - i,
    {
        let ghost before = result@;
        if i < start || i >= end {
            push_char(&mut result, v[i]);
        }
        proof {
            let t = v@.take(i + 1);
            let u = v@.take(i as int);
            assert(t.drop_last() =~= u);
            if i < start {
                assert(t.take(if a < i + 1 { a } else { i + 1 }) =~= u.take(if a < i { a } else { i as int }).push(v@[i as int]));
                assert(t.skip(if b < i + 1 { b } else { i + 1 }) =~= Seq::<char>::empty());
                assert(u.skip(if b < i { b } else { i as int }) =~= Seq::<char>::empty());
            } else if i >= end {
                assert(t.take(if a < i + 1 { a } else { i + 1 }) =~= u.take(if a < i { a } else { i as int }));
                assert(t.skip(if b < i + 1 { b } else { i + 1 }) =~= u.skip(if b < i { b } else { i as int }).push(v@[i as int]));
            } else {
                assert(t.take(if a < i + 1 { a } else { i + 1 }) =~= u.take(if a < i { a } else { i as int }));
                assert(t.skip(if b < i + 1 { b } else { i + 1 }) =~= Seq::<char>::empty());
                assert(u.skip(if b < i { b } else { i as int }) =~= Seq::<char>::empty());
            }
            assert(result@ =~= t.take(if a < i + 1 { a } else { i + 1 }) + t.skip(if b < i + 1 { b } else { i + 1 }));
        }
        i = i + 1;
    }
    assert(v@.take(i as int) =~= v@);
    result
}

/// A text without its leading white space.
pub open spec fn trim_start(s: Seq<char>) -> Seq<char>
    decreases s.len(),
{
    if s.len() > 0 && spec_is_whitespace(s[0]) {
        trim_start(s.drop_first())
    } else {
        s
    }
}

/// A text without its trailing white space.
pub open spec fn trim_end(s: Seq<char>) -> Seq<char>
    decreases s.len(),
{
    if s.len() > 0 && spec_is_whitespace(s.last()) {
        trim_end(s.drop_last())
    } else {
        s
    }
}

/// A text without its leading and trailing white space (`str::trim`).
pub open spec fn spec_trim(s: Seq<char>) -> Seq<char> {
    trim_end(trim_start(s))
}

/// A text without its leading and trailing white space.
pub fn trim(text: &str) -> (r: String)
    ensures
        r@ == spec_trim(text@),
{
    let v = chars_of(text);
    let n = v.len();
    let mut i: usize = 0;
    assert(v@.skip(0) =~= v@);
    while i < n && is_whitespace_char(v[i])
        invariant
            v@ == text@,
            n == v@.len(),
            i <= n,
            trim_start(v@) == trim_start(v@.skip(i as int)),
        decreases n - i,
    {
        assert(v@.skip(i as int).drop_first() =~= v@.skip(i + 1));
        i = i + 1;
    }
    assert(trim_start(v@.skip(i as int)) == v@.skip(i as int)) by {
        if i < n {
            assert(v@.skip(i as int)[0] == v@[i as int]);
        }
    }
    let mut j: usize = n;
    assert(v@.skip(i as int) =~= v@.subrange(i as int, j as int));
    while j > i && is_whitespace_char(v[j - 1])
        invariant
            v@ == text@,
            n == v@.len(),
            i <= j <= n,
            trim_start(v@) == v@.subrange(i as int, n as int),
            trim_end(v@.subrange(i as int, n as int)) == trim_end(v@.subrange(i as int, j as int)),
        decreases j,
    {
        assert(v@.subrange(i as int, j as int).drop_last() =~= v@.subrange(i as int, j - 1));
        j = j - 1;
    }
    assert(trim_end(v@.subrange(i as int, j as int)) == v@.subrange(i as int, j as int)) by {
        if j > i {
            assert(v@.subrange(i as int, j as int).last() == v@[j - 1]);
        }
    }
    string_of_range(&v, i, j)
}

/// A text without its leading and trailing white space.
pub fn text_trim(text: &str) -> (r: String)
    ensures
        r@ == spec_trim(text@),
{
    trim(text)
}

/// Whether a text has no character.
pub fn is_empty(text: &str) -> (r: bool)
    ensures
        r == (text@.len() == 0),
{
    text.is_empty()
}

/// Whether every character of a text is ASCII.
pub fn is_ascii(text: &str) -> (r: bool)
    ensures
        r == forall|i: int| 0 <= i < text@.len() ==> (#[trigger] text@[i] as u32) < 0x80,
{
    let v = chars_of(text);
    let mut i: usize = 0;
    while i < v.len()
        invariant
            v@ == text@,
            i <= v@.len(),
            forall|k: int| 0 <= k < i ==> (#[trigger] v@[k] as u32) < 0x80,
        decreases v@.len() - i,
    {
        if (v[i] as u32) >= 0x80 {
            return false;
        }
        i = i + 1;
    }
    true
}

/// The lowercase form of a text.
pub fn tolower(text: &str) -> (r: String)
    ensures
        r@ == text_lowercase(text@),
{
    str_to_lowercase(text)
}

/// The uppercase form of a text.
pub fn toupper(text: &str) -> (r: String)
    ensures
        r@ == text_uppercase(text@),
{
    str_to_uppercase(text)
}

/// A text with its first character in uppercase and the rest in lowercase.
pub open spec fn spec_tocapital(s: Seq<char>) -> Seq<char> {
    if s.len() == 0 {
        Seq::empty()
    } else if s.len() == 1 {
        text_uppercase(s.take(1))
    } else {
        text_uppercase(s.take(1)) + text_lowercase(s.skip(1))
    }
}

/// A text with its first character in uppercase and the rest in lowercase.
/// The first character is taken as the first byte, so it must be ASCII.
pub fn tocapital(text: &str) -> (r: String)
    requires
        text@.len() == 0 || (text@[0] as u32) < 0x80,
    ensures
        r@ == spec_tocapital(text@),
{
    if text.is_empty() {
        return String::new();
    }
    let n = text.unicode_len();
    let mut result = str_to_uppercase(text.substring_char(0, 1));
    if n > 1 {
        let rest = str_to_lowercase(text.substring_char(1, n));
        result.append(rest.as_str());
    }
    result
}

/// Whether a text starts with another.
pub fn starts_with(text: &str, prefix: &str) -> (r: bool)
    ensures
        r == prefix@.is_prefix_of(text@),
{
    str_starts_with(text, prefix)
}

/// Whether a text ends with another.
pub fn ends_with(text: &str, suffix: &str) -> (r: bool)
    ensures
        r == suffix@.is_suffix_of(text@),
{
    str_ends_with(text, suffix)
}

/// Whether an answer says yes: its lowercase form is `t`, `true`, `y` or `yes`
/// (a line read with its line break says no).
pub open spec fn spec_says_yes(answer: Seq<char>) -> bool {
    let l = text_lowercase(answer);
    l == "t"@ || l == "true"@ || l == "y"@ || l == "yes"@
}

/// Law: an answer says yes exactly when, in lowercase, it is one of the
/// words `t`, `true`, `y` and `yes`; two answers with the same lowercase
/// form say the same.
pub proof fn law_says_yes_words(answer: Seq<char>)
    ensures
        spec_says_yes(answer) <==> (text_lowercase(answer) == seq!['t'] || text_lowercase(answer) == seq![
            't',
            'r',
            'u',
            'e',
        ] || text_lowercase(answer) == seq!['y'] || text_lowercase(answer) == seq!['y', 'e', 's']),
        forall|other: Seq<char>|
            text_lowercase(other) == text_lowercase(answer) ==> spec_says_yes(other) == spec_says_yes(
                answer,
            ),
{
    reveal_strlit("t");
    reveal_strlit("true");
    reveal_strlit("y");
    reveal_strlit("yes");
    assert("t"@ =~= seq!['t']);
    assert("true"@ =~= seq!['t', 'r', 'u', 'e']);
    assert("y"@ =~= seq!['y']);
    assert("yes"@ =~= seq!['y', 'e', 's']);
}

/// Whether the answer that the user gave to a question says yes (see
/// `spec_says_yes`); the question is asked and the answer read by the caller.
pub fn ask_bool(answer: &str) -> (r: bool)
    ensures
        r == spec_says_yes(answer@),
        r <==> (text_lowercase(answer@) == seq!['t'] || text_lowercase(answer@) == seq!['t', 'r', 'u', 'e']
            || text_lowercase(answer@) == seq!['y'] || text_lowercase(answer@) == seq!['y', 'e', 's']),
{
    proof {
        law_says_yes_words(answer@);
    }
    let l = str_to_lowercase(answer);
    str_equals(l.as_str(), "t") || str_equals(l.as_str(), "true") || str_equals(l.as_str(), "y")
        || str_equals(l.as_str(), "yes")
}

/// Whether a text holds a part at the place `k`.
pub open spec fn occurs_at(s: Seq<char>, p: Seq<char>, k: int) -> bool {
    0 <= k && k + p.len() <= s.len() && s.subrange(k, k + p.len()) == p
}

/// The first place at or after `k` where a text holds a part, or -1.
pub open spec fn first_from(s: Seq<char>, p: Seq<char>, k: int) -> int
    decreases s.len() + 1 - k,
{
    if k < 0 || k + p.len() > s.len() {
        -1
    } else if occurs_at(s, p, k) {
        k
    } else {
        first_from(s, p, k + 1)
    }
}

/// The last place at or before `k` where a text holds a part, or -1.
pub open spec fn last_from(s: Seq<char>, p: Seq<char>, k: int) -> int
    decreases k + 1,
{
    if k < 0 {
        -1
    } else if occurs_at(s, p, k) {
        k
    } else {
        last_from(s, p, k - 1)
    }
}

/// The first place where a text holds a part, or -1.
pub open spec fn first_occurrence(s: Seq<char>, p: Seq<char>) -> int {
    first_from(s, p, 0)
}

/// The last place where a text holds a part, or -1.
pub open spec fn last_occurrence(s: Seq<char>, p: Seq<char>) -> int {
    last_from(s, p, s.len() - p.len())
}

pub proof fn lemma_first_from(s: Seq<char>, p: Seq<char>, k: int)
    requires
        0 <= k,
    ensures
        first_from(s, p, k) == -1 ==> forall|j: int| k <= j ==> !occurs_at(s, p, j),
        first_from(s, p, k) >= 0 ==> {
            &&& k <= first_from(s, p, k)
            &&& occurs_at(s, p, first_from(s, p, k))
            &&& forall|j: int| k <= j < first_from(s, p, k) ==> !occurs_at(s, p, j)
        },
        first_from(s, p, k) >= -1,
    decreases s.len() + 1 - k,
{
    if k + p.len() <= s.len() && !occurs_at(s, p, k) {
        lemma_first_from(s, p, k + 1);
    }
}

pub proof fn lemma_last_from(s: Seq<char>, p: Seq<char>, k: int)
    requires
        k + p.len() <= s.len(),
    ensures
        last_from(s, p, k) == -1 ==> forall|j: int| j <= k ==> !occurs_at(s, p, j),
        last_from(s, p, k) >= 0 ==> {
            &&& last_from(s, p, k) <= k
            &&& occurs_at(s, p, last_from(s, p, k))
            &&& forall|j: int| last_from(s, p, k) < j <= k ==> !occurs_at(s, p, j)
        },
        last_from(s, p, k) >= -1,
    decreases k + 1,
{
    if k >= 0 && !occurs_at(s, p, k) {
        lemma_last_from(s, p, k - 1);
    }
}

/// A search that has seen no occurrence before `m` goes on from `m`.
pub proof fn lemma_first_from_skip(s: Seq<char>, p: Seq<char>, k: int, m: int)
    requires
        0 <= k <= m,
        forall|j: int| k <= j < m ==> !occurs_at(s, p, j),
    ensures
        first_from(s, p, k) == first_from(s, p, m),
    decreases m - k,
{
    if k < m {
        if k + p.len() > s.len() {
            lemma_first_from(s, p, m);
            if first_from(s, p, m) >= 0 {
                assert(occurs_at(s, p, first_from(s, p, m)));
            }
        } else {
            lemma_first_from_skip(s, p, k + 1, m);
        }
    }
}

/// The UTF-8 encoding of joined texts is the joined encodings.
pub proof fn lemma_encode_utf8_add(a: Seq<char>, b: Seq<char>)
    ensures
        vstd::utf8::encode_utf8(a + b) == vstd::utf8::encode_utf8(a) + vstd::utf8::encode_utf8(b),
    decreases a.len(),
{
    if a.len() == 0 {
        assert(a + b =~= b);
        assert(vstd::utf8::encode_utf8(a) =~= Seq::<u8>::empty());
        assert(vstd::utf8::encode_utf8(a) + vstd::utf8::encode_utf8(b) =~= vstd::utf8::encode_utf8(b));
    } else {
        lemma_encode_utf8_add(a.drop_first(), b);
        assert((a + b).drop_first() =~= a.drop_first() + b);
        assert((a + b)[0] == a[0]);
        assert(vstd::utf8::encode_utf8(a + b) =~= vstd::utf8::encode_utf8(a) + vstd::utf8::encode_utf8(b));
    }
}

/// Whether a text holds a part at the place `k`.
fn matches_at(v: &Vec<char>, p: &Vec<char>, k: usize) -> (r: bool)
    requires
        k + p@.len() <= v@.len(),
    ensures
        r == occurs_at(v@, p@, k as int),
{
    let n = v.len();
    let mut j: usize = 0;
    while j < p.len()
        invariant
            n == v@.len(),
            k + p@.len() <= v@.len(),
            j <= p@.len(),
            forall|m: int| 0 <= m < j ==> v@[k + m] == p@[m],
        decreases p@.len() - j,
    {
        if v[k + j] != p[j] {
            assert(v@.subrange(k as int, k + p@.len())[j as int] != p@[j as int]);
            return false;
        }
        j = j + 1;
    }
    assert(v@.subrange(k as int, k + p@.len()) =~= p@);
    true
}

/// The first place where a text holds a part, as a character index.
fn first_index(v: &Vec<char>, p: &Vec<char>) -> (r: Option<usize>)
    ensures
        match r {
            Some(k) => k == first_occurrence(v@, p@),
            None => first_occurrence(v@, p@) == -1,
        },
{
    proof {
        lemma_first_from(v@, p@, 0);
    }
    if p.len() > v.len() {
        return None;
    }
    let last = v.len() - p.len();
    let mut k: usize = 0;
    while k <= last
        invariant
            p@.len() <= v@.len(),
            last == v@.len() - p@.len(),
            k <= last + 1,
            first_occurrence(v@, p@) == first_from(v@, p@, k as int),
        decreases last + 1 - k,
    {
        if matches_at(v, p, k) {
            return Some(k);
        }
        if k == last {
            assert(first_from(v@, p@, k + 1) == -1);
            return None;
        }
        k = k + 1;
    }
    None
}

/// The last place where a text holds a part, as a character index.
fn last_index(v: &Vec<char>, p: &Vec<char>) -> (r: Option<usize>)
    ensures
        match r {
            Some(k) => k == last_occurrence(v@, p@),
            None => last_occurrence(v@, p@) == -1,
        },
{
    if p.len() > v.len() {
        return None;
    }
    let mut k: usize = v.len() - p.len();
    loop
        invariant
            p@.len() <= v@.len(),
            k + p@.len() <= v@.len(),
            last_occurrence(v@, p@) == last_from(v@, p@, k as int),
        decreases k,
    {
        if matches_at(v, p, k) {
            return Some(k);
        }
        if k == 0 {
            assert(last_from(v@, p@, -1) == -1);
            return None;
        }
        k = k - 1;
    }
}

/// The character place of the first occurrence of a part in a text.
pub(crate) fn find_index(text: &str, part: &str) -> (r: Option<usize>)
    ensures
        match r {
            Some(k) => k == first_occurrence(text@, part@) && k + part@.len() <= text@.len(),
            None => first_occurrence(text@, part@) == -1,
        },
{
    let v = chars_of(text);
    let p = chars_of(part);
    proof {
        lemma_first_from(v@, p@, 0);
    }
    first_index(&v, &p)
}

/// The character place of the last occurrence of a part in a text.
pub(crate) fn rfind_index(text: &str, part: &str) -> (r: Option<usize>)
    ensures
        match r {
            Some(k) => k == last_occurrence(text@, part@),
            None => last_occurrence(text@, part@) == -1,
        },
{
    let v = chars_of(text);
    let p = chars_of(part);
    last_index(&v, &p)
}

/// Whether a text holds a part somewhere.
pub fn contains(text: &str, part: &str) -> (r: bool)
    ensures
        r == exists|k: int| occurs_at(text@, part@, k),
{
    let v = chars_of(text);
    let p = chars_of(part);
    let found = first_index(&v, &p);
    proof {
        lemma_first_from(v@, p@, 0);
    }
    found.is_some()
}

/// The byte offset of the first place where a text holds a part.
pub fn find(text: &str, part: &str) -> (r: Option<usize>)
    requires
        vstd::utf8::encode_utf8(text@).len() <= usize::MAX,
    ensures
        match r {
            Some(b) => first_occurrence(text@, part@) >= 0 && b == vstd::utf8::encode_utf8(
                text@.take(first_occurrence(text@, part@)),
            ).len(),
            None => first_occurrence(text@, part@) == -1,
        },
{
    let v = chars_of(text);
    let p = chars_of(part);
    proof {
        lemma_first_from(v@, p@, 0);
    }
    match first_index(&v, &p) {
        Some(k) => {
            let head = text.substring_char(0, k);
            proof {
                assert(text@ =~= text@.take(k as int) + text@.skip(k as int));
                lemma_encode_utf8_add(text@.take(k as int), text@.skip(k as int));
            }
            Some(head.len())
        },
        None => None,
    }
}

/// The byte offset of the last place where a text holds a part.
pub fn rfind(text: &str, part: &str) -> (r: Option<usize>)
    requires
        vstd::utf8::encode_utf8(text@).len() <= usize::MAX,
    ensures
        match r {
            Some(b) => last_occurrence(text@, part@) >= 0 && b == vstd::utf8::encode_utf8(
                text@.take(last_occurrence(text@, part@)),
            ).len(),
            None => last_occurrence(text@, part@) == -1,
        },
{
    let v = chars_of(text);
    let p = chars_of(part);
    if p.len() <= v.len() {
        proof {
            lemma_last_from(v@, p@, v@.len() - p@.len());
        }
    }
    match last_index(&v, &p) {
        Some(k) => {
            let head = text.substring_char(0, k);
            proof {
                assert(text@ =~= text@.take(k as int) + text@.skip(k as int));
                lemma_encode_utf8_add(text@.take(k as int), text@.skip(k as int));
            }
            Some(head.len())
        },
        None => None,
    }
}

/// The pieces of a text between the occurrences of a pattern (`str::split`):
/// with an empty pattern, an empty piece, each character, and an empty piece;
/// else the piece before the first occurrence, then the pieces of what
/// follows it.
pub open spec fn spec_split(s: Seq<char>, p: Seq<char>) -> Seq<Seq<char>>
    decreases s.len(),
{
    if p.len() == 0 {
        seq![Seq::empty()] + Seq::new(s.len(), |i: int| seq![s[i]]) + seq![Seq::empty()]
    } else {
        let k = first_occurrence(s, p);
        if k < 0 {
            seq![s]
        } else {
            proof {
                lemma_first_from(s, p, 0);
            }
            seq![s.take(k)] + spec_split(s.skip(k + p.len()), p)
        }
    }
}

/// Texts joined with a separator between each two.
pub open spec fn join_with(parts: Seq<Seq<char>>, sep: Seq<char>) -> Seq<char>
    decreases parts.len(),
{
    if parts.len() == 0 {
        Seq::empty()
    } else if parts.len() == 1 {
        parts[0]
    } else {
        join_with(parts.drop_last(), sep) + sep + parts.last()
    }
}

/// A text with every occurrence of a pattern replaced (`str::replace`).
pub open spec fn spec_replace(s: Seq<char>, p: Seq<char>, with: Seq<char>) -> Seq<char> {
    join_with(spec_split(s, p), with)
}

pub proof fn lemma_join_with_prepend(first: Seq<char>, rest: Seq<Seq<char>>, sep: Seq<char>)
    requires
        rest.len() > 0,
    ensures
        join_with(seq![first] + rest, sep) == first + sep + join_with(rest, sep),
    decreases rest.len(),
{
    let x = seq![first] + rest;
    assert(x.last() == rest.last());
    if rest.len() == 1 {
        assert(x.drop_last() =~= seq![first]);
        assert(join_with(seq![first], sep) == first);
        assert(join_with(rest, sep) == rest[0]);
        assert(join_with(x, sep) == join_with(x.drop_last(), sep) + sep + x.last());
        assert(join_with(x, sep) =~= first + sep + join_with(rest, sep));
    } else {
        lemma_join_with_prepend(first, rest.drop_last(), sep);
        assert(x.drop_last() =~= seq![first] + rest.drop_last());
        assert(join_with(x, sep) == join_with(x.drop_last(), sep) + sep + x.last());
        assert(join_with(rest, sep) == join_with(rest.drop_last(), sep) + sep + rest.last());
        assert(join_with(x, sep) =~= first + sep + join_with(rest, sep));
    }
}

pub proof fn lemma_split_len(s: Seq<char>, p: Seq<char>)
    ensures
        spec_split(s, p).len() >= 1,
    decreases s.len(),
{
    if p.len() > 0 {
        lemma_first_from(s, p, 0);
        let k = first_occurrence(s, p);
        if k >= 0 {
            lemma_split_len(s.skip(k + p.len()), p);
        }
    }
}

/// The empty text, then each character of a text, joined without a
/// separator, give the text.
proof fn lemma_join_chars(s: Seq<char>)
    ensures
        join_with(seq![Seq::<char>::empty()] + Seq::new(s.len(), |i: int| seq![s[i]]), Seq::empty()) == s,
    decreases s.len(),
{
    let e = Seq::<char>::empty();
    let x = seq![e] + Seq::new(s.len(), |i: int| seq![s[i]]);
    if s.len() == 0 {
        assert(x =~= seq![e]);
        assert(join_with(x, e) == x[0]);
    } else {
        let t = s.drop_last();
        lemma_join_chars(t);
        assert(x.drop_last() =~= seq![e] + Seq::new(t.len(), |i: int| seq![t[i]]));
        assert(x.last() =~= seq![s.last()]);
        assert(join_with(x, e) == join_with(x.drop_last(), e) + e + x.last());
        assert(join_with(x, e) =~= s);
    }
}

/// Law: the pieces of a text split on a pattern, joined back with the
/// pattern, give the text.
pub proof fn law_split_join(s: Seq<char>, p: Seq<char>)
    ensures
        join_with(spec_split(s, p), p) == s,
    decreases s.len(),
{
    if p.len() == 0 {
        let e = Seq::<char>::empty();
        let x = seq![e] + Seq::new(s.len(), |i: int| seq![s[i]]);
        lemma_join_chars(s);
        assert(spec_split(s, p) =~= x.push(e));
        assert(x.push(e).drop_last() =~= x);
        assert(join_with(x.push(e), p) == join_with(x, p) + p + e);
        assert(p =~= e);
        assert(join_with(x.push(e), p) =~= s);
    } else {
        lemma_first_from(s, p, 0);
        let k = first_occurrence(s, p);
        if k >= 0 {
            let rest = s.skip(k + p.len());
            law_split_join(rest, p);
            lemma_split_len(rest, p);
            lemma_join_with_prepend(s.take(k), spec_split(rest, p), p);
            assert(s.subrange(k, k + p.len()) == p);
            assert(s =~= s.take(k) + p + rest);
        }
    }
}

/// The number of places at or after `k` where a text holds a nonempty
/// pattern, taken from left to right without overlap (`str::matches`).
pub open spec fn matches_from(s: Seq<char>, p: Seq<char>, k: int) -> nat
    decreases s.len() + 1 - k,
{
    if k < 0 || p.len() == 0 {
        0
    } else {
        let f = first_from(s, p, k);
        if f < 0 {
            0
        } else {
            proof {
                lemma_first_from(s, p, k);
            }
            1 + matches_from(s, p, f + p.len())
        }
    }
}

/// The number of matches of a pattern in a text (`str::matches(..).count()`):
/// the empty pattern matches at each of the `len + 1` places between
/// characters.
pub open spec fn count_matches(s: Seq<char>, p: Seq<char>) -> nat {
    if p.len() == 0 {
        s.len() + 1
    } else {
        matches_from(s, p, 0)
    }
}

/// A search in the rest of a text after `m` is the search in the text, moved.
proof fn lemma_first_from_shift(s: Seq<char>, p: Seq<char>, m: int, j: int)
    requires
        0 <= m <= s.len(),
        0 <= j,
    ensures
        first_from(s.skip(m), p, j) == (if first_from(s, p, m + j) < 0 {
            -1
        } else {
            first_from(s, p, m + j) - m
        }),
    decreases s.len() + 1 - (m + j),
{
    let t = s.skip(m);
    if j + p.len() <= t.len() {
        assert(t.subrange(j, j + p.len()) =~= s.subrange(m + j, m + j + p.len()));
        if !occurs_at(t, p, j) {
            lemma_first_from_shift(s, p, m, j + 1);
            assert(m + (j + 1) == m + j + 1);
        }
    }
}

/// Counting the matches in the rest of a text after `m` is counting them in
/// the text from `m` on.
proof fn lemma_matches_shift(s: Seq<char>, p: Seq<char>, m: int, j: int)
    requires
        0 <= m <= s.len(),
        0 <= j,
    ensures
        matches_from(s.skip(m), p, j) == matches_from(s, p, m + j),
    decreases s.len() + 1 - (m + j),
{
    if p.len() > 0 {
        lemma_first_from_shift(s, p, m, j);
        lemma_first_from(s, p, m + j);
        let f = first_from(s, p, m + j);
        if f >= 0 {
            lemma_matches_shift(s, p, m, f - m + p.len());
            assert(m + (f - m + p.len()) == f + p.len());
        }
    }
}

/// Law: a text split on a pattern has one piece more than the pattern has
/// matches in the text.
pub proof fn law_split_count(s: Seq<char>, p: Seq<char>)
    ensures
        spec_split(s, p).len() == count_matches(s, p) + 1,
    decreases s.len(),
{
    if p.len() > 0 {
        lemma_first_from(s, p, 0);
        let k = first_occurrence(s, p);
        if k >= 0 {
            let rest = s.skip(k + p.len());
            law_split_count(rest, p);
            lemma_matches_shift(s, p, k + p.len(), 0);
        }
    }
}

/// Texts of the characters of a text, one each.
fn each_char(v: &Vec<char>) -> (r: Vec<String>)
    ensures
        texts_of(r@) == Seq::new(v@.len(), |i: int| seq![v@[i]]),
{
    let mut r: Vec<String> = Vec::new();
    let mut i: usize = 0;
    while i < v.len()
        invariant
            i <= v@.len(),
            texts_of(r@) == Seq::new(i as nat, |j: int| seq![v@[j]]),
        decreases v@.len() - i,
    {
        let mut one = String::new();
        push_char(&mut one, v[i]);
        let ghost before = r@;
        r.push(one);
        assert(texts_of(r@) =~= Seq::new((i + 1) as nat, |j: int| seq![v@[j]])) by {
            assert(texts_of(r@) =~= texts_of(before).push(one@));
            assert(one@ =~= seq![v@[i as int]]);
        }
        i = i + 1;
    }
    r
}

/// The pieces of a text between the occurrences of a pattern (see
/// `spec_split`).
pub fn split(text: &str, pattern: &str) -> (r: Vec<String>)
    ensures
        texts_of(r@) == spec_split(text@, pattern@),
{
    let v = chars_of(text);
    let p = chars_of(pattern);
    let n = v.len();
    let plen = p.len();
    if plen == 0 {
        let mut result: Vec<String> = Vec::new();
        result.push(String::new());
        let mut middle = each_char(&v);
        result.append(&mut middle);
        result.push(String::new());
        assert(texts_of(result@) =~= seq![Seq::<char>::empty()] + Seq::new(v@.len(), |i: int| seq![v@[i]]) + seq![Seq::<char>::empty()]);
        return result;
    }
    let mut result: Vec<String> = Vec::new();
    let mut start: usize = 0;
    let mut i: usize = 0;
    assert(v@.skip(0) =~= v@);
    while n - i >= plen
        invariant
            v@ == text@,
            p@ == pattern@,
            n == v@.len(),
            plen == p@.len(),
            plen > 0,
            start <= i,
            i <= n,
            texts_of(result@) + spec_split(v@.skip(start as int), p@) == spec_split(v@, p@),
            forall|j: int| start <= j < i ==> !occurs_at(v@, p@, j),
        decreases n - i,
    {
        let ghost w = v@.skip(start as int);
        proof {
            assert forall|j: int| 0 <= j < i - start implies !occurs_at(w, p@, j) by {
                assert(!occurs_at(v@, p@, start + j));
                if occurs_at(w, p@, j) {
                    assert(w.subrange(j, j + p@.len()) =~= v@.subrange(start + j, start + j + p@.len()));
                }
            }
            lemma_first_from_skip(w, p@, 0, i - start);
        }
        if matches_at(&v, &p, i) {
            let piece = string_of_range(&v, start, i);
            let ghost before = result@;
            result.push(piece);
            proof {
                assert(w.subrange(i - start, i - start + p@.len()) =~= v@.subrange(i as int, i + p@.len()));
                assert(first_from(w, p@, i - start) == i - start);
                assert(w.take(i - start) =~= v@.subrange(start as int, i as int));
                assert(w.skip(i - start + p@.len()) =~= v@.skip(i + plen));
                assert(texts_of(result@) =~= texts_of(before).push(piece@));
                assert(spec_split(w, p@) == seq![w.take(i - start)] + spec_split(w.skip(i - start + p@.len()), p@));
                assert(texts_of(result@) + spec_split(v@.skip(i + plen), p@) =~= texts_of(before) + spec_split(w, p@));
            }
            i = i + plen;
            start = i;
        } else {
            i = i + 1;
        }
    }
    let ghost w = v@.skip(start as int);
    proof {
        assert forall|j: int| 0 <= j implies !occurs_at(w, p@, j) by {
            if occurs_at(w, p@, j) {
                assert(w.subrange(j, j + p@.len()) =~= v@.subrange(start + j, start + j + p@.len()));
                assert(occurs_at(v@, p@, start + j));
            }
        }
        lemma_first_from(w, p@, 0);
        if first_from(w, p@, 0) >= 0 {
            assert(occurs_at(w, p@, first_from(w, p@, 0)));
        }
    }
    let piece = string_of_range(&v, start, n);
    let ghost before = result@;
    result.push(piece);
    proof {
        assert(w =~= v@.subrange(start as int, n as int));
        assert(texts_of(result@) =~= texts_of(before).push(piece@));
        assert(texts_of(result@) =~= texts_of(before) + spec_split(w, p@));
    }
    result
}

/// A text with every occurrence of a pattern replaced (see `spec_replace`).
pub fn replace(text: &str, pattern: &str, with: &str) -> (r: String)
    ensures
        r@ == spec_replace(text@, pattern@, with@),
{
    let pieces = split(text, pattern);
    proof {
        lemma_split_len(text@, pattern@);
    }
    let mut result = string_from(pieces[0].as_str());
    let mut i: usize = 1;
    assert(texts_of(pieces@).take(1) =~= seq![pieces@[0]@]);
    while i < pieces.len()
        invariant
            1 <= i <= pieces@.len(),
            result@ == join_with(texts_of(pieces@).take(i as int), with@),
        decreases pieces@.len() - i,
    {
        result.append(with);
        result.append(pieces[i].as_str());
        assert(texts_of(pieces@).take(i + 1).drop_last() =~= texts_of(pieces@).take(i as int));
        i = i + 1;
    }
    assert(texts_of(pieces@).take(i as int) =~= texts_of(pieces@));
    result
}

/// The words of a text as a walk builds them: the words done and the word
/// going on.
pub open spec fn words_walk(s: Seq<char>) -> (Seq<Seq<char>>, Seq<char>)
    decreases s.len(),
{
    if s.len() == 0 {
        (Seq::empty(), Seq::empty())
    } else {
        let (done, word) = words_walk(s.drop_last());
        if spec_is_whitespace(s.last()) {
            if word.len() > 0 {
                (done.push(word), Seq::empty())
            } else {
                (done, Seq::empty())
            }
        } else {
            (done, word.push(s.last()))
        }
    }
}

/// The words of a text (`str::split_whitespace`): its longest runs of
/// characters that are not white space, in order.
pub open spec fn spec_words(s: Seq<char>) -> Seq<Seq<char>> {
    let (done, word) = words_walk(s);
    if word.len() > 0 {
        done.push(word)
    } else {
        done
    }
}

/// The words of a text (see `spec_words`).
pub fn split_spaces(text: &str) -> (r: Vec<String>)
    ensures
        texts_of(r@) == spec_words(text@),
{
    let v = chars_of(text);
    let mut done: Vec<String> = Vec::new();
    let mut word = String::new();
    let mut i: usize = 0;
    while i < v.len()
        invariant
            v@ == text@,
            i <= v@.len(),
            words_walk(v@.take(i as int)) == (texts_of(done@), word@),
        decreases v@.len() - i,
    {
        assert(v@.take(i + 1).drop_last() =~= v@.take(i as int));
        let ghost before = done@;
        if is_whitespace_char(v[i]) {
            if !word.as_str().is_empty() {
                let mut finished = String::new();
                std::mem::swap(&mut finished, &mut word);
                done.push(finished);
                assert(texts_of(done@) =~= texts_of(before).push(finished@));
            } else {
                word = String::new();
            }
        } else {
            push_char(&mut word, v[i]);
        }
        i = i + 1;
    }
    assert(v@.take(i as int) =~= v@);
    if !word.as_str().is_empty() {
        let ghost before = done@;
        done.push(word);
        assert(texts_of(done@) =~= texts_of(before).push(word@));
    }
    done
}

/// What a walk over the words of a text keeps: the words done and the word
/// going on, glued, are the text's characters that are not white space; the
/// words done are not empty; no word holds white space.
proof fn lemma_words_walk(s: Seq<char>)
    ensures
        join_with(words_walk(s).0, Seq::empty()) + words_walk(s).1 == solid(s),
        forall|i: int| 0 <= i < words_walk(s).0.len() ==> (#[trigger] words_walk(s).0[i]).len() > 0,
        forall|i: int, j: int|
            0 <= i < words_walk(s).0.len() && 0 <= j < words_walk(s).0[i].len() ==> !spec_is_whitespace(
                #[trigger] words_walk(s).0[i][j],
            ),
        forall|j: int| 0 <= j < words_walk(s).1.len() ==> !spec_is_whitespace(#[trigger] words_walk(s).1[j]),
    decreases s.len(),
{
    if s.len() == 0 {
        assert(join_with(Seq::<Seq<char>>::empty(), Seq::<char>::empty()) + Seq::<char>::empty() =~= solid(s));
    } else {
        let t = s.drop_last();
        lemma_words_walk(t);
        let (d, w) = words_walk(t);
        let c = s.last();
        let e = Seq::<char>::empty();
        if spec_is_whitespace(c) {
            if w.len() > 0 {
                let d2 = d.push(w);
                assert(d2.drop_last() =~= d);
                if d.len() == 0 {
                    assert(join_with(d2, e) == d2[0]);
                    assert(join_with(d, e) =~= e);
                    assert(join_with(d2, e) + e =~= join_with(d, e) + w);
                } else {
                    assert(join_with(d2, e) == join_with(d, e) + e + w);
                    assert(join_with(d2, e) + e =~= join_with(d, e) + w);
                }
                assert forall|i: int, j: int| 0 <= i < d2.len() && 0 <= j < d2[i].len() implies !spec_is_whitespace(
                    #[trigger] d2[i][j],
                ) by {
                    if i < d.len() {
                        assert(d2[i] == d[i]);
                    }
                }
            } else {
                assert(join_with(d, e) + e =~= join_with(d, e) + w);
            }
        } else {
            let w2 = w.push(c);
            assert(join_with(d, e) + w2 =~= (join_with(d, e) + w).push(c));
            assert forall|j: int| 0 <= j < w2.len() implies !spec_is_whitespace(#[trigger] w2[j]) by {
                if j < w.len() {
                    assert(w2[j] == w[j]);
                }
            }
        }
    }
}

/// Law: the words of a text are not empty, hold no white space, and glued
/// together give the text's characters that are not white space.
pub proof fn law_words_solid(s: Seq<char>)
    ensures
        join_with(spec_words(s), Seq::empty()) == solid(s),
        forall|i: int| 0 <= i < spec_words(s).len() ==> (#[trigger] spec_words(s)[i]).len() > 0,
        forall|i: int, j: int|
            0 <= i < spec_words(s).len() && 0 <= j < spec_words(s)[i].len() ==> !spec_is_whitespace(
                #[trigger] spec_words(s)[i][j],
            ),
{
    lemma_words_walk(s);
    let (d, w) = words_walk(s);
    let e = Seq::<char>::empty();
    if w.len() > 0 {
        let d2 = d.push(w);
        assert(d2.drop_last() =~= d);
        if d.len() == 0 {
            assert(join_with(d2, e) == d2[0]);
            assert(join_with(d, e) =~= e);
            assert(join_with(d2, e) =~= join_with(d, e) + w);
        } else {
            assert(join_with(d2, e) == join_with(d, e) + e + w);
            assert(join_with(d2, e) =~= join_with(d, e) + w);
        }
        assert forall|i: int, j: int| 0 <= i < d2.len() && 0 <= j < d2[i].len() implies !spec_is_whitespace(
            #[trigger] d2[i][j],
        ) by {
            if i < d.len() {
                assert(d2[i] == d[i]);
            }
        }
    } else {
        assert(join_with(d, e) + w =~= join_with(d, e));
    }
}

/// One step of reading a found entry back: up to the first `)` the path is
/// gathered; then, for the next four fields, a `,` or `]` closes a field and
/// only numeric characters are kept; after that everything is gathered.
pub open spec fn founds_step(st: (Seq<Seq<char>>, Seq<char>), ch: char) -> (Seq<Seq<char>>, Seq<char>) {
    let (result, actual) = st;
    if result.len() == 0 {
        if ch == ')' {
            (result.push(actual), Seq::empty())
        } else {
            (result, actual.push(ch))
        }
    } else if result.len() < 5 {
        let (r1, a1) = if ch == ',' || ch == ']' {
            (result.push(actual), Seq::<char>::empty())
        } else {
            (result, actual)
        };
        if char_numeric(ch) {
            (r1, a1.push(ch))
        } else {
            (r1, a1)
        }
    } else {
        (result, actual.push(ch))
    }
}

/// Reading a found entry back, over its characters.
pub open spec fn founds_walk(s: Seq<char>) -> (Seq<Seq<char>>, Seq<char>)
    decreases s.len(),
{
    if s.len() == 0 {
        (Seq::empty(), Seq::empty())
    } else {
        founds_step(founds_walk(s.drop_last()), s.last())
    }
}

/// The fields of a found entry `(path)[row,col,pos,len]line` read back (see
/// `founds_step`; the first character is skipped).
pub open spec fn spec_file_founds(found: Seq<char>) -> Seq<Seq<char>> {
    let rest = if found.len() == 0 {
        found
    } else {
        found.drop_first()
    };
    let (result, actual) = founds_walk(rest);
    result.push(actual)
}

/// Whether what is known of the numeric test on the characters of a text is
/// what `char::is_numeric` does on them: the ASCII digits are numeric, and
/// `[`, `,` and `]` are not.
pub open spec fn numeric_known(s: Seq<char>) -> bool {
    forall|i: int|
        0 <= i < s.len() ==> ('0' <= #[trigger] s[i] <= '9' ==> char_numeric(s[i])) && (s[i] == '['
            || s[i] == ',' || s[i] == ']' ==> !char_numeric(s[i]))
}

proof fn lemma_numeric_known_push(s: Seq<char>, c: char)
    requires
        numeric_known(s),
        '0' <= c <= '9' ==> char_numeric(c),
        c == '[' || c == ',' || c == ']' ==> !char_numeric(c),
    ensures
        numeric_known(s.push(c)),
{
    assert forall|i: int| 0 <= i < s.push(c).len() implies ('0' <= #[trigger] s.push(c)[i] <= '9'
        ==> char_numeric(s.push(c)[i])) && (s.push(c)[i] == '[' || s.push(c)[i] == ',' || s.push(c)[i]
        == ']' ==> !char_numeric(s.push(c)[i])) by {
        if i < s.len() {
            assert(s.push(c)[i] == s[i]);
        }
    }
}

proof fn lemma_numeric_known_add(a: Seq<char>, b: Seq<char>)
    requires
        numeric_known(a + b),
    ensures
        numeric_known(a),
        numeric_known(b),
{
    assert forall|i: int| 0 <= i < a.len() implies ('0' <= #[trigger] a[i] <= '9' ==> char_numeric(a[i]))
        && (a[i] == '[' || a[i] == ',' || a[i] == ']' ==> !char_numeric(a[i])) by {
        assert((a + b)[i] == a[i]);
    }
    assert forall|i: int| 0 <= i < b.len() implies ('0' <= #[trigger] b[i] <= '9' ==> char_numeric(b[i]))
        && (b[i] == '[' || b[i] == ',' || b[i] == ']' ==> !char_numeric(b[i])) by {
        assert((a + b)[a.len() + i] == b[i]);
    }
}

/// The fields of a found entry read back (see `spec_file_founds`): for an
/// entry `(path)[row,col,pos,len]line` with a path without `)`, they are the
/// path, the four numbers in decimal and the line.
pub fn text_file_founds(found: &str) -> (r: Vec<String>)
    ensures
        texts_of(r@) == spec_file_founds(found@),
        forall|path: Seq<char>, row: nat, col: nat, pos: nat, len: nat, line: Seq<char>|
            found@ == #[trigger] found_text(path, row, col, pos, len, line) && !path.contains(')')
                ==> texts_of(r@) == seq![path, decimal(row), decimal(col), decimal(pos), decimal(len), line],
{
    let v = chars_of(found);
    let mut result: Vec<String> = Vec::new();
    let mut actual = String::new();
    let start: usize = if v.len() == 0 {
        0
    } else {
        1
    };
    let ghost rest = if v@.len() == 0 {
        v@
    } else {
        v@.drop_first()
    };
    let mut i: usize = start;
    assert(v@.subrange(start as int, start as int) =~= Seq::<char>::empty());
    while i < v.len()
        invariant
            v@ == found@,
            start <= i <= v@.len(),
            start == if v@.len() == 0 {
                0usize
            } else {
                1usize
            },
            founds_walk(v@.subrange(start as int, i as int)) == (texts_of(result@), actual@),
            numeric_known(v@.subrange(start as int, i as int)),
        decreases v@.len() - i,
    {
        let ch = v[i];
        let numeric = is_numeric_char(ch);
        let ghost before = result@;
        assert(v@.subrange(start as int, i + 1).drop_last() =~= v@.subrange(start as int, i as int));
        assert(v@.subrange(start as int, i + 1).last() == ch);
        proof {
            lemma_numeric_known_push(v@.subrange(start as int, i as int), ch);
            assert(v@.subrange(start as int, i as int).push(ch) =~= v@.subrange(start as int, i + 1));
        }
        if result.len() == 0 {
            if ch == ')' {
                let mut done = String::new();
                std::mem::swap(&mut done, &mut actual);
                result.push(done);
                assert(texts_of(result@) =~= texts_of(before).push(done@));
            } else {
                push_char(&mut actual, ch);
            }
        } else if result.len() < 5 {
            if ch == ',' || ch == ']' {
                let mut done = String::new();
                std::mem::swap(&mut done, &mut actual);
                result.push(done);
                assert(texts_of(result@) =~= texts_of(before).push(done@));
            }
            if numeric {
                push_char(&mut actual, ch);
            }
        } else {
            push_char(&mut actual, ch);
        }
        i = i + 1;
    }
    assert(v@.subrange(start as int, i as int) =~= rest);
    let ghost before = result@;
    result.push(actual);
    assert(texts_of(result@) =~= texts_of(before).push(actual@));
    proof {
        assert forall|path: Seq<char>, row: nat, col: nat, pos: nat, len: nat, line: Seq<char>|
            found@ == #[trigger] found_text(path, row, col, pos, len, line) && !path.contains(')')
            implies texts_of(result@) == seq![path, decimal(row), decimal(col), decimal(pos), decimal(len), line] by {
            assert(found@.len() > 0);
            law_found_entry_roundtrip(path, row, col, pos, len, line);
        }
    }
    result
}

/// The number of bytes of the UTF-8 encodings of lines, together.
pub open spec fn lines_bytes(lines: Seq<Seq<char>>) -> nat
    decreases lines.len(),
{
    if lines.len() == 0 {
        0
    } else {
        lines_bytes(lines.drop_last()) + vstd::utf8::encode_utf8(lines.last()).len()
    }
}

/// The text of a found entry: `(path)[row,col,pos,len]` and then the line as
/// given.
pub open spec fn found_text(path: Seq<char>, row: nat, col: nat, pos: nat, len: nat, line: Seq<char>) -> Seq<
    char,
> {
    seq!['('] + path + seq![')', '['] + decimal(row) + seq![','] + decimal(col) + seq![','] + decimal(
        pos,
    ) + seq![','] + decimal(len) + seq![']'] + line
}

/// The entry that reports a part found in a line: `(path)[row,col,pos,len]`
/// and the trimmed line, where `col` is the byte offset in the line, `pos` the
/// byte offset in the file and `len` the byte length of the part.
pub open spec fn found_entry(path: Seq<char>, row: nat, col: nat, pos: nat, len: nat, line: Seq<char>) -> Seq<
    char,
> {
    found_text(path, row, col, pos, len, spec_trim(line))
}

/// The entries for the parts found in one line, in the order of the parts.
pub open spec fn line_entries(path: Seq<char>, row: nat, done: nat, line: Seq<char>, parts: Seq<Seq<char>>) -> Seq<
    Seq<char>,
>
    decreases parts.len(),
{
    if parts.len() == 0 {
        Seq::empty()
    } else {
        let before = line_entries(path, row, done, line, parts.drop_last());
        let part = parts.last();
        let k = first_occurrence(line, part);
        if k >= 0 {
            let col = vstd::utf8::encode_utf8(line.take(k)).len();
            before.push(found_entry(path, row, col, done + col, vstd::utf8::encode_utf8(part).len(), line))
        } else {
            before
        }
    }
}

/// The entries for the parts found in the lines of a file, line by line.
pub open spec fn file_entries(path: Seq<char>, lines: Seq<Seq<char>>, parts: Seq<Seq<char>>) -> Seq<Seq<char>>
    decreases lines.len(),
{
    if lines.len() == 0 {
        Seq::empty()
    } else {
        file_entries(path, lines.drop_last(), parts) + line_entries(
            path,
            lines.len(),
            lines_bytes(lines.drop_last()),
            lines.last(),
            parts,
        )
    }
}

proof fn lemma_lines_bytes_prefix(lines: Seq<Seq<char>>, i: int)
    requires
        0 <= i <= lines.len(),
    ensures
        lines_bytes(lines.take(i)) <= lines_bytes(lines),
    decreases lines.len() - i,
{
    if i < lines.len() {
        lemma_lines_bytes_prefix(lines, i + 1);
        assert(lines.take(i + 1).drop_last() =~= lines.take(i));
    } else {
        assert(lines.take(i) =~= lines);
    }
}

/// The entry for a part found in a line.
fn entry_text(path: &str, row: usize, col: usize, pos: usize, len: usize, line: &str) -> (r: String)
    ensures
        r@ == found_entry(path@, row as nat, col as nat, pos as nat, len as nat, line@),
{
    let mut r = String::new();
    push_char(&mut r, '(');
    r.append(path);
    push_char(&mut r, ')');
    push_char(&mut r, '[');
    r.append(decimal_text(row).as_str());
    push_char(&mut r, ',');
    r.append(decimal_text(col).as_str());
    push_char(&mut r, ',');
    r.append(decimal_text(pos).as_str());
    push_char(&mut r, ',');
    r.append(decimal_text(len).as_str());
    push_char(&mut r, ']');
    r.append(trim(line).as_str());
    assert(r@ =~= found_entry(path@, row as nat, col as nat, pos as nat, len as nat, line@));
    r
}

/// The entries for the parts found in the lines of a file (see
/// `file_entries`), `None` where nothing is found. The lines are as read,
/// each with its line break.
pub fn text_file_find_any(path: &str, lines: Vec<String>, contents: Vec<String>) -> (r: Option<Vec<String>>)
    requires
        lines_bytes(texts_of(lines@)) <= usize::MAX,
        lines@.len() < usize::MAX,
        forall|j: int| 0 <= j < contents@.len() ==> vstd::utf8::encode_utf8(#[trigger] contents@[j]@).len() <= usize::MAX,
    ensures
        match r {
            Some(v) => texts_of(v@) == file_entries(path@, texts_of(lines@), texts_of(contents@)) && v@.len() > 0,
            None => file_entries(path@, texts_of(lines@), texts_of(contents@)).len() == 0,
        },
{
    let ghost all = texts_of(lines@);
    let ghost parts = texts_of(contents@);
    let mut results: Vec<String> = Vec::new();
    let mut row: usize = 1;
    let mut done: usize = 0;
    let mut i: usize = 0;
    assert(all.take(0) =~= Seq::<Seq<char>>::empty());
    while i < lines.len()
        invariant
            all == texts_of(lines@),
            parts == texts_of(contents@),
            lines_bytes(all) <= usize::MAX,
            lines@.len() < usize::MAX,
            forall|j: int| 0 <= j < contents@.len() ==> vstd::utf8::encode_utf8(#[trigger] contents@[j]@).len() <= usize::MAX,
            i <= lines@.len(),
            row == i + 1,
            done == lines_bytes(all.take(i as int)),
            texts_of(results@) == file_entries(path@, all.take(i as int), parts),
        decreases lines@.len() - i,
    {
        let line = lines[i].as_str();
        proof {
            lemma_lines_bytes_prefix(all, i + 1);
            assert(all.take(i + 1).drop_last() =~= all.take(i as int));
            assert(all.take(i + 1).last() == line@);
        }
        let ghost start = texts_of(results@);
        let mut j: usize = 0;
        assert(parts.take(0) =~= Seq::<Seq<char>>::empty());
        while j < contents.len()
            invariant
                parts == texts_of(contents@),
                forall|m: int| 0 <= m < contents@.len() ==> vstd::utf8::encode_utf8(#[trigger] contents@[m]@).len() <= usize::MAX,
                j <= contents@.len(),
                done + vstd::utf8::encode_utf8(line@).len() <= usize::MAX,
                row == i + 1,
                texts_of(results@) == start + line_entries(path@, row as nat, done as nat, line@, parts.take(j as int)),
            decreases contents@.len() - j,
        {
            let part = contents[j].as_str();
            assert(parts.take(j + 1).drop_last() =~= parts.take(j as int));
            assert(parts.take(j + 1).last() == part@);
            assert(vstd::utf8::encode_utf8(part@).len() <= usize::MAX);
            let found = find(line, part);
            match found {
                Some(col) => {
                    proof {
                        lemma_first_from(line@, part@, 0);
                        let k = first_occurrence(line@, part@);
                        assert(line@ =~= line@.take(k) + line@.skip(k));
                        lemma_encode_utf8_add(line@.take(k), line@.skip(k));
                    }
                    let entry = entry_text(path, row, col, done + col, len(part), line);
                    let ghost before = results@;
                    results.push(entry);
                    assert(texts_of(results@) =~= texts_of(before).push(entry@));
                },
                None => {},
            }
            j = j + 1;
        }
        assert(parts.take(j as int) =~= parts);
        done = done + len(line);
        row = row + 1;
        i = i + 1;
    }
    assert(all.take(i as int) =~= all);
    if results.len() == 0 {
        None
    } else {
        Some(results)
    }
}

/// The entries for a part found in the lines of a file (see
/// `text_file_find_any`).
pub fn text_file_find(path: &str, lines: Vec<String>, content: String) -> (r: Option<Vec<String>>)
    requires
        lines_bytes(texts_of(lines@)) <= usize::MAX,
        lines@.len() < usize::MAX,
        vstd::utf8::encode_utf8(content@).len() <= usize::MAX,
    ensures
        match r {
            Some(v) => texts_of(v@) == file_entries(path@, texts_of(lines@), seq![content@]) && v@.len() > 0,
            None => file_entries(path@, texts_of(lines@), seq![content@]).len() == 0,
        },
{
    let mut contents: Vec<String> = Vec::new();
    contents.push(content);
    assert(texts_of(contents@) =~= seq![content@]);
    text_file_find_any(path, lines, contents)
}

/// Reading found entries back, over characters, from a given state.
pub open spec fn founds_fold(st: (Seq<Seq<char>>, Seq<char>), s: Seq<char>) -> (Seq<Seq<char>>, Seq<char>)
    decreases s.len(),
{
    if s.len() == 0 {
        st
    } else {
        founds_step(founds_fold(st, s.drop_last()), s.last())
    }
}

proof fn lemma_founds_fold_one(st: (Seq<Seq<char>>, Seq<char>), c: char)
    ensures
        founds_fold(st, seq![c]) == founds_step(st, c),
{
    assert(seq![c].drop_last() =~= Seq::<char>::empty());
    assert(founds_fold(st, Seq::<char>::empty()) == st);
}

proof fn lemma_founds_walk_fold(s: Seq<char>)
    ensures
        founds_walk(s) == founds_fold((Seq::empty(), Seq::empty()), s),
    decreases s.len(),
{
    if s.len() > 0 {
        lemma_founds_walk_fold(s.drop_last());
    }
}

proof fn lemma_founds_fold_add(st: (Seq<Seq<char>>, Seq<char>), a: Seq<char>, b: Seq<char>)
    ensures
        founds_fold(st, a + b) == founds_fold(founds_fold(st, a), b),
    decreases b.len(),
{
    if b.len() == 0 {
        assert(a + b =~= a);
    } else {
        lemma_founds_fold_add(st, a, b.drop_last());
        assert((a + b).drop_last() =~= a + b.drop_last());
        assert((a + b).last() == b.last());
    }
}

/// Before the first `)`, characters are gathered.
proof fn lemma_founds_path(a: Seq<char>, s: Seq<char>)
    requires
        !s.contains(')'),
    ensures
        founds_fold((Seq::empty(), a), s) == (Seq::<Seq<char>>::empty(), a + s),
    decreases s.len(),
{
    if s.len() == 0 {
        assert(a + s =~= a);
    } else {
        assert(!s.drop_last().contains(')')) by {
            if s.drop_last().contains(')') {
                let k = choose|k: int| 0 <= k < s.drop_last().len() && s.drop_last()[k] == ')';
                assert(s[k] == ')');
            }
        }
        lemma_founds_path(a, s.drop_last());
        assert(s.last() != ')') by {
            assert(s[s.len() - 1] == s.last());
        }
        assert((a + s.drop_last()).push(s.last()) =~= a + s);
    }
}

/// Within the numbered fields, numeric characters other than `,` and `]` are
/// gathered.
proof fn lemma_founds_digits(r: Seq<Seq<char>>, a: Seq<char>, s: Seq<char>)
    requires
        1 <= r.len() < 5,
        forall|i: int| 0 <= i < s.len() ==> char_numeric(#[trigger] s[i]) && s[i] != ',' && s[i] != ']',
    ensures
        founds_fold((r, a), s) == (r, a + s),
    decreases s.len(),
{
    if s.len() == 0 {
        assert(a + s =~= a);
    } else {
        lemma_founds_digits(r, a, s.drop_last());
        assert(s.last() == s[s.len() - 1]);
        assert((a + s.drop_last()).push(s.last()) =~= a + s);
    }
}

/// After the numbered fields, characters are gathered.
proof fn lemma_founds_rest(r: Seq<Seq<char>>, a: Seq<char>, s: Seq<char>)
    requires
        r.len() >= 5,
    ensures
        founds_fold((r, a), s) == (r, a + s),
    decreases s.len(),
{
    if s.len() == 0 {
        assert(a + s =~= a);
    } else {
        lemma_founds_rest(r, a, s.drop_last());
        assert((a + s.drop_last()).push(s.last()) =~= a + s);
    }
}

proof fn lemma_decimal_digits(n: nat)
    ensures
        decimal(n).len() > 0,
        forall|i: int| 0 <= i < decimal(n).len() ==> '0' <= #[trigger] decimal(n)[i] <= '9',
    decreases n,
{
    if n >= 10 {
        lemma_decimal_digits(n / 10);
        assert forall|i: int| 0 <= i < decimal(n).len() implies '0' <= #[trigger] decimal(n)[i] <= '9' by {
            if i < decimal(n / 10).len() {
                assert(decimal(n)[i] == decimal(n / 10)[i]);
            }
        }
    }
}

/// Law: a found entry read back gives its fields: the path, the four numbers
/// in decimal and the line, whatever the line holds, for a path without `)`,
/// with a numeric test that, as `char::is_numeric` does, counts the ASCII
/// digits and not `[`, `,` or `]`. The entries that a search makes
/// (`found_entry`, with the trimmed line) are among them.
pub proof fn law_found_entry_roundtrip(path: Seq<char>, row: nat, col: nat, pos: nat, len: nat, line: Seq<char>)
    requires
        !path.contains(')'),
        numeric_known(found_text(path, row, col, pos, len, line).drop_first()),
    ensures
        spec_file_founds(found_text(path, row, col, pos, len, line)) == seq![
            path,
            decimal(row),
            decimal(col),
            decimal(pos),
            decimal(len),
            line,
        ],
{
    let e = Seq::<char>::empty();
    let none = Seq::<Seq<char>>::empty();
    let entry = found_text(path, row, col, pos, len, line);
    let rest = entry.drop_first();
    assert(entry[0] == '(');
    lemma_decimal_digits(row);
    lemma_decimal_digits(col);
    lemma_decimal_digits(pos);
    lemma_decimal_digits(len);
    let d1 = decimal(row);
    let d2 = decimal(col);
    let d3 = decimal(pos);
    let d4 = decimal(len);
    let t = line;
    assert(rest =~= path + seq![')'] + seq!['['] + d1 + seq![','] + d2 + seq![','] + d3 + seq![','] + d4 + seq![']'] + t);
    // What is known of the numeric test on the characters of the entry.
    let p1 = path + seq![')'];
    let p2 = p1 + seq!['['];
    let p3 = p2 + d1;
    let p4 = p3 + seq![','];
    let p5 = p4 + d2;
    let p6 = p5 + seq![','];
    let p7 = p6 + d3;
    let p8 = p7 + seq![','];
    let p9 = p8 + d4;
    let p10 = p9 + seq![']'];
    assert(rest == p10 + t);
    lemma_numeric_known_add(p10, t);
    lemma_numeric_known_add(p9, seq![']']);
    lemma_numeric_known_add(p8, d4);
    lemma_numeric_known_add(p7, seq![',']);
    lemma_numeric_known_add(p6, d3);
    lemma_numeric_known_add(p5, seq![',']);
    lemma_numeric_known_add(p4, d2);
    lemma_numeric_known_add(p3, seq![',']);
    lemma_numeric_known_add(p2, d1);
    lemma_numeric_known_add(p1, seq!['[']);
    assert(seq!['['][0] == '[');
    assert(seq![','][0] == ',');
    assert(seq![']'][0] == ']');
    assert(!char_numeric('['));
    assert(!char_numeric(','));
    assert(!char_numeric(']'));
    lemma_founds_walk_fold(rest);
    let init = (none, e);
    // The path.
    lemma_founds_path(e, path);
    assert(e + path =~= path);
    // Each digit run, then the mark after it.
    assert forall|i: int| 0 <= i < d1.len() implies char_numeric(#[trigger] d1[i]) && d1[i] != ',' && d1[i] != ']' by {
        assert('0' <= d1[i] <= '9');
    }
    assert forall|i: int| 0 <= i < d2.len() implies char_numeric(#[trigger] d2[i]) && d2[i] != ',' && d2[i] != ']' by {
        assert('0' <= d2[i] <= '9');
    }
    assert forall|i: int| 0 <= i < d3.len() implies char_numeric(#[trigger] d3[i]) && d3[i] != ',' && d3[i] != ']' by {
        assert('0' <= d3[i] <= '9');
    }
    assert forall|i: int| 0 <= i < d4.len() implies char_numeric(#[trigger] d4[i]) && d4[i] != ',' && d4[i] != ']' by {
        assert('0' <= d4[i] <= '9');
    }
    let s0 = founds_fold(init, path);
    assert(s0 == (none, path));
    lemma_founds_fold_one(s0, ')');
    let s1 = founds_fold(s0, seq![')']);
    assert(seq![')'].drop_last() =~= e);
    assert(s1 == (seq![path], e)) by {
        assert(none.push(path) =~= seq![path]);
    }
    lemma_founds_fold_one(s1, '[');
    let s2 = founds_fold(s1, seq!['[']);
    assert(seq!['['].drop_last() =~= e);
    assert(s2 == (seq![path], e));
    lemma_founds_digits(seq![path], e, d1);
    assert(e + d1 =~= d1);
    let s3 = founds_fold(s2, d1);
    assert(s3 == (seq![path], d1));
    lemma_founds_fold_one(s3, ',');
    let s4 = founds_fold(s3, seq![',']);
    assert(seq![','].drop_last() =~= e);
    assert(s4 == (seq![path, d1], e)) by {
        assert(seq![path].push(d1) =~= seq![path, d1]);
    }
    lemma_founds_digits(seq![path, d1], e, d2);
    assert(e + d2 =~= d2);
    let s5 = founds_fold(s4, d2);
    assert(s5 == (seq![path, d1], d2));
    lemma_founds_fold_one(s5, ',');
    let s6 = founds_fold(s5, seq![',']);
    assert(s6 == (seq![path, d1, d2], e)) by {
        assert(seq![path, d1].push(d2) =~= seq![path, d1, d2]);
    }
    lemma_founds_digits(seq![path, d1, d2], e, d3);
    assert(e + d3 =~= d3);
    let s7 = founds_fold(s6, d3);
    assert(s7 == (seq![path, d1, d2], d3));
    lemma_founds_fold_one(s7, ',');
    let s8 = founds_fold(s7, seq![',']);
    assert(s8 == (seq![path, d1, d2, d3], e)) by {
        assert(seq![path, d1, d2].push(d3) =~= seq![path, d1, d2, d3]);
    }
    lemma_founds_digits(seq![path, d1, d2, d3], e, d4);
    assert(e + d4 =~= d4);
    let s9 = founds_fold(s8, d4);
    assert(s9 == (seq![path, d1, d2, d3], d4));
    lemma_founds_fold_one(s9, ']');
    let s10 = founds_fold(s9, seq![']']);
    assert(seq![']'].drop_last() =~= e);
    assert(s10 == (seq![path, d1, d2, d3, d4], e)) by {
        assert(seq![path, d1, d2, d3].push(d4) =~= seq![path, d1, d2, d3, d4]);
    }
    lemma_founds_rest(seq![path, d1, d2, d3, d4], e, t);
    assert(e + t =~= t);
    let s11 = founds_fold(s10, t);
    assert(s11 == (seq![path, d1, d2, d3, d4], t));
    // The pieces together.
    lemma_founds_fold_add(init, path, seq![')']);
    lemma_founds_fold_add(init, path + seq![')'], seq!['[']);
    lemma_founds_fold_add(init, path + seq![')'] + seq!['['], d1);
    lemma_founds_fold_add(init, path + seq![')'] + seq!['['] + d1, seq![',']);
    lemma_founds_fold_add(init, path + seq![')'] + seq!['['] + d1 + seq![','], d2);
    lemma_founds_fold_add(init, path + seq![')'] + seq!['['] + d1 + seq![','] + d2, seq![',']);
    lemma_founds_fold_add(init, path + seq![')'] + seq!['['] + d1 + seq![','] + d2 + seq![','], d3);
    lemma_founds_fold_add(init, path + seq![')'] + seq!['['] + d1 + seq![','] + d2 + seq![','] + d3, seq![',']);
    lemma_founds_fold_add(
        init,
        path + seq![')'] + seq!['['] + d1 + seq![','] + d2 + seq![','] + d3 + seq![','],
        d4,
    );
    lemma_founds_fold_add(
        init,
        path + seq![')'] + seq!['['] + d1 + seq![','] + d2 + seq![','] + d3 + seq![','] + d4,
        seq![']'],
    );
    lemma_founds_fold_add(
        init,
        path + seq![')'] + seq!['['] + d1 + seq![','] + d2 + seq![','] + d3 + seq![','] + d4 + seq![']'],
        t,
    );
    assert(founds_walk(rest) == s11);
    assert(seq![path, d1, d2, d3, d4].push(t) =~= seq![path, d1, d2, d3, d4, t]);
}

/// Law: where a text holds a part, `contains` says so, and exactly then
/// `find` and `rfind` find a first and a last place.
pub proof fn law_contains_find(s: Seq<char>, p: Seq<char>)
    ensures
        (exists|k: int| occurs_at(s, p, k)) <==> first_occurrence(s, p) >= 0,
        (exists|k: int| occurs_at(s, p, k)) <==> last_occurrence(s, p) >= 0,
        first_occurrence(s, p) >= 0 ==> first_occurrence(s, p) <= last_occurrence(s, p),
{
    lemma_first_from(s, p, 0);
    if p.len() <= s.len() {
        lemma_last_from(s, p, s.len() - p.len());
        if exists|k: int| occurs_at(s, p, k) {
            let k = choose|k: int| occurs_at(s, p, k);
            assert(k <= s.len() - p.len());
        }
    } else {
        assert(last_occurrence(s, p) == -1) by {
            assert(last_from(s, p, s.len() - p.len()) == -1);
        }
        assert forall|k: int| !occurs_at(s, p, k) by {}
    }
}

/// Law: replacing every occurrence of a pattern by itself gives the text
/// back.
pub proof fn law_replace_same(s: Seq<char>, p: Seq<char>)
    ensures
        spec_replace(s, p, p) == s,
{
    law_split_join(s, p);
}

proof fn lemma_trim_start_first(s: Seq<char>)
    ensures
        trim_start(s).len() == 0 || !spec_is_whitespace(trim_start(s)[0]),
    decreases s.len(),
{
    if s.len() > 0 && spec_is_whitespace(s[0]) {
        lemma_trim_start_first(s.drop_first());
    }
}

proof fn lemma_trim_end_keeps(u: Seq<char>)
    ensures
        trim_end(u).len() <= u.len(),
        trim_end(u) == u.take(trim_end(u).len() as int),
        trim_end(u).len() == 0 || !spec_is_whitespace(trim_end(u).last()),
        u.len() > 0 && !spec_is_whitespace(u[0]) ==> trim_end(u).len() > 0,
    decreases u.len(),
{
    if u.len() == 0 {
        assert(u.take(0) =~= u);
    } else if spec_is_whitespace(u.last()) {
        lemma_trim_end_keeps(u.drop_last());
        let t = trim_end(u.drop_last());
        assert(u.drop_last().take(t.len() as int) =~= u.take(t.len() as int));
        if u.len() > 0 && !spec_is_whitespace(u[0]) {
            assert(u.len() > 1);
            assert(u.drop_last()[0] == u[0]);
        }
    } else {
        assert(u.take(u.len() as int) =~= u);
    }
}

/// Law: trimming a trimmed text changes nothing.
pub proof fn law_trim_idempotent(s: Seq<char>)
    ensures
        spec_trim(spec_trim(s)) == spec_trim(s),
{
    let u = trim_start(s);
    lemma_trim_start_first(s);
    lemma_trim_end_keeps(u);
    let t = trim_end(u);
    if t.len() > 0 {
        assert(t[0] == u[0]);
        assert(trim_start(t) == t);
        assert(trim_end(t) == t);
    } else {
        assert(trim_start(t) == t);
        assert(trim_end(t) == t);
    }
}

/// What is cut from the start of a text is white space.
proof fn lemma_trim_start_cut(s: Seq<char>)
    ensures
        trim_start(s).len() <= s.len(),
        trim_start(s) == s.skip(s.len() - trim_start(s).len()),
        forall|i: int| 0 <= i < s.len() - trim_start(s).len() ==> spec_is_whitespace(#[trigger] s[i]),
    decreases s.len(),
{
    if s.len() > 0 && spec_is_whitespace(s[0]) {
        let t = s.drop_first();
        lemma_trim_start_cut(t);
        assert(t.skip(t.len() - trim_start(t).len()) =~= s.skip(s.len() - trim_start(s).len()));
        assert forall|i: int| 0 <= i < s.len() - trim_start(s).len() implies spec_is_whitespace(#[trigger] s[i]) by {
            if i > 0 {
                assert(s[i] == t[i - 1]);
            }
        }
    } else {
        assert(s.skip(0) =~= s);
    }
}

/// What is cut from the end of a text is white space.
proof fn lemma_trim_end_cut(u: Seq<char>)
    ensures
        forall|i: int| trim_end(u).len() <= i < u.len() ==> spec_is_whitespace(#[trigger] u[i]),
    decreases u.len(),
{
    if u.len() > 0 && spec_is_whitespace(u.last()) {
        lemma_trim_end_cut(u.drop_last());
        assert forall|i: int| trim_end(u).len() <= i < u.len() implies spec_is_whitespace(#[trigger] u[i]) by {
            if i < u.len() - 1 {
                assert(u[i] == u.drop_last()[i]);
            }
        }
    }
}

/// Law: trimming cuts white space, as `char::is_whitespace` has it, and only
/// white space, from both ends: the trimmed text stands in the text at some
/// place, everything before and after it is white space, and it neither
/// starts nor ends with white space.
pub proof fn law_trim_cuts_white_space(s: Seq<char>)
    ensures
        exists|a: int|
            #![trigger s.subrange(a, a + spec_trim(s).len())]
            0 <= a && a + spec_trim(s).len() <= s.len() && s.subrange(a, a + spec_trim(s).len()) == spec_trim(s)
                && (forall|i: int| 0 <= i < a ==> spec_is_whitespace(#[trigger] s[i])) && (forall|i: int|
                a + spec_trim(s).len() <= i < s.len() ==> spec_is_whitespace(#[trigger] s[i])),
        spec_trim(s).len() > 0 ==> !spec_is_whitespace(spec_trim(s)[0]) && !spec_is_whitespace(spec_trim(s).last()),
{
    let u = trim_start(s);
    let t = trim_end(u);
    lemma_trim_start_cut(s);
    lemma_trim_start_first(s);
    lemma_trim_end_keeps(u);
    lemma_trim_end_cut(u);
    let a = s.len() - u.len();
    assert(s.subrange(a, a + t.len()) =~= t) by {
        assert forall|i: int| 0 <= i < t.len() implies s.subrange(a, a + t.len())[i] == t[i] by {
            assert(t[i] == u[i]);
            assert(u[i] == s[a + i]);
        }
    }
    assert forall|i: int| a + t.len() <= i < s.len() implies spec_is_whitespace(#[trigger] s[i]) by {
        assert(s[i] == u[i - a]);
    }
    if t.len() > 0 {
        assert(t[0] == u[0]);
    }
    assert(spec_trim(s) == t);
    assert(forall|i: int| 0 <= i < a ==> spec_is_whitespace(#[trigger] s[i]));
    assert(0 <= a && a + t.len() <= s.len());
    assert(s.subrange(a, a + spec_trim(s).len()) == spec_trim(s));
}

/// Law: a text is likely itself, so equal texts are likely each other.
pub proof fn law_likely_reflexive(text: Seq<char>)
    ensures
        spec_likely(text, text),
{
}

/// Law: a text is likely any text that starts with it, and likely any text
/// that differs from such a one only by white space put in or left out.
pub proof fn law_likely_prefix(text: Seq<char>, more: Seq<char>, spaced: Seq<char>)
    requires
        solid(spaced) == solid(text + more),
    ensures
        spec_likely(text, text + more),
        spec_likely(text, spaced),
{
    lemma_solid_add(text, more);
    let a = solid(text);
    assert forall|i: int| 0 <= i < a.len() implies char_lowercase(#[trigger] a[i]) == char_lowercase(
        solid(text + more)[i],
    ) by {
        assert(solid(text + more)[i] == a[i]);
    }
}

/// A text written as a JSON string: within double quotes, with backslashes,
/// line feeds, carriage returns, tabs and double quotes escaped.
pub open spec fn spec_json_text(s: Seq<char>) -> Seq<char> {
    let a = spec_replace(s, seq!['\\'], seq!['\\', '\\']);
    let b = spec_replace(a, seq!['\n'], seq!['\\', 'n']);
    let c = spec_replace(b, seq!['\r'], seq!['\\', 'r']);
    let d = spec_replace(c, seq!['\t'], seq!['\\', 't']);
    let e = spec_replace(d, seq!['"'], seq!['\\', '"']);
    seq!['"'] + e + seq!['"']
}

/// A text written as a JSON string (see `spec_json_text`).
pub fn json_text(text: &str) -> (r: String)
    ensures
        r@ == spec_json_text(text@),
{
    proof {
        reveal_strlit("\\");
        reveal_strlit("\\\\");
        reveal_strlit("\n");
        reveal_strlit("\\n");
        reveal_strlit("\r");
        reveal_strlit("\\r");
        reveal_strlit("\t");
        reveal_strlit("\\t");
        reveal_strlit("\"");
        reveal_strlit("\\\"");
        assert("\\"@ =~= seq!['\\']);
        assert("\\\\"@ =~= seq!['\\', '\\']);
        assert("\n"@ =~= seq!['\n']);
        assert("\\n"@ =~= seq!['\\', 'n']);
        assert("\r"@ =~= seq!['\r']);
        assert("\\r"@ =~= seq!['\\', 'r']);
        assert("\t"@ =~= seq!['\t']);
        assert("\\t"@ =~= seq!['\\', 't']);
        assert("\""@ =~= seq!['"']);
        assert("\\\""@ =~= seq!['\\', '"']);
    }
    let a = replace(text, "\\", "\\\\");
    let b = replace(a.as_str(), "\n", "\\n");
    let c = replace(b.as_str(), "\r", "\\r");
    let d = replace(c.as_str(), "\t", "\\t");
    let e = replace(d.as_str(), "\"", "\\\"");
    let mut r = String::new();
    push_char(&mut r, '"');
    r.append(e.as_str());
    push_char(&mut r, '"');
    assert(r@ =~= spec_json_text(text@));
    r
}

} // verus!
