//! Paths as texts: their parts, names, extensions, and how they are joined,
//! made absolute or relative. The separator of the platform comes from
//! `std::path::MAIN_SEPARATOR`; the functions that depend on it have a
//! variant that takes it as an argument.

use vstd::prelude::*;

use crate::chars::{
    chars_of, push_char, str_ends_with, str_equals, str_starts_with, str_to_lowercase, string_from, text_lowercase,
};
use crate::liz_debug::MessageErr;
use crate::liz_forms::{strs_of, texts_of};

verus! {

/// A path separator.
pub open spec fn is_sep(c: char) -> bool {
    c == '/' || c == '\\'
}

/// The separator of the platform (`std::path::MAIN_SEPARATOR`); the contract
/// claims only that it is one of the two path separators.
#[verifier::external_body]
pub fn os_sep() -> (r: char)
    ensures
        is_sep(r),
{
    std::path::MAIN_SEPARATOR
}

/// The separator that a path uses: a backslash if it holds one, else a slash.
pub open spec fn spec_path_sep(p: Seq<char>) -> char {
    if p.contains('\\') {
        '\\'
    } else {
        '/'
    }
}

/// The pieces of a text between the occurrences of a character (always at
/// least one piece).
pub open spec fn split_on(s: Seq<char>, c: char) -> Seq<Seq<char>>
    decreases s.len(),
{
    if s.len() == 0 {
        seq![Seq::empty()]
    } else {
        let p = split_on(s.drop_last(), c);
        if s.last() == c {
            p.push(Seq::empty())
        } else {
            p.update(p.len() - 1, p.last().push(s.last()))
        }
    }
}

pub proof fn lemma_split_on_len(s: Seq<char>, c: char)
    ensures
        split_on(s, c).len() >= 1,
    decreases s.len(),
{
    if s.len() > 0 {
        lemma_split_on_len(s.drop_last(), c);
    }
}

/// The parts of a path: the pieces between its separators, where an empty
/// first piece (a path that starts with the separator) becomes the separator.
pub open spec fn spec_path_parts(p: Seq<char>) -> Seq<Seq<char>> {
    let sep = spec_path_sep(p);
    let parts = split_on(p, sep);
    if parts[0].len() == 0 {
        parts.update(0, seq![sep])
    } else {
        parts
    }
}

/// The parts, each preceded by the separator, joined.
pub open spec fn join_tail(parts: Seq<Seq<char>>, sep: char) -> Seq<char>
    decreases parts.len(),
{
    if parts.len() == 0 {
        Seq::empty()
    } else {
        join_tail(parts.drop_last(), sep) + seq![sep] + parts.last()
    }
}

/// The separator that joining parts uses: a backslash after a drive (a first
/// part with a colon), a slash after a root slash, else the platform's.
pub open spec fn join_sep(parts: Seq<Seq<char>>, os: char) -> char {
    if parts[0].contains(':') {
        '\\'
    } else if parts[0] == seq!['/'] {
        '/'
    } else {
        os
    }
}

/// The path that parts make.
pub open spec fn spec_parts_join(parts: Seq<Seq<char>>, os: char) -> Seq<char> {
    if parts.len() == 0 {
        Seq::empty()
    } else if parts[0] == seq!['/'] {
        if parts.len() > 1 {
            seq!['/'] + parts[1] + join_tail(parts.subrange(2, parts.len() as int), join_sep(parts, os))
        } else {
            seq!['/']
        }
    } else {
        parts[0] + join_tail(parts.subrange(1, parts.len() as int), join_sep(parts, os))
    }
}

/// Whether a text holds a character.
pub fn has_char(s: &str, c: char) -> (r: bool)
    ensures
        r == s@.contains(c),
{
    let v = chars_of(s);
    let mut i: usize = 0;
    while i < v.len()
        invariant
            v@ == s@,
            i <= v@.len(),
            forall|k: int| 0 <= k < i ==> v@[k] != c,
        decreases v@.len() - i,
    {
        if v[i] == c {
            return true;
        }
        i = i + 1;
    }
    false
}

/// The separator that a path uses: a backslash if it holds one, else a slash.
pub fn path_sep(path: &str) -> (r: &'static str)
    ensures
        r@ == seq![spec_path_sep(path@)],
{
    proof {
        reveal_strlit("\\");
        reveal_strlit("/");
    }
    if has_char(path, '\\') {
        "\\"
    } else {
        "/"
    }
}

/// The pieces of a text between the occurrences of a character.
pub fn split_char<'a>(s: &'a str, c: char) -> (r: Vec<&'a str>)
    ensures
        strs_of(r@) == split_on(s@, c),
{
    let v = chars_of(s);
    let mut done: Vec<&'a str> = Vec::new();
    let mut start: usize = 0;
    let mut i: usize = 0;
    proof {
        assert(v@.take(0) =~= Seq::<char>::empty());
        assert(strs_of(done@).push(v@.subrange(0, 0)) =~= seq![Seq::<char>::empty()]);
    }
    while i < v.len()
        invariant
            v@ == s@,
            start <= i <= v@.len(),
            strs_of(done@).push(v@.subrange(start as int, i as int)) == split_on(v@.take(i as int), c),
        decreases v@.len() - i,
    {
        let ghost before = done@;
        proof {
            assert(v@.take(i + 1).drop_last() =~= v@.take(i as int));
        }
        if v[i] == c {
            let piece = s.substring_char(start, i);
            done.push(piece);
            start = i + 1;
            proof {
                assert(strs_of(done@) =~= strs_of(before).push(piece@));
                assert(v@.subrange(start as int, i + 1) =~= Seq::<char>::empty());
                assert(strs_of(done@).push(v@.subrange(start as int, i + 1)) =~= split_on(
                    v@.take(i + 1),
                    c,
                ));
            }
        } else {
            proof {
                let p = split_on(v@.take(i as int), c);
                assert(v@.subrange(start as int, i + 1) =~= v@.subrange(start as int, i as int).push(
                    v@[i as int],
                ));
                assert(strs_of(done@).push(v@.subrange(start as int, i + 1)) =~= p.update(
                    p.len() - 1,
                    p.last().push(v@[i as int]),
                ));
            }
        }
        i = i + 1;
    }
    let piece = s.substring_char(start, v.len());
    let ghost before = done@;
    done.push(piece);
    proof {
        assert(v@.take(v@.len() as int) =~= v@);
        assert(strs_of(done@) =~= strs_of(before).push(piece@));
    }
    done
}

/// The parts of a path (see `spec_path_parts`).
pub fn path_parts<'a>(path: &'a str) -> (r: Vec<&'a str>)
    ensures
        strs_of(r@) == spec_path_parts(path@),
{
    let sep_str = path_sep(path);
    let sep = if has_char(path, '\\') {
        '\\'
    } else {
        '/'
    };
    let mut result = split_char(path, sep);
    proof {
        lemma_split_on_len(path@, sep);
    }
    if result[0].is_empty() {
        let ghost before = result@;
        result.set(0, sep_str);
        proof {
            assert(strs_of(result@) =~= strs_of(before).update(0, seq![sep]));
        }
    }
    result
}

/// The parts, each preceded by the separator, appended to a text.
fn push_tail(result: &mut String, parts: &[&str], start: usize, sep: char)
    requires
        start <= parts@.len(),
    ensures
        final(result)@ == old(result)@ + join_tail(strs_of(parts@).subrange(start as int, parts@.len() as int), sep),
{
    let mut index = start;
    while index < parts.len()
        invariant
            start <= index <= parts@.len(),
            result@ == old(result)@ + join_tail(strs_of(parts@).subrange(start as int, index as int), sep),
        decreases parts@.len() - index,
    {
        let ghost before = result@;
        push_char(result, sep);
        result.append(parts[index]);
        proof {
            let all = strs_of(parts@);
            assert(all.subrange(start as int, index + 1).drop_last() =~= all.subrange(
                start as int,
                index as int,
            ));
            assert(result@ =~= old(result)@ + join_tail(all.subrange(start as int, index + 1), sep));
        }
        index = index + 1;
    }
}

/// The path that parts make, with the given platform separator (see
/// `spec_parts_join`).
pub fn path_parts_join_on(parts: &[&str], os: char) -> (r: String)
    ensures
        r@ == spec_parts_join(strs_of(parts@), os),
{
    let ghost all = strs_of(parts@);
    if parts.len() == 0 {
        return String::new();
    }
    proof {
        reveal_strlit("/");
    }
    let mut result = String::new();
    let mut start: usize = 1;
    let end = parts.len();
    let rooted = str_equals(parts[0], "/");
    if rooted {
        push_char(&mut result, '/');
        if end > 1 {
            result.append(parts[1]);
            start = 2;
        }
    } else {
        result.append(parts[0]);
    }
    let sep = if has_char(parts[0], ':') {
        '\\'
    } else if rooted {
        '/'
    } else {
        os
    };
    proof {
        assert("/"@ =~= seq!['/']);
        assert(all[0] == parts@[0]@);
        if rooted {
            assert(all[0] =~= seq!['/']);
        } else {
            assert(all[0] != seq!['/']);
        }
    }
    push_tail(&mut result, parts, start, sep);
    proof {
        if rooted && end == 1 {
            assert(all.subrange(1, 1) =~= Seq::<Seq<char>>::empty());
            assert(result@ =~= seq!['/']);
        }
        if rooted && end > 1 {
            assert(seq!['/'] + all[1] + join_tail(all.subrange(2, all.len() as int), sep) =~= result@);
        }
    }
    result
}

/// The path that parts make, with the platform's separator: whichever
/// separator the platform has, the result is what `path_parts_join_on` gives
/// with it.
pub fn path_parts_join(parts: &[&str]) -> (r: String)
    ensures
        exists|os: char| is_sep(os) && r@ == spec_parts_join(strs_of(parts@), os),
{
    let os = os_sep();
    path_parts_join_on(parts, os)
}

/// The place of the last occurrence of an item, or -1 where there is none.
pub open spec fn last_index_of<A>(s: Seq<A>, x: A) -> int
    decreases s.len(),
{
    if s.len() == 0 {
        -1
    } else if s.last() == x {
        s.len() - 1
    } else {
        last_index_of(s.drop_last(), x)
    }
}

pub proof fn lemma_last_index_of<A>(s: Seq<A>, x: A)
    ensures
        -1 <= last_index_of(s, x) < s.len(),
        last_index_of(s, x) >= 0 ==> s[last_index_of(s, x)] == x,
        forall|k: int| last_index_of(s, x) < k < s.len() ==> s[k] != x,
        last_index_of(s, x) == -1 <==> !s.contains(x),
    decreases s.len(),
{
    if s.len() > 0 {
        lemma_last_index_of(s.drop_last(), x);
        if s.last() != x {
            assert forall|k: int| last_index_of(s, x) < k < s.len() implies s[k] != x by {
                if k < s.len() - 1 {
                    assert(s.drop_last()[k] == s[k]);
                }
            }
        }
        if s.last() != x && last_index_of(s, x) == -1 {
            assert forall|k: int| 0 <= k < s.len() implies s[k] != x by {
                if k < s.len() - 1 {
                    assert(s.drop_last()[k] == s[k]);
                    assert(!s.drop_last().contains(x));
                }
            }
        }
        if last_index_of(s, x) >= 0 {
            assert(s.contains(x));
        }
    }
}

/// The parts of a path hold at least one part.
pub proof fn lemma_path_parts_len(p: Seq<char>)
    ensures
        spec_path_parts(p).len() >= 1,
{
    lemma_split_on_len(p, spec_path_sep(p));
}

/// The name of a path: its last part.
pub open spec fn spec_path_name(p: Seq<char>) -> Seq<char> {
    spec_path_parts(p).last()
}

/// The stem of a path: its name up to its last dot (empty where it has none).
pub open spec fn spec_path_stem(p: Seq<char>) -> Seq<char> {
    let name = spec_path_name(p);
    let dot = last_index_of(name, '.');
    if dot < 0 {
        Seq::empty()
    } else {
        name.take(dot)
    }
}

/// The extension of a path: its name from its last dot on, the dot included
/// (empty where it has none).
pub open spec fn spec_path_ext(p: Seq<char>) -> Seq<char> {
    let name = spec_path_name(p);
    let dot = last_index_of(name, '.');
    if dot < 0 {
        Seq::empty()
    } else {
        name.skip(dot)
    }
}

/// The place of the last occurrence of a character in a text.
fn rfind_char(s: &str, c: char) -> (r: Option<usize>)
    ensures
        match r {
            Some(k) => k == last_index_of(s@, c),
            None => last_index_of(s@, c) == -1,
        },
{
    let v = chars_of(s);
    let mut i = v.len();
    assert(v@.take(i as int) =~= v@);
    while i > 0
        invariant
            v@ == s@,
            i <= v@.len(),
            last_index_of(v@, c) == last_index_of(v@.take(i as int), c),
        decreases i,
    {
        assert(v@.take(i as int).drop_last() =~= v@.take(i - 1));
        if v[i - 1] == c {
            return Some(i - 1);
        }
        i = i - 1;
    }
    assert(v@.take(0) =~= Seq::<char>::empty());
    None
}

/// The name of a path: its last part.
pub fn path_name<'a>(path: &'a str) -> (r: &'a str)
    ensures
        r@ == spec_path_name(path@),
{
    let parts = path_parts(path);
    proof {
        lemma_path_parts_len(path@);
    }
    let last = parts[parts.len() - 1];
    last
}

/// The stem of a path: its name up to its last dot, or nothing where the name
/// has no dot.
pub fn path_stem<'a>(path: &'a str) -> (r: &'a str)
    ensures
        r@ == spec_path_stem(path@),
{
    let name = path_name(path);
    proof {
        reveal_strlit("");
        lemma_last_index_of(name@, '.');
    }
    match rfind_char(name, '.') {
        Some(dot) => name.substring_char(0, dot),
        None => "",
    }
}

/// The extension of a path: its name from its last dot on, the dot included,
/// or nothing where the name has no dot.
pub fn path_ext<'a>(path: &'a str) -> (r: &'a str)
    ensures
        r@ == spec_path_ext(path@),
{
    let name = path_name(path);
    proof {
        reveal_strlit("");
        lemma_last_index_of(name@, '.');
    }
    match rfind_char(name, '.') {
        Some(dot) => name.substring_char(dot, name.unicode_len()),
        None => "",
    }
}

/// Whether the extension of a path is the given one, compared in lowercase.
pub fn path_ext_is(path: &str, ext: &str) -> (r: bool)
    ensures
        r == (text_lowercase(spec_path_ext(path@)) == text_lowercase(ext@)),
{
    let own = str_to_lowercase(path_ext(path));
    let other = str_to_lowercase(ext);
    str_equals(own.as_str(), other.as_str())
}

/// Whether the extension of a path is one of the given ones, compared in
/// lowercase.
pub fn path_ext_is_on(path: &str, exts: Vec<String>) -> (r: bool)
    ensures
        r == exists|i: int|
            0 <= i < exts@.len() && text_lowercase(#[trigger] exts@[i]@) == text_lowercase(
                spec_path_ext(path@),
            ),
{
    let ext = str_to_lowercase(path_ext(path));
    let mut i: usize = 0;
    while i < exts.len()
        invariant
            i <= exts@.len(),
            ext@ == text_lowercase(spec_path_ext(path@)),
            forall|k: int|
                0 <= k < i ==> text_lowercase(#[trigger] exts@[k]@) != text_lowercase(
                    spec_path_ext(path@),
                ),
        decreases exts@.len() - i,
    {
        let case = str_to_lowercase(exts[i].as_str());
        if str_equals(ext.as_str(), case.as_str()) {
            return true;
        }
        i = i + 1;
    }
    false
}

/// Whether a name, in lowercase, ends with one of the extensions in lowercase.
pub open spec fn ends_with_ext(name: Seq<char>, exts: Seq<Seq<char>>) -> bool {
    exists|j: int| 0 <= j < exts.len() && text_lowercase(#[trigger] exts[j]).is_suffix_of(text_lowercase(name))
}

/// The names, in their order, that end with one of the extensions (see
/// `ends_with_ext`).
pub open spec fn keep_with_exts(names: Seq<Seq<char>>, exts: Seq<Seq<char>>) -> Seq<Seq<char>>
    decreases names.len(),
{
    if names.len() == 0 {
        Seq::empty()
    } else {
        let before = keep_with_exts(names.drop_last(), exts);
        if ends_with_ext(names.last(), exts) {
            before.push(names.last())
        } else {
            before
        }
    }
}

/// Whether a name ends with one of the extensions, compared in lowercase.
fn name_has_ext(name: &str, exts: &Vec<String>) -> (r: bool)
    ensures
        r == ends_with_ext(name@, texts_of(exts@)),
{
    let low = str_to_lowercase(name);
    let mut i: usize = 0;
    while i < exts.len()
        invariant
            i <= exts@.len(),
            low@ == text_lowercase(name@),
            forall|k: int| 0 <= k < i ==> !text_lowercase(#[trigger] texts_of(exts@)[k]).is_suffix_of(low@),
        decreases exts@.len() - i,
    {
        let ext = str_to_lowercase(exts[i].as_str());
        if str_ends_with(low.as_str(), ext.as_str()) {
            assert(texts_of(exts@)[i as int] == exts@[i as int]@);
            return true;
        }
        assert(texts_of(exts@)[i as int] == exts@[i as int]@);
        i = i + 1;
    }
    false
}

/// The names, in their order, that end with one of the extensions, compared
/// in lowercase (as a listing of files by extension keeps them).
pub fn names_with_exts(names: Vec<String>, exts: Vec<String>) -> (r: Vec<String>)
    ensures
        texts_of(r@) == keep_with_exts(texts_of(names@), texts_of(exts@)),
{
    let mut result: Vec<String> = Vec::new();
    let mut i: usize = 0;
    assert(texts_of(names@).take(0) =~= Seq::<Seq<char>>::empty());
    assert(texts_of(result@) =~= Seq::<Seq<char>>::empty());
    while i < names.len()
        invariant
            i <= names@.len(),
            texts_of(result@) == keep_with_exts(texts_of(names@).take(i as int), texts_of(exts@)),
        decreases names@.len() - i,
    {
        let ghost before = result@;
        let ghost t = texts_of(names@).take(i + 1);
        assert(t.drop_last() =~= texts_of(names@).take(i as int));
        assert(t.last() == names@[i as int]@);
        if name_has_ext(names[i].as_str(), &exts) {
            result.push(string_from(names[i].as_str()));
            assert(texts_of(result@) =~= texts_of(before).push(names@[i as int]@));
        }
        i = i + 1;
    }
    assert(texts_of(names@).take(i as int) =~= texts_of(names@));
    result
}

/// What may be said of a path that `is_absolute` judged, on every platform:
/// an absolute path starts with a separator or holds a colon (a drive).
pub open spec fn absolute_allowed(p: Seq<char>, absolute: bool) -> bool {
    absolute ==> (p.len() > 0 && (is_sep(p[0]) || p.contains(':')))
}

/// Whether a path is absolute (`std::path::Path::is_absolute`). Which paths are
/// absolute depends on the platform: on Unix those that start with `/`, on
/// Windows those with a prefix (a drive or a share) and a root. The contract
/// claims only what holds on every platform (`absolute_allowed`).
#[verifier::external_body]
pub fn is_absolute(path: &str) -> (r: bool)
    ensures
        absolute_allowed(path@, r),
{
    std::path::Path::new(path).is_absolute()
}

/// Whether a path is relative: not absolute.
pub fn is_relative(path: &str) -> (r: bool)
    ensures
        absolute_allowed(path@, !r),
{
    !is_absolute(path)
}

/// What a fallible text operation gave, as texts: the result or the message.
pub open spec fn outcome(r: Result<String, MessageErr>) -> Result<Seq<char>, Seq<char>> {
    match r {
        Ok(s) => Ok(s@),
        Err(e) => Err(e@),
    }
}

/// One step of a walk over path parts: `.` stays, `..` goes up (the walk
/// fails where nothing is left to go up from), any other part goes down.
pub open spec fn walk_step(base: Option<Seq<Seq<char>>>, part: Seq<char>) -> Option<Seq<Seq<char>>> {
    match base {
        None => None,
        Some(b) => if part == seq!['.'] {
            Some(b)
        } else if part == seq!['.', '.'] {
            if b.len() == 0 {
                None
            } else {
                Some(b.drop_last())
            }
        } else {
            Some(b.push(part))
        },
    }
}

/// The parts reached by walking the given parts from a base.
pub open spec fn walk_parts(base: Seq<Seq<char>>, parts: Seq<Seq<char>>) -> Option<Seq<Seq<char>>>
    decreases parts.len(),
{
    if parts.len() == 0 {
        Some(base)
    } else {
        walk_step(walk_parts(base, parts.drop_last()), parts.last())
    }
}

/// A walk that failed stays failed.
pub proof fn lemma_walk_fails(base: Seq<Seq<char>>, parts: Seq<Seq<char>>, n: int)
    requires
        0 <= n <= parts.len(),
        walk_parts(base, parts.take(n)) is None,
    ensures
        walk_parts(base, parts) is None,
    decreases parts.len() - n,
{
    if n < parts.len() {
        assert(parts.take(n + 1).drop_last() =~= parts.take(n));
        lemma_walk_fails(base, parts, n + 1);
    } else {
        assert(parts.take(n) =~= parts);
    }
}

/// The message of a walk that went up past its base.
pub open spec fn msg_base_empty() -> Seq<char> {
    "The base path went empty"@
}

/// The message of a relative path taken from a path outside its base.
pub open spec fn msg_not_in_base() -> Seq<char> {
    "The path must starts with the base"@
}

/// The message of a path that has no part left.
pub open spec fn msg_parts_empty() -> Seq<char> {
    "The path parts went empty"@
}

/// The message of a child path that is not relative.
pub open spec fn msg_child_absolute() -> Seq<char> {
    "The child must be relative"@
}

/// The absolute form of a path: the path itself where it is absolute, else
/// its parts walked from the parts of the working directory and joined.
pub open spec fn spec_path_absolute(path: Seq<char>, wd: Seq<char>, absolute: bool, os: char) -> Result<
    Seq<char>,
    Seq<char>,
> {
    if absolute {
        Ok(path)
    } else {
        match walk_parts(spec_path_parts(wd), spec_path_parts(path)) {
            Some(b) => Ok(spec_parts_join(b, os)),
            None => Err(msg_base_empty()),
        }
    }
}

/// The absolute form of a path (see `spec_path_absolute`), given whether the
/// path is absolute, the working directory and the platform's separator.
pub fn path_absolute_on(path: &str, wd: &str, absolute: bool, os: char) -> (r: Result<String, MessageErr>)
    ensures
        outcome(r) == spec_path_absolute(path@, wd@, absolute, os),
{
    if absolute {
        return Ok(string_from(path));
    }
    proof {
        reveal_strlit(".");
        reveal_strlit("..");
        assert("."@ =~= seq!['.']);
        assert(".."@ =~= seq!['.', '.']);
    }
    let mut base_parts = path_parts(wd);
    let parts = path_parts(path);
    let ghost start = strs_of(base_parts@);
    let ghost all = strs_of(parts@);
    let mut i: usize = 0;
    assert(all.take(0) =~= Seq::<Seq<char>>::empty());
    while i < parts.len()
        invariant
            i <= parts@.len(),
            start == spec_path_parts(wd@),
            all == strs_of(parts@),
            all == spec_path_parts(path@),
            "."@ == seq!['.'],
            ".."@ == seq!['.', '.'],
            !absolute,
            walk_parts(start, all.take(i as int)) == Some(strs_of(base_parts@)),
        decreases parts@.len() - i,
    {
        let part = parts[i];
        let ghost before = strs_of(base_parts@);
        assert(all.take(i + 1).drop_last() =~= all.take(i as int));
        assert(all[i as int] == part@);
        assert(all.take(i + 1).last() == part@);
        if str_equals(part, ".") {
        } else if str_equals(part, "..") {
            let ghost old_len = base_parts@.len();
            if base_parts.pop().is_none() {
                proof {
                    assert(old_len == 0);
                    assert(before =~= Seq::<Seq<char>>::empty());
                    lemma_walk_fails(start, all, i + 1);
                }
                return Err(MessageErr::new("The base path went empty"));
            }
            assert(strs_of(base_parts@) =~= before.drop_last());
        } else {
            base_parts.push(part);
            assert(strs_of(base_parts@) =~= before.push(part@));
        }
        i = i + 1;
    }
    assert(all.take(i as int) =~= all);
    Ok(path_parts_join_on(base_parts.as_slice(), os))
}

/// The absolute form of a path, with the working directory given: whatever
/// the platform judges absolute and whatever its separator, the result is
/// what `path_absolute_on` gives with them.
pub fn path_absolute(path: &str, wd: &str) -> (r: Result<String, MessageErr>)
    ensures
        exists|absolute: bool, os: char|
            is_sep(os) && absolute_allowed(path@, absolute) && outcome(r) == spec_path_absolute(
                path@,
                wd@,
                absolute,
                os,
            ),
{
    let absolute = is_absolute(path);
    let os = os_sep();
    path_absolute_on(path, wd, absolute, os)
}

/// A path relative to a base: a relative path stays as it is; an absolute one
/// loses the base (made absolute first where it is not), and gets a leading
/// `.` where what is left starts with the path's separator.
pub open spec fn spec_path_relative(
    path: Seq<char>,
    base: Seq<char>,
    wd: Seq<char>,
    path_absolute: bool,
    base_absolute: bool,
    os: char,
) -> Result<Seq<char>, Seq<char>> {
    if !path_absolute {
        Ok(path)
    } else {
        let full = if !base_absolute {
            spec_path_absolute(base, wd, false, os)
        } else {
            Ok(base)
        };
        match full {
            Err(m) => Err(m),
            Ok(b) => if !b.is_prefix_of(path) {
                Err(msg_not_in_base())
            } else {
                let rest = path.skip(b.len() as int);
                if rest.len() > 0 && rest[0] == spec_path_sep(path) {
                    Ok(seq!['.'] + rest)
                } else {
                    Ok(rest)
                }
            },
        }
    }
}

/// The separator a path is written with: a backslash where it holds one,
/// else a slash.
pub open spec fn own_sep(path: Seq<char>) -> char {
    if path.contains('\\') {
        '\\'
    } else {
        '/'
    }
}

/// Law: an absolute path made relative to a base is never rooted at its own
/// separator. With an absolute base that starts the path, it succeeds, and
/// the base followed by the result is the path, but for a `.` put before a
/// rest that starts with the separator; a path that does not start with an
/// absolute base fails; a relative path comes back unchanged.
pub proof fn law_path_relative(
    path: Seq<char>,
    base: Seq<char>,
    wd: Seq<char>,
    base_absolute: bool,
    os: char,
)
    ensures
        spec_path_relative(path, base, wd, true, base_absolute, os) matches Ok(r) ==> r.len() == 0 || r[0]
            != own_sep(path),
        base.is_prefix_of(path) ==> (spec_path_relative(path, base, wd, true, true, os) matches Ok(r) && (
        base + r == path || (r.len() >= 2 && r[0] == '.' && r[1] == own_sep(path) && base + r.skip(1)
            == path))),
        !base.is_prefix_of(path) ==> spec_path_relative(path, base, wd, true, true, os) is Err,
        spec_path_relative(path, base, wd, false, base_absolute, os) == Ok::<Seq<char>, Seq<char>>(path),
{
    assert(spec_path_sep(path) == own_sep(path));
    if base.is_prefix_of(path) {
        let rest = path.skip(base.len() as int);
        assert(base + rest =~= path);
        if rest.len() > 0 && rest[0] == own_sep(path) {
            assert((seq!['.'] + rest).skip(1) =~= rest);
        }
    }
}

/// A path relative to a base (see `spec_path_relative`), given whether each
/// is absolute, the working directory and the platform's separator.
pub fn path_relative_on(
    path: &str,
    base: &str,
    wd: &str,
    path_absolute: bool,
    base_absolute: bool,
    os: char,
) -> (r: Result<String, MessageErr>)
    ensures
        outcome(r) == spec_path_relative(path@, base@, wd@, path_absolute, base_absolute, os),
{
    if !path_absolute {
        return Ok(string_from(path));
    }
    let full = if !base_absolute {
        match path_absolute_on(base, wd, false, os) {
            Ok(b) => b,
            Err(e) => return Err(e),
        }
    } else {
        string_from(base)
    };
    if !str_starts_with(path, full.as_str()) {
        return Err(MessageErr::new("The path must starts with the base"));
    }
    let sep = if has_char(path, '\\') {
        '\\'
    } else {
        '/'
    };
    let size = full.as_str().unicode_len();
    let rest = path.substring_char(size, path.unicode_len());
    let rest_chars = chars_of(rest);
    if rest_chars.len() > 0 && rest_chars[0] == sep {
        let mut result = String::new();
        push_char(&mut result, '.');
        result.append(rest);
        Ok(result)
    } else {
        Ok(string_from(rest))
    }
}

/// A path relative to a base, with the working directory given: whatever the
/// platform judges absolute and whatever its separator, the result is what
/// `path_relative_on` gives with them.
pub fn path_relative(path: &str, base: &str, wd: &str) -> (r: Result<String, MessageErr>)
    ensures
        exists|pa: bool, ba: bool, os: char|
            is_sep(os) && absolute_allowed(path@, pa) && absolute_allowed(base@, ba) && outcome(r)
                == spec_path_relative(path@, base@, wd@, pa, ba, os),
{
    let pa = is_absolute(path);
    let ba = is_absolute(base);
    let os = os_sep();
    path_relative_on(path, base, wd, pa, ba, os)
}

/// The parent of a path: its absolute form without its last part.
pub open spec fn spec_path_parent(path: Seq<char>, wd: Seq<char>, absolute: bool, os: char) -> Result<
    Seq<char>,
    Seq<char>,
> {
    match spec_path_absolute(path, wd, absolute, os) {
        Err(m) => Err(m),
        Ok(p) => Ok(spec_parts_join(spec_path_parts(p).drop_last(), os)),
    }
}

/// The parent of a path (see `spec_path_parent`), given whether the path is
/// absolute, the working directory and the platform's separator.
pub fn path_parent_on(path: &str, wd: &str, absolute: bool, os: char) -> (r: Result<String, MessageErr>)
    ensures
        outcome(r) == spec_path_parent(path@, wd@, absolute, os),
{
    let full = match path_absolute_on(path, wd, absolute, os) {
        Ok(p) => p,
        Err(e) => return Err(e),
    };
    let mut parts = path_parts(full.as_str());
    let ghost all = strs_of(parts@);
    if parts.pop().is_none() {
        proof {
            lemma_path_parts_len(full@);
        }
        return Err(MessageErr::new("The path parts went empty"));
    }
    assert(strs_of(parts@) =~= all.drop_last());
    Ok(path_parts_join_on(parts.as_slice(), os))
}

/// The parent of a path, with the working directory given: whatever the
/// platform judges absolute and whatever its separator, the result is what
/// `path_parent_on` gives with them.
pub fn path_parent(path: &str, wd: &str) -> (r: Result<String, MessageErr>)
    ensures
        exists|absolute: bool, os: char|
            is_sep(os) && absolute_allowed(path@, absolute) && outcome(r) == spec_path_parent(
                path@,
                wd@,
                absolute,
                os,
            ),
{
    let absolute = is_absolute(path);
    let os = os_sep();
    path_parent_on(path, wd, absolute, os)
}

/// The nearest ancestor of a path (itself included) with the given name:
/// the parts of its absolute form up to the last part with that name.
pub open spec fn spec_path_parent_find(
    path: Seq<char>,
    name: Seq<char>,
    wd: Seq<char>,
    absolute: bool,
    os: char,
) -> Result<Seq<char>, Seq<char>> {
    match spec_path_absolute(path, wd, absolute, os) {
        Err(m) => Err(m),
        Ok(p) => {
            let parts = spec_path_parts(p);
            let k = last_index_of(parts, name);
            if k < 0 {
                Err(msg_parts_empty())
            } else {
                Ok(spec_parts_join(parts.take(k + 1), os))
            }
        },
    }
}

/// The nearest ancestor of a path with the given name (see
/// `spec_path_parent_find`), given whether the path is absolute, the working
/// directory and the platform's separator.
pub fn path_parent_find_on(path: &str, with_name: &str, wd: &str, absolute: bool, os: char) -> (r:
    Result<String, MessageErr>)
    ensures
        outcome(r) == spec_path_parent_find(path@, with_name@, wd@, absolute, os),
{
    let full = match path_absolute_on(path, wd, absolute, os) {
        Ok(p) => p,
        Err(e) => return Err(e),
    };
    let mut parts = path_parts(full.as_str());
    let ghost all = strs_of(parts@);
    assert(all.take(all.len() as int) =~= all);
    loop
        invariant
            spec_path_absolute(path@, wd@, absolute, os) == Ok::<Seq<char>, Seq<char>>(full@),
            all == spec_path_parts(full@),
            parts@.len() <= all.len(),
            strs_of(parts@) == all.take(parts@.len() as int),
            last_index_of(all, with_name@) == last_index_of(all.take(parts@.len() as int), with_name@),
        decreases parts@.len(),
    {
        let ghost n = parts@.len() as int;
        match parts.pop() {
            Some(part) => {
                assert(all.take(n).drop_last() =~= all.take(n - 1));
                assert(all.take(n).last() == part@);
                if str_equals(part, with_name) {
                    parts.push(part);
                    assert(strs_of(parts@) =~= all.take(n));
                    assert(all.take(n).take(n) =~= all.take(n));
                    return Ok(path_parts_join_on(parts.as_slice(), os));
                }
                assert(strs_of(parts@) =~= all.take(n - 1));
            },
            None => {
                assert(all.take(0) =~= Seq::<Seq<char>>::empty());
                return Err(MessageErr::new("The path parts went empty"));
            },
        }
    }
}

/// The nearest ancestor of a path with the given name, with the working
/// directory given: whatever the platform judges absolute and whatever its
/// separator, the result is what `path_parent_find_on` gives with them.
pub fn path_parent_find(path: &str, with_name: &str, wd: &str) -> (r: Result<String, MessageErr>)
    ensures
        exists|absolute: bool, os: char|
            is_sep(os) && absolute_allowed(path@, absolute) && outcome(r) == spec_path_parent_find(
                path@,
                with_name@,
                wd@,
                absolute,
                os,
            ),
{
    let absolute = is_absolute(path);
    let os = os_sep();
    path_parent_find_on(path, with_name, wd, absolute, os)
}

/// Owned copies of text slices.
fn owned_parts(parts: &Vec<&str>) -> (r: Vec<String>)
    ensures
        texts_of(r@) == strs_of(parts@),
{
    let mut r: Vec<String> = Vec::new();
    let mut i: usize = 0;
    while i < parts.len()
        invariant
            i <= parts@.len(),
            texts_of(r@) == strs_of(parts@.take(i as int)),
        decreases parts@.len() - i,
    {
        let item = string_from(parts[i]);
        let ghost before = r@;
        r.push(item);
        assert(parts@.take(i + 1) =~= parts@.take(i as int).push(parts@[i as int]));
        assert(texts_of(r@) =~= texts_of(before).push(item@));
        assert(strs_of(parts@.take(i + 1)) =~= strs_of(parts@.take(i as int)).push(parts@[i as int]@));
        i = i + 1;
    }
    assert(parts@.take(i as int) =~= parts@);
    r
}

/// Text slices of owned texts.
fn borrowed_parts<'a>(parts: &'a Vec<String>) -> (r: Vec<&'a str>)
    ensures
        strs_of(r@) == texts_of(parts@),
{
    let mut r: Vec<&'a str> = Vec::new();
    let mut i: usize = 0;
    while i < parts.len()
        invariant
            i <= parts@.len(),
            strs_of(r@) == texts_of(parts@.take(i as int)),
        decreases parts@.len() - i,
    {
        let item = parts[i].as_str();
        let ghost before = r@;
        r.push(item);
        assert(parts@.take(i + 1) =~= parts@.take(i as int).push(parts@[i as int]));
        assert(strs_of(r@) =~= strs_of(before).push(item@));
        assert(texts_of(parts@.take(i + 1)) =~= texts_of(parts@.take(i as int)).push(parts@[i as int]@));
        i = i + 1;
    }
    assert(parts@.take(i as int) =~= parts@);
    r
}

/// Where the walk of a join over the parts of its child stands.
pub ghost enum JoinWalk {
    /// Walking on: the parts reached, and whether the parts of the path's
    /// absolute form were already taken in.
    Going(Seq<Seq<char>>, bool),
    /// Stopped with a message.
    Failed(Seq<char>),
    /// Stopped where the absolute form of the path has fewer parts than the
    /// path itself, so that their difference cannot be counted.
    Broken,
}

/// One step of a join's walk: `.` stays; `..` goes up, and where nothing is
/// left to go up from a relative path, the walk takes in, once, the parts
/// that the path's absolute form has before the path's own parts and goes up
/// from them; any other part goes down.
pub open spec fn join_part(
    w: JoinWalk,
    part: Seq<char>,
    has_more: bool,
    refill: Result<Seq<Seq<char>>, Seq<char>>,
    initial: int,
) -> JoinWalk {
    match w {
        JoinWalk::Going(b, take_more) => if part == seq!['.'] {
            w
        } else if part == seq!['.', '.'] {
            if b.len() > 0 {
                JoinWalk::Going(b.drop_last(), take_more)
            } else if !take_more && has_more {
                match refill {
                    Err(m) => JoinWalk::Failed(m),
                    Ok(abs) => if abs.len() < initial {
                        JoinWalk::Broken
                    } else {
                        let more = abs.take(abs.len() - initial);
                        if more.len() > 0 {
                            JoinWalk::Going(more.drop_last(), true)
                        } else {
                            JoinWalk::Failed(msg_parts_empty())
                        }
                    },
                }
            } else {
                JoinWalk::Failed(msg_parts_empty())
            }
        } else {
            JoinWalk::Going(b.push(part), take_more)
        },
        _ => w,
    }
}

/// A join's walk over the given parts.
pub open spec fn join_walk(
    w: JoinWalk,
    parts: Seq<Seq<char>>,
    has_more: bool,
    refill: Result<Seq<Seq<char>>, Seq<char>>,
    initial: int,
) -> JoinWalk
    decreases parts.len(),
{
    if parts.len() == 0 {
        w
    } else {
        join_part(join_walk(w, parts.drop_last(), has_more, refill, initial), parts.last(), has_more, refill, initial)
    }
}

/// A join's walk that stopped stays where it stopped.
pub proof fn lemma_join_stops(
    w: JoinWalk,
    parts: Seq<Seq<char>>,
    has_more: bool,
    refill: Result<Seq<Seq<char>>, Seq<char>>,
    initial: int,
    n: int,
)
    requires
        0 <= n <= parts.len(),
        !(join_walk(w, parts.take(n), has_more, refill, initial) is Going),
    ensures
        join_walk(w, parts, has_more, refill, initial) == join_walk(w, parts.take(n), has_more, refill, initial),
    decreases parts.len() - n,
{
    if n < parts.len() {
        assert(parts.take(n + 1).drop_last() =~= parts.take(n));
        lemma_join_stops(w, parts, has_more, refill, initial, n + 1);
    } else {
        assert(parts.take(n) =~= parts);
    }
}

/// A child path joined to a path: an absolute child is refused; else the
/// child's parts are walked from the path's parts (see `join_part`) and
/// joined. `None` where the walk is `Broken`.
pub open spec fn spec_path_join(
    path: Seq<char>,
    child: Seq<char>,
    wd: Seq<char>,
    path_absolute: bool,
    child_absolute: bool,
    os: char,
) -> Option<Result<Seq<char>, Seq<char>>> {
    if child_absolute {
        Some(Err(msg_child_absolute()))
    } else {
        let start = spec_path_parts(path);
        let refill = match spec_path_absolute(path, wd, path_absolute, os) {
            Ok(p) => Ok(spec_path_parts(p)),
            Err(m) => Err(m),
        };
        match join_walk(
            JoinWalk::Going(start, false),
            spec_path_parts(child),
            !path_absolute,
            refill,
            start.len() as int,
        ) {
            JoinWalk::Going(b, _) => Some(Ok(spec_parts_join(b, os))),
            JoinWalk::Failed(m) => Some(Err(m)),
            JoinWalk::Broken => None,
        }
    }
}

/// The walk and join of `spec_path_join`; `None` where it is `Broken`.
fn join_walk_exec(path: &str, child: &str, wd: &str, path_absolute: bool, child_absolute: bool, os: char) -> (r:
    Option<Result<String, MessageErr>>)
    ensures
        match r {
            Some(x) => spec_path_join(path@, child@, wd@, path_absolute, child_absolute, os) == Some(
                outcome(x),
            ),
            None => spec_path_join(path@, child@, wd@, path_absolute, child_absolute, os) is None,
        },
{
    if child_absolute {
        return Some(Err(MessageErr::new("The child must be relative")));
    }
    proof {
        reveal_strlit(".");
        reveal_strlit("..");
        assert("."@ =~= seq!['.']);
        assert(".."@ =~= seq!['.', '.']);
    }
    let first = path_parts(path);
    let mut base = owned_parts(&first);
    let initial = base.len();
    let has_more = !path_absolute;
    let mut take_more = false;
    let child_parts = path_parts(child);
    let ghost start = spec_path_parts(path@);
    let ghost all = strs_of(child_parts@);
    let ghost refill = match spec_path_absolute(path@, wd@, path_absolute, os) {
        Ok(p) => Ok(spec_path_parts(p)),
        Err(m) => Err(m),
    };
    let ghost w0 = JoinWalk::Going(start, false);
    let mut idx: usize = 0;
    assert(all.take(0) =~= Seq::<Seq<char>>::empty());
    while idx < child_parts.len()
        invariant
            "."@ == seq!['.'],
            ".."@ == seq!['.', '.'],
            !child_absolute,
            has_more == !path_absolute,
            start == spec_path_parts(path@),
            initial == start.len(),
            all == strs_of(child_parts@),
            all == spec_path_parts(child@),
            w0 == JoinWalk::Going(start, false),
            refill == match spec_path_absolute(path@, wd@, path_absolute, os) {
                Ok(p) => Ok(spec_path_parts(p)),
                Err(m) => Err::<Seq<Seq<char>>, Seq<char>>(m),
            },
            idx <= child_parts@.len(),
            join_walk(w0, all.take(idx as int), has_more, refill, initial as int) == JoinWalk::Going(
                texts_of(base@),
                take_more,
            ),
        decreases child_parts@.len() - idx,
    {
        let part = child_parts[idx];
        let ghost before = texts_of(base@);
        assert(all.take(idx + 1).drop_last() =~= all.take(idx as int));
        assert(all.take(idx + 1).last() == part@);
        if str_equals(part, ".") {
        } else if str_equals(part, "..") {
            let ghost old_len = base@.len();
            if base.pop().is_none() {
                assert(before =~= Seq::<Seq<char>>::empty());
                if !take_more && has_more {
                    let full = match path_absolute_on(path, wd, path_absolute, os) {
                        Ok(p) => p,
                        Err(e) => {
                            proof {
                                lemma_join_stops(w0, all, has_more, refill, initial as int, idx + 1);
                            }
                            return Some(Err(e));
                        },
                    };
                    let abs_parts = path_parts(full.as_str());
                    let ghost abs_all = strs_of(abs_parts@);
                    if abs_parts.len() < initial {
                        proof {
                            lemma_join_stops(w0, all, has_more, refill, initial as int, idx + 1);
                        }
                        return None;
                    }
                    let dif = abs_parts.len() - initial;
                    let mut k: usize = 0;
                    while k < dif
                        invariant
                            k <= dif,
                            dif <= abs_parts@.len(),
                            abs_all == strs_of(abs_parts@),
                            base@.len() == k,
                            texts_of(base@) == abs_all.take(k as int),
                        decreases dif - k,
                    {
                        let item = string_from(abs_parts[k]);
                        let ghost before_k = base@;
                        base.insert(k, item);
                        assert(base@ =~= before_k.push(item));
                        assert(texts_of(base@) =~= texts_of(before_k).push(item@));
                        assert(abs_all.take(k + 1) =~= abs_all.take(k as int).push(abs_all[k as int]));
                        k = k + 1;
                    }
                    take_more = true;
                    let ghost refilled = texts_of(base@);
                    if base.pop().is_none() {
                        proof {
                            lemma_join_stops(w0, all, has_more, refill, initial as int, idx + 1);
                        }
                        return Some(Err(MessageErr::new("The path parts went empty")));
                    }
                    assert(texts_of(base@) =~= refilled.drop_last());
                } else {
                    proof {
                        lemma_join_stops(w0, all, has_more, refill, initial as int, idx + 1);
                    }
                    return Some(Err(MessageErr::new("The path parts went empty")));
                }
            } else {
                assert(texts_of(base@) =~= before.drop_last());
            }
        } else {
            base.push(string_from(part));
            assert(texts_of(base@) =~= before.push(part@));
        }
        idx = idx + 1;
    }
    assert(all.take(idx as int) =~= all);
    let slices = borrowed_parts(&base);
    Some(Ok(path_parts_join_on(slices.as_slice(), os)))
}

/// A child path joined to a path (see `spec_path_join`), given whether each is
/// absolute, the working directory and the platform's separator. The walk
/// must not be `Broken` (where it would count a negative number of parts).
pub fn path_join_on(path: &str, child: &str, wd: &str, path_absolute: bool, child_absolute: bool, os: char) -> (r:
    Result<String, MessageErr>)
    requires
        spec_path_join(path@, child@, wd@, path_absolute, child_absolute, os) is Some,
    ensures
        spec_path_join(path@, child@, wd@, path_absolute, child_absolute, os) == Some(outcome(r)),
{
    match join_walk_exec(path, child, wd, path_absolute, child_absolute, os) {
        Some(x) => x,
        None => Err(MessageErr::new("The path parts went empty")),
    }
}

/// A child path joined to a path, with the working directory given: whatever
/// the platform judges absolute and whatever its separator, the result is
/// what `path_join_on` gives with them; `None` where that walk is `Broken`.
pub fn path_join(path: &str, child: &str, wd: &str) -> (r: Option<Result<String, MessageErr>>)
    ensures
        exists|pa: bool, ca: bool, os: char|
            is_sep(os) && absolute_allowed(path@, pa) && absolute_allowed(child@, ca) && match r {
                Some(x) => spec_path_join(path@, child@, wd@, pa, ca, os) == Some(outcome(x)),
                None => spec_path_join(path@, child@, wd@, pa, ca, os) is None,
            },
{
    let ca = is_absolute(child);
    let pa = is_absolute(path);
    let os = os_sep();
    join_walk_exec(path, child, wd, pa, ca, os)
}

/// A path joined to a base where it is relative, else the path itself.
pub open spec fn spec_path_join_if_relative(
    base: Seq<char>,
    path: Seq<char>,
    wd: Seq<char>,
    base_absolute: bool,
    path_absolute: bool,
    os: char,
) -> Option<Result<Seq<char>, Seq<char>>> {
    if !path_absolute {
        spec_path_join(base, path, wd, base_absolute, path_absolute, os)
    } else {
        Some(Ok(path))
    }
}

/// A path joined to a base where it is relative (see
/// `spec_path_join_if_relative`), given whether each is absolute, the working
/// directory and the platform's separator.
pub fn path_join_if_relative_on(
    base: &str,
    path: &str,
    wd: &str,
    base_absolute: bool,
    path_absolute: bool,
    os: char,
) -> (r: Result<String, MessageErr>)
    requires
        spec_path_join_if_relative(base@, path@, wd@, base_absolute, path_absolute, os) is Some,
    ensures
        spec_path_join_if_relative(base@, path@, wd@, base_absolute, path_absolute, os) == Some(
            outcome(r),
        ),
{
    if !path_absolute {
        path_join_on(base, path, wd, base_absolute, path_absolute, os)
    } else {
        Ok(string_from(path))
    }
}

/// A path joined to a base where it is relative, with the working directory
/// given: whatever the platform judges absolute and whatever its separator,
/// the result is what `path_join_if_relative_on` gives with them; `None` where
/// the join's walk is `Broken`.
pub fn path_join_if_relative(base: &str, path: &str, wd: &str) -> (r: Option<Result<String, MessageErr>>)
    ensures
        exists|ba: bool, pa: bool, os: char|
            is_sep(os) && absolute_allowed(base@, ba) && absolute_allowed(path@, pa) && match r {
                Some(x) => spec_path_join_if_relative(base@, path@, wd@, ba, pa, os) == Some(
                    outcome(x),
                ),
                None => spec_path_join_if_relative(base@, path@, wd@, ba, pa, os) is None,
            },
{
    let pa = is_absolute(path);
    let ba = is_absolute(base);
    let os = os_sep();
    let r = if !pa {
        join_walk_exec(base, path, wd, ba, pa, os)
    } else {
        Some(Ok(string_from(path)))
    };
    assert(match r {
        Some(x) => spec_path_join_if_relative(base@, path@, wd@, ba, pa, os) == Some(outcome(x)),
        None => spec_path_join_if_relative(base@, path@, wd@, ba, pa, os) is None,
    });
    r
}

/// Law: for the same platform facts, joining a path to a base where it is
/// relative is the plain join when the path is relative, and the path itself,
/// unchanged, when it is absolute.
pub proof fn law_join_if_relative(
    base: Seq<char>,
    path: Seq<char>,
    wd: Seq<char>,
    base_absolute: bool,
    path_absolute: bool,
    os: char,
)
    ensures
        !path_absolute ==> spec_path_join_if_relative(base, path, wd, base_absolute, path_absolute, os)
            == spec_path_join(base, path, wd, base_absolute, path_absolute, os),
        path_absolute ==> spec_path_join_if_relative(base, path, wd, base_absolute, path_absolute, os)
            == Some(Ok::<Seq<char>, Seq<char>>(path)),
{
}

/// The pieces of a text between the occurrences of a character, joined back
/// with that character, give the text.
pub proof fn lemma_split_on_join(s: Seq<char>, c: char)
    ensures
        split_on(s, c)[0] + join_tail(split_on(s, c).skip(1), c) == s,
    decreases s.len(),
{
    lemma_split_on_len(s, c);
    if s.len() == 0 {
        assert(split_on(s, c).skip(1) =~= Seq::<Seq<char>>::empty());
        assert(split_on(s, c)[0] + join_tail(split_on(s, c).skip(1), c) =~= s);
    } else {
        let t = s.drop_last();
        let x = s.last();
        let p = split_on(t, c);
        lemma_split_on_join(t, c);
        lemma_split_on_len(t, c);
        let q = split_on(s, c);
        assert(s =~= t.push(x));
        if x == c {
            assert(q.skip(1) =~= p.skip(1).push(Seq::<char>::empty()));
            assert(q.skip(1).drop_last() =~= p.skip(1));
            assert(q[0] == p[0]);
            assert(join_tail(q.skip(1), c) == join_tail(p.skip(1), c) + seq![c] + Seq::<char>::empty());
            assert(q[0] + join_tail(q.skip(1), c) =~= s);
        } else if p.len() == 1 {
            assert(q.skip(1) =~= Seq::<Seq<char>>::empty());
            assert(p.skip(1) =~= Seq::<Seq<char>>::empty());
            assert(q[0] == p[0].push(x));
            assert(q[0] + join_tail(q.skip(1), c) =~= s);
        } else {
            let r = p.skip(1);
            assert(q.skip(1) =~= r.update(r.len() - 1, r.last().push(x)));
            assert(q.skip(1).drop_last() =~= r.drop_last());
            assert(q[0] == p[0]);
            assert(q.skip(1).last() == r.last().push(x));
            assert(join_tail(r, c) == join_tail(r.drop_last(), c) + seq![c] + r.last());
            assert(join_tail(q.skip(1), c) == join_tail(r.drop_last(), c) + seq![c] + r.last().push(x));
            assert(q[0] + join_tail(q.skip(1), c) =~= s);
        }
    }
}

/// The pieces between the occurrences of a character hold none of it.
pub proof fn lemma_split_on_pieces(s: Seq<char>, c: char)
    ensures
        forall|i: int| 0 <= i < split_on(s, c).len() ==> !(#[trigger] split_on(s, c)[i]).contains(c),
    decreases s.len(),
{
    if s.len() > 0 {
        lemma_split_on_pieces(s.drop_last(), c);
        lemma_split_on_len(s.drop_last(), c);
        let p = split_on(s.drop_last(), c);
        let q = split_on(s, c);
        assert forall|i: int| 0 <= i < q.len() implies !(#[trigger] q[i]).contains(c) by {
            if s.last() != c && i == p.len() - 1 {
                assert(!p[i].contains(c));
                assert forall|k: int| 0 <= k < q[i].len() implies q[i][k] != c by {
                    if k < p[i].len() {
                        assert(q[i][k] == p[i][k]);
                    }
                }
            } else if i < p.len() {
                assert(q[i] == p[i]);
            } else {
                assert(q[i] =~= Seq::<char>::empty());
            }
        }
    }
}

/// The first piece of a text split on a character is the text's start: it
/// is empty exactly when the text starts with the character, and otherwise
/// starts with the text's first character.
pub proof fn lemma_split_on_first(s: Seq<char>, c: char)
    ensures
        split_on(s, c)[0].is_prefix_of(s),
        s.len() > 0 && s[0] != c ==> split_on(s, c)[0].len() > 0,
        s.len() > 0 && s[0] == c ==> split_on(s, c)[0].len() == 0,
{
    lemma_split_on_join(s, c);
    lemma_split_on_len(s, c);
    let q = split_on(s, c);
    assert(s.subrange(0, q[0].len() as int) =~= q[0]);
    if q[0].len() == 0 && q.len() > 1 {
        let r = q.skip(1);
        lemma_join_tail_starts(r, c);
    }
    if q[0].len() == 0 && q.len() == 1 {
        assert(q.skip(1) =~= Seq::<Seq<char>>::empty());
    }
    if s.len() > 0 && s[0] == c && q[0].len() > 0 {
        lemma_split_on_pieces(s, c);
        assert(q[0][0] == s[0]);
        assert(q[0].contains(c));
    }
}

/// Parts joined, each after the separator, start with the separator.
proof fn lemma_join_tail_starts(parts: Seq<Seq<char>>, sep: char)
    requires
        parts.len() > 0,
    ensures
        join_tail(parts, sep).len() > 0,
        join_tail(parts, sep)[0] == sep,
    decreases parts.len(),
{
    let a = join_tail(parts.drop_last(), sep);
    if parts.len() > 1 {
        lemma_join_tail_starts(parts.drop_last(), sep);
        assert((a + seq![sep] + parts.last())[0] == a[0]);
    } else {
        assert(parts.drop_last().len() == 0);
        assert(a.len() == 0);
        assert((a + seq![sep] + parts.last())[0] == sep);
    }
}

/// Whether the parts of a path join back into it, with the given platform
/// separator: a path that starts with a slash and holds no backslash does; so
/// does one whose first part is not empty and not `/`, where it has a single
/// part or the separator that joining uses (a backslash after a drive, else
/// the platform's) is the one that the path uses. Others do not: the empty
/// path becomes `/`, a path that starts with a backslash gets one more.
pub open spec fn parts_join_back(p: Seq<char>, os: char) -> bool {
    let sep = spec_path_sep(p);
    let q = split_on(p, sep);
    if q[0].len() == 0 {
        sep == '/' && p.len() > 0
    } else {
        &&& q[0] != seq!['/']
        &&& (q.len() == 1 || (if q[0].contains(':') {
            '\\'
        } else {
            os
        }) == sep)
    }
}

/// Law: the parts of a path joined back give the path, wherever that can be
/// (see `parts_join_back`).
pub proof fn law_path_parts_join_roundtrip(p: Seq<char>, os: char)
    requires
        is_sep(os),
        parts_join_back(p, os),
    ensures
        spec_parts_join(spec_path_parts(p), os) == p,
{
    let sep = spec_path_sep(p);
    let q = split_on(p, sep);
    lemma_split_on_len(p, sep);
    lemma_split_on_join(p, sep);
    lemma_split_on_first(p, sep);
    let parts = spec_path_parts(p);
    if q[0].len() == 0 {
        // A rooted path: the first part becomes the separator.
        assert(p[0] == sep);
        assert(parts[0] =~= seq!['/']);
        assert(join_sep(parts, os) == '/');
        if q.len() > 1 {
            assert(q.skip(1)[0] == q[1]);
            assert(q.skip(1) =~= seq![q[1]] + q.subrange(2, q.len() as int));
            lemma_join_tail_prepend(q[1], q.subrange(2, q.len() as int), '/');
            assert(parts.subrange(2, parts.len() as int) =~= q.subrange(2, q.len() as int));
            assert(spec_parts_join(parts, os) =~= p);
        } else {
            assert(q.skip(1) =~= Seq::<Seq<char>>::empty());
            assert(p =~= seq!['/']);
        }
    } else {
        assert(parts == q);
        assert(parts.subrange(1, parts.len() as int) =~= q.skip(1));
        if q.len() == 1 {
            assert(q.skip(1) =~= Seq::<Seq<char>>::empty());
            assert(parts.subrange(1, parts.len() as int) =~= Seq::<Seq<char>>::empty());
            assert(spec_parts_join(parts, os) =~= q[0]);
            assert(q[0] + join_tail(q.skip(1), sep) =~= q[0]);
        }
    }
}

/// Joining a part in front of parts, with the separator between.
proof fn lemma_join_tail_prepend(first: Seq<char>, rest: Seq<Seq<char>>, sep: char)
    ensures
        join_tail(seq![first] + rest, sep) == seq![sep] + first + join_tail(rest, sep),
    decreases rest.len(),
{
    if rest.len() == 0 {
        assert(seq![first] + rest =~= seq![first]);
        assert(seq![first].drop_last() =~= Seq::<Seq<char>>::empty());
        assert(join_tail(Seq::<Seq<char>>::empty(), sep) =~= Seq::<char>::empty());
        assert(seq![first].last() == first);
        assert(join_tail(seq![first], sep) =~= seq![sep] + first);
        assert(seq![sep] + first + join_tail(rest, sep) =~= seq![sep] + first);
    } else {
        lemma_join_tail_prepend(first, rest.drop_last(), sep);
        assert((seq![first] + rest).drop_last() =~= seq![first] + rest.drop_last());
        assert(join_tail(seq![first] + rest, sep) =~= seq![sep] + first + join_tail(rest, sep));
    }
}

/// Law: the stem and the extension of a path whose name has a dot make up
/// its name; where the name has no dot, both are empty.
pub proof fn law_path_stem_ext(p: Seq<char>)
    ensures
        spec_path_name(p).contains('.') ==> spec_path_stem(p) + spec_path_ext(p) == spec_path_name(p),
        !spec_path_name(p).contains('.') ==> spec_path_stem(p).len() == 0 && spec_path_ext(p).len() == 0,
{
    let name = spec_path_name(p);
    lemma_last_index_of(name, '.');
    let k = last_index_of(name, '.');
    if k >= 0 {
        assert(name.take(k) + name.skip(k) =~= name);
    }
}

} // verus!
