//! Script paths, fetched script locations, git status and forms made for
//! scripts.

use vstd::prelude::*;

use crate::chars::{push_char, str_ends_with, str_starts_with, str_to_lowercase, string_from, text_lowercase};
use crate::liz_forms::Forms;
use crate::liz_debug::MessageErr;
use crate::liz_paths::{absolute_allowed, is_absolute, is_sep, os_sep, path_parent_on, spec_path_parent};
use crate::liz_texts::{
    contains, first_occurrence, last_occurrence, lemma_first_from, occurs_at, rfind, spec_replace, spec_trim, replace,
    trim,
};

verus! {

/// Whether a text holds a part somewhere.
pub open spec fn holds(s: Seq<char>, p: Seq<char>) -> bool {
    exists|k: int| occurs_at(s, p, k)
}

/// The path of a script suited to the platform: backslashes and slashes
/// become the platform's separator, `.liz` is added where the path does not
/// end (in lowercase) with `.liz` or `.lua`, and `$pwd` and `$liz` are
/// replaced by the working directory and the directory of liz.
pub open spec fn spec_suit_path(path: Seq<char>, os: char, wd: Seq<char>, liz_dir: Seq<char>) -> Seq<char> {
    let r1 = if holds(path, seq!['\\']) && os != '\\' {
        spec_replace(path, seq!['\\'], seq![os])
    } else {
        path
    };
    let r2 = if holds(r1, seq!['/']) && os != '/' {
        spec_replace(r1, seq!['/'], seq![os])
    } else {
        r1
    };
    let low = text_lowercase(r2);
    let r3 = if !(seq!['.', 'l', 'i', 'z'].is_suffix_of(low) || seq!['.', 'l', 'u', 'a'].is_suffix_of(low)) {
        r2 + seq!['.', 'l', 'i', 'z']
    } else {
        r2
    };
    let r4 = if holds(r3, seq!['$', 'p', 'w', 'd']) {
        spec_replace(r3, seq!['$', 'p', 'w', 'd'], wd)
    } else {
        r3
    };
    if holds(r4, seq!['$', 'l', 'i', 'z']) {
        spec_replace(r4, seq!['$', 'l', 'i', 'z'], liz_dir)
    } else {
        r4
    }
}

/// The path of a script suited to a platform with the given separator (see
/// `spec_suit_path`).
pub fn liz_suit_path_on(path: &str, os: char, wd: &str, liz_dir: &str) -> (r: String)
    ensures
        r@ == spec_suit_path(path@, os, wd@, liz_dir@),
{
    proof {
        reveal_strlit("\\");
        reveal_strlit("/");
        reveal_strlit(".liz");
        reveal_strlit(".lua");
        reveal_strlit("$pwd");
        reveal_strlit("$liz");
        assert("\\"@ =~= seq!['\\']);
        assert("/"@ =~= seq!['/']);
        assert(".liz"@ =~= seq!['.', 'l', 'i', 'z']);
        assert(".lua"@ =~= seq!['.', 'l', 'u', 'a']);
        assert("$pwd"@ =~= seq!['$', 'p', 'w', 'd']);
        assert("$liz"@ =~= seq!['$', 'l', 'i', 'z']);
    }
    let mut os_text = String::new();
    push_char(&mut os_text, os);
    let r1 = if contains(path, "\\") && os != '\\' {
        replace(path, "\\", os_text.as_str())
    } else {
        string_from(path)
    };
    let r2 = if contains(r1.as_str(), "/") && os != '/' {
        replace(r1.as_str(), "/", os_text.as_str())
    } else {
        r1
    };
    let check_ext = str_to_lowercase(r2.as_str());
    let r3 = if !(str_ends_with(check_ext.as_str(), ".liz") || str_ends_with(check_ext.as_str(), ".lua")) {
        let mut r = r2;
        r.append(".liz");
        r
    } else {
        r2
    };
    let r4 = if contains(r3.as_str(), "$pwd") {
        replace(r3.as_str(), "$pwd", wd)
    } else {
        r3
    };
    if contains(r4.as_str(), "$liz") {
        replace(r4.as_str(), "$liz", liz_dir)
    } else {
        r4
    }
}

/// The path of a script suited to the platform, with the working directory
/// and the directory of liz given: whatever the platform's separator, the
/// result is what `liz_suit_path_on` gives with it.
pub fn liz_suit_path(path: &str, wd: &str, liz_dir: &str) -> (r: String)
    ensures
        exists|os: char| is_sep(os) && r@ == spec_suit_path(path@, os, wd@, liz_dir@),
{
    let os = os_sep();
    liz_suit_path_on(path, os, wd, liz_dir)
}

/// Where a path enters the directory of fetched scripts: 0 where it starts
/// with `.lizs` and its separator, else the byte offset of the last
/// separator, `.lizs`, separator in it; `None` where there is none.
pub fn get_lizs_path_pos(path: &str) -> (r: Option<usize>)
    requires
        vstd::utf8::encode_utf8(path@).len() <= usize::MAX,
    ensures
        ({
            let sep = if path@.contains('\\') {
                '\\'
            } else {
                '/'
            };
            let head = seq!['.', 'l', 'i', 'z', 's', sep];
            let inner = seq![sep, '.', 'l', 'i', 'z', 's', sep];
            let k = last_occurrence(path@, inner);
            if head.is_prefix_of(path@) {
                r == Some(0usize)
            } else if k >= 0 {
                r matches Some(b) && b == vstd::utf8::encode_utf8(path@.take(k)).len()
            } else {
                r is None
            }
        }),
{
    let separator = if crate::liz_paths::has_char(path, '\\') {
        '\\'
    } else {
        '/'
    };
    let mut lizs_dir = string_from(".lizs");
    push_char(&mut lizs_dir, separator);
    proof {
        reveal_strlit(".lizs");
        assert(lizs_dir@ =~= seq!['.', 'l', 'i', 'z', 's', separator]);
    }
    if str_starts_with(path, lizs_dir.as_str()) {
        return Some(0);
    }
    let mut inner = String::new();
    push_char(&mut inner, separator);
    inner.append(lizs_dir.as_str());
    assert(inner@ =~= seq![separator, '.', 'l', 'i', 'z', 's', separator]);
    rfind(path, inner.as_str())
}

/// Whether the output of `git status` says that there are changes: it does
/// not end, trimmed, with `nothing to commit, working tree clean`.
pub fn git_has_changes(output: &str) -> (r: bool)
    ensures
        r == !"nothing to commit, working tree clean"@.is_suffix_of(spec_trim(output@)),
{
    let output = trim(output);
    !str_ends_with(output.as_str(), "nothing to commit, working tree clean")
}

/// What a search for the root of a git repository does after looking at one
/// directory: it has found the root, or it climbs to the parent directory.
pub enum GitStep {
    Found(String),
    Climb(String),
}

/// A step of the search as a value: whether the root was found, and the path.
pub open spec fn git_step_view(step: GitStep) -> (bool, Seq<char>) {
    match step {
        GitStep::Found(root) => (true, root@),
        GitStep::Climb(parent) => (false, parent@),
    }
}

/// What a step gives, from whether the directory holds `.git` and what its
/// parent is (see `liz_paths::spec_path_parent`): a directory with `.git`
/// is the root; else the search climbs to the parent, and ends on the empty
/// path where no parent is left; a failure to find the parent is the step's.
pub open spec fn spec_git_root_step(actual: Seq<char>, has_git: bool, parent: Result<Seq<char>, Seq<char>>) -> Result<
    (bool, Seq<char>),
    Seq<char>,
> {
    if has_git {
        Ok((true, actual))
    } else {
        match parent {
            Err(m) => Err(m),
            Ok(p) => Ok((p.len() == 0, p)),
        }
    }
}

/// A step as a value, or the message of its failure.
pub open spec fn git_step_outcome(r: Result<GitStep, MessageErr>) -> Result<(bool, Seq<char>), Seq<char>> {
    match r {
        Ok(step) => Ok(git_step_view(step)),
        Err(e) => Err(e@),
    }
}

/// One step of the search for the root of a git repository, given whether
/// the directory `actual` holds `.git`, whether it is absolute, the working
/// directory and the platform's separator (see `spec_git_root_step`).
pub fn git_root_step_on(actual: &str, has_git: bool, wd: &str, absolute: bool, os: char) -> (r: Result<
    GitStep,
    MessageErr,
>)
    ensures
        git_step_outcome(r) == spec_git_root_step(actual@, has_git, spec_path_parent(actual@, wd@, absolute, os)),
{
    if has_git {
        return Ok(GitStep::Found(string_from(actual)));
    }
    match path_parent_on(actual, wd, absolute, os) {
        Err(e) => Err(e),
        Ok(parent) => {
            if parent.as_str().is_empty() {
                Ok(GitStep::Found(parent))
            } else {
                Ok(GitStep::Climb(parent))
            }
        },
    }
}

/// One step of the search for the root of a git repository, given whether
/// the directory `actual` holds `.git` and the working directory: whatever
/// the platform judges absolute and whatever its separator, the result is
/// what `git_root_step_on` gives with them.
pub fn git_root_step(actual: &str, has_git: bool, wd: &str) -> (r: Result<GitStep, MessageErr>)
    ensures
        exists|absolute: bool, os: char|
            is_sep(os) && absolute_allowed(actual@, absolute) && git_step_outcome(r)
                == spec_git_root_step(actual@, has_git, spec_path_parent(actual@, wd@, absolute, os)),
{
    let absolute = is_absolute(actual);
    let os = os_sep();
    git_root_step_on(actual, has_git, wd, absolute, os)
}

/// Forms with nothing on the desk.
pub fn edit() -> (r: Forms)
    ensures
        r.desk@.len() == 0,
{
    Forms { desk: Vec::new() }
}

/// Forms with one form on the desk: the source.
pub fn code(source: String) -> (r: Forms)
    ensures
        r.desk@ == seq![source],
{
    let mut desk: Vec<String> = Vec::new();
    desk.push(source);
    assert(desk@ =~= seq![source]);
    Forms { desk }
}

/// Forms with the given terms on the desk.
pub fn desk(terms: Vec<String>) -> (r: Forms)
    ensures
        r.desk@ == terms@,
{
    Forms { desk: terms }
}

/// The code of a script to evaluate: its text trimmed and, where it starts
/// with `#!`, without its first line (trimmed again).
pub open spec fn spec_eval_source(source: Seq<char>) -> Seq<char> {
    let s = spec_trim(source);
    if seq!['#', '!'].is_prefix_of(s) {
        let k = first_occurrence(s, seq!['\n']);
        if k >= 0 {
            spec_trim(s.skip(k + 1))
        } else {
            s
        }
    } else {
        s
    }
}

/// Law: of a script whose trimmed text starts with `#!`, only the first line
/// is dropped: for any split of the trimmed text into a first line (without
/// a line break), a line break and the rest, the code is the rest, trimmed.
/// A script that does not start with `#!` is kept whole, trimmed.
pub proof fn law_eval_source_first_line(source: Seq<char>, first: Seq<char>, rest: Seq<char>)
    ensures
        spec_trim(source) == first + seq!['\n'] + rest && !first.contains('\n') && seq!['#', '!'].is_prefix_of(
            first,
        ) ==> spec_eval_source(source) == spec_trim(rest),
        !seq!['#', '!'].is_prefix_of(spec_trim(source)) ==> spec_eval_source(source) == spec_trim(source),
{
    let s = spec_trim(source);
    if s == first + seq!['\n'] + rest && !first.contains('\n') && seq!['#', '!'].is_prefix_of(first) {
        let nl = seq!['\n'];
        let k = first.len() as int;
        lemma_first_from(s, nl, 0);
        assert(s.subrange(k, k + 1) =~= nl);
        assert(occurs_at(s, nl, k));
        assert forall|j: int| 0 <= j < k implies !occurs_at(s, nl, j) by {
            if occurs_at(s, nl, j) {
                assert(s.subrange(j, j + 1)[0] == s[j]);
                assert(s[j] == first[j]);
                assert(first.contains('\n'));
            }
        }
        let f = first_occurrence(s, nl);
        if f != k {
            if f < 0 {
                assert(!occurs_at(s, nl, k));
            } else if f < k {
                assert(!occurs_at(s, nl, f));
            } else {
                assert(!occurs_at(s, nl, k));
            }
        }
        assert(seq!['#', '!'].is_prefix_of(s)) by {
            assert(s[0] == first[0]);
            assert(s[1] == first[1]);
        }
        assert(s.skip(k + 1) =~= rest);
    }
}

/// The code of a script to evaluate (see `spec_eval_source`); the evaluation
/// itself is the caller's part.
pub fn eval_source(source: &str) -> (r: String)
    ensures
        r@ == spec_eval_source(source@),
{
    proof {
        reveal_strlit("#!");
        reveal_strlit("\n");
        assert("#!"@ =~= seq!['#', '!']);
        assert("\n"@ =~= seq!['\n']);
    }
    let s = trim(source);
    if str_starts_with(s.as_str(), "#!") {
        match crate::liz_texts::find_index(s.as_str(), "\n") {
            Some(k) => {
                let n = s.as_str().unicode_len();
                trim(s.as_str().substring_char(k + 1, n))
            },
            None => s,
        }
    } else {
        s
    }
}

} // verus!
