//! Grouping of forms: neighbouring forms are joined when a pair of tests
//! accepts the form gathered so far on the left and the next form on the right.

use vstd::prelude::*;

use crate::liz_debug::MessageErr;
use crate::liz_forms::{kit_add_range, kit_del_range, kit_len, lemma_texts_add, lemma_texts_push, lemma_texts_subrange, texts_of};
use crate::liz_logic::{sense_apply, spec_sense_apply, Sense};
use crate::liz_regex::{regex_compiles, regex_error_message, regex_matches, regex_test};
use crate::liz_texts::{is_equals, is_likely, is_punctuation, is_whitespace, spec_likely};
use crate::chars::{spec_all_punctuation, spec_all_whitespace, string_from};

verus! {

/// The implied tests of a form.
#[derive(Debug, Clone)]
pub enum GroupImply {
    Any,
    WhiteSpace,
    Punctuation,
}

/// How a test of a form is described by a script.
#[derive(Debug, Clone)]
pub enum GroupIf {
    Equals(Sense, String),
    Likely(Sense, String),
    Regex(Sense, String),
    Imply(Sense, GroupImply),
}

/// A test of the left form and a test of the right form.
#[derive(Debug, Clone)]
pub struct GroupPair {
    pub left: GroupIf,
    pub right: GroupIf,
}

/// A pair of tests.
pub fn group_pair(left: GroupIf, right: GroupIf) -> (r: GroupPair)
    ensures
        r == (GroupPair { left, right }),
{
    GroupPair { left, right }
}

/// The form equals the term.
pub fn group_equals(term: String) -> (r: GroupIf)
    ensures
        r == GroupIf::Equals(Sense::Same, term),
{
    GroupIf::Equals(Sense::Same, term)
}

/// The form does not equal the term.
pub fn group_equals_not(term: String) -> (r: GroupIf)
    ensures
        r == GroupIf::Equals(Sense::Swap, term),
{
    GroupIf::Equals(Sense::Swap, term)
}

/// The form is likely the term.
pub fn group_likely(term: String) -> (r: GroupIf)
    ensures
        r == GroupIf::Likely(Sense::Same, term),
{
    GroupIf::Likely(Sense::Same, term)
}

/// The form is not likely the term.
pub fn group_likely_not(term: String) -> (r: GroupIf)
    ensures
        r == GroupIf::Likely(Sense::Swap, term),
{
    GroupIf::Likely(Sense::Swap, term)
}

/// The regex matches in the form.
pub fn group_regex(phrase: String) -> (r: GroupIf)
    ensures
        r == GroupIf::Regex(Sense::Same, phrase),
{
    GroupIf::Regex(Sense::Same, phrase)
}

/// The regex does not match in the form.
pub fn group_regex_not(regex: String) -> (r: GroupIf)
    ensures
        r == GroupIf::Regex(Sense::Swap, regex),
{
    GroupIf::Regex(Sense::Swap, regex)
}

/// Any form.
pub fn group_any() -> (r: GroupIf)
    ensures
        r == GroupIf::Imply(Sense::Same, GroupImply::Any),
{
    GroupIf::Imply(Sense::Same, GroupImply::Any)
}

/// No form.
pub fn group_any_not() -> (r: GroupIf)
    ensures
        r == GroupIf::Imply(Sense::Swap, GroupImply::Any),
{
    GroupIf::Imply(Sense::Swap, GroupImply::Any)
}

/// The form is all white space.
pub fn group_white_space() -> (r: GroupIf)
    ensures
        r == GroupIf::Imply(Sense::Same, GroupImply::WhiteSpace),
{
    GroupIf::Imply(Sense::Same, GroupImply::WhiteSpace)
}

/// The form is not all white space.
pub fn group_white_space_not() -> (r: GroupIf)
    ensures
        r == GroupIf::Imply(Sense::Swap, GroupImply::WhiteSpace),
{
    GroupIf::Imply(Sense::Swap, GroupImply::WhiteSpace)
}

/// The form is all ASCII punctuation.
pub fn group_punctuation() -> (r: GroupIf)
    ensures
        r == GroupIf::Imply(Sense::Same, GroupImply::Punctuation),
{
    GroupIf::Imply(Sense::Same, GroupImply::Punctuation)
}

/// The form is not all ASCII punctuation.
pub fn group_punctuation_not() -> (r: GroupIf)
    ensures
        r == GroupIf::Imply(Sense::Swap, GroupImply::Punctuation),
{
    GroupIf::Imply(Sense::Swap, GroupImply::Punctuation)
}

/// A test of one form.
pub trait GroupTrait {
    /// What the test answers on a form.
    spec fn spec_checks(&self, term: Seq<char>) -> bool;

    /// Whether the test can be asked (a regex test needs a valid pattern).
    spec fn spec_ready(&self) -> bool;

    fn checks(&self, term: &str) -> (r: bool)
        requires
            self.spec_ready(),
        ensures
            r == self.spec_checks(term@),
    ;
}

/// The form equals a term.
pub struct GroupEquals {
    pub sense: Sense,
    pub equals: String,
}

impl GroupTrait for GroupEquals {
    open spec fn spec_checks(&self, term: Seq<char>) -> bool {
        spec_sense_apply(self.sense, term == self.equals@)
    }

    open spec fn spec_ready(&self) -> bool {
        true
    }

    fn checks(&self, term: &str) -> (r: bool) {
        sense_apply(self.sense, is_equals(term, self.equals.as_str()))
    }
}

/// The form is likely a term.
pub struct GroupLikely {
    pub sense: Sense,
    pub likely: String,
}

impl GroupTrait for GroupLikely {
    open spec fn spec_checks(&self, term: Seq<char>) -> bool {
        spec_sense_apply(self.sense, spec_likely(term, self.likely@))
    }

    open spec fn spec_ready(&self) -> bool {
        true
    }

    fn checks(&self, term: &str) -> (r: bool) {
        sense_apply(self.sense, is_likely(term, self.likely.as_str()))
    }
}

/// A regex matches in the form.
pub struct GroupRegex {
    pub sense: Sense,
    pub regex: String,
}

impl GroupTrait for GroupRegex {
    open spec fn spec_checks(&self, term: Seq<char>) -> bool {
        spec_sense_apply(self.sense, regex_matches(self.regex@, term))
    }

    open spec fn spec_ready(&self) -> bool {
        regex_compiles(self.regex@)
    }

    fn checks(&self, term: &str) -> (r: bool) {
        match regex_test(self.regex.as_str(), term) {
            Ok(found) => sense_apply(self.sense, found),
            Err(_) => false,
        }
    }
}

/// Any form.
pub struct GroupAny {
    pub sense: Sense,
}

impl GroupTrait for GroupAny {
    open spec fn spec_checks(&self, term: Seq<char>) -> bool {
        spec_sense_apply(self.sense, true)
    }

    open spec fn spec_ready(&self) -> bool {
        true
    }

    fn checks(&self, term: &str) -> (r: bool) {
        sense_apply(self.sense, true)
    }
}

/// The form is all white space.
pub struct GroupWhiteSpace {
    pub sense: Sense,
}

impl GroupTrait for GroupWhiteSpace {
    open spec fn spec_checks(&self, term: Seq<char>) -> bool {
        spec_sense_apply(self.sense, spec_all_whitespace(term))
    }

    open spec fn spec_ready(&self) -> bool {
        true
    }

    fn checks(&self, term: &str) -> (r: bool) {
        sense_apply(self.sense, is_whitespace(term))
    }
}

/// The form is all ASCII punctuation.
pub struct GroupPunctuation {
    pub sense: Sense,
}

impl GroupTrait for GroupPunctuation {
    open spec fn spec_checks(&self, term: Seq<char>) -> bool {
        spec_sense_apply(self.sense, spec_all_punctuation(term))
    }

    open spec fn spec_ready(&self) -> bool {
        true
    }

    fn checks(&self, term: &str) -> (r: bool) {
        sense_apply(self.sense, is_punctuation(term))
    }
}

/// A test ready to be asked.
pub enum GroupKind {
    Equals(GroupEquals),
    Likely(GroupLikely),
    Regex(GroupRegex),
    Any(GroupAny),
    WhiteSpace(GroupWhiteSpace),
    Punctuation(GroupPunctuation),
}

impl GroupTrait for GroupKind {
    open spec fn spec_checks(&self, term: Seq<char>) -> bool {
        match self {
            GroupKind::Equals(g) => g.spec_checks(term),
            GroupKind::Likely(g) => g.spec_checks(term),
            GroupKind::Regex(g) => g.spec_checks(term),
            GroupKind::Any(g) => g.spec_checks(term),
            GroupKind::WhiteSpace(g) => g.spec_checks(term),
            GroupKind::Punctuation(g) => g.spec_checks(term),
        }
    }

    open spec fn spec_ready(&self) -> bool {
        match self {
            GroupKind::Regex(g) => g.spec_ready(),
            _ => true,
        }
    }

    fn checks(&self, term: &str) -> (r: bool) {
        match self {
            GroupKind::Equals(g) => g.checks(term),
            GroupKind::Likely(g) => g.checks(term),
            GroupKind::Regex(g) => g.checks(term),
            GroupKind::Any(g) => g.checks(term),
            GroupKind::WhiteSpace(g) => g.checks(term),
            GroupKind::Punctuation(g) => g.checks(term),
        }
    }
}

/// The test that a description stands for.
pub open spec fn grouper_of(test: GroupIf) -> GroupKind {
    match test {
        GroupIf::Equals(sense, equals) => GroupKind::Equals(GroupEquals { sense, equals }),
        GroupIf::Likely(sense, likely) => GroupKind::Likely(GroupLikely { sense, likely }),
        GroupIf::Regex(sense, regex) => GroupKind::Regex(GroupRegex { sense, regex }),
        GroupIf::Imply(sense, GroupImply::Any) => GroupKind::Any(GroupAny { sense }),
        GroupIf::Imply(sense, GroupImply::WhiteSpace) => GroupKind::WhiteSpace(
            GroupWhiteSpace { sense },
        ),
        GroupIf::Imply(sense, GroupImply::Punctuation) => GroupKind::Punctuation(
            GroupPunctuation { sense },
        ),
    }
}

/// Whether a description can be made a test: a regex must compile.
pub open spec fn test_valid(test: GroupIf) -> bool {
    test matches GroupIf::Regex(_, regex) ==> regex_compiles(regex@)
}

/// Whether both tests of a pair can be made.
pub open spec fn pair_valid(pair: GroupPair) -> bool {
    test_valid(pair.left) && test_valid(pair.right)
}

/// The pairs of tests that descriptions stand for.
pub open spec fn groupers_of(groups: Seq<GroupPair>) -> Seq<(GroupKind, GroupKind)> {
    groups.map_values(|p: GroupPair| (grouper_of(p.left), grouper_of(p.right)))
}

impl GroupIf {
    /// The test that this description stands for; fails on a regex that does
    /// not compile.
    pub fn get_grouper(self) -> (r: Result<GroupKind, MessageErr>)
        ensures
            r is Ok <==> test_valid(self),
            r matches Ok(g) ==> g == grouper_of(self) && g.spec_ready(),
    {
        match self {
            GroupIf::Equals(sense, equals) => Ok(GroupKind::Equals(GroupEquals { sense, equals })),
            GroupIf::Likely(sense, likely) => Ok(GroupKind::Likely(GroupLikely { sense, likely })),
            GroupIf::Regex(sense, regex) => {
                match regex_test(regex.as_str(), "") {
                    Ok(_) => Ok(GroupKind::Regex(GroupRegex { sense, regex })),
                    Err(err) => Err(MessageErr::of(regex_error_message(&err))),
                }
            },
            GroupIf::Imply(sense, imply) => match imply {
                GroupImply::Any => Ok(GroupKind::Any(GroupAny { sense })),
                GroupImply::WhiteSpace => Ok(GroupKind::WhiteSpace(GroupWhiteSpace { sense })),
                GroupImply::Punctuation => Ok(GroupKind::Punctuation(GroupPunctuation { sense })),
            },
        }
    }
}

/// The pairs of tests of the descriptions, in order; fails when a regex does
/// not compile.
pub fn get_groupers(groups: Vec<GroupPair>) -> (r: Result<Vec<(GroupKind, GroupKind)>, MessageErr>)
    ensures
        r is Ok <==> forall|i: int| 0 <= i < groups@.len() ==> pair_valid(#[trigger] groups@[i]),
        r matches Ok(gs) ==> gs@ == groupers_of(groups@) && forall|i: int|
            0 <= i < gs@.len() ==> (#[trigger] gs@[i]).0.spec_ready() && gs@[i].1.spec_ready(),
{
    let ghost all = groups@;
    let mut pending = groups;
    let mut reversed: Vec<(GroupKind, GroupKind)> = Vec::new();
    while pending.len() > 0
        invariant
            all == groups@,
            pending@ == all.take(pending@.len() as int),
            pending@.len() <= all.len(),
            reversed@.len() == all.len() - pending@.len(),
            forall|j: int|
                0 <= j < reversed@.len() ==> #[trigger] reversed@[j] == (
                grouper_of(all[all.len() - 1 - j].left),
                grouper_of(all[all.len() - 1 - j].right),
            ) && reversed@[j].0.spec_ready() && reversed@[j].1.spec_ready(),
            forall|j: int| pending@.len() <= j < all.len() ==> pair_valid(#[trigger] all[j]),
        decreases pending@.len(),
    {
        let ghost n = pending@.len();
        let pair = pending.pop().unwrap();
        assert(pair == all[n - 1]);
        let left = match pair.left.get_grouper() {
            Ok(g) => g,
            Err(err) => {
                assert(!pair_valid(groups@[n - 1]));
                return Err(err);
            },
        };
        let right = match pair.right.get_grouper() {
            Ok(g) => g,
            Err(err) => {
                assert(!pair_valid(groups@[n - 1]));
                return Err(err);
            },
        };
        reversed.push((left, right));
        assert(pending@ =~= all.take(n - 1));
    }
    let mut result: Vec<(GroupKind, GroupKind)> = Vec::new();
    while reversed.len() > 0
        invariant
            reversed@.len() + result@.len() == all.len(),
            forall|j: int|
                0 <= j < reversed@.len() ==> #[trigger] reversed@[j] == (
                grouper_of(all[all.len() - 1 - j].left),
                grouper_of(all[all.len() - 1 - j].right),
            ) && reversed@[j].0.spec_ready() && reversed@[j].1.spec_ready(),
            forall|j: int|
                0 <= j < result@.len() ==> #[trigger] result@[j] == (
                grouper_of(all[j].left),
                grouper_of(all[j].right),
            ) && result@[j].0.spec_ready() && result@[j].1.spec_ready(),
        decreases reversed@.len(),
    {
        let g = reversed.pop().unwrap();
        result.push(g);
    }
    assert(result@ =~= groupers_of(all));
    Ok(result)
}

/// Whether some pair accepts the left form and the right form.
pub open spec fn should_group(groupers: Seq<(GroupKind, GroupKind)>, left: Seq<char>, right: Seq<
    char,
>) -> bool {
    exists|i: int|
        0 <= i < groupers.len() && (#[trigger] groupers[i]).0.spec_checks(left)
            && groupers[i].1.spec_checks(right)
}

/// The state of a grouping: the forms left to read, the forms made, and the
/// form gathered, if any.
pub ghost struct GroupState {
    pub origins: Seq<Seq<char>>,
    pub results: Seq<Seq<char>>,
    pub accrued: Option<Seq<char>>,
}

/// Makes a form of what was gathered, if anything.
pub open spec fn gs_commit(st: GroupState) -> GroupState {
    match st.accrued {
        Some(a) => GroupState { results: st.results.push(a), accrued: None, ..st },
        None => st,
    }
}

/// Gathers a term after what was gathered.
pub open spec fn gs_accrue(st: GroupState, term: Seq<char>) -> GroupState {
    match st.accrued {
        Some(a) => GroupState { accrued: Some(a + term), ..st },
        None => GroupState { accrued: Some(term), ..st },
    }
}

/// What a grouping does with the next term.
pub open spec fn group_step(
    groupers: Seq<(GroupKind, GroupKind)>,
    recursive: bool,
    st: GroupState,
    term: Seq<char>,
) -> GroupState {
    match st.accrued {
        None => gs_accrue(st, term),
        Some(a) => if should_group(groupers, a, term) {
            let s1 = gs_accrue(st, term);
            if recursive {
                s1
            } else {
                gs_commit(s1)
            }
        } else {
            gs_accrue(gs_commit(st), term)
        },
    }
}

/// The state after grouping the terms in order, from a state.
pub open spec fn group_fold(
    groupers: Seq<(GroupKind, GroupKind)>,
    recursive: bool,
    st: GroupState,
    terms: Seq<Seq<char>>,
) -> GroupState
    decreases terms.len(),
{
    if terms.len() == 0 {
        st
    } else {
        group_fold(groupers, recursive, group_step(groupers, recursive, st, terms[0]), terms.drop_first())
    }
}

/// The forms that grouping the terms with the pairs of tests makes.
pub open spec fn group_texts(groups: Seq<GroupPair>, recursive: bool, terms: Seq<Seq<char>>) -> Seq<
    Seq<char>,
> {
    let start = GroupState { origins: Seq::empty(), results: Seq::empty(), accrued: None };
    gs_commit(group_fold(groupers_of(groups), recursive, start, terms)).results
}

/// The text of a grouping state: the forms made and what is gathered, joined.
pub open spec fn gs_text(st: GroupState) -> Seq<char> {
    st.results.flatten() + match st.accrued {
        Some(a) => a,
        None => Seq::<char>::empty(),
    }
}

proof fn lemma_commit_text(st: GroupState)
    ensures
        gs_text(gs_commit(st)) == gs_text(st),
        gs_commit(st).accrued is None,
{
    if let Some(a) = st.accrued {
        st.results.lemma_flatten_push(a);
        assert(st.results.push(a).flatten() + Seq::<char>::empty() =~= st.results.flatten() + a);
    }
}

proof fn lemma_accrue_text(st: GroupState, term: Seq<char>)
    ensures
        gs_text(gs_accrue(st, term)) == gs_text(st) + term,
{
    match st.accrued {
        Some(a) => {
            assert(st.results.flatten() + (a + term) =~= st.results.flatten() + a + term);
        },
        None => {
            assert(st.results.flatten() + term =~= st.results.flatten() + Seq::<char>::empty()
                + term);
        },
    }
}

proof fn lemma_fold_text(
    groupers: Seq<(GroupKind, GroupKind)>,
    recursive: bool,
    st: GroupState,
    terms: Seq<Seq<char>>,
)
    ensures
        gs_text(group_fold(groupers, recursive, st, terms)) == gs_text(st) + terms.flatten(),
    decreases terms.len(),
{
    if terms.len() == 0 {
        assert(gs_text(st) + terms.flatten() =~= gs_text(st));
    } else {
        let t = terms[0];
        let next = group_step(groupers, recursive, st, t);
        match st.accrued {
            None => lemma_accrue_text(st, t),
            Some(a) => {
                if should_group(groupers, a, t) {
                    lemma_accrue_text(st, t);
                    lemma_commit_text(gs_accrue(st, t));
                } else {
                    lemma_commit_text(st);
                    lemma_accrue_text(gs_commit(st), t);
                }
            },
        }
        assert(gs_text(next) == gs_text(st) + t);
        lemma_fold_text(groupers, recursive, next, terms.drop_first());
        assert(terms.flatten() == t + terms.drop_first().flatten());
        assert(gs_text(st) + t + terms.drop_first().flatten() =~= gs_text(st) + terms.flatten());
    }
}

/// Grouping keeps the text: the forms made, joined, are the forms grouped,
/// joined.
pub proof fn law_group_keeps_text(groups: Seq<GroupPair>, recursive: bool, terms: Seq<Seq<char>>)
    ensures
        group_texts(groups, recursive, terms).flatten() == terms.flatten(),
{
    let start = GroupState { origins: Seq::empty(), results: Seq::empty(), accrued: None };
    let end = group_fold(groupers_of(groups), recursive, start, terms);
    lemma_fold_text(groupers_of(groups), recursive, start, terms);
    lemma_commit_text(end);
    assert(gs_text(start) =~= Seq::<char>::empty());
    assert(gs_text(gs_commit(end)) =~= gs_commit(end).results.flatten());
    assert(Seq::<char>::empty() + terms.flatten() =~= terms.flatten());
}

proof fn lemma_fold_alone(
    groupers: Seq<(GroupKind, GroupKind)>,
    recursive: bool,
    st: GroupState,
    terms: Seq<Seq<char>>,
)
    requires
        groupers.len() == 0,
    ensures
        gs_commit(group_fold(groupers, recursive, st, terms)).results == gs_commit(st).results
            + terms,
    decreases terms.len(),
{
    if terms.len() == 0 {
        assert(gs_commit(st).results + terms =~= gs_commit(st).results);
    } else {
        let t = terms[0];
        let next = group_step(groupers, recursive, st, t);
        assert(next == gs_accrue(gs_commit(st), t));
        assert(gs_commit(next).results == gs_commit(st).results.push(t));
        lemma_fold_alone(groupers, recursive, next, terms.drop_first());
        assert(gs_commit(st).results.push(t) + terms.drop_first() =~= gs_commit(st).results
            + terms);
    }
}

/// Without pairs of tests nothing is grouped: the forms stay as they are.
pub proof fn law_group_without_pairs(recursive: bool, terms: Seq<Seq<char>>)
    ensures
        group_texts(Seq::empty(), recursive, terms) == terms,
{
    let start = GroupState { origins: Seq::empty(), results: Seq::empty(), accrued: None };
    assert(groupers_of(Seq::empty()) =~= Seq::<(GroupKind, GroupKind)>::empty());
    lemma_fold_alone(groupers_of(Seq::empty()), recursive, start, terms);
    assert(Seq::<Seq<char>>::empty() + terms =~= terms);
}

/// Whether the pairs hold one that accepts any form on both sides.
pub open spec fn has_any_pair(groups: Seq<GroupPair>) -> bool {
    exists|i: int|
        0 <= i < groups.len() && (#[trigger] groups[i]).left == GroupIf::Imply(Sense::Same, GroupImply::Any)
            && groups[i].right == GroupIf::Imply(Sense::Same, GroupImply::Any)
}

/// Neighbouring forms joined two by two, in order; a last form without a
/// neighbour stays alone.
pub open spec fn joined_pairs(terms: Seq<Seq<char>>) -> Seq<Seq<char>>
    decreases terms.len(),
{
    if terms.len() == 0 {
        Seq::empty()
    } else if terms.len() == 1 {
        seq![terms[0]]
    } else {
        seq![terms[0] + terms[1]] + joined_pairs(terms.skip(2))
    }
}

proof fn lemma_any_pair_accepts(groups: Seq<GroupPair>)
    requires
        has_any_pair(groups),
    ensures
        forall|a: Seq<char>, b: Seq<char>| #[trigger] should_group(groupers_of(groups), a, b),
{
    let i = choose|i: int|
        0 <= i < groups.len() && (#[trigger] groups[i]).left == GroupIf::Imply(Sense::Same, GroupImply::Any)
            && groups[i].right == GroupIf::Imply(Sense::Same, GroupImply::Any);
    let gs = groupers_of(groups);
    assert(gs[i] == (grouper_of(groups[i].left), grouper_of(groups[i].right)));
    assert forall|a: Seq<char>, b: Seq<char>| #[trigger] should_group(gs, a, b) by {
        assert(gs[i].0.spec_checks(a));
        assert(gs[i].1.spec_checks(b));
    }
}

proof fn lemma_fold_chain(groupers: Seq<(GroupKind, GroupKind)>, st: GroupState, a: Seq<char>, terms: Seq<Seq<char>>)
    requires
        forall|l: Seq<char>, r: Seq<char>| #[trigger] should_group(groupers, l, r),
        st.accrued == Some(a),
    ensures
        group_fold(groupers, true, st, terms) == (GroupState { accrued: Some(a + terms.flatten()), ..st }),
    decreases terms.len(),
{
    if terms.len() == 0 {
        assert(a + terms.flatten() =~= a);
    } else {
        let t = terms[0];
        assert(should_group(groupers, a, t));
        let next = group_step(groupers, true, st, t);
        assert(next == (GroupState { accrued: Some(a + t), ..st }));
        lemma_fold_chain(groupers, next, a + t, terms.drop_first());
        assert(terms.flatten() == t + terms.drop_first().flatten());
        assert(a + t + terms.drop_first().flatten() =~= a + terms.flatten());
    }
}

proof fn lemma_fold_pairs(groupers: Seq<(GroupKind, GroupKind)>, st: GroupState, terms: Seq<Seq<char>>)
    requires
        forall|l: Seq<char>, r: Seq<char>| #[trigger] should_group(groupers, l, r),
        st.accrued is None,
    ensures
        gs_commit(group_fold(groupers, false, st, terms)).results == st.results + joined_pairs(terms),
    decreases terms.len(),
{
    if terms.len() == 0 {
        assert(st.results + joined_pairs(terms) =~= st.results);
    } else if terms.len() == 1 {
        let s1 = group_step(groupers, false, st, terms[0]);
        assert(s1 == (GroupState { accrued: Some(terms[0]), ..st }));
        assert(group_fold(groupers, false, s1, terms.drop_first()) == s1);
        assert(st.results + joined_pairs(terms) =~= st.results.push(terms[0]));
    } else {
        let t0 = terms[0];
        let t1 = terms[1];
        let s1 = group_step(groupers, false, st, t0);
        assert(s1 == (GroupState { accrued: Some(t0), ..st }));
        let rest1 = terms.drop_first();
        assert(rest1[0] == t1);
        assert(should_group(groupers, t0, t1));
        let s2 = group_step(groupers, false, s1, t1);
        assert(s2 == (GroupState { results: st.results.push(t0 + t1), accrued: None, ..st }));
        let rest2 = rest1.drop_first();
        assert(rest2 =~= terms.skip(2));
        assert(group_fold(groupers, false, st, terms) == group_fold(groupers, false, s1, rest1));
        assert(group_fold(groupers, false, s1, rest1) == group_fold(groupers, false, s2, rest2));
        lemma_fold_pairs(groupers, s2, rest2);
        assert(st.results.push(t0 + t1) + joined_pairs(rest2) =~= st.results + joined_pairs(terms));
    }
}

/// Law: grouping recursively with a pair that accepts any forms joins every
/// form to the one gathered before it and keeps it gathered, so all the
/// forms become one form, their texts joined.
pub proof fn law_group_recursive_joins_all(groups: Seq<GroupPair>, terms: Seq<Seq<char>>)
    requires
        has_any_pair(groups),
        terms.len() > 0,
    ensures
        group_texts(groups, true, terms) == seq![terms.flatten()],
{
    let gs = groupers_of(groups);
    lemma_any_pair_accepts(groups);
    let start = GroupState { origins: Seq::empty(), results: Seq::empty(), accrued: None };
    let s1 = group_step(gs, true, start, terms[0]);
    assert(s1 == (GroupState { accrued: Some(terms[0]), ..start }));
    lemma_fold_chain(gs, s1, terms[0], terms.drop_first());
    assert(terms.flatten() == terms[0] + terms.drop_first().flatten());
    assert(Seq::<Seq<char>>::empty().push(terms.flatten()) =~= seq![terms.flatten()]);
}

/// Law: grouping once, not recursively, with a pair that accepts any forms
/// commits each join: the forms are joined two by two.
pub proof fn law_group_once_joins_pairs(groups: Seq<GroupPair>, terms: Seq<Seq<char>>)
    requires
        has_any_pair(groups),
    ensures
        group_texts(groups, false, terms) == joined_pairs(terms),
{
    let gs = groupers_of(groups);
    lemma_any_pair_accepts(groups);
    let start = GroupState { origins: Seq::empty(), results: Seq::empty(), accrued: None };
    lemma_fold_pairs(gs, start, terms);
    assert(Seq::<Seq<char>>::empty() + joined_pairs(terms) =~= joined_pairs(terms));
}

/// The reader of a grouping.
pub struct GroupHelper {
    origins: Vec<String>,
    results: Vec<String>,
    accrued: Option<String>,
}

impl View for GroupHelper {
    type V = GroupState;

    closed spec fn view(&self) -> GroupState {
        GroupState {
            origins: texts_of(self.origins@),
            results: texts_of(self.results@),
            accrued: match self.accrued {
                Some(a) => Some(a@),
                None => None,
            },
        }
    }
}

impl GroupHelper {
    fn new(origins: Vec<String>) -> (r: GroupHelper)
        ensures
            r@ == (GroupState { origins: texts_of(origins@), results: Seq::empty(), accrued: None }),
    {
        let results: Vec<String> = Vec::new();
        assert(texts_of(results@) =~= Seq::<Seq<char>>::empty());
        GroupHelper { origins, results, accrued: None }
    }

    /// Whether a form is gathered.
    pub fn has_accrued(&self) -> (r: bool)
        ensures
            r == self@.accrued is Some,
    {
        self.accrued.is_some()
    }

    /// The gathered form, or the empty text.
    pub fn get_accrued(&self) -> (r: &str)
        ensures
            r@ == match self@.accrued {
                Some(a) => a,
                None => Seq::<char>::empty(),
            },
    {
        proof {
            reveal_strlit("");
        }
        match &self.accrued {
            Some(accrued) => accrued.as_str(),
            None => "",
        }
    }

    /// Gathers a term after what was gathered.
    pub fn accrue_term(&mut self, term: String)
        ensures
            final(self)@ == gs_accrue(old(self)@, term@),
    {
        match self.accrued.take() {
            None => {
                self.accrued = Some(term);
            },
            Some(existing) => {
                let mut joined = existing;
                joined.append(term.as_str());
                self.accrued = Some(joined);
            },
        }
    }

    /// Makes a form of what was gathered, if anything.
    pub fn commit_accrued(&mut self)
        ensures
            final(self)@ == gs_commit(old(self)@),
    {
        match self.accrued.take() {
            Some(accrued) => {
                proof {
                    lemma_texts_push(self.results@, accrued);
                }
                self.results.push(accrued);
            },
            None => {},
        }
    }

    /// Takes the next form to read, if any.
    pub fn advance(&mut self) -> (r: Option<String>)
        ensures
            old(self)@.origins.len() == 0 ==> r is None && final(self)@ == old(self)@,
            old(self)@.origins.len() > 0 ==> r is Some && r->0@ == old(self)@.origins[0]
                && final(self)@ == (GroupState {
                origins: old(self)@.origins.drop_first(),
                ..old(self)@
            }),
    {
        if self.origins.len() > 0 {
            let first = self.origins.remove(0);
            proof {
                assert(texts_of(self.origins@) =~= texts_of(old(self).origins@).drop_first());
            }
            Some(first)
        } else {
            None
        }
    }

    fn into_results(self) -> (r: Vec<String>)
        ensures
            texts_of(r@) == self@.results,
    {
        self.results
    }
}

/// Whether some pair accepts the left and the right form.
fn should_group_exec(groupers: &Vec<(GroupKind, GroupKind)>, left: &str, right: &str) -> (r: bool)
    requires
        forall|i: int|
            0 <= i < groupers@.len() ==> (#[trigger] groupers@[i]).0.spec_ready()
                && groupers@[i].1.spec_ready(),
    ensures
        r == should_group(groupers@, left@, right@),
{
    let mut index: usize = 0;
    while index < groupers.len()
        invariant
            index <= groupers@.len(),
            forall|i: int|
                0 <= i < groupers@.len() ==> (#[trigger] groupers@[i]).0.spec_ready()
                    && groupers@[i].1.spec_ready(),
            forall|i: int|
                0 <= i < index ==> !((#[trigger] groupers@[i]).0.spec_checks(left@)
                    && groupers@[i].1.spec_checks(right@)),
        decreases groupers@.len() - index,
    {
        let pair = &groupers[index];
        let left_check = pair.0.checks(left);
        let right_check = pair.1.checks(right);
        if left_check && right_check {
            return true;
        }
        index = index + 1;
    }
    false
}

/// Groups all the forms (see `rig_group_on`).
pub fn rig_group_all(forms: &mut Vec<String>, groups: Vec<GroupPair>, recursive: bool) -> (r:
    Result<usize, MessageErr>)
    ensures
        r is Ok <==> forall|i: int| 0 <= i < groups@.len() ==> pair_valid(#[trigger] groups@[i]),
        r is Err ==> final(forms)@ == old(forms)@,
        r matches Ok(n) ==> texts_of(final(forms)@) == group_texts(groups@, recursive, texts_of(old(forms)@))
            && n == final(forms)@.len(),
{
    let till = kit_len(forms);
    let r = rig_group_on(forms, 0, till, groups, recursive);
    proof {
        lemma_texts_subrange(old(forms)@, 0, till as int);
        assert(old(forms)@.subrange(0, till as int) == old(forms)@);
        if r is Ok {
            assert(texts_of(old(forms)@).take(0) =~= Seq::<Seq<char>>::empty());
            assert(texts_of(old(forms)@).skip(till as int) =~= Seq::<Seq<char>>::empty());
            assert(texts_of(old(forms)@).subrange(0, till as int) == texts_of(old(forms)@));
        }
    }
    r
}

/// Groups the forms `from..till`: each form is joined to the form gathered
/// before it when a pair of tests accepts them (only once in a row unless
/// `recursive`), and the forms made take the place of the range; returns how
/// many forms were made. Fails, leaving the forms as they were, when a regex
/// test does not compile.
pub fn rig_group_on(
    forms: &mut Vec<String>,
    from: usize,
    till: usize,
    groups: Vec<GroupPair>,
    recursive: bool,
) -> (r: Result<usize, MessageErr>)
    requires
        from <= till <= old(forms)@.len(),
    ensures
        r is Ok <==> forall|i: int| 0 <= i < groups@.len() ==> pair_valid(#[trigger] groups@[i]),
        r is Err ==> final(forms)@ == old(forms)@,
        r matches Ok(n) ==> {
            let made = group_texts(
                groups@,
                recursive,
                texts_of(old(forms)@).subrange(from as int, till as int),
            );
            &&& texts_of(final(forms)@) == texts_of(old(forms)@).take(from as int) + made + texts_of(
                old(forms)@,
            ).skip(till as int)
            &&& n == made.len()
        },
{
    let ghost start = forms@;
    let ghost groupers = groupers_of(groups@);
    let pairs = get_groupers(groups)?;
    let range = kit_del_range(forms, from, till);
    proof {
        lemma_texts_subrange(start, from as int, till as int);
    }
    let mut helper = GroupHelper::new(range);
    let ghost init = helper@;
    let ghost total = gs_commit(group_fold(groupers, recursive, GroupState { origins: Seq::empty(), ..init }, init.origins)).results;
    loop
        invariant
            pairs@ == groupers,
            forall|i: int|
                0 <= i < pairs@.len() ==> (#[trigger] pairs@[i]).0.spec_ready()
                    && pairs@[i].1.spec_ready(),
            gs_commit(group_fold(groupers, recursive, GroupState { origins: Seq::empty(), ..helper@ }, helper@.origins)).results == total,
        ensures
            helper@.origins.len() == 0,
            gs_commit(GroupState { origins: Seq::empty(), ..helper@ }).results == total,
        decreases helper@.origins.len(),
    {
        let ghost s0 = helper@;
        let next = helper.advance();
        match next {
            None => {
                break;
            },
            Some(term) => {
                let ghost s1 = helper@;
                if !helper.has_accrued() {
                    helper.accrue_term(term);
                } else {
                    let should = should_group_exec(&pairs, helper.get_accrued(), term.as_str());
                    if should {
                        helper.accrue_term(term);
                        if !recursive {
                            helper.commit_accrued();
                        }
                    } else {
                        helper.commit_accrued();
                        helper.accrue_term(term);
                    }
                }
                proof {
                    let e0 = GroupState { origins: Seq::empty(), ..s0 };
                    let e1 = GroupState { origins: Seq::empty(), ..helper@ };
                    assert(e1 == group_step(groupers, recursive, e0, s0.origins[0]));
                }
            },
        }
    }
    helper.commit_accrued();
    let results = helper.into_results();
    let made = results.len();
    let ghost mid = forms@;
    kit_add_range(forms, from, results);
    proof {
        assert(GroupState { origins: Seq::empty(), ..init } == (GroupState {
            origins: Seq::empty(),
            results: Seq::empty(),
            accrued: None,
        }));
        assert(texts_of(results@) == total);
        assert(mid =~= start.take(from as int) + start.skip(till as int));
        assert(mid.take(from as int) =~= start.take(from as int));
        assert(mid.skip(from as int) =~= start.skip(till as int));
        lemma_texts_add(start.take(from as int) + results@, start.skip(till as int));
        lemma_texts_add(start.take(from as int), results@);
    }
    Ok(made)
}

} // verus!
