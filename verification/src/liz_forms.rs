//! Forms: a list of texts ("terms") that scripts edit, search and rebuild.

use vstd::prelude::*;

use crate::chars::{push_char, spec_all_whitespace, string_from};
use crate::liz_texts::{is_equals, is_likely, is_whitespace, join_with, spec_likely};

verus! {

/// The texts of a list of forms, each taken by its characters.
pub open spec fn texts_of(forms: Seq<String>) -> Seq<Seq<char>> {
    forms.map_values(|s: String| s@)
}

/// The texts of a list of text slices.
pub open spec fn strs_of(items: Seq<&str>) -> Seq<Seq<char>> {
    items.map_values(|s: &str| s@)
}

/// The texts of forms with one more form pushed are the former texts with its text pushed.
pub proof fn lemma_texts_push(v: Seq<String>, s: String)
    ensures
        texts_of(v.push(s)) == texts_of(v).push(s@),
{
    assert(texts_of(v.push(s)) =~= texts_of(v).push(s@));
}

/// The texts of joined lists of forms are the joined texts.
pub proof fn lemma_texts_add(a: Seq<String>, b: Seq<String>)
    ensures
        texts_of(a + b) == texts_of(a) + texts_of(b),
{
    assert(texts_of(a + b) =~= texts_of(a) + texts_of(b));
}

/// The texts of a part of a list of forms are that part of its texts.
pub proof fn lemma_texts_subrange(a: Seq<String>, i: int, j: int)
    requires
        0 <= i <= j <= a.len(),
    ensures
        texts_of(a.subrange(i, j)) == texts_of(a).subrange(i, j),
        texts_of(a.take(i)) == texts_of(a).take(i),
        texts_of(a.skip(i)) == texts_of(a).skip(i),
{
    assert(texts_of(a.subrange(i, j)) =~= texts_of(a).subrange(i, j));
    assert(texts_of(a.take(i)) =~= texts_of(a).take(i));
    assert(texts_of(a.skip(i)) =~= texts_of(a).skip(i));
}

/// A list of forms kept on a desk.
#[derive(Clone, Debug)]
pub struct Forms {
    pub desk: Vec<String>,
}

/// A new empty list of forms.
pub fn kit_new() -> (r: Vec<String>)
    ensures
        r@.len() == 0,
{
    Vec::new()
}

/// A list of forms holding copies of the given texts, in order.
pub fn kit_from(from: &[&str]) -> (r: Vec<String>)
    ensures
        texts_of(r@) == strs_of(from@),
{
    let mut result: Vec<String> = Vec::new();
    let mut i: usize = 0;
    while i < from.len()
        invariant
            i <= from@.len(),
            result@.len() == i,
            texts_of(result@) == strs_of(from@.take(i as int)),
        decreases from@.len() - i,
    {
        let piece: &str = from[i];
        let item: String = piece.to_owned();
        assert(item@ == from@[i as int]@);
        let ghost before = result@;
        result.push(item);
        assert forall|j: int| 0 <= j < i + 1 implies #[trigger] texts_of(result@)[j] == strs_of(
            from@.take(i + 1),
        )[j] by {
            if j < i {
                assert(texts_of(before)[j] == strs_of(from@.take(i as int))[j]);
            }
        }
        assert(from@.take(i + 1) == from@.take(i as int).push(from@[i as int]));
        assert(texts_of(result@) =~= strs_of(from@.take(i + 1)));
        i = i + 1;
    }
    assert(from@.take(from@.len() as int) == from@);
    result
}

/// The number of forms.
pub fn kit_len(forms: &Vec<String>) -> (r: usize)
    ensures
        r == forms@.len(),
{
    forms.len()
}

/// The form at `index`.
pub fn kit_get(forms: &Vec<String>, index: usize) -> (r: &str)
    requires
        index < forms@.len(),
    ensures
        r@ == forms@[index as int]@,
{
    forms[index].as_str()
}

/// Replaces the form at `index`.
pub fn kit_set(forms: &mut Vec<String>, index: usize, form: String)
    requires
        index < old(forms)@.len(),
    ensures
        final(forms)@ == old(forms)@.update(index as int, form),
{
    forms.set(index, form);
}

/// Inserts a form at `index`, shifting the later ones.
pub fn kit_add(forms: &mut Vec<String>, index: usize, form: String)
    requires
        index <= old(forms)@.len(),
    ensures
        final(forms)@ == old(forms)@.insert(index as int, form),
{
    forms.insert(index, form)
}

/// Inserts the forms of `range` at `on`, in order.
pub fn kit_add_range(forms: &mut Vec<String>, on: usize, range: Vec<String>)
    requires
        on <= old(forms)@.len(),
    ensures
        final(forms)@ == old(forms)@.take(on as int) + range@ + old(forms)@.skip(on as int),
{
    let ghost start = forms@;
    let ghost all = range@;
    let mut range = range;
    // The items go in from the last one, each in front of those already placed.
    while range.len() > 0
        invariant
            on <= start.len(),
            range@ == all.take(range@.len() as int),
            range@.len() <= all.len(),
            forms@ == start.take(on as int) + all.skip(range@.len() as int) + start.skip(on as int),
        decreases range@.len(),
    {
        let ghost n = range@.len();
        let form = range.pop().unwrap();
        assert(form == all[n - 1]);
        kit_add(forms, on, form);
        assert(all.skip(n - 1) =~= seq![all[n - 1]] + all.skip(n as int));
        assert(forms@ =~= start.take(on as int) + all.skip(n - 1) + start.skip(on as int));
        assert(range@ =~= all.take(n - 1));
    }
    assert(all.skip(0) == all);
}

/// Appends a form at the end.
pub fn kit_put(forms: &mut Vec<String>, form: String)
    ensures
        final(forms)@ == old(forms)@.push(form),
{
    forms.push(form)
}

/// Removes and returns the form at `index`.
pub fn kit_del(forms: &mut Vec<String>, index: usize) -> (r: String)
    requires
        index < old(forms)@.len(),
    ensures
        r == old(forms)@[index as int],
        final(forms)@ == old(forms)@.remove(index as int),
{
    forms.remove(index)
}

/// Removes the forms `from..till` and returns them, in order.
pub fn kit_del_range(forms: &mut Vec<String>, from: usize, till: usize) -> (r: Vec<String>)
    requires
        from <= till <= old(forms)@.len(),
    ensures
        r@ == old(forms)@.subrange(from as int, till as int),
        final(forms)@ == old(forms)@.take(from as int) + old(forms)@.skip(till as int),
{
    let ghost start = forms@;
    let size = till - from;
    let mut result: Vec<String> = Vec::new();
    let mut k: usize = 0;
    while k < size
        invariant
            size == till - from,
            from <= till <= start.len(),
            k <= size,
            result@ == start.subrange(from as int, from + k),
            forms@ == start.take(from as int) + start.skip(from + k),
        decreases size - k,
    {
        let form = kit_del(forms, from);
        assert(form == start[from + k]);
        result.push(form);
        assert(result@ =~= start.subrange(from as int, from + k + 1));
        assert(forms@ =~= start.take(from as int) + start.skip(from + k + 1));
        k = k + 1;
    }
    result
}

/// Removes and returns the last form, if any.
pub fn kit_pop(forms: &mut Vec<String>) -> (r: Option<String>)
    ensures
        old(forms)@.len() == 0 ==> r is None && final(forms)@ == old(forms)@,
        old(forms)@.len() > 0 ==> r == Some(old(forms)@.last()) && final(forms)@
            == old(forms)@.drop_last(),
{
    forms.pop()
}

/// The places of the texts that meet a test, in order.
pub open spec fn indices_where(texts: Seq<Seq<char>>, test: spec_fn(Seq<char>) -> bool) -> Seq<usize>
    decreases texts.len(),
{
    if texts.len() == 0 {
        Seq::empty()
    } else {
        let before = indices_where(texts.drop_last(), test);
        if test(texts.last()) {
            before.push((texts.len() - 1) as usize)
        } else {
            before
        }
    }
}

/// The places of the forms equal to a part, in order.
pub fn kit_find_all(forms: &Vec<String>, part: &str) -> (r: Vec<usize>)
    ensures
        r@ == indices_where(texts_of(forms@), |t: Seq<char>| t == part@),
{
    let ghost all = texts_of(forms@);
    let mut result: Vec<usize> = Vec::new();
    let mut index: usize = 0;
    assert(all.take(0) =~= Seq::<Seq<char>>::empty());
    while index < forms.len()
        invariant
            all == texts_of(forms@),
            index <= forms@.len(),
            result@ == indices_where(all.take(index as int), |t: Seq<char>| t == part@),
        decreases forms@.len() - index,
    {
        assert(all.take(index + 1).drop_last() =~= all.take(index as int));
        assert(all.take(index + 1).last() == forms@[index as int]@);
        if is_equals(forms[index].as_str(), part) {
            result.push(index);
        }
        index = index + 1;
    }
    assert(all.take(index as int) =~= all);
    result
}

/// The places of the forms likely a part (see `spec_likely`), in order.
pub fn kit_find_all_like(forms: &Vec<String>, part: &str) -> (r: Vec<usize>)
    ensures
        r@ == indices_where(texts_of(forms@), |t: Seq<char>| spec_likely(t, part@)),
{
    let ghost all = texts_of(forms@);
    let mut result: Vec<usize> = Vec::new();
    let mut index: usize = 0;
    assert(all.take(0) =~= Seq::<Seq<char>>::empty());
    while index < forms.len()
        invariant
            all == texts_of(forms@),
            index <= forms@.len(),
            result@ == indices_where(all.take(index as int), |t: Seq<char>| spec_likely(t, part@)),
        decreases forms@.len() - index,
    {
        assert(all.take(index + 1).drop_last() =~= all.take(index as int));
        assert(all.take(index + 1).last() == forms@[index as int]@);
        if is_likely(forms[index].as_str(), part) {
            result.push(index);
        }
        index = index + 1;
    }
    assert(all.take(index as int) =~= all);
    result
}

/// Whether a test, asked of some slice holding the text, answered as given.
pub open spec fn asked<F: Fn(&str) -> bool>(ask: F, text: Seq<char>, answer: bool) -> bool {
    exists|s: &str| s@ == text && call_ensures(ask, (s,), answer)
}

/// The places of the forms for which a test answers yes, in order: each
/// place returned was answered yes, each place left out was answered no.
pub fn kit_find_all_ask<F: Fn(&str) -> bool>(forms: &Vec<String>, ask: F) -> (r: Vec<usize>)
    requires
        forall|s: &str| ask.requires((s,)),
    ensures
        forall|j: int| 0 <= j < r@.len() ==> r@[j] < forms@.len(),
        forall|j: int, k: int| 0 <= j < k < r@.len() ==> r@[j] < r@[k],
        forall|j: int| 0 <= j < r@.len() ==> asked(ask, forms@[r@[j] as int]@, true),
        forall|i: int| 0 <= i < forms@.len() && !r@.contains(i as usize) ==> asked(ask, forms@[i]@, false),
{
    let mut result: Vec<usize> = Vec::new();
    let mut index: usize = 0;
    while index < forms.len()
        invariant
            forall|s: &str| ask.requires((s,)),
            index <= forms@.len(),
            forall|j: int| 0 <= j < result@.len() ==> result@[j] < index,
            forall|j: int, k: int| 0 <= j < k < result@.len() ==> result@[j] < result@[k],
            forall|j: int| 0 <= j < result@.len() ==> asked(ask, forms@[result@[j] as int]@, true),
            forall|i: int| 0 <= i < index && !result@.contains(i as usize) ==> asked(ask, forms@[i]@, false),
        decreases forms@.len() - index,
    {
        let form = forms[index].as_str();
        let answer = ask(form);
        assert(asked(ask, forms@[index as int]@, answer));
        let ghost before = result@;
        if answer {
            result.push(index);
            assert forall|i: int| 0 <= i < index + 1 && !result@.contains(i as usize) implies asked(
                ask,
                forms@[i]@,
                false,
            ) by {
                if i < index {
                    if before.contains(i as usize) {
                        let j = choose|j: int| 0 <= j < before.len() && before[j] == i as usize;
                        assert(result@[j] == i as usize);
                    }
                } else {
                    assert(result@[result@.len() - 1] == index);
                }
            }
        } else {
            assert forall|i: int| 0 <= i < index + 1 && !result@.contains(i as usize) implies asked(
                ask,
                forms@[i]@,
                false,
            ) by {}
        }
        index = index + 1;
    }
    result
}

/// The place of the first form that is not all white space.
pub fn kit_first_some(forms: &Vec<String>) -> (r: Option<usize>)
    ensures
        match r {
            Some(k) => k < forms@.len() && !spec_all_whitespace(forms@[k as int]@) && forall|j: int|
                0 <= j < k ==> spec_all_whitespace(#[trigger] forms@[j]@),
            None => forall|j: int| 0 <= j < forms@.len() ==> spec_all_whitespace(#[trigger] forms@[j]@),
        },
{
    let mut index: usize = 0;
    while index < forms.len()
        invariant
            index <= forms@.len(),
            forall|j: int| 0 <= j < index ==> spec_all_whitespace(#[trigger] forms@[j]@),
        decreases forms@.len() - index,
    {
        if !is_whitespace(forms[index].as_str()) {
            return Some(index);
        }
        index = index + 1;
    }
    None
}

/// The place of the last form before `of` that is not all white space.
pub fn kit_prior_some(forms: &Vec<String>, of: usize) -> (r: Option<usize>)
    requires
        of <= forms@.len(),
    ensures
        match r {
            Some(k) => k < of && !spec_all_whitespace(forms@[k as int]@) && forall|j: int|
                k < j < of ==> spec_all_whitespace(#[trigger] forms@[j]@),
            None => forall|j: int| 0 <= j < of ==> spec_all_whitespace(#[trigger] forms@[j]@),
        },
{
    let mut index = of;
    while index > 0
        invariant
            index <= of <= forms@.len(),
            forall|j: int| index <= j < of ==> spec_all_whitespace(#[trigger] forms@[j]@),
        decreases index,
    {
        index = index - 1;
        if !is_whitespace(forms[index].as_str()) {
            return Some(index);
        }
    }
    None
}

/// The place of the first form after `of` that is not all white space.
pub fn kit_next_some(forms: &Vec<String>, of: usize) -> (r: Option<usize>)
    requires
        forms@.len() > 0,
    ensures
        match r {
            Some(k) => of < k < forms@.len() && !spec_all_whitespace(forms@[k as int]@) && forall|j: int|
                of < j < k ==> spec_all_whitespace(#[trigger] forms@[j]@),
            None => forall|j: int| of < j < forms@.len() ==> spec_all_whitespace(#[trigger] forms@[j]@),
        },
{
    let mut index = of;
    while index < forms.len() - 1
        invariant
            forms@.len() > 0,
            of <= index,
            forall|j: int| of < j <= index && j < forms@.len() ==> spec_all_whitespace(#[trigger] forms@[j]@),
        decreases forms@.len() - index,
    {
        index = index + 1;
        if !is_whitespace(forms[index].as_str()) {
            return Some(index);
        }
    }
    None
}

/// The place of the last form that is not all white space.
pub fn kit_last_some(forms: &Vec<String>) -> (r: Option<usize>)
    ensures
        match r {
            Some(k) => k < forms@.len() && !spec_all_whitespace(forms@[k as int]@) && forall|j: int|
                k < j < forms@.len() ==> spec_all_whitespace(#[trigger] forms@[j]@),
            None => forall|j: int| 0 <= j < forms@.len() ==> spec_all_whitespace(#[trigger] forms@[j]@),
        },
{
    let mut index = forms.len();
    while index > 0
        invariant
            index <= forms@.len(),
            forall|j: int| index <= j < forms@.len() ==> spec_all_whitespace(#[trigger] forms@[j]@),
        decreases index,
    {
        index = index - 1;
        if !is_whitespace(forms[index].as_str()) {
            return Some(index);
        }
    }
    None
}

/// Replaces by `to` every form equal to `of`.
pub fn kit_change_all(forms: &mut Vec<String>, of: &str, to: &str)
    ensures
        final(forms)@.len() == old(forms)@.len(),
        forall|i: int|
            0 <= i < old(forms)@.len() ==> (#[trigger] final(forms)@[i])@ == if old(forms)@[i]@ == of@ {
                to@
            } else {
                old(forms)@[i]@
            },
{
    let mut index: usize = 0;
    while index < forms.len()
        invariant
            forms@.len() == old(forms)@.len(),
            index <= forms@.len(),
            forall|i: int|
                0 <= i < index ==> (#[trigger] forms@[i])@ == if old(forms)@[i]@ == of@ {
                    to@
                } else {
                    old(forms)@[i]@
                },
            forall|i: int| index <= i < forms@.len() ==> #[trigger] forms@[i] == old(forms)@[i],
        decreases forms@.len() - index,
    {
        if is_equals(forms[index].as_str(), of) {
            forms.set(index, string_from(to));
        }
        index = index + 1;
    }
}

/// Replaces by `to` every form likely `of` (see `spec_likely`).
pub fn kit_change_all_like(forms: &mut Vec<String>, of: &str, to: &str)
    ensures
        final(forms)@.len() == old(forms)@.len(),
        forall|i: int|
            0 <= i < old(forms)@.len() ==> (#[trigger] final(forms)@[i])@ == if spec_likely(old(forms)@[i]@, of@) {
                to@
            } else {
                old(forms)@[i]@
            },
{
    let mut index: usize = 0;
    while index < forms.len()
        invariant
            forms@.len() == old(forms)@.len(),
            index <= forms@.len(),
            forall|i: int|
                0 <= i < index ==> (#[trigger] forms@[i])@ == if spec_likely(old(forms)@[i]@, of@) {
                    to@
                } else {
                    old(forms)@[i]@
                },
            forall|i: int| index <= i < forms@.len() ==> #[trigger] forms@[i] == old(forms)@[i],
        decreases forms@.len() - index,
    {
        if is_likely(forms[index].as_str(), of) {
            forms.set(index, string_from(to));
        }
        index = index + 1;
    }
}

/// Replaces by `to` every form for which a test answers yes: each form
/// replaced was answered yes, each form kept was answered no.
pub fn kit_change_all_ask<F: Fn(&str) -> bool>(forms: &mut Vec<String>, to: &str, ask: F)
    requires
        forall|s: &str| ask.requires((s,)),
    ensures
        final(forms)@.len() == old(forms)@.len(),
        forall|i: int|
            0 <= i < old(forms)@.len() ==> {
                ||| (#[trigger] final(forms)@[i])@ == to@ && asked(ask, old(forms)@[i]@, true)
                ||| final(forms)@[i] == old(forms)@[i] && asked(ask, old(forms)@[i]@, false)
            },
{
    let mut index: usize = 0;
    while index < forms.len()
        invariant
            forall|s: &str| ask.requires((s,)),
            forms@.len() == old(forms)@.len(),
            index <= forms@.len(),
            forall|i: int|
                0 <= i < index ==> {
                    ||| (#[trigger] forms@[i])@ == to@ && asked(ask, old(forms)@[i]@, true)
                    ||| forms@[i] == old(forms)@[i] && asked(ask, old(forms)@[i]@, false)
                },
            forall|i: int| index <= i < forms@.len() ==> #[trigger] forms@[i] == old(forms)@[i],
        decreases forms@.len() - index,
    {
        let answer = ask(forms[index].as_str());
        assert(asked(ask, old(forms)@[index as int]@, answer));
        if answer {
            forms.set(index, string_from(to));
        }
        index = index + 1;
    }
}

/// The forms joined together.
pub fn kit_build(forms: &Vec<String>) -> (r: String)
    ensures
        r@ == join_with(texts_of(forms@), Seq::empty()),
{
    let ghost all = texts_of(forms@);
    let mut result = String::new();
    let mut index: usize = 0;
    assert(all.take(0) =~= Seq::<Seq<char>>::empty());
    while index < forms.len()
        invariant
            all == texts_of(forms@),
            index <= forms@.len(),
            result@ == join_with(all.take(index as int), Seq::empty()),
        decreases forms@.len() - index,
    {
        let piece = forms[index].as_str();
        result.append(piece);
        proof {
            let t = all.take(index + 1);
            assert(t.drop_last() =~= all.take(index as int));
            assert(t.last() == piece@);
            if index > 0 {
                assert(join_with(t, Seq::empty()) == join_with(t.drop_last(), Seq::empty()) + Seq::<char>::empty() + t.last());
            }
            assert(result@ =~= join_with(t, Seq::empty()));
        }
        index = index + 1;
    }
    assert(all.take(index as int) =~= all);
    result
}

/// The line that printing all forms writes: `[`, each form within single
/// quotes, separated by commas, `]`.
pub open spec fn spec_print_all(texts: Seq<Seq<char>>) -> Seq<char> {
    seq!['['] + join_with(texts.map_values(|t: Seq<char>| seq!['\''] + t + seq!['\'']), seq![',']) + seq![']']
}

/// The line that printing all forms writes (see `spec_print_all`); the caller
/// prints it.
pub fn kit_print_all(forms: &Vec<String>) -> (r: String)
    ensures
        r@ == spec_print_all(texts_of(forms@)),
{
    let ghost quoted = texts_of(forms@).map_values(|t: Seq<char>| seq!['\''] + t + seq!['\'']);
    let mut body = String::new();
    let mut index: usize = 0;
    assert(quoted.take(0) =~= Seq::<Seq<char>>::empty());
    while index < forms.len()
        invariant
            quoted == texts_of(forms@).map_values(|t: Seq<char>| seq!['\''] + t + seq!['\'']),
            index <= forms@.len(),
            body@ == join_with(quoted.take(index as int), seq![',']),
        decreases forms@.len() - index,
    {
        let ghost before = body@;
        if index > 0 {
            push_char(&mut body, ',');
        }
        push_char(&mut body, '\'');
        body.append(forms[index].as_str());
        push_char(&mut body, '\'');
        proof {
            let t = quoted.take(index + 1);
            assert(t.drop_last() =~= quoted.take(index as int));
            assert(t.last() =~= seq!['\''] + forms@[index as int]@ + seq!['\'']);
            if index > 0 {
                assert(join_with(t, seq![',']) == join_with(t.drop_last(), seq![',']) + seq![','] + t.last());
            }
            assert(body@ =~= join_with(t, seq![',']));
        }
        index = index + 1;
    }
    assert(quoted.take(index as int) =~= quoted);
    let mut r = String::new();
    push_char(&mut r, '[');
    r.append(body.as_str());
    push_char(&mut r, ']');
    assert(r@ =~= spec_print_all(texts_of(forms@)));
    r
}

/// Law: deleting the range of forms just added at a place gives back the
/// range, and leaves the forms as they were.
pub proof fn law_kit_add_del_range(forms: Seq<String>, on: int, range: Seq<String>)
    requires
        0 <= on <= forms.len(),
    ensures
        ({
            let added = forms.take(on) + range + forms.skip(on);
            &&& added.subrange(on, on + range.len()) == range
            &&& added.take(on) + added.skip(on + range.len()) == forms
        }),
{
    let added = forms.take(on) + range + forms.skip(on);
    assert(added.subrange(on, on + range.len()) =~= range);
    assert(added.take(on) + added.skip(on + range.len()) =~= forms);
}

/// Law: adding back at a place the forms just deleted from there gives the
/// forms as they were.
pub proof fn law_kit_del_add_range(forms: Seq<String>, from: int, till: int)
    requires
        0 <= from <= till <= forms.len(),
    ensures
        ({
            let left = forms.take(from) + forms.skip(till);
            let taken = forms.subrange(from, till);
            left.take(from) + taken + left.skip(from) == forms
        }),
{
    let left = forms.take(from) + forms.skip(till);
    let taken = forms.subrange(from, till);
    assert(left.take(from) =~= forms.take(from));
    assert(left.skip(from) =~= forms.skip(till));
    assert(left.take(from) + taken + left.skip(from) =~= forms);
}

/// Law: a form set at a place is what is read back from there, and the other
/// places keep their forms.
pub proof fn law_kit_set_get(forms: Seq<String>, index: int, form: String)
    requires
        0 <= index < forms.len(),
    ensures
        forms.update(index, form)[index] == form,
        forall|j: int| 0 <= j < forms.len() && j != index ==> forms.update(index, form)[j] == forms[j],
        forms.update(index, form).len() == forms.len(),
{
}

/// Law: popping the form just put gives it back and leaves the forms as they
/// were.
pub proof fn law_kit_put_pop(forms: Seq<String>, form: String)
    ensures
        forms.push(form).len() > 0,
        forms.push(form).last() == form,
        forms.push(form).drop_last() == forms,
{
    assert(forms.push(form).drop_last() =~= forms);
}

/// Law: deleting the form just added at a place gives it back and leaves the
/// forms as they were.
pub proof fn law_kit_add_del(forms: Seq<String>, index: int, form: String)
    requires
        0 <= index <= forms.len(),
    ensures
        forms.insert(index, form)[index] == form,
        forms.insert(index, form).remove(index) == forms,
{
    assert(forms.insert(index, form).remove(index) =~= forms);
}

} // verus!
