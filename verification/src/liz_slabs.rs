//! Slabs: a text cut into its runs of spaces and its runs of other characters.

use vstd::prelude::*;

use crate::chars::{chars_of, push_char, string_from};
use crate::liz_texts::join_with;

verus! {

/// One piece of a text.
#[derive(Clone)]
struct Slab {
    part: String,
}

impl Slab {
    fn new(part: String) -> (r: Slab)
        ensures
            r.part@ == part@,
    {
        Slab { part }
    }
}

/// A list of pieces of text, none of them empty.
#[derive(Clone)]
pub struct Slabs {
    list: Vec<Slab>,
}

impl View for Slabs {
    type V = Seq<Seq<char>>;

    closed spec fn view(&self) -> Seq<Seq<char>> {
        self.list@.map_values(|s: Slab| s.part@)
    }
}

/// A list of pieces with one more piece, unless that piece is empty.
pub open spec fn put_part(parts: Seq<Seq<char>>, part: Seq<char>) -> Seq<Seq<char>> {
    if part.len() > 0 {
        parts.push(part)
    } else {
        parts
    }
}

impl Slabs {
    /// An empty list of pieces.
    pub fn new() -> (r: Slabs)
        ensures
            r@ == Seq::<Seq<char>>::empty(),
    {
        let r = Slabs { list: Vec::new() };
        assert(r@ =~= Seq::<Seq<char>>::empty());
        r
    }

    /// Adds a piece at the end, unless it is empty.
    pub fn put(&mut self, part: &str)
        ensures
            final(self)@ == put_part(old(self)@, part@),
    {
        if !part.is_empty() {
            let ghost before = self.list@;
            self.list.push(Slab::new(string_from(part)));
            assert(self@ =~= old(self)@.push(part@)) by {
                assert(self.list@ == before.push(self.list@.last()));
            }
        }
    }

    /// The number of pieces.
    pub fn len(&self) -> (r: usize)
        ensures
            r == self@.len(),
    {
        self.list.len()
    }

    /// A copy of the piece at `index`.
    pub fn get(&self, index: usize) -> (r: String)
        requires
            index < self@.len(),
        ensures
            r@ == self@[index as int],
    {
        string_from(self.list[index].part.as_str())
    }

    /// The pieces joined together.
    pub fn build(&self) -> (r: String)
        ensures
            r@ == join_with(self@, Seq::empty()),
    {
        let mut result = String::new();
        let mut i: usize = 0;
        let ghost all = self@;
        assert(all.take(0) =~= Seq::<Seq<char>>::empty());
        while i < self.list.len()
            invariant
                all == self@,
                i <= self.list@.len(),
                result@ == join_with(all.take(i as int), Seq::empty()),
            decreases self.list@.len() - i,
        {
            let piece = self.list[i].part.as_str();
            let ghost before = result@;
            result.append(piece);
            proof {
                let t = all.take(i + 1);
                assert(t.drop_last() =~= all.take(i as int));
                assert(t.last() == piece@);
                if i == 0 {
                    assert(result@ =~= join_with(t, Seq::empty()));
                } else {
                    assert(join_with(t, Seq::empty()) == join_with(t.drop_last(), Seq::empty()) + Seq::<char>::empty() + t.last());
                    assert(result@ =~= join_with(t, Seq::empty()));
                }
            }
            i = i + 1;
        }
        assert(all.take(i as int) =~= all);
        result
    }
}

/// Cutting a text, as a walk over its characters builds it: the pieces done,
/// the piece going on, and whether that piece is of spaces.
pub open spec fn slabs_walk(s: Seq<char>) -> (Seq<Seq<char>>, Seq<char>, bool)
    decreases s.len(),
{
    if s.len() == 0 {
        (Seq::empty(), Seq::empty(), false)
    } else {
        let (done, part, spaces) = slabs_walk(s.drop_last());
        let ch = s.last();
        if (ch == ' ') != spaces {
            (put_part(done, part), seq![ch], ch == ' ')
        } else {
            (done, part.push(ch), spaces)
        }
    }
}

/// A text cut into its longest runs of spaces and of other characters.
pub open spec fn spec_slabs(s: Seq<char>) -> Seq<Seq<char>> {
    let (done, part, _) = slabs_walk(s);
    put_part(done, part)
}

/// Cuts a text into its longest runs of spaces and of other characters (see
/// `spec_slabs`). The name is not used.
pub fn parse(text: &str, name: &str) -> (r: Slabs)
    ensures
        r@ == spec_slabs(text@),
{
    let v = chars_of(text);
    let mut result = Slabs::new();
    let mut part = String::new();
    let mut last_was_space = false;
    let mut i: usize = 0;
    while i < v.len()
        invariant
            v@ == text@,
            i <= v@.len(),
            slabs_walk(v@.take(i as int)) == (result@, part@, last_was_space),
        decreases v@.len() - i,
    {
        let ch = v[i];
        assert(v@.take(i + 1).drop_last() =~= v@.take(i as int));
        if ch == ' ' {
            if !last_was_space {
                last_was_space = true;
                result.put(part.as_str());
                part = String::new();
            }
        } else {
            if last_was_space {
                last_was_space = false;
                result.put(part.as_str());
                part = String::new();
            }
        }
        let ghost before = part@;
        push_char(&mut part, ch);
        assert(before.len() == 0 ==> part@ =~= seq![ch]);
        i = i + 1;
    }
    assert(v@.take(i as int) =~= v@);
    result.put(part.as_str());
    result
}

/// What a walk that cuts a text keeps: the pieces done and the piece going
/// on, joined, are the text read so far; no piece done is empty; the piece
/// going on is empty only at the start.
proof fn lemma_slabs_walk(s: Seq<char>)
    ensures
        join_with(slabs_walk(s).0, Seq::empty()) + slabs_walk(s).1 == s,
        forall|i: int| 0 <= i < slabs_walk(s).0.len() ==> (#[trigger] slabs_walk(s).0[i]).len() > 0,
        slabs_walk(s).1.len() == 0 ==> slabs_walk(s).0.len() == 0,
    decreases s.len(),
{
    let e = Seq::<char>::empty();
    if s.len() == 0 {
        assert(join_with(Seq::<Seq<char>>::empty(), e) + e =~= s);
    } else {
        let t = s.drop_last();
        lemma_slabs_walk(t);
        let (d, p, sp) = slabs_walk(t);
        let ch = s.last();
        assert(s =~= t.push(ch));
        if (ch == ' ') != sp {
            let d2 = put_part(d, p);
            if p.len() > 0 {
                assert(d2.drop_last() =~= d);
                if d.len() == 0 {
                    assert(join_with(d2, e) == d2[0]);
                    assert(join_with(d, e) =~= e);
                } else {
                    assert(join_with(d2, e) == join_with(d, e) + e + p);
                }
                assert(join_with(d2, e) =~= join_with(d, e) + p);
                assert forall|i: int| 0 <= i < d2.len() implies (#[trigger] d2[i]).len() > 0 by {
                    if i < d.len() {
                        assert(d2[i] == d[i]);
                    }
                }
            }
            assert(join_with(d2, e) + seq![ch] =~= s);
        } else {
            assert(join_with(d, e) + p.push(ch) =~= s);
        }
    }
}

/// Law: the pieces of a cut text are not empty and, joined, give the text.
pub proof fn law_slabs_build(s: Seq<char>)
    ensures
        join_with(spec_slabs(s), Seq::empty()) == s,
        forall|i: int| 0 <= i < spec_slabs(s).len() ==> (#[trigger] spec_slabs(s)[i]).len() > 0,
{
    lemma_slabs_walk(s);
    let (d, p, _) = slabs_walk(s);
    let e = Seq::<char>::empty();
    let d2 = put_part(d, p);
    if p.len() > 0 {
        assert(d2.drop_last() =~= d);
        if d.len() == 0 {
            assert(join_with(d2, e) == d2[0]);
            assert(join_with(d, e) =~= e);
        } else {
            assert(join_with(d2, e) == join_with(d, e) + e + p);
        }
        assert(join_with(d2, e) =~= join_with(d, e) + p);
        assert forall|i: int| 0 <= i < d2.len() implies (#[trigger] d2[i]).len() > 0 by {
            if i < d.len() {
                assert(d2[i] == d[i]);
            }
        }
    } else {
        assert(join_with(d, e) + p =~= join_with(d, e));
    }
}

/// Whether a piece is all spaces (`spaces`) or holds no space (`!spaces`).
pub open spec fn run_of(p: Seq<char>, spaces: bool) -> bool {
    forall|j: int| 0 <= j < p.len() ==> (#[trigger] p[j] == ' ') == spaces
}

/// What a walk that cuts a text keeps of the kinds of its pieces: each piece
/// done is a run of one kind, two pieces done one after the other are of
/// different kinds, the piece going on is a run of the kind the walk is in,
/// and the last piece done is of the other kind.
proof fn lemma_slabs_walk_runs(s: Seq<char>)
    ensures
        forall|i: int| 0 <= i < slabs_walk(s).0.len() ==> run_of(#[trigger] slabs_walk(s).0[i], slabs_walk(s).0[i][0] == ' '),
        forall|i: int| 0 < i < slabs_walk(s).0.len() ==> (slabs_walk(s).0[i - 1][0] == ' ') != (#[trigger] slabs_walk(s).0[i][0] == ' '),
        run_of(slabs_walk(s).1, slabs_walk(s).2),
        slabs_walk(s).0.len() > 0 ==> (slabs_walk(s).0.last()[0] == ' ') != slabs_walk(s).2,
    decreases s.len(),
{
    if s.len() > 0 {
        let t = s.drop_last();
        lemma_slabs_walk_runs(t);
        lemma_slabs_walk(t);
        lemma_slabs_walk(s);
        let (d, p, sp) = slabs_walk(t);
        let ch = s.last();
        if (ch == ' ') != sp {
            let d2 = put_part(d, p);
            if p.len() > 0 {
                assert(d2.drop_last() =~= d);
                assert(d2.last() == p);
                assert forall|i: int| 0 <= i < d2.len() implies run_of(#[trigger] d2[i], d2[i][0] == ' ') by {
                    if i < d.len() {
                        assert(d2[i] == d[i]);
                    } else {
                        assert(d2[i] == p);
                        assert((p[0] == ' ') == sp);
                    }
                }
                assert forall|i: int| 0 < i < d2.len() implies (d2[i - 1][0] == ' ') != (#[trigger] d2[i][0] == ' ') by {
                    assert(d2[i - 1] == d[i - 1]);
                    if i < d.len() {
                        assert(d2[i] == d[i]);
                    } else {
                        assert(d2[i] == p);
                        assert((p[0] == ' ') == sp);
                        assert(d.last() == d[i - 1]);
                    }
                }
                assert((p[0] == ' ') == sp);
            }
            assert(run_of(seq![ch], ch == ' ')) by {
                assert forall|j: int| 0 <= j < seq![ch].len() implies (#[trigger] seq![ch][j] == ' ') == (ch == ' ') by {
                    assert(seq![ch][j] == ch);
                }
            }
        } else {
            assert(run_of(p.push(ch), sp)) by {
                assert forall|j: int| 0 <= j < p.push(ch).len() implies (#[trigger] p.push(ch)[j] == ' ') == sp by {
                    if j < p.len() {
                        assert(p.push(ch)[j] == p[j]);
                    }
                }
            }
        }
    }
}

/// Law: each piece of a cut text is all spaces or holds no space, and a piece
/// of spaces and a piece of other characters take turns.
pub proof fn law_slabs_runs(s: Seq<char>)
    ensures
        forall|i: int| 0 <= i < spec_slabs(s).len() ==> run_of(#[trigger] spec_slabs(s)[i], spec_slabs(s)[i][0] == ' '),
        forall|i: int| 0 < i < spec_slabs(s).len() ==> (spec_slabs(s)[i - 1][0] == ' ') != (#[trigger] spec_slabs(s)[i][0] == ' '),
{
    lemma_slabs_walk_runs(s);
    lemma_slabs_walk(s);
    let (d, p, sp) = slabs_walk(s);
    let d2 = put_part(d, p);
    if p.len() > 0 {
        assert(d2.drop_last() =~= d);
        assert(d2.last() == p);
        assert((p[0] == ' ') == sp);
        assert forall|i: int| 0 <= i < d2.len() implies run_of(#[trigger] d2[i], d2[i][0] == ' ') by {
            if i < d.len() {
                assert(d2[i] == d[i]);
            }
        }
        assert forall|i: int| 0 < i < d2.len() implies (d2[i - 1][0] == ' ') != (#[trigger] d2[i][0] == ' ') by {
            assert(d2[i - 1] == d[i - 1]);
            if i < d.len() {
                assert(d2[i] == d[i]);
            } else {
                assert(d.last() == d[i - 1]);
            }
        }
    }
}

} // verus!
