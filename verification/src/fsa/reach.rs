//! Paths through a fragment, and the constructors whose accept state can be
//! reached from their start state.

use crate::fsa::edges::{lemma_bounded_by, lemma_joined, lemma_with_edge};
use crate::fsa::nfa::{Lable, NfaView};
use vstd::prelude::*;

verus! {

impl NfaView {
    /// One transition, on a character or on nothing, leads from `src` to `dst`.
    pub open spec fn steps(self, src: usize, dst: usize) -> bool {
        exists|lable: Lable| self.has_edge(src, lable, dst)
    }

    /// A path: one state at least, and a transition from each state to the next.
    pub open spec fn is_path(self, path: Seq<usize>) -> bool {
        &&& path.len() > 0
        &&& forall|i: int| 0 <= i < path.len() - 1 ==> self.steps(#[trigger] path[i], path[i + 1])
    }

    /// Some path leads from `from` to `to`.
    pub open spec fn reaches(self, from: usize, to: usize) -> bool {
        exists|path: Seq<usize>| #[trigger]
            self.is_path(path) && path.first() == from && path.last() == to
    }

    /// The accept state can be reached from the start state.
    pub open spec fn connected(self) -> bool {
        self.reaches(self.start, self.accept)
    }
}

/// Every state reaches itself.
pub proof fn lemma_reaches_self(fragment: NfaView, state: usize)
    ensures
        fragment.reaches(state, state),
{
    let path = seq![state];
    assert(fragment.is_path(path) && path.first() == state && path.last() == state);
}

/// A transition is a path.
pub proof fn lemma_reaches_by_edge(fragment: NfaView, src: usize, lable: Lable, dst: usize)
    requires
        fragment.has_edge(src, lable, dst),
    ensures
        fragment.reaches(src, dst),
{
    let path = seq![src, dst];
    assert(fragment.steps(path[0], path[1]));
    assert(fragment.is_path(path) && path.first() == src && path.last() == dst);
}

/// Two paths, the second from where the first ends, make one.
pub proof fn lemma_reaches_onward(fragment: NfaView, from: usize, over: usize, to: usize)
    requires
        fragment.reaches(from, over),
        fragment.reaches(over, to),
    ensures
        fragment.reaches(from, to),
{
    let first = choose|path: Seq<usize>| #[trigger]
        fragment.is_path(path) && path.first() == from && path.last() == over;
    let second = choose|path: Seq<usize>| #[trigger]
        fragment.is_path(path) && path.first() == over && path.last() == to;
    let path = first + second.drop_first();
    assert forall|i: int| 0 <= i < path.len() - 1 implies fragment.steps(
        #[trigger] path[i],
        path[i + 1],
    ) by {
        if i < first.len() - 1 {
            assert(fragment.steps(first[i], first[i + 1]));
        } else {
            let j = i - first.len() + 1;
            assert(fragment.steps(second[j], second[j + 1]));
            assert(path[i + 1] == second[j + 1]);
            if i == first.len() - 1 {
                assert(path[i] == first.last());
            } else {
                assert(path[i] == second[j]);
            }
        }
    }
    assert(fragment.is_path(path) && path.first() == from && path.last() == to);
}

/// A path stays a path where no transition is taken away.
pub proof fn lemma_reaches_within(inner: NfaView, outer: NfaView, from: usize, to: usize)
    requires
        inner.within(outer),
        inner.reaches(from, to),
    ensures
        outer.reaches(from, to),
{
    let path = choose|path: Seq<usize>| #[trigger]
        inner.is_path(path) && path.first() == from && path.last() == to;
    assert forall|i: int| 0 <= i < path.len() - 1 implies outer.steps(
        #[trigger] path[i],
        path[i + 1],
    ) by {
        let src = path[i];
        let dst = path[i + 1];
        assert(inner.steps(src, dst));
        let lable = choose|lable: Lable| inner.has_edge(src, lable, dst);
        assert(outer.has_edge(src, lable, dst));
    }
    assert(outer.is_path(path) && path.first() == from && path.last() == to);
}

/// Containment of transitions carries over a further transition.
pub proof fn lemma_within_with_edge(
    inner: NfaView,
    outer: NfaView,
    src: usize,
    lable: Lable,
    dst: usize,
)
    requires
        inner.within(outer),
    ensures
        inner.within(outer.with_edge(src, lable, dst)),
{
    lemma_with_edge(outer, src, lable, dst);
    let after = outer.with_edge(src, lable, dst);
    assert forall|key: (usize, Lable)| #[trigger]
        inner.delta.dom().contains(key) implies after.delta.dom().contains(key) by {
        assert(outer.delta.dom().contains(key));
    }
    assert forall|s: usize, l: Lable, d: usize| #[trigger]
        inner.has_edge(s, l, d) implies after.has_edge(s, l, d) by {
        assert(outer.has_edge(s, l, d));
    }
}

/// A fragment of one transition is connected.
pub proof fn lemma_of_lable_connected(lable: Lable, offset: usize)
    requires
        offset < usize::MAX,
    ensures
        NfaView::of_lable(lable, offset).connected(),
{
    let fragment = NfaView::of_lable(lable, offset);
    assert(fragment.delta.dom().contains((offset, lable)));
    assert(fragment.targets(offset, lable)[0] == offset + 1);
    lemma_reaches_by_edge(fragment, offset, lable, (offset + 1) as usize);
}

/// In the chain of a text, the state at `index` steps to the next on the
/// character `c` that the text has there.
pub proof fn lemma_chain_link(text: Seq<char>, offset: usize, index: int, c: char)
    requires
        offset + text.len() <= usize::MAX,
        0 <= index < text.len(),
        c == text[index],
    ensures
        NfaView::of_text(text, offset).steps(
            (offset + index) as usize,
            (offset + index + 1) as usize,
        ),
{
    let fragment = NfaView::of_text(text, offset);
    let src = (offset + index) as usize;
    assert(text[src - offset] == c);
    assert(fragment.delta.dom().contains((src, Lable::Char(c))));
    assert(fragment.targets(src, Lable::Char(c))[0] == src + 1);
    assert(fragment.has_edge(src, Lable::Char(c), (src + 1) as usize));
}

/// The chain of a text is connected, also that of the empty text.
pub proof fn lemma_of_text_connected(text: Seq<char>, offset: usize)
    requires
        offset + text.len() <= usize::MAX,
    ensures
        NfaView::of_text(text, offset).connected(),
{
    let fragment = NfaView::of_text(text, offset);
    let path = Seq::new(text.len() + 1, |i: int| (offset + i) as usize);
    assert forall|i: int| 0 <= i < path.len() - 1 implies fragment.steps(
        #[trigger] path[i],
        path[i + 1],
    ) by {
        lemma_chain_link(text, offset, i, text[i]);
    }
    assert(fragment.is_path(path) && path.first() == fragment.start && path.last()
        == fragment.accept);
}

/// A range that holds a character at least is connected.
pub proof fn lemma_of_cdash_connected(c1: char, c2: char, offset: usize)
    requires
        offset < usize::MAX,
        c1 <= c2,
    ensures
        NfaView::of_cdash(c1, c2, offset).connected(),
{
    let fragment = NfaView::of_cdash(c1, c2, offset);
    let lable = Lable::Char(c1);
    assert(fragment.delta.dom().contains((offset, lable)));
    assert(fragment.targets(offset, lable)[0] == offset + 1);
    lemma_reaches_by_edge(fragment, offset, lable, (offset + 1) as usize);
}

/// An alternation is connected where its second side is, and also where its
/// first side is and shares no key with the second.
pub proof fn lemma_of_or_connected(a: NfaView, b: NfaView, offset: usize)
    requires
        offset < usize::MAX,
        b.connected() || (a.connected() && a.delta.dom().disjoint(b.delta.dom())),
    ensures
        NfaView::of_or(a, b, offset).connected(),
{
    let start = offset;
    let accept = (offset + 1) as usize;
    let v0 = a.joined(b, start, accept);
    let v1 = v0.with_edge(start, Lable::Eps, a.start);
    let v2 = v1.with_edge(start, Lable::Eps, b.start);
    let v3 = v2.with_edge(a.accept, Lable::Eps, accept);
    let v4 = v3.with_edge(b.accept, Lable::Eps, accept);
    lemma_joined(a, b, start, accept);
    lemma_with_edge(v0, start, Lable::Eps, a.start);
    lemma_with_edge(v1, start, Lable::Eps, b.start);
    lemma_with_edge(v2, a.accept, Lable::Eps, accept);
    lemma_with_edge(v3, b.accept, Lable::Eps, accept);
    let side = if b.connected() {
        b
    } else {
        a
    };
    lemma_within_with_edge(side, v0, start, Lable::Eps, a.start);
    lemma_within_with_edge(side, v1, start, Lable::Eps, b.start);
    lemma_within_with_edge(side, v2, a.accept, Lable::Eps, accept);
    lemma_within_with_edge(side, v3, b.accept, Lable::Eps, accept);
    lemma_reaches_within(side, v4, side.start, side.accept);
    assert(v4.has_edge(start, Lable::Eps, side.start));
    assert(v4.has_edge(side.accept, Lable::Eps, accept));
    lemma_reaches_by_edge(v4, start, Lable::Eps, side.start);
    lemma_reaches_by_edge(v4, side.accept, Lable::Eps, accept);
    lemma_reaches_onward(v4, start, side.start, side.accept);
    lemma_reaches_onward(v4, start, side.accept, accept);
}

/// A concatenation of connected fragments that share no key is connected.
pub proof fn lemma_of_concat_connected(a: NfaView, b: NfaView)
    requires
        a.connected(),
        b.connected(),
        a.delta.dom().disjoint(b.delta.dom()),
    ensures
        NfaView::of_concat(a, b).connected(),
{
    let v0 = a.joined(b, a.start, b.accept);
    let v1 = v0.with_edge(a.accept, Lable::Eps, b.start);
    lemma_joined(a, b, a.start, b.accept);
    lemma_with_edge(v0, a.accept, Lable::Eps, b.start);
    lemma_within_with_edge(a, v0, a.accept, Lable::Eps, b.start);
    lemma_within_with_edge(b, v0, a.accept, Lable::Eps, b.start);
    lemma_reaches_within(a, v1, a.start, a.accept);
    lemma_reaches_within(b, v1, b.start, b.accept);
    lemma_reaches_by_edge(v1, a.accept, Lable::Eps, b.start);
    lemma_reaches_onward(v1, a.start, a.accept, b.start);
    lemma_reaches_onward(v1, a.start, b.start, b.accept);
}

/// A star is connected, whatever it repeats: there is the way past.
pub proof fn lemma_of_star_connected(a: NfaView, offset: usize)
    requires
        offset < usize::MAX,
    ensures
        NfaView::of_star(a, offset).connected(),
{
    let start = offset;
    let accept = (offset + 1) as usize;
    let v0 = a.bounded_by(start, accept);
    let v1 = v0.with_edge(a.accept, Lable::Eps, a.start);
    let v2 = v1.with_edge(start, Lable::Eps, a.start);
    let v3 = v2.with_edge(start, Lable::Eps, accept);
    let v4 = v3.with_edge(a.accept, Lable::Eps, accept);
    lemma_with_edge(v2, start, Lable::Eps, accept);
    lemma_with_edge(v3, a.accept, Lable::Eps, accept);
    assert(v4.has_edge(start, Lable::Eps, accept));
    lemma_reaches_by_edge(v4, start, Lable::Eps, accept);
}

/// A plus is connected where what it repeats is.
pub proof fn lemma_of_plus_connected(a: NfaView, offset: usize)
    requires
        offset < usize::MAX,
        a.connected(),
    ensures
        NfaView::of_plus(a, offset).connected(),
{
    let start = offset;
    let accept = (offset + 1) as usize;
    let v0 = a.bounded_by(start, accept);
    let v1 = v0.with_edge(a.accept, Lable::Eps, a.start);
    let v2 = v1.with_edge(start, Lable::Eps, a.start);
    let v3 = v2.with_edge(a.accept, Lable::Eps, accept);
    lemma_bounded_by(a, start, accept);
    lemma_with_edge(v0, a.accept, Lable::Eps, a.start);
    lemma_with_edge(v1, start, Lable::Eps, a.start);
    lemma_with_edge(v2, a.accept, Lable::Eps, accept);
    lemma_within_with_edge(a, v0, a.accept, Lable::Eps, a.start);
    lemma_within_with_edge(a, v1, start, Lable::Eps, a.start);
    lemma_within_with_edge(a, v2, a.accept, Lable::Eps, accept);
    lemma_reaches_within(a, v3, a.start, a.accept);
    assert(v3.has_edge(start, Lable::Eps, a.start));
    lemma_reaches_by_edge(v3, start, Lable::Eps, a.start);
    lemma_reaches_by_edge(v3, a.accept, Lable::Eps, accept);
    lemma_reaches_onward(v3, start, a.start, a.accept);
    lemma_reaches_onward(v3, start, a.accept, accept);
}

/// An option is connected, whatever it makes optional: there is the way past.
pub proof fn lemma_of_question_connected(a: NfaView, offset: usize)
    requires
        offset < usize::MAX,
    ensures
        NfaView::of_question(a, offset).connected(),
{
    let start = offset;
    let accept = (offset + 1) as usize;
    let v0 = a.bounded_by(start, accept);
    let v1 = v0.with_edge(start, Lable::Eps, a.start);
    let v2 = v1.with_edge(start, Lable::Eps, accept);
    let v3 = v2.with_edge(a.accept, Lable::Eps, accept);
    lemma_with_edge(v1, start, Lable::Eps, accept);
    lemma_with_edge(v2, a.accept, Lable::Eps, accept);
    assert(v3.has_edge(start, Lable::Eps, accept));
    lemma_reaches_by_edge(v3, start, Lable::Eps, accept);
}

} // verus!

