//! Fragments in which the start state reaches every state.

use crate::fsa::edges::{lemma_bounded_by, lemma_joined, lemma_with_edge};
use crate::fsa::ids::{
    lemma_fills_apart, lemma_of_cdash_fills, lemma_of_concat_fills, lemma_of_lable_fills,
    lemma_of_or_fills, lemma_of_plus_fills, lemma_of_question_fills, lemma_of_star_fills,
    lemma_of_text_fills,
};
use crate::fsa::nfa::{Lable, NfaView};
use crate::fsa::reach::{
    lemma_chain_link, lemma_of_cdash_connected, lemma_of_lable_connected, lemma_reaches_by_edge,
    lemma_reaches_onward, lemma_reaches_self, lemma_reaches_within, lemma_within_with_edge,
};
use vstd::prelude::*;

verus! {

impl NfaView {
    /// Every state of the fragment can be reached from its start state.
    pub open spec fn rooted(self) -> bool {
        forall|id: usize| #[trigger] self.states().contains(id) ==> self.reaches(self.start, id)
    }
}

/// In a rooted fragment the accept state can be reached from the start state.
pub proof fn lemma_rooted_connected(fragment: NfaView)
    requires
        fragment.rooted(),
    ensures
        fragment.connected(),
{
    assert(fragment.states().contains(fragment.accept));
}

/// A fragment of one transition is rooted.
pub proof fn lemma_of_lable_rooted(lable: Lable, offset: usize)
    requires
        offset < usize::MAX,
    ensures
        NfaView::of_lable(lable, offset).rooted(),
{
    let fragment = NfaView::of_lable(lable, offset);
    lemma_of_lable_fills(lable, offset);
    lemma_of_lable_connected(lable, offset);
    lemma_reaches_self(fragment, offset);
}

/// A range that holds a character at least is rooted.
pub proof fn lemma_of_cdash_rooted(c1: char, c2: char, offset: usize)
    requires
        offset < usize::MAX,
        c1 <= c2,
    ensures
        NfaView::of_cdash(c1, c2, offset).rooted(),
{
    let fragment = NfaView::of_cdash(c1, c2, offset);
    lemma_of_cdash_fills(c1, c2, offset);
    lemma_of_cdash_connected(c1, c2, offset);
    lemma_reaches_self(fragment, offset);
}

// The start of a chain reaches the state `steps` links on.
proof fn lemma_chain_reaches(text: Seq<char>, offset: usize, steps: int)
    requires
        offset + text.len() <= usize::MAX,
        0 <= steps <= text.len(),
    ensures
        NfaView::of_text(text, offset).reaches(offset, (offset + steps) as usize),
    decreases steps,
{
    let fragment = NfaView::of_text(text, offset);
    if steps == 0 {
        lemma_reaches_self(fragment, offset);
    } else {
        lemma_chain_reaches(text, offset, steps - 1);
        lemma_chain_link(text, offset, steps - 1, text[steps - 1]);
        let before = (offset + steps - 1) as usize;
        let here = (offset + steps) as usize;
        assert(fragment.steps(before, here));
        let lable = choose|lable: Lable| fragment.has_edge(before, lable, here);
        lemma_reaches_by_edge(fragment, before, lable, here);
        lemma_reaches_onward(fragment, offset, before, here);
    }
}

/// The chain of a text is rooted.
pub proof fn lemma_of_text_rooted(text: Seq<char>, offset: usize)
    requires
        offset + text.len() <= usize::MAX,
    ensures
        NfaView::of_text(text, offset).rooted(),
{
    let fragment = NfaView::of_text(text, offset);
    lemma_of_text_fills(text, offset);
    assert forall|id: usize| #[trigger] fragment.states().contains(id) implies fragment.reaches(
        fragment.start,
        id,
    ) by {
        lemma_chain_reaches(text, offset, id - offset);
    }
}

// Where a rooted fragment lies within another whose start state reaches its
// start state, the other's start state reaches all its states.
proof fn lemma_reaches_part(inner: NfaView, outer: NfaView)
    requires
        inner.rooted(),
        inner.within(outer),
        outer.reaches(outer.start, inner.start),
    ensures
        forall|id: usize| #[trigger]
            inner.states().contains(id) ==> outer.reaches(outer.start, id),
{
    assert forall|id: usize| #[trigger] inner.states().contains(id) implies outer.reaches(
        outer.start,
        id,
    ) by {
        lemma_reaches_within(inner, outer, inner.start, id);
        lemma_reaches_onward(outer, outer.start, inner.start, id);
    }
}

/// An alternation of two rooted fragments that fill one run of ids after the
/// other, with the next two ids for its fresh states, is rooted.
pub proof fn lemma_of_or_rooted(a: NfaView, b: NfaView, offset: usize, lo: int, mid: int)
    requires
        offset < usize::MAX,
        a.fills(lo, mid),
        b.fills(mid, offset as int),
        a.rooted(),
        b.rooted(),
    ensures
        NfaView::of_or(a, b, offset).rooted(),
{
    let start = offset;
    let accept = (offset + 1) as usize;
    let v0 = a.joined(b, start, accept);
    let v1 = v0.with_edge(start, Lable::Eps, a.start);
    let v2 = v1.with_edge(start, Lable::Eps, b.start);
    let v3 = v2.with_edge(a.accept, Lable::Eps, accept);
    let v4 = v3.with_edge(b.accept, Lable::Eps, accept);
    lemma_fills_apart(a, b, lo, mid, offset as int);
    lemma_of_or_fills(a, b, offset, lo, mid);
    lemma_joined(a, b, start, accept);
    lemma_with_edge(v0, start, Lable::Eps, a.start);
    lemma_with_edge(v1, start, Lable::Eps, b.start);
    lemma_with_edge(v2, a.accept, Lable::Eps, accept);
    lemma_with_edge(v3, b.accept, Lable::Eps, accept);
    lemma_within_with_edge(a, v0, start, Lable::Eps, a.start);
    lemma_within_with_edge(a, v1, start, Lable::Eps, b.start);
    lemma_within_with_edge(a, v2, a.accept, Lable::Eps, accept);
    lemma_within_with_edge(a, v3, b.accept, Lable::Eps, accept);
    lemma_within_with_edge(b, v0, start, Lable::Eps, a.start);
    lemma_within_with_edge(b, v1, start, Lable::Eps, b.start);
    lemma_within_with_edge(b, v2, a.accept, Lable::Eps, accept);
    lemma_within_with_edge(b, v3, b.accept, Lable::Eps, accept);
    assert(v4.has_edge(start, Lable::Eps, a.start));
    assert(v4.has_edge(start, Lable::Eps, b.start));
    assert(v4.has_edge(b.accept, Lable::Eps, accept));
    lemma_reaches_by_edge(v4, start, Lable::Eps, a.start);
    lemma_reaches_by_edge(v4, start, Lable::Eps, b.start);
    lemma_reaches_by_edge(v4, b.accept, Lable::Eps, accept);
    lemma_reaches_part(a, v4);
    lemma_reaches_part(b, v4);
    lemma_reaches_self(v4, start);
    assert(b.states().contains(b.accept));
    lemma_reaches_onward(v4, start, b.accept, accept);
    assert forall|id: usize| #[trigger] v4.states().contains(id) implies v4.reaches(
        v4.start,
        id,
    ) by {
        if id < mid {
            assert(a.states().contains(id));
        } else if id < offset {
            assert(b.states().contains(id));
        }
    }
}

/// A concatenation of two rooted fragments that fill one run of ids after the
/// other is rooted.
pub proof fn lemma_of_concat_rooted(a: NfaView, b: NfaView, lo: int, mid: int, hi: int)
    requires
        a.fills(lo, mid),
        b.fills(mid, hi),
        a.rooted(),
        b.rooted(),
    ensures
        NfaView::of_concat(a, b).rooted(),
{
    let v0 = a.joined(b, a.start, b.accept);
    let v1 = v0.with_edge(a.accept, Lable::Eps, b.start);
    lemma_fills_apart(a, b, lo, mid, hi);
    lemma_of_concat_fills(a, b, lo, mid, hi);
    lemma_joined(a, b, a.start, b.accept);
    lemma_with_edge(v0, a.accept, Lable::Eps, b.start);
    lemma_within_with_edge(a, v0, a.accept, Lable::Eps, b.start);
    lemma_within_with_edge(b, v0, a.accept, Lable::Eps, b.start);
    lemma_reaches_self(v1, a.start);
    lemma_reaches_part(a, v1);
    assert(a.states().contains(a.accept));
    lemma_reaches_by_edge(v1, a.accept, Lable::Eps, b.start);
    lemma_reaches_onward(v1, a.start, a.accept, b.start);
    lemma_reaches_part(b, v1);
    assert forall|id: usize| #[trigger] v1.states().contains(id) implies v1.reaches(
        v1.start,
        id,
    ) by {
        if id < mid {
            assert(a.states().contains(id));
        } else {
            assert(b.states().contains(id));
        }
    }
}

/// A star around a rooted fragment that fills a run of ids, with the next two
/// ids for its fresh states, is rooted.
pub proof fn lemma_of_star_rooted(a: NfaView, offset: usize, lo: int)
    requires
        offset < usize::MAX,
        a.fills(lo, offset as int),
        a.rooted(),
    ensures
        NfaView::of_star(a, offset).rooted(),
{
    let start = offset;
    let accept = (offset + 1) as usize;
    let v0 = a.bounded_by(start, accept);
    let v1 = v0.with_edge(a.accept, Lable::Eps, a.start);
    let v2 = v1.with_edge(start, Lable::Eps, a.start);
    let v3 = v2.with_edge(start, Lable::Eps, accept);
    let v4 = v3.with_edge(a.accept, Lable::Eps, accept);
    lemma_of_star_fills(a, offset, lo);
    lemma_bounded_by(a, start, accept);
    lemma_with_edge(v0, a.accept, Lable::Eps, a.start);
    lemma_with_edge(v1, start, Lable::Eps, a.start);
    lemma_with_edge(v2, start, Lable::Eps, accept);
    lemma_with_edge(v3, a.accept, Lable::Eps, accept);
    lemma_within_with_edge(a, v0, a.accept, Lable::Eps, a.start);
    lemma_within_with_edge(a, v1, start, Lable::Eps, a.start);
    lemma_within_with_edge(a, v2, start, Lable::Eps, accept);
    lemma_within_with_edge(a, v3, a.accept, Lable::Eps, accept);
    assert(v4.has_edge(start, Lable::Eps, a.start));
    assert(v4.has_edge(start, Lable::Eps, accept));
    lemma_reaches_by_edge(v4, start, Lable::Eps, a.start);
    lemma_reaches_by_edge(v4, start, Lable::Eps, accept);
    lemma_reaches_self(v4, start);
    lemma_reaches_part(a, v4);
    assert forall|id: usize| #[trigger] v4.states().contains(id) implies v4.reaches(
        v4.start,
        id,
    ) by {
        if id < offset {
            assert(a.states().contains(id));
        }
    }
}

/// A plus around a rooted fragment that fills a run of ids, with the next two
/// ids for its fresh states, is rooted.
pub proof fn lemma_of_plus_rooted(a: NfaView, offset: usize, lo: int)
    requires
        offset < usize::MAX,
        a.fills(lo, offset as int),
        a.rooted(),
    ensures
        NfaView::of_plus(a, offset).rooted(),
{
    let start = offset;
    let accept = (offset + 1) as usize;
    let v0 = a.bounded_by(start, accept);
    let v1 = v0.with_edge(a.accept, Lable::Eps, a.start);
    let v2 = v1.with_edge(start, Lable::Eps, a.start);
    let v3 = v2.with_edge(a.accept, Lable::Eps, accept);
    lemma_of_plus_fills(a, offset, lo);
    lemma_bounded_by(a, start, accept);
    lemma_with_edge(v0, a.accept, Lable::Eps, a.start);
    lemma_with_edge(v1, start, Lable::Eps, a.start);
    lemma_with_edge(v2, a.accept, Lable::Eps, accept);
    lemma_within_with_edge(a, v0, a.accept, Lable::Eps, a.start);
    lemma_within_with_edge(a, v1, start, Lable::Eps, a.start);
    lemma_within_with_edge(a, v2, a.accept, Lable::Eps, accept);
    assert(v3.has_edge(start, Lable::Eps, a.start));
    lemma_reaches_by_edge(v3, start, Lable::Eps, a.start);
    lemma_reaches_by_edge(v3, a.accept, Lable::Eps, accept);
    lemma_reaches_self(v3, start);
    lemma_reaches_part(a, v3);
    assert(a.states().contains(a.accept));
    lemma_reaches_onward(v3, start, a.accept, accept);
    assert forall|id: usize| #[trigger] v3.states().contains(id) implies v3.reaches(
        v3.start,
        id,
    ) by {
        if id < offset {
            assert(a.states().contains(id));
        }
    }
}

/// An option around a rooted fragment that fills a run of ids, with the next
/// two ids for its fresh states, is rooted.
pub proof fn lemma_of_question_rooted(a: NfaView, offset: usize, lo: int)
    requires
        offset < usize::MAX,
        a.fills(lo, offset as int),
        a.rooted(),
    ensures
        NfaView::of_question(a, offset).rooted(),
{
    let start = offset;
    let accept = (offset + 1) as usize;
    let v0 = a.bounded_by(start, accept);
    let v1 = v0.with_edge(start, Lable::Eps, a.start);
    let v2 = v1.with_edge(start, Lable::Eps, accept);
    let v3 = v2.with_edge(a.accept, Lable::Eps, accept);
    lemma_of_question_fills(a, offset, lo);
    lemma_bounded_by(a, start, accept);
    lemma_with_edge(v0, start, Lable::Eps, a.start);
    lemma_with_edge(v1, start, Lable::Eps, accept);
    lemma_with_edge(v2, a.accept, Lable::Eps, accept);
    lemma_within_with_edge(a, v0, start, Lable::Eps, a.start);
    lemma_within_with_edge(a, v1, start, Lable::Eps, accept);
    lemma_within_with_edge(a, v2, a.accept, Lable::Eps, accept);
    assert(v3.has_edge(start, Lable::Eps, a.start));
    assert(v3.has_edge(start, Lable::Eps, accept));
    lemma_reaches_by_edge(v3, start, Lable::Eps, a.start);
    lemma_reaches_by_edge(v3, start, Lable::Eps, accept);
    lemma_reaches_self(v3, start);
    lemma_reaches_part(a, v3);
    assert forall|id: usize| #[trigger] v3.states().contains(id) implies v3.reaches(
        v3.start,
        id,
    ) by {
        if id < offset {
            assert(a.states().contains(id));
        }
    }
}

} // verus!
