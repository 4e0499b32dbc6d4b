//! The state ids that a fragment uses, and how fragments are kept apart.

use crate::fsa::edges::{lemma_bounded_by, lemma_joined, lemma_with_edge};
use crate::fsa::nfa::{Lable, NfaView};
use crate::fsa::reach::lemma_chain_link;
use vstd::prelude::*;

verus! {

impl NfaView {
    /// Some key of the table has `id` for its state.
    pub open spec fn leaves(self, id: usize) -> bool {
        exists|lable: Lable| self.delta.dom().contains((id, lable))
    }

    /// Some transition leads to `id`.
    pub open spec fn enters(self, id: usize) -> bool {
        exists|src: usize, lable: Lable| self.has_edge(src, lable, id)
    }

    /// The ids that the transition table names, on either side.
    pub open spec fn touched(self) -> Set<usize> {
        Set::new(|id: usize| self.leaves(id) || self.enters(id))
    }

    /// The ids of the fragment's states: its two boundary states and every id
    /// that its transition table names.
    pub open spec fn states(self) -> Set<usize> {
        self.touched().insert(self.start).insert(self.accept)
    }

    /// The number of states.
    pub open spec fn size(self) -> nat {
        self.states().len()
    }

    /// The states are the ids from `lo` up to `hi`, without `hi`, all of them.
    pub open spec fn fills(self, lo: int, hi: int) -> bool {
        forall|id: usize| #[trigger] self.states().contains(id) <==> lo <= id < hi
    }

    /// The states are numbered from `offset` on without a gap.
    pub open spec fn seeded(self, offset: usize) -> bool {
        self.fills(offset as int, offset + self.size())
    }
}

/// The ids from `lo` up to `hi`, without `hi`.
pub open spec fn id_run(lo: int, hi: int) -> Set<usize> {
    Set::new(|id: usize| lo <= id < hi)
}

/// A run of ids is finite and has as many ids as its bounds say.
pub proof fn lemma_id_run_len(lo: int, hi: int)
    requires
        0 <= lo <= hi <= usize::MAX + 1,
    ensures
        id_run(lo, hi).finite(),
        id_run(lo, hi).len() == hi - lo,
    decreases hi - lo,
{
    if lo == hi {
        assert(id_run(lo, hi) =~= Set::<usize>::empty());
    } else {
        lemma_id_run_len(lo, hi - 1);
        assert(id_run(lo, hi) =~= id_run(lo, hi - 1).insert((hi - 1) as usize));
    }
}

/// A fragment that fills a run of ids has as many states as the run is long,
/// and is numbered from the run's first id on.
pub proof fn lemma_fills_seeded(fragment: NfaView, lo: int, hi: int)
    requires
        fragment.fills(lo, hi),
        0 <= lo,
        hi <= usize::MAX + 1,
    ensures
        lo < hi,
        fragment.states().finite(),
        fragment.size() == hi - lo,
        fragment.seeded(lo as usize),
{
    assert(fragment.states().contains(fragment.start));
    lemma_id_run_len(lo, hi);
    assert(fragment.states() =~= id_run(lo, hi));
}

/// Two fragments, each numbered from its own offset on, share no state where
/// the second offset leaves room for all the states of the first.
pub proof fn lemma_seeded_apart(first: NfaView, o1: usize, second: NfaView, o2: usize)
    requires
        first.seeded(o1),
        second.seeded(o2),
        o2 >= o1 + first.size(),
    ensures
        first.states().disjoint(second.states()),
{
    assert forall|id: usize|
        !(first.states().contains(id) && second.states().contains(id)) by {
        if first.states().contains(id) {
            assert(id < o1 + first.size());
        }
        if second.states().contains(id) {
            assert(o2 <= id);
        }
    }
}

/// Fragments that share no state share no key.
pub proof fn lemma_apart_keys(first: NfaView, second: NfaView)
    requires
        first.states().disjoint(second.states()),
    ensures
        first.delta.dom().disjoint(second.delta.dom()),
{
    assert forall|key: (usize, Lable)|
        !(first.delta.dom().contains(key) && second.delta.dom().contains(key)) by {
        if first.delta.dom().contains(key) && second.delta.dom().contains(key) {
            assert(key == (key.0, key.1));
            assert(first.leaves(key.0));
            assert(second.leaves(key.0));
            assert(first.states().contains(key.0));
            assert(second.states().contains(key.0));
        }
    }
}

/// A further transition brings its two ends and no other id.
pub proof fn lemma_touched_with_edge(fragment: NfaView, src: usize, lable: Lable, dst: usize)
    ensures
        fragment.with_edge(src, lable, dst).touched() =~= fragment.touched().insert(src).insert(
            dst,
        ),
{
    let after = fragment.with_edge(src, lable, dst);
    lemma_with_edge(fragment, src, lable, dst);
    assert forall|id: usize|
        after.touched().contains(id) <==> fragment.touched().insert(src).insert(dst).contains(
            id,
        ) by {
        if after.leaves(id) {
            let l = choose|l: Lable| after.delta.dom().contains((id, l));
            if id != src {
                assert(fragment.delta.dom().contains((id, l)));
                assert(fragment.leaves(id));
            }
        }
        if after.enters(id) {
            let (s, l) = choose|s: usize, l: Lable| after.has_edge(s, l, id);
            if id != dst {
                assert(fragment.has_edge(s, l, id));
                assert(fragment.enters(id));
            }
        }
        if fragment.leaves(id) {
            let l = choose|l: Lable| fragment.delta.dom().contains((id, l));
            assert(after.delta.dom().contains((id, l)));
            assert(after.leaves(id));
        }
        if fragment.enters(id) {
            let (s, l) = choose|s: usize, l: Lable| fragment.has_edge(s, l, id);
            assert(after.has_edge(s, l, id));
            assert(after.enters(id));
        }
        if id == src {
            assert(after.delta.dom().contains((src, lable)));
            assert(after.leaves(id));
        }
        if id == dst {
            assert(after.has_edge(src, lable, dst));
            assert(after.enters(id));
        }
    }
}

/// Other boundary states leave the ids of the table as they are.
pub proof fn lemma_touched_bounded_by(fragment: NfaView, start: usize, accept: usize)
    ensures
        fragment.bounded_by(start, accept).touched() =~= fragment.touched(),
{
    let other = fragment.bounded_by(start, accept);
    lemma_bounded_by(fragment, start, accept);
    assert forall|id: usize| other.touched().contains(id) <==> fragment.touched().contains(id) by {
        if other.leaves(id) {
            let l = choose|l: Lable| other.delta.dom().contains((id, l));
            assert(fragment.delta.dom().contains((id, l)));
            assert(fragment.leaves(id));
        }
        if other.enters(id) {
            let (s, l) = choose|s: usize, l: Lable| other.has_edge(s, l, id);
            assert(fragment.has_edge(s, l, id));
            assert(fragment.enters(id));
        }
        if fragment.leaves(id) {
            let l = choose|l: Lable| fragment.delta.dom().contains((id, l));
            assert(other.delta.dom().contains((id, l)));
            assert(other.leaves(id));
        }
        if fragment.enters(id) {
            let (s, l) = choose|s: usize, l: Lable| fragment.has_edge(s, l, id);
            assert(other.has_edge(s, l, id));
            assert(other.enters(id));
        }
    }
}

/// Joined, two fragments that share no key name the ids that the one or the
/// other names.
pub proof fn lemma_touched_joined(a: NfaView, b: NfaView, start: usize, accept: usize)
    requires
        a.delta.dom().disjoint(b.delta.dom()),
    ensures
        a.joined(b, start, accept).touched() =~= a.touched().union(b.touched()),
{
    let both = a.joined(b, start, accept);
    lemma_joined(a, b, start, accept);
    assert forall|id: usize|
        both.touched().contains(id) <==> a.touched().union(b.touched()).contains(id) by {
        if both.leaves(id) {
            let l = choose|l: Lable| both.delta.dom().contains((id, l));
            if a.delta.dom().contains((id, l)) {
                assert(a.leaves(id));
            } else {
                assert(b.delta.dom().contains((id, l)));
                assert(b.leaves(id));
            }
        }
        if both.enters(id) {
            let (s, l) = choose|s: usize, l: Lable| both.has_edge(s, l, id);
            if a.has_edge(s, l, id) {
                assert(a.enters(id));
            } else {
                assert(b.has_edge(s, l, id));
                assert(b.enters(id));
            }
        }
        if a.leaves(id) {
            let l = choose|l: Lable| a.delta.dom().contains((id, l));
            assert(both.delta.dom().contains((id, l)));
            assert(both.leaves(id));
        }
        if b.leaves(id) {
            let l = choose|l: Lable| b.delta.dom().contains((id, l));
            assert(both.delta.dom().contains((id, l)));
            assert(both.leaves(id));
        }
        if a.enters(id) {
            let (s, l) = choose|s: usize, l: Lable| a.has_edge(s, l, id);
            assert(both.has_edge(s, l, id));
            assert(both.enters(id));
        }
        if b.enters(id) {
            let (s, l) = choose|s: usize, l: Lable| b.has_edge(s, l, id);
            assert(both.has_edge(s, l, id));
            assert(both.enters(id));
        }
    }
}

/// A fragment of one transition fills two ids.
pub proof fn lemma_of_lable_fills(lable: Lable, offset: usize)
    requires
        offset < usize::MAX,
    ensures
        NfaView::of_lable(lable, offset).fills(offset as int, offset + 2),
{
    let fragment = NfaView::of_lable(lable, offset);
    assert forall|id: usize| #[trigger]
        fragment.states().contains(id) <==> offset <= id < offset + 2 by {
        if fragment.leaves(id) {
            let l = choose|l: Lable| fragment.delta.dom().contains((id, l));
        }
        if fragment.enters(id) {
            let (s, l) = choose|s: usize, l: Lable| fragment.has_edge(s, l, id);
            assert(fragment.delta.dom().contains((s, l)));
        }
    }
}

/// The chain of a text fills one id more than the text has characters.
pub proof fn lemma_of_text_fills(text: Seq<char>, offset: usize)
    requires
        offset + text.len() <= usize::MAX,
    ensures
        NfaView::of_text(text, offset).fills(offset as int, offset + text.len() + 1),
{
    let fragment = NfaView::of_text(text, offset);
    assert forall|id: usize| #[trigger]
        fragment.states().contains(id) <==> offset <= id < offset + text.len() + 1 by {
        if fragment.leaves(id) {
            let l = choose|l: Lable| fragment.delta.dom().contains((id, l));
        }
        if fragment.enters(id) {
            let (s, l) = choose|s: usize, l: Lable| fragment.has_edge(s, l, id);
            assert(fragment.delta.dom().contains((s, l)));
        }
        if offset < id <= offset + text.len() {
            let before = (id - 1) as usize;
            lemma_chain_link(text, offset, before - offset, text[before - offset]);
            assert(fragment.steps(before, id));
            let l = choose|l: Lable| fragment.has_edge(before, l, id);
            assert(fragment.has_edge(before, l, id));
            assert(fragment.enters(id));
        }
    }
}

/// A range fills two ids, also where it holds no character.
pub proof fn lemma_of_cdash_fills(c1: char, c2: char, offset: usize)
    requires
        offset < usize::MAX,
    ensures
        NfaView::of_cdash(c1, c2, offset).fills(offset as int, offset + 2),
{
    let fragment = NfaView::of_cdash(c1, c2, offset);
    assert forall|id: usize| #[trigger]
        fragment.states().contains(id) <==> offset <= id < offset + 2 by {
        if fragment.leaves(id) {
            let l = choose|l: Lable| fragment.delta.dom().contains((id, l));
        }
        if fragment.enters(id) {
            let (s, l) = choose|s: usize, l: Lable| fragment.has_edge(s, l, id);
            assert(fragment.delta.dom().contains((s, l)));
        }
    }
}

/// Fragments that fill runs of ids that do not meet share no key.
pub proof fn lemma_fills_apart(a: NfaView, b: NfaView, lo: int, mid: int, hi: int)
    requires
        a.fills(lo, mid),
        b.fills(mid, hi),
    ensures
        a.states().disjoint(b.states()),
        a.delta.dom().disjoint(b.delta.dom()),
{
    assert forall|id: usize| !(a.states().contains(id) && b.states().contains(id)) by {
        if a.states().contains(id) {
            assert(id < mid);
        }
        if b.states().contains(id) {
            assert(mid <= id);
        }
    }
    lemma_apart_keys(a, b);
}

/// An alternation of two fragments that fill one run of ids after the other,
/// with the two ids behind them for its fresh states, fills all of it.
pub proof fn lemma_of_or_fills(a: NfaView, b: NfaView, offset: usize, lo: int, mid: int)
    requires
        offset < usize::MAX,
        a.fills(lo, mid),
        b.fills(mid, offset as int),
    ensures
        NfaView::of_or(a, b, offset).fills(lo, offset + 2),
{
    let start = offset;
    let accept = (offset + 1) as usize;
    let v0 = a.joined(b, start, accept);
    let v1 = v0.with_edge(start, Lable::Eps, a.start);
    let v2 = v1.with_edge(start, Lable::Eps, b.start);
    let v3 = v2.with_edge(a.accept, Lable::Eps, accept);
    let v4 = v3.with_edge(b.accept, Lable::Eps, accept);
    lemma_fills_apart(a, b, lo, mid, offset as int);
    lemma_touched_joined(a, b, start, accept);
    lemma_touched_with_edge(v0, start, Lable::Eps, a.start);
    lemma_touched_with_edge(v1, start, Lable::Eps, b.start);
    lemma_touched_with_edge(v2, a.accept, Lable::Eps, accept);
    lemma_touched_with_edge(v3, b.accept, Lable::Eps, accept);
    lemma_with_edge(v0, start, Lable::Eps, a.start);
    lemma_with_edge(v1, start, Lable::Eps, b.start);
    lemma_with_edge(v2, a.accept, Lable::Eps, accept);
    lemma_with_edge(v3, b.accept, Lable::Eps, accept);
    assert(a.states().contains(a.start) && a.states().contains(a.accept));
    assert(b.states().contains(b.start) && b.states().contains(b.accept));
    assert forall|id: usize| #[trigger] v4.states().contains(id) <==> lo <= id < offset + 2 by {
        assert(a.touched().contains(id) ==> a.states().contains(id));
        assert(b.touched().contains(id) ==> b.states().contains(id));
        assert(a.states().contains(id) ==> a.touched().contains(id) || id == a.start || id
            == a.accept);
        assert(b.states().contains(id) ==> b.touched().contains(id) || id == b.start || id
            == b.accept);
    }
}

/// A concatenation of two fragments that fill one run of ids after the other
/// fills both runs.
pub proof fn lemma_of_concat_fills(a: NfaView, b: NfaView, lo: int, mid: int, hi: int)
    requires
        a.fills(lo, mid),
        b.fills(mid, hi),
    ensures
        NfaView::of_concat(a, b).fills(lo, hi),
{
    let v0 = a.joined(b, a.start, b.accept);
    let v1 = v0.with_edge(a.accept, Lable::Eps, b.start);
    lemma_fills_apart(a, b, lo, mid, hi);
    lemma_touched_joined(a, b, a.start, b.accept);
    lemma_touched_with_edge(v0, a.accept, Lable::Eps, b.start);
    lemma_with_edge(v0, a.accept, Lable::Eps, b.start);
    assert(a.states().contains(a.start) && a.states().contains(a.accept));
    assert(b.states().contains(b.start) && b.states().contains(b.accept));
    assert forall|id: usize| #[trigger] v1.states().contains(id) <==> lo <= id < hi by {
        assert(a.touched().contains(id) ==> a.states().contains(id));
        assert(b.touched().contains(id) ==> b.states().contains(id));
        assert(a.states().contains(id) ==> a.touched().contains(id) || id == a.start || id
            == a.accept);
        assert(b.states().contains(id) ==> b.touched().contains(id) || id == b.start || id
            == b.accept);
    }
}

/// A star around a fragment that fills a run of ids, with the two ids behind
/// the run for its fresh states, fills all of it.
pub proof fn lemma_of_star_fills(a: NfaView, offset: usize, lo: int)
    requires
        offset < usize::MAX,
        a.fills(lo, offset as int),
    ensures
        NfaView::of_star(a, offset).fills(lo, offset + 2),
{
    let start = offset;
    let accept = (offset + 1) as usize;
    let v0 = a.bounded_by(start, accept);
    let v1 = v0.with_edge(a.accept, Lable::Eps, a.start);
    let v2 = v1.with_edge(start, Lable::Eps, a.start);
    let v3 = v2.with_edge(start, Lable::Eps, accept);
    let v4 = v3.with_edge(a.accept, Lable::Eps, accept);
    lemma_touched_bounded_by(a, start, accept);
    lemma_touched_with_edge(v0, a.accept, Lable::Eps, a.start);
    lemma_touched_with_edge(v1, start, Lable::Eps, a.start);
    lemma_touched_with_edge(v2, start, Lable::Eps, accept);
    lemma_touched_with_edge(v3, a.accept, Lable::Eps, accept);
    lemma_with_edge(v0, a.accept, Lable::Eps, a.start);
    lemma_with_edge(v1, start, Lable::Eps, a.start);
    lemma_with_edge(v2, start, Lable::Eps, accept);
    lemma_with_edge(v3, a.accept, Lable::Eps, accept);
    assert(a.states().contains(a.start) && a.states().contains(a.accept));
    assert forall|id: usize| #[trigger] v4.states().contains(id) <==> lo <= id < offset + 2 by {
        assert(a.touched().contains(id) ==> a.states().contains(id));
        assert(a.states().contains(id) ==> a.touched().contains(id) || id == a.start || id
            == a.accept);
    }
}

/// A plus fills what a star fills.
pub proof fn lemma_of_plus_fills(a: NfaView, offset: usize, lo: int)
    requires
        offset < usize::MAX,
        a.fills(lo, offset as int),
    ensures
        NfaView::of_plus(a, offset).fills(lo, offset + 2),
{
    let start = offset;
    let accept = (offset + 1) as usize;
    let v0 = a.bounded_by(start, accept);
    let v1 = v0.with_edge(a.accept, Lable::Eps, a.start);
    let v2 = v1.with_edge(start, Lable::Eps, a.start);
    let v3 = v2.with_edge(a.accept, Lable::Eps, accept);
    lemma_touched_bounded_by(a, start, accept);
    lemma_touched_with_edge(v0, a.accept, Lable::Eps, a.start);
    lemma_touched_with_edge(v1, start, Lable::Eps, a.start);
    lemma_touched_with_edge(v2, a.accept, Lable::Eps, accept);
    lemma_with_edge(v0, a.accept, Lable::Eps, a.start);
    lemma_with_edge(v1, start, Lable::Eps, a.start);
    lemma_with_edge(v2, a.accept, Lable::Eps, accept);
    assert(a.states().contains(a.start) && a.states().contains(a.accept));
    assert forall|id: usize| #[trigger] v3.states().contains(id) <==> lo <= id < offset + 2 by {
        assert(a.touched().contains(id) ==> a.states().contains(id));
        assert(a.states().contains(id) ==> a.touched().contains(id) || id == a.start || id
            == a.accept);
    }
}

/// An option fills what a star fills.
pub proof fn lemma_of_question_fills(a: NfaView, offset: usize, lo: int)
    requires
        offset < usize::MAX,
        a.fills(lo, offset as int),
    ensures
        NfaView::of_question(a, offset).fills(lo, offset + 2),
{
    let start = offset;
    let accept = (offset + 1) as usize;
    let v0 = a.bounded_by(start, accept);
    let v1 = v0.with_edge(start, Lable::Eps, a.start);
    let v2 = v1.with_edge(start, Lable::Eps, accept);
    let v3 = v2.with_edge(a.accept, Lable::Eps, accept);
    lemma_touched_bounded_by(a, start, accept);
    lemma_touched_with_edge(v0, start, Lable::Eps, a.start);
    lemma_touched_with_edge(v1, start, Lable::Eps, accept);
    lemma_touched_with_edge(v2, a.accept, Lable::Eps, accept);
    lemma_with_edge(v0, start, Lable::Eps, a.start);
    lemma_with_edge(v1, start, Lable::Eps, accept);
    lemma_with_edge(v2, a.accept, Lable::Eps, accept);
    assert(a.states().contains(a.start) && a.states().contains(a.accept));
    assert forall|id: usize| #[trigger] v3.states().contains(id) <==> lo <= id < offset + 2 by {
        assert(a.touched().contains(id) ==> a.states().contains(id));
        assert(a.states().contains(id) ==> a.touched().contains(id) || id == a.start || id
            == a.accept);
    }
}

} // verus!
