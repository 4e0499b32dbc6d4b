//! The transitions of a fragment as a set, and what the constructors do to it.

use crate::fsa::nfa::{Lable, NfaView};
use vstd::prelude::*;

verus! {

impl NfaView {
    /// Every transition of `self` is one of `other`, and every key too.
    pub open spec fn within(self, other: NfaView) -> bool {
        &&& forall|key: (usize, Lable)| #[trigger]
            self.delta.dom().contains(key) ==> other.delta.dom().contains(key)
        &&& forall|src: usize, lable: Lable, dst: usize| #[trigger]
            self.has_edge(src, lable, dst) ==> other.has_edge(src, lable, dst)
    }
}

/// Adding a transition adds that one transition and its key, and nothing else.
pub proof fn lemma_with_edge(fragment: NfaView, src: usize, lable: Lable, dst: usize)
    ensures
        fragment.with_edge(src, lable, dst).start == fragment.start,
        fragment.with_edge(src, lable, dst).accept == fragment.accept,
        fragment.with_edge(src, lable, dst).has_edge(src, lable, dst),
        fragment.with_edge(src, lable, dst).delta.dom() =~= fragment.delta.dom().insert(
            (src, lable),
        ),
        forall|s: usize, l: Lable, d: usize| #[trigger]
            fragment.with_edge(src, lable, dst).has_edge(s, l, d) <==> fragment.has_edge(s, l, d)
                || (s == src && l == lable && d == dst),
{
    let after = fragment.with_edge(src, lable, dst);
    if fragment.has_edge(src, lable, dst) {
        assert(fragment.delta.dom().contains((src, lable)));
    } else {
        let old_targets = fragment.targets(src, lable);
        let new_targets = old_targets.push(dst);
        assert(new_targets[old_targets.len() as int] == dst);
        assert(after.targets(src, lable) == new_targets);
        assert forall|s: usize, l: Lable, d: usize| #[trigger]
            after.has_edge(s, l, d) <==> fragment.has_edge(s, l, d) || (s == src && l == lable && d
                == dst) by {
            if s == src && l == lable {
                if old_targets.contains(d) {
                    let i = choose|i: int| 0 <= i < old_targets.len() && old_targets[i] == d;
                    assert(new_targets[i] == d);
                }
                if new_targets.contains(d) && d != dst {
                    let i = choose|i: int| 0 <= i < new_targets.len() && new_targets[i] == d;
                    assert(old_targets[i] == d);
                }
            } else {
                assert(after.targets(s, l) == fragment.targets(s, l));
            }
        }
    }
}

/// Other boundary states leave the transitions as they are.
pub proof fn lemma_bounded_by(fragment: NfaView, start: usize, accept: usize)
    ensures
        fragment.within(fragment.bounded_by(start, accept)),
        fragment.bounded_by(start, accept).within(fragment),
{
    let other = fragment.bounded_by(start, accept);
    assert forall|s: usize, l: Lable, d: usize| #[trigger]
        fragment.has_edge(s, l, d) == other.has_edge(s, l, d) by {
        assert(fragment.targets(s, l) == other.targets(s, l));
    }
}

/// Joined, the second fragment keeps all its transitions, and so does the
/// first where the two share no key; no transition comes from elsewhere.
pub proof fn lemma_joined(a: NfaView, b: NfaView, start: usize, accept: usize)
    ensures
        b.within(a.joined(b, start, accept)),
        a.delta.dom().disjoint(b.delta.dom()) ==> a.within(a.joined(b, start, accept)),
        forall|s: usize, l: Lable, d: usize| #[trigger]
            a.joined(b, start, accept).has_edge(s, l, d) ==> a.has_edge(s, l, d) || b.has_edge(
                s,
                l,
                d,
            ),
        a.joined(b, start, accept).delta.dom() =~= a.delta.dom().union(b.delta.dom()),
{
    let both = a.joined(b, start, accept);
    assert forall|s: usize, l: Lable, d: usize| #[trigger] b.has_edge(s, l, d) implies both.has_edge(
        s,
        l,
        d,
    ) by {
        assert(b.delta.dom().contains((s, l)));
    }
    if a.delta.dom().disjoint(b.delta.dom()) {
        assert forall|s: usize, l: Lable, d: usize| #[trigger]
            a.has_edge(s, l, d) implies both.has_edge(s, l, d) by {
            assert(a.delta.dom().contains((s, l)));
            assert(!b.delta.dom().contains((s, l)));
        }
    }
    assert forall|s: usize, l: Lable, d: usize| #[trigger] both.has_edge(s, l, d) implies a.has_edge(
        s,
        l,
        d,
    ) || b.has_edge(s, l, d) by {
        assert(both.delta.dom().contains((s, l)));
    }
}

/// Star, plus and option of one fragment at one offset have the same
/// transitions but for two. The way past, from the fresh start state to the
/// fresh accept state, is in the star and in the option; the plus has it only
/// where the fragment had it. The way back, from the fragment's accept state to
/// its start state, is in the star and in the plus; the option has it only
/// where the fragment had it.
pub proof fn lemma_star_plus_question(a: NfaView, offset: usize)
    requires
        offset < usize::MAX,
        a.start != offset + 1,
        a.accept != offset,
    ensures
        forall|s: usize, l: Lable, d: usize|
            NfaView::of_star(a, offset).has_edge(s, l, d) <==> #[trigger] NfaView::of_plus(
                a,
                offset,
            ).has_edge(s, l, d) || (s == offset && l == Lable::Eps && d == offset + 1),
        forall|s: usize, l: Lable, d: usize|
            NfaView::of_star(a, offset).has_edge(s, l, d) <==> #[trigger] NfaView::of_question(
                a,
                offset,
            ).has_edge(s, l, d) || (s == a.accept && l == Lable::Eps && d == a.start),
        NfaView::of_star(a, offset).has_edge(offset, Lable::Eps, (offset + 1) as usize),
        NfaView::of_star(a, offset).has_edge(a.accept, Lable::Eps, a.start),
        NfaView::of_question(a, offset).has_edge(offset, Lable::Eps, (offset + 1) as usize),
        NfaView::of_plus(a, offset).has_edge(a.accept, Lable::Eps, a.start),
        NfaView::of_plus(a, offset).has_edge(offset, Lable::Eps, (offset + 1) as usize)
            <==> a.has_edge(offset, Lable::Eps, (offset + 1) as usize),
        NfaView::of_question(a, offset).has_edge(a.accept, Lable::Eps, a.start) <==> a.has_edge(
            a.accept,
            Lable::Eps,
            a.start,
        ),
{
    let start = offset;
    let accept = (offset + 1) as usize;
    let eps = Lable::Eps;
    let v0 = a.bounded_by(start, accept);
    lemma_bounded_by(a, start, accept);

    let star1 = v0.with_edge(a.accept, eps, a.start);
    let star2 = star1.with_edge(start, eps, a.start);
    let star3 = star2.with_edge(start, eps, accept);
    let star4 = star3.with_edge(a.accept, eps, accept);
    lemma_with_edge(v0, a.accept, eps, a.start);
    lemma_with_edge(star1, start, eps, a.start);
    lemma_with_edge(star2, start, eps, accept);
    lemma_with_edge(star3, a.accept, eps, accept);

    let plus1 = v0.with_edge(a.accept, eps, a.start);
    let plus2 = plus1.with_edge(start, eps, a.start);
    let plus3 = plus2.with_edge(a.accept, eps, accept);
    lemma_with_edge(plus1, start, eps, a.start);
    lemma_with_edge(plus2, a.accept, eps, accept);

    let opt1 = v0.with_edge(start, eps, a.start);
    let opt2 = opt1.with_edge(start, eps, accept);
    let opt3 = opt2.with_edge(a.accept, eps, accept);
    lemma_with_edge(v0, start, eps, a.start);
    lemma_with_edge(opt1, start, eps, accept);
    lemma_with_edge(opt2, a.accept, eps, accept);

    assert forall|s: usize, l: Lable, d: usize|
        star4.has_edge(s, l, d) <==> #[trigger] plus3.has_edge(s, l, d) || (s == offset && l == eps && d
            == offset + 1) by {
        assert(v0.has_edge(s, l, d) == a.has_edge(s, l, d));
    }
    assert forall|s: usize, l: Lable, d: usize|
        star4.has_edge(s, l, d) <==> #[trigger] opt3.has_edge(s, l, d) || (s == a.accept && l == eps
            && d == a.start) by {
        assert(v0.has_edge(s, l, d) == a.has_edge(s, l, d));
    }
    assert(v0.has_edge(start, eps, accept) == a.has_edge(start, eps, accept));
    assert(v0.has_edge(a.accept, eps, a.start) == a.has_edge(a.accept, eps, a.start));
}

} // verus!
