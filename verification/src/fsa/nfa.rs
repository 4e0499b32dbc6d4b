//! Fragments of a nondeterministic finite automaton, and the constructors of
//! Thompson's construction that build and combine them.

use crate::fsa::ids::{
    lemma_fills_seeded, lemma_of_cdash_fills, lemma_of_lable_fills, lemma_of_text_fills,
};
use crate::fsa::table::{
    lemma_table_absent, lemma_table_concat, lemma_table_last, lemma_table_tidy,
    lemma_table_update, lemma_tidy_concat, lemma_tidy_push, table_of, tidy_rows, tidy_table,
};
use crate::text::{char_at, chars_of};
use vstd::prelude::*;
use vstd::std_specs::convert::FromSpecImpl;

verus! {

/// The character that writes the decimal digit `digit`.
pub open spec fn digit_char(digit: usize) -> char {
    ('0' as usize + digit) as char
}

/// The character of a decimal digit.
pub fn utoc(digit: usize) -> (c: char)
    requires
        digit <= 9,
    ensures
        c == digit_char(digit),
{
    match digit {
        0 => '0',
        1 => '1',
        2 => '2',
        3 => '3',
        4 => '4',
        5 => '5',
        6 => '6',
        7 => '7',
        8 => '8',
        _ => '9',
    }
}

/// What a transition is taken on: a character of the input, or nothing.
#[derive(Clone, Copy, Debug, PartialEq, Eq, Hash, Structural)]
pub enum Lable {
    Char(char),
    Eps,
}

impl From<char> for Lable {
    fn from(c: char) -> (lable: Self) {
        Lable::Char(c)
    }
}

impl FromSpecImpl<char> for Lable {
    open spec fn obeys_from_spec() -> bool {
        true
    }

    open spec fn from_spec(c: char) -> Self {
        Lable::Char(c)
    }
}

/// A fragment as a mathematical value: its two boundary states and its
/// transition table. A key that has no transition is not in the table's domain.
pub struct NfaView {
    pub start: usize,
    pub accept: usize,
    pub delta: Map<(usize, Lable), Seq<usize>>,
}

impl NfaView {
    /// The states reached from `state` on `lable`, in the order in which their
    /// transitions were added; empty where there is none.
    pub open spec fn targets(self, state: usize, lable: Lable) -> Seq<usize> {
        if self.delta.dom().contains((state, lable)) {
            self.delta[(state, lable)]
        } else {
            Seq::empty()
        }
    }

    /// Every key of the table has a target at least, and none twice.
    pub open spec fn tidy(self) -> bool {
        tidy_table(self.delta)
    }

    /// There is a transition from `src` to `dst` on `lable`.
    pub open spec fn has_edge(self, src: usize, lable: Lable, dst: usize) -> bool {
        self.targets(src, lable).contains(dst)
    }

    /// The fragment with one more transition. A transition that is already
    /// there is not added again; a new one comes last among its key's targets.
    pub open spec fn with_edge(self, src: usize, lable: Lable, dst: usize) -> NfaView {
        if self.has_edge(src, lable, dst) {
            self
        } else {
            NfaView { delta: self.delta.insert((src, lable), self.targets(src, lable).push(dst)), ..self }
        }
    }

    /// Two fresh states, `offset` and the next id, and one transition between
    /// them on `lable`.
    pub open spec fn of_lable(lable: Lable, offset: usize) -> NfaView {
        NfaView {
            start: offset,
            accept: (offset + 1) as usize,
            delta: map![(offset, lable) => seq![(offset + 1) as usize]],
        }
    }

    /// A chain of states from `offset` on, with one transition per character of
    /// `text` from each state to the next.
    pub open spec fn of_text(text: Seq<char>, offset: usize) -> NfaView {
        NfaView {
            start: offset,
            accept: (offset + text.len()) as usize,
            delta: Map::new(
                |key: (usize, Lable)|
                    offset <= key.0 < offset + text.len() && key.1 == Lable::Char(
                        text[key.0 - offset],
                    ),
                |key: (usize, Lable)| seq![(key.0 + 1) as usize],
            ),
        }
    }

    /// Two fresh states and, between them, one transition for each character
    /// from `c1` to `c2`, both included.
    pub open spec fn of_cdash(c1: char, c2: char, offset: usize) -> NfaView {
        NfaView {
            start: offset,
            accept: (offset + 1) as usize,
            delta: Map::new(
                |key: (usize, Lable)|
                    key.0 == offset && (key.1 matches Lable::Char(c) && c1 <= c <= c2),
                |key: (usize, Lable)| seq![(offset + 1) as usize],
            ),
        }
    }

    /// The fragment with other boundary states and the same transitions.
    pub open spec fn bounded_by(self, start: usize, accept: usize) -> NfaView {
        NfaView { start, accept, delta: self.delta }
    }

    /// The transitions of `self` and of `other` together, between the boundary
    /// states given. Where both have a key, the targets of `other` stand.
    pub open spec fn joined(self, other: NfaView, start: usize, accept: usize) -> NfaView {
        NfaView { start, accept, delta: self.delta.union_prefer_right(other.delta) }
    }

    /// Alternation: two fresh states around `a` and `b`, side by side.
    pub open spec fn of_or(a: NfaView, b: NfaView, offset: usize) -> NfaView {
        let start = offset;
        let accept = (offset + 1) as usize;
        a.joined(b, start, accept).with_edge(start, Lable::Eps, a.start).with_edge(
            start,
            Lable::Eps,
            b.start,
        ).with_edge(a.accept, Lable::Eps, accept).with_edge(b.accept, Lable::Eps, accept)
    }

    /// Concatenation: `a`, then `b`, with no fresh state.
    pub open spec fn of_concat(a: NfaView, b: NfaView) -> NfaView {
        a.joined(b, a.start, b.accept).with_edge(a.accept, Lable::Eps, b.start)
    }

    /// Repetition, any number of times: two fresh states around `a`, a way
    /// back from its end to its start, and a way past it.
    pub open spec fn of_star(a: NfaView, offset: usize) -> NfaView {
        let start = offset;
        let accept = (offset + 1) as usize;
        a.bounded_by(start, accept).with_edge(a.accept, Lable::Eps, a.start).with_edge(
            start,
            Lable::Eps,
            a.start,
        ).with_edge(start, Lable::Eps, accept).with_edge(a.accept, Lable::Eps, accept)
    }

    /// Repetition, at least once: as `of_star`, without the way past `a`.
    pub open spec fn of_plus(a: NfaView, offset: usize) -> NfaView {
        let start = offset;
        let accept = (offset + 1) as usize;
        a.bounded_by(start, accept).with_edge(a.accept, Lable::Eps, a.start).with_edge(
            start,
            Lable::Eps,
            a.start,
        ).with_edge(a.accept, Lable::Eps, accept)
    }

    /// Option: as `of_star`, without the way back.
    pub open spec fn of_question(a: NfaView, offset: usize) -> NfaView {
        let start = offset;
        let accept = (offset + 1) as usize;
        a.bounded_by(start, accept).with_edge(start, Lable::Eps, a.start).with_edge(
            start,
            Lable::Eps,
            accept,
        ).with_edge(a.accept, Lable::Eps, accept)
    }
}

/// `char::from_u32` gives the character whose code point is `code`, and
/// nothing where `code` is a surrogate or lies beyond the last code point.
pub assume_specification[ char::from_u32 ](code: u32) -> (c: Option<char>)
    ensures
        c == if code <= 0xD7FF || (0xE000 <= code && code <= 0x10FFFF) {
            Some(code as char)
        } else {
            None::<char>
        },
;

/// A fragment of an automaton: a start state, an accept state and the
/// transitions between its states. Every key of its table has a target at
/// least, and no target twice.
pub struct Nfa {
    start_id: usize,
    finish_id: usize,
    // Read in order; a later row replaces an earlier one with the same key.
    delta: Vec<((usize, Lable), Vec<usize>)>,
}

impl View for Nfa {
    type V = NfaView;

    closed spec fn view(&self) -> NfaView {
        NfaView { start: self.start_id, accept: self.finish_id, delta: table_of(self.delta@) }
    }
}

fn holds(ids: &Vec<usize>, id: usize) -> (found: bool)
    ensures
        found == ids@.contains(id),
{
    let mut i: usize = 0;
    while i < ids.len()
        invariant
            i <= ids.len(),
            forall|j: int| 0 <= j < i ==> ids@[j] != id,
        decreases ids.len() - i,
    {
        if ids[i] == id {
            return true;
        }
        i += 1;
    }
    false
}

impl Nfa {
    #[verifier::type_invariant]
    spec fn rows_are_tidy(self) -> bool {
        tidy_rows(self.delta@)
    }

    // What the invariant says of the table.
    proof fn lemma_tidy(&self)
        requires
            tidy_rows(self.delta@),
        ensures
            self@.tidy(),
    {
        lemma_table_tidy(self.delta@);
    }

    /// The fragment that accepts `text`, character by character.
    pub fn of_text(text: &str, offset: usize) -> (nfa: Self)
        requires
            offset + text@.len() <= usize::MAX,
        ensures
            nfa@ == NfaView::of_text(text@, offset),
            nfa@.seeded(offset),
            nfa@.size() == text@.len() + 1,
            nfa@.tidy(),
    {
        let chars = chars_of(text);
        let mut delta: Vec<((usize, Lable), Vec<usize>)> = Vec::new();
        let mut index: usize = 0;
        while index < chars.len()
            invariant
                index <= chars.len(),
                chars@ == text@,
                offset + text@.len() <= usize::MAX,
                table_of(delta@) =~= NfaView::of_text(text@.take(index as int), offset).delta,
                tidy_rows(delta@),
            decreases chars.len() - index,
        {
            let mut targets: Vec<usize> = Vec::new();
            targets.push(index + offset + 1);
            let row = ((index + offset, Lable::Char(char_at(&chars, index))), targets);
            let ghost before = delta@;
            proof {
                lemma_tidy_push(before, row);
            }
            delta.push(row);
            proof {
                assert(delta@.drop_last() =~= before);
            }
            index += 1;
        }
        proof {
            assert(text@.take(index as int) =~= text@);
            lemma_of_text_fills(text@, offset);
            lemma_fills_seeded(
                NfaView::of_text(text@, offset),
                offset as int,
                offset + text@.len() + 1,
            );
        }
        let nfa = Nfa { start_id: offset, finish_id: offset + chars.len(), delta };
        proof {
            nfa.lemma_tidy();
        }
        nfa
    }

    // Two fresh states with one transition between them.
    fn of_lable(lable: Lable, offset: usize) -> (nfa: Self)
        requires
            offset < usize::MAX,
        ensures
            nfa@ == NfaView::of_lable(lable, offset),
            nfa@.seeded(offset),
            nfa@.size() == 2,
            nfa@.tidy(),
    {
        let start_id = offset;
        let finish_id = offset + 1;
        let mut nfa = Nfa { start_id, finish_id, delta: Vec::new() };
        nfa.insert_transition(start_id, lable, finish_id);
        assert(nfa@.delta =~= NfaView::of_lable(lable, offset).delta);
        proof {
            use_type_invariant(&nfa);
            nfa.lemma_tidy();
            lemma_of_lable_fills(lable, offset);
            lemma_fills_seeded(NfaView::of_lable(lable, offset), offset as int, offset + 2);
        }
        nfa
    }

    /// The fragment that accepts the one decimal digit `digit`.
    pub fn of_digit(digit: usize, offset: usize) -> (nfa: Self)
        requires
            digit <= 9,
            offset < usize::MAX,
        ensures
            nfa@ == NfaView::of_lable(Lable::Char(digit_char(digit)), offset),
            nfa@.seeded(offset),
            nfa@.size() == 2,
            nfa@.tidy(),
    {
        Nfa::of_lable(Lable::Char(utoc(digit)), offset)
    }

    /// The fragment that accepts the one character `c`.
    pub fn of_char(c: char, offset: usize) -> (nfa: Self)
        requires
            offset < usize::MAX,
        ensures
            nfa@ == NfaView::of_lable(Lable::Char(c), offset),
            nfa@.seeded(offset),
            nfa@.size() == 2,
            nfa@.tidy(),
    {
        Nfa::of_lable(Lable::Char(c), offset)
    }

    /// The fragment that accepts the empty input.
    pub fn of_eps(offset: usize) -> (nfa: Self)
        requires
            offset < usize::MAX,
        ensures
            nfa@ == NfaView::of_lable(Lable::Eps, offset),
            nfa@.seeded(offset),
            nfa@.size() == 2,
            nfa@.tidy(),
    {
        Nfa::of_lable(Lable::Eps, offset)
    }

    /// The fragment that accepts any one character from `c1` to `c2`.
    pub fn of_cdash(c1: char, c2: char, offset: usize) -> (nfa: Self)
        requires
            offset < usize::MAX,
        ensures
            nfa@ == NfaView::of_cdash(c1, c2, offset),
            nfa@.seeded(offset),
            nfa@.size() == 2,
            nfa@.tidy(),
    {
        let start_id = offset;
        let finish_id = offset + 1;
        let mut delta: Vec<((usize, Lable), Vec<usize>)> = Vec::new();
        let last: u32 = c2 as u32;
        let mut code: u32 = c1 as u32;
        while code <= last
            invariant
                c1 as u32 <= code,
                last == c2 as u32,
                start_id == offset,
                finish_id == offset + 1,
                table_of(delta@) =~= Map::new(
                    |key: (usize, Lable)|
                        key.0 == offset && (key.1 matches Lable::Char(c) && c1 <= c && (c as u32)
                            < code && c <= c2),
                    |key: (usize, Lable)| seq![finish_id],
                ),
                tidy_rows(delta@),
            decreases last + 1 - code,
        {
            match char::from_u32(code) {
                Some(c) => {
                    let mut targets: Vec<usize> = Vec::new();
                    targets.push(finish_id);
                    let row = ((start_id, Lable::Char(c)), targets);
                    let ghost before = delta@;
                    proof {
                        lemma_tidy_push(before, row);
                    }
                    delta.push(row);
                    proof {
                        assert(delta@.drop_last() =~= before);
                    }
                },
                None => {},
            }
            code += 1;
        }
        let nfa = Nfa { start_id, finish_id, delta };
        assert(nfa@.delta =~= NfaView::of_cdash(c1, c2, offset).delta);
        proof {
            nfa.lemma_tidy();
            lemma_of_cdash_fills(c1, c2, offset);
            lemma_fills_seeded(NfaView::of_cdash(c1, c2, offset), offset as int, offset + 2);
        }
        nfa
    }

    /// The fragment that accepts any one decimal digit from `n1` to `n2`.
    pub fn of_ndash(n1: usize, n2: usize, offset: usize) -> (nfa: Self)
        requires
            n1 <= 9,
            n2 <= 9,
            offset < usize::MAX,
        ensures
            nfa@ == NfaView::of_cdash(digit_char(n1), digit_char(n2), offset),
            nfa@.seeded(offset),
            nfa@.size() == 2,
            nfa@.tidy(),
    {
        let c1 = utoc(n1);
        let c2 = utoc(n2);

        Nfa::of_cdash(c1, c2, offset)
    }

    /// The fragment that accepts what `nfa1` or `nfa2` accepts.
    pub fn of_or(nfa1: Nfa, nfa2: Nfa, offset: usize) -> (nfa: Self)
        requires
            offset < usize::MAX,
        ensures
            nfa@ == NfaView::of_or(nfa1@, nfa2@, offset),
            nfa@.tidy(),
    {
        let start_id = offset;
        let finish_id = offset + 1;

        let nfa1_sid = nfa1.sid();
        let nfa1_fid = nfa1.fid();
        let mut delta = nfa1.get_delta();

        let nfa2_sid = nfa2.sid();
        let nfa2_fid = nfa2.fid();
        let mut delta2 = nfa2.get_delta();

        proof {
            lemma_table_concat(delta@, delta2@);
            lemma_tidy_concat(delta@, delta2@);
        }
        delta.append(&mut delta2);

        let mut nfa = Nfa { start_id, finish_id, delta };

        nfa.insert_transition(start_id, Lable::Eps, nfa1_sid);
        nfa.insert_transition(start_id, Lable::Eps, nfa2_sid);
        nfa.insert_transition(nfa1_fid, Lable::Eps, finish_id);
        nfa.insert_transition(nfa2_fid, Lable::Eps, finish_id);

        proof {
            use_type_invariant(&nfa);
            nfa.lemma_tidy();
        }
        nfa
    }

    /// The fragment that accepts what `nfa1` accepts, followed by what `nfa2`
    /// accepts. It needs no fresh state, so the offset is not used.
    pub fn of_concat(nfa1: Nfa, nfa2: Nfa, _offset: usize) -> (nfa: Self)
        ensures
            nfa@ == NfaView::of_concat(nfa1@, nfa2@),
            nfa@.tidy(),
    {
        let start_id = nfa1.sid();
        let finish_id = nfa2.fid();

        let nfa1_fid = nfa1.fid();
        let nfa2_sid = nfa2.sid();

        let mut delta = nfa1.get_delta();
        let mut delta2 = nfa2.get_delta();

        proof {
            lemma_table_concat(delta@, delta2@);
            lemma_tidy_concat(delta@, delta2@);
        }
        delta.append(&mut delta2);

        let mut nfa = Nfa { start_id, finish_id, delta };

        nfa.insert_transition(nfa1_fid, Lable::Eps, nfa2_sid);

        proof {
            use_type_invariant(&nfa);
            nfa.lemma_tidy();
        }
        nfa
    }

    /// The fragment that accepts what `nfa` accepts, any number of times.
    pub fn of_star(nfa: Nfa, offset: usize) -> (star: Self)
        requires
            offset < usize::MAX,
        ensures
            star@ == NfaView::of_star(nfa@, offset),
            star@.tidy(),
    {
        let start_id = offset;
        let finish_id = offset + 1;

        let nfa_sid = nfa.sid();
        let nfa_fid = nfa.fid();

        let delta = nfa.get_delta();

        let mut nfa = Nfa { start_id, finish_id, delta };

        nfa.insert_transition(nfa_fid, Lable::Eps, nfa_sid);
        nfa.insert_transition(start_id, Lable::Eps, nfa_sid);
        nfa.insert_transition(start_id, Lable::Eps, finish_id);
        nfa.insert_transition(nfa_fid, Lable::Eps, finish_id);

        proof {
            use_type_invariant(&nfa);
            nfa.lemma_tidy();
        }
        nfa
    }

    /// The fragment that accepts what `nfa` accepts, once or more.
    pub fn of_plus(nfa: Nfa, offset: usize) -> (plus: Self)
        requires
            offset < usize::MAX,
        ensures
            plus@ == NfaView::of_plus(nfa@, offset),
            plus@.tidy(),
    {
        let start_id = offset;
        let finish_id = offset + 1;

        let nfa_sid = nfa.sid();
        let nfa_fid = nfa.fid();

        let delta = nfa.get_delta();

        let mut nfa = Nfa { start_id, finish_id, delta };

        nfa.insert_transition(nfa_fid, Lable::Eps, nfa_sid);
        nfa.insert_transition(start_id, Lable::Eps, nfa_sid);
        nfa.insert_transition(nfa_fid, Lable::Eps, finish_id);

        proof {
            use_type_invariant(&nfa);
            nfa.lemma_tidy();
        }
        nfa
    }

    /// The fragment that accepts what `nfa` accepts, or the empty input.
    pub fn of_question(nfa: Nfa, offset: usize) -> (question: Self)
        requires
            offset < usize::MAX,
        ensures
            question@ == NfaView::of_question(nfa@, offset),
            question@.tidy(),
    {
        let start_id = offset;
        let finish_id = offset + 1;

        let nfa_sid = nfa.sid();
        let nfa_fid = nfa.fid();

        let delta = nfa.get_delta();

        let mut nfa = Nfa { start_id, finish_id, delta };

        nfa.insert_transition(start_id, Lable::Eps, nfa_sid);
        nfa.insert_transition(start_id, Lable::Eps, finish_id);
        nfa.insert_transition(nfa_fid, Lable::Eps, finish_id);

        proof {
            use_type_invariant(&nfa);
            nfa.lemma_tidy();
        }
        nfa
    }

    // The last row for a key, which is the one that counts.
    fn row_of(&self, state_id: usize, lable: Lable) -> (at: Option<usize>)
        ensures
            match at {
                Some(i) => i < self.delta@.len() && self.delta@[i as int].0 == (state_id, lable)
                    && self@.delta.dom().contains((state_id, lable))
                    && self@.delta[(state_id, lable)] == self.delta@[i as int].1@
                    && forall|j: int| i < j < self.delta@.len() ==> self.delta@[j].0 != (state_id, lable),
                None => !self@.delta.dom().contains((state_id, lable)),
            },
    {
        let mut i: usize = self.delta.len();
        while i > 0
            invariant
                i <= self.delta@.len(),
                forall|j: int| i <= j < self.delta@.len() ==> self.delta@[j].0 != (state_id, lable),
            decreases i,
        {
            i -= 1;
            if self.delta[i].0.0 == state_id && self.delta[i].0.1 == lable {
                proof {
                    lemma_table_last(self.delta@, i as int, (state_id, lable));
                }
                return Some(i);
            }
        }
        proof {
            lemma_table_absent(self.delta@, (state_id, lable));
        }
        None
    }

    /// Adds the transition from `src_id` to `dst_id` on `lable`. A transition
    /// that is there already is not added again.
    pub fn insert_transition(&mut self, src_id: usize, lable: Lable, dst_id: usize)
        ensures
            final(self)@ == old(self)@.with_edge(src_id, lable, dst_id),
            final(self)@.tidy(),
    {
        proof {
            use_type_invariant(&*self);
        }
        let at = self.row_of(src_id, lable);
        let ghost before = self.delta@;
        let mut rows: Vec<((usize, Lable), Vec<usize>)> = Vec::new();
        core::mem::swap(&mut self.delta, &mut rows);
        match at {
            Some(i) => {
                if !holds(&rows[i].1, dst_id) {
                    rows[i].1.push(dst_id);
                    proof {
                        let row = rows@[i as int];
                        assert(rows@ =~= before.update(i as int, row));
                        lemma_table_update(before, i as int, row);
                        assert(row.1@ == before[i as int].1@.push(dst_id));
                        assert(row.1@.no_duplicates());
                        assert forall|j: int| 0 <= j < rows@.len() implies (#[trigger] rows@[j]).1@.len()
                            > 0 && rows@[j].1@.no_duplicates() by {
                            if j != i {
                                assert(rows@[j] == before[j]);
                            }
                        }
                    }
                }
            },
            None => {
                let mut targets: Vec<usize> = Vec::new();
                targets.push(dst_id);
                let row = ((src_id, lable), targets);
                proof {
                    lemma_tidy_push(before, row);
                }
                rows.push(row);
                proof {
                    assert(rows@.drop_last() =~= before);
                    assert(old(self)@.targets(src_id, lable).push(dst_id) =~= seq![dst_id]);
                }
            },
        }
        core::mem::swap(&mut self.delta, &mut rows);
        proof {
            self.lemma_tidy();
        }
    }

    /// The start state.
    pub fn start(&self) -> (id: usize)
        ensures
            id == self@.start,
    {
        self.start_id
    }

    /// The accept state.
    pub fn accept(&self) -> (id: usize)
        ensures
            id == self@.accept,
    {
        self.finish_id
    }

    /// The start state, by its short name.
    pub fn sid(&self) -> (id: usize)
        ensures
            id == self@.start,
    {
        self.start_id
    }

    /// The accept state, by its short name.
    pub fn fid(&self) -> (id: usize)
        ensures
            id == self@.accept,
    {
        self.finish_id
    }

    /// The transition table as a list of rows, taken out of the fragment.
    pub fn get_delta(self) -> (rows: Vec<((usize, Lable), Vec<usize>)>)
        ensures
            table_of(rows@) == self@.delta,
            tidy_rows(rows@),
    {
        proof {
            use_type_invariant(&self);
        }
        self.delta
    }

    /// All the states reached from a state on a lable, in the order in which
    /// their transitions were added; `None` where there is no transition.
    pub fn delta(&self, key: (usize, Lable)) -> (targets: Option<&Vec<usize>>)
        ensures
            match targets {
                Some(ids) => self@.delta.dom().contains(key) && ids@ == self@.delta[key]
                    && ids@.len() > 0 && ids@.no_duplicates(),
                None => !self@.delta.dom().contains(key),
            },
    {
        proof {
            use_type_invariant(self);
        }
        match self.row_of(key.0, key.1) {
            Some(i) => Some(&self.delta[i].1),
            None => None,
        }
    }
}

} // verus!
