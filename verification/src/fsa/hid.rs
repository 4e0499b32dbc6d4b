//! Hierarchical id allocator: a stack of "current id" scopes.

use vstd::prelude::*;

verus! {

/// The levels after the active one was left; the root level stays.
pub open spec fn left(levels: Seq<usize>) -> Seq<usize> {
    if levels.len() > 1 {
        levels.drop_last()
    } else {
        levels
    }
}

/// Leaving a level that was opened gives back the levels before it: two
/// levels opened and one left are as one level opened.
pub proof fn lemma_append_then_consume(levels: Seq<usize>, id: usize)
    requires
        levels.len() >= 1,
    ensures
        left(levels.push(id)) == levels,
{
    assert(levels.push(id).drop_last() =~= levels);
}

/// At the root, leaving changes nothing, however often it is done.
pub proof fn lemma_consume_at_root(root: usize)
    ensures
        left(seq![root]) == seq![root],
        left(left(seq![root])) == seq![root],
{
}

/// A stack of ids, one per level of nesting. The deepest level is the active
/// one; the root level can never be left.
pub struct Hid {
    ids: Vec<usize>,
    // Current Id PoinTeR: index of the active level in `ids`
    cid_ptr: usize,
}

impl View for Hid {
    type V = Seq<usize>;

    /// The ids of the levels, from the root to the active one.
    closed spec fn view(&self) -> Seq<usize> {
        self.ids@.take(self.cid_ptr + 1)
    }
}

impl Hid {
    /// The pointer to the active level indexes `ids`.
    pub closed spec fn wf(&self) -> bool {
        self.cid_ptr < self.ids@.len()
    }

    /// A well-formed hierarchy has at least its root level.
    pub proof fn lemma_never_empty(&self)
        requires
            self.wf(),
        ensures
            self@.len() >= 1,
    {
    }

    /// A hierarchy of one level, whose id is `id`.
    pub fn init(id: usize) -> (hid: Self)
        ensures
            hid.wf(),
            hid@ == seq![id],
    {
        let mut ids: Vec<usize> = Vec::new();
        ids.push(id);
        let hid = Hid { ids, cid_ptr: 0 };
        assert(hid@ =~= seq![id]);
        hid
    }

    /// Leaves the active level for its parent. At the root nothing happens.
    pub fn consume(&mut self)
        requires
            old(self).wf(),
        ensures
            final(self).wf(),
            final(self)@ == left(old(self)@),
    {
        if self.cid_ptr > 0 {
            self.cid_ptr -= 1;
            assert(self@ =~= old(self)@.drop_last());
        }
    }

    /// Opens a level below the active one, with id `id`, and makes it active.
    pub fn append(&mut self, id: usize)
        requires
            old(self).wf(),
        ensures
            final(self).wf(),
            final(self)@ == old(self)@.push(id),
    {
        // Levels that were left are dropped for good before the new one is added.
        assert(self.cid_ptr < self.ids.len());
        self.ids.truncate(self.cid_ptr + 1);
        self.ids.push(id);
        assert(self.ids.len() == self.cid_ptr + 2);
        self.cid_ptr += 1;
        assert(self@ =~= old(self)@.push(id));
    }

    /// The id of the active level.
    pub fn cid(&self) -> (id: usize)
        requires
            self.wf(),
        ensures
            self@.len() >= 1,
            id == self@.last(),
    {
        self.ids[self.cid_ptr]
    }
}

} // verus!
