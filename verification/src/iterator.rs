//! The forward iterator: a lazy, single-pass walk of lane 0, yielding
//! the stored values in ascending order.

use vstd::prelude::*;
use crate::structures::SkipList;

verus! {

/// Iterates lane 0 of a borrowed skip list from head to tail. Not
/// restartable once consumed; a fresh iterator starts from the full
/// sequence again. It never touches a lane above 0.
pub struct SkipListIterator<'a> {
    list: &'a SkipList,
    current_node: Option<usize>,
    pos: Ghost<int>,
}

impl<'a> SkipListIterator<'a> {
    /// The iterator is positioned on its list's lane 0: `pos` values have
    /// been yielded, and the cursor stands on the next node, or nowhere
    /// once the lane is exhausted.
    pub closed spec fn wf(&self) -> bool {
        &&& self.list.wf()
        &&& 0 <= self.pos@ <= self.list@.len()
        &&& (self.pos@ < self.list@.len() ==> self.current_node == Some(
            self.list.lane0()[self.pos@],
        ))
        &&& (self.pos@ == self.list@.len() ==> self.current_node is None)
    }

    /// A fresh iterator over the whole of `skip_list`, starting at the
    /// head of lane 0. Safe on an empty structure: it will yield nothing.
    pub fn new(skip_list: &'a SkipList) -> (it: Self)
        requires
            skip_list.wf(),
        ensures
            it.wf(),
            it@ == skip_list@,
    {
        let current_node: Option<usize> = if skip_list.lanes.len() > 0 {
            Some(skip_list.lanes[0])
        } else {
            None
        };
        let it = SkipListIterator { list: skip_list, current_node, pos: Ghost(0) };
        proof {
            if skip_list.lanes@.len() > 0 {
                assert(skip_list.lane_ok(0));
            }
            assert(it@ =~= skip_list@);
        }
        it
    }

    /// Yields the next value in ascending order, or `None` once the lane
    /// is exhausted: exactly the first of the remaining values, which
    /// shrink by that one element.
    pub fn next(&mut self) -> (r: Option<u64>)
        requires
            old(self).wf(),
        ensures
            final(self).wf(),
            old(self)@.len() > 0 ==> r == Some(old(self)@[0]) && final(self)@ == old(
                self,
            )@.drop_first(),
            old(self)@.len() == 0 ==> r is None && final(self)@ == old(self)@,
    {
        match self.current_node {
            None => None,
            Some(h) => {
                proof {
                    assert(self.list.lane_ok(0));
                    assert(self.list.lane0()[self.pos@] < self.list.nodes@.len());
                }
                let node = &self.list.nodes[h];
                let v = node.value;
                self.current_node = if node.next.len() > 0 {
                    node.next[0]
                } else {
                    None
                };
                proof {
                    self.pos@ = self.pos@ + 1;
                    assert(self@ =~= old(self)@.drop_first());
                }
                Some(v)
            },
        }
    }
}

impl<'a> View for SkipListIterator<'a> {
    type V = Seq<u64>;

    /// The values not yet yielded, in the order they will come out.
    closed spec fn view(&self) -> Seq<u64> {
        self.list@.skip(self.pos@)
    }
}

impl SkipList {
    /// A fresh iterator over the whole structure, yielding the stored
    /// values in ascending order (duplicates in insertion order). Two
    /// fresh iterators over an unmodified list start from the same
    /// remaining sequence, so they yield identical values.
    pub fn iter(&self) -> (it: SkipListIterator<'_>)
        requires
            self.wf(),
        ensures
            it.wf(),
            it@ == self@,
    {
        SkipListIterator::new(self)
    }
}

} // verus!
