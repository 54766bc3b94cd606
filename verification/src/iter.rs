use vstd::prelude::*;

use crate::tree::NodeModel;
use crate::tree::Tree;

verus! {

/// A cursor over the arena in index order: each call to [`TreeIter::next`]
/// yields the next `(index, payload reference)` pair, from index zero up to
/// the length of the tree, in creation order and independent of the
/// parent/child structure.
pub struct TreeIter<'a, T> {
    tree: &'a Tree<T>,
    pos: usize,
}

impl<T> Tree<T> {
    /// A fresh cursor over the arena, starting at index zero.
    pub fn iter(&self) -> (it: TreeIter<'_, T>)
        ensures
            it.tree() == *self,
            it.pos() == 0,
    {
        TreeIter { tree: self, pos: 0 }
    }
}

impl<'a, T> TreeIter<'a, T> {
    /// The tree being iterated over.
    pub closed spec fn tree(&self) -> Tree<T> {
        *self.tree
    }

    /// The index the cursor will yield next.
    pub closed spec fn pos(&self) -> usize {
        self.pos
    }

    /// The next `(index, payload reference)` pair in increasing index order,
    /// or `None` once every index has been yielded.
    pub fn next(&mut self) -> (r: Option<(usize, &'a T)>)
        ensures
            final(self).tree() == old(self).tree(),
            old(self).pos() < old(self).tree()@.len() ==> r.is_some()
                && r.unwrap().0 == old(self).pos()
                && *r.unwrap().1 == old(self).tree()@[old(self).pos() as int].data
                && final(self).pos() == old(self).pos() + 1,
            old(self).pos() >= old(self).tree()@.len() ==> r.is_none()
                && final(self).pos() == old(self).pos(),
    {
        if self.pos < self.tree.len() {
            let index = self.pos;
            self.pos = index + 1;
            Some((index, self.tree.get_unchecked(index)))
        } else {
            None
        }
    }
}

/// A cursor over the arena in index order that hands out mutable access to
/// the payloads: each call to [`TreeIterMut::next`] yields the next
/// `(index, mutable payload reference)` pair, from index zero up to the
/// length of the tree, in creation order.
pub struct TreeIterMut<'a, T> {
    /// The borrow of the tree that the cursor walks over.
    pub tree: &'a mut Tree<T>,
    /// The index the cursor will yield next.
    pub pos: usize,
}

impl<T> Tree<T> {
    /// A fresh mutable cursor over the arena, starting at index zero.  Once
    /// the cursor is done with, the tree holds whatever was written through
    /// the references it handed out.
    pub fn iter_mut(&mut self) -> (it: TreeIterMut<'_, T>)
        ensures
            it.pos() == 0,
            it.tree() == *old(self),
            *final(self) == mut_ref_future(it.tree),
    {
        TreeIterMut { tree: self, pos: 0 }
    }
}

impl<'a, T> TreeIterMut<'a, T> {
    /// The tree being iterated over, as it currently stands.
    pub open spec fn tree(&self) -> Tree<T> {
        mut_ref_current(self.tree)
    }

    /// The index the cursor will yield next.
    pub open spec fn pos(&self) -> usize {
        self.pos
    }

    /// The next `(index, mutable payload reference)` pair in increasing
    /// index order, or `None` once every index has been yielded.  A value
    /// written through the returned reference replaces that slot's payload;
    /// nothing else in the tree changes.
    pub fn next(&mut self) -> (r: Option<(usize, &mut T)>)
        ensures
            old(self).pos() >= old(self).tree()@.len() ==> r.is_none()
                && final(self).pos() == old(self).pos()
                && final(self).tree() == old(self).tree()
                && mut_ref_future(final(self).tree) == mut_ref_future(old(self).tree),
            old(self).pos() < old(self).tree()@.len() ==> r.is_some()
                && r.unwrap().0 == old(self).pos()
                && *r.unwrap().1 == old(self).tree()@[old(self).pos() as int].data
                && final(self).pos() == old(self).pos() + 1
                && final(self).tree()@ == old(self).tree()@.update(
                old(self).pos() as int,
                (NodeModel {
                    data: *final(r.unwrap().1),
                    ..old(self).tree()@[old(self).pos() as int]
                }),
            )
                && mut_ref_future(final(self).tree) == mut_ref_future(old(self).tree),
    {
        if self.pos < self.tree.len() {
            let index = self.pos;
            self.pos = index + 1;
            let d = self.tree.get_unchecked_mut(index);
            Some((index, d))
        } else {
            None
        }
    }
}

} // verus!
