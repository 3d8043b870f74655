//! The storage that elements live in while lists link them.
use vstd::prelude::*;

use crate::node::NodeImpl;
use crate::rawlink::Rawlink;

verus! {

/// Storage for elements, addressed by slot.
///
/// A slot never moves while it is occupied, so a weak link to it stays
/// valid until the element is removed. Lists only link elements; the pool
/// owns them.
pub struct Pool<T> {
    slots: Vec<Option<NodeImpl<T>>>,
    free: Vec<usize>,
}

impl<T> View for Pool<T> {
    type V = Map<usize, NodeImpl<T>>;

    /// The occupied slots and their elements.
    closed spec fn view(&self) -> Map<usize, NodeImpl<T>> {
        Map::new(
            |i: usize| (i as int) < self.slots@.len() && self.slots@[i as int] is Some,
            |i: usize| self.slots@[i as int]->Some_0,
        )
    }
}

impl<T> Pool<T> {
    /// An empty pool.
    pub fn new() -> (r: Pool<T>)
        ensures
            r@ == Map::<usize, NodeImpl<T>>::empty(),
    {
        let r = Pool { slots: Vec::new(), free: Vec::new() };
        assert(r@ =~= Map::<usize, NodeImpl<T>>::empty());
        r
    }

    /// Stores `elt` in a free slot and returns the slot.
    pub fn insert(&mut self, elt: NodeImpl<T>) -> (i: usize)
        ensures
            !old(self)@.contains_key(i),
            final(self)@ == old(self)@.insert(i, elt),
    {
        // A freed slot is reused when it is still free; otherwise the pool grows.
        if let Some(i) = self.free.pop() {
            if i < self.slots.len() && self.slots[i].is_none() {
                self.slots.set(i, Some(elt));
                assert(self@ =~= old(self)@.insert(i, elt));
                return i;
            }
        }
        let i = self.slots.len();
        self.slots.push(Some(elt));
        assert(self@ =~= old(self)@.insert(i, elt));
        i
    }

    /// Takes the element out of slot `i`; it must be in no list.
    pub fn remove(&mut self, i: usize) -> (r: NodeImpl<T>)
        requires
            old(self)@.contains_key(i),
            old(self)@[i].link.unlinked(),
        ensures
            r == old(self)@[i],
            final(self)@ == old(self)@.remove(i),
    {
        let mut taken: Option<NodeImpl<T>> = None;
        self.slots.set_and_swap(i, &mut taken);
        self.free.push(i);
        assert(self@ =~= old(self)@.remove(i));
        taken.unwrap()
    }

    /// Whether slot `i` holds an element.
    pub fn contains(&self, i: usize) -> (r: bool)
        ensures
            r == self@.contains_key(i),
    {
        i < self.slots.len() && self.slots[i].is_some()
    }

    /// The element in slot `i`.
    pub fn get(&self, i: usize) -> (r: &NodeImpl<T>)
        requires
            self@.contains_key(i),
        ensures
            *r == self@[i],
    {
        self.slots[i].as_ref().unwrap()
    }

    /// The value of the element in slot `i`.
    pub fn val(&self, i: usize) -> (r: &T)
        requires
            self@.contains_key(i),
        ensures
            *r == self@[i].val,
    {
        &self.get(i).val
    }

    /// The value of the element in slot `i`, to change in place.
    pub fn val_mut(&mut self, i: usize) -> (r: &mut T)
        requires
            old(self)@.contains_key(i),
        ensures
            *r == old(self)@[i].val,
            final(self)@ == old(self)@.insert(i, NodeImpl { link: old(self)@[i].link, val: *final(r) }),
    {
        match &mut self.slots[i] {
            Some(n) => &mut n.val,
            None => unreached(),
        }
    }
    /// Points the next link of the element in slot `i` at `l`.
    pub(crate) fn set_next(&mut self, i: usize, l: Rawlink)
        requires
            old(self)@.contains_key(i),
        ensures
            final(self)@ == old(self)@.insert(i, final(self)@[i]),
            final(self)@[i].val == old(self)@[i].val,
            final(self)@[i].link.next_view() == l@,
            final(self)@[i].link.prev_view() == old(self)@[i].link.prev_view(),
    {
        match &mut self.slots[i] {
            Some(n) => n.link.set_next(l),
            None => unreached(),
        }
        assert(self@ =~= old(self)@.insert(i, self@[i]));
    }

    /// Points the previous link of the element in slot `i` at `l`.
    pub(crate) fn set_prev(&mut self, i: usize, l: Rawlink)
        requires
            old(self)@.contains_key(i),
        ensures
            final(self)@ == old(self)@.insert(i, final(self)@[i]),
            final(self)@[i].val == old(self)@[i].val,
            final(self)@[i].link.prev_view() == l@,
            final(self)@[i].link.next_view() == old(self)@[i].link.next_view(),
    {
        match &mut self.slots[i] {
            Some(n) => n.link.set_prev(l),
            None => unreached(),
        }
        assert(self@ =~= old(self)@.insert(i, self@[i]));
    }

    /// Nulls both links of the element in slot `i`.
    pub(crate) fn clear_links(&mut self, i: usize)
        requires
            old(self)@.contains_key(i),
        ensures
            final(self)@ == old(self)@.insert(i, final(self)@[i]),
            final(self)@[i].val == old(self)@[i].val,
            final(self)@[i].link.unlinked(),
    {
        match &mut self.slots[i] {
            Some(n) => {
                n.link.take();
            },
            None => unreached(),
        }
        assert(self@ =~= old(self)@.insert(i, self@[i]));
    }
}

impl<T> Default for Pool<T> {
    /// An empty pool.
    fn default() -> (r: Pool<T>)
        ensures
            r@ == Map::<usize, NodeImpl<T>>::empty(),
    {
        Pool::new()
    }
}

} // verus!
