//! The link container embedded in every element, and the element type.
use vstd::prelude::*;

use crate::rawlink::Rawlink;

verus! {

/// The pair of weak links that connects an element to its neighbours.
///
/// Both links are null while the element is in no list, and both are set
/// while it is in one. Only the list engine changes them.
#[derive(Debug)]
pub struct Links {
    next: Rawlink,
    prev: Rawlink,
}

impl Links {
    /// The slot of the next element, if linked.
    pub closed spec fn next_view(&self) -> Option<usize> {
        self.next@
    }

    /// The slot of the previous element, if linked.
    pub closed spec fn prev_view(&self) -> Option<usize> {
        self.prev@
    }

    /// Both links are null: the element is in no list.
    pub open spec fn unlinked(&self) -> bool {
        &&& self.next_view() is None
        &&& self.prev_view() is None
    }

    /// A link container that is in no list.
    pub fn new() -> (r: Links)
        ensures
            r.unlinked(),
    {
        Links { next: Rawlink::none(), prev: Rawlink::none() }
    }

    pub fn get_next(&self) -> (r: Rawlink)
        ensures
            r@ == self.next_view(),
    {
        self.next
    }

    pub fn get_prev(&self) -> (r: Rawlink)
        ensures
            r@ == self.prev_view(),
    {
        self.prev
    }

    /// Both links, next first.
    pub fn get_links_pair(&self) -> (r: (Rawlink, Rawlink))
        ensures
            r.0@ == self.next_view(),
            r.1@ == self.prev_view(),
    {
        (self.next, self.prev)
    }

    /// Whether the container is in no list; an element must pass this test
    /// before it is linked or dropped.
    pub fn is_unlinked(&self) -> (r: bool)
        ensures
            r == self.unlinked(),
    {
        self.next.is_none() && self.prev.is_none()
    }

    pub(crate) fn set_next(&mut self, l: Rawlink)
        ensures
            final(self).next_view() == l@,
            final(self).prev_view() == old(self).prev_view(),
    {
        self.next = l;
    }

    pub(crate) fn set_prev(&mut self, l: Rawlink)
        ensures
            final(self).prev_view() == l@,
            final(self).next_view() == old(self).next_view(),
    {
        self.prev = l;
    }

    /// Nulls both links and returns what they were.
    pub(crate) fn take(&mut self) -> (r: (Rawlink, Rawlink))
        ensures
            r.0@ == old(self).next_view(),
            r.1@ == old(self).prev_view(),
            final(self).unlinked(),
    {
        let n = self.next.take();
        let p = self.prev.take();
        (n, p)
    }
}

impl Default for Links {
    fn default() -> (r: Links)
        ensures
            r.unlinked(),
    {
        Links::new()
    }
}

/// An element: a value with its embedded link container.
#[derive(Debug)]
pub struct NodeImpl<T> {
    pub link: Links,
    pub val: T,
}

impl<T> NodeImpl<T> {
    /// A new element, in no list.
    pub fn new(val: T) -> (r: NodeImpl<T>)
        ensures
            r.val == val,
            r.link.unlinked(),
    {
        NodeImpl { link: Links::new(), val }
    }

    pub fn get_val(&self) -> (r: &T)
        ensures
            *r == self.val,
    {
        &self.val
    }

    pub fn get_val_mut(&mut self) -> (r: &mut T)
        ensures
            *r == old(self).val,
            final(self).val == *final(r),
            final(self).link == old(self).link,
    {
        &mut self.val
    }

    pub fn get_links(&self) -> (r: &Links)
        ensures
            *r == self.link,
    {
        &self.link
    }

    /// The value, once the element is in no list.
    pub fn into_val(self) -> (r: T)
        requires
            self.link.unlinked(),
        ensures
            r == self.val,
    {
        self.val
    }
}

} // verus!
