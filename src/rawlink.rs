//! A nullable, non-owning link to a slot of a node pool.
use vstd::prelude::*;

verus! {

/// A weak link: either null or the slot index of a node.
///
/// Copying a link never affects the lifetime of what it refers to.
#[derive(Clone, Copy, Debug, PartialEq, Eq, Structural)]
pub struct Rawlink {
    p: Option<usize>,
}

impl View for Rawlink {
    type V = Option<usize>;

    closed spec fn view(&self) -> Option<usize> {
        self.p
    }
}

impl Rawlink {
    /// The null link.
    pub fn none() -> (r: Rawlink)
        ensures
            r@ == None::<usize>,
    {
        Rawlink { p: None }
    }

    /// A link to slot `n`.
    pub fn some(n: usize) -> (r: Rawlink)
        ensures
            r@ == Some(n),
    {
        Rawlink { p: Some(n) }
    }

    /// The slot this link refers to, `None` iff the link is null.
    pub fn resolve(&self) -> (r: Option<usize>)
        ensures
            r == self@,
    {
        self.p
    }

    pub fn is_none(&self) -> (r: bool)
        ensures
            r == (self@ is None),
    {
        self.p.is_none()
    }

    pub fn is_some(&self) -> (r: bool)
        ensures
            r == (self@ is Some),
    {
        self.p.is_some()
    }

    /// Returns the link and leaves the null link in its place.
    pub fn take(&mut self) -> (r: Rawlink)
        ensures
            r == *old(self),
            final(self)@ == None::<usize>,
    {
        let r = *self;
        self.p = None;
        r
    }
}

impl Default for Rawlink {
    fn default() -> (r: Rawlink)
        ensures
            r@ == None::<usize>,
    {
        Rawlink::none()
    }
}

} // verus!
