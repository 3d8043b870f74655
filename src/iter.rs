//! Iterators over a list: shared, mutable (with insertion), and consuming.
use vstd::prelude::*;

use crate::linked_list::{values_of, LinkedList};
use crate::node::NodeImpl;
use crate::pool::Pool;
use crate::rawlink::Rawlink;
use crate::ring::{is_ring, lemma_ring_frame, next_of, pred, prev_of, relinked_within, same_links, succ};

verus! {

/// A double-ended iterator over the values of a list.
///
/// It holds the links of the next element from each end and the number of
/// elements still to yield; each step follows one link.
pub struct Iter<'a, T> {
    pool: &'a Pool<T>,
    head: Rawlink,
    tail: Rawlink,
    nelem: usize,
    rest: Ghost<Seq<usize>>,
}

impl<'a, T> Clone for Iter<'a, T> {
    /// A copy of the iterator, at the same place; both go on independently.
    fn clone(&self) -> (r: Self)
        ensures
            r == *self,
    {
        Iter { pool: self.pool, head: self.head, tail: self.tail, nelem: self.nelem, rest: self.rest }
    }
}

/// Another name for [`Iter`].
pub type Items<'a, T> = Iter<'a, T>;

/// Another name for [`IterMut`].
pub type MutItems<'a, T> = IterMut<'a, T>;

/// Another name for [`IntoIter`].
pub type MoveItems<'a, T> = IntoIter<'a, T>;

impl<'a, T> Iter<'a, T> {
    /// The slots still to yield, front to back.
    pub closed spec fn rest(&self) -> Seq<usize> {
        self.rest@
    }

    /// The pool the elements live in.
    pub closed spec fn pool_view(&self) -> Map<usize, NodeImpl<T>> {
        self.pool@
    }

    /// The values still to yield, front to back.
    pub open spec fn rest_values(&self) -> Seq<T> {
        values_of(self.pool_view(), self.rest())
    }

    pub closed spec fn wf(&self) -> bool {
        let s = self.rest@;
        let p = self.pool@;
        &&& self.nelem == s.len()
        &&& s.len() > 0 ==> self.head@ == Some(s[0]) && self.tail@ == Some(s.last())
        &&& forall|k: int| 0 <= k < s.len() ==> p.contains_key(#[trigger] s[k])
        &&& forall|k: int|
            #![trigger p[s[k]]]
            0 <= k < s.len() - 1 ==> next_of(p, s[k]) == Some(s[k + 1]) && prev_of(p, s[k + 1]) == Some(
                s[k],
            )
    }

    /// The next value from the front, or `None` once all were yielded.
    pub fn next(&mut self) -> (r: Option<&'a T>)
        requires
            old(self).wf(),
        ensures
            final(self).wf(),
            final(self).pool_view() == old(self).pool_view(),
            old(self).rest().len() == 0 ==> r is None && final(self).rest() == old(self).rest(),
            old(self).rest().len() > 0 ==> {
                &&& r is Some
                &&& *r->Some_0 == old(self).rest_values()[0]
                &&& final(self).rest() == old(self).rest().drop_first()
                &&& final(self).rest_values() == old(self).rest_values().drop_first()
            },
    {
        if self.nelem == 0 {
            return None;
        }
        let h = match self.head.resolve() {
            Some(h) => h,
            None => unreached(),
        };
        let ghost s = self.rest@;
        proof {
            assert(self.pool@.contains_key(s[0]));
        }
        let node = self.pool.get(h);
        self.nelem = self.nelem - 1;
        self.head = node.link.get_next();
        proof {
            self.rest@ = s.drop_first();
            if s.len() > 1 {
                assert(next_of(self.pool@, s[0]) == Some(s[1]));
            }
            assert forall|k: int| 0 <= k < self.rest@.len() - 1 implies next_of(self.pool@, #[trigger] self.rest@[k]) == Some(self.rest@[k + 1]) && prev_of(self.pool@, self.rest@[k + 1]) == Some(self.rest@[k]) by {
                assert(self.rest@[k] == s[k + 1]);
                assert(next_of(self.pool@, s[k + 1]) == Some(s[k + 2]));
            }
        }
        proof {
            assert(values_of(self.pool@, s.drop_first()) =~= values_of(self.pool@, s).drop_first());
        }
        Some(&node.val)
    }

    /// The next value from the back, or `None` once all were yielded.
    pub fn next_back(&mut self) -> (r: Option<&'a T>)
        requires
            old(self).wf(),
        ensures
            final(self).wf(),
            final(self).pool_view() == old(self).pool_view(),
            old(self).rest().len() == 0 ==> r is None && final(self).rest() == old(self).rest(),
            old(self).rest().len() > 0 ==> {
                &&& r is Some
                &&& *r->Some_0 == old(self).rest_values().last()
                &&& final(self).rest() == old(self).rest().drop_last()
                &&& final(self).rest_values() == old(self).rest_values().drop_last()
            },
    {
        if self.nelem == 0 {
            return None;
        }
        let t = match self.tail.resolve() {
            Some(t) => t,
            None => unreached(),
        };
        let ghost s = self.rest@;
        let ghost n = s.len() as int;
        proof {
            assert(self.pool@.contains_key(s[n - 1]));
            if n > 1 {
                assert(next_of(self.pool@, s[n - 2]) == Some(s[n - 1]));
            }
        }
        let node = self.pool.get(t);
        self.nelem = self.nelem - 1;
        self.tail = node.link.get_prev();
        proof {
            self.rest@ = s.drop_last();
            assert forall|k: int| 0 <= k < self.rest@.len() - 1 implies next_of(self.pool@, #[trigger] self.rest@[k]) == Some(self.rest@[k + 1]) && prev_of(self.pool@, self.rest@[k + 1]) == Some(self.rest@[k]) by {
                assert(self.rest@[k] == s[k]);
                assert(next_of(self.pool@, s[k]) == Some(s[k + 1]));
            }
        }
        proof {
            assert(values_of(self.pool@, s.drop_last()) =~= values_of(self.pool@, s).drop_last());
        }
        Some(&node.val)
    }

    /// The number of values still to yield, as lower and upper bound.
    pub fn size_hint(&self) -> (r: (usize, Option<usize>))
        requires
            self.wf(),
        ensures
            r == (self.rest().len() as usize, Some(self.rest().len() as usize)),
    {
        (self.nelem, Some(self.nelem))
    }
}

/// A double-ended iterator over the values of a list that yields them for
/// change in place, and can link new elements in as it goes.
pub struct IterMut<'a, T> {
    list: &'a mut LinkedList,
    pool: &'a mut Pool<T>,
    head: Rawlink,
    tail: Rawlink,
    nelem: usize,
    start: Ghost<int>,
}

impl<'a, T> IterMut<'a, T> {
    /// The slots of the list, front to back.
    pub closed spec fn list_view(&self) -> Seq<usize> {
        (*self.list)@
    }

    /// The pool the elements live in.
    pub closed spec fn pool_view(&self) -> Map<usize, NodeImpl<T>> {
        (*self.pool)@
    }

    /// The position in the list of the next element from the front.
    pub closed spec fn start(&self) -> int {
        self.start@
    }

    /// The number of elements still to yield.
    pub closed spec fn remaining(&self) -> int {
        self.nelem as int
    }

    /// The slots still to yield, front to back.
    pub open spec fn rest(&self) -> Seq<usize> {
        self.list_view().subrange(self.start(), self.start() + self.remaining())
    }

    pub closed spec fn wf(&self) -> bool {
        let s = (*self.list)@;
        &&& (*self.list).wf((*self.pool)@)
        &&& 0 <= self.start@
        &&& self.start@ + self.nelem <= s.len()
        &&& self.nelem > 0 ==> {
            &&& self.head@ == Some(s[self.start@])
            &&& self.tail@ == Some(s[self.start@ + self.nelem - 1])
        }
    }

    /// The next value from the front, to change in place, or `None` once
    /// all were yielded.
    pub fn next(&mut self) -> (r: Option<&mut T>)
        requires
            old(self).wf(),
        ensures
            final(self).wf(),
            final(self).list_view() == old(self).list_view(),
            old(self).remaining() == 0 ==> {
                &&& r is None
                &&& final(self).pool_view() == old(self).pool_view()
                &&& final(self).start() == old(self).start()
                &&& final(self).remaining() == 0
            },
            old(self).remaining() > 0 ==> {
                let i = old(self).list_view()[old(self).start()];
                &&& r is Some
                &&& *r->Some_0 == old(self).pool_view()[i].val
                &&& final(self).pool_view() == old(self).pool_view().insert(
                    i,
                    NodeImpl { link: old(self).pool_view()[i].link, val: *final(r->Some_0) },
                )
                &&& final(self).start() == old(self).start() + 1
                &&& final(self).remaining() == old(self).remaining() - 1
            },
    {
        if self.nelem == 0 {
            return None;
        }
        let h = match self.head.resolve() {
            Some(h) => h,
            None => unreached(),
        };
        let ghost s = (*self.list)@;
        let ghost k = self.start@;
        proof {
            assert(self.pool@.contains_key(s[k]));
            if self.nelem > 1 {
                assert(succ(k, s.len() as int) == k + 1);
                assert(next_of(self.pool@, s[k]) == Some(s[k + 1]));
            }
        }
        self.nelem = self.nelem - 1;
        self.head = self.pool.get(h).link.get_next();
        proof {
            self.start@ = k + 1;
        }
        let ghost before = (*self.pool)@;
        let r = self.pool.val_mut(h);
        proof {
            let fin = before.insert(h, NodeImpl { link: before[h].link, val: *final(r) });
            assert forall|j: int| 0 <= j < s.len() implies fin.contains_key(#[trigger] s[j]) && same_links(before, fin, s[j]) by {}
            lemma_ring_frame(before, fin, s);
        }
        Some(r)
    }
    /// The next value from the back, to change in place, or `None` once all
    /// were yielded.
    pub fn next_back(&mut self) -> (r: Option<&mut T>)
        requires
            old(self).wf(),
        ensures
            final(self).wf(),
            final(self).list_view() == old(self).list_view(),
            final(self).start() == old(self).start(),
            old(self).remaining() == 0 ==> {
                &&& r is None
                &&& final(self).pool_view() == old(self).pool_view()
                &&& final(self).remaining() == 0
            },
            old(self).remaining() > 0 ==> {
                let i = old(self).list_view()[old(self).start() + old(self).remaining() - 1];
                &&& r is Some
                &&& *r->Some_0 == old(self).pool_view()[i].val
                &&& final(self).pool_view() == old(self).pool_view().insert(
                    i,
                    NodeImpl { link: old(self).pool_view()[i].link, val: *final(r->Some_0) },
                )
                &&& final(self).remaining() == old(self).remaining() - 1
            },
    {
        if self.nelem == 0 {
            return None;
        }
        let t = match self.tail.resolve() {
            Some(t) => t,
            None => unreached(),
        };
        let ghost s = (*self.list)@;
        let ghost k = self.start@ + self.nelem - 1;
        proof {
            assert(self.pool@.contains_key(s[k]));
            if self.nelem > 1 {
                assert(pred(k, s.len() as int) == k - 1);
                assert(prev_of(self.pool@, s[k]) == Some(s[k - 1]));
            }
        }
        self.nelem = self.nelem - 1;
        self.tail = self.pool.get(t).link.get_prev();
        let ghost before = (*self.pool)@;
        let r = self.pool.val_mut(t);
        proof {
            let fin = before.insert(t, NodeImpl { link: before[t].link, val: *final(r) });
            assert forall|j: int| 0 <= j < s.len() implies fin.contains_key(#[trigger] s[j]) && same_links(before, fin, s[j]) by {}
            lemma_ring_frame(before, fin, s);
        }
        Some(r)
    }

    /// The value that `next` would yield, to change in place, without
    /// moving on; `None` once all were yielded.
    pub fn peek_next(&mut self) -> (r: Option<&mut T>)
        requires
            old(self).wf(),
        ensures
            final(self).wf(),
            final(self).list_view() == old(self).list_view(),
            final(self).start() == old(self).start(),
            final(self).remaining() == old(self).remaining(),
            old(self).remaining() == 0 ==> r is None && final(self).pool_view() == old(self).pool_view(),
            old(self).remaining() > 0 ==> {
                let i = old(self).list_view()[old(self).start()];
                &&& r is Some
                &&& *r->Some_0 == old(self).pool_view()[i].val
                &&& final(self).pool_view() == old(self).pool_view().insert(
                    i,
                    NodeImpl { link: old(self).pool_view()[i].link, val: *final(r->Some_0) },
                )
            },
    {
        if self.nelem == 0 {
            return None;
        }
        let h = match self.head.resolve() {
            Some(h) => h,
            None => unreached(),
        };
        let ghost s = (*self.list)@;
        proof {
            assert(self.pool@.contains_key(s[self.start@]));
        }
        let ghost before = (*self.pool)@;
        let r = self.pool.val_mut(h);
        proof {
            let fin = before.insert(h, NodeImpl { link: before[h].link, val: *final(r) });
            assert forall|j: int| 0 <= j < s.len() implies fin.contains_key(#[trigger] s[j]) && same_links(before, fin, s[j]) by {}
            lemma_ring_frame(before, fin, s);
        }
        Some(r)
    }

    /// Links `x`, which must be in no list, just after the element most
    /// recently yielded by `next`; once all were yielded, last.
    #[verifier::rlimit(50)]
    fn link_next(&mut self, x: usize)
        requires
            old(self).wf(),
            old(self).pool_view().contains_key(x),
            old(self).pool_view()[x].link.unlinked(),
            old(self).list_view().len() < usize::MAX,
        ensures
            final(self).wf(),
            final(self).list_view() == old(self).list_view().insert(
                if old(self).remaining() == 0 {
                    old(self).list_view().len() as int
                } else {
                    old(self).start()
                },
                x,
            ),
            final(self).remaining() == old(self).remaining(),
            final(self).start() == (if old(self).remaining() == 0 {
                old(self).start()
            } else {
                old(self).start() + 1
            }),
            final(self).rest() == old(self).rest(),
            relinked_within(old(self).pool_view(), final(self).pool_view(), old(self).list_view().to_set().insert(x)),
    {
        let ghost s = (*self.list)@;
        let ghost k = self.start@;
        let ghost n = s.len() as int;
        if self.nelem == 0 {
            self.list.push_back(self.pool, x);
            proof {
                assert(s.push(x) =~= s.insert(n, x));
                assert((*self.list)@.subrange(k, k) =~= s.subrange(k, k));
            }
            return;
        }
        let h = match self.head.resolve() {
            Some(h) => h,
            None => unreached(),
        };
        proof {
            if s.contains(x) {
                crate::ring::lemma_ring_members_linked((*self.pool)@, s, x);
            }
        }
        let at_front = match self.list.front_link().resolve() {
            Some(f) => f == h,
            None => false,
        };
        if at_front {
            proof {
                assert(s[0] == s[k]);
                assert(k == 0) by {
                    if k != 0 {
                        assert(s[0] != s[k]);
                    }
                }
            }
            self.list.push_front(self.pool, x);
            proof {
                assert(seq![x] + s =~= s.insert(0, x));
            }
        } else {
            proof {
                assert(k != 0);
            }
            self.list.insert_before(self.pool, h, x, false, Ghost(k));
        }
        proof {
            self.start@ = k + 1;
            assert((*self.list)@.subrange(k + 1, k + 1 + self.nelem) =~= s.subrange(k, k + self.nelem));
        }
    }

    /// Stores `elt` in the pool and links it just after the element most
    /// recently yielded by `next`, that is just before the element `next`
    /// would yield; once all were yielded, last. The new element is not
    /// yielded by this iterator. Returns its slot.
    pub fn insert_next(&mut self, elt: NodeImpl<T>) -> (x: usize)
        requires
            old(self).wf(),
            elt.link.unlinked(),
            old(self).list_view().len() < usize::MAX,
        ensures
            !old(self).pool_view().contains_key(x),
            final(self).wf(),
            final(self).list_view() == old(self).list_view().insert(
                if old(self).remaining() == 0 {
                    old(self).list_view().len() as int
                } else {
                    old(self).start()
                },
                x,
            ),
            final(self).remaining() == old(self).remaining(),
            final(self).start() == (if old(self).remaining() == 0 {
                old(self).start()
            } else {
                old(self).start() + 1
            }),
            final(self).rest() == old(self).rest(),
            relinked_within(
                old(self).pool_view().insert(x, elt),
                final(self).pool_view(),
                old(self).list_view().to_set().insert(x),
            ),
    {
        let ghost s = (*self.list)@;
        let ghost a = (*self.pool)@;
        let x = self.pool.insert(elt);
        proof {
            let b = (*self.pool)@;
            assert forall|j: int| 0 <= j < s.len() implies b.contains_key(#[trigger] s[j]) && crate::ring::same_links(a, b, s[j]) by {
                assert(a.contains_key(s[j]));
            }
            lemma_ring_frame(a, b, s);
        }
        self.link_next(x);
        x
    }

    /// The number of values still to yield, as lower and upper bound.
    pub fn size_hint(&self) -> (r: (usize, Option<usize>))
        requires
            self.wf(),
        ensures
            r == (self.remaining() as usize, Some(self.remaining() as usize)),
    {
        (self.nelem, Some(self.nelem))
    }
}

/// A consuming iterator: it takes the elements out of the list and the pool,
/// from either end.
pub struct IntoIter<'a, T> {
    list: LinkedList,
    pool: &'a mut Pool<T>,
}

/// The values of slots `s` are the same in both pools.
proof fn lemma_values_kept<T>(a: Map<usize, NodeImpl<T>>, b: Map<usize, NodeImpl<T>>, s: Seq<usize>)
    requires
        forall|k: int| 0 <= k < s.len() ==> #[trigger] b[s[k]].val == a[s[k]].val,
    ensures
        values_of(b, s) == values_of(a, s),
{
    assert(values_of(b, s) =~= values_of(a, s));
}

impl<'a, T> IntoIter<'a, T> {
    /// The slots of the elements still to take, front to back.
    pub closed spec fn list_view(&self) -> Seq<usize> {
        self.list@
    }

    /// The pool the elements live in.
    pub closed spec fn pool_view(&self) -> Map<usize, NodeImpl<T>> {
        (*self.pool)@
    }

    /// The values still to take, front to back.
    pub open spec fn rest_values(&self) -> Seq<T> {
        values_of(self.pool_view(), self.list_view())
    }

    pub closed spec fn wf(&self) -> bool {
        self.list.wf((*self.pool)@)
    }

    /// Takes `x`, just unlinked, out of the pool.
    fn take_out(&mut self, x: usize, s: Ghost<Seq<usize>>, a: Ghost<Map<usize, NodeImpl<T>>>) -> (r: NodeImpl<T>)
        requires
            old(self).wf(),
            is_ring(a@, s@),
            s@.contains(x),
            old(self).list_view() == s@.remove(s@.index_of(x)),
            relinked_within(a@, old(self).pool_view(), s@.to_set()),
            old(self).pool_view()[x].link.unlinked(),
        ensures
            final(self).wf(),
            final(self).list_view() == old(self).list_view(),
            final(self).pool_view() == old(self).pool_view().remove(x),
            final(self).rest_values() == values_of(a@, old(self).list_view()),
            r.val == a@[x].val,
            r.link.unlinked(),
    {
        let ghost t = self.list@;
        let ghost b = (*self.pool)@;
        proof {
            assert(a@.contains_key(x));
            assert(!t.contains(x)) by {
                if t.contains(x) {
                    let j = choose|j: int| 0 <= j < t.len() && t[j] == x;
                    let k = s@.index_of(x);
                    if j < k {
                        assert(t[j] == s@[j]);
                    } else {
                        assert(t[j] == s@[j + 1]);
                    }
                }
            }
        }
        let r = self.pool.remove(x);
        proof {
            let c = (*self.pool)@;
            assert forall|j: int| 0 <= j < t.len() implies c.contains_key(#[trigger] t[j]) && crate::ring::same_links(b, c, t[j]) by {
                assert(t[j] != x);
            }
            lemma_ring_frame(b, c, t);
            assert forall|j: int| 0 <= j < t.len() implies #[trigger] c[t[j]].val == a@[t[j]].val by {
                assert(t[j] != x);
                assert(b.contains_key(t[j]));
            }
            lemma_values_kept(a@, c, t);
        }
        r
    }

    /// Takes the first element out of the list and the pool, or returns
    /// `None` once the list is empty.
    pub fn next(&mut self) -> (r: Option<NodeImpl<T>>)
        requires
            old(self).wf(),
        ensures
            final(self).wf(),
            old(self).list_view().len() == 0 ==> {
                &&& r is None
                &&& final(self).list_view() == old(self).list_view()
                &&& final(self).pool_view() == old(self).pool_view()
            },
            old(self).list_view().len() > 0 ==> {
                &&& r is Some
                &&& r->Some_0.val == old(self).rest_values()[0]
                &&& r->Some_0.link.unlinked()
                &&& final(self).list_view() == old(self).list_view().drop_first()
                &&& final(self).rest_values() == old(self).rest_values().drop_first()
                &&& final(self).pool_view().dom() == old(self).pool_view().dom().remove(old(self).list_view()[0])
            },
    {
        let ghost s = self.list@;
        let ghost a = (*self.pool)@;
        match self.list.pop_front(self.pool) {
            None => None,
            Some(x) => {
                proof {
                    assert(s[0] == x);
                    assert(s.index_of(x) == 0) by {
                        assert(s.no_duplicates());
                    }
                    assert(s.remove(0) =~= s.drop_first());
                }
                let r = self.take_out(x, Ghost(s), Ghost(a));
                proof {
                    assert(values_of(a, s.drop_first()) =~= values_of(a, s).drop_first());
                    assert((*self.pool)@.dom() =~= a.dom().remove(x));
                }
                Some(r)
            },
        }
    }

    /// Takes the last element out of the list and the pool, or returns
    /// `None` once the list is empty.
    pub fn next_back(&mut self) -> (r: Option<NodeImpl<T>>)
        requires
            old(self).wf(),
        ensures
            final(self).wf(),
            old(self).list_view().len() == 0 ==> {
                &&& r is None
                &&& final(self).list_view() == old(self).list_view()
                &&& final(self).pool_view() == old(self).pool_view()
            },
            old(self).list_view().len() > 0 ==> {
                &&& r is Some
                &&& r->Some_0.val == old(self).rest_values().last()
                &&& r->Some_0.link.unlinked()
                &&& final(self).list_view() == old(self).list_view().drop_last()
                &&& final(self).rest_values() == old(self).rest_values().drop_last()
                &&& final(self).pool_view().dom() == old(self).pool_view().dom().remove(old(self).list_view().last())
            },
    {
        let ghost s = self.list@;
        let ghost a = (*self.pool)@;
        match self.list.pop_back(self.pool) {
            None => None,
            Some(x) => {
                proof {
                    let n = s.len() as int;
                    assert(s[n - 1] == x);
                    assert(s.index_of(x) == n - 1) by {
                        assert(s.no_duplicates());
                    }
                    assert(s.remove(n - 1) =~= s.drop_last());
                }
                let r = self.take_out(x, Ghost(s), Ghost(a));
                proof {
                    assert(values_of(a, s.drop_last()) =~= values_of(a, s).drop_last());
                    assert((*self.pool)@.dom() =~= a.dom().remove(x));
                }
                Some(r)
            },
        }
    }

    /// The number of elements still to take, as lower and upper bound.
    pub fn size_hint(&self) -> (r: (usize, Option<usize>))
        requires
            self.wf(),
        ensures
            r == (self.list_view().len() as usize, Some(self.list_view().len() as usize)),
    {
        let n = self.list.len();
        (n, Some(n))
    }
}

impl LinkedList {
    /// An iterator over the values, front to back.
    pub fn iter<'a, T>(&self, pool: &'a Pool<T>) -> (r: Iter<'a, T>)
        requires
            self.wf(pool@),
        ensures
            r.wf(),
            r.rest() == self@,
            r.pool_view() == pool@,
    {
        let ghost s = self@;
        let ghost n = s.len() as int;
        proof {
            assert forall|k: int| #![trigger pool@[s[k]]] 0 <= k < n - 1 implies next_of(pool@, s[k]) == Some(s[k + 1]) && prev_of(pool@, s[k + 1]) == Some(s[k]) by {
                assert(succ(k, n) == k + 1);
                assert(pred(k + 1, n) == k);
                assert(prev_of(pool@, s[k + 1]) == Some(s[pred(k + 1, n)]));
            }
        }
        Iter {
            pool,
            head: self.front_link(),
            tail: self.back_link(pool),
            nelem: self.len(),
            rest: Ghost(s),
        }
    }
    /// An iterator over the values, front to back, that yields them for
    /// change in place and can link new elements in as it goes.
    pub fn iter_mut<'a, T>(&'a mut self, pool: &'a mut Pool<T>) -> (r: IterMut<'a, T>)
        requires
            old(self).wf(old(pool)@),
        ensures
            r.wf(),
            r.list_view() == old(self)@,
            r.pool_view() == old(pool)@,
            r.start() == 0,
            r.remaining() == old(self)@.len(),
    {
        let head = self.front_link();
        let tail = self.back_link(pool);
        let nelem = self.len();
        IterMut { list: self, pool, head, tail, nelem, start: Ghost(0) }
    }
    /// Consumes the list into an iterator that takes its elements out of
    /// the pool, from either end.
    pub fn into_iter<'a, T>(self, pool: &'a mut Pool<T>) -> (r: IntoIter<'a, T>)
        requires
            self.wf(old(pool)@),
        ensures
            r.wf(),
            r.list_view() == self@,
            r.pool_view() == old(pool)@,
    {
        IntoIter { list: self, pool }
    }
}

} // verus!
