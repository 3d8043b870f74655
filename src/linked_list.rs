//! The list engine: a header that threads a ring of links through a pool.
use vstd::prelude::*;

use vstd::pervasive::strictly_cloned;
use vstd::std_specs::cmp::PartialOrdSpec;

use crate::node::NodeImpl;
use crate::pool::Pool;
use crate::rawlink::Rawlink;
use crate::ring::{
    is_ring, lemma_relinked_grow, lemma_relinked_one, lemma_relinked_trans, lemma_ring_frame, lemma_ring_insert,
    lemma_ring_join, lemma_ring_members_linked, lemma_ring_remove, lemma_ring_rotate_backward,
    lemma_ring_rotate_forward, lemma_ring_split, next_of, pred, prev_of, relinked_within, same_links,
    succ,
};

verus! {

/// An intrusive doubly-linked list.
///
/// The header holds the number of elements and a weak link to the first
/// one; the elements themselves live in a [`Pool`] and are chained by the
/// links they carry, the last linking back round to the first.
///
/// The header does not own its elements: dropping it leaves them linked.
/// Call [`LinkedList::clear`] first to hand them back to the pool unlinked.
pub struct LinkedList {
    length: usize,
    head: Rawlink,
    order: Ghost<Seq<usize>>,
}

impl View for LinkedList {
    type V = Seq<usize>;

    /// The slots of the elements, from front to back.
    closed spec fn view(&self) -> Seq<usize> {
        self.order@
    }
}

/// The values held in slots `s`, in order.
pub open spec fn values_of<T>(pool: Map<usize, NodeImpl<T>>, s: Seq<usize>) -> Seq<T> {
    s.map_values(|i: usize| pool[i].val)
}

/// `k` is where `f` places a new value `v` among `vals`: the first position
/// whose value `f` accepts, or the end when it accepts none.
pub open spec fn first_accepting<T, F: Fn(&T, &T) -> bool>(f: F, vals: Seq<T>, v: T, k: int) -> bool {
    &&& 0 <= k <= vals.len()
    &&& forall|j: int| 0 <= j < k ==> f.ensures((&vals[j], &v), false)
    &&& k < vals.len() ==> f.ensures((&vals[k], &v), true)
}

/// `a` is greater than or equal to `b`.
pub open spec fn not_below<T: PartialOrd>(a: T, b: T) -> bool {
    a.partial_cmp_spec(&b) matches Some(core::cmp::Ordering::Greater | core::cmp::Ordering::Equal)
}

/// `k` is the first position whose value is not below `v`, or the end.
pub open spec fn first_not_below<T: PartialOrd>(vals: Seq<T>, v: T, k: int) -> bool {
    &&& 0 <= k <= vals.len()
    &&& forall|j: int| 0 <= j < k ==> !not_below(vals[j], v)
    &&& k < vals.len() ==> not_below(vals[k], v)
}

/// One step of unlinking a ring front to back: the first `i` slots are
/// unlinked, and popping slot `i` keeps them so and unlinks it too.
proof fn lemma_clear_step<T>(
    a: Map<usize, NodeImpl<T>>,
    b: Map<usize, NodeImpl<T>>,
    c: Map<usize, NodeImpl<T>>,
    s: Seq<usize>,
    i: int,
)
    requires
        is_ring(a, s),
        0 <= i < s.len(),
        forall|k: int| 0 <= k < i ==> b[#[trigger] s[k]].link.unlinked(),
        relinked_within(a, b, s.to_set()),
        relinked_within(b, c, s.subrange(i, s.len() as int).to_set()),
        c[s[i]].link.unlinked(),
    ensures
        forall|k: int| 0 <= k <= i ==> c[#[trigger] s[k]].link.unlinked(),
        relinked_within(a, c, s.to_set()),
{
    let cur = s.subrange(i, s.len() as int);
    assert forall|k: int| 0 <= k <= i implies c[#[trigger] s[k]].link.unlinked() by {
        if k < i {
            assert(!cur.contains(s[k])) by {
                if cur.contains(s[k]) {
                    let j = choose|j: int| 0 <= j < cur.len() && cur[j] == s[k];
                    assert(cur[j] == s[j + i]);
                }
            }
            assert(a.contains_key(s[k]));
        }
    }
    assert(cur.to_set().subset_of(s.to_set())) by {
        assert forall|x: usize| cur.to_set().contains(x) implies s.to_set().contains(x) by {
            let j = choose|j: int| 0 <= j < cur.len() && cur[j] == x;
            assert(cur[j] == s[j + i]);
        }
    }
    lemma_relinked_grow(b, c, cur.to_set(), s.to_set());
    lemma_relinked_trans(a, b, c, s.to_set(), s.to_set());
    assert(s.to_set().union(s.to_set()) =~= s.to_set());
}

impl LinkedList {
    /// The header agrees with the slots it stands for: its count is their
    /// number and its head is the first of them.
    pub closed spec fn inv(&self) -> bool {
        &&& self.length == self.order@.len()
        &&& self.head@ == (if self.order@.len() == 0 {
            None::<usize>
        } else {
            Some(self.order@[0])
        })
    }

    /// The list is well formed in `pool`: its elements form a ring there.
    pub open spec fn wf<T>(&self, pool: Map<usize, NodeImpl<T>>) -> bool {
        &&& self.inv()
        &&& is_ring(pool, self@)
    }

    /// Creates an empty list.
    pub fn new() -> (r: LinkedList)
        ensures
            r.inv(),
            r@ == Seq::<usize>::empty(),
    {
        LinkedList { length: 0, head: Rawlink::none(), order: Ghost(Seq::empty()) }
    }

    /// The number of elements, kept up to date rather than counted.
    pub fn len(&self) -> (r: usize)
        requires
            self.inv(),
        ensures
            r == self@.len(),
    {
        self.length
    }

    pub fn is_empty(&self) -> (r: bool)
        requires
            self.inv(),
        ensures
            r == (self@.len() == 0),
    {
        self.length == 0
    }

    /// A link to the first element, null when the list is empty.
    pub fn front_link(&self) -> (r: Rawlink)
        requires
            self.inv(),
        ensures
            r@ == (if self@.len() == 0 {
                None::<usize>
            } else {
                Some(self@[0])
            }),
    {
        self.head
    }

    /// A link to the last element, null when the list is empty.
    pub fn back_link<T>(&self, pool: &Pool<T>) -> (r: Rawlink)
        requires
            self.wf(pool@),
        ensures
            r@ == (if self@.len() == 0 {
                None::<usize>
            } else {
                Some(self@.last())
            }),
    {
        match self.head.resolve() {
            None => Rawlink::none(),
            Some(h) => {
                proof {
                    assert(self@[0] == h);
                    assert(pred(0, self@.len() as int) == self@.len() - 1);
                }
                pool.get(h).link.get_prev()
            },
        }
    }

    /// The slot of the first element.
    fn head_slot(&self) -> (r: usize)
        requires
            self.inv(),
            self@.len() > 0,
        ensures
            r == self@[0],
    {
        match self.head.resolve() {
            Some(h) => h,
            None => unreached(),
        }
    }

    /// Links `x` in between `p` and `q`, which follow each other in a ring.
    fn link_between<T>(pool: &mut Pool<T>, p: usize, q: usize, x: usize)
        requires
            old(pool)@.contains_key(p),
            old(pool)@.contains_key(q),
            old(pool)@.contains_key(x),
            x != p,
            x != q,
        ensures
            relinked_within(old(pool)@, final(pool)@, set![p, q, x]),
            next_of(final(pool)@, x) == Some(q),
            prev_of(final(pool)@, x) == Some(p),
            next_of(final(pool)@, p) == Some(x),
            prev_of(final(pool)@, q) == Some(x),
            p != q ==> prev_of(final(pool)@, p) == prev_of(old(pool)@, p),
            p != q ==> next_of(final(pool)@, q) == next_of(old(pool)@, q),
    {
        let ghost a0 = pool@;
        pool.set_prev(q, Rawlink::some(x));
        let ghost a1 = pool@;
        pool.set_next(x, Rawlink::some(q));
        let ghost a2 = pool@;
        pool.set_prev(x, Rawlink::some(p));
        let ghost a3 = pool@;
        pool.set_next(p, Rawlink::some(x));
        proof {
            lemma_relinked_one(a0, a1, q);
            lemma_relinked_one(a1, a2, x);
            lemma_relinked_one(a2, a3, x);
            lemma_relinked_one(a3, pool@, p);
            lemma_relinked_trans(a0, a1, a2, set![q], set![x]);
            lemma_relinked_trans(a0, a2, a3, set![q].union(set![x]), set![x]);
            lemma_relinked_trans(a0, a3, pool@, set![q].union(set![x]).union(set![x]), set![p]);
            assert(set![q].union(set![x]).union(set![x]).union(set![p]) =~= set![p, q, x]);
        }
    }

    /// Makes `x` the only element of an empty list.
    fn link_first<T>(&mut self, pool: &mut Pool<T>, x: usize)
        requires
            old(self).inv(),
            old(self)@.len() == 0,
            old(pool)@.contains_key(x),
        ensures
            final(self).wf(final(pool)@),
            final(self)@ == seq![x],
            relinked_within(old(pool)@, final(pool)@, set![x]),
    {
        let ghost a0 = pool@;
        pool.set_next(x, Rawlink::some(x));
        let ghost a1 = pool@;
        pool.set_prev(x, Rawlink::some(x));
        proof {
            lemma_relinked_one(a0, a1, x);
            lemma_relinked_one(a1, pool@, x);
            lemma_relinked_trans(a0, a1, pool@, set![x], set![x]);
            assert(set![x].union(set![x]) =~= set![x]);
        }
        self.head = Rawlink::some(x);
        self.length = 1;
        proof {
            self.order@ = seq![x];
        }
        proof {
            assert(self@[0] == x);
            assert(seq![x].no_duplicates());
        }
    }

    /// Links `x` in at position `k` of a non-empty list, just before `q`,
    /// the element at `k` (or the first one when `k` is the length).
    pub(crate) fn insert_before<T>(&mut self, pool: &mut Pool<T>, q: usize, x: usize, to_front: bool, k: Ghost<int>)
        requires
            old(self).wf(old(pool)@),
            old(self)@.len() >= 1,
            0 <= k@ <= old(self)@.len(),
            q == (if k@ == old(self)@.len() {
                old(self)@[0]
            } else {
                old(self)@[k@]
            }),
            to_front == (k@ == 0),
            old(pool)@.contains_key(x),
            !old(self)@.contains(x),
            old(self)@.len() < usize::MAX,
        ensures
            final(self).wf(final(pool)@),
            final(self)@ == old(self)@.insert(k@, x),
            relinked_within(old(pool)@, final(pool)@, old(self)@.to_set().insert(x)),
    {
        let ghost s = self@;
        let ghost n = s.len() as int;
        let ghost a = pool@;
        proof {
            let kq = if k@ == n { 0 } else { k@ };
            assert(s[kq] == q);
            assert(pred(kq, n) == (if k@ == 0 { n - 1 } else { k@ - 1 }));
        }
        let p = match pool.get(q).link.get_prev().resolve() {
            Some(p) => p,
            None => unreached(),
        };
        proof {
            let pk = if k@ == 0 { n - 1 } else { k@ - 1 };
            assert(s[pk] == p);
            assert(s.contains(p));
            assert(s.contains(q));
        }
        Self::link_between(pool, p, q, x);
        proof {
            assert forall|j: int| 0 <= j < n && s[j] != p && s[j] != q implies same_links(
                a,
                pool@,
                #[trigger] s[j],
            ) by {
                assert(s[j] != x);
                assert(pool@.contains_key(s[j]));
            }
            assert forall|j: int| 0 <= j < n implies pool@.contains_key(#[trigger] s[j]) by {}
            lemma_ring_insert(a, pool@, s, k@, x);
            lemma_relinked_grow(a, pool@, set![p, q, x], s.to_set().insert(x));
        }
        if to_front {
            self.head = Rawlink::some(x);
        }
        self.length = self.length + 1;
        proof {
            self.order@ = s.insert(k@, x);
        }
        proof {
            assert(self@[0] == (if k@ == 0 { x } else { s[0] }));
        }
    }
    /// Unlinks `x`, the element at position `k`, and nulls its links.
    fn unlink_at<T>(&mut self, pool: &mut Pool<T>, x: usize, k: Ghost<int>)
        requires
            old(self).wf(old(pool)@),
            0 <= k@ < old(self)@.len(),
            old(self)@[k@] == x,
        ensures
            final(self).wf(final(pool)@),
            final(self)@ == old(self)@.remove(k@),
            final(pool)@[x].link.unlinked(),
            relinked_within(old(pool)@, final(pool)@, old(self)@.to_set()),
    {
        let ghost s = self@;
        let ghost n = s.len() as int;
        let ghost a = pool@;
        proof {
            assert(s.contains(x));
        }
        if self.length == 1 {
            pool.clear_links(x);
            self.head = Rawlink::none();
            self.length = 0;
            proof {
                lemma_relinked_one(a, pool@, x);
                lemma_relinked_grow(a, pool@, set![x], s.to_set());
                self.order@ = s.remove(k@);
                assert(self@.len() == 0);
            }
            return;
        }
        let links = pool.get(x).link.get_links_pair();
        let p = match links.1.resolve() {
            Some(p) => p,
            None => unreached(),
        };
        let q = match links.0.resolve() {
            Some(q) => q,
            None => unreached(),
        };
        proof {
            assert(s[pred(k@, n)] == p);
            assert(s[succ(k@, n)] == q);
            assert(s.contains(p));
            assert(s.contains(q));
            assert(p != x);
            assert(q != x);
        }
        let is_front = self.head_slot() == x;
        pool.set_next(p, Rawlink::some(q));
        let ghost a1 = pool@;
        pool.set_prev(q, Rawlink::some(p));
        let ghost a2 = pool@;
        pool.clear_links(x);
        proof {
            lemma_relinked_one(a, a1, p);
            lemma_relinked_one(a1, a2, q);
            lemma_relinked_one(a2, pool@, x);
            lemma_relinked_trans(a, a1, a2, set![p], set![q]);
            lemma_relinked_trans(a, a2, pool@, set![p].union(set![q]), set![x]);
            lemma_relinked_grow(a, pool@, set![p].union(set![q]).union(set![x]), s.to_set());
            assert forall|j: int|
                0 <= j < n && s[j] != p && s[j] != q && j != k@ implies same_links(
                a,
                pool@,
                #[trigger] s[j],
            ) by {
                assert(s[j] != x);
                assert(pool@.contains_key(s[j]));
            }
            assert forall|j: int| 0 <= j < n implies pool@.contains_key(#[trigger] s[j]) by {}
            lemma_ring_remove(a, pool@, s, k@);
        }
        if is_front {
            self.head = Rawlink::some(q);
        }
        self.length = self.length - 1;
        proof {
            self.order@ = s.remove(k@);
            if k@ == 0 {
                assert(succ(0, n) == 1);
                assert(self@[0] == s[1]);
            } else {
                assert(self@[0] == s[0]);
                assert(s[0] != x);
            }
        }
    }

    /// Adds `x`, which must be in no list, first in the list.
    pub fn push_front<T>(&mut self, pool: &mut Pool<T>, x: usize)
        requires
            old(self).wf(old(pool)@),
            old(pool)@.contains_key(x),
            old(pool)@[x].link.unlinked(),
            old(self)@.len() < usize::MAX,
        ensures
            final(self).wf(final(pool)@),
            final(self)@ == seq![x] + old(self)@,
            relinked_within(old(pool)@, final(pool)@, old(self)@.to_set().insert(x)),
    {
        proof {
            if self@.contains(x) {
                lemma_ring_members_linked(pool@, self@, x);
            }
        }
        if self.length == 0 {
            self.link_first(pool, x);
            proof {
                assert(seq![x] + old(self)@ =~= seq![x]);
                lemma_relinked_grow(old(pool)@, pool@, set![x], old(self)@.to_set().insert(x));
            }
        } else {
            let h = self.head_slot();
            self.insert_before(pool, h, x, true, Ghost(0));
            proof {
                assert(old(self)@.insert(0, x) =~= seq![x] + old(self)@);
            }
        }
    }

    /// Adds `x`, which must be in no list, last in the list.
    pub fn push_back<T>(&mut self, pool: &mut Pool<T>, x: usize)
        requires
            old(self).wf(old(pool)@),
            old(pool)@.contains_key(x),
            old(pool)@[x].link.unlinked(),
            old(self)@.len() < usize::MAX,
        ensures
            final(self).wf(final(pool)@),
            final(self)@ == old(self)@.push(x),
            relinked_within(old(pool)@, final(pool)@, old(self)@.to_set().insert(x)),
    {
        proof {
            if self@.contains(x) {
                lemma_ring_members_linked(pool@, self@, x);
            }
        }
        if self.length == 0 {
            self.link_first(pool, x);
            proof {
                assert(old(self)@.push(x) =~= seq![x]);
                lemma_relinked_grow(old(pool)@, pool@, set![x], old(self)@.to_set().insert(x));
            }
        } else {
            let h = self.head_slot();
            let ghost n = self@.len() as int;
            self.insert_before(pool, h, x, false, Ghost(n));
            proof {
                assert(old(self)@.insert(n, x) =~= old(self)@.push(x));
            }
        }
    }

    /// Unlinks the first element and returns its slot, or `None` if the
    /// list is empty.
    pub fn pop_front<T>(&mut self, pool: &mut Pool<T>) -> (r: Option<usize>)
        requires
            old(self).wf(old(pool)@),
        ensures
            final(self).wf(final(pool)@),
            old(self)@.len() == 0 ==> r is None && final(self)@ == old(self)@ && final(pool)@ == old(pool)@,
            old(self)@.len() > 0 ==> {
                &&& r == Some(old(self)@[0])
                &&& final(self)@ == old(self)@.drop_first()
                &&& final(pool)@[old(self)@[0]].link.unlinked()
            },
            relinked_within(old(pool)@, final(pool)@, old(self)@.to_set()),
    {
        if self.length == 0 {
            return None;
        }
        let h = self.head_slot();
        self.unlink_at(pool, h, Ghost(0));
        proof {
            assert(old(self)@.remove(0) =~= old(self)@.drop_first());
        }
        Some(h)
    }

    /// Unlinks the last element and returns its slot, or `None` if the
    /// list is empty.
    pub fn pop_back<T>(&mut self, pool: &mut Pool<T>) -> (r: Option<usize>)
        requires
            old(self).wf(old(pool)@),
        ensures
            final(self).wf(final(pool)@),
            old(self)@.len() == 0 ==> r is None && final(self)@ == old(self)@ && final(pool)@ == old(pool)@,
            old(self)@.len() > 0 ==> {
                &&& r == Some(old(self)@.last())
                &&& final(self)@ == old(self)@.drop_last()
                &&& final(pool)@[old(self)@.last()].link.unlinked()
            },
            relinked_within(old(pool)@, final(pool)@, old(self)@.to_set()),
    {
        if self.length == 0 {
            return None;
        }
        let t = match self.back_link(pool).resolve() {
            Some(t) => t,
            None => unreached(),
        };
        let ghost n = self@.len() as int;
        self.unlink_at(pool, t, Ghost(n - 1));
        proof {
            assert(old(self)@.remove(n - 1) =~= old(self)@.drop_last());
        }
        Some(t)
    }
    /// Moves every element of `other` to the end of this list, in O(1):
    /// only the links at the two ends change. `other` is left empty.
    pub fn append<T>(&mut self, other: &mut LinkedList, pool: &mut Pool<T>)
        requires
            old(self).wf(old(pool)@),
            old(other).wf(old(pool)@),
            old(self)@.disjoint(old(other)@),
            old(self)@.len() + old(other)@.len() <= usize::MAX,
        ensures
            final(self).wf(final(pool)@),
            final(other).wf(final(pool)@),
            final(self)@ == old(self)@ + old(other)@,
            final(other)@ == Seq::<usize>::empty(),
            relinked_within(old(pool)@, final(pool)@, old(self)@.to_set().union(old(other)@.to_set())),
    {
        let ghost s = self@;
        let ghost o = other@;
        let ghost a = pool@;
        if other.length == 0 {
            proof {
                assert(s + o =~= s);
                assert(a.dom() =~= pool@.dom());
            }
            return;
        }
        if self.length == 0 {
            self.length = other.length;
            self.head = other.head.take();
            other.length = 0;
            proof {
                self.order@ = o;
                other.order@ = Seq::empty();
                assert(s + o =~= o);
                assert(a.dom() =~= pool@.dom());
            }
            return;
        }
        let ghost n = s.len() as int;
        let ghost m = o.len() as int;
        let h = self.head_slot();
        let t = match self.back_link(pool).resolve() {
            Some(t) => t,
            None => unreached(),
        };
        let oh = other.head_slot();
        let ot = match other.back_link(pool).resolve() {
            Some(t) => t,
            None => unreached(),
        };
        proof {
            assert(s.contains(h) && s.contains(t) && o.contains(oh) && o.contains(ot));
        }
        pool.set_next(ot, Rawlink::some(h));
        let ghost a1 = pool@;
        pool.set_prev(oh, Rawlink::some(t));
        let ghost a2 = pool@;
        pool.set_next(t, Rawlink::some(oh));
        let ghost a3 = pool@;
        pool.set_prev(h, Rawlink::some(ot));
        proof {
            lemma_relinked_one(a, a1, ot);
            lemma_relinked_one(a1, a2, oh);
            lemma_relinked_one(a2, a3, t);
            lemma_relinked_one(a3, pool@, h);
            lemma_relinked_trans(a, a1, a2, set![ot], set![oh]);
            lemma_relinked_trans(a, a2, a3, set![ot].union(set![oh]), set![t]);
            lemma_relinked_trans(a, a3, pool@, set![ot].union(set![oh]).union(set![t]), set![h]);
            let touched = set![ot].union(set![oh]).union(set![t]).union(set![h]);
            lemma_relinked_grow(a, pool@, touched, s.to_set().union(o.to_set()));
            assert forall|j: int| 0 < j < n - 1 implies same_links(a, pool@, #[trigger] s[j]) by {
                assert(s[j] != h && s[j] != t);
                assert(!o.contains(s[j]));
                assert(pool@.contains_key(s[j]));
            }
            assert forall|j: int| 0 < j < m - 1 implies same_links(a, pool@, #[trigger] o[j]) by {
                assert(o[j] != oh && o[j] != ot);
                assert(!s.contains(o[j]));
                assert(pool@.contains_key(o[j]));
            }
            assert forall|j: int| 0 <= j < n implies pool@.contains_key(#[trigger] s[j]) by {}
            assert forall|j: int| 0 <= j < m implies pool@.contains_key(#[trigger] o[j]) by {}
            assert(!o.contains(h) && !o.contains(t) && !s.contains(oh) && !s.contains(ot));
            lemma_ring_join(a, pool@, s, o);
        }
        self.length = self.length + other.length;
        other.length = 0;
        other.head = Rawlink::none();
        proof {
            self.order@ = s + o;
            other.order@ = Seq::empty();
            assert(self@[0] == s[0]);
        }
    }
    /// The slot `steps` places after position `from`, walking next links.
    fn walk_forward<T>(&self, pool: &Pool<T>, start: usize, from: Ghost<int>, steps: usize) -> (r: usize)
        requires
            self.wf(pool@),
            0 <= from@,
            from@ + steps < self@.len(),
            self@[from@] == start,
        ensures
            r == self@[from@ + steps],
    {
        let mut cur = start;
        let mut i: usize = 0;
        while i < steps
            invariant
                self.wf(pool@),
                0 <= from@,
                from@ + steps < self@.len(),
                i <= steps,
                cur == self@[from@ + i],
            decreases steps - i,
        {
            proof {
                assert(succ(from@ + i, self@.len() as int) == from@ + i + 1);
            }
            cur = match pool.get(cur).link.get_next().resolve() {
                Some(c) => c,
                None => unreached(),
            };
            i = i + 1;
        }
        cur
    }

    /// The slot `steps` places before position `from`, walking previous
    /// links.
    fn walk_backward<T>(&self, pool: &Pool<T>, start: usize, from: Ghost<int>, steps: usize) -> (r: usize)
        requires
            self.wf(pool@),
            from@ < self@.len(),
            0 <= from@ - steps,
            self@[from@] == start,
        ensures
            r == self@[from@ - steps],
    {
        let mut cur = start;
        let mut i: usize = 0;
        while i < steps
            invariant
                self.wf(pool@),
                from@ < self@.len(),
                0 <= from@ - steps,
                i <= steps,
                cur == self@[from@ - i],
            decreases steps - i,
        {
            proof {
                assert(pred(from@ - i, self@.len() as int) == from@ - i - 1);
            }
            cur = match pool.get(cur).link.get_prev().resolve() {
                Some(c) => c,
                None => unreached(),
            };
            i = i + 1;
        }
        cur
    }

    /// Cuts ring `s` after its first `at` slots into two rings, by
    /// relinking the ends of both parts.
    #[verifier::rlimit(40)]
    fn cut_ring<T>(pool: &mut Pool<T>, s: Ghost<Seq<usize>>, at: usize, h: usize, pre: usize, post: usize, t: usize)
        requires
            is_ring(old(pool)@, s@),
            0 < at < s@.len(),
            h == s@[0],
            pre == s@[at - 1],
            post == s@[at as int],
            t == s@.last(),
        ensures
            is_ring(final(pool)@, s@.subrange(0, at as int)),
            is_ring(final(pool)@, s@.subrange(at as int, s@.len() as int)),
            relinked_within(old(pool)@, final(pool)@, s@.to_set()),
    {
        let ghost s = s@;
        let ghost n = s.len() as int;
        let ghost a = pool@;
        proof {
            assert(s.contains(h) && s.contains(t) && s.contains(pre) && s.contains(post));
        }
        pool.set_prev(h, Rawlink::some(pre));
        let ghost a1 = pool@;
        pool.set_next(pre, Rawlink::some(h));
        let ghost a2 = pool@;
        pool.set_prev(post, Rawlink::some(t));
        let ghost a3 = pool@;
        pool.set_next(t, Rawlink::some(post));
        proof {
            lemma_relinked_one(a, a1, h);
            lemma_relinked_one(a1, a2, pre);
            lemma_relinked_one(a2, a3, post);
            lemma_relinked_one(a3, pool@, t);
            lemma_relinked_trans(a, a1, a2, set![h], set![pre]);
            lemma_relinked_trans(a, a2, a3, set![h].union(set![pre]), set![post]);
            lemma_relinked_trans(a, a3, pool@, set![h].union(set![pre]).union(set![post]), set![t]);
            let touched = set![h].union(set![pre]).union(set![post]).union(set![t]);
            lemma_relinked_grow(a, pool@, touched, s.to_set());
            assert forall|j: int| 0 < j < at - 1 implies same_links(a, pool@, #[trigger] s[j]) by {
                assert(s[j] != h && s[j] != t && s[j] != pre && s[j] != post);
                assert(pool@.contains_key(s[j]));
            }
            assert forall|j: int| at < j < n - 1 implies same_links(a, pool@, #[trigger] s[j]) by {
                assert(s[j] != h && s[j] != t && s[j] != pre && s[j] != post);
                assert(pool@.contains_key(s[j]));
            }
            assert forall|j: int| 0 <= j < n implies pool@.contains_key(#[trigger] s[j]) by {}
            lemma_ring_split(a, pool@, s, at as int);
        }
    }

    /// Splits the list in two at position `at`: this list keeps the first
    /// `at` elements and the rest are returned as a new list. The split
    /// point is found from whichever end is nearer, and only the links at
    /// the cut change.
    #[verifier::rlimit(40)]
    pub fn split_off<T>(&mut self, at: usize, pool: &mut Pool<T>) -> (r: LinkedList)
        requires
            old(self).wf(old(pool)@),
            at <= old(self)@.len(),
        ensures
            final(self).wf(final(pool)@),
            r.wf(final(pool)@),
            final(self)@ == old(self)@.subrange(0, at as int),
            r@ == old(self)@.subrange(at as int, old(self)@.len() as int),
            relinked_within(old(pool)@, final(pool)@, old(self)@.to_set()),
    {
        let ghost s = self@;
        let ghost a = pool@;
        let len = self.length;
        if at == 0 {
            let mut r = LinkedList::new();
            core::mem::swap(self, &mut r);
            proof {
                assert(s.subrange(0, 0) =~= Seq::<usize>::empty());
                assert(s.subrange(0, s.len() as int) =~= s);
                assert(a.dom() =~= pool@.dom());
            }
            return r;
        }
        if at == len {
            proof {
                assert(s.subrange(0, s.len() as int) =~= s);
                assert(s.subrange(s.len() as int, s.len() as int) =~= Seq::<usize>::empty());
                assert(a.dom() =~= pool@.dom());
            }
            return LinkedList::new();
        }
        let ghost n = s.len() as int;
        let h = self.head_slot();
        let t = match self.back_link(pool).resolve() {
            Some(t) => t,
            None => unreached(),
        };
        let pre = if at - 1 <= len - 1 - (at - 1) {
            self.walk_forward(pool, h, Ghost(0), at - 1)
        } else {
            self.walk_backward(pool, t, Ghost(n - 1), len - 1 - (at - 1))
        };
        proof {
            assert(succ(at - 1, n) == at);
        }
        let post = match pool.get(pre).link.get_next().resolve() {
            Some(c) => c,
            None => unreached(),
        };
        Self::cut_ring(pool, Ghost(s), at, h, pre, post, t);
        self.length = at;
        proof {
            self.order@ = s.subrange(0, at as int);
        }
        LinkedList {
            length: len - at,
            head: Rawlink::some(post),
            order: Ghost(s.subrange(at as int, n)),
        }
    }
    /// Pops the front of the rest of `s` after its first `i` slots were
    /// unlinked.
    fn pop_unlinked<T>(&mut self, pool: &mut Pool<T>, s: Ghost<Seq<usize>>, a: Ghost<Map<usize, NodeImpl<T>>>, i: Ghost<int>)
        requires
            old(self).wf(old(pool)@),
            0 <= i@ < s@.len(),
            old(self)@ == s@.subrange(i@, s@.len() as int),
            forall|k: int| 0 <= k < i@ ==> old(pool)@[#[trigger] s@[k]].link.unlinked(),
            relinked_within(a@, old(pool)@, s@.to_set()),
            is_ring(a@, s@),
        ensures
            final(self).wf(final(pool)@),
            final(self)@ == s@.subrange(i@ + 1, s@.len() as int),
            forall|k: int| 0 <= k < i@ + 1 ==> final(pool)@[#[trigger] s@[k]].link.unlinked(),
            relinked_within(a@, final(pool)@, s@.to_set()),
    {
        let ghost b = pool@;
        proof {
            assert(self@[0] == s@[i@]);
        }
        self.pop_front(pool);
        proof {
            lemma_clear_step(a@, b, pool@, s@, i@);
            assert(self@ =~= s@.subrange(i@ + 1, s@.len() as int));
        }
    }

    /// Unlinks every element, front to back. The elements stay in the pool,
    /// in no list.
    pub fn clear<T>(&mut self, pool: &mut Pool<T>)
        requires
            old(self).wf(old(pool)@),
        ensures
            final(self).wf(final(pool)@),
            final(self)@ == Seq::<usize>::empty(),
            forall|k: int| 0 <= k < old(self)@.len() ==> final(pool)@[#[trigger] old(self)@[k]].link.unlinked(),
            relinked_within(old(pool)@, final(pool)@, old(self)@.to_set()),
    {
        let ghost s = self@;
        let ghost n = s.len() as int;
        let ghost a = pool@;
        let mut i: usize = 0;
        proof {
            assert(s.subrange(0, n) =~= s);
            assert(a.dom() =~= pool@.dom());
        }
        let len = self.length;
        while i < len
            invariant
                self.wf(pool@),
                len == n,
                n == s.len(),
                0 <= i <= n,
                self@ == s.subrange(i as int, n),
                forall|k: int| 0 <= k < i ==> pool@[#[trigger] s[k]].link.unlinked(),
                relinked_within(a, pool@, s.to_set()),
                is_ring(a, s),
            decreases n - i,
        {
            self.pop_unlinked(pool, Ghost(s), Ghost(a), Ghost(i as int));
            i = i + 1;
        }
        proof {
            assert(self@ =~= Seq::<usize>::empty());
        }
    }

    /// The value of the first element, or `None` if the list is empty.
    pub fn front<'a, T>(&self, pool: &'a Pool<T>) -> (r: Option<&'a T>)
        requires
            self.wf(pool@),
        ensures
            self@.len() == 0 ==> r is None,
            self@.len() > 0 ==> r is Some && *r->Some_0 == pool@[self@[0]].val,
    {
        match self.head.resolve() {
            None => None,
            Some(h) => Some(pool.val(h)),
        }
    }

    /// The value of the last element, or `None` if the list is empty.
    pub fn back<'a, T>(&self, pool: &'a Pool<T>) -> (r: Option<&'a T>)
        requires
            self.wf(pool@),
        ensures
            self@.len() == 0 ==> r is None,
            self@.len() > 0 ==> r is Some && *r->Some_0 == pool@[self@.last()].val,
    {
        match self.back_link(pool).resolve() {
            None => None,
            Some(t) => Some(pool.val(t)),
        }
    }

    /// The value of the first element, to change in place, or `None` if the
    /// list is empty.
    pub fn front_mut<'a, T>(&self, pool: &'a mut Pool<T>) -> (r: Option<&'a mut T>)
        requires
            self.wf(old(pool)@),
        ensures
            self@.len() == 0 ==> r is None && final(pool)@ == old(pool)@,
            self@.len() > 0 ==> {
                &&& r is Some
                &&& *r->Some_0 == old(pool)@[self@[0]].val
                &&& final(pool)@ == old(pool)@.insert(
                    self@[0],
                    NodeImpl { link: old(pool)@[self@[0]].link, val: *final(r->Some_0) },
                )
            },
    {
        match self.head.resolve() {
            None => None,
            Some(h) => Some(pool.val_mut(h)),
        }
    }

    /// The value of the last element, to change in place, or `None` if the
    /// list is empty.
    pub fn back_mut<'a, T>(&self, pool: &'a mut Pool<T>) -> (r: Option<&'a mut T>)
        requires
            self.wf(old(pool)@),
        ensures
            self@.len() == 0 ==> r is None && final(pool)@ == old(pool)@,
            self@.len() > 0 ==> {
                &&& r is Some
                &&& *r->Some_0 == old(pool)@[self@.last()].val
                &&& final(pool)@ == old(pool)@.insert(
                    self@.last(),
                    NodeImpl { link: old(pool)@[self@.last()].link, val: *final(r->Some_0) },
                )
            },
    {
        match self.back_link(pool).resolve() {
            None => None,
            Some(t) => Some(pool.val_mut(t)),
        }
    }    /// A new list holding, in the same order, a clone of each element's
    /// value, stored in new elements of the pool. This list and the
    /// elements already in the pool are left as they are.
    pub fn clone_in<T: Clone>(&self, pool: &mut Pool<T>) -> (r: LinkedList)
        requires
            self.wf(old(pool)@),
        ensures
            self.wf(final(pool)@),
            r.wf(final(pool)@),
            r@.len() == self@.len(),
            forall|k: int| 0 <= k < r@.len() ==> !old(pool)@.contains_key(#[trigger] r@[k]),
            forall|k: int|
                0 <= k < r@.len() ==> strictly_cloned(
                    old(pool)@[self@[k]].val,
                    #[trigger] final(pool)@[r@[k]].val,
                ),
            forall|j: usize| #[trigger] old(pool)@.contains_key(j) ==> final(pool)@[j] == old(pool)@[j],
    {
        let ghost s = self@;
        let ghost a = pool@;
        let n = self.length;
        let mut r = LinkedList::new();
        if n == 0 {
            return r;
        }
        let mut cur = self.head_slot();
        let mut i: usize = 0;
        while i < n
            invariant
                self.wf(pool@),
                self@ == s,
                n == s.len(),
                r.wf(pool@),
                r@.len() == i,
                i <= n,
                i < n ==> cur == s[i as int],
                forall|k: int| 0 <= k < r@.len() ==> !a.contains_key(#[trigger] r@[k]),
                forall|k: int| 0 <= k < r@.len() ==> pool@.contains_key(#[trigger] r@[k]),
                forall|k: int|
                    0 <= k < r@.len() ==> strictly_cloned(a[s[k]].val, #[trigger] pool@[r@[k]].val),
                forall|j: usize| #[trigger] a.contains_key(j) ==> pool@.contains_key(j) && pool@[j] == a[j],
                is_ring(a, s),
            decreases n - i,
        {
            proof {
                assert(s.contains(cur));
                assert(a.contains_key(cur));
            }
            let v = pool.val(cur).clone();
            let ghost b = pool@;
            let x = pool.insert(NodeImpl::new(v));
            let ghost c = pool@;
            proof {
                assert forall|k: int| 0 <= k < r@.len() implies r@[k] != x by {
                    assert(b.contains_key(r@[k]));
                }
                assert(!a.contains_key(x));
                assert forall|k: int| 0 <= k < s.len() implies c.contains_key(#[trigger] s[k]) && same_links(b, c, s[k]) by {
                    assert(a.contains_key(s[k]));
                    assert(s[k] != x);
                }
                lemma_ring_frame(b, c, s);
                assert forall|k: int| 0 <= k < r@.len() implies c.contains_key(#[trigger] r@[k]) && same_links(b, c, r@[k]) by {}
                lemma_ring_frame(b, c, r@);
            }
            r.push_back(pool, x);
            proof {
                let d = pool@;
                let rs = r@;
                assert forall|k: int| 0 <= k < s.len() implies d.contains_key(#[trigger] s[k]) && same_links(c, d, s[k]) by {
                    assert(a.contains_key(s[k]));
                    assert(s[k] != x);
                    if rs.drop_last().contains(s[k]) {
                        let j = choose|j: int| 0 <= j < rs.drop_last().len() && rs.drop_last()[j] == s[k];
                        assert(rs[j] == s[k]);
                    }
                }
                lemma_ring_frame(c, d, s);
                assert forall|k: int| 0 <= k < rs.len() implies !a.contains_key(#[trigger] rs[k]) && d.contains_key(rs[k]) && strictly_cloned(a[s[k]].val, d[rs[k]].val) by {
                    if k < rs.len() - 1 {
                        assert(rs[k] == rs.drop_last()[k]);
                    }
                }
                assert forall|j: usize| #[trigger] a.contains_key(j) implies d.contains_key(j) && d[j] == a[j] by {
                    if rs.drop_last().contains(j) {
                        let q = choose|q: int| 0 <= q < rs.drop_last().len() && rs.drop_last()[q] == j;
                        assert(rs[q] == j);
                    }
                }
            }
            i = i + 1;
            if i < n {
                proof {
                    assert(succ(i - 1, n as int) == i);
                    assert(next_of(pool@, s[i - 1]) == Some(s[i as int]));
                }
                cur = match pool.get(cur).link.get_next().resolve() {
                    Some(c) => c,
                    None => unreached(),
                };
            }
        }
        r
    }
}

impl Default for LinkedList {
    /// An empty list.
    fn default() -> (r: LinkedList)
        ensures
            r.inv(),
            r@ == Seq::<usize>::empty(),
    {
        LinkedList::new()
    }
}

/// Another name for [`LinkedList`].
pub type DList = LinkedList;

impl DList {
    /// Moves the last element to the front of the list; an empty list is
    /// left as it is.
    pub fn rotate_forward<T>(&mut self, pool: &Pool<T>)
        requires
            old(self).wf(pool@),
        ensures
            final(self).wf(pool@),
            old(self)@.len() == 0 ==> final(self)@ == old(self)@,
            old(self)@.len() > 0 ==> final(self)@ == seq![old(self)@.last()] + old(self)@.drop_last(),
    {
        if self.length > 0 {
            self.head = self.back_link(pool);
            proof {
                lemma_ring_rotate_forward(pool@, self@);
                self.order@ = seq![self@.last()] + self@.drop_last();
            }
        }
    }

    /// Moves the first element to the back of the list; an empty list is
    /// left as it is.
    pub fn rotate_backward<T>(&mut self, pool: &Pool<T>)
        requires
            old(self).wf(pool@),
        ensures
            final(self).wf(pool@),
            old(self)@.len() == 0 ==> final(self)@ == old(self)@,
            old(self)@.len() > 0 ==> final(self)@ == old(self)@.drop_first().push(old(self)@[0]),
    {
        if self.length > 0 {
            let h = self.head_slot();
            proof {
                assert(succ(0, self@.len() as int) == (if self@.len() == 1 { 0int } else { 1int }));
            }
            self.head = pool.get(h).link.get_next();
            proof {
                lemma_ring_rotate_backward(pool@, self@);
                self.order@ = self@.drop_first().push(self@[0]);
            }
        }
    }

    /// Moves every element of `other` to the front of this list, in O(1).
    /// `other` is left empty.
    pub fn prepend<T>(&mut self, other: &mut LinkedList, pool: &mut Pool<T>)
        requires
            old(self).wf(old(pool)@),
            old(other).wf(old(pool)@),
            old(self)@.disjoint(old(other)@),
            old(self)@.len() + old(other)@.len() <= usize::MAX,
        ensures
            final(self).wf(final(pool)@),
            final(other).wf(final(pool)@),
            final(self)@ == old(other)@ + old(self)@,
            final(other)@ == Seq::<usize>::empty(),
            relinked_within(old(pool)@, final(pool)@, old(self)@.to_set().union(old(other)@.to_set())),
    {
        core::mem::swap(self, other);
        self.append(other, pool);
        proof {
            assert(old(other)@.to_set().union(old(self)@.to_set()) =~= old(self)@.to_set().union(
                old(other)@.to_set(),
            ));
        }
    }

    /// Unlinks `x`, which must be in this list, and returns its slot.
    pub fn remove<T>(&mut self, pool: &mut Pool<T>, x: usize) -> (r: usize)
        requires
            old(self).wf(old(pool)@),
            old(self)@.contains(x),
        ensures
            r == x,
            final(self).wf(final(pool)@),
            final(self)@ == old(self)@.remove(old(self)@.index_of(x)),
            final(pool)@[x].link.unlinked(),
            relinked_within(old(pool)@, final(pool)@, old(self)@.to_set()),
    {
        let ghost k = self@.index_of(x);
        self.unlink_at(pool, x, Ghost(k));
        x
    }

    /// Links `x`, which must be in no list, just before the first element
    /// `e` for which `f(e, x)` holds, or last when there is none. O(n).
    pub fn insert_when<T, F: Fn(&T, &T) -> bool>(&mut self, pool: &mut Pool<T>, x: usize, f: F)
        requires
            old(self).wf(old(pool)@),
            old(pool)@.contains_key(x),
            old(pool)@[x].link.unlinked(),
            old(self)@.len() < usize::MAX,
            forall|a: &T, b: &T| f.requires((a, b)),
        ensures
            final(self).wf(final(pool)@),
            exists|k: int|
                first_accepting(f, values_of(old(pool)@, old(self)@), old(pool)@[x].val, k)
                    && final(self)@ == old(self)@.insert(k, x),
            relinked_within(old(pool)@, final(pool)@, old(self)@.to_set().insert(x)),
    {
        let ghost s = self@;
        let ghost vals = values_of(pool@, s);
        let ghost v = pool@[x].val;
        proof {
            if s.contains(x) {
                lemma_ring_members_linked(pool@, s, x);
            }
        }
        let n = self.length;
        if n == 0 {
            self.link_first(pool, x);
            proof {
                assert(first_accepting(f, vals, v, 0));
                assert(s.insert(0, x) =~= seq![x]);
                lemma_relinked_grow(old(pool)@, pool@, set![x], s.to_set().insert(x));
            }
            return;
        }
        let mut cur = self.head_slot();
        let mut k: usize = 0;
        let mut found = false;
        while !found && k < n
            invariant
                self.wf(pool@),
                self@ == s,
                pool@ == old(pool)@,
                n == s.len(),
                vals == values_of(pool@, s),
                v == pool@[x].val,
                pool@.contains_key(x),
                forall|a: &T, b: &T| f.requires((a, b)),
                k <= n,
                cur == (if k == n { s[0] } else { s[k as int] }),
                found ==> k < n && f.ensures((&vals[k as int], &v), true),
                forall|j: int| 0 <= j < k ==> f.ensures((&vals[j], &v), false),
            decreases n - k + (if found { 0int } else { 1int }),
        {
            proof {
                assert(s.contains(cur));
            }
            let hit = f(pool.val(cur), pool.val(x));
            if hit {
                found = true;
            } else {
                proof {
                    assert(succ(k as int, n as int) == (if k + 1 == n { 0int } else { k + 1 }));
                }
                cur = match pool.get(cur).link.get_next().resolve() {
                    Some(c) => c,
                    None => unreached(),
                };
                k = k + 1;
            }
        }
        proof {
            assert(first_accepting(f, vals, v, k as int));
        }
        self.insert_before(pool, cur, x, k == 0, Ghost(k as int));
    }

    /// Links `x`, which must be in no list, just before the first element
    /// that is greater than or equal to it, or last. A list kept in
    /// ascending order stays so. O(n).
    pub fn insert_ordered<T: Ord>(&mut self, pool: &mut Pool<T>, x: usize)
        requires
            old(self).wf(old(pool)@),
            old(pool)@.contains_key(x),
            old(pool)@[x].link.unlinked(),
            old(self)@.len() < usize::MAX,
        ensures
            final(self).wf(final(pool)@),
            exists|k: int|
                (T::obeys_partial_cmp_spec() ==> first_not_below(
                    values_of(old(pool)@, old(self)@),
                    old(pool)@[x].val,
                    k,
                )) && final(self)@ == old(self)@.insert(k, x),
            relinked_within(old(pool)@, final(pool)@, old(self)@.to_set().insert(x)),
    {
        let f = |a: &T, b: &T| -> (r: bool)
            ensures
                T::obeys_partial_cmp_spec() ==> (r == not_below(*a, *b)),
            { a.ge(b) };
        self.insert_when(pool, x, f);
        proof {
            let vals = values_of(old(pool)@, old(self)@);
            let v = old(pool)@[x].val;
            let k = choose|k: int| first_accepting(f, vals, v, k) && self@ == old(self)@.insert(k, x);
            if T::obeys_partial_cmp_spec() {
                assert forall|j: int| 0 <= j < k implies !not_below(vals[j], v) by {
                    assert(f.ensures((&vals[j], &v), false));
                }
                assert(first_not_below(vals, v, k));
            }
        }
    }
}

} // verus!
