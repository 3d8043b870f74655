//! Laws of the list, stated over the models that the operations' contracts
//! use, and proved.
use vstd::prelude::*;

use crate::linked_list::LinkedList;
use crate::node::NodeImpl;
use crate::ring::{is_ring, next_of, pred, prev_of, succ};

verus! {

/// The slot reached from `i` by following `steps` next links.
pub open spec fn walk_next<T>(pool: Map<usize, NodeImpl<T>>, i: usize, steps: nat) -> usize
    decreases steps,
{
    if steps == 0 {
        i
    } else {
        match next_of(pool, walk_next(pool, i, (steps - 1) as nat)) {
            Some(j) => j,
            None => i,
        }
    }
}

/// The slot reached from `i` by following `steps` previous links.
pub open spec fn walk_prev<T>(pool: Map<usize, NodeImpl<T>>, i: usize, steps: nat) -> usize
    decreases steps,
{
    if steps == 0 {
        i
    } else {
        match prev_of(pool, walk_prev(pool, i, (steps - 1) as nat)) {
            Some(j) => j,
            None => i,
        }
    }
}

/// Position `k + j` of a ring of `n`, wrapping once.
pub open spec fn ahead(k: int, j: int, n: int) -> int {
    if k + j < n {
        k + j
    } else {
        k + j - n
    }
}

proof fn lemma_walk_next_pos<T>(pool: Map<usize, NodeImpl<T>>, s: Seq<usize>, k: int, j: nat)
    requires
        is_ring(pool, s),
        0 <= k < s.len(),
        j <= s.len(),
    ensures
        walk_next(pool, s[k], j) == s[ahead(k, j as int, s.len() as int)],
    decreases j,
{
    if j > 0 {
        let n = s.len() as int;
        lemma_walk_next_pos(pool, s, k, (j - 1) as nat);
        let p = ahead(k, j - 1, n);
        assert(succ(p, n) == ahead(k, j as int, n));
        assert(next_of(pool, s[p]) == Some(s[succ(p, n)]));
    }
}

proof fn lemma_walk_prev_pos<T>(pool: Map<usize, NodeImpl<T>>, s: Seq<usize>, k: int, j: nat)
    requires
        is_ring(pool, s),
        0 <= k < s.len(),
        j <= s.len(),
    ensures
        walk_prev(pool, s[k], j) == s[ahead(k, s.len() - j, s.len() as int)],
    decreases j,
{
    let n = s.len() as int;
    if j > 0 {
        lemma_walk_prev_pos(pool, s, k, (j - 1) as nat);
        let p = ahead(k, n - (j - 1), n);
        assert(pred(p, n) == ahead(k, n - j, n));
        assert(prev_of(pool, s[p]) == Some(s[pred(p, n)]));
    } else {
        assert(ahead(k, n, n) == k);
    }
}

/// Ring law: in a well-formed non-empty list, following next links from
/// any element exactly `len` times comes back to it, and so does following
/// previous links; `j` previous links lead where `len - j` next links lead,
/// so the backward walk is the forward walk reversed.
pub proof fn law_ring<T>(list: LinkedList, pool: Map<usize, NodeImpl<T>>, k: int)
    requires
        list.wf(pool),
        0 <= k < list@.len(),
    ensures
        walk_next(pool, list@[k], list@.len()) == list@[k],
        walk_prev(pool, list@[k], list@.len()) == list@[k],
        forall|j: nat|
            j <= list@.len() ==> #[trigger] walk_prev(pool, list@[k], j) == walk_next(
                pool,
                list@[k],
                (list@.len() - j) as nat,
            ),
{
    let s = list@;
    let n = s.len() as int;
    lemma_walk_next_pos(pool, s, k, n as nat);
    lemma_walk_prev_pos(pool, s, k, n as nat);
    assert forall|j: nat| j <= n implies #[trigger] walk_prev(pool, s[k], j) == walk_next(
        pool,
        s[k],
        (n - j) as nat,
    ) by {
        lemma_walk_prev_pos(pool, s, k, j);
        lemma_walk_next_pos(pool, s, k, (n - j) as nat);
    }
}

/// Length law: a full forward walk from the front of a well-formed list
/// meets exactly `len` distinct elements, its elements in order, before it
/// is back at the front.
pub proof fn law_length<T>(list: LinkedList, pool: Map<usize, NodeImpl<T>>)
    requires
        list.wf(pool),
        list@.len() > 0,
    ensures
        forall|j: nat| j < list@.len() ==> #[trigger] walk_next(pool, list@[0], j) == list@[j as int],
        forall|j: nat| 0 < j < list@.len() ==> #[trigger] walk_next(pool, list@[0], j) != list@[0],
        walk_next(pool, list@[0], list@.len()) == list@[0],
{
    let s = list@;
    let n = s.len() as int;
    assert forall|j: nat| j < n implies #[trigger] walk_next(pool, s[0], j) == s[j as int] by {
        lemma_walk_next_pos(pool, s, 0, j);
    }
    assert forall|j: nat| 0 < j < n implies #[trigger] walk_next(pool, s[0], j) != s[0] by {
        lemma_walk_next_pos(pool, s, 0, j);
    }
    lemma_walk_next_pos(pool, s, 0, n as nat);
}

/// Push/pop law: `pop_front` right after `push_front(x)` returns `x` and
/// leaves the elements as they were (an empty list stays empty); the same
/// holds of `pop_back` after `push_back(x)`.
pub proof fn law_push_pop(s: Seq<usize>, x: usize)
    ensures
        (seq![x] + s)[0] == x,
        (seq![x] + s).drop_first() == s,
        s.push(x).last() == x,
        s.push(x).drop_last() == s,
{
    assert((seq![x] + s).drop_first() =~= s);
    assert(s.push(x).drop_last() =~= s);
}

/// Queue and stack law: after `push_back` of `a`, `b`, `c` on an empty
/// list, `pop_front` yields `a`, `b`, `c` and `pop_back` yields `c`, `b`, `a`.
pub proof fn law_fifo_lifo(a: usize, b: usize, c: usize)
    ensures
        ({
            let t = Seq::<usize>::empty().push(a).push(b).push(c);
            &&& t[0] == a
            &&& t.drop_first()[0] == b
            &&& t.drop_first().drop_first()[0] == c
            &&& t.drop_first().drop_first().drop_first().len() == 0
            &&& t.last() == c
            &&& t.drop_last().last() == b
            &&& t.drop_last().drop_last().last() == a
            &&& t.drop_last().drop_last().drop_last().len() == 0
        }),
{
}

/// Two-ended iteration law: when `i` values were taken from the front and
/// `j` from the back, the iterator has `s[i .. len - j]` left; one more step
/// from either end takes the next value of that range and leaves the rest,
/// and when `i + j == len` nothing is left. So any mix of `next` and
/// `next_back` yields every value exactly once: the front part in order,
/// the back part in reverse.
pub proof fn law_two_ended(s: Seq<usize>, i: int, j: int)
    requires
        0 <= i,
        0 <= j,
        i + j <= s.len(),
    ensures
        s.subrange(0, i) + s.subrange(i, s.len() - j) + s.subrange(s.len() - j, s.len() as int) == s,
        i + j < s.len() ==> {
            &&& s.subrange(i, s.len() - j)[0] == s[i]
            &&& s.subrange(i, s.len() - j).drop_first() == s.subrange(i + 1, s.len() - j)
            &&& s.subrange(i, s.len() - j).last() == s[s.len() - j - 1]
            &&& s.subrange(i, s.len() - j).drop_last() == s.subrange(i, s.len() - j - 1)
        },
        i + j == s.len() ==> s.subrange(i, s.len() - j).len() == 0,
{
    let n = s.len() as int;
    assert(s.subrange(0, i) + s.subrange(i, n - j) + s.subrange(n - j, n) =~= s);
    if i + j < n {
        assert(s.subrange(i, n - j).drop_first() =~= s.subrange(i + 1, n - j));
        assert(s.subrange(i, n - j).drop_last() =~= s.subrange(i, n - j - 1));
    }
}

/// Split/append law: the two lists that `split_off(at)` leaves hold
/// disjoint elements, as `append` asks, and appending the second to the
/// first gives back the original sequence and length.
pub proof fn law_split_append<T>(list: LinkedList, pool: Map<usize, NodeImpl<T>>, at: int)
    requires
        list.wf(pool),
        0 <= at <= list@.len(),
    ensures
        list@.subrange(0, at).disjoint(list@.subrange(at, list@.len() as int)),
        list@.subrange(0, at) + list@.subrange(at, list@.len() as int) == list@,
        at + (list@.len() - at) == list@.len(),
{
    let s = list@;
    let n = s.len() as int;
    assert(s.subrange(0, at) + s.subrange(at, n) =~= s);
    assert forall|i: int, j: int|
        #![trigger s.subrange(0, at)[i], s.subrange(at, n)[j]]
        0 <= i < at && 0 <= j < n - at implies s.subrange(0, at)[i] != s.subrange(at, n)[j] by {
        assert(s.subrange(0, at)[i] == s[i]);
        assert(s.subrange(at, n)[j] == s[at + j]);
    }
}

/// Double-insert law: every element of a well-formed list is linked, so
/// it fails the "in no list" condition that `push_front`, `push_back`,
/// `insert_when`, `insert_next` and `Pool::remove` ask for; linking it a
/// second time, or dropping it from the pool while linked, is refused.
pub proof fn law_member_is_linked<T>(list: LinkedList, pool: Map<usize, NodeImpl<T>>, x: usize)
    requires
        list.wf(pool),
        list@.contains(x),
    ensures
        pool.contains_key(x),
        !pool[x].link.unlinked(),
{
    crate::ring::lemma_ring_members_linked(pool, list@, x);
}

} // verus!
