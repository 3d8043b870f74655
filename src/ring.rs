//! Rings of links through a pool, and how relinking a few of them keeps or
//! changes a ring.
use vstd::prelude::*;

use crate::node::NodeImpl;

verus! {

/// The position after `k` in a ring of `n` positions.
pub open spec fn succ(k: int, n: int) -> int {
    if k + 1 == n {
        0
    } else {
        k + 1
    }
}

/// The position before `k` in a ring of `n` positions.
pub open spec fn pred(k: int, n: int) -> int {
    if k == 0 {
        n - 1
    } else {
        k - 1
    }
}

/// The next link of the element in slot `i`.
pub open spec fn next_of<T>(pool: Map<usize, NodeImpl<T>>, i: usize) -> Option<usize> {
    pool[i].link.next_view()
}

/// The previous link of the element in slot `i`.
pub open spec fn prev_of<T>(pool: Map<usize, NodeImpl<T>>, i: usize) -> Option<usize> {
    pool[i].link.prev_view()
}

/// The slots `s` are distinct and occupied, and each links to its
/// neighbours in `s`, the last back round to the first.
pub open spec fn is_ring<T>(pool: Map<usize, NodeImpl<T>>, s: Seq<usize>) -> bool {
    &&& s.no_duplicates()
    &&& forall|k: int| 0 <= k < s.len() ==> pool.contains_key(#[trigger] s[k])
    &&& forall|k: int|
        #![trigger pool[s[k]]]
        0 <= k < s.len() ==> {
            &&& next_of(pool, s[k]) == Some(s[succ(k, s.len() as int)])
            &&& prev_of(pool, s[k]) == Some(s[pred(k, s.len() as int)])
        }
}

/// The links of slot `i` are the same in both pools.
pub open spec fn same_links<T>(a: Map<usize, NodeImpl<T>>, b: Map<usize, NodeImpl<T>>, i: usize) -> bool {
    &&& next_of(a, i) == next_of(b, i)
    &&& prev_of(a, i) == prev_of(b, i)
}

/// `b` differs from `a` at most in the links of the slots in `s`.
pub open spec fn relinked_within<T>(
    a: Map<usize, NodeImpl<T>>,
    b: Map<usize, NodeImpl<T>>,
    s: Set<usize>,
) -> bool {
    &&& b.dom() == a.dom()
    &&& forall|j: usize| #[trigger] b.contains_key(j) ==> b[j].val == a[j].val
    &&& forall|j: usize| b.contains_key(j) && !s.contains(j) ==> #[trigger] b[j] == a[j]
}

/// A ring whose slots kept their links is still a ring.
pub proof fn lemma_ring_frame<T>(a: Map<usize, NodeImpl<T>>, b: Map<usize, NodeImpl<T>>, s: Seq<usize>)
    requires
        is_ring(a, s),
        forall|k: int| 0 <= k < s.len() ==> b.contains_key(#[trigger] s[k]) && same_links(a, b, s[k]),
    ensures
        is_ring(b, s),
{
}

/// Splicing `x` in between positions `k - 1` and `k` of a ring.
#[verifier::rlimit(60)]
pub proof fn lemma_ring_insert<T>(
    a: Map<usize, NodeImpl<T>>,
    b: Map<usize, NodeImpl<T>>,
    s: Seq<usize>,
    k: int,
    x: usize,
)
    requires
        is_ring(a, s),
        s.len() >= 1,
        0 <= k <= s.len(),
        !s.contains(x),
        b.contains_key(x),
        forall|j: int| 0 <= j < s.len() ==> b.contains_key(#[trigger] s[j]),
        ({
            let n = s.len() as int;
            let p = if k == 0 { s[n - 1] } else { s[k - 1] };
            let q = if k == n { s[0] } else { s[k] };
            &&& next_of(b, x) == Some(q)
            &&& prev_of(b, x) == Some(p)
            &&& next_of(b, p) == Some(x)
            &&& prev_of(b, q) == Some(x)
            &&& p != q ==> prev_of(b, p) == prev_of(a, p) && next_of(b, q) == next_of(a, q)
            &&& forall|j: int| 0 <= j < n && s[j] != p && s[j] != q ==> same_links(a, b, #[trigger] s[j])
        }),
    ensures
        is_ring(b, s.insert(k, x)),
{
    let n = s.len() as int;
    let t = s.insert(k, x);
    let p = if k == 0 { s[n - 1] } else { s[k - 1] };
    let q = if k == n { s[0] } else { s[k] };
    assert(t.len() == n + 1);
    assert forall|j: int| 0 <= j < t.len() implies {
        &&& b.contains_key(t[j])
        &&& next_of(b, t[j]) == Some(t[succ(j, t.len() as int)])
        &&& prev_of(b, t[j]) == Some(t[pred(j, t.len() as int)])
    } by {
        if j < k {
            assert(t[j] == s[j]);
            assert(s[j] != x);
        } else if j == k {
            assert(t[j] == x);
            if k == 0 {
                assert(t[pred(j, n + 1)] == s[n - 1]);
            }
            if k == n {
                assert(t[succ(j, n + 1)] == s[0]);
            }
        } else {
            assert(t[j] == s[j - 1]);
        }
        if j < k {
            if s[j] == p {
                assert(j == k - 1);
            }
            if s[j] == q && s[j] != p {
                assert(k == n && j == 0);
                assert(t[pred(j, n + 1)] == t[n]);
                assert(s[pred(0, n)] == s[n - 1]);
            }
        } else if j > k {
            if s[j - 1] == q {
                assert(j - 1 == k);
            }
            if s[j - 1] == p && s[j - 1] != q {
                assert(k == 0 && j - 1 == n - 1);
                assert(t[succ(j, n + 1)] == t[0]);
            }
        }
    }
    assert forall|i: int, j: int| 0 <= i < j < t.len() implies t[i] != t[j] by {
        if i < k && j > k {
            assert(t[j] == s[j - 1]);
        }
    }
}

/// Taking the element at position `k` out of a ring of two or more.
#[verifier::rlimit(60)]
pub proof fn lemma_ring_remove<T>(a: Map<usize, NodeImpl<T>>, b: Map<usize, NodeImpl<T>>, s: Seq<usize>, k: int)
    requires
        is_ring(a, s),
        s.len() >= 2,
        0 <= k < s.len(),
        forall|j: int| 0 <= j < s.len() ==> b.contains_key(#[trigger] s[j]),
        ({
            let n = s.len() as int;
            let p = s[pred(k, n)];
            let q = s[succ(k, n)];
            &&& next_of(b, p) == Some(q)
            &&& prev_of(b, q) == Some(p)
            &&& p != q ==> prev_of(b, p) == prev_of(a, p) && next_of(b, q) == next_of(a, q)
            &&& forall|j: int| 0 <= j < n && s[j] != p && s[j] != q && j != k ==> same_links(a, b, #[trigger] s[j])
        }),
    ensures
        is_ring(b, s.remove(k)),
{
    let n = s.len() as int;
    let t = s.remove(k);
    let p = s[pred(k, n)];
    let q = s[succ(k, n)];
    let m = n - 1;
    assert forall|j: int| 0 <= j < m implies next_of(b, #[trigger] t[j]) == Some(t[succ(j, m)]) by {
        let oj = if j < k { j } else { j + 1 };
        assert(t[j] == s[oj]);
        if oj == pred(k, n) {
            if k == 0 {
                assert(t[0] == s[1]);
            } else if k == m {
                assert(t[0] == s[0]);
            } else {
                assert(t[k] == s[k + 1]);
            }
        } else {
            assert(s[oj] != p);
            assert(next_of(b, s[oj]) == next_of(a, s[oj]));
            assert(next_of(a, s[oj]) == Some(s[succ(oj, n)]));
            let so = succ(oj, n);
            assert(so != k);
            if so == 0 {
                assert(t[succ(j, m)] == t[0]);
                if k == 0 {
                    assert(false);
                }
                assert(t[0] == s[0]);
            } else if so < k {
                assert(t[so] == s[so]);
            } else {
                assert(t[so - 1] == s[so]);
            }
        }
    }
    assert forall|j: int| 0 <= j < m implies prev_of(b, #[trigger] t[j]) == Some(t[pred(j, m)]) by {
        let oj = if j < k { j } else { j + 1 };
        assert(t[j] == s[oj]);
        if oj == succ(k, n) {
            if k == m {
                assert(t[m - 1] == s[m - 1]);
            } else if k == 0 {
                assert(t[m - 1] == s[n - 1]);
            } else {
                assert(t[k - 1] == s[k - 1]);
            }
        } else {
            assert(s[oj] != q);
            assert(prev_of(b, s[oj]) == prev_of(a, s[oj]));
            assert(prev_of(a, s[oj]) == Some(s[pred(oj, n)]));
            let po = pred(oj, n);
            assert(po != k);
            if po < k {
                assert(t[po] == s[po]);
            } else {
                assert(t[po - 1] == s[po]);
            }
        }
    }
    assert forall|j: int| 0 <= j < m implies b.contains_key(#[trigger] t[j]) by {
        let oj = if j < k { j } else { j + 1 };
        assert(t[j] == s[oj]);
    }
    assert forall|i: int, j: int| 0 <= i < j < t.len() implies t[i] != t[j] by {
        let oi = if i < k { i } else { i + 1 };
        let oj = if j < k { j } else { j + 1 };
        assert(t[i] == s[oi] && t[j] == s[oj]);
    }
}

/// Moving the head of a ring one step forward keeps it a ring.
pub proof fn lemma_ring_rotate_backward<T>(a: Map<usize, NodeImpl<T>>, s: Seq<usize>)
    requires
        is_ring(a, s),
        s.len() >= 1,
    ensures
        is_ring(a, s.drop_first().push(s[0])),
{
    let n = s.len() as int;
    let t = s.drop_first().push(s[0]);
    assert forall|j: int| 0 <= j < n implies #[trigger] t[j] == s[succ(j, n)] by {}
    assert forall|j: int| 0 <= j < n implies {
        &&& a.contains_key(#[trigger] t[j])
        &&& next_of(a, t[j]) == Some(t[succ(j, n)])
        &&& prev_of(a, t[j]) == Some(t[pred(j, n)])
    } by {
        assert(t[j] == s[succ(j, n)]);
        assert(t[succ(j, n)] == s[succ(succ(j, n), n)]);
        assert(t[pred(j, n)] == s[succ(pred(j, n), n)]);
    }
    assert forall|i: int, j: int| 0 <= i < j < n implies t[i] != t[j] by {
        assert(t[i] == s[succ(i, n)] && t[j] == s[succ(j, n)]);
    }
}

/// Moving the head of a ring one step backward keeps it a ring.
pub proof fn lemma_ring_rotate_forward<T>(a: Map<usize, NodeImpl<T>>, s: Seq<usize>)
    requires
        is_ring(a, s),
        s.len() >= 1,
    ensures
        is_ring(a, seq![s.last()] + s.drop_last()),
{
    let n = s.len() as int;
    let t = seq![s.last()] + s.drop_last();
    assert forall|j: int| 0 <= j < n implies #[trigger] t[j] == s[pred(j, n)] by {}
    assert forall|j: int| 0 <= j < n implies {
        &&& a.contains_key(#[trigger] t[j])
        &&& next_of(a, t[j]) == Some(t[succ(j, n)])
        &&& prev_of(a, t[j]) == Some(t[pred(j, n)])
    } by {
        assert(t[j] == s[pred(j, n)]);
        assert(t[succ(j, n)] == s[pred(succ(j, n), n)]);
        assert(t[pred(j, n)] == s[pred(pred(j, n), n)]);
    }
    assert forall|i: int, j: int| 0 <= i < j < n implies t[i] != t[j] by {
        assert(t[i] == s[pred(i, n)] && t[j] == s[pred(j, n)]);
    }
}

/// Joining two disjoint rings into one, `s` followed by `o`, by relinking
/// their ends.
#[verifier::rlimit(60)]
pub proof fn lemma_ring_join<T>(
    a: Map<usize, NodeImpl<T>>,
    b: Map<usize, NodeImpl<T>>,
    s: Seq<usize>,
    o: Seq<usize>,
)
    requires
        is_ring(a, s),
        is_ring(a, o),
        s.len() >= 1,
        o.len() >= 1,
        s.disjoint(o),
        ({
            let n = s.len() as int;
            let m = o.len() as int;
            &&& forall|j: int| 0 <= j < n ==> b.contains_key(#[trigger] s[j])
            &&& forall|j: int| 0 <= j < m ==> b.contains_key(#[trigger] o[j])
            &&& next_of(b, s[n - 1]) == Some(o[0])
            &&& prev_of(b, o[0]) == Some(s[n - 1])
            &&& next_of(b, o[m - 1]) == Some(s[0])
            &&& prev_of(b, s[0]) == Some(o[m - 1])
            &&& n > 1 ==> prev_of(b, s[n - 1]) == prev_of(a, s[n - 1]) && next_of(b, s[0]) == next_of(a, s[0])
            &&& m > 1 ==> prev_of(b, o[m - 1]) == prev_of(a, o[m - 1]) && next_of(b, o[0]) == next_of(a, o[0])
            &&& forall|j: int| 0 < j < n - 1 ==> same_links(a, b, #[trigger] s[j])
            &&& forall|j: int| 0 < j < m - 1 ==> same_links(a, b, #[trigger] o[j])
        }),
    ensures
        is_ring(b, s + o),
{
    let n = s.len() as int;
    let m = o.len() as int;
    let t = s + o;
    assert forall|j: int| 0 <= j < n + m implies {
        &&& b.contains_key(#[trigger] t[j])
        &&& next_of(b, t[j]) == Some(t[succ(j, n + m)])
        &&& prev_of(b, t[j]) == Some(t[pred(j, n + m)])
    } by {
        if j < n {
            assert(t[j] == s[j]);
            if j == n - 1 {
                assert(t[succ(j, n + m)] == o[0]);
            } else {
                assert(t[succ(j, n + m)] == s[j + 1]);
            }
            if j == 0 {
                assert(t[pred(j, n + m)] == o[m - 1]);
            } else {
                assert(t[pred(j, n + m)] == s[j - 1]);
            }
        } else {
            assert(t[j] == o[j - n]);
            if j == n + m - 1 {
                assert(t[succ(j, n + m)] == s[0]);
            } else {
                assert(t[succ(j, n + m)] == o[j - n + 1]);
            }
            if j == n {
                assert(t[pred(j, n + m)] == s[n - 1]);
            } else {
                assert(t[pred(j, n + m)] == o[j - n - 1]);
            }
        }
    }
    assert forall|i: int, j: int| 0 <= i < j < n + m implies t[i] != t[j] by {
        if i < n && j >= n {
            assert(t[i] == s[i] && t[j] == o[j - n]);
        } else if i < n {
            assert(t[i] == s[i] && t[j] == s[j]);
        } else {
            assert(t[i] == o[i - n] && t[j] == o[j - n]);
        }
    }
}

/// Cutting a ring into its first `at` slots and the rest, by relinking the
/// ends of both parts.
#[verifier::rlimit(60)]
pub proof fn lemma_ring_split<T>(a: Map<usize, NodeImpl<T>>, b: Map<usize, NodeImpl<T>>, s: Seq<usize>, at: int)
    requires
        is_ring(a, s),
        0 < at < s.len(),
        ({
            let n = s.len() as int;
            &&& forall|j: int| 0 <= j < n ==> b.contains_key(#[trigger] s[j])
            &&& next_of(b, s[at - 1]) == Some(s[0])
            &&& prev_of(b, s[0]) == Some(s[at - 1])
            &&& next_of(b, s[n - 1]) == Some(s[at])
            &&& prev_of(b, s[at]) == Some(s[n - 1])
            &&& at > 1 ==> prev_of(b, s[at - 1]) == prev_of(a, s[at - 1]) && next_of(b, s[0]) == next_of(a, s[0])
            &&& at < n - 1 ==> prev_of(b, s[n - 1]) == prev_of(a, s[n - 1]) && next_of(b, s[at]) == next_of(a, s[at])
            &&& forall|j: int| 0 < j < at - 1 ==> same_links(a, b, #[trigger] s[j])
            &&& forall|j: int| at < j < n - 1 ==> same_links(a, b, #[trigger] s[j])
        }),
    ensures
        is_ring(b, s.subrange(0, at)),
        is_ring(b, s.subrange(at, s.len() as int)),
{
    let n = s.len() as int;
    let l = s.subrange(0, at);
    let r = s.subrange(at, n);
    assert forall|j: int| 0 <= j < at implies {
        &&& b.contains_key(#[trigger] l[j])
        &&& next_of(b, l[j]) == Some(l[succ(j, at)])
        &&& prev_of(b, l[j]) == Some(l[pred(j, at)])
    } by {
        assert(l[j] == s[j]);
        assert(l[succ(j, at)] == s[succ(j, at)]);
        assert(l[pred(j, at)] == s[pred(j, at)]);
    }
    assert forall|j: int| 0 <= j < n - at implies {
        &&& b.contains_key(#[trigger] r[j])
        &&& next_of(b, r[j]) == Some(r[succ(j, n - at)])
        &&& prev_of(b, r[j]) == Some(r[pred(j, n - at)])
    } by {
        assert(r[j] == s[j + at]);
        assert(r[succ(j, n - at)] == s[succ(j, n - at) + at]);
        assert(r[pred(j, n - at)] == s[pred(j, n - at) + at]);
    }
    assert forall|i: int, j: int| 0 <= i < j < at implies l[i] != l[j] by {
        assert(l[i] == s[i] && l[j] == s[j]);
    }
    assert forall|i: int, j: int| 0 <= i < j < n - at implies r[i] != r[j] by {
        assert(r[i] == s[i + at] && r[j] == s[j + at]);
    }
}

/// Relinking within `s1` and then within `s2` relinks within both.
pub proof fn lemma_relinked_trans<T>(
    a: Map<usize, NodeImpl<T>>,
    b: Map<usize, NodeImpl<T>>,
    c: Map<usize, NodeImpl<T>>,
    s1: Set<usize>,
    s2: Set<usize>,
)
    requires
        relinked_within(a, b, s1),
        relinked_within(b, c, s2),
    ensures
        relinked_within(a, c, s1.union(s2)),
{
    assert forall|j: usize| c.contains_key(j) implies #[trigger] c[j].val == a[j].val by {
        assert(b.contains_key(j));
    }
    assert forall|j: usize| c.contains_key(j) && !s1.union(s2).contains(j) implies #[trigger] c[j] == a[j] by {
        assert(b.contains_key(j));
        assert(b[j] == a[j]);
    }
}

/// A relinking within a set also relinks within any larger set.
pub proof fn lemma_relinked_grow<T>(a: Map<usize, NodeImpl<T>>, b: Map<usize, NodeImpl<T>>, s1: Set<usize>, s2: Set<usize>)
    requires
        relinked_within(a, b, s1),
        s1.subset_of(s2),
    ensures
        relinked_within(a, b, s2),
{
}

/// Every slot of a ring is linked.
pub proof fn lemma_ring_members_linked<T>(pool: Map<usize, NodeImpl<T>>, s: Seq<usize>, x: usize)
    requires
        is_ring(pool, s),
        s.contains(x),
    ensures
        pool.contains_key(x),
        next_of(pool, x) is Some,
        prev_of(pool, x) is Some,
{
    let k = choose|k: int| 0 <= k < s.len() && s[k] == x;
    assert(s[k] == x);
}

/// Changing the links of one slot relinks within that slot.
pub proof fn lemma_relinked_one<T>(a: Map<usize, NodeImpl<T>>, b: Map<usize, NodeImpl<T>>, i: usize)
    requires
        a.contains_key(i),
        b == a.insert(i, b[i]),
        b[i].val == a[i].val,
    ensures
        relinked_within(a, b, set![i]),
{
    assert(b.dom() =~= a.dom());
}

} // verus!
