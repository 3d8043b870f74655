//! Equality and ordering of lists, element by element in list order.
use vstd::prelude::*;
use vstd::std_specs::cmp::{PartialEqSpec, PartialOrdSpec};

use crate::linked_list::{values_of, LinkedList};
use crate::pool::Pool;

verus! {

/// Two sequences have the same length and equal values position by
/// position.
pub open spec fn seq_eq<T: PartialEq>(a: Seq<T>, b: Seq<T>) -> bool {
    &&& a.len() == b.len()
    &&& forall|i: int| 0 <= i < a.len() ==> (#[trigger] a[i]).eq_spec(&b[i])
}

/// Lexicographic comparison: the first unequal pair decides, and a proper
/// prefix comes first.
pub open spec fn lex_cmp<T: PartialOrd>(a: Seq<T>, b: Seq<T>) -> Option<core::cmp::Ordering>
    decreases a.len(),
{
    if a.len() == 0 {
        if b.len() == 0 {
            Some(core::cmp::Ordering::Equal)
        } else {
            Some(core::cmp::Ordering::Less)
        }
    } else if b.len() == 0 {
        Some(core::cmp::Ordering::Greater)
    } else {
        match a[0].partial_cmp_spec(&b[0]) {
            Some(core::cmp::Ordering::Equal) => lex_cmp(a.drop_first(), b.drop_first()),
            o => o,
        }
    }
}

impl LinkedList {
    /// Whether the two lists hold equal values in the same order.
    pub fn values_eq<T: PartialEq>(&self, other: &LinkedList, pool: &Pool<T>) -> (r: bool)
        requires
            self.wf(pool@),
            other.wf(pool@),
        ensures
            T::obeys_eq_spec() ==> r == seq_eq(values_of(pool@, self@), values_of(pool@, other@)),
    {
        if self.len() != other.len() {
            return false;
        }
        let ghost va = values_of(pool@, self@);
        let ghost vb = values_of(pool@, other@);
        let mut a = self.iter(pool);
        let mut b = other.iter(pool);
        let mut i: usize = 0;
        let n = self.len();
        while i < n
            invariant
                a.wf(),
                b.wf(),
                a.pool_view() == pool@,
                b.pool_view() == pool@,
                va == values_of(pool@, self@),
                vb == values_of(pool@, other@),
                n == va.len(),
                va.len() == vb.len(),
                i <= n,
                a.rest_values() == va.subrange(i as int, n as int),
                b.rest_values() == vb.subrange(i as int, n as int),
                a.rest().len() == n - i,
                b.rest().len() == n - i,
                T::obeys_eq_spec() ==> forall|j: int| 0 <= j < i ==> (#[trigger] va[j]).eq_spec(&vb[j]),
            decreases n - i,
        {
            let x = match a.next() {
                Some(x) => x,
                None => unreached(),
            };
            let y = match b.next() {
                Some(y) => y,
                None => unreached(),
            };
            proof {
                assert(va[i as int] == *x);
                assert(vb[i as int] == *y);
                assert(a.rest_values() =~= va.subrange(i + 1, n as int));
                assert(b.rest_values() =~= vb.subrange(i + 1, n as int));
                assert(va.subrange(i as int, n as int)[0] == va[i as int]);
                assert(vb.subrange(i as int, n as int)[0] == vb[i as int]);
            }
            if !x.eq(y) {
                proof {
                    if T::obeys_eq_spec() {
                        assert(!va[i as int].eq_spec(&vb[i as int]));
                    }
                }
                return false;
            }
            i = i + 1;
        }
        true
    }

    /// Compares the values of the two lists lexicographically.
    pub fn values_cmp<T: PartialOrd>(&self, other: &LinkedList, pool: &Pool<T>) -> (r: Option<
        core::cmp::Ordering,
    >)
        requires
            self.wf(pool@),
            other.wf(pool@),
        ensures
            T::obeys_partial_cmp_spec() ==> r == lex_cmp(values_of(pool@, self@), values_of(pool@, other@)),
    {
        let ghost whole = lex_cmp(values_of(pool@, self@), values_of(pool@, other@));
        let mut a = self.iter(pool);
        let mut b = other.iter(pool);
        loop
            invariant
                a.wf(),
                b.wf(),
                a.pool_view() == pool@,
                b.pool_view() == pool@,
                whole == lex_cmp(values_of(pool@, self@), values_of(pool@, other@)),
                T::obeys_partial_cmp_spec() ==> whole == lex_cmp(a.rest_values(), b.rest_values()),
            decreases a.rest().len(),
        {
            let ghost va = a.rest_values();
            let ghost vb = b.rest_values();
            let x = a.next();
            let y = b.next();
            match (x, y) {
                (None, None) => {
                    proof {
                        assert(va.len() == 0);
                        assert(vb.len() == 0);
                        assert(lex_cmp(va, vb) == Some(core::cmp::Ordering::Equal));
                    }
                    return Some(core::cmp::Ordering::Equal);
                },
                (None, Some(_)) => {
                    return Some(core::cmp::Ordering::Less);
                },
                (Some(_), None) => {
                    return Some(core::cmp::Ordering::Greater);
                },
                (Some(x), Some(y)) => {
                    match x.partial_cmp(y) {
                        Some(core::cmp::Ordering::Equal) => {},
                        o => {
                            proof {
                                assert(va[0] == *x);
                                assert(vb[0] == *y);
                                assert(T::obeys_partial_cmp_spec() ==> o == x.partial_cmp_spec(y));
                            }
                            return o;
                        },
                    }
                },
            }
        }
    }
}

} // verus!
