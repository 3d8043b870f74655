use intrusive_containers::{LinkedList, NodeImpl, Pool};
use std::cmp::Ordering::{Equal, Greater, Less};

fn push_front_val(l: &mut LinkedList, pool: &mut Pool<i32>, v: i32) -> usize {
    let x = pool.insert(NodeImpl::new(v));
    l.push_front(pool, x);
    x
}

fn push_back_val(l: &mut LinkedList, pool: &mut Pool<i32>, v: i32) -> usize {
    let x = pool.insert(NodeImpl::new(v));
    l.push_back(pool, x);
    x
}

fn pop_front_val(l: &mut LinkedList, pool: &mut Pool<i32>) -> Option<i32> {
    l.pop_front(pool).map(|x| pool.remove(x).into_val())
}

fn pop_back_val(l: &mut LinkedList, pool: &mut Pool<i32>) -> Option<i32> {
    l.pop_back(pool).map(|x| pool.remove(x).into_val())
}

fn list_from(pool: &mut Pool<i32>, vals: &[i32]) -> LinkedList {
    let mut l = LinkedList::new();
    for v in vals {
        push_back_val(&mut l, pool, *v);
    }
    l
}

fn generate_test(pool: &mut Pool<i32>) -> LinkedList {
    list_from(pool, &[0, 1, 2, 3, 4, 5, 6])
}

fn drain_values(l: LinkedList, pool: &mut Pool<i32>) -> Vec<i32> {
    let mut out = Vec::new();
    let mut it = l.into_iter(pool);
    while let Some(e) = it.next() {
        out.push(e.into_val());
    }
    out
}

fn check_links(list: &LinkedList, pool: &Pool<i32>) {
    let head = match list.front_link().resolve() {
        None => {
            assert_eq!(0, list.len());
            return;
        }
        Some(h) => h,
    };
    let mut len = 0;
    let mut prev = pool.get(head).get_links().get_prev().resolve().unwrap();
    let mut link = head;
    loop {
        match pool.get(link).get_links().get_prev().resolve() {
            None => panic!("unset prev link"),
            Some(p) => assert_eq!(prev, p),
        }
        match pool.get(link).get_links().get_next().resolve() {
            None => panic!("unset next link"),
            Some(next) => {
                len += 1;
                if next == head {
                    break;
                }
                prev = link;
                link = next;
            }
        }
    }
    assert_eq!(len, list.len());
}

#[test]
fn linked_list_test_basic() {
    let mut pool = Pool::new();
    let mut m = LinkedList::new();

    assert_eq!(pop_front_val(&mut m, &mut pool), None);
    assert_eq!(pop_back_val(&mut m, &mut pool), None);
    assert_eq!(pop_front_val(&mut m, &mut pool), None);
    push_front_val(&mut m, &mut pool, 1);
    assert_eq!(pop_front_val(&mut m, &mut pool), Some(1));
    push_back_val(&mut m, &mut pool, 2);
    push_back_val(&mut m, &mut pool, 3);
    assert_eq!(m.len(), 2);
    assert_eq!(pop_front_val(&mut m, &mut pool), Some(2));
    assert_eq!(pop_front_val(&mut m, &mut pool), Some(3));
    assert_eq!(m.len(), 0);
    assert_eq!(pop_front_val(&mut m, &mut pool), None);
    push_back_val(&mut m, &mut pool, 1);
    push_back_val(&mut m, &mut pool, 3);
    push_back_val(&mut m, &mut pool, 5);
    push_back_val(&mut m, &mut pool, 7);
    assert_eq!(pop_front_val(&mut m, &mut pool), Some(1));

    let mut n = LinkedList::new();
    push_front_val(&mut n, &mut pool, 2);
    push_front_val(&mut n, &mut pool, 3);
    {
        assert_eq!(n.front(&pool).unwrap(), &3);
        let x = n.front_mut(&mut pool).unwrap();
        assert_eq!(x, &mut 3);
        *x = 0;
    }
    {
        assert_eq!(n.back(&pool).unwrap(), &2);
        let y = n.back_mut(&mut pool).unwrap();
        assert_eq!(y, &mut 2);
        *y = 1;
    }
    assert_eq!(pop_front_val(&mut n, &mut pool), Some(0));
    assert_eq!(pop_front_val(&mut n, &mut pool), Some(1));
}

#[test]
fn test_clone() {
    let mut pool = Pool::new();
    let n = generate_test(&mut pool);
    let m = n.clone_in(&mut pool);
    check_links(&n, &pool);
    check_links(&m, &pool);
    assert!(m.values_eq(&n, &pool));
    assert_ne!(m.front_link().resolve(), n.front_link().resolve());
}

#[test]
fn test_mut_ref() {
    let mut pool = Pool::new();
    let m = pool.insert(NodeImpl::new(0));
    let mut n = LinkedList::new();
    n.push_front(&mut pool, m);
    assert_eq!(n.len(), 1);
}

#[test]
fn linked_list_test_append() {
    // Empty to empty
    {
        let mut pool: Pool<i32> = Pool::new();
        let mut m = LinkedList::new();
        let mut n = LinkedList::new();
        m.append(&mut n, &mut pool);
        check_links(&m, &pool);
        assert_eq!(m.len(), 0);
        assert_eq!(n.len(), 0);
    }
    // Non-empty to empty
    {
        let mut pool = Pool::new();
        let mut m = LinkedList::new();
        let mut n = LinkedList::new();
        push_back_val(&mut n, &mut pool, 2);
        m.append(&mut n, &mut pool);
        check_links(&m, &pool);
        assert_eq!(m.len(), 1);
        assert_eq!(pop_back_val(&mut m, &mut pool), Some(2));
        assert_eq!(n.len(), 0);
        check_links(&m, &pool);
    }
    // Empty to non-empty
    {
        let mut pool = Pool::new();
        let mut m = LinkedList::new();
        let mut n = LinkedList::new();
        push_back_val(&mut m, &mut pool, 2);
        m.append(&mut n, &mut pool);
        check_links(&m, &pool);
        assert_eq!(m.len(), 1);
        assert_eq!(pop_back_val(&mut m, &mut pool), Some(2));
        check_links(&m, &pool);
    }

    // Non-empty to non-empty
    let mut pool = Pool::new();
    let v = vec![1, 2, 3, 4, 5];
    let u = vec![9, 8, 1, 2, 3, 4, 5];
    let mut m = list_from(&mut pool, &v);
    let mut n = list_from(&mut pool, &u);
    m.append(&mut n, &mut pool);
    check_links(&m, &pool);
    let mut sum = v;
    sum.extend_from_slice(&u);
    assert_eq!(sum.len(), m.len());
    for elt in sum {
        assert_eq!(pop_front_val(&mut m, &mut pool), Some(elt))
    }
    assert_eq!(n.len(), 0);
    // let's make sure it's working properly, since we
    // did some direct changes to private members
    push_back_val(&mut n, &mut pool, 3);
    assert_eq!(n.len(), 1);
    assert_eq!(pop_front_val(&mut n, &mut pool), Some(3));
    check_links(&n, &pool);
}

#[test]
fn test_split_off() {
    // singleton
    {
        let mut pool = Pool::new();
        let mut m = LinkedList::new();
        push_back_val(&mut m, &mut pool, 1);

        let p = m.split_off(0, &mut pool);
        assert_eq!(m.len(), 0);
        assert_eq!(p.len(), 1);
        assert_eq!(p.back(&pool).unwrap(), &1);
        assert_eq!(p.front(&pool).unwrap(), &1);
    }

    // not singleton, forwards
    {
        let mut pool = Pool::new();
        let mut m = list_from(&mut pool, &[1, 2, 3, 4, 5]);
        let mut n = m.split_off(2, &mut pool);
        assert_eq!(m.len(), 2);
        assert_eq!(n.len(), 3);
        for elt in 1..3 {
            assert_eq!(pop_front_val(&mut m, &mut pool), Some(elt));
        }
        for elt in 3..6 {
            assert_eq!(pop_front_val(&mut n, &mut pool), Some(elt));
        }
    }
    // not singleton, backwards
    {
        let mut pool = Pool::new();
        let mut m = list_from(&mut pool, &[1, 2, 3, 4, 5]);
        let mut n = m.split_off(4, &mut pool);
        assert_eq!(m.len(), 4);
        assert_eq!(n.len(), 1);
        for elt in 1..5 {
            assert_eq!(pop_front_val(&mut m, &mut pool), Some(elt));
        }
        for elt in 5..6 {
            assert_eq!(pop_front_val(&mut n, &mut pool), Some(elt));
        }
    }

    // no-op on the last index
    {
        let mut pool = Pool::new();
        let mut m = LinkedList::new();
        push_back_val(&mut m, &mut pool, 1);

        let p = m.split_off(1, &mut pool);
        assert_eq!(m.len(), 1);
        assert_eq!(p.len(), 0);
        assert_eq!(m.back(&pool).unwrap(), &1);
        assert_eq!(m.front(&pool).unwrap(), &1);
    }
}

#[test]
fn linked_list_test_iterator() {
    let mut pool = Pool::new();
    let m = generate_test(&mut pool);
    let mut it = m.iter(&pool);
    let mut i = 0;
    while let Some(elt) = it.next() {
        assert_eq!(i as i32, *elt);
        i += 1;
    }
    assert_eq!(i, 7);
    let mut n = LinkedList::new();
    assert_eq!(n.iter(&pool).next(), None);
    push_front_val(&mut n, &mut pool, 4);
    let mut it = n.iter(&pool);
    assert_eq!(it.size_hint(), (1, Some(1)));
    assert_eq!(it.next().unwrap(), &4);
    assert_eq!(it.size_hint(), (0, Some(0)));
    assert_eq!(it.next(), None);
}

#[test]
fn linked_list_test_iterator_clone() {
    let mut pool = Pool::new();
    let mut n = LinkedList::new();
    push_back_val(&mut n, &mut pool, 2);
    push_back_val(&mut n, &mut pool, 3);
    push_back_val(&mut n, &mut pool, 4);
    let mut it = n.iter(&pool);
    it.next();
    let mut jt = it.clone();
    assert_eq!(it.next(), jt.next());
    assert_eq!(it.next_back(), jt.next_back());
    assert_eq!(it.next(), jt.next());
}

#[test]
fn linked_list_test_iterator_double_end() {
    let mut pool = Pool::new();
    let mut n = LinkedList::new();
    assert_eq!(n.iter(&pool).next(), None);
    push_front_val(&mut n, &mut pool, 4);
    push_front_val(&mut n, &mut pool, 5);
    push_front_val(&mut n, &mut pool, 6);
    let mut it = n.iter(&pool);
    assert_eq!(it.size_hint(), (3, Some(3)));
    assert_eq!(it.next().unwrap(), &6);
    assert_eq!(it.size_hint(), (2, Some(2)));
    assert_eq!(it.next_back().unwrap(), &4);
    assert_eq!(it.size_hint(), (1, Some(1)));
    assert_eq!(it.next_back().unwrap(), &5);
    assert_eq!(it.next_back(), None);
    assert_eq!(it.next(), None);
}

#[test]
fn linked_list_test_rev_iter() {
    let mut pool = Pool::new();
    let m = generate_test(&mut pool);
    let mut it = m.iter(&pool);
    let mut i = 0;
    while let Some(elt) = it.next_back() {
        assert_eq!((6 - i) as i32, *elt);
        i += 1;
    }
    assert_eq!(i, 7);
    let mut n = LinkedList::new();
    assert_eq!(n.iter(&pool).next_back(), None);
    push_front_val(&mut n, &mut pool, 4);
    let mut it = n.iter(&pool);
    assert_eq!(it.size_hint(), (1, Some(1)));
    assert_eq!(it.next_back().unwrap(), &4);
    assert_eq!(it.size_hint(), (0, Some(0)));
    assert_eq!(it.next_back(), None);
}

#[test]
fn linked_list_test_mut_iter() {
    let mut pool = Pool::new();
    let mut m = generate_test(&mut pool);
    let mut len = m.len();
    {
        let mut it = m.iter_mut(&mut pool);
        let mut i = 0;
        while let Some(elt) = it.next() {
            assert_eq!(i as i32, *elt);
            len -= 1;
            i += 1;
        }
    }
    assert_eq!(len, 0);
    let mut n = LinkedList::new();
    assert!(n.iter_mut(&mut pool).next().is_none());
    push_front_val(&mut n, &mut pool, 4);
    push_back_val(&mut n, &mut pool, 5);
    let mut it = n.iter_mut(&mut pool);
    assert_eq!(it.size_hint(), (2, Some(2)));
    assert!(it.next().is_some());
    assert!(it.next().is_some());
    assert_eq!(it.size_hint(), (0, Some(0)));
    assert!(it.next().is_none());
}

#[test]
fn linked_list_test_iterator_mut_double_end() {
    let mut pool = Pool::new();
    let mut n = LinkedList::new();
    assert!(n.iter_mut(&mut pool).next_back().is_none());
    push_front_val(&mut n, &mut pool, 4);
    push_front_val(&mut n, &mut pool, 5);
    push_front_val(&mut n, &mut pool, 6);
    let mut it = n.iter_mut(&mut pool);
    assert_eq!(it.size_hint(), (3, Some(3)));
    assert_eq!(*it.next().unwrap(), 6);
    assert_eq!(it.size_hint(), (2, Some(2)));
    assert_eq!(*it.next_back().unwrap(), 4);
    assert_eq!(it.size_hint(), (1, Some(1)));
    assert_eq!(*it.next_back().unwrap(), 5);
    assert!(it.next_back().is_none());
    assert!(it.next().is_none());
}

#[test]
fn test_insert_next() {
    let mut pool = Pool::new();
    let mut m = list_from(&mut pool, &[0, 2, 4, 6, 8]);
    let len = m.len();
    {
        let mut it = m.iter_mut(&mut pool);
        it.insert_next(NodeImpl::new(-2));
        loop {
            match it.next() {
                None => break,
                Some(elt) => {
                    let e = *elt;
                    it.insert_next(NodeImpl::new(e + 1));
                    match it.peek_next() {
                        Some(x) => assert_eq!(*x, e + 2),
                        None => assert_eq!(8, e),
                    }
                }
            }
        }
        it.insert_next(NodeImpl::new(0));
        it.insert_next(NodeImpl::new(1));
    }
    check_links(&m, &pool);
    assert_eq!(m.len(), 3 + len * 2);
    assert_eq!(drain_values(m, &mut pool), vec![-2, 0, 1, 2, 3, 4, 5, 6, 7, 8, 9, 0, 1]);
}

#[test]
fn test_mut_rev_iter() {
    let mut pool = Pool::new();
    let mut m = generate_test(&mut pool);
    {
        let mut it = m.iter_mut(&mut pool);
        let mut i = 0;
        while let Some(elt) = it.next_back() {
            assert_eq!((6 - i) as i32, *elt);
            i += 1;
        }
    }
    let mut n = LinkedList::new();
    assert!(n.iter_mut(&mut pool).next_back().is_none());
    push_front_val(&mut n, &mut pool, 4);
    let mut it = n.iter_mut(&mut pool);
    assert!(it.next_back().is_some());
    assert!(it.next_back().is_none());
}

#[test]
fn test_eq() {
    let mut pool = Pool::new();
    let mut n = list_from(&mut pool, &[]);
    let mut m = list_from(&mut pool, &[]);
    assert!(n.values_eq(&m, &pool));
    push_front_val(&mut n, &mut pool, 1);
    assert!(!n.values_eq(&m, &pool));
    push_back_val(&mut m, &mut pool, 1);
    assert!(n.values_eq(&m, &pool));

    let n = list_from(&mut pool, &[2, 3, 4]);
    let m = list_from(&mut pool, &[1, 2, 3]);
    assert!(!n.values_eq(&m, &pool));
}

#[test]
fn test_ord() {
    let mut pool = Pool::new();
    let n = list_from(&mut pool, &[]);
    let m = list_from(&mut pool, &[1, 2, 3]);
    assert!(n.values_cmp(&m, &pool) == Some(Less));
    assert!(m.values_cmp(&n, &pool) == Some(Greater));
    assert!(matches!(n.values_cmp(&n, &pool), Some(Less | Equal)));
    assert!(matches!(n.values_cmp(&n, &pool), Some(Greater | Equal)));
}

#[test]
fn test_fuzz() {
    for _ in 0..25 {
        fuzz_test(3);
        fuzz_test(16);
        fuzz_test(189);
    }
}

fn fuzz_test(sz: i32) {
    let mut pool = Pool::new();
    let mut m = LinkedList::new();
    let mut v = vec![];
    for i in 0..sz {
        check_links(&m, &pool);
        let r: u8 = rand::random();
        match r % 6 {
            0 => {
                pop_back_val(&mut m, &mut pool);
                v.pop();
            }
            1 => {
                if !v.is_empty() {
                    pop_front_val(&mut m, &mut pool);
                    v.remove(0);
                }
            }
            2 | 4 => {
                push_front_val(&mut m, &mut pool, -i);
                v.insert(0, -i);
            }
            _ => {
                push_back_val(&mut m, &mut pool, i);
                v.push(i);
            }
        }
    }

    check_links(&m, &pool);

    let got = drain_values(m, &mut pool);
    let mut i = 0;
    for (a, b) in got.iter().zip(v.iter()) {
        i += 1;
        assert_eq!(a, b);
    }
    assert_eq!(i, v.len());
}
