use intrusive_containers::{LinkedList, Links, NodeImpl, Pool, Rawlink};
use std::cmp::Ordering;

fn add(pool: &mut Pool<i32>, v: i32) -> usize {
    pool.insert(NodeImpl::new(v))
}

fn list_of(pool: &mut Pool<i32>, vals: &[i32]) -> LinkedList {
    let mut l = LinkedList::new();
    for v in vals {
        let x = add(pool, *v);
        l.push_back(pool, x);
    }
    l
}

fn vals(l: &LinkedList, pool: &Pool<i32>) -> Vec<i32> {
    let mut out = Vec::new();
    let mut it = l.iter(pool);
    while let Some(v) = it.next() {
        out.push(*v);
    }
    out
}

fn next_slot(pool: &Pool<i32>, i: usize) -> usize {
    pool.get(i).get_links().get_next().resolve().unwrap()
}

fn prev_slot(pool: &Pool<i32>, i: usize) -> usize {
    pool.get(i).get_links().get_prev().resolve().unwrap()
}

#[test]
fn ring_walks_return_to_start() {
    let mut pool = Pool::new();
    let l = list_of(&mut pool, &[10, 20, 30, 40]);
    let n = l.len();
    let mut start = l.front_link().resolve().unwrap();
    for _ in 0..n {
        let mut fwd = vec![start];
        let mut cur = start;
        for _ in 0..n {
            cur = next_slot(&pool, cur);
            fwd.push(cur);
        }
        assert_eq!(cur, start);
        let mut back = vec![start];
        let mut cur = start;
        for _ in 0..n {
            cur = prev_slot(&pool, cur);
            back.push(cur);
        }
        assert_eq!(cur, start);
        fwd.reverse();
        assert_eq!(fwd, back);
        start = next_slot(&pool, start);
    }
}

#[test]
fn len_matches_forward_traversal() {
    let mut pool = Pool::new();
    let mut l = list_of(&mut pool, &[1, 2, 3]);
    let x = add(&mut pool, 0);
    l.push_front(&mut pool, x);
    l.pop_back(&mut pool);
    let mut other = list_of(&mut pool, &[7, 8]);
    l.append(&mut other, &mut pool);
    let mut count = 0;
    let mut it = l.iter(&pool);
    while it.next().is_some() {
        count += 1;
    }
    assert_eq!(count, l.len());
    assert_eq!(vals(&l, &pool), vec![0, 1, 2, 7, 8]);
}

#[test]
fn push_then_pop_gives_element_back() {
    let mut pool = Pool::new();
    let mut l = LinkedList::new();
    let x = add(&mut pool, 42);
    l.push_front(&mut pool, x);
    assert_eq!(l.pop_front(&mut pool), Some(x));
    assert!(l.is_empty());
    let y = add(&mut pool, 43);
    l.push_back(&mut pool, y);
    assert_eq!(l.pop_back(&mut pool), Some(y));
    assert_eq!(l.len(), 0);
    assert!(pool.get(x).get_links().is_unlinked());
    assert!(pool.get(y).get_links().is_unlinked());
}

#[test]
fn fifo_and_lifo_order() {
    let mut pool = Pool::new();
    let mut l = list_of(&mut pool, &[1, 2, 3]);
    let mut got = Vec::new();
    while let Some(x) = l.pop_front(&mut pool) {
        got.push(*pool.val(x));
    }
    assert_eq!(got, vec![1, 2, 3]);
    let mut l = list_of(&mut pool, &[1, 2, 3]);
    let mut got = Vec::new();
    while let Some(x) = l.pop_back(&mut pool) {
        got.push(*pool.val(x));
    }
    assert_eq!(got, vec![3, 2, 1]);
}

#[test]
fn append_keeps_order_and_empties_source() {
    let mut pool = Pool::new();
    let mut l = list_of(&mut pool, &[3, 4]);
    let mut r = list_of(&mut pool, &[1, 2]);
    l.append(&mut r, &mut pool);
    assert_eq!(vals(&l, &pool), vec![3, 4, 1, 2]);
    assert_eq!(r.len(), 0);
    assert_eq!(r.front_link().resolve(), None);
}

#[test]
fn split_then_append_restores() {
    for at in 0..=5 {
        let mut pool = Pool::new();
        let mut l = list_of(&mut pool, &[1, 2, 3, 4, 5]);
        let mut r = l.split_off(at, &mut pool);
        assert_eq!(l.len(), at);
        assert_eq!(r.len(), 5 - at);
        assert_eq!(vals(&l, &pool), (1..=at as i32).collect::<Vec<_>>());
        assert_eq!(vals(&r, &pool), (at as i32 + 1..=5).collect::<Vec<_>>());
        l.append(&mut r, &mut pool);
        assert_eq!(vals(&l, &pool), vec![1, 2, 3, 4, 5]);
        assert_eq!(l.len(), 5);
    }
}

#[test]
fn linked_elements_are_not_free() {
    let mut pool = Pool::new();
    let mut l = LinkedList::new();
    let x = add(&mut pool, 5);
    assert!(pool.get(x).get_links().is_unlinked());
    l.push_back(&mut pool, x);
    assert!(!pool.get(x).get_links().is_unlinked());
    l.pop_back(&mut pool);
    assert!(pool.get(x).get_links().is_unlinked());
    let e = pool.remove(x);
    assert_eq!(e.into_val(), 5);
    assert!(!pool.contains(x));
}

#[test]
fn double_ended_iteration_converges() {
    let mut pool = Pool::new();
    let l = list_of(&mut pool, &[0, 1, 2, 3, 4, 5, 6]);
    let mut it = l.iter(&pool);
    let mut seen = Vec::new();
    loop {
        match it.next() {
            Some(v) => seen.push(*v),
            None => break,
        }
        match it.next_back() {
            Some(v) => seen.push(*v),
            None => break,
        }
    }
    assert_eq!(seen, vec![0, 6, 1, 5, 2, 4, 3]);
    assert_eq!(it.next(), None);
    assert_eq!(it.next_back(), None);
}

#[test]
fn insert_next_lands_after_yielded_element() {
    let mut pool = Pool::new();
    let mut l = list_of(&mut pool, &[1, 2, 3]);
    let mut visited = Vec::new();
    {
        let mut it = l.iter_mut(&mut pool);
        while let Some(v) = it.next() {
            let e = *v;
            visited.push(e);
            if e == 1 {
                it.insert_next(NodeImpl::new(100));
            }
        }
    }
    assert_eq!(visited, vec![1, 2, 3]);
    assert_eq!(vals(&l, &pool), vec![1, 100, 2, 3]);
}

#[test]
fn insert_next_before_anything_yielded_goes_first() {
    let mut pool = Pool::new();
    let mut l = list_of(&mut pool, &[1, 2]);
    {
        let mut it = l.iter_mut(&mut pool);
        it.insert_next(NodeImpl::new(0));
        assert_eq!(it.size_hint(), (2, Some(2)));
        assert_eq!(*it.peek_next().unwrap(), 1);
    }
    assert_eq!(vals(&l, &pool), vec![0, 1, 2]);
    assert_eq!(l.front(&pool), Some(&0));
}

#[test]
fn iter_mut_changes_values() {
    let mut pool = Pool::new();
    let mut l = list_of(&mut pool, &[1, 2, 3]);
    {
        let mut it = l.iter_mut(&mut pool);
        while let Some(v) = it.next() {
            *v *= 10;
        }
    }
    assert_eq!(vals(&l, &pool), vec![10, 20, 30]);
}

#[test]
fn insert_when_places_before_first_match() {
    let mut pool = Pool::new();
    let mut l = list_of(&mut pool, &[1, 5, 9]);
    let x = add(&mut pool, 7);
    l.insert_when(&mut pool, x, |e: &i32, n: &i32| *e > *n);
    assert_eq!(vals(&l, &pool), vec![1, 5, 7, 9]);
    let y = add(&mut pool, 50);
    l.insert_when(&mut pool, y, |e: &i32, n: &i32| *e > *n);
    assert_eq!(vals(&l, &pool), vec![1, 5, 7, 9, 50]);
    let z = add(&mut pool, -1);
    l.insert_when(&mut pool, z, |e: &i32, n: &i32| *e > *n);
    assert_eq!(vals(&l, &pool), vec![-1, 1, 5, 7, 9, 50]);
    assert_eq!(l.front_link().resolve(), Some(z));
}

#[test]
fn insert_ordered_keeps_ascending_order() {
    let mut pool = Pool::new();
    let mut l = LinkedList::new();
    for v in [5, 1, 4, 1, 3, 9, 2] {
        let x = add(&mut pool, v);
        l.insert_ordered(&mut pool, x);
    }
    assert_eq!(vals(&l, &pool), vec![1, 1, 2, 3, 4, 5, 9]);
}

#[test]
fn insert_ordered_puts_equal_value_first() {
    let mut pool = Pool::new();
    let mut l = LinkedList::new();
    let a = add(&mut pool, 3);
    l.insert_ordered(&mut pool, a);
    let b = add(&mut pool, 3);
    l.insert_ordered(&mut pool, b);
    assert_eq!(l.front_link().resolve(), Some(b));
}

#[test]
fn remove_unlinks_a_middle_element() {
    let mut pool = Pool::new();
    let mut l = LinkedList::new();
    let a = add(&mut pool, 1);
    let b = add(&mut pool, 2);
    let c = add(&mut pool, 3);
    l.push_back(&mut pool, a);
    l.push_back(&mut pool, b);
    l.push_back(&mut pool, c);
    assert_eq!(l.remove(&mut pool, b), b);
    assert_eq!(vals(&l, &pool), vec![1, 3]);
    assert!(pool.get(b).get_links().is_unlinked());
    assert_eq!(l.remove(&mut pool, a), a);
    assert_eq!(l.front_link().resolve(), Some(c));
    assert_eq!(l.remove(&mut pool, c), c);
    assert!(l.is_empty());
}

#[test]
fn rotations_move_one_element() {
    let mut pool = Pool::new();
    let mut l = list_of(&mut pool, &[1, 2, 3, 4]);
    l.rotate_forward(&pool);
    assert_eq!(vals(&l, &pool), vec![4, 1, 2, 3]);
    l.rotate_backward(&pool);
    l.rotate_backward(&pool);
    assert_eq!(vals(&l, &pool), vec![2, 3, 4, 1]);
    let mut e = LinkedList::new();
    e.rotate_forward(&pool);
    e.rotate_backward(&pool);
    assert!(e.is_empty());
}

#[test]
fn prepend_puts_other_first() {
    let mut pool = Pool::new();
    let mut l = list_of(&mut pool, &[3, 4]);
    let mut o = list_of(&mut pool, &[1, 2]);
    l.prepend(&mut o, &mut pool);
    assert_eq!(vals(&l, &pool), vec![1, 2, 3, 4]);
    assert!(o.is_empty());
}

#[test]
fn clear_unlinks_every_element() {
    let mut pool = Pool::new();
    let mut l = LinkedList::new();
    let mut slots = Vec::new();
    for v in 0..4 {
        let x = add(&mut pool, v);
        l.push_back(&mut pool, x);
        slots.push(x);
    }
    l.clear(&mut pool);
    assert!(l.is_empty());
    for x in slots {
        assert!(pool.get(x).get_links().is_unlinked());
        assert_eq!(*pool.val(x), x as i32);
    }
}

#[test]
fn pool_reuses_freed_slots() {
    let mut pool = Pool::new();
    let a = add(&mut pool, 1);
    let b = add(&mut pool, 2);
    assert_ne!(a, b);
    assert!(pool.contains(a) && pool.contains(b));
    let e = pool.remove(a);
    assert_eq!(*e.get_val(), 1);
    assert!(!pool.contains(a));
    let c = add(&mut pool, 3);
    assert_eq!(c, a);
    assert_eq!(*pool.val(c), 3);
    *pool.val_mut(b) = 20;
    assert_eq!(*pool.val(b), 20);
    assert!(!pool.contains(99));
}

#[test]
fn rawlink_operations() {
    let n = Rawlink::none();
    assert!(n.is_none());
    assert!(!n.is_some());
    assert_eq!(n.resolve(), None);
    let mut s = Rawlink::some(7);
    assert!(s.is_some());
    assert_eq!(s.resolve(), Some(7));
    let t = s.take();
    assert_eq!(t.resolve(), Some(7));
    assert!(s.is_none());
    assert_eq!(Rawlink::default(), Rawlink::none());
}

#[test]
fn links_and_nodes_start_unlinked() {
    let l = Links::new();
    assert!(l.is_unlinked());
    assert_eq!(l.get_next().resolve(), None);
    assert_eq!(l.get_prev().resolve(), None);
    assert!(Links::default().is_unlinked());
    let mut n = NodeImpl::new(5);
    assert!(n.get_links().is_unlinked());
    *n.get_val_mut() = 6;
    assert_eq!(*n.get_val(), 6);
    assert_eq!(n.into_val(), 6);
}

#[test]
fn consuming_iterator_takes_from_both_ends() {
    let mut pool = Pool::new();
    let l = list_of(&mut pool, &[1, 2, 3]);
    let mut it = l.into_iter(&mut pool);
    assert_eq!(it.size_hint(), (3, Some(3)));
    assert_eq!(it.next_back().map(|e| e.into_val()), Some(3));
    assert_eq!(it.next().map(|e| e.into_val()), Some(1));
    assert_eq!(it.size_hint(), (1, Some(1)));
    assert_eq!(it.next().map(|e| e.into_val()), Some(2));
    assert!(it.next().is_none());
    assert!(it.next_back().is_none());
}

#[test]
fn comparison_is_lexicographic() {
    let mut pool = Pool::new();
    let a = list_of(&mut pool, &[1, 2, 3]);
    let b = list_of(&mut pool, &[1, 2, 4]);
    let c = list_of(&mut pool, &[1, 2]);
    let d = list_of(&mut pool, &[1, 2, 3]);
    assert_eq!(a.values_cmp(&b, &pool), Some(Ordering::Less));
    assert_eq!(b.values_cmp(&a, &pool), Some(Ordering::Greater));
    assert_eq!(c.values_cmp(&a, &pool), Some(Ordering::Less));
    assert_eq!(a.values_cmp(&c, &pool), Some(Ordering::Greater));
    assert_eq!(a.values_cmp(&d, &pool), Some(Ordering::Equal));
    assert!(a.values_eq(&d, &pool));
    assert!(!a.values_eq(&b, &pool));
    assert!(!a.values_eq(&c, &pool));
}

#[test]
fn back_and_front_of_empty_and_single() {
    let mut pool = Pool::new();
    let mut l = LinkedList::new();
    assert_eq!(l.front(&pool), None);
    assert_eq!(l.back(&pool), None);
    assert!(l.front_mut(&mut pool).is_none());
    assert!(l.back_mut(&mut pool).is_none());
    assert_eq!(l.back_link(&pool).resolve(), None);
    let x = add(&mut pool, 8);
    l.push_back(&mut pool, x);
    assert_eq!(l.front(&pool), Some(&8));
    assert_eq!(l.back(&pool), Some(&8));
    assert_eq!(l.back_link(&pool).resolve(), Some(x));
    assert_eq!(next_slot(&pool, x), x);
    assert_eq!(prev_slot(&pool, x), x);
}

#[test]
fn default_list_and_pool_are_empty() {
    let l = LinkedList::default();
    let pool: Pool<i32> = Pool::default();
    assert!(l.is_empty());
    assert_eq!(l.front(&pool), None);
}
