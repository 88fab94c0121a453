use sortedlist::SortedList;
use std::cmp::Ordering;

fn elements(list: &SortedList<i32>) -> Vec<i32> {
    let mut walk = list.iter();
    let mut out = Vec::new();
    while let Some(x) = walk.next() {
        out.push(*x);
    }
    out
}

fn assert_block_bounds<T: Ord>(list: &SortedList<T>, block_size: usize) {
    let lengths = list.block_lengths();
    for (i, &len) in lengths.iter().enumerate() {
        assert!(len >= 1, "block {} is empty", i);
        assert!(len <= block_size, "block {} holds {} elements", i, len);
        if i > 0 {
            assert!(len >= block_size / 2, "block {} holds only {} elements", i, len);
        }
    }
}

/// A small linear congruential generator: the same sequence on every run.
fn next_random(state: &mut u64) -> u64 {
    *state = state.wrapping_mul(6364136223846793005).wrapping_add(1442695040888963407);
    *state >> 33
}

fn shuffled(n: i32, seed: u64) -> Vec<i32> {
    let mut v: Vec<i32> = (0..n).collect();
    let mut state = seed;
    let mut i = v.len();
    while i > 1 {
        let j = (next_random(&mut state) % (i as u64)) as usize;
        i -= 1;
        v.swap(i, j);
    }
    v
}

#[test]
fn zero_block_size_is_refused() {
    assert!(SortedList::<i32>::new(0).is_none());
    assert!(SortedList::<i32>::new(1).is_some());
}

#[test]
fn new_list_is_empty() {
    let l = SortedList::<i32>::new(4).unwrap();
    assert_eq!(elements(&l), Vec::<i32>::new());
    assert_eq!(l.block_lengths(), Vec::<usize>::new());
    assert!(!l.contains(&0));
    assert!(l.iter().next().is_none());
}

#[test]
fn insert_digits_of_pi() {
    let mut l = SortedList::new(4).unwrap();
    for x in [3, 1, 4, 1, 5, 9, 2, 6] {
        l.insert(x);
        assert_block_bounds(&l, 4);
    }
    assert_eq!(elements(&l), vec![1, 1, 2, 3, 4, 5, 6, 9]);
}

#[test]
fn full_block_is_cut_in_two() {
    let mut l = SortedList::new(4).unwrap();
    for x in [10, 20, 30, 40] {
        l.insert(x);
    }
    assert_eq!(l.block_lengths(), vec![4]);
    l.insert(25);
    assert_eq!(l.block_lengths(), vec![2, 3]);
    assert_eq!(elements(&l), vec![10, 20, 25, 30, 40]);
    l.insert(5);
    assert_eq!(l.block_lengths(), vec![3, 3]);
    assert_eq!(elements(&l), vec![5, 10, 20, 25, 30, 40]);
}

#[test]
fn element_equal_to_the_cut_goes_right() {
    let mut l = SortedList::new(4).unwrap();
    for x in [10, 20, 30, 40] {
        l.insert(x);
    }
    l.insert(20);
    assert_eq!(l.block_lengths(), vec![2, 3]);
    assert_eq!(elements(&l), vec![10, 20, 20, 30, 40]);
}

#[test]
fn element_equal_to_the_end_of_a_block_goes_into_it() {
    let mut l = SortedList::new(4).unwrap();
    for x in [10, 20, 30, 40, 50] {
        l.insert(x);
    }
    assert_eq!(l.block_lengths(), vec![2, 3]);
    l.insert(20);
    assert_eq!(l.block_lengths(), vec![3, 3]);
    l.insert(25);
    assert_eq!(l.block_lengths(), vec![3, 4]);
    l.insert(60);
    assert_eq!(l.block_lengths(), vec![3, 2, 3]);
    assert_eq!(elements(&l), vec![10, 20, 20, 25, 30, 40, 50, 60]);
}

#[test]
fn short_block_merges_into_the_one_before() {
    let mut l = SortedList::new(4).unwrap();
    for x in [10, 20, 30, 40, 50] {
        l.insert(x);
    }
    assert_eq!(l.block_lengths(), vec![2, 3]);
    assert!(l.remove(&10));
    assert_eq!(l.block_lengths(), vec![1, 3]);
    assert!(l.remove(&30));
    assert_eq!(l.block_lengths(), vec![1, 2]);
    assert!(l.remove(&40));
    assert_eq!(l.block_lengths(), vec![2]);
    assert_eq!(elements(&l), vec![20, 50]);
}

#[test]
fn short_block_is_filled_from_the_one_before() {
    let mut l = SortedList::new(8).unwrap();
    for x in [10, 20, 30, 40, 50, 60, 70, 80, 90] {
        l.insert(x);
    }
    assert_eq!(l.block_lengths(), vec![4, 5]);
    for x in [11, 12, 13, 14] {
        l.insert(x);
    }
    assert_eq!(l.block_lengths(), vec![8, 5]);
    assert!(l.remove(&90));
    assert_eq!(l.block_lengths(), vec![8, 4]);
    assert!(l.remove(&80));
    assert_eq!(l.block_lengths(), vec![5, 6]);
    assert_eq!(elements(&l), vec![10, 11, 12, 13, 14, 20, 30, 40, 50, 60, 70]);
    assert_block_bounds(&l, 8);
}

#[test]
fn emptied_first_block_is_dropped() {
    let mut l = SortedList::new(4).unwrap();
    l.insert(7);
    assert_eq!(l.block_lengths(), vec![1]);
    assert!(l.remove(&7));
    assert_eq!(l.block_lengths(), Vec::<usize>::new());
    assert!(!l.contains(&7));
    assert!(!l.remove(&7));
    l.insert(8);
    assert_eq!(elements(&l), vec![8]);
}

#[test]
fn blocks_of_one_element() {
    let mut l = SortedList::new(1).unwrap();
    for x in [5, 1, 9, 3, 7, 3] {
        l.insert(x);
        assert_block_bounds(&l, 1);
    }
    assert_eq!(elements(&l), vec![1, 3, 3, 5, 7, 9]);
    assert_eq!(l.block_lengths(), vec![1, 1, 1, 1, 1, 1]);
    assert!(l.contains(&7));
    assert!(l.remove(&3));
    assert!(l.remove(&9));
    assert!(!l.remove(&4));
    assert_block_bounds(&l, 1);
    assert_eq!(elements(&l), vec![1, 3, 5, 7]);
    assert!(l.remove(&1));
    assert!(l.remove(&3));
    assert!(l.remove(&5));
    assert!(l.remove(&7));
    assert_eq!(elements(&l), Vec::<i32>::new());
}

#[test]
fn duplicates_are_kept() {
    let mut l = SortedList::new(4).unwrap();
    for _ in 0..11 {
        l.insert(1);
        assert_block_bounds(&l, 4);
    }
    assert_eq!(elements(&l), vec![1; 11]);
    assert!(l.contains(&1));
    for k in 0..11 {
        assert!(l.remove(&1));
        assert_block_bounds(&l, 4);
        assert_eq!(elements(&l).len(), 10 - k);
    }
    assert!(!l.contains(&1));
    assert!(!l.remove(&1));
}

#[test]
fn membership_follows_inserts_and_removes() {
    let mut l = SortedList::new(8).unwrap();
    for x in (0..200).map(|x| 3 * x) {
        l.insert(x);
    }
    for x in 0..600 {
        assert_eq!(l.contains(&x), x % 3 == 0);
    }
    for x in (0..200).map(|x| 3 * x).filter(|x| x % 2 == 0) {
        assert!(l.remove(&x));
    }
    for x in 0..600 {
        assert_eq!(l.contains(&x), x % 3 == 0 && x % 2 == 1);
    }
    assert!(!l.contains(&-1));
    assert!(!l.contains(&600));
}

#[test]
fn count_follows_inserts_and_removes() {
    let mut l = SortedList::new(5).unwrap();
    let mut inserted = 0;
    let mut removed = 0;
    for x in shuffled(300, 11) {
        l.insert(x % 100);
        inserted += 1;
        assert_eq!(elements(&l).len(), inserted - removed);
    }
    for x in 0..150 {
        if l.remove(&x) {
            removed += 1;
        }
        assert_eq!(elements(&l).len(), inserted - removed);
    }
    assert_eq!(inserted, 300);
    assert_eq!(removed, 100);
    assert_eq!(elements(&l).len(), 200);
}

#[test]
fn any_order_of_insertion_gives_the_same_list() {
    let n = 5_000;
    let expected: Vec<i32> = (0..n).collect();
    for block_size in [1, 2, 3, 7, 64] {
        let mut ascending = SortedList::new(block_size).unwrap();
        for x in 0..n {
            ascending.insert(x);
        }
        let mut descending = SortedList::new(block_size).unwrap();
        for x in (0..n).rev() {
            descending.insert(x);
        }
        let mut random = SortedList::new(block_size).unwrap();
        for x in shuffled(n, 2024) {
            random.insert(x);
        }
        assert_eq!(elements(&ascending), expected);
        assert_eq!(elements(&descending), expected);
        assert_eq!(elements(&random), expected);
        assert_block_bounds(&ascending, block_size);
        assert_block_bounds(&descending, block_size);
        assert_block_bounds(&random, block_size);
    }
}

#[test]
fn walk_is_sorted_after_every_operation() {
    let mut l = SortedList::new(6).unwrap();
    let mut state = 5u64;
    for _ in 0..2_000 {
        let x = (next_random(&mut state) % 50) as i32;
        if next_random(&mut state) % 3 == 0 {
            l.remove(&x);
        } else {
            l.insert(x);
        }
        let now = elements(&l);
        assert!(now.windows(2).all(|w| w[0] <= w[1]));
        assert_block_bounds(&l, 6);
    }
}

#[test]
fn remove_and_insert_in_pairs_keep_block_bounds() {
    for block_size in [1, 2, 3, 4, 5, 8, 16] {
        let n = 1_000;
        let mut l = SortedList::new(block_size).unwrap();
        for x in shuffled(n, 7) {
            l.insert(x);
        }
        assert_block_bounds(&l, block_size);
        let mut state = 99u64;
        for _ in 0..3_000 {
            let out = (next_random(&mut state) % (n as u64)) as i32;
            let back = (next_random(&mut state) % (n as u64)) as i32;
            l.remove(&out);
            l.insert(back);
            assert_block_bounds(&l, block_size);
        }
        let now = elements(&l);
        assert!(now.windows(2).all(|w| w[0] <= w[1]));
    }
}

#[test]
fn walks_start_afresh() {
    let mut l = SortedList::new(2).unwrap();
    for x in [2, 1, 3] {
        l.insert(x);
    }
    let mut first = l.iter();
    assert_eq!(first.next(), Some(&1));
    assert_eq!(first.next(), Some(&2));
    let mut second = l.iter();
    assert_eq!(second.next(), Some(&1));
    assert_eq!(first.next(), Some(&3));
    assert_eq!(first.next(), None);
    assert_eq!(first.next(), None);
    assert_eq!(second.next(), Some(&2));
    assert_eq!(second.next(), Some(&3));
    assert_eq!(second.next(), None);
}

/// An element ordered by its key alone, so that equal elements can be told apart.
#[derive(Debug, Clone, Copy)]
struct Tagged {
    key: i32,
    tag: i32,
}

impl PartialEq for Tagged {
    fn eq(&self, other: &Self) -> bool {
        self.key == other.key
    }
}

impl Eq for Tagged {}

impl PartialOrd for Tagged {
    fn partial_cmp(&self, other: &Self) -> Option<Ordering> {
        Some(self.cmp(other))
    }
}

impl Ord for Tagged {
    fn cmp(&self, other: &Self) -> Ordering {
        self.key.cmp(&other.key)
    }
}

fn tags(list: &SortedList<Tagged>) -> Vec<(i32, i32)> {
    let mut walk = list.iter();
    let mut out = Vec::new();
    while let Some(x) = walk.next() {
        out.push((x.key, x.tag));
    }
    out
}

#[test]
fn equal_elements_go_in_after_those_already_there() {
    for block_size in [1, 2, 3, 4, 16] {
        let mut l = SortedList::new(block_size).unwrap();
        let mut expected = Vec::new();
        for tag in 0..9 {
            l.insert(Tagged { key: 5, tag });
            expected.push((5, tag));
            assert_eq!(tags(&l), expected);
        }
        l.insert(Tagged { key: 4, tag: 100 });
        l.insert(Tagged { key: 6, tag: 200 });
        l.insert(Tagged { key: 4, tag: 101 });
        l.insert(Tagged { key: 5, tag: 9 });
        let mut all = vec![(4, 100), (4, 101)];
        all.extend(expected.iter().cloned());
        all.push((5, 9));
        all.push((6, 200));
        assert_eq!(tags(&l), all);
        assert_block_bounds(&l, block_size);
    }
}

#[test]
fn equal_elements_that_run_over_blocks_are_followed() {
    let mut l = SortedList::new(4).unwrap();
    for tag in 0..5 {
        l.insert(Tagged { key: 5, tag });
    }
    assert_eq!(l.block_lengths(), vec![2, 3]);
    l.insert(Tagged { key: 5, tag: 5 });
    assert_eq!(l.block_lengths(), vec![2, 4]);
    assert_eq!(tags(&l), vec![(5, 0), (5, 1), (5, 2), (5, 3), (5, 4), (5, 5)]);
    l.insert(Tagged { key: 4, tag: 6 });
    assert_eq!(l.block_lengths(), vec![3, 4]);
    l.insert(Tagged { key: 5, tag: 7 });
    assert_eq!(l.block_lengths(), vec![3, 2, 3]);
    assert_eq!(
        tags(&l),
        vec![(4, 6), (5, 0), (5, 1), (5, 2), (5, 3), (5, 4), (5, 5), (5, 7)]
    );
}

#[test]
fn remove_takes_the_first_of_equal_elements() {
    for block_size in [1, 2, 3, 4, 16] {
        let mut l = SortedList::new(block_size).unwrap();
        for tag in 0..7 {
            l.insert(Tagged { key: 5, tag });
        }
        l.insert(Tagged { key: 1, tag: 50 });
        l.insert(Tagged { key: 8, tag: 60 });
        for gone in 0..7 {
            assert!(l.remove(&Tagged { key: 5, tag: -1 }));
            let mut expected = vec![(1, 50)];
            expected.extend(((gone + 1)..7).map(|tag| (5, tag)));
            expected.push((8, 60));
            assert_eq!(tags(&l), expected);
            assert_block_bounds(&l, block_size);
        }
        assert!(!l.remove(&Tagged { key: 5, tag: -1 }));
        assert!(l.contains(&Tagged { key: 8, tag: 0 }));
    }
}
