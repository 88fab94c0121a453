use sortedlist::SortedList;

fn elements(list: &SortedList<i32>) -> Vec<i32> {
    let mut walk = list.iter();
    let mut out = Vec::new();
    while let Some(x) = walk.next() {
        out.push(*x);
    }
    out
}

#[test]
fn insert_range() {
    let mut l = SortedList::new(1_000).unwrap();
    for x in 0..1_000_000 {
        l.insert(x);
    }
    assert!(elements(&l).iter().cloned().eq(0..1_000_000));
}

#[test]
fn insert_reversed_range() {
    let mut l = SortedList::new(1_000).unwrap();
    for x in (0..1_000_000).rev() {
        l.insert(x);
    }
    assert!(elements(&l).iter().cloned().eq(0..1_000_000));
}

#[test]
fn contains() {
    let mut l = SortedList::new(1_000).unwrap();
    for x in (0..1_000_000).rev() {
        l.insert(x);
    }
    assert!(l.contains(&500_000));
    assert!(!l.contains(&1_000_000));
}

#[test]
fn remove() {
    let mut l = SortedList::new(1_000).unwrap();
    for x in (0..1_000_000).rev() {
        l.insert(x);
    }
    for x in (0..1_000_000).filter(|&x| x % 7 == 0) {
        assert!(l.remove(&x));
    }
    assert!(elements(&l).iter().cloned().eq((0..1_000_000).filter(|&x| x % 7 != 0)));
}

#[test]
fn remove_every_even_value() {
    let mut l = SortedList::new(1_000).unwrap();
    for x in 0..1_000_000 {
        l.insert(x);
    }
    for x in (0..1_000_000).filter(|&x| x % 2 == 0) {
        assert!(l.remove(&x));
    }
    assert!(elements(&l).iter().cloned().eq((0..1_000_000).filter(|&x| x % 2 == 1)));
    assert!(!l.contains(&500_000));
    assert!(l.contains(&500_001));
}

#[test]
fn remove_absent_value_changes_nothing() {
    let mut l = SortedList::new(1_000).unwrap();
    for x in 0..1_000_000 {
        l.insert(x);
    }
    let blocks_before = l.block_lengths();
    assert!(!l.remove(&2_000_000));
    assert_eq!(l.block_lengths(), blocks_before);
    assert!(elements(&l).iter().cloned().eq(0..1_000_000));
}
