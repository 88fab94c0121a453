use sortedlist::SortedList;
use std::cmp::Ordering;

/// An element ordered by its key alone, so that equal elements can be told apart.
#[derive(Debug, Clone, Copy)]
struct Keyed {
    key: u32,
    tag: u32,
}

impl PartialEq for Keyed {
    fn eq(&self, other: &Self) -> bool {
        self.key == other.key
    }
}

impl Eq for Keyed {}

impl PartialOrd for Keyed {
    fn partial_cmp(&self, other: &Self) -> Option<Ordering> {
        Some(self.cmp(other))
    }
}

impl Ord for Keyed {
    fn cmp(&self, other: &Self) -> Ordering {
        self.key.cmp(&other.key)
    }
}

fn pairs(list: &SortedList<Keyed>) -> Vec<(u32, u32)> {
    let mut walk = list.iter();
    let mut out = Vec::new();
    while let Some(x) = walk.next() {
        out.push((x.key, x.tag));
    }
    out
}

fn next_random(state: &mut u64) -> u64 {
    *state = state.wrapping_mul(6364136223846793005).wrapping_add(1442695040888963407);
    *state >> 33
}

/// The same operations on a plain sorted vector: an element goes in after
/// every element that is not greater, and the first equal element goes out.
fn model_insert(model: &mut Vec<(u32, u32)>, key: u32, tag: u32) {
    let at = model.iter().take_while(|(k, _)| *k <= key).count();
    model.insert(at, (key, tag));
}

fn model_remove(model: &mut Vec<(u32, u32)>, key: u32) -> bool {
    match model.iter().position(|(k, _)| *k == key) {
        Some(at) => {
            model.remove(at);
            true
        }
        None => false,
    }
}

fn run_against_model(block_size: usize, keys: u64, steps: u32, seed: u64) {
    let mut list = SortedList::new(block_size).unwrap();
    let mut model: Vec<(u32, u32)> = Vec::new();
    let mut state = seed;
    for tag in 0..steps {
        let key = (next_random(&mut state) % keys) as u32;
        match next_random(&mut state) % 5 {
            0 | 1 => {
                let expected = model_remove(&mut model, key);
                assert_eq!(list.remove(&Keyed { key, tag: 0 }), expected);
            }
            _ => {
                model_insert(&mut model, key, tag);
                list.insert(Keyed { key, tag });
            }
        }
        let probe = (next_random(&mut state) % keys) as u32;
        assert_eq!(
            list.contains(&Keyed { key: probe, tag: 0 }),
            model.iter().any(|(k, _)| *k == probe)
        );
        assert_eq!(pairs(&list), model);
        let lengths = list.block_lengths();
        assert_eq!(lengths.iter().sum::<usize>(), model.len());
        for (i, &len) in lengths.iter().enumerate() {
            assert!(1 <= len && len <= block_size);
            assert!(i == 0 || len >= block_size / 2);
        }
    }
}

#[test]
fn agrees_with_a_sorted_vector_with_blocks_of_one() {
    run_against_model(1, 12, 1_500, 1);
}

#[test]
fn agrees_with_a_sorted_vector_with_blocks_of_two() {
    run_against_model(2, 12, 1_500, 2);
}

#[test]
fn agrees_with_a_sorted_vector_with_blocks_of_three() {
    run_against_model(3, 20, 1_500, 3);
}

#[test]
fn agrees_with_a_sorted_vector_with_blocks_of_four() {
    run_against_model(4, 6, 1_500, 4);
}

#[test]
fn agrees_with_a_sorted_vector_with_blocks_of_seven() {
    run_against_model(7, 40, 2_000, 5);
}

#[test]
fn agrees_with_a_sorted_vector_with_blocks_of_sixteen() {
    run_against_model(16, 500, 2_000, 6);
}

#[test]
fn agrees_with_a_sorted_vector_with_one_key() {
    run_against_model(5, 1, 1_000, 7);
}
