use scialg::sort::{bubble, co_sort, exchange, insertion, is_sorted, quick, shell};

/// An entry that is ordered by its key alone.
#[derive(Clone, Copy, Debug)]
struct Entry {
    key: u8,
    tag: char,
}

impl PartialEq for Entry {
    fn eq(&self, other: &Entry) -> bool {
        self.key == other.key
    }
}

impl PartialOrd for Entry {
    fn partial_cmp(&self, other: &Entry) -> Option<std::cmp::Ordering> {
        self.key.partial_cmp(&other.key)
    }
}

fn entries() -> Vec<Entry> {
    let keys = [2, 1, 2, 0, 1, 2, 0];
    let tags = ['a', 'b', 'c', 'd', 'e', 'f', 'g'];
    let mut out = Vec::new();
    for i in 0..keys.len() {
        out.push(Entry { key: keys[i], tag: tags[i] });
    }
    out
}

fn tags(entries: &[Entry]) -> Vec<char> {
    entries.iter().map(|e| e.tag).collect()
}

fn scrambled(len: usize) -> Vec<i64> {
    let mut state: u64 = 0x2545_f491_4f6c_dd1d;
    let mut out = Vec::new();
    for _ in 0..len {
        state ^= state << 13;
        state ^= state >> 7;
        state ^= state << 17;
        out.push((state % 1000) as i64 - 500);
    }
    out
}

fn reference(input: &[i64]) -> Vec<i64> {
    let mut out = input.to_vec();
    out.sort();
    out
}

#[test]
fn is_sorted_accepts_ascending_input() {
    assert!(is_sorted(&vec![1, 2, 3, 4]));
    assert!(is_sorted(&vec![1, 1, 1, 1]));
}

#[test]
fn is_sorted_rejects_descent() {
    assert!(!is_sorted(&vec![3, 1, 2, 4]));
    assert!(!is_sorted(&vec![1, 2, 4, 3]));
}

#[test]
fn is_sorted_of_empty_and_single() {
    let none: Vec<i32> = Vec::new();
    assert!(is_sorted(&none));
    assert!(is_sorted(&[7]));
}

#[test]
fn is_sorted_on_floats() {
    assert!(is_sorted(&[0.5, 1.0, 1.0, 2.25]));
    assert!(!is_sorted(&[0.5, f64::NAN, 1.0]));
}

#[test]
fn exchange_sorts_example() {
    let mut input = vec![3, 4, 1, 2];
    exchange(&mut input);
    assert_eq!(input, vec![1, 2, 3, 4]);
}

#[test]
fn exchange_leaves_empty_input() {
    let mut input: Vec<i32> = Vec::new();
    exchange(&mut input);
    assert_eq!(input, Vec::<i32>::new());
}

#[test]
fn exchange_sorts_scrambled() {
    let mut input = scrambled(60);
    let expected = reference(&input);
    exchange(&mut input);
    assert_eq!(input, expected);
}

#[test]
fn bubble_sorts_example() {
    let mut input = vec![3, 4, 1, 2];
    bubble(&mut input);
    assert_eq!(input, vec![1, 2, 3, 4]);
}

#[test]
fn bubble_sorts_scrambled() {
    let mut input = scrambled(61);
    let expected = reference(&input);
    bubble(&mut input);
    assert_eq!(input, expected);
}

#[test]
fn bubble_keeps_sorted_input() {
    let mut input = vec![-2, 0, 0, 9];
    bubble(&mut input);
    assert_eq!(input, vec![-2, 0, 0, 9]);
}

#[test]
fn insertion_sorts_example() {
    let mut input = vec![3, 4, 1, 2];
    insertion(&mut input);
    assert_eq!(input, vec![1, 2, 3, 4]);
}

#[test]
fn insertion_sorts_scrambled() {
    let mut input = scrambled(62);
    let expected = reference(&input);
    insertion(&mut input);
    assert_eq!(input, expected);
}

#[test]
fn insertion_sorts_descending() {
    let mut input = vec![5, 4, 3, 2, 1, 0];
    insertion(&mut input);
    assert_eq!(input, vec![0, 1, 2, 3, 4, 5]);
}

#[test]
fn co_sort_moves_companions() {
    let mut keys = vec![3, 1, 2];
    let mut names = vec!["three", "one", "two"];
    co_sort(&mut keys, &mut names);
    assert_eq!(keys, vec![1, 2, 3]);
    assert_eq!(names, vec!["one", "two", "three"]);
}

#[test]
fn co_sort_leaves_tail_of_longer_companion() {
    let mut keys = vec![2, 1];
    let mut names = vec!['b', 'a', 'z', 'y'];
    co_sort(&mut keys, &mut names);
    assert_eq!(keys, vec![1, 2]);
    assert_eq!(names, vec!['a', 'b', 'z', 'y']);
}

#[test]
fn co_sort_on_float_keys() {
    let mut keys = vec![2.5, -1.0, 0.25];
    let mut vals = vec![10, 20, 30];
    co_sort(&mut keys, &mut vals);
    assert_eq!(keys, vec![-1.0, 0.25, 2.5]);
    assert_eq!(vals, vec![20, 30, 10]);
}

#[test]
fn co_sort_keeps_order_of_equal_keys() {
    let mut keys = vec![1, 0, 1, 0];
    let mut vals = vec!['a', 'b', 'c', 'd'];
    co_sort(&mut keys, &mut vals);
    assert_eq!(keys, vec![0, 0, 1, 1]);
    assert_eq!(vals, vec!['b', 'd', 'a', 'c']);
}

#[test]
fn shell_sorts_example() {
    let mut input = vec![3, 4, 1, 2];
    shell(&mut input);
    assert_eq!(input, vec![1, 2, 3, 4]);
}

#[test]
fn shell_sorts_scrambled() {
    let mut input = scrambled(200);
    let expected = reference(&input);
    shell(&mut input);
    assert_eq!(input, expected);
}

#[test]
fn shell_leaves_empty_and_single() {
    let mut none: Vec<i32> = Vec::new();
    shell(&mut none);
    assert_eq!(none, Vec::<i32>::new());
    let mut one = vec![4];
    shell(&mut one);
    assert_eq!(one, vec![4]);
}

#[test]
fn quick_sorts_example() {
    let mut input = vec![3, 4, 1, 2];
    quick(&mut input);
    assert_eq!(input, vec![1, 2, 3, 4]);
}

#[test]
fn quick_sorts_scrambled() {
    let mut input = scrambled(500);
    let expected = reference(&input);
    quick(&mut input);
    assert_eq!(input, expected);
}

#[test]
fn quick_sorts_eight_elements() {
    let mut input = vec![8, 7, 6, 5, 4, 3, 2, 1];
    quick(&mut input);
    assert_eq!(input, vec![1, 2, 3, 4, 5, 6, 7, 8]);
}

#[test]
fn quick_sorts_equal_elements() {
    let mut input = vec![2; 40];
    quick(&mut input);
    assert_eq!(input, vec![2; 40]);
}

#[test]
fn quick_sorts_sorted_and_reversed() {
    let mut up: Vec<i64> = (0..100).collect();
    quick(&mut up);
    assert_eq!(up, (0..100).collect::<Vec<i64>>());
    let mut down: Vec<i64> = (0..100).rev().collect();
    quick(&mut down);
    assert_eq!(down, (0..100).collect::<Vec<i64>>());
}

#[test]
fn quick_leaves_empty_input() {
    let mut input: Vec<i32> = Vec::new();
    quick(&mut input);
    assert_eq!(input, Vec::<i32>::new());
}

#[test]
fn insertion_is_stable() {
    let mut input = entries();
    insertion(&mut input);
    assert_eq!(tags(&input), vec!['d', 'g', 'b', 'e', 'a', 'c', 'f']);
}

#[test]
fn exchange_is_stable() {
    let mut input = entries();
    exchange(&mut input);
    assert_eq!(tags(&input), vec!['d', 'g', 'b', 'e', 'a', 'c', 'f']);
}

#[test]
fn bubble_is_stable() {
    let mut input = entries();
    bubble(&mut input);
    assert_eq!(tags(&input), vec!['d', 'g', 'b', 'e', 'a', 'c', 'f']);
}

#[test]
fn sorts_keep_the_elements_of_unordered_floats() {
    let mut input = vec![2.0, f64::NAN, 1.0];
    insertion(&mut input);
    assert_eq!(input.len(), 3);
    assert_eq!(input.iter().filter(|x| x.is_nan()).count(), 1);
    assert!(input.contains(&1.0) && input.contains(&2.0));
}
