use tilesort::key_extractor::IdentityKey;
use tilesort::sort;
use tilesort::sort_by_key;
use tilesort::sorter::scan_phase;

fn is_permutation(a: &[u64], b: &[u64]) -> bool {
    let mut x = a.to_vec();
    let mut y = b.to_vec();
    x.sort();
    y.sort();
    x == y
}

#[test]
fn ascending_two_natural_runs() {
    let mut v: Vec<u64> = vec![5, 1, 4, 2, 3];
    sort(&mut v, false);
    assert_eq!(v, vec![1, 2, 3, 4, 5]);
}

#[test]
fn descending_with_duplicate_keys() {
    let mut v: Vec<u64> = vec![1, 2, 3, 2, 1];
    sort(&mut v, true);
    assert_eq!(v, vec![3, 2, 2, 1, 1]);
}

#[test]
fn ascending_interleaved_runs_force_split() {
    let mut v: Vec<u64> = vec![1, 3, 5, 2, 4, 6];
    sort(&mut v, false);
    assert_eq!(v, vec![1, 2, 3, 4, 5, 6]);
}

#[test]
fn empty_input_unchanged() {
    let mut v: Vec<u64> = vec![];
    sort(&mut v, false);
    assert_eq!(v, Vec::<u64>::new());
    sort(&mut v, true);
    assert_eq!(v, Vec::<u64>::new());
}

#[test]
fn single_element_unchanged() {
    let mut v: Vec<u64> = vec![42];
    sort(&mut v, false);
    assert_eq!(v, vec![42]);
    sort(&mut v, true);
    assert_eq!(v, vec![42]);
}

#[test]
fn already_sorted_ascending_is_identity() {
    let mut v: Vec<u64> = vec![1, 2, 2, 3, 7, 9];
    sort(&mut v, false);
    assert_eq!(v, vec![1, 2, 2, 3, 7, 9]);
}

#[test]
fn already_sorted_descending_is_identity() {
    let mut v: Vec<u64> = vec![9, 7, 3, 2, 2, 1];
    sort(&mut v, true);
    assert_eq!(v, vec![9, 7, 3, 2, 2, 1]);
}

#[test]
fn sorting_twice_is_idempotent() {
    let mut v: Vec<u64> = vec![8, 3, 9, 1, 5, 2];
    sort(&mut v, false);
    let once = v.clone();
    sort(&mut v, false);
    assert_eq!(v, once);

    let mut w: Vec<u64> = vec![8, 3, 9, 1, 5, 2];
    sort(&mut w, true);
    let once_desc = w.clone();
    sort(&mut w, true);
    assert_eq!(w, once_desc);
}

#[test]
fn reverse_of_ascending_equals_descending() {
    let input: Vec<u64> = vec![10, 4, 17, 1, 8, 23, 5];
    let mut asc = input.clone();
    sort(&mut asc, false);
    let mut desc = input.clone();
    sort(&mut desc, true);
    let mut reversed = asc.clone();
    reversed.reverse();
    assert_eq!(reversed, desc);
}

#[test]
fn output_is_permutation_of_input() {
    let input: Vec<u64> = vec![2, 5, 2, 7, 0, 5, 5, 1];
    let mut v = input.clone();
    sort(&mut v, false);
    assert!(is_permutation(&input, &v));
    let mut w = input.clone();
    sort(&mut w, true);
    assert!(is_permutation(&input, &w));
}

#[test]
fn fully_reversed_input_sorts() {
    let mut v: Vec<u64> = vec![9, 8, 7, 6, 5, 4, 3, 2, 1];
    sort(&mut v, false);
    assert_eq!(v, vec![1, 2, 3, 4, 5, 6, 7, 8, 9]);
    let mut w: Vec<u64> = vec![1, 2, 3, 4, 5, 6, 7, 8, 9];
    sort(&mut w, true);
    assert_eq!(w, vec![9, 8, 7, 6, 5, 4, 3, 2, 1]);
}

#[test]
fn run_key_range_nested_inside_earlier_run() {
    // The second run's key range lies strictly inside the first run's,
    // forcing the resident tile to split around it.
    let mut v: Vec<u64> = vec![10, 20, 30, 40, 21, 22];
    sort(&mut v, false);
    assert_eq!(v, vec![10, 20, 21, 22, 30, 40]);
}

#[test]
fn largest_values_sort() {
    let mut v: Vec<u64> = vec![u64::MAX, 0, u64::MAX - 1, 1];
    sort(&mut v, false);
    assert_eq!(v, vec![0, 1, u64::MAX - 1, u64::MAX]);
}

#[test]
fn sort_by_key_identity_matches_sort() {
    let input: Vec<u64> = vec![6, 2, 9, 2, 4];
    let mut by_key = input.clone();
    sort_by_key(&mut by_key, &IdentityKey, false);
    let mut plain = input.clone();
    sort(&mut plain, false);
    assert_eq!(by_key, plain);

    let mut by_key_desc = input.clone();
    sort_by_key(&mut by_key_desc, &IdentityKey, true);
    let mut plain_desc = input.clone();
    sort(&mut plain_desc, true);
    assert_eq!(by_key_desc, plain_desc);
}

#[test]
fn sorted_input_yields_single_tile() {
    let v: Vec<u64> = vec![1, 2, 3, 4, 5];
    let index = scan_phase(&v, &IdentityKey, false);
    assert_eq!(index.len(), 1);
    let t = index.get(0).unwrap();
    assert_eq!(t.start_idx(), 0);
    assert_eq!(t.len(), 5);

    let w: Vec<u64> = vec![5, 4, 3, 2, 1];
    let desc_index = scan_phase(&w, &IdentityKey, true);
    assert_eq!(desc_index.len(), 1);
}

#[test]
fn shuffled_runs_fill_every_position_once() {
    let v: Vec<u64> = vec![5, 1, 4, 2, 3];
    let index = scan_phase(&v, &IdentityKey, false);
    let tiles = index.iter();
    let mut seen = vec![false; v.len()];
    let mut total: usize = 0;
    for t in &tiles {
        total += t.len();
        for p in t.start_idx()..(t.start_idx() + t.len()) {
            assert!(!seen[p]);
            seen[p] = true;
        }
    }
    assert_eq!(total, v.len());
    assert!(seen.iter().all(|&b| b));
}

