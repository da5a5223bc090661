use nonogram_solver::bitset::{bitset_insert, bitset_len, bitset_to_vec, bitset_with_capacity};
use nonogram_solver::shuffle::shuffle_indices;

#[test]
fn bitset_tracks_membership_and_size() {
    let mut s = bitset_with_capacity(16);
    assert_eq!(bitset_len(&s), 0);
    assert!(bitset_insert(&mut s, 3));
    assert!(bitset_insert(&mut s, 11));
    assert!(!bitset_insert(&mut s, 3));
    assert_eq!(bitset_len(&s), 2);
    assert_eq!(bitset_to_vec(&s), vec![3, 11]);
}

#[test]
fn bitset_iteration_is_sorted_and_complete() {
    let mut s = bitset_with_capacity(64);
    for v in [9usize, 2, 40, 17, 3] {
        bitset_insert(&mut s, v);
    }
    let listed = bitset_to_vec(&s);
    assert_eq!(listed, vec![2, 3, 9, 17, 40]);
}

#[test]
fn shuffle_keeps_the_same_elements() {
    let mut v: Vec<usize> = (0..50).collect();
    shuffle_indices(&mut v);
    assert_eq!(v.len(), 50);
    let mut sorted = v.clone();
    sorted.sort();
    let expected: Vec<usize> = (0..50).collect();
    assert_eq!(sorted, expected);
}
