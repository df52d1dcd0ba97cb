use point_subsets::{combination_util, combinations, index_combinations};

fn pascal(n: usize, k: usize) -> usize {
    if k == 0 {
        1
    } else if n == 0 {
        0
    } else {
        pascal(n - 1, k - 1) + pascal(n - 1, k)
    }
}

#[test]
fn four_of_six_are_listed_in_order() {
    let all = index_combinations(6, 4);
    let expected: Vec<Vec<usize>> = vec![
        vec![0, 1, 2, 3],
        vec![0, 1, 2, 4],
        vec![0, 1, 2, 5],
        vec![0, 1, 3, 4],
        vec![0, 1, 3, 5],
        vec![0, 1, 4, 5],
        vec![0, 2, 3, 4],
        vec![0, 2, 3, 5],
        vec![0, 2, 4, 5],
        vec![0, 3, 4, 5],
        vec![1, 2, 3, 4],
        vec![1, 2, 3, 5],
        vec![1, 2, 4, 5],
        vec![1, 3, 4, 5],
        vec![2, 3, 4, 5],
    ];
    assert_eq!(all, expected);
}

#[test]
fn two_of_three_are_listed_in_order() {
    assert_eq!(index_combinations(3, 2), vec![vec![0, 1], vec![0, 2], vec![1, 2]]);
}

#[test]
fn four_of_fourteen_are_a_thousand_and_one() {
    let all = index_combinations(14, 4);
    assert_eq!(all.len(), 1001);
    assert_eq!(all[0], vec![0, 1, 2, 3]);
    assert_eq!(all[1], vec![0, 1, 2, 4]);
    assert_eq!(all[1000], vec![10, 11, 12, 13]);
}

#[test]
fn count_follows_pascal() {
    for n in 0..10 {
        for r in 0..12 {
            assert_eq!(index_combinations(n, r).len(), pascal(n, r), "n = {n}, r = {r}");
        }
    }
}

#[test]
fn tuples_ascend_and_stay_in_the_pool() {
    for n in 1..9 {
        for r in 1..=n {
            for tuple in index_combinations(n, r) {
                assert_eq!(tuple.len(), r);
                for pair in tuple.windows(2) {
                    assert!(pair[0] < pair[1]);
                }
                assert!(tuple[r - 1] < n);
            }
        }
    }
}

#[test]
fn tuples_come_in_lexicographic_order_without_repetition() {
    for n in 1..9 {
        for r in 1..=n {
            let all = index_combinations(n, r);
            for pair in all.windows(2) {
                assert!(pair[0] < pair[1], "{:?} before {:?}", pair[0], pair[1]);
            }
        }
    }
}

#[test]
fn every_ascending_tuple_is_listed() {
    let all = index_combinations(7, 3);
    for a in 0..7 {
        for b in (a + 1)..7 {
            for c in (b + 1)..7 {
                assert!(all.contains(&vec![a, b, c]), "{a} {b} {c}");
            }
        }
    }
    assert_eq!(all.len(), 35);
}

#[test]
fn nothing_chosen_gives_the_empty_subset_once() {
    assert_eq!(index_combinations(5, 0), vec![Vec::<usize>::new()]);
    assert_eq!(index_combinations(0, 0), vec![Vec::<usize>::new()]);
    let pool: [char; 0] = [];
    assert_eq!(combinations(&pool, 0), vec![Vec::<char>::new()]);
}

#[test]
fn more_than_the_pool_holds_gives_nothing() {
    assert!(index_combinations(3, 4).is_empty());
    assert!(index_combinations(0, 1).is_empty());
    assert!(combinations(&['a', 'b'], 3).is_empty());
}

#[test]
fn the_whole_pool_is_chosen_once() {
    assert_eq!(index_combinations(4, 4), vec![vec![0, 1, 2, 3]]);
    assert_eq!(combinations(&[7u8, 8, 9], 3), vec![vec![7u8, 8, 9]]);
}

#[test]
fn single_items_come_in_pool_order() {
    assert_eq!(index_combinations(4, 1), vec![vec![0], vec![1], vec![2], vec![3]]);
    assert_eq!(combinations(&['x', 'y', 'z'], 1), vec![vec!['x'], vec!['y'], vec!['z']]);
}

#[test]
fn items_are_copied_from_the_pool() {
    let pool = ['a', 'b', 'c', 'd'];
    assert_eq!(
        combinations(&pool, 2),
        vec![
            vec!['a', 'b'],
            vec!['a', 'c'],
            vec!['a', 'd'],
            vec!['b', 'c'],
            vec!['b', 'd'],
            vec!['c', 'd'],
        ]
    );
}

#[test]
fn subsets_follow_the_index_tuples() {
    let pool = [50i32, -3, 17, 17, 0, 8, 23];
    let subsets = combinations(&pool, 3);
    let tuples = index_combinations(pool.len(), 3);
    assert_eq!(subsets.len(), tuples.len());
    for (subset, tuple) in subsets.iter().zip(tuples.iter()) {
        let picked: Vec<i32> = tuple.iter().map(|i| pool[*i]).collect();
        assert_eq!(*subset, picked);
    }
}

#[test]
fn equal_items_at_different_indices_are_kept_apart() {
    assert_eq!(combinations(&[1, 1, 2], 2), vec![vec![1, 1], vec![1, 2], vec![1, 2]]);
}

#[test]
fn enumerating_twice_gives_the_same_list() {
    let pool = [2.5f64, -1.0, 0.0, 9.75, 3.0];
    assert_eq!(combinations(&pool, 3), combinations(&pool, 3));
    assert_eq!(index_combinations(9, 4), index_combinations(9, 4));
}

#[test]
fn the_worker_keeps_what_is_placed_and_what_is_listed() {
    let arr = [10, 11, 12, 13];
    let mut data = vec![9, 0, 0];
    let mut out = vec![vec![1, 2, 3]];
    combination_util(&arr, &mut data, 1, 3, 1, &mut out);
    assert_eq!(
        out,
        vec![vec![1, 2, 3], vec![9, 11, 12], vec![9, 11, 13], vec![9, 12, 13]]
    );
    assert_eq!(data, vec![9, 12, 13]);
}

#[test]
fn the_worker_stops_at_the_last_index_given() {
    let arr = [10, 11, 12, 13, 14];
    let mut data = vec![0, 0];
    let mut out = Vec::new();
    combination_util(&arr, &mut data, 0, 2, 0, &mut out);
    assert_eq!(out, vec![vec![10, 11], vec![10, 12], vec![11, 12]]);
    assert_eq!(data, vec![11, 12]);
}

#[test]
fn the_worker_lists_a_full_buffer_as_it_is() {
    let arr = [10, 11, 12];
    let mut data = vec![4, 5];
    let mut out = Vec::new();
    combination_util(&arr, &mut data, 0, 2, 2, &mut out);
    assert_eq!(out, vec![vec![4, 5]]);
    assert_eq!(data, vec![4, 5]);
}

#[test]
fn the_worker_lists_nothing_past_the_end() {
    let arr = [10, 11, 12];
    let mut data = vec![4, 5];
    let mut out: Vec<Vec<i32>> = Vec::new();
    combination_util(&arr, &mut data, 3, 2, 1, &mut out);
    assert!(out.is_empty());
    combination_util(&arr, &mut data, 2, 2, 0, &mut out);
    assert!(out.is_empty());
    assert_eq!(data, vec![4, 5]);
}

#[test]
fn the_worker_prunes_where_too_few_items_are_left() {
    let arr = [10, 11, 12, 13];
    let mut data = vec![0, 0, 0];
    let mut out = Vec::new();
    combination_util(&arr, &mut data, 1, 3, 0, &mut out);
    assert_eq!(out, vec![vec![11, 12, 13]]);
    let mut out = Vec::new();
    combination_util(&arr, &mut data, 2, 3, 0, &mut out);
    assert!(out.is_empty());
    assert_eq!(data, vec![11, 12, 13]);
}
