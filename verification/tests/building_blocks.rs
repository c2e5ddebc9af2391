use oram::block::PathOramBlock;
use oram::experiment::{
    add_distinct_draw, draw_distinct_index, insert_if_new, is_sort, min_stash_for_secparam,
    overflow_count, qsort, random_indices,
};
use oram::sort::oblivious_sort_by_keys;
use oram::tree::{ct_depth, ct_node_on_path};
use oram::{BlockValue, OramBlock};

type B = BlockValue<2>;

#[test]
fn tree_depth_and_path() {
    assert_eq!(ct_depth(1), 0);
    assert_eq!(ct_depth(2), 1);
    assert_eq!(ct_depth(7), 2);
    assert_eq!(ct_depth(8), 3);
    assert_eq!(ct_depth(u64::MAX), 63);
    assert_eq!(ct_node_on_path(7, 0, 2), 1);
    assert_eq!(ct_node_on_path(7, 1, 2), 3);
    assert_eq!(ct_node_on_path(7, 2, 2), 7);
    assert_eq!(ct_node_on_path(12, 1, 3), 3);
}

#[test]
fn conditional_select_picks_by_choice() {
    let a = BlockValue::new([1u8, 2]);
    let b = BlockValue::new([3u8, 4]);
    assert_eq!(B::conditional_select(&a, &b, false), a);
    assert_eq!(B::conditional_select(&a, &b, true), b);
    assert_eq!(B::default_block(), BlockValue::new([0u8, 0]));
}

#[test]
fn sort_by_keys_moves_items_with_keys() {
    let mk = |a: u64| PathOramBlock {
        value: BlockValue::new([a as u8; 2]),
        address: a,
        position: a + 1,
    };
    let mut items = vec![mk(30), mk(10), mk(20), mk(11)];
    let mut keys = vec![3u64, 1, 2, 1];
    oblivious_sort_by_keys(&mut items, &mut keys);
    assert_eq!(keys, vec![1, 1, 2, 3]);
    let mut first_two = vec![items[0].address, items[1].address];
    first_two.sort();
    assert_eq!(first_two, vec![10, 11]);
    assert_eq!(items[2].address, 20);
    assert_eq!(items[3].address, 30);
}

#[test]
fn qsort_sorts_bytes() {
    let mut arr = [5u8, 3, 9, 1, 1, 200, 0];
    assert!(!is_sort(&arr));
    qsort(&mut arr);
    assert_eq!(arr, [0u8, 1, 1, 3, 5, 9, 200]);
    assert!(is_sort(&arr));
    let mut empty: [u8; 0] = [];
    qsort(&mut empty);
    assert!(is_sort(&empty));
}

#[test]
fn overflow_count_sums_the_tail() {
    let h = [5u64, 3, 2, 1];
    assert_eq!(overflow_count(&h, 1), 3);
    assert_eq!(overflow_count(&h, 0), 6);
    assert_eq!(overflow_count(&h, 3), 0);
    assert_eq!(overflow_count(&h, 10), 0);
}

#[test]
fn min_stash_meets_the_security_target() {
    let h = [0u64, 10, 5, 1];
    // Budget 16 / 2 = 8: count(stash > 0) = 16 is too many, count(stash > 1) = 6 is not.
    assert_eq!(min_stash_for_secparam(&h, 16, 1), 1);
    // Budget 16 / 8 = 2: count(stash > 1) = 6 is too many, count(stash > 2) = 1 is not.
    assert_eq!(min_stash_for_secparam(&h, 16, 3), 2);
    // Budget below one access: only a stash that never overflowed will do.
    assert_eq!(min_stash_for_secparam(&h, 16, 40), 3);
    assert_eq!(min_stash_for_secparam(&h, 16, 0), 0);
    let required = min_stash_for_secparam(&h, 16, 3);
    assert!(overflow_count(&h, required) * 8 <= 16);
}

#[test]
fn random_indices_are_in_range() {
    let mut rng = rand::rngs::OsRng;
    let indices = random_indices(&mut rng, 50, 7).unwrap();
    assert_eq!(indices.len(), 50);
    assert!(indices.iter().all(|&i| i < 7));
}

#[test]
fn insert_if_new_keeps_first_occurrences() {
    let mut v: Vec<u64> = Vec::new();
    assert!(insert_if_new(&mut v, 3));
    assert!(insert_if_new(&mut v, 1));
    assert!(!insert_if_new(&mut v, 3));
    assert!(insert_if_new(&mut v, 2));
    assert_eq!(v, vec![3, 1, 2]);
}

#[test]
fn distinct_draws_cover_a_small_range() {
    let mut rng = rand::rngs::OsRng;
    let mut indices: Vec<u64> = Vec::new();
    while indices.len() < 5 {
        draw_distinct_index(&mut rng, &mut indices, 5).unwrap();
    }
    let mut sorted = indices.clone();
    sorted.sort();
    assert_eq!(sorted, vec![0, 1, 2, 3, 4]);
}

#[test]
fn distinct_draws_reduce_modulo_upper() {
    let mut v: Vec<u64> = Vec::new();
    assert!(add_distinct_draw(&mut v, 10, 7));
    assert!(!add_distinct_draw(&mut v, 3, 7));
    assert!(add_distinct_draw(&mut v, 7, 7));
    assert_eq!(v, vec![3, 0]);
}
