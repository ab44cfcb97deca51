//! Concrete checks of the library's stated properties: determinism, range
//! bounds, density before overflow, read-only non-mutation, locality,
//! negative inputs, wrap equivalence, and the exact coordinate formulas.

use tilecoding::{base_hash, calculate_coords, calculate_coords_wrap, tiles_quantized,
    tiles_wrap_quantized, IHT};

#[test]
fn unbounded_hash_is_deterministic() {
    let q = vec![3isize, -7];
    let a = tiles_quantized(1024, 8, &q, None);
    let b = tiles_quantized(1024, 8, &q, None);
    assert_eq!(a, b);
    assert_eq!(a.len(), 8);
}

#[test]
fn unbounded_indices_stay_in_range() {
    for &size in &[1usize, 2, 7, 1024] {
        let q = vec![-1000isize, 999];
        let indices = tiles_quantized(size, 8, &q, None);
        assert_eq!(indices.len(), 8);
        for &i in &indices {
            assert!(i < size);
        }
    }
}

#[test]
fn negative_inputs_give_full_valid_sets() {
    let mut iht = IHT::new(16);
    let bounded = iht.tiles_quantized(8, &vec![-81], None);
    assert_eq!(bounded.len(), 8);
    for &i in &bounded {
        assert!(i < 16);
    }
    let unbounded = tiles_quantized(16, 8, &vec![-81], None);
    assert_eq!(unbounded.len(), 8);
    for &i in &unbounded {
        assert!(i < 16);
    }
}

#[test]
fn density_before_overflow() {
    let mut iht = IHT::new(4);
    for i in 0..4isize {
        let idx = iht.get_index(vec![i]);
        assert_eq!(idx, i as usize);
    }
    assert_eq!(iht.count(), 4);
    assert!(iht.full());
}

#[test]
fn repeated_lookup_returns_same_index() {
    let mut iht = IHT::new(8);
    let first = iht.get_index(vec![5, -3]);
    let second = iht.get_index(vec![5, -3]);
    assert_eq!(first, second);
    assert_eq!(iht.count(), 1);
}

#[test]
fn stored_indices_survive_later_insertions() {
    let mut iht = IHT::new(8);
    let a = iht.get_index(vec![1]);
    let _ = iht.get_index(vec![2]);
    let _ = iht.get_index(vec![3]);
    assert_eq!(iht.get_index(vec![1]), a);
}

#[test]
fn collision_fallback_is_bounded_counted_and_stable() {
    let mut iht = IHT::new(2);
    iht.get_index(vec![0]);
    iht.get_index(vec![1]);
    assert!(iht.full());
    let c1 = iht.get_index(vec![2]);
    let c2 = iht.get_index(vec![3]);
    assert!(c1 < 2);
    assert!(c2 < 2);
    // the fallback never stores anything, and the same vector collides
    // onto the same index every time
    assert_eq!(iht.count(), 2);
    assert_eq!(iht.get_index(vec![2]), c1);
    assert_eq!(iht.overfull_count(), 3);
}

#[test]
fn read_only_lookup_never_mutates() {
    let mut iht = IHT::new(32);
    assert_eq!(iht.get_index_read_only(vec![9, 9]), None);
    assert_eq!(iht.count(), 0);
    // the next inserting lookup behaves as if the read never happened
    assert_eq!(iht.get_index(vec![9, 9]), 0);
    assert_eq!(iht.get_index_read_only(vec![9, 9]), Some(0));
    assert_eq!(iht.count(), 1);
}

#[test]
fn read_only_tiles_match_inserting_tiles() {
    let mut iht = IHT::new(64);
    let q = vec![12isize, -5];
    let inserted = iht.tiles_quantized(4, &q, None);
    let seen = iht.tiles_quantized_read_only(4, &q, None);
    let expect: Vec<Option<usize>> = inserted.iter().map(|&i| Some(i)).collect();
    assert_eq!(seen, expect);
}

#[test]
fn wrap_read_only_matches_wrap_inserting() {
    let mut iht = IHT::new(64);
    let q = vec![-13isize];
    let widths = [Some(10isize)];
    let inserted = iht.tiles_wrap_quantized(4, &q, &widths, None);
    let seen = iht.tiles_wrap_quantized_read_only(4, &q, &widths, None);
    let expect: Vec<Option<usize>> = inserted.iter().map(|&i| Some(i)).collect();
    assert_eq!(seen, expect);
    let unseen = iht.tiles_wrap_quantized_read_only(4, &vec![17], &widths, None);
    assert_eq!(unseen, vec![None, None, None, None]);
}

#[test]
fn wrap_equivalence_one_period_apart() {
    // quantized, num_tilings = 4, width 10: shifting by 10 * 4 units is one
    // full wrap width of the unquantized input
    let mut iht = IHT::new(64);
    let a = iht.tiles_wrap_quantized(4, &vec![-13], &[Some(10)], None);
    let b = iht.tiles_wrap_quantized(4, &vec![27], &[Some(10)], None);
    assert_eq!(a, b);
    let ua = tiles_wrap_quantized(512, 4, &vec![-13], &[Some(10)], None);
    let ub = tiles_wrap_quantized(512, 4, &vec![27], &[Some(10)], None);
    assert_eq!(ua, ub);
}

#[test]
fn wrap_mixes_wrapped_and_unwrapped_dimensions() {
    let mut iht = IHT::new(64);
    let a = iht.tiles_wrap_quantized(4, &vec![3, -13], &[None, Some(10)], None);
    let b = iht.tiles_wrap_quantized(4, &vec![3, 27], &[None, Some(10)], None);
    assert_eq!(a, b);
    // the unwrapped dimension does not wrap: one tile width apart differs
    let c = iht.tiles_wrap_quantized(4, &vec![7, -13], &[None, Some(10)], None);
    assert_ne!(a, c);
}

#[test]
fn coordinates_follow_the_displacement_formula() {
    // tiling 3 of 8, quantized value 5: displacement 3, floor(8 / 8) = 1,
    // then the discrete tag verbatim
    assert_eq!(calculate_coords(3, 8, &vec![5], Some(&[7])), vec![3, 1, 7]);
    assert_eq!(calculate_coords(0, 8, &vec![5], None), vec![0, 0]);
    // floor toward negative infinity: (-17 + 3) / 8 floors to -2
    assert_eq!(calculate_coords(3, 8, &vec![-17], None), vec![3, -2]);
}

#[test]
fn wrap_coordinates_reduce_into_the_period() {
    // tiling 3 of 4, quantized value -13: reduced displacement 3 % 4 = 3,
    // floor(-10 / 4) = -3, and -3 modulo 10 wraps to 7
    assert_eq!(calculate_coords_wrap(3, 4, &vec![-13], &[Some(10)], None), vec![3, 7]);
    // without a width the dimension behaves as in the non-wrap path
    assert_eq!(calculate_coords_wrap(3, 4, &vec![-13], &[None], None), vec![3, -3]);
}

#[test]
fn discrete_tags_separate_tilings() {
    let mut iht = IHT::new(64);
    let a = iht.tiles_quantized(8, &vec![0], Some(&[0]));
    let b = iht.tiles_quantized(8, &vec![0], Some(&[1]));
    assert_eq!(a, (0..8).collect::<Vec<usize>>());
    assert_eq!(b, (8..16).collect::<Vec<usize>>());
}

#[test]
fn no_continuous_dimensions_still_tiles() {
    let mut iht = IHT::new(16);
    let indices = iht.tiles_quantized(8, &vec![], None);
    assert_eq!(indices, (0..8).collect::<Vec<usize>>());
}

#[test]
fn content_hash_is_pure_and_order_sensitive() {
    let h1 = base_hash(&vec![1, 2, 3]);
    let h2 = base_hash(&vec![1, 2, 3]);
    assert_eq!(h1, h2);
    assert!(h1 < 0x7FFF_FFFF);
    assert_ne!(base_hash(&vec![1, 2]), base_hash(&vec![2, 1]));
}
