//! Behavioural tests of the full tile-coding workflow: each test
//! quantizes its floating inputs (`floor(x * num_tilings)`) and hands
//! the integers to the library.

use tilecoding::IHT;

fn quantize(floats: &[f64], num_tilings: usize) -> Vec<isize> {
    floats
        .iter()
        .map(|&x| (x * num_tilings as f64).floor() as isize)
        .collect()
}

fn tiles(iht: &mut IHT, num_tilings: usize, floats: &[f64], ints: Option<&[isize]>) -> Vec<usize> {
    let q = quantize(floats, num_tilings);
    iht.tiles_quantized(num_tilings, &q, ints)
}

fn tiles_read_only(
    iht: &IHT,
    num_tilings: usize,
    floats: &[f64],
    ints: Option<&[isize]>,
) -> Vec<Option<usize>> {
    let q = quantize(floats, num_tilings);
    iht.tiles_quantized_read_only(num_tilings, &q, ints)
}

fn tiles_wrap(
    iht: &mut IHT,
    num_tilings: usize,
    floats: &[f64],
    wrap_widths: &[Option<isize>],
    ints: Option<&[isize]>,
) -> Vec<usize> {
    let q = quantize(floats, num_tilings);
    iht.tiles_wrap_quantized(num_tilings, &q, wrap_widths, ints)
}

#[test]
fn proper_number_of_tiles() {
    let mut iht = IHT::new(32);
    let indices = tiles(&mut iht, 8, &[0.0], None);
    assert_eq!(indices.len(), 8);
}

#[test]
fn same_tiles_for_same_coords() {
    let mut iht = IHT::new(32);
    let indices_1 = tiles(&mut iht, 8, &[0.0], None);
    let indices_2 = tiles(&mut iht, 8, &[0.0], None);
    let indices_3 = tiles(&mut iht, 8, &[0.5], None);
    let indices_4 = tiles(&mut iht, 8, &[0.5], None);
    let indices_5 = tiles(&mut iht, 8, &[1.0], None);
    let indices_6 = tiles(&mut iht, 8, &[1.0], None);

    assert_eq!(indices_1, indices_2);
    assert_eq!(indices_3, indices_4);
    assert_eq!(indices_5, indices_6);
}

#[test]
fn different_tiles_for_different_coords() {
    let mut iht = IHT::new(32);
    let indices_1 = tiles(&mut iht, 8, &[0.0], None);
    let indices_2 = tiles(&mut iht, 8, &[0.5], None);
    let indices_3 = tiles(&mut iht, 8, &[1.0], None);

    assert_ne!(indices_1, indices_2);
    assert_ne!(indices_2, indices_3);
    assert_ne!(indices_1, indices_3);
}

#[test]
fn can_be_negative() {
    let mut iht = IHT::new(32);
    let indices = tiles(&mut iht, 8, &[-10.0], None);
    assert_eq!(indices.len(), 8);
}

#[test]
fn appropriate_distance() {
    let mut iht = IHT::new(32);
    let indices_1 = tiles(&mut iht, 4, &[0.0], None);
    let indices_2 = tiles(&mut iht, 4, &[0.125], None);
    let indices_3 = tiles(&mut iht, 4, &[0.25], None);

    assert_eq!(indices_1, indices_2);
    assert_ne!(indices_1, indices_3);
}

#[test]
fn iht_can_collide() {
    const SIZE: usize = 32;
    let mut iht = IHT::new(SIZE);
    for i in 0..(SIZE * 2) {
        let t = tiles(&mut iht, 8, &[i as f64], None);
        assert_eq!(t.len(), 8);
        for j in 0..8 {
            assert!(t[j] < SIZE);
        }
    }
    assert!(iht.full());
}

#[test]
fn read_only_works() {
    let mut iht = IHT::new(32);
    tiles(&mut iht, 4, &[0.0], None);
    let indices = tiles_read_only(&iht, 4, &[32.0], None);
    assert_eq!(indices, vec![None, None, None, None]);
}

#[test]
fn wrapping_works() {
    let mut iht = IHT::new(32);
    let indices_1 = tiles_wrap(&mut iht, 4, &[0.0], &[Some(10)], None);
    let indices_2 = tiles_wrap(&mut iht, 4, &[10.0], &[Some(10)], None);

    assert_eq!(indices_1, indices_2);
}
