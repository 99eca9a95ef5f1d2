use bitsvec::BitVec;

fn bools<F: Fn(usize) -> bool>(n: usize, f: F) -> Vec<bool> {
    (0..n).map(f).collect()
}

fn from_fn<F: Fn(usize) -> bool>(n: usize, f: F) -> BitVec {
    BitVec::from_bool_iterator(&bools(n, f))
}

#[test]
fn test_bit_vec_count_ones() {
    let mut bitvec = BitVec::ones(1000);
    assert_eq!(bitvec.count_ones(), 1000);
    assert_eq!(bitvec.count_ones_before(500), 500);
    bitvec.set(1500, true);
    assert_eq!(bitvec.count_ones(), 1001);
    assert_eq!(bitvec.count_ones_before(500), 500);
}

#[test]
fn test_bitvec_set_raw_copy() {
    let v = vec![7u64];
    let bitvec = BitVec::from_raw_copy(&v, 1, 64);
    let containers = [[v[0], 0, 0, 0]];
    let buffer_len = bitvec.storage_len();
    let mut bitvec2 = BitVec::zeros(1);
    bitvec2.set_raw_copy(&containers, buffer_len, bitvec.len());
    assert_eq!(v.len(), 1);
    assert_eq!(bitvec2.get(0), Some(true));
    assert_eq!(bitvec2.get(1), Some(true));
    assert_eq!(bitvec2.get(2), Some(true));
    assert_eq!(bitvec2.get(3), Some(false));
    assert_eq!(bitvec2.get(63), Some(false));
    assert_eq!(bitvec2.get(64), None);
    assert!(bitvec == bitvec2);
}

#[test]
fn test_bitvec_set_raw() {
    let bitvec = BitVec::ones(1025);
    let buffer_len = bitvec.storage_len();
    let nbits = bitvec.len();
    let spilled = bitvec.spilled();
    let mut buffer: Vec<[u64; 4]> = vec![[u64::MAX; 4]; buffer_len - 1];
    buffer.push([1, 0, 0, 0]);
    let mut bitvec2 = BitVec::zeros(1);
    assert!(spilled);
    bitvec2.set_raw(buffer, nbits);
    assert_eq!(bitvec2.get(0), Some(true));
    assert_eq!(bitvec2.get(1024), Some(true));
    assert_eq!(bitvec2.get(1025), None);
    assert!(bitvec == bitvec2);
}

#[test]
fn doc_crate_example() {
    let mut bitvec = BitVec::ones(1_000);
    bitvec.set(1_999, true);
    bitvec.set(500, false);
    assert_eq!(bitvec.get(500), Some(false));
    assert_eq!(bitvec.get(5_000), None);
    assert_eq!(bitvec.get(5_000).unwrap_or(false), false);
    assert_eq!(bitvec.get(999), Some(true));
    assert_eq!(bitvec.get(1_000), Some(false));
    assert_eq!(bitvec.get(1_999), Some(true));
    let bitvec2 = BitVec::zeros(2000);
    let bitvec3 = bitvec.and_cloned(&bitvec2);
    let bitvec4 = bitvec & bitvec2;
    assert!(bitvec3 == bitvec4);
    let bitvec = from_fn(10, |x| x % 2 == 0);
    let bitvec2 = from_fn(10, |x| x % 3 == 0);
    let bitvec3 = from_fn(10, |x| x % 6 == 0);
    assert!((bitvec & bitvec2) == bitvec3);
}

#[test]
fn doc_zeros_ones_len() {
    assert_eq!(BitVec::zeros(10).len(), 10);
    assert_eq!(BitVec::ones(10).len(), 10);
    assert_eq!(BitVec::ones(3).len(), 3);
    assert_eq!(BitVec::zeros(10).count_ones(), 0);
    assert_eq!(BitVec::ones(10).count_ones(), 10);
}

#[test]
fn doc_from_bool_iterator() {
    let bitvec = from_fn(10, |x| x % 2 == 0);
    assert_eq!(bitvec.len(), 10);
    assert_eq!(
        bitvec.into_bools(),
        vec![true, false, true, false, true, false, true, false, true, false]
    );
    let bitvec = from_fn(1000, |x| x < 50);
    assert_eq!(bitvec.len(), 1000);
    assert_eq!(bitvec.get(49), Some(true));
    assert_eq!(bitvec.get(50), Some(false));
    assert_eq!(bitvec.get(999), Some(false));
    assert_eq!(bitvec.into_bools(), bools(1000, |x| x < 50));
}

#[test]
fn doc_from_slice() {
    let bitvec = BitVec::from_slice(&[0, 5, 9]);
    assert_eq!(
        bitvec.into_bools(),
        vec![true, false, false, false, false, true, false, false, false, true]
    );
}

#[test]
fn doc_from_slice_copy() {
    let bitvec = BitVec::from_slice_copy(&[3], 3);
    assert_eq!(bitvec.get(0), Some(true));
    assert_eq!(bitvec.get(1), Some(true));
    assert_eq!(bitvec.get(2), Some(false));
    assert_eq!(bitvec.get(3), None);
}

#[test]
fn doc_resize_and_shrink() {
    let mut bitvec = BitVec::ones(3);
    bitvec.resize(5, false);
    assert_eq!(bitvec.len(), 5);
    bitvec.resize(2, false);
    assert_eq!(bitvec.len(), 2);
    let mut bitvec = BitVec::ones(3);
    bitvec.shrink_to(2);
    assert_eq!(bitvec.len(), 2);
}

#[test]
fn doc_set_grows() {
    let mut bitvec = BitVec::zeros(10);
    assert_eq!(bitvec.len(), 10);
    bitvec.set(15, true);
    assert_eq!(bitvec.len(), 16);
    assert_eq!(bitvec.get(15), Some(true));
    assert_eq!(bitvec.get(14), Some(false));
}

#[test]
fn doc_get_and_get_unchecked() {
    let bitvec = from_fn(15, |x| x % 3 == 0);
    assert_eq!(bitvec.get(3), Some(true));
    assert_eq!(bitvec.get(5), Some(false));
    assert_eq!(bitvec.get(14), Some(false));
    assert_eq!(bitvec.get(15), None);
    assert_eq!(bitvec.get_unchecked(3), true);
    assert_eq!(bitvec.get_unchecked(5), false);
    assert_eq!(bitvec.get_unchecked(14), false);
    assert_eq!(bitvec[3], true);
    assert_eq!(bitvec[5], false);
}

#[test]
fn doc_difference() {
    let bitvec = from_fn(5_000, |x| x % 2 == 0);
    let bitvec2 = from_fn(5_000, |x| x % 3 == 0);
    assert!(
        (bitvec.difference_cloned(&bitvec2) | bitvec2.difference_cloned(&bitvec))
            == bitvec.xor_cloned(&bitvec2)
    );
    let bitvec3 = from_fn(5_000, |x| x % 2 == 0 && x % 3 != 0);
    assert!(bitvec.difference(bitvec2) == bitvec3);
}

#[test]
fn doc_count_ones() {
    let bitvec = from_fn(10_000, |x| x % 2 == 0);
    assert_eq!(bitvec.count_ones(), 5000);
    let bitvec = from_fn(30_000, |x| x % 3 == 0);
    assert_eq!(bitvec.count_ones(), 10_000);
}

#[test]
fn doc_count_ones_before() {
    let bitvec = from_fn(10_000, |x| x % 2 == 0);
    assert_eq!(bitvec.count_ones_before(5000), 2500);
    let bitvec = from_fn(30_000, |x| x % 3 == 0);
    assert_eq!(bitvec.count_ones_before(10000), 3334);
}

#[test]
fn doc_leading_zeros() {
    let mut bitvec = BitVec::zeros(10);
    bitvec.set(3, true);
    assert_eq!(bitvec.leading_zeros(), 6);
}

#[test]
fn doc_into_bools_and_usizes() {
    let bitvec = from_fn(10, |i| i % 3 == 0);
    assert_eq!(
        bitvec.into_bools(),
        vec![true, false, false, true, false, false, true, false, false, true]
    );
    let bitvec = from_fn(10, |i| i % 3 == 0);
    assert_eq!(bitvec.into_usizes(), vec![0, 3, 6, 9]);
}
