use bitsvec::{BitContainer, BitContainerItem, BitVec};

#[test]
fn ones_counts_only_its_bits() {
    for n in [64usize, 128, 192, 320] {
        let v = BitVec::ones(n);
        assert_eq!(v.count_ones(), n);
        assert!(v.all());
        assert_eq!(v.inverse().count_ones(), 0);
        let mut w = BitVec::zeros(n);
        w.set_all_true();
        assert!(w == v);
    }
}

#[test]
fn storage_shape() {
    assert_eq!(BitVec::zeros(0).storage_len(), 0);
    assert_eq!(BitVec::zeros(1).storage_len(), 1);
    assert_eq!(BitVec::zeros(256).storage_len(), 1);
    assert_eq!(BitVec::zeros(257).storage_len(), 2);
    let v = BitVec::ones(1025);
    assert_eq!(v.storage_len(), 5);
    assert!(v.storage_capacity() >= 5);
    assert!(v.spilled());
    let w = BitVec::ones(3);
    assert!(w.storage_capacity() >= 4);
    assert!(!BitVec::zeros(0).spilled() || BitVec::zeros(0).storage_capacity() > 4);
}

#[test]
fn from_slice_copy_keeps_only_its_bits() {
    let words = [u64::MAX; 8];
    let v = BitVec::from_slice_copy(&words, 64);
    assert_eq!(v.len(), 64);
    assert_eq!(v.count_ones(), 64);
    assert_eq!(v.storage_len(), 1);
    let v = BitVec::from_slice_copy(&[0b1011, 1], 65);
    assert_eq!(v.into_usizes(), vec![0, 1, 3, 64]);
    let v = BitVec::from_raw_copy(&[0b1011, 1, 5], 2, 65);
    assert_eq!(v.into_usizes(), vec![0, 1, 3, 64]);
}

#[test]
fn set_raw_copy_and_set_raw_replace_contents() {
    let mut v = BitVec::ones(200);
    let buffer = [[5, 0, 0, 0], [0xF, 0, 0, 0], [u64::MAX; 4]];
    assert!(BitVec::has_shape(&buffer[..2], 260));
    v.set_raw_copy(&buffer, 3, 260);
    assert_eq!(v.len(), 260);
    assert_eq!(v.storage_len(), 2);
    assert_eq!(v.count_ones(), 2 + 4);
    assert_eq!(v.get(0), Some(true));
    assert_eq!(v.get(2), Some(true));
    assert_eq!(v.get(259), Some(true));
    let mut w = BitVec::zeros(1);
    let containers = vec![[1, 0, 0, 0], [0, 0, 0, 0]];
    assert!(BitVec::has_shape(&containers, 300));
    w.set_raw(containers, 300);
    assert_eq!(w.len(), 300);
    assert_eq!(w.storage_len(), 2);
    assert_eq!(w.into_usizes(), vec![0]);
}

#[test]
fn shape_checks() {
    assert!(BitVec::has_shape(&[], 0));
    assert!(!BitVec::has_shape(&[[0; 4]], 0));
    assert!(BitVec::has_shape(&[[u64::MAX; 4]], 256));
    assert!(!BitVec::has_shape(&[[u64::MAX; 4]], 255));
    assert!(BitVec::has_shape(&[[0x7F, 0, 0, 0]], 7));
    assert!(!BitVec::has_shape(&[[0xFF, 0, 0, 0]], 7));
    assert!(!BitVec::has_shape(&[[0, 0, 0, 1]], 192));
    assert!(BitVec::has_shape(&[[0, 0, 1, 0]], 129));
    assert!(!BitVec::has_shape(&[[0; 4], [0; 4]], 256));
}

#[test]
fn shrink_to_current_length() {
    let mut v = BitVec::from_slice(&[1, 4]);
    let old = v.clone();
    v.shrink_to(v.len());
    assert!(v == old);
    v.shrink_to(2);
    assert_eq!(v.into_bools(), vec![false, true]);
}

#[test]
fn bits_as_text() {
    let v = BitVec::from_slice(&[0, 3]);
    assert_eq!(v.to_string(), "1001");
    assert_eq!(BitVec::zeros(0).to_string(), "");
    assert_eq!(BitVec::ones(3).to_string(), "111");
}

#[test]
fn shrink_and_grow() {
    let mut v = BitVec::ones(600);
    v.shrink_to(300);
    assert_eq!(v.len(), 300);
    assert_eq!(v.count_ones(), 300);
    v.resize(700, false);
    assert_eq!(v.count_ones(), 300);
    v.resize(900, true);
    assert_eq!(v.count_ones(), 500);
    assert_eq!(v.leading_zeros(), 0);
    v.resize(650, true);
    assert_eq!(v.count_ones(), 300);
    assert_eq!(v.leading_zeros(), 350);
}

#[test]
fn index_and_equality() {
    let v = BitVec::from_slice(&[2, 7]);
    assert_eq!(v.len(), 8);
    assert!(v[2]);
    assert!(!v[3]);
    assert!(v[7]);
    assert!(v != BitVec::from_slice(&[2, 6]));
    assert!(v != BitVec::zeros(9));
    assert!(v == v.clone());
}

#[test]
fn item_operations() {
    assert_eq!(<u64 as BitContainerItem>::BIT_WIDTH, 64);
    assert_eq!(<u8 as BitContainerItem>::BIT_WIDTH, 8);
    assert_eq!(<u16 as BitContainerItem>::MAX, 0xFFFF);
    assert_eq!(<u32 as BitContainerItem>::ONE, 1);
    assert_eq!(BitContainerItem::count_ones(0b1011_0001u8), 4);
    assert_eq!(BitContainerItem::count_ones(u64::MAX), 64);
    assert_eq!(BitContainerItem::count_ones(0x8000u16), 1);
    assert_eq!(BitContainerItem::leading_zeros(1u32), 31);
    assert_eq!(BitContainerItem::leading_zeros(0u8), 8);
    assert_eq!(BitContainerItem::leading_zeros(1u64 << 40), 23);
    assert_eq!(BitContainerItem::wrapping_shl(1u8, 9), 2);
    assert_eq!(BitContainerItem::wrapping_shr(0x80u8, 7), 1);
    assert_eq!(BitContainerItem::clear_high_bits(0xFFFFu16, 4), 0x0FFF);
    assert_eq!(BitContainerItem::clear_low_bits(0xFFFF_FFFFu32, 8), 0xFFFF_FF00);
    assert_eq!(BitContainerItem::clear_high_bits(u64::MAX, 64), u64::MAX);
}

#[test]
fn container_operations() {
    let mut a: [u64; 4] = [0b1100, 1, u64::MAX, 0];
    let b: [u64; 4] = [0b1010, 3, 0, u64::MAX];
    assert_eq!(BitContainer::<4>::to_array(a), a);
    assert_eq!(<[u64; 4] as BitContainer<4>>::from_array(b), b);
    BitContainer::<4>::and_inplace(&mut a, &b);
    assert_eq!(a, [0b1000, 1, 0, 0]);
    BitContainer::<4>::or_inplace(&mut a, &b);
    assert_eq!(a, [0b1010, 3, 0, u64::MAX]);
    BitContainer::<4>::xor_inplace(&mut a, &[0b1111, 3, 7, u64::MAX]);
    assert_eq!(a, [0b0101, 0, 7, 0]);
    assert_eq!(<[u64; 4] as BitContainer<4>>::LANES, 4);
    assert_eq!(<[u64; 4] as BitContainer<4>>::BIT_WIDTH, 256);
    assert_eq!(<[u64; 4] as BitContainer<4>>::MAX, [u64::MAX; 4]);
}

#[test]
fn set_raw_copy_cuts_a_longer_storage() {
    let mut v = BitVec::ones(600);
    assert_eq!(v.storage_len(), 3);
    let buffer = [[1, 0, 0, 0], [0b1001, 0, 0, 0]];
    assert!(BitVec::has_shape(&buffer, 260));
    v.set_raw_copy(&buffer, 2, 260);
    assert_eq!(v.len(), 260);
    assert_eq!(v.storage_len(), 2);
    assert_eq!(v.into_usizes(), vec![0, 256, 259]);
}

#[test]
fn from_slice_grows_to_the_largest_index() {
    let v = BitVec::from_slice(&[3, 40, 7]);
    assert_eq!(v.len(), 41);
    assert_eq!(v.into_usizes(), vec![3, 7, 40]);
    let w = BitVec::from_slice(&[1, 1, 0]);
    assert_eq!(w.len(), 3);
    assert_eq!(w.into_usizes(), vec![0, 1]);
    assert_eq!(BitVec::from_slice(&[]).len(), 0);
}

#[test]
fn storage_capacity_stays_within_the_address_space() {
    let v = BitVec::ones(2000);
    let cap = v.storage_capacity();
    assert!(cap >= v.storage_len());
    assert!(cap <= isize::MAX as usize / 32);
}
