use bitsvec::BitVec;

fn from_fn<F: Fn(usize) -> bool>(n: usize, f: F) -> BitVec {
    let bools: Vec<bool> = (0..n).map(f).collect();
    BitVec::from_bool_iterator(&bools)
}

const SIZES: [usize; 12] = [0, 1, 63, 64, 65, 127, 128, 192, 255, 256, 257, 1000];

#[test]
fn law_difference_or_is_xor() {
    for &n in SIZES.iter() {
        let a = from_fn(n, |x| x % 2 == 0);
        let b = from_fn(n, |x| x % 3 == 0);
        let lhs = a.difference_cloned(&b) | b.difference_cloned(&a);
        assert!(lhs == a.xor_cloned(&b));
        assert!(a.difference_cloned(&b) == a.and_cloned(&b.inverse()));
    }
}

#[test]
fn law_inverse_inverse() {
    for &n in SIZES.iter() {
        let a = from_fn(n, |x| x % 5 == 1);
        assert!(a.inverse().inverse() == a);
    }
}

#[test]
fn law_count_ones_inverse() {
    for &n in SIZES.iter() {
        let a = from_fn(n, |x| x % 7 < 3);
        assert_eq!(a.count_ones() + a.inverse().count_ones(), n);
    }
}

#[test]
fn law_count_ones_of_constant() {
    for &n in SIZES.iter() {
        assert_eq!(BitVec::ones(n).count_ones(), n);
        assert_eq!(BitVec::zeros(n).count_ones(), 0);
        let mut v = BitVec::zeros(n);
        v.set_all_true();
        assert_eq!(v.count_ones(), n);
        v.set_all(false);
        assert_eq!(v.count_ones(), 0);
        assert_eq!(BitVec::zeros(n).inverse().count_ones(), n);
    }
}

#[test]
fn law_all_none_by_count() {
    for &n in SIZES.iter() {
        let ones = BitVec::ones(n);
        assert_eq!(ones.all(), ones.count_ones() == n);
        let zeros = BitVec::zeros(n);
        assert!(zeros.none());
        assert!(zeros.is_empty());
        assert!(!zeros.any());
        assert!(zeros.all() == (n == 0));
        let a = from_fn(n, |x| x == n / 2);
        assert_eq!(a.any(), a.count_ones() > 0);
        assert_eq!(a.none(), a.count_ones() == 0);
    }
}

#[test]
fn law_count_ones_before() {
    for &n in SIZES.iter() {
        let a = from_fn(n, |x| x % 3 != 1);
        assert_eq!(a.count_ones_before(n), a.count_ones());
        let mut expected = 0;
        for k in 0..n {
            assert_eq!(a.count_ones_before(k), expected);
            if a.get_unchecked(k) {
                expected += 1;
            }
        }
    }
    let ones = BitVec::ones(100);
    assert_eq!(ones.count_ones_before(1), 1);
    assert_eq!(ones.count_ones_before(64), 64);
    assert_eq!(ones.count_ones_before(65), 65);
}

#[test]
fn law_get_after_set() {
    let mut v = BitVec::zeros(10);
    v.set(256, true);
    assert_eq!(v.len(), 257);
    assert_eq!(v.get(256), Some(true));
    assert_eq!(v.count_ones(), 1);
    for i in 0..256 {
        assert_eq!(v.get(i), Some(false));
    }
    v.set(3, true);
    v.set(256, false);
    assert_eq!(v.get(3), Some(true));
    assert_eq!(v.get(256), Some(false));
    assert_eq!(v.len(), 257);
    let mut w = BitVec::ones(5);
    w.set(2, false);
    assert_eq!(w.into_bools(), vec![true, true, false, true, true]);
}

#[test]
fn law_set_keeps_count_before() {
    let mut v = BitVec::ones(300);
    let before = v.count_ones_before(200);
    v.set(250, false);
    v.set(700, true);
    assert_eq!(v.count_ones_before(200), before);
    assert_eq!(v.count_ones(), 300);
}

#[test]
fn law_resize_keeps_prefix() {
    for &n in SIZES.iter() {
        for &m in SIZES.iter() {
            for &value in [false, true].iter() {
                let a = from_fn(n, |x| x % 3 == 0);
                let mut b = from_fn(n, |x| x % 3 == 0);
                b.resize(m, value);
                assert_eq!(b.len(), m);
                for j in 0..m {
                    let expected = if j < n { a.get_unchecked(j) } else { value };
                    assert_eq!(b.get_unchecked(j), expected);
                }
                let count = (0..m).filter(|&j| b.get_unchecked(j)).count();
                assert_eq!(b.count_ones(), count);
                assert_eq!(b.storage_len(), (m + 255) / 256);
            }
        }
    }
}

#[test]
fn law_usizes_are_the_set() {
    for &n in SIZES.iter() {
        let a = from_fn(n, |x| x % 4 == 3);
        let count = a.count_ones();
        let b = a.clone();
        let usizes = a.into_usizes();
        assert_eq!(usizes.len(), count);
        for w in usizes.windows(2) {
            assert!(w[0] < w[1]);
        }
        for j in 0..n {
            assert_eq!(b.get_unchecked(j), usizes.contains(&j));
        }
    }
}

#[test]
fn law_leading_zeros_single() {
    for &n in SIZES.iter() {
        assert_eq!(BitVec::zeros(n).leading_zeros(), n);
        for i in 0..n {
            let mut v = BitVec::zeros(n);
            v.set(i, true);
            assert_eq!(v.leading_zeros(), n - 1 - i);
        }
    }
    assert_eq!(BitVec::ones(300).leading_zeros(), 0);
}

#[test]
fn law_and_or_xor_pointwise() {
    for &n in SIZES.iter() {
        let a = from_fn(n, |x| x % 2 == 0);
        let b = from_fn(n, |x| x % 3 == 0);
        let and = a.and_cloned(&b);
        let or = a.or_cloned(&b);
        let xor = a.xor_cloned(&b);
        for j in 0..n {
            let (x, y) = (a.get_unchecked(j), b.get_unchecked(j));
            assert_eq!(and.get_unchecked(j), x && y);
            assert_eq!(or.get_unchecked(j), x || y);
            assert_eq!(xor.get_unchecked(j), x != y);
        }
        let mut c = a.clone();
        c.and_inplace(&b);
        assert!(c == and);
        let mut c = a.clone();
        c.or_inplace(&b);
        assert!(c == or);
        let mut c = a.clone();
        c.xor_inplace(&b);
        assert!(c == xor);
        assert!(a.clone().and(b.clone()) == and);
        assert!(a.clone().or(b.clone()) == or);
        assert!(a.clone().xor(b.clone()) == xor);
        assert!((&a & &b) == and);
        assert!((&a | &b) == or);
        assert!((&a ^ &b) == xor);
        assert!((a.clone() & &b) == and);
        assert!((&a | b.clone()) == or);
        assert!((a.clone() ^ b.clone()) == xor);
        assert!((a.clone() | b.clone()) == or);
        assert!(!(&a) == a.inverse());
        assert!(!a.clone() == a.inverse());
    }
}

#[test]
fn law_round_trips() {
    let bools: Vec<bool> = (0..300).map(|x| x % 7 == 2).collect();
    let v = BitVec::from_bool_iterator(&bools);
    assert_eq!(Vec::<bool>::from(v.clone()), bools);
    assert_eq!(v.clone().into_bools(), bools);
    let usizes: Vec<usize> = Vec::from(v.clone());
    assert_eq!(BitVec::from_slice(&usizes).into_usizes(), usizes);
}
