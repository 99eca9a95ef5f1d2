//! The mathematical model: which bit of a word, of a container and of a
//! sequence of containers is on, and the counting functions the contracts use.
use vstd::prelude::*;

verus! {

/// Number of bits held by one container (four 64-bit lanes).
pub const CONTAINER_BITS: usize = 256;

/// Number of bits of one lane.
pub const ELEMENT_BITS: usize = 64;

/// Number of 64-bit lanes in one container.
pub const LANES: usize = 4;

/// Whether bit `j` (counted from the least significant bit) of `w` is on.
pub open spec fn word_bit(w: u64, j: u64) -> bool {
    (w >> j) & 1u64 == 1u64
}

/// The 64 bits of a word, least significant first.
pub open spec fn word_bits(w: u64) -> Seq<bool> {
    Seq::new(64, |j: int| word_bit(w, j as u64))
}

/// Whether bit `j` (`0 <= j < 256`) of a container is on: lane `j / 64`,
/// bit `j % 64` of that lane.
pub open spec fn container_bit(c: [u64; 4], j: int) -> bool {
    word_bit(c[j / 64], (j % 64) as u64)
}

/// Whether every lane of `c` is `w`.
pub open spec fn lanes_all(c: [u64; 4], w: u64) -> bool {
    c[0] == w && c[1] == w && c[2] == w && c[3] == w
}

/// Whether each lane of `r` is the complement of the same lane of `a`.
pub open spec fn lanes_not(r: [u64; 4], a: [u64; 4]) -> bool {
    r[0] == !a[0] && r[1] == !a[1] && r[2] == !a[2] && r[3] == !a[3]
}

/// Whether bit `i` of a sequence of containers is on.
pub open spec fn items_bit(items: Seq<[u64; 4]>, i: int) -> bool {
    container_bit(items[i / 256], i % 256)
}

/// Bit `j` of a sequence of words: word `j / 64`, bit `j % 64`.
pub open spec fn words_bit(words: Seq<u64>, j: int) -> bool {
    word_bit(words[j / 64], (j % 64) as u64)
}

/// The first `n` bits of a sequence of containers.
pub open spec fn bits_view(items: Seq<[u64; 4]>, n: nat) -> Seq<bool> {
    Seq::new(n, |i: int| items_bit(items, i))
}

/// The least number of containers that hold `n` bits.
pub open spec fn containers_for(n: nat) -> nat {
    ((n + 255) / 256) as nat
}

/// The shape every bit vector keeps: exactly as many containers as its
/// length needs, and every bit at or past its length off.
pub open spec fn storage_wf(items: Seq<[u64; 4]>, n: nat) -> bool {
    &&& items.len() == containers_for(n)
    &&& forall|i: int| n <= i < 256 * items.len() ==> !#[trigger] items_bit(items, i)
}

/// Number of `true` entries of a sequence.
pub open spec fn count_true(s: Seq<bool>) -> nat
    decreases s.len(),
{
    if s.len() == 0 {
        0
    } else {
        count_true(s.drop_last()) + if s.last() {
            1nat
        } else {
            0nat
        }
    }
}

/// A sequence of `n` copies of `b`.
pub open spec fn repeat_bool(b: bool, n: nat) -> Seq<bool> {
    Seq::new(n, |i: int| b)
}

/// Bit by bit, `true` where both are (the intersection of two sets).
pub open spec fn and_bits(a: Seq<bool>, b: Seq<bool>) -> Seq<bool> {
    Seq::new(a.len(), |j: int| a[j] && b[j])
}

/// Bit by bit, `true` where either is (the union of two sets).
pub open spec fn or_bits(a: Seq<bool>, b: Seq<bool>) -> Seq<bool> {
    Seq::new(a.len(), |j: int| a[j] || b[j])
}

/// Bit by bit, `true` where exactly one is (the symmetric difference).
pub open spec fn xor_bits(a: Seq<bool>, b: Seq<bool>) -> Seq<bool> {
    Seq::new(a.len(), |j: int| a[j] != b[j])
}

/// Bit by bit, `true` where `a` is and `b` is not (the difference `a \ b`).
pub open spec fn difference_bits(a: Seq<bool>, b: Seq<bool>) -> Seq<bool> {
    Seq::new(a.len(), |j: int| a[j] && !b[j])
}

/// Every bit flipped (the complement within the length).
pub open spec fn not_bits(a: Seq<bool>) -> Seq<bool> {
    Seq::new(a.len(), |j: int| !a[j])
}

/// `v` with bit `index` set to `flag`, after growing `v` with `false` bits
/// to `index + 1` bits when `index` is not below its length.
pub open spec fn set_bits(v: Seq<bool>, index: int, flag: bool) -> Seq<bool> {
    (if index < v.len() {
        v
    } else {
        v + repeat_bool(false, (index + 1 - v.len()) as nat)
    }).update(index, flag)
}

/// `v` cut to `n` bits, or grown to `n` bits with copies of `value`.
pub open spec fn resize_bits(v: Seq<bool>, n: nat, value: bool) -> Seq<bool> {
    if n <= v.len() {
        v.take(n as int)
    } else {
        v + repeat_bool(value, (n - v.len()) as nat)
    }
}

/// The bits as text: `'1'` for a bit that is on, `'0'` for one that is
/// off, lowest index first.
pub open spec fn bits_text(v: Seq<bool>) -> Seq<char> {
    Seq::new(v.len(), |i: int| if v[i] {
        '1'
    } else {
        '0'
    })
}

/// Index of the last `true` entry of `s`, or `-1` when there is none.
pub open spec fn last_true(s: Seq<bool>) -> int
    decreases s.len(),
{
    if s.len() == 0 {
        -1
    } else if s.last() {
        s.len() - 1
    } else {
        last_true(s.drop_last())
    }
}

/// The length of a vector of length `n` after setting each index of `s`,
/// in order: each index not below the current length first grows the
/// vector to one past it.
pub open spec fn grown_len(s: Seq<usize>, n: nat) -> nat
    decreases s.len(),
{
    if s.len() == 0 {
        n
    } else {
        let m = grown_len(s.drop_last(), n);
        if (s.last() as nat) < m {
            m
        } else {
            (s.last() + 1) as nat
        }
    }
}

/// The indices of the `true` entries of `s`, in increasing order.
pub open spec fn true_indices(s: Seq<bool>) -> Seq<usize>
    decreases s.len(),
{
    if s.len() == 0 {
        Seq::empty()
    } else if s.last() {
        true_indices(s.drop_last()).push((s.len() - 1) as usize)
    } else {
        true_indices(s.drop_last())
    }
}

} // verus!

verus! {

/// Counting splits over concatenation.
pub proof fn lemma_count_true_append(a: Seq<bool>, b: Seq<bool>)
    ensures
        count_true(a + b) == count_true(a) + count_true(b),
    decreases b.len(),
{
    if b.len() == 0 {
        assert(a + b =~= a);
    } else {
        lemma_count_true_append(a, b.drop_last());
        assert((a + b).drop_last() =~= a + b.drop_last());
    }
}

/// At most every entry is `true`; all are exactly when the count is the length,
/// and none exactly when it is zero.
pub proof fn lemma_count_true_bounds(s: Seq<bool>)
    ensures
        count_true(s) <= s.len(),
        (count_true(s) == s.len()) <==> (forall|i: int| 0 <= i < s.len() ==> s[i]),
        (count_true(s) == 0) <==> (forall|i: int| 0 <= i < s.len() ==> !s[i]),
    decreases s.len(),
{
    if s.len() > 0 {
        let t = s.drop_last();
        lemma_count_true_bounds(t);
        assert forall|i: int| 0 <= i < t.len() implies t[i] == s[i] by {}
        if (forall|i: int| 0 <= i < s.len() ==> s[i]) {
            assert(forall|i: int| 0 <= i < t.len() ==> t[i]);
        }
        if (forall|i: int| 0 <= i < s.len() ==> !s[i]) {
            assert(forall|i: int| 0 <= i < t.len() ==> !t[i]);
        }
        if count_true(s) == s.len() {
            assert forall|i: int| 0 <= i < s.len() implies s[i] by {
                if i < t.len() {
                    assert(t[i]);
                }
            }
        }
        if count_true(s) == 0 {
            assert forall|i: int| 0 <= i < s.len() implies !s[i] by {
                if i < t.len() {
                    assert(!t[i]);
                }
            }
        }
    }
}

/// Setting each index of `s` in turn grows a vector of length `n` to the
/// larger of `n` and one past the largest index.
pub proof fn lemma_grown_len(s: Seq<usize>, n: nat)
    ensures
        grown_len(s, n) >= n,
        forall|k: int| 0 <= k < s.len() ==> (#[trigger] s[k]) < grown_len(s, n),
        grown_len(s, n) == n || exists|k: int| 0 <= k < s.len() && grown_len(s, n) == s[k] + 1,
    decreases s.len(),
{
    if s.len() > 0 {
        let t = s.drop_last();
        lemma_grown_len(t, n);
        assert forall|k: int| 0 <= k < s.len() implies (#[trigger] s[k]) < grown_len(s, n) by {
            if k < t.len() {
                assert(t[k] == s[k]);
            }
        }
        if grown_len(s, n) != n {
            if grown_len(s, n) == s.last() + 1 {
                assert(grown_len(s, n) == s[s.len() - 1] + 1);
            } else {
                let k = choose|k: int| 0 <= k < t.len() && grown_len(t, n) == t[k] + 1;
                assert(grown_len(s, n) == s[k] + 1);
            }
        }
    }
}

/// The last `true` entry is the one with nothing `true` after it.
pub proof fn lemma_last_true(s: Seq<bool>, h: int)
    requires
        -1 <= h < s.len(),
        h >= 0 ==> s[h],
        forall|j: int| h < j < s.len() ==> !s[j],
    ensures
        last_true(s) == h,
    decreases s.len(),
{
    if s.len() > 0 && h < s.len() - 1 {
        lemma_last_true(s.drop_last(), h);
    }
}

/// The indices listed are increasing, below the length, each of a `true`
/// entry, and every `true` entry is listed.
pub proof fn lemma_true_indices(s: Seq<bool>)
    requires
        s.len() <= usize::MAX + 1,
    ensures
        forall|a: int, b: int|
            0 <= a < b < true_indices(s).len() ==> true_indices(s)[a] < true_indices(s)[b],
        forall|a: int|
            0 <= a < true_indices(s).len() ==> true_indices(s)[a] < s.len() && s[true_indices(
                s,
            )[a] as int],
        forall|i: int| 0 <= i < s.len() && s[i] ==> true_indices(s).contains(i as usize),
    decreases s.len(),
{
    if s.len() > 0 {
        let t = s.drop_last();
        lemma_true_indices(t);
        assert forall|i: int| 0 <= i < s.len() && s[i] implies true_indices(s).contains(
            i as usize,
        ) by {
            if i < t.len() {
                assert(t[i]);
                let k = choose|k: int|
                    0 <= k < true_indices(t).len() && true_indices(t)[k] == i as usize;
                if s.last() {
                    assert(true_indices(s)[k] == i as usize);
                } else {
                    assert(true_indices(s)[k] == i as usize);
                }
            } else {
                assert(true_indices(s).last() == i as usize);
            }
        }
    }
}

} // verus!
