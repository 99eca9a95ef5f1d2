//! Properties of the bit vector that span several operations, stated over
//! the views that the operations' contracts use.
use crate::model::{
    and_bits, count_true, difference_bits, last_true, lemma_count_true_bounds, lemma_last_true, lemma_true_indices, not_bits, or_bits, repeat_bool,
    resize_bits, set_bits, true_indices, xor_bits,
};
use vstd::prelude::*;

verus! {

/// `a.difference(b) | b.difference(a)` equals `a ^ b`.
pub proof fn lemma_difference_or_is_xor(a: Seq<bool>, b: Seq<bool>)
    requires
        a.len() == b.len(),
    ensures
        or_bits(difference_bits(a, b), difference_bits(b, a)) == xor_bits(a, b),
{
    assert(or_bits(difference_bits(a, b), difference_bits(b, a)) =~= xor_bits(a, b));
}

/// `a.difference(b)` is `a & !b`.
pub proof fn lemma_difference_is_and_not(a: Seq<bool>, b: Seq<bool>)
    requires
        a.len() == b.len(),
    ensures
        difference_bits(a, b) == and_bits(a, not_bits(b)),
{
    assert(difference_bits(a, b) =~= and_bits(a, not_bits(b)));
}

/// Inverting twice gives back the vector.
pub proof fn lemma_inverse_inverse(a: Seq<bool>)
    ensures
        not_bits(not_bits(a)) == a,
{
    assert(not_bits(not_bits(a)) =~= a);
}

/// A vector and its inverse count, together, one bit for each position.
pub proof fn lemma_count_ones_inverse(a: Seq<bool>)
    ensures
        count_true(a) + count_true(not_bits(a)) == a.len(),
    decreases a.len(),
{
    if a.len() > 0 {
        lemma_count_true_inverse_step(a);
        lemma_count_ones_inverse(a.drop_last());
    }
}

proof fn lemma_count_true_inverse_step(a: Seq<bool>)
    requires
        a.len() > 0,
    ensures
        not_bits(a).drop_last() == not_bits(a.drop_last()),
{
    assert(not_bits(a).drop_last() =~= not_bits(a.drop_last()));
}

/// A vector of ones counts every bit; a vector of zeros counts none.
pub proof fn lemma_count_ones_of_constant(n: nat)
    ensures
        count_true(repeat_bool(true, n)) == n,
        count_true(repeat_bool(false, n)) == 0,
{
    lemma_count_true_bounds(repeat_bool(true, n));
    lemma_count_true_bounds(repeat_bool(false, n));
}

/// `all` holds exactly when `count_ones` is the length, and `none` (and
/// `is_empty`, and the negation of `any`) exactly when it is zero.
pub proof fn lemma_all_none_by_count(a: Seq<bool>)
    ensures
        (forall|j: int| 0 <= j < a.len() ==> a[j]) <==> count_true(a) == a.len(),
        (forall|j: int| 0 <= j < a.len() ==> !a[j]) <==> count_true(a) == 0,
        (exists|j: int| 0 <= j < a.len() && a[j]) <==> count_true(a) > 0,
{
    lemma_count_true_bounds(a);
}

/// Counting below the length counts every bit.
pub proof fn lemma_count_ones_before_len(a: Seq<bool>)
    ensures
        count_true(a.take(a.len() as int)) == count_true(a),
{
    assert(a.take(a.len() as int) =~= a);
}

/// Counting below `k` counts the bits below `k` and no more: it grows by
/// one exactly at each bit that is on.
pub proof fn lemma_count_ones_before_step(a: Seq<bool>, k: int)
    requires
        0 <= k < a.len(),
    ensures
        count_true(a.take(k + 1)) == count_true(a.take(k)) + if a[k] {
            1int
        } else {
            0int
        },
{
    assert(a.take(k + 1).drop_last() =~= a.take(k));
}

/// Setting a bit gives that bit back, leaves every other bit of the vector
/// as it was, and, past the length, grows the vector with bits that are off.
pub proof fn lemma_get_after_set(v: Seq<bool>, index: int, flag: bool)
    requires
        0 <= index,
    ensures
        set_bits(v, index, flag).len() == if index < v.len() {
            v.len() as int
        } else {
            index + 1
        },
        set_bits(v, index, flag)[index] == flag,
        forall|j: int| 0 <= j < v.len() && j != index ==> #[trigger] set_bits(v, index, flag)[j] == v[j],
        forall|j: int|
            v.len() <= j < index ==> !#[trigger] set_bits(v, index, flag)[j],
{
}

/// Setting a bit at or past `k` does not change the count below `k`.
pub proof fn lemma_set_keeps_count_before(v: Seq<bool>, index: int, flag: bool, k: int)
    requires
        0 <= k <= index,
        k <= v.len(),
    ensures
        count_true(set_bits(v, index, flag).take(k)) == count_true(v.take(k)),
{
    assert(set_bits(v, index, flag).take(k) =~= v.take(k));
}

/// Resizing keeps the bits below both lengths and gives the new length;
/// resizing to the current length changes nothing.
pub proof fn lemma_resize_keeps_prefix(v: Seq<bool>, n: nat, value: bool)
    ensures
        resize_bits(v, n, value).len() == n,
        forall|j: int| 0 <= j < n && j < v.len() ==> #[trigger] resize_bits(v, n, value)[j] == v[j],
        forall|j: int| v.len() <= j < n ==> #[trigger] resize_bits(v, n, value)[j] == value,
        resize_bits(v, v.len(), value) == v,
{
    assert(v.take(v.len() as int) =~= v);
}

/// The indices listed by `into_usizes` are as many as `count_ones`, are
/// increasing, and are exactly those of the bits that are on.
pub proof fn lemma_usizes_are_the_set(a: Seq<bool>)
    requires
        a.len() <= usize::MAX,
    ensures
        true_indices(a).len() == count_true(a),
        forall|x: int, y: int|
            0 <= x < y < true_indices(a).len() ==> true_indices(a)[x] < true_indices(a)[y],
        forall|j: int| 0 <= j < a.len() ==> (a[j] <==> true_indices(a).contains(j as usize)),
    decreases a.len(),
{
    lemma_true_indices(a);
    if a.len() > 0 {
        lemma_usizes_are_the_set(a.drop_last());
    }
    assert forall|j: int| 0 <= j < a.len() && true_indices(a).contains(j as usize) implies a[j] by {
        let x = choose|x: int| 0 <= x < true_indices(a).len() && true_indices(a)[x] == j as usize;
        assert(a[true_indices(a)[x] as int]);
    }
}

/// In a vector whose only bit on is `i`, the leading zeros are the bits
/// above `i`.
pub proof fn lemma_leading_zeros_single(n: nat, i: int)
    requires
        0 <= i < n,
    ensures
        n - 1 - last_true(set_bits(repeat_bool(false, n), i, true)) == n - 1 - i,
{
    let v = set_bits(repeat_bool(false, n), i, true);
    lemma_last_true(v, i);
}

} // verus!
