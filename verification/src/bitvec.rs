//! `BitVecSimd`: a bit vector over a small vector of 256-bit containers.
use crate::container::BitContainer;
use crate::item::{lemma_u64_item, shift_mod, BitContainerItem};
use crate::model::{
    and_bits, bits_view, container_bit, containers_for, count_true, difference_bits, grown_len,
    items_bit, lanes_all, lanes_not, last_true, lemma_count_true_append, lemma_count_true_bounds,
    lemma_grown_len, lemma_last_true, not_bits, or_bits, repeat_bool, resize_bits, set_bits,
    storage_wf, true_indices, word_bit, word_bits, words_bit, xor_bits, CONTAINER_BITS,
    ELEMENT_BITS, LANES,
};
use crate::storage::{storage_items, Storage};
use vstd::prelude::*;

verus! {

/// A vector of bits, read as the set of indices whose bit is on.
///
/// Container `c` holds bits `256 * c .. 256 * c + 256`; in it, lane `l`
/// holds bits `64 * l .. 64 * l + 64`, least significant first.
#[derive(Debug)]
pub struct BitVecSimd {
    storage: Storage,
    nbits: usize,
}

/// The bit vector of this library.
pub type BitVec = BitVecSimd;

impl View for BitVecSimd {
    type V = Seq<bool>;

    /// Bit `i` of the vector, for `i < len`.
    closed spec fn view(&self) -> Seq<bool> {
        bits_view(storage_items(self.storage), self.nbits as nat)
    }
}

/// Bit `b` (`b < 64`) of `w` as the mask test the vector uses.
proof fn lemma_mask_test(w: u64, b: u64)
    requires
        b < 64,
    ensures
        ((w & (1u64 << b)) != 0u64) == word_bit(w, b),
{
    assert(b < 64 ==> (((w & (1u64 << b)) != 0u64) == ((w >> b) & 1u64 == 1u64))) by (bit_vector);
}

/// No bit of the zero word is on.
proof fn lemma_zero_word()
    ensures
        forall|j: u64| j < 64 ==> !#[trigger] word_bit(0u64, j),
        forall|j: u64| j < 64 ==> #[trigger] word_bit(0xFFFF_FFFF_FFFF_FFFFu64, j),
{
    assert(forall|j: u64| j < 64 ==> (0u64 >> j) & 1u64 != 1u64) by (bit_vector);
    assert(forall|j: u64| j < 64 ==> (0xFFFF_FFFF_FFFF_FFFFu64 >> j) & 1u64 == 1u64)
        by (bit_vector);
}

/// How a bit index splits into container, lane and bit.
proof fn lemma_split_index(i: int)
    requires
        0 <= i,
    ensures
        i / 256 * 256 + (i % 256) / 64 * 64 + i % 64 == i,
        i == 256 * (i / 256) + i % 256,
        0 <= i % 256 < 256,
        i % 256 == 64 * ((i % 256) / 64) + i % 64,
        (i % 256) % 64 == i % 64,
        0 <= (i % 256) / 64 < 4,
{
}

/// The containers for any length fit in the storage, with room for one more.
proof fn lemma_containers_fit(n: int)
    requires
        0 <= n <= usize::MAX,
    ensures
        n / 256 + 2 <= isize::MAX / 64,
        containers_for(n as nat) + 1 <= isize::MAX / 64,
{
}

/// A bit index is fixed by its container, lane and bit.
proof fn lemma_split_unique(i: int, k: int)
    requires
        0 <= i,
        0 <= k,
        i / 256 == k / 256,
        (i % 256) / 64 == (k % 256) / 64,
        i % 64 == k % 64,
    ensures
        i == k,
{
    lemma_split_index(i);
    lemma_split_index(k);
}

impl BitVecSimd {
    /// The containers of the vector.
    closed spec fn items(&self) -> Seq<[u64; 4]> {
        storage_items(self.storage)
    }

    /// The vector keeps exactly the containers its length needs, with every
    /// bit past its length off.
    #[verifier::type_invariant]
    closed spec fn wf(&self) -> bool {
        storage_wf(self.items(), self.nbits as nat)
    }

    /// Hand out the storage and the length, leaving `self` empty.
    fn take(&mut self) -> (r: (Storage, usize))
        ensures
            storage_items(r.0) == old(self).items(),
            r.1 == old(self).nbits,
            storage_wf(storage_items(r.0), r.1 as nat),
    {
        let mut v = BitVecSimd { storage: Storage::new(), nbits: 0 };
        core::mem::swap(self, &mut v);
        proof {
            use_type_invariant(&v);
        }
        let BitVecSimd { storage, nbits } = v;
        (storage, nbits)
    }

    /// Container, lane and bit of bit index `nbits`: `(nbits / 256,
    /// nbits % 256 / 64, nbits % 64)`.
    fn bit_to_len(nbits: usize) -> (r: (usize, usize, usize))
        ensures
            r.0 == nbits / 256,
            r.1 == nbits % 256 / 64,
            r.2 == nbits % 64,
            r.1 < 4,
            r.2 < 64,
    {
        (nbits / CONTAINER_BITS, nbits % CONTAINER_BITS / ELEMENT_BITS, nbits % ELEMENT_BITS)
    }

    /// `bytes` with bit `offset` set to `flag`.
    fn set_bit(flag: bool, bytes: u64, offset: u32) -> (r: u64)
        requires
            offset < 64,
        ensures
            forall|j: u64|
                j < 64 ==> #[trigger] word_bit(r, j) == if j == offset {
                    flag
                } else {
                    word_bit(bytes, j)
                },
    {
        let one: u64 = 1;
        let r = if flag {
            bytes | one.wrapping_shl(offset)
        } else {
            bytes & !one.wrapping_shl(offset)
        };
        proof {
            let o = offset as u64;
            assert((1u64 << (offset % 64)) == (1u64 << o)) by (bit_vector)
                requires
                    o == offset,
                    o < 64,
            ;
            assert forall|j: u64| j < 64 implies #[trigger] word_bit(r, j) == if j == offset {
                flag
            } else {
                word_bit(bytes, j)
            } by {
                if flag {
                    assert(r == bytes | (1u64 << o));
                    assert(o < 64 && j < 64 ==> (((bytes | (1u64 << o)) >> j) & 1u64 == 1u64) == (
                    j == o || (bytes >> j) & 1u64 == 1u64)) by (bit_vector);
                } else {
                    assert(r == bytes & !(1u64 << o));
                    assert(o < 64 && j < 64 ==> (((bytes & !(1u64 << o)) >> j) & 1u64 == 1u64) == (
                    j != o && (bytes >> j) & 1u64 == 1u64)) by (bit_vector);
                }
            }
        }
        r
    }

    /// A vector of `nbits` bits, all off.
    pub fn zeros(nbits: usize) -> (r: Self)
        requires
            nbits + 255 <= usize::MAX,
        ensures
            r@ == repeat_bool(false, nbits as nat),
    {
        let len = (nbits + (CONTAINER_BITS - 1)) / CONTAINER_BITS;
        let mut storage = Storage::new();
        let mut k: usize = 0;
        while k < len
            invariant
                k <= len,
                len == containers_for(nbits as nat),
                storage_items(storage).len() == k,
                forall|c: int| 0 <= c < k ==> lanes_all(#[trigger] storage_items(storage)[c], 0u64),
            decreases len - k,
        {
            storage.push([0u64, 0u64, 0u64, 0u64]);
            k = k + 1;
        }
        proof {
            lemma_zero_word();
            assert forall|i: int| 0 <= i < 256 * len implies !#[trigger] items_bit(
                storage_items(storage),
                i,
            ) by {
                lemma_split_index(i);
                assert(lanes_all(storage_items(storage)[i / 256], 0u64));
            }
            assert(bits_view(storage_items(storage), nbits as nat) =~= repeat_bool(false, nbits as nat));
        }
        BitVecSimd { storage, nbits }
    }

    /// The length of the vector.
    pub fn len(&self) -> (r: usize)
        ensures
            r == self@.len(),
    {
        self.nbits
    }

    /// The number of 256-bit containers in the storage.
    pub fn storage_len(&self) -> (r: usize)
        ensures
            r == containers_for(self@.len()),
    {
        proof {
            use_type_invariant(self);
        }
        self.storage.len()
    }

    /// The number of containers the storage holds without growing: at
    /// least those in use, and at least the four of the inline buffer.
    pub fn storage_capacity(&self) -> (r: usize)
        ensures
            r >= containers_for(self@.len()),
            r >= 4,
            r <= isize::MAX / 32,
    {
        proof {
            use_type_invariant(self);
        }
        self.storage.capacity()
    }

    /// Whether the storage has moved from its inline buffer (four
    /// containers) to the heap; it has whenever it needs more than four.
    /// With four or fewer, the answer depends on how the storage grew
    /// before (a heap buffer is kept when the vector shrinks) and is left
    /// unsaid.
    pub fn spilled(&self) -> (r: bool)
        ensures
            containers_for(self@.len()) > 4 ==> r,
    {
        proof {
            use_type_invariant(self);
        }
        self.storage.spilled()
    }

    /// Bit `index`, or `None` when `index` is not below the length.
    pub fn get(&self, index: usize) -> (r: Option<bool>)
        ensures
            r == if index < self@.len() {
                Some(self@[index as int])
            } else {
                None::<bool>
            },
    {
        proof {
            use_type_invariant(self);
        }
        if self.nbits <= index {
            None
        } else {
            Some(self.get_unchecked(index))
        }
    }

    /// Bit `index`; `index` must be below the length.
    pub fn get_unchecked(&self, index: usize) -> (r: bool)
        requires
            index < self@.len(),
        ensures
            r == self@[index as int],
    {
        proof {
            use_type_invariant(self);
        }
        let (c, l, b) = Self::bit_to_len(index);
        proof {
            lemma_split_index(index as int);
        }
        let arr = self.storage.get(c);
        let w = arr[l];
        let one: u64 = 1;
        let r = w & one.wrapping_shl(b as u32) != 0u64;
        proof {
            assert((1u64 << ((b as u32) % 64) as u32) == (1u64 << (b as u64))) by (bit_vector)
                requires
                    b < 64,
            ;
            lemma_mask_test(w, b as u64);
        }
        r
    }

    /// Set bit `index` to `flag`; when `index` is not below the length, the
    /// vector first grows to `index + 1` bits, the new ones off.
    pub fn set(&mut self, index: usize, flag: bool)
        requires
            index < usize::MAX,
        ensures
            final(self)@ == set_bits(old(self)@, index as int, flag),
    {
        proof {
            use_type_invariant(&*self);
        }
        let (c, l, b) = Self::bit_to_len(index);
        proof {
            lemma_split_index(index as int);
            lemma_zero_word();
        }
        let ghost n0 = self.nbits as nat;
        let ghost before = self.items();
        let (mut storage, mut nbits) = self.take();
        if nbits <= index {
            storage.resize(c + 1, [0u64, 0u64, 0u64, 0u64]);
            nbits = index + 1;
            proof {
                let after = storage_items(storage);
                assert(after.len() == c + 1);
                assert forall|i: int| 0 <= i < 256 * after.len() implies #[trigger] items_bit(
                    after,
                    i,
                ) == (i < n0 && items_bit(before, i)) by {
                    lemma_split_index(i);
                    if i / 256 < before.len() {
                        assert(after[i / 256] == before[i / 256]);
                        if i >= n0 {
                            assert(!items_bit(before, i));
                        }
                    } else {
                        assert(lanes_all(after[i / 256], 0u64));
                        assert(after[i / 256][(i % 256) / 64] == 0u64);
                        assert(!word_bit(0u64, (i % 64) as u64));
                        assert(i >= n0);
                    }
                }
            }
        }
        let mut arr = storage.get(c);
        arr[l] = Self::set_bit(flag, arr[l], b as u32);
        let ghost mid = storage_items(storage);
        storage.set(c, arr);
        proof {
            let after = storage_items(storage);
            assert forall|i: int| 0 <= i < 256 * after.len() implies #[trigger] items_bit(after, i)
                == if i == index {
                flag
            } else {
                items_bit(mid, i)
            } by {
                lemma_split_index(i);
                if i / 256 == c && (i % 256) / 64 == l && i % 64 == b {
                    lemma_split_unique(i, index as int);
                } else if i / 256 == c && (i % 256) / 64 == l {
                    assert(i != index);
                } else {
                    assert(i != index);
                }
            }
            assert(bits_view(after, nbits as nat) =~= (if index < n0 {
                bits_view(before, n0)
            } else {
                bits_view(before, n0) + repeat_bool(false, (index + 1 - n0) as nat)
            }).update(index as int, flag));
        }
        *self = BitVecSimd { storage, nbits };
    }
}


impl BitVecSimd {
    /// Keep the first `64 * bytes + bits` bits of a container and turn off
    /// the rest.
    fn clear_arr_high_bits(arr: &mut [u64; 4], bytes: usize, bits: usize)
        requires
            bytes < 4,
            bits < 64,
        ensures
            forall|j: int|
                0 <= j < 256 ==> #[trigger] container_bit(*final(arr), j) == (j < 64 * bytes + bits
                    && container_bit(*old(arr), j)),
    {
        let ghost a0 = *arr;
        proof {
            lemma_u64_item();
        }
        let mut end_bytes = bytes;
        if bits > 0 {
            arr[end_bytes] = arr[end_bytes].clear_high_bits((ELEMENT_BITS - bits) as u32);
            end_bytes = end_bytes + 1;
        }
        let ghost a1 = *arr;
        let mut k = end_bytes;
        while k < LANES
            invariant
                end_bytes <= k <= 4,
                end_bytes <= 4,
                forall|l: int| 0 <= l < end_bytes ==> #[trigger] arr[l] == a1[l],
                forall|l: int| end_bytes <= l < k ==> #[trigger] arr[l] == 0u64,
            decreases 4 - k,
        {
            arr[k] = 0u64;
            k = k + 1;
        }
        proof {
            lemma_zero_word();
            assert forall|j: int| 0 <= j < 256 implies #[trigger] container_bit(*arr, j) == (j < 64
                * bytes + bits && container_bit(a0, j)) by {
                let l = j / 64;
                let b = j % 64;
                if l < bytes {
                    assert(arr[l] == a0[l]);
                } else if l == bytes && bits > 0 {
                    assert(shift_mod((64 - bits) as u32, 64) == 64 - bits);
                    assert(arr[l].spec_bit(b) == (b < bits && a0[l].spec_bit(b)));
                } else {
                    assert(arr[l] == 0u64);
                }
            }
        }
    }

    /// Turn on the bits of a container from `64 * bytes + bits` up to
    /// `64 * bytes_max`.
    fn fill_arr_high_bits(arr: &mut [u64; 4], bytes: usize, bits: usize, bytes_max: usize)
        requires
            bytes < 4,
            bits < 64,
            bytes_max <= 4,
            bits > 0 ==> bytes < bytes_max,
        ensures
            forall|j: int|
                0 <= j < 256 ==> #[trigger] container_bit(*final(arr), j) == ((64 * bytes + bits <= j
                    && j < 64 * bytes_max) || container_bit(*old(arr), j)),
    {
        let ghost a0 = *arr;
        proof {
            lemma_u64_item();
        }
        let mut end_bytes = bytes;
        let max: u64 = 0xFFFF_FFFF_FFFF_FFFFu64;
        let ghost mut mask: u64 = 0;
        if bits > 0 {
            let m = max.clear_low_bits(bits as u32);
            proof {
                mask = m;
            }
            arr[end_bytes] = arr[end_bytes] | m;
            proof {
                let w = a0[bytes as int];
                assert(shift_mod(bits as u32, 64) == bits);
                assert forall|b: u64| b < 64 implies #[trigger] word_bit(w | m, b) == (word_bit(w, b)
                    || word_bit(m, b)) by {
                    assert(b < 64 ==> (((w | m) >> b) & 1u64 == 1u64) == ((w >> b) & 1u64 == 1u64
                        || (m >> b) & 1u64 == 1u64)) by (bit_vector);
                }
                lemma_zero_word();
                assert forall|b: int| 0 <= b < 64 implies #[trigger] m.spec_bit(b) == (b >= bits) by {
                    assert(word_bit(max, b as u64));
                    assert(max.spec_bit(b));
                }
            }
            end_bytes = end_bytes + 1;
        }
        let ghost a1 = *arr;
        let mut k = end_bytes;
        while k < bytes_max
            invariant
                end_bytes <= k,
                k <= bytes_max || k == end_bytes,
                bytes_max <= 4,
                end_bytes <= 4,
                forall|l: int| 0 <= l < 4 && !(end_bytes <= l < k) ==> #[trigger] arr[l] == a1[l],
                forall|l: int| end_bytes <= l < k ==> #[trigger] arr[l] == max,
            decreases 4 - k,
        {
            arr[k] = max;
            k = k + 1;
        }
        proof {
            lemma_zero_word();
            assert forall|j: int| 0 <= j < 256 implies #[trigger] container_bit(*arr, j) == ((64
                * bytes + bits <= j && j < 64 * bytes_max) || container_bit(a0, j)) by {
                let l = j / 64;
                let b = (j % 64) as u64;
                let w = a0[l];
                if l == bytes && bits > 0 {
                    let m = mask;
                    assert(arr[l] == a1[l]);
                    assert(a1[l] == w | m);
                    assert(word_bit(w | m, b) == (word_bit(w, b) || word_bit(m, b)));
                    assert(m.spec_bit(b as int) == (b >= bits));
                    assert(word_bit(arr[l], b) == (word_bit(w, b) || b >= bits));
                } else if end_bytes <= l < k {
                    assert(arr[l] == max);
                    assert(word_bit(max, b));
                } else {
                    assert(arr[l] == a0[l]);
                }
            }
        }
    }
}


impl BitVecSimd {
    /// In container `i`, keep the first `64 * bytes + bits` bits and turn
    /// off the rest; nothing changes when `bytes` and `bits` are both zero.
    fn clear_high_bits(st: &mut Storage, i: usize, bytes: usize, bits: usize)
        requires
            bytes < 4,
            bits < 64,
            bytes > 0 || bits > 0 ==> i < storage_items(*old(st)).len(),
        ensures
            storage_items(*final(st)).len() == storage_items(*old(st)).len(),
            forall|c: int|
                0 <= c < storage_items(*old(st)).len() && (c != i || (bytes == 0 && bits == 0)) ==> (
                #[trigger] storage_items(*final(st))[c]) == storage_items(*old(st))[c],
            bytes > 0 || bits > 0 ==> forall|j: int|
                0 <= j < 256 ==> #[trigger] container_bit(storage_items(*final(st))[i as int], j) == (j
                    < 64 * bytes + bits && container_bit(storage_items(*old(st))[i as int], j)),
    {
        if bytes > 0 || bits > 0 {
            let mut arr = st.get(i);
            Self::clear_arr_high_bits(&mut arr, bytes, bits);
            st.set(i, arr);
        }
    }

    /// In container `i`, turn on the bits from `64 * bytes + bits` up to
    /// `64 * bytes_max`; nothing changes when `bytes` and `bits` are both zero.
    fn fill_high_bits(st: &mut Storage, i: usize, bytes: usize, bits: usize, bytes_max: usize)
        requires
            bytes < 4,
            bits < 64,
            bytes_max <= 4,
            bits > 0 ==> bytes < bytes_max,
            bytes > 0 || bits > 0 ==> i < storage_items(*old(st)).len(),
        ensures
            storage_items(*final(st)).len() == storage_items(*old(st)).len(),
            forall|c: int|
                0 <= c < storage_items(*old(st)).len() && (c != i || (bytes == 0 && bits == 0)) ==> (
                #[trigger] storage_items(*final(st))[c]) == storage_items(*old(st))[c],
            bytes > 0 || bits > 0 ==> forall|j: int|
                0 <= j < 256 ==> #[trigger] container_bit(storage_items(*final(st))[i as int], j) == ((
                64 * bytes + bits <= j && j < 64 * bytes_max) || container_bit(
                    storage_items(*old(st))[i as int],
                    j,
                )),
    {
        if bytes > 0 || bits > 0 {
            let mut arr = st.get(i);
            Self::fill_arr_high_bits(&mut arr, bytes, bits, bytes_max);
            st.set(i, arr);
        }
    }

    /// Container `i` held bits up to `64 * old_bytes + old_bits` and is
    /// to hold bits up to `64 * bytes + bits`: turn on the bits between the
    /// two ends and turn off those past the new end.
    fn fix_high_bits(
        st: &mut Storage,
        old_i: usize,
        old_bytes: usize,
        old_bits: usize,
        i: usize,
        bytes: usize,
        bits: usize,
    )
        requires
            old_i == i,
            old_bytes <= bytes < 4,
            old_bits < 64,
            bits < 64,
            bytes > 0 || bits > 0,
            old_bytes == bytes ==> old_bits <= bits,
            i < storage_items(*old(st)).len(),
        ensures
            storage_items(*final(st)).len() == storage_items(*old(st)).len(),
            forall|c: int|
                0 <= c < storage_items(*old(st)).len() && c != i ==> (#[trigger] storage_items(
                    *final(st),
                )[c]) == storage_items(*old(st))[c],
            forall|j: int|
                0 <= j < 256 ==> #[trigger] container_bit(storage_items(*final(st))[i as int], j) == (j
                    < 64 * bytes + bits && (64 * old_bytes + old_bits <= j || container_bit(
                    storage_items(*old(st))[i as int],
                    j,
                ))),
    {
        let mut arr = st.get(i);
        let ghost a0 = arr;
        if old_bytes < bytes {
            Self::fill_arr_high_bits(
                &mut arr,
                old_bytes,
                old_bits,
                if bits > 0 {
                    bytes + 1
                } else {
                    bytes
                },
            );
        } else {
            if bits > old_bits {
                Self::fill_arr_high_bits(&mut arr, old_bytes, old_bits, bytes + 1);
            }
        }
        let ghost a1 = arr;
        Self::clear_arr_high_bits(&mut arr, bytes, bits);
        st.set(i, arr);
        proof {
            assert forall|j: int| 0 <= j < 256 implies #[trigger] container_bit(arr, j) == (j < 64
                * bytes + bits && (64 * old_bytes + old_bits <= j || container_bit(a0, j))) by {
                assert(container_bit(a1, j) == container_bit(a1, j));
            }
        }
    }

    /// Change the length to `nbits`: cut the vector, or grow it with new
    /// bits equal to `value`.
    pub fn resize(&mut self, nbits: usize, value: bool)
        requires
        ensures
            final(self)@ == resize_bits(old(self)@, nbits as nat, value),
    {
        proof {
            use_type_invariant(&*self);
        }
        let ghost items0 = self.items();
        let ghost n0 = self.nbits as int;
        let (mut storage, old_nbits) = self.take();
        let (i, bytes, bits) = Self::bit_to_len(nbits);
        let max: u64 = 0xFFFF_FFFF_FFFF_FFFFu64;
        let fill = if value {
            [max, max, max, max]
        } else {
            [0u64, 0u64, 0u64, 0u64]
        };
        proof {
            lemma_zero_word();
            lemma_split_index(nbits as int);
            lemma_split_index(n0);
            assert forall|j: int| 0 <= j < 256 implies #[trigger] container_bit(fill, j) == value by {
                assert(word_bit(fill[j / 64], (j % 64) as u64) == value);
            }
        }
        storage.resize(
            if bytes > 0 || bits > 0 {
                i + 1
            } else {
                i
            },
            fill,
        );
        let ghost items1 = storage_items(storage);
        if nbits < old_nbits {
            Self::clear_high_bits(&mut storage, i, bytes, bits);
        } else if value {
            let (old_i, old_bytes, old_bits) = Self::bit_to_len(old_nbits);
            if old_i < i {
                Self::fill_high_bits(&mut storage, old_i, old_bytes, old_bits, LANES);
                Self::clear_high_bits(&mut storage, i, bytes, bits);
            } else if bytes > 0 || bits > 0 {
                Self::fix_high_bits(&mut storage, old_i, old_bytes, old_bits, i, bytes, bits);
            }
        }
        proof {
            let items2 = storage_items(storage);
            assert(items2.len() == containers_for(nbits as nat));
            assert forall|j: int| 0 <= j < 256 * items2.len() implies #[trigger] items_bit(items2, j)
                == (j < nbits && if j < n0 {
                items_bit(items0, j)
            } else {
                value
            }) by {
                lemma_split_index(j);
                let c = j / 256;
                if c < items0.len() {
                    assert(items1[c] == items0[c]);
                } else {
                    assert(items1[c] == fill);
                }
                if j >= n0 && c < items0.len() {
                    assert(!items_bit(items0, j));
                }
            }
            assert(bits_view(items2, nbits as nat) =~= if nbits <= n0 {
                bits_view(items0, n0 as nat).take(nbits as int)
            } else {
                bits_view(items0, n0 as nat) + repeat_bool(value, (nbits - n0) as nat)
            });
        }
        *self = BitVecSimd { storage, nbits };
    }
}


/// A sequence of containers whose bits are exactly `f` below `n` and off
/// from `n` on has the shape of a vector of length `n` with view `f`.
proof fn lemma_bits_exact(items: Seq<[u64; 4]>, n: nat, f: spec_fn(int) -> bool)
    requires
        items.len() == containers_for(n),
        forall|j: int|
            0 <= j < 256 * items.len() ==> #[trigger] items_bit(items, j) == (j < n && f(j)),
    ensures
        storage_wf(items, n),
        bits_view(items, n) == Seq::new(n, f),
{
    assert forall|j: int| 0 <= j < n implies #[trigger] bits_view(items, n)[j] == f(j) by {
        assert(j < 256 * items.len());
    }
    assert(bits_view(items, n) =~= Seq::new(n, f));
}

impl BitVecSimd {
    /// Turn off the bits of the last container past bit `nbits`.
    fn clear_tail(st: &mut Storage, nbits: usize)
        requires
            storage_items(*old(st)).len() == containers_for(nbits as nat),
        ensures
            storage_wf(storage_items(*final(st)), nbits as nat),
            bits_view(storage_items(*final(st)), nbits as nat) == bits_view(
                storage_items(*old(st)),
                nbits as nat,
            ),
    {
        let ghost items0 = storage_items(*st);
        let (i, bytes, bits) = Self::bit_to_len(nbits);
        proof {
            lemma_split_index(nbits as int);
        }
        Self::clear_high_bits(st, i, bytes, bits);
        proof {
            let items1 = storage_items(*st);
            assert forall|j: int| 0 <= j < 256 * items1.len() implies #[trigger] items_bit(items1, j)
                == (j < nbits && items_bit(items0, j)) by {
                lemma_split_index(j);
            }
            lemma_bits_exact(items1, nbits as nat, |j: int| items_bit(items0, j));
            assert(bits_view(items0, nbits as nat) =~= Seq::new(
                nbits as nat,
                |j: int| items_bit(items0, j),
            ));
        }
    }

    /// A vector of `nbits` bits, all on.
    pub fn ones(nbits: usize) -> (r: Self)
        ensures
            r@ == repeat_bool(true, nbits as nat),
    {
        let (len, bytes, bits) = Self::bit_to_len(nbits);
        proof {
            lemma_split_index(nbits as int);
        }
        let max: u64 = 0xFFFF_FFFF_FFFF_FFFFu64;
        let mut storage = Storage::new();
        let mut k: usize = 0;
        while k < len
            invariant
                k <= len,
                len == nbits / 256,
                storage_items(storage).len() == k,
                forall|c: int| 0 <= c < k ==> lanes_all(#[trigger] storage_items(storage)[c], max),
            decreases len - k,
        {
            storage.push([max, max, max, max]);
            k = k + 1;
        }
        if bytes > 0 || bits > 0 {
            let mut arr = [max, max, max, max];
            Self::clear_arr_high_bits(&mut arr, bytes, bits);
            storage.push(arr);
        }
        proof {
            lemma_zero_word();
            let items = storage_items(storage);
            assert forall|j: int| 0 <= j < 256 * items.len() implies #[trigger] items_bit(items, j)
                == (j < nbits && true) by {
                lemma_split_index(j);
                if j / 256 < len {
                    assert(lanes_all(items[j / 256], max));
                    assert(items[j / 256][(j % 256) / 64] == max);
                    assert(word_bit(max, (j % 64) as u64));
                } else {
                    assert(container_bit([max, max, max, max], j % 256)) by {
                        assert([max, max, max, max][(j % 256) / 64] == max);
                        assert(word_bit(max, (j % 64) as u64));
                    }
                }
            }
            lemma_bits_exact(items, nbits as nat, |j: int| true);
            assert(Seq::new(nbits as nat, |j: int| true) =~= repeat_bool(true, nbits as nat));
        }
        BitVecSimd { storage, nbits }
    }

    /// A vector with the given bits, in order.
    pub fn from_bool_iterator(bools: &[bool]) -> (r: Self)
        ensures
            r@ == bools@,
    {
        let mut storage = Storage::new();
        let mut current = [0u64, 0u64, 0u64, 0u64];
        let mut nbits: usize = 0;
        proof {
            lemma_zero_word();
        }
        while nbits < bools.len()
            invariant
                nbits <= bools.len(),
                storage_items(storage).len() == nbits / 256,
                forall|j: int|
                    0 <= j < 256 * storage_items(storage).len() ==> #[trigger] items_bit(
                        storage_items(storage),
                        j,
                    ) == bools@[j],
                forall|j: int|
                    0 <= j < 256 ==> #[trigger] container_bit(current, j) == (j < nbits % 256
                        && bools@[nbits - nbits % 256 + j]),
            decreases bools.len() - nbits,
        {
            let ghost cur0 = current;
            let ghost n0 = nbits as int;
            if bools[nbits] {
                let (_, l, b) = Self::bit_to_len(nbits);
                current[l] = Self::set_bit(true, current[l], b as u32);
                proof {
                    lemma_split_index(n0);
                    assert forall|j: int| 0 <= j < 256 implies #[trigger] container_bit(current, j)
                        == (container_bit(cur0, j) || j == n0 % 256) by {
                        if j / 64 == l && j % 64 == b {
                        } else if j / 64 == l {
                        } else {
                        }
                    }
                }
            }
            nbits = nbits + 1;
            proof {
                lemma_split_index(n0);
                assert forall|j: int| 0 <= j < 256 implies #[trigger] container_bit(current, j) == (j
                    < (n0 + 1) - (n0 - n0 % 256) && bools@[n0 - n0 % 256 + j]) by {
                    if j == n0 % 256 {
                    } else {
                        assert(container_bit(cur0, j) == container_bit(cur0, j));
                    }
                }
            }
            if nbits % CONTAINER_BITS == 0 {
                let ghost items0 = storage_items(storage);
                let ghost pushed = current;
                storage.push(current);
                current = [0u64, 0u64, 0u64, 0u64];
                proof {
                    let items1 = storage_items(storage);
                    assert forall|j: int| 0 <= j < 256 * items1.len() implies #[trigger] items_bit(
                        items1,
                        j,
                    ) == bools@[j] by {
                        lemma_split_index(j);
                        if j / 256 < items0.len() {
                            assert(items1[j / 256] == items0[j / 256]);
                            assert(items_bit(items0, j) == bools@[j]);
                            assert(items_bit(items1, j) == bools@[j]);
                        } else {
                            assert(items1[j / 256] == pushed);
                            assert(j / 256 == n0 / 256);
                            assert(n0 - n0 % 256 + j % 256 == j);
                            assert(j % 256 < (n0 + 1) - (n0 - n0 % 256));
                            assert(items_bit(items1, j) == bools@[j]);
                            assert(container_bit(pushed, j % 256) == bools@[n0 - n0 % 256 + j % 256]);
                        }
                    }
                    assert forall|j: int| 0 <= j < 256 implies #[trigger] container_bit(current, j)
                        == (j < nbits % 256 && bools@[nbits - nbits % 256 + j]) by {
                        lemma_zero_word();
                        assert(current[j / 64] == 0u64);
                    }
                }
            } else {
                proof {
                    assert(nbits / 256 == n0 / 256);
                    assert(nbits - nbits % 256 == n0 - n0 % 256);
                }
            }
        }
        let ghost full = storage_items(storage);
        if nbits % CONTAINER_BITS > 0 {
            storage.push(current);
        }
        proof {
            let items = storage_items(storage);
            assert forall|j: int| 0 <= j < 256 * items.len() implies #[trigger] items_bit(items, j) == (j
                < nbits && bools@[j]) by {
                lemma_split_index(j);
                lemma_split_index(nbits as int);
                if j / 256 < nbits / 256 {
                    assert(items[j / 256] == full[j / 256]);
                    assert(items_bit(full, j) == bools@[j]);
                } else {
                    assert(j / 256 == nbits / 256);
                    assert(items[j / 256] == current);
                    assert(nbits - nbits % 256 + j % 256 == j);
                    assert(container_bit(current, j % 256) == (j % 256 < nbits % 256 && bools@[nbits
                        - nbits % 256 + j % 256]));
                    assert((j % 256 < nbits % 256) == (j < nbits));
                }
            }
            lemma_bits_exact(items, nbits as nat, |j: int| bools@[j]);
            assert(Seq::new(nbits as nat, |j: int| bools@[j]) =~= bools@);
        }
        BitVecSimd { storage, nbits }
    }
}


/// Appending the container built from words `4 * c .. 4 * c + 4` of `words`
/// (zero past the end, and cut at bit `n` when it holds that bit) extends
/// the bits `words_bit` below `n` by one container.
proof fn lemma_copy_step(
    items0: Seq<[u64; 4]>,
    arr: [u64; 4],
    a0: [u64; 4],
    words: Seq<u64>,
    n: int,
    c: int,
)
    requires
        0 <= n,
        (n + 63) / 64 <= words.len(),
        items0.len() == c,
        0 <= c < containers_for(n as nat),
        forall|j: int|
            0 <= j < 256 * c ==> #[trigger] items_bit(items0, j) == (j < n && words_bit(words, j)),
        forall|m: int|
            0 <= m < 4 ==> #[trigger] a0[m] == if 4 * c + m < words.len() {
                words[4 * c + m]
            } else {
                0u64
            },
        c == n / 256 && n % 256 > 0 ==> forall|j: int|
            0 <= j < 256 ==> #[trigger] container_bit(arr, j) == (j < n % 256 && container_bit(
                a0,
                j,
            )),
        !(c == n / 256 && n % 256 > 0) ==> arr == a0,
    ensures
        forall|j: int|
            0 <= j < 256 * (c + 1) ==> #[trigger] items_bit(items0.push(arr), j) == (j < n
                && words_bit(words, j)),
{
    let items1 = items0.push(arr);
    assert forall|j: int| 0 <= j < 256 * (c + 1) implies #[trigger] items_bit(items1, j) == (j < n
        && words_bit(words, j)) by {
        lemma_split_index(j);
        if j / 256 < c {
            assert(items1[j / 256] == items0[j / 256]);
            assert(items_bit(items0, j) == (j < n && words_bit(words, j)));
        } else {
            assert(j / 256 == c);
            assert(items1[j / 256] == arr);
            let m = (j % 256) / 64;
            assert(j / 64 == 4 * c + m);
            if j < n {
                assert(j / 64 < (n + 63) / 64);
                assert(a0[m] == words[j / 64]);
                assert(container_bit(a0, j % 256) == words_bit(words, j));
            }
            if c == n / 256 && n % 256 > 0 {
                assert(container_bit(arr, j % 256) == (j % 256 < n % 256 && container_bit(
                    a0,
                    j % 256,
                )));
                assert((j % 256 < n % 256) == (j < n));
                assert(items_bit(items1, j) == container_bit(arr, j % 256));
            } else {
                assert(c < n / 256);
                assert(j < n);
                assert(items_bit(items1, j) == container_bit(a0, j % 256));
            }
        }
    }
}

impl BitVecSimd {
    /// A vector of `nbits` bits copied from a slice of 64-bit words: bit
    /// `j` is bit `j % 64` of word `j / 64`.  The slice must hold the
    /// `(nbits + 63) / 64` words those bits live in.
    pub fn from_slice_copy(slice: &[u64], nbits: usize) -> (r: Self)
        requires
            nbits + 63 <= usize::MAX,
            (nbits + 63) / 64 <= slice@.len(),
        ensures
            r@ == Seq::new(nbits as nat, |j: int| words_bit(slice@, j)),
    {
        let (i, bytes, bits) = Self::bit_to_len(nbits);
        let count = if bytes > 0 || bits > 0 {
            i + 1
        } else {
            i
        };
        let mut storage = Storage::new();
        proof {
            lemma_split_index(nbits as int);
        }
        let mut c: usize = 0;
        while c < count
            invariant
                c <= count,
                count == containers_for(nbits as nat),
                i == nbits / 256,
                bytes == nbits % 256 / 64,
                bits == nbits % 64,
                (nbits + 63) / 64 <= slice@.len(),
                nbits + 63 <= usize::MAX,
                storage_items(storage).len() == c,
                forall|j: int|
                    0 <= j < 256 * c ==> #[trigger] items_bit(storage_items(storage), j) == (j < nbits
                        && words_bit(slice@, j)),
            decreases count - c,
        {
            let mut arr = [0u64, 0u64, 0u64, 0u64];
            let mut l: usize = 0;
            while l < LANES
                invariant
                    l <= 4,
                    c < count,
                    count == containers_for(nbits as nat),
                    nbits + 63 <= usize::MAX,
                    forall|m: int| l <= m < 4 ==> #[trigger] arr[m] == 0u64,
                    forall|m: int|
                        0 <= m < l ==> #[trigger] arr[m] == if 4 * c + m < slice@.len() {
                            slice@[4 * c + m]
                        } else {
                            0u64
                        },
                decreases 4 - l,
            {
                let k = 4 * c + l;
                if k < slice.len() {
                    arr[l] = slice[k];
                }
                l = l + 1;
            }
            let ghost a0 = arr;
            if c == i && (bytes > 0 || bits > 0) {
                Self::clear_arr_high_bits(&mut arr, bytes, bits);
            }
            let ghost items0 = storage_items(storage);
            storage.push(arr);
            proof {
                lemma_split_index(nbits as int);
                lemma_copy_step(items0, arr, a0, slice@, nbits as int, c as int);
            }
            c = c + 1;
        }
        proof {
            let items = storage_items(storage);
            lemma_bits_exact(items, nbits as nat, |j: int| words_bit(slice@, j));
        }
        BitVecSimd { storage, nbits }
    }
}


impl BitVecSimd {
    /// A vector of `nbits` bits copied from the first `buffer_len` words of
    /// a buffer, laid out as in `from_slice_copy`; the words the bits live in
    /// must be among those `buffer_len`.
    pub fn from_raw_copy(buffer: &[u64], buffer_len: usize, nbits: usize) -> (r: Self)
        requires
            nbits + 63 <= usize::MAX,
            (nbits + 63) / 64 <= buffer_len,
            buffer_len <= buffer@.len(),
        ensures
            r@ == Seq::new(nbits as nat, |j: int| words_bit(buffer@, j)),
    {
        Self::from_slice_copy(buffer, nbits)
    }

    /// Whether the containers have the shape of a vector of `nbits` bits:
    /// exactly the containers `nbits` bits need, with no bit on past `nbits`
    /// (what `set_raw` and `set_raw_copy` ask of their buffers).
    pub fn has_shape(containers: &[[u64; 4]], nbits: usize) -> (r: bool)
        ensures
            r == storage_wf(containers@, nbits as nat),
    {
        let (i, bytes, bits) = Self::bit_to_len(nbits);
        proof {
            lemma_split_index(nbits as int);
        }
        let need = if bytes > 0 || bits > 0 {
            i + 1
        } else {
            i
        };
        if containers.len() != need {
            return false;
        }
        if bytes == 0 && bits == 0 {
            return true;
        }
        let last = containers[i];
        let mut cut = last;
        Self::clear_arr_high_bits(&mut cut, bytes, bits);
        let same = cut[0] == last[0] && cut[1] == last[1] && cut[2] == last[2] && cut[3] == last[3];
        proof {
            let items = containers@;
            let off = 64 * bytes + bits;
            if same {
                assert forall|j: int| nbits <= j < 256 * items.len() implies !#[trigger] items_bit(
                    items,
                    j,
                ) by {
                    lemma_split_index(j);
                    assert(j / 256 == i);
                    assert(cut =~= last);
                    assert(container_bit(cut, j % 256) == (j % 256 < off && container_bit(
                        last,
                        j % 256,
                    )));
                }
            } else {
                let l: int = if cut[0] != last[0] {
                    0
                } else if cut[1] != last[1] {
                    1
                } else if cut[2] != last[2] {
                    2
                } else {
                    3
                };
                assert(cut[l] != last[l]);
                if forall|b: int| 0 <= b < 64 ==> cut[l].spec_bit(b) == last[l].spec_bit(b) {
                    lemma_u64_item();
                    <u64 as BitContainerItem>::lemma_bits_determine(cut[l], last[l]);
                }
                let b = choose|b: int| 0 <= b < 64 && cut[l].spec_bit(b) != last[l].spec_bit(b);
                let j = 256 * i + 64 * l + b;
                lemma_split_index(j);
                assert(j / 256 == i);
                assert(j % 256 == 64 * l + b);
                assert(container_bit(cut, j % 256) != container_bit(last, j % 256));
                assert(j >= nbits);
                assert(items_bit(items, j));
            }
        }
        same
    }

    /// Copy the first `(nbits + 255) / 256` containers of a buffer into the
    /// storage, which is first grown with zero containers or cut to that
    /// many, and make `nbits` the length.  Those containers must be among
    /// the first `buffer_len`, and, as the raw buffer they stand for must,
    /// they must have no bit on past `nbits`.
    pub fn set_raw_copy(&mut self, buffer: &[[u64; 4]], buffer_len: usize, nbits: usize)
        requires
            nbits + 255 <= usize::MAX,
            (nbits + 255) / 256 <= buffer_len,
            buffer_len <= buffer@.len(),
            storage_wf(buffer@.take((nbits + 255) / 256), nbits as nat),
        ensures
            final(self)@ == bits_view(buffer@, nbits as nat),
    {
        proof {
            use_type_invariant(&*self);
        }
        let new_len = (nbits + (CONTAINER_BITS - 1)) / CONTAINER_BITS;
        let (mut storage, _) = self.take();
        storage.resize(new_len, [0u64, 0u64, 0u64, 0u64]);
        let mut c: usize = 0;
        while c < new_len
            invariant
                c <= new_len,
                new_len <= buffer@.len(),
                storage_items(storage).len() == new_len,
                forall|k: int| 0 <= k < c ==> #[trigger] storage_items(storage)[k] == buffer@[k],
            decreases new_len - c,
        {
            storage.set(c, buffer[c]);
            c = c + 1;
        }
        proof {
            let items = storage_items(storage);
            let head = buffer@.take(new_len as int);
            assert(items =~= head);
            assert forall|j: int| 0 <= j < nbits implies #[trigger] bits_view(items, nbits as nat)[j]
                == bits_view(buffer@, nbits as nat)[j] by {
                lemma_split_index(j);
                assert(items[j / 256] == buffer@[j / 256]);
            }
            assert(bits_view(items, nbits as nat) =~= bits_view(buffer@, nbits as nat));
        }
        *self = BitVecSimd { storage, nbits };
    }

    /// Make the given containers the storage and `nbits` the length.  As the
    /// raw buffer they stand for must, the containers must already have the
    /// vector's shape: exactly the containers `nbits` bits need, with no bit
    /// on past `nbits`.
    pub fn set_raw(&mut self, buffer: Vec<[u64; 4]>, nbits: usize)
        requires
            storage_wf(buffer@, nbits as nat),
        ensures
            final(self)@ == bits_view(buffer@, nbits as nat),
    {
        let storage = Storage::from_vec(buffer);
        *self = BitVecSimd { storage, nbits };
    }

    /// Cut the vector to its first `nbits` bits; `nbits` must not be past
    /// the length (at the length, nothing changes).
    pub fn shrink_to(&mut self, nbits: usize)
        requires
            nbits <= old(self)@.len(),
        ensures
            final(self)@ == old(self)@.take(nbits as int),
    {
        self.resize(nbits, false);
    }

    /// Turn every bit off.
    pub fn set_all_false(&mut self)
        ensures
            final(self)@ == repeat_bool(false, old(self)@.len()),
    {
        let (mut storage, nbits) = self.take();
        let len = storage.len();
        let mut c: usize = 0;
        while c < len
            invariant
                c <= len,
                storage_items(storage).len() == len,
                forall|k: int| 0 <= k < c ==> lanes_all(#[trigger] storage_items(storage)[k], 0u64),
            decreases len - c,
        {
            storage.set(c, [0u64, 0u64, 0u64, 0u64]);
            c = c + 1;
        }
        proof {
            lemma_zero_word();
            let items = storage_items(storage);
            assert forall|j: int| 0 <= j < 256 * items.len() implies #[trigger] items_bit(items, j) == (j
                < nbits && false) by {
                lemma_split_index(j);
                assert(lanes_all(items[j / 256], 0u64));
                assert(items[j / 256][(j % 256) / 64] == 0u64);
            }
            lemma_bits_exact(items, nbits as nat, |j: int| false);
            assert(Seq::new(nbits as nat, |j: int| false) =~= repeat_bool(false, nbits as nat));
        }
        *self = BitVecSimd { storage, nbits };
    }

    /// Turn every bit on.
    pub fn set_all_true(&mut self)
        ensures
            final(self)@ == repeat_bool(true, old(self)@.len()),
    {
        let (mut storage, nbits) = self.take();
        let max: u64 = 0xFFFF_FFFF_FFFF_FFFFu64;
        let len = storage.len();
        let mut c: usize = 0;
        while c < len
            invariant
                c <= len,
                storage_items(storage).len() == len,
                forall|k: int| 0 <= k < c ==> lanes_all(#[trigger] storage_items(storage)[k], max),
            decreases len - c,
        {
            storage.set(c, [max, max, max, max]);
            c = c + 1;
        }
        let ghost items0 = storage_items(storage);
        Self::clear_tail(&mut storage, nbits);
        proof {
            lemma_zero_word();
            assert forall|j: int| 0 <= j < nbits implies #[trigger] bits_view(items0, nbits as nat)[j]
                == true by {
                lemma_split_index(j);
                assert(lanes_all(items0[j / 256], max));
                assert(items0[j / 256][(j % 256) / 64] == max);
                assert(word_bit(max, (j % 64) as u64));
            }
            assert(bits_view(storage_items(storage), nbits as nat) =~= repeat_bool(
                true,
                nbits as nat,
            ));
        }
        *self = BitVecSimd { storage, nbits };
    }

    /// Set every bit to `flag`.
    pub fn set_all(&mut self, flag: bool)
        ensures
            final(self)@ == repeat_bool(flag, old(self)@.len()),
    {
        if flag {
            self.set_all_true();
        } else {
            self.set_all_false();
        }
    }

    /// A vector of the same length with every bit flipped.
    pub fn inverse(&self) -> (r: Self)
        ensures
            r@ == not_bits(self@),
    {
        proof {
            use_type_invariant(self);
        }
        let len = self.storage.len();
        let mut storage = Storage::new();
        let mut c: usize = 0;
        while c < len
            invariant
                c <= len,
                len == self.items().len(),
                storage_items(storage).len() == c,
                forall|k: int|
                    0 <= k < c ==> lanes_not(#[trigger] storage_items(storage)[k], self.items()[k]),
            decreases len - c,
        {
            let a = self.storage.get(c);
            proof {
                use_type_invariant(self);
                lemma_containers_fit(self.nbits as int);
            }
            storage.push([!a[0], !a[1], !a[2], !a[3]]);
            c = c + 1;
        }
        let ghost items0 = storage_items(storage);
        Self::clear_tail(&mut storage, self.nbits);
        proof {
            assert forall|j: int| 0 <= j < self.nbits implies #[trigger] bits_view(
                items0,
                self.nbits as nat,
            )[j] == !self@[j] by {
                lemma_split_index(j);
                let w = self.items()[j / 256][(j % 256) / 64];
                let b = (j % 64) as u64;
                assert(lanes_not(items0[j / 256], self.items()[j / 256]));
                assert(items0[j / 256][(j % 256) / 64] == !w);
                assert(b < 64 ==> (((!w) >> b) & 1u64 == 1u64) == !((w >> b) & 1u64 == 1u64))
                    by (bit_vector);
            }
            assert(bits_view(storage_items(storage), self.nbits as nat) =~= Seq::new(
                self@.len(),
                |j: int| !self@[j],
            ));
        }
        BitVecSimd { storage, nbits: self.nbits }
    }
}


/// The bits of the first `k + 1` words are those of the first `k` words
/// followed by word `k`.
proof fn lemma_bits_view_word(items: Seq<[u64; 4]>, k: int)
    requires
        0 <= k < 4 * items.len(),
    ensures
        bits_view(items, (64 * (k + 1)) as nat) == bits_view(items, (64 * k) as nat) + word_bits(
            items[k / 4][k % 4],
        ),
{
    let w = items[k / 4][k % 4];
    assert forall|j: int| 64 * k <= j < 64 * (k + 1) implies #[trigger] items_bit(items, j)
        == word_bit(w, (j - 64 * k) as u64) by {
        lemma_split_index(j);
        assert(j / 256 == k / 4);
        assert((j % 256) / 64 == k % 4);
        assert(j % 64 == j - 64 * k);
    }
    assert(bits_view(items, (64 * (k + 1)) as nat) =~= bits_view(items, (64 * k) as nat)
        + word_bits(w));
}

/// Past the length, a well-shaped sequence of containers adds no `true` bit.
proof fn lemma_count_bits_view(items: Seq<[u64; 4]>, n: nat, m: nat)
    requires
        storage_wf(items, n),
        m <= 256 * items.len(),
    ensures
        count_true(bits_view(items, m)) <= n,
        m >= n ==> count_true(bits_view(items, m)) == count_true(bits_view(items, n)),
{
    if m >= n {
        let tail = Seq::new((m - n) as nat, |j: int| items_bit(items, n + j));
        assert forall|j: int| 0 <= j < tail.len() implies !tail[j] by {
            assert(!items_bit(items, n + j));
        }
        lemma_count_true_bounds(tail);
        lemma_count_true_append(bits_view(items, n), tail);
        assert(bits_view(items, m) =~= bits_view(items, n) + tail);
        lemma_count_true_bounds(bits_view(items, n));
    } else {
        lemma_count_true_bounds(bits_view(items, m));
    }
}

/// The bits of a word masked to its `b` lowest bits.
proof fn lemma_low_mask(w: u64, b: u64)
    requires
        b < 64,
    ensures
        count_true(word_bits(w & ((1u64 << b) - 1u64) as u64)) == count_true(word_bits(w).take(
            b as int,
        )),
{
    let m = w & ((1u64 << b) - 1u64) as u64;
    assert forall|j: u64| j < 64 implies #[trigger] word_bit(m, j) == (j < b && word_bit(w, j)) by {
        assert(b < 64 && j < 64 ==> (((w & ((1u64 << b) - 1u64) as u64) >> j) & 1u64 == 1u64) == (j
            < b && (w >> j) & 1u64 == 1u64)) by (bit_vector);
    }
    let rest = Seq::new((64 - b) as nat, |j: int| false);
    lemma_count_true_bounds(rest);
    lemma_count_true_append(word_bits(w).take(b as int), rest);
    assert(word_bits(m) =~= word_bits(w).take(b as int) + rest);
}

/// The first `index` bits are the whole words below it followed by the low
/// bits of the next word.
proof fn lemma_prefix_split(items: Seq<[u64; 4]>, index: int)
    requires
        0 <= index <= 256 * items.len(),
        index % 64 > 0,
    ensures
        index / 64 < 4 * items.len(),
        bits_view(items, index as nat) == bits_view(items, (64 * (index / 64)) as nat) + word_bits(
            items[index / 64 / 4][index / 64 % 4],
        ).take(index % 64),
{
    let k = index / 64;
    lemma_bits_view_word(items, k);
    assert(bits_view(items, index as nat) =~= bits_view(items, (64 * (k + 1)) as nat).take(index));
    assert(bits_view(items, index as nat) =~= bits_view(items, (64 * k) as nat) + word_bits(
        items[k / 4][k % 4],
    ).take(index % 64));
}

impl BitVecSimd {
    /// Word `k` of the storage: lane `k % 4` of container `k / 4`.
    fn word(&self, k: usize) -> (r: u64)
        requires
            k < 4 * self.items().len(),
        ensures
            r == self.items()[(k / 4) as int][(k % 4) as int],
    {
        let c = self.storage.get(k / LANES);
        c[k % LANES]
    }

    /// The number of bits that are on among the first `64 * nwords`.
    fn count_words(&self, nwords: usize) -> (r: usize)
        requires
            nwords <= 4 * self.items().len(),
        ensures
            r == count_true(bits_view(self.items(), (64 * nwords) as nat)),
            r <= self.nbits,
    {
        proof {
            use_type_invariant(self);
            lemma_u64_item();
        }
        let mut total: usize = 0;
        let mut k: usize = 0;
        while k < nwords
            invariant
                k <= nwords <= 4 * self.items().len(),
                storage_wf(self.items(), self.nbits as nat),
                total == count_true(bits_view(self.items(), (64 * k) as nat)),
                total <= self.nbits,
            decreases nwords - k,
        {
            let w = self.word(k);
            let n = <u64 as BitContainerItem>::count_ones(w);
            proof {
                lemma_u64_item();
                assert(w.spec_bits() =~= word_bits(w));
                lemma_bits_view_word(self.items(), k as int);
                lemma_count_true_append(bits_view(self.items(), (64 * k) as nat), word_bits(w));
                lemma_count_bits_view(self.items(), self.nbits as nat, (64 * (k + 1)) as nat);
            }
            total = total + n as usize;
            k = k + 1;
        }
        total
    }

    /// The number of bits that are on.
    pub fn count_ones(&self) -> (r: usize)
        ensures
            r == count_true(self@),
    {
        proof {
            use_type_invariant(self);
        }
        let r = self.count_words(LANES * self.storage.len());
        proof {
            lemma_count_bits_view(
                self.items(),
                self.nbits as nat,
                (256 * self.items().len()) as nat,
            );
            assert(256 * self.items().len() >= self.nbits) by {
                lemma_split_index(self.nbits as int);
            }
        }
        r
    }

    /// The number of bits that are on below `index`; `index` must not be
    /// past the length.
    pub fn count_ones_before(&self, index: usize) -> (r: usize)
        requires
            index <= self@.len(),
        ensures
            r == count_true(self@.take(index as int)),
    {
        proof {
            use_type_invariant(self);
            lemma_u64_item();
            lemma_split_index(index as int);
        }
        let (i, bytes, bits) = Self::bit_to_len(index);
        let full = LANES * i + bytes;
        let mut ones = self.count_words(full);
        if bits > 0 {
            let w = self.word(full);
            let b = bits as u64;
            assert(1u64 << b >= 1u64) by (bit_vector)
                requires
                    b < 64,
            ;
            let masked = w & ((1u64 << b) - 1u64);
            let n = <u64 as BitContainerItem>::count_ones(masked);
            proof {
                lemma_u64_item();
                lemma_low_mask(w, b);
                assert(masked.spec_bits() =~= word_bits(masked));
                lemma_prefix_split(self.items(), index as int);
                lemma_count_true_append(
                    bits_view(self.items(), (64 * full) as nat),
                    word_bits(w).take(bits as int),
                );
                lemma_count_bits_view(self.items(), self.nbits as nat, index as nat);
            }
            ones = ones + n as usize;
        }
        proof {
            assert(bits_view(self.items(), index as nat) =~= self@.take(index as int));
        }
        ones
    }
}


/// A word other than zero has a bit that is on.
proof fn lemma_nonzero_word(w: u64)
    requires
        w != 0u64,
    ensures
        exists|b: u64| b < 64 && #[trigger] word_bit(w, b),
{
    if forall|b: u64| b < 64 ==> !#[trigger] word_bit(w, b) {
        lemma_u64_item();
        lemma_zero_word();
        <u64 as BitContainerItem>::lemma_constants();
        assert forall|i: int| 0 <= i < 64 implies w.spec_bit(i) == (0u64).spec_bit(i) by {
            assert(!word_bit(w, i as u64));
            assert(!word_bit(0u64, i as u64));
        }
        <u64 as BitContainerItem>::lemma_bits_determine(w, 0u64);
    }
}

/// Bit `64 * k + b` of a sequence of containers is bit `b` of word `k`.
proof fn lemma_word_bit_index(items: Seq<[u64; 4]>, k: int, b: int)
    requires
        0 <= k < 4 * items.len(),
        0 <= b < 64,
    ensures
        items_bit(items, 64 * k + b) == word_bit(items[k / 4][k % 4], b as u64),
{
    lemma_split_index(64 * k + b);
}

impl BitVecSimd {
    /// The number of bits above the highest bit that is on; the length when
    /// no bit is on.
    pub fn leading_zeros(&self) -> (r: usize)
        ensures
            r == self@.len() - 1 - last_true(self@),
    {
        proof {
            use_type_invariant(self);
            lemma_u64_item();
            lemma_split_index(self.nbits as int);
        }
        let nwords = LANES * self.storage.len();
        let mut k = nwords;
        while k > 0
            invariant
                k <= nwords,
                nwords == 4 * self.items().len(),
                storage_wf(self.items(), self.nbits as nat),
                forall|j: int| 64 * k <= j < 256 * self.items().len() ==> !#[trigger] items_bit(
                    self.items(),
                    j,
                ),
            decreases k,
        {
            let w = self.word(k - 1);
            if w != 0 {
                let lz = <u64 as BitContainerItem>::leading_zeros(w) as usize;
                proof {
                    lemma_u64_item();
                    if lz == 64 {
                        lemma_nonzero_word(w);
                        let b = choose|b: u64| b < 64 && #[trigger] word_bit(w, b);
                        assert(!w.spec_bit(b as int));
                    }
                    let items = self.items();
                    let h = 64 * (k - 1) + 63 - lz;
                    lemma_word_bit_index(items, k - 1, 63 - lz);
                    assert(items_bit(items, h));
                    assert(h < self.nbits);
                    assert forall|j: int| h < j < self.nbits implies !#[trigger] self@[j] by {
                        if j < 64 * k {
                            lemma_word_bit_index(items, k - 1, j - 64 * (k - 1));
                            assert(!w.spec_bit(j - 64 * (k - 1)));
                        }
                    }
                    lemma_last_true(self@, h);
                }
                return self.nbits - (ELEMENT_BITS * (k - 1) + (ELEMENT_BITS - lz));
            }
            proof {
                lemma_zero_word();
                assert forall|j: int| 64 * (k - 1) <= j < 256 * self.items().len() implies !#[trigger] items_bit(
                    self.items(),
                    j,
                ) by {
                    if j < 64 * k {
                        lemma_word_bit_index(self.items(), k - 1, j - 64 * (k - 1));
                    }
                }
            }
            k = k - 1;
        }
        proof {
            assert forall|j: int| -1 < j < self.nbits implies !#[trigger] self@[j] by {
                assert(!items_bit(self.items(), j));
            }
            lemma_last_true(self@, -1);
        }
        self.nbits
    }

    /// Whether some bit is on.
    pub fn any(&self) -> (r: bool)
        ensures
            r == exists|j: int| 0 <= j < self@.len() && #[trigger] self@[j],
    {
        proof {
            use_type_invariant(self);
        }
        let nwords = LANES * self.storage.len();
        let mut k: usize = 0;
        while k < nwords
            invariant
                k <= nwords,
                nwords == 4 * self.items().len(),
                storage_wf(self.items(), self.nbits as nat),
                forall|j: int| 0 <= j < 64 * k ==> !#[trigger] items_bit(self.items(), j),
            decreases nwords - k,
        {
            let w = self.word(k);
            if w != 0 {
                proof {
                    lemma_nonzero_word(w);
                    let b = choose|b: u64| b < 64 && #[trigger] word_bit(w, b);
                    lemma_word_bit_index(self.items(), k as int, b as int);
                    let j = 64 * k + b;
                    assert(items_bit(self.items(), j));
                    assert(j < self.nbits);
                    assert(self@[j]);
                }
                return true;
            }
            proof {
                lemma_zero_word();
                assert forall|j: int| 0 <= j < 64 * (k + 1) implies !#[trigger] items_bit(
                    self.items(),
                    j,
                ) by {
                    if j >= 64 * k {
                        lemma_word_bit_index(self.items(), k as int, j - 64 * k);
                    }
                }
            }
            k = k + 1;
        }
        proof {
            lemma_split_index(self.nbits as int);
            assert forall|j: int| 0 <= j < self@.len() implies !#[trigger] self@[j] by {
                assert(!items_bit(self.items(), j));
            }
        }
        false
    }

    /// Whether every bit is on.
    pub fn all(&self) -> (r: bool)
        ensures
            r == forall|j: int| 0 <= j < self@.len() ==> #[trigger] self@[j],
    {
        proof {
            lemma_count_true_bounds(self@);
        }
        self.count_ones() == self.nbits
    }

    /// Whether no bit is on.
    pub fn none(&self) -> (r: bool)
        ensures
            r == forall|j: int| 0 <= j < self@.len() ==> !#[trigger] self@[j],
    {
        !self.any()
    }

    /// Whether no bit is on (the same as `none`).
    pub fn is_empty(&self) -> (r: bool)
        ensures
            r == forall|j: int| 0 <= j < self@.len() ==> !#[trigger] self@[j],
    {
        !self.any()
    }

    /// The bits, in order.
    pub fn into_bools(self) -> (r: Vec<bool>)
        ensures
            r@ == self@,
    {
        let mut v: Vec<bool> = Vec::new();
        let mut i: usize = 0;
        while i < self.nbits
            invariant
                i <= self@.len(),
                self@.len() == self.nbits,
                v@ == self@.take(i as int),
            decreases self.nbits - i,
        {
            v.push(self.get_unchecked(i));
            i = i + 1;
            proof {
                assert(v@ =~= self@.take(i as int));
            }
        }
        proof {
            assert(self@.take(i as int) =~= self@);
        }
        v
    }

    /// The indices of the bits that are on, in increasing order.
    pub fn into_usizes(self) -> (r: Vec<usize>)
        ensures
            r@ == true_indices(self@),
    {
        let mut v: Vec<usize> = Vec::new();
        let mut i: usize = 0;
        while i < self.nbits
            invariant
                i <= self@.len(),
                self@.len() == self.nbits,
                v@ == true_indices(self@.take(i as int)),
                v@.len() <= i,
            decreases self.nbits - i,
        {
            let ghost before = self@.take(i as int);
            if self.get_unchecked(i) {
                v.push(i);
            }
            i = i + 1;
            proof {
                let t = self@.take(i as int);
                assert(t.drop_last() =~= before);
            }
        }
        proof {
            assert(self@.take(i as int) =~= self@);
        }
        v
    }
}


/// The lane-wise operation of a binary operation on bit vectors.
enum BitOp {
    And,
    Or,
    Xor,
}

/// The value of `op` on two bits.
spec fn op_bit(op: BitOp, a: bool, b: bool) -> bool {
    match op {
        BitOp::And => a && b,
        BitOp::Or => a || b,
        BitOp::Xor => a != b,
    }
}

/// Every bit of container `r` is `op` of the same bits of `a` and `b`.
spec fn container_op(op: BitOp, r: [u64; 4], a: [u64; 4], b: [u64; 4]) -> bool {
    forall|j: int|
        0 <= j < 256 ==> #[trigger] container_bit(r, j) == op_bit(
            op,
            container_bit(a, j),
            container_bit(b, j),
        )
}

impl BitVecSimd {
    /// Apply `op` bit by bit with `other`, in place.
    fn combine_inplace(&mut self, other: &Self, op: BitOp)
        requires
            old(self)@.len() == other@.len(),
        ensures
            final(self)@ == Seq::new(
                old(self)@.len(),
                |j: int| op_bit(op, old(self)@[j], other@[j]),
            ),
    {
        proof {
            use_type_invariant(&*self);
            use_type_invariant(other);
        }
        let ghost a0 = self.items();
        let ghost b0 = other.items();
        let (mut storage, nbits) = self.take();
        let len = storage.len();
        let mut c: usize = 0;
        while c < len
            invariant
                c <= len,
                len == a0.len(),
                b0 == other.items(),
                b0.len() == a0.len(),
                storage_items(storage).len() == len,
                forall|k: int| 0 <= k < c ==> container_op(op, #[trigger] storage_items(storage)[k], a0[k], b0[k]),
                forall|k: int| c <= k < len ==> #[trigger] storage_items(storage)[k] == a0[k],
            decreases len - c,
        {
            let mut a = storage.get(c);
            let b = other.storage.get(c);
            match op {
                BitOp::And => BitContainer::<4>::and_inplace(&mut a, &b),
                BitOp::Or => BitContainer::<4>::or_inplace(&mut a, &b),
                BitOp::Xor => BitContainer::<4>::xor_inplace(&mut a, &b),
            }
            proof {
                lemma_u64_item();
                assert forall|j: int| 0 <= j < 256 implies #[trigger] container_bit(a, j) == op_bit(
                    op,
                    container_bit(a0[c as int], j),
                    container_bit(b, j),
                ) by {
                    let k = j / 64;
                    let i = j % 64;
                    assert(a.spec_lanes()[k].spec_bit(i) == container_bit(a, j));
                }
            }
            storage.set(c, a);
            c = c + 1;
        }
        proof {
            let items = storage_items(storage);
            assert forall|j: int| 0 <= j < 256 * items.len() implies #[trigger] items_bit(items, j) == (j
                < nbits && op_bit(op, items_bit(a0, j), items_bit(b0, j))) by {
                lemma_split_index(j);
                assert(container_op(op, items[j / 256], a0[j / 256], b0[j / 256]));
                if j >= nbits {
                    assert(!items_bit(a0, j));
                    assert(!items_bit(b0, j));
                }
            }
            lemma_bits_exact(items, nbits as nat, |j: int| op_bit(op, items_bit(a0, j), items_bit(b0, j)));
            assert(Seq::new(nbits as nat, |j: int| op_bit(op, items_bit(a0, j), items_bit(b0, j)))
                =~= Seq::new(old(self)@.len(), |j: int| op_bit(op, old(self)@[j], other@[j])));
        }
        *self = BitVecSimd { storage, nbits };
    }

    /// A copy of the vector.
    fn duplicate(&self) -> (r: Self)
        ensures
            r@ == self@,
    {
        proof {
            use_type_invariant(self);
        }
        BitVecSimd { storage: self.storage.duplicate(), nbits: self.nbits }
    }

    /// Bit by bit, on where both vectors are on; the lengths must be equal.
    pub fn and(self, other: Self) -> (r: Self)
        requires
            self@.len() == other@.len(),
        ensures
            r@ == and_bits(self@, other@),
    {
        let mut r = self;
        r.combine_inplace(&other, BitOp::And);
        r
    }

    /// `and` on borrowed vectors.
    pub fn and_cloned(&self, other: &Self) -> (r: Self)
        requires
            self@.len() == other@.len(),
        ensures
            r@ == and_bits(self@, other@),
    {
        let mut r = self.duplicate();
        r.combine_inplace(other, BitOp::And);
        r
    }

    /// `and` in place.
    pub fn and_inplace(&mut self, other: &Self)
        requires
            old(self)@.len() == other@.len(),
        ensures
            final(self)@ == and_bits(old(self)@, other@),
    {
        self.combine_inplace(other, BitOp::And);
    }

    /// Bit by bit, on where either vector is on; the lengths must be equal.
    pub fn or(self, other: Self) -> (r: Self)
        requires
            self@.len() == other@.len(),
        ensures
            r@ == or_bits(self@, other@),
    {
        let mut r = self;
        r.combine_inplace(&other, BitOp::Or);
        r
    }

    /// `or` on borrowed vectors.
    pub fn or_cloned(&self, other: &Self) -> (r: Self)
        requires
            self@.len() == other@.len(),
        ensures
            r@ == or_bits(self@, other@),
    {
        let mut r = self.duplicate();
        r.combine_inplace(other, BitOp::Or);
        r
    }

    /// `or` in place.
    pub fn or_inplace(&mut self, other: &Self)
        requires
            old(self)@.len() == other@.len(),
        ensures
            final(self)@ == or_bits(old(self)@, other@),
    {
        self.combine_inplace(other, BitOp::Or);
    }

    /// Bit by bit, on where exactly one vector is on; the lengths must be equal.
    pub fn xor(self, other: Self) -> (r: Self)
        requires
            self@.len() == other@.len(),
        ensures
            r@ == xor_bits(self@, other@),
    {
        let mut r = self;
        r.combine_inplace(&other, BitOp::Xor);
        r
    }

    /// `xor` on borrowed vectors.
    pub fn xor_cloned(&self, other: &Self) -> (r: Self)
        requires
            self@.len() == other@.len(),
        ensures
            r@ == xor_bits(self@, other@),
    {
        let mut r = self.duplicate();
        r.combine_inplace(other, BitOp::Xor);
        r
    }

    /// `xor` in place.
    pub fn xor_inplace(&mut self, other: &Self)
        requires
            old(self)@.len() == other@.len(),
        ensures
            final(self)@ == xor_bits(old(self)@, other@),
    {
        self.combine_inplace(other, BitOp::Xor);
    }

    /// The set difference: on where `self` is on and `other` is off; the
    /// lengths must be equal.
    pub fn difference(self, other: Self) -> (r: Self)
        requires
            self@.len() == other@.len(),
        ensures
            r@ == difference_bits(self@, other@),
    {
        let inv = other.inverse();
        self.and(inv)
    }

    /// `difference` on borrowed vectors.
    pub fn difference_cloned(&self, other: &Self) -> (r: Self)
        requires
            self@.len() == other@.len(),
        ensures
            r@ == difference_bits(self@, other@),
    {
        self.and_cloned(&other.inverse())
    }
}

impl Clone for BitVecSimd {
    fn clone(&self) -> (r: Self)
        ensures
            r@ == self@,
    {
        self.duplicate()
    }
}


impl BitVecSimd {
    /// Whether the two vectors have the same bits (and so the same length).
    pub(crate) fn equals(&self, other: &Self) -> (r: bool)
        ensures
            r == (self@ == other@),
    {
        proof {
            use_type_invariant(self);
            use_type_invariant(other);
        }
        if self.nbits != other.nbits {
            proof {
                assert(self@.len() != other@.len());
            }
            return false;
        }
        let nwords = LANES * self.storage.len();
        let mut k: usize = 0;
        while k < nwords
            invariant
                k <= nwords,
                nwords == 4 * self.items().len(),
                self.items().len() == other.items().len(),
                self.nbits == other.nbits,
                storage_wf(self.items(), self.nbits as nat),
                storage_wf(other.items(), other.nbits as nat),
                forall|j: int| 0 <= j < 64 * k ==> #[trigger] items_bit(self.items(), j) == items_bit(
                    other.items(),
                    j,
                ),
            decreases nwords - k,
        {
            let a = self.word(k);
            let b = other.word(k);
            if a != b {
                proof {
                    assert(a != b ==> a ^ b != 0u64) by (bit_vector);
                    lemma_nonzero_word(a ^ b);
                    let t = choose|t: u64| t < 64 && #[trigger] word_bit(a ^ b, t);
                    assert(t < 64 ==> (((a ^ b) >> t) & 1u64 == 1u64) == (((a >> t) & 1u64 == 1u64)
                        != ((b >> t) & 1u64 == 1u64))) by (bit_vector);
                    lemma_word_bit_index(self.items(), k as int, t as int);
                    lemma_word_bit_index(other.items(), k as int, t as int);
                    let j = 64 * k + t;
                    assert(items_bit(self.items(), j) != items_bit(other.items(), j));
                    assert(j < self.nbits);
                    assert(self@[j] != other@[j]);
                }
                return false;
            }
            proof {
                assert forall|j: int| 0 <= j < 64 * (k + 1) implies #[trigger] items_bit(
                    self.items(),
                    j,
                ) == items_bit(other.items(), j) by {
                    if j >= 64 * k {
                        lemma_word_bit_index(self.items(), k as int, j - 64 * k);
                        lemma_word_bit_index(other.items(), k as int, j - 64 * k);
                    }
                }
            }
            k = k + 1;
        }
        proof {
            lemma_split_index(self.nbits as int);
            assert(self@ =~= other@);
        }
        true
    }
}


impl BitVecSimd {
    /// The set of the given indices: starting from `slice.len()` zero bits,
    /// each index of the slice is set in turn (growing the vector when an
    /// index is not below its length), so the length is the larger of
    /// `slice.len()` and one past the largest index.
    pub fn from_slice(slice: &[usize]) -> (r: Self)
        requires
            slice@.len() + 255 <= usize::MAX,
            forall|k: int| 0 <= k < slice@.len() ==> #[trigger] slice@[k] < usize::MAX,
        ensures
            r@.len() >= slice@.len(),
            forall|k: int| 0 <= k < slice@.len() ==> (#[trigger] slice@[k]) < r@.len(),
            r@.len() == slice@.len() || exists|k: int|
                0 <= k < slice@.len() && r@.len() == slice@[k] + 1,
            forall|j: int| 0 <= j < r@.len() ==> #[trigger] r@[j] == slice@.contains(j as usize),
    {
        let mut bv = BitVecSimd::zeros(slice.len());
        let mut k: usize = 0;
        while k < slice.len()
            invariant
                k <= slice@.len(),
                forall|m: int| 0 <= m < slice@.len() ==> #[trigger] slice@[m] < usize::MAX,
                bv@.len() == grown_len(slice@.take(k as int), slice@.len()),
                forall|m: int| 0 <= m < k ==> (#[trigger] slice@[m]) < bv@.len(),
                bv@.len() >= slice@.len(),
                forall|j: int|
                    0 <= j < bv@.len() ==> #[trigger] bv@[j] == slice@.take(k as int).contains(
                        j as usize,
                    ),
            decreases slice@.len() - k,
        {
            let ghost before = bv@;
            let x = slice[k];
            bv.set(x, true);
            k = k + 1;
            proof {
                let t = slice@.take(k as int);
                assert(t.drop_last() =~= slice@.take(k - 1));
                assert forall|j: int| 0 <= j < bv@.len() implies #[trigger] bv@[j] == t.contains(
                    j as usize,
                ) by {
                    if j == x {
                        assert(t[k - 1] == x);
                    } else if j < before.len() {
                        if t.contains(j as usize) {
                            let m = choose|m: int| 0 <= m < t.len() && t[m] == j as usize;
                            assert(slice@.take(k - 1)[m] == j as usize);
                        }
                        if slice@.take(k - 1).contains(j as usize) {
                            let p = slice@.take(k - 1);
                            let m = choose|m: int| 0 <= m < p.len() && p[m] == j as usize;
                            assert(t[m] == j as usize);
                        }
                    } else {
                        if t.contains(j as usize) {
                            let m = choose|m: int| 0 <= m < t.len() && t[m] == j as usize;
                            assert(m != k - 1);
                            assert(slice@.take(k - 1)[m] == j as usize);
                        }
                    }
                }
            }
        }
        proof {
            assert(slice@.take(k as int) =~= slice@);
            lemma_grown_len(slice@, slice@.len());
        }
        bv
    }
}

} // verus!
