//! `BitContainer`: a fixed number of lanes handled as one block of bits.
use crate::item::{
    lemma_u16_bit_ops, lemma_u16_item, lemma_u32_bit_ops, lemma_u32_item, lemma_u64_bit_ops,
    lemma_u64_item, lemma_u8_bit_ops, lemma_u8_item, BitContainerItem,
};
use vstd::prelude::*;

verus! {

/// A block of `L` lanes of type `Element`; the storage of a bit vector is a
/// sequence of such blocks.
pub trait BitContainer<const L: usize>: Sized + Copy {
    type Element: BitContainerItem;

    const BIT_WIDTH: usize;
    const ELEMENT_BIT_WIDTH: usize;
    const LANES: usize;
    const ZERO_ELEMENT: Self::Element;
    const ONE_ELEMENT: Self::Element;
    const MAX_ELEMENT: Self::Element;
    const ZERO: Self;
    const MAX: Self;

    /// The lanes of the block, in order.
    spec fn spec_lanes(self) -> Seq<Self::Element>;

    /// The block has `L` lanes; the constants are those of the lane type, the
    /// width is `L` lanes, and `ZERO` and `MAX` are made of the lane type's
    /// zero and maximum.
    proof fn lemma_shape(c: Self)
        ensures
            c.spec_lanes().len() == L,
            Self::LANES == L,
            Self::ELEMENT_BIT_WIDTH == Self::Element::BIT_WIDTH,
            Self::BIT_WIDTH == L * Self::ELEMENT_BIT_WIDTH,
            Self::ZERO_ELEMENT == Self::Element::ZERO,
            Self::ONE_ELEMENT == Self::Element::ONE,
            Self::MAX_ELEMENT == Self::Element::MAX,
            Self::ZERO.spec_lanes() == Seq::new(L as nat, |k: int| Self::Element::ZERO),
            Self::MAX.spec_lanes() == Seq::new(L as nat, |k: int| Self::Element::MAX),
    ;

    /// The lanes as an array.
    fn to_array(self) -> (r: [Self::Element; L])
        ensures
            r@ == self.spec_lanes(),
    ;

    /// The block made of the given lanes.
    fn from_array(arr: [Self::Element; L]) -> (r: Self)
        ensures
            r.spec_lanes() == arr@,
    ;

    /// Lane by lane, keep a bit on only where it is on in both blocks.
    fn and_inplace(&mut self, rhs: &Self)
        ensures
            final(self).spec_lanes().len() == L,
            forall|k: int, i: int|
                0 <= k < L && 0 <= i < Self::Element::BIT_WIDTH ==> #[trigger] final(self).spec_lanes()[k].spec_bit(i) == (old(self).spec_lanes()[k].spec_bit(i)
                    && rhs.spec_lanes()[k].spec_bit(i)),
    ;

    /// Lane by lane, turn a bit on where it is on in either block.
    fn or_inplace(&mut self, rhs: &Self)
        ensures
            final(self).spec_lanes().len() == L,
            forall|k: int, i: int|
                0 <= k < L && 0 <= i < Self::Element::BIT_WIDTH ==> #[trigger] final(self).spec_lanes()[k].spec_bit(i) == (old(self).spec_lanes()[k].spec_bit(i)
                    || rhs.spec_lanes()[k].spec_bit(i)),
    ;

    /// Lane by lane, turn a bit on where it is on in exactly one block.
    fn xor_inplace(&mut self, rhs: &Self)
        ensures
            final(self).spec_lanes().len() == L,
            forall|k: int, i: int|
                0 <= k < L && 0 <= i < Self::Element::BIT_WIDTH ==> #[trigger] final(self).spec_lanes()[k].spec_bit(i) == (old(self).spec_lanes()[k].spec_bit(i)
                    != rhs.spec_lanes()[k].spec_bit(i)),
    ;
}

impl BitContainer<16> for [u8; 16] {
    type Element = u8;

    const BIT_WIDTH: usize = 128;
    const ELEMENT_BIT_WIDTH: usize = 8;
    const LANES: usize = 16;
    const ZERO_ELEMENT: u8 = 0u8;
    const ONE_ELEMENT: u8 = 1u8;
    const MAX_ELEMENT: u8 = 0xFFu8;
    const ZERO: [u8; 16] = [0u8, 0u8, 0u8, 0u8, 0u8, 0u8, 0u8, 0u8, 0u8, 0u8, 0u8, 0u8, 0u8, 0u8, 0u8, 0u8];
    const MAX: [u8; 16] = [0xFFu8, 0xFFu8, 0xFFu8, 0xFFu8, 0xFFu8, 0xFFu8, 0xFFu8, 0xFFu8, 0xFFu8, 0xFFu8, 0xFFu8, 0xFFu8, 0xFFu8, 0xFFu8, 0xFFu8, 0xFFu8];

    open spec fn spec_lanes(self) -> Seq<u8> {
        self@
    }

    proof fn lemma_shape(c: [u8; 16]) {
        lemma_u8_item();
        assert(Self::ZERO.spec_lanes() =~= Seq::new(16, |k: int| 0u8));
        assert(Self::MAX.spec_lanes() =~= Seq::new(16, |k: int| 0xFFu8));
    }

    fn to_array(self) -> (r: [u8; 16]) {
        self
    }

    fn from_array(arr: [u8; 16]) -> (r: [u8; 16]) {
        arr
    }

    fn and_inplace(&mut self, rhs: &[u8; 16]) {
        let ghost a = *self;
        let mut k: usize = 0;
        while k < 16
            invariant
                k <= 16,
                forall|m: int| 0 <= m < k ==> #[trigger] self@[m] == a@[m] & rhs@[m],
                forall|m: int| k <= m < 16 ==> #[trigger] self@[m] == a@[m],
            decreases 16 - k,
        {
            self[k] = self[k] & rhs[k];
            k = k + 1;
        }
        proof {
            lemma_u8_item();
            lemma_u8_bit_ops();
            assert forall|m: int, i: int| 0 <= m < 16 && 0 <= i < 8 implies #[trigger] self@[m].spec_bit(
                i,
            ) == (a@[m].spec_bit(i) && rhs@[m].spec_bit(i)) by {
                let (x, y, j) = (a@[m], rhs@[m], i as u8);
                assert((((x & y) >> j) & 1u8 == 1u8) == (((x >> j) & 1u8 == 1u8) && ((y >> j) & 1u8 == 1u8)));
            }
        }
    }

    fn or_inplace(&mut self, rhs: &[u8; 16]) {
        let ghost a = *self;
        let mut k: usize = 0;
        while k < 16
            invariant
                k <= 16,
                forall|m: int| 0 <= m < k ==> #[trigger] self@[m] == a@[m] | rhs@[m],
                forall|m: int| k <= m < 16 ==> #[trigger] self@[m] == a@[m],
            decreases 16 - k,
        {
            self[k] = self[k] | rhs[k];
            k = k + 1;
        }
        proof {
            lemma_u8_item();
            lemma_u8_bit_ops();
            assert forall|m: int, i: int| 0 <= m < 16 && 0 <= i < 8 implies #[trigger] self@[m].spec_bit(
                i,
            ) == (a@[m].spec_bit(i) || rhs@[m].spec_bit(i)) by {
                let (x, y, j) = (a@[m], rhs@[m], i as u8);
                assert((((x | y) >> j) & 1u8 == 1u8) == (((x >> j) & 1u8 == 1u8) || ((y >> j) & 1u8 == 1u8)));
            }
        }
    }

    fn xor_inplace(&mut self, rhs: &[u8; 16]) {
        let ghost a = *self;
        let mut k: usize = 0;
        while k < 16
            invariant
                k <= 16,
                forall|m: int| 0 <= m < k ==> #[trigger] self@[m] == a@[m] ^ rhs@[m],
                forall|m: int| k <= m < 16 ==> #[trigger] self@[m] == a@[m],
            decreases 16 - k,
        {
            self[k] = self[k] ^ rhs[k];
            k = k + 1;
        }
        proof {
            lemma_u8_item();
            lemma_u8_bit_ops();
            assert forall|m: int, i: int| 0 <= m < 16 && 0 <= i < 8 implies #[trigger] self@[m].spec_bit(
                i,
            ) == (a@[m].spec_bit(i) != rhs@[m].spec_bit(i)) by {
                let (x, y, j) = (a@[m], rhs@[m], i as u8);
                assert((((x ^ y) >> j) & 1u8 == 1u8) == (((x >> j) & 1u8 == 1u8) != ((y >> j) & 1u8
                    == 1u8)));
            }
        }
    }
}

impl BitContainer<8> for [u16; 8] {
    type Element = u16;

    const BIT_WIDTH: usize = 128;
    const ELEMENT_BIT_WIDTH: usize = 16;
    const LANES: usize = 8;
    const ZERO_ELEMENT: u16 = 0u16;
    const ONE_ELEMENT: u16 = 1u16;
    const MAX_ELEMENT: u16 = 0xFFFFu16;
    const ZERO: [u16; 8] = [0u16, 0u16, 0u16, 0u16, 0u16, 0u16, 0u16, 0u16];
    const MAX: [u16; 8] = [0xFFFFu16, 0xFFFFu16, 0xFFFFu16, 0xFFFFu16, 0xFFFFu16, 0xFFFFu16, 0xFFFFu16, 0xFFFFu16];

    open spec fn spec_lanes(self) -> Seq<u16> {
        self@
    }

    proof fn lemma_shape(c: [u16; 8]) {
        lemma_u16_item();
        assert(Self::ZERO.spec_lanes() =~= Seq::new(8, |k: int| 0u16));
        assert(Self::MAX.spec_lanes() =~= Seq::new(8, |k: int| 0xFFFFu16));
    }

    fn to_array(self) -> (r: [u16; 8]) {
        self
    }

    fn from_array(arr: [u16; 8]) -> (r: [u16; 8]) {
        arr
    }

    fn and_inplace(&mut self, rhs: &[u16; 8]) {
        let ghost a = *self;
        let mut k: usize = 0;
        while k < 8
            invariant
                k <= 8,
                forall|m: int| 0 <= m < k ==> #[trigger] self@[m] == a@[m] & rhs@[m],
                forall|m: int| k <= m < 8 ==> #[trigger] self@[m] == a@[m],
            decreases 8 - k,
        {
            self[k] = self[k] & rhs[k];
            k = k + 1;
        }
        proof {
            lemma_u16_item();
            lemma_u16_bit_ops();
            assert forall|m: int, i: int| 0 <= m < 8 && 0 <= i < 16 implies #[trigger] self@[m].spec_bit(
                i,
            ) == (a@[m].spec_bit(i) && rhs@[m].spec_bit(i)) by {
                let (x, y, j) = (a@[m], rhs@[m], i as u16);
                assert((((x & y) >> j) & 1u16 == 1u16) == (((x >> j) & 1u16 == 1u16) && ((y >> j) & 1u16 == 1u16)));
            }
        }
    }

    fn or_inplace(&mut self, rhs: &[u16; 8]) {
        let ghost a = *self;
        let mut k: usize = 0;
        while k < 8
            invariant
                k <= 8,
                forall|m: int| 0 <= m < k ==> #[trigger] self@[m] == a@[m] | rhs@[m],
                forall|m: int| k <= m < 8 ==> #[trigger] self@[m] == a@[m],
            decreases 8 - k,
        {
            self[k] = self[k] | rhs[k];
            k = k + 1;
        }
        proof {
            lemma_u16_item();
            lemma_u16_bit_ops();
            assert forall|m: int, i: int| 0 <= m < 8 && 0 <= i < 16 implies #[trigger] self@[m].spec_bit(
                i,
            ) == (a@[m].spec_bit(i) || rhs@[m].spec_bit(i)) by {
                let (x, y, j) = (a@[m], rhs@[m], i as u16);
                assert((((x | y) >> j) & 1u16 == 1u16) == (((x >> j) & 1u16 == 1u16) || ((y >> j) & 1u16 == 1u16)));
            }
        }
    }

    fn xor_inplace(&mut self, rhs: &[u16; 8]) {
        let ghost a = *self;
        let mut k: usize = 0;
        while k < 8
            invariant
                k <= 8,
                forall|m: int| 0 <= m < k ==> #[trigger] self@[m] == a@[m] ^ rhs@[m],
                forall|m: int| k <= m < 8 ==> #[trigger] self@[m] == a@[m],
            decreases 8 - k,
        {
            self[k] = self[k] ^ rhs[k];
            k = k + 1;
        }
        proof {
            lemma_u16_item();
            lemma_u16_bit_ops();
            assert forall|m: int, i: int| 0 <= m < 8 && 0 <= i < 16 implies #[trigger] self@[m].spec_bit(
                i,
            ) == (a@[m].spec_bit(i) != rhs@[m].spec_bit(i)) by {
                let (x, y, j) = (a@[m], rhs@[m], i as u16);
                assert((((x ^ y) >> j) & 1u16 == 1u16) == (((x >> j) & 1u16 == 1u16) != ((y >> j) & 1u16
                    == 1u16)));
            }
        }
    }
}

impl BitContainer<4> for [u32; 4] {
    type Element = u32;

    const BIT_WIDTH: usize = 128;
    const ELEMENT_BIT_WIDTH: usize = 32;
    const LANES: usize = 4;
    const ZERO_ELEMENT: u32 = 0u32;
    const ONE_ELEMENT: u32 = 1u32;
    const MAX_ELEMENT: u32 = 0xFFFF_FFFFu32;
    const ZERO: [u32; 4] = [0u32, 0u32, 0u32, 0u32];
    const MAX: [u32; 4] = [0xFFFF_FFFFu32, 0xFFFF_FFFFu32, 0xFFFF_FFFFu32, 0xFFFF_FFFFu32];

    open spec fn spec_lanes(self) -> Seq<u32> {
        self@
    }

    proof fn lemma_shape(c: [u32; 4]) {
        lemma_u32_item();
        assert(Self::ZERO.spec_lanes() =~= Seq::new(4, |k: int| 0u32));
        assert(Self::MAX.spec_lanes() =~= Seq::new(4, |k: int| 0xFFFF_FFFFu32));
    }

    fn to_array(self) -> (r: [u32; 4]) {
        self
    }

    fn from_array(arr: [u32; 4]) -> (r: [u32; 4]) {
        arr
    }

    fn and_inplace(&mut self, rhs: &[u32; 4]) {
        let ghost a = *self;
        let mut k: usize = 0;
        while k < 4
            invariant
                k <= 4,
                forall|m: int| 0 <= m < k ==> #[trigger] self@[m] == a@[m] & rhs@[m],
                forall|m: int| k <= m < 4 ==> #[trigger] self@[m] == a@[m],
            decreases 4 - k,
        {
            self[k] = self[k] & rhs[k];
            k = k + 1;
        }
        proof {
            lemma_u32_item();
            lemma_u32_bit_ops();
            assert forall|m: int, i: int| 0 <= m < 4 && 0 <= i < 32 implies #[trigger] self@[m].spec_bit(
                i,
            ) == (a@[m].spec_bit(i) && rhs@[m].spec_bit(i)) by {
                let (x, y, j) = (a@[m], rhs@[m], i as u32);
                assert((((x & y) >> j) & 1u32 == 1u32) == (((x >> j) & 1u32 == 1u32) && ((y >> j) & 1u32 == 1u32)));
            }
        }
    }

    fn or_inplace(&mut self, rhs: &[u32; 4]) {
        let ghost a = *self;
        let mut k: usize = 0;
        while k < 4
            invariant
                k <= 4,
                forall|m: int| 0 <= m < k ==> #[trigger] self@[m] == a@[m] | rhs@[m],
                forall|m: int| k <= m < 4 ==> #[trigger] self@[m] == a@[m],
            decreases 4 - k,
        {
            self[k] = self[k] | rhs[k];
            k = k + 1;
        }
        proof {
            lemma_u32_item();
            lemma_u32_bit_ops();
            assert forall|m: int, i: int| 0 <= m < 4 && 0 <= i < 32 implies #[trigger] self@[m].spec_bit(
                i,
            ) == (a@[m].spec_bit(i) || rhs@[m].spec_bit(i)) by {
                let (x, y, j) = (a@[m], rhs@[m], i as u32);
                assert((((x | y) >> j) & 1u32 == 1u32) == (((x >> j) & 1u32 == 1u32) || ((y >> j) & 1u32 == 1u32)));
            }
        }
    }

    fn xor_inplace(&mut self, rhs: &[u32; 4]) {
        let ghost a = *self;
        let mut k: usize = 0;
        while k < 4
            invariant
                k <= 4,
                forall|m: int| 0 <= m < k ==> #[trigger] self@[m] == a@[m] ^ rhs@[m],
                forall|m: int| k <= m < 4 ==> #[trigger] self@[m] == a@[m],
            decreases 4 - k,
        {
            self[k] = self[k] ^ rhs[k];
            k = k + 1;
        }
        proof {
            lemma_u32_item();
            lemma_u32_bit_ops();
            assert forall|m: int, i: int| 0 <= m < 4 && 0 <= i < 32 implies #[trigger] self@[m].spec_bit(
                i,
            ) == (a@[m].spec_bit(i) != rhs@[m].spec_bit(i)) by {
                let (x, y, j) = (a@[m], rhs@[m], i as u32);
                assert((((x ^ y) >> j) & 1u32 == 1u32) == (((x >> j) & 1u32 == 1u32) != ((y >> j) & 1u32
                    == 1u32)));
            }
        }
    }
}

impl BitContainer<8> for [u32; 8] {
    type Element = u32;

    const BIT_WIDTH: usize = 256;
    const ELEMENT_BIT_WIDTH: usize = 32;
    const LANES: usize = 8;
    const ZERO_ELEMENT: u32 = 0u32;
    const ONE_ELEMENT: u32 = 1u32;
    const MAX_ELEMENT: u32 = 0xFFFF_FFFFu32;
    const ZERO: [u32; 8] = [0u32, 0u32, 0u32, 0u32, 0u32, 0u32, 0u32, 0u32];
    const MAX: [u32; 8] = [0xFFFF_FFFFu32, 0xFFFF_FFFFu32, 0xFFFF_FFFFu32, 0xFFFF_FFFFu32, 0xFFFF_FFFFu32, 0xFFFF_FFFFu32, 0xFFFF_FFFFu32, 0xFFFF_FFFFu32];

    open spec fn spec_lanes(self) -> Seq<u32> {
        self@
    }

    proof fn lemma_shape(c: [u32; 8]) {
        lemma_u32_item();
        assert(Self::ZERO.spec_lanes() =~= Seq::new(8, |k: int| 0u32));
        assert(Self::MAX.spec_lanes() =~= Seq::new(8, |k: int| 0xFFFF_FFFFu32));
    }

    fn to_array(self) -> (r: [u32; 8]) {
        self
    }

    fn from_array(arr: [u32; 8]) -> (r: [u32; 8]) {
        arr
    }

    fn and_inplace(&mut self, rhs: &[u32; 8]) {
        let ghost a = *self;
        let mut k: usize = 0;
        while k < 8
            invariant
                k <= 8,
                forall|m: int| 0 <= m < k ==> #[trigger] self@[m] == a@[m] & rhs@[m],
                forall|m: int| k <= m < 8 ==> #[trigger] self@[m] == a@[m],
            decreases 8 - k,
        {
            self[k] = self[k] & rhs[k];
            k = k + 1;
        }
        proof {
            lemma_u32_item();
            lemma_u32_bit_ops();
            assert forall|m: int, i: int| 0 <= m < 8 && 0 <= i < 32 implies #[trigger] self@[m].spec_bit(
                i,
            ) == (a@[m].spec_bit(i) && rhs@[m].spec_bit(i)) by {
                let (x, y, j) = (a@[m], rhs@[m], i as u32);
                assert((((x & y) >> j) & 1u32 == 1u32) == (((x >> j) & 1u32 == 1u32) && ((y >> j) & 1u32 == 1u32)));
            }
        }
    }

    fn or_inplace(&mut self, rhs: &[u32; 8]) {
        let ghost a = *self;
        let mut k: usize = 0;
        while k < 8
            invariant
                k <= 8,
                forall|m: int| 0 <= m < k ==> #[trigger] self@[m] == a@[m] | rhs@[m],
                forall|m: int| k <= m < 8 ==> #[trigger] self@[m] == a@[m],
            decreases 8 - k,
        {
            self[k] = self[k] | rhs[k];
            k = k + 1;
        }
        proof {
            lemma_u32_item();
            lemma_u32_bit_ops();
            assert forall|m: int, i: int| 0 <= m < 8 && 0 <= i < 32 implies #[trigger] self@[m].spec_bit(
                i,
            ) == (a@[m].spec_bit(i) || rhs@[m].spec_bit(i)) by {
                let (x, y, j) = (a@[m], rhs@[m], i as u32);
                assert((((x | y) >> j) & 1u32 == 1u32) == (((x >> j) & 1u32 == 1u32) || ((y >> j) & 1u32 == 1u32)));
            }
        }
    }

    fn xor_inplace(&mut self, rhs: &[u32; 8]) {
        let ghost a = *self;
        let mut k: usize = 0;
        while k < 8
            invariant
                k <= 8,
                forall|m: int| 0 <= m < k ==> #[trigger] self@[m] == a@[m] ^ rhs@[m],
                forall|m: int| k <= m < 8 ==> #[trigger] self@[m] == a@[m],
            decreases 8 - k,
        {
            self[k] = self[k] ^ rhs[k];
            k = k + 1;
        }
        proof {
            lemma_u32_item();
            lemma_u32_bit_ops();
            assert forall|m: int, i: int| 0 <= m < 8 && 0 <= i < 32 implies #[trigger] self@[m].spec_bit(
                i,
            ) == (a@[m].spec_bit(i) != rhs@[m].spec_bit(i)) by {
                let (x, y, j) = (a@[m], rhs@[m], i as u32);
                assert((((x ^ y) >> j) & 1u32 == 1u32) == (((x >> j) & 1u32 == 1u32) != ((y >> j) & 1u32
                    == 1u32)));
            }
        }
    }
}

impl BitContainer<2> for [u64; 2] {
    type Element = u64;

    const BIT_WIDTH: usize = 128;
    const ELEMENT_BIT_WIDTH: usize = 64;
    const LANES: usize = 2;
    const ZERO_ELEMENT: u64 = 0u64;
    const ONE_ELEMENT: u64 = 1u64;
    const MAX_ELEMENT: u64 = 0xFFFF_FFFF_FFFF_FFFFu64;
    const ZERO: [u64; 2] = [0u64, 0u64];
    const MAX: [u64; 2] = [0xFFFF_FFFF_FFFF_FFFFu64, 0xFFFF_FFFF_FFFF_FFFFu64];

    open spec fn spec_lanes(self) -> Seq<u64> {
        self@
    }

    proof fn lemma_shape(c: [u64; 2]) {
        lemma_u64_item();
        assert(Self::ZERO.spec_lanes() =~= Seq::new(2, |k: int| 0u64));
        assert(Self::MAX.spec_lanes() =~= Seq::new(2, |k: int| 0xFFFF_FFFF_FFFF_FFFFu64));
    }

    fn to_array(self) -> (r: [u64; 2]) {
        self
    }

    fn from_array(arr: [u64; 2]) -> (r: [u64; 2]) {
        arr
    }

    fn and_inplace(&mut self, rhs: &[u64; 2]) {
        let ghost a = *self;
        let mut k: usize = 0;
        while k < 2
            invariant
                k <= 2,
                forall|m: int| 0 <= m < k ==> #[trigger] self@[m] == a@[m] & rhs@[m],
                forall|m: int| k <= m < 2 ==> #[trigger] self@[m] == a@[m],
            decreases 2 - k,
        {
            self[k] = self[k] & rhs[k];
            k = k + 1;
        }
        proof {
            lemma_u64_item();
            lemma_u64_bit_ops();
            assert forall|m: int, i: int| 0 <= m < 2 && 0 <= i < 64 implies #[trigger] self@[m].spec_bit(
                i,
            ) == (a@[m].spec_bit(i) && rhs@[m].spec_bit(i)) by {
                let (x, y, j) = (a@[m], rhs@[m], i as u64);
                assert((((x & y) >> j) & 1u64 == 1u64) == (((x >> j) & 1u64 == 1u64) && ((y >> j) & 1u64 == 1u64)));
            }
        }
    }

    fn or_inplace(&mut self, rhs: &[u64; 2]) {
        let ghost a = *self;
        let mut k: usize = 0;
        while k < 2
            invariant
                k <= 2,
                forall|m: int| 0 <= m < k ==> #[trigger] self@[m] == a@[m] | rhs@[m],
                forall|m: int| k <= m < 2 ==> #[trigger] self@[m] == a@[m],
            decreases 2 - k,
        {
            self[k] = self[k] | rhs[k];
            k = k + 1;
        }
        proof {
            lemma_u64_item();
            lemma_u64_bit_ops();
            assert forall|m: int, i: int| 0 <= m < 2 && 0 <= i < 64 implies #[trigger] self@[m].spec_bit(
                i,
            ) == (a@[m].spec_bit(i) || rhs@[m].spec_bit(i)) by {
                let (x, y, j) = (a@[m], rhs@[m], i as u64);
                assert((((x | y) >> j) & 1u64 == 1u64) == (((x >> j) & 1u64 == 1u64) || ((y >> j) & 1u64 == 1u64)));
            }
        }
    }

    fn xor_inplace(&mut self, rhs: &[u64; 2]) {
        let ghost a = *self;
        let mut k: usize = 0;
        while k < 2
            invariant
                k <= 2,
                forall|m: int| 0 <= m < k ==> #[trigger] self@[m] == a@[m] ^ rhs@[m],
                forall|m: int| k <= m < 2 ==> #[trigger] self@[m] == a@[m],
            decreases 2 - k,
        {
            self[k] = self[k] ^ rhs[k];
            k = k + 1;
        }
        proof {
            lemma_u64_item();
            lemma_u64_bit_ops();
            assert forall|m: int, i: int| 0 <= m < 2 && 0 <= i < 64 implies #[trigger] self@[m].spec_bit(
                i,
            ) == (a@[m].spec_bit(i) != rhs@[m].spec_bit(i)) by {
                let (x, y, j) = (a@[m], rhs@[m], i as u64);
                assert((((x ^ y) >> j) & 1u64 == 1u64) == (((x >> j) & 1u64 == 1u64) != ((y >> j) & 1u64
                    == 1u64)));
            }
        }
    }
}

impl BitContainer<4> for [u64; 4] {
    type Element = u64;

    const BIT_WIDTH: usize = 256;
    const ELEMENT_BIT_WIDTH: usize = 64;
    const LANES: usize = 4;
    const ZERO_ELEMENT: u64 = 0u64;
    const ONE_ELEMENT: u64 = 1u64;
    const MAX_ELEMENT: u64 = 0xFFFF_FFFF_FFFF_FFFFu64;
    const ZERO: [u64; 4] = [0u64, 0u64, 0u64, 0u64];
    const MAX: [u64; 4] = [0xFFFF_FFFF_FFFF_FFFFu64, 0xFFFF_FFFF_FFFF_FFFFu64, 0xFFFF_FFFF_FFFF_FFFFu64, 0xFFFF_FFFF_FFFF_FFFFu64];

    open spec fn spec_lanes(self) -> Seq<u64> {
        self@
    }

    proof fn lemma_shape(c: [u64; 4]) {
        lemma_u64_item();
        assert(Self::ZERO.spec_lanes() =~= Seq::new(4, |k: int| 0u64));
        assert(Self::MAX.spec_lanes() =~= Seq::new(4, |k: int| 0xFFFF_FFFF_FFFF_FFFFu64));
    }

    fn to_array(self) -> (r: [u64; 4]) {
        self
    }

    fn from_array(arr: [u64; 4]) -> (r: [u64; 4]) {
        arr
    }

    fn and_inplace(&mut self, rhs: &[u64; 4]) {
        let ghost a = *self;
        let mut k: usize = 0;
        while k < 4
            invariant
                k <= 4,
                forall|m: int| 0 <= m < k ==> #[trigger] self@[m] == a@[m] & rhs@[m],
                forall|m: int| k <= m < 4 ==> #[trigger] self@[m] == a@[m],
            decreases 4 - k,
        {
            self[k] = self[k] & rhs[k];
            k = k + 1;
        }
        proof {
            lemma_u64_item();
            lemma_u64_bit_ops();
            assert forall|m: int, i: int| 0 <= m < 4 && 0 <= i < 64 implies #[trigger] self@[m].spec_bit(
                i,
            ) == (a@[m].spec_bit(i) && rhs@[m].spec_bit(i)) by {
                let (x, y, j) = (a@[m], rhs@[m], i as u64);
                assert((((x & y) >> j) & 1u64 == 1u64) == (((x >> j) & 1u64 == 1u64) && ((y >> j) & 1u64 == 1u64)));
            }
        }
    }

    fn or_inplace(&mut self, rhs: &[u64; 4]) {
        let ghost a = *self;
        let mut k: usize = 0;
        while k < 4
            invariant
                k <= 4,
                forall|m: int| 0 <= m < k ==> #[trigger] self@[m] == a@[m] | rhs@[m],
                forall|m: int| k <= m < 4 ==> #[trigger] self@[m] == a@[m],
            decreases 4 - k,
        {
            self[k] = self[k] | rhs[k];
            k = k + 1;
        }
        proof {
            lemma_u64_item();
            lemma_u64_bit_ops();
            assert forall|m: int, i: int| 0 <= m < 4 && 0 <= i < 64 implies #[trigger] self@[m].spec_bit(
                i,
            ) == (a@[m].spec_bit(i) || rhs@[m].spec_bit(i)) by {
                let (x, y, j) = (a@[m], rhs@[m], i as u64);
                assert((((x | y) >> j) & 1u64 == 1u64) == (((x >> j) & 1u64 == 1u64) || ((y >> j) & 1u64 == 1u64)));
            }
        }
    }

    fn xor_inplace(&mut self, rhs: &[u64; 4]) {
        let ghost a = *self;
        let mut k: usize = 0;
        while k < 4
            invariant
                k <= 4,
                forall|m: int| 0 <= m < k ==> #[trigger] self@[m] == a@[m] ^ rhs@[m],
                forall|m: int| k <= m < 4 ==> #[trigger] self@[m] == a@[m],
            decreases 4 - k,
        {
            self[k] = self[k] ^ rhs[k];
            k = k + 1;
        }
        proof {
            lemma_u64_item();
            lemma_u64_bit_ops();
            assert forall|m: int, i: int| 0 <= m < 4 && 0 <= i < 64 implies #[trigger] self@[m].spec_bit(
                i,
            ) == (a@[m].spec_bit(i) != rhs@[m].spec_bit(i)) by {
                let (x, y, j) = (a@[m], rhs@[m], i as u64);
                assert((((x ^ y) >> j) & 1u64 == 1u64) == (((x >> j) & 1u64 == 1u64) != ((y >> j) & 1u64
                    == 1u64)));
            }
        }
    }
}

} // verus!
