//! `BitContainerItem`: an unsigned integer used as one lane of a container.
use crate::model::count_true;
use vstd::prelude::*;
use vstd::std_specs::bits::{
    axiom_u16_leading_zeros, axiom_u32_leading_zeros, axiom_u64_leading_zeros,
    axiom_u8_leading_zeros, u16_leading_zeros, u32_leading_zeros, u64_leading_zeros,
    u8_leading_zeros,
};

verus! {

/// The amount by which a wrapping shift of `rhs` moves a value of `width` bits.
pub open spec fn shift_mod(rhs: u32, width: usize) -> int {
    rhs as int % width as int
}

/// The constants of `u64` as a container lane.
pub proof fn lemma_u64_item()
    ensures
        <u64 as BitContainerItem>::BIT_WIDTH == 64,
        <u64 as BitContainerItem>::ZERO == 0u64,
        <u64 as BitContainerItem>::ONE == 1u64,
        <u64 as BitContainerItem>::MAX == 0xFFFF_FFFF_FFFF_FFFFu64,
{
}

/// The constants of `u32` as a container lane.
pub proof fn lemma_u32_item()
    ensures
        <u32 as BitContainerItem>::BIT_WIDTH == 32,
        <u32 as BitContainerItem>::ZERO == 0u32,
        <u32 as BitContainerItem>::ONE == 1u32,
        <u32 as BitContainerItem>::MAX == 0xFFFF_FFFFu32,
{
}

/// The constants of `u16` as a container lane.
pub proof fn lemma_u16_item()
    ensures
        <u16 as BitContainerItem>::BIT_WIDTH == 16,
        <u16 as BitContainerItem>::ZERO == 0u16,
        <u16 as BitContainerItem>::ONE == 1u16,
        <u16 as BitContainerItem>::MAX == 0xFFFFu16,
{
}

/// The constants of `u8` as a container lane.
pub proof fn lemma_u8_item()
    ensures
        <u8 as BitContainerItem>::BIT_WIDTH == 8,
        <u8 as BitContainerItem>::ZERO == 0u8,
        <u8 as BitContainerItem>::ONE == 1u8,
        <u8 as BitContainerItem>::MAX == 0xFFu8,
{
}

/// An unsigned integer used as a lane of a bit container.
///
/// `spec_bit(i)` is bit `i` of the value, counted from the least significant
/// bit, for `0 <= i < BIT_WIDTH`.  Shifts take their amount modulo the width,
/// as the `wrapping_*` operations of the primitive integers do.
pub trait BitContainerItem: Sized + Copy {
    const BIT_WIDTH: usize;
    const ZERO: Self;
    const ONE: Self;
    const MAX: Self;

    /// Whether bit `i` of `self` is on.
    spec fn spec_bit(self, i: int) -> bool;

    /// The bits of `self`, least significant first.
    open spec fn spec_bits(self) -> Seq<bool> {
        Seq::new(Self::BIT_WIDTH as nat, |i: int| self.spec_bit(i))
    }

    /// The width is a positive number of bits no larger than 64, and the
    /// constants are the values with no bit, only the lowest bit and every bit on.
    proof fn lemma_constants()
        ensures
            0 < Self::BIT_WIDTH <= 64,
            forall|i: int|
                0 <= i < Self::BIT_WIDTH ==> {
                    &&& !(#[trigger] Self::ZERO.spec_bit(i))
                    &&& Self::ONE.spec_bit(i) == (i == 0)
                    &&& Self::MAX.spec_bit(i)
                },
    ;

    /// Two values with the same bits are equal.
    proof fn lemma_bits_determine(a: Self, b: Self)
        requires
            forall|i: int| 0 <= i < Self::BIT_WIDTH ==> a.spec_bit(i) == b.spec_bit(i),
        ensures
            a == b,
    ;

    /// The number of bits that are on.
    fn count_ones(self) -> (r: u32)
        ensures
            r == count_true(self.spec_bits()),
    ;

    /// The number of bits above the highest bit that is on (the width when
    /// no bit is on).
    fn leading_zeros(self) -> (r: u32)
        ensures
            r <= Self::BIT_WIDTH,
            forall|i: int| Self::BIT_WIDTH - r <= i < Self::BIT_WIDTH ==> !self.spec_bit(i),
            r < Self::BIT_WIDTH ==> self.spec_bit(Self::BIT_WIDTH - 1 - r),
    ;

    /// Shift towards the high end by `rhs` modulo the width.
    fn wrapping_shl(self, rhs: u32) -> (r: Self)
        ensures
            forall|i: int|
                0 <= i < Self::BIT_WIDTH ==> #[trigger] r.spec_bit(i) == (i >= shift_mod(rhs, Self::BIT_WIDTH) && self.spec_bit(i - shift_mod(rhs, Self::BIT_WIDTH))),
    ;

    /// Shift towards the low end by `rhs` modulo the width.
    fn wrapping_shr(self, rhs: u32) -> (r: Self)
        ensures
            forall|i: int|
                0 <= i < Self::BIT_WIDTH ==> #[trigger] r.spec_bit(i) == (i + shift_mod(rhs, Self::BIT_WIDTH) < Self::BIT_WIDTH && self.spec_bit(
                    i + shift_mod(rhs, Self::BIT_WIDTH),
                )),
    ;

    /// Turn off the `rhs` (modulo the width) highest bits.
    fn clear_high_bits(self, rhs: u32) -> (r: Self)
        ensures
            forall|i: int|
                0 <= i < Self::BIT_WIDTH ==> #[trigger] r.spec_bit(i) == (i < Self::BIT_WIDTH - shift_mod(rhs, Self::BIT_WIDTH) && self.spec_bit(i)),
    ;

    /// Turn off the `rhs` (modulo the width) lowest bits.
    fn clear_low_bits(self, rhs: u32) -> (r: Self)
        ensures
            forall|i: int|
                0 <= i < Self::BIT_WIDTH ==> #[trigger] r.spec_bit(i) == (i >= shift_mod(rhs, Self::BIT_WIDTH) && self.spec_bit(i)),
    ;
}

/// Bit-level facts about `u64` values: single bits of the constants and of
/// the bitwise operations.
pub(crate) proof fn lemma_u64_bit_ops()
    by (bit_vector)
    ensures
        forall|j: u64| #![trigger (1u64 >> j)] j < 64 ==> (((1u64 >> j) & 1u64 == 1u64) == (j == 0u64)),
        forall|j: u64| #![trigger (0u64 >> j)] j < 64 ==> (0u64 >> j) & 1u64 == 0u64,
        forall|j: u64| #![trigger (0xFFFF_FFFF_FFFF_FFFFu64 >> j)] j < 64 ==> (0xFFFF_FFFF_FFFF_FFFFu64 >> j) & 1u64 == 1u64,
        forall|a: u64, b: u64, j: u64|
            #![trigger ((a ^ b) >> j)]
            j < 64 ==> ((((a ^ b) >> j) & 1u64 == 1u64) == (((a >> j) & 1u64 == 1u64) != ((b >> j) & 1u64
                == 1u64))),
        forall|a: u64, b: u64, j: u64|
            #![trigger ((a & b) >> j)]
            j < 64 ==> ((((a & b) >> j) & 1u64 == 1u64) == (((a >> j) & 1u64 == 1u64) && ((b >> j) & 1u64
                == 1u64))),
        forall|a: u64, b: u64, j: u64|
            #![trigger ((a | b) >> j)]
            j < 64 ==> ((((a | b) >> j) & 1u64 == 1u64) == (((a >> j) & 1u64 == 1u64) || ((b >> j) & 1u64
                == 1u64))),
        forall|a: u64, j: u64|
            #![trigger ((!a) >> j)]
            j < 64 ==> ((((!a) >> j) & 1u64 == 1u64) == !((a >> j) & 1u64 == 1u64)),
        forall|a: u64, b: u64| #![trigger (a ^ b)] (a ^ b == 0u64) == (a == b),
        forall|y: u64| #![trigger (y & 1u64)] (y & 1u64 != 0u64) == (y & 1u64 == 1u64),
{
}

/// Bit-level facts about shifting `u64` values.
pub(crate) proof fn lemma_u64_bit_shifts()
    by (bit_vector)
    ensures
        forall|x: u64| #![trigger (x >> 64u64)] x >> 64u64 == 0u64,
        forall|x: u64| #![trigger (x >> 0u64)] x >> 0u64 == x,
        forall|x: u64, k: u64|
            #![trigger ((x >> k) >> 1u64)]
            k < 64 ==> ((x >> k) >> 1u64 == x >> ((k + 1) as u64)) && ((x >> k) >> 1u64 == 0u64 && (x >> k)
                & 1u64 == 0u64 ==> x >> k == 0u64),
        forall|x: u64, s: u64, j: u64|
            #![trigger ((x << s) >> j)]
            s < 64 && j < 64 ==> ((((x << s) >> j) & 1u64 == 1u64) == (j >= s && (x >> ((j - s) as u64))
                & 1u64 == 1u64)),
        forall|x: u64, s: u64, j: u64|
            #![trigger ((x >> s) >> j)]
            s < 64 && j < 64 ==> ((((x >> s) >> j) & 1u64 == 1u64) == (j + s < 64 && (x >> ((j + s) as u64))
                & 1u64 == 1u64)),
{
}

/// A `u64` whose bits are all off has every shift of it zero.
proof fn lemma_u64_zero_above(x: u64, k: u64)
    requires
        k <= 64,
        forall|j: u64| j < 64 ==> #[trigger] ((x >> j) & 1u64) == 0u64,
    ensures
        x >> k == 0u64,
    decreases 64 - k,
{
    lemma_u64_bit_shifts();
    if k < 64 {
        lemma_u64_zero_above(x, (k + 1) as u64);
        assert((x >> k) & 1u64 == 0u64);
        assert((x >> k) >> 1u64 == x >> ((k + 1) as u64));
    }
}

impl BitContainerItem for u64 {
    const BIT_WIDTH: usize = 64;
    const ZERO: u64 = 0u64;
    const ONE: u64 = 1u64;
    const MAX: u64 = 0xFFFF_FFFF_FFFF_FFFFu64;

    open spec fn spec_bit(self, i: int) -> bool {
        (self >> (i as u64)) & 1u64 == 1u64
    }

    proof fn lemma_constants() {
        lemma_u64_bit_ops();
        assert forall|i: int| 0 <= i < 64 implies {
            &&& !(#[trigger] (0u64).spec_bit(i))
            &&& (1u64).spec_bit(i) == (i == 0)
            &&& (0xFFFF_FFFF_FFFF_FFFFu64).spec_bit(i)
        } by {
            let j = i as u64;
            assert((0u64 >> j) & 1u64 == 0u64);
            assert(((1u64 >> j) & 1u64 == 1u64) == (j == 0u64));
            assert((0xFFFF_FFFF_FFFF_FFFFu64 >> j) & 1u64 == 1u64);
        }
    }

    proof fn lemma_bits_determine(a: u64, b: u64) {
        lemma_u64_bit_ops();
        lemma_u64_bit_shifts();
        let x = a ^ b;
        assert forall|j: u64| j < 64 implies #[trigger] ((x >> j) & 1u64) == 0u64 by {
            assert(a.spec_bit(j as int) == b.spec_bit(j as int));
            assert((((a ^ b) >> j) & 1u64 == 1u64) == (((a >> j) & 1u64 == 1u64) != ((b >> j) & 1u64
                == 1u64)));
            assert(((x >> j) & 1u64 != 0u64) == ((x >> j) & 1u64 == 1u64));
        }
        lemma_u64_zero_above(x, 0);
        assert(x >> 0u64 == x);
    }

    fn count_ones(self) -> (r: u32) {
        let mut c: u32 = 0;
        let mut j: u64 = 0;
        while j < 64
            invariant
                j <= 64,
                c <= j,
                c == count_true(self.spec_bits().take(j as int)),
            decreases 64 - j,
        {
            proof {
                assert(self.spec_bits().take(j + 1).drop_last() =~= self.spec_bits().take(j as int));
            }
            if (self >> j) & 1u64 == 1u64 {
                c = c + 1;
            }
            j = j + 1;
        }
        proof {
            assert(self.spec_bits().take(64) =~= self.spec_bits());
        }
        c
    }

    fn leading_zeros(self) -> (r: u32) {
        let r = u64::leading_zeros(self);
        proof {
            lemma_u64_bit_ops();
            axiom_u64_leading_zeros(self);
            let lz = u64_leading_zeros(self) as u64;
            if lz < 64 {
                let y = self >> ((63 - lz) as u64);
                assert((y & 1u64 != 0u64) == (y & 1u64 == 1u64));
            }
            assert forall|i: int| 64 - r <= i < 64 implies !self.spec_bit(i) by {
                let j = i as u64;
                assert((self >> j) & 1u64 == 0u64);
            }
        }
        r
    }

    fn wrapping_shl(self, rhs: u32) -> (r: u64) {
        let r = self.wrapping_shl(rhs);
        proof {
            lemma_u64_bit_shifts();
            let s = (rhs % 64) as u64;
            assert(shift_mod(rhs, 64) == s);
            assert forall|i: int| 0 <= i < 64 implies #[trigger] r.spec_bit(i) == (i >= shift_mod(rhs, 64)
                && self.spec_bit(i - shift_mod(rhs, 64))) by {
                let j = i as u64;
                assert((((self << s) >> j) & 1u64 == 1u64) == (j >= s && (self >> ((j - s) as u64)) & 1u64
                    == 1u64));
            }
        }
        r
    }

    fn wrapping_shr(self, rhs: u32) -> (r: u64) {
        let r = self.wrapping_shr(rhs);
        proof {
            lemma_u64_bit_shifts();
            let s = (rhs % 64) as u64;
            assert(shift_mod(rhs, 64) == s);
            assert forall|i: int| 0 <= i < 64 implies #[trigger] r.spec_bit(i) == (i + shift_mod(rhs, 64)
                < 64 && self.spec_bit(i + shift_mod(rhs, 64))) by {
                let j = i as u64;
                assert((((self >> s) >> j) & 1u64 == 1u64) == (j + s < 64 && (self >> ((j + s) as u64)) & 1u64
                    == 1u64));
            }
        }
        r
    }

    fn clear_high_bits(self, rhs: u32) -> (r: u64) {
        let r = self.wrapping_shl(rhs).wrapping_shr(rhs);
        proof {
            lemma_u64_bit_shifts();
            let s = (rhs % 64) as u64;
            assert(shift_mod(rhs, 64) == s);
            assert forall|i: int| 0 <= i < 64 implies #[trigger] r.spec_bit(i) == (i < 64 - shift_mod(rhs, 64)
                && self.spec_bit(i)) by {
                let j = i as u64;
                let x = self << s;
                assert((((x >> s) >> j) & 1u64 == 1u64) == (j + s < 64 && (x >> ((j + s) as u64)) & 1u64
                    == 1u64));
                if j + s < 64 {
                    let k = (j + s) as u64;
                    assert((((self << s) >> k) & 1u64 == 1u64) == (k >= s && (self >> ((k - s) as u64)) & 1u64
                        == 1u64));
                }
            }
        }
        r
    }

    fn clear_low_bits(self, rhs: u32) -> (r: u64) {
        let r = self.wrapping_shr(rhs).wrapping_shl(rhs);
        proof {
            lemma_u64_bit_shifts();
            let s = (rhs % 64) as u64;
            assert(shift_mod(rhs, 64) == s);
            assert forall|i: int| 0 <= i < 64 implies #[trigger] r.spec_bit(i) == (i >= shift_mod(rhs, 64)
                && self.spec_bit(i)) by {
                let j = i as u64;
                let x = self >> s;
                assert((((x << s) >> j) & 1u64 == 1u64) == (j >= s && (x >> ((j - s) as u64)) & 1u64 == 1u64));
                if j >= s {
                    let k = (j - s) as u64;
                    assert((((self >> s) >> k) & 1u64 == 1u64) == (k + s < 64 && (self >> ((k + s) as u64))
                        & 1u64 == 1u64));
                }
            }
        }
        r
    }
}

/// Bit-level facts about `u32` values: single bits of the constants and of
/// the bitwise operations.
pub(crate) proof fn lemma_u32_bit_ops()
    by (bit_vector)
    ensures
        forall|j: u32| #![trigger (1u32 >> j)] j < 32 ==> (((1u32 >> j) & 1u32 == 1u32) == (j == 0u32)),
        forall|j: u32| #![trigger (0u32 >> j)] j < 32 ==> (0u32 >> j) & 1u32 == 0u32,
        forall|j: u32| #![trigger (0xFFFF_FFFFu32 >> j)] j < 32 ==> (0xFFFF_FFFFu32 >> j) & 1u32 == 1u32,
        forall|a: u32, b: u32, j: u32|
            #![trigger ((a ^ b) >> j)]
            j < 32 ==> ((((a ^ b) >> j) & 1u32 == 1u32) == (((a >> j) & 1u32 == 1u32) != ((b >> j) & 1u32
                == 1u32))),
        forall|a: u32, b: u32, j: u32|
            #![trigger ((a & b) >> j)]
            j < 32 ==> ((((a & b) >> j) & 1u32 == 1u32) == (((a >> j) & 1u32 == 1u32) && ((b >> j) & 1u32
                == 1u32))),
        forall|a: u32, b: u32, j: u32|
            #![trigger ((a | b) >> j)]
            j < 32 ==> ((((a | b) >> j) & 1u32 == 1u32) == (((a >> j) & 1u32 == 1u32) || ((b >> j) & 1u32
                == 1u32))),
        forall|a: u32, j: u32|
            #![trigger ((!a) >> j)]
            j < 32 ==> ((((!a) >> j) & 1u32 == 1u32) == !((a >> j) & 1u32 == 1u32)),
        forall|a: u32, b: u32| #![trigger (a ^ b)] (a ^ b == 0u32) == (a == b),
        forall|y: u32| #![trigger (y & 1u32)] (y & 1u32 != 0u32) == (y & 1u32 == 1u32),
{
}

/// Bit-level facts about shifting `u32` values.
pub(crate) proof fn lemma_u32_bit_shifts()
    by (bit_vector)
    ensures
        forall|x: u32| #![trigger (x >> 32u32)] x >> 32u32 == 0u32,
        forall|x: u32| #![trigger (x >> 0u32)] x >> 0u32 == x,
        forall|x: u32, k: u32|
            #![trigger ((x >> k) >> 1u32)]
            k < 32 ==> ((x >> k) >> 1u32 == x >> ((k + 1) as u32)) && ((x >> k) >> 1u32 == 0u32 && (x >> k)
                & 1u32 == 0u32 ==> x >> k == 0u32),
        forall|x: u32, s: u32, j: u32|
            #![trigger ((x << s) >> j)]
            s < 32 && j < 32 ==> ((((x << s) >> j) & 1u32 == 1u32) == (j >= s && (x >> ((j - s) as u32))
                & 1u32 == 1u32)),
        forall|x: u32, s: u32, j: u32|
            #![trigger ((x >> s) >> j)]
            s < 32 && j < 32 ==> ((((x >> s) >> j) & 1u32 == 1u32) == (j + s < 32 && (x >> ((j + s) as u32))
                & 1u32 == 1u32)),
{
}

/// A `u32` whose bits are all off has every shift of it zero.
proof fn lemma_u32_zero_above(x: u32, k: u32)
    requires
        k <= 32,
        forall|j: u32| j < 32 ==> #[trigger] ((x >> j) & 1u32) == 0u32,
    ensures
        x >> k == 0u32,
    decreases 32 - k,
{
    lemma_u32_bit_shifts();
    if k < 32 {
        lemma_u32_zero_above(x, (k + 1) as u32);
        assert((x >> k) & 1u32 == 0u32);
        assert((x >> k) >> 1u32 == x >> ((k + 1) as u32));
    }
}

impl BitContainerItem for u32 {
    const BIT_WIDTH: usize = 32;
    const ZERO: u32 = 0u32;
    const ONE: u32 = 1u32;
    const MAX: u32 = 0xFFFF_FFFFu32;

    open spec fn spec_bit(self, i: int) -> bool {
        (self >> (i as u32)) & 1u32 == 1u32
    }

    proof fn lemma_constants() {
        lemma_u32_bit_ops();
        assert forall|i: int| 0 <= i < 32 implies {
            &&& !(#[trigger] (0u32).spec_bit(i))
            &&& (1u32).spec_bit(i) == (i == 0)
            &&& (0xFFFF_FFFFu32).spec_bit(i)
        } by {
            let j = i as u32;
            assert((0u32 >> j) & 1u32 == 0u32);
            assert(((1u32 >> j) & 1u32 == 1u32) == (j == 0u32));
            assert((0xFFFF_FFFFu32 >> j) & 1u32 == 1u32);
        }
    }

    proof fn lemma_bits_determine(a: u32, b: u32) {
        lemma_u32_bit_ops();
        lemma_u32_bit_shifts();
        let x = a ^ b;
        assert forall|j: u32| j < 32 implies #[trigger] ((x >> j) & 1u32) == 0u32 by {
            assert(a.spec_bit(j as int) == b.spec_bit(j as int));
            assert((((a ^ b) >> j) & 1u32 == 1u32) == (((a >> j) & 1u32 == 1u32) != ((b >> j) & 1u32
                == 1u32)));
            assert(((x >> j) & 1u32 != 0u32) == ((x >> j) & 1u32 == 1u32));
        }
        lemma_u32_zero_above(x, 0);
        assert(x >> 0u32 == x);
    }

    fn count_ones(self) -> (r: u32) {
        let mut c: u32 = 0;
        let mut j: u32 = 0;
        while j < 32
            invariant
                j <= 32,
                c <= j,
                c == count_true(self.spec_bits().take(j as int)),
            decreases 32 - j,
        {
            proof {
                assert(self.spec_bits().take(j + 1).drop_last() =~= self.spec_bits().take(j as int));
            }
            if (self >> j) & 1u32 == 1u32 {
                c = c + 1;
            }
            j = j + 1;
        }
        proof {
            assert(self.spec_bits().take(32) =~= self.spec_bits());
        }
        c
    }

    fn leading_zeros(self) -> (r: u32) {
        let r = u32::leading_zeros(self);
        proof {
            lemma_u32_bit_ops();
            axiom_u32_leading_zeros(self);
            let lz = u32_leading_zeros(self) as u32;
            if lz < 32 {
                let y = self >> ((31 - lz) as u32);
                assert((y & 1u32 != 0u32) == (y & 1u32 == 1u32));
            }
            assert forall|i: int| 32 - r <= i < 32 implies !self.spec_bit(i) by {
                let j = i as u32;
                assert((self >> j) & 1u32 == 0u32);
            }
        }
        r
    }

    fn wrapping_shl(self, rhs: u32) -> (r: u32) {
        let r = self.wrapping_shl(rhs);
        proof {
            lemma_u32_bit_shifts();
            let s = (rhs % 32) as u32;
            assert(shift_mod(rhs, 32) == s);
            assert forall|i: int| 0 <= i < 32 implies #[trigger] r.spec_bit(i) == (i >= shift_mod(rhs, 32)
                && self.spec_bit(i - shift_mod(rhs, 32))) by {
                let j = i as u32;
                assert((((self << s) >> j) & 1u32 == 1u32) == (j >= s && (self >> ((j - s) as u32)) & 1u32
                    == 1u32));
            }
        }
        r
    }

    fn wrapping_shr(self, rhs: u32) -> (r: u32) {
        let r = self.wrapping_shr(rhs);
        proof {
            lemma_u32_bit_shifts();
            let s = (rhs % 32) as u32;
            assert(shift_mod(rhs, 32) == s);
            assert forall|i: int| 0 <= i < 32 implies #[trigger] r.spec_bit(i) == (i + shift_mod(rhs, 32)
                < 32 && self.spec_bit(i + shift_mod(rhs, 32))) by {
                let j = i as u32;
                assert((((self >> s) >> j) & 1u32 == 1u32) == (j + s < 32 && (self >> ((j + s) as u32)) & 1u32
                    == 1u32));
            }
        }
        r
    }

    fn clear_high_bits(self, rhs: u32) -> (r: u32) {
        let r = self.wrapping_shl(rhs).wrapping_shr(rhs);
        proof {
            lemma_u32_bit_shifts();
            let s = (rhs % 32) as u32;
            assert(shift_mod(rhs, 32) == s);
            assert forall|i: int| 0 <= i < 32 implies #[trigger] r.spec_bit(i) == (i < 32 - shift_mod(rhs, 32)
                && self.spec_bit(i)) by {
                let j = i as u32;
                let x = self << s;
                assert((((x >> s) >> j) & 1u32 == 1u32) == (j + s < 32 && (x >> ((j + s) as u32)) & 1u32
                    == 1u32));
                if j + s < 32 {
                    let k = (j + s) as u32;
                    assert((((self << s) >> k) & 1u32 == 1u32) == (k >= s && (self >> ((k - s) as u32)) & 1u32
                        == 1u32));
                }
            }
        }
        r
    }

    fn clear_low_bits(self, rhs: u32) -> (r: u32) {
        let r = self.wrapping_shr(rhs).wrapping_shl(rhs);
        proof {
            lemma_u32_bit_shifts();
            let s = (rhs % 32) as u32;
            assert(shift_mod(rhs, 32) == s);
            assert forall|i: int| 0 <= i < 32 implies #[trigger] r.spec_bit(i) == (i >= shift_mod(rhs, 32)
                && self.spec_bit(i)) by {
                let j = i as u32;
                let x = self >> s;
                assert((((x << s) >> j) & 1u32 == 1u32) == (j >= s && (x >> ((j - s) as u32)) & 1u32 == 1u32));
                if j >= s {
                    let k = (j - s) as u32;
                    assert((((self >> s) >> k) & 1u32 == 1u32) == (k + s < 32 && (self >> ((k + s) as u32))
                        & 1u32 == 1u32));
                }
            }
        }
        r
    }
}

/// Bit-level facts about `u16` values: single bits of the constants and of
/// the bitwise operations.
pub(crate) proof fn lemma_u16_bit_ops()
    by (bit_vector)
    ensures
        forall|j: u16| #![trigger (1u16 >> j)] j < 16 ==> (((1u16 >> j) & 1u16 == 1u16) == (j == 0u16)),
        forall|j: u16| #![trigger (0u16 >> j)] j < 16 ==> (0u16 >> j) & 1u16 == 0u16,
        forall|j: u16| #![trigger (0xFFFFu16 >> j)] j < 16 ==> (0xFFFFu16 >> j) & 1u16 == 1u16,
        forall|a: u16, b: u16, j: u16|
            #![trigger ((a ^ b) >> j)]
            j < 16 ==> ((((a ^ b) >> j) & 1u16 == 1u16) == (((a >> j) & 1u16 == 1u16) != ((b >> j) & 1u16
                == 1u16))),
        forall|a: u16, b: u16, j: u16|
            #![trigger ((a & b) >> j)]
            j < 16 ==> ((((a & b) >> j) & 1u16 == 1u16) == (((a >> j) & 1u16 == 1u16) && ((b >> j) & 1u16
                == 1u16))),
        forall|a: u16, b: u16, j: u16|
            #![trigger ((a | b) >> j)]
            j < 16 ==> ((((a | b) >> j) & 1u16 == 1u16) == (((a >> j) & 1u16 == 1u16) || ((b >> j) & 1u16
                == 1u16))),
        forall|a: u16, j: u16|
            #![trigger ((!a) >> j)]
            j < 16 ==> ((((!a) >> j) & 1u16 == 1u16) == !((a >> j) & 1u16 == 1u16)),
        forall|a: u16, b: u16| #![trigger (a ^ b)] (a ^ b == 0u16) == (a == b),
        forall|y: u16| #![trigger (y & 1u16)] (y & 1u16 != 0u16) == (y & 1u16 == 1u16),
{
}

/// Bit-level facts about shifting `u16` values.
pub(crate) proof fn lemma_u16_bit_shifts()
    by (bit_vector)
    ensures
        forall|x: u16| #![trigger (x >> 16u16)] x >> 16u16 == 0u16,
        forall|x: u16| #![trigger (x >> 0u16)] x >> 0u16 == x,
        forall|x: u16, k: u16|
            #![trigger ((x >> k) >> 1u16)]
            k < 16 ==> ((x >> k) >> 1u16 == x >> ((k + 1) as u16)) && ((x >> k) >> 1u16 == 0u16 && (x >> k)
                & 1u16 == 0u16 ==> x >> k == 0u16),
        forall|x: u16, s: u16, j: u16|
            #![trigger ((x << s) >> j)]
            s < 16 && j < 16 ==> ((((x << s) >> j) & 1u16 == 1u16) == (j >= s && (x >> ((j - s) as u16))
                & 1u16 == 1u16)),
        forall|x: u16, s: u16, j: u16|
            #![trigger ((x >> s) >> j)]
            s < 16 && j < 16 ==> ((((x >> s) >> j) & 1u16 == 1u16) == (j + s < 16 && (x >> ((j + s) as u16))
                & 1u16 == 1u16)),
{
}

/// A `u16` whose bits are all off has every shift of it zero.
proof fn lemma_u16_zero_above(x: u16, k: u16)
    requires
        k <= 16,
        forall|j: u16| j < 16 ==> #[trigger] ((x >> j) & 1u16) == 0u16,
    ensures
        x >> k == 0u16,
    decreases 16 - k,
{
    lemma_u16_bit_shifts();
    if k < 16 {
        lemma_u16_zero_above(x, (k + 1) as u16);
        assert((x >> k) & 1u16 == 0u16);
        assert((x >> k) >> 1u16 == x >> ((k + 1) as u16));
    }
}

impl BitContainerItem for u16 {
    const BIT_WIDTH: usize = 16;
    const ZERO: u16 = 0u16;
    const ONE: u16 = 1u16;
    const MAX: u16 = 0xFFFFu16;

    open spec fn spec_bit(self, i: int) -> bool {
        (self >> (i as u16)) & 1u16 == 1u16
    }

    proof fn lemma_constants() {
        lemma_u16_bit_ops();
        assert forall|i: int| 0 <= i < 16 implies {
            &&& !(#[trigger] (0u16).spec_bit(i))
            &&& (1u16).spec_bit(i) == (i == 0)
            &&& (0xFFFFu16).spec_bit(i)
        } by {
            let j = i as u16;
            assert((0u16 >> j) & 1u16 == 0u16);
            assert(((1u16 >> j) & 1u16 == 1u16) == (j == 0u16));
            assert((0xFFFFu16 >> j) & 1u16 == 1u16);
        }
    }

    proof fn lemma_bits_determine(a: u16, b: u16) {
        lemma_u16_bit_ops();
        lemma_u16_bit_shifts();
        let x = a ^ b;
        assert forall|j: u16| j < 16 implies #[trigger] ((x >> j) & 1u16) == 0u16 by {
            assert(a.spec_bit(j as int) == b.spec_bit(j as int));
            assert((((a ^ b) >> j) & 1u16 == 1u16) == (((a >> j) & 1u16 == 1u16) != ((b >> j) & 1u16
                == 1u16)));
            assert(((x >> j) & 1u16 != 0u16) == ((x >> j) & 1u16 == 1u16));
        }
        lemma_u16_zero_above(x, 0);
        assert(x >> 0u16 == x);
    }

    fn count_ones(self) -> (r: u32) {
        let mut c: u32 = 0;
        let mut j: u16 = 0;
        while j < 16
            invariant
                j <= 16,
                c <= j,
                c == count_true(self.spec_bits().take(j as int)),
            decreases 16 - j,
        {
            proof {
                assert(self.spec_bits().take(j + 1).drop_last() =~= self.spec_bits().take(j as int));
            }
            if (self >> j) & 1u16 == 1u16 {
                c = c + 1;
            }
            j = j + 1;
        }
        proof {
            assert(self.spec_bits().take(16) =~= self.spec_bits());
        }
        c
    }

    fn leading_zeros(self) -> (r: u32) {
        let r = u16::leading_zeros(self);
        proof {
            lemma_u16_bit_ops();
            axiom_u16_leading_zeros(self);
            let lz = u16_leading_zeros(self) as u16;
            if lz < 16 {
                let y = self >> ((15 - lz) as u16);
                assert((y & 1u16 != 0u16) == (y & 1u16 == 1u16));
            }
            assert forall|i: int| 16 - r <= i < 16 implies !self.spec_bit(i) by {
                let j = i as u16;
                assert((self >> j) & 1u16 == 0u16);
            }
        }
        r
    }

    fn wrapping_shl(self, rhs: u32) -> (r: u16) {
        let r = self.wrapping_shl(rhs);
        proof {
            lemma_u16_bit_shifts();
            let s = (rhs % 16) as u16;
            assert(shift_mod(rhs, 16) == s);
            assert forall|i: int| 0 <= i < 16 implies #[trigger] r.spec_bit(i) == (i >= shift_mod(rhs, 16)
                && self.spec_bit(i - shift_mod(rhs, 16))) by {
                let j = i as u16;
                assert((((self << s) >> j) & 1u16 == 1u16) == (j >= s && (self >> ((j - s) as u16)) & 1u16
                    == 1u16));
            }
        }
        r
    }

    fn wrapping_shr(self, rhs: u32) -> (r: u16) {
        let r = self.wrapping_shr(rhs);
        proof {
            lemma_u16_bit_shifts();
            let s = (rhs % 16) as u16;
            assert(shift_mod(rhs, 16) == s);
            assert forall|i: int| 0 <= i < 16 implies #[trigger] r.spec_bit(i) == (i + shift_mod(rhs, 16)
                < 16 && self.spec_bit(i + shift_mod(rhs, 16))) by {
                let j = i as u16;
                assert((((self >> s) >> j) & 1u16 == 1u16) == (j + s < 16 && (self >> ((j + s) as u16)) & 1u16
                    == 1u16));
            }
        }
        r
    }

    fn clear_high_bits(self, rhs: u32) -> (r: u16) {
        let r = self.wrapping_shl(rhs).wrapping_shr(rhs);
        proof {
            lemma_u16_bit_shifts();
            let s = (rhs % 16) as u16;
            assert(shift_mod(rhs, 16) == s);
            assert forall|i: int| 0 <= i < 16 implies #[trigger] r.spec_bit(i) == (i < 16 - shift_mod(rhs, 16)
                && self.spec_bit(i)) by {
                let j = i as u16;
                let x = self << s;
                assert((((x >> s) >> j) & 1u16 == 1u16) == (j + s < 16 && (x >> ((j + s) as u16)) & 1u16
                    == 1u16));
                if j + s < 16 {
                    let k = (j + s) as u16;
                    assert((((self << s) >> k) & 1u16 == 1u16) == (k >= s && (self >> ((k - s) as u16)) & 1u16
                        == 1u16));
                }
            }
        }
        r
    }

    fn clear_low_bits(self, rhs: u32) -> (r: u16) {
        let r = self.wrapping_shr(rhs).wrapping_shl(rhs);
        proof {
            lemma_u16_bit_shifts();
            let s = (rhs % 16) as u16;
            assert(shift_mod(rhs, 16) == s);
            assert forall|i: int| 0 <= i < 16 implies #[trigger] r.spec_bit(i) == (i >= shift_mod(rhs, 16)
                && self.spec_bit(i)) by {
                let j = i as u16;
                let x = self >> s;
                assert((((x << s) >> j) & 1u16 == 1u16) == (j >= s && (x >> ((j - s) as u16)) & 1u16 == 1u16));
                if j >= s {
                    let k = (j - s) as u16;
                    assert((((self >> s) >> k) & 1u16 == 1u16) == (k + s < 16 && (self >> ((k + s) as u16))
                        & 1u16 == 1u16));
                }
            }
        }
        r
    }
}

/// Bit-level facts about `u8` values: single bits of the constants and of
/// the bitwise operations.
pub(crate) proof fn lemma_u8_bit_ops()
    by (bit_vector)
    ensures
        forall|j: u8| #![trigger (1u8 >> j)] j < 8 ==> (((1u8 >> j) & 1u8 == 1u8) == (j == 0u8)),
        forall|j: u8| #![trigger (0u8 >> j)] j < 8 ==> (0u8 >> j) & 1u8 == 0u8,
        forall|j: u8| #![trigger (0xFFu8 >> j)] j < 8 ==> (0xFFu8 >> j) & 1u8 == 1u8,
        forall|a: u8, b: u8, j: u8|
            #![trigger ((a ^ b) >> j)]
            j < 8 ==> ((((a ^ b) >> j) & 1u8 == 1u8) == (((a >> j) & 1u8 == 1u8) != ((b >> j) & 1u8
                == 1u8))),
        forall|a: u8, b: u8, j: u8|
            #![trigger ((a & b) >> j)]
            j < 8 ==> ((((a & b) >> j) & 1u8 == 1u8) == (((a >> j) & 1u8 == 1u8) && ((b >> j) & 1u8
                == 1u8))),
        forall|a: u8, b: u8, j: u8|
            #![trigger ((a | b) >> j)]
            j < 8 ==> ((((a | b) >> j) & 1u8 == 1u8) == (((a >> j) & 1u8 == 1u8) || ((b >> j) & 1u8
                == 1u8))),
        forall|a: u8, j: u8|
            #![trigger ((!a) >> j)]
            j < 8 ==> ((((!a) >> j) & 1u8 == 1u8) == !((a >> j) & 1u8 == 1u8)),
        forall|a: u8, b: u8| #![trigger (a ^ b)] (a ^ b == 0u8) == (a == b),
        forall|y: u8| #![trigger (y & 1u8)] (y & 1u8 != 0u8) == (y & 1u8 == 1u8),
{
}

/// Bit-level facts about shifting `u8` values.
pub(crate) proof fn lemma_u8_bit_shifts()
    by (bit_vector)
    ensures
        forall|x: u8| #![trigger (x >> 8u8)] x >> 8u8 == 0u8,
        forall|x: u8| #![trigger (x >> 0u8)] x >> 0u8 == x,
        forall|x: u8, k: u8|
            #![trigger ((x >> k) >> 1u8)]
            k < 8 ==> ((x >> k) >> 1u8 == x >> ((k + 1) as u8)) && ((x >> k) >> 1u8 == 0u8 && (x >> k)
                & 1u8 == 0u8 ==> x >> k == 0u8),
        forall|x: u8, s: u8, j: u8|
            #![trigger ((x << s) >> j)]
            s < 8 && j < 8 ==> ((((x << s) >> j) & 1u8 == 1u8) == (j >= s && (x >> ((j - s) as u8))
                & 1u8 == 1u8)),
        forall|x: u8, s: u8, j: u8|
            #![trigger ((x >> s) >> j)]
            s < 8 && j < 8 ==> ((((x >> s) >> j) & 1u8 == 1u8) == (j + s < 8 && (x >> ((j + s) as u8))
                & 1u8 == 1u8)),
{
}

/// A `u8` whose bits are all off has every shift of it zero.
proof fn lemma_u8_zero_above(x: u8, k: u8)
    requires
        k <= 8,
        forall|j: u8| j < 8 ==> #[trigger] ((x >> j) & 1u8) == 0u8,
    ensures
        x >> k == 0u8,
    decreases 8 - k,
{
    lemma_u8_bit_shifts();
    if k < 8 {
        lemma_u8_zero_above(x, (k + 1) as u8);
        assert((x >> k) & 1u8 == 0u8);
        assert((x >> k) >> 1u8 == x >> ((k + 1) as u8));
    }
}

impl BitContainerItem for u8 {
    const BIT_WIDTH: usize = 8;
    const ZERO: u8 = 0u8;
    const ONE: u8 = 1u8;
    const MAX: u8 = 0xFFu8;

    open spec fn spec_bit(self, i: int) -> bool {
        (self >> (i as u8)) & 1u8 == 1u8
    }

    proof fn lemma_constants() {
        lemma_u8_bit_ops();
        assert forall|i: int| 0 <= i < 8 implies {
            &&& !(#[trigger] (0u8).spec_bit(i))
            &&& (1u8).spec_bit(i) == (i == 0)
            &&& (0xFFu8).spec_bit(i)
        } by {
            let j = i as u8;
            assert((0u8 >> j) & 1u8 == 0u8);
            assert(((1u8 >> j) & 1u8 == 1u8) == (j == 0u8));
            assert((0xFFu8 >> j) & 1u8 == 1u8);
        }
    }

    proof fn lemma_bits_determine(a: u8, b: u8) {
        lemma_u8_bit_ops();
        lemma_u8_bit_shifts();
        let x = a ^ b;
        assert forall|j: u8| j < 8 implies #[trigger] ((x >> j) & 1u8) == 0u8 by {
            assert(a.spec_bit(j as int) == b.spec_bit(j as int));
            assert((((a ^ b) >> j) & 1u8 == 1u8) == (((a >> j) & 1u8 == 1u8) != ((b >> j) & 1u8
                == 1u8)));
            assert(((x >> j) & 1u8 != 0u8) == ((x >> j) & 1u8 == 1u8));
        }
        lemma_u8_zero_above(x, 0);
        assert(x >> 0u8 == x);
    }

    fn count_ones(self) -> (r: u32) {
        let mut c: u32 = 0;
        let mut j: u8 = 0;
        while j < 8
            invariant
                j <= 8,
                c <= j,
                c == count_true(self.spec_bits().take(j as int)),
            decreases 8 - j,
        {
            proof {
                assert(self.spec_bits().take(j + 1).drop_last() =~= self.spec_bits().take(j as int));
            }
            if (self >> j) & 1u8 == 1u8 {
                c = c + 1;
            }
            j = j + 1;
        }
        proof {
            assert(self.spec_bits().take(8) =~= self.spec_bits());
        }
        c
    }

    fn leading_zeros(self) -> (r: u32) {
        let r = u8::leading_zeros(self);
        proof {
            lemma_u8_bit_ops();
            axiom_u8_leading_zeros(self);
            let lz = u8_leading_zeros(self) as u8;
            if lz < 8 {
                let y = self >> ((7 - lz) as u8);
                assert((y & 1u8 != 0u8) == (y & 1u8 == 1u8));
            }
            assert forall|i: int| 8 - r <= i < 8 implies !self.spec_bit(i) by {
                let j = i as u8;
                assert((self >> j) & 1u8 == 0u8);
            }
        }
        r
    }

    fn wrapping_shl(self, rhs: u32) -> (r: u8) {
        let r = self.wrapping_shl(rhs);
        proof {
            lemma_u8_bit_shifts();
            let s = (rhs % 8) as u8;
            assert(shift_mod(rhs, 8) == s);
            assert forall|i: int| 0 <= i < 8 implies #[trigger] r.spec_bit(i) == (i >= shift_mod(rhs, 8)
                && self.spec_bit(i - shift_mod(rhs, 8))) by {
                let j = i as u8;
                assert((((self << s) >> j) & 1u8 == 1u8) == (j >= s && (self >> ((j - s) as u8)) & 1u8
                    == 1u8));
            }
        }
        r
    }

    fn wrapping_shr(self, rhs: u32) -> (r: u8) {
        let r = self.wrapping_shr(rhs);
        proof {
            lemma_u8_bit_shifts();
            let s = (rhs % 8) as u8;
            assert(shift_mod(rhs, 8) == s);
            assert forall|i: int| 0 <= i < 8 implies #[trigger] r.spec_bit(i) == (i + shift_mod(rhs, 8)
                < 8 && self.spec_bit(i + shift_mod(rhs, 8))) by {
                let j = i as u8;
                assert((((self >> s) >> j) & 1u8 == 1u8) == (j + s < 8 && (self >> ((j + s) as u8)) & 1u8
                    == 1u8));
            }
        }
        r
    }

    fn clear_high_bits(self, rhs: u32) -> (r: u8) {
        let r = self.wrapping_shl(rhs).wrapping_shr(rhs);
        proof {
            lemma_u8_bit_shifts();
            let s = (rhs % 8) as u8;
            assert(shift_mod(rhs, 8) == s);
            assert forall|i: int| 0 <= i < 8 implies #[trigger] r.spec_bit(i) == (i < 8 - shift_mod(rhs, 8)
                && self.spec_bit(i)) by {
                let j = i as u8;
                let x = self << s;
                assert((((x >> s) >> j) & 1u8 == 1u8) == (j + s < 8 && (x >> ((j + s) as u8)) & 1u8
                    == 1u8));
                if j + s < 8 {
                    let k = (j + s) as u8;
                    assert((((self << s) >> k) & 1u8 == 1u8) == (k >= s && (self >> ((k - s) as u8)) & 1u8
                        == 1u8));
                }
            }
        }
        r
    }

    fn clear_low_bits(self, rhs: u32) -> (r: u8) {
        let r = self.wrapping_shr(rhs).wrapping_shl(rhs);
        proof {
            lemma_u8_bit_shifts();
            let s = (rhs % 8) as u8;
            assert(shift_mod(rhs, 8) == s);
            assert forall|i: int| 0 <= i < 8 implies #[trigger] r.spec_bit(i) == (i >= shift_mod(rhs, 8)
                && self.spec_bit(i)) by {
                let j = i as u8;
                let x = self >> s;
                assert((((x << s) >> j) & 1u8 == 1u8) == (j >= s && (x >> ((j - s) as u8)) & 1u8 == 1u8));
                if j >= s {
                    let k = (j - s) as u8;
                    assert((((self >> s) >> k) & 1u8 == 1u8) == (k + s < 8 && (self >> ((k + s) as u8))
                        & 1u8 == 1u8));
                }
            }
        }
        r
    }
}

} // verus!
