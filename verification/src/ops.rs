//! The operators of `BitVecSimd` (`&`, `|`, `^`, `!`, `==`, indexing) and
//! its conversions into vectors.
use crate::bitvec::BitVecSimd;
use crate::model::{and_bits, bits_text, not_bits, or_bits, true_indices, xor_bits};
use vstd::prelude::*;
use vstd::string::StringExecFns;

verus! {

impl core::ops::BitAnd for BitVecSimd {
    type Output = BitVecSimd;

    /// `self.and(rhs)`; the lengths must be equal.
    fn bitand(self, rhs: BitVecSimd) -> (r: BitVecSimd)
        ensures
            r@ == and_bits(self@, rhs@),
    {
        self.and(rhs)
    }
}

impl vstd::std_specs::ops::BitAndSpecImpl for BitVecSimd {
    open spec fn obeys_bitand_spec() -> bool {
        false
    }

    open spec fn bitand_req(self, rhs: BitVecSimd) -> bool {
        self@.len() == rhs@.len()
    }

    open spec fn bitand_spec(self, rhs: BitVecSimd) -> BitVecSimd {
        arbitrary()
    }
}

impl core::ops::Index<usize> for BitVecSimd {
    type Output = bool;

    /// `self.get_unchecked(index)`; `index` must be below the length.
    fn index(&self, index: usize) -> (r: &bool)
        ensures
            *r == self@[index as int],
    {
        if self.get_unchecked(index) {
            &true
        } else {
            &false
        }
    }
}

impl vstd::std_specs::core::IndexSpecImpl<usize> for BitVecSimd {
    open spec fn index_req(&self, index: &usize) -> bool {
        *index < self@.len()
    }
}

impl PartialEq for BitVecSimd {
    /// Whether the two vectors have the same length and the same bits.
    /// Vectors of different lengths are unequal (`eq` can take no
    /// precondition, so it answers `false` rather than refusing them).
    fn eq(&self, other: &BitVecSimd) -> (r: bool) {
        self.equals(other)
    }
}

impl vstd::std_specs::cmp::PartialEqSpecImpl for BitVecSimd {
    open spec fn obeys_eq_spec() -> bool {
        true
    }

    open spec fn eq_spec(&self, other: &BitVecSimd) -> bool {
        self@ == other@
    }
}

impl core::ops::BitOr for BitVecSimd {
    type Output = BitVecSimd;

    /// `self.or(rhs)`; the lengths must be equal.
    fn bitor(self, rhs: BitVecSimd) -> (r: BitVecSimd)
        ensures
            r@ == or_bits(self@, rhs@),
    {
        self.or(rhs)
    }
}

impl vstd::std_specs::ops::BitOrSpecImpl for BitVecSimd {
    open spec fn obeys_bitor_spec() -> bool {
        false
    }

    open spec fn bitor_req(self, rhs: BitVecSimd) -> bool {
        self@.len() == rhs@.len()
    }

    open spec fn bitor_spec(self, rhs: BitVecSimd) -> BitVecSimd {
        arbitrary()
    }
}

impl<'a> core::ops::BitOr<&'a BitVecSimd> for &'a BitVecSimd {
    type Output = BitVecSimd;

    /// `self.or_cloned(rhs)`; the lengths must be equal.
    fn bitor(self, rhs: &'a BitVecSimd) -> (r: BitVecSimd)
        ensures
            r@ == or_bits(self@, rhs@),
    {
        self.or_cloned(rhs)
    }
}

impl<'a> vstd::std_specs::ops::BitOrSpecImpl<&'a BitVecSimd> for &'a BitVecSimd {
    open spec fn obeys_bitor_spec() -> bool {
        false
    }

    open spec fn bitor_req(self, rhs: &'a BitVecSimd) -> bool {
        self@.len() == rhs@.len()
    }

    open spec fn bitor_spec(self, rhs: &'a BitVecSimd) -> BitVecSimd {
        arbitrary()
    }
}

impl core::ops::BitXor for BitVecSimd {
    type Output = BitVecSimd;

    /// `self.xor(rhs)`; the lengths must be equal.
    fn bitxor(self, rhs: BitVecSimd) -> (r: BitVecSimd)
        ensures
            r@ == xor_bits(self@, rhs@),
    {
        self.xor(rhs)
    }
}

impl vstd::std_specs::ops::BitXorSpecImpl for BitVecSimd {
    open spec fn obeys_bitxor_spec() -> bool {
        false
    }

    open spec fn bitxor_req(self, rhs: BitVecSimd) -> bool {
        self@.len() == rhs@.len()
    }

    open spec fn bitxor_spec(self, rhs: BitVecSimd) -> BitVecSimd {
        arbitrary()
    }
}

impl<'a> core::ops::BitXor<&'a BitVecSimd> for &'a BitVecSimd {
    type Output = BitVecSimd;

    /// `self.xor_cloned(rhs)`; the lengths must be equal.
    fn bitxor(self, rhs: &'a BitVecSimd) -> (r: BitVecSimd)
        ensures
            r@ == xor_bits(self@, rhs@),
    {
        self.xor_cloned(rhs)
    }
}

impl<'a> vstd::std_specs::ops::BitXorSpecImpl<&'a BitVecSimd> for &'a BitVecSimd {
    open spec fn obeys_bitxor_spec() -> bool {
        false
    }

    open spec fn bitxor_req(self, rhs: &'a BitVecSimd) -> bool {
        self@.len() == rhs@.len()
    }

    open spec fn bitxor_spec(self, rhs: &'a BitVecSimd) -> BitVecSimd {
        arbitrary()
    }
}

impl<'a> core::ops::BitAnd<&'a BitVecSimd> for &'a BitVecSimd {
    type Output = BitVecSimd;

    /// `self.and_cloned(rhs)`; the lengths must be equal.
    fn bitand(self, rhs: &'a BitVecSimd) -> (r: BitVecSimd)
        ensures
            r@ == and_bits(self@, rhs@),
    {
        self.and_cloned(rhs)
    }
}

impl<'a> vstd::std_specs::ops::BitAndSpecImpl<&'a BitVecSimd> for &'a BitVecSimd {
    open spec fn obeys_bitand_spec() -> bool {
        false
    }

    open spec fn bitand_req(self, rhs: &'a BitVecSimd) -> bool {
        self@.len() == rhs@.len()
    }

    open spec fn bitand_spec(self, rhs: &'a BitVecSimd) -> BitVecSimd {
        arbitrary()
    }
}

impl<'a> core::ops::BitAnd<&'a BitVecSimd> for BitVecSimd {
    type Output = BitVecSimd;

    /// `self.and_cloned(rhs)`; the lengths must be equal.
    fn bitand(self, rhs: &'a BitVecSimd) -> (r: BitVecSimd)
        ensures
            r@ == and_bits(self@, rhs@),
    {
        self.and_cloned(rhs)
    }
}

impl<'a> vstd::std_specs::ops::BitAndSpecImpl<&'a BitVecSimd> for BitVecSimd {
    open spec fn obeys_bitand_spec() -> bool {
        false
    }

    open spec fn bitand_req(self, rhs: &'a BitVecSimd) -> bool {
        self@.len() == rhs@.len()
    }

    open spec fn bitand_spec(self, rhs: &'a BitVecSimd) -> BitVecSimd {
        arbitrary()
    }
}

impl<'a> core::ops::BitAnd<BitVecSimd> for &'a BitVecSimd {
    type Output = BitVecSimd;

    /// `self.and_cloned(&rhs)`; the lengths must be equal.
    fn bitand(self, rhs: BitVecSimd) -> (r: BitVecSimd)
        ensures
            r@ == and_bits(self@, rhs@),
    {
        self.and_cloned(&rhs)
    }
}

impl<'a> vstd::std_specs::ops::BitAndSpecImpl<BitVecSimd> for &'a BitVecSimd {
    open spec fn obeys_bitand_spec() -> bool {
        false
    }

    open spec fn bitand_req(self, rhs: BitVecSimd) -> bool {
        self@.len() == rhs@.len()
    }

    open spec fn bitand_spec(self, rhs: BitVecSimd) -> BitVecSimd {
        arbitrary()
    }
}

impl<'a> core::ops::BitOr<&'a BitVecSimd> for BitVecSimd {
    type Output = BitVecSimd;

    /// `self.or_cloned(rhs)`; the lengths must be equal.
    fn bitor(self, rhs: &'a BitVecSimd) -> (r: BitVecSimd)
        ensures
            r@ == or_bits(self@, rhs@),
    {
        self.or_cloned(rhs)
    }
}

impl<'a> vstd::std_specs::ops::BitOrSpecImpl<&'a BitVecSimd> for BitVecSimd {
    open spec fn obeys_bitor_spec() -> bool {
        false
    }

    open spec fn bitor_req(self, rhs: &'a BitVecSimd) -> bool {
        self@.len() == rhs@.len()
    }

    open spec fn bitor_spec(self, rhs: &'a BitVecSimd) -> BitVecSimd {
        arbitrary()
    }
}

impl<'a> core::ops::BitOr<BitVecSimd> for &'a BitVecSimd {
    type Output = BitVecSimd;

    /// `self.or_cloned(&rhs)`; the lengths must be equal.
    fn bitor(self, rhs: BitVecSimd) -> (r: BitVecSimd)
        ensures
            r@ == or_bits(self@, rhs@),
    {
        self.or_cloned(&rhs)
    }
}

impl<'a> vstd::std_specs::ops::BitOrSpecImpl<BitVecSimd> for &'a BitVecSimd {
    open spec fn obeys_bitor_spec() -> bool {
        false
    }

    open spec fn bitor_req(self, rhs: BitVecSimd) -> bool {
        self@.len() == rhs@.len()
    }

    open spec fn bitor_spec(self, rhs: BitVecSimd) -> BitVecSimd {
        arbitrary()
    }
}

impl<'a> core::ops::BitXor<&'a BitVecSimd> for BitVecSimd {
    type Output = BitVecSimd;

    /// `self.xor_cloned(rhs)`; the lengths must be equal.
    fn bitxor(self, rhs: &'a BitVecSimd) -> (r: BitVecSimd)
        ensures
            r@ == xor_bits(self@, rhs@),
    {
        self.xor_cloned(rhs)
    }
}

impl<'a> vstd::std_specs::ops::BitXorSpecImpl<&'a BitVecSimd> for BitVecSimd {
    open spec fn obeys_bitxor_spec() -> bool {
        false
    }

    open spec fn bitxor_req(self, rhs: &'a BitVecSimd) -> bool {
        self@.len() == rhs@.len()
    }

    open spec fn bitxor_spec(self, rhs: &'a BitVecSimd) -> BitVecSimd {
        arbitrary()
    }
}

impl<'a> core::ops::BitXor<BitVecSimd> for &'a BitVecSimd {
    type Output = BitVecSimd;

    /// `self.xor_cloned(&rhs)`; the lengths must be equal.
    fn bitxor(self, rhs: BitVecSimd) -> (r: BitVecSimd)
        ensures
            r@ == xor_bits(self@, rhs@),
    {
        self.xor_cloned(&rhs)
    }
}

impl<'a> vstd::std_specs::ops::BitXorSpecImpl<BitVecSimd> for &'a BitVecSimd {
    open spec fn obeys_bitxor_spec() -> bool {
        false
    }

    open spec fn bitxor_req(self, rhs: BitVecSimd) -> bool {
        self@.len() == rhs@.len()
    }

    open spec fn bitxor_spec(self, rhs: BitVecSimd) -> BitVecSimd {
        arbitrary()
    }
}

impl core::ops::Not for BitVecSimd {
    type Output = BitVecSimd;

    /// `self.inverse()`.
    fn not(self) -> (r: BitVecSimd)
        ensures
            r@ == not_bits(self@),
    {
        self.inverse()
    }
}

impl vstd::std_specs::ops::NotSpecImpl for BitVecSimd {
    open spec fn obeys_not_spec() -> bool {
        false
    }

    open spec fn not_req(self) -> bool {
        true
    }

    open spec fn not_spec(self) -> BitVecSimd {
        arbitrary()
    }
}

impl<'a> core::ops::Not for &'a BitVecSimd {
    type Output = BitVecSimd;

    /// `self.inverse()`.
    fn not(self) -> (r: BitVecSimd)
        ensures
            r@ == not_bits(self@),
    {
        self.inverse()
    }
}

impl<'a> vstd::std_specs::ops::NotSpecImpl for &'a BitVecSimd {
    open spec fn obeys_not_spec() -> bool {
        false
    }

    open spec fn not_req(self) -> bool {
        true
    }

    open spec fn not_spec(self) -> BitVecSimd {
        arbitrary()
    }
}

impl From<BitVecSimd> for Vec<bool> {
    /// `v.into_bools()`: the bits, in order.
    fn from(v: BitVecSimd) -> (r: Vec<bool>)
        ensures
            r@ == v@,
    {
        v.into_bools()
    }
}

impl vstd::std_specs::convert::FromSpecImpl<BitVecSimd> for Vec<bool> {
    open spec fn obeys_from_spec() -> bool {
        false
    }

    open spec fn from_spec(v: BitVecSimd) -> Vec<bool> {
        arbitrary()
    }
}

impl From<BitVecSimd> for Vec<usize> {
    /// `v.into_usizes()`: the indices of the bits that are on, increasing.
    fn from(v: BitVecSimd) -> (r: Vec<usize>)
        ensures
            r@ == true_indices(v@),
    {
        v.into_usizes()
    }
}

impl vstd::std_specs::convert::FromSpecImpl<BitVecSimd> for Vec<usize> {
    open spec fn obeys_from_spec() -> bool {
        false
    }

    open spec fn from_spec(v: BitVecSimd) -> Vec<usize> {
        arbitrary()
    }
}

impl BitVecSimd {
    /// The bits as text, `1` for a bit that is on and `0` for one that is
    /// off, lowest index first.
    pub fn to_string(&self) -> (r: String)
        ensures
            r@ == bits_text(self@),
    {
        let mut s = String::new();
        let n = self.len();
        let mut i: usize = 0;
        while i < n
            invariant
                i <= n,
                n == self@.len(),
                s@ == bits_text(self@.take(i as int)),
            decreases n - i,
        {
            proof {
                reveal_strlit("1");
                reveal_strlit("0");
            }
            if self.get_unchecked(i) {
                s.append("1");
            } else {
                s.append("0");
            }
            i = i + 1;
            proof {
                assert(s@ =~= bits_text(self@.take(i as int)));
            }
        }
        proof {
            assert(self@.take(n as int) =~= self@);
        }
        s
    }
}

} // verus!
