//! Sorts of terms: bit-vectors of a fixed width, and arrays from a
//! fixed-width index to fixed-width elements. A sort is immutable and a pure
//! function of operand sorts.
use vstd::arithmetic::power2::pow2;
use vstd::prelude::*;

verus! {

#[derive(Clone, Copy, PartialEq, Eq, Hash, Debug, Structural)]
pub enum Sort {
    Bv(usize),
    Array(usize, usize),
}

impl Sort {
    /// The flat size in bits: `w` for `Bv(w)`, `2^i * e` for `Array(i, e)`.
    pub open spec fn spec_size(self) -> nat {
        match self {
            Sort::Bv(w) => w as nat,
            Sort::Array(i, e) => (pow2(i as nat) * e) as nat,
        }
    }

    /// An array sort is usable only when its flat size can be computed:
    /// `2^i * e` fits a `usize`.
    pub open spec fn valid(self) -> bool {
        match self {
            Sort::Bv(w) => true,
            Sort::Array(i, e) => i < usize::BITS && pow2(i as nat) * e <= usize::MAX,
        }
    }

    /// The sort of single-bit (boolean) terms.
    pub fn bool_sort() -> (r: Sort)
        ensures
            r == Sort::Bv(1usize),
    {
        Sort::Bv(1)
    }

    pub fn is_bool(&self) -> (r: bool)
        ensures
            r == (*self == Sort::Bv(1usize)),
    {
        matches!(self, Sort::Bv(1))
    }

    pub fn size(&self) -> (r: usize)
        requires
            self.valid(),
        ensures
            r == self.spec_size(),
    {
        match self {
            Sort::Bv(s) => *s,
            Sort::Array(i, e) => {
                proof {
                    vstd::bits::lemma_usize_pow2_no_overflow(*i as nat);
                    vstd::bits::lemma_usize_shl_is_mul(1usize, *i);
                }
                let shifted = 1usize << *i;
                shifted * *e
            },
        }
    }

    /// The width of a bit-vector sort; array sorts are excluded by contract.
    pub fn bv(&self) -> (r: usize)
        requires
            self is Bv,
        ensures
            *self == Sort::Bv(r),
    {
        match self {
            Sort::Bv(w) => *w,
            Sort::Array(_, _) => unreached(),
        }
    }

    /// The index and element widths of an array sort; bit-vector sorts are
    /// excluded by contract.
    pub fn array(&self) -> (r: (usize, usize))
        requires
            self is Array,
        ensures
            *self == Sort::Array(r.0, r.1),
    {
        match self {
            Sort::Array(i, e) => (*i, *e),
            Sort::Bv(_) => unreached(),
        }
    }

    pub fn is_array(&self) -> (r: bool)
        ensures
            r == (self is Array),
    {
        matches!(self, Sort::Array(_, _))
    }
}

} // verus!
