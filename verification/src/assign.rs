//! Assignments of boolean variables: a three-valued assignment used when
//! reading a solver model, and a per-variable bit matrix used to
//! reconstruct concrete bit-vector values, one column per solution frame.
use crate::lbool::{lb_from_bool, lb_not, Lbool};
use crate::{Lit, Var};
use vstd::prelude::*;

verus! {

/// A three-valued assignment keyed by variable index.
pub struct VarAssign {
    v: Vec<Lbool>,
}

impl VarAssign {
    pub closed spec fn view(self) -> Seq<Lbool> {
        self.v@
    }

    /// A fresh assignment where the reserved constant variable is already
    /// set so that the constant-true literal evaluates to true.
    pub fn new() -> (r: VarAssign)
        ensures
            r.view() =~= seq![Lbool::False],
    {
        let mut v: Vec<Lbool> = Vec::new();
        v.push(Lbool::False);
        VarAssign { v }
    }

    /// A fresh assignment with room for every variable up to `var`.
    pub fn new_with(var: Var) -> (r: VarAssign)
        requires
            var.0 < usize::MAX,
        ensures
            r.view().len() == if var.0 + 1 > 1 {
                var.0 + 1
            } else {
                1int
            },
            r.view()[0] == Lbool::False,
            forall|i: int| 1 <= i < r.view().len() ==> r.view()[i] == Lbool::Unknown,
    {
        let mut r = VarAssign::new();
        r.reserve(var);
        r
    }

    /// Grow the assignment so that `var` is a valid index; new entries are
    /// unknown.
    pub fn reserve(&mut self, var: Var)
        requires
            var.0 < usize::MAX,
        ensures
            final(self).view().len() == if var.0 + 1 > old(self).view().len() {
                var.0 + 1
            } else {
                old(self).view().len() as int
            },
            forall|i: int|
                0 <= i < old(self).view().len() ==> final(self).view()[i] == old(self).view()[i],
            forall|i: int|
                old(self).view().len() <= i < final(self).view().len() ==> final(self).view()[i]
                    == Lbool::Unknown,
    {
        let want = var.0 as usize + 1;
        while self.v.len() < want
            invariant
                forall|i: int|
                    0 <= i < old(self).view().len() ==> self.v@[i] == old(self).view()[i],
                forall|i: int|
                    old(self).view().len() <= i < self.v@.len() ==> self.v@[i] == Lbool::Unknown,
                self.v@.len() >= old(self).view().len(),
                self.v@.len() <= if want > old(self).view().len() {
                    want as int
                } else {
                    old(self).view().len() as int
                },
            decreases want - self.v.len(),
        {
            self.v.push(Lbool::Unknown);
        }
    }

    /// The value of a literal: the variable's value, negated for a negative
    /// literal.
    pub fn v(&self, lit: Lit) -> (r: Lbool)
        requires
            lit.spec_var().0 < self.view().len(),
        ensures
            r == if lit.spec_polarity() {
                self.view()[lit.spec_var().0 as int]
            } else {
                lb_not(self.view()[lit.spec_var().0 as int])
            },
    {
        let b = self.v[lit.var().0 as usize];
        b.not_if(!lit.polarity())
    }

    /// The literal a variable is assigned to, if any: positive when true,
    /// negative when false, absent when unknown.
    pub fn vl(&self, v: Var) -> (r: Option<Lit>)
        requires
            v.0 < self.view().len(),
            v.0 < 0x8000_0000,
        ensures
            match r {
                Some(l) => !(self.view()[v.0 as int] is Unknown) && l == Lit::spec_new(
                    v,
                    self.view()[v.0 as int] is True,
                ),
                None => self.view()[v.0 as int] is Unknown,
            },
    {
        let val = self.v[v.0 as usize];
        if val.is_none() {
            None
        } else {
            Some(Lit::new(v, val.is_true()))
        }
    }

    /// Make a literal true: assign its variable the value of its polarity.
    pub fn set(&mut self, lit: Lit)
        requires
            lit.spec_var().0 < old(self).view().len(),
        ensures
            final(self).view() =~= old(self).view().update(
                lit.spec_var().0 as int,
                lb_from_bool(lit.spec_polarity()),
            ),
    {
        let idx = lit.var().0 as usize;
        let p = lit.polarity();
        self.v.set(idx, Lbool::from_bool(p));
    }

    /// Forget a variable's value.
    pub fn set_none(&mut self, var: Var)
        requires
            var.0 < old(self).view().len(),
        ensures
            final(self).view() =~= old(self).view().update(var.0 as int, Lbool::Unknown),
    {
        self.v.set(var.0 as usize, Lbool::Unknown);
    }
}

/// One plain bit-vector per variable: row `v` holds variable `v`'s value in
/// every solution frame, one column per frame.
pub struct VarBitVec {
    vbv: Vec<Vec<bool>>,
}

impl VarBitVec {
    pub closed spec fn view(self) -> Seq<Seq<bool>> {
        Seq::new(self.vbv@.len(), |i: int| self.vbv@[i]@)
    }

    pub fn new() -> (r: VarBitVec)
        ensures
            r.view() =~= Seq::<Seq<bool>>::empty(),
    {
        VarBitVec { vbv: Vec::new() }
    }

    pub fn num_vars(&self) -> (r: usize)
        ensures
            r == self.view().len(),
    {
        self.vbv.len()
    }

    /// Append the row of the next variable.
    pub fn push_row(&mut self, row: Vec<bool>)
        ensures
            final(self).view() =~= old(self).view().push(row@),
    {
        self.vbv.push(row);
        proof {
            assert(final(self).view() =~= old(self).view().push(self.vbv@.last()@));
        }
    }

    /// The number of frames, read off the reserved constant variable's row.
    pub fn bv_len(&self) -> (r: usize)
        requires
            self.view().len() >= 1,
        ensures
            r == self.view()[0].len(),
    {
        self.vbv[0].len()
    }

    /// The row of a literal: the variable's row, complemented for a
    /// negative literal.
    pub fn val(&self, lit: Lit) -> (r: Vec<bool>)
        requires
            lit.spec_var().0 < self.view().len(),
        ensures
            r@.len() == self.view()[lit.spec_var().0 as int].len(),
            forall|i: int|
                0 <= i < r@.len() ==> r@[i] == if lit.spec_polarity() {
                    self.view()[lit.spec_var().0 as int][i]
                } else {
                    !self.view()[lit.spec_var().0 as int][i]
                },
    {
        let row = &self.vbv[lit.var().0 as usize];
        let p = lit.polarity();
        let mut r: Vec<bool> = Vec::new();
        let mut i: usize = 0;
        while i < row.len()
            invariant
                i <= row@.len(),
                r@.len() == i,
                forall|j: int|
                    0 <= j < i ==> r@[j] == if p {
                        row@[j]
                    } else {
                        !row@[j]
                    },
            decreases row@.len() - i,
        {
            r.push(if p {
                row[i]
            } else {
                !row[i]
            });
            i += 1;
        }
        r
    }

    /// The assumption cube of frame `idx`: one literal per variable whose
    /// polarity matches the variable's bit in that frame, over the listed
    /// variables or over all of them.
    pub fn assign(&self, idx: usize, filter: Option<&Vec<Var>>) -> (r: Vec<Lit>)
        requires
            self.view().len() <= 0x8000_0000,
            forall|v: int| 0 <= v < self.view().len() ==> idx < (#[trigger] self.view()[v]).len(),
            match filter {
                Some(f) => forall|k: int|
                    0 <= k < f@.len() ==> (#[trigger] f@[k]).0 < self.view().len(),
                None => true,
            },
        ensures
            match filter {
                Some(f) => {
                    &&& r@.len() == f@.len()
                    &&& forall|k: int|
                        0 <= k < f@.len() ==> r@[k] == Lit::spec_new(
                            f@[k],
                            self.view()[(#[trigger] f@[k]).0 as int][idx as int],
                        )
                },
                None => {
                    &&& r@.len() == self.view().len()
                    &&& forall|v: int|
                        0 <= v < r@.len() ==> r@[v] == Lit::spec_new(
                            Var(v as u32),
                            #[trigger] self.view()[v][idx as int],
                        )
                },
            },
    {
        let mut assump: Vec<Lit> = Vec::new();
        match filter {
            Some(f) => {
                let mut k: usize = 0;
                while k < f.len()
                    invariant
                        k <= f@.len(),
                        assump@.len() == k,
                        self.view().len() <= 0x8000_0000,
                        forall|v: int|
                            0 <= v < self.view().len() ==> idx < (
                            #[trigger] self.view()[v]).len(),
                        forall|j: int|
                            0 <= j < f@.len() ==> (#[trigger] f@[j]).0 < self.view().len(),
                        forall|j: int|
                            0 <= j < k ==> assump@[j] == Lit::spec_new(
                                f@[j],
                                self.view()[(#[trigger] f@[j]).0 as int][idx as int],
                            ),
                    decreases f@.len() - k,
                {
                    let v = f[k];
                    proof {
                        assert(self.view()[v.0 as int].len() > idx);
                    }
                    let b = self.vbv[v.0 as usize][idx];
                    assump.push(Lit::new(v, b));
                    k += 1;
                }
            },
            None => {
                let n = self.vbv.len();
                let mut v: usize = 0;
                while v < n
                    invariant
                        v <= n,
                        n == self.view().len(),
                        n <= 0x8000_0000,
                        assump@.len() == v,
                        forall|w: int|
                            0 <= w < self.view().len() ==> idx < (
                            #[trigger] self.view()[w]).len(),
                        forall|j: int|
                            0 <= j < v ==> assump@[j] == Lit::spec_new(
                                Var(j as u32),
                                #[trigger] self.view()[j][idx as int],
                            ),
                    decreases n - v,
                {
                    proof {
                        assert(self.view()[v as int].len() > idx);
                    }
                    let b = self.vbv[v][idx];
                    assump.push(Lit::new(Var(v as u32), b));
                    v += 1;
                }
            },
        }
        assump
    }
}

} // verus!
