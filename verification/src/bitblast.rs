//! Bit-blasting: lowering each core operator to a network of single-bit
//! terms, one circuit per operator family. All vectors are little-endian:
//! index 0 is the least significant bit.
use crate::dagcnf::{not_cnf_encode, DagCnf};
use crate::op::Op;
use crate::sort::Sort;
use crate::term::{Term, TermManager, TermType};
use crate::{Lit, Var};
use vstd::prelude::*;

verus! {

/// Every term of the vector is a single-bit term of the manager.
pub open spec fn all_bool(tm: TermManager, v: Seq<Term>) -> bool {
    forall|i: int| 0 <= i < v.len() ==> tm.is_bool(#[trigger] v[i])
}

impl TermManager {
    /// Fresh single-bit variables for every bit of a sort: the leaves of a
    /// bit-blasted term.
    pub fn var_bitblast(&mut self, sort: Sort) -> (r: Vec<Term>)
        requires
            old(self).wf(),
            sort.valid(),
            old(self).avl_vid + sort.spec_size() < usize::MAX,
        ensures
            final(self).wf(),
            final(self).extends(*old(self)),
            final(self).avl_vid == old(self).avl_vid + sort.spec_size(),
            r@.len() == sort.spec_size(),
            all_bool(*final(self), r@),
            // each result is a fresh variable: new handles in order, so they
            // are pairwise distinct and distinct from every earlier term
            forall|i: int|
                0 <= i < r@.len() ==> (#[trigger] r@[i]).0 == old(self).nodes@.len() + i,
            forall|i: int|
                0 <= i < r@.len() ==> (final(self).nodes@[(#[trigger] r@[i]).0 as int].ty
                    matches TermType::Var(v) && v == old(self).avl_vid + i),
    {
        let size = sort.size();
        let mut r: Vec<Term> = Vec::new();
        let mut i: usize = 0;
        while i < size
            invariant
                i <= size,
                self.wf(),
                self.extends(*old(self)),
                self.avl_vid == old(self).avl_vid + i,
                self.nodes@.len() == old(self).nodes@.len() + i,
                old(self).avl_vid + size < usize::MAX,
                r@.len() == i,
                all_bool(*self, r@),
                forall|j: int|
                    0 <= j < i ==> (#[trigger] r@[j]).0 == old(self).nodes@.len() + j,
                forall|j: int|
                    0 <= j < i ==> (self.nodes@[(#[trigger] r@[j]).0 as int].ty
                        matches TermType::Var(v) && v == old(self).avl_vid + j),
            decreases size - i,
        {
            let t = self.new_var(Sort::Bv(1));
            r.push(t);
            i += 1;
        }
        r
    }

    fn copy_terms(&self, v: &Vec<Term>) -> (r: Vec<Term>)
        ensures
            r@ =~= v@,
    {
        let mut r: Vec<Term> = Vec::new();
        let mut i: usize = 0;
        while i < v.len()
            invariant
                i <= v@.len(),
                r@ =~= v@.take(i as int),
            decreases v@.len() - i,
        {
            r.push(v[i]);
            proof {
                assert(v@.take(i as int).push(v@[i as int]) =~= v@.take(i + 1));
            }
            i += 1;
        }
        proof {
            assert(v@.take(v@.len() as int) =~= v@);
        }
        r
    }

    /// Elementwise negation.
    pub fn not_bitblast(&mut self, x: &Vec<Term>) -> (r: Vec<Term>)
        requires
            old(self).wf(),
            all_bool(*old(self), x@),
        ensures
            final(self).wf(),
            final(self).extends(*old(self)),
            final(self).avl_vid == old(self).avl_vid,
            r@.len() == x@.len(),
            all_bool(*final(self), r@),
            forall|i: int|
                0 <= i < r@.len() ==> (final(self).nodes@[(#[trigger] r@[i]).0 as int].ty
                    matches TermType::Op(o, a) && o == Op::Not && a@ == seq![x@[i]]),
    {
        let mut r: Vec<Term> = Vec::new();
        let mut i: usize = 0;
        while i < x.len()
            invariant
                i <= x@.len(),
                self.wf(),
                self.extends(*old(self)),
                self.avl_vid == old(self).avl_vid,
                all_bool(*self, x@),
                r@.len() == i,
                all_bool(*self, r@),
                forall|j: int|
                    0 <= j < i ==> (self.nodes@[(#[trigger] r@[j]).0 as int].ty
                        matches TermType::Op(o, a) && o == Op::Not && a@ == seq![x@[j]]),
            decreases x@.len() - i,
        {
            let t = self.b_not(x[i]);
            proof {
                assert(self.nodes@[t.0 as int].ty matches TermType::Op(o, a) && a@ =~= seq![
                    x@[i as int],
                ]);
            }
            r.push(t);
            i += 1;
        }
        r
    }

    /// Elementwise binary application, used for AND/OR/XOR.
    pub fn elementwise_bitblast(&mut self, op: Op, x: &Vec<Term>, y: &Vec<Term>) -> (r: Vec<
        Term,
    >)
        requires
            old(self).wf(),
            x@.len() == y@.len(),
            all_bool(*old(self), x@),
            all_bool(*old(self), y@),
            op.input_ok(seq![Sort::Bv(1usize), Sort::Bv(1usize)]),
            op.sort_spec(seq![Sort::Bv(1usize), Sort::Bv(1usize)]) == Sort::Bv(1usize),
        ensures
            final(self).wf(),
            final(self).extends(*old(self)),
            final(self).avl_vid == old(self).avl_vid,
            r@.len() == x@.len(),
            all_bool(*final(self), r@),
            forall|j: int|
                0 <= j < r@.len() ==> (final(self).nodes@[(#[trigger] r@[j]).0 as int].ty
                    matches TermType::Op(o, a) && o == op && a@ == seq![x@[j], y@[j]]),
    {
        self.new_op_elementwise(op, x, y)
    }

    /// Equality: elementwise equivalence reduced by a single conjunction
    /// node over all bits.
    pub fn eq_bitblast(&mut self, x: &Vec<Term>, y: &Vec<Term>) -> (r: Vec<Term>)
        requires
            old(self).wf(),
            x@.len() == y@.len(),
            x@.len() >= 1,
            all_bool(*old(self), x@),
            all_bool(*old(self), y@),
        ensures
            final(self).wf(),
            final(self).extends(*old(self)),
            final(self).avl_vid == old(self).avl_vid,
            r@.len() == 1,
            all_bool(*final(self), r@),
            final(self).nodes@[r@[0].0 as int].ty matches TermType::Op(o, a) && o == Op::Ands
                && a@.len() == x@.len() && forall|i: int|
                0 <= i < a@.len() ==> (final(self).nodes@[(#[trigger] a@[i]).0 as int].ty
                    matches TermType::Op(o2, p) && o2 == Op::Eq && p@ == seq![x@[i], y@[i]]),
    {
        let eqs = self.new_op_elementwise(Op::Eq, x, y);
        let mut args: Vec<Term> = Vec::new();
        let mut i: usize = 0;
        while i < eqs.len()
            invariant
                i <= eqs@.len(),
                self.wf(),
                self.extends(*old(self)),
                self.avl_vid == old(self).avl_vid,
                all_bool(*self, eqs@),
                args@ =~= eqs@.take(i as int),
            decreases eqs@.len() - i,
        {
            args.push(eqs[i]);
            proof {
                assert(eqs@.take(i as int).push(eqs@[i as int]) =~= eqs@.take(i + 1));
            }
            i += 1;
        }
        proof {
            assert(args@ =~= eqs@);
            assert(crate::term::operand_sorts(self.nodes@, args@) =~= Seq::new(
                args@.len(),
                |j: int| Sort::Bv(1usize),
            ));
        }
        let all = self.new_op(Op::Ands, args);
        let mut r: Vec<Term> = Vec::new();
        r.push(all);
        r
    }

    /// Unsigned less-than: scan from the least significant bit up,
    /// overwriting the verdict at every differing bit, so the most
    /// significant difference decides.
    pub fn ult_bitblast(&mut self, x: &Vec<Term>, y: &Vec<Term>) -> (r: Vec<Term>)
        requires
            old(self).wf(),
            x@.len() == y@.len(),
            all_bool(*old(self), x@),
            all_bool(*old(self), y@),
        ensures
            final(self).wf(),
            final(self).extends(*old(self)),
            final(self).avl_vid == old(self).avl_vid,
            r@.len() == 1,
            all_bool(*final(self), r@),
            exists|seed: Term|
                (final(self).nodes@[seed.0 as int].ty matches TermType::Const(c) && c@ == seq![
                    false,
                ]) && final(self).contains(seed) && #[trigger] ult_chain(
                    *final(self),
                    x@,
                    y@,
                    seed,
                    x@.len() as int,
                    r@[0],
                ),
    {
        let seed = self.bool_const(false);
        let mut res = seed;
        proof {
            reveal(ult_chain);
        }
        let mut i: usize = 0;
        while i < x.len()
            invariant
                i <= x@.len(),
                self.wf(),
                self.extends(*old(self)),
                self.avl_vid == old(self).avl_vid,
                all_bool(*self, x@),
                all_bool(*self, y@),
                self.is_bool(res),
                self.contains(seed),
                self.nodes@[seed.0 as int].ty matches TermType::Const(c) && c@ == seq![false],
                ult_chain(*self, x@, y@, seed, i as int, res),
            decreases x@.len() - i,
        {
            let (xb, yb) = (x[i], y[i]);
            let ghost pre = *self;
            let nx = self.b_not(xb);
            let lt = self.b_and(nx, yb);
            let nx2 = self.b_not(xb);
            let le = self.b_or(nx2, yb);
            let keep = self.b_and(le, res);
            let next = self.b_or(lt, keep);
            proof {
                reveal(ult_chain);
                lemma_ult_chain_grow(pre, *self, x@, y@, seed, i as int, res);
                assert(self.nodes@[nx.0 as int].ty matches TermType::Op(o, a) && a@ =~= seq![
                    x@[i as int],
                ]);
                assert(self.nodes@[nx2.0 as int].ty matches TermType::Op(o, a) && a@ =~= seq![
                    x@[i as int],
                ]);
                assert(self.nodes@[lt.0 as int].ty matches TermType::Op(o, a) && a@ =~= seq![
                    nx,
                    y@[i as int],
                ]);
                assert(self.nodes@[le.0 as int].ty matches TermType::Op(o, a) && a@ =~= seq![
                    nx2,
                    y@[i as int],
                ]);
                assert(self.nodes@[keep.0 as int].ty matches TermType::Op(o, a) && a@ =~= seq![
                    le,
                    res,
                ]);
                assert(self.nodes@[next.0 as int].ty matches TermType::Op(o, a) && a@ =~= seq![
                    lt,
                    keep,
                ]);
            }
            res = next;
            i += 1;
        }
        let mut r: Vec<Term> = Vec::new();
        r.push(res);
        proof {
            reveal(ult_chain);
            assert(r@[0] == res);
            assert(ult_chain(*self, x@, y@, seed, x@.len() as int, r@[0]));
        }
        r
    }

    /// Signed less-than: differing sign bits decide immediately; otherwise
    /// the magnitude bits run the unsigned scan.
    pub fn slt_bitblast(&mut self, x: &Vec<Term>, y: &Vec<Term>) -> (r: Vec<Term>)
        requires
            old(self).wf(),
            x@.len() == y@.len(),
            x@.len() >= 1,
            all_bool(*old(self), x@),
            all_bool(*old(self), y@),
        ensures
            final(self).wf(),
            final(self).extends(*old(self)),
            final(self).avl_vid == old(self).avl_vid,
            r@.len() == 1,
            all_bool(*final(self), r@),
            // the verdict is `(xs & !ys) | ((xs == ys) & scan)`, the scan a
            // comparison chain over the magnitude bits
            exists|seed: Term, el: Term|
                (final(self).nodes@[seed.0 as int].ty matches TermType::Const(c) && c@ == seq![
                    false,
                ]) && final(self).contains(seed) && #[trigger] ult_chain(
                    *final(self),
                    x@,
                    y@,
                    seed,
                    x@.len() - 1,
                    el,
                ) && (final(self).nodes@[r@[0].0 as int].ty matches TermType::Op(o, a) && o
                    == Op::Or && a@.len() == 2 && final(self).contains(a@[0]) && final(self).contains(a@[1]) && (final(self).nodes@[a@[0].0 as int].ty matches TermType::Op(o1, ls) && o1 == Op::And && ls@.len() == 2 && ls@[0] == x@[x@.len() - 1] && final(self).contains(ls@[1]) && (final(self).nodes@[ls@[1].0 as int].ty
                    matches TermType::Op(on, nys) && on == Op::Not && nys@ == seq![
                    y@[y@.len() - 1],
                ])) && (final(self).nodes@[a@[1].0 as int].ty matches TermType::Op(o2, low) && o2
                    == Op::And && low@.len() == 2 && final(self).contains(low@[0]) && (final(self).nodes@[low@[0].0 as int].ty matches TermType::Op(o3, eqs) && o3 == Op::Eq
                    && eqs@ == seq![x@[x@.len() - 1], y@[y@.len() - 1]]) && low@[1] == el)),
    {
        let len = x.len();
        let xs = x[len - 1];
        let ys = y[len - 1];
        let nys = self.b_not(ys);
        let ls = self.b_and(xs, nys);
        let eqs = self.b_eq(xs, ys);
        let seed = self.bool_const(false);
        let mut el = seed;
        proof {
            reveal(ult_chain);
        }
        let mut i: usize = 0;
        while i < len - 1
            invariant
                i <= len - 1,
                len == x@.len(),
                x@.len() == y@.len(),
                self.wf(),
                self.extends(*old(self)),
                self.avl_vid == old(self).avl_vid,
                all_bool(*self, x@),
                all_bool(*self, y@),
                self.is_bool(el),
                self.is_bool(ls),
                self.is_bool(eqs),
                self.contains(seed),
                self.nodes@[seed.0 as int].ty matches TermType::Const(c) && c@ == seq![false],
                self.nodes@[ls.0 as int].ty matches TermType::Op(o1, lsa) && o1 == Op::And
                    && lsa@.len() == 2 && lsa@[0] == x@[x@.len() - 1] && self.contains(lsa@[1])
                    && (self.nodes@[lsa@[1].0 as int].ty matches TermType::Op(on, nysa) && on
                    == Op::Not && nysa@ == seq![y@[y@.len() - 1]]),
                self.nodes@[eqs.0 as int].ty matches TermType::Op(o3, eqsa) && o3 == Op::Eq
                    && eqsa@ == seq![x@[x@.len() - 1], y@[y@.len() - 1]],
                ult_chain(*self, x@, y@, seed, i as int, el),
            decreases len - 1 - i,
        {
            let (xb, yb) = (x[i], y[i]);
            let ghost pre = *self;
            let nx = self.b_not(xb);
            let lt = self.b_and(nx, yb);
            let nx2 = self.b_not(xb);
            let le = self.b_or(nx2, yb);
            let keep = self.b_and(le, el);
            let next = self.b_or(lt, keep);
            proof {
                reveal(ult_chain);
                lemma_ult_chain_grow(pre, *self, x@, y@, seed, i as int, el);
                assert(self.nodes@[nx.0 as int].ty matches TermType::Op(o, a) && a@ =~= seq![
                    x@[i as int],
                ]);
                assert(self.nodes@[nx2.0 as int].ty matches TermType::Op(o, a) && a@ =~= seq![
                    x@[i as int],
                ]);
                assert(self.nodes@[lt.0 as int].ty matches TermType::Op(o, a) && a@ =~= seq![
                    nx,
                    yb,
                ]);
                assert(self.nodes@[le.0 as int].ty matches TermType::Op(o, a) && a@ =~= seq![
                    nx2,
                    yb,
                ]);
                assert(self.nodes@[keep.0 as int].ty matches TermType::Op(o, a) && a@ =~= seq![
                    le,
                    el,
                ]);
                assert(self.nodes@[next.0 as int].ty matches TermType::Op(o, a) && a@ =~= seq![
                    lt,
                    keep,
                ]);
            }
            el = next;
            i += 1;
        }
        let ghost pre2 = *self;
        let low = self.b_and(eqs, el);
        let res = self.b_or(ls, low);
        let mut r: Vec<Term> = Vec::new();
        r.push(res);
        proof {
            reveal(ult_chain);
            lemma_ult_chain_grow(pre2, *self, x@, y@, seed, (len - 1) as int, el);
            assert(self.nodes@[low.0 as int].ty matches TermType::Op(o, a) && a@ =~= seq![
                eqs,
                el,
            ]);
            assert(self.nodes@[res.0 as int].ty matches TermType::Op(o, a) && a@ =~= seq![
                ls,
                low,
            ]);
            assert(r@[0] == res);
        }
        r
    }
}

/// The number of barrel-shifter stages: the least `s` with `2^s >= width`,
/// together with `2^s` itself.
fn shift_stages(width: usize) -> (r: (usize, usize))
    requires
        1 <= width <= 0x1000_0000usize,
    ensures
        r.1 == vstd::arithmetic::power2::pow2(r.0 as nat),
        r.1 >= width,
        r.0 >= 1 ==> vstd::arithmetic::power2::pow2((r.0 - 1) as nat) < width,
        r.0 <= 28,
{
    proof {
        vstd::arithmetic::power2::lemma2_to64();
    }
    let mut stages: usize = 0;
    let mut p: usize = 1;
    while p < width
        invariant
            p == vstd::arithmetic::power2::pow2(stages as nat),
            stages >= 1 ==> vstd::arithmetic::power2::pow2((stages - 1) as nat) < width,
            p < 2 * width,
            stages <= 28,
        decreases 2 * width - p,
    {
        proof {
            vstd::arithmetic::power2::lemma_pow2_adds(stages as nat, 1);
            vstd::arithmetic::power2::lemma2_to64();
            if stages + 1 > 28 {
                vstd::arithmetic::power2::lemma_pow2_strictly_increases(28, stages as nat);
            }
        }
        p = p * 2;
        stages = stages + 1;
    }
    (stages, p)
}

impl TermManager {
    /// One conditional-select stage of a left barrel shifter.
    fn sll_stage(&mut self, shift: Term, res: &Vec<Term>, shift_step: usize) -> (r: Vec<Term>)
        requires
            old(self).wf(),
            old(self).is_bool(shift),
            all_bool(*old(self), res@),
            shift_step >= 1,
        ensures
            final(self).wf(),
            final(self).extends(*old(self)),
            final(self).avl_vid == old(self).avl_vid,
            r@.len() == res@.len(),
            all_bool(*final(self), r@),
    {
        let width = res.len();
        let mut nres: Vec<Term> = Vec::new();
        let low = if shift_step < width {
            shift_step
        } else {
            width
        };
        let mut j: usize = 0;
        while j < low
            invariant
                j <= low,
                low <= width,
                width == res@.len(),
                self.wf(),
                self.extends(*old(self)),
                self.avl_vid == old(self).avl_vid,
                self.is_bool(shift),
                all_bool(*self, res@),
                nres@.len() == j,
                all_bool(*self, nres@),
            decreases low - j,
        {
            let ns = self.b_not(shift);
            let t = self.b_and(ns, res[j]);
            nres.push(t);
            j += 1;
        }
        let mut j2: usize = low;
        while j2 < width
            invariant
                low <= j2 <= width,
                width == res@.len(),
                shift_step >= 1,
                low == if shift_step < width {
                    shift_step as int
                } else {
                    width as int
                },
                self.wf(),
                self.extends(*old(self)),
                self.avl_vid == old(self).avl_vid,
                self.is_bool(shift),
                all_bool(*self, res@),
                nres@.len() == j2,
                all_bool(*self, nres@),
            decreases width - j2,
        {
            let t = self.b_ite(shift, res[j2 - shift_step], res[j2]);
            nres.push(t);
            j2 += 1;
        }
        nres
    }

    /// Logical shift left: `ceil(log2(width))` conditional-select stages;
    /// for non-power-of-two widths a guard forces the result to zero when
    /// any shift-amount bit beyond the stages is set.
    pub fn sll_bitblast(&mut self, x: &Vec<Term>, y: &Vec<Term>) -> (r: Vec<Term>)
        requires
            old(self).wf(),
            x@.len() == y@.len(),
            1 <= x@.len() <= 0x1000_0000usize,
            all_bool(*old(self), x@),
            all_bool(*old(self), y@),
        ensures
            final(self).wf(),
            final(self).extends(*old(self)),
            final(self).avl_vid == old(self).avl_vid,
            r@.len() == x@.len(),
            all_bool(*final(self), r@),
    {
        if x.len() == 1 {
            let ny = self.b_not(y[0]);
            let t = self.b_and(x[0], ny);
            let mut r: Vec<Term> = Vec::new();
            r.push(t);
            return r;
        }
        let width = x.len();
        let (stages, _) = shift_stages(width);
        let mut res = self.copy_terms(x);
        proof {
            vstd::arithmetic::power2::lemma2_to64();
        }
        let mut shift_bit: usize = 0;
        let mut shift_step: usize = 1;
        while shift_bit < stages
            invariant
                shift_bit <= stages,
                stages <= 28,
                width == x@.len(),
                x@.len() == y@.len(),
                shift_step == vstd::arithmetic::power2::pow2(shift_bit as nat),
                shift_step >= 1,
                self.wf(),
                self.extends(*old(self)),
                self.avl_vid == old(self).avl_vid,
                all_bool(*self, x@),
                all_bool(*self, y@),
                res@.len() == width,
                all_bool(*self, res@),
            decreases stages - shift_bit,
        {
            proof {
                vstd::arithmetic::power2::lemma_pow2_adds(shift_bit as nat, 1);
                vstd::arithmetic::power2::lemma2_to64();
                vstd::bits::lemma_usize_pow2_no_overflow((shift_bit + 1) as nat);
            }
            let shift = y[shift_bit];
            res = self.sll_stage(shift, &res, shift_step);
            shift_step = shift_step * 2;
            shift_bit += 1;
        }
        if stages < width {
            let mut high: Vec<Term> = Vec::new();
            let mut k: usize = stages;
            while k < width
                invariant
                    stages <= k <= width,
                    width == y@.len(),
                    self.wf(),
                    self.extends(*old(self)),
                self.avl_vid == old(self).avl_vid,
                    all_bool(*self, y@),
                    all_bool(*self, high@),
                decreases width - k,
            {
                high.push(y[k]);
                k += 1;
            }
            let toobig = self.new_ors(&high);
            let no_toobig = self.b_not(toobig);
            let mut guarded: Vec<Term> = Vec::new();
            let mut j: usize = 0;
            while j < res.len()
                invariant
                    j <= res@.len(),
                    res@.len() == width,
                    self.wf(),
                    self.extends(*old(self)),
                self.avl_vid == old(self).avl_vid,
                    self.is_bool(no_toobig),
                    all_bool(*self, res@),
                    guarded@.len() == j,
                    all_bool(*self, guarded@),
                decreases res@.len() - j,
            {
                let t = self.b_and(no_toobig, res[j]);
                guarded.push(t);
                j += 1;
            }
            guarded
        } else {
            res
        }
    }

    /// One conditional-select stage of a right shifter; positions past the
    /// end take `fill` (`None` keeps the shifted-out guard of `srl`).
    fn srl_stage(
        &mut self,
        shift: Term,
        res: &Vec<Term>,
        shift_step: usize,
        fill: Option<Term>,
    ) -> (r: Vec<Term>)
        requires
            old(self).wf(),
            old(self).is_bool(shift),
            all_bool(*old(self), res@),
            shift_step >= 1,
            match fill {
                Some(f) => old(self).is_bool(f),
                None => true,
            },
        ensures
            final(self).wf(),
            final(self).extends(*old(self)),
            final(self).avl_vid == old(self).avl_vid,
            r@.len() == res@.len(),
            all_bool(*final(self), r@),
    {
        let width = res.len();
        let c = if width >= shift_step {
            width - shift_step
        } else {
            0
        };
        let mut nres: Vec<Term> = Vec::new();
        let mut j: usize = 0;
        while j < c
            invariant
                j <= c,
                c + shift_step <= width || c == 0,
                c <= width,
                width == res@.len(),
                shift_step >= 1,
                self.wf(),
                self.extends(*old(self)),
                self.avl_vid == old(self).avl_vid,
                self.is_bool(shift),
                all_bool(*self, res@),
                nres@.len() == j,
                all_bool(*self, nres@),
            decreases c - j,
        {
            let t = self.b_ite(shift, res[j + shift_step], res[j]);
            nres.push(t);
            j += 1;
        }
        let mut j2: usize = c;
        while j2 < width
            invariant
                c <= j2 <= width,
                width == res@.len(),
                self.wf(),
                self.extends(*old(self)),
                self.avl_vid == old(self).avl_vid,
                self.is_bool(shift),
                match fill {
                    Some(f) => self.is_bool(f),
                    None => true,
                },
                all_bool(*self, res@),
                nres@.len() == j2,
                all_bool(*self, nres@),
            decreases width - j2,
        {
            let t = match fill {
                Some(f) => self.b_ite(shift, f, res[j2]),
                None => {
                    let ns = self.b_not(shift);
                    self.b_and(ns, res[j2])
                },
            };
            nres.push(t);
            j2 += 1;
        }
        nres
    }

    /// Logical shift right: zero-fill from above, with the same
    /// non-power-of-two guard as `sll_bitblast`.
    pub fn srl_bitblast(&mut self, x: &Vec<Term>, y: &Vec<Term>) -> (r: Vec<Term>)
        requires
            old(self).wf(),
            x@.len() == y@.len(),
            1 <= x@.len() <= 0x1000_0000usize,
            all_bool(*old(self), x@),
            all_bool(*old(self), y@),
        ensures
            final(self).wf(),
            final(self).extends(*old(self)),
            final(self).avl_vid == old(self).avl_vid,
            r@.len() == x@.len(),
            all_bool(*final(self), r@),
    {
        if x.len() == 1 {
            let ny = self.b_not(y[0]);
            let t = self.b_and(x[0], ny);
            let mut r: Vec<Term> = Vec::new();
            r.push(t);
            return r;
        }
        let width = x.len();
        let (stages, _) = shift_stages(width);
        let mut res = self.copy_terms(x);
        proof {
            vstd::arithmetic::power2::lemma2_to64();
        }
        let mut shift_bit: usize = 0;
        let mut shift_step: usize = 1;
        while shift_bit < stages
            invariant
                shift_bit <= stages,
                stages <= 28,
                width == x@.len(),
                x@.len() == y@.len(),
                shift_step == vstd::arithmetic::power2::pow2(shift_bit as nat),
                shift_step >= 1,
                self.wf(),
                self.extends(*old(self)),
                self.avl_vid == old(self).avl_vid,
                all_bool(*self, x@),
                all_bool(*self, y@),
                res@.len() == width,
                all_bool(*self, res@),
            decreases stages - shift_bit,
        {
            proof {
                vstd::arithmetic::power2::lemma_pow2_adds(shift_bit as nat, 1);
                vstd::arithmetic::power2::lemma2_to64();
                vstd::bits::lemma_usize_pow2_no_overflow((shift_bit + 1) as nat);
            }
            let shift = y[shift_bit];
            res = self.srl_stage(shift, &res, shift_step, None);
            shift_step = shift_step * 2;
            shift_bit += 1;
        }
        if stages < width {
            let mut high: Vec<Term> = Vec::new();
            let mut k: usize = stages;
            while k < width
                invariant
                    stages <= k <= width,
                    width == y@.len(),
                    self.wf(),
                    self.extends(*old(self)),
                self.avl_vid == old(self).avl_vid,
                    all_bool(*self, y@),
                    all_bool(*self, high@),
                decreases width - k,
            {
                high.push(y[k]);
                k += 1;
            }
            let toobig = self.new_ors(&high);
            let not_toobig = self.b_not(toobig);
            let mut guarded: Vec<Term> = Vec::new();
            let mut j: usize = 0;
            while j < res.len()
                invariant
                    j <= res@.len(),
                    res@.len() == width,
                    self.wf(),
                    self.extends(*old(self)),
                self.avl_vid == old(self).avl_vid,
                    self.is_bool(not_toobig),
                    all_bool(*self, res@),
                    guarded@.len() == j,
                    all_bool(*self, guarded@),
                decreases res@.len() - j,
            {
                let t = self.b_and(not_toobig, res[j]);
                guarded.push(t);
                j += 1;
            }
            guarded
        } else {
            res
        }
    }

    /// Arithmetic shift right: the sign bit fills from above; out-of-range
    /// amounts select the sign through the guard.
    pub fn sra_bitblast(&mut self, x: &Vec<Term>, y: &Vec<Term>) -> (r: Vec<Term>)
        requires
            old(self).wf(),
            x@.len() == y@.len(),
            1 <= x@.len() <= 0x1000_0000usize,
            all_bool(*old(self), x@),
            all_bool(*old(self), y@),
        ensures
            final(self).wf(),
            final(self).extends(*old(self)),
            final(self).avl_vid == old(self).avl_vid,
            r@.len() == x@.len(),
            all_bool(*final(self), r@),
    {
        if x.len() == 1 {
            return self.copy_terms(x);
        }
        let width = x.len();
        let (stages, _) = shift_stages(width);
        let mut res = self.copy_terms(x);
        proof {
            vstd::arithmetic::power2::lemma2_to64();
        }
        let mut shift_bit: usize = 0;
        let mut shift_step: usize = 1;
        while shift_bit < stages
            invariant
                shift_bit <= stages,
                stages <= 28,
                width == x@.len(),
                x@.len() == y@.len(),
                width >= 1,
                shift_step == vstd::arithmetic::power2::pow2(shift_bit as nat),
                shift_step >= 1,
                self.wf(),
                self.extends(*old(self)),
                self.avl_vid == old(self).avl_vid,
                all_bool(*self, x@),
                all_bool(*self, y@),
                res@.len() == width,
                all_bool(*self, res@),
            decreases stages - shift_bit,
        {
            proof {
                vstd::arithmetic::power2::lemma_pow2_adds(shift_bit as nat, 1);
                vstd::arithmetic::power2::lemma2_to64();
                vstd::bits::lemma_usize_pow2_no_overflow((shift_bit + 1) as nat);
            }
            let shift = y[shift_bit];
            let sign = res[width - 1];
            res = self.srl_stage(shift, &res, shift_step, Some(sign));
            shift_step = shift_step * 2;
            shift_bit += 1;
        }
        if stages < width {
            let mut high: Vec<Term> = Vec::new();
            let mut k: usize = stages;
            while k < width
                invariant
                    stages <= k <= width,
                    width == y@.len(),
                    self.wf(),
                    self.extends(*old(self)),
                self.avl_vid == old(self).avl_vid,
                    all_bool(*self, y@),
                    all_bool(*self, high@),
                decreases width - k,
            {
                high.push(y[k]);
                k += 1;
            }
            let toobig = self.new_ors(&high);
            let not_toobig = self.b_not(toobig);
            let sign = res[width - 1];
            let mut guarded: Vec<Term> = Vec::new();
            let mut j: usize = 0;
            while j < res.len()
                invariant
                    j <= res@.len(),
                    res@.len() == width,
                    self.wf(),
                    self.extends(*old(self)),
                self.avl_vid == old(self).avl_vid,
                    self.is_bool(not_toobig),
                    self.is_bool(sign),
                    all_bool(*self, res@),
                    guarded@.len() == j,
                    all_bool(*self, guarded@),
                decreases res@.len() - j,
            {
                let t = self.b_ite(not_toobig, res[j], sign);
                guarded.push(t);
                j += 1;
            }
            guarded
        } else {
            res
        }
    }

    /// One stage of a rotator: every position selects between the wrapped
    /// source and itself.
    fn rotate_stage(&mut self, shift: Term, res: &Vec<Term>, step_mod: usize, left: bool) -> (r:
        Vec<Term>)
        requires
            old(self).wf(),
            old(self).is_bool(shift),
            all_bool(*old(self), res@),
            1 <= res@.len() <= 0x1000_0000usize,
            step_mod < res@.len(),
        ensures
            final(self).wf(),
            final(self).extends(*old(self)),
            final(self).avl_vid == old(self).avl_vid,
            r@.len() == res@.len(),
            all_bool(*final(self), r@),
    {
        let width = res.len();
        let mut next: Vec<Term> = Vec::new();
        let mut j: usize = 0;
        while j < width
            invariant
                j <= width,
                width == res@.len(),
                1 <= width <= 0x1000_0000usize,
                step_mod < width,
                self.wf(),
                self.extends(*old(self)),
                self.avl_vid == old(self).avl_vid,
                self.is_bool(shift),
                all_bool(*self, res@),
                next@.len() == j,
                all_bool(*self, next@),
            decreases width - j,
        {
            let src = if left {
                // wrap-around index for rotate-left
                if j >= step_mod {
                    j - step_mod
                } else {
                    j + width - step_mod
                }
            } else {
                if j + step_mod < width {
                    j + step_mod
                } else {
                    j + step_mod - width
                }
            };
            if src == j {
                next.push(res[j]);
            } else {
                let t = self.b_ite(shift, res[src], res[j]);
                next.push(t);
            }
            j += 1;
        }
        next
    }

    fn rotate_bitblast(&mut self, x: &Vec<Term>, y: &Vec<Term>, left: bool) -> (r: Vec<Term>)
        requires
            old(self).wf(),
            x@.len() == y@.len(),
            1 <= x@.len() <= 0x1000_0000usize,
            all_bool(*old(self), x@),
            all_bool(*old(self), y@),
        ensures
            final(self).wf(),
            final(self).extends(*old(self)),
            final(self).avl_vid == old(self).avl_vid,
            r@.len() == x@.len(),
            all_bool(*final(self), r@),
    {
        let width = x.len();
        if width == 1 {
            return self.copy_terms(x);
        }
        // a log2-stage barrel suffices only for power-of-two widths; any
        // other width needs one stage per amount bit up to the width
        let stages = if width & (width - 1) == 0 {
            let (s, _) = shift_stages(width);
            s
        } else {
            width
        };
        let mut res = self.copy_terms(x);
        let mut shift_bit: usize = 0;
        let mut step_mod: usize = 1 % width;
        while shift_bit < stages && shift_bit < y.len()
            invariant
                shift_bit <= stages,
                width == x@.len(),
                x@.len() == y@.len(),
                width >= 2,
                step_mod < width,
                self.wf(),
                self.extends(*old(self)),
                self.avl_vid == old(self).avl_vid,
                all_bool(*self, x@),
                all_bool(*self, y@),
                res@.len() == width,
                all_bool(*self, res@),
            decreases stages - shift_bit,
        {
            let shift = y[shift_bit];
            res = self.rotate_stage(shift, &res, step_mod, left);
            step_mod = (step_mod * 2) % width;
            shift_bit += 1;
        }
        res
    }

    /// Rotate left through conditional-select stages with wraparound
    /// indices.
    pub fn rol_bitblast(&mut self, x: &Vec<Term>, y: &Vec<Term>) -> (r: Vec<Term>)
        requires
            old(self).wf(),
            x@.len() == y@.len(),
            1 <= x@.len() <= 0x1000_0000usize,
            all_bool(*old(self), x@),
            all_bool(*old(self), y@),
        ensures
            final(self).wf(),
            final(self).extends(*old(self)),
            final(self).avl_vid == old(self).avl_vid,
            r@.len() == x@.len(),
            all_bool(*final(self), r@),
    {
        self.rotate_bitblast(x, y, true)
    }

    /// Rotate right through conditional-select stages with wraparound
    /// indices.
    pub fn ror_bitblast(&mut self, x: &Vec<Term>, y: &Vec<Term>) -> (r: Vec<Term>)
        requires
            old(self).wf(),
            x@.len() == y@.len(),
            1 <= x@.len() <= 0x1000_0000usize,
            all_bool(*old(self), x@),
            all_bool(*old(self), y@),
        ensures
            final(self).wf(),
            final(self).extends(*old(self)),
            final(self).avl_vid == old(self).avl_vid,
            r@.len() == x@.len(),
            all_bool(*final(self), r@),
    {
        self.rotate_bitblast(x, y, false)
    }

    /// Per-bit select through one ternary gate.
    pub fn ite_bitblast(&mut self, c: &Vec<Term>, t: &Vec<Term>, e: &Vec<Term>) -> (r: Vec<Term>)
        requires
            old(self).wf(),
            c@.len() == 1,
            t@.len() == e@.len(),
            all_bool(*old(self), c@),
            all_bool(*old(self), t@),
            all_bool(*old(self), e@),
        ensures
            final(self).wf(),
            final(self).extends(*old(self)),
            final(self).avl_vid == old(self).avl_vid,
            r@.len() == t@.len(),
            all_bool(*final(self), r@),
            forall|i: int|
                0 <= i < r@.len() ==> (final(self).nodes@[(#[trigger] r@[i]).0 as int].ty
                    matches TermType::Op(o, a) && o == Op::Ite && a@ == seq![c@[0], t@[i], e@[i]]),
    {
        let cond = c[0];
        let mut r: Vec<Term> = Vec::new();
        let mut i: usize = 0;
        while i < t.len()
            invariant
                i <= t@.len(),
                t@.len() == e@.len(),
                self.wf(),
                self.extends(*old(self)),
                self.avl_vid == old(self).avl_vid,
                self.is_bool(cond),
                cond == c@[0],
                all_bool(*self, t@),
                all_bool(*self, e@),
                r@.len() == i,
                all_bool(*self, r@),
                forall|j: int|
                    0 <= j < i ==> (self.nodes@[(#[trigger] r@[j]).0 as int].ty
                        matches TermType::Op(o, a) && o == Op::Ite && a@ == seq![
                        c@[0],
                        t@[j],
                        e@[j],
                    ]),
            decreases t@.len() - i,
        {
            let b = self.b_ite(cond, t[i], e[i]);
            proof {
                assert(self.nodes@[b.0 as int].ty matches TermType::Op(o, a) && a@ =~= seq![
                    c@[0],
                    t@[i as int],
                    e@[i as int],
                ]);
            }
            r.push(b);
            i += 1;
        }
        r
    }

    /// Concatenation: the second operand takes the low positions, the first
    /// the high positions.
    pub fn concat_bitblast(&mut self, x: &Vec<Term>, y: &Vec<Term>) -> (r: Vec<Term>)
        requires
            old(self).wf(),
            all_bool(*old(self), x@),
            all_bool(*old(self), y@),
            x@.len() + y@.len() <= usize::MAX,
        ensures
            final(self).wf(),
            final(self).extends(*old(self)),
            final(self).avl_vid == old(self).avl_vid,
            r@ =~= y@ + x@,
            all_bool(*final(self), r@),
    {
        let mut r = self.copy_terms(y);
        let mut i: usize = 0;
        while i < x.len()
            invariant
                i <= x@.len(),
                r@ =~= y@ + x@.take(i as int),
            decreases x@.len() - i,
        {
            r.push(x[i]);
            proof {
                assert(y@ + x@.take(i as int) + seq![x@[i as int]] =~= y@ + x@.take(i + 1));
            }
            i += 1;
        }
        proof {
            assert(y@ + x@.take(x@.len() as int) =~= y@ + x@);
        }
        r
    }

    /// Sign extension: replicate the top bit into every new high position.
    pub fn sext_bitblast(&mut self, x: &Vec<Term>, ext: usize) -> (r: Vec<Term>)
        requires
            old(self).wf(),
            x@.len() >= 1,
            all_bool(*old(self), x@),
            x@.len() + ext <= usize::MAX,
        ensures
            final(self).wf(),
            final(self).extends(*old(self)),
            final(self).avl_vid == old(self).avl_vid,
            r@.len() == x@.len() + ext,
            all_bool(*final(self), r@),
            r@ =~= x@ + Seq::new(ext as nat, |i: int| x@[x@.len() - 1]),
    {
        let mut r = self.copy_terms(x);
        let sign = x[x.len() - 1];
        let mut i: usize = 0;
        while i < ext
            invariant
                i <= ext,
                x@.len() + ext <= usize::MAX,
                sign == x@[x@.len() - 1],
                r@ =~= x@ + Seq::new(i as nat, |j: int| x@[x@.len() - 1]),
                all_bool(*old(self), r@),
                old(self).is_bool(sign),
                self == old(self),
            decreases ext - i,
        {
            r.push(sign);
            proof {
                assert(x@ + Seq::new(i as nat, |j: int| x@[x@.len() - 1]) + seq![x@[x@.len() - 1]]
                    =~= x@ + Seq::new((i + 1) as nat, |j: int| x@[x@.len() - 1]));
            }
            i += 1;
        }
        r
    }

    /// Slice: take the contiguous bit range `l ..= h`.
    pub fn slice_bitblast(&mut self, s: &Vec<Term>, h: usize, l: usize) -> (r: Vec<Term>)
        requires
            old(self).wf(),
            all_bool(*old(self), s@),
            l <= h < s@.len(),
        ensures
            final(self).wf(),
            final(self).extends(*old(self)),
            final(self).avl_vid == old(self).avl_vid,
            r@.len() == h - l + 1,
            all_bool(*final(self), r@),
            r@ =~= s@.subrange(l as int, h + 1),
    {
        let mut r: Vec<Term> = Vec::new();
        let slen = s.len();
        let mut i: usize = l;
        while i <= h
            invariant
                l <= i <= h + 1,
                h < slen,
                slen == s@.len(),
                all_bool(*old(self), s@),
                r@ =~= s@.subrange(l as int, i as int),
                all_bool(*old(self), r@),
                self == old(self),
            decreases h + 1 - i,
        {
            r.push(s[i]);
            proof {
                assert(s@.subrange(l as int, i as int).push(s@[i as int]) =~= s@.subrange(
                    l as int,
                    i + 1,
                ));
            }
            i += 1;
        }
        r
    }

    /// Exclusive-or reduction: a left fold of XOR over all bits.
    pub fn redxor_bitblast(&mut self, x: &Vec<Term>) -> (r: Vec<Term>)
        requires
            old(self).wf(),
            x@.len() >= 1,
            all_bool(*old(self), x@),
        ensures
            final(self).wf(),
            final(self).extends(*old(self)),
            final(self).avl_vid == old(self).avl_vid,
            r@.len() == 1,
            all_bool(*final(self), r@),
            crate::term::fold_chain(
                *final(self),
                Op::Xor,
                x@[0],
                x@.subrange(1, x@.len() as int),
                r@[0],
            ),
    {
        let mut acc = x[0];
        let mut i: usize = 1;
        proof {
            assert(x@.subrange(1, 1) =~= Seq::<Term>::empty());
        }
        while i < x.len()
            invariant
                1 <= i <= x@.len(),
                self.wf(),
                self.extends(*old(self)),
                self.avl_vid == old(self).avl_vid,
                all_bool(*self, x@),
                self.is_bool(acc),
                crate::term::fold_chain(*self, Op::Xor, x@[0], x@.subrange(1, i as int), acc),
            decreases x@.len() - i,
        {
            let ghost pre = *self;
            let next = self.b_xor(acc, x[i]);
            proof {
                crate::term::lemma_fold_chain_grow(
                    pre,
                    *self,
                    Op::Xor,
                    x@[0],
                    x@.subrange(1, i as int),
                    acc,
                );
                assert(x@.subrange(1, i + 1).drop_last() =~= x@.subrange(1, i as int));
                assert(x@.subrange(1, i + 1).last() == x@[i as int]);
                assert(self.nodes@[next.0 as int].ty matches TermType::Op(o, a) && a@ =~= seq![
                    acc,
                    x@[i as int],
                ]);
            }
            acc = next;
            i += 1;
        }
        let mut r: Vec<Term> = Vec::new();
        r.push(acc);
        proof {
            assert(x@.subrange(1, x@.len() as int) == x@.subrange(1, x@.len() as int));
            assert(r@[0] == acc);
        }
        r
    }

    /// One full adder: `sum = x ^ y ^ c`, `carry = xy | xc | yc` as a single
    /// variadic disjunction node.
    fn full_adder(&mut self, x: Term, y: Term, c: Term) -> (r: (Term, Term))
        requires
            old(self).wf(),
            old(self).is_bool(x),
            old(self).is_bool(y),
            old(self).is_bool(c),
        ensures
            final(self).wf(),
            final(self).extends(*old(self)),
            final(self).avl_vid == old(self).avl_vid,
            final(self).is_bool(r.0),
            final(self).is_bool(r.1),
            adder_stage(*final(self), x, y, c, r.0, r.1),
    {
        let xy0 = self.b_xor(x, y);
        let s = self.b_xor(xy0, c);
        let xy = self.b_and(x, y);
        let xc = self.b_and(x, c);
        let yc = self.b_and(y, c);
        let mut ors: Vec<Term> = Vec::new();
        ors.push(xy);
        ors.push(xc);
        ors.push(yc);
        proof {
            assert(crate::term::operand_sorts(self.nodes@, ors@) =~= Seq::new(
                3nat,
                |j: int| Sort::Bv(1usize),
            ));
        }
        let co = self.new_op(Op::Ors, ors);
        proof {
            reveal(adder_stage);
            assert(self.nodes@[s.0 as int].ty matches TermType::Op(o, a) && a@ =~= seq![xy0, c]);
            assert(self.nodes@[xy0.0 as int].ty matches TermType::Op(o, a) && a@ =~= seq![x, y]);
            assert(self.nodes@[co.0 as int].ty matches TermType::Op(o, a) && a@ =~= seq![
                xy,
                xc,
                yc,
            ]);
            assert(self.nodes@[xy.0 as int].ty matches TermType::Op(o, a) && a@ =~= seq![x, y]);
            assert(self.nodes@[xc.0 as int].ty matches TermType::Op(o, a) && a@ =~= seq![x, c]);
            assert(self.nodes@[yc.0 as int].ty matches TermType::Op(o, a) && a@ =~= seq![y, c]);
        }
        (s, co)
    }

    /// Ripple-carry addition.
    pub fn add_bitblast(&mut self, x: &Vec<Term>, y: &Vec<Term>) -> (r: Vec<Term>)
        requires
            old(self).wf(),
            x@.len() == y@.len(),
            all_bool(*old(self), x@),
            all_bool(*old(self), y@),
        ensures
            final(self).wf(),
            final(self).extends(*old(self)),
            final(self).avl_vid == old(self).avl_vid,
            r@.len() == x@.len(),
            all_bool(*final(self), r@),
            exists|seed: Term, carry: Term|
                (final(self).nodes@[seed.0 as int].ty matches TermType::Const(cc) && cc@ == seq![
                    false,
                ]) && final(self).contains(seed) && #[trigger] ripple_chain(
                    *final(self),
                    x@,
                    y@,
                    seed,
                    r@,
                    carry,
                    x@.len() as int,
                ),
    {
        let seed = self.bool_const(false);
        let mut c = seed;
        let mut res: Vec<Term> = Vec::new();
        proof {
            reveal(ripple_chain);
        }
        let mut i: usize = 0;
        while i < x.len()
            invariant
                i <= x@.len(),
                x@.len() == y@.len(),
                self.wf(),
                self.extends(*old(self)),
                self.avl_vid == old(self).avl_vid,
                all_bool(*self, x@),
                all_bool(*self, y@),
                self.is_bool(c),
                self.contains(seed),
                self.nodes@[seed.0 as int].ty matches TermType::Const(cc) && cc@ == seq![false],
                res@.len() == i,
                all_bool(*self, res@),
                ripple_chain(*self, x@, y@, seed, res@, c, i as int),
            decreases x@.len() - i,
        {
            let ghost pre = *self;
            let (s, nc) = self.full_adder(x[i], y[i], c);
            proof {
                lemma_ripple_chain_grow(pre, *self, x@, y@, seed, res@, c, i as int);
            }
            let ghost rpre = res@;
            res.push(s);
            proof {
                reveal(ripple_chain);
                reveal(adder_stage);
                assert(res@.drop_last() =~= rpre);
                assert(res@.last() == s);
                assert(ripple_chain(*self, x@, y@, seed, res@, nc, i + 1));
            }
            c = nc;
            i += 1;
        }
        proof {
            assert(ripple_chain(*self, x@, y@, seed, res@, c, x@.len() as int));
        }
        res
    }

    /// Subtraction: add the complement with an initial carry of one.
    pub fn sub_bitblast(&mut self, x: &Vec<Term>, y: &Vec<Term>) -> (r: Vec<Term>)
        requires
            old(self).wf(),
            x@.len() == y@.len(),
            all_bool(*old(self), x@),
            all_bool(*old(self), y@),
        ensures
            final(self).wf(),
            final(self).extends(*old(self)),
            final(self).avl_vid == old(self).avl_vid,
            r@.len() == x@.len(),
            all_bool(*final(self), r@),
            // addition of the interned complements with an initial carry of
            // one
            exists|seed: Term, carry: Term, nys: Seq<Term>|
                (final(self).nodes@[seed.0 as int].ty matches TermType::Const(cc) && cc@ == seq![
                    true,
                ]) && final(self).contains(seed) && nys.len() == y@.len() && (forall|k: int|
                    0 <= k < nys.len() ==> (final(self).nodes@[(#[trigger] nys[k]).0 as int].ty
                        matches TermType::Op(o, a) && o == Op::Not && a@ == seq![y@[k]]))
                    && #[trigger] ripple_chain(
                    *final(self),
                    x@,
                    nys,
                    seed,
                    r@,
                    carry,
                    x@.len() as int,
                ),
    {
        let seed = self.bool_const(true);
        let mut c = seed;
        let mut res: Vec<Term> = Vec::new();
        let mut nys: Vec<Term> = Vec::new();
        proof {
            reveal(ripple_chain);
        }
        let mut i: usize = 0;
        while i < x.len()
            invariant
                i <= x@.len(),
                x@.len() == y@.len(),
                self.wf(),
                self.extends(*old(self)),
                self.avl_vid == old(self).avl_vid,
                all_bool(*self, x@),
                all_bool(*self, y@),
                self.is_bool(c),
                self.contains(seed),
                self.nodes@[seed.0 as int].ty matches TermType::Const(cc) && cc@ == seq![true],
                res@.len() == i,
                all_bool(*self, res@),
                nys@.len() == i,
                forall|k: int| 0 <= k < i ==> self.contains(#[trigger] nys@[k]),
                forall|k: int|
                    0 <= k < i ==> (self.nodes@[(#[trigger] nys@[k]).0 as int].ty
                        matches TermType::Op(o, a) && o == Op::Not && a@ == seq![y@[k]]),
                ripple_chain(*self, x@, nys@, seed, res@, c, i as int),
            decreases x@.len() - i,
        {
            let ghost pre0 = *self;
            let ny = self.b_not(y[i]);
            proof {
                lemma_ripple_chain_grow(pre0, *self, x@, nys@, seed, res@, c, i as int);
            }
            let ghost pre = *self;
            let (s, nc) = self.full_adder(x[i], ny, c);
            proof {
                lemma_ripple_chain_grow(pre, *self, x@, nys@, seed, res@, c, i as int);
                assert(self.nodes@[ny.0 as int].ty matches TermType::Op(o, a) && a@ =~= seq![
                    y@[i as int],
                ]);
            }
            let ghost rpre = res@;
            let ghost npre = nys@;
            res.push(s);
            nys.push(ny);
            proof {
                reveal(ripple_chain);
                reveal(adder_stage);
                assert(res@.drop_last() =~= rpre);
                assert(res@.last() == s);
                assert(nys@.drop_last() =~= npre);
                assert(forall|k: int| 0 <= k < i ==> nys@[k] == npre[k]);
                lemma_ripple_chain_frame(*self, x@, npre, nys@, seed, rpre, c, i as int);
                assert(nys@[i as int] == ny);
                assert(ripple_chain(*self, x@, nys@, seed, res@, nc, i + 1));
            }
            c = nc;
            i += 1;
        }
        res
    }

    /// Bitwise two's-complement negation: `!x + 1` rippled directly.
    pub fn neg_bitblast(&mut self, x: &Vec<Term>) -> (r: Vec<Term>)
        requires
            old(self).wf(),
            x@.len() >= 1,
            all_bool(*old(self), x@),
        ensures
            final(self).wf(),
            final(self).extends(*old(self)),
            final(self).avl_vid == old(self).avl_vid,
            r@.len() == x@.len(),
            all_bool(*final(self), r@),
            exists|carry: Term| #[trigger] neg_chain(
                *final(self),
                x@,
                r@,
                carry,
                x@.len() as int,
            ),
    {
        let mut res: Vec<Term> = Vec::new();
        res.push(x[0]);
        let mut c = self.b_not(x[0]);
        proof {
            reveal(neg_chain);
        }
        let mut i: usize = 1;
        while i < x.len()
            invariant
                1 <= i <= x@.len(),
                self.wf(),
                self.extends(*old(self)),
                self.avl_vid == old(self).avl_vid,
                all_bool(*self, x@),
                self.is_bool(c),
                res@.len() == i,
                all_bool(*self, res@),
                neg_chain(*self, x@, res@, c, i as int),
            decreases x@.len() - i,
        {
            let xi = x[i];
            let ghost pre = *self;
            let cx = self.b_and(c, xi);
            let nc0 = self.b_not(c);
            let nx = self.b_not(xi);
            let ncx = self.b_and(nc0, nx);
            let bit = self.b_or(cx, ncx);
            let nx2 = self.b_not(xi);
            let nextc = self.b_and(c, nx2);
            proof {
                reveal(neg_chain);
                lemma_neg_chain_grow(pre, *self, x@, res@, c, i as int);
            }
            let ghost rpre = res@;
            res.push(bit);
            proof {
                reveal(neg_chain);
                assert(res@.drop_last() =~= rpre);
                assert(res@.last() == bit);
                assert(self.nodes@[cx.0 as int].ty matches TermType::Op(o, a) && a@ =~= seq![
                    c,
                    x@[i as int],
                ]);
                assert(self.nodes@[ncx.0 as int].ty matches TermType::Op(o, a) && a@ =~= seq![
                    nc0,
                    nx,
                ]);
                assert(self.nodes@[nc0.0 as int].ty matches TermType::Op(o, a) && a@ =~= seq![c]);
                assert(self.nodes@[nx.0 as int].ty matches TermType::Op(o, a) && a@ =~= seq![
                    x@[i as int],
                ]);
                assert(self.nodes@[nx2.0 as int].ty matches TermType::Op(o, a) && a@ =~= seq![
                    x@[i as int],
                ]);
                assert(self.nodes@[bit.0 as int].ty matches TermType::Op(o, a) && a@ =~= seq![
                    cx,
                    ncx,
                ]);
                assert(self.nodes@[nextc.0 as int].ty matches TermType::Op(o, a) && a@ =~= seq![
                    c,
                    nx2,
                ]);
                assert(neg_chain(*self, x@, res@, nextc, i + 1));
            }
            c = nextc;
            i += 1;
        }
        proof {
            reveal(neg_chain);
            assert(neg_chain(*self, x@, res@, c, x@.len() as int));
        }
        res
    }

    /// Shift-and-add schoolbook multiplication, truncated to the operand
    /// width.
    pub fn mul_bitblast(&mut self, x: &Vec<Term>, y: &Vec<Term>) -> (r: Vec<Term>)
        requires
            old(self).wf(),
            x@.len() == y@.len(),
            x@.len() >= 1,
            all_bool(*old(self), x@),
            all_bool(*old(self), y@),
        ensures
            final(self).wf(),
            final(self).extends(*old(self)),
            final(self).avl_vid == old(self).avl_vid,
            r@.len() == x@.len(),
            all_bool(*final(self), r@),
    {
        let len = x.len();
        let mut res: Vec<Term> = Vec::new();
        let mut j: usize = 0;
        while j < len
            invariant
                j <= len,
                len == x@.len(),
                x@.len() == y@.len(),
                self.wf(),
                self.extends(*old(self)),
                self.avl_vid == old(self).avl_vid,
                all_bool(*self, x@),
                all_bool(*self, y@),
                res@.len() == j,
                all_bool(*self, res@),
            decreases len - j,
        {
            let t = self.b_and(x[j], y[0]);
            res.push(t);
            j += 1;
        }
        let mut i: usize = 1;
        while i < len
            invariant
                1 <= i <= len,
                len == x@.len(),
                x@.len() == y@.len(),
                self.wf(),
                self.extends(*old(self)),
                self.avl_vid == old(self).avl_vid,
                all_bool(*self, x@),
                all_bool(*self, y@),
                res@.len() == len,
                all_bool(*self, res@),
            decreases len - i,
        {
            let mut c = self.bool_const(false);
            let mut jj: usize = i;
            while jj < len
                invariant
                    i <= jj <= len,
                    1 <= i,
                    len == x@.len(),
                    x@.len() == y@.len(),
                    self.wf(),
                    self.extends(*old(self)),
                self.avl_vid == old(self).avl_vid,
                    all_bool(*self, x@),
                    all_bool(*self, y@),
                    self.is_bool(c),
                    res@.len() == len,
                    all_bool(*self, res@),
                decreases len - jj,
            {
                let add = self.b_and(y[i], x[jj - i]);
                let (s, nc) = self.full_adder(res[jj], add, c);
                res.set(jj, s);
                c = nc;
                jj += 1;
            }
            i += 1;
        }
        res
    }

    /// The carry-out of one self-correcting subtractor gate of the
    /// restoring divider.
    fn scgate_co(&mut self, r: Term, d: Term, ci: Term) -> (t: Term)
        requires
            old(self).wf(),
            old(self).is_bool(r),
            old(self).is_bool(d),
            old(self).is_bool(ci),
        ensures
            final(self).wf(),
            final(self).extends(*old(self)),
            final(self).avl_vid == old(self).avl_vid,
            final(self).is_bool(t),
    {
        let d_or_ci = self.b_or(d, ci);
        let d_and_ci = self.b_and(d, ci);
        let m = self.b_and(d_or_ci, r);
        self.b_or(d_and_ci, m)
    }

    /// The sum bit of one self-correcting subtractor gate, gated by the row
    /// quotient bit.
    fn scgate_s(&mut self, r: Term, d: Term, ci: Term, q: Term) -> (t: Term)
        requires
            old(self).wf(),
            old(self).is_bool(r),
            old(self).is_bool(d),
            old(self).is_bool(ci),
            old(self).is_bool(q),
        ensures
            final(self).wf(),
            final(self).extends(*old(self)),
            final(self).avl_vid == old(self).avl_vid,
            final(self).is_bool(t),
    {
        let d_or_ci = self.b_or(d, ci);
        let d_and_ci = self.b_and(d, ci);
        let nd = self.b_not(d_and_ci);
        let t1 = self.b_and(d_or_ci, nd);
        let t2 = self.b_and(t1, q);
        let t2_or_r = self.b_or(t2, r);
        let t2_and_r = self.b_and(t2, r);
        let nr = self.b_not(t2_and_r);
        self.b_and(t2_or_r, nr)
    }

    /// Restoring division: a systolic array of one ripple-subtract row per
    /// dividend bit; the quotient bits come out most significant first and
    /// the remainder is read from the final row.
    pub fn udiv_urem_bitblast(&mut self, a: &Vec<Term>, din: &Vec<Term>) -> (r: (Vec<Term>, Vec<
        Term,
    >))
        requires
            old(self).wf(),
            a@.len() == din@.len(),
            a@.len() >= 1,
            a@.len() < usize::MAX,
            all_bool(*old(self), a@),
            all_bool(*old(self), din@),
        ensures
            final(self).wf(),
            final(self).extends(*old(self)),
            final(self).avl_vid == old(self).avl_vid,
            r.0@.len() == a@.len(),
            r.1@.len() == a@.len(),
            all_bool(*final(self), r.0@),
            all_bool(*final(self), r.1@),
    {
        let size = a.len();
        let nd = self.not_bitblast(din);
        let f = self.bool_const(false);
        let mut next_s: Vec<Term> = Vec::new();
        let mut k: usize = 0;
        while k < size + 1
            invariant
                k <= size + 1,
                size < usize::MAX,
                self.wf(),
                self.extends(*old(self)),
                self.avl_vid == old(self).avl_vid,
                self.is_bool(f),
                next_s@.len() == k,
                all_bool(*self, next_s@),
                all_bool(*self, a@),
                all_bool(*self, nd@),
                nd@.len() == size,
                a@.len() == size,
            decreases size + 1 - k,
        {
            next_s.push(f);
            k += 1;
        }
        let mut q: Vec<Term> = Vec::new();
        let mut j: usize = 0;
        while j < size
            invariant
                j <= size,
                size >= 1,
                size < usize::MAX,
                a@.len() == size,
                nd@.len() == size,
                self.wf(),
                self.extends(*old(self)),
                self.avl_vid == old(self).avl_vid,
                all_bool(*self, a@),
                all_bool(*self, nd@),
                next_s@.len() == size + 1,
                all_bool(*self, next_s@),
                q@.len() == j,
                all_bool(*self, q@),
            decreases size - j,
        {
            let mut cur_s = next_s;
            cur_s.set(0, a[size - 1 - j]);
            let mut c_row: Vec<Term> = Vec::new();
            let tc = self.bool_const(true);
            c_row.push(tc);
            let mut i: usize = 0;
            while i < size
                invariant
                    i <= size,
                    a@.len() == size,
                    nd@.len() == size,
                    self.wf(),
                    self.extends(*old(self)),
                self.avl_vid == old(self).avl_vid,
                    all_bool(*self, nd@),
                    all_bool(*self, a@),
                    cur_s@.len() == size + 1,
                    all_bool(*self, cur_s@),
                    c_row@.len() == i + 1,
                    all_bool(*self, c_row@),
                    q@.len() == j,
                    all_bool(*self, q@),
                decreases size - i,
            {
                let co = self.scgate_co(cur_s[i], nd[i], c_row[i]);
                c_row.push(co);
                i += 1;
            }
            let qj = self.b_or(c_row[size], cur_s[size]);
            q.push(qj);
            let mut ns: Vec<Term> = Vec::new();
            let fz = self.bool_const(false);
            ns.push(fz);
            let mut i2: usize = 0;
            while i2 < size
                invariant
                    i2 <= size,
                    a@.len() == size,
                    nd@.len() == size,
                    self.wf(),
                    self.extends(*old(self)),
                self.avl_vid == old(self).avl_vid,
                    all_bool(*self, nd@),
                    all_bool(*self, a@),
                    cur_s@.len() == size + 1,
                    all_bool(*self, cur_s@),
                    c_row@.len() == size + 1,
                    all_bool(*self, c_row@),
                    self.is_bool(qj),
                    ns@.len() == i2 + 1,
                    all_bool(*self, ns@),
                    q@.len() == j + 1,
                    all_bool(*self, q@),
                decreases size - i2,
            {
                let s = self.scgate_s(cur_s[i2], nd[i2], c_row[i2], qj);
                ns.push(s);
                i2 += 1;
            }
            next_s = ns;
            j += 1;
        }
        // quotient bits emerge most significant first: reverse them
        let mut qr: Vec<Term> = Vec::new();
        let mut k2: usize = 0;
        while k2 < size
            invariant
                k2 <= size,
                q@.len() == size,
                all_bool(*self, q@),
                qr@.len() == k2,
                all_bool(*self, qr@),
                self.wf(),
                self.extends(*old(self)),
                self.avl_vid == old(self).avl_vid,
                next_s@.len() == size + 1,
                all_bool(*self, next_s@),
            decreases size - k2,
        {
            qr.push(q[size - 1 - k2]);
            k2 += 1;
        }
        let mut rem: Vec<Term> = Vec::new();
        let mut k3: usize = 1;
        while k3 < size + 1
            invariant
                1 <= k3 <= size + 1,
                size < usize::MAX,
                next_s@.len() == size + 1,
                all_bool(*self, next_s@),
                rem@.len() == k3 - 1,
                all_bool(*self, rem@),
                self.wf(),
                self.extends(*old(self)),
                self.avl_vid == old(self).avl_vid,
                qr@.len() == size,
                all_bool(*self, qr@),
            decreases size + 1 - k3,
        {
            rem.push(next_s[k3]);
            k3 += 1;
        }
        (qr, rem)
    }

    /// Unsigned division: the quotient side of the restoring array.
    pub fn udiv_bitblast(&mut self, x: &Vec<Term>, y: &Vec<Term>) -> (r: Vec<Term>)
        requires
            old(self).wf(),
            x@.len() == y@.len(),
            x@.len() >= 1,
            x@.len() < usize::MAX,
            all_bool(*old(self), x@),
            all_bool(*old(self), y@),
        ensures
            final(self).wf(),
            final(self).extends(*old(self)),
            final(self).avl_vid == old(self).avl_vid,
            r@.len() == x@.len(),
            all_bool(*final(self), r@),
    {
        let (q, _) = self.udiv_urem_bitblast(x, y);
        q
    }

    /// Unsigned remainder: the remainder side of the restoring array.
    pub fn urem_bitblast(&mut self, x: &Vec<Term>, y: &Vec<Term>) -> (r: Vec<Term>)
        requires
            old(self).wf(),
            x@.len() == y@.len(),
            x@.len() >= 1,
            x@.len() < usize::MAX,
            all_bool(*old(self), x@),
            all_bool(*old(self), y@),
        ensures
            final(self).wf(),
            final(self).extends(*old(self)),
            final(self).avl_vid == old(self).avl_vid,
            r@.len() == x@.len(),
            all_bool(*final(self), r@),
    {
        let (_, rem) = self.udiv_urem_bitblast(x, y);
        rem
    }

    /// Select elementwise between two vectors on a shared single-bit
    /// condition.
    fn select_vec(&mut self, cond: Term, then_v: &Vec<Term>, else_v: &Vec<Term>) -> (r: Vec<
        Term,
    >)
        requires
            old(self).wf(),
            old(self).is_bool(cond),
            then_v@.len() == else_v@.len(),
            all_bool(*old(self), then_v@),
            all_bool(*old(self), else_v@),
        ensures
            final(self).wf(),
            final(self).extends(*old(self)),
            final(self).avl_vid == old(self).avl_vid,
            r@.len() == then_v@.len(),
            all_bool(*final(self), r@),
    {
        let mut r: Vec<Term> = Vec::new();
        let mut i: usize = 0;
        while i < then_v.len()
            invariant
                i <= then_v@.len(),
                then_v@.len() == else_v@.len(),
                self.wf(),
                self.extends(*old(self)),
                self.avl_vid == old(self).avl_vid,
                self.is_bool(cond),
                all_bool(*self, then_v@),
                all_bool(*self, else_v@),
                r@.len() == i,
                all_bool(*self, r@),
            decreases then_v@.len() - i,
        {
            let t = self.b_ite(cond, then_v[i], else_v[i]);
            r.push(t);
            i += 1;
        }
        r
    }

    /// Signed division: conditionally negate to magnitudes, divide
    /// unsigned, and negate the quotient when the operand signs differ.
    pub fn sdiv_bitblast(&mut self, x: &Vec<Term>, y: &Vec<Term>) -> (r: Vec<Term>)
        requires
            old(self).wf(),
            x@.len() == y@.len(),
            x@.len() >= 1,
            x@.len() < usize::MAX,
            all_bool(*old(self), x@),
            all_bool(*old(self), y@),
        ensures
            final(self).wf(),
            final(self).extends(*old(self)),
            final(self).avl_vid == old(self).avl_vid,
            r@.len() == x@.len(),
            all_bool(*final(self), r@),
    {
        let w = x.len();
        if w == 1 {
            let nx = self.b_not(x[0]);
            let t0 = self.b_and(nx, y[0]);
            let t = self.b_not(t0);
            let mut r: Vec<Term> = Vec::new();
            r.push(t);
            return r;
        }
        let sgnx = x[w - 1];
        let sgny = y[w - 1];
        let sxor = self.b_xor(sgnx, sgny);
        let negx = self.neg_bitblast(x);
        let negy = self.neg_bitblast(y);
        let cndx = self.select_vec(sgnx, &negx, x);
        let cndy = self.select_vec(sgny, &negy, y);
        let udiv = self.udiv_bitblast(&cndx, &cndy);
        let neg_udiv = self.neg_bitblast(&udiv);
        self.select_vec(sxor, &neg_udiv, &udiv)
    }

    /// The remainder of signed division; its sign follows the dividend.
    pub fn srem_bitblast(&mut self, x: &Vec<Term>, y: &Vec<Term>) -> (r: Vec<Term>)
        requires
            old(self).wf(),
            x@.len() == y@.len(),
            x@.len() >= 1,
            x@.len() < usize::MAX,
            all_bool(*old(self), x@),
            all_bool(*old(self), y@),
        ensures
            final(self).wf(),
            final(self).extends(*old(self)),
            final(self).avl_vid == old(self).avl_vid,
            r@.len() == x@.len(),
            all_bool(*final(self), r@),
    {
        let w = x.len();
        if w == 1 {
            let ny = self.b_not(y[0]);
            let t = self.b_and(x[0], ny);
            let mut r: Vec<Term> = Vec::new();
            r.push(t);
            return r;
        }
        let sgnx = x[w - 1];
        let sgny = y[w - 1];
        let negx = self.neg_bitblast(x);
        let negy = self.neg_bitblast(y);
        let cndx = self.select_vec(sgnx, &negx, x);
        let cndy = self.select_vec(sgny, &negy, y);
        let urem = self.urem_bitblast(&cndx, &cndy);
        let neg_urem = self.neg_bitblast(&urem);
        self.select_vec(sgnx, &neg_urem, &urem)
    }

    /// Signed modulo: like `srem`, but when the remainder is nonzero and
    /// its sign differs from the divisor's, the divisor is added back, so
    /// the result carries the divisor's sign.
    #[verifier::rlimit(100)]
    #[verifier::spinoff_prover]
    pub fn smod_bitblast(&mut self, x: &Vec<Term>, y: &Vec<Term>) -> (r: Vec<Term>)
        requires
            old(self).wf(),
            x@.len() == y@.len(),
            x@.len() >= 1,
            x@.len() < usize::MAX,
            all_bool(*old(self), x@),
            all_bool(*old(self), y@),
        ensures
            final(self).wf(),
            final(self).extends(*old(self)),
            final(self).avl_vid == old(self).avl_vid,
            r@.len() == x@.len(),
            all_bool(*final(self), r@),
    {
        let w = x.len();
        if w == 1 {
            let ny = self.b_not(y[0]);
            let t = self.b_and(x[0], ny);
            let mut r: Vec<Term> = Vec::new();
            r.push(t);
            return r;
        }
        let sgnx = x[w - 1];
        let sgny = y[w - 1];
        let negx = self.neg_bitblast(x);
        let negy = self.neg_bitblast(y);
        let cndx = self.select_vec(sgnx, &negx, x);
        let cndy = self.select_vec(sgny, &negy, y);
        let posi_urem = self.urem_bitblast(&cndx, &cndy);
        let nega_urem = self.neg_bitblast(&posi_urem);
        let nega_urem_add = self.add_bitblast(&nega_urem, y);
        let posi_urem_add = self.add_bitblast(&posi_urem, y);
        let not_bits = self.not_bitblast(&posi_urem);
        let urem_is0 = self.new_ands(&not_bits);
        let nsx = self.b_not(sgnx);
        let nsy = self.b_not(sgny);
        let both_posi_c = self.b_and(nsx, nsy);
        let nsy2 = self.b_not(sgny);
        let nega_posi_c = self.b_and(sgnx, nsy2);
        let nsx2 = self.b_not(sgnx);
        let posi_nega_c = self.b_and(nsx2, sgny);
        let sel1 = self.select_vec(posi_nega_c, &posi_urem_add, &nega_urem);
        let sel2 = self.select_vec(nega_posi_c, &nega_urem_add, &sel1);
        let both_c = self.b_or(urem_is0, both_posi_c);
        self.select_vec(both_c, &posi_urem, &sel2)
    }

    /// A balanced one-hot decoder over the index bits: `2^k` mutually
    /// exclusive selector signals, selector `j` the conjunction of each
    /// index bit taken in the polarity of `j`'s binary digits, most
    /// significant first.
    pub fn onehot_encode(&mut self, x: &Vec<Term>) -> (r: Vec<Term>)
        requires
            old(self).wf(),
            x@.len() >= 1,
            x@.len() < usize::BITS,
            all_bool(*old(self), x@),
        ensures
            final(self).wf(),
            final(self).extends(*old(self)),
            final(self).avl_vid == old(self).avl_vid,
            r@.len() == vstd::arithmetic::power2::pow2(x@.len() as nat),
            all_bool(*final(self), r@),
    {
        let k = x.len();
        proof {
            vstd::bits::lemma_usize_pow2_no_overflow(k as nat);
            vstd::bits::lemma_usize_shl_is_mul(1usize, k);
        }
        let len = 1usize << k;
        let mut r: Vec<Term> = Vec::new();
        let mut j: usize = 0;
        while j < len
            invariant
                j <= len,
                k == x@.len(),
                k < usize::BITS,
                self.wf(),
                self.extends(*old(self)),
                self.avl_vid == old(self).avl_vid,
                all_bool(*self, x@),
                r@.len() == j,
                all_bool(*self, r@),
            decreases len - j,
        {
            let mut t = self.bool_const(true);
            let mut b: usize = k;
            while b > 0
                invariant
                    b <= k,
                    k == x@.len(),
                    k < usize::BITS,
                    self.wf(),
                    self.extends(*old(self)),
                self.avl_vid == old(self).avl_vid,
                    all_bool(*self, x@),
                    self.is_bool(t),
                    r@.len() == j,
                    all_bool(*self, r@),
                decreases b,
            {
                b -= 1;
                if (j >> b) & 1 == 1 {
                    t = self.b_and(t, x[b]);
                } else {
                    let nb = self.b_not(x[b]);
                    t = self.b_and(t, nb);
                }
            }
            r.push(t);
            j += 1;
        }
        r
    }

    /// Read: multiplex every output bit across all element slices weighted
    /// by the one-hot selectors.
    pub fn read_bitblast(&mut self, array: &Vec<Term>, index: &Vec<Term>) -> (r: Vec<Term>)
        requires
            old(self).wf(),
            index@.len() >= 1,
            index@.len() < usize::BITS,
            array@.len() % vstd::arithmetic::power2::pow2(index@.len() as nat) == 0,
            all_bool(*old(self), array@),
            all_bool(*old(self), index@),
        ensures
            final(self).wf(),
            final(self).extends(*old(self)),
            final(self).avl_vid == old(self).avl_vid,
            r@.len() == array@.len() / vstd::arithmetic::power2::pow2(index@.len() as nat),
            all_bool(*final(self), r@),
    {
        let k = index.len();
        proof {
            vstd::bits::lemma_usize_pow2_no_overflow(k as nat);
            vstd::bits::lemma_usize_shl_is_mul(1usize, k);
            vstd::arithmetic::power2::lemma_pow2_pos(k as nat);
            vstd::arithmetic::div_mod::lemma_fundamental_div_mod(
                array@.len() as int,
                vstd::arithmetic::power2::pow2(k as nat) as int,
            );
        }
        let index_range = 1usize << k;
        let element_len = array.len() / index_range;
        let ghost pw = vstd::arithmetic::power2::pow2(k as nat);
        proof {
            assert(array@.len() == pw * element_len);
        }
        let onehot = self.onehot_encode(index);
        let mut res: Vec<Term> = Vec::new();
        let mut i: usize = 0;
        while i < element_len
            invariant
                i <= element_len,
                array@.len() == pw * element_len,
                pw == vstd::arithmetic::power2::pow2(index@.len() as nat),
                onehot@.len() == pw,
                index_range == pw,
                self.wf(),
                self.extends(*old(self)),
                self.avl_vid == old(self).avl_vid,
                all_bool(*self, array@),
                all_bool(*self, onehot@),
                res@.len() == i,
                all_bool(*self, res@),
            decreases element_len - i,
        {
            let mut acc = self.bool_const(false);
            let mut j: usize = 0;
            while j < index_range
                invariant
                    j <= index_range,
                    i < element_len,
                    index_range == pw,
                    array@.len() == pw * element_len,
                    onehot@.len() == pw,
                    self.wf(),
                    self.extends(*old(self)),
                self.avl_vid == old(self).avl_vid,
                    all_bool(*self, array@),
                    all_bool(*self, onehot@),
                    self.is_bool(acc),
                    res@.len() == i,
                    all_bool(*self, res@),
                decreases index_range - j,
            {
                proof {
                    assert(element_len * j + i < pw * element_len) by (nonlinear_arith)
                        requires
                            j < pw,
                            i < element_len,
                        ;
                }
                acc = self.b_ite(onehot[j], array[element_len * j + i], acc);
                j += 1;
            }
            res.push(acc);
            i += 1;
        }
        res
    }

    /// Write: rewrite every bit of every element slice conditionally on
    /// that slice's selector, leaving non-addressed slices structurally
    /// identical to the input.
    pub fn write_bitblast(&mut self, array: &Vec<Term>, index: &Vec<Term>, value: &Vec<Term>) -> (r:
        Vec<Term>)
        requires
            old(self).wf(),
            index@.len() >= 1,
            index@.len() < usize::BITS,
            array@.len() % vstd::arithmetic::power2::pow2(index@.len() as nat) == 0,
            value@.len() == array@.len() / vstd::arithmetic::power2::pow2(index@.len() as nat),
            all_bool(*old(self), array@),
            all_bool(*old(self), index@),
            all_bool(*old(self), value@),
        ensures
            final(self).wf(),
            final(self).extends(*old(self)),
            final(self).avl_vid == old(self).avl_vid,
            r@.len() == array@.len(),
            all_bool(*final(self), r@),
    {
        let k = index.len();
        proof {
            vstd::bits::lemma_usize_pow2_no_overflow(k as nat);
            vstd::bits::lemma_usize_shl_is_mul(1usize, k);
            vstd::arithmetic::power2::lemma_pow2_pos(k as nat);
            vstd::arithmetic::div_mod::lemma_fundamental_div_mod(
                array@.len() as int,
                vstd::arithmetic::power2::pow2(k as nat) as int,
            );
        }
        let index_range = 1usize << k;
        let element_len = array.len() / index_range;
        let ghost pw = vstd::arithmetic::power2::pow2(k as nat);
        proof {
            assert(array@.len() == pw * element_len);
        }
        let onehot = self.onehot_encode(index);
        let mut res = self.copy_terms(array);
        let mut i: usize = 0;
        while i < element_len
            invariant
                i <= element_len,
                array@.len() == pw * element_len,
                value@.len() == element_len,
                pw == vstd::arithmetic::power2::pow2(index@.len() as nat),
                onehot@.len() == pw,
                index_range == pw,
                self.wf(),
                self.extends(*old(self)),
                self.avl_vid == old(self).avl_vid,
                all_bool(*self, value@),
                all_bool(*self, onehot@),
                res@.len() == array@.len(),
                all_bool(*self, res@),
            decreases element_len - i,
        {
            let mut j: usize = 0;
            while j < index_range
                invariant
                    j <= index_range,
                    i < element_len,
                    index_range == pw,
                    array@.len() == pw * element_len,
                    value@.len() == element_len,
                    onehot@.len() == pw,
                    self.wf(),
                    self.extends(*old(self)),
                self.avl_vid == old(self).avl_vid,
                    all_bool(*self, value@),
                    all_bool(*self, onehot@),
                    res@.len() == array@.len(),
                    all_bool(*self, res@),
                decreases index_range - j,
            {
                proof {
                    assert(element_len * j + i < pw * element_len) by (nonlinear_arith)
                        requires
                            j < pw,
                            i < element_len,
                        ;
                }
                let idx = element_len * j + i;
                let t = self.b_ite(onehot[j], value[i], res[idx]);
                res.set(idx, t);
                j += 1;
            }
            i += 1;
        }
        res
    }
}

/// A term DAG is ready for CNF encoding when every node is single-bit and
/// every application uses an operator with a clause template.
pub open spec fn encodable(tm: TermManager) -> bool {
    forall|i: int|
        0 <= i < tm.nodes@.len() ==> (#[trigger] tm.nodes@[i]).sort == Sort::Bv(1usize) && match tm.nodes@[i].ty {
            TermType::Op(o, _) => o == Op::Not || o == Op::And || o == Op::Ands || o == Op::Or
                || o == Op::Ors || o == Op::Xor || o == Op::Eq || o == Op::Ite,
            _ => true,
        }
}

/// The memo literals a filled application node hands to its template.
pub open spec fn child_lits(tm: TermManager, memo: Seq<Option<Lit>>, args: Seq<Term>) -> Seq<Lit> {
    Seq::new(args.len(), |j: int| memo[args[j].0 as int]->0)
}

/// A filled memo entry is honest: the node's literal is the constant
/// literal for a constant, a positive literal for a variable, and for an
/// application the literal whose defining clauses in the accumulator are
/// exactly the operator's Tseitin template over the operands' literals.
pub open spec fn node_encoded(tm: TermManager, dc: DagCnf, memo: Seq<Option<Lit>>, i: int) -> bool {
    memo[i] is Some && match tm.nodes@[i].ty {
        TermType::Const(c) => memo[i]->0 == Lit::spec_constant(c@[0]),
        TermType::Var(_) => memo[i]->0.spec_polarity(),
        TermType::Op(o, args) => {
            let lit = memo[i]->0;
            let lits = child_lits(tm, memo, args@);
            &&& forall|j: int| 0 <= j < args@.len() ==> memo[(#[trigger] args@[j]).0 as int]
                is Some
            &&& match o {
                Op::Not => lit == lits[0].spec_not(),
                Op::And | Op::Ands => lit.spec_polarity() && lit.spec_var().0
                    <= dc.spec_max_var().0 && dc.spec_rel()[lit.spec_var().0 as int]
                    == crate::litvvec::spec_cnf_and(lit, lits),
                Op::Or | Op::Ors => lit.spec_polarity() && lit.spec_var().0
                    <= dc.spec_max_var().0 && dc.spec_rel()[lit.spec_var().0 as int]
                    == crate::litvvec::spec_cnf_or(lit, lits),
                Op::Xor => lit.spec_polarity() && lit.spec_var().0 <= dc.spec_max_var().0
                    && dc.spec_rel()[lit.spec_var().0 as int] == seq![
                    seq![lits[0].spec_not(), lits[1], lit],
                    seq![lits[0], lits[1].spec_not(), lit],
                    seq![lits[0], lits[1], lit.spec_not()],
                    seq![lits[0].spec_not(), lits[1].spec_not(), lit.spec_not()],
                ],
                Op::Eq => lit.spec_polarity() && lit.spec_var().0 <= dc.spec_max_var().0
                    && dc.spec_rel()[lit.spec_var().0 as int] == seq![
                    seq![lits[0].spec_not(), lits[1], lit.spec_not()],
                    seq![lits[0], lits[1].spec_not(), lit.spec_not()],
                    seq![lits[0], lits[1], lit],
                    seq![lits[0].spec_not(), lits[1].spec_not(), lit],
                ],
                Op::Ite => lit.spec_polarity() && lit.spec_var().0 <= dc.spec_max_var().0
                    && dc.spec_rel()[lit.spec_var().0 as int] == seq![
                    seq![lits[1], lits[0].spec_not(), lit.spec_not()],
                    seq![lits[1].spec_not(), lits[0].spec_not(), lit],
                    seq![lits[2], lits[0], lit.spec_not()],
                    seq![lits[2].spec_not(), lits[0], lit],
                ],
                _ => true,
            }
        },
    }
}

/// Honesty of a filled entry survives later allocations and later fills:
/// old clauses and old entries never change.
proof fn lemma_node_encoded_stable(
    tm: TermManager,
    dc1: DagCnf,
    dc2: DagCnf,
    m1: Seq<Option<Lit>>,
    m2: Seq<Option<Lit>>,
    i: int,
)
    requires
        0 <= i < m1.len(),
        node_encoded(tm, dc1, m1, i),
        dc1.wf(),
        dc2.extends(dc1),
        m1.len() == m2.len(),
        forall|j: int| 0 <= j < m1.len() && m1[j] is Some ==> m2[j] == m1[j],
        forall|j: int|
            0 <= j < tm.nodes@.len() ==> match (#[trigger] tm.nodes@[j]).ty {
                TermType::Op(_, args) => forall|k: int|
                    0 <= k < args@.len() ==> (#[trigger] args@[k]).0 < j,
                _ => true,
            },
        i < tm.nodes@.len(),
        tm.nodes@.len() <= m1.len(),
    ensures
        node_encoded(tm, dc2, m2, i),
{
    match tm.nodes@[i].ty {
        TermType::Op(o, args) => {
            assert(child_lits(tm, m2, args@) =~= child_lits(tm, m1, args@));
            assert(m2[i] == m1[i]);
            let lit = m1[i]->0;
            match o {
                Op::Not => {},
                Op::And | Op::Ands | Op::Or | Op::Ors | Op::Xor | Op::Eq | Op::Ite => {
                    assert(dc2.spec_rel()[lit.spec_var().0 as int] == dc1.spec_rel()[
                        lit.spec_var().0 as int]);
                },
                _ => {},
            }
        },
        _ => {},
    }
}

/// How many entries of a memo are still unfilled.
pub open spec fn none_count(m: Seq<Option<Lit>>) -> nat
    decreases m.len(),
{
    if m.len() == 0 {
        0
    } else {
        none_count(m.drop_last()) + if m.last() is None {
            1nat
        } else {
            0nat
        }
    }
}

/// Filling one unfilled entry lowers the count by exactly one.
proof fn lemma_none_count_fill(m: Seq<Option<Lit>>, i: int, l: Lit)
    requires
        0 <= i < m.len(),
        m[i] is None,
    ensures
        none_count(m.update(i, Some(l))) + 1 == none_count(m),
    decreases m.len(),
{
    let m2 = m.update(i, Some(l));
    if i == m.len() - 1 {
        assert(m2.drop_last() =~= m.drop_last());
    } else {
        lemma_none_count_fill(m.drop_last(), i, l);
        assert(m2.drop_last() =~= m.drop_last().update(i, Some(l)));
        assert(m2.last() == m.last());
    }
}

/// An unfilled entry witnesses a positive count.
proof fn lemma_none_count_pos(m: Seq<Option<Lit>>, i: int)
    requires
        0 <= i < m.len(),
        m[i] is None,
    ensures
        none_count(m) >= 1,
    decreases m.len(),
{
    if i < m.len() - 1 {
        lemma_none_count_pos(m.drop_last(), i);
    }
}

impl TermManager {
    /// Tseitin-encode a single-bit term DAG into the accumulator: every
    /// node gets one literal, shared sub-terms through the memo, so the
    /// walk is linear in the DAG size and re-encoding a node already in the
    /// memo returns the identical literal without touching the accumulator.
    #[verifier::rlimit(100)]
    #[verifier::spinoff_prover]
    pub fn cnf_encode(&self, t: Term, dc: &mut DagCnf, memo: &mut Vec<Option<Lit>>) -> (r: Lit)
        requires
            self.wf(),
            encodable(*self),
            self.contains(t),
            old(dc).wf(),
            old(memo)@.len() == self.nodes@.len(),
            forall|i: int|
                0 <= i < old(memo)@.len() && old(memo)@[i] is Some ==> (
                #[trigger] old(memo)@[i])->0.spec_var().0 <= old(dc).spec_max_var().0,
            forall|i: int|
                0 <= i < old(memo)@.len() && old(memo)@[i] is Some ==> node_encoded(
                    *self,
                    *old(dc),
                    old(memo)@,
                    i,
                ),
            old(dc).spec_max_var().0 + none_count(old(memo)@) < 0x8000_0000,
        ensures
            final(dc).wf(),
            final(dc).extends(*old(dc)),
            final(memo)@.len() == self.nodes@.len(),
            forall|i: int|
                0 <= i < old(memo)@.len() && old(memo)@[i] is Some ==> final(memo)@[i] == old(
                    memo,
                )@[i],
            forall|i: int|
                0 <= i < final(memo)@.len() && final(memo)@[i] is Some ==> (
                #[trigger] final(memo)@[i])->0.spec_var().0 <= final(dc).spec_max_var().0,
            // every entry the walk filled is honest: its literal's defining
            // clauses are exactly the node's Tseitin template
            forall|i: int|
                0 <= i < final(memo)@.len() && final(memo)@[i] is Some ==> node_encoded(
                    *self,
                    *final(dc),
                    final(memo)@,
                    i,
                ),
            final(dc).spec_max_var().0 + none_count(final(memo)@) <= old(dc).spec_max_var().0
                + none_count(old(memo)@),
            // the walk fills entries only at or below the encoded handle
            forall|i: int|
                t.0 < i < final(memo)@.len() ==> final(memo)@[i] == old(memo)@[i],
            final(memo)@[t.0 as int] == Some(r),
            r.spec_var().0 <= final(dc).spec_max_var().0,
            old(memo)@[t.0 as int] is Some ==> (Some(r) == old(memo)@[t.0 as int] && *final(dc)
                == *old(dc) && final(memo)@ == old(memo)@),
        decreases t.0,
    {
        match &memo[t.0] {
            Some(l) => {
                return *l;
            },
            None => {},
        }
        proof {
            lemma_none_count_pos(memo@, t.0 as int);
            assert(crate::term::node_wf(self.nodes@, t.0 as int));
        }
        proof {
            // the arena orders operands strictly below their application
            assert forall|j: int|
                0 <= j < self.nodes@.len() implies match (#[trigger] self.nodes@[j]).ty {
                TermType::Op(_, args) => forall|k: int|
                    0 <= k < args@.len() ==> (#[trigger] args@[k]).0 < j,
                _ => true,
            } by {
                assert(crate::term::node_wf(self.nodes@, j));
            }
        }
        let ghost mut glits: Seq<Lit> = Seq::empty();
        let r = match &self.nodes[t.0].ty {
            TermType::Const(c) => Lit::constant(c[0]),
            TermType::Var(_) => {
                let ghost pre = *dc;
                let v = dc.new_var();
                proof {
                    assert forall|i: int|
                        0 <= i < memo@.len() && memo@[i] is Some implies node_encoded(
                        *self,
                        *dc,
                        memo@,
                        i,
                    ) by {
                        lemma_node_encoded_stable(*self, pre, *dc, memo@, memo@, i);
                    }
                }
                v.lit()
            },
            TermType::Op(o, args) => {
                let op = *o;
                let ghost gargs = args@;
                let mut lits: Vec<Lit> = Vec::new();
                let mut j: usize = 0;
                while j < args.len()
                    invariant
                        j <= gargs.len(),
                        args@ == gargs,
                        self.wf(),
                        encodable(*self),
                        self.nodes@[t.0 as int].ty matches TermType::Op(oo, aa) && aa@ == gargs,
                        t.0 < self.nodes@.len(),
                        forall|k: int| 0 <= k < gargs.len() ==> (#[trigger] gargs[k]).0 < t.0,
                        dc.wf(),
                        dc.extends(*old(dc)),
                        memo@.len() == self.nodes@.len(),
                        forall|i: int|
                            0 <= i < old(memo)@.len() && old(memo)@[i] is Some ==> memo@[i]
                                == old(memo)@[i],
                        forall|i: int|
                            0 <= i < memo@.len() && memo@[i] is Some ==> (
                            #[trigger] memo@[i])->0.spec_var().0 <= dc.spec_max_var().0,
                        dc.spec_max_var().0 + none_count(memo@) <= old(dc).spec_max_var().0
                            + none_count(old(memo)@),
                        forall|i: int|
                            t.0 <= i < memo@.len() ==> memo@[i] == old(memo)@[i],
                        memo@[t.0 as int] is None,
                        forall|i: int|
                            0 <= i < memo@.len() && memo@[i] is Some ==> node_encoded(
                                *self,
                                *dc,
                                memo@,
                                i,
                            ),
                        lits@.len() == j,
                        forall|k: int|
                            0 <= k < j ==> (#[trigger] lits@[k]).spec_var().0
                                <= dc.spec_max_var().0,
                        forall|k: int|
                            0 <= k < j ==> memo@[(#[trigger] gargs[k]).0 as int] == Some(
                                lits@[k],
                            ),
                    decreases gargs.len() - j,
                {
                    let child = args[j];
                    let l = self.cnf_encode(child, dc, memo);
                    lits.push(l);
                    j += 1;
                }
                proof {
                    lemma_none_count_pos(memo@, t.0 as int);
                    glits = lits@;
                }
                let ghost pre = *dc;
                let gl = match op {
                    Op::Not => not_cnf_encode(&lits),
                    Op::And | Op::Ands => dc.and_cnf_encode(&lits),
                    Op::Or | Op::Ors => dc.or_cnf_encode(&lits),
                    Op::Xor => dc.xor_cnf_encode(lits[0], lits[1]),
                    Op::Eq => dc.eq_cnf_encode(lits[0], lits[1]),
                    Op::Ite => dc.ite_cnf_encode(lits[0], lits[1], lits[2]),
                    _ => unreached(),
                };
                proof {
                    assert forall|i: int|
                        0 <= i < memo@.len() && memo@[i] is Some implies node_encoded(
                        *self,
                        *dc,
                        memo@,
                        i,
                    ) by {
                        lemma_node_encoded_stable(*self, pre, *dc, memo@, memo@, i);
                    }
                }
                gl
            },
        };
        proof {
            assert forall|v: Var| v.0 < 0x8000_0000 implies (#[trigger] Lit::spec_new(
                v,
                true,
            )).spec_var() == v by {
                let z = v.0;
                assert((2 * z) / 2 == z) by (bit_vector)
                    requires
                        z < 0x8000_0000u32,
                ;
            }
            assert forall|l: Lit| (#[trigger] l.spec_not()).spec_var() == l.spec_var() by {
                let z = l.0;
                assert((z ^ 1) / 2 == z / 2) by (bit_vector);
            }
            lemma_none_count_fill(memo@, t.0 as int, r);
            let m2 = memo@.update(t.0 as int, Some(r));
            assert forall|i: int|
                0 <= i < m2.len() && m2[i] is Some implies node_encoded(*self, *dc, m2, i) by {
                if i == t.0 {
                    match self.nodes@[t.0 as int].ty {
                        TermType::Op(o, args) => {
                            assert forall|k: int|
                                0 <= k < args@.len() implies m2[(#[trigger] args@[k]).0 as int]
                                == Some(glits[k]) by {
                                assert(args@[k].0 < t.0);
                            }
                            assert(child_lits(*self, m2, args@) =~= glits);
                        },
                        _ => {},
                    }
                } else {
                    lemma_node_encoded_stable(*self, *dc, *dc, memo@, m2, i);
                }
            }
        }
        memo.set(t.0, Some(r));
        r
    }
}



/// The fresh single-bit variables the blasting of the first `n` nodes may
/// still require: the flat sizes of unblasted variable nodes.
pub open spec fn var_demand(
    nodes: Seq<crate::term::TermNode>,
    memo: Seq<Option<Vec<Term>>>,
    n: int,
) -> nat
    decreases n,
{
    if n <= 0 {
        0
    } else {
        var_demand(nodes, memo, n - 1) + if 0 <= n - 1 < nodes.len() && 0 <= n - 1 < memo.len()
            && nodes[n - 1].ty is Var && memo[n - 1] is None {
            nodes[n - 1].sort.spec_size()
        } else {
            0nat
        }
    }
}

/// Filling one entry never raises the demand, and filling an unblasted
/// variable node lowers it by that node's size.
proof fn lemma_var_demand_fill(
    nodes: Seq<crate::term::TermNode>,
    memo: Seq<Option<Vec<Term>>>,
    i: int,
    v: Vec<Term>,
    n: int,
)
    requires
        0 <= i < memo.len(),
        memo[i] is None,
    ensures
        var_demand(nodes, memo.update(i, Some(v)), n) + (if i < n && 0 <= i < nodes.len()
            && nodes[i].ty is Var {
            nodes[i].sort.spec_size()
        } else {
            0nat
        }) == var_demand(nodes, memo, n),
    decreases n,
{
    if n > 0 {
        lemma_var_demand_fill(nodes, memo, i, v, n - 1);
    }
}

/// The demand over a prefix only reads that prefix, so it is stable as the
/// arena grows and the memo beyond it changes.
proof fn lemma_var_demand_frame(
    nodes1: Seq<crate::term::TermNode>,
    memo1: Seq<Option<Vec<Term>>>,
    nodes2: Seq<crate::term::TermNode>,
    memo2: Seq<Option<Vec<Term>>>,
    n: int,
)
    requires
        n <= nodes1.len(),
        n <= memo1.len(),
        nodes1.len() <= nodes2.len(),
        memo1.len() <= memo2.len(),
        forall|i: int| 0 <= i < n ==> nodes2[i] == nodes1[i],
        forall|i: int| 0 <= i < n ==> memo2[i] == memo1[i],
    ensures
        var_demand(nodes2, memo2, n) == var_demand(nodes1, memo1, n),
    decreases n,
{
    if n > 0 {
        lemma_var_demand_frame(nodes1, memo1, nodes2, memo2, n - 1);
    }
}

/// An unblasted variable node contributes its whole size to the demand.
proof fn lemma_var_demand_at(
    nodes: Seq<crate::term::TermNode>,
    memo: Seq<Option<Vec<Term>>>,
    i: int,
    n: int,
)
    requires
        0 <= i < n,
        i < nodes.len(),
        i < memo.len(),
        nodes[i].ty is Var,
        memo[i] is None,
    ensures
        var_demand(nodes, memo, n) >= nodes[i].sort.spec_size(),
    decreases n,
{
    if i < n - 1 {
        lemma_var_demand_at(nodes, memo, i, n - 1);
    }
}

/// The first `n` nodes are ones the bit-blaster can lower: no fold node
/// (those arise only inside already-blasted boolean DAGs), no equality over
/// an empty vector, shift and rotate widths within the barrel-stage
/// arithmetic, and a positive array index width. Gates appended behind the
/// prefix are unconstrained.
#[verifier::opaque]
pub open spec fn blastable_upto(nodes: Seq<crate::term::TermNode>, n: int) -> bool {
    forall|i: int|
        0 <= i < n && i < nodes.len() ==> match (#[trigger] nodes[i]).ty {
            TermType::Op(o, args) => match o {
                Op::Ands | Op::Ors => false,
                Op::Eq => args@.len() == 2 && args@[0].0 < nodes.len() && nodes[args@[0].0 as int].sort.spec_size()
                    >= 1,
                Op::Sll | Op::Srl | Op::Sra | Op::Rol | Op::Ror => nodes[i].sort->Bv_0
                    <= 0x1000_0000,
                Op::Udiv | Op::Urem | Op::Sdiv | Op::Srem | Op::Smod => nodes[i].sort->Bv_0
                    < usize::MAX,
                Op::Read | Op::Write => args@.len() >= 2 && args@[0].0 < nodes.len()
                    && nodes[args@[0].0 as int].sort->Array_0 >= 1,
                _ => true,
            },
            _ => true,
        }
}


/// The property only reads the prefix, so it survives appended gates.
proof fn lemma_blastable_upto_grow(
    nodes1: Seq<crate::term::TermNode>,
    nodes2: Seq<crate::term::TermNode>,
    n: int,
)
    requires
        blastable_upto(nodes1, n),
        n <= nodes1.len(),
        nodes1.len() <= nodes2.len(),
        forall|i: int| 0 <= i < nodes1.len() ==> nodes2[i] == nodes1[i],
    ensures
        blastable_upto(nodes2, n),
{
    reveal(blastable_upto);
    assert forall|i: int|
        0 <= i < n && i < nodes2.len() implies match (#[trigger] nodes2[i]).ty {
        TermType::Op(o, args) => match o {
            Op::Ands | Op::Ors => false,
            Op::Eq => args@.len() == 2 && args@[0].0 < nodes2.len() && nodes2[args@[0].0 as int].sort.spec_size()
                >= 1,
            Op::Sll | Op::Srl | Op::Sra | Op::Rol | Op::Ror => nodes2[i].sort->Bv_0
                <= 0x1000_0000,
            Op::Udiv | Op::Urem | Op::Sdiv | Op::Srem | Op::Smod => nodes2[i].sort->Bv_0
                < usize::MAX,
            Op::Read | Op::Write => args@.len() >= 2 && args@[0].0 < nodes2.len()
                && nodes2[args@[0].0 as int].sort->Array_0 >= 1,
            _ => true,
        },
        _ => true,
    } by {
        assert(nodes2[i] == nodes1[i]);
        match nodes1[i].ty {
            TermType::Op(o, args) => {
                if args@.len() >= 1 && args@[0].0 < nodes1.len() {
                    assert(nodes2[args@[0].0 as int] == nodes1[args@[0].0 as int]);
                }
            },
            _ => {},
        }
    }
}

/// Every filled memo entry is a vector of single-bit terms of exactly the
/// node's flat size.
#[verifier::opaque]
pub open spec fn blast_memo_wf(tm: TermManager, memo: Seq<Option<Vec<Term>>>) -> bool {
    forall|i: int|
        0 <= i < memo.len() && memo[i] is Some ==> ((#[trigger] memo[i])->0@.len()
            == tm.nodes@[i].sort.spec_size() && all_bool(tm, memo[i]->0@))
}

/// The memo stays well formed as the arena grows behind it.
proof fn lemma_blast_memo_wf_grow(tm1: TermManager, tm2: TermManager, memo: Seq<Option<Vec<Term>>>)
    requires
        blast_memo_wf(tm1, memo),
        tm2.extends(tm1),
        memo.len() <= tm1.nodes@.len(),
    ensures
        blast_memo_wf(tm2, memo),
{
    reveal(blast_memo_wf);
}

/// Filling one entry with a well-sized vector keeps the memo well formed.
proof fn lemma_blast_memo_wf_fill(
    tm: TermManager,
    memo: Seq<Option<Vec<Term>>>,
    i: int,
    v: Vec<Term>,
)
    requires
        blast_memo_wf(tm, memo),
        0 <= i < memo.len(),
        v@.len() == tm.nodes@[i].sort.spec_size(),
        all_bool(tm, v@),
    ensures
        blast_memo_wf(tm, memo.update(i, Some(v))),
{
    reveal(blast_memo_wf);
}

/// Reading one filled entry out of a well-formed memo.
proof fn lemma_blast_memo_wf_at(tm: TermManager, memo: Seq<Option<Vec<Term>>>, i: int)
    requires
        blast_memo_wf(tm, memo),
        0 <= i < memo.len(),
        memo[i] is Some,
    ensures
        memo[i]->0@.len() == tm.nodes@[i].sort.spec_size(),
        all_bool(tm, memo[i]->0@),
{
    reveal(blast_memo_wf);
}


/// The shape of the unsigned-comparison scan after `n` bits: the verdict
/// for bit `i` is `(!x_i & y_i) | ((!x_i | y_i) & previous)`, every gate an
/// interned node, down to the seed.
#[verifier::opaque]
pub open spec fn ult_chain(
    tm: TermManager,
    x: Seq<Term>,
    y: Seq<Term>,
    seed: Term,
    n: int,
    t: Term,
) -> bool
    decreases n,
{
    if n <= 0 {
        t == seed
    } else {
        &&& tm.contains(t)
        &&& tm.nodes@[t.0 as int].ty matches TermType::Op(o, a) && o == Op::Or && a@.len() == 2
            && tm.contains(a@[0]) && tm.contains(a@[1]) && (tm.nodes@[a@[0].0 as int].ty
            matches TermType::Op(o1, lt) && o1 == Op::And && lt@.len() == 2 && tm.contains(
            lt@[0],
        ) && (tm.nodes@[lt@[0].0 as int].ty matches TermType::Op(on, nx) && on == Op::Not && nx@
            == seq![x[n - 1]]) && lt@[1] == y[n - 1]) && (tm.nodes@[a@[1].0 as int].ty
            matches TermType::Op(o2, keep) && o2 == Op::And && keep@.len() == 2 && tm.contains(
            keep@[0],
        ) && (tm.nodes@[keep@[0].0 as int].ty matches TermType::Op(o3, le) && o3 == Op::Or
            && le@.len() == 2 && tm.contains(le@[0]) && (tm.nodes@[le@[0].0 as int].ty
            matches TermType::Op(on2, nx2) && on2 == Op::Not && nx2@ == seq![x[n - 1]]) && le@[1]
            == y[n - 1]) && ult_chain(tm, x, y, seed, n - 1, keep@[1]))
    }
}

/// The scan shape keeps holding as the arena grows.
proof fn lemma_ult_chain_grow(
    tm1: TermManager,
    tm2: TermManager,
    x: Seq<Term>,
    y: Seq<Term>,
    seed: Term,
    n: int,
    t: Term,
)
    requires
        ult_chain(tm1, x, y, seed, n, t),
        tm2.extends(tm1),
    ensures
        ult_chain(tm2, x, y, seed, n, t),
    decreases n,
{
    reveal(ult_chain);
    if n > 0 {
        match tm1.nodes@[t.0 as int].ty {
            TermType::Op(o, a) => {
                assert(tm2.nodes@[t.0 as int] == tm1.nodes@[t.0 as int]);
                assert(tm2.nodes@[a@[0].0 as int] == tm1.nodes@[a@[0].0 as int]);
                assert(tm2.nodes@[a@[1].0 as int] == tm1.nodes@[a@[1].0 as int]);
                match tm1.nodes@[a@[0].0 as int].ty {
                    TermType::Op(o1, lt) => {
                        assert(tm2.nodes@[lt@[0].0 as int] == tm1.nodes@[lt@[0].0 as int]);
                    },
                    _ => {},
                }
                match tm1.nodes@[a@[1].0 as int].ty {
                    TermType::Op(o2, keep) => {
                        match tm1.nodes@[keep@[0].0 as int].ty {
                            TermType::Op(o3, le) => {
                                assert(tm2.nodes@[keep@[0].0 as int] == tm1.nodes@[
                                    keep@[0].0 as int]);
                                assert(tm2.nodes@[le@[0].0 as int] == tm1.nodes@[
                                    le@[0].0 as int]);
                            },
                            _ => {},
                        }
                        lemma_ult_chain_grow(tm1, tm2, x, y, seed, n - 1, keep@[1]);
                    },
                    _ => {},
                }
            },
            _ => {},
        }
    }
}


/// One full-adder stage: the sum node is `Xor(Xor(x, y), cin)` and the
/// carry-out node the variadic disjunction of the three pairwise
/// conjunctions, all interned.
#[verifier::opaque]
pub open spec fn adder_stage(
    tm: TermManager,
    xb: Term,
    yb: Term,
    cin: Term,
    s: Term,
    cout: Term,
) -> bool {
    &&& tm.contains(s)
    &&& tm.contains(cout)
    &&& tm.nodes@[s.0 as int].ty matches TermType::Op(o, a) && o == Op::Xor && a@.len() == 2
        && tm.contains(a@[0]) && (tm.nodes@[a@[0].0 as int].ty matches TermType::Op(o1, xy0)
        && o1 == Op::Xor && xy0@ == seq![xb, yb]) && a@[1] == cin
    &&& tm.nodes@[cout.0 as int].ty matches TermType::Op(o2, b) && o2 == Op::Ors && b@.len() == 3
        && tm.contains(b@[0]) && tm.contains(b@[1]) && tm.contains(b@[2]) && (
    tm.nodes@[b@[0].0 as int].ty matches TermType::Op(o3, xy) && o3 == Op::And && xy@ == seq![
        xb,
        yb,
    ]) && (tm.nodes@[b@[1].0 as int].ty matches TermType::Op(o4, xc) && o4 == Op::And && xc@
        == seq![xb, cin]) && (tm.nodes@[b@[2].0 as int].ty matches TermType::Op(o5, yc) && o5
        == Op::And && yc@ == seq![yb, cin])
}

/// The shape of a ripple-carry chain after `n` bits: one full-adder stage
/// per position, each sum collected in order, the carry threading through
/// from the seed.
#[verifier::opaque]
pub open spec fn ripple_chain(
    tm: TermManager,
    x: Seq<Term>,
    y: Seq<Term>,
    seed: Term,
    outs: Seq<Term>,
    carry: Term,
    n: int,
) -> bool
    decreases n,
{
    if n <= 0 {
        outs.len() == 0 && carry == seed
    } else {
        &&& outs.len() == n
        &&& tm.contains(carry)
        &&& tm.nodes@[carry.0 as int].ty matches TermType::Op(o, b) && o == Op::Ors && b@.len()
            == 3 && tm.contains(b@[1]) && (tm.nodes@[b@[1].0 as int].ty matches TermType::Op(
            o4,
            xc,
        ) && o4 == Op::And && xc@.len() == 2 && adder_stage(
            tm,
            x[n - 1],
            y[n - 1],
            xc@[1],
            outs.last(),
            carry,
        ) && ripple_chain(tm, x, y, seed, outs.drop_last(), xc@[1], n - 1))
    }
}

/// The ripple shape keeps holding as the arena grows.
proof fn lemma_ripple_chain_grow(
    tm1: TermManager,
    tm2: TermManager,
    x: Seq<Term>,
    y: Seq<Term>,
    seed: Term,
    outs: Seq<Term>,
    carry: Term,
    n: int,
)
    requires
        ripple_chain(tm1, x, y, seed, outs, carry, n),
        tm2.extends(tm1),
    ensures
        ripple_chain(tm2, x, y, seed, outs, carry, n),
    decreases n,
{
    reveal(ripple_chain);
    reveal(adder_stage);
    if n > 0 {
        match tm1.nodes@[carry.0 as int].ty {
            TermType::Op(o, b) => {
                assert(tm2.nodes@[carry.0 as int] == tm1.nodes@[carry.0 as int]);
                assert(tm2.nodes@[b@[1].0 as int] == tm1.nodes@[b@[1].0 as int]);
                match tm1.nodes@[b@[1].0 as int].ty {
                    TermType::Op(o4, xc) => {
                        lemma_adder_stage_grow(
                            tm1,
                            tm2,
                            x[n - 1],
                            y[n - 1],
                            xc@[1],
                            outs.last(),
                            carry,
                        );
                        lemma_ripple_chain_grow(
                            tm1,
                            tm2,
                            x,
                            y,
                            seed,
                            outs.drop_last(),
                            xc@[1],
                            n - 1,
                        );
                    },
                    _ => {},
                }
            },
            _ => {},
        }
    }
}

proof fn lemma_adder_stage_grow(
    tm1: TermManager,
    tm2: TermManager,
    xb: Term,
    yb: Term,
    cin: Term,
    s: Term,
    cout: Term,
)
    requires
        adder_stage(tm1, xb, yb, cin, s, cout),
        tm2.extends(tm1),
    ensures
        adder_stage(tm2, xb, yb, cin, s, cout),
{
    reveal(adder_stage);
    assert(tm2.nodes@[s.0 as int] == tm1.nodes@[s.0 as int]);
    assert(tm2.nodes@[cout.0 as int] == tm1.nodes@[cout.0 as int]);
    match tm1.nodes@[s.0 as int].ty {
        TermType::Op(o, a) => {
            assert(tm2.nodes@[a@[0].0 as int] == tm1.nodes@[a@[0].0 as int]);
        },
        _ => {},
    }
    match tm1.nodes@[cout.0 as int].ty {
        TermType::Op(o2, b) => {
            assert(tm2.nodes@[b@[0].0 as int] == tm1.nodes@[b@[0].0 as int]);
            assert(tm2.nodes@[b@[1].0 as int] == tm1.nodes@[b@[1].0 as int]);
            assert(tm2.nodes@[b@[2].0 as int] == tm1.nodes@[b@[2].0 as int]);
        },
        _ => {},
    }
}


/// The chain only reads the first `n` positions of the operand vectors.
proof fn lemma_ripple_chain_frame(
    tm: TermManager,
    x: Seq<Term>,
    y1: Seq<Term>,
    y2: Seq<Term>,
    seed: Term,
    outs: Seq<Term>,
    carry: Term,
    n: int,
)
    requires
        ripple_chain(tm, x, y1, seed, outs, carry, n),
        y1.len() >= n,
        y2.len() >= n,
        forall|k: int| 0 <= k < n ==> y2[k] == y1[k],
    ensures
        ripple_chain(tm, x, y2, seed, outs, carry, n),
    decreases n,
{
    reveal(ripple_chain);
    reveal(adder_stage);
    if n > 0 {
        match tm.nodes@[carry.0 as int].ty {
            TermType::Op(o, b) => {
                match tm.nodes@[b@[1].0 as int].ty {
                    TermType::Op(o4, xc) => {
                        lemma_ripple_chain_frame(
                            tm,
                            x,
                            y1,
                            y2,
                            seed,
                            outs.drop_last(),
                            xc@[1],
                            n - 1,
                        );
                    },
                    _ => {},
                }
            },
            _ => {},
        }
    }
}


/// The shape of the bitwise negation ripple: bit 0 passes through, the
/// borrow starts as the complement of bit 0, and each further bit is
/// `(c & x_i) | (!c & !x_i)` with the borrow updated to `c & !x_i`.
#[verifier::opaque]
pub open spec fn neg_chain(
    tm: TermManager,
    x: Seq<Term>,
    outs: Seq<Term>,
    carry: Term,
    n: int,
) -> bool
    decreases n,
{
    if n <= 1 {
        outs.len() == n && (n == 1 ==> (outs[0] == x[0] && tm.contains(carry) && (
        tm.nodes@[carry.0 as int].ty matches TermType::Op(o, a) && o == Op::Not && a@ == seq![
            x[0],
        ])))
    } else {
        &&& outs.len() == n
        &&& tm.contains(carry)
        &&& tm.nodes@[carry.0 as int].ty matches TermType::Op(o, ca) && o == Op::And && ca@.len()
            == 2 && tm.contains(ca@[1]) && (tm.nodes@[ca@[1].0 as int].ty matches TermType::Op(
            on,
            nx2,
        ) && on == Op::Not && nx2@ == seq![x[n - 1]]) && tm.contains(outs.last()) && (
        tm.nodes@[outs.last().0 as int].ty matches TermType::Op(ob, ba) && ob == Op::Or
            && ba@.len() == 2 && tm.contains(ba@[0]) && tm.contains(ba@[1]) && (
        tm.nodes@[ba@[0].0 as int].ty matches TermType::Op(o1, cx) && o1 == Op::And && cx@
            == seq![ca@[0], x[n - 1]]) && (tm.nodes@[ba@[1].0 as int].ty matches TermType::Op(
            o2,
            ncx,
        ) && o2 == Op::And && ncx@.len() == 2 && tm.contains(ncx@[0]) && tm.contains(ncx@[1])
            && (tm.nodes@[ncx@[0].0 as int].ty matches TermType::Op(o3, nc0) && o3 == Op::Not
            && nc0@ == seq![ca@[0]]) && (tm.nodes@[ncx@[1].0 as int].ty matches TermType::Op(
            o4,
            nxx,
        ) && o4 == Op::Not && nxx@ == seq![x[n - 1]]))) && neg_chain(
            tm,
            x,
            outs.drop_last(),
            ca@[0],
            n - 1,
        )
    }
}

/// The negation shape keeps holding as the arena grows.
proof fn lemma_neg_chain_grow(
    tm1: TermManager,
    tm2: TermManager,
    x: Seq<Term>,
    outs: Seq<Term>,
    carry: Term,
    n: int,
)
    requires
        neg_chain(tm1, x, outs, carry, n),
        tm2.extends(tm1),
    ensures
        neg_chain(tm2, x, outs, carry, n),
    decreases n,
{
    reveal(neg_chain);
    if n <= 1 {
        if n == 1 {
            assert(tm2.nodes@[carry.0 as int] == tm1.nodes@[carry.0 as int]);
        }
    } else {
        assert(tm2.nodes@[carry.0 as int] == tm1.nodes@[carry.0 as int]);
        match tm1.nodes@[carry.0 as int].ty {
            TermType::Op(o, ca) => {
                assert(tm2.nodes@[ca@[1].0 as int] == tm1.nodes@[ca@[1].0 as int]);
                assert(tm2.nodes@[outs.last().0 as int] == tm1.nodes@[outs.last().0 as int]);
                match tm1.nodes@[outs.last().0 as int].ty {
                    TermType::Op(ob, ba) => {
                        assert(tm2.nodes@[ba@[0].0 as int] == tm1.nodes@[ba@[0].0 as int]);
                        assert(tm2.nodes@[ba@[1].0 as int] == tm1.nodes@[ba@[1].0 as int]);
                        match tm1.nodes@[ba@[1].0 as int].ty {
                            TermType::Op(o2, ncx) => {
                                assert(tm2.nodes@[ncx@[0].0 as int] == tm1.nodes@[
                                    ncx@[0].0 as int]);
                                assert(tm2.nodes@[ncx@[1].0 as int] == tm1.nodes@[
                                    ncx@[1].0 as int]);
                            },
                            _ => {},
                        }
                    },
                    _ => {},
                }
                lemma_neg_chain_grow(tm1, tm2, x, outs.drop_last(), ca@[0], n - 1);
            },
            _ => {},
        }
    }
}

impl TermManager {
    fn copy_bools(&self, v: &Vec<bool>) -> (r: Vec<bool>)
        ensures
            r@ =~= v@,
    {
        let mut r: Vec<bool> = Vec::new();
        let mut i: usize = 0;
        while i < v.len()
            invariant
                i <= v@.len(),
                r@ =~= v@.take(i as int),
            decreases v@.len() - i,
        {
            r.push(v[i]);
            proof {
                assert(v@.take(i as int).push(v@[i as int]) =~= v@.take(i + 1));
            }
            i += 1;
        }
        proof {
            assert(v@.take(v@.len() as int) =~= v@);
        }
        r
    }

    /// Dispatch one operator application to its circuit over the blasted
    /// operand vectors.
    #[verifier::rlimit(100)]
    #[verifier::spinoff_prover]
    fn blast_op(
        &mut self,
        op: Op,
        blasted: &Vec<Vec<Term>>,
        Ghost(gargs): Ghost<Seq<Term>>,
        Ghost(t): Ghost<Term>,
    ) -> (r: Vec<Term>)
        requires
            old(self).wf(),
            t.0 < old(self).nodes@.len(),
            old(self).nodes@[t.0 as int].ty matches TermType::Op(oo, aa) && oo == op && aa@
                == gargs,
            op != Op::Ands && op != Op::Ors,
            op == Op::Eq ==> old(self).nodes@[gargs[0].0 as int].sort.spec_size() >= 1,
            (op == Op::Sll || op == Op::Srl || op == Op::Sra || op == Op::Rol || op == Op::Ror)
                ==> old(self).nodes@[t.0 as int].sort->Bv_0 <= 0x1000_0000,
            (op == Op::Udiv || op == Op::Urem || op == Op::Sdiv || op == Op::Srem || op
                == Op::Smod) ==> old(self).nodes@[t.0 as int].sort->Bv_0 < usize::MAX,
            (op == Op::Read || op == Op::Write) ==> gargs.len() >= 2 && old(
                self,
            ).nodes@[gargs[0].0 as int].sort->Array_0 >= 1,
            blasted@.len() == gargs.len(),
            forall|k: int|
                0 <= k < blasted@.len() ==> ((#[trigger] blasted@[k])@.len()
                    == crate::term::operand_sorts(old(self).nodes@, gargs)[k].spec_size()
                    && all_bool(*old(self), blasted@[k]@)),
        ensures
            final(self).wf(),
            final(self).extends(*old(self)),
            final(self).avl_vid == old(self).avl_vid,
            r@.len() == old(self).sort_of(t).spec_size(),
            all_bool(*final(self), r@),
    {
        proof {
            assert(crate::term::node_wf(self.nodes@, t.0 as int));
        }
        let ghost ss = crate::term::operand_sorts(self.nodes@, gargs);
        match op {
            Op::Not => self.not_bitblast(&blasted[0]),
            Op::And | Op::Or | Op::Xor => {
                proof {
                    assert(ss[1] == ss[0]);
                }
                self.elementwise_bitblast(op, &blasted[0], &blasted[1])
            },
            Op::Eq => {
                proof {
                    assert(ss[1] == ss[0]);
                }
                self.eq_bitblast(&blasted[0], &blasted[1])
            },
            Op::Ult => {
                proof {
                    assert(ss[1] == ss[0]);
                }
                self.ult_bitblast(&blasted[0], &blasted[1])
            },
            Op::Slt => {
                proof {
                    assert(ss[1] == ss[0]);
                }
                self.slt_bitblast(&blasted[0], &blasted[1])
            },
            Op::Sll => {
                proof {
                    assert(ss[1] == ss[0]);
                    assert(self.nodes@[t.0 as int].sort == ss[0]);
                }
                self.sll_bitblast(&blasted[0], &blasted[1])
            },
            Op::Srl => {
                proof {
                    assert(ss[1] == ss[0]);
                    assert(self.nodes@[t.0 as int].sort == ss[0]);
                }
                self.srl_bitblast(&blasted[0], &blasted[1])
            },
            Op::Sra => {
                proof {
                    assert(ss[1] == ss[0]);
                    assert(self.nodes@[t.0 as int].sort == ss[0]);
                }
                self.sra_bitblast(&blasted[0], &blasted[1])
            },
            Op::Rol => {
                proof {
                    assert(ss[1] == ss[0]);
                    assert(self.nodes@[t.0 as int].sort == ss[0]);
                }
                self.rol_bitblast(&blasted[0], &blasted[1])
            },
            Op::Ror => {
                proof {
                    assert(ss[1] == ss[0]);
                    assert(self.nodes@[t.0 as int].sort == ss[0]);
                }
                self.ror_bitblast(&blasted[0], &blasted[1])
            },
            Op::Ite => {
                proof {
                    assert(ss[0] == Sort::Bv(1usize));
                    assert(ss[2] == ss[1]);
                }
                self.ite_bitblast(&blasted[0], &blasted[1], &blasted[2])
            },
            Op::Concat => self.concat_bitblast(&blasted[0], &blasted[1]),
            Op::Sext => {
                let ext = blasted[1].len();
                self.sext_bitblast(&blasted[0], ext)
            },
            Op::Slice => {
                let h = blasted[1].len();
                let l = blasted[2].len();
                self.slice_bitblast(&blasted[0], h, l)
            },
            Op::Redxor => self.redxor_bitblast(&blasted[0]),
            Op::Add => {
                proof {
                    assert(ss[1] == ss[0]);
                }
                self.add_bitblast(&blasted[0], &blasted[1])
            },
            Op::Sub => {
                proof {
                    assert(ss[1] == ss[0]);
                }
                self.sub_bitblast(&blasted[0], &blasted[1])
            },
            Op::Mul => {
                proof {
                    assert(ss[1] == ss[0]);
                }
                self.mul_bitblast(&blasted[0], &blasted[1])
            },
            Op::Neg => self.neg_bitblast(&blasted[0]),
            Op::Udiv | Op::Urem | Op::Sdiv | Op::Srem | Op::Smod | Op::Read | Op::Write => self
                .blast_div_array_op(op, blasted, Ghost(gargs), Ghost(t)),
            Op::Ands | Op::Ors => unreached(),
        }
    }

    /// The division-family and array circuits, dispatched separately.
    #[verifier::rlimit(100)]
    #[verifier::spinoff_prover]
    fn blast_div_array_op(
        &mut self,
        op: Op,
        blasted: &Vec<Vec<Term>>,
        Ghost(gargs): Ghost<Seq<Term>>,
        Ghost(t): Ghost<Term>,
    ) -> (r: Vec<Term>)
        requires
            old(self).wf(),
            t.0 < old(self).nodes@.len(),
            old(self).nodes@[t.0 as int].ty matches TermType::Op(oo, aa) && oo == op && aa@
                == gargs,
            op == Op::Udiv || op == Op::Urem || op == Op::Sdiv || op == Op::Srem || op == Op::Smod
                || op == Op::Read || op == Op::Write,
            (op == Op::Udiv || op == Op::Urem || op == Op::Sdiv || op == Op::Srem || op
                == Op::Smod) ==> old(self).nodes@[t.0 as int].sort->Bv_0 < usize::MAX,
            (op == Op::Read || op == Op::Write) ==> gargs.len() >= 2 && old(
                self,
            ).nodes@[gargs[0].0 as int].sort->Array_0 >= 1,
            blasted@.len() == gargs.len(),
            forall|k: int|
                0 <= k < blasted@.len() ==> ((#[trigger] blasted@[k])@.len()
                    == crate::term::operand_sorts(old(self).nodes@, gargs)[k].spec_size()
                    && all_bool(*old(self), blasted@[k]@)),
        ensures
            final(self).wf(),
            final(self).extends(*old(self)),
            final(self).avl_vid == old(self).avl_vid,
            r@.len() == old(self).sort_of(t).spec_size(),
            all_bool(*final(self), r@),
    {
        proof {
            assert(crate::term::node_wf(self.nodes@, t.0 as int));
        }
        let ghost ss = crate::term::operand_sorts(self.nodes@, gargs);
        match op {
            Op::Udiv => {
                proof {
                    assert(ss[1] == ss[0]);
                    assert(self.nodes@[t.0 as int].sort == ss[0]);
                }
                self.udiv_bitblast(&blasted[0], &blasted[1])
            },
            Op::Urem => {
                proof {
                    assert(ss[1] == ss[0]);
                    assert(self.nodes@[t.0 as int].sort == ss[0]);
                }
                self.urem_bitblast(&blasted[0], &blasted[1])
            },
            Op::Sdiv => {
                proof {
                    assert(ss[1] == ss[0]);
                    assert(self.nodes@[t.0 as int].sort == ss[0]);
                }
                self.sdiv_bitblast(&blasted[0], &blasted[1])
            },
            Op::Srem => {
                proof {
                    assert(ss[1] == ss[0]);
                    assert(self.nodes@[t.0 as int].sort == ss[0]);
                }
                self.srem_bitblast(&blasted[0], &blasted[1])
            },
            Op::Smod => {
                proof {
                    assert(ss[1] == ss[0]);
                    assert(self.nodes@[t.0 as int].sort == ss[0]);
                }
                self.smod_bitblast(&blasted[0], &blasted[1])
            },
            Op::Read => {
                proof {
                    let k = ss[0]->Array_0;
                    let e = ss[0]->Array_1;
                    vstd::arithmetic::power2::lemma_pow2_pos(k as nat);
                    vstd::arithmetic::div_mod::lemma_mod_multiples_basic(
                        e as int,
                        vstd::arithmetic::power2::pow2(k as nat) as int,
                    );
                    vstd::arithmetic::div_mod::lemma_div_multiples_vanish(
                        e as int,
                        vstd::arithmetic::power2::pow2(k as nat) as int,
                    );
                    assert(vstd::arithmetic::power2::pow2(k as nat) * e == e
                        * vstd::arithmetic::power2::pow2(k as nat)) by (nonlinear_arith);
                }
                let out = self.read_bitblast(&blasted[0], &blasted[1]);
                proof {
                    let k = ss[0]->Array_0;
                    let e = ss[0]->Array_1;
                    assert(blasted@[0]@.len() == vstd::arithmetic::power2::pow2(k as nat) * e);
                    assert(out@.len() == e);
                }
                out
            },
            Op::Write => {
                proof {
                    let k = ss[0]->Array_0;
                    let e = ss[0]->Array_1;
                    vstd::arithmetic::power2::lemma_pow2_pos(k as nat);
                    vstd::arithmetic::div_mod::lemma_mod_multiples_basic(
                        e as int,
                        vstd::arithmetic::power2::pow2(k as nat) as int,
                    );
                    vstd::arithmetic::div_mod::lemma_div_multiples_vanish(
                        e as int,
                        vstd::arithmetic::power2::pow2(k as nat) as int,
                    );
                    assert(vstd::arithmetic::power2::pow2(k as nat) * e == e
                        * vstd::arithmetic::power2::pow2(k as nat)) by (nonlinear_arith);
                }
                let out = self.write_bitblast(&blasted[0], &blasted[1], &blasted[2]);
                proof {
                    let k = ss[0]->Array_0;
                    let e = ss[0]->Array_1;
                    assert(blasted@[0]@.len() == vstd::arithmetic::power2::pow2(k as nat) * e);
                    assert(out@.len() == blasted@[0]@.len());
                }
                out
            },
            _ => unreached(),
        }
    }
}

impl TermManager {
    /// Blast every operand of an application, sharing the memo.
    #[verifier::rlimit(100)]
    #[verifier::spinoff_prover]
    fn blast_children(
        &mut self,
        argsv: &Vec<Term>,
        memo: &mut Vec<Option<Vec<Term>>>,
        Ghost(t): Ghost<Term>,
        Ghost(n0): Ghost<int>,
    ) -> (blasted: Vec<Vec<Term>>)
        requires
            old(self).wf(),
            blastable_upto(old(self).nodes@, n0),
            n0 == old(memo)@.len(),
            t.0 < n0,
            old(memo)@.len() <= old(self).nodes@.len(),
            forall|k: int| 0 <= k < argsv@.len() ==> (#[trigger] argsv@[k]).0 < t.0,
            blast_memo_wf(*old(self), old(memo)@),
            old(self).avl_vid + var_demand(old(self).nodes@, old(memo)@, n0) < usize::MAX,
        ensures
            final(self).wf(),
            final(self).extends(*old(self)),
            final(memo)@.len() == old(memo)@.len(),
            forall|i: int|
                0 <= i < old(memo)@.len() && old(memo)@[i] is Some ==> final(memo)@[i] == old(
                    memo,
                )@[i],
            forall|i: int| t.0 <= i < final(memo)@.len() ==> final(memo)@[i] == old(memo)@[i],
            blast_memo_wf(*final(self), final(memo)@),
            blastable_upto(final(self).nodes@, n0),
            final(self).avl_vid + var_demand(final(self).nodes@, final(memo)@, n0) <= old(
                self,
            ).avl_vid + var_demand(old(self).nodes@, old(memo)@, n0),
            blasted@.len() == argsv@.len(),
            forall|k: int|
                0 <= k < blasted@.len() ==> ((#[trigger] blasted@[k])@.len() == old(
                    self,
                ).nodes@[argsv@[k].0 as int].sort.spec_size() && all_bool(
                    *final(self),
                    blasted@[k]@,
                )),
        decreases t.0, 0int,
    {
        let ghost gargs = argsv@;
        let mut blasted: Vec<Vec<Term>> = Vec::new();
        let mut j: usize = 0;
        while j < argsv.len()
            invariant
                j <= gargs.len(),
                argsv@ == gargs,
                self.wf(),
                self.extends(*old(self)),
                blastable_upto(self.nodes@, n0),
                n0 == old(memo)@.len(),
                t.0 < n0,
                memo@.len() == old(memo)@.len(),
                memo@.len() <= self.nodes@.len(),
                forall|k: int| 0 <= k < gargs.len() ==> (#[trigger] gargs[k]).0 < t.0,
                forall|i: int|
                    0 <= i < old(memo)@.len() && old(memo)@[i] is Some ==> memo@[i] == old(
                        memo,
                    )@[i],
                forall|i: int| t.0 <= i < memo@.len() ==> memo@[i] == old(memo)@[i],
                blast_memo_wf(*self, memo@),
                self.avl_vid + var_demand(self.nodes@, memo@, n0) <= old(self).avl_vid
                    + var_demand(old(self).nodes@, old(memo)@, n0),
                blasted@.len() == j,
                forall|k: int|
                    0 <= k < j ==> ((#[trigger] blasted@[k])@.len() == old(
                        self,
                    ).nodes@[gargs[k].0 as int].sort.spec_size() && all_bool(
                        *self,
                        blasted@[k]@,
                    )),
            decreases gargs.len() - j,
        {
            let child = argsv[j];
            let v = self.bitblast(child, memo);
            blasted.push(v);
            j += 1;
        }
        blasted
    }

    /// Lower a term to its vector of single-bit terms, memoizing shared
    /// sub-terms, so the walk is linear in the DAG size; re-blasting a term
    /// already in the memo returns the identical bit terms and leaves the
    /// manager untouched.
    #[verifier::rlimit(100)]
    #[verifier::spinoff_prover]
    pub fn bitblast(&mut self, t: Term, memo: &mut Vec<Option<Vec<Term>>>) -> (r: Vec<Term>)
        requires
            old(self).wf(),
            blastable_upto(old(self).nodes@, old(memo)@.len() as int),
            old(self).contains(t),
            t.0 < old(memo)@.len(),
            old(memo)@.len() <= old(self).nodes@.len(),
            blast_memo_wf(*old(self), old(memo)@),
            old(self).avl_vid + var_demand(
                old(self).nodes@,
                old(memo)@,
                old(memo)@.len() as int,
            ) < usize::MAX,
        ensures
            final(self).wf(),
            final(self).extends(*old(self)),
            final(memo)@.len() == old(memo)@.len(),
            forall|i: int|
                0 <= i < old(memo)@.len() && old(memo)@[i] is Some ==> final(memo)@[i] == old(
                    memo,
                )@[i],
            // the walk fills entries only at or below the blasted handle
            forall|i: int|
                t.0 < i < final(memo)@.len() ==> final(memo)@[i] == old(memo)@[i],
            blast_memo_wf(*final(self), final(memo)@),
            blastable_upto(final(self).nodes@, old(memo)@.len() as int),
            final(self).avl_vid + var_demand(
                final(self).nodes@,
                final(memo)@,
                final(memo)@.len() as int,
            ) <= old(self).avl_vid + var_demand(
                old(self).nodes@,
                old(memo)@,
                old(memo)@.len() as int,
            ),
            final(memo)@[t.0 as int] is Some && final(memo)@[t.0 as int]->0@ == r@,
            r@.len() == old(self).sort_of(t).spec_size(),
            all_bool(*final(self), r@),
            old(memo)@[t.0 as int] is Some ==> (r@ == old(memo)@[t.0 as int]->0@ && *final(self)
                == *old(self) && final(memo)@ == old(memo)@),
        decreases t.0, 1int,
    {
        let ghost n0 = memo@.len() as int;
        match &memo[t.0] {
            Some(v) => {
                proof {
                    lemma_blast_memo_wf_at(*self, memo@, t.0 as int);
                }
                return self.copy_terms(v);
            },
            None => {},
        }
        proof {
            assert(crate::term::node_wf(self.nodes@, t.0 as int));
        }
        let r: Vec<Term>;
        if self.is_const(t) {
            let bits = match self.try_bv_const(t) {
                Some(c) => self.copy_bools(c),
                None => unreached(),
            };
            let mut out: Vec<Term> = Vec::new();
            let mut i: usize = 0;
            while i < bits.len()
                invariant
                    i <= bits@.len(),
                    self.wf(),
                    self.extends(*old(self)),
                    self.avl_vid == old(self).avl_vid,
                    out@.len() == i,
                    all_bool(*self, out@),
                decreases bits@.len() - i,
            {
                let b = self.bool_const(bits[i]);
                out.push(b);
                i += 1;
            }
            r = out;
            proof {
                lemma_blast_memo_wf_grow(*old(self), *self, memo@);
                lemma_blastable_upto_grow(old(self).nodes@, self.nodes@, n0);
                lemma_var_demand_frame(old(self).nodes@, memo@, self.nodes@, memo@, n0);
            }
        } else if self.is_var(t) {
            proof {
                lemma_var_demand_at(self.nodes@, memo@, t.0 as int, n0);
            }
            let sort = self.sort(t);
            r = self.var_bitblast(sort);
            proof {
                lemma_blast_memo_wf_grow(*old(self), *self, memo@);
                lemma_blastable_upto_grow(old(self).nodes@, self.nodes@, n0);
                lemma_var_demand_frame(old(self).nodes@, memo@, self.nodes@, memo@, n0);
            }
        } else {
            let (op, argsv) = match self.try_op(t) {
                Some((o, a)) => (o, self.copy_terms(a)),
                None => unreached(),
            };
            let ghost gargs = argsv@;
            let blasted = self.blast_children(&argsv, memo, Ghost(t), Ghost(n0));
            let ghost mid = *self;
            proof {
                assert(crate::term::operand_sorts(self.nodes@, gargs) =~= crate::term::operand_sorts(
                    old(self).nodes@,
                    gargs,
                ));
                assert(match op {
                    Op::Ands | Op::Ors => false,
                    Op::Eq => self.nodes@[gargs[0].0 as int].sort.spec_size() >= 1,
                    Op::Sll | Op::Srl | Op::Sra | Op::Rol | Op::Ror => self.nodes@[t.0 as int].sort->Bv_0
                        <= 0x1000_0000,
                    Op::Udiv | Op::Urem | Op::Sdiv | Op::Srem | Op::Smod => self.nodes@[t.0 as int].sort->Bv_0
                        < usize::MAX,
                    Op::Read | Op::Write => gargs.len() >= 2 && self.nodes@[gargs[0].0 as int].sort->Array_0
                        >= 1,
                    _ => true,
                }) by {
                    reveal(blastable_upto);
                }
            }
            r = self.blast_op(op, &blasted, Ghost(gargs), Ghost(t));
            proof {
                lemma_blast_memo_wf_grow(mid, *self, memo@);
                lemma_blastable_upto_grow(mid.nodes@, self.nodes@, n0);
                lemma_var_demand_frame(mid.nodes@, memo@, self.nodes@, memo@, n0);
            }
        }
        let stored = self.copy_terms(&r);
        proof {
            // the blasted node keeps its place as the arena grew
            assert(self.nodes@[t.0 as int] == old(self).nodes@[t.0 as int]);
            lemma_blast_memo_wf_fill(*self, memo@, t.0 as int, stored);
            lemma_var_demand_fill(self.nodes@, memo@, t.0 as int, stored, n0);
        }
        memo.set(t.0, Some(stored));
        proof {
            assert(self.avl_vid + var_demand(self.nodes@, memo@, n0) <= old(self).avl_vid
                + var_demand(old(self).nodes@, old(memo)@, n0));
        }
        r
    }
}

} // verus!
