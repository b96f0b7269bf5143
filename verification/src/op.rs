//! The operator catalog: a closed set of core operator tags, each with a
//! fixed arity (or variadic for the fold operators) and a result-sort
//! function of the operand sorts.
use crate::sort::Sort;
use vstd::prelude::*;

verus! {

/// A core operator tag. `Ands`/`Ors` are variadic folds; every other tag has
/// the fixed arity that `arity_ok` states.
#[derive(Clone, Copy, PartialEq, Eq, Hash, Debug, Structural)]
pub enum Op {
    Not,
    And,
    Ands,
    Or,
    Ors,
    Xor,
    Eq,
    Ult,
    Slt,
    Sll,
    Srl,
    Sra,
    Rol,
    Ror,
    Ite,
    Concat,
    Sext,
    Slice,
    Redxor,
    Add,
    Sub,
    Mul,
    Neg,
    Udiv,
    Urem,
    Sdiv,
    Srem,
    Smod,
    Read,
    Write,
}

impl Op {
    /// Whether `n` operands are acceptable for this tag.
    pub open spec fn arity_ok(self, n: nat) -> bool {
        match self {
            Op::Not | Op::Neg | Op::Redxor => n == 1,
            Op::Ite | Op::Slice | Op::Write => n == 3,
            Op::Ands | Op::Ors => n >= 1,
            _ => n == 2,
        }
    }

    /// Whether the operand sorts are acceptable for this tag.
    pub open spec fn input_ok(self, ss: Seq<Sort>) -> bool {
        self.arity_ok(ss.len()) && match self {
            Op::Not => ss[0] is Bv,
            Op::And | Op::Or | Op::Xor | Op::Add | Op::Sub => ss[0] is Bv && ss[1] == ss[0],
            Op::Ands | Op::Ors => ss[0] is Bv && forall|i: int|
                0 <= i < ss.len() ==> #[trigger] ss[i] == ss[0],
            Op::Eq => ss[1] == ss[0] && ss[0].valid(),
            Op::Ult | Op::Slt | Op::Sll | Op::Srl | Op::Sra | Op::Rol | Op::Ror | Op::Mul
            | Op::Udiv | Op::Urem | Op::Sdiv | Op::Srem | Op::Smod => ss[0] is Bv && ss[1]
                == ss[0] && ss[0]->Bv_0 >= 1,
            Op::Neg | Op::Redxor => ss[0] is Bv && ss[0]->Bv_0 >= 1,
            Op::Ite => ss[0] == Sort::Bv(1usize) && ss[2] == ss[1] && ss[1].valid(),
            Op::Concat => ss[0] is Bv && ss[1] is Bv && ss[0]->Bv_0 + ss[1]->Bv_0 <= usize::MAX,
            Op::Sext => ss[0] is Bv && ss[1] is Bv && ss[0]->Bv_0 >= 1 && ss[0]->Bv_0
                + ss[1]->Bv_0 <= usize::MAX,
            Op::Slice => ss[0] is Bv && ss[1] is Bv && ss[2] is Bv && ss[2]->Bv_0
                <= ss[1]->Bv_0 && ss[1]->Bv_0 < ss[0]->Bv_0,
            Op::Read => ss[0] is Array && ss[0].valid() && ss[1] == Sort::Bv(ss[0]->Array_0),
            Op::Write => ss[0] is Array && ss[0].valid() && ss[1] == Sort::Bv(ss[0]->Array_0)
                && ss[2] == Sort::Bv(ss[0]->Array_1),
        }
    }

    /// The result sort, a pure function of the operand sorts.
    pub open spec fn sort_spec(self, ss: Seq<Sort>) -> Sort {
        match self {
            Op::Eq | Op::Ult | Op::Slt | Op::Redxor => Sort::Bv(1usize),
            Op::Ite => ss[1],
            Op::Concat | Op::Sext => Sort::Bv((ss[0]->Bv_0 + ss[1]->Bv_0) as usize),
            Op::Slice => Sort::Bv((ss[1]->Bv_0 - ss[2]->Bv_0 + 1) as usize),
            Op::Read => Sort::Bv(ss[0]->Array_1),
            Op::Write => ss[0],
            _ => ss[0],
        }
    }

    pub fn is_core(&self) -> (r: bool)
        ensures
            r,
    {
        true
    }

    /// The declared operand count of a fixed-arity tag; the fold tags accept
    /// any positive count and are excluded by contract.
    pub fn num_operand(&self) -> (r: usize)
        requires
            !(*self is Ands),
            !(*self is Ors),
        ensures
            forall|n: nat| self.arity_ok(n) <==> n == r,
    {
        match self {
            Op::Not | Op::Neg | Op::Redxor => 1,
            Op::Ite | Op::Slice | Op::Write => 3,
            _ => 2,
        }
    }

    /// Compute the result sort of an application; the operand sorts must be
    /// acceptable, as the constructors guarantee.
    pub fn sort_of(&self, ss: &Vec<Sort>) -> (r: Sort)
        requires
            self.input_ok(ss@),
        ensures
            r == self.sort_spec(ss@),
            r.valid(),
    {
        match self {
            Op::Eq | Op::Ult | Op::Slt | Op::Redxor => Sort::Bv(1),
            Op::Ite => ss[1],
            Op::Concat | Op::Sext => {
                let (a, b) = (ss[0].bv(), ss[1].bv());
                Sort::Bv(a + b)
            },
            Op::Slice => {
                let h = ss[1].bv();
                let l = ss[2].bv();
                Sort::Bv(h - l + 1)
            },
            Op::Read => {
                let (_, e) = ss[0].array();
                Sort::Bv(e)
            },
            Op::Write => ss[0],
            _ => ss[0],
        }
    }
}

pub fn op_eq(a: Op, b: Op) -> (r: bool)
    ensures
        r == (a == b),
{
    a == b
}

} // verus!
