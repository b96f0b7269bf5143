//! The three-valued simulator: one evaluation function per core operator,
//! mirroring the corresponding bit-blasting circuit bit for bit over
//! three-valued vectors. Shift amounts, rotate amounts, divisors and array
//! indices are converted to a concrete integer only when every bit is known;
//! otherwise the whole result is unknown.
use crate::lbool::{lb_and, lb_from_bool, lb_not, lb_or, lb_xor, Lbool, LboolVec};
use crate::op::Op;
use crate::sort::Sort;
use crate::term::{node_wf, Term, TermManager, TermType};
use crate::value::Value;
use vstd::arithmetic::div_mod::lemma_div_denominator;
use vstd::arithmetic::power2::{lemma_pow2_adds, lemma_pow2_pos, pow2};
use vstd::prelude::*;

verus! {

/// Every bit of the vector is known.
pub open spec fn all_known(s: Seq<Lbool>) -> bool {
    forall|i: int| 0 <= i < s.len() ==> !(s[i] is Unknown)
}

/// A vector of unknown bits.
pub open spec fn all_x(w: nat) -> Seq<Lbool> {
    Seq::new(w, |i: int| Lbool::Unknown)
}

/// The unsigned value of the known bits, little-endian; an unknown bit
/// counts as zero.
pub open spec fn lbv_nat(s: Seq<Lbool>) -> nat
    decreases s.len(),
{
    if s.len() == 0 {
        0
    } else {
        (if s[0] is True {
            1nat
        } else {
            0nat
        }) + 2 * lbv_nat(s.subrange(1, s.len() as int))
    }
}

/// Bit `i` of the natural number `v`.
pub open spec fn nat_bit(v: nat, i: int) -> bool {
    (v / pow2(i as nat)) % 2 == 1
}

/// The `w` low bits of `v` as a fully-known vector, little-endian.
pub open spec fn nat_bits(v: nat, w: nat) -> Seq<Lbool> {
    Seq::new(w, |i: int| lb_from_bool(nat_bit(v, i)))
}

pub proof fn lemma_lbv_nat_bound(s: Seq<Lbool>)
    ensures
        lbv_nat(s) < pow2(s.len()),
    decreases s.len(),
{
    vstd::arithmetic::power2::lemma2_to64();
    if s.len() > 0 {
        lemma_lbv_nat_bound(s.subrange(1, s.len() as int));
        lemma_pow2_adds(1, (s.len() - 1) as nat);
    }
}

/// Peeling the low bit off a suffix: the value of `s[k..]` is its low bit
/// plus twice the value of `s[k+1..]`.
pub proof fn lemma_lbv_nat_suffix(s: Seq<Lbool>, k: int)
    requires
        0 <= k < s.len(),
    ensures
        lbv_nat(s.subrange(k, s.len() as int)) == (if s[k] is True {
            1nat
        } else {
            0nat
        }) + 2 * lbv_nat(s.subrange(k + 1, s.len() as int)),
{
    let suf = s.subrange(k, s.len() as int);
    assert(suf.subrange(1, suf.len() as int) =~= s.subrange(k + 1, s.len() as int));
}

/// Convert to a concrete value when every bit is known.
pub fn lbv_known_value(x: &LboolVec) -> (r: Option<u128>)
    requires
        x@.len() <= 128,
    ensures
        match r {
            Some(v) => all_known(x@) && v == lbv_nat(x@),
            None => !all_known(x@),
        },
{
    let w = x.len();
    let mut val: u128 = 0;
    let mut i: usize = 0;
    proof {
        assert(x@.subrange(w as int, w as int) =~= Seq::<Lbool>::empty());
        vstd::arithmetic::power2::lemma2_to64();
    }
    while i < w
        invariant
            w == x@.len(),
            w <= 128,
            i <= w,
            forall|j: int| w - i <= j < w ==> !(x@[j] is Unknown),
            val == lbv_nat(x@.subrange(w - i, w as int)),
            val < pow2(i as nat),
        decreases w - i,
    {
        let k = w - 1 - i;
        let b = x.get(k);
        if b.is_none() {
            return None;
        }
        proof {
            lemma_lbv_nat_suffix(x@, k as int);
            lemma_pow2_adds(i as nat, 1);
            vstd::arithmetic::power2::lemma2_to64();
            assert(pow2((i + 1) as nat) <= pow2(128)) by {
                if i + 1 < 128 {
                    vstd::arithmetic::power2::lemma_pow2_strictly_increases((i + 1) as nat, 128);
                }
            }
            lemma_pow2_adds(64, 64);
            assert(pow2(128) == 0x100000000000000000000000000000000nat);
        }
        val = val * 2 + if b.is_true() {
            1
        } else {
            0
        };
        i += 1;
    }
    proof {
        assert(x@.subrange(0, w as int) =~= x@);
    }
    Some(val)
}

/// Write out the `w` low bits of a concrete value.
pub fn nat_to_lbv(v: u128, w: usize) -> (r: LboolVec)
    ensures
        r@ =~= nat_bits(v as nat, w as nat),
{
    let mut r = LboolVec::new();
    let mut cur: u128 = v;
    let mut i: usize = 0;
    proof {
        vstd::arithmetic::power2::lemma2_to64();
    }
    while i < w
        invariant
            i <= w,
            r@.len() == i,
            forall|j: int| 0 <= j < i ==> r@[j] == lb_from_bool(nat_bit(v as nat, j)),
            cur == v as nat / pow2(i as nat),
        decreases w - i,
    {
        r.push(Lbool::from_bool(cur % 2 == 1));
        proof {
            lemma_pow2_pos(i as nat);
            lemma_div_denominator(v as int, pow2(i as nat) as int, 2);
            lemma_pow2_adds(i as nat, 1);
            vstd::arithmetic::power2::lemma2_to64();
        }
        cur = cur / 2;
        i += 1;
    }
    r
}

/// The value of a fully-known vector is recovered bit by bit.
pub proof fn lemma_lbv_nat_bits(s: Seq<Lbool>)
    requires
        all_known(s),
    ensures
        nat_bits(lbv_nat(s), s.len()) =~= s,
    decreases s.len(),
{
    if s.len() > 0 {
        let tail = s.subrange(1, s.len() as int);
        lemma_lbv_nat_bits(tail);
        let v = lbv_nat(s);
        let b0: nat = if s[0] is True {
            1
        } else {
            0
        };
        assert(v == b0 + 2 * lbv_nat(tail));
        assert forall|i: int| 0 <= i < s.len() implies lb_from_bool(nat_bit(v, i)) == s[i] by {
            if i == 0 {
                vstd::arithmetic::power2::lemma2_to64();
                assert(v / 1 == v) by (nonlinear_arith);
                assert(v % 2 == b0) by (nonlinear_arith)
                    requires
                        v == b0 + 2 * lbv_nat(tail),
                        b0 < 2,
                ;
            } else {
                lemma_pow2_adds(1, (i - 1) as nat);
                vstd::arithmetic::power2::lemma2_to64();
                lemma_pow2_pos((i - 1) as nat);
                assert(v / 2 == lbv_nat(tail)) by (nonlinear_arith)
                    requires
                        v == b0 + 2 * lbv_nat(tail),
                        b0 < 2,
                ;
                lemma_div_denominator(v as int, 2, pow2((i - 1) as nat) as int);
                assert(nat_bit(v, i) == nat_bit(lbv_nat(tail), i - 1));
                assert(lb_from_bool(nat_bit(lbv_nat(tail), i - 1)) == tail[i - 1]);
            }
        }
    }
}

fn bv_arg<'a>(terms: &'a [Value], i: usize) -> (r: &'a LboolVec)
    requires
        i < terms@.len(),
        terms@[i as int] is Bv,
    ensures
        r@ == terms@[i as int].bv(),
{
    match &terms[i] {
        Value::Bv(v) => v,
        Value::Array(_) => unreached(),
    }
}

/// Elementwise negation.
pub open spec fn spec_not(x: Seq<Lbool>) -> Seq<Lbool> {
    Seq::new(x.len(), |i: int| lb_not(x[i]))
}

pub fn not_simulate(terms: &[Value]) -> (r: Value)
    requires
        terms@.len() == 1,
        terms@[0] is Bv,
    ensures
        r is Bv,
        r.bv() == spec_not(terms@[0].bv()),
{
    let x = bv_arg(terms, 0);
    Value::Bv(x.not())
}

/// Elementwise conjunction.
pub open spec fn spec_and(x: Seq<Lbool>, y: Seq<Lbool>) -> Seq<Lbool> {
    Seq::new(x.len(), |i: int| lb_and(x[i], y[i]))
}

pub fn and_simulate(terms: &[Value]) -> (r: Value)
    requires
        terms@.len() == 2,
        terms@[0] is Bv,
        terms@[1] is Bv,
        terms@[0].bv().len() == terms@[1].bv().len(),
    ensures
        r is Bv,
        r.bv() == spec_and(terms@[0].bv(), terms@[1].bv()),
{
    let x = bv_arg(terms, 0);
    let y = bv_arg(terms, 1);
    Value::Bv(x.and(y))
}

/// Left fold of elementwise conjunction over one or more operands.
pub open spec fn spec_ands(vs: Seq<Seq<Lbool>>) -> Seq<Lbool>
    decreases vs.len(),
{
    if vs.len() <= 1 {
        vs[0]
    } else {
        spec_and(spec_ands(vs.drop_last()), vs.last())
    }
}

pub fn ands_simulate(terms: &[Value]) -> (r: Value)
    requires
        terms@.len() >= 1,
        forall|i: int| 0 <= i < terms@.len() ==> terms@[i] is Bv,
        forall|i: int|
            0 <= i < terms@.len() ==> (#[trigger] terms@[i].bv()).len() == terms@[0].bv().len(),
    ensures
        r is Bv,
        r.bv() == spec_ands(Seq::new(terms@.len(), |i: int| terms@[i].bv())),
{
    let ghost vs = Seq::new(terms@.len(), |i: int| terms@[i].bv());
    let mut res = bv_arg(terms, 0).clone();
    let mut i: usize = 1;
    proof {
        assert(vs.subrange(0, 1) =~= seq![vs[0]]);
    }
    while i < terms.len()
        invariant
            1 <= i <= terms@.len(),
            vs == Seq::new(terms@.len(), |k: int| terms@[k].bv()),
            forall|k: int| 0 <= k < terms@.len() ==> terms@[k] is Bv,
            forall|k: int| 0 <= k < terms@.len() ==> (#[trigger] terms@[k].bv()).len()
                == terms@[0].bv().len(),
            res@ == spec_ands(vs.subrange(0, i as int)),
            res@.len() == terms@[0].bv().len(),
        decreases terms@.len() - i,
    {
        let y = bv_arg(terms, i);
        res = res.and(y);
        proof {
            let pre = vs.subrange(0, i + 1);
            assert(pre.drop_last() =~= vs.subrange(0, i as int));
            assert(pre.last() == vs[i as int]);
        }
        i += 1;
    }
    proof {
        assert(vs.subrange(0, terms@.len() as int) =~= vs);
    }
    Value::Bv(res)
}

/// Elementwise disjunction.
pub open spec fn spec_or(x: Seq<Lbool>, y: Seq<Lbool>) -> Seq<Lbool> {
    Seq::new(x.len(), |i: int| lb_or(x[i], y[i]))
}

pub fn or_simulate(terms: &[Value]) -> (r: Value)
    requires
        terms@.len() == 2,
        terms@[0] is Bv,
        terms@[1] is Bv,
        terms@[0].bv().len() == terms@[1].bv().len(),
    ensures
        r is Bv,
        r.bv() == spec_or(terms@[0].bv(), terms@[1].bv()),
{
    let x = bv_arg(terms, 0);
    let y = bv_arg(terms, 1);
    Value::Bv(x.or(y))
}

/// Left fold of elementwise disjunction over one or more operands.
pub open spec fn spec_ors(vs: Seq<Seq<Lbool>>) -> Seq<Lbool>
    decreases vs.len(),
{
    if vs.len() <= 1 {
        vs[0]
    } else {
        spec_or(spec_ors(vs.drop_last()), vs.last())
    }
}

pub fn ors_simulate(terms: &[Value]) -> (r: Value)
    requires
        terms@.len() >= 1,
        forall|i: int| 0 <= i < terms@.len() ==> terms@[i] is Bv,
        forall|i: int|
            0 <= i < terms@.len() ==> (#[trigger] terms@[i].bv()).len() == terms@[0].bv().len(),
    ensures
        r is Bv,
        r.bv() == spec_ors(Seq::new(terms@.len(), |i: int| terms@[i].bv())),
{
    let ghost vs = Seq::new(terms@.len(), |i: int| terms@[i].bv());
    let mut res = bv_arg(terms, 0).clone();
    let mut i: usize = 1;
    proof {
        assert(vs.subrange(0, 1) =~= seq![vs[0]]);
    }
    while i < terms.len()
        invariant
            1 <= i <= terms@.len(),
            vs == Seq::new(terms@.len(), |k: int| terms@[k].bv()),
            forall|k: int| 0 <= k < terms@.len() ==> terms@[k] is Bv,
            forall|k: int| 0 <= k < terms@.len() ==> (#[trigger] terms@[k].bv()).len()
                == terms@[0].bv().len(),
            res@ == spec_ors(vs.subrange(0, i as int)),
            res@.len() == terms@[0].bv().len(),
        decreases terms@.len() - i,
    {
        let y = bv_arg(terms, i);
        res = res.or(y);
        proof {
            let pre = vs.subrange(0, i + 1);
            assert(pre.drop_last() =~= vs.subrange(0, i as int));
            assert(pre.last() == vs[i as int]);
        }
        i += 1;
    }
    proof {
        assert(vs.subrange(0, terms@.len() as int) =~= vs);
    }
    Value::Bv(res)
}

/// Elementwise exclusive or.
pub open spec fn spec_xor(x: Seq<Lbool>, y: Seq<Lbool>) -> Seq<Lbool> {
    Seq::new(x.len(), |i: int| lb_xor(x[i], y[i]))
}

pub fn xor_simulate(terms: &[Value]) -> (r: Value)
    requires
        terms@.len() == 2,
        terms@[0] is Bv,
        terms@[1] is Bv,
        terms@[0].bv().len() == terms@[1].bv().len(),
    ensures
        r is Bv,
        r.bv() == spec_xor(terms@[0].bv(), terms@[1].bv()),
{
    let x = bv_arg(terms, 0);
    let y = bv_arg(terms, 1);
    Value::Bv(x.xor(y))
}

/// Whole-vector equality, three-valued: definitely false as soon as some
/// position is known on both sides and differs, otherwise unknown if any
/// position is uncertain, otherwise true.
pub open spec fn spec_eq3(x: Seq<Lbool>, y: Seq<Lbool>) -> Seq<Lbool> {
    let one = if exists|i: int| 0 <= i < x.len() && lb_xor(x[i], y[i]) is True {
        Lbool::False
    } else if exists|i: int| 0 <= i < x.len() && lb_xor(x[i], y[i]) is Unknown {
        Lbool::Unknown
    } else {
        Lbool::True
    };
    seq![one]
}

pub fn eq_simulate(terms: &[Value]) -> (r: Value)
    requires
        terms@.len() == 2,
        terms@[0] is Bv,
        terms@[1] is Bv,
        terms@[0].bv().len() == terms@[1].bv().len(),
    ensures
        r is Bv,
        r.bv() == spec_eq3(terms@[0].bv(), terms@[1].bv()),
{
    let x = bv_arg(terms, 0);
    let y = bv_arg(terms, 1);
    let n = x.len();
    let mut res = Lbool::True;
    let mut i: usize = 0;
    while i < n
        invariant
            n == x@.len(),
            x@.len() == y@.len(),
            i <= n,
            forall|j: int| 0 <= j < i ==> !(lb_xor(x@[j], y@[j]) is True),
            res == if exists|j: int| 0 <= j < i && lb_xor(x@[j], y@[j]) is Unknown {
                Lbool::Unknown
            } else {
                Lbool::True
            },
        decreases n - i,
    {
        let bit = x.get(i).xor(y.get(i));
        if bit.is_none() {
            res = Lbool::Unknown;
        } else if bit.is_true() {
            let r = Value::Bv(LboolVec::from_elem(Lbool::False, 1));
            proof {
                assert(lb_xor(x@[i as int], y@[i as int]) is True);
                assert(r.bv() =~= spec_eq3(x@, y@));
            }
            return r;
        }
        i += 1;
    }
    let r = Value::Bv(LboolVec::from_elem(res, 1));
    proof {
        assert(r.bv() =~= spec_eq3(x@, y@));
    }
    r
}

/// Unsigned less-than, three-valued: scanning from the most significant bit
/// down, the first position that is unknown or differs decides.
pub open spec fn spec_ult_bit(x: Seq<Lbool>, y: Seq<Lbool>, n: int) -> Lbool
    decreases n,
{
    if n <= 0 {
        Lbool::False
    } else if x[n - 1] is Unknown || y[n - 1] is Unknown {
        Lbool::Unknown
    } else if x[n - 1] is False && y[n - 1] is True {
        Lbool::True
    } else if x[n - 1] is True && y[n - 1] is False {
        Lbool::False
    } else {
        spec_ult_bit(x, y, n - 1)
    }
}

pub open spec fn spec_ult(x: Seq<Lbool>, y: Seq<Lbool>) -> Seq<Lbool> {
    seq![spec_ult_bit(x, y, x.len() as int)]
}

pub fn ult_simulate(terms: &[Value]) -> (r: Value)
    requires
        terms@.len() == 2,
        terms@[0] is Bv,
        terms@[1] is Bv,
        terms@[0].bv().len() == terms@[1].bv().len(),
    ensures
        r is Bv,
        r.bv() == spec_ult(terms@[0].bv(), terms@[1].bv()),
{
    let x = bv_arg(terms, 0);
    let y = bv_arg(terms, 1);
    let n = x.len();
    let mut res = Lbool::False;
    let mut i: usize = 0;
    while i < n
        invariant
            n == x@.len(),
            x@.len() == y@.len(),
            i <= n,
            res == spec_ult_bit(x@, y@, i as int),
        decreases n - i,
    {
        let xb = x.get(i);
        let yb = y.get(i);
        if xb.is_none() || yb.is_none() {
            res = Lbool::Unknown;
        } else if !xb.is_true() && yb.is_true() {
            res = Lbool::True;
        } else if xb.is_true() && !yb.is_true() {
            res = Lbool::False;
        }
        i += 1;
    }
    Value::Bv(LboolVec::from_elem(res, 1))
}

/// Signed less-than, three-valued: differing sign bits decide immediately;
/// equal known signs compare the remaining bits as `spec_ult_bit` does.
pub open spec fn spec_slt(x: Seq<Lbool>, y: Seq<Lbool>) -> Seq<Lbool> {
    let w = x.len() as int;
    let xs = x[w - 1];
    let ys = y[w - 1];
    let one = if xs is Unknown || ys is Unknown {
        Lbool::Unknown
    } else if xs is True && ys is False {
        Lbool::True
    } else if xs is False && ys is True {
        Lbool::False
    } else {
        spec_ult_bit(x, y, w - 1)
    };
    seq![one]
}

pub fn slt_simulate(terms: &[Value]) -> (r: Value)
    requires
        terms@.len() == 2,
        terms@[0] is Bv,
        terms@[1] is Bv,
        terms@[0].bv().len() == terms@[1].bv().len(),
        terms@[0].bv().len() >= 1,
    ensures
        r is Bv,
        r.bv() == spec_slt(terms@[0].bv(), terms@[1].bv()),
{
    let x = bv_arg(terms, 0);
    let y = bv_arg(terms, 1);
    let n = x.len();
    let xs = x.get(n - 1);
    let ys = y.get(n - 1);
    if xs.is_none() || ys.is_none() {
        return Value::Bv(LboolVec::from_elem(Lbool::Unknown, 1));
    }
    if xs.is_true() && !ys.is_true() {
        return Value::Bv(LboolVec::from_elem(Lbool::True, 1));
    }
    if !xs.is_true() && ys.is_true() {
        return Value::Bv(LboolVec::from_elem(Lbool::False, 1));
    }
    let mut res = Lbool::False;
    let mut i: usize = 0;
    while i < n - 1
        invariant
            n == x@.len(),
            x@.len() == y@.len(),
            n >= 1,
            i <= n - 1,
            res == spec_ult_bit(x@, y@, i as int),
        decreases n - 1 - i,
    {
        let xb = x.get(i);
        let yb = y.get(i);
        if xb.is_none() || yb.is_none() {
            res = Lbool::Unknown;
        } else if !xb.is_true() && yb.is_true() {
            res = Lbool::True;
        } else if xb.is_true() && !yb.is_true() {
            res = Lbool::False;
        }
        i += 1;
    }
    Value::Bv(LboolVec::from_elem(res, 1))
}

/// High operand in the high bits, low operand in the low bits.
pub open spec fn spec_concat(x: Seq<Lbool>, y: Seq<Lbool>) -> Seq<Lbool> {
    y + x
}

pub fn concat_simulate(terms: &[Value]) -> (r: Value)
    requires
        terms@.len() == 2,
        terms@[0] is Bv,
        terms@[1] is Bv,
    ensures
        r is Bv,
        r.bv() == spec_concat(terms@[0].bv(), terms@[1].bv()),
{
    let x = bv_arg(terms, 0);
    let y = bv_arg(terms, 1);
    let mut res = y.clone();
    let mut i: usize = 0;
    while i < x.len()
        invariant
            i <= x@.len(),
            res@ =~= y@ + x@.subrange(0, i as int),
        decreases x@.len() - i,
    {
        res.push(x.get(i));
        proof {
            assert(y@ + x@.subrange(0, i as int) + seq![x@[i as int]] =~= y@ + x@.subrange(
                0,
                i + 1,
            ));
        }
        i += 1;
    }
    proof {
        assert(x@.subrange(0, x@.len() as int) =~= x@);
    }
    Value::Bv(res)
}

/// Sign extension: the second operand only contributes its width.
pub open spec fn spec_sext(x: Seq<Lbool>, ext: nat) -> Seq<Lbool> {
    x + Seq::new(ext, |i: int| x[x.len() - 1])
}

pub fn sext_simulate(terms: &[Value]) -> (r: Value)
    requires
        terms@.len() == 2,
        terms@[0] is Bv,
        terms@[1] is Bv,
        terms@[0].bv().len() >= 1,
    ensures
        r is Bv,
        r.bv() == spec_sext(terms@[0].bv(), terms@[1].bv().len()),
{
    let x = bv_arg(terms, 0);
    let ext = bv_arg(terms, 1);
    let sign = x.get(x.len() - 1);
    let mut res = x.clone();
    let mut i: usize = 0;
    while i < ext.len()
        invariant
            i <= ext@.len(),
            x@.len() >= 1,
            sign == x@[x@.len() - 1],
            res@ =~= x@ + Seq::new(i as nat, |j: int| x@[x@.len() - 1]),
        decreases ext@.len() - i,
    {
        res.push(sign);
        proof {
            assert(x@ + Seq::new(i as nat, |j: int| x@[x@.len() - 1]) + seq![x@[x@.len() - 1]]
                =~= x@ + Seq::new((i + 1) as nat, |j: int| x@[x@.len() - 1]));
        }
        i += 1;
    }
    Value::Bv(res)
}

/// Extract bits `l ..= h`; the two marker operands carry the bounds as their
/// widths.
pub open spec fn spec_slice(s: Seq<Lbool>, h: nat, l: nat) -> Seq<Lbool> {
    s.subrange(l as int, h as int + 1)
}

pub fn slice_simulate(terms: &[Value]) -> (r: Value)
    requires
        terms@.len() == 3,
        terms@[0] is Bv,
        terms@[1] is Bv,
        terms@[2] is Bv,
        terms@[2].bv().len() <= terms@[1].bv().len(),
        terms@[1].bv().len() < terms@[0].bv().len(),
    ensures
        r is Bv,
        r.bv() == spec_slice(terms@[0].bv(), terms@[1].bv().len(), terms@[2].bv().len()),
{
    let s = bv_arg(terms, 0);
    let slen = s.len();
    let h = bv_arg(terms, 1).len();
    let l = bv_arg(terms, 2).len();
    let mut res = LboolVec::new();
    let mut i: usize = l;
    while i <= h
        invariant
            l <= i <= h + 1,
            h < slen,
            slen == s@.len(),
            res@ =~= s@.subrange(l as int, i as int),
        decreases h + 1 - i,
    {
        res.push(s.get(i));
        proof {
            assert(s@.subrange(l as int, i as int) + seq![s@[i as int]] =~= s@.subrange(
                l as int,
                i + 1,
            ));
        }
        i += 1;
    }
    Value::Bv(res)
}

/// Exclusive-or reduction over all bits.
pub open spec fn spec_redxor_bit(x: Seq<Lbool>, n: int) -> Lbool
    decreases n,
{
    if n <= 0 {
        Lbool::False
    } else {
        lb_xor(spec_redxor_bit(x, n - 1), x[n - 1])
    }
}

pub open spec fn spec_redxor(x: Seq<Lbool>) -> Seq<Lbool> {
    seq![spec_redxor_bit(x, x.len() as int)]
}

pub fn redxor_simulate(terms: &[Value]) -> (r: Value)
    requires
        terms@.len() == 1,
        terms@[0] is Bv,
    ensures
        r is Bv,
        r.bv() == spec_redxor(terms@[0].bv()),
{
    let x = bv_arg(terms, 0);
    let n = x.len();
    let mut res = Lbool::False;
    let mut i: usize = 0;
    while i < n
        invariant
            n == x@.len(),
            i <= n,
            res == spec_redxor_bit(x@, i as int),
        decreases n - i,
    {
        res = res.xor(x.get(i));
        i += 1;
    }
    Value::Bv(LboolVec::from_elem(res, 1))
}

/// Conditional select: a known condition picks a branch; an unknown
/// condition keeps only the positions where both branches agree and are
/// known.
pub open spec fn spec_ite(c: Seq<Lbool>, t: Seq<Lbool>, e: Seq<Lbool>) -> Seq<Lbool> {
    if c[0] is Unknown {
        Seq::new(
            t.len(),
            |i: int|
                if !(t[i] is Unknown) && t[i] == e[i] {
                    t[i]
                } else {
                    Lbool::Unknown
                },
        )
    } else if c[0] is True {
        t
    } else {
        e
    }
}

pub fn ite_simulate(terms: &[Value]) -> (r: Value)
    requires
        terms@.len() == 3,
        terms@[0] is Bv,
        terms@[1] is Bv,
        terms@[2] is Bv,
        terms@[0].bv().len() == 1,
        terms@[1].bv().len() == terms@[2].bv().len(),
    ensures
        r is Bv,
        r.bv() == spec_ite(terms@[0].bv(), terms@[1].bv(), terms@[2].bv()),
{
    let c = bv_arg(terms, 0);
    let t = bv_arg(terms, 1);
    let e = bv_arg(terms, 2);
    let cond = c.get(0);
    if cond.is_none() {
        let n = t.len();
        let mut res = LboolVec::new();
        let mut i: usize = 0;
        while i < n
            invariant
                n == t@.len(),
                t@.len() == e@.len(),
                i <= n,
                res@.len() == i,
                forall|j: int|
                    0 <= j < i ==> res@[j] == if !(t@[j] is Unknown) && t@[j] == e@[j] {
                        t@[j]
                    } else {
                        Lbool::Unknown
                    },
            decreases n - i,
        {
            let tb = t.get(i);
            let eb = e.get(i);
            if !tb.is_none() && !eb.is_none() && tb.is_true() == eb.is_true() {
                res.push(tb);
            } else {
                res.push(Lbool::Unknown);
            }
            i += 1;
        }
        proof {
            assert(res@ =~= spec_ite(c@, t@, e@));
        }
        Value::Bv(res)
    } else if cond.is_true() {
        Value::Bv(t.clone())
    } else {
        Value::Bv(e.clone())
    }
}

/// Logical shift left by a known amount: zero-fill from below; amounts of at
/// least the width clear the vector; any unknown amount bit makes the whole
/// result unknown.
pub open spec fn spec_sll(x: Seq<Lbool>, y: Seq<Lbool>) -> Seq<Lbool> {
    let w = x.len();
    if !all_known(y) {
        all_x(w)
    } else if lbv_nat(y) >= w {
        Seq::new(w, |i: int| Lbool::False)
    } else {
        Seq::new(
            w,
            |i: int|
                if i < lbv_nat(y) {
                    Lbool::False
                } else {
                    x[i - lbv_nat(y)]
                },
        )
    }
}

pub fn sll_simulate(terms: &[Value]) -> (r: Value)
    requires
        terms@.len() == 2,
        terms@[0] is Bv,
        terms@[1] is Bv,
        terms@[0].bv().len() == terms@[1].bv().len(),
        terms@[1].bv().len() <= 128,
    ensures
        r is Bv,
        r.bv() == spec_sll(terms@[0].bv(), terms@[1].bv()),
{
    let x = bv_arg(terms, 0);
    let y = bv_arg(terms, 1);
    let w = x.len();
    match lbv_known_value(y) {
        None => {
            let res = LboolVec::from_elem(Lbool::Unknown, w);
            proof {
                assert(res@ =~= spec_sll(x@, y@));
            }
            Value::Bv(res)
        },
        Some(s) => {
            if s >= w as u128 {
                let res = LboolVec::from_elem(Lbool::False, w);
                proof {
                    assert(res@ =~= spec_sll(x@, y@));
                }
                Value::Bv(res)
            } else {
                let sh = s as usize;
                let mut res = LboolVec::from_elem(Lbool::False, w);
                let mut i: usize = sh;
                while i < w
                    invariant
                        sh <= i <= w,
                        res@.len() == w,
                        forall|j: int| 0 <= j < sh ==> res@[j] == Lbool::False,
                        forall|j: int| sh <= j < i ==> res@[j] == x@[j - sh],
                        forall|j: int| i <= j < w ==> res@[j] == Lbool::False,
                    decreases w - i,
                {
                    res.set(i, x.get(i - sh));
                    i += 1;
                }
                proof {
                    assert(res@ =~= spec_sll(x@, y@));
                }
                Value::Bv(res)
            }
        },
    }
}

/// Logical shift right by a known amount: zero-fill from above.
pub open spec fn spec_srl(x: Seq<Lbool>, y: Seq<Lbool>) -> Seq<Lbool> {
    let w = x.len();
    if !all_known(y) {
        all_x(w)
    } else if lbv_nat(y) >= w {
        Seq::new(w, |i: int| Lbool::False)
    } else {
        Seq::new(
            w,
            |i: int|
                if i < w - lbv_nat(y) {
                    x[i + lbv_nat(y)]
                } else {
                    Lbool::False
                },
        )
    }
}

pub fn srl_simulate(terms: &[Value]) -> (r: Value)
    requires
        terms@.len() == 2,
        terms@[0] is Bv,
        terms@[1] is Bv,
        terms@[0].bv().len() == terms@[1].bv().len(),
        terms@[1].bv().len() <= 128,
    ensures
        r is Bv,
        r.bv() == spec_srl(terms@[0].bv(), terms@[1].bv()),
{
    let x = bv_arg(terms, 0);
    let y = bv_arg(terms, 1);
    let w = x.len();
    match lbv_known_value(y) {
        None => {
            let res = LboolVec::from_elem(Lbool::Unknown, w);
            proof {
                assert(res@ =~= spec_srl(x@, y@));
            }
            Value::Bv(res)
        },
        Some(s) => {
            if s >= w as u128 {
                let res = LboolVec::from_elem(Lbool::False, w);
                proof {
                    assert(res@ =~= spec_srl(x@, y@));
                }
                Value::Bv(res)
            } else {
                let sh = s as usize;
                let mut res = LboolVec::from_elem(Lbool::False, w);
                let mut i: usize = 0;
                while i < w - sh
                    invariant
                        sh < w,
                        i <= w - sh,
                        res@.len() == w,
                        forall|j: int| 0 <= j < i ==> res@[j] == x@[j + sh],
                        forall|j: int| i <= j < w ==> res@[j] == Lbool::False,
                    decreases w - sh - i,
                {
                    res.set(i, x.get(i + sh));
                    i += 1;
                }
                proof {
                    assert(res@ =~= spec_srl(x@, y@));
                }
                Value::Bv(res)
            }
        },
    }
}

/// Arithmetic shift right by a known amount: the sign bit fills from above,
/// and amounts of at least the width give a vector of sign bits.
pub open spec fn spec_sra(x: Seq<Lbool>, y: Seq<Lbool>) -> Seq<Lbool> {
    let w = x.len();
    let sign = x[w - 1];
    if !all_known(y) {
        all_x(w)
    } else if lbv_nat(y) >= w {
        Seq::new(w, |i: int| sign)
    } else {
        Seq::new(
            w,
            |i: int|
                if i < w - lbv_nat(y) {
                    x[i + lbv_nat(y)]
                } else {
                    sign
                },
        )
    }
}

pub fn sra_simulate(terms: &[Value]) -> (r: Value)
    requires
        terms@.len() == 2,
        terms@[0] is Bv,
        terms@[1] is Bv,
        terms@[0].bv().len() == terms@[1].bv().len(),
        terms@[1].bv().len() <= 128,
        terms@[0].bv().len() >= 1,
    ensures
        r is Bv,
        r.bv() == spec_sra(terms@[0].bv(), terms@[1].bv()),
{
    let x = bv_arg(terms, 0);
    let y = bv_arg(terms, 1);
    let w = x.len();
    let sign = x.get(w - 1);
    match lbv_known_value(y) {
        None => {
            let res = LboolVec::from_elem(Lbool::Unknown, w);
            proof {
                assert(res@ =~= spec_sra(x@, y@));
            }
            Value::Bv(res)
        },
        Some(s) => {
            if s >= w as u128 {
                let res = LboolVec::from_elem(sign, w);
                proof {
                    assert(res@ =~= spec_sra(x@, y@));
                }
                Value::Bv(res)
            } else {
                let sh = s as usize;
                let mut res = LboolVec::from_elem(sign, w);
                let mut i: usize = 0;
                while i < w - sh
                    invariant
                        sh < w,
                        i <= w - sh,
                        res@.len() == w,
                        forall|j: int| 0 <= j < i ==> res@[j] == x@[j + sh],
                        forall|j: int| i <= j < w ==> res@[j] == sign,
                    decreases w - sh - i,
                {
                    res.set(i, x.get(i + sh));
                    i += 1;
                }
                proof {
                    assert(res@ =~= spec_sra(x@, y@));
                }
                Value::Bv(res)
            }
        },
    }
}

/// Rotate left by a known amount, modulo the width; width 1 is the identity
/// whatever the amount.
pub open spec fn spec_rol(x: Seq<Lbool>, y: Seq<Lbool>) -> Seq<Lbool> {
    let w = x.len() as int;
    if w == 1 {
        x
    } else if !all_known(y) {
        all_x(x.len())
    } else {
        Seq::new(x.len(), |i: int| x[(i - lbv_nat(y) % x.len()) % w])
    }
}

/// Rotate right by a known amount, modulo the width; width 1 is the identity
/// whatever the amount.
pub open spec fn spec_ror(x: Seq<Lbool>, y: Seq<Lbool>) -> Seq<Lbool> {
    let w = x.len() as int;
    if w == 1 {
        x
    } else if !all_known(y) {
        all_x(x.len())
    } else {
        Seq::new(x.len(), |i: int| x[(i + lbv_nat(y) % x.len()) % w])
    }
}

/// A wrapped difference of indices below `w` equals the Euclidean remainder.
proof fn lemma_wrap_index(j: int, r: int, w: int)
    requires
        0 <= j < w,
        0 <= r < w,
    ensures
        (j - r) % w == if j >= r {
            j - r
        } else {
            j - r + w
        },
{
    if j >= r {
        vstd::arithmetic::div_mod::lemma_small_mod((j - r) as nat, w as nat);
    } else {
        vstd::arithmetic::div_mod::lemma_mod_add_multiples_vanish(j - r, w);
        vstd::arithmetic::div_mod::lemma_small_mod((j - r + w) as nat, w as nat);
    }
}

pub fn rol_simulate(terms: &[Value]) -> (r: Value)
    requires
        terms@.len() == 2,
        terms@[0] is Bv,
        terms@[1] is Bv,
        terms@[0].bv().len() == terms@[1].bv().len(),
        terms@[1].bv().len() <= 128,
        terms@[0].bv().len() >= 1,
    ensures
        r is Bv,
        r.bv() == spec_rol(terms@[0].bv(), terms@[1].bv()),
{
    let x = bv_arg(terms, 0);
    let y = bv_arg(terms, 1);
    let w = x.len();
    if w == 1 {
        return Value::Bv(x.clone());
    }
    match lbv_known_value(y) {
        None => {
            let res = LboolVec::from_elem(Lbool::Unknown, w);
            proof {
                assert(res@ =~= spec_rol(x@, y@));
            }
            Value::Bv(res)
        },
        Some(s) => {
            let rot = (s % w as u128) as usize;
            let mut res = LboolVec::new();
            let mut j: usize = 0;
            while j < w
                invariant
                    w == x@.len(),
                    w >= 2,
                    rot == lbv_nat(y@) % w as nat,
                    rot < w,
                    j <= w,
                    res@.len() == j,
                    forall|k: int| 0 <= k < j ==> res@[k] == x@[(k - rot) % w as int],
                decreases w - j,
            {
                let src = if j >= rot {
                    j - rot
                } else {
                    j + w - rot
                };
                proof {
                    lemma_wrap_index(j as int, rot as int, w as int);
                }
                res.push(x.get(src));
                j += 1;
            }
            proof {
                assert(res@ =~= spec_rol(x@, y@));
            }
            Value::Bv(res)
        },
    }
}

pub fn ror_simulate(terms: &[Value]) -> (r: Value)
    requires
        terms@.len() == 2,
        terms@[0] is Bv,
        terms@[1] is Bv,
        terms@[0].bv().len() == terms@[1].bv().len(),
        terms@[1].bv().len() <= 128,
        terms@[0].bv().len() >= 1,
    ensures
        r is Bv,
        r.bv() == spec_ror(terms@[0].bv(), terms@[1].bv()),
{
    let x = bv_arg(terms, 0);
    let y = bv_arg(terms, 1);
    let w = x.len();
    if w == 1 {
        return Value::Bv(x.clone());
    }
    match lbv_known_value(y) {
        None => {
            let res = LboolVec::from_elem(Lbool::Unknown, w);
            proof {
                assert(res@ =~= spec_ror(x@, y@));
            }
            Value::Bv(res)
        },
        Some(s) => {
            let rot = (s % w as u128) as usize;
            let mut res = LboolVec::new();
            let mut j: usize = 0;
            while j < w
                invariant
                    w == x@.len(),
                    w >= 2,
                    rot == lbv_nat(y@) % w as nat,
                    rot < w,
                    j <= w,
                    res@.len() == j,
                    forall|k: int| 0 <= k < j ==> res@[k] == x@[(k + rot) % w as int],
                decreases w - j,
            {
                let src = if j + rot < w {
                    j + rot
                } else {
                    j + rot - w
                };
                proof {
                    if j + rot < w {
                        vstd::arithmetic::div_mod::lemma_small_mod((j + rot) as nat, w as nat);
                    } else {
                        vstd::arithmetic::div_mod::lemma_mod_sub_multiples_vanish(
                            j as int + rot as int,
                            w as int,
                        );
                        vstd::arithmetic::div_mod::lemma_small_mod(
                            (j + rot - w) as nat,
                            w as nat,
                        );
                    }
                }
                res.push(x.get(src));
                j += 1;
            }
            proof {
                assert(res@ =~= spec_ror(x@, y@));
            }
            Value::Bv(res)
        },
    }
}

/// One full adder over three-valued bits.
pub open spec fn fa_sum(x: Lbool, y: Lbool, c: Lbool) -> Lbool {
    lb_xor(lb_xor(x, y), c)
}

pub open spec fn fa_carry(x: Lbool, y: Lbool, c: Lbool) -> Lbool {
    lb_or(lb_or(lb_and(x, y), lb_and(x, c)), lb_and(y, c))
}

/// The carry into bit `i` of a ripple chain started with carry `c0`.
pub open spec fn spec_carry(x: Seq<Lbool>, y: Seq<Lbool>, c0: Lbool, i: int) -> Lbool
    decreases i,
{
    if i <= 0 {
        c0
    } else {
        fa_carry(x[i - 1], y[i - 1], spec_carry(x, y, c0, i - 1))
    }
}

/// A ripple-carry chain over three-valued bits.
pub open spec fn spec_ripple(x: Seq<Lbool>, y: Seq<Lbool>, c0: Lbool) -> Seq<Lbool> {
    Seq::new(x.len(), |i: int| fa_sum(x[i], y[i], spec_carry(x, y, c0, i)))
}

/// Addition is the ripple chain with initial carry `false`.
pub open spec fn spec_add3(x: Seq<Lbool>, y: Seq<Lbool>) -> Seq<Lbool> {
    spec_ripple(x, y, Lbool::False)
}

/// Subtraction is addition of the complement with initial carry `true`.
pub open spec fn spec_sub3(x: Seq<Lbool>, y: Seq<Lbool>) -> Seq<Lbool> {
    spec_ripple(x, spec_not(y), Lbool::True)
}

fn full_adder_sim(x: Lbool, y: Lbool, c: Lbool) -> (r: (Lbool, Lbool))
    ensures
        r.0 == fa_sum(x, y, c),
        r.1 == fa_carry(x, y, c),
{
    let s = x.xor(y).xor(c);
    let co = x.and(y).or(x.and(c)).or(y.and(c));
    (s, co)
}

pub fn add_simulate(terms: &[Value]) -> (r: Value)
    requires
        terms@.len() == 2,
        terms@[0] is Bv,
        terms@[1] is Bv,
        terms@[0].bv().len() == terms@[1].bv().len(),
    ensures
        r is Bv,
        r.bv() == spec_add3(terms@[0].bv(), terms@[1].bv()),
{
    let x = bv_arg(terms, 0);
    let y = bv_arg(terms, 1);
    let w = x.len();
    let mut res = LboolVec::new();
    let mut c = Lbool::False;
    let mut i: usize = 0;
    while i < w
        invariant
            i <= w,
            res@.len() == i,
            c == spec_carry(x@, y@, Lbool::False, i as int),
            forall|j: int| 0 <= j < i ==> res@[j] == fa_sum(x@[j], y@[j], spec_carry(x@, y@, Lbool::False, j)),
        decreases w - i,
    {
        let (s, nc) = full_adder_sim(x.get(i), y.get(i), c);
        res.push(s);
        c = nc;
        i += 1;
    }
    proof {
        assert(res@ =~= spec_add3(x@, y@));
    }
    Value::Bv(res)
}

pub fn sub_simulate(terms: &[Value]) -> (r: Value)
    requires
        terms@.len() == 2,
        terms@[0] is Bv,
        terms@[1] is Bv,
        terms@[0].bv().len() == terms@[1].bv().len(),
    ensures
        r is Bv,
        r.bv() == spec_sub3(terms@[0].bv(), terms@[1].bv()),
{
    let x = bv_arg(terms, 0);
    let y = bv_arg(terms, 1);
    let w = x.len();
    let mut res = LboolVec::new();
    let mut c = Lbool::True;
    let mut i: usize = 0;
    while i < w
        invariant
            i <= w,
            res@.len() == i,
            c == spec_carry(x@, spec_not(y@), Lbool::True, i as int),
            forall|j: int| 0 <= j < i ==> res@[j] == fa_sum(
                x@[j],
                spec_not(y@)[j],
                spec_carry(x@, spec_not(y@), Lbool::True, j),
            ),
        decreases w - i,
    {
        let (s, nc) = full_adder_sim(x.get(i), y.get(i).not(), c);
        res.push(s);
        c = nc;
        i += 1;
    }
    proof {
        assert(res@ =~= spec_sub3(x@, y@));
    }
    Value::Bv(res)
}

/// The borrow-style carry of two's-complement negation: `true` while every
/// bit below is zero.
pub open spec fn spec_neg_carry(x: Seq<Lbool>, i: int) -> Lbool
    decreases i,
{
    if i <= 1 {
        lb_not(x[0])
    } else {
        lb_and(spec_neg_carry(x, i - 1), lb_not(x[i - 1]))
    }
}

/// Two's-complement negation, computed bitwise as `!x + 1` rippled.
pub open spec fn spec_neg(x: Seq<Lbool>) -> Seq<Lbool> {
    Seq::new(
        x.len(),
        |i: int|
            if i == 0 {
                x[0]
            } else {
                lb_or(
                    lb_and(spec_neg_carry(x, i), x[i]),
                    lb_and(lb_not(spec_neg_carry(x, i)), lb_not(x[i])),
                )
            },
    )
}

pub fn neg_simulate(terms: &[Value]) -> (r: Value)
    requires
        terms@.len() == 1,
        terms@[0] is Bv,
        terms@[0].bv().len() >= 1,
    ensures
        r is Bv,
        r.bv() == spec_neg(terms@[0].bv()),
{
    let x = bv_arg(terms, 0);
    let w = x.len();
    let mut res = LboolVec::new();
    res.push(x.get(0));
    let mut c = x.get(0).not();
    let mut i: usize = 1;
    while i < w
        invariant
            1 <= i <= w,
            w == x@.len(),
            res@.len() == i,
            c == spec_neg_carry(x@, i as int),
            res@[0] == x@[0],
            forall|j: int| 1 <= j < i ==> res@[j] == spec_neg(x@)[j],
        decreases w - i,
    {
        let xi = x.get(i);
        res.push(c.and(xi).or(c.not().and(xi.not())));
        c = c.and(xi.not());
        i += 1;
    }
    proof {
        assert(res@ =~= spec_neg(x@));
    }
    Value::Bv(res)
}

/// The carry chain of adding the partial product `yi & x`, shifted up by
/// `i`, into the accumulator window `[i, len)`.
pub open spec fn row_carry(acc: Seq<Lbool>, x: Seq<Lbool>, yi: Lbool, i: int, j: int) -> Lbool
    decreases j,
{
    if j <= i || j <= 0 {
        Lbool::False
    } else {
        fa_carry(acc[j - 1], lb_and(yi, x[j - 1 - i]), row_carry(acc, x, yi, i, j - 1))
    }
}

/// One shift-and-add row of the schoolbook multiplier: positions below `i`
/// are kept, the rest ripple-add the shifted partial product; the final
/// carry is discarded (fixed-width wraparound).
pub open spec fn spec_mul_row(acc: Seq<Lbool>, x: Seq<Lbool>, yi: Lbool, i: int) -> Seq<Lbool> {
    Seq::new(
        acc.len(),
        |j: int|
            if j < i {
                acc[j]
            } else {
                fa_sum(acc[j], lb_and(yi, x[j - i]), row_carry(acc, x, yi, i, j))
            },
    )
}

/// The accumulator after the first `i` rows; row 0 is `x & y[0]` pointwise.
pub open spec fn spec_mul_acc(x: Seq<Lbool>, y: Seq<Lbool>, i: int) -> Seq<Lbool>
    decreases i,
{
    if i <= 1 {
        Seq::new(x.len(), |j: int| lb_and(x[j], y[0]))
    } else {
        spec_mul_row(spec_mul_acc(x, y, i - 1), x, y[i - 1], i - 1)
    }
}

/// Schoolbook multiplication truncated to the operand width.
pub open spec fn spec_mul(x: Seq<Lbool>, y: Seq<Lbool>) -> Seq<Lbool> {
    spec_mul_acc(x, y, x.len() as int)
}

pub fn mul_simulate(terms: &[Value]) -> (r: Value)
    requires
        terms@.len() == 2,
        terms@[0] is Bv,
        terms@[1] is Bv,
        terms@[0].bv().len() == terms@[1].bv().len(),
        terms@[0].bv().len() >= 1,
    ensures
        r is Bv,
        r.bv() == spec_mul(terms@[0].bv(), terms@[1].bv()),
{
    let x = bv_arg(terms, 0);
    let y = bv_arg(terms, 1);
    let w = x.len();
    let y0 = y.get(0);
    let mut res = LboolVec::new();
    let mut j: usize = 0;
    while j < w
        invariant
            j <= w,
            res@.len() == j,
            forall|k: int| 0 <= k < j ==> res@[k] == lb_and(x@[k], y@[0]),
        decreases w - j,
    {
        res.push(x.get(j).and(y0));
        j += 1;
    }
    proof {
        assert(res@ =~= spec_mul_acc(x@, y@, 1));
    }
    let mut i: usize = 1;
    while i < w
        invariant
            1 <= i <= w,
            res@.len() == w,
            res@ == spec_mul_acc(x@, y@, i as int),
        decreases w - i,
    {
        let ghost acc0 = res@;
        let yi = y.get(i);
        let mut c = Lbool::False;
        let mut j: usize = i;
        while j < w
            invariant
                i <= j <= w,
                res@.len() == w,
                acc0.len() == w,
                yi == y@[i as int],
                c == row_carry(acc0, x@, yi, i as int, j as int),
                forall|k: int| i <= k < j ==> res@[k] == spec_mul_row(acc0, x@, yi, i as int)[k],
                forall|k: int| 0 <= k < w && (k < i || j <= k) ==> res@[k] == acc0[k],
            decreases w - j,
        {
            let add = yi.and(x.get(j - i));
            let (s, nc) = full_adder_sim(res.get(j), add, c);
            res.set(j, s);
            c = nc;
            j += 1;
        }
        proof {
            assert(res@ =~= spec_mul_row(acc0, x@, yi, i as int));
            assert(res@ == spec_mul_acc(x@, y@, i + 1));
        }
        i += 1;
    }
    Value::Bv(res)
}

/// Unsigned division: both operands fully known and a nonzero divisor give
/// the exact quotient bits; anything else gives a fully-unknown result,
/// including division by a known zero.
pub open spec fn spec_udiv(x: Seq<Lbool>, y: Seq<Lbool>) -> Seq<Lbool> {
    if all_known(x) && all_known(y) && lbv_nat(y) != 0 {
        nat_bits(lbv_nat(x) / lbv_nat(y), x.len())
    } else {
        all_x(x.len())
    }
}

pub open spec fn spec_urem(x: Seq<Lbool>, y: Seq<Lbool>) -> Seq<Lbool> {
    if all_known(x) && all_known(y) && lbv_nat(y) != 0 {
        nat_bits(lbv_nat(x) % lbv_nat(y), x.len())
    } else {
        all_x(x.len())
    }
}

pub fn udiv_simulate(terms: &[Value]) -> (r: Value)
    requires
        terms@.len() == 2,
        terms@[0] is Bv,
        terms@[1] is Bv,
        terms@[0].bv().len() == terms@[1].bv().len(),
        terms@[0].bv().len() <= 128,
    ensures
        r is Bv,
        r.bv() == spec_udiv(terms@[0].bv(), terms@[1].bv()),
{
    let x = bv_arg(terms, 0);
    let y = bv_arg(terms, 1);
    let w = x.len();
    let xv = lbv_known_value(x);
    let yv = lbv_known_value(y);
    match (xv, yv) {
        (Some(a), Some(b)) if b != 0 => {
            let q = a / b;
            let res = nat_to_lbv(q, w);
            Value::Bv(res)
        },
        _ => {
            let res = LboolVec::from_elem(Lbool::Unknown, w);
            proof {
                assert(res@ =~= all_x(w as nat));
            }
            Value::Bv(res)
        },
    }
}

pub fn urem_simulate(terms: &[Value]) -> (r: Value)
    requires
        terms@.len() == 2,
        terms@[0] is Bv,
        terms@[1] is Bv,
        terms@[0].bv().len() == terms@[1].bv().len(),
        terms@[0].bv().len() <= 128,
    ensures
        r is Bv,
        r.bv() == spec_urem(terms@[0].bv(), terms@[1].bv()),
{
    let x = bv_arg(terms, 0);
    let y = bv_arg(terms, 1);
    let w = x.len();
    let xv = lbv_known_value(x);
    let yv = lbv_known_value(y);
    match (xv, yv) {
        (Some(a), Some(b)) if b != 0 => {
            let m = a % b;
            let res = nat_to_lbv(m, w);
            Value::Bv(res)
        },
        _ => {
            let res = LboolVec::from_elem(Lbool::Unknown, w);
            proof {
                assert(res@ =~= all_x(w as nat));
            }
            Value::Bv(res)
        },
    }
}

/// Splitting off the top bit: the value is the low bits plus the top bit's
/// weight.
pub proof fn lemma_lbv_nat_top(s: Seq<Lbool>)
    requires
        s.len() >= 1,
    ensures
        lbv_nat(s) == lbv_nat(s.subrange(0, s.len() - 1)) + (if s[s.len() - 1] is True {
            pow2((s.len() - 1) as nat)
        } else {
            0nat
        }),
    decreases s.len(),
{
    vstd::arithmetic::power2::lemma2_to64();
    if s.len() == 1 {
        assert(s.subrange(0, 0) =~= Seq::<Lbool>::empty());
        assert(s.subrange(1, 1) =~= Seq::<Lbool>::empty());
    } else {
        let tail = s.subrange(1, s.len() as int);
        lemma_lbv_nat_top(tail);
        assert(tail.subrange(0, tail.len() - 1) =~= s.subrange(0, s.len() - 1).subrange(
            1,
            s.len() - 1,
        ));
        lemma_pow2_adds(1, (s.len() - 2) as nat);
    }
}

/// The two's-complement value of a fully-known vector.
pub open spec fn as_int(s: Seq<Lbool>) -> int {
    lbv_nat(s) - (if s[s.len() - 1] is True {
        pow2(s.len()) as int
    } else {
        0
    })
}

/// Truncating signed division, as two's-complement hardware computes it:
/// divide the magnitudes and give the quotient the sign `sign(a) ^ sign(b)`.
pub open spec fn trunc_div(a: int, b: int) -> int {
    if (a < 0) == (b < 0) {
        vstd::math::abs(a) as int / vstd::math::abs(b) as int
    } else {
        -(vstd::math::abs(a) as int / vstd::math::abs(b) as int)
    }
}

/// The remainder of truncating division; it carries the dividend's sign.
pub open spec fn trunc_rem(a: int, b: int) -> int {
    if a >= 0 {
        vstd::math::abs(a) as int % vstd::math::abs(b) as int
    } else {
        -(vstd::math::abs(a) as int % vstd::math::abs(b) as int)
    }
}

/// The `w` low bits of the two's-complement encoding of `v`.
pub open spec fn int_bits(v: int, w: nat) -> Seq<Lbool> {
    nat_bits((v % (pow2(w) as int)) as nat, w)
}

/// Signed division; a known zero divisor, like any unknown bit, gives a
/// fully-unknown result.
pub open spec fn spec_sdiv(x: Seq<Lbool>, y: Seq<Lbool>) -> Seq<Lbool> {
    if all_known(x) && all_known(y) && lbv_nat(y) != 0 {
        int_bits(trunc_div(as_int(x), as_int(y)), x.len())
    } else {
        all_x(x.len())
    }
}

/// The remainder of signed division; it carries the dividend's sign.
pub open spec fn spec_srem(x: Seq<Lbool>, y: Seq<Lbool>) -> Seq<Lbool> {
    if all_known(x) && all_known(y) && lbv_nat(y) != 0 {
        int_bits(trunc_rem(as_int(x), as_int(y)), x.len())
    } else {
        all_x(x.len())
    }
}

/// Signed modulo: when the truncating remainder is nonzero and its sign
/// differs from the divisor's, the divisor is added back, so the result
/// always carries the divisor's sign or is zero.
pub open spec fn spec_smod(x: Seq<Lbool>, y: Seq<Lbool>) -> Seq<Lbool> {
    if all_known(x) && all_known(y) && lbv_nat(y) != 0 {
        let r0 = trunc_rem(as_int(x), as_int(y));
        let yi = as_int(y);
        let m = if r0 != 0 && ((r0 < 0) != (yi < 0)) {
            r0 + yi
        } else {
            r0
        };
        int_bits(m, x.len())
    } else {
        all_x(x.len())
    }
}

fn pow2_u128(w: usize) -> (r: u128)
    requires
        w <= 127,
    ensures
        r == pow2(w as nat),
{
    proof {
        vstd::arithmetic::power2::lemma2_to64();
    }
    let mut p: u128 = 1;
    let mut k: usize = 0;
    while k < w
        invariant
            k <= w,
            p == pow2(k as nat),
        decreases w - k,
    {
        proof {
            lemma_pow2_adds(k as nat, 1);
            vstd::arithmetic::power2::lemma2_to64();
            assert(pow2((k + 1) as nat) <= pow2(127)) by {
                if k + 1 < 127 {
                    vstd::arithmetic::power2::lemma_pow2_strictly_increases((k + 1) as nat, 127);
                }
            }
            vstd::arithmetic::power2::lemma2_to64_rest();
            lemma_pow2_adds(64, 63);
            assert(pow2(127) == pow2(64) * pow2(63));
            assert(pow2(64) * pow2(63) <= u128::MAX) by (nonlinear_arith)
                requires
                    pow2(64) == 0x10000000000000000,
                    pow2(63) == 0x8000000000000000,
            ;
        }
        p = p * 2;
        k += 1;
    }
    p
}

/// The sign, magnitude and residue bookkeeping shared by the signed
/// division family. For a fully-known operand vector of width `w`:
/// magnitude `pw - v` for a negative value, `v` otherwise.
proof fn lemma_sign_magnitude(s: Seq<Lbool>, w: nat)
    requires
        s.len() == w,
        w >= 1,
        all_known(s),
    ensures
        lbv_nat(s) < pow2(w),
        s[w - 1] is True ==> lbv_nat(s) >= pow2((w - 1) as nat),
        s[w - 1] is True ==> as_int(s) == lbv_nat(s) - pow2(w),
        s[w - 1] is True ==> vstd::math::abs(as_int(s)) == pow2(w) - lbv_nat(s),
        s[w - 1] is True ==> vstd::math::abs(as_int(s)) <= pow2((w - 1) as nat),
        !(s[w - 1] is True) ==> as_int(s) == lbv_nat(s),
        !(s[w - 1] is True) ==> vstd::math::abs(as_int(s)) == lbv_nat(s),
        !(s[w - 1] is True) ==> lbv_nat(s) < pow2((w - 1) as nat),
        as_int(s) < 0 <==> s[w - 1] is True && lbv_nat(s) > 0 || (w >= 1 && s[w - 1] is True),
{
    lemma_lbv_nat_bound(s);
    lemma_lbv_nat_top(s);
    lemma_lbv_nat_bound(s.subrange(0, w - 1));
    lemma_pow2_adds((w - 1) as nat, 1);
    vstd::arithmetic::power2::lemma2_to64();
    lemma_pow2_pos((w - 1) as nat);
}

/// Euclidean reduction of a small negative value.
proof fn lemma_neg_mod(m: nat, pw: nat)
    requires
        0 < pw,
        m <= pw,
    ensures
        (-(m as int)) % (pw as int) == if m == 0 || m == pw {
            0int
        } else {
            pw - m
        },
{
    vstd::arithmetic::div_mod::lemma_mod_add_multiples_vanish(-(m as int), pw as int);
    if m == 0 {
        vstd::arithmetic::div_mod::lemma_small_mod(0, pw);
    } else if m == pw {
        vstd::arithmetic::div_mod::lemma_small_mod(0, pw);
    } else {
        vstd::arithmetic::div_mod::lemma_small_mod((pw - m) as nat, pw);
    }
}

/// Euclidean reduction of a small nonnegative value.
proof fn lemma_pos_mod(m: nat, pw: nat)
    requires
        0 < pw,
        m < pw,
    ensures
        (m as int) % (pw as int) == m,
{
    vstd::arithmetic::div_mod::lemma_small_mod(m, pw);
}

pub fn sdiv_simulate(terms: &[Value]) -> (r: Value)
    requires
        terms@.len() == 2,
        terms@[0] is Bv,
        terms@[1] is Bv,
        terms@[0].bv().len() == terms@[1].bv().len(),
        terms@[0].bv().len() >= 1,
        terms@[0].bv().len() <= 126,
    ensures
        r is Bv,
        r.bv() == spec_sdiv(terms@[0].bv(), terms@[1].bv()),
{
    let x = bv_arg(terms, 0);
    let y = bv_arg(terms, 1);
    let w = x.len();
    let xv = lbv_known_value(x);
    let yv = lbv_known_value(y);
    match (xv, yv) {
        (Some(a), Some(b)) if b != 0 => {
            proof {
                lemma_sign_magnitude(x@, w as nat);
                lemma_sign_magnitude(y@, w as nat);
            }
            let pw = pow2_u128(w);
            let sx = x.get(w - 1).is_true();
            let sy = y.get(w - 1).is_true();
            let mx = if sx {
                pw - a
            } else {
                a
            };
            let my = if sy {
                pw - b
            } else {
                b
            };
            let qm = mx / my;
            proof {
                assert(qm <= mx) by (nonlinear_arith)
                    requires
                        my >= 1,
                        qm == mx / my,
                ;
            }
            let res_val = if sx != sy {
                if qm == 0 {
                    0
                } else {
                    pw - qm
                }
            } else {
                qm
            };
            proof {
                let xi = as_int(x@);
                let yi = as_int(y@);
                let q = trunc_div(xi, yi);
                assert(mx == vstd::math::abs(xi));
                assert(my == vstd::math::abs(yi));
                if sx != sy {
                    assert(q == -(qm as int));
                    lemma_neg_mod(qm as nat, pow2(w as nat));
                } else {
                    assert(q == qm);
                    lemma_pos_mod(qm as nat, pow2(w as nat));
                }
                assert(res_val as nat == (q % (pow2(w as nat) as int)) as nat);
            }
            Value::Bv(nat_to_lbv(res_val, w))
        },
        _ => {
            let res = LboolVec::from_elem(Lbool::Unknown, w);
            proof {
                assert(res@ =~= all_x(w as nat));
            }
            Value::Bv(res)
        },
    }
}

pub fn srem_simulate(terms: &[Value]) -> (r: Value)
    requires
        terms@.len() == 2,
        terms@[0] is Bv,
        terms@[1] is Bv,
        terms@[0].bv().len() == terms@[1].bv().len(),
        terms@[0].bv().len() >= 1,
        terms@[0].bv().len() <= 126,
    ensures
        r is Bv,
        r.bv() == spec_srem(terms@[0].bv(), terms@[1].bv()),
{
    let x = bv_arg(terms, 0);
    let y = bv_arg(terms, 1);
    let w = x.len();
    let xv = lbv_known_value(x);
    let yv = lbv_known_value(y);
    match (xv, yv) {
        (Some(a), Some(b)) if b != 0 => {
            proof {
                lemma_sign_magnitude(x@, w as nat);
                lemma_sign_magnitude(y@, w as nat);
            }
            let pw = pow2_u128(w);
            let sx = x.get(w - 1).is_true();
            let sy = y.get(w - 1).is_true();
            let mx = if sx {
                pw - a
            } else {
                a
            };
            let my = if sy {
                pw - b
            } else {
                b
            };
            let rm = mx % my;
            proof {
                assert(rm < my) by (nonlinear_arith)
                    requires
                        my >= 1,
                        rm == mx % my,
                ;
            }
            let res_val = if sx {
                if rm == 0 {
                    0
                } else {
                    pw - rm
                }
            } else {
                rm
            };
            proof {
                let xi = as_int(x@);
                let yi = as_int(y@);
                let rr = trunc_rem(xi, yi);
                assert(mx == vstd::math::abs(xi));
                assert(my == vstd::math::abs(yi));
                if sx {
                    assert(rr == -(rm as int));
                    lemma_neg_mod(rm as nat, pow2(w as nat));
                } else {
                    assert(rr == rm);
                    lemma_pos_mod(rm as nat, pow2(w as nat));
                }
                assert(res_val as nat == (rr % (pow2(w as nat) as int)) as nat);
            }
            Value::Bv(nat_to_lbv(res_val, w))
        },
        _ => {
            let res = LboolVec::from_elem(Lbool::Unknown, w);
            proof {
                assert(res@ =~= all_x(w as nat));
            }
            Value::Bv(res)
        },
    }
}

pub fn smod_simulate(terms: &[Value]) -> (r: Value)
    requires
        terms@.len() == 2,
        terms@[0] is Bv,
        terms@[1] is Bv,
        terms@[0].bv().len() == terms@[1].bv().len(),
        terms@[0].bv().len() >= 1,
        terms@[0].bv().len() <= 126,
    ensures
        r is Bv,
        r.bv() == spec_smod(terms@[0].bv(), terms@[1].bv()),
{
    let x = bv_arg(terms, 0);
    let y = bv_arg(terms, 1);
    let w = x.len();
    let xv = lbv_known_value(x);
    let yv = lbv_known_value(y);
    match (xv, yv) {
        (Some(a), Some(b)) if b != 0 => {
            proof {
                lemma_sign_magnitude(x@, w as nat);
                lemma_sign_magnitude(y@, w as nat);
            }
            let pw = pow2_u128(w);
            let sx = x.get(w - 1).is_true();
            let sy = y.get(w - 1).is_true();
            let mx = if sx {
                pw - a
            } else {
                a
            };
            let my = if sy {
                pw - b
            } else {
                b
            };
            let rm = mx % my;
            proof {
                assert(rm < my) by (nonlinear_arith)
                    requires
                        my >= 1,
                        rm == mx % my,
                ;
            }
            let ghost xi = as_int(x@);
            let ghost yi = as_int(y@);
            let ghost r0 = trunc_rem(xi, yi);
            let ghost m = if r0 != 0 && ((r0 < 0) != (yi < 0)) {
                r0 + yi
            } else {
                r0
            };
            let res_val = if rm == 0 {
                0
            } else if sx == sy {
                if sx {
                    pw - rm
                } else {
                    rm
                }
            } else if sx {
                // negative dividend, positive divisor: remainder -rm gains my
                my - rm
            } else {
                // positive dividend, negative divisor: remainder rm gains -my
                pw - (my - rm)
            };
            proof {
                assert(mx == vstd::math::abs(xi));
                assert(my == vstd::math::abs(yi));
                assert(sx == (xi < 0));
                assert(sy == (yi < 0));
                if sx {
                    assert(r0 == -(rm as int));
                } else {
                    assert(r0 == rm);
                }
                if rm == 0 {
                    assert(m == 0);
                    lemma_pos_mod(0, pow2(w as nat));
                } else if sx == sy {
                    assert(m == r0);
                    if sx {
                        lemma_neg_mod(rm as nat, pow2(w as nat));
                    } else {
                        lemma_pos_mod(rm as nat, pow2(w as nat));
                    }
                } else if sx {
                    assert(yi == my);
                    assert(m == my - rm);
                    lemma_pos_mod((my - rm) as nat, pow2(w as nat));
                } else {
                    assert(yi == -(my as int));
                    assert(m == rm - my);
                    lemma_neg_mod((my - rm) as nat, pow2(w as nat));
                }
                assert(res_val as nat == (m % (pow2(w as nat) as int)) as nat);
            }
            Value::Bv(nat_to_lbv(res_val, w))
        },
        _ => {
            let res = LboolVec::from_elem(Lbool::Unknown, w);
            proof {
                assert(res@ =~= all_x(w as nat));
            }
            Value::Bv(res)
        },
    }
}

/// Reading element `idx` of a flat array of `2^k` elements, each of width
/// `arr.len() / 2^k`; an unknown index bit makes the whole element unknown.
pub open spec fn spec_read(arr: Seq<Lbool>, idx: Seq<Lbool>) -> Seq<Lbool> {
    let el = arr.len() / pow2(idx.len());
    if all_known(idx) {
        arr.subrange((el * lbv_nat(idx)) as int, (el * lbv_nat(idx) + el) as int)
    } else {
        all_x(el)
    }
}

/// Writing element `idx`: the addressed slice is replaced, every other
/// position is kept; an unknown index bit makes the whole array unknown.
pub open spec fn spec_write(arr: Seq<Lbool>, idx: Seq<Lbool>, val: Seq<Lbool>) -> Seq<Lbool> {
    let el = arr.len() / pow2(idx.len());
    if all_known(idx) {
        Seq::new(
            arr.len(),
            |j: int|
                if el * lbv_nat(idx) <= j < el * lbv_nat(idx) + el {
                    val[j - el * lbv_nat(idx)]
                } else {
                    arr[j]
                },
        )
    } else {
        all_x(arr.len())
    }
}

/// The addressed window lies inside the array.
proof fn lemma_element_window(alen: nat, k: nat, v: nat)
    requires
        alen % pow2(k) == 0,
        v < pow2(k),
    ensures
        (alen / pow2(k)) * v + (alen / pow2(k)) <= alen,
{
    let el = alen / pow2(k);
    lemma_pow2_pos(k);
    vstd::arithmetic::div_mod::lemma_fundamental_div_mod(alen as int, pow2(k) as int);
    assert(alen == pow2(k) * el);
    assert(el * v + el <= el * pow2(k)) by (nonlinear_arith)
        requires
            v < pow2(k),
    ;
    assert(el * pow2(k) == pow2(k) * el) by (nonlinear_arith);
}

pub fn read_simulate(terms: &[Value]) -> (r: Value)
    requires
        terms@.len() == 2,
        terms@[0] is Bv,
        terms@[1] is Bv,
        terms@[1].bv().len() < usize::BITS,
        terms@[0].bv().len() % pow2(terms@[1].bv().len()) == 0,
    ensures
        r is Bv,
        r.bv() == spec_read(terms@[0].bv(), terms@[1].bv()),
{
    let arr = bv_arg(terms, 0);
    let idx = bv_arg(terms, 1);
    let k = idx.len();
    proof {
        vstd::bits::lemma_usize_pow2_no_overflow(k as nat);
        vstd::bits::lemma_usize_shl_is_mul(1usize, k);
    }
    let index_range = 1usize << k;
    let element_len = arr.len() / index_range;
    match lbv_known_value(idx) {
        None => {
            let res = LboolVec::from_elem(Lbool::Unknown, element_len);
            proof {
                assert(res@ =~= spec_read(arr@, idx@));
            }
            Value::Bv(res)
        },
        Some(v) => {
            proof {
                lemma_lbv_nat_bound(idx@);
                lemma_element_window(arr@.len(), k as nat, v as nat);
            }
            let vi = v as usize;
            let base = element_len * vi;
            let mut res = LboolVec::new();
            let mut i: usize = 0;
            while i < element_len
                invariant
                    i <= element_len,
                    base == element_len * lbv_nat(idx@),
                    base + element_len <= arr@.len(),
                    res@.len() == i,
                    forall|j: int| 0 <= j < i ==> res@[j] == arr@[base + j],
                decreases element_len - i,
            {
                res.push(arr.get(base + i));
                i += 1;
            }
            proof {
                assert(res@ =~= spec_read(arr@, idx@));
            }
            Value::Bv(res)
        },
    }
}

pub fn write_simulate(terms: &[Value]) -> (r: Value)
    requires
        terms@.len() == 3,
        terms@[0] is Bv,
        terms@[1] is Bv,
        terms@[2] is Bv,
        terms@[1].bv().len() < usize::BITS,
        terms@[0].bv().len() % pow2(terms@[1].bv().len()) == 0,
        terms@[2].bv().len() == terms@[0].bv().len() / pow2(terms@[1].bv().len()),
    ensures
        r is Bv,
        r.bv() == spec_write(terms@[0].bv(), terms@[1].bv(), terms@[2].bv()),
{
    let arr = bv_arg(terms, 0);
    let idx = bv_arg(terms, 1);
    let val = bv_arg(terms, 2);
    let k = idx.len();
    proof {
        vstd::bits::lemma_usize_pow2_no_overflow(k as nat);
        vstd::bits::lemma_usize_shl_is_mul(1usize, k);
    }
    let index_range = 1usize << k;
    let element_len = arr.len() / index_range;
    match lbv_known_value(idx) {
        None => {
            let res = LboolVec::from_elem(Lbool::Unknown, arr.len());
            proof {
                assert(res@ =~= spec_write(arr@, idx@, val@));
            }
            Value::Bv(res)
        },
        Some(v) => {
            proof {
                lemma_lbv_nat_bound(idx@);
                lemma_element_window(arr@.len(), k as nat, v as nat);
            }
            let vi = v as usize;
            let base = element_len * vi;
            let mut res = arr.clone();
            let mut i: usize = 0;
            while i < element_len
                invariant
                    i <= element_len,
                    base == element_len * lbv_nat(idx@),
                    base + element_len <= arr@.len(),
                    element_len == val@.len(),
                    res@.len() == arr@.len(),
                    forall|j: int| base <= j < base + i ==> res@[j] == val@[j - base],
                    forall|j: int| 0 <= j < arr@.len() && !(base <= j < base + i) ==> res@[j]
                        == arr@[j],
                decreases element_len - i,
            {
                res.set(base + i, val.get(i));
                i += 1;
            }
            proof {
                assert(res@ =~= spec_write(arr@, idx@, val@));
            }
            Value::Bv(res)
        },
    }
}

/// Reading back the element just written yields exactly the written value.
pub proof fn lemma_write_read_same(arr: Seq<Lbool>, idx: Seq<Lbool>, val: Seq<Lbool>)
    requires
        all_known(idx),
        arr.len() % pow2(idx.len()) == 0,
        val.len() == arr.len() / pow2(idx.len()),
    ensures
        spec_read(spec_write(arr, idx, val), idx) =~= val,
{
    lemma_lbv_nat_bound(idx);
    lemma_element_window(arr.len(), idx.len(), lbv_nat(idx));
}

/// Writing one element leaves every other element exactly as it was.
pub proof fn lemma_write_read_frame(
    arr: Seq<Lbool>,
    idx: Seq<Lbool>,
    jdx: Seq<Lbool>,
    val: Seq<Lbool>,
)
    requires
        all_known(idx),
        all_known(jdx),
        idx.len() == jdx.len(),
        lbv_nat(idx) != lbv_nat(jdx),
        arr.len() % pow2(idx.len()) == 0,
        val.len() == arr.len() / pow2(idx.len()),
    ensures
        spec_read(spec_write(arr, idx, val), jdx) =~= spec_read(arr, jdx),
{
    let el = arr.len() / pow2(idx.len());
    let vi = lbv_nat(idx);
    let vj = lbv_nat(jdx);
    lemma_lbv_nat_bound(idx);
    lemma_lbv_nat_bound(jdx);
    lemma_element_window(arr.len(), idx.len(), vi);
    lemma_element_window(arr.len(), idx.len(), vj);
    if vi < vj {
        assert(el * vi + el <= el * vj) by (nonlinear_arith)
            requires
                vi < vj,
        ;
    } else {
        assert(el * vj + el <= el * vi) by (nonlinear_arith)
            requires
                vj < vi,
        ;
    }
}

/// Shifting left by any amount of at least the width clears the vector, and
/// a shift within range matches the definitional shift.
pub proof fn lemma_sll_laws(x: Seq<Lbool>, y: Seq<Lbool>)
    requires
        all_known(y),
        x.len() == y.len(),
    ensures
        lbv_nat(y) >= x.len() ==> spec_sll(x, y) =~= Seq::new(x.len(), |i: int| Lbool::False),
        lbv_nat(y) < x.len() ==> forall|i: int|
            0 <= i < x.len() ==> spec_sll(x, y)[i] == if i < lbv_nat(y) {
                Lbool::False
            } else {
                x[i - lbv_nat(y)]
            },
{
}

/// Shifting right by any amount of at least the width clears the vector
/// (`spec_srl`) or fills it with sign bits (`spec_sra`); amounts within
/// range match the definitional shift.
pub proof fn lemma_srl_sra_laws(x: Seq<Lbool>, y: Seq<Lbool>)
    requires
        all_known(y),
        x.len() == y.len(),
        x.len() >= 1,
    ensures
        lbv_nat(y) >= x.len() ==> spec_srl(x, y) =~= Seq::new(x.len(), |i: int| Lbool::False),
        lbv_nat(y) >= x.len() ==> spec_sra(x, y) =~= Seq::new(x.len(), |i: int| x[x.len() - 1]),
        lbv_nat(y) < x.len() ==> forall|i: int|
            0 <= i < x.len() ==> spec_srl(x, y)[i] == if i < x.len() - lbv_nat(y) {
                x[i + lbv_nat(y)]
            } else {
                Lbool::False
            },
        lbv_nat(y) < x.len() ==> forall|i: int|
            0 <= i < x.len() ==> spec_sra(x, y)[i] == if i < x.len() - lbv_nat(y) {
                x[i + lbv_nat(y)]
            } else {
                x[x.len() - 1]
            },
{
}

/// Rotation is periodic in the amount: amounts that agree modulo the width
/// rotate identically, so rotating by `k + width` equals rotating by `k`.
pub proof fn lemma_rotate_periodic(x: Seq<Lbool>, y1: Seq<Lbool>, y2: Seq<Lbool>)
    requires
        all_known(y1),
        all_known(y2),
        x.len() >= 1,
        lbv_nat(y1) % x.len() == lbv_nat(y2) % x.len(),
    ensures
        spec_rol(x, y1) =~= spec_rol(x, y2),
        spec_ror(x, y1) =~= spec_ror(x, y2),
{
}

/// The three-valued denotation of one operator application, given the
/// operand values.
pub open spec fn op_sim(o: Op, vals: Seq<Seq<Lbool>>) -> Seq<Lbool> {
    match o {
        Op::Not => spec_not(vals[0]),
        Op::And => spec_and(vals[0], vals[1]),
        Op::Ands => spec_ands(vals),
        Op::Or => spec_or(vals[0], vals[1]),
        Op::Ors => spec_ors(vals),
        Op::Xor => spec_xor(vals[0], vals[1]),
        Op::Eq => spec_eq3(vals[0], vals[1]),
        Op::Ult => spec_ult(vals[0], vals[1]),
        Op::Slt => spec_slt(vals[0], vals[1]),
        Op::Sll => spec_sll(vals[0], vals[1]),
        Op::Srl => spec_srl(vals[0], vals[1]),
        Op::Sra => spec_sra(vals[0], vals[1]),
        Op::Rol => spec_rol(vals[0], vals[1]),
        Op::Ror => spec_ror(vals[0], vals[1]),
        Op::Ite => spec_ite(vals[0], vals[1], vals[2]),
        Op::Concat => spec_concat(vals[0], vals[1]),
        Op::Sext => spec_sext(vals[0], vals[1].len()),
        Op::Slice => spec_slice(vals[0], vals[1].len(), vals[2].len()),
        Op::Redxor => spec_redxor(vals[0]),
        Op::Add => spec_add3(vals[0], vals[1]),
        Op::Sub => spec_sub3(vals[0], vals[1]),
        Op::Mul => spec_mul(vals[0], vals[1]),
        Op::Neg => spec_neg(vals[0]),
        Op::Udiv => spec_udiv(vals[0], vals[1]),
        Op::Urem => spec_urem(vals[0], vals[1]),
        Op::Sdiv => spec_sdiv(vals[0], vals[1]),
        Op::Srem => spec_srem(vals[0], vals[1]),
        Op::Smod => spec_smod(vals[0], vals[1]),
        Op::Read => spec_read(vals[0], vals[1]),
        Op::Write => spec_write(vals[0], vals[1], vals[2]),
    }
}

/// The value of a term under a seed environment keyed by term handle: a
/// seeded handle takes its seeded value; otherwise constants evaluate to
/// their bits, unseeded variables to all-unknown, and applications to
/// `op_sim` of their operands. An unseeded array-sorted variable evaluates
/// to a fully-unknown flat vector.
pub open spec fn spec_sim(tm: TermManager, env: Seq<Option<Value>>, t: int) -> Seq<Lbool>
    decreases t, 1int, 0int,
{
    if 0 <= t < tm.nodes@.len() {
        if 0 <= t < env.len() && env[t] is Some {
            env[t]->0.bv()
        } else {
            match tm.nodes@[t].ty {
                TermType::Const(c) => Seq::new(c@.len(), |i: int| lb_from_bool(c@[i])),
                TermType::Var(_) => all_x(tm.nodes@[t].sort.spec_size()),
                TermType::Op(o, args) => op_sim(o, spec_sim_list(tm, env, args@, t)),
            }
        }
    } else {
        Seq::empty()
    }
}

pub open spec fn spec_sim_list(
    tm: TermManager,
    env: Seq<Option<Value>>,
    args: Seq<Term>,
    bound: int,
) -> Seq<Seq<Lbool>>
    decreases bound, 0int, args.len(),
{
    if args.len() == 0 {
        Seq::empty()
    } else {
        let h = if 0 <= (args[0].0 as int) < bound {
            spec_sim(tm, env, args[0].0 as int)
        } else {
            Seq::empty()
        };
        seq![h] + spec_sim_list(tm, env, args.subrange(1, args.len() as int), bound)
    }
}

/// Each position of the operand-value list is the value of the matching
/// operand.
pub proof fn lemma_sim_list_index(
    tm: TermManager,
    env: Seq<Option<Value>>,
    args: Seq<Term>,
    bound: int,
)
    requires
        forall|j: int| 0 <= j < args.len() ==> 0 <= (#[trigger] args[j]).0 < bound,
    ensures
        spec_sim_list(tm, env, args, bound).len() == args.len(),
        forall|j: int|
            0 <= j < args.len() ==> #[trigger] spec_sim_list(tm, env, args, bound)[j] == spec_sim(
                tm,
                env,
                args[j].0 as int,
            ),
    decreases args.len(),
{
    if args.len() > 0 {
        let tail = args.subrange(1, args.len() as int);
        assert(forall|j: int| 0 <= j < tail.len() ==> 0 <= (#[trigger] tail[j]).0 < bound);
        lemma_sim_list_index(tm, env, tail, bound);
        assert forall|j: int|
            0 <= j < args.len() implies #[trigger] spec_sim_list(tm, env, args, bound)[j]
            == spec_sim(tm, env, args[j].0 as int) by {
            if j > 0 {
                assert(spec_sim_list(tm, env, args, bound)[j] == spec_sim_list(
                    tm,
                    env,
                    tail,
                    bound,
                )[j - 1]);
                assert(tail[j - 1] == args[j]);
            }
        }
    }
}

/// A fold of elementwise conjunctions over same-length vectors keeps the
/// length.
pub proof fn lemma_spec_ands_len(vs: Seq<Seq<Lbool>>, w: nat)
    requires
        vs.len() >= 1,
        forall|i: int| 0 <= i < vs.len() ==> (#[trigger] vs[i]).len() == w,
    ensures
        spec_ands(vs).len() == w,
        spec_ors(vs).len() == w,
    decreases vs.len(),
{
    if vs.len() > 1 {
        assert(forall|i: int|
            0 <= i < vs.drop_last().len() ==> (#[trigger] vs.drop_last()[i]).len() == w);
        lemma_spec_ands_len(vs.drop_last(), w);
    }
}

/// Every row of the schoolbook multiplier keeps the accumulator length.
pub proof fn lemma_spec_mul_acc_len(x: Seq<Lbool>, y: Seq<Lbool>, i: int)
    ensures
        spec_mul_acc(x, y, i).len() == x.len(),
    decreases i,
{
    if i > 1 {
        lemma_spec_mul_acc_len(x, y, i - 1);
    }
}

/// Whether every operator application of the manager stays within the
/// widths the simulator can decode: shift and rotate amounts and unsigned
/// division up to 128 bits, the signed division family up to 126, and
/// array index widths below the machine word.
pub open spec fn simulatable(tm: TermManager) -> bool {
    forall|i: int|
        0 <= i < tm.nodes@.len() ==> match (#[trigger] tm.nodes@[i]).ty {
            TermType::Op(o, args) => match o {
                Op::Sll | Op::Srl | Op::Sra | Op::Rol | Op::Ror | Op::Udiv | Op::Urem => tm.nodes@[i].sort->Bv_0 <= 128,
                Op::Sdiv | Op::Srem | Op::Smod => tm.nodes@[i].sort->Bv_0 <= 126,
                Op::Read | Op::Write => args@.len() >= 2 && args@[1].0 < tm.nodes@.len()
                    && tm.nodes@[args@[1].0 as int].sort is Bv
                    && tm.nodes@[args@[1].0 as int].sort->Bv_0 < usize::BITS,
                _ => true,
            },
            _ => true,
        }
}

/// The seed environment is indexed by term handle and holds only flat
/// bit-vector values of the term's exact flat size.
pub open spec fn env_ok(tm: TermManager, env: Seq<Option<Value>>) -> bool {
    env.len() == tm.nodes@.len() && forall|i: int|
        0 <= i < env.len() && env[i] is Some ==> (#[trigger] env[i])->0 is Bv && env[i]->0.bv().len()
            == tm.nodes@[i].sort.spec_size()
}

/// The value of every term has exactly the flat size of its sort.
pub proof fn lemma_sim_len(tm: TermManager, env: Seq<Option<Value>>, t: int)
    requires
        tm.wf(),
        env_ok(tm, env),
        0 <= t < tm.nodes@.len(),
    ensures
        spec_sim(tm, env, t).len() == tm.nodes@[t].sort.spec_size(),
    decreases t,
{
    if env[t] is Some {
    } else {
        match tm.nodes@[t].ty {
            TermType::Const(c) => {
                assert(node_wf(tm.nodes@, t));
            },
            TermType::Var(_) => {},
            TermType::Op(o, args) => {
                assert(node_wf(tm.nodes@, t));
                assert forall|j: int| 0 <= j < args@.len() implies 0 <= (#[trigger] args@[j]).0
                    < t by {}
                let vals = spec_sim_list(tm, env, args@, t);
                lemma_sim_list_index(tm, env, args@, t);
                assert forall|j: int|
                    0 <= j < args@.len() implies #[trigger] vals[j].len() == tm.nodes@[(
                #[trigger] args@[j]).0 as int].sort.spec_size() by {
                    lemma_sim_len(tm, env, args@[j].0 as int);
                }
                let ss = crate::term::operand_sorts(tm.nodes@, args@);
                let w = tm.nodes@[t].sort;
                match o {
                    Op::Ands | Op::Ors => {
                        assert forall|j: int|
                            0 <= j < vals.len() implies (#[trigger] vals[j]).len()
                            == ss[0].spec_size() by {
                            assert(ss[j] == ss[0]);
                            assert(vals[j].len() == tm.nodes@[args@[j].0 as int].sort.spec_size());
                        }
                        lemma_spec_ands_len(vals, ss[0].spec_size());
                    },
                    Op::Mul => {
                        lemma_spec_mul_acc_len(vals[0], vals[1], vals[0].len() as int);
                    },
                    Op::Read => {
                        let k = ss[0]->Array_0;
                        let e = ss[0]->Array_1;
                        vstd::arithmetic::power2::lemma_pow2_pos(k as nat);
                        vstd::arithmetic::div_mod::lemma_div_multiples_vanish(
                            e as int,
                            pow2(k as nat) as int,
                        );
                        assert(vals[0].len() == pow2(k as nat) * e);
                        assert(vals[1].len() == k);
                        assert((pow2(k as nat) * e) as int / (pow2(k as nat) as int) == e);
                        lemma_lbv_nat_bound(vals[1]);
                        assert(vals[0].len() % pow2(k as nat) == 0) by {
                            assert(pow2(k as nat) * e == e * pow2(k as nat)) by (nonlinear_arith);
                            vstd::arithmetic::div_mod::lemma_mod_multiples_basic(
                                e as int,
                                pow2(k as nat) as int,
                            );
                        }
                        lemma_element_window(vals[0].len(), k as nat, lbv_nat(vals[1]));
                    },
                    Op::Write => {
                        let k = ss[0]->Array_0;
                        let e = ss[0]->Array_1;
                        vstd::arithmetic::power2::lemma_pow2_pos(k as nat);
                        assert(vals[0].len() == pow2(k as nat) * e);
                    },
                    _ => {},
                }
            },
        }
    }
}

impl TermManager {
    /// Evaluate a term under a seed environment, memoizing shared
    /// sub-terms, so the walk is linear in the DAG size.
    pub fn simulate(&self, t: Term, env: &Vec<Option<Value>>) -> (r: Value)
        requires
            self.wf(),
            simulatable(*self),
            self.contains(t),
            env_ok(*self, env@),
        ensures
            r is Bv,
            r.bv() == spec_sim(*self, env@, t.0 as int),
    {
        let n = self.nodes.len();
        let mut memo: Vec<Option<Value>> = Vec::new();
        let mut i: usize = 0;
        while i < n
            invariant
                i <= n,
                memo@.len() == i,
                forall|j: int| 0 <= j < i ==> (#[trigger] memo@[j]) is None,
            decreases n - i,
        {
            memo.push(None);
            i += 1;
        }
        self.simulate_rec(t, env, &mut memo)
    }

    fn simulate_rec(&self, t: Term, env: &Vec<Option<Value>>, memo: &mut Vec<Option<Value>>) -> (r:
        Value)
        requires
            self.wf(),
            simulatable(*self),
            self.contains(t),
            env_ok(*self, env@),
            old(memo)@.len() == self.nodes@.len(),
            forall|i: int|
                0 <= i < old(memo)@.len() && old(memo)@[i] is Some ==> (
                #[trigger] old(memo)@[i])->0 is Bv && old(memo)@[i]->0.bv() == spec_sim(
                    *self,
                    env@,
                    i,
                ),
        ensures
            final(memo)@.len() == self.nodes@.len(),
            forall|i: int|
                0 <= i < final(memo)@.len() && final(memo)@[i] is Some ==> (
                #[trigger] final(memo)@[i])->0 is Bv && final(memo)@[i]->0.bv() == spec_sim(
                    *self,
                    env@,
                    i,
                ),
            r is Bv,
            r.bv() == spec_sim(*self, env@, t.0 as int),
        decreases t.0,
    {
        match &memo[t.0] {
            Some(v) => {
                return v.clone();
            },
            None => {},
        }
        match &env[t.0] {
            Some(v) => {
                let r = v.clone();
                memo.set(t.0, Some(r.clone()));
                return r;
            },
            None => {},
        }
        let r = match &self.nodes[t.0].ty {
            TermType::Const(c) => Value::Bv(LboolVec::from_bools(c)),
            TermType::Var(_) => {
                proof {
                    assert(node_wf(self.nodes@, t.0 as int));
                }
                let sz = self.nodes[t.0].sort.size();
                Value::Bv(LboolVec::from_elem(Lbool::Unknown, sz))
            },
            TermType::Op(o, args) => {
                proof {
                    assert(node_wf(self.nodes@, t.0 as int));
                }
                let op = *o;
                let ghost gargs = args@;
                let mut vals: Vec<Value> = Vec::new();
                let mut j: usize = 0;
                while j < args.len()
                    invariant
                        j <= gargs.len(),
                        args@ == gargs,
                        self.wf(),
                        simulatable(*self),
                        env_ok(*self, env@),
                        self.nodes@[t.0 as int].ty matches TermType::Op(oo, aa) && aa@ == gargs,
                        t.0 < self.nodes@.len(),
                        forall|k: int| 0 <= k < gargs.len() ==> (#[trigger] gargs[k]).0 < t.0,
                        memo@.len() == self.nodes@.len(),
                        forall|i: int|
                            0 <= i < memo@.len() && memo@[i] is Some ==> (
                            #[trigger] memo@[i])->0 is Bv && memo@[i]->0.bv() == spec_sim(
                                *self,
                                env@,
                                i,
                            ),
                        vals@.len() == j,
                        forall|k: int|
                            0 <= k < j ==> (#[trigger] vals@[k]) is Bv && vals@[k].bv()
                                == spec_sim(*self, env@, gargs[k].0 as int),
                    decreases gargs.len() - j,
                {
                    let child = args[j];
                    let v = self.simulate_rec(child, env, memo);
                    vals.push(v);
                    j += 1;
                }
                proof {
                    lemma_sim_list_index(*self, env@, gargs, t.0 as int);
                    assert forall|k: int|
                        0 <= k < gargs.len() implies #[trigger] vals@[k].bv().len()
                        == self.nodes@[gargs[k].0 as int].sort.spec_size() by {
                        lemma_sim_len(*self, env@, gargs[k].0 as int);
                    }
                    assert forall|k: int|
                        0 <= k < gargs.len() implies #[trigger] vals@[k].bv() == spec_sim_list(
                        *self,
                        env@,
                        gargs,
                        t.0 as int,
                    )[k] by {}
                }
                self.dispatch_op(op, &vals, Ghost(gargs), Ghost(t), Ghost(env@))
            },
        };
        proof {
            lemma_sim_len(*self, env@, t.0 as int);
        }
        memo.set(t.0, Some(r.clone()));
        r
    }

    /// Dispatch one operator application over already-computed operand
    /// values.
    #[verifier::rlimit(100)]
    fn dispatch_op(
        &self,
        op: Op,
        vals: &Vec<Value>,
        Ghost(gargs): Ghost<Seq<Term>>,
        Ghost(t): Ghost<Term>,
        Ghost(genv): Ghost<Seq<Option<Value>>>,
    ) -> (r: Value)
        requires
            self.wf(),
            simulatable(*self),
            env_ok(*self, genv),
            t.0 < self.nodes@.len(),
            self.nodes@[t.0 as int].ty matches TermType::Op(oo, aa) && oo == op && aa@ == gargs,
            vals@.len() == gargs.len(),
            forall|k: int|
                0 <= k < gargs.len() ==> (#[trigger] gargs[k]).0 < t.0,
            forall|k: int|
                0 <= k < vals@.len() ==> (#[trigger] vals@[k]) is Bv && vals@[k].bv()
                    == spec_sim_list(*self, genv, gargs, t.0 as int)[k],
            forall|k: int|
                0 <= k < vals@.len() ==> (#[trigger] vals@[k]).bv().len() == self.nodes@[(
                #[trigger] gargs[k]).0 as int].sort.spec_size(),
        ensures
            r is Bv,
            r.bv() == op_sim(op, spec_sim_list(*self, genv, gargs, t.0 as int)),
    {
        proof {
            assert(node_wf(self.nodes@, t.0 as int));
            lemma_sim_list_index(*self, genv, gargs, t.0 as int);
        }
        let ghost ss = crate::term::operand_sorts(self.nodes@, gargs);
        proof {
            assert forall|k: int|
                0 <= k < vals@.len() implies (#[trigger] vals@[k]).bv().len() == ss[k].spec_size()
                by {
                assert(ss[k] == self.nodes@[gargs[k].0 as int].sort);
            }
            match op {
                Op::Ands | Op::Ors => {
                    assert forall|k: int|
                        0 <= k < vals@.len() implies (#[trigger] vals@[k]).bv().len()
                        == vals@[0].bv().len() by {
                        assert(ss[k] == ss[0]);
                    }
                },
                Op::Sll | Op::Srl | Op::Sra | Op::Rol | Op::Ror | Op::Udiv | Op::Urem | Op::Sdiv
                | Op::Srem | Op::Smod => {
                    assert(ss[1] == ss[0]);
                    assert(self.nodes@[t.0 as int].sort == op.sort_spec(ss));
                    assert(op.sort_spec(ss) == ss[0]);
                },
                _ => {},
            }
        }
        let ghost slist = spec_sim_list(*self, genv, gargs, t.0 as int);
        proof {
            if vals@.len() >= 1 {
                assert(vals@[0].bv() == slist[0]);
            }
            if vals@.len() >= 2 {
                assert(vals@[1].bv() == slist[1]);
            }
            if vals@.len() >= 3 {
                assert(vals@[2].bv() == slist[2]);
            }
            assert(Seq::new(vals@.len(), |i: int| vals@[i].bv()) =~= slist);
        }
        let s = vals.as_slice();
        match op {
            Op::Not => not_simulate(s),
            Op::And => and_simulate(s),
            Op::Ands => ands_simulate(s),
            Op::Or => or_simulate(s),
            Op::Ors => ors_simulate(s),
            Op::Xor => xor_simulate(s),
            Op::Eq => eq_simulate(s),
            Op::Ult => ult_simulate(s),
            Op::Slt => slt_simulate(s),
            Op::Sll => sll_simulate(s),
            Op::Srl => srl_simulate(s),
            Op::Sra => sra_simulate(s),
            Op::Rol => rol_simulate(s),
            Op::Ror => ror_simulate(s),
            Op::Ite => ite_simulate(s),
            Op::Concat => concat_simulate(s),
            Op::Sext => sext_simulate(s),
            Op::Slice => slice_simulate(s),
            Op::Redxor => redxor_simulate(s),
            Op::Add => add_simulate(s),
            Op::Sub => sub_simulate(s),
            Op::Mul => mul_simulate(s),
            Op::Neg => neg_simulate(s),
            Op::Udiv => udiv_simulate(s),
            Op::Urem => urem_simulate(s),
            Op::Sdiv => sdiv_simulate(s),
            Op::Srem => srem_simulate(s),
            Op::Smod => smod_simulate(s),
            Op::Read => {
                proof {
                    let k = ss[0]->Array_0;
                    let e = ss[0]->Array_1;
                    vstd::arithmetic::power2::lemma_pow2_pos(k as nat);
                    vstd::arithmetic::div_mod::lemma_mod_multiples_basic(
                        e as int,
                        pow2(k as nat) as int,
                    );
                    assert((pow2(k as nat) * e) as int % (pow2(k as nat) as int) == 0) by {
                        assert(pow2(k as nat) * e == e * pow2(k as nat)) by (nonlinear_arith);
                    }
                }
                read_simulate(s)
            },
            Op::Write => {
                proof {
                    let k = ss[0]->Array_0;
                    let e = ss[0]->Array_1;
                    vstd::arithmetic::power2::lemma_pow2_pos(k as nat);
                    vstd::arithmetic::div_mod::lemma_mod_multiples_basic(
                        e as int,
                        pow2(k as nat) as int,
                    );
                    vstd::arithmetic::div_mod::lemma_div_multiples_vanish(
                        e as int,
                        pow2(k as nat) as int,
                    );
                    assert((pow2(k as nat) * e) as int % (pow2(k as nat) as int) == 0) by {
                        assert(pow2(k as nat) * e == e * pow2(k as nat)) by (nonlinear_arith);
                    }
                    assert((pow2(k as nat) * e) as int / (pow2(k as nat) as int) == e) by {
                        assert(pow2(k as nat) * e == e * pow2(k as nat)) by (nonlinear_arith);
                        vstd::arithmetic::div_mod::lemma_div_multiples_vanish(
                            e as int,
                            pow2(k as nat) as int,
                        );
                    }
                }
                write_simulate(s)
            },
        }
    }
}

/// The encoding of a value below `2^w` is fully known and decodes to the
/// value itself.
pub proof fn lemma_nat_bits_value(v: nat, w: nat)
    requires
        v < pow2(w),
    ensures
        all_known(nat_bits(v, w)),
        lbv_nat(nat_bits(v, w)) == v,
    decreases w,
{
    vstd::arithmetic::power2::lemma2_to64();
    if w == 0 {
    } else {
        lemma_pow2_adds((w - 1) as nat, 1);
        assert(v / 2 < pow2((w - 1) as nat)) by (nonlinear_arith)
            requires
                v < pow2((w - 1) as nat) * 2,
        ;
        lemma_nat_bits_value(v / 2, (w - 1) as nat);
        let s = nat_bits(v, w);
        let tail = s.subrange(1, s.len() as int);
        assert forall|i: int| 0 <= i < tail.len() implies tail[i] == nat_bits(v / 2, (w - 1) as nat)[i] by {
            lemma_pow2_pos(i as nat);
            lemma_div_denominator(v as int, 2, pow2(i as nat) as int);
            lemma_pow2_adds(1, i as nat);
            assert(nat_bit(v, i + 1) == nat_bit(v / 2, i));
        }
        assert(tail =~= nat_bits(v / 2, (w - 1) as nat));
        assert(s[0] == lb_from_bool(v % 2 == 1)) by {
            assert(pow2(0) == 1);
            assert(v / 1 == v) by (nonlinear_arith);
        }
        assert(lbv_nat(s) == (if v % 2 == 1 { 1nat } else { 0nat }) + 2 * (v / 2));
        vstd::arithmetic::div_mod::lemma_fundamental_div_mod(v as int, 2);
    }
}

/// The quotient and remainder recovered from fully-known operands satisfy
/// the exact division identity `x == q * y + r`.
pub proof fn lemma_udiv_urem_identity(x: Seq<Lbool>, y: Seq<Lbool>)
    requires
        all_known(x),
        all_known(y),
        x.len() == y.len(),
        lbv_nat(y) != 0,
    ensures
        all_known(spec_udiv(x, y)),
        all_known(spec_urem(x, y)),
        lbv_nat(spec_udiv(x, y)) * lbv_nat(y) + lbv_nat(spec_urem(x, y)) == lbv_nat(x),
        lbv_nat(spec_urem(x, y)) < lbv_nat(y),
{
    let a = lbv_nat(x);
    let b = lbv_nat(y);
    lemma_lbv_nat_bound(x);
    let q = a / b;
    let r = a % b;
    assert(q <= a && r < b) by (nonlinear_arith)
        requires
            b >= 1,
            q == a / b,
            r == a % b,
    ;
    lemma_lbv_nat_bound(y);
    lemma_nat_bits_value(q, x.len());
    lemma_nat_bits_value(r, x.len());
    vstd::arithmetic::div_mod::lemma_fundamental_div_mod(a as int, b as int);
    assert(q * b == b * q) by (nonlinear_arith);
}

/// Stripping the low bit off both operands shifts the whole carry chain
/// down by one.
proof fn lemma_carry_shift(x: Seq<Lbool>, y: Seq<Lbool>, c0: Lbool, i: int)
    requires
        x.len() == y.len(),
        x.len() >= 1,
        1 <= i <= x.len(),
    ensures
        spec_carry(x, y, c0, i) == spec_carry(
            x.subrange(1, x.len() as int),
            y.subrange(1, y.len() as int),
            fa_carry(x[0], y[0], c0),
            i - 1,
        ),
    decreases i,
{
    let x1 = x.subrange(1, x.len() as int);
    let y1 = y.subrange(1, y.len() as int);
    let c1 = fa_carry(x[0], y[0], c0);
    if i == 1 {
        assert(spec_carry(x, y, c0, 1) == fa_carry(x[0], y[0], spec_carry(x, y, c0, 0)));
        assert(spec_carry(x1, y1, c1, 0) == c1);
    } else {
        lemma_carry_shift(x, y, c0, i - 1);
        assert(x1[i - 2] == x[i - 1]);
        assert(y1[i - 2] == y[i - 1]);
        assert(spec_carry(x, y, c0, i) == fa_carry(x[i - 1], y[i - 1], spec_carry(x, y, c0, i - 1)));
        assert(spec_carry(x1, y1, c1, i - 1) == fa_carry(
            x1[i - 2],
            y1[i - 2],
            spec_carry(x1, y1, c1, i - 2),
        ));
    }
}

/// The value of a known three-valued bit.
pub open spec fn lb_val(b: Lbool) -> nat {
    if b is True {
        1
    } else {
        0
    }
}

/// A known ripple chain computes binary addition exactly: the result plus
/// the weighted carry-out equals the sum of the operands and the carry-in.
proof fn lemma_ripple_value(x: Seq<Lbool>, y: Seq<Lbool>, c0: Lbool)
    requires
        x.len() == y.len(),
        all_known(x),
        all_known(y),
        !(c0 is Unknown),
    ensures
        all_known(spec_ripple(x, y, c0)),
        lbv_nat(spec_ripple(x, y, c0)) + pow2(x.len()) * lb_val(
            spec_carry(x, y, c0, x.len() as int),
        ) == lbv_nat(x) + lbv_nat(y) + lb_val(c0),
    decreases x.len(),
{
    vstd::arithmetic::power2::lemma2_to64();
    let r = spec_ripple(x, y, c0);
    if x.len() == 0 {
    } else {
        let l = x.len() as int;
        let x1 = x.subrange(1, l);
        let y1 = y.subrange(1, l);
        let c1 = fa_carry(x[0], y[0], c0);
        lemma_ripple_value(x1, y1, c1);
        let r1 = spec_ripple(x1, y1, c1);
        assert forall|i: int| 0 <= i < l - 1 implies r.subrange(1, l)[i] == r1[i] by {
            lemma_carry_shift(x, y, c0, i + 1);
        }
        assert(r.subrange(1, l) =~= r1);
        assert(r[0] == fa_sum(x[0], y[0], c0));
        assert forall|i: int| 0 <= i < l implies !((#[trigger] r[i]) is Unknown) by {
            if i >= 1 {
                assert(r[i] == r.subrange(1, l)[i - 1]);
            }
        }
        let co = spec_carry(x, y, c0, l);
        lemma_carry_shift(x, y, c0, l);
        assert(co == spec_carry(x1, y1, c1, l - 1));
        // one full adder over known bits: sum + 2 * carry == x + y + c
        assert(lb_val(fa_sum(x[0], y[0], c0)) + 2 * lb_val(c1) == lb_val(x[0]) + lb_val(y[0])
            + lb_val(c0));
        assert(lbv_nat(r) == lb_val(r[0]) + 2 * lbv_nat(r1));
        assert(lbv_nat(x) == lb_val(x[0]) + 2 * lbv_nat(x1));
        assert(lbv_nat(y) == lb_val(y[0]) + 2 * lbv_nat(y1));
        lemma_pow2_adds(1, (l - 1) as nat);
        assert(pow2(l as nat) * lb_val(co) == 2 * (pow2((l - 1) as nat) * lb_val(co)))
            by (nonlinear_arith)
            requires
                pow2(l as nat) == 2 * pow2((l - 1) as nat),
        ;
    }
}

/// Addition of fully-known vectors is addition modulo `2^w`.
pub proof fn lemma_add_arith(x: Seq<Lbool>, y: Seq<Lbool>)
    requires
        x.len() == y.len(),
        all_known(x),
        all_known(y),
    ensures
        all_known(spec_add3(x, y)),
        lbv_nat(spec_add3(x, y)) == ((lbv_nat(x) + lbv_nat(y)) as int) % (pow2(x.len()) as int),
{
    lemma_ripple_value(x, y, Lbool::False);
    let r = spec_add3(x, y);
    let co = lb_val(spec_carry(x, y, Lbool::False, x.len() as int));
    lemma_lbv_nat_bound(r);
    lemma_pow2_pos(x.len());
    let pw = pow2(x.len()) as int;
    let sum = (lbv_nat(x) + lbv_nat(y)) as int;
    if co == 0 {
        assert(lbv_nat(r) == sum);
    } else {
        assert(co == 1);
        assert(lbv_nat(r) == sum - pw);
        vstd::arithmetic::div_mod::lemma_mod_sub_multiples_vanish(sum, pw);
    }
    vstd::arithmetic::div_mod::lemma_small_mod(lbv_nat(r), pow2(x.len()));
}

/// The complement of a fully-known vector decodes to `2^w - 1 - v`.
proof fn lemma_not_value(y: Seq<Lbool>)
    requires
        all_known(y),
    ensures
        all_known(spec_not(y)),
        lbv_nat(spec_not(y)) == pow2(y.len()) - 1 - lbv_nat(y),
    decreases y.len(),
{
    vstd::arithmetic::power2::lemma2_to64();
    if y.len() > 0 {
        let l = y.len() as int;
        let y1 = y.subrange(1, l);
        lemma_not_value(y1);
        assert(spec_not(y).subrange(1, l) =~= spec_not(y1));
        lemma_lbv_nat_bound(y1);
        lemma_pow2_adds(1, (l - 1) as nat);
    }
}

/// Subtraction of fully-known vectors is subtraction modulo `2^w`.
pub proof fn lemma_sub_arith(x: Seq<Lbool>, y: Seq<Lbool>)
    requires
        x.len() == y.len(),
        all_known(x),
        all_known(y),
    ensures
        all_known(spec_sub3(x, y)),
        lbv_nat(spec_sub3(x, y)) == (lbv_nat(x) + pow2(x.len()) - lbv_nat(y)) % (pow2(
            x.len(),
        ) as int),
{
    let ny = spec_not(y);
    lemma_not_value(y);
    lemma_ripple_value(x, ny, Lbool::True);
    let r = spec_sub3(x, y);
    let co = lb_val(spec_carry(x, ny, Lbool::True, x.len() as int));
    lemma_lbv_nat_bound(r);
    lemma_lbv_nat_bound(y);
    lemma_pow2_pos(x.len());
    let pw = pow2(x.len()) as int;
    let diff = lbv_nat(x) + pw - lbv_nat(y);
    assert(lbv_nat(r) + pw * co == lbv_nat(x) + (pw - 1 - lbv_nat(y)) + 1);
    if co == 0 {
        assert(lbv_nat(r) == diff);
    } else {
        assert(co == 1);
        assert(lbv_nat(r) == diff - pw);
        vstd::arithmetic::div_mod::lemma_mod_sub_multiples_vanish(diff, pw);
    }
    vstd::arithmetic::div_mod::lemma_small_mod(lbv_nat(r), pow2(x.len()));
}

/// The bitwise negation ripple agrees with subtracting from zero, for all
/// inputs, known or not.
pub proof fn lemma_neg_is_sub_from_zero(x: Seq<Lbool>)
    requires
        x.len() >= 1,
    ensures
        spec_neg(x) =~= spec_sub3(Seq::new(x.len(), |i: int| Lbool::False), x),
{
    let z = Seq::new(x.len(), |i: int| Lbool::False);
    let ny = spec_not(x);
    assert forall|i: int| 1 <= i <= x.len() implies spec_neg_carry(x, i) == spec_carry(
        z,
        ny,
        Lbool::True,
        i,
    ) by {
        lemma_neg_carry_eq(x, i);
    }
    assert forall|i: int| 0 <= i < x.len() implies spec_neg(x)[i] == spec_sub3(z, x)[i] by {
        if i == 0 {
        } else {
            lemma_neg_carry_eq(x, i);
        }
    }
}

proof fn lemma_neg_carry_eq(x: Seq<Lbool>, i: int)
    requires
        x.len() >= 1,
        1 <= i <= x.len(),
    ensures
        spec_neg_carry(x, i) == spec_carry(
            Seq::new(x.len(), |j: int| Lbool::False),
            spec_not(x),
            Lbool::True,
            i,
        ),
    decreases i,
{
    let z = Seq::new(x.len(), |j: int| Lbool::False);
    let ny = spec_not(x);
    if i == 1 {
        assert(spec_carry(z, ny, Lbool::True, 0) == Lbool::True);
        assert(spec_carry(z, ny, Lbool::True, 1) == fa_carry(z[0], ny[0], Lbool::True));
        assert(fa_carry(Lbool::False, ny[0], Lbool::True) == ny[0]);
    } else {
        lemma_neg_carry_eq(x, i - 1);
        assert(spec_carry(z, ny, Lbool::True, i) == fa_carry(
            z[i - 1],
            ny[i - 1],
            spec_carry(z, ny, Lbool::True, i - 1),
        ));
        assert(fa_carry(Lbool::False, ny[i - 1], spec_neg_carry(x, i - 1)) == lb_and(
            spec_neg_carry(x, i - 1),
            ny[i - 1],
        ));
    }
}

/// Negation of a fully-known vector decodes to `(2^w - v) mod 2^w`.
pub proof fn lemma_neg_arith(x: Seq<Lbool>)
    requires
        x.len() >= 1,
        all_known(x),
    ensures
        all_known(spec_neg(x)),
        lbv_nat(spec_neg(x)) == (pow2(x.len()) - lbv_nat(x)) % (pow2(x.len()) as int),
{
    let z = Seq::new(x.len(), |i: int| Lbool::False);
    lemma_neg_is_sub_from_zero(x);
    lemma_zeros_value(x.len() as int);
    assert(lbv_nat(z) == 0);
    lemma_sub_arith(z, x);
}

proof fn lemma_zeros_value(w: int)
    requires
        w >= 0,
    ensures
        lbv_nat(Seq::new(w as nat, |i: int| Lbool::False)) == 0,
        all_known(Seq::new(w as nat, |i: int| Lbool::False)),
    decreases w,
{
    let z = Seq::new(w as nat, |i: int| Lbool::False);
    if w > 0 {
        lemma_zeros_value(w - 1);
        assert(z.subrange(1, w) =~= Seq::new((w - 1) as nat, |i: int| Lbool::False));
    }
}

/// The signed-modulo result always carries the divisor's sign or is zero:
/// for a positive divisor it encodes a value in `[0, divisor)`, for a
/// negative divisor it is zero or encodes a negative value above the
/// divisor.
pub proof fn lemma_smod_sign(x: Seq<Lbool>, y: Seq<Lbool>)
    requires
        all_known(x),
        all_known(y),
        x.len() == y.len(),
        x.len() >= 1,
        lbv_nat(y) != 0,
    ensures
        all_known(spec_smod(x, y)),
        as_int(y) > 0 ==> lbv_nat(spec_smod(x, y)) < as_int(y),
        as_int(y) < 0 ==> (lbv_nat(spec_smod(x, y)) == 0 || lbv_nat(spec_smod(x, y)) >= pow2(
            x.len(),
        ) + as_int(y)),
{
    let w = x.len();
    let pw = pow2(w);
    let xi = as_int(x);
    let yi = as_int(y);
    lemma_sign_magnitude(x, w);
    lemma_sign_magnitude(y, w);
    let mx = vstd::math::abs(xi);
    let my = vstd::math::abs(yi);
    let rm = (mx as int) % (my as int);
    assert(my >= 1);
    assert(0 <= rm < my) by (nonlinear_arith)
        requires
            my >= 1,
            rm == (mx as int) % (my as int),
    ;
    let r0 = trunc_rem(xi, yi);
    assert(r0 == if xi >= 0 {
        rm
    } else {
        -rm
    });
    let m = if r0 != 0 && ((r0 < 0) != (yi < 0)) {
        r0 + yi
    } else {
        r0
    };
    assert(spec_smod(x, y) == int_bits(m, w));
    lemma_pow2_pos(w);
    vstd::arithmetic::power2::lemma2_to64();
    assert(my < pw) by {
        lemma_pow2_adds((w - 1) as nat, 1);
    }
    if yi > 0 {
        assert(0 <= m < yi);
        lemma_pos_mod(m as nat, pw);
        lemma_nat_bits_value(m as nat, w);
    } else {
        assert(yi < 0);
        assert(yi < m <= 0);
        if m == 0 {
            lemma_pos_mod(0, pw);
            lemma_nat_bits_value(0, w);
        } else {
            lemma_neg_mod((-m) as nat, pw);
            assert((m % (pw as int)) as nat == (pw as int + m) as nat);
            lemma_nat_bits_value((pw as int + m) as nat, w);
        }
    }
}

/// On fully-known prefixes the comparison scan computes exactly the
/// unsigned order of the prefix values.
proof fn lemma_ult_bit_arith(x: Seq<Lbool>, y: Seq<Lbool>, n: int)
    requires
        all_known(x),
        all_known(y),
        x.len() == y.len(),
        0 <= n <= x.len(),
    ensures
        spec_ult_bit(x, y, n) == lb_from_bool(
            lbv_nat(x.subrange(0, n)) < lbv_nat(y.subrange(0, n)),
        ),
    decreases n,
{
    if n == 0 {
        assert(x.subrange(0, 0) =~= Seq::<Lbool>::empty());
        assert(y.subrange(0, 0) =~= Seq::<Lbool>::empty());
    } else {
        lemma_ult_bit_arith(x, y, n - 1);
        let xp = x.subrange(0, n);
        let yp = y.subrange(0, n);
        lemma_lbv_nat_top(xp);
        lemma_lbv_nat_top(yp);
        assert(xp.subrange(0, n - 1) =~= x.subrange(0, n - 1));
        assert(yp.subrange(0, n - 1) =~= y.subrange(0, n - 1));
        lemma_lbv_nat_bound(x.subrange(0, n - 1));
        lemma_lbv_nat_bound(y.subrange(0, n - 1));
        assert(xp[n - 1] == x[n - 1]);
        assert(yp[n - 1] == y[n - 1]);
    }
}

/// Unsigned less-than over fully-known vectors is the order of their
/// values.
pub proof fn lemma_ult_arith(x: Seq<Lbool>, y: Seq<Lbool>)
    requires
        all_known(x),
        all_known(y),
        x.len() == y.len(),
    ensures
        spec_ult(x, y) =~= seq![lb_from_bool(lbv_nat(x) < lbv_nat(y))],
{
    lemma_ult_bit_arith(x, y, x.len() as int);
    assert(x.subrange(0, x.len() as int) =~= x);
    assert(y.subrange(0, y.len() as int) =~= y);
}

/// The vector algebra mirrors the scalar one: double negation is the
/// identity, and conjunction with a known all-false vector is all-false
/// whatever the other operand's unknown bits.
pub proof fn lemma_vec_algebra(a: Seq<Lbool>, w: nat)
    requires
        a.len() == w,
    ensures
        spec_not(spec_not(a)) =~= a,
        spec_and(a, Seq::new(w, |i: int| Lbool::False)) =~= Seq::new(w, |i: int| Lbool::False),
        spec_and(Seq::new(w, |i: int| Lbool::False), a) =~= Seq::new(w, |i: int| Lbool::False),
        spec_or(a, Seq::new(w, |i: int| Lbool::True)) =~= Seq::new(w, |i: int| Lbool::True),
{
}

/// Signed less-than over fully-known vectors is the order of their
/// two's-complement values.
pub proof fn lemma_slt_arith(x: Seq<Lbool>, y: Seq<Lbool>)
    requires
        all_known(x),
        all_known(y),
        x.len() == y.len(),
        x.len() >= 1,
    ensures
        spec_slt(x, y) =~= seq![lb_from_bool(as_int(x) < as_int(y))],
{
    let w = x.len();
    lemma_sign_magnitude(x, w);
    lemma_sign_magnitude(y, w);
    lemma_lbv_nat_top(x);
    lemma_lbv_nat_top(y);
    let xs = x[w - 1];
    let ys = y[w - 1];
    if xs == ys {
        lemma_ult_bit_arith(x, y, w - 1);
        assert(lbv_nat(x.subrange(0, w - 1)) == lbv_nat(x) - (if xs is True {
            pow2((w - 1) as nat)
        } else {
            0nat
        }));
        assert(lbv_nat(y.subrange(0, w - 1)) == lbv_nat(y) - (if ys is True {
            pow2((w - 1) as nat)
        } else {
            0nat
        }));
    }
}

} // verus!
