//! A plain CNF store: a clause list together with the highest variable in
//! use, plus simplifying allocation of conjunction and disjunction gates.
use crate::litvvec::{spec_cnf_and, spec_cnf_or, LitVvec};
use crate::{Lit, Var};
use vstd::prelude::*;

verus! {

/// The highest variable mentioned in a clause, folded over `init`.
pub open spec fn max_var_of(cls: Seq<Lit>, init: nat) -> nat
    decreases cls.len(),
{
    if cls.len() == 0 {
        init
    } else {
        let rest = max_var_of(cls.drop_last(), init);
        if cls.last().spec_var().0 > rest {
            cls.last().spec_var().0 as nat
        } else {
            rest
        }
    }
}


/// The literals that survive constant folding of a conjunction: every
/// constant-true input is dropped, order kept.
pub open spec fn drop_true_consts(s: Seq<Lit>) -> Seq<Lit>
    decreases s.len(),
{
    if s.len() == 0 {
        Seq::empty()
    } else {
        let rest = drop_true_consts(s.drop_last());
        if s.last() == Lit::spec_constant(true) {
            rest
        } else {
            rest.push(s.last())
        }
    }
}

/// The literals that survive constant folding of a disjunction: every
/// constant-false input is dropped, order kept.
pub open spec fn drop_false_consts(s: Seq<Lit>) -> Seq<Lit>
    decreases s.len(),
{
    if s.len() == 0 {
        Seq::empty()
    } else {
        let rest = drop_false_consts(s.drop_last());
        if s.last() == Lit::spec_constant(false) {
            rest
        } else {
            rest.push(s.last())
        }
    }
}

/// Every survivor of the folding is one of the inputs.
proof fn lemma_drop_true_consts_vars(s: Seq<Lit>, bound: nat)
    requires
        forall|i: int| 0 <= i < s.len() ==> (#[trigger] s[i]).spec_var().0 <= bound,
    ensures
        forall|i: int|
            0 <= i < drop_true_consts(s).len() ==> (#[trigger] drop_true_consts(
                s,
            )[i]).spec_var().0 <= bound,
    decreases s.len(),
{
    if s.len() > 0 {
        assert(forall|i: int|
            0 <= i < s.len() - 1 ==> (#[trigger] s.drop_last()[i]).spec_var().0 <= bound);
        lemma_drop_true_consts_vars(s.drop_last(), bound);
        assert(s.last() == s[s.len() - 1]);
        let rest = drop_true_consts(s.drop_last());
        assert forall|i: int|
            0 <= i < drop_true_consts(s).len() implies (#[trigger] drop_true_consts(
            s,
        )[i]).spec_var().0 <= bound by {
            if s.last() != Lit::spec_constant(true) && i == rest.len() {
                assert(drop_true_consts(s)[i] == s.last());
            }
        }
    }
}

proof fn lemma_drop_false_consts_vars(s: Seq<Lit>, bound: nat)
    requires
        forall|i: int| 0 <= i < s.len() ==> (#[trigger] s[i]).spec_var().0 <= bound,
    ensures
        forall|i: int|
            0 <= i < drop_false_consts(s).len() ==> (#[trigger] drop_false_consts(
                s,
            )[i]).spec_var().0 <= bound,
    decreases s.len(),
{
    if s.len() > 0 {
        assert(forall|i: int|
            0 <= i < s.len() - 1 ==> (#[trigger] s.drop_last()[i]).spec_var().0 <= bound);
        lemma_drop_false_consts_vars(s.drop_last(), bound);
        assert(s.last() == s[s.len() - 1]);
        let rest = drop_false_consts(s.drop_last());
        assert forall|i: int|
            0 <= i < drop_false_consts(s).len() implies (#[trigger] drop_false_consts(
            s,
        )[i]).spec_var().0 <= bound by {
            if s.last() != Lit::spec_constant(false) && i == rest.len() {
                assert(drop_false_consts(s)[i] == s.last());
            }
        }
    }
}

pub struct Cnf {
    max_var: Var,
    cls: Vec<Vec<Lit>>,
}

impl Cnf {
    pub closed spec fn spec_max_var(self) -> Var {
        self.max_var
    }

    pub closed spec fn spec_clauses(self) -> Seq<Seq<Lit>> {
        Seq::new(self.cls@.len(), |i: int| self.cls@[i]@)
    }

    /// The store is consistent when every clause mentions only variables at
    /// or below `max_var`, and `max_var` leaves room for fresh literals.
    pub closed spec fn wf(self) -> bool {
        &&& self.max_var.0 < 0x8000_0000u32
        &&& forall|i: int, j: int|
            0 <= i < self.cls@.len() && 0 <= j < self.cls@[i]@.len()
                ==> (#[trigger] self.cls@[i]@[j]).spec_var().0 <= self.max_var.0
    }

    /// A fresh store holding only the clause that fixes the reserved
    /// constant variable.
    pub fn new() -> (r: Cnf)
        ensures
            r.wf(),
            r.spec_max_var() == Var(0u32),
            r.spec_clauses() =~= seq![seq![Lit::spec_constant(true)]],
    {
        let mut cls: Vec<Vec<Lit>> = Vec::new();
        let mut c: Vec<Lit> = Vec::new();
        c.push(Lit::constant(true));
        cls.push(c);
        let r = Cnf { max_var: Var(0), cls };
        proof {
            assert(r.spec_clauses() =~~= seq![seq![Lit::spec_constant(true)]]);
        }
        r
    }

    pub fn max_var(&self) -> (r: Var)
        ensures
            r == self.spec_max_var(),
    {
        self.max_var
    }

    /// Allocate a fresh variable above everything in the store.
    pub fn new_var(&mut self) -> (r: Var)
        requires
            old(self).wf(),
            old(self).spec_max_var().0 + 1 < 0x8000_0000,
        ensures
            final(self).wf(),
            r.0 == old(self).spec_max_var().0 + 1,
            final(self).spec_max_var() == r,
            final(self).spec_clauses() == old(self).spec_clauses(),
            r.0 < 0x8000_0000u32,
    {
        self.max_var = Var(self.max_var.0 + 1);
        self.max_var
    }

    /// Raise `max_var` at least to `n`.
    pub fn new_var_to(&mut self, n: Var)
        requires
            old(self).wf(),
            n.0 < 0x8000_0000u32,
        ensures
            final(self).wf(),
            final(self).spec_max_var().0 == if n.0 > old(self).spec_max_var().0 {
                n.0
            } else {
                old(self).spec_max_var().0
            },
            final(self).spec_clauses() == old(self).spec_clauses(),
    {
        if n.0 > self.max_var.0 {
            self.max_var = n;
        }
    }

    /// Append one clause, raising `max_var` to cover it.
    pub fn add_clause(&mut self, cls: &Vec<Lit>)
        requires
            old(self).wf(),
            max_var_of(cls@, old(self).spec_max_var().0 as nat) < 0x8000_0000,
        ensures
            final(self).wf(),
            final(self).spec_clauses() =~= old(self).spec_clauses().push(cls@),
            final(self).spec_max_var().0 == max_var_of(cls@, old(self).spec_max_var().0 as nat),
    {
        let mut m = self.max_var;
        let mut i: usize = 0;
        while i < cls.len()
            invariant
                i <= cls@.len(),
                m.0 == max_var_of(cls@.take(i as int), old(self).spec_max_var().0 as nat),
                m.0 < 0x8000_0000u32,
                max_var_of(cls@, old(self).spec_max_var().0 as nat) < 0x8000_0000,
                self == old(self),
            decreases cls@.len() - i,
        {
            let v = cls[i].var();
            proof {
                assert(cls@.take(i + 1).drop_last() =~= cls@.take(i as int));
                assert(cls@.take(i + 1).last() == cls@[i as int]);
                lemma_max_var_of_bound(cls@, old(self).spec_max_var().0 as nat, i + 1);
            }
            if v.0 > m.0 {
                m = v;
            }
            i += 1;
        }
        proof {
            assert(cls@.take(cls@.len() as int) =~= cls@);
        }
        self.max_var = m;
        let mut copy: Vec<Lit> = Vec::new();
        let mut j: usize = 0;
        while j < cls.len()
            invariant
                j <= cls@.len(),
                copy@ =~= cls@.take(j as int),
            decreases cls@.len() - j,
        {
            copy.push(cls[j]);
            proof {
                assert(cls@.take(j as int).push(cls@[j as int]) =~= cls@.take(j + 1));
            }
            j += 1;
        }
        proof {
            assert(copy@ =~= cls@);
        }
        self.cls.push(copy);
        proof {
            assert(self.spec_clauses() =~= old(self).spec_clauses().push(cls@));
            lemma_max_var_of_all(cls@, old(self).spec_max_var().0 as nat);
        }
    }

    /// Append a whole clause set.
    pub fn add_clauses(&mut self, cls: &LitVvec)
        requires
            old(self).wf(),
            forall|i: int, j: int|
                0 <= i < cls@.len() && 0 <= j < cls@[i].len()
                    ==> (#[trigger] cls@[i][j]).spec_var().0 < 0x8000_0000,
        ensures
            final(self).wf(),
            final(self).spec_clauses() =~= old(self).spec_clauses() + cls@,
            final(self).spec_max_var().0 >= old(self).spec_max_var().0,
            (forall|i: int, j: int|
                0 <= i < cls@.len() && 0 <= j < cls@[i].len()
                    ==> (#[trigger] cls@[i][j]).spec_var().0 <= old(self).spec_max_var().0)
                ==> final(self).spec_max_var() == old(self).spec_max_var(),
    {
        let n = cls.len();
        let mut i: usize = 0;
        while i < n
            invariant
                i <= n,
                n == cls@.len(),
                self.wf(),
                self.spec_clauses() =~= old(self).spec_clauses() + cls@.take(i as int),
                self.spec_max_var().0 >= old(self).spec_max_var().0,
                (forall|a: int, b: int|
                    0 <= a < cls@.len() && 0 <= b < cls@[a].len()
                        ==> (#[trigger] cls@[a][b]).spec_var().0 <= old(self).spec_max_var().0)
                    ==> self.spec_max_var() == old(self).spec_max_var(),
                forall|a: int, b: int|
                    0 <= a < cls@.len() && 0 <= b < cls@[a].len()
                        ==> (#[trigger] cls@[a][b]).spec_var().0 < 0x8000_0000,
            decreases n - i,
        {
            let c = cls.get(i);
            let ghost prev = self.spec_max_var().0 as nat;
            proof {
                lemma_max_var_of_small(c@, prev);
            }
            self.add_clause(c);
            proof {
                lemma_max_var_of_all(cls@[i as int], prev);
                lemma_max_var_of_le(cls@[i as int], prev);
                assert((old(self).spec_clauses() + cls@.take(i as int)).push(cls@[i as int]) =~= old(
                    self,
                ).spec_clauses() + cls@.take(i + 1));
            }
            i += 1;
        }
        proof {
            assert(cls@.take(n as int) =~= cls@);
        }
    }

    /// The stored clauses.
    pub fn clauses(&self) -> (r: &Vec<Vec<Lit>>)
        ensures
            r@.len() == self.spec_clauses().len(),
            forall|i: int|
                0 <= i < r@.len() ==> (#[trigger] r@[i])@ == self.spec_clauses()[i],
    {
        &self.cls
    }

    /// Replace the clause list wholesale; the clauses must stay within the
    /// allocated variables.
    pub fn set_cls(&mut self, cls: Vec<Vec<Lit>>)
        requires
            old(self).wf(),
            forall|i: int, j: int|
                0 <= i < cls@.len() && 0 <= j < cls@[i]@.len()
                    ==> (#[trigger] cls@[i]@[j]).spec_var().0 <= old(self).spec_max_var().0,
        ensures
            final(self).wf(),
            final(self).spec_max_var() == old(self).spec_max_var(),
            final(self).spec_clauses().len() == cls@.len(),
            forall|i: int|
                0 <= i < cls@.len() ==> final(self).spec_clauses()[i] == (#[trigger] cls@[i])@,
    {
        self.cls = cls;
    }

    /// Allocate a literal equal to the conjunction of `ands`, folding
    /// constants away: a constant-false input gives the constant-false
    /// literal, constant-true inputs are dropped, and a single survivor is
    /// returned unchanged; only two or more survivors allocate a gate.
    pub fn new_and(&mut self, ands: &Vec<Lit>) -> (r: Lit)
        requires
            old(self).wf(),
            old(self).spec_max_var().0 + 1 < 0x8000_0000,
            forall|i: int|
                0 <= i < ands@.len() ==> (#[trigger] ands@[i]).spec_var().0 <= old(
                    self,
                ).spec_max_var().0,
        ensures
            final(self).wf(),
            final(self).spec_max_var().0 >= old(self).spec_max_var().0,
            (exists|i: int|
                0 <= i < ands@.len() && #[trigger] ands@[i] == Lit::spec_constant(false)) ==> (r
                == Lit::spec_constant(false) && *final(self) == *old(self)),
            !(exists|i: int|
                0 <= i < ands@.len() && #[trigger] ands@[i] == Lit::spec_constant(false)) ==> {
                let kept = drop_true_consts(ands@);
                &&& kept.len() == 0 ==> (r == Lit::spec_constant(true) && *final(self) == *old(
                    self,
                ))
                &&& kept.len() == 1 ==> (r == kept[0] && *final(self) == *old(self))
                &&& kept.len() >= 2 ==> {
                    &&& r == Lit::spec_new(Var((old(self).spec_max_var().0 + 1) as u32), true)
                    &&& final(self).spec_max_var().0 == old(self).spec_max_var().0 + 1
                    &&& final(self).spec_clauses() =~= old(self).spec_clauses() + spec_cnf_and(
                        r,
                        kept,
                    )
                }
            },
    {
        let mut and: Vec<Lit> = Vec::new();
        let mut i: usize = 0;
        proof {
            assert(drop_true_consts(ands@.take(0)) =~= Seq::<Lit>::empty());
        }
        while i < ands.len()
            invariant
                i <= ands@.len(),
                self == old(self),
                self.wf(),
                forall|k: int|
                    0 <= k < ands@.len() ==> (#[trigger] ands@[k]).spec_var().0 <= self.max_var.0,
                forall|k: int| 0 <= k < i ==> #[trigger] ands@[k] != Lit::spec_constant(false),
                and@ =~= drop_true_consts(ands@.take(i as int)),
                forall|k: int|
                    0 <= k < and@.len() ==> (#[trigger] and@[k]).spec_var().0 <= self.max_var.0,
            decreases ands@.len() - i,
        {
            let a = ands[i];
            if a.is_constant(false) {
                return Lit::constant(false);
            }
            proof {
                assert(ands@.take(i + 1).drop_last() =~= ands@.take(i as int));
                assert(ands@.take(i + 1).last() == ands@[i as int]);
            }
            if !a.is_constant(true) {
                and.push(a);
            }
            i += 1;
        }
        proof {
            assert(ands@.take(ands@.len() as int) =~= ands@);
        }
        if and.len() == 0 {
            Lit::constant(true)
        } else if and.len() == 1 {
            and[0]
        } else {
            let n = self.new_var().lit();
            let cs = LitVvec::cnf_and(n, &and);
            proof {
                let kept = and@;
                assert forall|l: Lit| (#[trigger] l.spec_not()).spec_var() == l.spec_var() by {
                    let z = l.0;
                    assert((z ^ 1) / 2 == z / 2) by (bit_vector);
                }
                assert forall|a: int, b: int|
                    0 <= a < cs@.len() && 0 <= b < cs@[a].len() implies (#[trigger] cs@[a][b])
                    .spec_var().0 < 0x8000_0000 by {
                    if a < kept.len() {
                        assert(cs@[a] == seq![n.spec_not(), kept[a]]);
                    } else {
                        assert(cs@[a] == seq![n] + Seq::new(kept.len(), |i: int| kept[i].spec_not()));
                        if b >= 1 {
                            assert(cs@[a][b] == kept[b - 1].spec_not());
                        }
                    }
                }
            }
            self.add_clauses(&cs);
            n
        }
    }

    /// Allocate a literal equal to the disjunction of `ors`, dually to
    /// `new_and`.
    pub fn new_or(&mut self, ors: &Vec<Lit>) -> (r: Lit)
        requires
            old(self).wf(),
            old(self).spec_max_var().0 + 1 < 0x8000_0000,
            forall|i: int|
                0 <= i < ors@.len() ==> (#[trigger] ors@[i]).spec_var().0 <= old(
                    self,
                ).spec_max_var().0,
        ensures
            final(self).wf(),
            final(self).spec_max_var().0 >= old(self).spec_max_var().0,
            (exists|i: int|
                0 <= i < ors@.len() && #[trigger] ors@[i] == Lit::spec_constant(true)) ==> (r
                == Lit::spec_constant(true) && *final(self) == *old(self)),
            !(exists|i: int|
                0 <= i < ors@.len() && #[trigger] ors@[i] == Lit::spec_constant(true)) ==> {
                let kept = drop_false_consts(ors@);
                &&& kept.len() == 0 ==> (r == Lit::spec_constant(false) && *final(self) == *old(
                    self,
                ))
                &&& kept.len() == 1 ==> (r == kept[0] && *final(self) == *old(self))
                &&& kept.len() >= 2 ==> {
                    &&& r == Lit::spec_new(Var((old(self).spec_max_var().0 + 1) as u32), true)
                    &&& final(self).spec_max_var().0 == old(self).spec_max_var().0 + 1
                    &&& final(self).spec_clauses() =~= old(self).spec_clauses() + spec_cnf_or(
                        r,
                        kept,
                    )
                }
            },
    {
        let mut or: Vec<Lit> = Vec::new();
        let mut i: usize = 0;
        proof {
            assert(drop_false_consts(ors@.take(0)) =~= Seq::<Lit>::empty());
        }
        while i < ors.len()
            invariant
                i <= ors@.len(),
                self == old(self),
                self.wf(),
                forall|k: int|
                    0 <= k < ors@.len() ==> (#[trigger] ors@[k]).spec_var().0 <= self.max_var.0,
                forall|k: int| 0 <= k < i ==> #[trigger] ors@[k] != Lit::spec_constant(true),
                or@ =~= drop_false_consts(ors@.take(i as int)),
                forall|k: int|
                    0 <= k < or@.len() ==> (#[trigger] or@[k]).spec_var().0 <= self.max_var.0,
            decreases ors@.len() - i,
        {
            let o = ors[i];
            if o.is_constant(true) {
                return Lit::constant(true);
            }
            proof {
                assert(ors@.take(i + 1).drop_last() =~= ors@.take(i as int));
                assert(ors@.take(i + 1).last() == ors@[i as int]);
            }
            if !o.is_constant(false) {
                or.push(o);
            }
            i += 1;
        }
        proof {
            assert(ors@.take(ors@.len() as int) =~= ors@);
        }
        if or.len() == 0 {
            Lit::constant(false)
        } else if or.len() == 1 {
            or[0]
        } else {
            let n = self.new_var().lit();
            let cs = LitVvec::cnf_or(n, &or);
            proof {
                let kept = or@;
                assert forall|l: Lit| (#[trigger] l.spec_not()).spec_var() == l.spec_var() by {
                    let z = l.0;
                    assert((z ^ 1) / 2 == z / 2) by (bit_vector);
                }
                assert forall|a: int, b: int|
                    0 <= a < cs@.len() && 0 <= b < cs@[a].len() implies (#[trigger] cs@[a][b])
                    .spec_var().0 < 0x8000_0000 by {
                    if a < kept.len() {
                        assert(cs@[a] == seq![n, kept[a].spec_not()]);
                    } else {
                        assert(cs@[a] == seq![n.spec_not()] + Seq::new(kept.len(), |i: int| kept[i]));
                        if b >= 1 {
                            assert(cs@[a][b] == kept[b - 1]);
                        }
                    }
                }
            }
            self.add_clauses(&cs);
            n
        }
    }
}


/// When every variable of the clause is at or below `init`, the fold leaves
/// `init` unchanged.
proof fn lemma_max_var_of_le(cls: Seq<Lit>, init: nat)
    ensures
        (forall|j: int| 0 <= j < cls.len() ==> (#[trigger] cls[j]).spec_var().0 <= init)
            ==> max_var_of(cls, init) == init,
    decreases cls.len(),
{
    if cls.len() > 0 {
        lemma_max_var_of_le(cls.drop_last(), init);
        if forall|j: int| 0 <= j < cls.len() ==> (#[trigger] cls[j]).spec_var().0 <= init {
            assert(forall|j: int|
                0 <= j < cls.len() - 1 ==> (#[trigger] cls.drop_last()[j]).spec_var().0 <= init);
            assert(cls.last() == cls[cls.len() - 1]);
        }
    }
}

/// `max_var_of` of a prefix never exceeds that of the whole clause.
proof fn lemma_max_var_of_bound(cls: Seq<Lit>, init: nat, n: int)
    requires
        0 <= n <= cls.len(),
    ensures
        max_var_of(cls.take(n), init) <= max_var_of(cls, init),
    decreases cls.len() - n,
{
    if n == cls.len() {
        assert(cls.take(n) =~= cls);
    } else {
        lemma_max_var_of_bound(cls, init, n + 1);
        assert(cls.take(n + 1).drop_last() =~= cls.take(n));
    }
}

/// Every variable of the clause, and the initial bound, stay at or below
/// the folded maximum.
proof fn lemma_max_var_of_all(cls: Seq<Lit>, init: nat)
    ensures
        init <= max_var_of(cls, init),
        forall|j: int|
            0 <= j < cls.len() ==> (#[trigger] cls[j]).spec_var().0 <= max_var_of(cls, init),
    decreases cls.len(),
{
    if cls.len() > 0 {
        lemma_max_var_of_all(cls.drop_last(), init);
        assert forall|j: int|
            0 <= j < cls.len() implies (#[trigger] cls[j]).spec_var().0 <= max_var_of(
            cls,
            init,
        ) by {
            if j < cls.len() - 1 {
                assert(cls.drop_last()[j] == cls[j]);
            }
        }
    }
}

/// When every variable of the clause stays below a bound that `init`
/// already respects, so does the folded maximum.
proof fn lemma_max_var_of_small(cls: Seq<Lit>, init: nat)
    requires
        init < 0x8000_0000,
        forall|j: int| 0 <= j < cls.len() ==> (#[trigger] cls[j]).spec_var().0 < 0x8000_0000,
    ensures
        max_var_of(cls, init) < 0x8000_0000,
    decreases cls.len(),
{
    if cls.len() > 0 {
        assert(forall|j: int|
            0 <= j < cls.len() - 1 ==> (#[trigger] cls.drop_last()[j]).spec_var().0
                < 0x8000_0000);
        lemma_max_var_of_small(cls.drop_last(), init);
    }
}

} // verus!
