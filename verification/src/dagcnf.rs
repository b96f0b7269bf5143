//! The boolean-DAG/CNF accumulator: it owns SAT variable allocation, stores
//! each variable's defining clauses, and records a dependency edge from a
//! variable to every other variable its defining clauses mention.
use crate::cnf::Cnf;
use crate::litvvec::LitVvec;
use crate::{Lit, Var};
use vstd::prelude::*;

verus! {

/// A partial, injective-by-use map from variables to variables.
pub struct VarVMap {
    m: Vec<Option<Var>>,
}

impl VarVMap {
    pub closed spec fn view(self) -> Seq<Option<Var>> {
        self.m@
    }

    pub open spec fn maps(self, v: Var, w: Var) -> bool {
        v.0 < self.view().len() && self.view()[v.0 as int] == Some(w)
    }

    pub fn new() -> (r: VarVMap)
        ensures
            r.view() =~= Seq::<Option<Var>>::empty(),
    {
        VarVMap { m: Vec::new() }
    }

    pub fn insert(&mut self, v: Var, w: Var)
        requires
            v.0 < usize::MAX,
        ensures
            final(self).maps(v, w),
            final(self).view().len() == if v.0 + 1 > old(self).view().len() {
                v.0 + 1
            } else {
                old(self).view().len() as int
            },
            forall|i: int|
                0 <= i < final(self).view().len() && i != v.0 ==> final(self).view()[i] == if i
                    < old(self).view().len() {
                    old(self).view()[i]
                } else {
                    None::<Var>
                },
    {
        let want = v.0 as usize + 1;
        while self.m.len() < want
            invariant
                forall|i: int|
                    0 <= i < old(self).view().len() ==> self.m@[i] == old(self).view()[i],
                forall|i: int|
                    old(self).view().len() <= i < self.m@.len() ==> self.m@[i] is None,
                self.m@.len() >= old(self).view().len(),
                self.m@.len() <= if want > old(self).view().len() {
                    want as int
                } else {
                    old(self).view().len() as int
                },
            decreases want - self.m.len(),
        {
            self.m.push(None);
        }
        self.m.set(v.0 as usize, Some(w));
    }

    pub fn get(&self, v: Var) -> (r: Option<Var>)
        ensures
            r == if v.0 < self.view().len() {
                self.view()[v.0 as int]
            } else {
                None::<Var>
            },
    {
        if (v.0 as usize) < self.m.len() {
            self.m[v.0 as usize]
        } else {
            None
        }
    }

    /// Swap domain and range: `inverse()[w] == v` exactly where
    /// `self[v] == w`. The map must not send two variables to one place.
    pub fn inverse(&self) -> (r: VarVMap)
        requires
            forall|i: int, j: int|
                0 <= i < j < self.view().len() && self.view()[i] is Some
                    ==> self.view()[i] != self.view()[j],
            forall|i: int|
                0 <= i < self.view().len() ==> match #[trigger] self.view()[i] {
                    Some(w) => w.0 < usize::MAX,
                    None => true,
                },
        ensures
            forall|v: Var, w: Var| self.maps(v, w) ==> r.maps(w, v),
    {
        let mut r = VarVMap::new();
        let mut i: usize = 0;
        while i < self.m.len()
            invariant
                i <= self.view().len(),
                forall|j: int|
                    0 <= j < self.view().len() ==> match #[trigger] self.view()[j] {
                        Some(w) => w.0 < usize::MAX,
                        None => true,
                    },
                forall|j: int|
                    0 <= j < i ==> match #[trigger] self.view()[j] {
                        Some(w) => r.maps(w, Var(j as u32)),
                        None => true,
                    },
                forall|j: int, k: int|
                    0 <= j < k < self.view().len() && self.view()[j] is Some ==> self.view()[j]
                        != self.view()[k],
            decreases self.view().len() - i,
        {
            match self.m[i] {
                Some(w) => {
                    r.insert(w, Var(i as u32));
                },
                None => {},
            }
            i += 1;
        }
        proof {
            assert forall|v: Var, w: Var| self.maps(v, w) implies r.maps(w, v) by {
                assert(self.view()[v.0 as int] == Some(w));
            }
        }
        r
    }
}

fn copy_clause(c: &Vec<Lit>) -> (r: Vec<Lit>)
    ensures
        r@ =~= c@,
{
    let mut r: Vec<Lit> = Vec::new();
    let mut i: usize = 0;
    while i < c.len()
        invariant
            i <= c@.len(),
            r@ =~= c@.take(i as int),
        decreases c@.len() - i,
    {
        r.push(c[i]);
        proof {
            assert(c@.take(i as int).push(c@[i as int]) =~= c@.take(i + 1));
        }
        i += 1;
    }
    proof {
        assert(c@.take(c@.len() as int) =~= c@);
    }
    r
}

/// The accumulator: one defining clause set and one dependency list per
/// allocated variable.
pub struct DagCnf {
    max_var: Var,
    rel: Vec<Vec<Vec<Lit>>>,
    dep: Vec<Vec<Var>>,
}

impl DagCnf {
    pub closed spec fn spec_max_var(self) -> Var {
        self.max_var
    }

    /// The defining clauses of every variable, in allocation order.
    pub closed spec fn spec_rel(self) -> Seq<Seq<Seq<Lit>>> {
        Seq::new(self.rel@.len(), |v: int| Seq::new(self.rel@[v]@.len(), |c: int| self.rel@[v]@[c]@))
    }

    /// The dependency edges of every variable.
    pub closed spec fn spec_dep(self) -> Seq<Seq<Var>> {
        Seq::new(self.dep@.len(), |v: int| self.dep@[v]@)
    }

    /// Every allocated variable has a slot; dependency edges point strictly
    /// downwards; clauses mention only allocated variables.
    pub open spec fn wf(self) -> bool {
        &&& self.spec_max_var().0 < 0x8000_0000u32
        &&& self.spec_rel().len() == self.spec_max_var().0 + 1
        &&& self.spec_dep().len() == self.spec_max_var().0 + 1
        &&& forall|v: int, k: int|
            0 <= v < self.spec_dep().len() && 0 <= k < self.spec_dep()[v].len()
                ==> (#[trigger] self.spec_dep()[v][k]).0 < v
        &&& forall|v: int, c: int, j: int|
            0 <= v < self.spec_rel().len() && 0 <= c < self.spec_rel()[v].len() && 0 <= j
                < self.spec_rel()[v][c].len() ==> (#[trigger] self.spec_rel()[v][c][j]).spec_var().0
                <= self.spec_max_var().0
    }

    /// The later accumulator keeps every allocated variable's clauses and
    /// edges.
    pub open spec fn extends(self, old: DagCnf) -> bool {
        &&& old.spec_max_var().0 <= self.spec_max_var().0
        &&& old.spec_rel().len() <= self.spec_rel().len()
        &&& forall|v: int|
            0 <= v < old.spec_rel().len() && v <= old.spec_max_var().0
                ==> #[trigger] self.spec_rel()[v] == old.spec_rel()[v] && self.spec_dep()[v]
                == old.spec_dep()[v]
    }

    /// A fresh accumulator: only the reserved constant variable, defined by
    /// the unit clause fixing the constant-true literal.
    pub fn new() -> (r: DagCnf)
        ensures
            r.wf(),
            r.spec_max_var() == Var(0u32),
            r.spec_rel().len() == 1,
            r.spec_rel()[0] =~~= seq![seq![Lit::spec_constant(true)]],
            r.spec_dep()[0] =~= Seq::<Var>::empty(),
    {
        let mut c: Vec<Lit> = Vec::new();
        c.push(Lit::constant(true));
        let mut cs: Vec<Vec<Lit>> = Vec::new();
        cs.push(c);
        let mut rel: Vec<Vec<Vec<Lit>>> = Vec::new();
        rel.push(cs);
        let mut dep: Vec<Vec<Var>> = Vec::new();
        dep.push(Vec::new());
        let r = DagCnf { max_var: Var(0), rel, dep };
        proof {
            assert(r.spec_rel()[0] =~~= seq![seq![Lit::spec_constant(true)]]);
            assert(r.spec_dep()[0] =~= Seq::<Var>::empty());
        }
        r
    }

    pub fn max_var(&self) -> (r: Var)
        ensures
            r == self.spec_max_var(),
    {
        self.max_var
    }

    pub fn num_var(&self) -> (r: usize)
        requires
            self.wf(),
        ensures
            r == self.spec_max_var().0 + 1,
    {
        self.rel.len()
    }

    /// Allocate a fresh variable with no defining clauses yet.
    pub fn new_var(&mut self) -> (r: Var)
        requires
            old(self).wf(),
            old(self).spec_max_var().0 + 1 < 0x8000_0000,
        ensures
            final(self).wf(),
            final(self).extends(*old(self)),
            r.0 == old(self).spec_max_var().0 + 1,
            final(self).spec_max_var() == r,
            final(self).spec_rel()[r.0 as int] =~= Seq::<Seq<Lit>>::empty(),
            r.0 < 0x8000_0000,
    {
        self.max_var = Var(self.max_var.0 + 1);
        self.rel.push(Vec::new());
        self.dep.push(Vec::new());
        proof {
            assert forall|v: int|
                0 <= v < old(self).spec_rel().len() implies #[trigger] self.spec_rel()[v] == old(self).spec_rel()[v] && self.spec_dep()[v] == old(self).spec_dep()[v] by {
                assert(self.spec_rel()[v] =~= old(self).spec_rel()[v]);
                assert(self.spec_dep()[v] =~= old(self).spec_dep()[v]);
            }
            assert(self.spec_rel()[self.max_var.0 as int] =~= Seq::<Seq<Lit>>::empty());
            assert(self.spec_dep()[self.max_var.0 as int] =~= Seq::<Var>::empty());
            assert forall|v: int, c: int, j: int|
                0 <= v < self.spec_rel().len() && 0 <= c < self.spec_rel()[v].len() && 0 <= j
                    < self.spec_rel()[v][c].len() implies (
            #[trigger] self.spec_rel()[v][c][j]).spec_var().0 <= self.spec_max_var().0 by {
                if v < old(self).spec_rel().len() {
                    assert(self.spec_rel()[v] == old(self).spec_rel()[v]);
                }
            }
            assert forall|v: int, k: int|
                0 <= v < self.spec_dep().len() && 0 <= k < self.spec_dep()[v].len() implies (
            #[trigger] self.spec_dep()[v][k]).0 < v by {
                if v < old(self).spec_dep().len() {
                    assert(self.spec_dep()[v] == old(self).spec_dep()[v]);
                }
            }
        }
        self.max_var
    }

    /// Register the defining clauses of `v` and record one dependency edge
    /// to every other variable the clauses mention, in strictly increasing
    /// order without repetition.
    pub fn add_rel(&mut self, v: Var, cls: &LitVvec)
        requires
            old(self).wf(),
            v.0 <= old(self).spec_max_var().0,
            forall|c: int, j: int|
                0 <= c < cls@.len() && 0 <= j < cls@[c].len() ==> (#[trigger] cls@[c][j]).spec_var().0
                    <= old(self).spec_max_var().0,
            forall|c: int, j: int|
                0 <= c < cls@.len() && 0 <= j < cls@[c].len() && (#[trigger] cls@[c][j]).spec_var()
                    != v ==> cls@[c][j].spec_var().0 < v.0,
        ensures
            final(self).wf(),
            final(self).spec_max_var() == old(self).spec_max_var(),
            final(self).spec_rel().len() == old(self).spec_rel().len(),
            final(self).spec_rel()[v.0 as int] =~= cls@,
            forall|w: int|
                0 <= w < old(self).spec_rel().len() && w != v.0
                    ==> #[trigger] final(self).spec_rel()[w] == old(self).spec_rel()[w] && final(self).spec_dep()[w] == old(self).spec_dep()[w],
            // the recorded edges are exactly the other variables mentioned
            forall|k: int|
                0 <= k < final(self).spec_dep()[v.0 as int].len()
                    ==> (#[trigger] final(self).spec_dep()[v.0 as int][k]).0 < v.0,
            forall|w: Var|
                final(self).spec_dep()[v.0 as int].contains(w) <==> (w.0 < v.0 && exists|c: int,
                j: int|
                    0 <= c < cls@.len() && 0 <= j < cls@[c].len() && (#[trigger] cls@[c][j]).spec_var()
                        == w),
            // deterministic order: strictly increasing
            forall|k1: int, k2: int|
                0 <= k1 < k2 < final(self).spec_dep()[v.0 as int].len() ==> (
                #[trigger] final(self).spec_dep()[v.0 as int][k1]).0 < (
                #[trigger] final(self).spec_dep()[v.0 as int][k2]).0,
    {
        let mut copy: Vec<Vec<Lit>> = Vec::new();
        let mut c: usize = 0;
        while c < cls.len()
            invariant
                c <= cls@.len(),
                copy@.len() == c,
                forall|k: int| 0 <= k < c ==> (#[trigger] copy@[k])@ == cls@[k],
            decreases cls@.len() - c,
        {
            let cc = copy_clause(cls.get(c));
            copy.push(cc);
            c += 1;
        }
        let mut deps: Vec<Var> = Vec::new();
        let mut c2: usize = 0;
        while c2 < cls.len()
            invariant
                c2 <= cls@.len(),
                forall|c3: int, j: int|
                    0 <= c3 < cls@.len() && 0 <= j < cls@[c3].len() && (
                    #[trigger] cls@[c3][j]).spec_var() != v ==> cls@[c3][j].spec_var().0 < v.0,
                forall|k1: int, k2: int|
                    0 <= k1 < k2 < deps@.len() ==> (#[trigger] deps@[k1]).0 < (
                    #[trigger] deps@[k2]).0,
                forall|k: int| 0 <= k < deps@.len() ==> (#[trigger] deps@[k]).0 < v.0,
                forall|w: Var|
                    deps@.contains(w) <==> (w.0 < v.0 && exists|c3: int, j: int|
                        0 <= c3 < c2 && 0 <= j < cls@[c3].len() && (
                        #[trigger] cls@[c3][j]).spec_var() == w),
            decreases cls@.len() - c2,
        {
            let clause = cls.get(c2);
            let mut j: usize = 0;
            while j < clause.len()
                invariant
                    j <= clause@.len(),
                    clause@ == cls@[c2 as int],
                    c2 < cls@.len(),
                    forall|c3: int, jj: int|
                        0 <= c3 < cls@.len() && 0 <= jj < cls@[c3].len() && (
                        #[trigger] cls@[c3][jj]).spec_var() != v ==> cls@[c3][jj].spec_var().0
                            < v.0,
                    forall|k1: int, k2: int|
                        0 <= k1 < k2 < deps@.len() ==> (#[trigger] deps@[k1]).0 < (
                        #[trigger] deps@[k2]).0,
                    forall|k: int| 0 <= k < deps@.len() ==> (#[trigger] deps@[k]).0 < v.0,
                    forall|w: Var|
                        deps@.contains(w) <==> (w.0 < v.0 && ((exists|c3: int, jj: int|
                            0 <= c3 < c2 && 0 <= jj < cls@[c3].len() && (
                            #[trigger] cls@[c3][jj]).spec_var() == w) || (exists|jj: int|
                            0 <= jj < j && (#[trigger] cls@[c2 as int][jj]).spec_var() == w))),
                decreases clause@.len() - j,
            {
                let w = clause[j].var();
                let ghost pre_deps = deps@;
                if w.0 != v.0 {
                    insert_sorted(&mut deps, w);
                }
                proof {
                    assert(cls@[c2 as int][j as int].spec_var() == w);
                    if w.0 == v.0 {
                        assert(w == v);
                    }
                    assert forall|k: int| 0 <= k < deps@.len() implies (#[trigger] deps@[k]).0
                        < v.0 by {
                        assert(deps@.contains(deps@[k]));
                        if !pre_deps.contains(deps@[k]) {
                            assert(deps@[k] == w);
                        }
                    }
                    assert forall|x: Var|
                        deps@.contains(x) <==> (x.0 < v.0 && ((exists|c3: int, jj: int|
                            0 <= c3 < c2 && 0 <= jj < cls@[c3].len() && (
                            #[trigger] cls@[c3][jj]).spec_var() == x) || (exists|jj: int|
                            0 <= jj < j + 1 && (#[trigger] cls@[c2 as int][jj]).spec_var()
                                == x))) by {
                        if deps@.contains(x) {
                            if pre_deps.contains(x) {
                            } else {
                                assert(x == w);
                                assert(cls@[c2 as int][j as int].spec_var() == x);
                            }
                        }
                        if x.0 < v.0 && ((exists|c3: int, jj: int|
                            0 <= c3 < c2 && 0 <= jj < cls@[c3].len() && (
                            #[trigger] cls@[c3][jj]).spec_var() == x) || (exists|jj: int|
                            0 <= jj < j + 1 && (#[trigger] cls@[c2 as int][jj]).spec_var() == x)) {
                            if pre_deps.contains(x) {
                                assert(deps@.contains(x));
                            } else {
                                assert(x == w);
                            }
                        }
                    }
                }
                j += 1;
            }
            proof {
                assert forall|w: Var|
                    deps@.contains(w) <==> (w.0 < v.0 && exists|c3: int, jj: int|
                        0 <= c3 < c2 + 1 && 0 <= jj < cls@[c3].len() && (
                        #[trigger] cls@[c3][jj]).spec_var() == w) by {}
            }
            c2 += 1;
        }
        self.rel.set(v.0 as usize, copy);
        self.dep.set(v.0 as usize, deps);
        proof {
            assert(self.spec_rel()[v.0 as int] =~= cls@);
            assert(self.spec_dep()[v.0 as int] == deps@);
            assert forall|w: int|
                0 <= w < old(self).spec_rel().len() && w != v.0 implies #[trigger] self.spec_rel()[w] == old(self).spec_rel()[w] && self.spec_dep()[w] == old(self).spec_dep()[w] by {
                assert(self.spec_rel()[w] =~= old(self).spec_rel()[w]);
            }
            assert forall|vv: int, c: int, j: int|
                0 <= vv < self.spec_rel().len() && 0 <= c < self.spec_rel()[vv].len() && 0 <= j
                    < self.spec_rel()[vv][c].len() implies (
            #[trigger] self.spec_rel()[vv][c][j]).spec_var().0 <= self.spec_max_var().0 by {
                if vv != v.0 {
                    assert(self.spec_rel()[vv] == old(self).spec_rel()[vv]);
                } else {
                    assert(self.spec_rel()[vv][c][j] == cls@[c][j]);
                }
            }
            assert forall|vv: int, k: int|
                0 <= vv < self.spec_dep().len() && 0 <= k < self.spec_dep()[vv].len() implies (
            #[trigger] self.spec_dep()[vv][k]).0 < vv by {
                if vv != v.0 {
                    assert(self.spec_dep()[vv] == old(self).spec_dep()[vv]);
                }
            }
        }
    }

    /// The defining clauses of one variable.
    pub fn rel_of(&self, v: Var) -> (r: &Vec<Vec<Lit>>)
        requires
            self.wf(),
            v.0 <= self.spec_max_var().0,
        ensures
            r@.len() == self.spec_rel()[v.0 as int].len(),
            forall|c: int|
                0 <= c < r@.len() ==> (#[trigger] r@[c])@ == self.spec_rel()[v.0 as int][c],
    {
        &self.rel[v.0 as usize]
    }

    /// The dependency edges of one variable.
    pub fn dep_of(&self, v: Var) -> (r: &Vec<Var>)
        requires
            self.wf(),
            v.0 <= self.spec_max_var().0,
        ensures
            r@ == self.spec_dep()[v.0 as int],
    {
        &self.dep[v.0 as usize]
    }

    /// All defining clauses in allocation order, flattened.
    pub open spec fn spec_clauses_flat(rels: Seq<Seq<Seq<Lit>>>) -> Seq<Seq<Lit>>
        decreases rels.len(),
    {
        if rels.len() == 0 {
            Seq::empty()
        } else {
            Self::spec_clauses_flat(rels.drop_last()) + rels.last()
        }
    }

    /// Lower to a flat CNF holding every defining clause.
    pub fn lower(&self) -> (r: Cnf)
        requires
            self.wf(),
        ensures
            r.wf(),
            r.spec_max_var() == self.spec_max_var(),
            r.spec_clauses() =~= Self::spec_clauses_flat(self.spec_rel()),
    {
        let mut r = Cnf::new();
        proof {
            assert(Self::spec_clauses_flat(self.spec_rel().take(0)) =~= Seq::<Seq<Lit>>::empty());
        }
        let mut rest: Vec<Vec<Lit>> = Vec::new();
        let mut v: usize = 0;
        while v < self.rel.len()
            invariant
                v <= self.spec_rel().len(),
                self.wf(),
                rest@.len() == Self::spec_clauses_flat(self.spec_rel().take(v as int)).len(),
                forall|k: int|
                    0 <= k < rest@.len() ==> (#[trigger] rest@[k])@ == Self::spec_clauses_flat(
                        self.spec_rel().take(v as int),
                    )[k],
                forall|k: int, j: int|
                    0 <= k < rest@.len() && 0 <= j < rest@[k]@.len()
                        ==> (#[trigger] rest@[k]@[j]).spec_var().0 <= self.spec_max_var().0,
            decreases self.spec_rel().len() - v,
        {
            let row = &self.rel[v];
            let mut c: usize = 0;
            while c < row.len()
                invariant
                    c <= row@.len(),
                    v < self.spec_rel().len(),
                    self.wf(),
                    row@.len() == self.spec_rel()[v as int].len(),
                    forall|k: int|
                        0 <= k < row@.len() ==> (#[trigger] row@[k])@ == self.spec_rel()[v as int][k],
                    rest@.len() == Self::spec_clauses_flat(self.spec_rel().take(v as int)).len()
                        + c,
                    forall|k: int|
                        0 <= k < rest@.len() ==> (#[trigger] rest@[k])@ == (Self::spec_clauses_flat(
                            self.spec_rel().take(v as int),
                        ) + self.spec_rel()[v as int].take(c as int))[k],
                    forall|k: int, j: int|
                        0 <= k < rest@.len() && 0 <= j < rest@[k]@.len()
                            ==> (#[trigger] rest@[k]@[j]).spec_var().0 <= self.spec_max_var().0,
                decreases row@.len() - c,
            {
                let cc = copy_clause(&row[c]);
                rest.push(cc);
                proof {
                    assert(self.spec_rel()[v as int].take(c as int).push(
                        self.spec_rel()[v as int][c as int],
                    ) =~= self.spec_rel()[v as int].take(c + 1));
                }
                c += 1;
            }
            proof {
                assert(self.spec_rel().take(v + 1).drop_last() =~= self.spec_rel().take(v as int));
                assert(self.spec_rel().take(v + 1).last() == self.spec_rel()[v as int]);
                assert(self.spec_rel()[v as int].take(self.spec_rel()[v as int].len() as int)
                    =~= self.spec_rel()[v as int]);
            }
            v += 1;
        }
        proof {
            assert(self.spec_rel().take(self.spec_rel().len() as int) =~= self.spec_rel());
        }
        let mv = self.max_var;
        r.new_var_to(mv);
        r.set_cls(rest);
        proof {
            let flat = Self::spec_clauses_flat(self.spec_rel());
            assert forall|k: int| 0 <= k < flat.len() implies r.spec_clauses()[k] == flat[k] by {
                assert(rest@[k]@ == flat[k]);
            }
            assert(r.spec_clauses() =~= flat);
        }
        r
    }
}

/// Insert a variable into a strictly sorted vector, keeping it strictly
/// sorted; an already-present variable is left alone.
fn insert_sorted(deps: &mut Vec<Var>, w: Var)
    requires
        forall|k1: int, k2: int|
            0 <= k1 < k2 < old(deps)@.len() ==> (#[trigger] old(deps)@[k1]).0 < (
            #[trigger] old(deps)@[k2]).0,
    ensures
        forall|k1: int, k2: int|
            0 <= k1 < k2 < final(deps)@.len() ==> (#[trigger] final(deps)@[k1]).0 < (
            #[trigger] final(deps)@[k2]).0,
        forall|x: Var| final(deps)@.contains(x) <==> (old(deps)@.contains(x) || x == w),
{
    let mut pos: usize = 0;
    while pos < deps.len() && deps[pos].0 < w.0
        invariant
            pos <= deps@.len(),
            forall|k: int| 0 <= k < pos ==> (#[trigger] deps@[k]).0 < w.0,
            deps@ == old(deps)@,
        decreases deps@.len() - pos,
    {
        pos += 1;
    }
    if pos < deps.len() && deps[pos].0 == w.0 {
        proof {
            assert(deps@[pos as int] == w || deps@[pos as int].0 == w.0);
            assert forall|x: Var| deps@.contains(x) <==> (old(deps)@.contains(x) || x == w) by {
                assert(deps@[pos as int].0 == w.0);
                assert(deps@[pos as int] == Var(w.0));
                assert(deps@.contains(w));
            }
        }
        return ;
    }
    deps.insert(pos, w);
    proof {
        assert forall|k1: int, k2: int|
            0 <= k1 < k2 < deps@.len() implies (#[trigger] deps@[k1]).0 < (
        #[trigger] deps@[k2]).0 by {
            if k2 < pos {
            } else if k1 < pos && k2 == pos {
            } else if k1 < pos && k2 > pos {
                assert(deps@[k2] == old(deps)@[k2 - 1]);
            } else if k1 == pos {
                assert(deps@[k2] == old(deps)@[k2 - 1]);
                assert(old(deps)@[k2 - 1].0 >= w.0);
                assert(old(deps)@[k2 - 1].0 != w.0);
            } else {
                assert(deps@[k1] == old(deps)@[k1 - 1]);
                assert(deps@[k2] == old(deps)@[k2 - 1]);
            }
        }
        assert forall|x: Var| deps@.contains(x) <==> (old(deps)@.contains(x) || x == w) by {
            if deps@.contains(x) {
                let k = choose|k: int| 0 <= k < deps@.len() && deps@[k] == x;
                if k < pos {
                    assert(old(deps)@[k] == x);
                } else if k == pos {
                } else {
                    assert(old(deps)@[k - 1] == x);
                }
            }
            if old(deps)@.contains(x) {
                let k = choose|k: int| 0 <= k < old(deps)@.len() && old(deps)@[k] == x;
                if k < pos {
                    assert(deps@[k] == x);
                } else {
                    assert(deps@[k + 1] == x);
                }
            }
            if x == w {
                assert(deps@[pos as int] == w);
            }
        }
    }
}


/// The defining literal of a negation needs no clauses: it is the negated
/// input literal itself.
pub fn not_cnf_encode(lits: &Vec<Lit>) -> (r: Lit)
    requires
        lits@.len() == 1,
    ensures
        r == lits@[0].spec_not(),
{
    lits[0].not()
}

impl DagCnf {
    /// Allocate a defining literal for a conjunction and register its
    /// Tseitin clauses; one input per operand, any number of operands.
    pub fn and_cnf_encode(&mut self, lits: &Vec<Lit>) -> (r: Lit)
        requires
            old(self).wf(),
            old(self).spec_max_var().0 + 1 < 0x8000_0000,
            forall|i: int|
                0 <= i < lits@.len() ==> (#[trigger] lits@[i]).spec_var().0 <= old(
                    self,
                ).spec_max_var().0,
        ensures
            final(self).wf(),
            final(self).extends(*old(self)),
            r == Lit::spec_new(Var((old(self).spec_max_var().0 + 1) as u32), true),
            final(self).spec_max_var().0 == old(self).spec_max_var().0 + 1,
            final(self).spec_rel()[r.spec_var().0 as int] =~= crate::litvvec::spec_cnf_and(
                r,
                lits@,
            ),
    {
        let v = self.new_var();
        let ghost mid = *self;
        let n = v.lit();
        let cs = LitVvec::cnf_and(n, lits);
        proof {
            lemma_template_vars(cs@, n, lits@, old(self).spec_max_var().0 as nat);
            lemma_lit_of_var(v);
        }
        self.add_rel(v, &cs);
        proof {
            assert forall|w: int|
                0 <= w < old(self).spec_rel().len() && w <= old(self).spec_max_var().0 implies
                #[trigger] self.spec_rel()[w] == old(self).spec_rel()[w] && self.spec_dep()[w]
                == old(self).spec_dep()[w] by {
                assert(w != v.0);
                assert(self.spec_rel()[w] == mid.spec_rel()[w]);
                assert(mid.spec_rel()[w] == old(self).spec_rel()[w]);
                assert(self.spec_dep()[w] == mid.spec_dep()[w]);
                assert(mid.spec_dep()[w] == old(self).spec_dep()[w]);
            }
        }
        n
    }

    /// Allocate a defining literal for a disjunction and register its
    /// Tseitin clauses, the De Morgan dual of the conjunction templates.
    pub fn or_cnf_encode(&mut self, lits: &Vec<Lit>) -> (r: Lit)
        requires
            old(self).wf(),
            old(self).spec_max_var().0 + 1 < 0x8000_0000,
            forall|i: int|
                0 <= i < lits@.len() ==> (#[trigger] lits@[i]).spec_var().0 <= old(
                    self,
                ).spec_max_var().0,
        ensures
            final(self).wf(),
            final(self).extends(*old(self)),
            r == Lit::spec_new(Var((old(self).spec_max_var().0 + 1) as u32), true),
            final(self).spec_max_var().0 == old(self).spec_max_var().0 + 1,
            final(self).spec_rel()[r.spec_var().0 as int] =~= crate::litvvec::spec_cnf_or(
                r,
                lits@,
            ),
    {
        let v = self.new_var();
        let ghost mid = *self;
        let n = v.lit();
        let cs = LitVvec::cnf_or(n, lits);
        proof {
            lemma_template_vars_or(cs@, n, lits@, old(self).spec_max_var().0 as nat);
            lemma_lit_of_var(v);
        }
        self.add_rel(v, &cs);
        proof {
            assert forall|w: int|
                0 <= w < old(self).spec_rel().len() && w <= old(self).spec_max_var().0 implies
                #[trigger] self.spec_rel()[w] == old(self).spec_rel()[w] && self.spec_dep()[w]
                == old(self).spec_dep()[w] by {
                assert(w != v.0);
                assert(self.spec_rel()[w] == mid.spec_rel()[w]);
                assert(mid.spec_rel()[w] == old(self).spec_rel()[w]);
                assert(self.spec_dep()[w] == mid.spec_dep()[w]);
                assert(mid.spec_dep()[w] == old(self).spec_dep()[w]);
            }
        }
        n
    }

    /// Allocate a defining literal for an exclusive or and register its
    /// four-clause Tseitin form.
    pub fn xor_cnf_encode(&mut self, x: Lit, y: Lit) -> (r: Lit)
        requires
            old(self).wf(),
            old(self).spec_max_var().0 + 1 < 0x8000_0000,
            x.spec_var().0 <= old(self).spec_max_var().0,
            y.spec_var().0 <= old(self).spec_max_var().0,
        ensures
            final(self).wf(),
            final(self).extends(*old(self)),
            r == Lit::spec_new(Var((old(self).spec_max_var().0 + 1) as u32), true),
            final(self).spec_max_var().0 == old(self).spec_max_var().0 + 1,
            final(self).spec_rel()[r.spec_var().0 as int] =~= seq![
                seq![x.spec_not(), y, r],
                seq![x, y.spec_not(), r],
                seq![x, y, r.spec_not()],
                seq![x.spec_not(), y.spec_not(), r.spec_not()],
            ],
    {
        let v = self.new_var();
        let ghost mid = *self;
        let n = v.lit();
        let cs = LitVvec::cnf_xor(n, x, y);
        proof {
            lemma_spec_not_var();
            lemma_lit_of_var(v);
        }
        self.add_rel(v, &cs);
        proof {
            assert forall|w: int|
                0 <= w < old(self).spec_rel().len() && w <= old(self).spec_max_var().0 implies
                #[trigger] self.spec_rel()[w] == old(self).spec_rel()[w] && self.spec_dep()[w]
                == old(self).spec_dep()[w] by {
                assert(w != v.0);
                assert(self.spec_rel()[w] == mid.spec_rel()[w]);
                assert(mid.spec_rel()[w] == old(self).spec_rel()[w]);
                assert(self.spec_dep()[w] == mid.spec_dep()[w]);
                assert(mid.spec_dep()[w] == old(self).spec_dep()[w]);
            }
        }
        n
    }

    /// Allocate a defining literal for an equivalence and register its
    /// four-clause Tseitin form.
    pub fn eq_cnf_encode(&mut self, x: Lit, y: Lit) -> (r: Lit)
        requires
            old(self).wf(),
            old(self).spec_max_var().0 + 1 < 0x8000_0000,
            x.spec_var().0 <= old(self).spec_max_var().0,
            y.spec_var().0 <= old(self).spec_max_var().0,
        ensures
            final(self).wf(),
            final(self).extends(*old(self)),
            r == Lit::spec_new(Var((old(self).spec_max_var().0 + 1) as u32), true),
            final(self).spec_max_var().0 == old(self).spec_max_var().0 + 1,
            final(self).spec_rel()[r.spec_var().0 as int] =~= seq![
                seq![x.spec_not(), y, r.spec_not()],
                seq![x, y.spec_not(), r.spec_not()],
                seq![x, y, r],
                seq![x.spec_not(), y.spec_not(), r],
            ],
    {
        let v = self.new_var();
        let ghost mid = *self;
        let n = v.lit();
        let cs = LitVvec::cnf_xnor(n, x, y);
        proof {
            lemma_spec_not_var();
            lemma_lit_of_var(v);
        }
        self.add_rel(v, &cs);
        proof {
            assert forall|w: int|
                0 <= w < old(self).spec_rel().len() && w <= old(self).spec_max_var().0 implies
                #[trigger] self.spec_rel()[w] == old(self).spec_rel()[w] && self.spec_dep()[w]
                == old(self).spec_dep()[w] by {
                assert(w != v.0);
                assert(self.spec_rel()[w] == mid.spec_rel()[w]);
                assert(mid.spec_rel()[w] == old(self).spec_rel()[w]);
                assert(self.spec_dep()[w] == mid.spec_dep()[w]);
                assert(mid.spec_dep()[w] == old(self).spec_dep()[w]);
            }
        }
        n
    }

    /// Allocate a defining literal for a conditional select and register
    /// its four-clause Tseitin form.
    pub fn ite_cnf_encode(&mut self, c: Lit, t: Lit, e: Lit) -> (r: Lit)
        requires
            old(self).wf(),
            old(self).spec_max_var().0 + 1 < 0x8000_0000,
            c.spec_var().0 <= old(self).spec_max_var().0,
            t.spec_var().0 <= old(self).spec_max_var().0,
            e.spec_var().0 <= old(self).spec_max_var().0,
        ensures
            final(self).wf(),
            final(self).extends(*old(self)),
            r == Lit::spec_new(Var((old(self).spec_max_var().0 + 1) as u32), true),
            final(self).spec_max_var().0 == old(self).spec_max_var().0 + 1,
            final(self).spec_rel()[r.spec_var().0 as int] =~= seq![
                seq![t, c.spec_not(), r.spec_not()],
                seq![t.spec_not(), c.spec_not(), r],
                seq![e, c, r.spec_not()],
                seq![e.spec_not(), c, r],
            ],
    {
        let v = self.new_var();
        let ghost mid = *self;
        let n = v.lit();
        let cs = LitVvec::cnf_ite(n, c, t, e);
        proof {
            lemma_spec_not_var();
            lemma_lit_of_var(v);
        }
        self.add_rel(v, &cs);
        proof {
            assert forall|w: int|
                0 <= w < old(self).spec_rel().len() && w <= old(self).spec_max_var().0 implies
                #[trigger] self.spec_rel()[w] == old(self).spec_rel()[w] && self.spec_dep()[w]
                == old(self).spec_dep()[w] by {
                assert(w != v.0);
                assert(self.spec_rel()[w] == mid.spec_rel()[w]);
                assert(mid.spec_rel()[w] == old(self).spec_rel()[w]);
                assert(self.spec_dep()[w] == mid.spec_dep()[w]);
                assert(mid.spec_dep()[w] == old(self).spec_dep()[w]);
            }
        }
        n
    }
}


/// The positive literal of a variable has that variable.
proof fn lemma_lit_of_var(v: Var)
    requires
        v.0 < 0x8000_0000,
    ensures
        Lit::spec_new(v, true).spec_var() == v,
        Lit::spec_new(v, true).spec_polarity(),
{
    let z = v.0;
    assert((2 * z) / 2 == z && (2 * z) % 2 == 0) by (bit_vector)
        requires
            z < 0x8000_0000u32,
    ;
}

/// Negating a literal keeps its variable.
proof fn lemma_spec_not_var()
    ensures
        forall|l: Lit| (#[trigger] l.spec_not()).spec_var() == l.spec_var(),
{
    assert forall|l: Lit| (#[trigger] l.spec_not()).spec_var() == l.spec_var() by {
        let z = l.0;
        assert((z ^ 1) / 2 == z / 2) by (bit_vector);
    }
}

/// The variables of the conjunction template: the defining variable and
/// the inputs.
proof fn lemma_template_vars(cs: Seq<Seq<Lit>>, n: Lit, lits: Seq<Lit>, bound: nat)
    requires
        cs == crate::litvvec::spec_cnf_and(n, lits),
        forall|i: int| 0 <= i < lits.len() ==> (#[trigger] lits[i]).spec_var().0 <= bound,
    ensures
        forall|c: int, j: int|
            0 <= c < cs.len() && 0 <= j < cs[c].len() && (#[trigger] cs[c][j]).spec_var()
                != n.spec_var() ==> cs[c][j].spec_var().0 <= bound,
{
    lemma_spec_not_var();
    assert forall|c: int, j: int|
        0 <= c < cs.len() && 0 <= j < cs[c].len() && (#[trigger] cs[c][j]).spec_var()
            != n.spec_var() implies cs[c][j].spec_var().0 <= bound by {
        if c < lits.len() {
            assert(cs[c] == seq![n.spec_not(), lits[c]]);
        } else {
            assert(cs[c] == seq![n] + Seq::new(lits.len(), |i: int| lits[i].spec_not()));
            if j >= 1 {
                assert(cs[c][j] == lits[j - 1].spec_not());
            }
        }
    }
}

/// The variables of the disjunction template: the defining variable and
/// the inputs.
proof fn lemma_template_vars_or(cs: Seq<Seq<Lit>>, n: Lit, lits: Seq<Lit>, bound: nat)
    requires
        cs == crate::litvvec::spec_cnf_or(n, lits),
        forall|i: int| 0 <= i < lits.len() ==> (#[trigger] lits[i]).spec_var().0 <= bound,
    ensures
        forall|c: int, j: int|
            0 <= c < cs.len() && 0 <= j < cs[c].len() && (#[trigger] cs[c][j]).spec_var()
                != n.spec_var() ==> cs[c][j].spec_var().0 <= bound,
{
    lemma_spec_not_var();
    assert forall|c: int, j: int|
        0 <= c < cs.len() && 0 <= j < cs[c].len() && (#[trigger] cs[c][j]).spec_var()
            != n.spec_var() implies cs[c][j].spec_var().0 <= bound by {
        if c < lits.len() {
            assert(cs[c] == seq![n, lits[c].spec_not()]);
        } else {
            assert(cs[c] == seq![n.spec_not()] + Seq::new(lits.len(), |i: int| lits[i]));
            if j >= 1 {
                assert(cs[c][j] == lits[j - 1]);
            }
        }
    }
}


/// The dependency depth of a variable: zero for a variable with no edges,
/// otherwise one more than the deepest variable it depends on.
pub open spec fn spec_level(dep: Seq<Seq<Var>>, v: int) -> nat
    decreases v, 1int, 0int,
{
    if 0 <= v < dep.len() {
        spec_level_list(dep, dep[v], v)
    } else {
        0
    }
}

pub open spec fn spec_level_list(dep: Seq<Seq<Var>>, ds: Seq<Var>, bound: int) -> nat
    decreases bound, 0int, ds.len(),
{
    if ds.len() == 0 {
        0
    } else {
        let h: nat = if 0 <= (ds[0].0 as int) < bound {
            spec_level(dep, ds[0].0 as int) + 1
        } else {
            0
        };
        let rest = spec_level_list(dep, ds.subrange(1, ds.len() as int), bound);
        if h > rest {
            h
        } else {
            rest
        }
    }
}

/// Levels stay below the variable index, since edges point strictly down.
proof fn lemma_level_bound(dep: Seq<Seq<Var>>, v: int)
    requires
        forall|w: int, k: int|
            0 <= w < dep.len() && 0 <= k < dep[w].len() ==> (#[trigger] dep[w][k]).0 < w,
        0 <= v < dep.len(),
    ensures
        spec_level(dep, v) <= v,
    decreases v,
{
    lemma_level_list_bound(dep, dep[v], v);
}

proof fn lemma_level_list_bound(dep: Seq<Seq<Var>>, ds: Seq<Var>, bound: int)
    requires
        forall|w: int, k: int|
            0 <= w < dep.len() && 0 <= k < dep[w].len() ==> (#[trigger] dep[w][k]).0 < w,
        0 <= bound <= dep.len(),
    ensures
        spec_level_list(dep, ds, bound) <= bound,
    decreases bound, 1int, ds.len(),
{
    if ds.len() > 0 {
        if 0 <= (ds[0].0 as int) < bound {
            lemma_level_bound(dep, ds[0].0 as int);
        }
        lemma_level_list_bound(dep, ds.subrange(1, ds.len() as int), bound);
    }
}

/// The maximum in a dependency list is reached over its members.
proof fn lemma_level_list_split(dep: Seq<Seq<Var>>, ds: Seq<Var>, bound: int, j: int)
    requires
        0 <= j <= ds.len(),
    ensures
        spec_level_list(dep, ds, bound) == {
            let pre = spec_level_list(dep, ds.subrange(0, j), bound);
            let post = spec_level_list(dep, ds.subrange(j, ds.len() as int), bound);
            if pre > post {
                pre
            } else {
                post
            }
        },
    decreases j,
{
    if j == 0 {
        assert(ds.subrange(0, 0) =~= Seq::<Var>::empty());
        assert(ds.subrange(0, ds.len() as int) =~= ds);
    } else {
        let tail = ds.subrange(1, ds.len() as int);
        lemma_level_list_split(dep, tail, bound, j - 1);
        assert(tail.subrange(0, j - 1) =~= ds.subrange(0, j).subrange(1, j));
        assert(tail.subrange(j - 1, tail.len() as int) =~= ds.subrange(j, ds.len() as int));
    }
}

impl DagCnf {
    /// The per-variable dependency depth: `level[v]` is zero when `v` has
    /// no recorded edges, else one more than the maximum level of its
    /// dependencies.
    pub fn level(&self) -> (r: Vec<usize>)
        requires
            self.wf(),
        ensures
            r@.len() == self.spec_max_var().0 + 1,
            forall|v: int|
                0 <= v < r@.len() ==> r@[v] == spec_level(self.spec_dep(), v),
    {
        let n = self.rel.len();
        let mut r: Vec<usize> = Vec::new();
        let mut v: usize = 0;
        while v < n
            invariant
                v <= n,
                self.wf(),
                n == self.spec_dep().len(),
                r@.len() == v,
                forall|w: int| 0 <= w < v ==> r@[w] == spec_level(self.spec_dep(), w),
                forall|w: int| 0 <= w < v ==> r@[w] <= w,
            decreases n - v,
        {
            let ds = &self.dep[v];
            let ghost gdep = self.spec_dep();
            let ghost gds = gdep[v as int];
            let mut lv: usize = 0;
            let mut j: usize = 0;
            proof {
                assert(gds =~= ds@);
                lemma_level_list_split(gdep, gds, v as int, 0);
            }
            while j < ds.len()
                invariant
                    j <= ds@.len(),
                    v < n,
                    self.wf(),
                    n == self.spec_dep().len(),
                    gdep == self.spec_dep(),
                    gds == gdep[v as int],
                    gds == ds@,
                    r@.len() == v,
                    forall|w: int| 0 <= w < v ==> r@[w] == spec_level(gdep, w),
                    forall|w: int| 0 <= w < v ==> r@[w] <= w,
                    lv == spec_level_list(gdep, gds.subrange(0, j as int), v as int),
                    lv <= v,
                decreases ds@.len() - j,
            {
                let d = ds[j];
                proof {
                    assert(gds[j as int] == d);
                    assert(d.0 < v);
                    lemma_level_bound(gdep, d.0 as int);
                }
                let cand = r[d.0 as usize] + 1;
                if cand > lv {
                    lv = cand;
                }
                proof {
                    let pre = gds.subrange(0, j as int);
                    let pre1 = gds.subrange(0, j + 1);
                    lemma_level_list_split(gdep, pre1, v as int, j as int);
                    assert(pre1.subrange(0, j as int) =~= pre);
                    let last = pre1.subrange(j as int, pre1.len() as int);
                    assert(last =~= seq![d]);
                    assert(last[0] == d);
                    assert(last.subrange(1, last.len() as int) =~= Seq::<Var>::empty());
                    assert(spec_level_list(gdep, last.subrange(1, last.len() as int), v as int)
                        == 0);
                    assert(spec_level_list(gdep, last, v as int) == spec_level(gdep, d.0 as int)
                        + 1);
                }
                j += 1;
            }
            proof {
                assert(gds.subrange(0, gds.len() as int) =~= gds);
                assert(lv == spec_level(gdep, v as int));
            }
            r.push(lv);
            v += 1;
        }
        r
    }
}

/// A CNF paired with the boolean DAG it was lowered from.
pub struct CstDagCnf {
    pub dag: DagCnf,
    pub cst: Cnf,
}

} // verus!
