//! Tseitin clause templates: for each core boolean connective, the minimal
//! clause set forcing a defining literal to equal the connective applied to
//! the input literals. The templates are proved correct against a
//! propositional satisfaction semantics.
use crate::{Lit, Var};
use vstd::prelude::*;

verus! {

/// The value of a literal under an assignment of the variables; variable
/// `v`'s value is `a[v]`.
pub open spec fn lit_sat(a: Seq<bool>, l: Lit) -> bool {
    if l.spec_polarity() {
        a[l.spec_var().0 as int]
    } else {
        !a[l.spec_var().0 as int]
    }
}

pub open spec fn lit_in(a: Seq<bool>, l: Lit) -> bool {
    l.spec_var().0 < a.len()
}

/// A clause is satisfied when some literal of it is.
pub open spec fn clause_sat(a: Seq<bool>, cls: Seq<Lit>) -> bool {
    exists|i: int| 0 <= i < cls.len() && lit_sat(a, #[trigger] cls[i])
}

/// A clause set is satisfied when every clause is.
pub open spec fn clauses_sat(a: Seq<bool>, cs: Seq<Seq<Lit>>) -> bool {
    forall|i: int| 0 <= i < cs.len() ==> clause_sat(a, #[trigger] cs[i])
}

/// Negation flips a literal's value.
pub proof fn lemma_lit_sat_not(a: Seq<bool>, l: Lit)
    ensures
        lit_sat(a, l.spec_not()) == !lit_sat(a, l),
{
    let x = l.0;
    assert((x ^ 1) / 2 == x / 2 && (((x ^ 1) % 2 == 0) == !(x % 2 == 0))) by (bit_vector);
}

/// The clauses of `cnf_and`: `{!n, l_i}` for every input, and
/// `{n, !l_1, ..., !l_k}`.
pub open spec fn spec_cnf_and(n: Lit, lits: Seq<Lit>) -> Seq<Seq<Lit>> {
    Seq::new(lits.len(), |i: int| seq![n.spec_not(), lits[i]]).push(
        seq![n] + Seq::new(lits.len(), |i: int| lits[i].spec_not()),
    )
}

/// The clauses of `cnf_or`: `{n, !l_i}` for every input, and
/// `{!n, l_1, ..., l_k}`.
pub open spec fn spec_cnf_or(n: Lit, lits: Seq<Lit>) -> Seq<Seq<Lit>> {
    Seq::new(lits.len(), |i: int| seq![n, lits[i].spec_not()]).push(
        seq![n.spec_not()] + Seq::new(lits.len(), |i: int| lits[i]),
    )
}

/// A vector of clauses.
pub struct LitVvec {
    vec: Vec<Vec<Lit>>,
}

impl View for LitVvec {
    type V = Seq<Seq<Lit>>;

    closed spec fn view(&self) -> Seq<Seq<Lit>> {
        Seq::new(self.vec@.len(), |i: int| self.vec@[i]@)
    }
}

impl LitVvec {
    pub fn new() -> (r: LitVvec)
        ensures
            r@ =~= Seq::<Seq<Lit>>::empty(),
    {
        LitVvec { vec: Vec::new() }
    }

    pub fn len(&self) -> (r: usize)
        ensures
            r == self@.len(),
    {
        self.vec.len()
    }

    pub fn get(&self, i: usize) -> (r: &Vec<Lit>)
        requires
            i < self@.len(),
        ensures
            r@ == self@[i as int],
    {
        &self.vec[i]
    }

    pub fn push(&mut self, cls: Vec<Lit>)
        ensures
            final(self)@ =~= old(self)@.push(cls@),
    {
        self.vec.push(cls);
        proof {
            assert(self@ =~= old(self)@.push(self.vec@.last()@));
        }
    }

    /// The clause set forcing `n == l_1 & ... & l_k`.
    pub fn cnf_and(n: Lit, lits: &Vec<Lit>) -> (r: LitVvec)
        ensures
            r@ =~= spec_cnf_and(n, lits@),
    {
        let mut vec: Vec<Vec<Lit>> = Vec::new();
        let mut cls: Vec<Lit> = Vec::new();
        cls.push(n);
        let mut i: usize = 0;
        while i < lits.len()
            invariant
                i <= lits@.len(),
                vec@.len() == i,
                forall|j: int| 0 <= j < i ==> (#[trigger] vec@[j])@ =~= seq![
                    n.spec_not(),
                    lits@[j],
                ],
                cls@ =~= seq![n] + Seq::new(i as nat, |j: int| lits@[j].spec_not()),
            decreases lits@.len() - i,
        {
            let l = lits[i];
            let mut c: Vec<Lit> = Vec::new();
            c.push(n.not());
            c.push(l);
            vec.push(c);
            cls.push(l.not());
            proof {
                assert(cls@ =~= seq![n] + Seq::new((i + 1) as nat, |j: int| lits@[j].spec_not()));
            }
            i += 1;
        }
        vec.push(cls);
        let r = LitVvec { vec };
        proof {
            assert(r@ =~= spec_cnf_and(n, lits@));
        }
        r
    }

    /// The clause set forcing `n == l_1 | ... | l_k`.
    pub fn cnf_or(n: Lit, lits: &Vec<Lit>) -> (r: LitVvec)
        ensures
            r@ =~= spec_cnf_or(n, lits@),
    {
        let mut vec: Vec<Vec<Lit>> = Vec::new();
        let mut cls: Vec<Lit> = Vec::new();
        cls.push(n.not());
        let mut i: usize = 0;
        while i < lits.len()
            invariant
                i <= lits@.len(),
                vec@.len() == i,
                forall|j: int| 0 <= j < i ==> (#[trigger] vec@[j])@ =~= seq![
                    n,
                    lits@[j].spec_not(),
                ],
                cls@ =~= seq![n.spec_not()] + Seq::new(i as nat, |j: int| lits@[j]),
            decreases lits@.len() - i,
        {
            let l = lits[i];
            let mut c: Vec<Lit> = Vec::new();
            c.push(n);
            c.push(l.not());
            vec.push(c);
            cls.push(l);
            proof {
                assert(cls@ =~= seq![n.spec_not()] + Seq::new((i + 1) as nat, |j: int| lits@[j]));
            }
            i += 1;
        }
        vec.push(cls);
        let r = LitVvec { vec };
        proof {
            assert(r@ =~= spec_cnf_or(n, lits@));
        }
        r
    }

    /// The clause pair forcing `n == s`.
    pub fn cnf_assign(n: Lit, s: Lit) -> (r: LitVvec)
        ensures
            r@ =~= seq![seq![n, s.spec_not()], seq![n.spec_not(), s]],
    {
        let mut vec: Vec<Vec<Lit>> = Vec::new();
        let mut c1: Vec<Lit> = Vec::new();
        c1.push(n);
        c1.push(s.not());
        vec.push(c1);
        let mut c2: Vec<Lit> = Vec::new();
        c2.push(n.not());
        c2.push(s);
        vec.push(c2);
        let r = LitVvec { vec };
        proof {
            assert(r@ =~~= seq![seq![n, s.spec_not()], seq![n.spec_not(), s]]);
        }
        r
    }

    /// The standard four-clause form forcing `n == x ^ y`.
    pub fn cnf_xor(n: Lit, x: Lit, y: Lit) -> (r: LitVvec)
        ensures
            r@ =~= seq![
                seq![x.spec_not(), y, n],
                seq![x, y.spec_not(), n],
                seq![x, y, n.spec_not()],
                seq![x.spec_not(), y.spec_not(), n.spec_not()],
            ],
    {
        let mut vec: Vec<Vec<Lit>> = Vec::new();
        let mut c1: Vec<Lit> = Vec::new();
        c1.push(x.not());
        c1.push(y);
        c1.push(n);
        vec.push(c1);
        let mut c2: Vec<Lit> = Vec::new();
        c2.push(x);
        c2.push(y.not());
        c2.push(n);
        vec.push(c2);
        let mut c3: Vec<Lit> = Vec::new();
        c3.push(x);
        c3.push(y);
        c3.push(n.not());
        vec.push(c3);
        let mut c4: Vec<Lit> = Vec::new();
        c4.push(x.not());
        c4.push(y.not());
        c4.push(n.not());
        vec.push(c4);
        let r = LitVvec { vec };
        proof {
            assert(r@ =~~= seq![
                seq![x.spec_not(), y, n],
                seq![x, y.spec_not(), n],
                seq![x, y, n.spec_not()],
                seq![x.spec_not(), y.spec_not(), n.spec_not()],
            ]);
        }
        r
    }

    /// The standard four-clause form forcing `n == (x == y)`.
    pub fn cnf_xnor(n: Lit, x: Lit, y: Lit) -> (r: LitVvec)
        ensures
            r@ =~= seq![
                seq![x.spec_not(), y, n.spec_not()],
                seq![x, y.spec_not(), n.spec_not()],
                seq![x, y, n],
                seq![x.spec_not(), y.spec_not(), n],
            ],
    {
        let mut vec: Vec<Vec<Lit>> = Vec::new();
        let mut c1: Vec<Lit> = Vec::new();
        c1.push(x.not());
        c1.push(y);
        c1.push(n.not());
        vec.push(c1);
        let mut c2: Vec<Lit> = Vec::new();
        c2.push(x);
        c2.push(y.not());
        c2.push(n.not());
        vec.push(c2);
        let mut c3: Vec<Lit> = Vec::new();
        c3.push(x);
        c3.push(y);
        c3.push(n);
        vec.push(c3);
        let mut c4: Vec<Lit> = Vec::new();
        c4.push(x.not());
        c4.push(y.not());
        c4.push(n);
        vec.push(c4);
        let r = LitVvec { vec };
        proof {
            assert(r@ =~~= seq![
                seq![x.spec_not(), y, n.spec_not()],
                seq![x, y.spec_not(), n.spec_not()],
                seq![x, y, n],
                seq![x.spec_not(), y.spec_not(), n],
            ]);
        }
        r
    }

    /// The standard four-clause form forcing `n == if c { t } else { e }`.
    pub fn cnf_ite(n: Lit, c: Lit, t: Lit, e: Lit) -> (r: LitVvec)
        ensures
            r@ =~= seq![
                seq![t, c.spec_not(), n.spec_not()],
                seq![t.spec_not(), c.spec_not(), n],
                seq![e, c, n.spec_not()],
                seq![e.spec_not(), c, n],
            ],
    {
        let mut vec: Vec<Vec<Lit>> = Vec::new();
        let mut c1: Vec<Lit> = Vec::new();
        c1.push(t);
        c1.push(c.not());
        c1.push(n.not());
        vec.push(c1);
        let mut c2: Vec<Lit> = Vec::new();
        c2.push(t.not());
        c2.push(c.not());
        c2.push(n);
        vec.push(c2);
        let mut c3: Vec<Lit> = Vec::new();
        c3.push(e);
        c3.push(c);
        c3.push(n.not());
        vec.push(c3);
        let mut c4: Vec<Lit> = Vec::new();
        c4.push(e.not());
        c4.push(c);
        c4.push(n);
        vec.push(c4);
        let r = LitVvec { vec };
        proof {
            assert(r@ =~~= seq![
                seq![t, c.spec_not(), n.spec_not()],
                seq![t.spec_not(), c.spec_not(), n],
                seq![e, c, n.spec_not()],
                seq![e.spec_not(), c, n],
            ]);
        }
        r
    }
}

/// The `cnf_and` clause set is satisfied exactly when the defining literal
/// agrees with the conjunction of the inputs.
pub proof fn lemma_cnf_and_correct(a: Seq<bool>, n: Lit, lits: Seq<Lit>)
    requires
        lit_in(a, n),
        forall|i: int| 0 <= i < lits.len() ==> lit_in(a, #[trigger] lits[i]),
    ensures
        clauses_sat(a, spec_cnf_and(n, lits)) <==> (lit_sat(a, n) <==> forall|i: int|
            0 <= i < lits.len() ==> lit_sat(a, #[trigger] lits[i])),
{
    let cs = spec_cnf_and(n, lits);
    lemma_lit_sat_not(a, n);
    assert forall|i: int| 0 <= i < lits.len() implies lit_sat(a, lits[i].spec_not()) == !lit_sat(
        a,
        lits[i],
    ) by {
        lemma_lit_sat_not(a, lits[i]);
    }
    let last = seq![n] + Seq::new(lits.len(), |i: int| lits[i].spec_not());
    assert(cs[cs.len() - 1] == last);
    if clauses_sat(a, cs) {
        if lit_sat(a, n) {
            assert forall|i: int| 0 <= i < lits.len() implies lit_sat(a, lits[i]) by {
                assert(clause_sat(a, cs[i]));
                assert(cs[i] == seq![n.spec_not(), lits[i]]);
            }
        } else {
            assert(clause_sat(a, last));
            let k = choose|k: int| 0 <= k < last.len() && lit_sat(a, last[k]);
            assert(k != 0);
            assert(last[k] == lits[k - 1].spec_not());
            assert(!lit_sat(a, lits[k - 1]));
        }
    } else {
        let j = choose|j: int| 0 <= j < cs.len() && !clause_sat(a, #[trigger] cs[j]);
        if j < lits.len() {
            assert(cs[j] == seq![n.spec_not(), lits[j]]);
            assert(!lit_sat(a, cs[j][0]) && !lit_sat(a, cs[j][1]));
            assert(lit_sat(a, n) && !lit_sat(a, lits[j]));
        } else {
            assert(cs[j] == last);
            assert(!lit_sat(a, last[0]));
            assert forall|i: int| 0 <= i < lits.len() implies lit_sat(a, lits[i]) by {
                assert(!lit_sat(a, last[i + 1]));
            }
            assert(!lit_sat(a, n));
        }
    }
}

/// The `cnf_or` clause set is satisfied exactly when the defining literal
/// agrees with the disjunction of the inputs.
pub proof fn lemma_cnf_or_correct(a: Seq<bool>, n: Lit, lits: Seq<Lit>)
    requires
        lit_in(a, n),
        forall|i: int| 0 <= i < lits.len() ==> lit_in(a, #[trigger] lits[i]),
    ensures
        clauses_sat(a, spec_cnf_or(n, lits)) <==> (lit_sat(a, n) <==> exists|i: int|
            0 <= i < lits.len() && lit_sat(a, #[trigger] lits[i])),
{
    let cs = spec_cnf_or(n, lits);
    lemma_lit_sat_not(a, n);
    assert forall|i: int| 0 <= i < lits.len() implies lit_sat(a, lits[i].spec_not()) == !lit_sat(
        a,
        lits[i],
    ) by {
        lemma_lit_sat_not(a, lits[i]);
    }
    let last = seq![n.spec_not()] + Seq::new(lits.len(), |i: int| lits[i]);
    assert(cs[cs.len() - 1] == last);
    if clauses_sat(a, cs) {
        if lit_sat(a, n) {
            assert(clause_sat(a, last));
            let k = choose|k: int| 0 <= k < last.len() && lit_sat(a, last[k]);
            assert(k != 0);
            assert(last[k] == lits[k - 1]);
            assert(lit_sat(a, lits[k - 1]));
        } else {
            assert forall|i: int| 0 <= i < lits.len() implies !lit_sat(a, lits[i]) by {
                assert(clause_sat(a, cs[i]));
                assert(cs[i] == seq![n, lits[i].spec_not()]);
            }
        }
    } else {
        let j = choose|j: int| 0 <= j < cs.len() && !clause_sat(a, #[trigger] cs[j]);
        if j < lits.len() {
            assert(cs[j] == seq![n, lits[j].spec_not()]);
            assert(!lit_sat(a, cs[j][0]) && !lit_sat(a, cs[j][1]));
            assert(!lit_sat(a, n) && lit_sat(a, lits[j]));
        } else {
            assert(cs[j] == last);
            assert(!lit_sat(a, last[0]));
            assert(lit_sat(a, n));
            assert forall|i: int| 0 <= i < lits.len() implies !lit_sat(a, lits[i]) by {
                assert(!lit_sat(a, last[i + 1]));
            }
        }
    }
}

/// The `cnf_xor` clause set is satisfied exactly when the defining literal
/// agrees with the exclusive or of the inputs.
pub proof fn lemma_cnf_xor_correct(a: Seq<bool>, n: Lit, x: Lit, y: Lit)
    requires
        lit_in(a, n),
        lit_in(a, x),
        lit_in(a, y),
    ensures
        clauses_sat(
            a,
            seq![
                seq![x.spec_not(), y, n],
                seq![x, y.spec_not(), n],
                seq![x, y, n.spec_not()],
                seq![x.spec_not(), y.spec_not(), n.spec_not()],
            ],
        ) <==> (lit_sat(a, n) == (lit_sat(a, x) != lit_sat(a, y))),
{
    lemma_lit_sat_not(a, n);
    lemma_lit_sat_not(a, x);
    lemma_lit_sat_not(a, y);
    let cs = seq![
        seq![x.spec_not(), y, n],
        seq![x, y.spec_not(), n],
        seq![x, y, n.spec_not()],
        seq![x.spec_not(), y.spec_not(), n.spec_not()],
    ];
    assert forall|j: int| 0 <= j < cs.len() implies (#[trigger] cs[j]).len() == 3 by {}
    if lit_sat(a, n) == (lit_sat(a, x) != lit_sat(a, y)) {
        assert forall|j: int| 0 <= j < cs.len() implies clause_sat(a, #[trigger] cs[j]) by {
            if lit_sat(a, cs[j][0]) {
            } else if lit_sat(a, cs[j][1]) {
            } else {
                assert(lit_sat(a, cs[j][2]));
            }
        }
    }
    if clauses_sat(a, cs) {
        assert(clause_sat(a, cs[0]) && clause_sat(a, cs[1]) && clause_sat(a, cs[2]) && clause_sat(
            a,
            cs[3],
        ));
    }
}

/// The `cnf_xnor` clause set is satisfied exactly when the defining literal
/// agrees with the equivalence of the inputs.
pub proof fn lemma_cnf_xnor_correct(a: Seq<bool>, n: Lit, x: Lit, y: Lit)
    requires
        lit_in(a, n),
        lit_in(a, x),
        lit_in(a, y),
    ensures
        clauses_sat(
            a,
            seq![
                seq![x.spec_not(), y, n.spec_not()],
                seq![x, y.spec_not(), n.spec_not()],
                seq![x, y, n],
                seq![x.spec_not(), y.spec_not(), n],
            ],
        ) <==> (lit_sat(a, n) == (lit_sat(a, x) == lit_sat(a, y))),
{
    lemma_lit_sat_not(a, n);
    lemma_lit_sat_not(a, x);
    lemma_lit_sat_not(a, y);
    let cs = seq![
        seq![x.spec_not(), y, n.spec_not()],
        seq![x, y.spec_not(), n.spec_not()],
        seq![x, y, n],
        seq![x.spec_not(), y.spec_not(), n],
    ];
    if lit_sat(a, n) == (lit_sat(a, x) == lit_sat(a, y)) {
        assert forall|j: int| 0 <= j < cs.len() implies clause_sat(a, #[trigger] cs[j]) by {
            if lit_sat(a, cs[j][0]) {
            } else if lit_sat(a, cs[j][1]) {
            } else {
                assert(lit_sat(a, cs[j][2]));
            }
        }
    }
    if clauses_sat(a, cs) {
        assert(clause_sat(a, cs[0]) && clause_sat(a, cs[1]) && clause_sat(a, cs[2]) && clause_sat(
            a,
            cs[3],
        ));
    }
}

/// The `cnf_ite` clause set is satisfied exactly when the defining literal
/// agrees with the conditional select of the inputs.
pub proof fn lemma_cnf_ite_correct(a: Seq<bool>, n: Lit, c: Lit, t: Lit, e: Lit)
    requires
        lit_in(a, n),
        lit_in(a, c),
        lit_in(a, t),
        lit_in(a, e),
    ensures
        clauses_sat(
            a,
            seq![
                seq![t, c.spec_not(), n.spec_not()],
                seq![t.spec_not(), c.spec_not(), n],
                seq![e, c, n.spec_not()],
                seq![e.spec_not(), c, n],
            ],
        ) <==> (lit_sat(a, n) == if lit_sat(a, c) {
            lit_sat(a, t)
        } else {
            lit_sat(a, e)
        }),
{
    lemma_lit_sat_not(a, n);
    lemma_lit_sat_not(a, c);
    lemma_lit_sat_not(a, t);
    lemma_lit_sat_not(a, e);
    let cs = seq![
        seq![t, c.spec_not(), n.spec_not()],
        seq![t.spec_not(), c.spec_not(), n],
        seq![e, c, n.spec_not()],
        seq![e.spec_not(), c, n],
    ];
    if lit_sat(a, n) == (if lit_sat(a, c) {
        lit_sat(a, t)
    } else {
        lit_sat(a, e)
    }) {
        assert forall|j: int| 0 <= j < cs.len() implies clause_sat(a, #[trigger] cs[j]) by {
            if lit_sat(a, cs[j][0]) {
            } else if lit_sat(a, cs[j][1]) {
            } else {
                assert(lit_sat(a, cs[j][2]));
            }
        }
    }
    if clauses_sat(a, cs) {
        assert(clause_sat(a, cs[0]) && clause_sat(a, cs[1]) && clause_sat(a, cs[2]) && clause_sat(
            a,
            cs[3],
        ));
    }
}

} // verus!
