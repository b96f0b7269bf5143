//! Algebraic simplification: one rule set per operator, tried at
//! construction time. A rule either returns the replacement term or the
//! absent value meaning "no rule applies" — never an error. Every
//! replacement is a valid term of the operand sort.
use crate::op::Op;
use crate::sort::Sort;
use crate::term::{operand_sorts, Term, TermManager, TermType};
use vstd::prelude::*;

verus! {

impl TermManager {
    /// Whether the term is the all-zero constant.
    pub open spec fn spec_is_zero(self, t: Term) -> bool {
        match self.nodes@[t.0 as int].ty {
            TermType::Const(c) => forall|i: int| 0 <= i < c@.len() ==> !(#[trigger] c@[i]),
            _ => false,
        }
    }

    /// Whether the term is the all-ones constant.
    pub open spec fn spec_is_ones(self, t: Term) -> bool {
        match self.nodes@[t.0 as int].ty {
            TermType::Const(c) => forall|i: int| 0 <= i < c@.len() ==> #[trigger] c@[i],
            _ => false,
        }
    }

    /// Whether the term is the constant one.
    pub open spec fn spec_is_one(self, t: Term) -> bool {
        match self.nodes@[t.0 as int].ty {
            TermType::Const(c) => c@.len() >= 1 && c@[0] && forall|i: int|
                1 <= i < c@.len() ==> !(#[trigger] c@[i]),
            _ => false,
        }
    }

    /// Whether the term is the signed minimum constant: top bit set, all
    /// lower bits clear.
    pub open spec fn spec_is_signed_min(self, t: Term) -> bool {
        match self.nodes@[t.0 as int].ty {
            TermType::Const(c) => c@.len() >= 1 && c@[c@.len() - 1] && forall|i: int|
                0 <= i < c@.len() - 1 ==> !(#[trigger] c@[i]),
            _ => false,
        }
    }

    /// Whether the term is the signed maximum constant: top bit clear, all
    /// lower bits set.
    pub open spec fn spec_is_signed_max(self, t: Term) -> bool {
        match self.nodes@[t.0 as int].ty {
            TermType::Const(c) => c@.len() >= 1 && !c@[c@.len() - 1] && forall|i: int|
                0 <= i < c@.len() - 1 ==> #[trigger] c@[i],
            _ => false,
        }
    }

    fn const_is_signed_min(&self, t: Term) -> (r: bool)
        requires
            self.wf(),
            self.contains(t),
            self.nodes@[t.0 as int].ty is Const,
        ensures
            r == self.spec_is_signed_min(t),
    {
        match self.try_bv_const(t) {
            Some(c) => {
                if c.len() == 0 || !c[c.len() - 1] {
                    return false;
                }
                let n = c.len() - 1;
                let mut i: usize = 0;
                while i < n
                    invariant
                        i <= n,
                        n == c@.len() - 1,
                        c@[c@.len() - 1],
                        self.nodes@[t.0 as int].ty matches TermType::Const(b) && b@ == c@,
                        forall|j: int| 0 <= j < i ==> !(#[trigger] c@[j]),
                    decreases n - i,
                {
                    if c[i] {
                        return false;
                    }
                    i += 1;
                }
                true
            },
            None => unreached(),
        }
    }

    fn const_is_signed_max(&self, t: Term) -> (r: bool)
        requires
            self.wf(),
            self.contains(t),
            self.nodes@[t.0 as int].ty is Const,
        ensures
            r == self.spec_is_signed_max(t),
    {
        match self.try_bv_const(t) {
            Some(c) => {
                if c.len() == 0 || c[c.len() - 1] {
                    return false;
                }
                let n = c.len() - 1;
                let mut i: usize = 0;
                while i < n
                    invariant
                        i <= n,
                        n == c@.len() - 1,
                        !c@[c@.len() - 1],
                        self.nodes@[t.0 as int].ty matches TermType::Const(b) && b@ == c@,
                        forall|j: int| 0 <= j < i ==> #[trigger] c@[j],
                    decreases n - i,
                {
                    if !c[i] {
                        return false;
                    }
                    i += 1;
                }
                true
            },
            None => unreached(),
        }
    }

    fn const_is_zero(&self, t: Term) -> (r: bool)
        requires
            self.wf(),
            self.contains(t),
            self.nodes@[t.0 as int].ty is Const,
        ensures
            r == self.spec_is_zero(t),
    {
        match self.try_bv_const(t) {
            Some(c) => {
                let mut i: usize = 0;
                while i < c.len()
                    invariant
                        i <= c@.len(),
                        self.nodes@[t.0 as int].ty matches TermType::Const(b) && b@ == c@,
                        forall|j: int| 0 <= j < i ==> !(#[trigger] c@[j]),
                    decreases c@.len() - i,
                {
                    if c[i] {
                        return false;
                    }
                    i += 1;
                }
                true
            },
            None => unreached(),
        }
    }

    fn const_is_ones(&self, t: Term) -> (r: bool)
        requires
            self.wf(),
            self.contains(t),
            self.nodes@[t.0 as int].ty is Const,
        ensures
            r == self.spec_is_ones(t),
    {
        match self.try_bv_const(t) {
            Some(c) => {
                let mut i: usize = 0;
                while i < c.len()
                    invariant
                        i <= c@.len(),
                        self.nodes@[t.0 as int].ty matches TermType::Const(b) && b@ == c@,
                        forall|j: int| 0 <= j < i ==> #[trigger] c@[j],
                    decreases c@.len() - i,
                {
                    if !c[i] {
                        return false;
                    }
                    i += 1;
                }
                true
            },
            None => unreached(),
        }
    }

    fn const_is_one(&self, t: Term) -> (r: bool)
        requires
            self.wf(),
            self.contains(t),
            self.nodes@[t.0 as int].ty is Const,
        ensures
            r == self.spec_is_one(t),
    {
        match self.try_bv_const(t) {
            Some(c) => {
                if c.len() == 0 || !c[0] {
                    return false;
                }
                let mut i: usize = 1;
                while i < c.len()
                    invariant
                        1 <= i <= c@.len(),
                        c@[0],
                        self.nodes@[t.0 as int].ty matches TermType::Const(b) && b@ == c@,
                        forall|j: int| 1 <= j < i ==> !(#[trigger] c@[j]),
                    decreases c@.len() - i,
                {
                    if c[i] {
                        return false;
                    }
                    i += 1;
                }
                true
            },
            None => unreached(),
        }
    }

    /// The bitwise complement of a term, as a term. Within one manager the
    /// handle of `!t` is canonical, so handle comparison against it detects
    /// complementary operands.
    pub fn mk_not(&mut self, t: Term) -> (r: Term)
        requires
            old(self).wf(),
            old(self).contains(t),
            old(self).sort_of(t) is Bv,
        ensures
            final(self).wf(),
            final(self).extends(*old(self)),
            final(self).avl_vid == old(self).avl_vid,
            final(self).contains(r),
            final(self).sort_of(r) == old(self).sort_of(t),
            final(self).nodes@[r.0 as int].ty matches TermType::Op(o, args) && o == Op::Not
                && args@ =~= seq![t],
    {
        let mut args: Vec<Term> = Vec::new();
        args.push(t);
        proof {
            assert(operand_sorts(self.nodes@, args@) =~= seq![old(self).sort_of(t)]);
        }
        self.new_op(Op::Not, args)
    }

    fn mk_bin(&mut self, op: Op, a: Term, b: Term) -> (r: Term)
        requires
            old(self).wf(),
            old(self).contains(a),
            old(self).contains(b),
            old(self).sort_of(a) is Bv,
            old(self).sort_of(b) == old(self).sort_of(a),
            op.input_ok(seq![old(self).sort_of(a), old(self).sort_of(a)]),
            op.sort_spec(seq![old(self).sort_of(a), old(self).sort_of(a)]) == old(self).sort_of(
                a,
            ),
        ensures
            final(self).wf(),
            final(self).extends(*old(self)),
            final(self).avl_vid == old(self).avl_vid,
            final(self).contains(r),
            final(self).sort_of(r) == old(self).sort_of(a),
    {
        let mut args: Vec<Term> = Vec::new();
        args.push(a);
        args.push(b);
        proof {
            assert(operand_sorts(self.nodes@, args@) =~= seq![
                old(self).sort_of(a),
                old(self).sort_of(a),
            ]);
        }
        self.new_op(op, args)
    }

    /// `NOT`: double negation cancels; a constant folds bitwise; no other
    /// input has a rule.
    pub fn not_simplify(&mut self, terms: &Vec<Term>) -> (r: Option<Term>)
        requires
            old(self).wf(),
            terms@.len() == 1,
            old(self).contains(terms@[0]),
            old(self).sort_of(terms@[0]) is Bv,
        ensures
            final(self).wf(),
            final(self).extends(*old(self)),
            final(self).avl_vid == old(self).avl_vid,
            match r {
                Some(t) => final(self).contains(t) && final(self).sort_of(t) == old(self).sort_of(terms@[0]),
                None => *final(self) == *old(self),
            },
            match old(self).nodes@[terms@[0].0 as int].ty {
                TermType::Op(o, a) => if o == Op::Not {
                    r == Some(a@[0])
                } else {
                    r is None
                },
                TermType::Const(c) => r is Some && (final(self).nodes@[(r->0).0 as int].ty
                    matches TermType::Const(b) && b@ == Seq::new(c@.len(), |i: int| !c@[i])),
                TermType::Var(_) => r is None,
            },
    {
        let x = terms[0];
        match self.try_op(x) {
            Some((o, args)) => {
                if matches!(o, Op::Not) {
                    proof {
                        assert(crate::term::node_wf(self.nodes@, x.0 as int));
                    }
                    let inner = args[0];
                    proof {
                        assert(operand_sorts(
                            self.nodes@,
                            self.nodes@[x.0 as int].ty->Op_1@,
                        )[0] == self.sort_of(inner));
                    }
                    return Some(inner);
                }
            },
            None => {},
        }
        let is_const = self.is_const(x);
        if is_const {
            match self.try_bv_const(x) {
                Some(c) => {
                    let mut flipped: Vec<bool> = Vec::new();
                    let mut i: usize = 0;
                    let clen = c.len();
                    let ghost cbits = c@;
                    while i < clen
                        invariant
                            i <= clen,
                            clen == cbits.len(),
                            self.nodes@[terms@[0].0 as int].ty matches TermType::Const(b) && b@
                                == cbits,
                            flipped@.len() == i,
                            forall|j: int| 0 <= j < i ==> flipped@[j] == !cbits[j],
                            self.wf(),
                            self.contains(terms@[0]),
                        decreases clen - i,
                    {
                        let b = match self.try_bv_const(x) {
                            Some(cc) => !cc[i],
                            None => unreached(),
                        };
                        flipped.push(b);
                        i += 1;
                    }
                    proof {
                        assert(crate::term::node_wf(self.nodes@, x.0 as int));
                        assert(flipped@ =~= Seq::new(cbits.len(), |j: int| !cbits[j]));
                    }
                    let t = self.bv_const(flipped);
                    Some(t)
                },
                None => unreached(),
            }
        } else {
            None
        }
    }

    /// One direction of the `AND` rules: constant absorption, idempotence,
    /// complement annihilation, merging of nested conjunctions with a
    /// shared operand, De Morgan pairing of negations, and absorption and
    /// distributive factoring against disjunctions.
    fn ordered_and_simplify(&mut self, a: Term, b: Term) -> (r: Option<Term>)
        requires
            old(self).wf(),
            old(self).contains(a),
            old(self).contains(b),
            old(self).sort_of(a) is Bv,
            old(self).sort_of(b) == old(self).sort_of(a),
        ensures
            final(self).wf(),
            final(self).extends(*old(self)),
            final(self).avl_vid == old(self).avl_vid,
            match r {
                Some(t) => final(self).contains(t) && final(self).sort_of(t) == old(self).sort_of(a),
                None => true,
            },
            old(self).nodes@[a.0 as int].ty is Const && old(self).spec_is_ones(a) ==> r == Some(
                b,
            ),
            old(self).nodes@[a.0 as int].ty is Const && old(self).spec_is_zero(a) && !old(self).spec_is_ones(a) ==> r == Some(a),
            a == b ==> r == Some(a),
            (old(self).nodes@[a.0 as int].ty matches TermType::Op(o, args) && o == Op::Not
                && args@ == seq![b]) ==> (r is Some && final(self).nodes@[(r->0).0 as int].ty
                is Const && final(self).spec_is_zero(r->0) && final(self).sort_of(r->0) == old(self).sort_of(a)),
            old(self).nodes@[a.0 as int].ty is Var && a != b ==> r is None,
            old(self).nodes@[a.0 as int].ty is Const && !old(self).spec_is_ones(a) && !old(self).spec_is_zero(a) && a != b ==> r is None,
    {
        let ghost s = self.sort_of(a);
        if self.is_const(a) {
            if self.const_is_ones(a) {
                return Some(b);
            }
            if self.const_is_zero(a) {
                return Some(a);
            }
        }
        proof {
            // an application's operand handle is strictly below it, so a
            // complement node never equals its own operand
            assert(crate::term::node_wf(self.nodes@, a.0 as int));
        }
        if a.0 == b.0 {
            return Some(a);
        }
        let nb = self.mk_not(b);
        proof {
            match old(self).nodes@[a.0 as int].ty {
                TermType::Op(o, args) => {
                    if o == Op::Not && args@ == seq![b] {
                        // the interned complement of b is exactly a
                        assert(crate::term::ty_eqv(
                            self.nodes@[a.0 as int].ty,
                            self.nodes@[nb.0 as int].ty,
                        ));
                        crate::term::lemma_canonical(*self, a, nb);
                    }
                },
                TermType::Var(_) => {
                    // a variable node can never be the complement node
                    if a.0 == nb.0 {
                        assert(self.nodes@[nb.0 as int].ty is Op);
                        assert(false);
                    }
                },
                TermType::Const(_) => {
                    // a constant node can never be the complement node
                    if a.0 == nb.0 {
                        assert(self.nodes@[nb.0 as int].ty is Op);
                        assert(false);
                    }
                },
                _ => {},
            }
        }
        if a.0 == nb.0 {
            let z = self.mk_bv_const_zero(a);
            return Some(z);
        }
        let a_op = match self.try_op(a) {
            Some((o, args)) if args.len() == 2 || args.len() == 3 => Some((
                o,
                args[0],
                args[1],
                if args.len() == 3 {
                    args[2]
                } else {
                    args[1]
                },
            )),
            _ => None,
        };
        match a_op {
            Some((Op::And, a0, a1, _)) => {
                proof {
                    assert(crate::term::node_wf(self.nodes@, a.0 as int));
                }
                let b_op = match self.try_op(b) {
                    Some((Op::And, bargs)) if bargs.len() == 2 => Some((bargs[0], bargs[1])),
                    _ => None,
                };
                match b_op {
                    Some((b0, b1)) => {
                        proof {
                            assert(crate::term::node_wf(self.nodes@, b.0 as int));
                        }
                        if a0.0 == b0.0 {
                            let inner = self.mk_bin(Op::And, a1, b1);
                            let t = self.mk_bin(Op::And, a0, inner);
                            return Some(t);
                        }
                        if a0.0 == b1.0 {
                            let inner = self.mk_bin(Op::And, a1, b0);
                            let t = self.mk_bin(Op::And, a0, inner);
                            return Some(t);
                        }
                    },
                    None => {},
                }
                if b.0 == a0.0 {
                    let t = self.mk_bin(Op::And, b, a1);
                    return Some(t);
                }
                if b.0 == a1.0 {
                    let t = self.mk_bin(Op::And, b, a0);
                    return Some(t);
                }
            },
            Some((Op::Not, a0, _, _)) => {
                proof {
                    assert(crate::term::node_wf(self.nodes@, a.0 as int));
                }
                let b_op = match self.try_op(b) {
                    Some((Op::Not, bargs)) if bargs.len() == 1 => Some(bargs[0]),
                    _ => None,
                };
                match b_op {
                    Some(b0) => {
                        proof {
                            assert(crate::term::node_wf(self.nodes@, b.0 as int));
                        }
                        let o = self.mk_bin(Op::Or, a0, b0);
                        let t = self.mk_not(o);
                        return Some(t);
                    },
                    None => {},
                }
            },
            Some((Op::Or, a0, a1, _)) => {
                proof {
                    assert(crate::term::node_wf(self.nodes@, a.0 as int));
                }
                if a0.0 == b.0 || a1.0 == b.0 {
                    return Some(b);
                }
                let b_op = match self.try_op(b) {
                    Some((Op::Or, bargs)) if bargs.len() == 2 => Some((bargs[0], bargs[1])),
                    _ => None,
                };
                match b_op {
                    Some((b0, b1)) => {
                        proof {
                            assert(crate::term::node_wf(self.nodes@, b.0 as int));
                        }
                        if a0.0 == b0.0 {
                            let inner = self.mk_bin(Op::And, a1, b1);
                            let t = self.mk_bin(Op::Or, a0, inner);
                            return Some(t);
                        }
                        if a0.0 == b1.0 {
                            let inner = self.mk_bin(Op::And, a1, b0);
                            let t = self.mk_bin(Op::Or, a0, inner);
                            return Some(t);
                        }
                    },
                    None => {},
                }
            },
            _ => {},
        }
        None
    }

    /// `AND`: try the rules with the operands in both orders, so an
    /// all-ones constant absorbs, an all-zero constant annihilates, a
    /// duplicate operand collapses, and a structurally complementary
    /// operand gives the all-zero constant.
    pub fn and_simplify(&mut self, terms: &Vec<Term>) -> (r: Option<Term>)
        requires
            old(self).wf(),
            terms@.len() == 2,
            old(self).contains(terms@[0]),
            old(self).contains(terms@[1]),
            old(self).sort_of(terms@[0]) is Bv,
            old(self).sort_of(terms@[1]) == old(self).sort_of(terms@[0]),
        ensures
            final(self).wf(),
            final(self).extends(*old(self)),
            final(self).avl_vid == old(self).avl_vid,
            match r {
                Some(t) => final(self).contains(t) && final(self).sort_of(t) == old(self).sort_of(terms@[0]),
                None => true,
            },
            old(self).nodes@[terms@[0].0 as int].ty is Const && old(self).spec_is_ones(terms@[0])
                ==> r == Some(terms@[1]),
            old(self).nodes@[terms@[0].0 as int].ty is Const && old(self).spec_is_zero(terms@[0])
                && !old(self).spec_is_ones(terms@[0]) ==> r == Some(terms@[0]),
            terms@[0] == terms@[1] ==> r == Some(terms@[0]),
            (old(self).nodes@[terms@[0].0 as int].ty matches TermType::Op(o, args) && o == Op::Not
                && args@ == seq![terms@[1]]) ==> (r is Some && final(self).spec_is_zero(r->0)
                && final(self).sort_of(r->0) == old(self).sort_of(terms@[0])),
            // the swapped-order rules fire whatever the first operand's shape:
            // a second-operand constant or complement always yields a
            // simplification, pinned exactly when no first-order rule can
            // take precedence
            old(self).nodes@[terms@[1].0 as int].ty is Const && (old(self).spec_is_ones(terms@[1])
                || old(self).spec_is_zero(terms@[1])) ==> r is Some,
            (old(self).nodes@[terms@[1].0 as int].ty matches TermType::Op(o, args) && o == Op::Not
                && args@ == seq![terms@[0]]) ==> r is Some,
            (old(self).nodes@[terms@[0].0 as int].ty is Var || (old(self).nodes@[terms@[0].0 as int].ty
                is Const && !old(self).spec_is_ones(terms@[0]) && !old(self).spec_is_zero(terms@[0]))) ==> {
                &&& old(self).nodes@[terms@[1].0 as int].ty is Const && old(self).spec_is_ones(terms@[1]) ==> r == Some(terms@[0])
                &&& old(self).nodes@[terms@[1].0 as int].ty is Const && old(self).spec_is_zero(terms@[1]) && !old(self).spec_is_ones(terms@[1]) ==> r == Some(terms@[1])
                &&& (old(self).nodes@[terms@[1].0 as int].ty matches TermType::Op(o, args) && o
                    == Op::Not && args@ == seq![terms@[0]]) ==> (r is Some && final(self).spec_is_zero(r->0) && final(self).sort_of(r->0) == old(self).sort_of(terms@[0]))
            },
    {
        let x = terms[0];
        let y = terms[1];
        proof {
            // under the complement guards the operands are distinct
            assert(crate::term::node_wf(self.nodes@, terms@[1].0 as int));
        }
        match self.ordered_and_simplify(x, y) {
            Some(t) => Some(t),
            None => self.ordered_and_simplify(y, x),
        }
    }

    /// One direction of the `OR` rules, dual to the conjunction rules, plus
    /// absorption through a conditional-select.
    fn ordered_or_simplify(&mut self, a: Term, b: Term) -> (r: Option<Term>)
        requires
            old(self).wf(),
            old(self).contains(a),
            old(self).contains(b),
            old(self).sort_of(a) is Bv,
            old(self).sort_of(b) == old(self).sort_of(a),
        ensures
            final(self).wf(),
            final(self).extends(*old(self)),
            final(self).avl_vid == old(self).avl_vid,
            match r {
                Some(t) => final(self).contains(t) && final(self).sort_of(t) == old(self).sort_of(a),
                None => true,
            },
            old(self).nodes@[a.0 as int].ty is Const && old(self).spec_is_ones(a) ==> r == Some(
                a,
            ),
            old(self).nodes@[a.0 as int].ty is Const && old(self).spec_is_zero(a) && !old(self).spec_is_ones(a) ==> r == Some(b),
            a == b ==> r == Some(a),
            (old(self).nodes@[a.0 as int].ty matches TermType::Op(o, args) && o == Op::Not
                && args@ == seq![b]) ==> (r is Some && final(self).nodes@[(r->0).0 as int].ty
                is Const && final(self).spec_is_ones(r->0) && final(self).sort_of(r->0) == old(self).sort_of(a)),
            old(self).nodes@[a.0 as int].ty is Var && a != b ==> r is None,
            old(self).nodes@[a.0 as int].ty is Const && !old(self).spec_is_ones(a) && !old(self).spec_is_zero(a) && a != b ==> r is None,
    {
        if self.is_const(a) {
            if self.const_is_ones(a) {
                return Some(a);
            }
            if self.const_is_zero(a) {
                return Some(b);
            }
        }
        proof {
            // an application's operand handle is strictly below it, so a
            // complement node never equals its own operand
            assert(crate::term::node_wf(self.nodes@, a.0 as int));
        }
        if a.0 == b.0 {
            return Some(a);
        }
        let nb = self.mk_not(b);
        proof {
            match old(self).nodes@[a.0 as int].ty {
                TermType::Op(o, args) => {
                    if o == Op::Not && args@ == seq![b] {
                        // the interned complement of b is exactly a
                        assert(crate::term::ty_eqv(
                            self.nodes@[a.0 as int].ty,
                            self.nodes@[nb.0 as int].ty,
                        ));
                        crate::term::lemma_canonical(*self, a, nb);
                    }
                },
                TermType::Var(_) => {
                    // a variable node can never be the complement node
                    if a.0 == nb.0 {
                        assert(self.nodes@[nb.0 as int].ty is Op);
                        assert(false);
                    }
                },
                TermType::Const(_) => {
                    // a constant node can never be the complement node
                    if a.0 == nb.0 {
                        assert(self.nodes@[nb.0 as int].ty is Op);
                        assert(false);
                    }
                },
                _ => {},
            }
        }
        if a.0 == nb.0 {
            let t = self.mk_bv_const_ones(a);
            return Some(t);
        }
        let a_op = match self.try_op(a) {
            Some((o, args)) if args.len() == 2 || args.len() == 3 || args.len() == 1 => Some((
                o,
                args[0],
                if args.len() >= 2 {
                    args[1]
                } else {
                    args[0]
                },
                if args.len() == 3 {
                    args[2]
                } else {
                    args[0]
                },
            )),
            _ => None,
        };
        match a_op {
            Some((Op::Or, a0, a1, _)) => {
                proof {
                    assert(crate::term::node_wf(self.nodes@, a.0 as int));
                }
                if b.0 == a0.0 {
                    let t = self.mk_bin(Op::Or, b, a1);
                    return Some(t);
                }
                if b.0 == a1.0 {
                    let t = self.mk_bin(Op::Or, b, a0);
                    return Some(t);
                }
            },
            Some((Op::Not, a0, _, _)) => {
                proof {
                    assert(crate::term::node_wf(self.nodes@, a.0 as int));
                }
                let b_op = match self.try_op(b) {
                    Some((Op::Not, bargs)) if bargs.len() == 1 => Some(bargs[0]),
                    _ => None,
                };
                match b_op {
                    Some(b0) => {
                        proof {
                            assert(crate::term::node_wf(self.nodes@, b.0 as int));
                        }
                        let o = self.mk_bin(Op::And, a0, b0);
                        let t = self.mk_not(o);
                        return Some(t);
                    },
                    None => {},
                }
            },
            Some((Op::Ite, a0, a1, a2)) => {
                proof {
                    assert(crate::term::node_wf(self.nodes@, a.0 as int));
                }
                if b.0 == a0.0 && self.sort(b).is_bool() {
                    let t = self.mk_bin(Op::Or, b, a2);
                    return Some(t);
                }
                let na0 = if self.sort(a0).is_bool() && self.sort(b).is_bool() {
                    let n = self.mk_not(a0);
                    Some(n)
                } else {
                    None
                };
                match na0 {
                    Some(n) => {
                        if b.0 == n.0 {
                            let t = self.mk_bin(Op::Or, b, a1);
                            return Some(t);
                        }
                    },
                    None => {},
                }
            },
            Some((Op::And, a0, a1, _)) => {
                proof {
                    assert(crate::term::node_wf(self.nodes@, a.0 as int));
                }
                let b_op = match self.try_op(b) {
                    Some((Op::And, bargs)) if bargs.len() == 2 => Some((bargs[0], bargs[1])),
                    _ => None,
                };
                match b_op {
                    Some((b0, b1)) => {
                        proof {
                            assert(crate::term::node_wf(self.nodes@, b.0 as int));
                        }
                        if a0.0 == b0.0 {
                            let inner = self.mk_bin(Op::Or, a1, b1);
                            let t = self.mk_bin(Op::And, a0, inner);
                            return Some(t);
                        }
                        if a0.0 == b1.0 {
                            let inner = self.mk_bin(Op::Or, a1, b0);
                            let t = self.mk_bin(Op::And, a0, inner);
                            return Some(t);
                        }
                    },
                    None => {},
                }
            },
            _ => {},
        }
        None
    }

    /// `OR`: try the rules with the operands in both orders, so an
    /// all-ones constant saturates, an all-zero constant is dropped, a
    /// duplicate operand collapses, and a structurally complementary
    /// operand gives the all-ones constant.
    pub fn or_simplify(&mut self, terms: &Vec<Term>) -> (r: Option<Term>)
        requires
            old(self).wf(),
            terms@.len() == 2,
            old(self).contains(terms@[0]),
            old(self).contains(terms@[1]),
            old(self).sort_of(terms@[0]) is Bv,
            old(self).sort_of(terms@[1]) == old(self).sort_of(terms@[0]),
        ensures
            final(self).wf(),
            final(self).extends(*old(self)),
            final(self).avl_vid == old(self).avl_vid,
            match r {
                Some(t) => final(self).contains(t) && final(self).sort_of(t) == old(self).sort_of(terms@[0]),
                None => true,
            },
            old(self).nodes@[terms@[0].0 as int].ty is Const && old(self).spec_is_ones(terms@[0])
                ==> r == Some(terms@[0]),
            old(self).nodes@[terms@[0].0 as int].ty is Const && old(self).spec_is_zero(terms@[0])
                && !old(self).spec_is_ones(terms@[0]) ==> r == Some(terms@[1]),
            terms@[0] == terms@[1] ==> r == Some(terms@[0]),
            (old(self).nodes@[terms@[0].0 as int].ty matches TermType::Op(o, args) && o == Op::Not
                && args@ == seq![terms@[1]]) ==> (r is Some && final(self).spec_is_ones(r->0)
                && final(self).sort_of(r->0) == old(self).sort_of(terms@[0])),
            // the swapped-order rules fire whatever the first operand's shape:
            // a second-operand constant or complement always yields a
            // simplification, pinned exactly when no first-order rule can
            // take precedence
            old(self).nodes@[terms@[1].0 as int].ty is Const && (old(self).spec_is_ones(terms@[1])
                || old(self).spec_is_zero(terms@[1])) ==> r is Some,
            (old(self).nodes@[terms@[1].0 as int].ty matches TermType::Op(o, args) && o == Op::Not
                && args@ == seq![terms@[0]]) ==> r is Some,
            (old(self).nodes@[terms@[0].0 as int].ty is Var || (old(self).nodes@[terms@[0].0 as int].ty is Const && !old(self).spec_is_ones(terms@[0])
                && !old(self).spec_is_zero(terms@[0]))) && old(self).nodes@[terms@[1].0 as int].ty is Const && old(self).spec_is_ones(terms@[1]) ==> r
                == Some(terms@[1]),
            (old(self).nodes@[terms@[0].0 as int].ty is Var || (old(self).nodes@[terms@[0].0 as int].ty is Const && !old(self).spec_is_ones(terms@[0])
                && !old(self).spec_is_zero(terms@[0]))) && old(self).nodes@[terms@[1].0 as int].ty is Const && old(self).spec_is_zero(terms@[1]) && !old(self).spec_is_ones(terms@[1]) ==> r == Some(terms@[0]),
            (old(self).nodes@[terms@[0].0 as int].ty is Var || (old(self).nodes@[terms@[0].0 as int].ty is Const && !old(self).spec_is_ones(terms@[0])
                && !old(self).spec_is_zero(terms@[0]))) && (old(self).nodes@[terms@[1].0 as int].ty matches TermType::Op(o, args) && o == Op::Not && args@
                == seq![terms@[0]]) ==> (r is Some && final(self).spec_is_ones(r->0) && final(self).sort_of(r->0) == old(self).sort_of(terms@[0])),
    {
        let x = terms[0];
        let y = terms[1];
        proof {
            assert(crate::term::node_wf(self.nodes@, terms@[1].0 as int));
        }
        match self.ordered_or_simplify(x, y) {
            Some(t) => Some(t),
            None => self.ordered_or_simplify(y, x),
        }
    }

    fn ordered_xor_simplify(&mut self, a: Term, b: Term) -> (r: Option<Term>)
        requires
            old(self).wf(),
            old(self).contains(a),
            old(self).contains(b),
            old(self).sort_of(a) is Bv,
            old(self).sort_of(b) == old(self).sort_of(a),
        ensures
            final(self).wf(),
            final(self).extends(*old(self)),
            final(self).avl_vid == old(self).avl_vid,
            match r {
                Some(t) => final(self).contains(t) && final(self).sort_of(t) == old(self).sort_of(a),
                None => true,
            },
            old(self).nodes@[a.0 as int].ty is Const && old(self).spec_is_ones(a) ==> (r is Some
                && (final(self).nodes@[(r->0).0 as int].ty matches TermType::Op(o, args) && o
                == Op::Not && args@ == seq![b])),
            old(self).nodes@[a.0 as int].ty is Const && old(self).spec_is_zero(a) && !old(self).spec_is_ones(a) ==> r == Some(b),
            a == b && !(old(self).nodes@[a.0 as int].ty is Const && old(self).spec_is_ones(a))
                ==> (r is Some && final(self).nodes@[(r->0).0 as int].ty is Const && final(self).spec_is_zero(r->0) && final(self).sort_of(r->0) == old(self).sort_of(a)),
            (old(self).nodes@[a.0 as int].ty matches TermType::Op(o, args) && o == Op::Not
                && args@ == seq![b]) ==> (r is Some && final(self).nodes@[(r->0).0 as int].ty
                is Const && final(self).spec_is_ones(r->0) && final(self).sort_of(r->0) == old(self).sort_of(a)),
            old(self).nodes@[a.0 as int].ty is Var && a != b ==> r is None,
            old(self).nodes@[a.0 as int].ty is Const && !old(self).spec_is_ones(a) && !old(self).spec_is_zero(a) && a != b ==> r is None,
    {
        if self.is_const(a) {
            if self.const_is_ones(a) {
                let t = self.mk_not(b);
                return Some(t);
            }
            if self.const_is_zero(a) {
                return Some(b);
            }
        }
        proof {
            assert(crate::term::node_wf(self.nodes@, a.0 as int));
        }
        if a.0 == b.0 {
            let t = self.mk_bv_const_zero(a);
            return Some(t);
        }
        let nb = self.mk_not(b);
        proof {
            match old(self).nodes@[a.0 as int].ty {
                TermType::Op(o, args) => {
                    if o == Op::Not && args@ == seq![b] {
                        assert(crate::term::ty_eqv(
                            self.nodes@[a.0 as int].ty,
                            self.nodes@[nb.0 as int].ty,
                        ));
                        crate::term::lemma_canonical(*self, a, nb);
                    }
                },
                TermType::Var(_) => {
                    if a.0 == nb.0 {
                        assert(self.nodes@[nb.0 as int].ty is Op);
                        assert(false);
                    }
                },
                TermType::Const(_) => {
                    if a.0 == nb.0 {
                        assert(self.nodes@[nb.0 as int].ty is Op);
                        assert(false);
                    }
                },
                _ => {},
            }
        }
        if a.0 == nb.0 {
            let t = self.mk_bv_const_ones(a);
            return Some(t);
        }
        None
    }

    /// `XOR`: constants fold, equal operands cancel, complementary operands
    /// saturate.
    pub fn xor_simplify(&mut self, terms: &Vec<Term>) -> (r: Option<Term>)
        requires
            old(self).wf(),
            terms@.len() == 2,
            old(self).contains(terms@[0]),
            old(self).contains(terms@[1]),
            old(self).sort_of(terms@[0]) is Bv,
            old(self).sort_of(terms@[1]) == old(self).sort_of(terms@[0]),
        ensures
            final(self).wf(),
            final(self).extends(*old(self)),
            final(self).avl_vid == old(self).avl_vid,
            match r {
                Some(t) => final(self).contains(t) && final(self).sort_of(t) == old(self).sort_of(terms@[0]),
                None => true,
            },
            old(self).nodes@[terms@[0].0 as int].ty is Const && old(self).spec_is_ones(terms@[0])
                ==> (r is Some && (final(self).nodes@[(r->0).0 as int].ty matches TermType::Op(o, args) && o == Op::Not && args@ == seq![terms@[1]])),
            old(self).nodes@[terms@[0].0 as int].ty is Const && old(self).spec_is_zero(terms@[0])
                && !old(self).spec_is_ones(terms@[0]) ==> r == Some(terms@[1]),
            terms@[0] == terms@[1] && !(old(self).nodes@[terms@[0].0 as int].ty is Const && old(self).spec_is_ones(terms@[0])) ==> (r is Some && final(self).spec_is_zero(r->0) && final(self).sort_of(r->0) == old(self).sort_of(terms@[0])),
            (old(self).nodes@[terms@[0].0 as int].ty matches TermType::Op(o, args) && o == Op::Not
                && args@ == seq![terms@[1]]) ==> (r is Some && final(self).spec_is_ones(r->0)
                && final(self).sort_of(r->0) == old(self).sort_of(terms@[0])),
            // the swapped-order rules fire whatever the first operand's shape
            old(self).nodes@[terms@[1].0 as int].ty is Const && (old(self).spec_is_ones(terms@[1])
                || old(self).spec_is_zero(terms@[1])) ==> r is Some,
            (old(self).nodes@[terms@[1].0 as int].ty matches TermType::Op(o, args) && o == Op::Not
                && args@ == seq![terms@[0]]) ==> r is Some,
            (old(self).nodes@[terms@[0].0 as int].ty is Var || (old(self).nodes@[terms@[0].0 as int].ty
                is Const && !old(self).spec_is_ones(terms@[0]) && !old(self).spec_is_zero(terms@[0]))) ==> {
                &&& old(self).nodes@[terms@[1].0 as int].ty is Const && old(self).spec_is_ones(terms@[1]) ==> (r is Some && (final(self).nodes@[(r->0).0 as int].ty matches TermType::Op(o, args) && o == Op::Not && args@ == seq![terms@[0]]))
                &&& old(self).nodes@[terms@[1].0 as int].ty is Const && old(self).spec_is_zero(terms@[1]) && !old(self).spec_is_ones(terms@[1]) ==> r == Some(terms@[0])
                &&& (old(self).nodes@[terms@[1].0 as int].ty matches TermType::Op(o, args) && o
                    == Op::Not && args@ == seq![terms@[0]]) ==> (r is Some && final(self).spec_is_ones(
                    r->0,
                ) && final(self).sort_of(r->0) == old(self).sort_of(terms@[0]))
            },
    {
        let x = terms[0];
        let y = terms[1];
        proof {
            assert(crate::term::node_wf(self.nodes@, terms@[1].0 as int));
        }
        match self.ordered_xor_simplify(x, y) {
            Some(t) => Some(t),
            None => self.ordered_xor_simplify(y, x),
        }
    }

    /// `EQ`: single-bit equality defers to the negated exclusive-or rules;
    /// equal operands are true, complementary operands false.
    pub fn eq_simplify(&mut self, terms: &Vec<Term>) -> (r: Option<Term>)
        requires
            old(self).wf(),
            terms@.len() == 2,
            old(self).contains(terms@[0]),
            old(self).contains(terms@[1]),
            old(self).sort_of(terms@[0]) is Bv,
            old(self).sort_of(terms@[1]) == old(self).sort_of(terms@[0]),
        ensures
            final(self).wf(),
            final(self).extends(*old(self)),
            final(self).avl_vid == old(self).avl_vid,
            match r {
                Some(t) => final(self).contains(t) && final(self).is_bool(t),
                None => true,
            },
            old(self).sort_of(terms@[0]) != Sort::Bv(1usize) ==> {
                &&& terms@[0] == terms@[1] ==> (r is Some && (final(self).nodes@[(r->0).0 as int].ty
                    matches TermType::Const(c) && c@ == seq![true]))
                &&& (old(self).nodes@[terms@[0].0 as int].ty matches TermType::Op(o, args) && o
                    == Op::Not && args@ == seq![terms@[1]]) ==> (r is Some && (final(self).nodes@[(r->0).0 as int].ty matches TermType::Const(c) && c@ == seq![false]))
                &&& (old(self).nodes@[terms@[1].0 as int].ty matches TermType::Op(o, args) && o
                    == Op::Not && args@ == seq![terms@[0]]) ==> (r is Some && (final(self).nodes@[(r->0).0 as int].ty matches TermType::Const(c) && c@ == seq![false]))
            },
    {
        let x = terms[0];
        let y = terms[1];
        if self.sort(x).is_bool() {
            match self.xor_simplify(terms) {
                Some(s) => {
                    let t = self.mk_not(s);
                    return Some(t);
                },
                None => {},
            }
        }
        proof {
            assert(crate::term::node_wf(self.nodes@, terms@[0].0 as int));
            assert(crate::term::node_wf(self.nodes@, terms@[1].0 as int));
        }
        if x.0 == y.0 {
            let t = self.bool_const(true);
            return Some(t);
        }
        let ny = self.mk_not(y);
        proof {
            match old(self).nodes@[x.0 as int].ty {
                TermType::Op(o, args) => {
                    if o == Op::Not && args@ == seq![y] {
                        assert(crate::term::ty_eqv(
                            self.nodes@[x.0 as int].ty,
                            self.nodes@[ny.0 as int].ty,
                        ));
                        crate::term::lemma_canonical(*self, x, ny);
                    }
                },
                _ => {},
            }
        }
        if x.0 == ny.0 {
            let t = self.bool_const(false);
            return Some(t);
        }
        let nx = self.mk_not(x);
        proof {
            match old(self).nodes@[y.0 as int].ty {
                TermType::Op(o, args) => {
                    if o == Op::Not && args@ == seq![x] {
                        assert(crate::term::ty_eqv(
                            self.nodes@[y.0 as int].ty,
                            self.nodes@[nx.0 as int].ty,
                        ));
                        crate::term::lemma_canonical(*self, y, nx);
                    }
                },
                _ => {},
            }
        }
        if y.0 == nx.0 {
            let t = self.bool_const(false);
            return Some(t);
        }
        None
    }

    /// `ULT`: a zero or all-ones boundary constant on either side folds to
    /// a disequality or to false.
    pub fn ult_simplify(&mut self, terms: &Vec<Term>) -> (r: Option<Term>)
        requires
            old(self).wf(),
            terms@.len() == 2,
            old(self).contains(terms@[0]),
            old(self).contains(terms@[1]),
            old(self).sort_of(terms@[0]) is Bv,
            old(self).sort_of(terms@[1]) == old(self).sort_of(terms@[0]),
        ensures
            final(self).wf(),
            final(self).extends(*old(self)),
            final(self).avl_vid == old(self).avl_vid,
            match r {
                Some(t) => final(self).contains(t) && final(self).is_bool(t),
                None => true,
            },
            old(self).nodes@[terms@[0].0 as int].ty is Const && old(self).spec_is_zero(terms@[0])
                ==> (r is Some && (final(self).nodes@[(r->0).0 as int].ty matches TermType::Op(o, args) && o == Op::Not && (final(self).nodes@[args@[0].0 as int].ty matches TermType::Op(o2, args2) && o2 == Op::Eq && args2@ == seq![terms@[0], terms@[1]]))),
            old(self).nodes@[terms@[0].0 as int].ty is Const && old(self).spec_is_ones(terms@[0])
                && !old(self).spec_is_zero(terms@[0]) ==> (r is Some && (final(self).nodes@[(r->0).0 as int].ty matches TermType::Const(c) && c@ == seq![false])),
            !(old(self).nodes@[terms@[0].0 as int].ty is Const && (old(self).spec_is_zero(terms@[0]) || old(self).spec_is_ones(terms@[0]))) ==> {
                &&& old(self).nodes@[terms@[1].0 as int].ty is Const && old(self).spec_is_zero(terms@[1]) ==> (r is Some && (final(self).nodes@[(r->0).0 as int].ty
                    matches TermType::Const(c) && c@ == seq![false]))
                &&& old(self).nodes@[terms@[1].0 as int].ty is Const && old(self).spec_is_ones(terms@[1]) && !old(self).spec_is_zero(terms@[1]) ==> (r is Some && (final(self).nodes@[(r->0).0 as int].ty matches TermType::Op(o, args) && o == Op::Not
                    && (final(self).nodes@[args@[0].0 as int].ty matches TermType::Op(o2, args2)
                    && o2 == Op::Eq && args2@ == seq![terms@[0], terms@[1]])))
            },
    {
        let x = terms[0];
        let y = terms[1];
        if self.is_const(x) {
            if self.const_is_zero(x) {
                let t = self.tneq(x, y);
                return Some(t);
            }
            if self.const_is_ones(x) {
                let t = self.bool_const(false);
                return Some(t);
            }
        }
        if self.is_const(y) {
            if self.const_is_zero(y) {
                let t = self.bool_const(false);
                return Some(t);
            }
            if self.const_is_ones(y) {
                let t = self.tneq(x, y);
                return Some(t);
            }
        }
        None
    }

    /// `SLT`: a signed boundary constant on either side folds to a
    /// disequality or to false: nothing is below the signed minimum and
    /// nothing is above the signed maximum.
    pub fn slt_simplify(&mut self, terms: &Vec<Term>) -> (r: Option<Term>)
        requires
            old(self).wf(),
            terms@.len() == 2,
            old(self).contains(terms@[0]),
            old(self).contains(terms@[1]),
            old(self).sort_of(terms@[0]) is Bv,
            old(self).sort_of(terms@[1]) == old(self).sort_of(terms@[0]),
        ensures
            final(self).wf(),
            final(self).extends(*old(self)),
            final(self).avl_vid == old(self).avl_vid,
            match r {
                Some(t) => final(self).contains(t) && final(self).is_bool(t),
                None => true,
            },
            old(self).nodes@[terms@[0].0 as int].ty is Const && old(self).spec_is_signed_min(terms@[0]) ==> (r is Some && (final(self).nodes@[(r->0).0 as int].ty matches TermType::Op(o, args) && o == Op::Not && (final(self).nodes@[args@[0].0 as int].ty matches TermType::Op(o2, args2) && o2 == Op::Eq && args2@ == seq![terms@[0], terms@[1]]))),
            old(self).nodes@[terms@[0].0 as int].ty is Const && old(self).spec_is_signed_max(terms@[0]) ==> (r is Some && (final(self).nodes@[(r->0).0 as int].ty matches TermType::Const(c) && c@ == seq![false])),
            !(old(self).nodes@[terms@[0].0 as int].ty is Const && (old(self).spec_is_signed_min(terms@[0]) || old(self).spec_is_signed_max(terms@[0]))) ==> {
                &&& old(self).nodes@[terms@[1].0 as int].ty is Const && old(self).spec_is_signed_min(terms@[1]) ==> (r is Some && (final(self).nodes@[(r->0).0 as int].ty matches TermType::Const(c) && c@ == seq![false]))
                &&& old(self).nodes@[terms@[1].0 as int].ty is Const && old(self).spec_is_signed_max(terms@[1]) ==> (r is Some && (final(self).nodes@[(r->0).0 as int].ty matches TermType::Op(o, args) && o == Op::Not && (
                final(self).nodes@[args@[0].0 as int].ty matches TermType::Op(o2, args2) && o2
                    == Op::Eq && args2@ == seq![terms@[0], terms@[1]])))
            },
    {
        let x = terms[0];
        let y = terms[1];
        if self.is_const(x) {
            if self.const_is_signed_min(x) {
                let t = self.tneq(x, y);
                return Some(t);
            }
            if self.const_is_signed_max(x) {
                let t = self.bool_const(false);
                return Some(t);
            }
        }
        if self.is_const(y) {
            if self.const_is_signed_min(y) {
                let t = self.bool_const(false);
                return Some(t);
            }
            if self.const_is_signed_max(y) {
                let t = self.tneq(x, y);
                return Some(t);
            }
        }
        None
    }

    /// `ITE`: a constant condition picks its branch; equal branches drop
    /// the condition; a negated condition swaps the branches; single-bit
    /// constant branches rewrite to conjunction and disjunction forms.
    pub fn ite_simplify(&mut self, terms: &Vec<Term>) -> (r: Option<Term>)
        requires
            old(self).wf(),
            terms@.len() == 3,
            old(self).is_bool(terms@[0]),
            old(self).contains(terms@[1]),
            old(self).contains(terms@[2]),
            old(self).sort_of(terms@[2]) == old(self).sort_of(terms@[1]),
            old(self).sort_of(terms@[1]).valid(),
        ensures
            final(self).wf(),
            final(self).extends(*old(self)),
            final(self).avl_vid == old(self).avl_vid,
            match r {
                Some(t) => final(self).contains(t) && final(self).sort_of(t) == old(self).sort_of(terms@[1]),
                None => true,
            },
            old(self).nodes@[terms@[0].0 as int].ty is Const && old(self).spec_is_ones(terms@[0])
                ==> r == Some(terms@[1]),
            old(self).nodes@[terms@[0].0 as int].ty is Const && !old(self).spec_is_ones(terms@[0]) ==> r == Some(terms@[2]),
            !(old(self).nodes@[terms@[0].0 as int].ty is Const) && terms@[1] == terms@[2] ==> r
                == Some(terms@[1]),
            !(old(self).nodes@[terms@[0].0 as int].ty is Const) && terms@[1] != terms@[2] && (old(self).nodes@[terms@[0].0 as int].ty matches TermType::Op(o, args) && o == Op::Not) ==> (r
                is Some && (final(self).nodes@[(r->0).0 as int].ty matches TermType::Op(o2, args2)
                && o2 == Op::Ite && args2@ == seq![
                old(self).nodes@[terms@[0].0 as int].ty->Op_1@[0],
                terms@[2],
                terms@[1],
            ])),
    {
        let c = terms[0];
        let t = terms[1];
        let e = terms[2];
        if self.is_const(c) {
            if self.const_is_ones(c) {
                return Some(t);
            } else {
                return Some(e);
            }
        }
        if t.0 == e.0 {
            return Some(t);
        }
        proof {
            // a negation node always has exactly one operand
            assert(crate::term::node_wf(self.nodes@, c.0 as int));
        }
        match self.try_op(c) {
            Some((Op::Not, args)) if args.len() == 1 => {
                let c0 = args[0];
                proof {
                    assert(crate::term::node_wf(self.nodes@, c.0 as int));
                }
                let r = self.ite(c0, e, t);
                return Some(r);
            },
            _ => {},
        }
        if self.is_bool_term(t) {
            if self.is_const(e) {
                if self.const_is_zero(e) {
                    let r = self.mk_bin(Op::And, c, t);
                    return Some(r);
                }
                if self.const_is_ones(e) {
                    let nc = self.mk_not(c);
                    let r = self.mk_bin(Op::Or, nc, t);
                    return Some(r);
                }
            }
            if self.is_const(t) {
                if self.const_is_zero(t) {
                    let nc = self.mk_not(c);
                    let r = self.mk_bin(Op::And, nc, e);
                    return Some(r);
                }
                if self.const_is_ones(t) {
                    let r = self.mk_bin(Op::Or, c, e);
                    return Some(r);
                }
            }
        }
        None
    }

    /// `SUB`: subtracting zero is the identity; a single-bit subtraction of
    /// one is negation.
    pub fn sub_simplify(&mut self, terms: &Vec<Term>) -> (r: Option<Term>)
        requires
            old(self).wf(),
            terms@.len() == 2,
            old(self).contains(terms@[0]),
            old(self).contains(terms@[1]),
            old(self).sort_of(terms@[0]) is Bv,
            old(self).sort_of(terms@[1]) == old(self).sort_of(terms@[0]),
        ensures
            final(self).wf(),
            final(self).extends(*old(self)),
            final(self).avl_vid == old(self).avl_vid,
            match r {
                Some(t) => final(self).contains(t) && final(self).sort_of(t) == old(self).sort_of(terms@[0]),
                None => true,
            },
            old(self).nodes@[terms@[1].0 as int].ty is Const && old(self).spec_is_zero(terms@[1])
                ==> r == Some(terms@[0]),
            old(self).nodes@[terms@[1].0 as int].ty is Const && old(self).spec_is_one(terms@[1])
                && old(self).sort_of(terms@[0]) == Sort::Bv(1usize) ==> (r is Some && (final(self).nodes@[(r->0).0 as int].ty matches TermType::Op(o, args) && o == Op::Not && args@
                == seq![terms@[0]])),
            !(old(self).nodes@[terms@[1].0 as int].ty is Const && (old(self).spec_is_zero(terms@[1]) || (old(self).spec_is_one(terms@[1]) && old(self).sort_of(terms@[0]) == Sort::Bv(1usize)))) ==> r is None,
    {
        let x = terms[0];
        let y = terms[1];
        if self.is_const(y) {
            if self.const_is_zero(y) {
                return Some(x);
            }
            let w = self.bv_len(x);
            if w == 1 && self.const_is_one(y) {
                let t = self.mk_not(x);
                return Some(t);
            }
        }
        None
    }

    /// `MUL`: a zero factor gives zero, a unit factor gives the other
    /// operand.
    pub fn mul_simplify(&mut self, terms: &Vec<Term>) -> (r: Option<Term>)
        requires
            old(self).wf(),
            terms@.len() == 2,
            old(self).contains(terms@[0]),
            old(self).contains(terms@[1]),
            old(self).sort_of(terms@[0]) is Bv,
            old(self).sort_of(terms@[1]) == old(self).sort_of(terms@[0]),
        ensures
            final(self).wf(),
            final(self).extends(*old(self)),
            final(self).avl_vid == old(self).avl_vid,
            match r {
                Some(t) => final(self).contains(t) && final(self).sort_of(t) == old(self).sort_of(terms@[0]),
                None => true,
            },
            old(self).nodes@[terms@[0].0 as int].ty is Const && old(self).spec_is_zero(terms@[0])
                ==> r == Some(terms@[0]),
            old(self).nodes@[terms@[0].0 as int].ty is Const && old(self).spec_is_one(terms@[0])
                ==> r == Some(terms@[1]),
            !(old(self).nodes@[terms@[0].0 as int].ty is Const && (old(self).spec_is_zero(terms@[0]) || old(self).spec_is_one(terms@[0]))) ==> {
                &&& old(self).nodes@[terms@[1].0 as int].ty is Const && old(self).spec_is_zero(terms@[1]) ==> r == Some(terms@[1])
                &&& old(self).nodes@[terms@[1].0 as int].ty is Const && old(self).spec_is_one(terms@[1]) ==> r == Some(terms@[0])
                &&& !(old(self).nodes@[terms@[1].0 as int].ty is Const && (old(self).spec_is_zero(terms@[1]) || old(self).spec_is_one(terms@[1]))) ==> r is None
            },
    {
        let x = terms[0];
        let y = terms[1];
        if self.is_const(x) {
            if self.const_is_zero(x) {
                return Some(x);
            }
            if self.const_is_one(x) {
                return Some(y);
            }
        }
        if self.is_const(y) {
            if self.const_is_zero(y) {
                return Some(y);
            }
            if self.const_is_one(y) {
                return Some(x);
            }
        }
        None
    }

    /// `UDIV` declares no rules; the signal is always "no rule applies".
    pub fn udiv_simplify(&mut self, terms: &Vec<Term>) -> (r: Option<Term>)
        ensures
            r is None,
            *final(self) == *old(self),
    {
        None
    }

    /// `CONCAT`: two constants fold into one, low operand first.
    pub fn concat_simplify(&mut self, terms: &Vec<Term>) -> (r: Option<Term>)
        requires
            old(self).wf(),
            terms@.len() == 2,
            old(self).contains(terms@[0]),
            old(self).contains(terms@[1]),
            old(self).sort_of(terms@[0]) is Bv,
            old(self).sort_of(terms@[1]) is Bv,
            old(self).sort_of(terms@[0])->Bv_0 + old(self).sort_of(terms@[1])->Bv_0
                <= usize::MAX,
        ensures
            final(self).wf(),
            final(self).extends(*old(self)),
            final(self).avl_vid == old(self).avl_vid,
            match r {
                Some(t) => final(self).contains(t) && final(self).sort_of(t) == Sort::Bv(
                    (old(self).sort_of(terms@[0])->Bv_0 + old(self).sort_of(terms@[1])->Bv_0)
                        as usize,
                ),
                None => *final(self) == *old(self),
            },
            (old(self).nodes@[terms@[0].0 as int].ty matches TermType::Const(cx) && (old(self).nodes@[terms@[1].0 as int].ty matches TermType::Const(cy))) ==> (r is Some && (final(self).nodes@[(r->0).0 as int].ty matches TermType::Const(b) && b@ == old(self).nodes@[terms@[1].0 as int].ty->Const_0@ + old(self).nodes@[terms@[0].0 as int].ty->Const_0@)),
            !(old(self).nodes@[terms@[0].0 as int].ty is Const && old(self).nodes@[terms@[1].0 as int].ty is Const) ==> r is None,
    {
        let x = terms[0];
        let y = terms[1];
        if self.is_const(x) && self.is_const(y) {
            let mut bits: Vec<bool> = Vec::new();
            let ghost xw = self.sort_of(x)->Bv_0;
            let ghost yw = self.sort_of(y)->Bv_0;
            match self.try_bv_const(y) {
                Some(yc) => {
                    let mut i: usize = 0;
                    let ylen = yc.len();
                    while i < ylen
                        invariant
                            i <= ylen,
                            self.wf(),
                            self.contains(terms@[1]),
                            self.nodes@[terms@[1].0 as int].ty is Const,
                            ylen == (self.nodes@[terms@[1].0 as int].ty->Const_0)@.len(),
                            bits@ =~= (self.nodes@[terms@[1].0 as int].ty->Const_0)@.take(
                                i as int,
                            ),
                        decreases ylen - i,
                    {
                        let b = match self.try_bv_const(y) {
                            Some(c) => c[i],
                            None => unreached(),
                        };
                        bits.push(b);
                        proof {
                            let cy = (self.nodes@[terms@[1].0 as int].ty->Const_0)@;
                            assert(cy.take(i as int).push(cy[i as int]) =~= cy.take(i + 1));
                        }
                        i += 1;
                    }
                },
                None => unreached(),
            }
            match self.try_bv_const(x) {
                Some(xc) => {
                    let mut i: usize = 0;
                    let xlen = xc.len();
                    let ghost base = bits@.len();
                    while i < xlen
                        invariant
                            i <= xlen,
                            self.wf(),
                            self.contains(terms@[0]),
                            self.nodes@[terms@[0].0 as int].ty is Const,
                            xlen == (self.nodes@[terms@[0].0 as int].ty->Const_0)@.len(),
                            bits@ =~= (self.nodes@[terms@[1].0 as int].ty->Const_0)@ + (
                            self.nodes@[terms@[0].0 as int].ty->Const_0)@.take(i as int),
                        decreases xlen - i,
                    {
                        let b = match self.try_bv_const(x) {
                            Some(c) => c[i],
                            None => unreached(),
                        };
                        bits.push(b);
                        proof {
                            let cx = (self.nodes@[terms@[0].0 as int].ty->Const_0)@;
                            let cy = (self.nodes@[terms@[1].0 as int].ty->Const_0)@;
                            assert(cy + cx.take(i as int) + seq![cx[i as int]] =~= cy + cx.take(
                                i + 1,
                            ));
                        }
                        i += 1;
                    }
                },
                None => unreached(),
            }
            proof {
                assert(crate::term::node_wf(self.nodes@, terms@[0].0 as int));
                assert(crate::term::node_wf(self.nodes@, terms@[1].0 as int));
                let cx = (self.nodes@[terms@[0].0 as int].ty->Const_0)@;
                let cy = (self.nodes@[terms@[1].0 as int].ty->Const_0)@;
                assert(bits@ =~= cy + cx);
            }
            let t = self.bv_const(bits);
            Some(t)
        } else {
            None
        }
    }

    /// `SLICE`: taking the whole of a single-bit vector is the identity,
    /// and nothing else has a rule.
    pub fn slice_simplify(&mut self, s: Term, h: usize, l: usize) -> (r: Option<Term>)
        requires
            old(self).wf(),
            old(self).contains(s),
            old(self).sort_of(s) is Bv,
        ensures
            final(self).wf(),
            final(self).extends(*old(self)),
            final(self).avl_vid == old(self).avl_vid,
            match r {
                Some(t) => t == s && l == 0 && h == 0 && old(self).sort_of(s) == Sort::Bv(1usize),
                None => *final(self) == *old(self),
            },
            l == 0 && h == 0 && old(self).sort_of(s) == Sort::Bv(1usize) ==> r == Some(s),
    {
        let w = self.bv_len(s);
        if l == 0 && h == 0 && w == 1 {
            Some(s)
        } else {
            None
        }
    }
}

} // verus!
