//! The hash-consed term DAG. Terms are integer handles into an arena of
//! nodes owned by a `TermManager`; the manager keeps at most one node per
//! structural shape, so two terms are structurally equal exactly when their
//! handles are equal, within one manager.
use crate::op::Op;
use crate::sort::Sort;
use vstd::prelude::*;

verus! {

/// A handle into one `TermManager`'s arena. Handles from different managers
/// are never comparable.
#[derive(Clone, Copy, PartialEq, Eq, Hash, Debug, Structural)]
pub struct Term(pub usize);

/// The shape of a term: a constant bit-vector (index 0 least significant), a
/// free variable with its unique id, or an operator application.
pub enum TermType {
    Const(Vec<bool>),
    Var(usize),
    Op(Op, Vec<Term>),
}

/// One arena node: a shape and its sort, computed once at construction.
pub struct TermNode {
    pub sort: Sort,
    pub ty: TermType,
}

/// Structural equality of shapes; operands compare by handle, which within
/// one manager coincides with structural equality of the subterms.
pub open spec fn ty_eqv(a: TermType, b: TermType) -> bool {
    match (a, b) {
        (TermType::Const(x), TermType::Const(y)) => x@ == y@,
        (TermType::Var(x), TermType::Var(y)) => x == y,
        (TermType::Op(o1, t1), TermType::Op(o2, t2)) => o1 == o2 && t1@ == t2@,
        _ => false,
    }
}

/// The sorts of a sequence of operand handles.
pub open spec fn operand_sorts(nodes: Seq<TermNode>, args: Seq<Term>) -> Seq<Sort> {
    Seq::new(args.len(), |j: int| nodes[args[j].0 as int].sort)
}

/// Well-formedness of the node at index `i`: constants carry their exact
/// width, variables a valid sort, and applications refer only to earlier
/// nodes, with operand sorts the operator accepts and the sort the operator
/// computes.
pub open spec fn node_wf(nodes: Seq<TermNode>, i: int) -> bool {
    match nodes[i].ty {
        TermType::Const(c) => nodes[i].sort is Bv && nodes[i].sort->Bv_0 == c@.len(),
        TermType::Var(_) => nodes[i].sort.valid(),
        TermType::Op(o, args) => {
            &&& forall|j: int| 0 <= j < args@.len() ==> (#[trigger] args@[j]).0 < i
            &&& o.input_ok(operand_sorts(nodes, args@))
            &&& nodes[i].sort == o.sort_spec(operand_sorts(nodes, args@))
        },
    }
}

/// Whether a candidate node could be appended at the end of the arena.
pub open spec fn candidate_wf(nodes: Seq<TermNode>, avl_vid: nat, ty: TermType, sort: Sort) -> bool {
    match ty {
        TermType::Const(c) => sort is Bv && sort->Bv_0 == c@.len(),
        TermType::Var(v) => sort.valid() && v < avl_vid,
        TermType::Op(o, args) => {
            &&& forall|j: int| 0 <= j < args@.len() ==> (#[trigger] args@[j]).0 < nodes.len()
            &&& o.input_ok(operand_sorts(nodes, args@))
            &&& sort == o.sort_spec(operand_sorts(nodes, args@))
        },
    }
}

/// One interning context: the arena of canonical nodes and the next free
/// variable id.
pub struct TermManager {
    pub nodes: Vec<TermNode>,
    pub avl_vid: usize,
}

impl TermManager {
    /// The manager's invariant: every node is well formed, no two nodes
    /// share a shape (canonicity), and variable ids are below the counter.
    pub open spec fn wf(self) -> bool {
        &&& forall|i: int| 0 <= i < self.nodes@.len() ==> node_wf(self.nodes@, i)
        &&& forall|i: int, j: int|
            0 <= i < j < self.nodes@.len() ==> !ty_eqv(self.nodes@[i].ty, self.nodes@[j].ty)
        &&& forall|i: int|
            0 <= i < self.nodes@.len() ==> match (#[trigger] self.nodes@[i]).ty {
                TermType::Var(v) => v < self.avl_vid,
                _ => true,
            }
    }

    pub open spec fn contains(self, t: Term) -> bool {
        t.0 < self.nodes@.len()
    }

    pub open spec fn sort_of(self, t: Term) -> Sort {
        self.nodes@[t.0 as int].sort
    }

    pub open spec fn is_bool(self, t: Term) -> bool {
        self.contains(t) && self.sort_of(t) == Sort::Bv(1usize)
    }

    /// The later manager keeps every node of the earlier one, at the same
    /// index: handles stay valid and keep their meaning as the arena grows.
    pub open spec fn extends(self, old: TermManager) -> bool {
        &&& old.nodes@.len() <= self.nodes@.len()
        &&& forall|i: int| 0 <= i < old.nodes@.len() ==> self.nodes@[i] == old.nodes@[i]
        &&& old.avl_vid <= self.avl_vid
    }

    pub fn new() -> (r: TermManager)
        ensures
            r.wf(),
            r.nodes@.len() == 0,
            r.avl_vid == 0,
    {
        TermManager { nodes: Vec::new(), avl_vid: 0 }
    }

    pub fn num_terms(&self) -> (r: usize)
        ensures
            r == self.nodes@.len(),
    {
        self.nodes.len()
    }

    pub fn sort(&self, t: Term) -> (r: Sort)
        requires
            self.contains(t),
        ensures
            r == self.sort_of(t),
    {
        self.nodes[t.0].sort
    }

    pub fn is_bool_term(&self, t: Term) -> (r: bool)
        requires
            self.contains(t),
        ensures
            r == (self.sort_of(t) == Sort::Bv(1usize)),
    {
        self.nodes[t.0].sort.is_bool()
    }

    /// The width of a bit-vector term.
    pub fn bv_len(&self, t: Term) -> (r: usize)
        requires
            self.contains(t),
            self.sort_of(t) is Bv,
        ensures
            self.sort_of(t) == Sort::Bv(r),
    {
        self.nodes[t.0].sort.bv()
    }

    pub fn is_const(&self, t: Term) -> (r: bool)
        requires
            self.contains(t),
        ensures
            r == (self.nodes@[t.0 as int].ty is Const),
    {
        matches!(self.nodes[t.0].ty, TermType::Const(_))
    }

    pub fn is_var(&self, t: Term) -> (r: bool)
        requires
            self.contains(t),
        ensures
            r == (self.nodes@[t.0 as int].ty is Var),
    {
        matches!(self.nodes[t.0].ty, TermType::Var(_))
    }

    pub fn is_op(&self, t: Term) -> (r: bool)
        requires
            self.contains(t),
        ensures
            r == (self.nodes@[t.0 as int].ty is Op),
    {
        matches!(self.nodes[t.0].ty, TermType::Op(_, _))
    }

    /// The constant bits of a constant term.
    pub fn try_bv_const(&self, t: Term) -> (r: Option<&Vec<bool>>)
        requires
            self.contains(t),
        ensures
            match r {
                Some(c) => self.nodes@[t.0 as int].ty matches TermType::Const(b) && b@ == c@,
                None => !(self.nodes@[t.0 as int].ty is Const),
            },
    {
        match &self.nodes[t.0].ty {
            TermType::Const(c) => Some(c),
            _ => None,
        }
    }

    /// The operator tag and operands of an application term.
    pub fn try_op(&self, t: Term) -> (r: Option<(Op, &Vec<Term>)>)
        requires
            self.contains(t),
        ensures
            match r {
                Some(p) => self.nodes@[t.0 as int].ty matches TermType::Op(o, a) && o == p.0
                    && a@ == p.1@,
                None => !(self.nodes@[t.0 as int].ty is Op),
            },
    {
        match &self.nodes[t.0].ty {
            TermType::Op(o, a) => Some((*o, a)),
            _ => None,
        }
    }
}

fn vec_bool_eq(a: &Vec<bool>, b: &Vec<bool>) -> (r: bool)
    ensures
        r == (a@ =~= b@),
{
    if a.len() != b.len() {
        return false;
    }
    let mut i: usize = 0;
    while i < a.len()
        invariant
            i <= a@.len(),
            a@.len() == b@.len(),
            forall|j: int| 0 <= j < i ==> a@[j] == b@[j],
        decreases a@.len() - i,
    {
        if a[i] != b[i] {
            return false;
        }
        i += 1;
    }
    true
}

fn vec_term_eq(a: &Vec<Term>, b: &Vec<Term>) -> (r: bool)
    ensures
        r == (a@ =~= b@),
{
    if a.len() != b.len() {
        return false;
    }
    let mut i: usize = 0;
    while i < a.len()
        invariant
            i <= a@.len(),
            a@.len() == b@.len(),
            forall|j: int| 0 <= j < i ==> a@[j] == b@[j],
        decreases a@.len() - i,
    {
        if a[i].0 != b[i].0 {
            return false;
        }
        i += 1;
    }
    true
}

fn term_type_eq(a: &TermType, b: &TermType) -> (r: bool)
    ensures
        r == ty_eqv(*a, *b),
{
    match (a, b) {
        (TermType::Const(x), TermType::Const(y)) => vec_bool_eq(x, y),
        (TermType::Var(x), TermType::Var(y)) => *x == *y,
        (TermType::Op(o1, t1), TermType::Op(o2, t2)) => crate::op::op_eq(*o1, *o2) && vec_term_eq(
            t1,
            t2,
        ),
        _ => false,
    }
}

/// A well-formed node stays well formed when the arena grows behind it.
proof fn lemma_node_wf_grow(nodes: Seq<TermNode>, more: Seq<TermNode>, i: int)
    requires
        0 <= i < nodes.len(),
        node_wf(nodes, i),
        nodes.len() <= more.len(),
        forall|k: int| 0 <= k < nodes.len() ==> more[k] == nodes[k],
    ensures
        node_wf(more, i),
{
    match nodes[i].ty {
        TermType::Op(o, args) => {
            assert(operand_sorts(more, args@) =~= operand_sorts(nodes, args@));
        },
        _ => {},
    }
}

impl TermManager {
    /// Intern a node: the canonical lookup-or-insert at the heart of
    /// hash-consing. If a node of this shape already exists, its handle is
    /// returned and the manager is left untouched; otherwise the node is
    /// appended.
    fn new_term(&mut self, ty: TermType, sort: Sort) -> (t: Term)
        requires
            old(self).wf(),
            candidate_wf(old(self).nodes@, old(self).avl_vid as nat, ty, sort),
            ty is Var ==> forall|i: int|
                0 <= i < old(self).nodes@.len() ==> !ty_eqv(old(self).nodes@[i].ty, ty),
        ensures
            final(self).wf(),
            final(self).extends(*old(self)),
            final(self).avl_vid == old(self).avl_vid,
            final(self).contains(t),
            ty_eqv(final(self).nodes@[t.0 as int].ty, ty),
            final(self).nodes@[t.0 as int].sort == sort,
            final(self).avl_vid == old(self).avl_vid,
            (exists|i: int|
                0 <= i < old(self).nodes@.len() && ty_eqv(
                    old(self).nodes@[i].ty,
                    ty,
                )) ==> *final(self) == *old(self),
            !(exists|i: int|
                0 <= i < old(self).nodes@.len() && ty_eqv(old(self).nodes@[i].ty, ty))
                ==> final(self).nodes@ =~= old(self).nodes@.push(TermNode { sort, ty }) && t.0
                == old(self).nodes@.len(),
    {
        let n = self.nodes.len();
        let mut i: usize = 0;
        while i < n
            invariant
                n == self.nodes@.len(),
                i <= n,
                forall|j: int| 0 <= j < i ==> !ty_eqv(self.nodes@[j].ty, ty),
            decreases n - i,
        {
            if term_type_eq(&self.nodes[i].ty, &ty) {
                proof {
                    // an interned node of this shape carries exactly the
                    // candidate's sort
                    assert(node_wf(self.nodes@, i as int));
                    match self.nodes@[i as int].ty {
                        TermType::Const(c) => {},
                        TermType::Var(_) => {},
                        TermType::Op(o, args) => {
                            match ty {
                                TermType::Op(o2, args2) => {
                                    assert(operand_sorts(self.nodes@, args@) =~= operand_sorts(
                                        self.nodes@,
                                        args2@,
                                    ));
                                },
                                _ => {},
                            }
                        },
                    }
                    assert(self.nodes@[i as int].sort == sort);
                }
                return Term(i);
            }
            i += 1;
        }
        self.nodes.push(TermNode { sort, ty });
        proof {
            let nodes2 = self.nodes@;
            let old_nodes = old(self).nodes@;
            assert forall|k: int| 0 <= k < nodes2.len() implies node_wf(nodes2, k) by {
                if k < old_nodes.len() {
                    lemma_node_wf_grow(old_nodes, nodes2, k);
                } else {
                    match nodes2[k].ty {
                        TermType::Op(o, args) => {
                            assert(operand_sorts(nodes2, args@) =~= operand_sorts(
                                old_nodes,
                                args@,
                            ));
                        },
                        _ => {},
                    }
                }
            }
        }
        Term(n)
    }

    /// A single-bit constant.
    pub fn bool_const(&mut self, c: bool) -> (t: Term)
        requires
            old(self).wf(),
        ensures
            final(self).wf(),
            final(self).extends(*old(self)),
            final(self).avl_vid == old(self).avl_vid,
            final(self).contains(t),
            final(self).sort_of(t) == Sort::Bv(1usize),
            final(self).nodes@[t.0 as int].ty matches TermType::Const(b) && b@ =~= seq![c],
            (exists|i: int|
                0 <= i < old(self).nodes@.len() && ((#[trigger] old(self).nodes@[i]).ty
                    matches TermType::Const(b) && b@ == seq![c])) ==> *final(self) == *old(self),
    {
        let mut bits: Vec<bool> = Vec::new();
        bits.push(c);
        proof {
            assert(bits@ =~= seq![c]);
        }
        self.bv_const(bits)
    }

    /// A constant bit-vector; its sort is `Bv` of its exact width.
    /// Constructing the same constant twice yields the same handle and
    /// leaves the manager untouched.
    pub fn bv_const(&mut self, c: Vec<bool>) -> (t: Term)
        requires
            old(self).wf(),
        ensures
            final(self).wf(),
            final(self).extends(*old(self)),
            final(self).avl_vid == old(self).avl_vid,
            final(self).contains(t),
            final(self).sort_of(t) == Sort::Bv(c@.len() as usize),
            final(self).nodes@[t.0 as int].ty matches TermType::Const(b) && b@ =~= c@,
            (exists|i: int|
                0 <= i < old(self).nodes@.len() && ty_eqv(
                    old(self).nodes@[i].ty,
                    TermType::Const(c),
                )) ==> *final(self) == *old(self),
    {
        let sort = Sort::Bv(c.len());
        self.new_term(TermType::Const(c), sort)
    }

    /// A fresh free variable of the given sort; every call yields a new
    /// handle.
    pub fn new_var(&mut self, sort: Sort) -> (t: Term)
        requires
            old(self).wf(),
            sort.valid(),
            old(self).avl_vid < usize::MAX,
        ensures
            final(self).wf(),
            final(self).extends(*old(self)),
            final(self).contains(t),
            final(self).sort_of(t) == sort,
            final(self).nodes@[t.0 as int].ty matches TermType::Var(v) && v == old(self).avl_vid,
            t.0 == old(self).nodes@.len(),
            final(self).nodes@.len() == old(self).nodes@.len() + 1,
            final(self).avl_vid == old(self).avl_vid + 1,
    {
        let id = self.avl_vid;
        self.avl_vid = self.avl_vid + 1;
        proof {
            assert forall|i: int|
                0 <= i < self.nodes@.len() implies !ty_eqv(
                self.nodes@[i].ty,
                TermType::Var(id),
            ) by {
                match self.nodes@[i].ty {
                    TermType::Var(v) => {
                        assert(v < id);
                    },
                    _ => {},
                }
            }
        }
        self.new_term(TermType::Var(id), sort)
    }

    /// Apply an operator to operand terms, interning the application.
    /// Applying the same operator to the same operands twice yields the
    /// same handle and leaves the manager untouched.
    pub fn new_op(&mut self, op: Op, terms: Vec<Term>) -> (t: Term)
        requires
            old(self).wf(),
            forall|j: int| 0 <= j < terms@.len() ==> old(self).contains(#[trigger] terms@[j]),
            op.input_ok(operand_sorts(old(self).nodes@, terms@)),
        ensures
            final(self).wf(),
            final(self).extends(*old(self)),
            final(self).avl_vid == old(self).avl_vid,
            final(self).contains(t),
            final(self).sort_of(t) == op.sort_spec(operand_sorts(old(self).nodes@, terms@)),
            final(self).nodes@[t.0 as int].ty matches TermType::Op(o, a) && o == op && a@
                =~= terms@,
            (exists|i: int|
                0 <= i < old(self).nodes@.len() && ty_eqv(
                    old(self).nodes@[i].ty,
                    TermType::Op(op, terms),
                )) ==> *final(self) == *old(self),
    {
        let mut sorts: Vec<Sort> = Vec::new();
        let mut j: usize = 0;
        while j < terms.len()
            invariant
                j <= terms@.len(),
                sorts@.len() == j,
                forall|k: int| 0 <= k < j ==> sorts@[k] == self.nodes@[terms@[k].0 as int].sort,
            decreases terms@.len() - j,
        {
            sorts.push(self.nodes[terms[j].0].sort);
            j += 1;
        }
        proof {
            assert(sorts@ =~= operand_sorts(self.nodes@, terms@));
        }
        let sort = op.sort_of(&sorts);
        self.new_term(TermType::Op(op, terms), sort)
    }
}

impl TermManager {
    /// Left-fold a binary elementwise operator over one or more operands of
    /// one shared bit-vector sort.
    pub fn new_op_fold(&mut self, op: Op, terms: &Vec<Term>) -> (t: Term)
        requires
            old(self).wf(),
            terms@.len() >= 1,
            forall|j: int| 0 <= j < terms@.len() ==> old(self).contains(#[trigger] terms@[j]),
            forall|j: int|
                0 <= j < terms@.len() ==> old(self).sort_of(#[trigger] terms@[j]) == old(
                    self,
                ).sort_of(terms@[0]),
            op.input_ok(seq![old(self).sort_of(terms@[0]), old(self).sort_of(terms@[0])]),
            op.sort_spec(
                seq![old(self).sort_of(terms@[0]), old(self).sort_of(terms@[0])],
            ) == old(self).sort_of(terms@[0]),
        ensures
            final(self).wf(),
            final(self).extends(*old(self)),
            final(self).avl_vid == old(self).avl_vid,
            final(self).contains(t),
            final(self).sort_of(t) == old(self).sort_of(terms@[0]),
            fold_chain(
                *final(self),
                op,
                terms@[0],
                terms@.subrange(1, terms@.len() as int),
                t,
            ),
    {
        let ghost s = self.sort_of(terms@[0]);
        let mut acc = terms[0];
        let mut i: usize = 1;
        proof {
            assert(terms@.subrange(1, 1) =~= Seq::<Term>::empty());
        }
        while i < terms.len()
            invariant
                1 <= i <= terms@.len(),
                self.wf(),
                self.extends(*old(self)),
                self.avl_vid == old(self).avl_vid,
                self.contains(acc),
                self.sort_of(acc) == s,
                fold_chain(*self, op, terms@[0], terms@.subrange(1, i as int), acc),
            decreases terms@.len() - i,
        {
            let mut args: Vec<Term> = Vec::new();
            args.push(acc);
            args.push(terms[i]);
            proof {
                assert(operand_sorts(self.nodes@, args@) =~= seq![s, s]);
            }
            let ghost pre = *self;
            acc = self.new_op(op, args);
            proof {
                lemma_fold_chain_grow(
                    pre,
                    *self,
                    op,
                    terms@[0],
                    terms@.subrange(1, i as int),
                    args@[0],
                );
                assert(terms@.subrange(1, i + 1).drop_last() =~= terms@.subrange(1, i as int));
                assert(terms@.subrange(1, i + 1).last() == terms@[i as int]);
                assert(self.nodes@[acc.0 as int].ty matches TermType::Op(o, a) && o == op && a@
                    =~= args@);
            }
            i += 1;
        }
        proof {
            assert(terms@.subrange(1, terms@.len() as int) =~= terms@.subrange(
                1,
                terms@.len() as int,
            ));
        }
        acc
    }

    /// The conjunction of any number of single-bit terms, seeded with the
    /// constant `true`.
    pub fn new_ands(&mut self, terms: &Vec<Term>) -> (t: Term)
        requires
            old(self).wf(),
            forall|j: int| 0 <= j < terms@.len() ==> old(self).is_bool(#[trigger] terms@[j]),
        ensures
            final(self).wf(),
            final(self).extends(*old(self)),
            final(self).avl_vid == old(self).avl_vid,
            final(self).is_bool(t),
            exists|seed: Term|
                (final(self).nodes@[seed.0 as int].ty matches TermType::Const(c) && c@ == seq![
                    true,
                ]) && final(self).contains(seed) && #[trigger] fold_chain(
                    *final(self),
                    Op::And,
                    seed,
                    terms@,
                    t,
                ),
    {
        let seed = self.bool_const(true);
        let mut acc = seed;
        let mut i: usize = 0;
        while i < terms.len()
            invariant
                i <= terms@.len(),
                self.wf(),
                self.extends(*old(self)),
                self.avl_vid == old(self).avl_vid,
                self.is_bool(acc),
                self.contains(seed),
                self.nodes@[seed.0 as int].ty matches TermType::Const(c) && c@ == seq![true],
                fold_chain(*self, Op::And, seed, terms@.subrange(0, i as int), acc),
            decreases terms@.len() - i,
        {
            let mut args: Vec<Term> = Vec::new();
            args.push(acc);
            args.push(terms[i]);
            proof {
                assert(operand_sorts(self.nodes@, args@) =~= seq![
                    Sort::Bv(1usize),
                    Sort::Bv(1usize),
                ]);
            }
            let ghost pre = *self;
            acc = self.new_op(Op::And, args);
            proof {
                lemma_fold_chain_grow(
                    pre,
                    *self,
                    Op::And,
                    seed,
                    terms@.subrange(0, i as int),
                    args@[0],
                );
                assert(terms@.subrange(0, i + 1).drop_last() =~= terms@.subrange(0, i as int));
                assert(self.nodes@[acc.0 as int].ty matches TermType::Op(o, a) && o == Op::And
                    && a@ =~= args@);
            }
            i += 1;
        }
        proof {
            assert(terms@.subrange(0, terms@.len() as int) =~= terms@);
        }
        acc
    }

    /// The disjunction of any number of single-bit terms, seeded with the
    /// constant `false`.
    pub fn new_ors(&mut self, terms: &Vec<Term>) -> (t: Term)
        requires
            old(self).wf(),
            forall|j: int| 0 <= j < terms@.len() ==> old(self).is_bool(#[trigger] terms@[j]),
        ensures
            final(self).wf(),
            final(self).extends(*old(self)),
            final(self).avl_vid == old(self).avl_vid,
            final(self).is_bool(t),
            exists|seed: Term|
                (final(self).nodes@[seed.0 as int].ty matches TermType::Const(c) && c@ == seq![
                    false,
                ]) && final(self).contains(seed) && #[trigger] fold_chain(
                    *final(self),
                    Op::Or,
                    seed,
                    terms@,
                    t,
                ),
    {
        let seed = self.bool_const(false);
        let mut acc = seed;
        let mut i: usize = 0;
        while i < terms.len()
            invariant
                i <= terms@.len(),
                self.wf(),
                self.extends(*old(self)),
                self.avl_vid == old(self).avl_vid,
                self.is_bool(acc),
                self.contains(seed),
                self.nodes@[seed.0 as int].ty matches TermType::Const(c) && c@ == seq![false],
                fold_chain(*self, Op::Or, seed, terms@.subrange(0, i as int), acc),
            decreases terms@.len() - i,
        {
            let mut args: Vec<Term> = Vec::new();
            args.push(acc);
            args.push(terms[i]);
            proof {
                assert(operand_sorts(self.nodes@, args@) =~= seq![
                    Sort::Bv(1usize),
                    Sort::Bv(1usize),
                ]);
            }
            let ghost pre = *self;
            acc = self.new_op(Op::Or, args);
            proof {
                lemma_fold_chain_grow(
                    pre,
                    *self,
                    Op::Or,
                    seed,
                    terms@.subrange(0, i as int),
                    args@[0],
                );
                assert(terms@.subrange(0, i + 1).drop_last() =~= terms@.subrange(0, i as int));
                assert(self.nodes@[acc.0 as int].ty matches TermType::Op(o, a) && o == Op::Or
                    && a@ =~= args@);
            }
            i += 1;
        }
        proof {
            assert(terms@.subrange(0, terms@.len() as int) =~= terms@);
        }
        acc
    }

    /// Apply a binary single-bit operator position by position.
    pub fn new_op_elementwise(&mut self, op: Op, x: &Vec<Term>, y: &Vec<Term>) -> (r: Vec<Term>)
        requires
            old(self).wf(),
            x@.len() == y@.len(),
            forall|j: int| 0 <= j < x@.len() ==> old(self).is_bool(#[trigger] x@[j]),
            forall|j: int| 0 <= j < y@.len() ==> old(self).is_bool(#[trigger] y@[j]),
            op.input_ok(seq![Sort::Bv(1usize), Sort::Bv(1usize)]),
            op.sort_spec(seq![Sort::Bv(1usize), Sort::Bv(1usize)]) == Sort::Bv(1usize),
        ensures
            final(self).wf(),
            final(self).extends(*old(self)),
            final(self).avl_vid == old(self).avl_vid,
            r@.len() == x@.len(),
            forall|j: int| 0 <= j < r@.len() ==> final(self).is_bool(#[trigger] r@[j]),
            forall|j: int|
                0 <= j < r@.len() ==> (final(self).nodes@[(#[trigger] r@[j]).0 as int].ty
                    matches TermType::Op(o, a) && o == op && a@ == seq![x@[j], y@[j]]),
    {
        let mut r: Vec<Term> = Vec::new();
        let mut i: usize = 0;
        while i < x.len()
            invariant
                i <= x@.len(),
                self.wf(),
                self.extends(*old(self)),
                self.avl_vid == old(self).avl_vid,
                r@.len() == i,
                forall|j: int| 0 <= j < i ==> self.is_bool(#[trigger] r@[j]),
                forall|j: int|
                    0 <= j < i ==> (self.nodes@[(#[trigger] r@[j]).0 as int].ty
                        matches TermType::Op(o, a) && o == op && a@ == seq![x@[j], y@[j]]),
            decreases x@.len() - i,
        {
            let mut args: Vec<Term> = Vec::new();
            args.push(x[i]);
            args.push(y[i]);
            proof {
                assert(operand_sorts(self.nodes@, args@) =~= seq![
                    Sort::Bv(1usize),
                    Sort::Bv(1usize),
                ]);
            }
            let t = self.new_op(op, args);
            proof {
                assert(self.nodes@[t.0 as int].ty matches TermType::Op(o, a) && o == op && a@
                    =~= seq![x@[i as int], y@[i as int]]);
            }
            r.push(t);
            i += 1;
        }
        r
    }

    /// Negation of one single-bit term.
    pub fn b_not(&mut self, a: Term) -> (t: Term)
        requires
            old(self).wf(),
            old(self).is_bool(a),
        ensures
            final(self).wf(),
            final(self).extends(*old(self)),
            final(self).avl_vid == old(self).avl_vid,
            final(self).is_bool(t),
            final(self).nodes@[t.0 as int].ty matches TermType::Op(o, args) && o == Op::Not
                && args@ =~= seq![a],
    {
        let mut args: Vec<Term> = Vec::new();
        args.push(a);
        proof {
            assert(operand_sorts(self.nodes@, args@) =~= seq![Sort::Bv(1usize)]);
        }
        self.new_op(Op::Not, args)
    }

    fn b_bin(&mut self, op: Op, a: Term, b: Term) -> (t: Term)
        requires
            old(self).wf(),
            old(self).is_bool(a),
            old(self).is_bool(b),
            op.input_ok(seq![Sort::Bv(1usize), Sort::Bv(1usize)]),
            op.sort_spec(seq![Sort::Bv(1usize), Sort::Bv(1usize)]) == Sort::Bv(1usize),
        ensures
            final(self).wf(),
            final(self).extends(*old(self)),
            final(self).avl_vid == old(self).avl_vid,
            final(self).is_bool(t),
            final(self).nodes@[t.0 as int].ty matches TermType::Op(o, args) && o == op && args@
                =~= seq![a, b],
    {
        let mut args: Vec<Term> = Vec::new();
        args.push(a);
        args.push(b);
        proof {
            assert(operand_sorts(self.nodes@, args@) =~= seq![Sort::Bv(1usize), Sort::Bv(1usize)]);
        }
        self.new_op(op, args)
    }

    /// Conjunction of two single-bit terms.
    pub fn b_and(&mut self, a: Term, b: Term) -> (t: Term)
        requires
            old(self).wf(),
            old(self).is_bool(a),
            old(self).is_bool(b),
        ensures
            final(self).wf(),
            final(self).extends(*old(self)),
            final(self).avl_vid == old(self).avl_vid,
            final(self).is_bool(t),
            final(self).nodes@[t.0 as int].ty matches TermType::Op(o, args) && o == Op::And && args@
                =~= seq![a, b],
    {
        self.b_bin(Op::And, a, b)
    }

    /// Disjunction of two single-bit terms.
    pub fn b_or(&mut self, a: Term, b: Term) -> (t: Term)
        requires
            old(self).wf(),
            old(self).is_bool(a),
            old(self).is_bool(b),
        ensures
            final(self).wf(),
            final(self).extends(*old(self)),
            final(self).avl_vid == old(self).avl_vid,
            final(self).is_bool(t),
            final(self).nodes@[t.0 as int].ty matches TermType::Op(o, args) && o == Op::Or && args@
                =~= seq![a, b],
    {
        self.b_bin(Op::Or, a, b)
    }

    /// Exclusive or of two single-bit terms.
    pub fn b_xor(&mut self, a: Term, b: Term) -> (t: Term)
        requires
            old(self).wf(),
            old(self).is_bool(a),
            old(self).is_bool(b),
        ensures
            final(self).wf(),
            final(self).extends(*old(self)),
            final(self).avl_vid == old(self).avl_vid,
            final(self).is_bool(t),
            final(self).nodes@[t.0 as int].ty matches TermType::Op(o, args) && o == Op::Xor && args@
                =~= seq![a, b],
    {
        self.b_bin(Op::Xor, a, b)
    }

    /// Equivalence of two single-bit terms.
    pub fn b_eq(&mut self, a: Term, b: Term) -> (t: Term)
        requires
            old(self).wf(),
            old(self).is_bool(a),
            old(self).is_bool(b),
        ensures
            final(self).wf(),
            final(self).extends(*old(self)),
            final(self).avl_vid == old(self).avl_vid,
            final(self).is_bool(t),
            final(self).nodes@[t.0 as int].ty matches TermType::Op(o, args) && o == Op::Eq && args@
                =~= seq![a, b],
    {
        self.b_bin(Op::Eq, a, b)
    }

    /// One ternary select gate over single-bit terms.
    pub fn b_ite(&mut self, c: Term, t1: Term, e: Term) -> (t: Term)
        requires
            old(self).wf(),
            old(self).is_bool(c),
            old(self).is_bool(t1),
            old(self).is_bool(e),
        ensures
            final(self).wf(),
            final(self).extends(*old(self)),
            final(self).avl_vid == old(self).avl_vid,
            final(self).is_bool(t),
            final(self).nodes@[t.0 as int].ty matches TermType::Op(o, args) && o == Op::Ite
                && args@ =~= seq![c, t1, e],
    {
        let mut args: Vec<Term> = Vec::new();
        args.push(c);
        args.push(t1);
        args.push(e);
        proof {
            assert(operand_sorts(self.nodes@, args@) =~= seq![
                Sort::Bv(1usize),
                Sort::Bv(1usize),
                Sort::Bv(1usize),
            ]);
        }
        self.new_op(Op::Ite, args)
    }

    /// Conditional select between two terms of one sort.
    pub fn ite(&mut self, c: Term, t1: Term, e: Term) -> (t: Term)
        requires
            old(self).wf(),
            old(self).is_bool(c),
            old(self).contains(t1),
            old(self).contains(e),
            old(self).sort_of(e) == old(self).sort_of(t1),
            old(self).sort_of(t1).valid(),
        ensures
            final(self).wf(),
            final(self).extends(*old(self)),
            final(self).avl_vid == old(self).avl_vid,
            final(self).contains(t),
            final(self).sort_of(t) == old(self).sort_of(t1),
            final(self).nodes@[t.0 as int].ty matches TermType::Op(o, args) && o == Op::Ite
                && args@ =~= seq![c, t1, e],
    {
        let mut args: Vec<Term> = Vec::new();
        args.push(c);
        args.push(t1);
        args.push(e);
        proof {
            assert(operand_sorts(self.nodes@, args@) =~= seq![
                Sort::Bv(1usize),
                old(self).sort_of(t1),
                old(self).sort_of(e),
            ]);
        }
        self.new_op(Op::Ite, args)
    }

    /// A constant of the given width with every bit equal to `b`.
    pub fn bv_const_fill(&mut self, b: bool, width: usize) -> (t: Term)
        requires
            old(self).wf(),
        ensures
            final(self).wf(),
            final(self).extends(*old(self)),
            final(self).avl_vid == old(self).avl_vid,
            final(self).contains(t),
            final(self).sort_of(t) == Sort::Bv(width),
            final(self).nodes@[t.0 as int].ty matches TermType::Const(c) && c@ =~= Seq::new(
                width as nat,
                |i: int| b,
            ),
    {
        let mut bits: Vec<bool> = Vec::new();
        let mut i: usize = 0;
        while i < width
            invariant
                i <= width,
                bits@.len() == i,
                forall|j: int| 0 <= j < i ==> bits@[j] == b,
            decreases width - i,
        {
            bits.push(b);
            i += 1;
        }
        self.bv_const(bits)
    }

    /// The all-zero constant of the width of `t`.
    pub fn mk_bv_const_zero(&mut self, t: Term) -> (r: Term)
        requires
            old(self).wf(),
            old(self).contains(t),
            old(self).sort_of(t) is Bv,
        ensures
            final(self).wf(),
            final(self).extends(*old(self)),
            final(self).avl_vid == old(self).avl_vid,
            final(self).contains(r),
            final(self).sort_of(r) == old(self).sort_of(t),
            final(self).nodes@[r.0 as int].ty matches TermType::Const(c) && c@ =~= Seq::new(
                old(self).sort_of(t)->Bv_0 as nat,
                |i: int| false,
            ),
    {
        let w = self.bv_len(t);
        self.bv_const_fill(false, w)
    }

    /// The constant one of the width of `t`.
    pub fn mk_bv_const_one(&mut self, t: Term) -> (r: Term)
        requires
            old(self).wf(),
            old(self).contains(t),
            old(self).sort_of(t) is Bv,
            old(self).sort_of(t)->Bv_0 >= 1,
        ensures
            final(self).wf(),
            final(self).extends(*old(self)),
            final(self).avl_vid == old(self).avl_vid,
            final(self).contains(r),
            final(self).sort_of(r) == old(self).sort_of(t),
            final(self).nodes@[r.0 as int].ty matches TermType::Const(c) && c@ =~= Seq::new(
                old(self).sort_of(t)->Bv_0 as nat,
                |i: int| i == 0,
            ),
    {
        let w = self.bv_len(t);
        let mut bits: Vec<bool> = Vec::new();
        bits.push(true);
        let mut i: usize = 1;
        while i < w
            invariant
                1 <= i <= w,
                bits@.len() == i,
                forall|j: int| 0 <= j < i ==> bits@[j] == (j == 0),
            decreases w - i,
        {
            bits.push(false);
            i += 1;
        }
        proof {
            assert(bits@ =~= Seq::new(w as nat, |i: int| i == 0));
        }
        self.bv_const(bits)
    }

    /// The all-ones constant of the width of `t`.
    pub fn mk_bv_const_ones(&mut self, t: Term) -> (r: Term)
        requires
            old(self).wf(),
            old(self).contains(t),
            old(self).sort_of(t) is Bv,
        ensures
            final(self).wf(),
            final(self).extends(*old(self)),
            final(self).avl_vid == old(self).avl_vid,
            final(self).contains(r),
            final(self).sort_of(r) == old(self).sort_of(t),
            final(self).nodes@[r.0 as int].ty matches TermType::Const(c) && c@ =~= Seq::new(
                old(self).sort_of(t)->Bv_0 as nat,
                |i: int| true,
            ),
    {
        let w = self.bv_len(t);
        self.bv_const_fill(true, w)
    }

    /// Whole-term equality as a term: a single-bit application of the
    /// equality operator.
    pub fn teq(&mut self, a: Term, b: Term) -> (t: Term)
        requires
            old(self).wf(),
            old(self).contains(a),
            old(self).contains(b),
            old(self).sort_of(b) == old(self).sort_of(a),
            old(self).sort_of(a).valid(),
        ensures
            final(self).wf(),
            final(self).extends(*old(self)),
            final(self).avl_vid == old(self).avl_vid,
            final(self).is_bool(t),
            final(self).nodes@[t.0 as int].ty matches TermType::Op(o, args) && o == Op::Eq
                && args@ =~= seq![a, b],
    {
        let mut args: Vec<Term> = Vec::new();
        args.push(a);
        args.push(b);
        proof {
            assert(operand_sorts(self.nodes@, args@) =~= seq![
                old(self).sort_of(a),
                old(self).sort_of(b),
            ]);
        }
        self.new_op(Op::Eq, args)
    }

    /// Whole-term disequality: the negation of `teq`.
    pub fn tneq(&mut self, a: Term, b: Term) -> (t: Term)
        requires
            old(self).wf(),
            old(self).contains(a),
            old(self).contains(b),
            old(self).sort_of(b) == old(self).sort_of(a),
            old(self).sort_of(a).valid(),
        ensures
            final(self).wf(),
            final(self).extends(*old(self)),
            final(self).avl_vid == old(self).avl_vid,
            final(self).is_bool(t),
            final(self).nodes@[t.0 as int].ty matches TermType::Op(o, args) && o == Op::Not
                && (final(self).nodes@[args@[0].0 as int].ty matches TermType::Op(o2, args2) && o2
                == Op::Eq && args2@ =~= seq![a, b]),
    {
        let e = self.teq(a, b);
        self.b_not(e)
    }

    /// Extract bits `l ..= h` of a bit-vector term; the bounds travel as the
    /// widths of two zero-valued marker operands.
    pub fn slice(&mut self, t: Term, l: usize, h: usize) -> (r: Term)
        requires
            old(self).wf(),
            old(self).contains(t),
            old(self).sort_of(t) is Bv,
            l <= h < old(self).sort_of(t)->Bv_0,
        ensures
            final(self).wf(),
            final(self).extends(*old(self)),
            final(self).avl_vid == old(self).avl_vid,
            final(self).contains(r),
            final(self).sort_of(r) == Sort::Bv((h - l + 1) as usize),
            final(self).nodes@[r.0 as int].ty matches TermType::Op(o, args) && o == Op::Slice
                && args@.len() == 3 && args@[0] == t && final(self).sort_of(args@[1]) == Sort::Bv(
                h,
            ) && final(self).sort_of(args@[2]) == Sort::Bv(l),
    {
        let hm = self.bv_const_fill(false, h);
        let lm = self.bv_const_fill(false, l);
        let mut args: Vec<Term> = Vec::new();
        args.push(t);
        args.push(hm);
        args.push(lm);
        proof {
            assert(operand_sorts(self.nodes@, args@) =~= seq![
                old(self).sort_of(t),
                Sort::Bv(h),
                Sort::Bv(l),
            ]);
        }
        self.new_op(Op::Slice, args)
    }

    /// Concatenate: `a` supplies the high bits, `b` the low bits.
    pub fn concat(&mut self, a: Term, b: Term) -> (r: Term)
        requires
            old(self).wf(),
            old(self).contains(a),
            old(self).contains(b),
            old(self).sort_of(a) is Bv,
            old(self).sort_of(b) is Bv,
            old(self).sort_of(a)->Bv_0 + old(self).sort_of(b)->Bv_0 <= usize::MAX,
        ensures
            final(self).wf(),
            final(self).extends(*old(self)),
            final(self).avl_vid == old(self).avl_vid,
            final(self).contains(r),
            final(self).sort_of(r) == Sort::Bv(
                (old(self).sort_of(a)->Bv_0 + old(self).sort_of(b)->Bv_0) as usize,
            ),
            final(self).nodes@[r.0 as int].ty matches TermType::Op(o, args) && o == Op::Concat
                && args@ =~= seq![a, b],
    {
        let mut args: Vec<Term> = Vec::new();
        args.push(a);
        args.push(b);
        proof {
            assert(operand_sorts(self.nodes@, args@) =~= seq![
                old(self).sort_of(a),
                old(self).sort_of(b),
            ]);
        }
        self.new_op(Op::Concat, args)
    }
}

/// The shape of a left fold: `t` is `op(...op(op(seed, terms[0]), terms[1])...,
/// terms[n-1])`, each step one interned binary application.
pub open spec fn fold_chain(tm: TermManager, op: Op, seed: Term, terms: Seq<Term>, t: Term) -> bool
    decreases terms.len(),
{
    if terms.len() == 0 {
        t == seed
    } else {
        &&& tm.contains(t)
        &&& tm.nodes@[t.0 as int].ty matches TermType::Op(o, a) && o == op && a@.len() == 2
            && a@[1] == terms.last() && fold_chain(tm, op, seed, terms.drop_last(), a@[0])
    }
}

/// A fold shape keeps holding as the arena grows.
pub proof fn lemma_fold_chain_grow(
    tm1: TermManager,
    tm2: TermManager,
    op: Op,
    seed: Term,
    terms: Seq<Term>,
    t: Term,
)
    requires
        fold_chain(tm1, op, seed, terms, t),
        tm2.extends(tm1),
    ensures
        fold_chain(tm2, op, seed, terms, t),
    decreases terms.len(),
{
    if terms.len() > 0 {
        match tm1.nodes@[t.0 as int].ty {
            TermType::Op(o, a) => {
                lemma_fold_chain_grow(tm1, tm2, op, seed, terms.drop_last(), a@[0]);
            },
            _ => {},
        }
    }
}

/// Within one manager, two handles whose nodes share a shape are the same
/// handle: the converse of the canonicity invariant.
pub proof fn lemma_canonical(tm: TermManager, a: Term, b: Term)
    requires
        tm.wf(),
        tm.contains(a),
        tm.contains(b),
        ty_eqv(tm.nodes@[a.0 as int].ty, tm.nodes@[b.0 as int].ty),
    ensures
        a == b,
{
    if a.0 < b.0 {
        assert(!ty_eqv(tm.nodes@[a.0 as int].ty, tm.nodes@[b.0 as int].ty));
    } else if b.0 < a.0 {
        assert(!ty_eqv(tm.nodes@[b.0 as int].ty, tm.nodes@[a.0 as int].ty));
        assert(ty_eqv(tm.nodes@[b.0 as int].ty, tm.nodes@[a.0 as int].ty)) by {
            lemma_ty_eqv_sym(tm.nodes@[a.0 as int].ty, tm.nodes@[b.0 as int].ty);
        }
    }
}

proof fn lemma_ty_eqv_sym(a: TermType, b: TermType)
    requires
        ty_eqv(a, b),
    ensures
        ty_eqv(b, a),
{
}

} // verus!
