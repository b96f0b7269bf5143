use bvlogic::assign::{VarAssign, VarBitVec};
use bvlogic::cnf::Cnf;
use bvlogic::dagcnf::{DagCnf, VarVMap};
use bvlogic::lbool::{Lbool, LboolVec};
use bvlogic::litvvec::LitVvec;
use bvlogic::{Lit, Var, VarRange};

#[test]
fn lit_encoding_round_trips() {
    let v = Var(7);
    let pos = Lit::new(v, true);
    let neg = Lit::new(v, false);
    assert_eq!(pos.var(), v);
    assert_eq!(neg.var(), v);
    assert!(pos.polarity());
    assert!(!neg.polarity());
    assert_eq!(pos.not(), neg);
    assert_eq!(neg.not(), pos);
    assert_eq!(pos.not_if(true), neg);
    assert_eq!(pos.not_if(false), pos);
    assert_eq!(v.lit(), pos);
    assert!(Var(0).is_constant());
    assert!(!v.is_constant());
    // the constant literals live on variable 0
    let t = Lit::constant(true);
    let f = Lit::constant(false);
    assert!(t.is_constant(true));
    assert!(f.is_constant(false));
    assert_eq!(t.try_constant(), Some(true));
    assert_eq!(f.try_constant(), Some(false));
    assert_eq!(pos.try_constant(), None);
    assert_eq!(pos.cube(), vec![pos]);
}

#[test]
fn var_range_enumerates() {
    let r = VarRange::new_inclusive(Var(3), Var(6));
    assert_eq!(r.len(), 4);
    assert_eq!(r.to_vec(), vec![Var(3), Var(4), Var(5), Var(6)]);
    let empty = VarRange::new_inclusive(Var(6), Var(3));
    assert_eq!(empty.len(), 0);
}

#[test]
fn lbool_algebra_values() {
    let (t, f, x) = (Lbool::True, Lbool::False, Lbool::Unknown);
    // false absorbs over unknown; true is dual
    assert_eq!(x.and(f), f);
    assert_eq!(f.and(x), f);
    assert_eq!(x.and(t), x);
    assert_eq!(x.or(t), t);
    assert_eq!(x.or(f), x);
    assert_eq!(x.xor(t), x);
    assert_eq!(t.xor(t), f);
    // double negation is the identity
    for b in [t, f, x] {
        assert_eq!(b.not().not(), b);
    }
    assert!(t.is_true() && !t.is_false() && !t.is_none());
    assert!(f.is_false() && x.is_none());
    assert_eq!(x.not_if(true), x);
    assert_eq!(t.not_if(true), f);
}

#[test]
fn lbool_vec_string_round_trip() {
    for s in ["", "1", "0", "x", "1x0", "10x1", "0000", "1111"] {
        let v = LboolVec::from_lit_str(s);
        assert_eq!(v.to_lit_string(), s);
    }
    // uppercase reads as unknown and prints lowercase
    let v = LboolVec::from_lit_str("1X0");
    assert_eq!(v.to_lit_string(), "1x0");
}

#[test]
fn lbool_vec_equality_needs_matching_masks() {
    let a = LboolVec::from_lit_str("1x0");
    let b = LboolVec::from_lit_str("1x0");
    let c = LboolVec::from_lit_str("110");
    let d = LboolVec::from_lit_str("100");
    assert!(a.equal(&b));
    assert!(a == b);
    // an unknown position never equals a known one, whatever the value bit
    assert!(!a.equal(&c));
    assert!(!a.equal(&d));
    // different lengths never compare equal
    let e = LboolVec::from_lit_str("1x");
    assert!(!a.equal(&e));
    assert!(a.all_x() == false);
    assert!(LboolVec::from_lit_str("xx").all_x());
    assert_eq!(a.mask(), vec![true, false, true]);
    assert_eq!(a.get_masked(), vec![false, false, true]);
}

#[test]
fn tseitin_templates_have_expected_clauses() {
    let n = Var(5).lit();
    let x = Var(1).lit();
    let y = Var(2).lit();
    let ands = LitVvec::cnf_and(n, &vec![x, y]);
    assert_eq!(ands.len(), 3);
    assert_eq!(*ands.get(0), vec![n.not(), x]);
    assert_eq!(*ands.get(1), vec![n.not(), y]);
    assert_eq!(*ands.get(2), vec![n, x.not(), y.not()]);
    let ors = LitVvec::cnf_or(n, &vec![x, y]);
    assert_eq!(*ors.get(0), vec![n, x.not()]);
    assert_eq!(*ors.get(1), vec![n, y.not()]);
    assert_eq!(*ors.get(2), vec![n.not(), x, y]);
    let assign = LitVvec::cnf_assign(n, x);
    assert_eq!(*assign.get(0), vec![n, x.not()]);
    assert_eq!(*assign.get(1), vec![n.not(), x]);
    let xor = LitVvec::cnf_xor(n, x, y);
    assert_eq!(xor.len(), 4);
    assert_eq!(*xor.get(0), vec![x.not(), y, n]);
    let xnor = LitVvec::cnf_xnor(n, x, y);
    assert_eq!(*xnor.get(2), vec![x, y, n]);
    let c = Var(3).lit();
    let ite = LitVvec::cnf_ite(n, c, x, y);
    assert_eq!(*ite.get(0), vec![x, c.not(), n.not()]);
    assert_eq!(*ite.get(3), vec![y.not(), c, n]);
}

#[test]
fn cnf_gate_allocation_folds_constants() {
    let mut cnf = Cnf::new();
    assert_eq!(cnf.max_var(), Var(0));
    let a = cnf.new_var().lit();
    let b = cnf.new_var().lit();
    // a constant-false input collapses the conjunction
    assert_eq!(
        cnf.new_and(&vec![a, Lit::constant(false), b]),
        Lit::constant(false)
    );
    // constant-true inputs are dropped
    assert_eq!(cnf.new_and(&vec![Lit::constant(true), a]), a);
    assert_eq!(cnf.new_and(&vec![Lit::constant(true)]), Lit::constant(true));
    // two live inputs allocate a gate with its defining clauses
    let before = cnf.clauses().len();
    let g = cnf.new_and(&vec![a, b]);
    assert_eq!(g.var(), Var(3));
    assert!(g.polarity());
    assert_eq!(cnf.clauses().len(), before + 3);
    // disjunction duals
    assert_eq!(
        cnf.new_or(&vec![a, Lit::constant(true)]),
        Lit::constant(true)
    );
    assert_eq!(cnf.new_or(&vec![Lit::constant(false), b]), b);
    let h = cnf.new_or(&vec![a, b]);
    assert_eq!(h.var(), Var(4));
}

#[test]
fn cnf_add_clause_tracks_max_var() {
    let mut cnf = Cnf::new();
    cnf.add_clause(&vec![Var(9).lit(), Var(2).lit().not()]);
    assert_eq!(cnf.max_var(), Var(9));
    cnf.new_var_to(Var(12));
    assert_eq!(cnf.max_var(), Var(12));
    assert_eq!(cnf.clauses().len(), 2);
}

#[test]
fn dagcnf_records_sorted_dependencies() {
    let mut dc = DagCnf::new();
    let a = dc.new_var().lit();
    let b = dc.new_var().lit();
    let g = dc.and_cnf_encode(&vec![b, a]);
    // the defining variable depends on both inputs, in increasing order
    assert_eq!(g.var(), Var(3));
    assert_eq!(*dc.dep_of(g.var()), vec![a.var(), b.var()]);
    let rel = dc.rel_of(g.var());
    assert_eq!(rel.len(), 3);
    assert_eq!(rel[0], vec![g.not(), b]);
    assert_eq!(rel[1], vec![g.not(), a]);
    assert_eq!(rel[2], vec![g, b.not(), a.not()]);
    // lowering flattens every defining clause, constants first
    let cnf = dc.lower();
    assert_eq!(cnf.clauses()[0], vec![Lit::constant(true)]);
    assert_eq!(cnf.clauses().len(), 4);
    assert_eq!(cnf.max_var(), Var(3));
}

#[test]
fn var_assign_reads_literals() {
    let mut va = VarAssign::new();
    // the constant-true literal is already satisfied
    assert_eq!(va.v(Lit::constant(true)), Lbool::True);
    assert_eq!(va.v(Lit::constant(false)), Lbool::False);
    va.reserve(Var(3));
    assert_eq!(va.v(Var(3).lit()), Lbool::Unknown);
    assert_eq!(va.vl(Var(3)), None);
    va.set(Lit::new(Var(3), false));
    assert_eq!(va.v(Var(3).lit()), Lbool::False);
    assert_eq!(va.v(Lit::new(Var(3), false)), Lbool::True);
    assert_eq!(va.vl(Var(3)), Some(Lit::new(Var(3), false)));
    va.set_none(Var(3));
    assert_eq!(va.vl(Var(3)), None);
    let vb = VarAssign::new_with(Var(5));
    assert_eq!(vb.v(Var(5).lit()), Lbool::Unknown);
}

#[test]
fn var_bit_vec_builds_assumption_cubes() {
    let mut m = VarBitVec::new();
    // rows for variables 0..3, two frames each
    m.push_row(vec![true, true]);
    m.push_row(vec![true, false]);
    m.push_row(vec![false, true]);
    assert_eq!(m.num_vars(), 3);
    assert_eq!(m.bv_len(), 2);
    // a negative literal complements its row
    assert_eq!(m.val(Var(1).lit()), vec![true, false]);
    assert_eq!(m.val(Lit::new(Var(1), false)), vec![false, true]);
    // frame 0 over all variables
    let cube = m.assign(0, None);
    assert_eq!(
        cube,
        vec![
            Lit::new(Var(0), true),
            Lit::new(Var(1), true),
            Lit::new(Var(2), false)
        ]
    );
    // frame 1 over a chosen subset
    let cube = m.assign(1, Some(&vec![Var(2), Var(0)]));
    assert_eq!(cube, vec![Lit::new(Var(2), true), Lit::new(Var(0), true)]);
}

#[test]
fn lit_map_var_keeps_polarity() {
    let l = Lit::new(Var(4), false);
    let mapped = l.map_var(|v: Var| Var(v.0 + 10));
    assert_eq!(mapped, Lit::new(Var(14), false));
    let kept = l.filter_map_var(|v: Var| if v.0 == 4 { Some(Var(1)) } else { None });
    assert_eq!(kept, Some(Lit::new(Var(1), false)));
    let dropped = l.filter_map_var(|_v: Var| None);
    assert_eq!(dropped, None);
}

#[test]
fn var_vmap_inverts() {
    let mut m = VarVMap::new();
    m.insert(Var(2), Var(0));
    m.insert(Var(5), Var(1));
    assert_eq!(m.get(Var(2)), Some(Var(0)));
    assert_eq!(m.get(Var(3)), None);
    let inv = m.inverse();
    assert_eq!(inv.get(Var(0)), Some(Var(2)));
    assert_eq!(inv.get(Var(1)), Some(Var(5)));
}

#[test]
fn dagcnf_levels_follow_dependencies() {
    let mut dc = DagCnf::new();
    let a = dc.new_var().lit();
    let b = dc.new_var().lit();
    let g = dc.and_cnf_encode(&vec![a, b]);
    let h = dc.or_cnf_encode(&vec![g, a]);
    let levels = dc.level();
    // leaves sit at level zero, each gate one above its deepest input
    assert_eq!(levels[0], 0);
    assert_eq!(levels[a.var().0 as usize], 0);
    assert_eq!(levels[b.var().0 as usize], 0);
    assert_eq!(levels[g.var().0 as usize], 1);
    assert_eq!(levels[h.var().0 as usize], 2);
}
