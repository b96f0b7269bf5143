use bvlogic::dagcnf::DagCnf;
use bvlogic::simulate::{
    add_simulate, and_simulate, concat_simulate, eq_simulate, ite_simulate, mul_simulate,
    neg_simulate, not_simulate, read_simulate, redxor_simulate, rol_simulate, ror_simulate,
    sdiv_simulate, sext_simulate, slice_simulate, sll_simulate, slt_simulate, smod_simulate,
    sra_simulate, srem_simulate, srl_simulate, sub_simulate, udiv_simulate, ult_simulate,
    urem_simulate, write_simulate, xor_simulate,
};
use bvlogic::lbool::LboolVec;
use bvlogic::op::Op;
use bvlogic::sort::Sort;
use bvlogic::term::{Term, TermManager};
use bvlogic::value::Value;

fn bv_val(s: &str) -> Value {
    Value::Bv(LboolVec::from_lit_str(s))
}

fn assert_bv_eq(v: &Value, expected: &str) {
    let bv = v.as_bv().unwrap();
    let expected_bv = LboolVec::from_lit_str(expected);
    assert!(
        bv.equal(&expected_bv),
        "expected {}, got {}",
        expected,
        bv.to_lit_string()
    );
}

fn empty_env(tm: &TermManager) -> Vec<Option<Value>> {
    let mut env = Vec::new();
    for _ in 0..tm.num_terms() {
        env.push(None);
    }
    env
}

fn seed(env: &mut Vec<Option<Value>>, t: Term, s: &str) {
    env[t.0] = Some(bv_val(s));
}

#[test]
fn test_simulate_const() {
    let mut tm = TermManager::new();
    let t = tm.bool_const(true);
    let f = tm.bool_const(false);
    let env = empty_env(&tm);

    assert_bv_eq(&tm.simulate(t, &env), "1");
    assert_bv_eq(&tm.simulate(f, &env), "0");
}

#[test]
fn test_simulate_var_default() {
    // a variable without a seeded value defaults to all-unknown
    let mut tm = TermManager::new();
    let x = tm.new_var(Sort::Bv(4));
    let env = empty_env(&tm);

    assert_bv_eq(&tm.simulate(x, &env), "xxxx");
}

#[test]
fn test_simulate_var_with_value() {
    let mut tm = TermManager::new();
    let x = tm.new_var(Sort::Bv(4));
    let mut env = empty_env(&tm);
    seed(&mut env, x, "1010");

    assert_bv_eq(&tm.simulate(x, &env), "1010");
}

#[test]
fn test_simulate_not() {
    let mut tm = TermManager::new();
    let x = tm.new_var(Sort::Bv(4));
    let not_x = tm.new_op(Op::Not, vec![x]);

    let mut env = empty_env(&tm);
    seed(&mut env, x, "1010");

    assert_bv_eq(&tm.simulate(not_x, &env), "0101");
}

#[test]
fn test_simulate_and_or_xor() {
    let mut tm = TermManager::new();
    let x = tm.new_var(Sort::Bv(4));
    let y = tm.new_var(Sort::Bv(4));

    let and_xy = tm.new_op(Op::And, vec![x, y]);
    let or_xy = tm.new_op(Op::Or, vec![x, y]);
    let xor_xy = tm.new_op(Op::Xor, vec![x, y]);

    let mut env = empty_env(&tm);
    seed(&mut env, x, "1100");
    seed(&mut env, y, "1010");

    assert_bv_eq(&tm.simulate(and_xy, &env), "1000");
    assert_bv_eq(&tm.simulate(or_xy, &env), "1110");
    assert_bv_eq(&tm.simulate(xor_xy, &env), "0110");
}

#[test]
fn test_simulate_add_sub() {
    let mut tm = TermManager::new();
    let x = tm.new_var(Sort::Bv(4));
    let y = tm.new_var(Sort::Bv(4));

    let add_xy = tm.new_op(Op::Add, vec![x, y]);
    let sub_xy = tm.new_op(Op::Sub, vec![x, y]);

    let mut env = empty_env(&tm);
    // x = 5 (0101), y = 3 (0011)
    seed(&mut env, x, "0101");
    seed(&mut env, y, "0011");

    // 5 + 3 = 8 (1000)
    assert_bv_eq(&tm.simulate(add_xy, &env), "1000");
    // 5 - 3 = 2 (0010)
    assert_bv_eq(&tm.simulate(sub_xy, &env), "0010");
}

#[test]
fn test_simulate_ite() {
    let mut tm = TermManager::new();
    let c = tm.new_var(Sort::Bv(1));
    let t = tm.new_var(Sort::Bv(4));
    let e = tm.new_var(Sort::Bv(4));

    let ite = tm.ite(c, t, e);

    let mut env = empty_env(&tm);
    seed(&mut env, c, "1");
    seed(&mut env, t, "1111");
    seed(&mut env, e, "0000");
    assert_bv_eq(&tm.simulate(ite, &env), "1111");

    seed(&mut env, c, "0");
    assert_bv_eq(&tm.simulate(ite, &env), "0000");
}

#[test]
fn test_simulate_nested_expr() {
    // (x & y) | (!x & z)
    let mut tm = TermManager::new();
    let x = tm.new_var(Sort::Bv(4));
    let y = tm.new_var(Sort::Bv(4));
    let z = tm.new_var(Sort::Bv(4));

    let xy = tm.new_op(Op::And, vec![x, y]);
    let nx = tm.new_op(Op::Not, vec![x]);
    let nxz = tm.new_op(Op::And, vec![nx, z]);
    let expr = tm.new_op(Op::Or, vec![xy, nxz]);

    let mut env = empty_env(&tm);
    seed(&mut env, x, "1100");
    seed(&mut env, y, "1010");
    seed(&mut env, z, "0101");

    // x & y = 1000; !x & z = 0001; result = 1001
    assert_bv_eq(&tm.simulate(expr, &env), "1001");
}

#[test]
fn test_simulate_with_unknown() {
    let mut tm = TermManager::new();
    let x = tm.new_var(Sort::Bv(4));
    let y = tm.new_var(Sort::Bv(4));

    let and_xy = tm.new_op(Op::And, vec![x, y]);

    let mut env = empty_env(&tm);
    seed(&mut env, x, "1x00");
    seed(&mut env, y, "1100");

    // 1x00 & 1100 = 1x00
    assert_bv_eq(&tm.simulate(and_xy, &env), "1x00");
}

#[test]
fn hash_consing_gives_identical_handles() {
    let mut tm = TermManager::new();
    // constants
    let c1 = tm.bool_const(true);
    let c2 = tm.bool_const(true);
    assert_eq!(c1, c2);
    let b1 = tm.bv_const(vec![true, false, true]);
    let b2 = tm.bv_const(vec![true, false, true]);
    assert_eq!(b1, b2);
    // a fresh variable never aliases
    let v1 = tm.new_var(Sort::Bv(2));
    let v2 = tm.new_var(Sort::Bv(2));
    assert_ne!(v1, v2);
    // identical applications share one node, and the arena does not grow
    let a1 = tm.new_op(Op::And, vec![v1, v2]);
    let before = tm.num_terms();
    let a2 = tm.new_op(Op::And, vec![v1, v2]);
    assert_eq!(a1, a2);
    assert_eq!(tm.num_terms(), before);
    // a different application gets a different node
    let o1 = tm.new_op(Op::Or, vec![v1, v2]);
    assert_ne!(a1, o1);
}

/// Evaluate a vector of single-bit terms under seeded bit values and pack
/// the results into one vector value.
fn eval_bits(tm: &TermManager, bits: &[Term], env: &Vec<Option<Value>>) -> LboolVec {
    let mut out = LboolVec::new();
    for b in bits {
        let v = tm.simulate(*b, env);
        out.push(v.as_bv().unwrap().get(0));
    }
    out
}

fn mk_bit_vars(tm: &mut TermManager, w: usize) -> Vec<Term> {
    let mut v = Vec::new();
    for _ in 0..w {
        v.push(tm.new_var(Sort::Bv(1)));
    }
    v
}

fn seed_bits(env: &mut Vec<Option<Value>>, bits: &[Term], value: u32) {
    for (i, b) in bits.iter().enumerate() {
        let s = if (value >> i) & 1 == 1 { "1" } else { "0" };
        env[b.0] = Some(bv_val(s));
    }
}

fn lbv_to_u32(v: &LboolVec) -> u32 {
    u32::from_str_radix(&v.to_lit_string(), 2).unwrap()
}

#[test]
fn bitblast_matches_simulate_exhaustively() {
    for w in 1usize..=3 {
        let top = 1u32 << w;
        for a in 0..top {
            for b in 0..top {
                let mut tm = TermManager::new();
                let xb = mk_bit_vars(&mut tm, w);
                let yb = mk_bit_vars(&mut tm, w);
                let nots = tm.not_bitblast(&xb);
                let negs = tm.neg_bitblast(&xb);
                let ands = tm.elementwise_bitblast(Op::And, &xb, &yb);
                let adds = tm.add_bitblast(&xb, &yb);
                let subs = tm.sub_bitblast(&xb, &yb);
                let muls = tm.mul_bitblast(&xb, &yb);
                let ults = tm.ult_bitblast(&xb, &yb);
                let slts = tm.slt_bitblast(&xb, &yb);
                let slls = tm.sll_bitblast(&xb, &yb);
                let udivs = tm.udiv_bitblast(&xb, &yb);
                let urems = tm.urem_bitblast(&xb, &yb);
                let smods = tm.smod_bitblast(&xb, &yb);
                let mut env = empty_env(&tm);
                seed_bits(&mut env, &xb, a);
                seed_bits(&mut env, &yb, b);
                let abits = format!("{:0w$b}", a, w = w);
                let bbits = format!("{:0w$b}", b, w = w);
                let av = bv_val(&abits);
                let bvv = bv_val(&bbits);
                let cases: Vec<(LboolVec, Value)> = vec![
                    (eval_bits(&tm, &nots, &env), not_simulate(&[av.clone()])),
                    (eval_bits(&tm, &negs, &env), neg_simulate(&[av.clone()])),
                    (
                        eval_bits(&tm, &ands, &env),
                        and_simulate(&[av.clone(), bvv.clone()]),
                    ),
                    (
                        eval_bits(&tm, &adds, &env),
                        add_simulate(&[av.clone(), bvv.clone()]),
                    ),
                    (
                        eval_bits(&tm, &subs, &env),
                        sub_simulate(&[av.clone(), bvv.clone()]),
                    ),
                    (
                        eval_bits(&tm, &muls, &env),
                        mul_simulate(&[av.clone(), bvv.clone()]),
                    ),
                    (
                        eval_bits(&tm, &ults, &env),
                        ult_simulate(&[av.clone(), bvv.clone()]),
                    ),
                    (
                        eval_bits(&tm, &slts, &env),
                        slt_simulate(&[av.clone(), bvv.clone()]),
                    ),
                    (
                        eval_bits(&tm, &slls, &env),
                        sll_simulate(&[av.clone(), bvv.clone()]),
                    ),
                ];
                for (i, (circuit, simulated)) in cases.iter().enumerate() {
                    assert!(
                        circuit.equal(simulated.as_bv().unwrap()),
                        "op {} w={} a={} b={}: circuit {} vs simulate {}",
                        i,
                        w,
                        a,
                        b,
                        circuit.to_lit_string(),
                        simulated.as_bv().unwrap().to_lit_string()
                    );
                }
                // division circuits agree with the simulator away from zero
                if b != 0 {
                    let q = eval_bits(&tm, &udivs, &env);
                    let r = eval_bits(&tm, &urems, &env);
                    assert_eq!(lbv_to_u32(&q), a / b, "udiv w={} a={} b={}", w, a, b);
                    assert_eq!(lbv_to_u32(&r), a % b, "urem w={} a={} b={}", w, a, b);
                    let qs = udiv_simulate(&[av.clone(), bvv.clone()]);
                    let rs = urem_simulate(&[av.clone(), bvv.clone()]);
                    assert!(q.equal(qs.as_bv().unwrap()));
                    assert!(r.equal(rs.as_bv().unwrap()));
                    let m = eval_bits(&tm, &smods, &env);
                    let ms = smod_simulate(&[av.clone(), bvv.clone()]);
                    assert!(
                        m.equal(ms.as_bv().unwrap()),
                        "smod w={} a={} b={}: circuit {} vs simulate {}",
                        w,
                        a,
                        b,
                        m.to_lit_string(),
                        ms.as_bv().unwrap().to_lit_string()
                    );
                }
            }
        }
    }
}

#[test]
fn array_circuits_match_simulate() {
    // a 4-element array of 2-bit values, exhaustively over indices
    let flat = "11100100";
    for idx in 0u32..4 {
        let mut tm = TermManager::new();
        let arr = mk_bit_vars(&mut tm, 8);
        let ib = mk_bit_vars(&mut tm, 2);
        let val = mk_bit_vars(&mut tm, 2);
        let read = tm.read_bitblast(&arr, &ib);
        let written = tm.write_bitblast(&arr, &ib, &val);
        let mut env = empty_env(&tm);
        seed_bits(&mut env, &arr, u32::from_str_radix(flat, 2).unwrap());
        seed_bits(&mut env, &ib, idx);
        seed_bits(&mut env, &val, 3);
        let ibits = format!("{:02b}", idx);
        let got_read = eval_bits(&tm, &read, &env);
        let want_read = read_simulate(&[bv_val(flat), bv_val(&ibits)]);
        assert!(got_read.equal(want_read.as_bv().unwrap()), "read idx={}", idx);
        let got_write = eval_bits(&tm, &written, &env);
        let want_write = write_simulate(&[bv_val(flat), bv_val(&ibits), bv_val("11")]);
        assert!(
            got_write.equal(want_write.as_bv().unwrap()),
            "write idx={}: {} vs {}",
            idx,
            got_write.to_lit_string(),
            want_write.as_bv().unwrap().to_lit_string()
        );
    }
}

fn encode_sample_circuit(dc: &mut DagCnf) -> Vec<Vec<bvlogic::Lit>> {
    let a = dc.new_var().lit();
    let b = dc.new_var().lit();
    let c = dc.new_var().lit();
    let ab = dc.and_cnf_encode(&vec![a, b]);
    let bc = dc.or_cnf_encode(&vec![b, c]);
    let x = dc.xor_cnf_encode(ab, bc);
    let i = dc.ite_cnf_encode(x, ab, bc);
    let _e = dc.eq_cnf_encode(i, c);
    let cnf = dc.lower();
    cnf.clauses().clone()
}

#[test]
fn encoding_twice_is_byte_identical() {
    // encoding the same structure twice yields identical clause sequences
    let mut dc1 = DagCnf::new();
    let mut dc2 = DagCnf::new();
    let cls1 = encode_sample_circuit(&mut dc1);
    let cls2 = encode_sample_circuit(&mut dc2);
    assert_eq!(cls1.len(), cls2.len());
    for (a, b) in cls1.iter().zip(cls2.iter()) {
        assert_eq!(a.len(), b.len());
        for (la, lb) in a.iter().zip(b.iter()) {
            assert!(*la == *lb);
        }
    }
}

#[test]
fn simplify_rules_fold_terms() {
    let mut tm = TermManager::new();
    let x = tm.new_var(Sort::Bv(4));
    // NOT NOT x gives x back
    let nx = tm.mk_not(x);
    let r = tm.not_simplify(&vec![nx]);
    assert_eq!(r, Some(x));
    // AND with the all-ones constant gives the other operand
    let ones = tm.mk_bv_const_ones(x);
    let r = tm.and_simplify(&vec![ones, x]);
    assert_eq!(r, Some(x));
    // AND with a complementary operand gives the all-zero constant
    let r = tm.and_simplify(&vec![x, nx]).unwrap();
    let env = {
        let mut env = Vec::new();
        for _ in 0..tm.num_terms() {
            env.push(None);
        }
        env
    };
    assert_bv_eq(&tm.simulate(r, &env), "0000");
    // XOR of a term with itself gives zero
    let r = tm.xor_simplify(&vec![x, x]).unwrap();
    assert_bv_eq(&tm.simulate(r, &env), "0000");
    // MUL by one gives the other operand
    let one = tm.mk_bv_const_one(x);
    let r = tm.mul_simplify(&vec![one, x]);
    assert_eq!(r, Some(x));
    // SUB of zero gives the operand back
    let zero = tm.mk_bv_const_zero(x);
    let r = tm.sub_simplify(&vec![x, zero]);
    assert_eq!(r, Some(x));
    // EQ of equal operands is the constant true
    let r = tm.eq_simplify(&vec![x, x]).unwrap();
    let mut env2 = Vec::new();
    for _ in 0..tm.num_terms() {
        env2.push(None);
    }
    assert_bv_eq(&tm.simulate(r, &env2), "1");
    // ITE on a constant-true condition picks the first branch
    let y = tm.new_var(Sort::Bv(4));
    let t = tm.bool_const(true);
    let r = tm.ite_simplify(&vec![t, x, y]);
    assert_eq!(r, Some(x));
}

#[test]
fn concrete_scenarios() {
    assert_bv_eq(&not_simulate(&[bv_val("1010")]), "0101");
    assert_bv_eq(&and_simulate(&[bv_val("1x0"), bv_val("110")]), "1x0");
    assert_bv_eq(&ult_simulate(&[bv_val("0010"), bv_val("0101")]), "1");
    assert_bv_eq(&sll_simulate(&[bv_val("0001"), bv_val("0011")]), "1000");
    assert_bv_eq(&sll_simulate(&[bv_val("0001"), bv_val("0101")]), "0000");
    assert_bv_eq(&udiv_simulate(&[bv_val("1001"), bv_val("0011")]), "0011");
    assert_bv_eq(&urem_simulate(&[bv_val("1010"), bv_val("0011")]), "0001");
}

#[test]
fn bitblast_matches_simulate_more_ops() {
    // the remaining operator families, exhaustively over widths 1..=4
    for w in 1usize..=4 {
        let top = 1u32 << w;
        let mut tm = TermManager::new();
        let xb = mk_bit_vars(&mut tm, w);
        let yb = mk_bit_vars(&mut tm, w);
        let ors = tm.elementwise_bitblast(Op::Or, &xb, &yb);
        let xors = tm.elementwise_bitblast(Op::Xor, &xb, &yb);
        let eqs = tm.eq_bitblast(&xb, &yb);
        let srls = tm.srl_bitblast(&xb, &yb);
        let sras = tm.sra_bitblast(&xb, &yb);
        let rols = tm.rol_bitblast(&xb, &yb);
        let rors = tm.ror_bitblast(&xb, &yb);
        let concats = tm.concat_bitblast(&xb, &yb);
        let sexts = tm.sext_bitblast(&xb, 2);
        let redxors = tm.redxor_bitblast(&xb);
        let sdivs = tm.sdiv_bitblast(&xb, &yb);
        let srems = tm.srem_bitblast(&xb, &yb);
        let slices = if w >= 2 {
            Some(tm.slice_bitblast(&xb, w - 1, 1))
        } else {
            None
        };
        let cb = mk_bit_vars(&mut tm, 1);
        let ites = tm.ite_bitblast(&cb, &xb, &yb);
        for a in 0..top {
            for b in 0..top {
                let mut env = empty_env(&tm);
                seed_bits(&mut env, &xb, a);
                seed_bits(&mut env, &yb, b);
                seed_bits(&mut env, &cb, a & 1);
                let abits = format!("{:0w$b}", a, w = w);
                let bbits = format!("{:0w$b}", b, w = w);
                let av = bv_val(&abits);
                let bvv = bv_val(&bbits);
                let cv = bv_val(if a & 1 == 1 { "1" } else { "0" });
                let mut cases: Vec<(LboolVec, Value)> = vec![
                    (
                        eval_bits(&tm, &ors, &env),
                        bvlogic::simulate::or_simulate(&[av.clone(), bvv.clone()]),
                    ),
                    (
                        eval_bits(&tm, &xors, &env),
                        xor_simulate(&[av.clone(), bvv.clone()]),
                    ),
                    (
                        eval_bits(&tm, &eqs, &env),
                        eq_simulate(&[av.clone(), bvv.clone()]),
                    ),
                    (
                        eval_bits(&tm, &srls, &env),
                        srl_simulate(&[av.clone(), bvv.clone()]),
                    ),
                    (
                        eval_bits(&tm, &sras, &env),
                        sra_simulate(&[av.clone(), bvv.clone()]),
                    ),
                    (
                        eval_bits(&tm, &rols, &env),
                        rol_simulate(&[av.clone(), bvv.clone()]),
                    ),
                    (
                        eval_bits(&tm, &rors, &env),
                        ror_simulate(&[av.clone(), bvv.clone()]),
                    ),
                    (
                        eval_bits(&tm, &concats, &env),
                        concat_simulate(&[av.clone(), bvv.clone()]),
                    ),
                    (
                        eval_bits(&tm, &sexts, &env),
                        sext_simulate(&[av.clone(), bv_val("00")]),
                    ),
                    (
                        eval_bits(&tm, &redxors, &env),
                        redxor_simulate(&[av.clone()]),
                    ),
                    (
                        eval_bits(&tm, &ites, &env),
                        ite_simulate(&[cv.clone(), av.clone(), bvv.clone()]),
                    ),
                ];
                if b != 0 {
                    cases.push((
                        eval_bits(&tm, &sdivs, &env),
                        sdiv_simulate(&[av.clone(), bvv.clone()]),
                    ));
                    cases.push((
                        eval_bits(&tm, &srems, &env),
                        srem_simulate(&[av.clone(), bvv.clone()]),
                    ));
                }
                if let Some(sl) = &slices {
                    cases.push((
                        eval_bits(&tm, sl, &env),
                        slice_simulate(&[
                            av.clone(),
                            bv_val(&"0".repeat(w - 1)),
                            bv_val(&"0".repeat(1)),
                        ]),
                    ));
                }
                for (i, (circuit, simulated)) in cases.iter().enumerate() {
                    assert!(
                        circuit.equal(simulated.as_bv().unwrap()),
                        "op {} w={} a={} b={}: circuit {} vs simulate {}",
                        i,
                        w,
                        a,
                        b,
                        circuit.to_lit_string(),
                        simulated.as_bv().unwrap().to_lit_string()
                    );
                }
            }
        }
    }
}

#[test]
fn bitblast_matches_simulate_width_four() {
    // width 4 for the families of the first exhaustive test
    let w = 4usize;
    let top = 1u32 << w;
    let mut tm = TermManager::new();
    let xb = mk_bit_vars(&mut tm, w);
    let yb = mk_bit_vars(&mut tm, w);
    let adds = tm.add_bitblast(&xb, &yb);
    let subs = tm.sub_bitblast(&xb, &yb);
    let muls = tm.mul_bitblast(&xb, &yb);
    let ults = tm.ult_bitblast(&xb, &yb);
    let slts = tm.slt_bitblast(&xb, &yb);
    let slls = tm.sll_bitblast(&xb, &yb);
    let negs = tm.neg_bitblast(&xb);
    let udivs = tm.udiv_bitblast(&xb, &yb);
    let urems = tm.urem_bitblast(&xb, &yb);
    let smods = tm.smod_bitblast(&xb, &yb);
    for a in 0..top {
        for b in 0..top {
            let mut env = empty_env(&tm);
            seed_bits(&mut env, &xb, a);
            seed_bits(&mut env, &yb, b);
            let abits = format!("{:04b}", a);
            let bbits = format!("{:04b}", b);
            let av = bv_val(&abits);
            let bvv = bv_val(&bbits);
            let mut cases: Vec<(LboolVec, Value)> = vec![
                (
                    eval_bits(&tm, &adds, &env),
                    add_simulate(&[av.clone(), bvv.clone()]),
                ),
                (
                    eval_bits(&tm, &subs, &env),
                    sub_simulate(&[av.clone(), bvv.clone()]),
                ),
                (
                    eval_bits(&tm, &muls, &env),
                    mul_simulate(&[av.clone(), bvv.clone()]),
                ),
                (
                    eval_bits(&tm, &ults, &env),
                    ult_simulate(&[av.clone(), bvv.clone()]),
                ),
                (
                    eval_bits(&tm, &slts, &env),
                    slt_simulate(&[av.clone(), bvv.clone()]),
                ),
                (
                    eval_bits(&tm, &slls, &env),
                    sll_simulate(&[av.clone(), bvv.clone()]),
                ),
                (eval_bits(&tm, &negs, &env), neg_simulate(&[av.clone()])),
            ];
            if b != 0 {
                cases.push((
                    eval_bits(&tm, &udivs, &env),
                    udiv_simulate(&[av.clone(), bvv.clone()]),
                ));
                cases.push((
                    eval_bits(&tm, &urems, &env),
                    urem_simulate(&[av.clone(), bvv.clone()]),
                ));
                cases.push((
                    eval_bits(&tm, &smods, &env),
                    smod_simulate(&[av.clone(), bvv.clone()]),
                ));
            }
            for (i, (circuit, simulated)) in cases.iter().enumerate() {
                assert!(
                    circuit.equal(simulated.as_bv().unwrap()),
                    "op {} a={} b={}",
                    i,
                    a,
                    b
                );
            }
        }
    }
}

#[test]
fn whole_term_lowering_pipeline() {
    // spec-level data flow: build a term, bit-blast it, Tseitin-encode the
    // bit terms, and check the produced model against the simulator
    let mut tm = TermManager::new();
    let x = tm.new_var(Sort::Bv(3));
    let y = tm.new_var(Sort::Bv(3));
    let sum = tm.new_op(Op::Add, vec![x, y]);
    let mut memo: Vec<Option<Vec<bvlogic::term::Term>>> = Vec::new();
    for _ in 0..tm.num_terms() {
        memo.push(None);
    }
    let bits = tm.bitblast(sum, &mut memo);
    assert_eq!(bits.len(), 3);
    // re-blasting returns the identical bit terms without growing the arena
    let before = tm.num_terms();
    let again = tm.bitblast(sum, &mut memo);
    assert_eq!(tm.num_terms(), before);
    for (a, b) in bits.iter().zip(again.iter()) {
        assert_eq!(a, b);
    }
    // encode every output bit; the bit DAG is single-bit throughout
    let mut dc = DagCnf::new();
    let mut lmemo: Vec<Option<bvlogic::Lit>> = Vec::new();
    for _ in 0..tm.num_terms() {
        lmemo.push(None);
    }
    let lits: Vec<bvlogic::Lit> = bits.iter().map(|b| tm.cnf_encode(*b, &mut dc, &mut lmemo)).collect();
    assert_eq!(lits.len(), 3);
    // a second encoding of the same bits reuses the memo: identical literals,
    // no new clauses
    let cls_before = dc.lower().clauses().len();
    let lits2: Vec<bvlogic::Lit> = bits.iter().map(|b| tm.cnf_encode(*b, &mut dc, &mut lmemo)).collect();
    assert_eq!(dc.lower().clauses().len(), cls_before);
    for (a, b) in lits.iter().zip(lits2.iter()) {
        assert!(*a == *b);
    }
}

#[test]
fn whole_graph_encoding_is_deterministic() {
    // encoding an identical term graph twice, from scratch, produces
    // byte-identical clause sequences
    let build = || {
        let mut tm = TermManager::new();
        let x = tm.new_var(Sort::Bv(2));
        let y = tm.new_var(Sort::Bv(2));
        let m = tm.new_op(Op::Mul, vec![x, y]);
        let s = tm.new_op(Op::Sub, vec![m, x]);
        let mut memo = Vec::new();
        for _ in 0..tm.num_terms() {
            memo.push(None);
        }
        let bits = tm.bitblast(s, &mut memo);
        let mut dc = DagCnf::new();
        let mut lmemo = Vec::new();
        for _ in 0..tm.num_terms() {
            lmemo.push(None);
        }
        for b in &bits {
            tm.cnf_encode(*b, &mut dc, &mut lmemo);
        }
        dc.lower().clauses().clone()
    };
    let c1 = build();
    let c2 = build();
    assert_eq!(c1.len(), c2.len());
    for (a, b) in c1.iter().zip(c2.iter()) {
        assert_eq!(a.len(), b.len());
        for (la, lb) in a.iter().zip(b.iter()) {
            assert!(*la == *lb);
        }
    }
}

#[test]
fn slt_boundary_constants_fold() {
    let mut tm = TermManager::new();
    let x = tm.new_var(Sort::Bv(3));
    // signed minimum 100, signed maximum 011 (little-endian bit vectors)
    let smin = tm.bv_const(vec![false, false, true]);
    let smax = tm.bv_const(vec![true, true, false]);
    // nothing is below the signed minimum
    let r = tm.slt_simplify(&vec![x, smin]).unwrap();
    let env = {
        let mut e = Vec::new();
        for _ in 0..tm.num_terms() {
            e.push(None);
        }
        e
    };
    assert_bv_eq(&tm.simulate(r, &env), "0");
    // nothing is above the signed maximum
    let r = tm.slt_simplify(&vec![smax, x]).unwrap();
    let mut e2 = Vec::new();
    for _ in 0..tm.num_terms() {
        e2.push(None);
    }
    assert_bv_eq(&tm.simulate(r, &e2), "0");
    // min < y folds to a disequality, true exactly off the boundary
    let r = tm.slt_simplify(&vec![smin, x]).unwrap();
    let mut e3 = Vec::new();
    for _ in 0..tm.num_terms() {
        e3.push(None);
    }
    e3[x.0] = Some(bv_val("010"));
    assert_bv_eq(&tm.simulate(r, &e3), "1");
    e3[x.0] = Some(bv_val("100"));
    assert_bv_eq(&tm.simulate(r, &e3), "0");
    // no boundary constant: no rule
    let y = tm.new_var(Sort::Bv(3));
    assert_eq!(tm.slt_simplify(&vec![x, y]), None);
}

#[test]
fn simplify_rules_fire_in_either_order() {
    // the swapped-order rules fire whatever shape the first operand has
    let mut tm = TermManager::new();
    let x = tm.new_var(Sort::Bv(4));
    let y = tm.new_var(Sort::Bv(4));
    let sum = tm.new_op(Op::Add, vec![x, y]);
    let ones = tm.mk_bv_const_ones(sum);
    let zero = tm.mk_bv_const_zero(sum);
    // an all-ones second operand absorbs even behind an addition node
    assert_eq!(tm.and_simplify(&vec![sum, ones]), Some(sum));
    // an all-zero second operand annihilates
    assert_eq!(tm.and_simplify(&vec![sum, zero]), Some(zero));
    // duals for disjunction
    assert_eq!(tm.or_simplify(&vec![sum, zero]), Some(sum));
    assert_eq!(tm.or_simplify(&vec![sum, ones]), Some(ones));
    // exclusive or drops a zero and complements on ones
    assert_eq!(tm.xor_simplify(&vec![sum, zero]), Some(sum));
    let r = tm.xor_simplify(&vec![sum, ones]).unwrap();
    let mut env = Vec::new();
    for _ in 0..tm.num_terms() {
        env.push(None);
    }
    env[x.0] = Some(bv_val("0101"));
    env[y.0] = Some(bv_val("0001"));
    // sum = 6 (0110); xor with ones is its complement
    assert_bv_eq(&tm.simulate(r, &env), "1001");
    // a complementary second operand annihilates the conjunction
    let nsum = tm.mk_not(sum);
    let r = tm.and_simplify(&vec![sum, nsum]).unwrap();
    let mut env2 = Vec::new();
    for _ in 0..tm.num_terms() {
        env2.push(None);
    }
    assert_bv_eq(&tm.simulate(r, &env2), "0000");
}
