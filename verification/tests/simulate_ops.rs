use bvlogic::lbool::LboolVec;
use bvlogic::simulate::{
    add_simulate, and_simulate, ands_simulate, concat_simulate, eq_simulate, ite_simulate,
    mul_simulate, neg_simulate, not_simulate, or_simulate, ors_simulate, read_simulate,
    redxor_simulate, rol_simulate, ror_simulate, sdiv_simulate, sext_simulate, slice_simulate,
    sll_simulate, slt_simulate, smod_simulate, sra_simulate, srem_simulate, srl_simulate,
    sub_simulate, udiv_simulate, ult_simulate, urem_simulate, write_simulate, xor_simulate,
};
use bvlogic::value::Value;

fn bv(s: &str) -> Value {
    Value::Bv(LboolVec::from_lit_str(s))
}

fn assert_bv_eq(v: &Value, expected: &str) {
    let bv = v.as_bv().unwrap();
    let expected_bv = LboolVec::from_lit_str(expected);
    assert!(
        bv.equal(&expected_bv),
        "expected {}, got {}",
        expected,
        bv.to_lit_string()
    );
}

#[test]
fn test_not_simulate() {
    assert_bv_eq(&not_simulate(&[bv("0")]), "1");
    assert_bv_eq(&not_simulate(&[bv("1")]), "0");
    assert_bv_eq(&not_simulate(&[bv("1010")]), "0101");
    assert_bv_eq(&not_simulate(&[bv("11110000")]), "00001111");
    assert_bv_eq(&not_simulate(&[bv("x")]), "x");
    assert_bv_eq(&not_simulate(&[bv("1x0")]), "0x1");
}

#[test]
fn test_and_simulate() {
    assert_bv_eq(&and_simulate(&[bv("0"), bv("0")]), "0");
    assert_bv_eq(&and_simulate(&[bv("0"), bv("1")]), "0");
    assert_bv_eq(&and_simulate(&[bv("1"), bv("0")]), "0");
    assert_bv_eq(&and_simulate(&[bv("1"), bv("1")]), "1");
    assert_bv_eq(&and_simulate(&[bv("1010"), bv("1100")]), "1000");
    assert_bv_eq(&and_simulate(&[bv("1111"), bv("0101")]), "0101");
    assert_bv_eq(&and_simulate(&[bv("1x0"), bv("110")]), "1x0");
    assert_bv_eq(&and_simulate(&[bv("x"), bv("0")]), "0");
    assert_bv_eq(&and_simulate(&[bv("x"), bv("1")]), "x");
}

#[test]
fn test_ands_simulate() {
    assert_bv_eq(&ands_simulate(&[bv("1111")]), "1111");
    assert_bv_eq(&ands_simulate(&[bv("1111"), bv("1010")]), "1010");
    assert_bv_eq(
        &ands_simulate(&[bv("1111"), bv("1010"), bv("1100")]),
        "1000",
    );
}

#[test]
fn test_or_simulate() {
    assert_bv_eq(&or_simulate(&[bv("0"), bv("0")]), "0");
    assert_bv_eq(&or_simulate(&[bv("0"), bv("1")]), "1");
    assert_bv_eq(&or_simulate(&[bv("1"), bv("0")]), "1");
    assert_bv_eq(&or_simulate(&[bv("1"), bv("1")]), "1");
    assert_bv_eq(&or_simulate(&[bv("1010"), bv("1100")]), "1110");
    assert_bv_eq(&or_simulate(&[bv("0000"), bv("0101")]), "0101");
    assert_bv_eq(&or_simulate(&[bv("x"), bv("1")]), "1");
    assert_bv_eq(&or_simulate(&[bv("x"), bv("0")]), "x");
}

#[test]
fn test_ors_simulate() {
    assert_bv_eq(&ors_simulate(&[bv("0000")]), "0000");
    assert_bv_eq(&ors_simulate(&[bv("0000"), bv("1010")]), "1010");
    assert_bv_eq(&ors_simulate(&[bv("0001"), bv("0010"), bv("0100")]), "0111");
}

#[test]
fn test_xor_simulate() {
    assert_bv_eq(&xor_simulate(&[bv("0"), bv("0")]), "0");
    assert_bv_eq(&xor_simulate(&[bv("0"), bv("1")]), "1");
    assert_bv_eq(&xor_simulate(&[bv("1"), bv("0")]), "1");
    assert_bv_eq(&xor_simulate(&[bv("1"), bv("1")]), "0");
    assert_bv_eq(&xor_simulate(&[bv("1010"), bv("1100")]), "0110");
    assert_bv_eq(&xor_simulate(&[bv("1111"), bv("1111")]), "0000");
    assert_bv_eq(&xor_simulate(&[bv("x"), bv("0")]), "x");
    assert_bv_eq(&xor_simulate(&[bv("x"), bv("1")]), "x");
}

#[test]
fn test_eq_simulate() {
    assert_bv_eq(&eq_simulate(&[bv("0"), bv("0")]), "1");
    assert_bv_eq(&eq_simulate(&[bv("1"), bv("1")]), "1");
    assert_bv_eq(&eq_simulate(&[bv("0"), bv("1")]), "0");
    assert_bv_eq(&eq_simulate(&[bv("1010"), bv("1010")]), "1");
    assert_bv_eq(&eq_simulate(&[bv("1010"), bv("1011")]), "0");
    assert_bv_eq(&eq_simulate(&[bv("x"), bv("0")]), "x");
    assert_bv_eq(&eq_simulate(&[bv("1x"), bv("1x")]), "x");
}

#[test]
fn test_ult_simulate() {
    // 0 < 0 = false
    assert_bv_eq(&ult_simulate(&[bv("0"), bv("0")]), "0");
    // 0 < 1 = true
    assert_bv_eq(&ult_simulate(&[bv("0"), bv("1")]), "1");
    // 1 < 0 = false
    assert_bv_eq(&ult_simulate(&[bv("1"), bv("0")]), "0");
    // 1 < 1 = false
    assert_bv_eq(&ult_simulate(&[bv("1"), bv("1")]), "0");
    // 0010 (2) < 0101 (5) = true
    assert_bv_eq(&ult_simulate(&[bv("0010"), bv("0101")]), "1");
    // 0101 (5) < 0010 (2) = false
    assert_bv_eq(&ult_simulate(&[bv("0101"), bv("0010")]), "0");
    // 1111 (15) < 0001 (1) = false
    assert_bv_eq(&ult_simulate(&[bv("1111"), bv("0001")]), "0");
}

#[test]
fn test_slt_simulate() {
    // Signed comparison (2's complement)
    assert_bv_eq(&slt_simulate(&[bv("0000"), bv("0000")]), "0");
    // 1 < -1 (0001 < 1111) = false
    assert_bv_eq(&slt_simulate(&[bv("0001"), bv("1111")]), "0");
    // -1 < 1 (1111 < 0001) = true
    assert_bv_eq(&slt_simulate(&[bv("1111"), bv("0001")]), "1");
    // -2 < -1 (1110 < 1111) = true
    assert_bv_eq(&slt_simulate(&[bv("1110"), bv("1111")]), "1");
    // 3 < 5 (0011 < 0101) = true
    assert_bv_eq(&slt_simulate(&[bv("0011"), bv("0101")]), "1");
}

#[test]
fn test_sll_simulate() {
    assert_bv_eq(&sll_simulate(&[bv("0001"), bv("0000")]), "0001");
    assert_bv_eq(&sll_simulate(&[bv("0001"), bv("0001")]), "0010");
    assert_bv_eq(&sll_simulate(&[bv("0001"), bv("0010")]), "0100");
    assert_bv_eq(&sll_simulate(&[bv("0001"), bv("0011")]), "1000");
    // shifted out entirely
    assert_bv_eq(&sll_simulate(&[bv("0001"), bv("0100")]), "0000");
    assert_bv_eq(&sll_simulate(&[bv("1010"), bv("0001")]), "0100");
}

#[test]
fn test_srl_simulate() {
    assert_bv_eq(&srl_simulate(&[bv("1000"), bv("0000")]), "1000");
    assert_bv_eq(&srl_simulate(&[bv("1000"), bv("0001")]), "0100");
    assert_bv_eq(&srl_simulate(&[bv("1000"), bv("0010")]), "0010");
    assert_bv_eq(&srl_simulate(&[bv("1000"), bv("0011")]), "0001");
    // shifted out entirely
    assert_bv_eq(&srl_simulate(&[bv("1000"), bv("0100")]), "0000");
    assert_bv_eq(&srl_simulate(&[bv("1010"), bv("0001")]), "0101");
}

#[test]
fn test_sra_simulate() {
    // positive number keeps zero fill
    assert_bv_eq(&sra_simulate(&[bv("0100"), bv("0001")]), "0010");
    // negative number sign-extends
    assert_bv_eq(&sra_simulate(&[bv("1000"), bv("0001")]), "1100");
    assert_bv_eq(&sra_simulate(&[bv("1000"), bv("0010")]), "1110");
    assert_bv_eq(&sra_simulate(&[bv("1000"), bv("0011")]), "1111");
    // all sign bits once the amount reaches the width
    assert_bv_eq(&sra_simulate(&[bv("1000"), bv("0100")]), "1111");
}

#[test]
fn test_rol_simulate() {
    assert_bv_eq(&rol_simulate(&[bv("0001"), bv("0000")]), "0001");
    assert_bv_eq(&rol_simulate(&[bv("0001"), bv("0001")]), "0010");
    assert_bv_eq(&rol_simulate(&[bv("0001"), bv("0010")]), "0100");
    assert_bv_eq(&rol_simulate(&[bv("0001"), bv("0011")]), "1000");
    // wrap around
    assert_bv_eq(&rol_simulate(&[bv("0001"), bv("0100")]), "0001");
    assert_bv_eq(&rol_simulate(&[bv("1001"), bv("0001")]), "0011");
}

#[test]
fn test_ror_simulate() {
    assert_bv_eq(&ror_simulate(&[bv("1000"), bv("0000")]), "1000");
    assert_bv_eq(&ror_simulate(&[bv("1000"), bv("0001")]), "0100");
    assert_bv_eq(&ror_simulate(&[bv("1000"), bv("0010")]), "0010");
    assert_bv_eq(&ror_simulate(&[bv("1000"), bv("0011")]), "0001");
    // wrap around
    assert_bv_eq(&ror_simulate(&[bv("1000"), bv("0100")]), "1000");
    assert_bv_eq(&ror_simulate(&[bv("0001"), bv("0001")]), "1000");
}

#[test]
fn test_ite_simulate() {
    assert_bv_eq(&ite_simulate(&[bv("1"), bv("1010"), bv("0101")]), "1010");
    assert_bv_eq(&ite_simulate(&[bv("0"), bv("1010"), bv("0101")]), "0101");
    // unknown condition, equal branches
    assert_bv_eq(&ite_simulate(&[bv("x"), bv("1111"), bv("1111")]), "1111");
    // unknown condition, differing branches
    assert_bv_eq(&ite_simulate(&[bv("x"), bv("1010"), bv("0101")]), "xxxx");
    // unknown condition, partial match
    assert_bv_eq(&ite_simulate(&[bv("x"), bv("1010"), bv("1000")]), "10x0");
}

#[test]
fn test_concat_simulate() {
    assert_bv_eq(&concat_simulate(&[bv("11"), bv("00")]), "1100");
    assert_bv_eq(&concat_simulate(&[bv("1"), bv("0")]), "10");
    assert_bv_eq(&concat_simulate(&[bv("1010"), bv("0101")]), "10100101");
    assert_bv_eq(&concat_simulate(&[bv("x"), bv("1")]), "x1");
}

#[test]
fn test_sext_simulate() {
    // positive: extend with zeros
    assert_bv_eq(&sext_simulate(&[bv("0100"), bv("0000")]), "00000100");
    // negative: extend with ones
    assert_bv_eq(&sext_simulate(&[bv("1100"), bv("0000")]), "11111100");
    assert_bv_eq(&sext_simulate(&[bv("1"), bv("000")]), "1111");
    assert_bv_eq(&sext_simulate(&[bv("0"), bv("000")]), "0000");
}

#[test]
fn test_slice_simulate() {
    // the marker operands carry the bounds as their widths
    assert_bv_eq(
        &slice_simulate(&[bv("10110100"), bv("00000"), bv("00")]),
        "1101",
    );
    assert_bv_eq(
        &slice_simulate(&[bv("11110000"), bv("0000000"), bv("0000")]),
        "1111",
    );
    assert_bv_eq(
        &slice_simulate(&[bv("10101010"), bv("000"), bv("")]),
        "1010",
    );
}

#[test]
fn test_redxor_simulate() {
    assert_bv_eq(&redxor_simulate(&[bv("0000")]), "0");
    assert_bv_eq(&redxor_simulate(&[bv("0001")]), "1");
    assert_bv_eq(&redxor_simulate(&[bv("0011")]), "0");
    assert_bv_eq(&redxor_simulate(&[bv("0111")]), "1");
    assert_bv_eq(&redxor_simulate(&[bv("1111")]), "0");
    assert_bv_eq(&redxor_simulate(&[bv("1010")]), "0");
    assert_bv_eq(&redxor_simulate(&[bv("1011")]), "1");
}

#[test]
fn test_add_simulate() {
    assert_bv_eq(&add_simulate(&[bv("0000"), bv("0000")]), "0000");
    assert_bv_eq(&add_simulate(&[bv("0001"), bv("0001")]), "0010");
    assert_bv_eq(&add_simulate(&[bv("0101"), bv("0011")]), "1000");
    // wraparound on overflow
    assert_bv_eq(&add_simulate(&[bv("1111"), bv("0001")]), "0000");
    assert_bv_eq(&add_simulate(&[bv("0111"), bv("0111")]), "1110");
}

#[test]
fn test_sub_simulate() {
    assert_bv_eq(&sub_simulate(&[bv("0000"), bv("0000")]), "0000");
    assert_bv_eq(&sub_simulate(&[bv("0010"), bv("0001")]), "0001");
    assert_bv_eq(&sub_simulate(&[bv("0101"), bv("0011")]), "0010");
    // wraparound on underflow
    assert_bv_eq(&sub_simulate(&[bv("0000"), bv("0001")]), "1111");
    assert_bv_eq(&sub_simulate(&[bv("1000"), bv("1000")]), "0000");
}

#[test]
fn test_mul_simulate() {
    assert_bv_eq(&mul_simulate(&[bv("0000"), bv("0000")]), "0000");
    assert_bv_eq(&mul_simulate(&[bv("0001"), bv("0001")]), "0001");
    assert_bv_eq(&mul_simulate(&[bv("0010"), bv("0011")]), "0110");
    assert_bv_eq(&mul_simulate(&[bv("0011"), bv("0011")]), "1001");
    // truncated to the low bits
    assert_bv_eq(&mul_simulate(&[bv("0100"), bv("0100")]), "0000");
    assert_bv_eq(&mul_simulate(&[bv("0101"), bv("0010")]), "1010");
}

#[test]
fn test_neg_simulate() {
    assert_bv_eq(&neg_simulate(&[bv("0000")]), "0000");
    assert_bv_eq(&neg_simulate(&[bv("0001")]), "1111");
    assert_bv_eq(&neg_simulate(&[bv("0010")]), "1110");
    assert_bv_eq(&neg_simulate(&[bv("1111")]), "0001");
    // the minimum value is its own negation
    assert_bv_eq(&neg_simulate(&[bv("1000")]), "1000");
}

#[test]
fn test_udiv_simulate() {
    assert_bv_eq(&udiv_simulate(&[bv("0110"), bv("0010")]), "0011");
    assert_bv_eq(&udiv_simulate(&[bv("1000"), bv("0010")]), "0100");
    assert_bv_eq(&udiv_simulate(&[bv("1001"), bv("0011")]), "0011");
    assert_bv_eq(&udiv_simulate(&[bv("0111"), bv("0010")]), "0011");
    assert_bv_eq(&udiv_simulate(&[bv("0000"), bv("0101")]), "0000");
}

#[test]
fn test_urem_simulate() {
    assert_bv_eq(&urem_simulate(&[bv("0110"), bv("0010")]), "0000");
    assert_bv_eq(&urem_simulate(&[bv("0111"), bv("0010")]), "0001");
    assert_bv_eq(&urem_simulate(&[bv("1001"), bv("0100")]), "0001");
    assert_bv_eq(&urem_simulate(&[bv("1010"), bv("0011")]), "0001");
    assert_bv_eq(&urem_simulate(&[bv("0000"), bv("0101")]), "0000");
}

#[test]
fn test_sdiv_simulate() {
    assert_bv_eq(&sdiv_simulate(&[bv("0110"), bv("0010")]), "0011");
    assert_bv_eq(&sdiv_simulate(&[bv("1010"), bv("0010")]), "1101");
    assert_bv_eq(&sdiv_simulate(&[bv("0110"), bv("1110")]), "1101");
    assert_bv_eq(&sdiv_simulate(&[bv("1010"), bv("1110")]), "0011");
}

#[test]
fn test_srem_simulate() {
    assert_bv_eq(&srem_simulate(&[bv("0111"), bv("0011")]), "0001");
    assert_bv_eq(&srem_simulate(&[bv("1001"), bv("0011")]), "1111");
    assert_bv_eq(&srem_simulate(&[bv("0111"), bv("1101")]), "0001");
    assert_bv_eq(&srem_simulate(&[bv("1001"), bv("1101")]), "1111");
}

#[test]
fn test_smod_simulate() {
    assert_bv_eq(&smod_simulate(&[bv("0111"), bv("0011")]), "0001");
    // the result carries the divisor's sign
    assert_bv_eq(&smod_simulate(&[bv("1001"), bv("0011")]), "0010");
    assert_bv_eq(&smod_simulate(&[bv("0111"), bv("1101")]), "1110");
    assert_bv_eq(&smod_simulate(&[bv("1001"), bv("1101")]), "1111");
}

#[test]
fn test_read_simulate() {
    // Array with 4 elements of 2 bits each: [00, 01, 10, 11]
    let array = bv("11100100");
    assert_bv_eq(&read_simulate(&[array.clone(), bv("00")]), "00");
    assert_bv_eq(&read_simulate(&[array.clone(), bv("01")]), "01");
    assert_bv_eq(&read_simulate(&[array.clone(), bv("10")]), "10");
    assert_bv_eq(&read_simulate(&[array.clone(), bv("11")]), "11");
}

#[test]
fn test_write_simulate() {
    // Array with 4 elements of 2 bits each: [00, 01, 10, 11]
    let array = bv("11100100");
    assert_bv_eq(
        &write_simulate(&[array.clone(), bv("00"), bv("11")]),
        "11100111",
    );
    assert_bv_eq(
        &write_simulate(&[array.clone(), bv("11"), bv("00")]),
        "00100100",
    );
    assert_bv_eq(
        &write_simulate(&[array.clone(), bv("01"), bv("11")]),
        "11101100",
    );
}

#[test]
fn read_after_write_keeps_other_elements() {
    // write element 0 of "11100100", then read element 1 back unchanged
    let written = write_simulate(&[bv("11100100"), bv("00"), bv("11")]);
    let read = read_simulate(&[written, bv("01")]);
    assert_bv_eq(&read, "01");
}

#[test]
fn shift_laws_hold_on_values() {
    // amounts of at least the width clear or sign-fill the vector
    assert_bv_eq(&sll_simulate(&[bv("1011"), bv("0101")]), "0000");
    assert_bv_eq(&srl_simulate(&[bv("1011"), bv("1111")]), "0000");
    assert_bv_eq(&sra_simulate(&[bv("1011"), bv("0110")]), "1111");
    assert_bv_eq(&sra_simulate(&[bv("0011"), bv("0110")]), "0000");
    // rotating by the width is the identity
    for (x, k, kw) in [("1011", "0001", "0101"), ("0110", "0010", "0110")] {
        let a = rol_simulate(&[bv(x), bv(k)]);
        let b = rol_simulate(&[bv(x), bv(kw)]);
        assert!(a.as_bv().unwrap().equal(b.as_bv().unwrap()));
        let a = ror_simulate(&[bv(x), bv(k)]);
        let b = ror_simulate(&[bv(x), bv(kw)]);
        assert!(a.as_bv().unwrap().equal(b.as_bv().unwrap()));
    }
}

#[test]
fn modular_arithmetic_laws_hold_on_values() {
    // a == udiv(a,b)*b + urem(a,b) for every 3-bit pair with b != 0
    for a in 0u32..8 {
        for b in 1u32..8 {
            let abits = format!("{:03b}", a);
            let bbits = format!("{:03b}", b);
            let q = udiv_simulate(&[bv(&abits), bv(&bbits)]);
            let r = urem_simulate(&[bv(&abits), bv(&bbits)]);
            let qb = q.as_bv().unwrap().to_lit_string();
            let rb = r.as_bv().unwrap().to_lit_string();
            let qv = u32::from_str_radix(&qb, 2).unwrap();
            let rv = u32::from_str_radix(&rb, 2).unwrap();
            assert_eq!(a, qv * b + rv, "a={} b={}", a, b);
        }
    }
    // add/sub/mul match modular arithmetic, neg matches 2^w - x
    for a in 0u32..16 {
        for b in 0u32..16 {
            let abits = format!("{:04b}", a);
            let bbits = format!("{:04b}", b);
            let cases = [
                (add_simulate(&[bv(&abits), bv(&bbits)]), (a + b) % 16),
                (sub_simulate(&[bv(&abits), bv(&bbits)]), (a + 16 - b) % 16),
                (mul_simulate(&[bv(&abits), bv(&bbits)]), (a * b) % 16),
            ];
            for (got, want) in cases {
                let g = u32::from_str_radix(&got.as_bv().unwrap().to_lit_string(), 2).unwrap();
                assert_eq!(g, want, "a={} b={}", a, b);
            }
        }
        let n = neg_simulate(&[bv(&format!("{:04b}", a))]);
        let g = u32::from_str_radix(&n.as_bv().unwrap().to_lit_string(), 2).unwrap();
        assert_eq!(g, (16 - a) % 16);
    }
}

#[test]
fn signed_division_laws_hold_on_values() {
    // a == sdiv(a,b)*b + srem(a,b) in two's complement, and smod carries the
    // divisor's sign or is zero, for every 3-bit pair with b != 0
    let to_signed = |v: i32| if v >= 4 { v - 8 } else { v };
    for a in 0i32..8 {
        for b in 0i32..8 {
            let sb = to_signed(b);
            if sb == 0 {
                continue;
            }
            let sa = to_signed(a);
            let abits = format!("{:03b}", a);
            let bbits = format!("{:03b}", b);
            let q = sdiv_simulate(&[bv(&abits), bv(&bbits)]);
            let r = srem_simulate(&[bv(&abits), bv(&bbits)]);
            let m = smod_simulate(&[bv(&abits), bv(&bbits)]);
            let dec = |v: &Value| {
                let raw = i32::from_str_radix(&v.as_bv().unwrap().to_lit_string(), 2).unwrap();
                to_signed(raw)
            };
            let (qv, rv, mv) = (dec(&q), dec(&r), dec(&m));
            // truncating division identity, modulo 2^3
            assert_eq!((qv * sb + rv - sa).rem_euclid(8), 0, "a={} b={}", sa, sb);
            // smod sign rule
            assert!(mv == 0 || (mv > 0) == (sb > 0), "a={} b={}", sa, sb);
        }
    }
}
