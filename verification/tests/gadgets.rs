use zeekit::common::{alloc_bit, assert_equal, bit_lt, bit_or, is_equal, is_zero, lte, to_bits, to_bits_neg, sum_u64};
use zeekit::cs::R1cs;
use zeekit::field::{fp_add, fp_from_u64, fp_mul, fp_neg, fp_one, fp_sub, fp_zero, Fp};

fn fp(x: u64) -> Fp {
    fp_from_u64(x)
}

#[test]
fn test_is_zero() {
    let mut cs = R1cs::new();
    let a = cs.allocate(fp(0));
    let z = is_zero(&mut cs, a);
    assert_eq!(cs.value_of(z.var), fp(1));
    let b = cs.allocate(fp(42));
    let nz = is_zero(&mut cs, b);
    assert_eq!(cs.value_of(nz.var), fp(0));
    assert!(cs.check());
}

#[test]
fn test_is_zero_soundness_fuzz() {
    let mut cs = R1cs::new();
    let a = cs.allocate(fp(7));
    let z = is_zero(&mut cs, a);
    assert!(cs.check());
    // a cheating prover flips the output bit: the constraints must reject it
    cs.set_value(z.var, fp(1));
    assert!(!cs.check());

    let mut cs2 = R1cs::new();
    let b = cs2.allocate(fp(0));
    let z2 = is_zero(&mut cs2, b);
    cs2.set_value(z2.var, fp(0));
    assert!(!cs2.check());
}

#[test]
fn test_is_equal() {
    let mut cs = R1cs::new();
    let a = cs.allocate(fp(5));
    let b = cs.allocate(fp(5));
    let c = cs.allocate(fp(6));
    let eq = is_equal(&mut cs, a, b);
    let ne = is_equal(&mut cs, a, c);
    assert_eq!(cs.value_of(eq.var), fp(1));
    assert_eq!(cs.value_of(ne.var), fp(0));
    assert!(cs.check());
}

#[test]
fn test_is_equal_soundness_fuzz() {
    let mut cs = R1cs::new();
    let a = cs.allocate(fp(5));
    let b = cs.allocate(fp(6));
    let eq = is_equal(&mut cs, a, b);
    assert!(cs.check());
    cs.set_value(eq.var, fp(1));
    assert!(!cs.check());
}

#[test]
fn test_bit_or_and_lt() {
    let mut cs = R1cs::new();
    let f = alloc_bit(&mut cs, false);
    let t = alloc_bit(&mut cs, true);
    let or_ft = bit_or(&mut cs, f, t);
    let or_ff = bit_or(&mut cs, f, f);
    let lt_ft = bit_lt(&mut cs, f, t);
    let lt_tf = bit_lt(&mut cs, t, f);
    let lt_tt = bit_lt(&mut cs, t, t);
    assert_eq!(cs.value_of(or_ft.var), fp(1));
    assert_eq!(cs.value_of(or_ff.var), fp(0));
    assert_eq!(cs.value_of(lt_ft.var), fp(1));
    assert_eq!(cs.value_of(lt_tf.var), fp(0));
    assert_eq!(cs.value_of(lt_tt.var), fp(0));
    assert!(cs.check());
}

fn bits_to_u128(cs: &R1cs, bits: &[zeekit::cs::Bit]) -> u128 {
    let mut acc: u128 = 0;
    for (i, b) in bits.iter().enumerate() {
        if cs.value_of(b.var) == fp(1) {
            acc += 1u128 << i;
        }
    }
    acc
}

#[test]
fn test_to_bits_round_trip() {
    let v: u64 = 0xdead_beef_0bad_cafe;
    let mut cs = R1cs::new();
    let a = cs.allocate(fp(v));
    let bits = to_bits(&mut cs, a, 64);
    assert_eq!(bits.len(), 64);
    assert_eq!(bits_to_u128(&cs, &bits), v as u128);
    assert!(cs.check());
}

#[test]
fn test_to_bits_neg_identity() {
    let v: u64 = 123_456_789;
    let mut cs = R1cs::new();
    let a = cs.allocate(fp(v));
    let bits = to_bits_neg(&mut cs, a, 64);
    // bits spell 2^64 - v, so re-summing and adding v gives exactly 2^64
    assert_eq!(bits_to_u128(&cs, &bits) + v as u128, 1u128 << 64);
    assert!(cs.check());

    // the zero case is handled specially: the decomposition spells zero
    let mut cs2 = R1cs::new();
    let z = cs2.allocate(fp(0));
    let zbits = to_bits_neg(&mut cs2, z, 64);
    assert_eq!(bits_to_u128(&cs2, &zbits), 0);
    assert!(cs2.check());
}

#[test]
fn test_sum_u64() {
    let x: u64 = 0xffff_0000_1234_5678;
    let y: u64 = 0x8000_0000_0000_0001;
    let mut cs = R1cs::new();
    let a = cs.allocate(fp(x));
    let b = cs.allocate(fp(y));
    let xb = to_bits(&mut cs, a, 64);
    let yb = to_bits(&mut cs, b, 64);
    let s = sum_u64(&mut cs, xb, yb);
    let expect = x as u128 + y as u128;
    assert_eq!(cs.value_of(s.var), fp_add(fp(expect as u64), fp_mul(fp((expect >> 64) as u64), fp_add(fp(u64::MAX), fp(1)))));
    assert!(cs.check());
}

fn lte_case(a: u64, b: u64) -> bool {
    let mut cs = R1cs::new();
    let aw = cs.allocate(fp(a));
    let bw = cs.allocate(fp(b));
    let r = lte(&mut cs, aw, bw);
    assert!(cs.check());
    cs.value_of(r.var) == fp(1)
}

#[test]
fn test_lte() {
    assert!(lte_case(5, 5));
    assert!(lte_case(0, 7));
    assert!(!lte_case(7, 0));
    assert!(lte_case(0, 0));
    assert!(lte_case(3, u64::MAX));
    assert!(!lte_case(u64::MAX, 3));
    assert!(lte_case(u64::MAX, u64::MAX));
    assert!(lte_case(u64::MAX - 1, u64::MAX));
    assert!(!lte_case(u64::MAX, u64::MAX - 1));
}

#[test]
fn test_assert_equal() {
    // disabled: satisfiable for any unequal pair
    let mut cs = R1cs::new();
    let off = alloc_bit(&mut cs, false);
    let a = cs.allocate(fp(1));
    let b = cs.allocate(fp(2));
    assert_equal(&mut cs, off, a, b);
    assert!(cs.check());

    // enabled on an unequal pair: unsatisfiable
    let mut cs2 = R1cs::new();
    let on = alloc_bit(&mut cs2, true);
    let a2 = cs2.allocate(fp(1));
    let b2 = cs2.allocate(fp(2));
    assert_equal(&mut cs2, on, a2, b2);
    assert!(!cs2.check());

    // enabled on an equal pair: satisfiable
    let mut cs3 = R1cs::new();
    let on3 = alloc_bit(&mut cs3, true);
    let a3 = cs3.allocate(fp(9));
    let b3 = cs3.allocate(fp(9));
    assert_equal(&mut cs3, on3, a3, b3);
    assert!(cs3.check());
}

#[test]
fn test_field_ops() {
    let one = fp_one();
    let zero = fp_zero();
    assert_eq!(fp_add(one, zero), one);
    assert_eq!(fp_sub(one, one), zero);
    assert_eq!(fp_add(fp_neg(one), one), zero);
    assert_eq!(fp_mul(fp(6), fp(7)), fp(42));
}
