use group::Group;
use zeekit::gates::{append_bit, verify as gate_verify, Composer, WitnessPoint};
use zeekit::common::alloc_bit;
use zeekit::cs::R1cs;
use zeekit::curve::{point_mul, CurveParams, PointAffine};
use zeekit::eddsa::{verify, AllocatedPoint, WitnessSignature};
use zeekit::field::{fp_add, fp_from_u64, fp_invert, fp_mul, fp_neg, fp_one, fp_sub, Fp};
use zeekit::mimc::mimc;

fn fq_to_fp(s: bls12_381::Scalar) -> Fp {
    let b = s.to_bytes();
    Fp {
        l0: u64::from_le_bytes(b[0..8].try_into().unwrap()),
        l1: u64::from_le_bytes(b[8..16].try_into().unwrap()),
        l2: u64::from_le_bytes(b[16..24].try_into().unwrap()),
        l3: u64::from_le_bytes(b[24..32].try_into().unwrap()),
    }
}

fn fr_to_fp(r: jubjub::Fr) -> Fp {
    let b = r.to_bytes();
    Fp {
        l0: u64::from_le_bytes(b[0..8].try_into().unwrap()),
        l1: u64::from_le_bytes(b[8..16].try_into().unwrap()),
        l2: u64::from_le_bytes(b[16..24].try_into().unwrap()),
        l3: u64::from_le_bytes(b[24..32].try_into().unwrap()),
    }
}

fn fp_to_fr(f: &Fp) -> jubjub::Fr {
    let mut w = [0u8; 64];
    w[0..8].copy_from_slice(&f.l0.to_le_bytes());
    w[8..16].copy_from_slice(&f.l1.to_le_bytes());
    w[16..24].copy_from_slice(&f.l2.to_le_bytes());
    w[24..32].copy_from_slice(&f.l3.to_le_bytes());
    jubjub::Fr::from_bytes_wide(&w)
}

/// The curve constants and base point, taken from the jubjub generator: with
/// `a = -1` the constant `d` is recovered from the curve equation.
fn curve_setup() -> (CurveParams, PointAffine) {
    let g = jubjub::AffinePoint::from(jubjub::ExtendedPoint::from(
        jubjub::SubgroupPoint::generator(),
    ));
    let bx = fq_to_fp(g.get_u());
    let by = fq_to_fp(g.get_v());
    let a = fp_neg(fp_one());
    let u2 = fp_mul(bx, bx);
    let v2 = fp_mul(by, by);
    let num = fp_sub(fp_sub(v2, u2), fp_one());
    let d = fp_mul(num, fp_invert(fp_mul(u2, v2)));
    (CurveParams { a, d }, PointAffine(bx, by))
}

fn mimc_constants() -> Vec<Fp> {
    (0..20u64).map(|i| fp_from_u64(i * i * 13 + 5)).collect()
}

fn hash_message(consts: &Vec<Fp>, rr: &PointAffine, pk: &PointAffine, msg: Fp) -> Fp {
    let h_rr = mimc(rr.0, rr.1, consts);
    let h_pk = mimc(pk.0, pk.1, consts);
    let h_rr_pk = mimc(h_rr, h_pk, consts);
    mimc(h_rr_pk, msg, consts)
}

fn run_circuit(
    params: &CurveParams,
    base: &PointAffine,
    enabled: bool,
    pk: &PointAffine,
    msg: Fp,
    sig_r: &PointAffine,
    sig_s: Fp,
) -> bool {
    let consts = mimc_constants();
    let mut cs = R1cs::new();
    let en = alloc_bit(&mut cs, enabled);
    let curve_a = cs.allocate(params.a);
    let curve_d = cs.allocate(params.d);
    let base_w = AllocatedPoint { x: cs.allocate(base.0), y: cs.allocate(base.1) };
    let pk_w = AllocatedPoint { x: cs.allocate(pk.0), y: cs.allocate(pk.1) };
    let msg_w = cs.allocate(msg);
    let sig = WitnessSignature {
        r: AllocatedPoint { x: cs.allocate(sig_r.0), y: cs.allocate(sig_r.1) },
        s: cs.allocate(sig_s),
    };
    let built = verify(&mut cs, en, curve_a, curve_d, base_w, pk_w, msg_w, sig, &consts);
    assert!(built.is_ok());
    cs.check()
}

#[test]
fn test_point_mul_matches_jubjub() {
    let (params, base) = curve_setup();
    let k_fr = jubjub::Fr::from(98765u64);
    let pk = point_mul(&params, &base, &fr_to_fp(k_fr));
    let expect = jubjub::AffinePoint::from(
        jubjub::ExtendedPoint::from(jubjub::SubgroupPoint::generator()) * k_fr,
    );
    assert_eq!(pk.0, fq_to_fp(expect.get_u()));
    assert_eq!(pk.1, fq_to_fp(expect.get_v()));
}

#[test]
fn test_signature_scenario() {
    let (params, base) = curve_setup();
    let consts = mimc_constants();

    // key pair and commitment
    let k_fr = jubjub::Fr::from(98765u64);
    let pk = point_mul(&params, &base, &fr_to_fp(k_fr));
    let r_fr = jubjub::Fr::from(54321u64);
    let rr = point_mul(&params, &base, &fr_to_fp(r_fr));

    // response scalar s = r + h * k over the subgroup order
    let msg = fp_from_u64(1_000_001);
    let h = hash_message(&consts, &rr, &pk, msg);
    let s_fr = r_fr + fp_to_fr(&h) * k_fr;
    let s = fr_to_fp(s_fr);

    // a valid signature satisfies the enabled circuit
    assert!(run_circuit(&params, &base, true, &pk, msg, &rr, s));

    // disturbing the response scalar is rejected
    let bad_s = fp_add(s, fp_one());
    assert!(!run_circuit(&params, &base, true, &pk, msg, &rr, bad_s));

    // disturbing the public key is rejected
    let bad_pk = PointAffine(fp_add(pk.0, fp_one()), pk.1);
    assert!(!run_circuit(&params, &base, true, &bad_pk, msg, &rr, s));

    // disturbing the message is rejected
    let bad_msg = fp_add(msg, fp_one());
    assert!(!run_circuit(&params, &base, true, &pk, bad_msg, &rr, s));

    // with the mask off, even an invalid signature satisfies the circuit
    assert!(run_circuit(&params, &base, false, &pk, msg, &rr, bad_s));
}


fn run_gate_circuit(
    params: &CurveParams,
    base: &PointAffine,
    enabled: bool,
    pk: &PointAffine,
    msg: Fp,
    sig_r: &PointAffine,
    sig_s: Fp,
) -> bool {
    let consts = mimc_constants();
    let mut cs = Composer::new();
    let en = append_bit(&mut cs, enabled);
    let pk_w = WitnessPoint { x: cs.append(pk.0), y: cs.append(pk.1) };
    let msg_w = cs.append(msg);
    let sig = zeekit::gates::WitnessSignature {
        r: WitnessPoint { x: cs.append(sig_r.0), y: cs.append(sig_r.1) },
        s: cs.append(sig_s),
    };
    gate_verify(&mut cs, en, params.a, params.d, base.0, base.1, pk_w, msg_w, sig, &consts);
    cs.check()
}

#[test]
fn test_backend_equivalence() {
    let (params, base) = curve_setup();
    let consts = mimc_constants();

    let k_fr = jubjub::Fr::from(24680u64);
    let pk = point_mul(&params, &base, &fr_to_fp(k_fr));
    let r_fr = jubjub::Fr::from(13579u64);
    let rr = point_mul(&params, &base, &fr_to_fp(r_fr));
    let msg = fp_from_u64(777_000);
    let h = hash_message(&consts, &rr, &pk, msg);
    let s_fr = r_fr + fp_to_fr(&h) * k_fr;
    let s = fr_to_fp(s_fr);
    let bad_s = fp_add(s, fp_one());

    // the rank-1 backend and the native-gate backend accept exactly the same
    // assignments: valid, tampered, and mask-disabled cases agree
    let cases = [
        (true, s, true),
        (true, bad_s, false),
        (false, bad_s, true),
    ];
    for (enabled, sv, expect) in cases {
        let r1 = run_circuit(&params, &base, enabled, &pk, msg, &rr, sv);
        let r2 = run_gate_circuit(&params, &base, enabled, &pk, msg, &rr, sv);
        assert_eq!(r1, expect);
        assert_eq!(r2, expect);
        assert_eq!(r1, r2);
    }
}
