//! In-circuit twisted-Edwards point arithmetic and EdDSA signature
//! verification over the rank-1 backend: point addition from the complete
//! formula, double-and-add scalar multiplication over a 255-bit
//! decomposition, cofactor clearing, and the maskable verification equation
//! `[8]sB = [8](R + [h]A)` with `h` drawn from the MiMC gadget.

use vstd::prelude::*;
use vstd::arithmetic::power2::pow2;
use vstd::arithmetic::div_mod::lemma_small_mod;
use crate::field::{
    Fp, p, fadd, fmul, fneg, fsub, field_inv, fp_add, fp_mul, fp_sub, fp_zero, fp_one, fp_neg,
    fp_invert, lemma_fmul_one, lemma_fmul_comm, lemma_fmul_assoc, lemma_fneg_one, lemma_fneg_mul,
    lemma_fneg_bound, lemma_fadd_bound, lemma_div_cancel, lemma_val_zero, lemma_pow2_consts,
};
use crate::cs::{Num, Bit, Lc, Constraint, R1cs, lc_val, constraint_sat, extends};
use crate::common::{
    boolish, to_bits, select, mul_num, assert_equal, lemma_lc_val_affine1, lemma_lc_val_affine2,
    lemma_unit_term, lc_var, lc_affine1, lc_affine2,
};
use crate::curve::{e_common, add_ok, eadd, scalar_bits, smul, smul_ok, cof8, cof8_ok};
use crate::mimc::{mimc_gadget, mimc_spec, fp_seq, fp_seq_wf};

verus! {

/// The one failure of circuit construction: an addition on the chosen points
/// hit a zero denominator of the complete formula.
pub enum CircuitError {
    Degenerate,
}

/// A point given by two wires.
#[derive(Clone, Copy)]
pub struct AllocatedPoint {
    pub x: Num,
    pub y: Num,
}

impl AllocatedPoint {
    pub open spec fn wf(self, cs: R1cs) -> bool {
        self.x.var < cs.nv() && self.y.var < cs.nv()
    }

    pub open spec fn vals(self, cs: R1cs) -> (nat, nat) {
        (cs.nval(self.x), cs.nval(self.y))
    }
}

/// In-circuit point addition: six constraints around the complete formula;
/// fails exactly when one of the two denominators vanishes on the given
/// values.
#[verifier::rlimit(100)]
pub fn add_point(
    cs: &mut R1cs,
    curve_a: Num,
    curve_d: Num,
    a: AllocatedPoint,
    b: AllocatedPoint,
) -> (r: Result<AllocatedPoint, CircuitError>)
    requires
        old(cs).ok(),
        curve_a.var < old(cs).nv(),
        curve_d.var < old(cs).nv(),
        a.wf(*old(cs)),
        b.wf(*old(cs)),
    ensures
        final(cs).ok(),
        extends(*final(cs), *old(cs)),
        final(cs).sat() == old(cs).sat(),
        r is Ok <==> add_ok(
            old(cs).nval(curve_a),
            old(cs).nval(curve_d),
            a.vals(*old(cs)),
            b.vals(*old(cs)),
        ),
        r is Ok ==> (r->Ok_0).wf(*final(cs)) && (r->Ok_0).vals(*final(cs)) == eadd(
            old(cs).nval(curve_a),
            old(cs).nval(curve_d),
            a.vals(*old(cs)),
            b.vals(*old(cs)),
        ),
{
    let ghost av = old(cs).nval(curve_a);
    let ghost dv = old(cs).nval(curve_d);
    let ghost x1 = old(cs).nval(a.x);
    let ghost y1 = old(cs).nval(a.y);
    let ghost x2 = old(cs).nval(b.x);
    let ghost y2 = old(cs).nval(b.y);
    let m1 = mul_num(cs, curve_d, a.x);
    let m2 = mul_num(cs, m1, b.x);
    let m3 = mul_num(cs, m2, a.y);
    let common = mul_num(cs, m3, b.y);
    proof {
        assert(cs.nval(common) == e_common(dv, x1, y1, x2, y2));
    }
    let common_v = cs.value_of(common.var);
    let den_x = fp_add(fp_one(), common_v);
    let den_y = fp_sub(fp_one(), common_v);
    let dx_zero = den_x.l0 == 0 && den_x.l1 == 0 && den_x.l2 == 0 && den_x.l3 == 0;
    let dy_zero = den_y.l0 == 0 && den_y.l1 == 0 && den_y.l2 == 0 && den_y.l3 == 0;
    proof {
        lemma_val_zero(den_x);
        lemma_val_zero(den_y);
    }
    if dx_zero || dy_zero {
        return Err(CircuitError::Degenerate);
    }
    let inv_x = fp_invert(den_x);
    let inv_y = fp_invert(den_y);
    let x1y2 = mul_num(cs, a.x, b.y);
    let y1x2 = mul_num(cs, a.y, b.x);
    let y1y2 = mul_num(cs, a.y, b.y);
    let ax1 = mul_num(cs, curve_a, a.x);
    let ax1x2 = mul_num(cs, ax1, b.x);
    let num_x_v = fp_add(cs.value_of(x1y2.var), cs.value_of(y1x2.var));
    let num_y_v = fp_sub(cs.value_of(y1y2.var), cs.value_of(ax1x2.var));
    let sum_x_v = fp_mul(num_x_v, inv_x);
    let sum_y_v = fp_mul(num_y_v, inv_y);
    let sum_x = cs.allocate(sum_x_v);
    let sum_y = cs.allocate(sum_y_v);
    proof {
        let cv = e_common(dv, x1, y1, x2, y2);
        let numx = fadd(fmul(x1, y2), fmul(y1, x2));
        let numy = fsub(fmul(y1, y2), fmul(fmul(av, x1), x2));
        lemma_fadd_bound(fmul(x1, y2), fmul(y1, x2));
        lemma_fadd_bound(fmul(y1, y2), fneg(fmul(fmul(av, x1), x2)));
        lemma_div_cancel(fadd(1, cv), numx, inv_x.val());
        lemma_div_cancel(fsub(1, cv), numy, inv_y.val());
        assert(fmul(fadd(1, cv), cs.nval(sum_x)) == numx);
        assert(fmul(fsub(1, cv), cs.nval(sum_y)) == numy);
    }
    enforce_add_x(cs, common, sum_x, x1y2, y1x2);
    enforce_add_y(cs, common, sum_y, y1y2, ax1x2);
    Ok(AllocatedPoint { x: sum_x, y: sum_y })
}

/// The x-lane constraint of the addition formula:
/// `(1 + common) * sum_x = x1*y2 + y1*x2`.
fn enforce_add_x(cs: &mut R1cs, common: Num, sum_x: Num, x1y2: Num, y1x2: Num)
    requires
        old(cs).ok(),
        common.var < old(cs).nv(),
        sum_x.var < old(cs).nv(),
        x1y2.var < old(cs).nv(),
        y1x2.var < old(cs).nv(),
        fmul(fadd(1, old(cs).nval(common)), old(cs).nval(sum_x)) == fadd(
            old(cs).nval(x1y2),
            old(cs).nval(y1x2),
        ),
    ensures
        final(cs).ok(),
        extends(*final(cs), *old(cs)),
        final(cs).sat() == old(cs).sat(),
{
    let c = Constraint {
        a: lc_affine1(fp_one(), fp_one(), common.var),
        b: lc_var(sum_x.var),
        c: lc_affine2(fp_zero(), fp_one(), x1y2.var, fp_one(), y1x2.var),
    };
    proof {
        let vals = cs.vals@;
        let cv = old(cs).nval(common);
        let u = old(cs).nval(x1y2);
        let w = old(cs).nval(y1x2);
        lemma_lc_val_affine1(c.a, vals);
        lemma_lc_val_affine1(c.b, vals);
        lemma_lc_val_affine2(c.c, vals);
        lemma_fmul_one(cv);
        lemma_fmul_comm(1, cv);
        assert(fadd(cv, 1) == fadd(1, cv)) by {
            reveal(fadd);
        }
        lemma_unit_term(old(cs).nval(sum_x));
        lemma_fmul_one(u);
        lemma_fmul_comm(1, u);
        lemma_fmul_one(w);
        lemma_fmul_comm(1, w);
        lemma_fadd_bound(u, w);
        assert(fadd(fadd(u, w), 0) == fadd(u, w)) by {
            reveal(fadd);
            lemma_small_mod(fadd(u, w), p());
        }
        assert(constraint_sat(c, vals));
    }
    cs.enforce(c);
}

/// The y-lane constraint of the addition formula:
/// `(1 - common) * sum_y = y1*y2 - a*x1*x2`.
fn enforce_add_y(cs: &mut R1cs, common: Num, sum_y: Num, y1y2: Num, ax1x2: Num)
    requires
        old(cs).ok(),
        common.var < old(cs).nv(),
        sum_y.var < old(cs).nv(),
        y1y2.var < old(cs).nv(),
        ax1x2.var < old(cs).nv(),
        fmul(fsub(1, old(cs).nval(common)), old(cs).nval(sum_y)) == fsub(
            old(cs).nval(y1y2),
            old(cs).nval(ax1x2),
        ),
    ensures
        final(cs).ok(),
        extends(*final(cs), *old(cs)),
        final(cs).sat() == old(cs).sat(),
{
    let neg_one = fp_neg(fp_one());
    let c = Constraint {
        a: lc_affine1(fp_one(), neg_one, common.var),
        b: lc_var(sum_y.var),
        c: lc_affine2(fp_zero(), fp_one(), y1y2.var, neg_one, ax1x2.var),
    };
    proof {
        let vals = cs.vals@;
        let cv = old(cs).nval(common);
        let u = old(cs).nval(y1y2);
        let w = old(cs).nval(ax1x2);
        lemma_fneg_one();
        lemma_lc_val_affine1(c.a, vals);
        lemma_lc_val_affine1(c.b, vals);
        lemma_lc_val_affine2(c.c, vals);
        lemma_fneg_mul(1, cv);
        lemma_fmul_one(cv);
        lemma_fmul_comm(1, cv);
        lemma_fneg_bound(cv);
        assert(fadd(fneg(cv), 1) == fsub(1, cv)) by {
            reveal(fadd);
        }
        lemma_unit_term(old(cs).nval(sum_y));
        lemma_fmul_one(u);
        lemma_fmul_comm(1, u);
        lemma_fneg_mul(1, w);
        lemma_fmul_one(w);
        lemma_fmul_comm(1, w);
        lemma_fneg_bound(w);
        lemma_fadd_bound(u, fneg(w));
        assert(fadd(fadd(u, fneg(w)), 0) == fsub(u, w)) by {
            reveal(fadd);
            lemma_small_mod(fadd(u, fneg(w)), p());
        }
        assert(constraint_sat(c, vals));
    }
    cs.enforce(c);
}

/// In-circuit scalar multiplication: decomposes the scalar into 255 bits and
/// runs double-and-add from the identity, selecting each step's result by
/// the bit.
pub fn mul_point(
    cs: &mut R1cs,
    curve_a: Num,
    curve_d: Num,
    base: AllocatedPoint,
    b: Num,
) -> (r: Result<AllocatedPoint, CircuitError>)
    requires
        old(cs).ok(),
        curve_a.var < old(cs).nv(),
        curve_d.var < old(cs).nv(),
        base.wf(*old(cs)),
        b.var < old(cs).nv(),
    ensures
        final(cs).ok(),
        extends(*final(cs), *old(cs)),
        final(cs).sat() == old(cs).sat(),
        r is Ok <==> smul_ok(
            old(cs).nval(curve_a),
            old(cs).nval(curve_d),
            base.vals(*old(cs)),
            scalar_bits(old(cs).nval(b)),
        ),
        r is Ok ==> (r->Ok_0).wf(*final(cs)) && (r->Ok_0).vals(*final(cs)) == smul(
            old(cs).nval(curve_a),
            old(cs).nval(curve_d),
            base.vals(*old(cs)),
            scalar_bits(old(cs).nval(b)),
        ),
{
    let ghost av = old(cs).nval(curve_a);
    let ghost dv = old(cs).nval(curve_d);
    let ghost bv = base.vals(*old(cs));
    let ghost sv = old(cs).nval(b);
    let ghost bits_spec = scalar_bits(sv);
    proof {
        lemma_pow2_consts();
        assert(sv < pow2(255));
        assert(bits_spec.take(0) =~= Seq::<bool>::empty());
    }
    let bits = to_bits(cs, b, 255);
    let zero_w = cs.allocate(fp_zero());
    let one_w = cs.allocate(fp_one());
    let mut result = AllocatedPoint { x: zero_w, y: one_w };
    let mut i: usize = 0;
    while i < 255
        invariant
            i <= 255,
            cs.ok(),
            extends(*cs, *old(cs)),
            cs.sat() == old(cs).sat(),
            curve_a.var < old(cs).nv(),
            curve_d.var < old(cs).nv(),
            av == cs.nval(curve_a),
            dv == cs.nval(curve_d),
            av == old(cs).nval(curve_a),
            dv == old(cs).nval(curve_d),
            base.wf(*old(cs)),
            bv == base.vals(*cs),
            bv == base.vals(*old(cs)),
            sv == old(cs).nval(b),
            bits_spec == scalar_bits(sv),
            bits_spec.len() == 255,
            bits@.len() == 255,
            forall|t: int| 0 <= t < 255 ==> (#[trigger] bits@[t]).var < cs.nv(),
            forall|t: int|
                0 <= t < 255 ==> cs.bval(#[trigger] bits@[t]) == (if bits_spec[254 - t] {
                    1nat
                } else {
                    0nat
                }),
            result.wf(*cs),
            smul_ok(av, dv, bv, bits_spec.take(i as int)),
            result.vals(*cs) == smul(av, dv, bv, bits_spec.take(i as int)),
        decreases 255 - i,
    {
        let ghost pre = *cs;
        let ghost prev_pt = smul(av, dv, bv, bits_spec.take(i as int));
        let dbl = match add_point(cs, curve_a, curve_d, result, result) {
            Ok(pt) => pt,
            Err(e) => {
                proof {
                    assert(bits_spec.len() == 255);
                    assert(!add_ok(av, dv, prev_pt, prev_pt));
                    lemma_smul_ok_break(av, dv, bv, bits_spec, i as int);
                }
                return Err(e);
            },
        };
        let ghost mid = *cs;
        proof {
            assert(mid.nval(curve_a) == av && mid.nval(curve_d) == dv);
            assert(base.vals(mid) == bv);
            assert(dbl.vals(mid) == eadd(av, dv, prev_pt, prev_pt));
        }
        let with_base = match add_point(cs, curve_a, curve_d, dbl, base) {
            Ok(pt) => pt,
            Err(e) => {
                proof {
                    assert(bits_spec.len() == 255);
                    assert(!add_ok(av, dv, eadd(av, dv, prev_pt, prev_pt), bv));
                    lemma_smul_ok_break(av, dv, bv, bits_spec, i as int);
                }
                return Err(e);
            },
        };
        let bit = bits[254 - i];
        let sel_x = select(cs, bit, with_base.x, dbl.x);
        let sel_y = select(cs, bit, with_base.y, dbl.y);
        proof {
            let cur = bits_spec.take(i + 1);
            assert(cur.drop_last() =~= bits_spec.take(i as int));
            assert(cur.last() == bits_spec[i as int]);
        }
        result = AllocatedPoint { x: sel_x, y: sel_y };
        i += 1;
    }
    proof {
        assert(bits_spec.take(255) =~= bits_spec);
    }
    Ok(result)
}

/// If the chain was fine for the first `i` bits and an addition of step `i`
/// degenerates, the whole chain is degenerate.
proof fn lemma_smul_ok_break(a: nat, d: nat, base: (nat, nat), bits: Seq<bool>, i: int)
    requires
        0 <= i < bits.len(),
        bits.len() == 255,
        smul_ok(a, d, base, bits.take(i)),
        ({
            let prev = smul(a, d, base, bits.take(i));
            let dbl = eadd(a, d, prev, prev);
            !(add_ok(a, d, prev, prev) && add_ok(a, d, dbl, base))
        }),
    ensures
        !smul_ok(a, d, base, bits),
    decreases bits.len() - i,
{
    if i == bits.len() - 1 {
        assert(bits.take(bits.len() as int) =~= bits);
        assert(bits.drop_last() =~= bits.take(i));
    } else {
        let j = i + 1;
        assert(bits.take(j).drop_last() =~= bits.take(i));
        if smul_ok(a, d, base, bits.take(j)) {
            assert(false);
        }
        lemma_smul_ok_not_extends(a, d, base, bits, j);
    }
}

/// A degenerate prefix makes every longer prefix degenerate.
proof fn lemma_smul_ok_not_extends(a: nat, d: nat, base: (nat, nat), bits: Seq<bool>, j: int)
    requires
        0 <= j <= bits.len(),
        !smul_ok(a, d, base, bits.take(j)),
    ensures
        !smul_ok(a, d, base, bits),
    decreases bits.len() - j,
{
    if j == bits.len() {
        assert(bits.take(j) =~= bits);
    } else {
        assert(bits.take(j + 1).drop_last() =~= bits.take(j));
        assert(!smul_ok(a, d, base, bits.take(j + 1)));
        lemma_smul_ok_not_extends(a, d, base, bits, j + 1);
    }
}

/// Multiplication by the cofactor eight: three in-circuit doublings.
pub fn mul_cofactor(
    cs: &mut R1cs,
    curve_a: Num,
    curve_d: Num,
    pt: AllocatedPoint,
) -> (r: Result<AllocatedPoint, CircuitError>)
    requires
        old(cs).ok(),
        curve_a.var < old(cs).nv(),
        curve_d.var < old(cs).nv(),
        pt.wf(*old(cs)),
    ensures
        final(cs).ok(),
        extends(*final(cs), *old(cs)),
        final(cs).sat() == old(cs).sat(),
        r is Ok <==> cof8_ok(old(cs).nval(curve_a), old(cs).nval(curve_d), pt.vals(*old(cs))),
        r is Ok ==> (r->Ok_0).wf(*final(cs)) && (r->Ok_0).vals(*final(cs)) == cof8(
            old(cs).nval(curve_a),
            old(cs).nval(curve_d),
            pt.vals(*old(cs)),
        ),
{
    let p2 = match add_point(cs, curve_a, curve_d, pt, pt) {
        Ok(q) => q,
        Err(e) => {
            return Err(e);
        },
    };
    let p4 = match add_point(cs, curve_a, curve_d, p2, p2) {
        Ok(q) => q,
        Err(e) => {
            return Err(e);
        },
    };
    let p8 = match add_point(cs, curve_a, curve_d, p4, p4) {
        Ok(q) => q,
        Err(e) => {
            return Err(e);
        },
    };
    Ok(p8)
}

/// A signature inside the circuit: the commitment point and the response
/// scalar.
pub struct WitnessSignature {
    pub r: AllocatedPoint,
    pub s: Num,
}

/// The hash of the verification equation: pairwise MiMC folding of the
/// commitment, the public key and the message.
pub open spec fn eddsa_hash(
    consts: Seq<nat>,
    rx: nat,
    ry: nat,
    px: nat,
    py: nat,
    msg: nat,
) -> nat {
    mimc_spec(mimc_spec(mimc_spec(rx, ry, consts), mimc_spec(px, py, consts), consts), msg, consts)
}

/// The signature equation on values: `[8](s B) == [8](R + h A)`.
pub open spec fn sig_ok(
    a: nat,
    d: nat,
    base: (nat, nat),
    consts: Seq<nat>,
    pk: (nat, nat),
    msg: nat,
    rr: (nat, nat),
    s: nat,
) -> bool {
    let h = eddsa_hash(consts, rr.0, rr.1, pk.0, pk.1, msg);
    let sb8 = cof8(a, d, smul(a, d, base, scalar_bits(s)));
    let rhs8 = cof8(a, d, eadd(a, d, smul(a, d, pk, scalar_bits(h)), rr));
    sb8 == rhs8
}

/// Every point addition on the verification path is non-degenerate.
pub open spec fn verify_ok(
    a: nat,
    d: nat,
    base: (nat, nat),
    consts: Seq<nat>,
    pk: (nat, nat),
    msg: nat,
    rr: (nat, nat),
    s: nat,
) -> bool {
    let h = eddsa_hash(consts, rr.0, rr.1, pk.0, pk.1, msg);
    let sb = smul(a, d, base, scalar_bits(s));
    let ha = smul(a, d, pk, scalar_bits(h));
    let rhs = eadd(a, d, ha, rr);
    smul_ok(a, d, base, scalar_bits(s)) && cof8_ok(a, d, sb) && smul_ok(a, d, pk, scalar_bits(h))
        && add_ok(a, d, ha, rr) && cof8_ok(a, d, rhs)
}

/// The EdDSA verification gadget: computes `h` with the MiMC gadget, forms
/// both sides of the signature equation in-circuit, and asserts their
/// equality under the `enabled` mask.  After a successful build the system
/// is satisfied exactly when it was before and either the mask is off or the
/// signature equation holds on the witnessed values.
#[verifier::rlimit(100)]
#[verifier::spinoff_prover]
pub fn verify(
    cs: &mut R1cs,
    enabled: Bit,
    curve_a: Num,
    curve_d: Num,
    base: AllocatedPoint,
    pk: AllocatedPoint,
    msg: Num,
    sig: WitnessSignature,
    mimc_params: &Vec<Fp>,
) -> (r: Result<(), CircuitError>)
    requires
        old(cs).ok(),
        enabled.var < old(cs).nv(),
        curve_a.var < old(cs).nv(),
        curve_d.var < old(cs).nv(),
        base.wf(*old(cs)),
        pk.wf(*old(cs)),
        msg.var < old(cs).nv(),
        sig.r.wf(*old(cs)),
        sig.s.var < old(cs).nv(),
        boolish(old(cs).bval(enabled)),
        fp_seq_wf(mimc_params@),
    ensures
        final(cs).ok(),
        extends(*final(cs), *old(cs)),
        r is Ok <==> verify_ok(
            old(cs).nval(curve_a),
            old(cs).nval(curve_d),
            base.vals(*old(cs)),
            fp_seq(mimc_params@),
            pk.vals(*old(cs)),
            old(cs).nval(msg),
            sig.r.vals(*old(cs)),
            old(cs).nval(sig.s),
        ),
        r is Ok ==> (final(cs).sat() <==> (old(cs).sat() && (old(cs).bval(enabled) == 0 || sig_ok(
            old(cs).nval(curve_a),
            old(cs).nval(curve_d),
            base.vals(*old(cs)),
            fp_seq(mimc_params@),
            pk.vals(*old(cs)),
            old(cs).nval(msg),
            sig.r.vals(*old(cs)),
            old(cs).nval(sig.s),
        )))),
        r is Err ==> final(cs).sat() == old(cs).sat(),
{
    let h_rr = mimc_gadget(cs, sig.r.x, sig.r.y, mimc_params);
    let h_pk = mimc_gadget(cs, pk.x, pk.y, mimc_params);
    let h_rr_pk = mimc_gadget(cs, h_rr, h_pk, mimc_params);
    let h = mimc_gadget(cs, h_rr_pk, msg, mimc_params);
    let sb = match mul_point(cs, curve_a, curve_d, base, sig.s) {
        Ok(q) => q,
        Err(e) => {
            return Err(e);
        },
    };
    let sb8 = match mul_cofactor(cs, curve_a, curve_d, sb) {
        Ok(q) => q,
        Err(e) => {
            return Err(e);
        },
    };
    let ha = match mul_point(cs, curve_a, curve_d, pk, h) {
        Ok(q) => q,
        Err(e) => {
            return Err(e);
        },
    };
    let rhs = match add_point(cs, curve_a, curve_d, ha, sig.r) {
        Ok(q) => q,
        Err(e) => {
            return Err(e);
        },
    };
    let rhs8 = match mul_cofactor(cs, curve_a, curve_d, rhs) {
        Ok(q) => q,
        Err(e) => {
            return Err(e);
        },
    };
    assert_equal(cs, enabled, rhs8.x, sb8.x);
    assert_equal(cs, enabled, rhs8.y, sb8.y);
    Ok(())
}

} // verus!
