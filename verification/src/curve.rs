//! Twisted-Edwards curve arithmetic out of circuit: the complete addition
//! formula over the field, scalar multiplication by double-and-add, and the
//! specification functions the in-circuit gadgets are proved against.  The
//! curve constants `a` and `d` are externally supplied parameters.

use vstd::prelude::*;
use crate::field::{
    Fp, p, fadd, fmul, fneg, fsub, field_inv, fp_add, fp_mul, fp_sub, fp_zero, fp_one, fp_invert,
    fp_bit, bit_of, lemma_fmul_one, lemma_fmul_comm, lemma_fmul_assoc, lemma_fadd_bound,
    lemma_pow2_consts,
};
use vstd::arithmetic::power2::pow2;

verus! {

/// An affine point: a pair of field values.
#[derive(Clone, Copy)]
pub struct PointAffine(pub Fp, pub Fp);

impl PointAffine {
    pub open spec fn xv(self) -> nat {
        self.0.val()
    }

    pub open spec fn yv(self) -> nat {
        self.1.val()
    }

    pub open spec fn wf(self) -> bool {
        self.0.wf() && self.1.wf()
    }
}

/// The curve constants of the twisted-Edwards equation
/// `a*x^2 + y^2 = 1 + d*x^2*y^2`.
#[derive(Clone, Copy)]
pub struct CurveParams {
    pub a: Fp,
    pub d: Fp,
}

impl CurveParams {
    pub open spec fn wf(self) -> bool {
        self.a.wf() && self.d.wf()
    }
}

/// The shared product `d*x1*x2*y1*y2` of the addition formula.
pub open spec fn e_common(d: nat, x1: nat, y1: nat, x2: nat, y2: nat) -> nat {
    fmul(fmul(fmul(fmul(d, x1), x2), y1), y2)
}

/// The denominators of the addition formula are non-zero.
pub open spec fn add_ok(a: nat, d: nat, p1: (nat, nat), p2: (nat, nat)) -> bool {
    let c = e_common(d, p1.0, p1.1, p2.0, p2.1);
    fadd(1, c) != 0 && fsub(1, c) != 0
}

/// The complete-formula sum, total thanks to the total inverse: degenerate
/// denominators give whatever `field_inv(0) = 0` gives.
pub open spec fn eadd(a: nat, d: nat, p1: (nat, nat), p2: (nat, nat)) -> (nat, nat) {
    let c = e_common(d, p1.0, p1.1, p2.0, p2.1);
    let x3 = fmul(fadd(fmul(p1.0, p2.1), fmul(p1.1, p2.0)), field_inv(fadd(1, c)));
    let y3 = fmul(fsub(fmul(p1.1, p2.1), fmul(fmul(a, p1.0), p2.0)), field_inv(fsub(1, c)));
    (x3, y3)
}

/// The scalar's bits in the order double-and-add consumes them: most
/// significant first.
pub open spec fn scalar_bits(v: nat) -> Seq<bool> {
    Seq::new(255, |i: int| bit_of(v, (254 - i) as nat))
}

/// Double-and-add from the identity `(0, 1)`: each step doubles, then adds
/// the base if the next bit is set.
pub open spec fn smul(a: nat, d: nat, base: (nat, nat), bits: Seq<bool>) -> (nat, nat)
    decreases bits.len(),
{
    if bits.len() == 0 {
        (0nat, 1nat)
    } else {
        let prev = smul(a, d, base, bits.drop_last());
        let dbl = eadd(a, d, prev, prev);
        if bits.last() {
            eadd(a, d, dbl, base)
        } else {
            dbl
        }
    }
}

/// Every addition on the double-and-add path has non-zero denominators; the
/// added point is computed at each step whether or not the bit is set.
pub open spec fn smul_ok(a: nat, d: nat, base: (nat, nat), bits: Seq<bool>) -> bool
    decreases bits.len(),
{
    if bits.len() == 0 {
        true
    } else {
        let prev = smul(a, d, base, bits.drop_last());
        let dbl = eadd(a, d, prev, prev);
        smul_ok(a, d, base, bits.drop_last()) && add_ok(a, d, prev, prev) && add_ok(
            a,
            d,
            dbl,
            base,
        )
    }
}

/// Multiplication by the cofactor eight: three doublings.
pub open spec fn cof8(a: nat, d: nat, pt: (nat, nat)) -> (nat, nat) {
    let p2 = eadd(a, d, pt, pt);
    let p4 = eadd(a, d, p2, p2);
    eadd(a, d, p4, p4)
}

/// All three doublings are non-degenerate.
pub open spec fn cof8_ok(a: nat, d: nat, pt: (nat, nat)) -> bool {
    let p2 = eadd(a, d, pt, pt);
    let p4 = eadd(a, d, p2, p2);
    add_ok(a, d, pt, pt) && add_ok(a, d, p2, p2) && add_ok(a, d, p4, p4)
}

/// Out-of-circuit point addition with the complete formula.
pub fn point_add(params: &CurveParams, p1: &PointAffine, p2: &PointAffine) -> (r: PointAffine)
    requires
        params.wf(),
        p1.wf(),
        p2.wf(),
    ensures
        r.wf(),
        r.xv() == eadd(params.a.val(), params.d.val(), (p1.xv(), p1.yv()), (p2.xv(), p2.yv())).0,
        r.yv() == eadd(params.a.val(), params.d.val(), (p1.xv(), p1.yv()), (p2.xv(), p2.yv())).1,
{
    let common = fp_mul(fp_mul(fp_mul(fp_mul(params.d, p1.0), p2.0), p1.1), p2.1);
    let den_x = fp_add(fp_one(), common);
    let den_y = fp_sub(fp_one(), common);
    let num_x = fp_add(fp_mul(p1.0, p2.1), fp_mul(p1.1, p2.0));
    let num_y = fp_sub(fp_mul(p1.1, p2.1), fp_mul(fp_mul(params.a, p1.0), p2.0));
    let x3 = fp_mul(num_x, fp_invert(den_x));
    let y3 = fp_mul(num_y, fp_invert(den_y));
    PointAffine(x3, y3)
}

/// Out-of-circuit double-and-add scalar multiplication over the scalar's 255
/// bits, most significant first.
pub fn point_mul(params: &CurveParams, base: &PointAffine, scalar: &Fp) -> (r: PointAffine)
    requires
        params.wf(),
        base.wf(),
        scalar.wf(),
    ensures
        r.wf(),
        (r.xv(), r.yv()) == smul(
            params.a.val(),
            params.d.val(),
            (base.xv(), base.yv()),
            scalar_bits(scalar.val()),
        ),
{
    let mut acc = PointAffine(fp_zero(), fp_one());
    let ghost av = params.a.val();
    let ghost dv = params.d.val();
    let ghost bv = (base.xv(), base.yv());
    let ghost bits = scalar_bits(scalar.val());
    proof {
        assert(bits.take(0) =~= Seq::<bool>::empty());
    }
    let mut i: usize = 0;
    while i < 255
        invariant
            i <= 255,
            params.wf(),
            base.wf(),
            scalar.wf(),
            acc.wf(),
            av == params.a.val(),
            dv == params.d.val(),
            bv == (base.xv(), base.yv()),
            bits == scalar_bits(scalar.val()),
            (acc.xv(), acc.yv()) == smul(av, dv, bv, bits.take(i as int)),
        decreases 255 - i,
    {
        let dbl = point_add(params, &acc, &acc);
        let with_base = point_add(params, &dbl, base);
        let bit = fp_bit(scalar, 254 - i);
        proof {
            let pre = bits.take(i as int);
            let cur = bits.take(i + 1);
            assert(cur.drop_last() =~= pre);
            assert(cur.last() == bits[i as int]);
            assert(bits[i as int] == bit_of(scalar.val(), (254 - i) as nat));
        }
        if bit {
            acc = with_base;
        } else {
            acc = dbl;
        }
        i += 1;
    }
    proof {
        assert(bits.take(255) =~= bits);
    }
    acc
}

/// Out-of-circuit cofactor clearing: three doublings.
pub fn point_mul_cofactor(params: &CurveParams, pt: &PointAffine) -> (r: PointAffine)
    requires
        params.wf(),
        pt.wf(),
    ensures
        r.wf(),
        (r.xv(), r.yv()) == cof8(params.a.val(), params.d.val(), (pt.xv(), pt.yv())),
{
    let p2 = point_add(params, pt, pt);
    let p4 = point_add(params, &p2, &p2);
    point_add(params, &p4, &p4)
}

/// Adding the identity `(0, 1)` leaves a point unchanged, even through the
/// total addition formula.
pub proof fn lemma_eadd_identity(a: nat, d: nat, q: (nat, nat))
    requires
        q.0 < p(),
        q.1 < p(),
    ensures
        eadd(a, d, q, (0nat, 1nat)) == q,
{
    crate::field::lemma_fmul_zero(fmul(d, q.0));
    crate::field::lemma_fmul_zero(q.1);
    crate::field::lemma_fmul_comm(0, q.1);
    crate::field::lemma_fmul_zero(fmul(fmul(d, q.0), 0));
    assert(e_common(d, q.0, q.1, 0, 1) == fmul(fmul(fmul(fmul(d, q.0), 0), q.1), 1));
    assert(fmul(fmul(d, q.0), 0) == 0);
    assert(fmul(0, q.1) == 0);
    crate::field::lemma_fmul_zero(1);
    crate::field::lemma_fmul_comm(0, 1);
    assert(e_common(d, q.0, q.1, 0, 1) == 0);
    crate::field::lemma_fadd_small(1, 0);
    assert(fadd(1, 0) == 1);
    assert(fneg(0) == 0) by {
        reveal(fneg);
        vstd::arithmetic::div_mod::lemma_small_mod(0, p());
        vstd::arithmetic::div_mod::lemma_mod_self_0(p() as int);
    }
    assert(fsub(1, 0) == 1);
    lemma_fmul_one(1);
    crate::field::lemma_inv_unique(1, 1);
    assert(field_inv(1) == 1);
    lemma_fmul_one(q.0);
    lemma_fmul_one(q.1);
    crate::field::lemma_fmul_zero(q.1);
    crate::field::lemma_fmul_zero(fmul(a, q.0));
    crate::field::lemma_fmul_zero(a);
    assert(fmul(q.1, 0) == 0);
    crate::field::lemma_fadd_small(q.0, 0);
    assert(fadd(fmul(q.0, 1), fmul(q.1, 0)) == q.0);
    assert(fmul(fmul(a, q.0), 0) == 0);
    assert(fsub(fmul(q.1, 1), 0) == q.1) by {
        crate::field::lemma_fadd_small(q.1, 0);
    }
    assert(eadd(a, d, q, (0nat, 1nat)).0 == fmul(q.0, 1));
    assert(eadd(a, d, q, (0nat, 1nat)).1 == fmul(q.1, 1));
}

} // verus!
