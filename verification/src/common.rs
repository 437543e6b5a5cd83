//! The primitive gadgets every circuit is assembled from: boolean wires and
//! their connectives, zero and equality tests, fixed-width bit decomposition,
//! 64-bit sums and comparison, and the maskable equality assertion.
//!
//! Every gadget allocates its own witnesses with the correct values, so it
//! keeps the system satisfied; `assert_equal` is the one gadget whose
//! constraints can fail, and its contract says exactly when.

use vstd::prelude::*;
use vstd::arithmetic::power2::*;
use vstd::arithmetic::div_mod::*;
use vstd::arithmetic::mul::*;
use crate::field::{
    Fp, p, fadd, fmul, fneg, fsub, field_inv, fp_add, fp_mul, fp_neg, fp_sub, fp_zero, fp_one,
    fp_from_u64, fp_invert, fp_bit, bit_of, bits_val, lemma_pow2_consts, lemma_val_inj,
    lemma_bits_val, lemma_fneg_mul, lemma_fneg_one, lemma_fneg_bound, lemma_fmul_zero,
    lemma_fsub_zero_iff, lemma_fsub_small, lemma_fmul_one, lemma_fmul_comm, lemma_fmul_assoc,
    lemma_fadd_small, lemma_fmul_small, lemma_fadd_bound, lemma_val_zero,
};
use crate::cs::{
    Num, Bit, Lc, Constraint, R1cs, terms_val, lc_val, lc_wf, constraint_wf, constraint_sat,
    extends, lemma_terms_val_extend, lemma_constraint_sat_extend,
};

verus! {

/// A value a boolean wire may hold.
pub open spec fn boolish(v: nat) -> bool {
    v == 0 || v == 1
}

/// The weighted sum of one term.
pub proof fn lemma_terms_val1(ts: Seq<(Fp, usize)>, vals: Seq<Fp>)
    requires
        ts.len() == 1,
    ensures
        terms_val(ts, vals) == ts[0].0.val() * vals[ts[0].1 as int].val(),
{
    assert(ts.drop_last() =~= Seq::<(Fp, usize)>::empty());
    assert(ts.last() == ts[0]);
    assert(terms_val(Seq::<(Fp, usize)>::empty(), vals) == 0);
}

/// The weighted sum of two terms.
pub proof fn lemma_terms_val2(ts: Seq<(Fp, usize)>, vals: Seq<Fp>)
    requires
        ts.len() == 2,
    ensures
        terms_val(ts, vals) == ts[0].0.val() * vals[ts[0].1 as int].val() + ts[1].0.val()
            * vals[ts[1].1 as int].val(),
{
    assert(ts.drop_last() =~= ts.subrange(0, 1));
    lemma_terms_val1(ts.drop_last(), vals);
}

/// The value of a constant combination.
pub proof fn lemma_lc_val_const(lc: Lc, vals: Seq<Fp>)
    requires
        lc.terms@.len() == 0,
        lc.constant.wf(),
    ensures
        lc_val(lc, vals) == lc.constant.val(),
{
    lemma_small_mod(lc.constant.val(), p());
}

/// The value of a one-term affine combination.
pub proof fn lemma_lc_val_affine1(lc: Lc, vals: Seq<Fp>)
    requires
        lc.terms@.len() == 1,
        lc.constant.wf(),
        0 <= lc.terms@[0].1 < vals.len(),
    ensures
        lc_val(lc, vals) == fadd(
            fmul(lc.terms@[0].0.val(), vals[lc.terms@[0].1 as int].val()),
            lc.constant.val(),
        ),
{
    reveal(fadd); reveal(fmul);
    lemma_terms_val1(lc.terms@, vals);
    let t = lc.terms@[0].0.val() * vals[lc.terms@[0].1 as int].val();
    let k = lc.constant.val();
    lemma_add_mod_noop(t as int, k as int, p() as int);
    lemma_small_mod(k, p());
    lemma_mod_twice((t + k) as int, p() as int);
    assert(fadd(fmul(lc.terms@[0].0.val(), vals[lc.terms@[0].1 as int].val()), k) == (t % p() + k
        % p()) % p());
}

/// The value of a two-term affine combination.
pub proof fn lemma_lc_val_affine2(lc: Lc, vals: Seq<Fp>)
    requires
        lc.terms@.len() == 2,
        lc.constant.wf(),
        0 <= lc.terms@[0].1 < vals.len(),
        0 <= lc.terms@[1].1 < vals.len(),
    ensures
        lc_val(lc, vals) == fadd(
            fadd(
                fmul(lc.terms@[0].0.val(), vals[lc.terms@[0].1 as int].val()),
                fmul(lc.terms@[1].0.val(), vals[lc.terms@[1].1 as int].val()),
            ),
            lc.constant.val(),
        ),
{
    reveal(fadd); reveal(fmul);
    lemma_terms_val2(lc.terms@, vals);
    let t0 = lc.terms@[0].0.val() * vals[lc.terms@[0].1 as int].val();
    let t1 = lc.terms@[1].0.val() * vals[lc.terms@[1].1 as int].val();
    let k = lc.constant.val();
    lemma_add_mod_noop(t0 as int, t1 as int, p() as int);
    lemma_add_mod_noop((t0 + t1) as int, k as int, p() as int);
    lemma_small_mod(k, p());
    lemma_mod_twice((t0 + t1) as int, p() as int);
    lemma_add_mod_noop(((t0 + t1) % p()) as int, k as int, p() as int);
    lemma_mod_twice(((t0 % p() + t1 % p()) % p()) as int, p() as int);
    assert(lc_val(lc, vals) == ((t0 + t1) + k) % p());
    assert(fadd(fadd(fmul(lc.terms@[0].0.val(), vals[lc.terms@[0].1 as int].val()), fmul(lc.terms@[1].0.val(), vals[lc.terms@[1].1 as int].val())), k)
        == (((t0 % p() + t1 % p()) % p()) + k % p()) % p());
}

/// Negation of zero is zero.
pub proof fn lemma_fneg_zero()
    ensures
        fneg(0) == 0,
{
    reveal(fneg);
    lemma_small_mod(0, p());
    lemma_mod_self_0(p() as int);
}

/// Builds a one-wire combination with unit coefficient.
pub(crate) fn lc_var(w: usize) -> (r: Lc)
    ensures
        r.terms@.len() == 1,
        r.terms@[0].0.val() == 1,
        r.terms@[0].0.wf(),
        r.terms@[0].1 == w,
        r.constant.val() == 0,
        r.constant.wf(),
{
    let mut t: Vec<(Fp, usize)> = Vec::new();
    t.push((fp_one(), w));
    Lc { terms: t, constant: fp_zero() }
}

/// Builds a combination with no terms.
pub(crate) fn lc_const(k: Fp) -> (r: Lc)
    ensures
        r.terms@.len() == 0,
        r.constant == k,
{
    Lc { terms: Vec::new(), constant: k }
}

/// Builds `k + c0 * w0`.
pub(crate) fn lc_affine1(k: Fp, c0: Fp, w0: usize) -> (r: Lc)
    ensures
        r.terms@.len() == 1,
        r.terms@[0].0 == c0,
        r.terms@[0].1 == w0,
        r.constant == k,
{
    let mut t: Vec<(Fp, usize)> = Vec::new();
    t.push((c0, w0));
    Lc { terms: t, constant: k }
}

/// Builds `k + c0 * w0 + c1 * w1`.
pub(crate) fn lc_affine2(k: Fp, c0: Fp, w0: usize, c1: Fp, w1: usize) -> (r: Lc)
    ensures
        r.terms@.len() == 2,
        r.terms@[0].0 == c0,
        r.terms@[0].1 == w0,
        r.terms@[1].0 == c1,
        r.terms@[1].1 == w1,
        r.constant == k,
{
    let mut t: Vec<(Fp, usize)> = Vec::new();
    t.push((c0, w0));
    t.push((c1, w1));
    Lc { terms: t, constant: k }
}

/// Allocates a wire holding 0 or 1 and adds the constraint
/// `(1 - out) * out = 0` that pins it to those two values.
pub fn alloc_bit(cs: &mut R1cs, b: bool) -> (r: Bit)
    requires
        old(cs).ok(),
    ensures
        final(cs).ok(),
        extends(*final(cs), *old(cs)),
        final(cs).sat() == old(cs).sat(),
        r.var < final(cs).nv(),
        final(cs).bval(r) == (if b {
            1nat
        } else {
            0nat
        }),
{
    let v = if b {
        fp_one()
    } else {
        fp_zero()
    };
    proof {
        lemma_pow2_consts();
    }
    let w = cs.allocate(v);
    let neg_one = fp_neg(fp_one());
    let l = lc_affine1(fp_one(), neg_one, w.var);
    let rr = lc_var(w.var);
    let o = lc_const(fp_zero());
    let c = Constraint { a: l, b: rr, c: o };
    proof {
        let vals = cs.vals@;
        let vv = if b {
            1nat
        } else {
            0nat
        };
        reveal(fadd);
        lemma_fneg_one();
        lemma_lc_val_affine1(c.a, vals);
        lemma_lc_val_affine1(c.b, vals);
        lemma_lc_val_const(c.c, vals);
        lemma_fneg_mul(1, vv);
        lemma_fmul_one(vv);
        lemma_fmul_comm(1, vv);
        lemma_fneg_zero();
        lemma_small_mod(1, p());
        lemma_small_mod(0, p());
        lemma_mod_self_0(p() as int);
        assert(lc_val(c.b, vals) == fadd(fmul(1, vv), 0));
        assert(fadd(vv, 0) == vv) by {
            lemma_small_mod(vv, p());
        }
        if b {
            assert(lc_val(c.a, vals) == fadd(fneg(1), 1));
            assert(fadd((p() - 1) as nat, 1) == 0);
            lemma_fmul_zero(1);
        } else {
            assert(lc_val(c.a, vals) == fadd(0, 1));
            lemma_fmul_zero(1);
            lemma_fmul_comm(1, 0);
        }
        assert(constraint_sat(c, vals));
    }
    cs.enforce(c);
    Bit { var: w.var }
}

/// Disjunction of two boolean wires: one constraint
/// `(1 - a) * (1 - b) = 1 - r`.
pub fn bit_or(cs: &mut R1cs, a: Bit, b: Bit) -> (r: Bit)
    requires
        old(cs).ok(),
        a.var < old(cs).nv(),
        b.var < old(cs).nv(),
        boolish(old(cs).bval(a)),
        boolish(old(cs).bval(b)),
    ensures
        final(cs).ok(),
        extends(*final(cs), *old(cs)),
        final(cs).sat() == old(cs).sat(),
        r.var < final(cs).nv(),
        boolish(final(cs).bval(r)),
        final(cs).bval(r) == (if old(cs).bval(a) == 1 || old(cs).bval(b) == 1 {
            1nat
        } else {
            0nat
        }),
{
    let av = cs.value_of(a.var);
    let bv = cs.value_of(b.var);
    let one = fp_one();
    let set = (av.l0 == 1 && av.l1 == 0 && av.l2 == 0 && av.l3 == 0) || (bv.l0 == 1 && bv.l1 == 0
        && bv.l2 == 0 && bv.l3 == 0);
    proof {
        lemma_pow2_consts();
        if old(cs).bval(a) == 1 {
            lemma_val_inj(av, one);
        }
        if old(cs).bval(b) == 1 {
            lemma_val_inj(bv, one);
        }
    }
    let out = alloc_bit(cs, set);
    let neg_one = fp_neg(fp_one());
    let c = Constraint {
        a: lc_affine1(fp_one(), neg_one, a.var),
        b: lc_affine1(fp_one(), neg_one, b.var),
        c: lc_affine1(fp_one(), neg_one, out.var),
    };
    proof {
        let vals = cs.vals@;
        let va = old(cs).bval(a);
        let vb = old(cs).bval(b);
        let vr = cs.bval(out);
        lemma_fneg_one();
        lemma_lc_val_affine1(c.a, vals);
        lemma_lc_val_affine1(c.b, vals);
        lemma_lc_val_affine1(c.c, vals);
        lemma_one_minus_bool(va);
        lemma_one_minus_bool(vb);
        lemma_one_minus_bool(vr);
        lemma_fmul_zero(0);
        lemma_fmul_zero(1);
        lemma_fmul_one(1);
        assert(constraint_sat(c, vals));
    }
    cs.enforce(c);
    out
}

/// For a boolean value `v`, the combination `1 - v` evaluates to the flipped
/// bit.
proof fn lemma_one_minus_bool(v: nat)
    requires
        boolish(v),
    ensures
        fadd(fmul(fneg(1), v), 1) == (if v == 1 {
            0nat
        } else {
            1nat
        }),
{
    reveal(fadd);
    lemma_pow2_consts();
    lemma_fneg_one();
    lemma_fneg_mul(1, v);
    lemma_fmul_one(v);
    lemma_fmul_comm(1, v);
    if v == 1 {
        lemma_mod_self_0(p() as int);
    } else {
        lemma_fneg_zero();
        lemma_small_mod(1, p());
    }
}

/// Strictly-less on boolean wires: `r = (1 - a) * b`.
pub fn bit_lt(cs: &mut R1cs, a: Bit, b: Bit) -> (r: Bit)
    requires
        old(cs).ok(),
        a.var < old(cs).nv(),
        b.var < old(cs).nv(),
        boolish(old(cs).bval(a)),
        boolish(old(cs).bval(b)),
    ensures
        final(cs).ok(),
        extends(*final(cs), *old(cs)),
        final(cs).sat() == old(cs).sat(),
        r.var < final(cs).nv(),
        boolish(final(cs).bval(r)),
        final(cs).bval(r) == (if old(cs).bval(a) == 0 && old(cs).bval(b) == 1 {
            1nat
        } else {
            0nat
        }),
{
    let av = cs.value_of(a.var);
    let bv = cs.value_of(b.var);
    let one = fp_one();
    let set = !(av.l0 == 1 && av.l1 == 0 && av.l2 == 0 && av.l3 == 0) && (bv.l0 == 1 && bv.l1 == 0
        && bv.l2 == 0 && bv.l3 == 0);
    proof {
        lemma_pow2_consts();
        if old(cs).bval(a) == 1 {
            lemma_val_inj(av, one);
        }
        if old(cs).bval(b) == 1 {
            lemma_val_inj(bv, one);
        }
        if av.l0 == 1 && av.l1 == 0 && av.l2 == 0 && av.l3 == 0 {
            assert(old(cs).bval(a) == 1);
        }
        if bv.l0 == 1 && bv.l1 == 0 && bv.l2 == 0 && bv.l3 == 0 {
            assert(old(cs).bval(b) == 1);
        }
    }
    let out = alloc_bit(cs, set);
    let neg_one = fp_neg(fp_one());
    let c = Constraint {
        a: lc_affine1(fp_one(), neg_one, a.var),
        b: lc_var(b.var),
        c: lc_var(out.var),
    };
    proof {
        let vals = cs.vals@;
        let va = old(cs).bval(a);
        let vb = old(cs).bval(b);
        let vr = cs.bval(out);
        lemma_fneg_one();
        lemma_lc_val_affine1(c.a, vals);
        lemma_lc_val_affine1(c.b, vals);
        lemma_lc_val_affine1(c.c, vals);
        lemma_one_minus_bool(va);
        lemma_unit_term(vb);
        lemma_unit_term(vr);
        lemma_fmul_zero(0);
        lemma_fmul_zero(1);
        lemma_fmul_one(1);
        assert(constraint_sat(c, vals));
    }
    cs.enforce(c);
    out
}

/// A unit-coefficient term with no constant evaluates to the wire value.
pub(crate) proof fn lemma_unit_term(v: nat)
    requires
        v < p(),
    ensures
        fadd(fmul(1, v), 0) == v,
{
    reveal(fadd);
    lemma_fmul_one(v);
    lemma_fmul_comm(1, v);
    lemma_small_mod(v, p());
}

/// Zero test: `r` is 1 exactly when the wire holds zero, in two constraints
/// over a claimed inverse.
#[verifier::rlimit(100)]
pub fn is_zero(cs: &mut R1cs, a: Num) -> (r: Bit)
    requires
        old(cs).ok(),
        a.var < old(cs).nv(),
    ensures
        final(cs).ok(),
        extends(*final(cs), *old(cs)),
        final(cs).sat() == old(cs).sat(),
        r.var < final(cs).nv(),
        boolish(final(cs).bval(r)),
        final(cs).bval(r) == (if old(cs).nval(a) == 0 {
            1nat
        } else {
            0nat
        }),
{
    let av = cs.value_of(a.var);
    let zero = fp_zero();
    let a_is_zero = av.l0 == 0 && av.l1 == 0 && av.l2 == 0 && av.l3 == 0;
    proof {
        lemma_pow2_consts();
        if old(cs).nval(a) == 0 {
            lemma_val_inj(av, zero);
        }
        if a_is_zero {
            assert(av.val() == 0);
        }
        assert(a_is_zero == (old(cs).nval(a) == 0));
    }
    let out = alloc_bit(cs, a_is_zero);
    let inv = fp_invert(av);
    is_zero_constrain(cs, a, out, inv);
    out
}

/// Adds the two zero-test constraints around an already-allocated output bit
/// and claimed inverse.
fn is_zero_constrain(cs: &mut R1cs, a: Num, out: Bit, inv: Fp)
    requires
        old(cs).ok(),
        a.var < old(cs).nv(),
        out.var < old(cs).nv(),
        inv.wf(),
        old(cs).nval(a) == 0 ==> old(cs).bval(out) == 1 && inv.val() == 0,
        old(cs).nval(a) != 0 ==> old(cs).bval(out) == 0 && fmul(old(cs).nval(a), inv.val()) == 1,
    ensures
        final(cs).ok(),
        extends(*final(cs), *old(cs)),
        final(cs).sat() == old(cs).sat(),
{
    let inv_w = cs.allocate(inv);
    let neg_one = fp_neg(fp_one());
    proof {
        lemma_fneg_one();
    }
    let c1 = Constraint {
        a: lc_affine1(fp_zero(), neg_one, a.var),
        b: lc_var(inv_w.var),
        c: lc_affine1(neg_one, fp_one(), out.var),
    };
    proof {
        lemma_is_zero_constraint1(old(cs).nval(a), inv.val(), old(cs).bval(out), c1, cs.vals@);
    }
    cs.enforce(c1);
    let c2 = Constraint { a: lc_var(out.var), b: lc_var(a.var), c: lc_const(fp_zero()) };
    proof {
        lemma_is_zero_constraint2(old(cs).nval(a), old(cs).bval(out), c2, cs.vals@);
    }
    cs.enforce(c2);
}

/// The second zero-test constraint `out * a = 0` holds of the witnesses the
/// gadget assigns.
proof fn lemma_is_zero_constraint2(va: nat, vo: nat, c: Constraint, vals: Seq<Fp>)
    requires
        va < p(),
        vo < p(),
        c.a.terms@.len() == 1,
        c.a.terms@[0].0.val() == 1,
        c.a.constant.val() == 0,
        c.a.constant.wf(),
        0 <= c.a.terms@[0].1 < vals.len(),
        vals[c.a.terms@[0].1 as int].val() == vo,
        c.b.terms@.len() == 1,
        c.b.terms@[0].0.val() == 1,
        c.b.constant.val() == 0,
        c.b.constant.wf(),
        0 <= c.b.terms@[0].1 < vals.len(),
        vals[c.b.terms@[0].1 as int].val() == va,
        c.c.terms@.len() == 0,
        c.c.constant.val() == 0,
        c.c.constant.wf(),
        va == 0 || vo == 0,
    ensures
        constraint_sat(c, vals),
{
    lemma_lc_val_affine1(c.a, vals);
    lemma_lc_val_affine1(c.b, vals);
    lemma_lc_val_const(c.c, vals);
    lemma_unit_term(vo);
    lemma_unit_term(va);
    if va == 0 {
        lemma_fmul_zero(vo);
    } else {
        lemma_fmul_zero(va);
    }
}

/// The first zero-test constraint `(-a) * inv = out - 1` holds of the
/// witnesses the gadget assigns.
proof fn lemma_is_zero_constraint1(va: nat, vi: nat, vo: nat, c: Constraint, vals: Seq<Fp>)
    requires
        va < p(),
        vi < p(),
        c.a.terms@.len() == 1,
        c.a.terms@[0].0.val() == p() - 1,
        c.a.constant.val() == 0,
        c.a.constant.wf(),
        0 <= c.a.terms@[0].1 < vals.len(),
        vals[c.a.terms@[0].1 as int].val() == va,
        c.b.terms@.len() == 1,
        c.b.terms@[0].0.val() == 1,
        c.b.constant.val() == 0,
        c.b.constant.wf(),
        0 <= c.b.terms@[0].1 < vals.len(),
        vals[c.b.terms@[0].1 as int].val() == vi,
        c.c.terms@.len() == 1,
        c.c.terms@[0].0.val() == 1,
        c.c.constant.val() == p() - 1,
        c.c.constant.wf(),
        0 <= c.c.terms@[0].1 < vals.len(),
        vals[c.c.terms@[0].1 as int].val() == vo,
        va == 0 ==> vo == 1 && vi == 0,
        va != 0 ==> vo == 0 && fmul(va, vi) == 1,
    ensures
        constraint_sat(c, vals),
{
    reveal(fadd);
    lemma_pow2_consts();
    lemma_fneg_one();
    lemma_lc_val_affine1(c.a, vals);
    lemma_lc_val_affine1(c.b, vals);
    lemma_lc_val_affine1(c.c, vals);
    lemma_fneg_mul(1, va);
    lemma_fmul_one(va);
    lemma_fmul_comm(1, va);
    lemma_fneg_bound(va);
    assert(fmul(fneg(1), va) == fneg(va));
    lemma_small_mod(fneg(va), p());
    assert(lc_val(c.a, vals) == fneg(va)) by {
        lemma_small_mod(fneg(va), p());
        assert(fadd(fneg(va), 0) == fneg(va) % p());
    }
    lemma_unit_term(vi);
    assert(lc_val(c.b, vals) == vi);
    lemma_fmul_one(vo);
    lemma_fmul_comm(1, vo);
    assert(lc_val(c.c, vals) == fadd(vo, (p() - 1) as nat));
    if va == 0 {
        lemma_fneg_zero();
        lemma_fmul_zero(vi);
        lemma_mod_self_0(p() as int);
        assert(lc_val(c.c, vals) == 0);
        assert(fmul(lc_val(c.a, vals), lc_val(c.b, vals)) == 0);
    } else {
        lemma_fneg_mul(va, vi);
        lemma_small_mod(va, p());
        assert(fmul(fneg(va), vi) == fneg(fmul(va, vi)));
        assert(fmul(fneg(va), vi) == fneg(1));
        assert(lc_val(c.c, vals) == fadd(0, (p() - 1) as nat));
        lemma_small_mod((p() - 1) as nat, p());
        assert(lc_val(c.c, vals) == p() - 1);
    }
}

/// Equality test: `r` is 1 exactly when the two wires hold the same value.
pub fn is_equal(cs: &mut R1cs, a: Num, b: Num) -> (r: Bit)
    requires
        old(cs).ok(),
        a.var < old(cs).nv(),
        b.var < old(cs).nv(),
    ensures
        final(cs).ok(),
        extends(*final(cs), *old(cs)),
        final(cs).sat() == old(cs).sat(),
        r.var < final(cs).nv(),
        boolish(final(cs).bval(r)),
        final(cs).bval(r) == (if old(cs).nval(a) == old(cs).nval(b) {
            1nat
        } else {
            0nat
        }),
{
    let av = cs.value_of(a.var);
    let bv = cs.value_of(b.var);
    let diff = fp_sub(av, bv);
    proof {
        lemma_fsub_zero_iff(av.val(), bv.val());
    }
    let diff_w = cs.allocate(diff);
    let r = is_zero(cs, diff_w);
    let c = Constraint {
        a: lc_affine2(fp_zero(), fp_one(), a.var, fp_neg(fp_one()), b.var),
        b: lc_const(fp_one()),
        c: lc_var(diff_w.var),
    };
    proof {
        let vals = cs.vals@;
        let va = old(cs).nval(a);
        let vb = old(cs).nval(b);
        reveal(fadd);
        lemma_fneg_one();
        lemma_lc_val_affine2(c.a, vals);
        lemma_lc_val_const(c.b, vals);
        lemma_lc_val_affine1(c.c, vals);
        lemma_fmul_one(va);
        lemma_fmul_comm(1, va);
        lemma_fneg_mul(1, vb);
        lemma_fmul_one(vb);
        lemma_fmul_comm(1, vb);
        assert(fadd(fmul(1, va), fmul(fneg(1), vb)) == fsub(va, vb)) by {
            lemma_fneg_bound(vb);
            lemma_small_mod(fneg(vb), p());
        }
        assert(lc_val(c.a, vals) == fadd(fsub(va, vb), 0));
        lemma_small_mod(fsub(va, vb), p());
        assert(lc_val(c.a, vals) == fsub(va, vb));
        lemma_unit_term(diff.val());
        assert(lc_val(c.c, vals) == diff.val());
        lemma_fmul_one(fsub(va, vb));
        assert(constraint_sat(c, vals));
    }
    cs.enforce(c);
    r
}

/// Maskable equality: when the boolean wire `enabled` holds 1 the two
/// constraints force `a == b`; when it holds 0 they hold vacuously.  The
/// contract captures exactly that: the system stays satisfied if and only if
/// it was and the check passes.
#[verifier::rlimit(100)]
pub fn assert_equal(cs: &mut R1cs, enabled: Bit, a: Num, b: Num)
    requires
        old(cs).ok(),
        enabled.var < old(cs).nv(),
        a.var < old(cs).nv(),
        b.var < old(cs).nv(),
        boolish(old(cs).bval(enabled)),
    ensures
        final(cs).ok(),
        extends(*final(cs), *old(cs)),
        final(cs).sat() == (old(cs).sat() && (old(cs).bval(enabled) == 0 || old(cs).nval(a)
            == old(cs).nval(b))),
{
    let ev = cs.value_of(enabled.var);
    let av = cs.value_of(a.var);
    let one = fp_one();
    let e_set = ev.l0 == 1 && ev.l1 == 0 && ev.l2 == 0 && ev.l3 == 0;
    proof {
        lemma_pow2_consts();
        if old(cs).bval(enabled) == 1 {
            lemma_val_inj(ev, one);
        }
        if e_set {
            assert(old(cs).bval(enabled) == 1);
        }
    }
    let t = if e_set {
        av
    } else {
        fp_zero()
    };
    let t_w = cs.allocate(t);
    let c1 = Constraint { a: lc_var(enabled.var), b: lc_var(a.var), c: lc_var(t_w.var) };
    proof {
        let vals = cs.vals@;
        let ve = old(cs).bval(enabled);
        let va = old(cs).nval(a);
        lemma_lc_val_affine1(c1.a, vals);
        lemma_lc_val_affine1(c1.b, vals);
        lemma_lc_val_affine1(c1.c, vals);
        lemma_unit_term(ve);
        lemma_unit_term(va);
        lemma_unit_term(t.val());
        if ve == 1 {
            lemma_fmul_one(va);
            lemma_fmul_comm(1, va);
        } else {
            lemma_fmul_zero(va);
        }
        assert(constraint_sat(c1, vals));
    }
    cs.enforce(c1);
    let c2 = Constraint { a: lc_var(enabled.var), b: lc_var(b.var), c: lc_var(t_w.var) };
    proof {
        let vals = cs.vals@;
        let ve = old(cs).bval(enabled);
        let va = old(cs).nval(a);
        let vb = old(cs).nval(b);
        lemma_lc_val_affine1(c2.a, vals);
        lemma_lc_val_affine1(c2.b, vals);
        lemma_lc_val_affine1(c2.c, vals);
        lemma_unit_term(ve);
        lemma_unit_term(vb);
        lemma_unit_term(t.val());
        if ve == 1 {
            lemma_fmul_one(vb);
            lemma_fmul_comm(1, vb);
            assert(constraint_sat(c2, vals) == (va == vb));
        } else {
            lemma_fmul_zero(vb);
            assert(constraint_sat(c2, vals));
        }
    }
    cs.enforce(c2);
}


/// The power of two as a field constant.
pub fn fp_pow2(n: usize) -> (r: Fp)
    requires
        n <= 254,
    ensures
        r.wf(),
        r.val() == pow2(n as nat),
{
    let mut c = fp_one();
    let mut i: usize = 0;
    proof {
        lemma2_to64();
    }
    while i < n
        invariant
            i <= n <= 254,
            c.wf(),
            c.val() == pow2(i as nat),
        decreases n - i,
    {
        proof {
            lemma_pow2_adds(i as nat, 1);
            lemma2_to64();
            lemma_pow2_consts();
            if i + 1 < 254 {
                lemma_pow2_strictly_increases((i + 1) as nat, 254);
            }
            assert(pow2((i + 1) as nat) == pow2(i as nat) * 2);
            assert(pow2((i + 1) as nat) < p());
            lemma_fadd_small(c.val(), c.val());
        }
        c = fp_add(c, c);
        i += 1;
    }
    c
}

/// The value a sequence of boolean wires spells, little-endian weighted.
pub open spec fn bitvec_val(vals: Seq<Fp>, bits: Seq<Bit>) -> nat
    decreases bits.len(),
{
    if bits.len() == 0 {
        0
    } else {
        bitvec_val(vals, bits.drop_last()) + vals[bits.last().var as int].val() * pow2(
            (bits.len() - 1) as nat,
        )
    }
}

/// Bit-vector values ignore wires appended later.
pub proof fn lemma_bitvec_val_extend(bits: Seq<Bit>, n: nat, vals1: Seq<Fp>, vals2: Seq<Fp>)
    requires
        forall|i: int| 0 <= i < bits.len() ==> (#[trigger] bits[i]).var < n,
        n <= vals1.len(),
        vals1.len() <= vals2.len(),
        forall|i: int| 0 <= i < vals1.len() ==> vals1[i] == vals2[i],
    ensures
        bitvec_val(vals1, bits) == bitvec_val(vals2, bits),
    decreases bits.len(),
{
    if bits.len() > 0 {
        lemma_bitvec_val_extend(bits.drop_last(), n, vals1, vals2);
    }
}

/// A decomposition of `v` spells `v`'s low bits.
pub proof fn lemma_bitvec_of_bits(vals: Seq<Fp>, bits: Seq<Bit>, v: nat)
    requires
        forall|i: int| 0 <= i < bits.len() ==> (#[trigger] bits[i]).var < vals.len(),
        forall|i: int|
            0 <= i < bits.len() ==> vals[(#[trigger] bits[i]).var as int].val() == (if bit_of(
                v,
                i as nat,
            ) {
                1nat
            } else {
                0nat
            }),
    ensures
        bitvec_val(vals, bits) == bits_val(v, bits.len()),
    decreases bits.len(),
{
    if bits.len() > 0 {
        let m = (bits.len() - 1) as nat;
        lemma_bitvec_of_bits(vals, bits.drop_last(), v);
        lemma_mul_basics(pow2(m) as int);
        assert(bits.drop_last().len() == m);
        assert(bits.last() == bits[m as int]);
    }
}

/// Decomposes a wire into `num_bits` boolean wires whose weighted sum is
/// constrained, in one more constraint, to re-assemble the wire.  The caller
/// must know the value fits the width.
pub fn to_bits(cs: &mut R1cs, a: Num, num_bits: usize) -> (r: Vec<Bit>)
    requires
        old(cs).ok(),
        a.var < old(cs).nv(),
        num_bits <= 255,
        old(cs).nval(a) < pow2(num_bits as nat),
    ensures
        final(cs).ok(),
        extends(*final(cs), *old(cs)),
        final(cs).sat() == old(cs).sat(),
        r@.len() == num_bits,
        forall|i: int| 0 <= i < num_bits ==> (#[trigger] r@[i]).var < final(cs).nv(),
        forall|i: int|
            0 <= i < num_bits ==> final(cs).bval(#[trigger] r@[i]) == (if bit_of(
                old(cs).nval(a),
                i as nat,
            ) {
                1nat
            } else {
                0nat
            }),
{
    let av = cs.value_of(a.var);
    let mut bits: Vec<Bit> = Vec::new();
    let mut terms: Vec<(Fp, usize)> = Vec::new();
    let mut coeff = fp_one();
    let mut i: usize = 0;
    proof {
        lemma2_to64();
        assert(terms@.take(0) =~= Seq::<(Fp, usize)>::empty());
    }
    while i < num_bits
        invariant
            i <= num_bits <= 255,
            cs.ok(),
            extends(*cs, *old(cs)),
            cs.sat() == old(cs).sat(),
            a.var < old(cs).nv(),
            av.wf(),
            av.val() == old(cs).nval(a),
            av.val() == cs.nval(a),
            coeff.wf(),
            i < num_bits ==> coeff.val() == pow2(i as nat),
            bits@.len() == i,
            terms@.len() == i,
            forall|j: int| 0 <= j < i ==> (#[trigger] bits@[j]).var < cs.nv(),
            forall|j: int|
                0 <= j < i ==> cs.bval(#[trigger] bits@[j]) == (if bit_of(av.val(), j as nat) {
                    1nat
                } else {
                    0nat
                }),
            forall|j: int|
                0 <= j < i ==> (#[trigger] terms@[j]).0.wf() && terms@[j].0.val() == pow2(j as nat)
                    && terms@[j].1 == bits@[j].var,
            terms_val(terms@, cs.vals@) == bits_val(av.val(), i as nat),
        decreases num_bits - i,
    {
        let b = fp_bit(&av, i);
        let ghost prev = *cs;
        let w = alloc_bit(cs, b);
        let ghost old_terms = terms@;
        proof {
            lemma_terms_val_extend(old_terms, prev.nv(), prev.vals@, cs.vals@);
            assert(terms_val(old_terms, cs.vals@) == bits_val(av.val(), i as nat));
        }
        bits.push(w);
        terms.push((coeff, w.var));
        proof {
            assert(terms@.drop_last() =~= old_terms);
            assert(terms@.last() == (coeff, w.var));
            lemma_mul_basics(pow2(i as nat) as int);
            assert(terms_val(terms@, cs.vals@) == terms_val(old_terms, cs.vals@) + coeff.val()
                * cs.vals@[w.var as int].val());
            assert(terms_val(terms@, cs.vals@) == bits_val(av.val(), (i + 1) as nat));
        }
        if i + 1 < num_bits {
            proof {
                lemma_pow2_adds(i as nat, 1);
                lemma2_to64();
                lemma_pow2_consts();
                if i + 1 < 254 {
                    lemma_pow2_strictly_increases((i + 1) as nat, 254);
                }
                assert(pow2((i + 1) as nat) < p());
                lemma_fadd_small(coeff.val(), coeff.val());
            }
            coeff = fp_add(coeff, coeff);
        }
        i += 1;
    }
    let c = Constraint {
        a: Lc { terms, constant: fp_zero() },
        b: lc_const(fp_one()),
        c: lc_var(a.var),
    };
    proof {
        let vals = cs.vals@;
        lemma_bits_val(av.val(), num_bits as nat);
        lemma_small_mod(av.val(), pow2(num_bits as nat));
        assert(bits_val(av.val(), num_bits as nat) == av.val());
        assert(terms_val(c.a.terms@, vals) == av.val());
        lemma_small_mod(av.val(), p());
        assert(lc_val(c.a, vals) == av.val()) by {
            reveal_lc_val_zero_const(c.a, vals);
        }
        lemma_lc_val_const(c.b, vals);
        lemma_lc_val_affine1(c.c, vals);
        lemma_unit_term(av.val());
        lemma_fmul_one(av.val());
        assert(constraint_sat(c, vals));
    }
    cs.enforce(c);
    bits
}

/// A combination with zero constant evaluates to its reduced term sum.
proof fn reveal_lc_val_zero_const(lc: Lc, vals: Seq<Fp>)
    requires
        lc.constant.val() == 0,
    ensures
        lc_val(lc, vals) == terms_val(lc.terms@, vals) % p(),
{
}

/// The value the negated decomposition spells: `2^n - v`, with zero kept at
/// zero.
pub open spec fn neg_val(v: nat, n: nat) -> nat {
    if v == 0 {
        0
    } else {
        (pow2(n) - v) as nat
    }
}

/// Decomposes `2^n - a` (and zero for zero, corrected by a zero-test wire) so
/// subtraction can be done as addition.
#[verifier::rlimit(100)]
pub fn to_bits_neg(cs: &mut R1cs, a: Num, num_bits: usize) -> (r: Vec<Bit>)
    requires
        old(cs).ok(),
        a.var < old(cs).nv(),
        1 <= num_bits <= 64,
        old(cs).nval(a) < pow2(num_bits as nat),
    ensures
        final(cs).ok(),
        extends(*final(cs), *old(cs)),
        final(cs).sat() == old(cs).sat(),
        r@.len() == num_bits,
        forall|i: int| 0 <= i < num_bits ==> (#[trigger] r@[i]).var < final(cs).nv(),
        forall|i: int|
            0 <= i < num_bits ==> final(cs).bval(#[trigger] r@[i]) == (if bit_of(
                neg_val(old(cs).nval(a), num_bits as nat),
                i as nat,
            ) {
                1nat
            } else {
                0nat
            }),
{
    let av = cs.value_of(a.var);
    let zero = fp_zero();
    let a_is_zero = av.l0 == 0 && av.l1 == 0 && av.l2 == 0 && av.l3 == 0;
    let two_n = fp_pow2(num_bits);
    proof {
        lemma_pow2_consts();
        if old(cs).nval(a) == 0 {
            lemma_val_inj(av, zero);
        }
        if a_is_zero {
            assert(av.val() == 0);
        }
        if !a_is_zero {
            lemma_pow2_strictly_increases(num_bits as nat, 254);
            lemma_fsub_small(two_n.val(), av.val());
        }
    }
    let m = if a_is_zero {
        fp_zero()
    } else {
        fp_sub(two_n, av)
    };
    let z = is_zero(cs, a);
    let ghost mv = neg_val(av.val(), num_bits as nat);
    let mut bits: Vec<Bit> = Vec::new();
    let mut terms: Vec<(Fp, usize)> = Vec::new();
    let mut coeff = fp_one();
    let mut i: usize = 0;
    proof {
        lemma2_to64();
        assert(terms@.take(0) =~= Seq::<(Fp, usize)>::empty());
        if a_is_zero {
            assert(av.val() == 0);
            assert(m.val() == 0);
        } else {
            lemma_pow2_consts();
            lemma_val_zero(av);
            assert(av.val() != 0);
            lemma_pow2_strictly_increases(num_bits as nat, 254);
            lemma_fsub_small(two_n.val(), av.val());
            assert(m.val() == pow2(num_bits as nat) - av.val());
        }
        assert(m.val() == mv);
    }
    while i < num_bits
        invariant
            i <= num_bits <= 64,
            cs.ok(),
            extends(*cs, *old(cs)),
            cs.sat() == old(cs).sat(),
            a.var < old(cs).nv(),
            z.var < cs.nv(),
            cs.bval(z) == (if av.val() == 0 {
                1nat
            } else {
                0nat
            }),
            av.wf(),
            av.val() == old(cs).nval(a),
            av.val() == cs.nval(a),
            m.wf(),
            m.val() == mv,
            mv == neg_val(av.val(), num_bits as nat),
            coeff.wf(),
            i < num_bits ==> coeff.val() == pow2(i as nat),
            bits@.len() == i,
            terms@.len() == i,
            forall|j: int| 0 <= j < i ==> (#[trigger] bits@[j]).var < cs.nv(),
            forall|j: int|
                0 <= j < i ==> cs.bval(#[trigger] bits@[j]) == (if bit_of(mv, j as nat) {
                    1nat
                } else {
                    0nat
                }),
            forall|j: int|
                0 <= j < i ==> (#[trigger] terms@[j]).0.wf() && terms@[j].0.val() == pow2(j as nat)
                    && terms@[j].1 == bits@[j].var,
            terms_val(terms@, cs.vals@) == bits_val(mv, i as nat),
        decreases num_bits - i,
    {
        let b = fp_bit(&m, i);
        let ghost prev = *cs;
        let w = alloc_bit(cs, b);
        let ghost old_terms = terms@;
        proof {
            lemma_terms_val_extend(old_terms, prev.nv(), prev.vals@, cs.vals@);
            assert(terms_val(old_terms, cs.vals@) == bits_val(mv, i as nat));
        }
        bits.push(w);
        terms.push((coeff, w.var));
        proof {
            assert(terms@.drop_last() =~= old_terms);
            assert(terms@.last() == (coeff, w.var));
            lemma_mul_basics(pow2(i as nat) as int);
            assert(terms_val(terms@, cs.vals@) == terms_val(old_terms, cs.vals@) + coeff.val()
                * cs.vals@[w.var as int].val());
            assert(terms_val(terms@, cs.vals@) == bits_val(mv, (i + 1) as nat));
        }
        if i + 1 < num_bits {
            proof {
                lemma_pow2_adds(i as nat, 1);
                lemma2_to64();
                lemma_pow2_consts();
                lemma_pow2_strictly_increases((i + 1) as nat, 254);
                lemma_fadd_small(coeff.val(), coeff.val());
            }
            coeff = fp_add(coeff, coeff);
        }
        i += 1;
    }
    let ghost old_terms2 = terms@;
    terms.push((two_n, z.var));
    proof {
        let vals = cs.vals@;
        let va = av.val();
        let n = num_bits as nat;
        assert(terms@.drop_last() =~= old_terms2);
        assert(terms_val(terms@.drop_last(), vals) == bits_val(mv, n));
        assert(terms@.last() == (two_n, z.var));
        let zv = cs.bval(z);
        lemma_bits_val(mv, n);
        lemma_pow2_strictly_increases(n, 254);
        lemma_pow2_consts();
        assert(mv < pow2(n));
        lemma_small_mod(mv, pow2(n));
        assert(bits_val(mv, n) == mv);
        lemma_mul_basics(pow2(n) as int);
        if va == 0 {
            assert(zv == 1);
            assert(terms_val(terms@, vals) == 0 + pow2(n) * 1);
        } else {
            assert(zv == 0);
            assert(terms_val(terms@, vals) == mv + pow2(n) * 0);
        }
        assert(terms_val(terms@, vals) == (pow2(n) - va) as nat);
    }
    to_bits_neg_enforce(cs, a, terms, two_n, num_bits);
    bits
}

/// Adds the single constraint tying a negated decomposition, with its
/// zero-test correction already among the terms, back to the source wire.
fn to_bits_neg_enforce(cs: &mut R1cs, a: Num, terms: Vec<(Fp, usize)>, two_n: Fp, num_bits: usize)
    requires
        old(cs).ok(),
        a.var < old(cs).nv(),
        1 <= num_bits <= 64,
        old(cs).nval(a) < pow2(num_bits as nat),
        two_n.wf(),
        two_n.val() == pow2(num_bits as nat),
        forall|j: int|
            0 <= j < terms@.len() ==> (#[trigger] terms@[j]).0.wf() && terms@[j].1 < old(cs).nv(),
        terms_val(terms@, old(cs).vals@) == (pow2(num_bits as nat) - old(cs).nval(a)) as nat,
    ensures
        final(cs).ok(),
        extends(*final(cs), *old(cs)),
        final(cs).sat() == old(cs).sat(),
{
    let c = Constraint {
        a: Lc { terms, constant: fp_zero() },
        b: lc_const(fp_one()),
        c: lc_affine1(two_n, fp_neg(fp_one()), a.var),
    };
    proof {
        let vals = cs.vals@;
        let va = old(cs).nval(a);
        let n = num_bits as nat;
        lemma_pow2_strictly_increases(n, 254);
        lemma_pow2_consts();
        lemma_small_mod((pow2(n) - va) as nat, p());
        reveal_lc_val_zero_const(c.a, vals);
        assert(lc_val(c.a, vals) == (pow2(n) - va) as nat);
        lemma_lc_val_const(c.b, vals);
        lemma_lc_val_affine1(c.c, vals);
        lemma_fneg_one();
        lemma_fneg_mul(1, va);
        lemma_fmul_one(va);
        lemma_fmul_comm(1, va);
        lemma_fneg_bound(va);
        assert(lc_val(c.c, vals) == fadd(fneg(va), pow2(n)));
        assert(fadd(fneg(va), pow2(n)) == fadd(pow2(n), fneg(va))) by {
            reveal(fadd);
        }
        assert(fsub(pow2(n), va) == (pow2(n) - va) as nat) by {
            if va == 0 {
                lemma_fneg_zero();
                lemma_fadd_small(pow2(n), 0);
            } else {
                lemma_fsub_small(pow2(n), va);
            }
        }
        assert(lc_val(c.c, vals) == (pow2(n) - va) as nat);
        lemma_fmul_one((pow2(n) - va) as nat);
        assert(constraint_sat(c, vals));
    }
    cs.enforce(c);
}

/// Adds two 64-bit values given as bit vectors: one constraint ties the new
/// wire to the double-weighted sum.  The result can use 65 bits; bounding it
/// is the caller's business.
pub fn sum_u64(cs: &mut R1cs, a: Vec<Bit>, b: Vec<Bit>) -> (r: Num)
    requires
        old(cs).ok(),
        a@.len() == 64,
        b@.len() == 64,
        forall|i: int|
            0 <= i < 64 ==> (#[trigger] a@[i]).var < old(cs).nv() && boolish(old(cs).bval(a@[i])),
        forall|i: int|
            0 <= i < 64 ==> (#[trigger] b@[i]).var < old(cs).nv() && boolish(old(cs).bval(b@[i])),
    ensures
        final(cs).ok(),
        extends(*final(cs), *old(cs)),
        final(cs).sat() == old(cs).sat(),
        r.var < final(cs).nv(),
        final(cs).nval(r) == bitvec_val(old(cs).vals@, a@) + bitvec_val(old(cs).vals@, b@),
        final(cs).nval(r) < pow2(65),
{
    let mut s = fp_zero();
    let mut terms: Vec<(Fp, usize)> = Vec::new();
    let mut coeff = fp_one();
    let mut i: usize = 0;
    proof {
        lemma2_to64();
        lemma_pow2_consts();
        assert(a@.take(0) =~= Seq::<Bit>::empty());
        assert(b@.take(0) =~= Seq::<Bit>::empty());
        assert(terms@.take(0) =~= Seq::<(Fp, usize)>::empty());
    }
    while i < 64
        invariant
            i <= 64,
            cs.ok(),
            a@.len() == 64,
            b@.len() == 64,
            forall|j: int|
                0 <= j < 64 ==> (#[trigger] a@[j]).var < cs.nv() && boolish(cs.bval(a@[j])),
            forall|j: int|
                0 <= j < 64 ==> (#[trigger] b@[j]).var < cs.nv() && boolish(cs.bval(b@[j])),
            coeff.wf(),
            i < 64 ==> coeff.val() == pow2(i as nat),
            s.wf(),
            s.val() == bitvec_val(cs.vals@, a@.take(i as int)) + bitvec_val(
                cs.vals@,
                b@.take(i as int),
            ),
            s.val() < pow2(i as nat) * 2,
            terms@.len() == 2 * i,
            forall|j: int|
                0 <= j < i ==> (#[trigger] terms@[2 * j]).0.wf() && terms@[2 * j].0.val() == pow2(
                    j as nat,
                ) && terms@[2 * j].1 == a@[j].var,
            forall|j: int|
                0 <= j < i ==> (#[trigger] terms@[2 * j + 1]).0.wf() && terms@[2 * j
                    + 1].0.val() == pow2(j as nat) && terms@[2 * j + 1].1 == b@[j].var,
            terms_val(terms@, cs.vals@) == s.val(),
        decreases 64 - i,
    {
        let av = cs.value_of(a[i].var);
        let bv = cs.value_of(b[i].var);
        let ta = fp_mul(coeff, av);
        let tb = fp_mul(coeff, bv);
        proof {
            lemma_pow2_consts();
            lemma_pow2_strictly_increases(i as nat, 64);
            lemma_pow2_strictly_increases(64, 254);
            lemma_mul_basics(pow2(i as nat) as int);
            assert(av.val() * pow2(i as nat) <= pow2(i as nat)) by {
                if av.val() == 0 {
                } else {
                    assert(av.val() == 1);
                }
            }
            assert(bv.val() * pow2(i as nat) <= pow2(i as nat)) by {
                if bv.val() == 0 {
                } else {
                    assert(bv.val() == 1);
                }
            }
            lemma_fmul_small(coeff.val(), av.val());
            lemma_fmul_small(coeff.val(), bv.val());
            lemma_pow2_adds(i as nat, 1);
            lemma2_to64();
            assert(pow2((i + 1) as nat) == pow2(i as nat) * 2);
            assert(s.val() + ta.val() + tb.val() < pow2((i + 1) as nat) * 2) by {
                assert(ta.val() <= pow2(i as nat));
                assert(tb.val() <= pow2(i as nat));
            }
            assert(pow2((i + 1) as nat) * 2 <= pow2(254)) by {
                lemma_pow2_adds((i + 1) as nat, 1);
                if i + 2 < 254 {
                    lemma_pow2_strictly_increases((i + 2) as nat, 254);
                }
            }
            lemma_fadd_small(s.val(), ta.val());
            lemma_fadd_small((s.val() + ta.val()) as nat, tb.val());
        }
        s = fp_add(s, ta);
        s = fp_add(s, tb);
        let ghost old_terms = terms@;
        terms.push((coeff, a[i].var));
        let ghost mid_terms = terms@;
        terms.push((coeff, b[i].var));
        proof {
            assert(terms@.drop_last() =~= mid_terms);
            assert(mid_terms.drop_last() =~= old_terms);
            assert(terms@.last() == (coeff, b@[i as int].var));
            assert(mid_terms.last() == (coeff, a@[i as int].var));
            assert(a@.take(i + 1).drop_last() =~= a@.take(i as int));
            assert(b@.take(i + 1).drop_last() =~= b@.take(i as int));
            assert(a@.take(i + 1).last() == a@[i as int]);
            assert(b@.take(i + 1).last() == b@[i as int]);
            lemma_mul_is_commutative(coeff.val() as int, cs.vals@[a@[i as int].var as int].val() as int);
            lemma_mul_is_commutative(coeff.val() as int, cs.vals@[b@[i as int].var as int].val() as int);
            assert(terms_val(mid_terms, cs.vals@) == terms_val(old_terms, cs.vals@) + coeff.val()
                * cs.vals@[a@[i as int].var as int].val());
            assert(terms_val(terms@, cs.vals@) == terms_val(mid_terms, cs.vals@) + coeff.val()
                * cs.vals@[b@[i as int].var as int].val());
            assert(bitvec_val(cs.vals@, a@.take(i + 1)) == bitvec_val(cs.vals@, a@.take(i as int))
                + cs.vals@[a@[i as int].var as int].val() * pow2(i as nat));
            assert(bitvec_val(cs.vals@, b@.take(i + 1)) == bitvec_val(cs.vals@, b@.take(i as int))
                + cs.vals@[b@[i as int].var as int].val() * pow2(i as nat));
        }
        if i + 1 < 64 {
            proof {
                lemma_pow2_adds(i as nat, 1);
                lemma2_to64();
                lemma_pow2_consts();
                lemma_pow2_strictly_increases((i + 1) as nat, 254);
                lemma_fadd_small(coeff.val(), coeff.val());
                lemma_pow2_strictly_increases((i + 1) as nat, 64);
            }
            coeff = fp_add(coeff, coeff);
        } else {
            proof {
                lemma_pow2_consts();
            }
        }
        i += 1;
    }
    proof {
        assert(a@.take(64) =~= a@);
        assert(b@.take(64) =~= b@);
        lemma_pow2_adds(64, 1);
        lemma2_to64();
        lemma2_to64_rest();
        assert(pow2(64) * 2 == pow2(65));
    }
    let ghost prev = *cs;
    proof {
        assert forall|k: int| 0 <= k < terms@.len() implies (#[trigger] terms@[k]).0.wf()
            && terms@[k].1 < prev.nv() by {
            let j = k / 2;
            assert(k == 2 * j || k == 2 * j + 1);
            assert(terms@[2 * j].0.wf() && terms@[2 * j].1 == a@[j].var);
            assert(terms@[2 * j + 1].0.wf() && terms@[2 * j + 1].1 == b@[j].var);
        }
    }
    let sum_w = cs.allocate(s);
    let c = Constraint {
        a: Lc { terms, constant: fp_zero() },
        b: lc_const(fp_one()),
        c: lc_var(sum_w.var),
    };
    proof {
        let vals = cs.vals@;
        lemma_terms_val_extend(c.a.terms@, prev.nv(), prev.vals@, vals);
        lemma_small_mod(s.val(), p());
        reveal_lc_val_zero_const(c.a, vals);
        assert(lc_val(c.a, vals) == s.val());
        lemma_lc_val_const(c.b, vals);
        lemma_lc_val_affine1(c.c, vals);
        lemma_unit_term(s.val());
        lemma_fmul_one(s.val());
        assert(constraint_sat(c, vals));
        lemma_bitvec_val_extend(a@, prev.nv(), prev.vals@, vals);
        lemma_bitvec_val_extend(b@, prev.nv(), prev.vals@, vals);
    }
    cs.enforce(c);
    proof {
        lemma_bitvec_val_extend(a@, old(cs).nv(), old(cs).vals@, cs.vals@);
        lemma_bitvec_val_extend(b@, old(cs).nv(), old(cs).vals@, cs.vals@);
    }
    Num { var: sum_w.var }
}

/// Unsigned comparison of two 64-bit values: `r` is 1 exactly when
/// `a <= b`.  Realized by adding `b` to the negated decomposition of `a` and
/// reading the carry bit of the 65-bit sum, with the zero case of `a` folded
/// in through its zero test.
pub fn lte(cs: &mut R1cs, a: Num, b: Num) -> (r: Bit)
    requires
        old(cs).ok(),
        a.var < old(cs).nv(),
        b.var < old(cs).nv(),
        old(cs).nval(a) < pow2(64),
        old(cs).nval(b) < pow2(64),
    ensures
        final(cs).ok(),
        extends(*final(cs), *old(cs)),
        final(cs).sat() == old(cs).sat(),
        r.var < final(cs).nv(),
        boolish(final(cs).bval(r)),
        final(cs).bval(r) == (if old(cs).nval(a) <= old(cs).nval(b) {
            1nat
        } else {
            0nat
        }),
{
    let ghost va = old(cs).nval(a);
    let ghost vb = old(cs).nval(b);
    let z = is_zero(cs, a);
    let a_neg = to_bits_neg(cs, a, 64);
    let b_bits = to_bits(cs, b, 64);
    let ghost mid = *cs;
    let s = sum_u64(cs, b_bits, a_neg);
    proof {
        lemma_bitvec_of_bits(mid.vals@, b_bits@, vb);
        lemma_bitvec_of_bits(mid.vals@, a_neg@, neg_val(va, 64));
        lemma_bits_val(vb, 64);
        lemma_bits_val(neg_val(va, 64), 64);
        lemma_small_mod(vb, pow2(64));
        assert(neg_val(va, 64) < pow2(64)) by {
            lemma_pow2_pos(64);
        }
        lemma_small_mod(neg_val(va, 64), pow2(64));
        assert(cs.nval(s) == vb + neg_val(va, 64));
    }
    let s_bits = to_bits(cs, s, 65);
    proof {
        lemma_pow2_adds(64, 1);
        lemma2_to64();
        assert(pow2(65) == pow2(64) * 2);
        let sv = vb + neg_val(va, 64);
        assert(bit_of(sv, 64) == (va != 0 && va <= vb)) by {
            lemma_pow2_pos(64);
            if va == 0 {
                assert(sv == vb);
                lemma_basic_div(sv as int, pow2(64) as int);
                assert(sv / pow2(64) == 0);
            } else {
                assert(sv == vb + pow2(64) - va);
                if va <= vb {
                    assert(sv == pow2(64) + (vb - va));
                    lemma_fundamental_div_mod_converse(
                        sv as int,
                        pow2(64) as int,
                        1,
                        (vb - va) as int,
                    );
                    assert(sv / pow2(64) == 1);
                } else {
                    assert(sv < pow2(64));
                    lemma_basic_div(sv as int, pow2(64) as int);
                    assert(sv / pow2(64) == 0);
                }
            }
        }
    }
    let carry = s_bits[64];
    bit_or(cs, carry, z)
}

/// Allocates the product of two wires, with the single constraint
/// `a * b = r`.
pub fn mul_num(cs: &mut R1cs, a: Num, b: Num) -> (r: Num)
    requires
        old(cs).ok(),
        a.var < old(cs).nv(),
        b.var < old(cs).nv(),
    ensures
        final(cs).ok(),
        extends(*final(cs), *old(cs)),
        final(cs).sat() == old(cs).sat(),
        r.var < final(cs).nv(),
        final(cs).nval(r) == fmul(old(cs).nval(a), old(cs).nval(b)),
{
    let av = cs.value_of(a.var);
    let bv = cs.value_of(b.var);
    let prod = fp_mul(av, bv);
    let w = cs.allocate(prod);
    let c = Constraint { a: lc_var(a.var), b: lc_var(b.var), c: lc_var(w.var) };
    proof {
        let vals = cs.vals@;
        lemma_lc_val_affine1(c.a, vals);
        lemma_lc_val_affine1(c.b, vals);
        lemma_lc_val_affine1(c.c, vals);
        lemma_unit_term(av.val());
        lemma_unit_term(bv.val());
        lemma_unit_term(prod.val());
        assert(constraint_sat(c, vals));
    }
    cs.enforce(c);
    w
}

/// Selects between two wires by a boolean wire, in one constraint
/// `flag * (t - f) = r - f`.
#[verifier::rlimit(100)]
pub fn select(cs: &mut R1cs, flag: Bit, t: Num, f: Num) -> (r: Num)
    requires
        old(cs).ok(),
        flag.var < old(cs).nv(),
        t.var < old(cs).nv(),
        f.var < old(cs).nv(),
        boolish(old(cs).bval(flag)),
    ensures
        final(cs).ok(),
        extends(*final(cs), *old(cs)),
        final(cs).sat() == old(cs).sat(),
        r.var < final(cs).nv(),
        final(cs).nval(r) == (if old(cs).bval(flag) == 1 {
            old(cs).nval(t)
        } else {
            old(cs).nval(f)
        }),
{
    let fl = cs.value_of(flag.var);
    let tv = cs.value_of(t.var);
    let fv = cs.value_of(f.var);
    let one = fp_one();
    let f_set = fl.l0 == 1 && fl.l1 == 0 && fl.l2 == 0 && fl.l3 == 0;
    proof {
        lemma_pow2_consts();
        if old(cs).bval(flag) == 1 {
            lemma_val_inj(fl, one);
        }
        if f_set {
            assert(old(cs).bval(flag) == 1);
        }
    }
    let rv = if f_set {
        tv
    } else {
        fv
    };
    let w = cs.allocate(rv);
    let neg_one = fp_neg(fp_one());
    let c = Constraint {
        a: lc_var(flag.var),
        b: lc_affine2(fp_zero(), fp_one(), t.var, neg_one, f.var),
        c: lc_affine2(fp_zero(), fp_one(), w.var, neg_one, f.var),
    };
    proof {
        let vals = cs.vals@;
        let vfl = old(cs).bval(flag);
        let vt = old(cs).nval(t);
        let vf = old(cs).nval(f);
        lemma_fneg_one();
        lemma_lc_val_affine1(c.a, vals);
        lemma_lc_val_affine2(c.b, vals);
        lemma_lc_val_affine2(c.c, vals);
        lemma_unit_term(vfl);
        lemma_fmul_one(vt);
        lemma_fmul_comm(1, vt);
        lemma_fmul_one(vf);
        lemma_fmul_comm(1, vf);
        lemma_fmul_one(rv.val());
        lemma_fmul_comm(1, rv.val());
        lemma_fneg_mul(1, vf);
        lemma_fneg_bound(vf);
        assert(fadd(fmul(1, vt), fmul(fneg(1), vf)) == fsub(vt, vf)) by {
            lemma_small_mod(fneg(vf), p());
        }
        assert(fadd(fmul(1, rv.val()), fmul(fneg(1), vf)) == fsub(rv.val(), vf)) by {
            lemma_small_mod(fneg(vf), p());
        }
        assert(lc_val(c.b, vals) == fadd(fsub(vt, vf), 0));
        assert(lc_val(c.c, vals) == fadd(fsub(rv.val(), vf), 0));
        lemma_fadd_bound(vt, fneg(vf));
        lemma_fadd_bound(rv.val(), fneg(vf));
        assert(fadd(fsub(vt, vf), 0) == fsub(vt, vf)) by {
            reveal(fadd);
            lemma_small_mod(fsub(vt, vf), p());
        }
        assert(fadd(fsub(rv.val(), vf), 0) == fsub(rv.val(), vf)) by {
            reveal(fadd);
            lemma_small_mod(fsub(rv.val(), vf), p());
        }
        if vfl == 1 {
            lemma_fmul_one(fsub(vt, vf));
            lemma_fmul_comm(1, fsub(vt, vf));
            assert(rv.val() == vt);
        } else {
            lemma_fmul_zero(fsub(vt, vf));
            assert(rv.val() == vf);
            lemma_fsub_zero_iff(vf, vf);
        }
        assert(constraint_sat(c, vals));
    }
    cs.enforce(c);
    w
}

/// Soundness of the zero test, over the algebra of its two constraints: any
/// assignment in which the output is boolean, `(-a) * inv = out - 1` and
/// `out * a = 0` hold forces the output to read exactly whether `a` is zero.
/// No witness other than the correct boolean satisfies the constraints.
pub proof fn lemma_is_zero_sound(a: nat, inv: nat, out: nat)
    requires
        a < p(),
        inv < p(),
        boolish(out),
        fmul(fneg(a), inv) == fsub(out, 1),
        fmul(out, a) == 0,
    ensures
        out == (if a == 0 {
            1nat
        } else {
            0nat
        }),
{
    lemma_pow2_consts();
    lemma_fneg_one();
    if out == 1 {
        lemma_fmul_one(a);
        lemma_fmul_comm(1, a);
        assert(a == 0);
    } else {
        assert(fsub(0, 1) == (p() - 1) as nat) by {
            reveal(fadd);
            lemma_fneg_one();
            lemma_small_mod((p() - 1) as nat, p());
        }
        lemma_fneg_mul(a, inv);
        assert(fneg(fmul(a, inv)) == (p() - 1) as nat);
        let m = fmul(a, inv);
        assert(m < p()) by {
            reveal(fmul);
            lemma_mod_bound((a * inv) as int, p() as int);
        }
        assert(m == 1) by {
            reveal(fneg);
            lemma_small_mod(m, p());
            if m == 0 {
                lemma_mod_self_0(p() as int);
            } else {
                lemma_small_mod((p() - m) as nat, p());
            }
        }
        if a == 0 {
            lemma_fmul_zero(inv);
            assert(false);
        }
    }
}

/// Soundness of the equality test: with a boolean output and the two
/// constraints `(b - a) * inv = out - 1` and `out * (a - b) = 0` satisfied,
/// the output reads exactly whether the two values are equal.
pub proof fn lemma_is_equal_sound(a: nat, b: nat, inv: nat, out: nat)
    requires
        a < p(),
        b < p(),
        inv < p(),
        boolish(out),
        fmul(fneg(fsub(a, b)), inv) == fsub(out, 1),
        fmul(out, fsub(a, b)) == 0,
    ensures
        out == (if a == b {
            1nat
        } else {
            0nat
        }),
{
    let d = fsub(a, b);
    assert(d < p()) by {
        lemma_fadd_bound(a, fneg(b));
    }
    lemma_is_zero_sound(d, inv, out);
    lemma_fsub_zero_iff(a, b);
}

} // verus!
