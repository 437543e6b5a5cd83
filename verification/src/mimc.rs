//! The MiMC permutation: a two-input, one-output Feistel-like iteration of
//! cubings over the field, driven by an externally supplied table of round
//! constants.  Both the plain function and the in-circuit gadget are proved
//! against the same specification, so the gadget reproduces the plain result
//! bit for bit.

use vstd::prelude::*;
use crate::field::{
    Fp, p, fadd, fmul, fsub, fp_add, fp_mul, fp_zero, fp_one, fp_neg, lemma_fmul_one,
    lemma_fmul_comm, lemma_fneg_one, lemma_fneg_bound, lemma_fneg_mul, lemma_fadd_bound,
    lemma_fsub_of_fadd,
};
use vstd::arithmetic::div_mod::lemma_small_mod;
use crate::cs::{Num, Lc, Constraint, R1cs, lc_val, constraint_sat, extends};
use crate::common::{
    lemma_lc_val_affine1, lemma_lc_val_affine2, lemma_unit_term, lc_var, lc_affine1, lc_affine2,
};

verus! {

/// The values of a table of field constants.
pub open spec fn fp_seq(s: Seq<Fp>) -> Seq<nat> {
    s.map_values(|f: Fp| f.val())
}

/// All entries of a table are canonical.
pub open spec fn fp_seq_wf(s: Seq<Fp>) -> bool {
    forall|i: int| 0 <= i < s.len() ==> (#[trigger] s[i]).wf()
}

/// The MiMC permutation: each round sends `(xl, xr)` to
/// `((xl + c)^3 + xr, xl)`; the final left half is the result.
pub open spec fn mimc_spec(xl: nat, xr: nat, consts: Seq<nat>) -> nat
    decreases consts.len(),
{
    if consts.len() == 0 {
        xl
    } else {
        let t = fadd(xl, consts[0]);
        mimc_spec(fadd(fmul(fmul(t, t), t), xr), xl, consts.drop_first())
    }
}

/// The plain, out-of-circuit MiMC permutation.
pub fn mimc(xl: Fp, xr: Fp, params: &Vec<Fp>) -> (r: Fp)
    requires
        xl.wf(),
        xr.wf(),
        fp_seq_wf(params@),
    ensures
        r.wf(),
        r.val() == mimc_spec(xl.val(), xr.val(), fp_seq(params@)),
{
    let mut l = xl;
    let mut r = xr;
    let mut i: usize = 0;
    let n = params.len();
    proof {
        assert(fp_seq(params@).skip(0) =~= fp_seq(params@));
    }
    while i < n
        invariant
            i <= n,
            n == params@.len(),
            fp_seq_wf(params@),
            l.wf(),
            r.wf(),
            mimc_spec(l.val(), r.val(), fp_seq(params@).skip(i as int)) == mimc_spec(
                xl.val(),
                xr.val(),
                fp_seq(params@),
            ),
        decreases n - i,
    {
        let c = params[i];
        let tmp1 = fp_add(l, c);
        let mut tmp2 = fp_mul(tmp1, tmp1);
        tmp2 = fp_mul(tmp2, tmp1);
        tmp2 = fp_add(tmp2, r);
        proof {
            let rest = fp_seq(params@).skip(i as int);
            assert(rest.len() > 0);
            assert(rest[0] == fp_seq(params@)[i as int]);
            assert(rest.drop_first() =~= fp_seq(params@).skip(i + 1));
        }
        r = l;
        l = tmp2;
        i += 1;
    }
    proof {
        assert(fp_seq(params@).skip(n as int) =~= Seq::<nat>::empty());
    }
    l
}

/// The in-circuit MiMC gadget: two constraints per round (a squaring and a
/// cubing folded with the running right half), producing a wire that holds
/// the plain permutation of the input wires.
pub fn mimc_gadget(cs: &mut R1cs, xl: Num, xr: Num, params: &Vec<Fp>) -> (r: Num)
    requires
        old(cs).ok(),
        xl.var < old(cs).nv(),
        xr.var < old(cs).nv(),
        fp_seq_wf(params@),
    ensures
        final(cs).ok(),
        extends(*final(cs), *old(cs)),
        final(cs).sat() == old(cs).sat(),
        r.var < final(cs).nv(),
        final(cs).nval(r) == mimc_spec(old(cs).nval(xl), old(cs).nval(xr), fp_seq(params@)),
{
    let mut lw = xl;
    let mut rw = xr;
    let mut i: usize = 0;
    let n = params.len();
    proof {
        assert(fp_seq(params@).skip(0) =~= fp_seq(params@));
    }
    while i < n
        invariant
            i <= n,
            n == params@.len(),
            fp_seq_wf(params@),
            cs.ok(),
            extends(*cs, *old(cs)),
            cs.sat() == old(cs).sat(),
            lw.var < cs.nv(),
            rw.var < cs.nv(),
            mimc_spec(cs.nval(lw), cs.nval(rw), fp_seq(params@).skip(i as int)) == mimc_spec(
                old(cs).nval(xl),
                old(cs).nval(xr),
                fp_seq(params@),
            ),
        decreases n - i,
    {
        let c = params[i];
        let new_lw = mimc_round(cs, lw, rw, c);
        proof {
            let rest = fp_seq(params@).skip(i as int);
            assert(rest.len() > 0);
            assert(rest[0] == fp_seq(params@)[i as int]);
            assert(rest.drop_first() =~= fp_seq(params@).skip(i + 1));
        }
        rw = lw;
        lw = new_lw;
        i += 1;
    }
    proof {
        assert(fp_seq(params@).skip(n as int) =~= Seq::<nat>::empty());
    }
    lw
}

/// One MiMC round in constraints: `t = xl + c` stays symbolic,
/// `t * t = t2` and `t2 * t = new - xr` are enforced.
fn mimc_round(cs: &mut R1cs, lw: Num, rw: Num, c: Fp) -> (r: Num)
    requires
        old(cs).ok(),
        lw.var < old(cs).nv(),
        rw.var < old(cs).nv(),
        c.wf(),
    ensures
        final(cs).ok(),
        extends(*final(cs), *old(cs)),
        final(cs).sat() == old(cs).sat(),
        r.var < final(cs).nv(),
        final(cs).nval(r) == ({
            let t = fadd(old(cs).nval(lw), c.val());
            fadd(fmul(fmul(t, t), t), old(cs).nval(rw))
        }),
{
    let lv = cs.value_of(lw.var);
    let rv = cs.value_of(rw.var);
    let tv = fp_add(lv, c);
    let t2v = fp_mul(tv, tv);
    let nv = fp_add(fp_mul(t2v, tv), rv);
    let t2w = cs.allocate(t2v);
    let c1 = Constraint {
        a: lc_affine1(c, fp_one(), lw.var),
        b: lc_affine1(c, fp_one(), lw.var),
        c: lc_var(t2w.var),
    };
    proof {
        let vals = cs.vals@;
        let vl = old(cs).nval(lw);
        lemma_lc_val_affine1(c1.a, vals);
        lemma_lc_val_affine1(c1.b, vals);
        lemma_lc_val_affine1(c1.c, vals);
        lemma_fmul_one(vl);
        lemma_fmul_comm(1, vl);
        assert(lc_val(c1.a, vals) == fadd(vl, c.val()));
        assert(lc_val(c1.b, vals) == fadd(vl, c.val()));
        lemma_unit_term(t2v.val());
        assert(constraint_sat(c1, vals));
    }
    cs.enforce(c1);
    let nw = cs.allocate(nv);
    let c2 = Constraint {
        a: lc_var(t2w.var),
        b: lc_affine1(c, fp_one(), lw.var),
        c: lc_affine2(fp_zero(), fp_one(), nw.var, fp_neg(fp_one()), rw.var),
    };
    proof {
        let vals = cs.vals@;
        let vl = old(cs).nval(lw);
        let vr = old(cs).nval(rw);
        let t = fadd(vl, c.val());
        lemma_fneg_one();
        lemma_lc_val_affine1(c2.a, vals);
        lemma_lc_val_affine1(c2.b, vals);
        lemma_lc_val_affine2(c2.c, vals);
        lemma_unit_term(t2v.val());
        lemma_fmul_one(vl);
        lemma_fmul_comm(1, vl);
        assert(lc_val(c2.b, vals) == fadd(vl, c.val())) by {
            reveal(fadd);
        }
        lemma_fmul_one(nv.val());
        lemma_fmul_comm(1, nv.val());
        lemma_fmul_one(vr);
        lemma_fmul_comm(1, vr);
        lemma_fneg_mul(1, vr);
        lemma_fneg_bound(vr);
        assert(fadd(fmul(1, nv.val()), fmul(crate::field::fneg(1), vr)) == fsub(nv.val(), vr)) by {
            lemma_small_mod(crate::field::fneg(vr), p());
        }
        assert(lc_val(c2.c, vals) == fadd(fsub(nv.val(), vr), 0));
        lemma_fadd_bound(nv.val(), crate::field::fneg(vr));
        assert(fadd(fsub(nv.val(), vr), 0) == fsub(nv.val(), vr)) by {
            reveal(fadd);
            lemma_small_mod(fsub(nv.val(), vr), p());
        }
        lemma_fsub_of_fadd(fmul(t2v.val(), t), vr);
        assert(fsub(nv.val(), vr) == fmul(t2v.val(), tv.val()));
        assert(constraint_sat(c2, vals));
    }
    cs.enforce(c2);
    nw
}

} // verus!
