//! The Poseidon permutation over a width-5 state: half the full rounds, the
//! partial rounds, then the other half, each round adding constants, applying
//! the x^5 S-box (to every lane or only the first), and mixing the state
//! through a fixed 5x5 matrix.  The matrix step is purely linear, so it is
//! folded symbolically into the linear combinations instead of being
//! constrained; `WrappedLc` keeps the concrete value in lock-step with the
//! symbolic sum so later rounds can read it.

use vstd::prelude::*;
use vstd::arithmetic::div_mod::lemma_small_mod;
use crate::field::{
    Fp, p, fadd, fmul, fp_add, fp_mul, fp_zero, fp_one, lemma_fmul_one, lemma_fmul_comm,
    lemma_fadd_small,
};
use crate::cs::{
    Num, Lc, Constraint, R1cs, lc_val, lc_wf, constraint_sat, extends, lemma_terms_val_extend,
    lemma_axpy_val,
};
use crate::common::{
    lemma_lc_val_const, lemma_lc_val_affine1, lemma_unit_term, lc_var, lc_const,
};
use crate::mimc::{fp_seq, fp_seq_wf};

verus! {

/// A linear combination paired with the value it evaluates to under the
/// current assignment.
#[derive(Clone)]
pub struct WrappedLc {
    pub lc: Lc,
    pub value: Fp,
}

impl WrappedLc {
    /// The pair is consistent with an assignment: the tracked value really is
    /// the combination's value.
    pub open spec fn ok_for(self, vals: Seq<Fp>, n: nat) -> bool {
        &&& lc_wf(self.lc, n)
        &&& self.value.wf()
        &&& lc_val(self.lc, vals) == self.value.val()
    }

    /// Consistency with a whole constraint system.
    pub open spec fn ok(self, cs: R1cs) -> bool {
        self.ok_for(cs.vals@, cs.nv())
    }

    /// The combination holding only zero.
    pub fn zero() -> (r: WrappedLc)
        ensures
            r.lc.terms@.len() == 0,
            r.lc.constant.wf(),
            r.value.wf(),
            r.value.val() == 0,
            r.lc.constant.val() == 0,
    {
        WrappedLc { lc: lc_const(fp_zero()), value: fp_zero() }
    }

    /// Wraps an allocated wire.
    pub fn alloc_num(cs: &R1cs, w: Num) -> (r: WrappedLc)
        requires
            cs.ok(),
            w.var < cs.nv(),
        ensures
            r.ok(*cs),
            r.value.val() == cs.nval(w),
    {
        let v = cs.value_of(w.var);
        let r = WrappedLc { lc: lc_var(w.var), value: v };
        proof {
            lemma_lc_val_affine1(r.lc, cs.vals@);
            lemma_unit_term(v.val());
        }
        r
    }

    /// Adds a constant, symbolically and to the tracked value.
    pub fn add_constant(self, c: Fp) -> (r: WrappedLc)
        requires
            c.wf(),
            self.value.wf(),
            self.lc.constant.wf(),
        ensures
            r.lc.terms@ == self.lc.terms@,
            r.lc.constant.wf(),
            r.value.wf(),
            r.value.val() == fadd(self.value.val(), c.val()),
            r.lc.constant.val() == fadd(self.lc.constant.val(), c.val()),
    {
        let lc = Lc { terms: self.lc.terms, constant: fp_add(self.lc.constant, c) };
        let value = fp_add(self.value, c);
        WrappedLc { lc, value }
    }
}

impl WrappedLc {
    /// An explicit copy whose contract carries the contents.
    pub fn duplicate(&self) -> (r: WrappedLc)
        ensures
            r.lc.terms@ == self.lc.terms@,
            r.lc.constant == self.lc.constant,
            r.value == self.value,
    {
        WrappedLc { lc: self.lc.duplicate(), value: self.value }
    }
}

/// Pure modular bookkeeping: adding a reduced constant before or after
/// reducing the sum comes to the same.
proof fn lemma_add_const_mod(t: nat, ka: nat, c: nat)
    ensures
        (t + (ka + c) % p()) % p() == (((t + ka) % p()) + c) % p(),
{
    vstd::arithmetic::div_mod::lemma_add_mod_noop_right(t as int, (ka + c) as int, p() as int);
    vstd::arithmetic::div_mod::lemma_add_mod_noop(
        (t + ka) as int,
        c as int,
        p() as int,
    );
    vstd::arithmetic::div_mod::lemma_add_mod_noop_right(
        (((t + ka) % p()) as int),
        c as int,
        p() as int,
    );
    vstd::arithmetic::div_mod::lemma_mod_twice((t + ka) as int, p() as int);
    assert((t + (ka + c) % p()) % p() == (t + ka + c) % p());
    assert((((t + ka) % p()) + c % p()) % p() == ((t + ka) + c) % p());
    assert((((t + ka) % p()) + c) % p() == (((t + ka) % p()) + c % p()) % p());
}

/// Adding a constant to a combination adds it to the value.
proof fn lemma_lc_add_const(a: Lc, b: Lc, c: nat, vals: Seq<Fp>)
    requires
        b.terms@ == a.terms@,
        b.constant.val() == fadd(a.constant.val(), c),
    ensures
        lc_val(b, vals) == fadd(lc_val(a, vals), c),
{
    reveal(fadd);
    let t = crate::cs::terms_val(a.terms@, vals);
    let ka = a.constant.val();
    lemma_add_const_mod(t, ka, c);
}

/// The x^5 S-box, computed as two squarings and a final product.
pub open spec fn sbox5(x: nat) -> nat {
    fmul(fmul(fmul(x, x), fmul(x, x)), x)
}

/// Dot product of the first `k` lanes, in the field.
pub open spec fn dot(row: Seq<nat>, st: Seq<nat>, k: int) -> nat
    decreases k,
{
    if k <= 0 {
        0
    } else {
        fadd(dot(row, st, k - 1), fmul(row[k - 1], st[k - 1]))
    }
}

/// Adds five round constants, one per lane.
pub open spec fn add_rc(st: Seq<nat>, rc: Seq<nat>, off: int) -> Seq<nat> {
    Seq::new(st.len(), |i: int| fadd(st[i], rc[off + i]))
}

/// S-box on every lane.
pub open spec fn sbox_full(st: Seq<nat>) -> Seq<nat> {
    Seq::new(st.len(), |i: int| sbox5(st[i]))
}

/// S-box on the first lane only.
pub open spec fn sbox_partial(st: Seq<nat>) -> Seq<nat> {
    st.update(0, sbox5(st[0]))
}

/// The mixing step: each new lane is a row of the matrix dotted with the
/// state.
pub open spec fn mds_apply(m: Seq<Seq<nat>>, st: Seq<nat>) -> Seq<nat> {
    Seq::new(5, |j: int| dot(m[j], st, 5))
}

/// One round: constants, S-box (full or partial), mixing.
pub open spec fn round_spec(rc: Seq<nat>, m: Seq<Seq<nat>>, off: int, st: Seq<nat>, full: bool) -> Seq<nat> {
    if full {
        mds_apply(m, sbox_full(add_rc(st, rc, off)))
    } else {
        mds_apply(m, sbox_partial(add_rc(st, rc, off)))
    }
}

/// The whole permutation: `f1` full rounds, `np` partial rounds, `f2` full
/// rounds, consuming five constants per round.
pub open spec fn perm_spec(
    rc: Seq<nat>,
    m: Seq<Seq<nat>>,
    st: Seq<nat>,
    off: int,
    f1: nat,
    np: nat,
    f2: nat,
) -> Seq<nat>
    decreases f1 + np + f2,
{
    if f1 > 0 {
        perm_spec(rc, m, round_spec(rc, m, off, st, true), off + 5, (f1 - 1) as nat, np, f2)
    } else if np > 0 {
        perm_spec(rc, m, round_spec(rc, m, off, st, false), off + 5, 0, (np - 1) as nat, f2)
    } else if f2 > 0 {
        perm_spec(rc, m, round_spec(rc, m, off, st, true), off + 5, 0, 0, (f2 - 1) as nat)
    } else {
        st
    }
}

/// The externally supplied domain parameters: the round counts, round
/// constants and the 5x5 mixing matrix.
pub struct PoseidonParams {
    pub rounds_f: usize,
    pub rounds_p: usize,
    pub round_constants: Vec<Fp>,
    pub mds: Vec<Vec<Fp>>,
}

impl PoseidonParams {
    /// The constants as field values.
    pub open spec fn rc(self) -> Seq<nat> {
        fp_seq(self.round_constants@)
    }

    /// The matrix as field values.
    pub open spec fn m(self) -> Seq<Seq<nat>> {
        self.mds@.map_values(|row: Vec<Fp>| fp_seq(row@))
    }

    /// Shape and canonicity of the tables.
    pub open spec fn wf(self) -> bool {
        &&& self.rounds_f % 2 == 0
        &&& self.round_constants@.len() == 5 * (self.rounds_f + self.rounds_p)
        &&& fp_seq_wf(self.round_constants@)
        &&& self.mds@.len() == 5
        &&& forall|j: int|
            0 <= j < 5 ==> (#[trigger] self.mds@[j])@.len() == 5 && fp_seq_wf(self.mds@[j]@)
    }
}

/// The tracked values of a state vector.
pub open spec fn state_vals(st: Seq<WrappedLc>) -> Seq<nat> {
    st.map_values(|w: WrappedLc| w.value.val())
}

/// Every wrapped combination in the state is consistent with the system.
pub open spec fn state_ok(st: Seq<WrappedLc>, cs: R1cs) -> bool {
    forall|i: int| 0 <= i < st.len() ==> (#[trigger] st[i]).ok(cs)
}

/// Consistency survives allocating and constraining more of the system.
pub proof fn lemma_wlc_extend(w: WrappedLc, cs1: R1cs, cs2: R1cs)
    requires
        w.ok(cs1),
        extends(cs2, cs1),
    ensures
        w.ok(cs2),
{
    lemma_terms_val_extend(w.lc.terms@, cs1.nv(), cs1.vals@, cs2.vals@);
}

/// Materializes a combination into a fresh wire, in one constraint.
pub fn compress(cs: &mut R1cs, a: WrappedLc) -> (r: Num)
    requires
        old(cs).ok(),
        a.ok(*old(cs)),
    ensures
        final(cs).ok(),
        extends(*final(cs), *old(cs)),
        final(cs).sat() == old(cs).sat(),
        r.var < final(cs).nv(),
        final(cs).nval(r) == a.value.val(),
{
    let w = cs.allocate(a.value);
    let c = Constraint { a: a.lc, b: lc_const(fp_one()), c: lc_var(w.var) };
    proof {
        let vals = cs.vals@;
        lemma_terms_val_extend(c.a.terms@, old(cs).nv(), old(cs).vals@, vals);
        lemma_lc_val_const(c.b, vals);
        lemma_lc_val_affine1(c.c, vals);
        lemma_unit_term(a.value.val());
        lemma_fmul_one(a.value.val());
        assert(constraint_sat(c, vals));
    }
    cs.enforce(c);
    w
}

/// The in-circuit S-box: squares the combination into a wire, squares that
/// wire, and multiplies back by the combination, three constraints in all.
pub fn sbox(cs: &mut R1cs, a: WrappedLc) -> (r: WrappedLc)
    requires
        old(cs).ok(),
        a.ok(*old(cs)),
    ensures
        final(cs).ok(),
        extends(*final(cs), *old(cs)),
        final(cs).sat() == old(cs).sat(),
        r.ok(*final(cs)),
        r.value.val() == sbox5(a.value.val()),
{
    let a2v = fp_mul(a.value, a.value);
    let a2 = cs.allocate(a2v);
    let c1 = Constraint { a: a.lc.duplicate(), b: a.lc.duplicate(), c: lc_var(a2.var) };
    proof {
        let vals = cs.vals@;
        lemma_terms_val_extend(a.lc.terms@, old(cs).nv(), old(cs).vals@, vals);
        assert(lc_val(c1.a, vals) == lc_val(a.lc, vals));
        assert(lc_val(c1.b, vals) == lc_val(a.lc, vals));
        assert(lc_wf(c1.a, cs.nv()) && lc_wf(c1.b, cs.nv()));
        lemma_lc_val_affine1(c1.c, vals);
        lemma_unit_term(a2v.val());
        assert(constraint_sat(c1, vals));
    }
    cs.enforce(c1);
    let a4v = fp_mul(a2v, a2v);
    let a4 = cs.allocate(a4v);
    let c2 = Constraint { a: lc_var(a2.var), b: lc_var(a2.var), c: lc_var(a4.var) };
    proof {
        let vals = cs.vals@;
        lemma_lc_val_affine1(c2.a, vals);
        lemma_lc_val_affine1(c2.b, vals);
        lemma_lc_val_affine1(c2.c, vals);
        lemma_unit_term(a2v.val());
        lemma_unit_term(a4v.val());
        assert(constraint_sat(c2, vals));
    }
    cs.enforce(c2);
    let a5v = fp_mul(a4v, a.value);
    let a5 = cs.allocate(a5v);
    let c3 = Constraint { a: lc_var(a4.var), b: a.lc, c: lc_var(a5.var) };
    proof {
        let vals = cs.vals@;
        lemma_terms_val_extend(c3.b.terms@, old(cs).nv(), old(cs).vals@, vals);
        lemma_lc_val_affine1(c3.a, vals);
        lemma_lc_val_affine1(c3.c, vals);
        lemma_unit_term(a4v.val());
        lemma_unit_term(a5v.val());
        assert(constraint_sat(c3, vals));
    }
    cs.enforce(c3);
    let r = WrappedLc::alloc_num(cs, a5);
    r
}

/// Adds the five constants at the given table offset, one per lane, purely
/// symbolically.
pub fn add_constants(cs: &R1cs, vals: &mut Vec<WrappedLc>, rc: &Vec<Fp>, const_offset: usize)
    requires
        cs.ok(),
        old(vals)@.len() == 5,
        const_offset + 5 <= rc@.len(),
        fp_seq_wf(rc@),
        state_ok(old(vals)@, *cs),
    ensures
        final(vals)@.len() == 5,
        state_ok(final(vals)@, *cs),
        forall|i: int|
            0 <= i < 5 ==> (#[trigger] final(vals)@[i]).value.val() == fadd(
                old(vals)@[i].value.val(),
                rc@[const_offset + i].val(),
            ),
{
    let nrc = rc.len();
    let mut i: usize = 0;
    while i < 5
        invariant
            i <= 5,
            cs.ok(),
            vals@.len() == 5,
            old(vals)@.len() == 5,
            nrc == rc@.len(),
            const_offset + 5 <= nrc,
            fp_seq_wf(rc@),
            state_ok(old(vals)@, *cs),
            forall|j: int| i <= j < 5 ==> (#[trigger] vals@[j]) == old(vals)@[j],
            forall|j: int| 0 <= j < i ==> (#[trigger] vals@[j]).ok(*cs),
            forall|j: int|
                0 <= j < i ==> (#[trigger] vals@[j]).value.val() == fadd(
                    old(vals)@[j].value.val(),
                    rc@[const_offset + j].val(),
                ),
        decreases 5 - i,
    {
        let ghost oe = vals@[i as int];
        proof {
            assert(oe == old(vals)@[i as int]);
            assert(oe.ok(*cs));
        }
        let w = vals[i].duplicate();
        let nw = w.add_constant(rc[const_offset + i]);
        proof {
            lemma_lc_add_const(oe.lc, nw.lc, rc@[const_offset + i].val(), cs.vals@);
            assert(lc_wf(nw.lc, cs.nv()));
            assert(nw.ok(*cs));
            assert(nw.value.val() == fadd(oe.value.val(), rc@[const_offset + i].val()));
        }
        vals.set(i, nw);
        i += 1;
    }
    proof {
        assert(state_ok(vals@, *cs));
    }
}

/// The mixing step: builds each output lane as a row-weighted symbolic sum of
/// the input lanes, with no constraints.
pub fn product_mds(cs: &R1cs, mds: &Vec<Vec<Fp>>, vals: Vec<WrappedLc>) -> (r: Vec<WrappedLc>)
    requires
        cs.ok(),
        vals@.len() == 5,
        mds@.len() == 5,
        forall|j: int| 0 <= j < 5 ==> (#[trigger] mds@[j])@.len() == 5 && fp_seq_wf(mds@[j]@),
        state_ok(vals@, *cs),
    ensures
        r@.len() == 5,
        state_ok(r@, *cs),
        state_vals(r@) =~= mds_apply(
            mds@.map_values(|row: Vec<Fp>| fp_seq(row@)),
            state_vals(vals@),
        ),
{
    let mut result: Vec<WrappedLc> = Vec::new();
    let ghost m = mds@.map_values(|row: Vec<Fp>| fp_seq(row@));
    let ghost sv = state_vals(vals@);
    let mut j: usize = 0;
    while j < 5
        invariant
            j <= 5,
            cs.ok(),
            vals@.len() == 5,
            mds@.len() == 5,
            forall|t: int| 0 <= t < 5 ==> (#[trigger] mds@[t])@.len() == 5 && fp_seq_wf(mds@[t]@),
            state_ok(vals@, *cs),
            m == mds@.map_values(|row: Vec<Fp>| fp_seq(row@)),
            sv == state_vals(vals@),
            result@.len() == j,
            state_ok(result@, *cs),
            forall|t: int| 0 <= t < j ==> (#[trigger] result@[t]).value.val() == dot(m[t], sv, 5),
        decreases 5 - j,
    {
        let row = &mds[j];
        let mut acc = WrappedLc::zero();
        let mut k: usize = 0;
        proof {
            assert(m[j as int] == fp_seq(mds@[j as int]@));
            lemma_lc_val_const(acc.lc, cs.vals@);
            assert(acc.ok(*cs));
        }
        while k < 5
            invariant
                k <= 5,
                j < 5,
                cs.ok(),
                vals@.len() == 5,
                mds@.len() == 5,
                row == &mds@[j as int],
                row@.len() == 5,
                fp_seq_wf(row@),
                state_ok(vals@, *cs),
                m[j as int] == fp_seq(row@),
                sv == state_vals(vals@),
                acc.ok(*cs),
                acc.value.val() == dot(m[j as int], sv, k as int),
            decreases 5 - k,
        {
            let coeff = row[k];
            let ghost se = vals@[k as int];
            let src = vals[k].duplicate();
            let ghost old_acc = acc;
            proof {
                assert(se.ok(*cs));
                assert(src.lc.terms@ == se.lc.terms@ && src.lc.constant == se.lc.constant
                    && src.value == se.value);
                assert(lc_val(src.lc, cs.vals@) == lc_val(se.lc, cs.vals@));
            }
            let new_lc = acc.lc.axpy(coeff, &src.lc);
            let new_value = fp_add(acc.value, fp_mul(coeff, src.value));
            acc = WrappedLc { lc: new_lc, value: new_value };
            proof {
                lemma_axpy_val(acc.lc, old_acc.lc, coeff.val(), src.lc, cs.vals@);
                assert(crate::cs::lc_wf(acc.lc, cs.nv())) by {
                    let nd = old_acc.lc.terms@.len() as int;
                    assert forall|t: int|
                        0 <= t < acc.lc.terms@.len() implies (#[trigger] acc.lc.terms@[t]).0.wf()
                        && acc.lc.terms@[t].1 < cs.nv() by {
                        if t < nd {
                            assert(acc.lc.terms@[t] == old_acc.lc.terms@[t]);
                        } else {
                            assert(acc.lc.terms@[nd + (t - nd)].1 == src.lc.terms@[t - nd].1);
                        }
                    }
                }
                assert(acc.ok(*cs));
                assert(acc.value.val() == fadd(
                    dot(m[j as int], sv, k as int),
                    fmul(coeff.val(), sv[k as int]),
                ));
            }
            k += 1;
        }
        result.push(acc);
        j += 1;
    }
    proof {
        assert(state_vals(result@) =~= mds_apply(m, sv));
    }
    result
}

/// A partial round: constants, S-box on the first lane, the other lanes
/// re-materialized as plain wires, then the mixing step.
pub fn partial_round(
    cs: &mut R1cs,
    params: &PoseidonParams,
    const_offset: usize,
    vals: Vec<WrappedLc>,
) -> (r: Vec<WrappedLc>)
    requires
        old(cs).ok(),
        params.wf(),
        vals@.len() == 5,
        const_offset + 5 <= params.round_constants@.len(),
        state_ok(vals@, *old(cs)),
    ensures
        final(cs).ok(),
        extends(*final(cs), *old(cs)),
        final(cs).sat() == old(cs).sat(),
        r@.len() == 5,
        state_ok(r@, *final(cs)),
        state_vals(r@) =~= round_spec(
            params.rc(),
            params.m(),
            const_offset as int,
            state_vals(vals@),
            false,
        ),
{
    let ghost entry = vals@;
    let mut st = vals;
    add_constants(cs, &mut st, &params.round_constants, const_offset);
    let ghost added = state_vals(st@);
    proof {
        assert(added =~= add_rc(state_vals(entry), params.rc(), const_offset as int));
    }
    let st0 = st[0].duplicate();
    proof {
        assert(st0.ok(*cs));
        assert(st0.value.val() == added[0]);
    }
    let first = sbox(cs, st0);
    let mut mixed_in: Vec<WrappedLc> = Vec::new();
    mixed_in.push(first);
    let mut i: usize = 1;
    while i < 5
        invariant
            1 <= i <= 5,
            cs.ok(),
            extends(*cs, *old(cs)),
            cs.sat() == old(cs).sat(),
            st@.len() == 5,
            state_ok(st@, *old(cs)),
            added == state_vals(st@),
            mixed_in@.len() == i,
            state_ok(mixed_in@, *cs),
            mixed_in@[0].value.val() == sbox5(added[0]),
            forall|j: int| 1 <= j < i ==> (#[trigger] mixed_in@[j]).value.val() == added[j],
        decreases 5 - i,
    {
        let ghost prev = *cs;
        let w = st[i].duplicate();
        proof {
            assert(w.ok(*old(cs)));
            lemma_wlc_extend(w, *old(cs), *cs);
        }
        let nw = compress(cs, w);
        let re = WrappedLc::alloc_num(cs, nw);
        proof {
            assert forall|j: int| 0 <= j < mixed_in@.len() implies (#[trigger] mixed_in@[j]).ok(
                *cs,
            ) by {
                lemma_wlc_extend(mixed_in@[j], prev, *cs);
            }
        }
        mixed_in.push(re);
        i += 1;
    }
    proof {
        assert(state_vals(mixed_in@) =~= sbox_partial(added));
    }
    let out = product_mds(cs, &params.mds, mixed_in);
    out
}

/// A full round: constants, S-box on every lane, the mixing step.
pub fn full_round(
    cs: &mut R1cs,
    params: &PoseidonParams,
    const_offset: usize,
    vals: Vec<WrappedLc>,
) -> (r: Vec<WrappedLc>)
    requires
        old(cs).ok(),
        params.wf(),
        vals@.len() == 5,
        const_offset + 5 <= params.round_constants@.len(),
        state_ok(vals@, *old(cs)),
    ensures
        final(cs).ok(),
        extends(*final(cs), *old(cs)),
        final(cs).sat() == old(cs).sat(),
        r@.len() == 5,
        state_ok(r@, *final(cs)),
        state_vals(r@) =~= round_spec(
            params.rc(),
            params.m(),
            const_offset as int,
            state_vals(vals@),
            true,
        ),
{
    let ghost entry = vals@;
    let mut st = vals;
    add_constants(cs, &mut st, &params.round_constants, const_offset);
    let ghost added = state_vals(st@);
    proof {
        assert(added =~= add_rc(state_vals(entry), params.rc(), const_offset as int));
    }
    let mut boxed: Vec<WrappedLc> = Vec::new();
    let mut i: usize = 0;
    while i < 5
        invariant
            i <= 5,
            cs.ok(),
            extends(*cs, *old(cs)),
            cs.sat() == old(cs).sat(),
            st@.len() == 5,
            state_ok(st@, *old(cs)),
            added == state_vals(st@),
            boxed@.len() == i,
            state_ok(boxed@, *cs),
            forall|j: int| 0 <= j < i ==> (#[trigger] boxed@[j]).value.val() == sbox5(added[j]),
        decreases 5 - i,
    {
        let ghost prev = *cs;
        let w = st[i].duplicate();
        proof {
            assert(w.ok(*old(cs)));
            lemma_wlc_extend(w, *old(cs), *cs);
        }
        let nb = sbox(cs, w);
        proof {
            assert forall|j: int| 0 <= j < boxed@.len() implies (#[trigger] boxed@[j]).ok(*cs) by {
                lemma_wlc_extend(boxed@[j], prev, *cs);
            }
        }
        boxed.push(nb);
        i += 1;
    }
    proof {
        assert(state_vals(boxed@) =~= sbox_full(added));
    }
    let out = product_mds(cs, &params.mds, boxed);
    out
}

/// The four-input Poseidon compression: permutes `[0, a, b, c, d]` and reads
/// the second lane.
pub open spec fn poseidon4_spec(params: PoseidonParams, a: nat, b: nat, c: nat, d: nat) -> nat {
    perm_spec(
        params.rc(),
        params.m(),
        seq![0nat, a, b, c, d],
        0,
        (params.rounds_f / 2) as nat,
        params.rounds_p as nat,
        (params.rounds_f / 2) as nat,
    )[1]
}

/// The four-input Poseidon gadget.
pub fn poseidon4(cs: &mut R1cs, params: &PoseidonParams, a: Num, b: Num, c: Num, d: Num) -> (r: Num)
    requires
        old(cs).ok(),
        params.wf(),
        a.var < old(cs).nv(),
        b.var < old(cs).nv(),
        c.var < old(cs).nv(),
        d.var < old(cs).nv(),
    ensures
        final(cs).ok(),
        extends(*final(cs), *old(cs)),
        final(cs).sat() == old(cs).sat(),
        r.var < final(cs).nv(),
        final(cs).nval(r) == poseidon4_spec(
            *params,
            old(cs).nval(a),
            old(cs).nval(b),
            old(cs).nval(c),
            old(cs).nval(d),
        ),
{
    let mut elems: Vec<WrappedLc> = Vec::new();
    elems.push(WrappedLc::zero());
    elems.push(WrappedLc::alloc_num(cs, a));
    elems.push(WrappedLc::alloc_num(cs, b));
    elems.push(WrappedLc::alloc_num(cs, c));
    elems.push(WrappedLc::alloc_num(cs, d));
    let ghost rc = params.rc();
    let ghost m = params.m();
    let ghost init = state_vals(elems@);
    let ghost ff = (params.rounds_f / 2) as nat;
    let ghost pp = params.rounds_p as nat;
    proof {
        assert(init =~= seq![
            0nat,
            old(cs).nval(a),
            old(cs).nval(b),
            old(cs).nval(c),
            old(cs).nval(d),
        ]);
    }
    let mut const_offset: usize = 0;
    let half = params.rounds_f / 2;
    let total = params.round_constants.len();
    proof {
        assert(params.rounds_f == 2 * half);
        assert(params.round_constants@.len() == 10 * half + 5 * params.rounds_p);
    }
    let mut i: usize = 0;
    while i < half
        invariant
            i <= half,
            half == params.rounds_f / 2,
            params.round_constants@.len() == 10 * half + 5 * params.rounds_p,
            total == params.round_constants@.len(),
            params.wf(),
            cs.ok(),
            extends(*cs, *old(cs)),
            cs.sat() == old(cs).sat(),
            elems@.len() == 5,
            state_ok(elems@, *cs),
            const_offset == 5 * i,
            rc == params.rc(),
            m == params.m(),
            ff == half as nat,
            pp == params.rounds_p as nat,
            perm_spec(rc, m, state_vals(elems@), const_offset as int, (ff - i) as nat, pp, ff)
                =~= perm_spec(rc, m, init, 0, ff, pp, ff),
        decreases half - i,
    {
        let e2 = full_round(cs, params, const_offset, elems);
        elems = e2;
        const_offset += 5;
        i += 1;
    }
    let mut j: usize = 0;
    let np = params.rounds_p;
    while j < np
        invariant
            j <= np,
            np == params.rounds_p,
            half == params.rounds_f / 2,
            params.round_constants@.len() == 10 * half + 5 * np,
            total == params.round_constants@.len(),
            params.wf(),
            cs.ok(),
            extends(*cs, *old(cs)),
            cs.sat() == old(cs).sat(),
            elems@.len() == 5,
            state_ok(elems@, *cs),
            const_offset == 5 * half + 5 * j,
            rc == params.rc(),
            m == params.m(),
            ff == half as nat,
            pp == np as nat,
            perm_spec(rc, m, state_vals(elems@), const_offset as int, 0, (pp - j) as nat, ff)
                =~= perm_spec(rc, m, init, 0, ff, pp, ff),
        decreases np - j,
    {
        let e2 = partial_round(cs, params, const_offset, elems);
        elems = e2;
        const_offset += 5;
        j += 1;
    }
    let mut k: usize = 0;
    while k < half
        invariant
            k <= half,
            np == params.rounds_p,
            half == params.rounds_f / 2,
            params.round_constants@.len() == 10 * half + 5 * np,
            total == params.round_constants@.len(),
            params.wf(),
            cs.ok(),
            extends(*cs, *old(cs)),
            cs.sat() == old(cs).sat(),
            elems@.len() == 5,
            state_ok(elems@, *cs),
            const_offset == 5 * half + 5 * np + 5 * k,
            rc == params.rc(),
            m == params.m(),
            ff == half as nat,
            pp == np as nat,
            perm_spec(rc, m, state_vals(elems@), const_offset as int, 0, 0, (ff - k) as nat)
                =~= perm_spec(rc, m, init, 0, ff, pp, ff),
        decreases half - k,
    {
        let e2 = full_round(cs, params, const_offset, elems);
        elems = e2;
        const_offset += 5;
        k += 1;
    }
    let out = elems[1].duplicate();
    proof {
        assert(out.ok(*cs));
        assert(state_vals(elems@)[1] == out.value.val());
        assert(perm_spec(rc, m, state_vals(elems@), const_offset as int, 0, 0, 0) =~= state_vals(
            elems@,
        ));
    }
    compress(cs, out)
}

/// The variable-arity Poseidon: folds the tail of the input list through
/// four-input compressions, three new inputs at a time, padding the last
/// chunk with constrained zero wires.
pub open spec fn poseidon_fold(params: PoseidonParams, acc: nat, rest: Seq<nat>) -> nat
    decreases rest.len(),
{
    if rest.len() == 0 {
        acc
    } else if rest.len() == 1 {
        poseidon4_spec(params, acc, rest[0], 0, 0)
    } else if rest.len() == 2 {
        poseidon4_spec(params, acc, rest[0], rest[1], 0)
    } else {
        poseidon_fold(
            params,
            poseidon4_spec(params, acc, rest[0], rest[1], rest[2]),
            rest.skip(3),
        )
    }
}

/// The values of a vector of wires.
pub open spec fn nums_vals(cs: R1cs, ws: Seq<Num>) -> Seq<nat> {
    ws.map_values(|w: Num| cs.nval(w))
}

/// The variable-arity Poseidon gadget.
pub fn poseidon(cs: &mut R1cs, params: &PoseidonParams, vals: &Vec<Num>) -> (r: Num)
    requires
        old(cs).ok(),
        params.wf(),
        vals@.len() >= 1,
        forall|i: int| 0 <= i < vals@.len() ==> (#[trigger] vals@[i]).var < old(cs).nv(),
    ensures
        final(cs).ok(),
        extends(*final(cs), *old(cs)),
        final(cs).sat() == old(cs).sat(),
        r.var < final(cs).nv(),
        final(cs).nval(r) == poseidon_fold(
            *params,
            old(cs).nval(vals@[0]),
            nums_vals(*old(cs), vals@).drop_first(),
        ),
{
    let mut first = vals[0];
    let zero_w = cs.allocate(fp_zero());
    let zc = Constraint {
        a: lc_var(zero_w.var),
        b: lc_const(fp_one()),
        c: lc_const(fp_zero()),
    };
    proof {
        let vs = cs.vals@;
        lemma_lc_val_affine1(zc.a, vs);
        lemma_lc_val_const(zc.b, vs);
        lemma_lc_val_const(zc.c, vs);
        lemma_unit_term(0);
        lemma_fmul_one(0);
        assert(constraint_sat(zc, vs));
    }
    cs.enforce(zc);
    let ghost all = nums_vals(*old(cs), vals@);
    let n = vals.len();
    let mut i: usize = 1;
    while i < n
        invariant
            1 <= i <= n || (n == 1 && i == 1),
            n == vals@.len(),
            params.wf(),
            cs.ok(),
            extends(*cs, *old(cs)),
            cs.sat() == old(cs).sat(),
            first.var < cs.nv(),
            zero_w.var < cs.nv(),
            cs.nval(zero_w) == 0,
            forall|t: int| 0 <= t < n ==> (#[trigger] vals@[t]).var < old(cs).nv(),
            all == nums_vals(*old(cs), vals@),
            poseidon_fold(*params, cs.nval(first), all.skip(i as int)) == poseidon_fold(
                *params,
                all[0],
                all.drop_first(),
            ),
        decreases n - i,
    {
        let remaining = n - i;
        let ghost prev = *cs;
        if remaining == 1 {
            let f2 = poseidon4(cs, params, first, vals[i], zero_w, zero_w);
            proof {
                assert(all.skip(i as int).len() == 1);
                assert(all.skip(i as int)[0] == all[i as int]);
            }
            first = f2;
            i += 1;
        } else if remaining == 2 {
            let f2 = poseidon4(cs, params, first, vals[i], vals[i + 1], zero_w);
            proof {
                assert(all.skip(i as int).len() == 2);
                assert(all.skip(i as int)[0] == all[i as int]);
                assert(all.skip(i as int)[1] == all[i + 1]);
            }
            first = f2;
            i += 2;
        } else {
            let f2 = poseidon4(cs, params, first, vals[i], vals[i + 1], vals[i + 2]);
            proof {
                assert(all.skip(i as int).len() >= 3);
                assert(all.skip(i as int)[0] == all[i as int]);
                assert(all.skip(i as int)[1] == all[i + 1]);
                assert(all.skip(i as int)[2] == all[i + 2]);
                assert(all.skip(i as int).skip(3) =~= all.skip(i + 3));
            }
            first = f2;
            i += 3;
        }
    }
    proof {
        assert(all.skip(n as int) =~= Seq::<nat>::empty());
        assert(all[0] == old(cs).nval(vals@[0]));
    }
    first
}

} // verus!
