//! The rank-1 constraint system that the gadgets build into: an assignment of
//! field values to wires, and a list of constraints of the shape
//! `L * R = O` over linear combinations of those wires.  The system keeps the
//! invariant that its assignment satisfies every constraint accumulated so
//! far; `check` re-evaluates the whole system, so a tampered assignment can be
//! told apart from a valid one.

use vstd::prelude::*;
use vstd::arithmetic::div_mod::*;
use vstd::arithmetic::mul::*;
use crate::field::{Fp, p, fadd, fmul, fp_mul, fp_add, lemma_pow2_consts, lemma_val_inj};

verus! {

/// A wire: an index into the assignment of one constraint system.
#[derive(Clone, Copy)]
pub struct Num {
    pub var: usize,
}

/// A wire that the constraint which created it forces to hold 0 or 1.
#[derive(Clone, Copy)]
pub struct Bit {
    pub var: usize,
}

/// A weighted sum of wires plus a constant.
#[derive(Clone)]
pub struct Lc {
    pub terms: Vec<(Fp, usize)>,
    pub constant: Fp,
}

/// One rank-1 constraint: `a * b = c` over the assignment.
#[derive(Clone)]
pub struct Constraint {
    pub a: Lc,
    pub b: Lc,
    pub c: Lc,
}

/// The accumulator for one circuit: wire values and constraints.
pub struct R1cs {
    pub vals: Vec<Fp>,
    pub constraints: Vec<Constraint>,
}

/// The weighted sum of the terms, before reduction.
pub open spec fn terms_val(terms: Seq<(Fp, usize)>, vals: Seq<Fp>) -> nat
    decreases terms.len(),
{
    if terms.len() == 0 {
        0
    } else {
        terms_val(terms.drop_last(), vals) + terms.last().0.val() * vals[terms.last().1 as int].val()
    }
}

/// The field value of a linear combination under an assignment.
pub open spec fn lc_val(lc: Lc, vals: Seq<Fp>) -> nat {
    (terms_val(lc.terms@, vals) + lc.constant.val()) % p()
}

/// Structurally fine: canonical coefficients, wire indices in range.
pub open spec fn lc_wf(lc: Lc, n: nat) -> bool {
    &&& lc.constant.wf()
    &&& forall|i: int|
        0 <= i < lc.terms@.len() ==> (#[trigger] lc.terms@[i]).0.wf() && lc.terms@[i].1 < n
}

pub open spec fn constraint_wf(c: Constraint, n: nat) -> bool {
    lc_wf(c.a, n) && lc_wf(c.b, n) && lc_wf(c.c, n)
}

/// The assignment satisfies the constraint.
pub open spec fn constraint_sat(c: Constraint, vals: Seq<Fp>) -> bool {
    fmul(lc_val(c.a, vals), lc_val(c.b, vals)) == lc_val(c.c, vals)
}

impl R1cs {
    /// Number of allocated wires.
    pub open spec fn nv(self) -> nat {
        self.vals@.len()
    }

    /// Every wire value canonical, every constraint over wires in range.
    pub open spec fn ok(self) -> bool {
        &&& forall|i: int| 0 <= i < self.vals@.len() ==> (#[trigger] self.vals@[i]).wf()
        &&& forall|i: int|
            0 <= i < self.constraints@.len() ==> constraint_wf(
                #[trigger] self.constraints@[i],
                self.nv(),
            )
    }

    /// The assignment satisfies every accumulated constraint.
    pub open spec fn sat(self) -> bool {
        forall|i: int|
            0 <= i < self.constraints@.len() ==> constraint_sat(
                #[trigger] self.constraints@[i],
                self.vals@,
            )
    }

    /// The value of a wire.
    pub open spec fn v(self, i: int) -> nat {
        self.vals@[i].val()
    }

    /// The value of a number wire.
    pub open spec fn nval(self, w: Num) -> nat {
        self.v(w.var as int)
    }

    /// The value of a boolean wire.
    pub open spec fn bval(self, w: Bit) -> nat {
        self.v(w.var as int)
    }
}

/// The new system still holds everything the old one held, in place.
pub open spec fn extends(new: R1cs, old: R1cs) -> bool {
    &&& old.vals@.len() <= new.vals@.len()
    &&& old.constraints@.len() <= new.constraints@.len()
    &&& forall|i: int| 0 <= i < old.vals@.len() ==> new.vals@[i] == old.vals@[i]
    &&& forall|i: int| 0 <= i < old.constraints@.len() ==> new.constraints@[i] == old.constraints@[i]
}

/// A linear combination over the first `n` wires evaluates the same under any
/// extension of the assignment.
pub proof fn lemma_terms_val_extend(terms: Seq<(Fp, usize)>, n: nat, vals1: Seq<Fp>, vals2: Seq<Fp>)
    requires
        forall|i: int| 0 <= i < terms.len() ==> (#[trigger] terms[i]).1 < n,
        n <= vals1.len(),
        vals1.len() <= vals2.len(),
        forall|i: int| 0 <= i < vals1.len() ==> vals1[i] == vals2[i],
    ensures
        terms_val(terms, vals1) == terms_val(terms, vals2),
    decreases terms.len(),
{
    if terms.len() > 0 {
        lemma_terms_val_extend(terms.drop_last(), n, vals1, vals2);
        assert(vals1[terms.last().1 as int] == vals2[terms.last().1 as int]);
    }
}

pub proof fn lemma_constraint_sat_extend(c: Constraint, n: nat, vals1: Seq<Fp>, vals2: Seq<Fp>)
    requires
        constraint_wf(c, n),
        n <= vals1.len(),
        vals1.len() <= vals2.len(),
        forall|i: int| 0 <= i < vals1.len() ==> vals1[i] == vals2[i],
    ensures
        constraint_sat(c, vals1) == constraint_sat(c, vals2),
        lc_val(c.a, vals1) == lc_val(c.a, vals2),
        lc_val(c.b, vals1) == lc_val(c.b, vals2),
        lc_val(c.c, vals1) == lc_val(c.c, vals2),
{
    lemma_terms_val_extend(c.a.terms@, n, vals1, vals2);
    lemma_terms_val_extend(c.b.terms@, n, vals1, vals2);
    lemma_terms_val_extend(c.c.terms@, n, vals1, vals2);
}

impl R1cs {
    /// A fresh, empty constraint system.
    pub fn new() -> (r: R1cs)
        ensures
            r.ok(),
            r.sat(),
            r.nv() == 0,
            r.constraints@.len() == 0,
    {
        R1cs { vals: Vec::new(), constraints: Vec::new() }
    }

    /// Allocates a new wire holding the given value.
    pub fn allocate(&mut self, v: Fp) -> (w: Num)
        requires
            v.wf(),
            old(self).ok(),
        ensures
            final(self).ok(),
            final(self).vals@ == old(self).vals@.push(v),
            final(self).constraints@ == old(self).constraints@,
            extends(*final(self), *old(self)),
            w.var == old(self).nv(),
            final(self).nv() == old(self).nv() + 1,
            final(self).nval(w) == v.val(),
            final(self).sat() == old(self).sat(),
    {
        let w = Num { var: self.vals.len() };
        self.vals.push(v);
        proof {
            assert forall|i: int| 0 <= i < self.constraints@.len() implies constraint_sat(
                #[trigger] self.constraints@[i],
                self.vals@,
            ) == constraint_sat(self.constraints@[i], old(self).vals@) by {
                lemma_constraint_sat_extend(
                    self.constraints@[i],
                    old(self).nv(),
                    old(self).vals@,
                    self.vals@,
                );
            }
        }
        w
    }

    /// Adds one constraint.
    pub fn enforce(&mut self, c: Constraint)
        requires
            old(self).ok(),
            constraint_wf(c, old(self).nv()),
        ensures
            final(self).ok(),
            final(self).vals@ == old(self).vals@,
            final(self).constraints@ == old(self).constraints@.push(c),
            extends(*final(self), *old(self)),
            final(self).sat() == (old(self).sat() && constraint_sat(c, old(self).vals@)),
    {
        self.constraints.push(c);
        proof {
            assert(self.constraints@.last() == c);
            assert(forall|i: int|
                0 <= i < old(self).constraints@.len() ==> self.constraints@[i]
                    == old(self).constraints@[i]);
            if old(self).sat() && constraint_sat(c, old(self).vals@) {
                assert forall|i: int| 0 <= i < self.constraints@.len() implies constraint_sat(
                    #[trigger] self.constraints@[i],
                    self.vals@,
                ) by {
                    if i < old(self).constraints@.len() {
                        assert(constraint_sat(old(self).constraints@[i], old(self).vals@));
                    }
                }
            }
        }
    }

    /// Reads the value a wire currently holds.
    pub fn value_of(&self, i: usize) -> (r: Fp)
        requires
            i < self.nv(),
            self.ok(),
        ensures
            r.wf(),
            r.val() == self.v(i as int),
    {
        self.vals[i]
    }

    /// Overwrites one wire value; the constraints are untouched, so the
    /// resulting system may no longer be satisfied.
    pub fn set_value(&mut self, i: usize, v: Fp)
        requires
            i < old(self).nv(),
            v.wf(),
            old(self).ok(),
        ensures
            final(self).ok(),
            final(self).vals@ == old(self).vals@.update(i as int, v),
            final(self).constraints@ == old(self).constraints@,
    {
        self.vals[i] = v;
    }

    /// Evaluates every constraint against the assignment.
    pub fn check(&self) -> (r: bool)
        requires
            self.ok(),
        ensures
            r == self.sat(),
    {
        let n = self.constraints.len();
        let mut i: usize = 0;
        while i < n
            invariant
                n == self.constraints@.len(),
                i <= n,
                self.ok(),
                forall|j: int| 0 <= j < i ==> constraint_sat(#[trigger] self.constraints@[j], self.vals@),
            decreases n - i,
        {
            let c = &self.constraints[i];
            let la = eval_lc(&c.a, &self.vals);
            let lb = eval_lc(&c.b, &self.vals);
            let lo = eval_lc(&c.c, &self.vals);
            let prod = fp_mul(la, lb);
            if !(prod.l0 == lo.l0 && prod.l1 == lo.l1 && prod.l2 == lo.l2 && prod.l3 == lo.l3) {
                proof {
                    if prod.val() == lo.val() {
                        lemma_val_inj(prod, lo);
                    }
                    assert(!constraint_sat(self.constraints@[i as int], self.vals@));
                }
                return false;
            }
            proof {
                assert(prod == lo);
                assert(constraint_sat(self.constraints@[i as int], self.vals@));
            }
            i += 1;
        }
        true
    }
}

impl Lc {
    /// An explicit copy whose contract carries the contents.
    pub fn duplicate(&self) -> (r: Lc)
        ensures
            r.terms@ == self.terms@,
            r.constant == self.constant,
    {
        let mut terms: Vec<(Fp, usize)> = Vec::new();
        let n = self.terms.len();
        let mut i: usize = 0;
        while i < n
            invariant
                i <= n,
                n == self.terms@.len(),
                terms@ == self.terms@.take(i as int),
            decreases n - i,
        {
            let t = self.terms[i];
            terms.push(t);
            proof {
                assert(self.terms@.take(i + 1) =~= self.terms@.take(i as int).push(
                    self.terms@[i as int],
                ));
            }
            i += 1;
        }
        proof {
            assert(self.terms@.take(n as int) =~= self.terms@);
        }
        Lc { terms, constant: self.constant }
    }
}

/// Evaluates a linear combination under an assignment.
pub fn eval_lc(lc: &Lc, vals: &Vec<Fp>) -> (r: Fp)
    requires
        lc_wf(*lc, vals@.len()),
        forall|i: int| 0 <= i < vals@.len() ==> (#[trigger] vals@[i]).wf(),
    ensures
        r.wf(),
        r.val() == lc_val(*lc, vals@),
{
    let mut acc = lc.constant;
    let n = lc.terms.len();
    let mut i: usize = 0;
    proof {
        lemma_pow2_consts();
        lemma_small_mod(lc.constant.val(), p());
        assert(lc.terms@.take(0) =~= Seq::<(Fp, usize)>::empty());
    }
    while i < n
        invariant
            n == lc.terms@.len(),
            i <= n,
            lc_wf(*lc, vals@.len()),
            forall|j: int| 0 <= j < vals@.len() ==> (#[trigger] vals@[j]).wf(),
            acc.wf(),
            acc.val() == (terms_val(lc.terms@.take(i as int), vals@) + lc.constant.val()) % p(),
        decreases n - i,
    {
        let (coeff, var) = lc.terms[i];
        let m = fp_mul(coeff, vals[var]);
        let ghost old_acc = acc;
        acc = fp_add(acc, m);
        proof {
            reveal(crate::field::fadd);
            reveal(crate::field::fmul);
            let ts = lc.terms@.take(i + 1);
            assert(ts.drop_last() =~= lc.terms@.take(i as int));
            assert(ts.last() == lc.terms@[i as int]);
            let s = terms_val(lc.terms@.take(i as int), vals@);
            let t = coeff.val() * vals@[var as int].val();
            lemma_pow2_consts();
            lemma_add_mod_noop((s + lc.constant.val()) as int, t as int, p() as int);
            lemma_small_mod(old_acc.val(), p());
            assert(acc.val() == ((s + lc.constant.val()) % p() + t % p()) % p());
            assert(terms_val(ts, vals@) == s + t);
        }
        i += 1;
    }
    proof {
        assert(lc.terms@.take(n as int) =~= lc.terms@);
    }
    acc
}


/// The weighted sum of concatenated term lists splits.
pub proof fn lemma_terms_val_concat(a: Seq<(Fp, usize)>, b: Seq<(Fp, usize)>, vals: Seq<Fp>)
    ensures
        terms_val(a + b, vals) == terms_val(a, vals) + terms_val(b, vals),
    decreases b.len(),
{
    if b.len() == 0 {
        assert(a + b =~= a);
    } else {
        lemma_terms_val_concat(a, b.drop_last(), vals);
        assert((a + b).drop_last() =~= a + b.drop_last());
        assert((a + b).last() == b.last());
    }
}

/// Scaling every coefficient of a term list scales its reduced sum.
pub proof fn lemma_terms_val_scaled(
    src: Seq<(Fp, usize)>,
    scaled: Seq<(Fp, usize)>,
    k: nat,
    vals: Seq<Fp>,
)
    requires
        scaled.len() == src.len(),
        forall|j: int|
            0 <= j < src.len() ==> (#[trigger] scaled[j]).0.val() == fmul(
                k,
                src[j].0.val(),
            ) && scaled[j].1 == src[j].1,
    ensures
        terms_val(scaled, vals) % p() == (k * terms_val(src, vals)) % p(),
    decreases src.len(),
{
    reveal(fmul);
    if src.len() == 0 {
        lemma_small_mod(0, p());
        lemma_mul_basics(k as int);
    } else {
        let ss = scaled.drop_last();
        let sd = src.drop_last();
        assert(ss.len() == sd.len());
        assert(forall|j: int|
            0 <= j < sd.len() ==> (#[trigger] ss[j]).0.val() == fmul(k, sd[j].0.val()) && ss[j].1
                == sd[j].1);
        lemma_terms_val_scaled(sd, ss, k, vals);
        let s1 = terms_val(ss, vals);
        let s0 = terms_val(sd, vals);
        let c = src.last().0.val();
        let v = vals[src.last().1 as int].val();
        assert(scaled.last().1 == src.last().1);
        assert(scaled.last().0.val() == (k * c) % p());
        assert(terms_val(scaled, vals) == s1 + ((k * c) % p()) * v);
        lemma_add_mod_noop(s1 as int, (((k * c) % p()) * v) as int, p() as int);
        lemma_mul_mod_noop_left((k * c) as int, v as int, p() as int);
        lemma_mul_is_associative(k as int, c as int, v as int);
        lemma_add_mod_noop((k * s0) as int, (k * (c * v)) as int, p() as int);
        lemma_mul_is_distributive_add(k as int, s0 as int, (c * v) as int);
        lemma_mod_twice((k * s0) as int, p() as int);
        lemma_mod_twice((k * (c * v)) as int, p() as int);
        assert((s1 + ((k * c) % p()) * v) % p() == (s1 % p() + (((k * c) % p()) * v) % p()) % p());
        assert(s1 % p() == (k * s0) % p()) by {
            lemma_mod_twice(s1 as int, p() as int);
        }
        assert((((k * c) % p()) * v) % p() == (k * (c * v)) % p());
        assert((s1 % p() + (((k * c) % p()) * v) % p()) % p() == ((k * s0) % p() + (k * (c * v))
            % p()) % p());
        assert(((k * s0) % p() + (k * (c * v)) % p()) % p() == (k * s0 + k * (c * v)) % p());
        assert(k * s0 + k * (c * v) == k * (s0 + c * v));
        assert(terms_val(src, vals) == s0 + c * v);
    }
}

impl Lc {
    /// Appends `k` times another combination, symbolically: no constraint is
    /// added, the terms are concatenated with scaled coefficients.
    pub fn axpy(self, k: Fp, src: &Lc) -> (r: Lc)
        requires
            k.wf(),
            self.constant.wf(),
            src.constant.wf(),
            forall|j: int| 0 <= j < src.terms@.len() ==> (#[trigger] src.terms@[j]).0.wf(),
        ensures
            r.terms@.len() == self.terms@.len() + src.terms@.len(),
            forall|j: int|
                0 <= j < self.terms@.len() ==> (#[trigger] r.terms@[j]) == self.terms@[j],
            forall|j: int|
                0 <= j < src.terms@.len() ==> ((#[trigger] r.terms@[self.terms@.len()
                    + j]).0).val() == fmul(k.val(), src.terms@[j].0.val()) && r.terms@[self.terms@.len() + j].0.wf()
                    && r.terms@[self.terms@.len() + j].1 == src.terms@[j].1,
            r.constant.val() == fadd(self.constant.val(), fmul(k.val(), src.constant.val())),
            r.constant.wf(),
    {
        let mut terms = self.terms;
        let ghost base = terms@.len();
        let mut j: usize = 0;
        let n = src.terms.len();
        while j < n
            invariant
                j <= n,
                n == src.terms@.len(),
                k.wf(),
                forall|t: int| 0 <= t < n ==> (#[trigger] src.terms@[t]).0.wf(),
                terms@.len() == base + j,
                forall|t: int| 0 <= t < base ==> (#[trigger] terms@[t]) == self.terms@[t],
                forall|t: int|
                    0 <= t < j ==> ((#[trigger] terms@[base + t]).0).val() == fmul(
                        k.val(),
                        src.terms@[t].0.val(),
                    ) && terms@[base + t].0.wf() && terms@[base + t].1 == src.terms@[t].1,
            decreases n - j,
        {
            let (c0, w0) = src.terms[j];
            terms.push((fp_mul(k, c0), w0));
            j += 1;
        }
        let constant = fp_add(self.constant, fp_mul(k, src.constant));
        Lc { terms, constant }
    }
}

/// The modular bookkeeping behind `lemma_axpy_val`, over plain values.
#[verifier::rlimit(100)]
proof fn lemma_axpy_mod(td: nat, tbv: nat, ts: nat, kd: nat, ks: nat, rc: nat, k: nat)
    requires
        tbv % p() == (k * ts) % p(),
        rc == fadd(kd, fmul(k, ks)),
    ensures
        (td + tbv + rc) % p() == fadd((td + kd) % p(), fmul(k, (ts + ks) % p())),
{
    reveal(fadd);
    reveal(fmul);
    lemma_mul_mod_noop_right(k as int, (ts + ks) as int, p() as int);
    lemma_add_mod_noop((td + kd) as int, (k * (ts + ks)) as int, p() as int);
    lemma_mod_twice((td + kd) as int, p() as int);
    lemma_mod_twice((k * (ts + ks)) as int, p() as int);
    assert(fadd((td + kd) % p(), fmul(k, (ts + ks) % p())) == ((td + kd) + k * (ts + ks)) % p());
    lemma_mul_is_distributive_add(k as int, ts as int, ks as int);
    assert(rc == (kd + (k * ks) % p()) % p());
    lemma_add_mod_noop_right(kd as int, (k * ks) as int, p() as int);
    lemma_mod_bound((kd + (k * ks) % p()) as int, p() as int);
    lemma_small_mod(rc, p());
    assert(rc % p() == (kd + k * ks) % p());
    lemma_add_mod_noop(td as int, tbv as int, p() as int);
    lemma_mod_twice(td as int, p() as int);
    lemma_mod_twice(tbv as int, p() as int);
    lemma_add_mod_noop_right(td as int, (k * ts) as int, p() as int);
    assert((td + tbv) % p() == (td % p() + tbv % p()) % p());
    assert((td % p() + tbv % p()) % p() == (td % p() + (k * ts) % p()) % p()) by {
        lemma_mod_twice(tbv as int, p() as int);
    }
    assert((td + tbv) % p() == (td + k * ts) % p()) by {
        lemma_add_mod_noop(td as int, (k * ts) as int, p() as int);
        lemma_mod_twice((k * ts) as int, p() as int);
    }
    lemma_add_mod_noop((td + tbv) as int, rc as int, p() as int);
    lemma_mod_twice((td + tbv) as int, p() as int);
    assert((td + tbv + rc) % p() == ((td + tbv) % p() + rc % p()) % p());
    assert(((td + tbv) % p() + rc % p()) % p() == ((td + k * ts) % p() + (kd + k * ks) % p())
        % p());
    lemma_add_mod_noop((td + k * ts) as int, (kd + k * ks) as int, p() as int);
    lemma_mod_twice((td + k * ts) as int, p() as int);
    lemma_mod_twice((kd + k * ks) as int, p() as int);
    assert(((td + k * ts) % p() + (kd + k * ks) % p()) % p() == ((td + k * ts) + (kd + k * ks))
        % p());
    assert((td + k * ts) + (kd + k * ks) == (td + kd) + k * (ts + ks));
}

/// The evaluation of an `axpy` result.
pub proof fn lemma_axpy_val(r: Lc, dst: Lc, k: nat, src: Lc, vals: Seq<Fp>)
    requires
        r.terms@.len() == dst.terms@.len() + src.terms@.len(),
        forall|j: int| 0 <= j < dst.terms@.len() ==> (#[trigger] r.terms@[j]) == dst.terms@[j],
        forall|j: int|
            0 <= j < src.terms@.len() ==> ((#[trigger] r.terms@[dst.terms@.len() + j]).0).val()
                == fmul(k, src.terms@[j].0.val()) && r.terms@[dst.terms@.len() + j].1
                == src.terms@[j].1,
        r.constant.val() == fadd(dst.constant.val(), fmul(k, src.constant.val())),
    ensures
        lc_val(r, vals) == fadd(lc_val(dst, vals), fmul(k, lc_val(src, vals))),
{
    let ta = r.terms@.take(dst.terms@.len() as int);
    let tb = r.terms@.skip(dst.terms@.len() as int);
    assert(ta =~= dst.terms@);
    assert(r.terms@ =~= ta + tb);
    lemma_terms_val_concat(ta, tb, vals);
    assert forall|j: int|
        0 <= j < src.terms@.len() implies ((#[trigger] tb[j]).0).val() == fmul(
        k,
        src.terms@[j].0.val(),
    ) && tb[j].1 == src.terms@[j].1 by {
        assert(tb[j] == r.terms@[dst.terms@.len() + j]);
    }
    lemma_terms_val_scaled(src.terms@, tb, k, vals);
    lemma_axpy_mod(
        terms_val(dst.terms@, vals),
        terms_val(tb, vals),
        terms_val(src.terms@, vals),
        dst.constant.val(),
        src.constant.val(),
        r.constant.val(),
        k,
    );
}

} // verus!
