//! The native-gate backend: the same capability surface as the rank-1
//! system, but with point addition, fixed-width bit decomposition and
//! identity-selection available as single atomic gates, so curve work costs
//! far fewer constraints.  The EdDSA verification gadget is realized once
//! more against this backend; its satisfaction condition is the same
//! `sig_ok` predicate as the rank-1 flavor's, which is what makes the two
//! backends accept exactly the same assignments.

use vstd::prelude::*;
use vstd::arithmetic::power2::pow2;
use vstd::arithmetic::div_mod::lemma_small_mod;
use crate::field::{
    Fp, p, fadd, fmul, fneg, fsub, field_inv, fp_add, fp_mul, fp_sub, fp_zero, fp_one, fp_neg,
    fp_invert, fp_bit, bit_of, lemma_fmul_one, lemma_fmul_comm, lemma_fmul_zero, lemma_fneg_one,
    lemma_fneg_mul, lemma_fneg_bound, lemma_fadd_bound, lemma_inv_unique, lemma_val_inj,
    lemma_val_zero, lemma_pow2_consts, lemma_fsub_zero_iff,
};
use crate::cs::{Num, Bit, Lc, Constraint, lc_val, lc_wf, constraint_wf, constraint_sat, terms_val};
use crate::common::{
    boolish, lemma_lc_val_affine1, lemma_lc_val_affine2, lemma_lc_val_const, lemma_unit_term,
    lc_var, lc_const, lc_affine1, lc_affine2,
};
use crate::curve::{e_common, eadd, scalar_bits, smul, cof8};
use crate::mimc::{mimc_spec, fp_seq, fp_seq_wf};
use crate::eddsa::{eddsa_hash, sig_ok};

verus! {

/// A point given by two wires of the composer.
#[derive(Clone, Copy)]
pub struct WitnessPoint {
    pub x: Num,
    pub y: Num,
}

/// One gate of the native-gate system.
pub enum Gate {
    /// A generic quadratic constraint, as in the rank-1 backend.
    Quad(Constraint),
    /// The atomic complete-formula point addition of the curve with the
    /// given constants.
    PointAdd { a: Fp, d: Fp, x1: usize, y1: usize, x2: usize, y2: usize, x3: usize, y3: usize },
    /// The atomic 255-bit decomposition: each listed wire holds one bit of
    /// the decomposed wire.
    Decomp { var: usize, bits: Vec<usize> },
    /// Selects a point or the identity `(0, 1)` by a boolean wire.
    SelectIdentity { bit: usize, px: usize, py: usize, ox: usize, oy: usize },
}

/// The native-gate accumulator.
pub struct Composer {
    pub vals: Vec<Fp>,
    pub gates: Vec<Gate>,
}

pub open spec fn gate_wf(g: Gate, n: nat) -> bool {
    match g {
        Gate::Quad(c) => constraint_wf(c, n),
        Gate::PointAdd { a, d, x1, y1, x2, y2, x3, y3 } => a.wf() && d.wf() && x1 < n && y1 < n
            && x2 < n && y2 < n && x3 < n && y3 < n,
        Gate::Decomp { var, bits } => var < n && bits@.len() == 255 && forall|i: int|
            0 <= i < 255 ==> (#[trigger] bits@[i]) < n,
        Gate::SelectIdentity { bit, px, py, ox, oy } => bit < n && px < n && py < n && ox < n && oy
            < n,
    }
}

pub open spec fn gate_sat(g: Gate, vals: Seq<Fp>) -> bool {
    match g {
        Gate::Quad(c) => constraint_sat(c, vals),
        Gate::PointAdd { a, d, x1, y1, x2, y2, x3, y3 } => (
        vals[x3 as int].val(),
        vals[y3 as int].val(),
        ) == eadd(
            a.val(),
            d.val(),
            (vals[x1 as int].val(), vals[y1 as int].val()),
            (vals[x2 as int].val(), vals[y2 as int].val()),
        ),
        Gate::Decomp { var, bits } => forall|i: int|
            0 <= i < 255 ==> vals[(#[trigger] bits@[i]) as int].val() == (if bit_of(
                vals[var as int].val(),
                i as nat,
            ) {
                1nat
            } else {
                0nat
            }),
        Gate::SelectIdentity { bit, px, py, ox, oy } => boolish(vals[bit as int].val()) && (
        vals[ox as int].val(),
        vals[oy as int].val(),
        ) == (if vals[bit as int].val() == 1 {
            (vals[px as int].val(), vals[py as int].val())
        } else {
            (0nat, 1nat)
        }),
    }
}

impl Composer {
    pub open spec fn nv(self) -> nat {
        self.vals@.len()
    }

    pub open spec fn ok(self) -> bool {
        &&& forall|i: int| 0 <= i < self.vals@.len() ==> (#[trigger] self.vals@[i]).wf()
        &&& forall|i: int|
            0 <= i < self.gates@.len() ==> gate_wf(#[trigger] self.gates@[i], self.nv())
    }

    pub open spec fn sat(self) -> bool {
        forall|i: int|
            0 <= i < self.gates@.len() ==> gate_sat(#[trigger] self.gates@[i], self.vals@)
    }

    pub open spec fn v(self, i: int) -> nat {
        self.vals@[i].val()
    }

    pub open spec fn nval(self, w: Num) -> nat {
        self.v(w.var as int)
    }

    pub open spec fn bval(self, w: Bit) -> nat {
        self.v(w.var as int)
    }

    pub open spec fn pvals(self, pt: WitnessPoint) -> (nat, nat) {
        (self.nval(pt.x), self.nval(pt.y))
    }
}

/// The composer grew without disturbing what was already there.
pub open spec fn c_extends(new: Composer, old: Composer) -> bool {
    &&& old.vals@.len() <= new.vals@.len()
    &&& old.gates@.len() <= new.gates@.len()
    &&& forall|i: int| 0 <= i < old.vals@.len() ==> new.vals@[i] == old.vals@[i]
    &&& forall|i: int| 0 <= i < old.gates@.len() ==> new.gates@[i] == old.gates@[i]
}

/// A gate over the first `n` wires is satisfied the same under any extension
/// of the assignment.
pub proof fn lemma_gate_sat_extend(g: Gate, n: nat, vals1: Seq<Fp>, vals2: Seq<Fp>)
    requires
        gate_wf(g, n),
        n <= vals1.len(),
        vals1.len() <= vals2.len(),
        forall|i: int| 0 <= i < vals1.len() ==> vals1[i] == vals2[i],
    ensures
        gate_sat(g, vals1) == gate_sat(g, vals2),
{
    match g {
        Gate::Quad(c) => {
            crate::cs::lemma_constraint_sat_extend(c, n, vals1, vals2);
        },
        Gate::PointAdd { a, d, x1, y1, x2, y2, x3, y3 } => {},
        Gate::Decomp { var, bits } => {
            assert forall|i: int| 0 <= i < 255 implies vals1[(#[trigger] bits@[i]) as int]
                == vals2[bits@[i] as int] by {}
        },
        Gate::SelectIdentity { .. } => {},
    }
}

impl Composer {
    /// A fresh, empty composer.
    pub fn new() -> (r: Composer)
        ensures
            r.ok(),
            r.sat(),
            r.nv() == 0,
    {
        Composer { vals: Vec::new(), gates: Vec::new() }
    }

    /// Appends a wire holding the given value.
    pub fn append(&mut self, v: Fp) -> (w: Num)
        requires
            v.wf(),
            old(self).ok(),
        ensures
            final(self).ok(),
            final(self).vals@ == old(self).vals@.push(v),
            final(self).gates@ == old(self).gates@,
            c_extends(*final(self), *old(self)),
            w.var == old(self).nv(),
            final(self).nval(w) == v.val(),
            final(self).sat() == old(self).sat(),
    {
        let w = Num { var: self.vals.len() };
        self.vals.push(v);
        proof {
            assert forall|i: int| 0 <= i < self.gates@.len() implies gate_sat(
                #[trigger] self.gates@[i],
                self.vals@,
            ) == gate_sat(self.gates@[i], old(self).vals@) by {
                lemma_gate_sat_extend(self.gates@[i], old(self).nv(), old(self).vals@, self.vals@);
            }
        }
        w
    }

    /// Adds one gate.
    pub fn push_gate(&mut self, g: Gate)
        requires
            old(self).ok(),
            gate_wf(g, old(self).nv()),
        ensures
            final(self).ok(),
            final(self).vals@ == old(self).vals@,
            final(self).gates@ == old(self).gates@.push(g),
            c_extends(*final(self), *old(self)),
            final(self).sat() == (old(self).sat() && gate_sat(g, old(self).vals@)),
    {
        self.gates.push(g);
        proof {
            assert(self.gates@.last() == g);
            if old(self).sat() && gate_sat(g, old(self).vals@) {
                assert forall|i: int| 0 <= i < self.gates@.len() implies gate_sat(
                    #[trigger] self.gates@[i],
                    self.vals@,
                ) by {
                    if i < old(self).gates@.len() {
                        assert(gate_sat(old(self).gates@[i], old(self).vals@));
                    }
                }
            } else {
                if old(self).sat() {
                    assert(self.gates@[self.gates@.len() - 1] == g);
                    assert(!gate_sat(self.gates@[self.gates@.len() - 1], self.vals@));
                } else {
                    let i = choose|i: int|
                        0 <= i < old(self).gates@.len() && !gate_sat(
                            old(self).gates@[i],
                            old(self).vals@,
                        );
                    assert(self.gates@[i] == old(self).gates@[i]);
                    assert(!gate_sat(self.gates@[i], self.vals@));
                }
                assert(!self.sat());
            }
        }
    }

    /// Reads the value a wire currently holds.
    pub fn value_of(&self, i: usize) -> (r: Fp)
        requires
            i < self.nv(),
            self.ok(),
        ensures
            r.wf(),
            r.val() == self.v(i as int),
    {
        self.vals[i]
    }

    /// Overwrites one wire value; the gates are untouched, so the resulting
    /// system may no longer be satisfied.
    pub fn set_value(&mut self, i: usize, v: Fp)
        requires
            i < old(self).nv(),
            v.wf(),
            old(self).ok(),
        ensures
            final(self).ok(),
            final(self).vals@ == old(self).vals@.update(i as int, v),
            final(self).gates@ == old(self).gates@,
    {
        self.vals[i] = v;
    }
}

/// The atomic point addition: computes the sum out of circuit and adds one
/// gate whose semantics is exactly the complete formula.
pub fn component_add_point(
    cs: &mut Composer,
    params_a: Fp,
    params_d: Fp,
    p1: WitnessPoint,
    p2: WitnessPoint,
) -> (r: WitnessPoint)
    requires
        old(cs).ok(),
        params_a.wf(),
        params_d.wf(),
        p1.x.var < old(cs).nv(),
        p1.y.var < old(cs).nv(),
        p2.x.var < old(cs).nv(),
        p2.y.var < old(cs).nv(),
    ensures
        final(cs).ok(),
        c_extends(*final(cs), *old(cs)),
        final(cs).sat() == old(cs).sat(),
        r.x.var < final(cs).nv(),
        r.y.var < final(cs).nv(),
        final(cs).pvals(r) == eadd(
            params_a.val(),
            params_d.val(),
            old(cs).pvals(p1),
            old(cs).pvals(p2),
        ),
{
    let x1 = cs.value_of(p1.x.var);
    let y1 = cs.value_of(p1.y.var);
    let x2 = cs.value_of(p2.x.var);
    let y2 = cs.value_of(p2.y.var);
    let common = fp_mul(fp_mul(fp_mul(fp_mul(params_d, x1), x2), y1), y2);
    let x3v = fp_mul(
        fp_add(fp_mul(x1, y2), fp_mul(y1, x2)),
        fp_invert(fp_add(fp_one(), common)),
    );
    let y3v = fp_mul(
        fp_sub(fp_mul(y1, y2), fp_mul(fp_mul(params_a, x1), x2)),
        fp_invert(fp_sub(fp_one(), common)),
    );
    let x3 = cs.append(x3v);
    let y3 = cs.append(y3v);
    let g = Gate::PointAdd {
        a: params_a,
        d: params_d,
        x1: p1.x.var,
        y1: p1.y.var,
        x2: p2.x.var,
        y2: p2.y.var,
        x3: x3.var,
        y3: y3.var,
    };
    proof {
        assert(gate_sat(g, cs.vals@));
    }
    cs.push_gate(g);
    WitnessPoint { x: x3, y: y3 }
}

/// The atomic 255-bit decomposition gate.
pub fn component_decomposition(cs: &mut Composer, s: Num) -> (r: Vec<Bit>)
    requires
        old(cs).ok(),
        s.var < old(cs).nv(),
    ensures
        final(cs).ok(),
        c_extends(*final(cs), *old(cs)),
        final(cs).sat() == old(cs).sat(),
        r@.len() == 255,
        forall|i: int| 0 <= i < 255 ==> (#[trigger] r@[i]).var < final(cs).nv(),
        forall|i: int|
            0 <= i < 255 ==> final(cs).bval(#[trigger] r@[i]) == (if bit_of(
                old(cs).nval(s),
                i as nat,
            ) {
                1nat
            } else {
                0nat
            }),
{
    let sv = cs.value_of(s.var);
    let mut bits: Vec<Bit> = Vec::new();
    let mut wires: Vec<usize> = Vec::new();
    let mut i: usize = 0;
    while i < 255
        invariant
            i <= 255,
            cs.ok(),
            c_extends(*cs, *old(cs)),
            cs.sat() == old(cs).sat(),
            s.var < old(cs).nv(),
            sv.wf(),
            sv.val() == old(cs).nval(s),
            bits@.len() == i,
            wires@.len() == i,
            forall|j: int| 0 <= j < i ==> (#[trigger] bits@[j]).var < cs.nv(),
            forall|j: int| 0 <= j < i ==> (#[trigger] wires@[j]) == bits@[j].var,
            forall|j: int|
                0 <= j < i ==> cs.bval(#[trigger] bits@[j]) == (if bit_of(sv.val(), j as nat) {
                    1nat
                } else {
                    0nat
                }),
        decreases 255 - i,
    {
        let b = fp_bit(&sv, i);
        let v = if b {
            fp_one()
        } else {
            fp_zero()
        };
        proof {
            lemma_pow2_consts();
        }
        let w = cs.append(v);
        bits.push(Bit { var: w.var });
        wires.push(w.var);
        i += 1;
    }
    let g = Gate::Decomp { var: s.var, bits: wires };
    proof {
        assert(gate_sat(g, cs.vals@));
    }
    cs.push_gate(g);
    bits
}

/// The identity wires `(0, 1)` as a constant point.
pub fn append_constant_identity(cs: &mut Composer) -> (r: WitnessPoint)
    requires
        old(cs).ok(),
    ensures
        final(cs).ok(),
        c_extends(*final(cs), *old(cs)),
        final(cs).sat() == old(cs).sat(),
        r.x.var < final(cs).nv(),
        r.y.var < final(cs).nv(),
        final(cs).pvals(r) == (0nat, 1nat),
{
    proof {
        lemma_pow2_consts();
    }
    let x = cs.append(fp_zero());
    let y = cs.append(fp_one());
    WitnessPoint { x, y }
}

/// The atomic select-identity gate: the given point if the bit is set, the
/// identity otherwise.
pub fn component_select_identity(cs: &mut Composer, bit: Bit, pt: WitnessPoint) -> (r: WitnessPoint)
    requires
        old(cs).ok(),
        bit.var < old(cs).nv(),
        pt.x.var < old(cs).nv(),
        pt.y.var < old(cs).nv(),
        boolish(old(cs).bval(bit)),
    ensures
        final(cs).ok(),
        c_extends(*final(cs), *old(cs)),
        final(cs).sat() == old(cs).sat(),
        r.x.var < final(cs).nv(),
        r.y.var < final(cs).nv(),
        final(cs).pvals(r) == (if old(cs).bval(bit) == 1 {
            old(cs).pvals(pt)
        } else {
            (0nat, 1nat)
        }),
{
    let bv = cs.value_of(bit.var);
    let one = fp_one();
    let set = bv.l0 == 1 && bv.l1 == 0 && bv.l2 == 0 && bv.l3 == 0;
    proof {
        lemma_pow2_consts();
        if set {
            assert(old(cs).bval(bit) == 1);
        }
        if old(cs).bval(bit) == 1 {
            lemma_val_inj(bv, one);
            assert(set);
        }
    }
    let (ox, oy) = if set {
        (cs.value_of(pt.x.var), cs.value_of(pt.y.var))
    } else {
        (fp_zero(), fp_one())
    };
    let x = cs.append(ox);
    let y = cs.append(oy);
    let g = Gate::SelectIdentity {
        bit: bit.var,
        px: pt.x.var,
        py: pt.y.var,
        ox: x.var,
        oy: y.var,
    };
    proof {
        assert(gate_sat(g, cs.vals@));
    }
    cs.push_gate(g);
    WitnessPoint { x, y }
}


impl Composer {
    /// Evaluates every gate against the assignment.
    pub fn check(&self) -> (r: bool)
        requires
            self.ok(),
        ensures
            r == self.sat(),
    {
        let n = self.gates.len();
        let mut i: usize = 0;
        while i < n
            invariant
                n == self.gates@.len(),
                i <= n,
                self.ok(),
                forall|j: int| 0 <= j < i ==> gate_sat(#[trigger] self.gates@[j], self.vals@),
            decreases n - i,
        {
            let holds = match &self.gates[i] {
                Gate::Quad(c) => {
                    let la = crate::cs::eval_lc(&c.a, &self.vals);
                    let lb = crate::cs::eval_lc(&c.b, &self.vals);
                    let lo = crate::cs::eval_lc(&c.c, &self.vals);
                    let prod = fp_mul(la, lb);
                    let ok = prod == lo;
                    proof {
                        if prod.val() == lo.val() {
                            lemma_val_inj(prod, lo);
                        }
                    }
                    ok
                },
                Gate::PointAdd { a, d, x1, y1, x2, y2, x3, y3 } => {
                    let params = crate::curve::CurveParams { a: *a, d: *d };
                    let pt1 = crate::curve::PointAffine(self.vals[*x1], self.vals[*y1]);
                    let pt2 = crate::curve::PointAffine(self.vals[*x2], self.vals[*y2]);
                    let sum = crate::curve::point_add(&params, &pt1, &pt2);
                    let ok = sum.0 == self.vals[*x3] && sum.1 == self.vals[*y3];
                    proof {
                        if sum.0.val() == self.vals@[*x3 as int].val() {
                            lemma_val_inj(sum.0, self.vals@[*x3 as int]);
                        }
                        if sum.1.val() == self.vals@[*y3 as int].val() {
                            lemma_val_inj(sum.1, self.vals@[*y3 as int]);
                        }
                    }
                    ok
                },
                Gate::Decomp { var, bits } => {
                    let sv = self.vals[*var];
                    let mut ok = true;
                    let mut k: usize = 0;
                    while k < 255
                        invariant
                            k <= 255,
                            self.ok(),
                            i < self.gates@.len(),
                            self.gates@[i as int] == (Gate::Decomp { var: *var, bits: *bits }),
                            *var < self.nv(),
                            bits@.len() == 255,
                            forall|t: int| 0 <= t < 255 ==> (#[trigger] bits@[t]) < self.nv(),
                            sv == self.vals@[*var as int],
                            ok == (forall|t: int|
                                0 <= t < k ==> self.vals@[(#[trigger] bits@[t]) as int].val() == (
                                if bit_of(sv.val(), t as nat) {
                                    1nat
                                } else {
                                    0nat
                                })),
                        decreases 255 - k,
                    {
                        let expected = if fp_bit(&sv, k) {
                            fp_one()
                        } else {
                            fp_zero()
                        };
                        let got = self.vals[bits[k]];
                        let same = got == expected;
                        proof {
                            if got.val() == expected.val() {
                                lemma_val_inj(got, expected);
                            }
                        }
                        ok = ok && same;
                        k += 1;
                    }
                    ok
                },
                Gate::SelectIdentity { bit, px, py, ox, oy } => {
                    let bv = self.vals[*bit];
                    let one = fp_one();
                    let zero = fp_zero();
                    let is_one = bv == one;
                    let is_zero_b = bv == zero;
                    let (ex, ey) = if is_one {
                        (self.vals[*px], self.vals[*py])
                    } else {
                        (zero, one)
                    };
                    let ok = (is_one || is_zero_b) && self.vals[*ox] == ex && self.vals[*oy] == ey;
                    proof {
                        lemma_pow2_consts();
                        if bv.val() == 1 {
                            lemma_val_inj(bv, one);
                        }
                        if bv.val() == 0 {
                            lemma_val_inj(bv, zero);
                        }
                        if self.vals@[*ox as int].val() == ex.val() {
                            lemma_val_inj(self.vals@[*ox as int], ex);
                        }
                        if self.vals@[*oy as int].val() == ey.val() {
                            lemma_val_inj(self.vals@[*oy as int], ey);
                        }
                    }
                    ok
                },
            };
            if !holds {
                return false;
            }
            i += 1;
        }
        true
    }
}

/// The maskable equality over the composer: the same two quadratic
/// constraints as the rank-1 flavor, as `Quad` gates.
#[verifier::rlimit(100)]
pub fn controllable_assert_eq(cs: &mut Composer, enabled: Bit, a: Num, b: Num)
    requires
        old(cs).ok(),
        enabled.var < old(cs).nv(),
        a.var < old(cs).nv(),
        b.var < old(cs).nv(),
        boolish(old(cs).bval(enabled)),
    ensures
        final(cs).ok(),
        c_extends(*final(cs), *old(cs)),
        final(cs).sat() == (old(cs).sat() && (old(cs).bval(enabled) == 0 || old(cs).nval(a)
            == old(cs).nval(b))),
{
    let ev = cs.value_of(enabled.var);
    let av = cs.value_of(a.var);
    let one = fp_one();
    let e_set = ev == one;
    proof {
        lemma_pow2_consts();
        if old(cs).bval(enabled) == 1 {
            lemma_val_inj(ev, one);
        }
        if e_set {
            assert(old(cs).bval(enabled) == 1);
        }
    }
    let t = if e_set {
        av
    } else {
        fp_zero()
    };
    let t_w = cs.append(t);
    let c1 = Constraint { a: lc_var(enabled.var), b: lc_var(a.var), c: lc_var(t_w.var) };
    proof {
        let vals = cs.vals@;
        let ve = old(cs).bval(enabled);
        let va = old(cs).nval(a);
        lemma_lc_val_affine1(c1.a, vals);
        lemma_lc_val_affine1(c1.b, vals);
        lemma_lc_val_affine1(c1.c, vals);
        lemma_unit_term(ve);
        lemma_unit_term(va);
        lemma_unit_term(t.val());
        if ve == 1 {
            lemma_fmul_one(va);
            lemma_fmul_comm(1, va);
        } else {
            lemma_fmul_zero(va);
        }
        assert(gate_sat(Gate::Quad(c1), vals));
    }
    cs.push_gate(Gate::Quad(c1));
    let c2 = Constraint { a: lc_var(enabled.var), b: lc_var(b.var), c: lc_var(t_w.var) };
    proof {
        let vals = cs.vals@;
        let ve = old(cs).bval(enabled);
        let va = old(cs).nval(a);
        let vb = old(cs).nval(b);
        lemma_lc_val_affine1(c2.a, vals);
        lemma_lc_val_affine1(c2.b, vals);
        lemma_lc_val_affine1(c2.c, vals);
        lemma_unit_term(ve);
        lemma_unit_term(vb);
        lemma_unit_term(t.val());
        if ve == 1 {
            lemma_fmul_one(vb);
            lemma_fmul_comm(1, vb);
            assert(constraint_sat(c2, vals) == (va == vb));
        } else {
            lemma_fmul_zero(vb);
            assert(constraint_sat(c2, vals));
        }
    }
    cs.push_gate(Gate::Quad(c2));
}

/// A boolean wire on the composer, pinned by `(1 - out) * out = 0`.
pub fn append_bit(cs: &mut Composer, b: bool) -> (r: Bit)
    requires
        old(cs).ok(),
    ensures
        final(cs).ok(),
        c_extends(*final(cs), *old(cs)),
        final(cs).sat() == old(cs).sat(),
        r.var < final(cs).nv(),
        boolish(final(cs).bval(r)),
        final(cs).bval(r) == (if b {
            1nat
        } else {
            0nat
        }),
{
    let v = if b {
        fp_one()
    } else {
        fp_zero()
    };
    proof {
        lemma_pow2_consts();
    }
    let w = cs.append(v);
    let neg_one = fp_neg(fp_one());
    let c = Constraint {
        a: lc_affine1(fp_one(), neg_one, w.var),
        b: lc_var(w.var),
        c: lc_const(fp_zero()),
    };
    proof {
        let vals = cs.vals@;
        let vv = if b {
            1nat
        } else {
            0nat
        };
        reveal(fadd);
        lemma_fneg_one();
        lemma_lc_val_affine1(c.a, vals);
        lemma_lc_val_affine1(c.b, vals);
        lemma_lc_val_const(c.c, vals);
        lemma_fneg_mul(1, vv);
        lemma_fmul_one(vv);
        lemma_fmul_comm(1, vv);
        lemma_small_mod(1, p());
        lemma_small_mod(0, p());
        vstd::arithmetic::div_mod::lemma_mod_self_0(p() as int);
        assert(fadd(vv, 0) == vv) by {
            lemma_small_mod(vv, p());
        }
        if b {
            assert(fneg(1) == (p() - 1) as nat);
            assert(fadd(fneg(1), 1) == 0);
            lemma_fmul_zero(1);
        } else {
            assert(fneg(0) == 0) by {
                reveal(fneg);
            }
            assert(fadd(0, 1) == 1);
            lemma_fmul_zero(1);
            lemma_fmul_comm(1, 0);
        }
        assert(gate_sat(Gate::Quad(c), vals));
    }
    cs.push_gate(Gate::Quad(c));
    Bit { var: w.var }
}

/// The MiMC gadget over the composer: the same two quadratic gates per round
/// as the rank-1 flavor.
pub fn mimc(cs: &mut Composer, xl: Num, xr: Num, params: &Vec<Fp>) -> (r: Num)
    requires
        old(cs).ok(),
        xl.var < old(cs).nv(),
        xr.var < old(cs).nv(),
        fp_seq_wf(params@),
    ensures
        final(cs).ok(),
        c_extends(*final(cs), *old(cs)),
        final(cs).sat() == old(cs).sat(),
        r.var < final(cs).nv(),
        final(cs).nval(r) == mimc_spec(old(cs).nval(xl), old(cs).nval(xr), fp_seq(params@)),
{
    let mut lw = xl;
    let mut rw = xr;
    let mut i: usize = 0;
    let n = params.len();
    proof {
        assert(fp_seq(params@).skip(0) =~= fp_seq(params@));
    }
    while i < n
        invariant
            i <= n,
            n == params@.len(),
            fp_seq_wf(params@),
            cs.ok(),
            c_extends(*cs, *old(cs)),
            cs.sat() == old(cs).sat(),
            lw.var < cs.nv(),
            rw.var < cs.nv(),
            mimc_spec(cs.nval(lw), cs.nval(rw), fp_seq(params@).skip(i as int)) == mimc_spec(
                old(cs).nval(xl),
                old(cs).nval(xr),
                fp_seq(params@),
            ),
        decreases n - i,
    {
        let c = params[i];
        let new_lw = mimc_round(cs, lw, rw, c);
        proof {
            let rest = fp_seq(params@).skip(i as int);
            assert(rest.len() > 0);
            assert(rest[0] == fp_seq(params@)[i as int]);
            assert(rest.drop_first() =~= fp_seq(params@).skip(i + 1));
        }
        rw = lw;
        lw = new_lw;
        i += 1;
    }
    proof {
        assert(fp_seq(params@).skip(n as int) =~= Seq::<nat>::empty());
    }
    lw
}

/// One MiMC round over the composer.
fn mimc_round(cs: &mut Composer, lw: Num, rw: Num, c: Fp) -> (r: Num)
    requires
        old(cs).ok(),
        lw.var < old(cs).nv(),
        rw.var < old(cs).nv(),
        c.wf(),
    ensures
        final(cs).ok(),
        c_extends(*final(cs), *old(cs)),
        final(cs).sat() == old(cs).sat(),
        r.var < final(cs).nv(),
        final(cs).nval(r) == ({
            let t = fadd(old(cs).nval(lw), c.val());
            fadd(fmul(fmul(t, t), t), old(cs).nval(rw))
        }),
{
    let lv = cs.value_of(lw.var);
    let rv = cs.value_of(rw.var);
    let tv = fp_add(lv, c);
    let t2v = fp_mul(tv, tv);
    let nv = fp_add(fp_mul(t2v, tv), rv);
    let t2w = cs.append(t2v);
    let c1 = Constraint {
        a: lc_affine1(c, fp_one(), lw.var),
        b: lc_affine1(c, fp_one(), lw.var),
        c: lc_var(t2w.var),
    };
    proof {
        let vals = cs.vals@;
        let vl = old(cs).nval(lw);
        lemma_lc_val_affine1(c1.a, vals);
        lemma_lc_val_affine1(c1.b, vals);
        lemma_lc_val_affine1(c1.c, vals);
        lemma_fmul_one(vl);
        lemma_fmul_comm(1, vl);
        assert(lc_val(c1.a, vals) == fadd(vl, c.val()));
        assert(lc_val(c1.b, vals) == fadd(vl, c.val()));
        lemma_unit_term(t2v.val());
        assert(gate_sat(Gate::Quad(c1), vals));
    }
    cs.push_gate(Gate::Quad(c1));
    let nw = cs.append(nv);
    let c2 = Constraint {
        a: lc_var(t2w.var),
        b: lc_affine1(c, fp_one(), lw.var),
        c: lc_affine2(fp_zero(), fp_one(), nw.var, fp_neg(fp_one()), rw.var),
    };
    proof {
        let vals = cs.vals@;
        let vl = old(cs).nval(lw);
        let vr = old(cs).nval(rw);
        let t = fadd(vl, c.val());
        lemma_fneg_one();
        lemma_lc_val_affine1(c2.a, vals);
        lemma_lc_val_affine1(c2.b, vals);
        lemma_lc_val_affine2(c2.c, vals);
        lemma_unit_term(t2v.val());
        lemma_fmul_one(vl);
        lemma_fmul_comm(1, vl);
        assert(lc_val(c2.b, vals) == fadd(vl, c.val()));
        lemma_fmul_one(nv.val());
        lemma_fmul_comm(1, nv.val());
        lemma_fmul_one(vr);
        lemma_fmul_comm(1, vr);
        lemma_fneg_mul(1, vr);
        lemma_fneg_bound(vr);
        assert(fadd(fmul(1, nv.val()), fmul(fneg(1), vr)) == fsub(nv.val(), vr)) by {
            lemma_small_mod(fneg(vr), p());
        }
        assert(lc_val(c2.c, vals) == fadd(fsub(nv.val(), vr), 0));
        lemma_fadd_bound(nv.val(), fneg(vr));
        assert(fadd(fsub(nv.val(), vr), 0) == fsub(nv.val(), vr)) by {
            reveal(fadd);
            lemma_small_mod(fsub(nv.val(), vr), p());
        }
        crate::field::lemma_fsub_of_fadd(fmul(t2v.val(), t), vr);
        assert(fsub(nv.val(), vr) == fmul(t2v.val(), tv.val()));
        assert(gate_sat(Gate::Quad(c2), vals));
    }
    cs.push_gate(Gate::Quad(c2));
    nw
}

/// Double-and-add over the native gates: one decomposition gate, then per
/// bit one doubling, one identity-selection and one addition gate.  Unlike
/// the rank-1 flavor this cannot fail: the gates are atomic.
pub fn mul(cs: &mut Composer, params_a: Fp, params_d: Fp, scalar: Num, point: WitnessPoint) -> (r:
    WitnessPoint)
    requires
        old(cs).ok(),
        params_a.wf(),
        params_d.wf(),
        scalar.var < old(cs).nv(),
        point.x.var < old(cs).nv(),
        point.y.var < old(cs).nv(),
    ensures
        final(cs).ok(),
        c_extends(*final(cs), *old(cs)),
        final(cs).sat() == old(cs).sat(),
        r.x.var < final(cs).nv(),
        r.y.var < final(cs).nv(),
        final(cs).pvals(r) == smul(
            params_a.val(),
            params_d.val(),
            old(cs).pvals(point),
            scalar_bits(old(cs).nval(scalar)),
        ),
{
    let ghost av = params_a.val();
    let ghost dv = params_d.val();
    let ghost pv = old(cs).pvals(point);
    let ghost bits_spec = scalar_bits(old(cs).nval(scalar));
    let scalar_bits_w = component_decomposition(cs, scalar);
    let identity = append_constant_identity(cs);
    let mut result = identity;
    proof {
        assert(bits_spec.take(0) =~= Seq::<bool>::empty());
    }
    let mut i: usize = 0;
    while i < 255
        invariant
            i <= 255,
            cs.ok(),
            c_extends(*cs, *old(cs)),
            cs.sat() == old(cs).sat(),
            params_a.wf(),
            params_d.wf(),
            av == params_a.val(),
            dv == params_d.val(),
            point.x.var < old(cs).nv(),
            point.y.var < old(cs).nv(),
            pv == cs.pvals(point),
            pv == old(cs).pvals(point),
            bits_spec == scalar_bits(old(cs).nval(scalar)),
            bits_spec.len() == 255,
            scalar_bits_w@.len() == 255,
            forall|t: int| 0 <= t < 255 ==> (#[trigger] scalar_bits_w@[t]).var < cs.nv(),
            forall|t: int|
                0 <= t < 255 ==> cs.bval(#[trigger] scalar_bits_w@[t]) == (if bits_spec[254 - t] {
                    1nat
                } else {
                    0nat
                }),
            result.x.var < cs.nv(),
            result.y.var < cs.nv(),
            cs.pvals(result) == smul(av, dv, pv, bits_spec.take(i as int)),
        decreases 255 - i,
    {
        let dbl = component_add_point(cs, params_a, params_d, result, result);
        let bit = scalar_bits_w[254 - i];
        let to_add = component_select_identity(cs, bit, point);
        let next = component_add_point(cs, params_a, params_d, dbl, to_add);
        proof {
            let cur = bits_spec.take(i + 1);
            assert(cur.drop_last() =~= bits_spec.take(i as int));
            assert(cur.last() == bits_spec[i as int]);
            if !bits_spec[i as int] {
                let prev = smul(av, dv, pv, bits_spec.take(i as int));
                let dblv = eadd(av, dv, prev, prev);
                lemma_pow2_consts();
                assert(dblv.0 < p() && dblv.1 < p()) by {
                    assert(cs.pvals(dbl) == dblv);
                }
                crate::curve::lemma_eadd_identity(av, dv, dblv);
            }
        }
        result = next;
        i += 1;
    }
    proof {
        assert(bits_spec.take(255) =~= bits_spec);
    }
    result
}

/// Scalar multiplication of the fixed base point: the base is appended as
/// constant wires and multiplied like any other point.
pub fn component_mul_generator(
    cs: &mut Composer,
    params_a: Fp,
    params_d: Fp,
    scalar: Num,
    base_x: Fp,
    base_y: Fp,
) -> (r: WitnessPoint)
    requires
        old(cs).ok(),
        params_a.wf(),
        params_d.wf(),
        scalar.var < old(cs).nv(),
        base_x.wf(),
        base_y.wf(),
    ensures
        final(cs).ok(),
        c_extends(*final(cs), *old(cs)),
        final(cs).sat() == old(cs).sat(),
        r.x.var < final(cs).nv(),
        r.y.var < final(cs).nv(),
        final(cs).pvals(r) == smul(
            params_a.val(),
            params_d.val(),
            (base_x.val(), base_y.val()),
            scalar_bits(old(cs).nval(scalar)),
        ),
{
    let bx = cs.append(base_x);
    let by = cs.append(base_y);
    let base = WitnessPoint { x: bx, y: by };
    crate::gates::mul(cs, params_a, params_d, scalar, base)
}

/// Multiplication by the cofactor eight: three atomic doublings.
pub fn mul_cofactor(cs: &mut Composer, params_a: Fp, params_d: Fp, point: WitnessPoint) -> (r:
    WitnessPoint)
    requires
        old(cs).ok(),
        params_a.wf(),
        params_d.wf(),
        point.x.var < old(cs).nv(),
        point.y.var < old(cs).nv(),
    ensures
        final(cs).ok(),
        c_extends(*final(cs), *old(cs)),
        final(cs).sat() == old(cs).sat(),
        r.x.var < final(cs).nv(),
        r.y.var < final(cs).nv(),
        final(cs).pvals(r) == cof8(params_a.val(), params_d.val(), old(cs).pvals(point)),
{
    let p2 = component_add_point(cs, params_a, params_d, point, point);
    let p4 = component_add_point(cs, params_a, params_d, p2, p2);
    component_add_point(cs, params_a, params_d, p4, p4)
}

/// A signature inside the composer.
pub struct WitnessSignature {
    pub r: WitnessPoint,
    pub s: Num,
}

/// EdDSA verification on the native-gate backend: the same shape as the
/// rank-1 flavor, with the curve work done by atomic gates.  Its
/// satisfaction condition is the same `sig_ok` predicate, so for one choice
/// of inputs the two backends accept exactly the same witness assignments.
#[verifier::rlimit(100)]
#[verifier::spinoff_prover]
pub fn verify(
    cs: &mut Composer,
    enabled: Bit,
    params_a: Fp,
    params_d: Fp,
    base_x: Fp,
    base_y: Fp,
    pk: WitnessPoint,
    msg: Num,
    sig: WitnessSignature,
    mimc_params: &Vec<Fp>,
)
    requires
        old(cs).ok(),
        enabled.var < old(cs).nv(),
        params_a.wf(),
        params_d.wf(),
        base_x.wf(),
        base_y.wf(),
        pk.x.var < old(cs).nv(),
        pk.y.var < old(cs).nv(),
        msg.var < old(cs).nv(),
        sig.r.x.var < old(cs).nv(),
        sig.r.y.var < old(cs).nv(),
        sig.s.var < old(cs).nv(),
        boolish(old(cs).bval(enabled)),
        fp_seq_wf(mimc_params@),
    ensures
        final(cs).ok(),
        c_extends(*final(cs), *old(cs)),
        final(cs).sat() <==> (old(cs).sat() && (old(cs).bval(enabled) == 0 || sig_ok(
            params_a.val(),
            params_d.val(),
            (base_x.val(), base_y.val()),
            fp_seq(mimc_params@),
            old(cs).pvals(pk),
            old(cs).nval(msg),
            old(cs).pvals(sig.r),
            old(cs).nval(sig.s),
        ))),
{
    let (sb8, rhs8) = verify_sides(cs, params_a, params_d, base_x, base_y, pk, msg, &sig, mimc_params);
    controllable_assert_eq(cs, enabled, rhs8.x, sb8.x);
    controllable_assert_eq(cs, enabled, rhs8.y, sb8.y);
}

/// Builds both sides of the signature equation in gates and hands back their
/// wires: first `[8](s B)`, then `[8](R + h A)`.
#[verifier::rlimit(100)]
#[verifier::spinoff_prover]
fn verify_sides(
    cs: &mut Composer,
    params_a: Fp,
    params_d: Fp,
    base_x: Fp,
    base_y: Fp,
    pk: WitnessPoint,
    msg: Num,
    sig: &WitnessSignature,
    mimc_params: &Vec<Fp>,
) -> (r: (WitnessPoint, WitnessPoint))
    requires
        old(cs).ok(),
        params_a.wf(),
        params_d.wf(),
        base_x.wf(),
        base_y.wf(),
        pk.x.var < old(cs).nv(),
        pk.y.var < old(cs).nv(),
        msg.var < old(cs).nv(),
        sig.r.x.var < old(cs).nv(),
        sig.r.y.var < old(cs).nv(),
        sig.s.var < old(cs).nv(),
        fp_seq_wf(mimc_params@),
    ensures
        final(cs).ok(),
        c_extends(*final(cs), *old(cs)),
        final(cs).sat() == old(cs).sat(),
        r.0.x.var < final(cs).nv(),
        r.0.y.var < final(cs).nv(),
        r.1.x.var < final(cs).nv(),
        r.1.y.var < final(cs).nv(),
        ({
            let av = params_a.val();
            let dv = params_d.val();
            let h = eddsa_hash(
                fp_seq(mimc_params@),
                old(cs).pvals(sig.r).0,
                old(cs).pvals(sig.r).1,
                old(cs).pvals(pk).0,
                old(cs).pvals(pk).1,
                old(cs).nval(msg),
            );
            final(cs).pvals(r.0) == cof8(
                av,
                dv,
                smul(av, dv, (base_x.val(), base_y.val()), scalar_bits(old(cs).nval(sig.s))),
            ) && final(cs).pvals(r.1) == cof8(
                av,
                dv,
                eadd(av, dv, smul(av, dv, old(cs).pvals(pk), scalar_bits(h)), old(cs).pvals(sig.r)),
            )
        }),
{
    let ghost av = params_a.val();
    let ghost dv = params_d.val();
    let ghost consts = fp_seq(mimc_params@);
    let ghost rxv = old(cs).pvals(sig.r).0;
    let ghost ryv = old(cs).pvals(sig.r).1;
    let ghost pxv = old(cs).pvals(pk).0;
    let ghost pyv = old(cs).pvals(pk).1;
    let ghost mv = old(cs).nval(msg);
    let ghost s_v = old(cs).nval(sig.s);
    let h_rr = mimc(cs, sig.r.x, sig.r.y, mimc_params);
    let h_pk = mimc(cs, pk.x, pk.y, mimc_params);
    let h_rr_pk = mimc(cs, h_rr, h_pk, mimc_params);
    let h = mimc(cs, h_rr_pk, msg, mimc_params);
    proof {
        assert(cs.nval(h) == eddsa_hash(consts, rxv, ryv, pxv, pyv, mv));
    }
    let ghost hv = cs.nval(h);
    let sb = component_mul_generator(cs, params_a, params_d, sig.s, base_x, base_y);
    proof {
        assert(cs.pvals(sb) == smul(av, dv, (base_x.val(), base_y.val()), scalar_bits(s_v)));
    }
    let sb8 = mul_cofactor(cs, params_a, params_d, sb);
    proof {
        assert(cs.pvals(sb8) == cof8(av, dv, smul(av, dv, (base_x.val(), base_y.val()), scalar_bits(s_v))));
    }
    let ha = crate::gates::mul(cs, params_a, params_d, h, pk);
    proof {
        assert(cs.pvals(ha) == smul(av, dv, (pxv, pyv), scalar_bits(hv)));
    }
    let rhs = component_add_point(cs, params_a, params_d, ha, sig.r);
    proof {
        assert(cs.pvals(rhs) == eadd(av, dv, smul(av, dv, (pxv, pyv), scalar_bits(hv)), (rxv, ryv)));
    }
    let rhs8 = mul_cofactor(cs, params_a, params_d, rhs);
    (sb8, rhs8)
}

} // verus!
