//! The prime field that all circuit values live in: the scalar field of
//! BLS12-381.  A `Fp` holds a canonical value as four little-endian 64-bit
//! limbs; the heavy modular arithmetic (addition, multiplication, negation,
//! inversion) is delegated to the `bls12_381` crate through trusted wrappers
//! whose contracts state the exact modular result.

use vstd::prelude::*;
use vstd::arithmetic::power2::*;
use vstd::arithmetic::div_mod::*;
use vstd::arithmetic::mul::*;
use bls12_381::Scalar;

verus! {

/// The field modulus: the order of the BLS12-381 scalar field.
pub open spec fn p() -> nat {
    0x73eda753299d7d483339d80809a1d80553bda402fffe5bfeffffffff00000001nat
}

/// Addition in the field.
#[verifier::opaque]
pub open spec fn fadd(a: nat, b: nat) -> nat {
    (a + b) % p()
}

/// Multiplication in the field.
#[verifier::opaque]
pub open spec fn fmul(a: nat, b: nat) -> nat {
    (a * b) % p()
}

/// Additive inverse in the field.
#[verifier::opaque]
pub open spec fn fneg(a: nat) -> nat {
    ((p() - a % p()) % (p() as int)) as nat
}

/// Subtraction in the field.
pub open spec fn fsub(a: nat, b: nat) -> nat {
    fadd(a, fneg(b))
}

/// A field element, stored as four little-endian 64-bit limbs.
#[derive(Clone, Copy, PartialEq, Eq, Structural, Debug)]
pub struct Fp {
    pub l0: u64,
    pub l1: u64,
    pub l2: u64,
    pub l3: u64,
}

impl Fp {
    /// The integer the limbs spell, little-endian base 2^64.
    pub open spec fn val(self) -> nat {
        (self.l0 + self.l1 * pow2(64) + self.l2 * pow2(128) + self.l3 * pow2(192)) as nat
    }

    /// Canonical form: the value is reduced.
    pub open spec fn wf(self) -> bool {
        self.val() < p()
    }
}

/// Concrete values of the powers of two this module leans on, and how the
/// modulus sits between 2^254 and 2^255.
pub proof fn lemma_pow2_consts()
    ensures
        pow2(64) == 0x10000000000000000,
        pow2(128) == 0x100000000000000000000000000000000,
        pow2(192) == 0x1000000000000000000000000000000000000000000000000,
        pow2(254) == 0x4000000000000000000000000000000000000000000000000000000000000000,
        pow2(255) == 0x8000000000000000000000000000000000000000000000000000000000000000,
        pow2(254) < p() < pow2(255),
{
    lemma2_to64();
    lemma2_to64_rest();
    lemma_pow2_adds(64, 64);
    lemma_pow2_adds(128, 64);
    lemma_pow2_adds(192, 62);
    lemma_pow2_adds(254, 1);
}

/// Every well-formed field element fits in 255 bits.
pub proof fn lemma_val_bound(a: Fp)
    ensures
        a.val() < pow2(256),
        a.wf() ==> a.val() < pow2(255),
{
    lemma_pow2_consts();
    lemma_pow2_adds(192, 64);
    assert(a.l0 < pow2(64) && a.l1 < pow2(64) && a.l2 < pow2(64) && a.l3 < pow2(64));
    assert(a.l3 * pow2(192) <= (pow2(64) - 1) * pow2(192)) by {
        lemma_mul_inequality(a.l3 as int, pow2(64) - 1, pow2(192) as int);
    }
    assert(a.l2 * pow2(128) <= (pow2(64) - 1) * pow2(128)) by {
        lemma_mul_inequality(a.l2 as int, pow2(64) - 1, pow2(128) as int);
    }
    assert(a.l1 * pow2(64) <= (pow2(64) - 1) * pow2(64)) by {
        lemma_mul_inequality(a.l1 as int, pow2(64) - 1, pow2(64) as int);
    }
}

/// The zero element.
pub fn fp_zero() -> (r: Fp)
    ensures
        r.wf(),
        r.val() == 0,
        r.l0 == 0 && r.l1 == 0 && r.l2 == 0 && r.l3 == 0,
{
    Fp { l0: 0, l1: 0, l2: 0, l3: 0 }
}

/// The unit element.
pub fn fp_one() -> (r: Fp)
    ensures
        r.wf(),
        r.val() == 1,
        r.l0 == 1 && r.l1 == 0 && r.l2 == 0 && r.l3 == 0,
{
    proof {
        lemma_pow2_consts();
    }
    Fp { l0: 1, l1: 0, l2: 0, l3: 0 }
}

/// Embeds a machine integer into the field.
pub fn fp_from_u64(x: u64) -> (r: Fp)
    ensures
        r.wf(),
        r.val() == x,
{
    proof {
        lemma_pow2_consts();
    }
    Fp { l0: x, l1: 0, l2: 0, l3: 0 }
}

/// Relies on `bls12_381::Scalar`: `from_raw` reduces little-endian limbs into
/// the field, `+` adds modulo the field order, `to_bytes` returns the
/// canonical little-endian form.
#[verifier::external_body]
pub fn fp_add(a: Fp, b: Fp) -> (r: Fp)
    requires
        a.wf(),
        b.wf(),
    ensures
        r.wf(),
        r.val() == fadd(a.val(), b.val()),
{
    let s = Scalar::from_raw([a.l0, a.l1, a.l2, a.l3])
        + Scalar::from_raw([b.l0, b.l1, b.l2, b.l3]);
    let by = s.to_bytes();
    let mut l = [0u64; 4];
    for i in 0..4 {
        l[i] = u64::from_le_bytes(by[8 * i..8 * i + 8].try_into().unwrap());
    }
    Fp { l0: l[0], l1: l[1], l2: l[2], l3: l[3] }
}

/// Relies on `bls12_381::Scalar`: `*` multiplies modulo the field order.
#[verifier::external_body]
pub fn fp_mul(a: Fp, b: Fp) -> (r: Fp)
    requires
        a.wf(),
        b.wf(),
    ensures
        r.wf(),
        r.val() == fmul(a.val(), b.val()),
{
    let s = Scalar::from_raw([a.l0, a.l1, a.l2, a.l3])
        * Scalar::from_raw([b.l0, b.l1, b.l2, b.l3]);
    let by = s.to_bytes();
    let mut l = [0u64; 4];
    for i in 0..4 {
        l[i] = u64::from_le_bytes(by[8 * i..8 * i + 8].try_into().unwrap());
    }
    Fp { l0: l[0], l1: l[1], l2: l[2], l3: l[3] }
}

/// Relies on `bls12_381::Scalar`: unary `-` negates modulo the field order.
#[verifier::external_body]
pub fn fp_neg(a: Fp) -> (r: Fp)
    requires
        a.wf(),
    ensures
        r.wf(),
        r.val() == fneg(a.val()),
{
    let s = -Scalar::from_raw([a.l0, a.l1, a.l2, a.l3]);
    let by = s.to_bytes();
    let mut l = [0u64; 4];
    for i in 0..4 {
        l[i] = u64::from_le_bytes(by[8 * i..8 * i + 8].try_into().unwrap());
    }
    Fp { l0: l[0], l1: l[1], l2: l[2], l3: l[3] }
}

/// Relies on `bls12_381::Scalar::invert`: the multiplicative inverse of a
/// non-zero element; `invert` fails exactly on zero, which is mapped to zero
/// here.
#[verifier::external_body]
fn fp_inv_raw(a: Fp) -> (r: Fp)
    requires
        a.wf(),
    ensures
        r.wf(),
        a.val() == 0 ==> r.val() == 0,
        a.val() != 0 ==> fmul(a.val(), r.val()) == 1,
{
    let s = Scalar::from_raw([a.l0, a.l1, a.l2, a.l3]);
    let inv = Option::<Scalar>::from(s.invert()).unwrap_or(Scalar::zero());
    let by = inv.to_bytes();
    let mut l = [0u64; 4];
    for i in 0..4 {
        l[i] = u64::from_le_bytes(by[8 * i..8 * i + 8].try_into().unwrap());
    }
    Fp { l0: l[0], l1: l[1], l2: l[2], l3: l[3] }
}

/// Subtraction, as addition of the negation.
pub fn fp_sub(a: Fp, b: Fp) -> (r: Fp)
    requires
        a.wf(),
        b.wf(),
    ensures
        r.wf(),
        r.val() == fsub(a.val(), b.val()),
{
    fp_add(a, fp_neg(b))
}

/// The multiplicative inverse as a total function: the inverse of a non-zero
/// element, and zero for zero.
#[verifier::opaque]
pub open spec fn field_inv(a: nat) -> nat {
    if exists|b: nat| b < p() && fmul(a, b) == 1 {
        choose|b: nat| b < p() && fmul(a, b) == 1
    } else {
        0
    }
}

/// Multiplication in the field is commutative.
pub proof fn lemma_fmul_comm(a: nat, b: nat)
    ensures
        fmul(a, b) == fmul(b, a),
{
    reveal(fmul);
    lemma_mul_is_commutative(a as int, b as int);
}

/// Multiplication in the field is associative.
pub proof fn lemma_fmul_assoc(a: nat, b: nat, c: nat)
    ensures
        fmul(fmul(a, b), c) == fmul(a, fmul(b, c)),
{
    reveal(fmul);
    lemma_pow2_consts();
    lemma_mul_mod_noop_left((a * b) as int, c as int, p() as int);
    lemma_mul_is_associative(a as int, b as int, c as int);
    lemma_mul_mod_noop_right(a as int, (b * c) as int, p() as int);
}

/// One is neutral for field multiplication.
pub proof fn lemma_fmul_one(a: nat)
    requires
        a < p(),
    ensures
        fmul(a, 1) == a,
{
    reveal(fmul);
    lemma_small_mod(a, p());
}

/// An element has at most one inverse, so any witness to `a * b == 1`
/// identifies `field_inv(a)`.
pub proof fn lemma_inv_unique(a: nat, b: nat)
    requires
        b < p(),
        fmul(a, b) == 1,
    ensures
        b == field_inv(a),
{
    reveal(field_inv);
    let c = field_inv(a);
    assert(c < p() && fmul(a, c) == 1);
    lemma_fmul_one(b);
    lemma_fmul_comm(a, c);
    lemma_fmul_assoc(b, a, c);
    lemma_fmul_comm(b, a);
    lemma_fmul_comm(1, c);
    lemma_fmul_one(c);
    assert(b == fmul(b, fmul(a, c)));
    assert(fmul(b, fmul(a, c)) == fmul(fmul(b, a), c));
    assert(fmul(fmul(a, b), c) == fmul(1, c));
}

/// Zero has no inverse.
pub proof fn lemma_inv_of_zero()
    ensures
        field_inv(0) == 0,
{
    reveal(fmul);
    reveal(field_inv);
    assert forall|b: nat| !(b < p() && fmul(0nat, b) == 1) by {
        lemma_mul_basics(b as int);
        lemma_pow2_consts();
        assert(0nat * b == 0);
        lemma_small_mod(0, p());
    }
}

/// The multiplicative inverse, verified against the total spec `field_inv`.
pub fn fp_invert(a: Fp) -> (r: Fp)
    requires
        a.wf(),
    ensures
        r.wf(),
        r.val() == field_inv(a.val()),
        a.val() != 0 ==> fmul(a.val(), r.val()) == 1,
        a.val() == 0 ==> r.val() == 0,
{
    let r = fp_inv_raw(a);
    proof {
        if a.val() == 0 {
            lemma_inv_of_zero();
        } else {
            lemma_inv_unique(a.val(), r.val());
        }
    }
    r
}

/// Bit `i` of the little-endian binary expansion of `v`.
pub open spec fn bit_of(v: nat, i: nat) -> bool {
    (v / pow2(i)) % 2 == 1
}

/// The value of the low `n` bits of `v`, little-endian weighted.
pub open spec fn bits_val(v: nat, n: nat) -> nat
    decreases n,
{
    if n == 0 {
        0
    } else {
        bits_val(v, (n - 1) as nat) + (if bit_of(v, (n - 1) as nat) {
            pow2((n - 1) as nat)
        } else {
            0nat
        })
    }
}

/// Decomposing and re-summing the low `n` bits of a value yields the value
/// modulo 2^n.
pub proof fn lemma_bits_val(v: nat, n: nat)
    ensures
        bits_val(v, n) == v % pow2(n),
    decreases n,
{
    if n == 0 {
        assert(pow2(0) == 1) by {
            lemma2_to64();
        }
        lemma_mod_multiples_vanish(v as int, 0, 1);
        assert(1 * (v as int) == v as int) by {
            lemma_mul_basics(v as int);
        }
    } else {
        let m = (n - 1) as nat;
        lemma_bits_val(v, m);
        lemma_pow2_pos(m);
        lemma_mod_breakdown(v as int, pow2(m) as int, 2);
        assert(pow2(m) * 2 == pow2(n)) by {
            lemma_pow2_adds(m, 1);
            lemma2_to64();
        }
        assert(v % pow2(n) == pow2(m) * ((v / pow2(m)) % 2) + v % pow2(m));
        lemma_mod_bound((v / pow2(m)) as int, 2);
        lemma_mul_basics(pow2(m) as int);
        if bit_of(v, m) {
            assert((v / pow2(m)) % 2 == 1);
            assert(pow2(m) * ((v / pow2(m)) % 2) == pow2(m));
        } else {
            assert((v / pow2(m)) % 2 == 0);
            assert(pow2(m) * ((v / pow2(m)) % 2) == 0);
        }
    }
}

/// Where each bit of a two-limb value comes from: the low limb below the
/// split, the high limb above it.
pub proof fn lemma_split_bit(a: nat, b: nat, w: nat, i: nat)
    requires
        a < pow2(w),
    ensures
        bit_of(a + pow2(w) * b, i) == if i < w {
            bit_of(a, i)
        } else {
            bit_of(b, (i - w) as nat)
        },
{
    let x = a + pow2(w) * b;
    lemma_pow2_pos(w);
    if i < w {
        let q = a / pow2(i) + pow2((w - i) as nat) * b;
        let r = a % pow2(i);
        lemma_pow2_pos(i);
        lemma_pow2_pos((w - i) as nat);
        lemma_fundamental_div_mod(a as int, pow2(i) as int);
        lemma_mod_bound(a as int, pow2(i) as int);
        assert(pow2((w - i) as nat) * pow2(i) == pow2(w)) by {
            lemma_pow2_adds((w - i) as nat, i);
        }
        assert((pow2((w - i) as nat) * b) * pow2(i) == pow2(w) * b) by {
            lemma_mul_is_associative(pow2((w - i) as nat) as int, b as int, pow2(i) as int);
            lemma_mul_is_commutative(b as int, pow2(i) as int);
            lemma_mul_is_associative(pow2((w - i) as nat) as int, pow2(i) as int, b as int);
        }
        assert(x == q * pow2(i) + r) by {
            lemma_mul_is_distributive_add_other_way(
                pow2(i) as int,
                (a / pow2(i)) as int,
                (pow2((w - i) as nat) * b) as int,
            );
        }
        lemma_fundamental_div_mod_converse(x as int, pow2(i) as int, q as int, r as int);
        assert(x / pow2(i) == q);
        if i + 1 <= w {
            assert(pow2((w - i) as nat) == 2 * pow2((w - i - 1) as nat)) by {
                lemma_pow2_adds(1, (w - i - 1) as nat);
                lemma2_to64();
            }
            assert(pow2((w - i) as nat) * b == 2 * (pow2((w - i - 1) as nat) * b)) by {
                lemma_mul_is_associative(2, pow2((w - i - 1) as nat) as int, b as int);
            }
            lemma_mod_multiples_vanish(
                (pow2((w - i - 1) as nat) * b) as int,
                (a / pow2(i)) as int,
                2,
            );
        }
        assert(q % 2 == (a / pow2(i)) % 2);
    } else {
        let j = (i - w) as nat;
        lemma_mul_is_commutative(pow2(w) as int, b as int);
        lemma_fundamental_div_mod_converse(x as int, pow2(w) as int, b as int, a as int);
        assert(x / pow2(w) == b);
        lemma_pow2_pos(j);
        assert(pow2(w) * pow2(j) == pow2(i)) by {
            lemma_pow2_adds(w, j);
        }
        lemma_div_denominator(x as int, pow2(w) as int, pow2(j) as int);
        assert(x / pow2(i) == b / pow2(j));
    }
}

/// Each bit of a field element is a bit of the limb the index falls in.
pub proof fn lemma_fp_bit(a: Fp, i: nat)
    requires
        i < 256,
    ensures
        bit_of(a.val(), i) == if i < 64 {
            bit_of(a.l0 as nat, i)
        } else if i < 128 {
            bit_of(a.l1 as nat, (i - 64) as nat)
        } else if i < 192 {
            bit_of(a.l2 as nat, (i - 128) as nat)
        } else {
            bit_of(a.l3 as nat, (i - 192) as nat)
        },
{
    lemma_pow2_consts();
    let r2 = (a.l2 + pow2(64) * (a.l3 as nat)) as nat;
    let r1 = (a.l1 + pow2(64) * r2) as nat;
    assert(a.val() == a.l0 + pow2(64) * r1) by {
        lemma_mul_is_distributive_add(pow2(64) as int, a.l1 as int, (pow2(64) * r2) as int);
        lemma_mul_is_distributive_add(pow2(64) as int, a.l2 as int, (pow2(64) * (a.l3 as nat)) as int);
        assert(pow2(64) * (pow2(64) * (a.l2 as nat)) == pow2(128) * (a.l2 as nat)) by {
            lemma_mul_is_associative(pow2(64) as int, pow2(64) as int, a.l2 as int);
            lemma_pow2_adds(64, 64);
        }
        assert(pow2(64) * (pow2(64) * (pow2(64) * (a.l3 as nat))) == pow2(192) * (a.l3 as nat)) by {
            lemma_mul_is_associative(pow2(64) as int, pow2(64) as int, (pow2(64) * (a.l3 as nat)) as int);
            lemma_pow2_adds(64, 64);
            lemma_mul_is_associative(pow2(128) as int, pow2(64) as int, a.l3 as int);
            lemma_pow2_adds(128, 64);
        }
        assert(pow2(64) * (a.l2 as nat) + pow2(64) * (pow2(64) * (a.l3 as nat)) == pow2(64) * r2);
        lemma_mul_is_commutative(pow2(64) as int, a.l1 as int);
        lemma_mul_is_commutative(pow2(128) as int, a.l2 as int);
        lemma_mul_is_commutative(pow2(192) as int, a.l3 as int);
    }
    assert(r2 < pow2(128)) by {
        lemma_mul_inequality(a.l3 as int, pow2(64) - 1, pow2(64) as int);
        lemma_mul_is_distributive_sub_other_way(pow2(64) as int, pow2(64) as int, 1);
        lemma_mul_is_commutative(pow2(64) as int, a.l3 as int);
        lemma_pow2_adds(64, 64);
    }
    lemma_split_bit(a.l0 as nat, r1, 64, i);
    if i >= 64 {
        lemma_split_bit(a.l1 as nat, r2, 64, (i - 64) as nat);
        if i >= 128 {
            lemma_split_bit(a.l2 as nat, a.l3 as nat, 64, (i - 128) as nat);
        }
    }
}

/// Reads one bit of the binary expansion of a field element.
pub fn fp_bit(a: &Fp, i: usize) -> (r: bool)
    requires
        i < 256,
    ensures
        r == bit_of(a.val(), i as nat),
{
    let limb: u64 = if i < 64 {
        a.l0
    } else if i < 128 {
        a.l1
    } else if i < 192 {
        a.l2
    } else {
        a.l3
    };
    let k: u64 = (i as u64) % 64;
    let r = ((limb >> k) & 1) == 1;
    proof {
        lemma_fp_bit(*a, i as nat);
        vstd::bits::lemma_u64_shr_is_div(limb, k);
        vstd::bits::lemma_u64_low_bits_mask_is_mod(limb >> k, 1);
        vstd::bits::lemma_low_bits_mask_values();
        assert(pow2(1) == 2) by {
            lemma2_to64();
        }
        lemma_pow2_pos(k as nat);
        lemma_mod_bound((limb >> k) as int, 2);
    }
    r
}

/// How the limbs are read back from the value: little-endian base-2^64
/// digits.
proof fn lemma_limbs_from_val(a: Fp)
    ensures
        a.l0 == a.val() % pow2(64),
        a.l1 == (a.val() / pow2(64)) % pow2(64),
        a.l2 == (a.val() / pow2(128)) % pow2(64),
        a.l3 == a.val() / pow2(192),
{
    lemma_pow2_consts();
    let r2 = (a.l2 + pow2(64) * (a.l3 as nat)) as nat;
    let r1 = (a.l1 + pow2(64) * r2) as nat;
    assert(a.val() == a.l0 + pow2(64) * r1) by {
        lemma_mul_is_distributive_add(pow2(64) as int, a.l1 as int, (pow2(64) * r2) as int);
        lemma_mul_is_distributive_add(pow2(64) as int, a.l2 as int, (pow2(64) * (a.l3 as nat)) as int);
        assert(pow2(64) * (pow2(64) * (a.l2 as nat)) == pow2(128) * (a.l2 as nat)) by {
            lemma_mul_is_associative(pow2(64) as int, pow2(64) as int, a.l2 as int);
            lemma_pow2_adds(64, 64);
        }
        assert(pow2(64) * (pow2(64) * (pow2(64) * (a.l3 as nat))) == pow2(192) * (a.l3 as nat)) by {
            lemma_mul_is_associative(pow2(64) as int, pow2(64) as int, (pow2(64) * (a.l3 as nat)) as int);
            lemma_pow2_adds(64, 64);
            lemma_mul_is_associative(pow2(128) as int, pow2(64) as int, a.l3 as int);
            lemma_pow2_adds(128, 64);
        }
        assert(pow2(64) * (a.l2 as nat) + pow2(64) * (pow2(64) * (a.l3 as nat)) == pow2(64) * r2);
        lemma_mul_is_commutative(pow2(64) as int, a.l1 as int);
        lemma_mul_is_commutative(pow2(128) as int, a.l2 as int);
        lemma_mul_is_commutative(pow2(192) as int, a.l3 as int);
    }
    lemma_fundamental_div_mod_converse(a.val() as int, pow2(64) as int, r1 as int, a.l0 as int);
    lemma_fundamental_div_mod_converse(r1 as int, pow2(64) as int, r2 as int, a.l1 as int);
    lemma_fundamental_div_mod_converse(r2 as int, pow2(64) as int, a.l3 as int, a.l2 as int);
    assert(a.val() / pow2(64) == r1 && r1 / pow2(64) == r2 && r2 / pow2(64) == a.l3);
    assert(a.val() / pow2(128) == r2) by {
        lemma_div_denominator(a.val() as int, pow2(64) as int, pow2(64) as int);
        lemma_pow2_adds(64, 64);
    }
    assert(a.val() / pow2(192) == a.l3) by {
        lemma_div_denominator(a.val() as int, pow2(128) as int, pow2(64) as int);
        lemma_pow2_adds(128, 64);
    }
}

/// A field element is zero exactly when all its limbs are zero.
pub proof fn lemma_val_zero(a: Fp)
    ensures
        (a.val() == 0) == (a.l0 == 0 && a.l1 == 0 && a.l2 == 0 && a.l3 == 0),
{
    lemma_pow2_pos(64);
    lemma_pow2_pos(128);
    lemma_pow2_pos(192);
    lemma_mul_basics(pow2(64) as int);
    lemma_mul_basics(pow2(128) as int);
    lemma_mul_basics(pow2(192) as int);
    if a.l1 != 0 {
        lemma_mul_strictly_positive(a.l1 as int, pow2(64) as int);
    }
    if a.l2 != 0 {
        lemma_mul_strictly_positive(a.l2 as int, pow2(128) as int);
    }
    if a.l3 != 0 {
        lemma_mul_strictly_positive(a.l3 as int, pow2(192) as int);
    }
}

/// Two field elements with the same value have the same limbs.
pub proof fn lemma_val_inj(a: Fp, b: Fp)
    requires
        a.val() == b.val(),
    ensures
        a == b,
{
    lemma_limbs_from_val(a);
    lemma_limbs_from_val(b);
}


/// Multiplying by a negation negates the product.
pub proof fn lemma_fneg_mul(a: nat, b: nat)
    requires
        a < p(),
    ensures
        fmul(fneg(a), b) == fneg(fmul(a, b)),
{
    reveal(fadd); reveal(fmul); reveal(fneg);
    if a == 0 {
        lemma_mod_self_0(p() as int);
        lemma_small_mod(0, p());
        lemma_mul_basics(b as int);
        assert(fneg(0) == 0);
        assert(fmul(0, b) == 0);
        assert(fmul(a, b) == 0);
        return ;
    }
    lemma_small_mod(a, p());
    assert(fneg(a) == ((p() - a) % (p() as int)) as nat);
    lemma_small_mod((p() - a) as nat, p());
    assert(fneg(a) == p() - a);
    lemma_mul_mod_noop_left((p() - a) as int, b as int, p() as int);
    assert(fmul(fneg(a), b) == ((p() - a) * b) % (p() as int));
    lemma_mul_is_distributive_sub_other_way(b as int, p() as int, a as int);
    assert((p() - a) * b == p() * b - a * b);
    lemma_mod_multiples_vanish(b as int, -((a * b) as int), p() as int);
    assert((p() * b - a * b) % (p() as int) == (-((a * b) as int)) % (p() as int));
    let r = (a * b) % p();
    let q = ((a * b) as int) / (p() as int);
    lemma_fundamental_div_mod((a * b) as int, p() as int);
    lemma_mod_bound((a * b) as int, p() as int);
    assert(-((a * b) as int) == p() * (-q - 1) + (p() - r)) by {
        lemma_mul_is_distributive_sub(p() as int, -q, 1);
        lemma_mul_unary_negation(p() as int, q);
    }
    lemma_mod_multiples_vanish(-q - 1, (p() - r) as int, p() as int);
    assert((-((a * b) as int)) % (p() as int) == ((p() - r) as int) % (p() as int));
    lemma_small_mod(r, p());
    assert(fneg(fmul(a, b)) == ((p() - r) as int) % (p() as int));
}

/// Field addition agrees with plain addition below the modulus.
pub proof fn lemma_fadd_small(a: nat, b: nat)
    requires
        a + b < p(),
    ensures
        fadd(a, b) == a + b,
{
    reveal(fadd);
    lemma_small_mod((a + b) as nat, p());
}

/// Field multiplication agrees with plain multiplication below the modulus.
pub proof fn lemma_fmul_small(a: nat, b: nat)
    requires
        a * b < p(),
    ensures
        fmul(a, b) == a * b,
{
    reveal(fmul);
    lemma_small_mod((a * b) as nat, p());
}

/// A field sum is always reduced.
pub proof fn lemma_fadd_bound(a: nat, b: nat)
    ensures
        fadd(a, b) < p(),
{
    reveal(fadd);
    lemma_mod_bound((a + b) as int, p() as int);
}

/// Adding then subtracting the same element gives the value back.
#[verifier::rlimit(100)]
pub proof fn lemma_fsub_of_fadd(x: nat, y: nat)
    requires
        x < p(),
    ensures
        fsub(fadd(x, y), y) == x,
{
    reveal(fadd);
    reveal(fneg);
    let s = (x + y) % p();
    lemma_mod_bound((x + y) as int, p() as int);
    lemma_mod_bound((y % p()) as int, p() as int);
    lemma_mod_bound(y as int, p() as int);
    assert(fsub(fadd(x, y), y) == (s + (p() - y % p()) % (p() as int)) % (p() as int));
    if y % p() == 0 {
        lemma_mod_self_0(p() as int);
        assert((p() - y % p()) % (p() as int) == 0);
        lemma_add_mod_noop(x as int, y as int, p() as int);
        lemma_small_mod(x, p());
        lemma_small_mod(0, p());
        assert(s == x);
        lemma_small_mod(s, p());
        assert(fadd(s, 0) == x);
        assert(fneg(y) == 0);
    } else {
        lemma_small_mod((p() - y % p()) as nat, p());
        assert((p() - y % p()) % (p() as int) == p() - y % p());
        lemma_add_mod_noop(s as int, (p() - y % p()) as int, p() as int);
        lemma_mod_twice((x + y) as int, p() as int);
        lemma_small_mod((p() - y % p()) as nat, p());
        assert((s + (p() - y % p())) % (p() as int) == ((x + y) + (p() - y % p())) % (p() as int));
        assert((x + y) + (p() - y % p()) == x + p() + (y - (y % p())));
        let q = y / p();
        lemma_fundamental_div_mod(y as int, p() as int);
        assert(y - y % p() == p() * q);
        assert(x + p() + (y - (y % p())) == p() * (q + 1) + x) by {
            lemma_mul_is_distributive_add(p() as int, q as int, 1);
        }
        lemma_mod_multiples_vanish(q as int + 1, x as int, p() as int);
        lemma_small_mod(x, p());
    }
}

/// Multiplying a quotient `num * inv(den)` back by `den` gives the
/// numerator, whenever `inv` really is the inverse of `den`.
pub proof fn lemma_div_cancel(den: nat, num: nat, inv: nat)
    requires
        fmul(den, inv) == 1,
        num < p(),
    ensures
        fmul(den, fmul(num, inv)) == num,
{
    lemma_fmul_assoc(den, num, inv);
    lemma_fmul_comm(den, num);
    lemma_fmul_assoc(num, den, inv);
    lemma_fmul_one(num);
    assert(fmul(den, fmul(num, inv)) == fmul(fmul(den, num), inv));
    assert(fmul(fmul(num, den), inv) == fmul(num, fmul(den, inv)));
}

/// A negation is always reduced.
pub proof fn lemma_fneg_bound(a: nat)
    ensures
        fneg(a) < p(),
{
    reveal(fneg);
    lemma_mod_bound((p() - a % p()) as int, p() as int);
}

/// The negation of one.
pub proof fn lemma_fneg_one()
    ensures
        fneg(1) == p() - 1,
{
    reveal(fneg);
    lemma_small_mod(1, p());
    lemma_small_mod((p() - 1) as nat, p());
}

/// Anything times zero is zero in the field.
pub proof fn lemma_fmul_zero(x: nat)
    ensures
        fmul(x, 0) == 0,
        fmul(0, x) == 0,
{
    reveal(fmul);
    lemma_mul_basics(x as int);
    lemma_small_mod(0, p());
}

/// A field subtraction is zero exactly when the operands are equal.
pub proof fn lemma_fsub_zero_iff(a: nat, b: nat)
    requires
        a < p(),
        b < p(),
    ensures
        (fsub(a, b) == 0) == (a == b),
{
    reveal(fadd); reveal(fmul); reveal(fneg);
    lemma_small_mod(a, p());
    lemma_small_mod(b, p());
    if b == 0 {
        lemma_mod_self_0(p() as int);
        assert(fneg(0) == 0);
        assert(fsub(a, 0) == a % p());
        lemma_small_mod(a, p());
    } else {
        lemma_small_mod((p() - b) as nat, p());
        assert(fneg(b) == p() - b);
        if a == b {
            lemma_mod_self_0(p() as int);
            assert(fsub(a, b) == ((p() as int) % (p() as int)) as nat);
        } else if a < b {
            lemma_small_mod((a + p() - b) as nat, p());
            assert(fsub(a, b) == a + p() - b);
        } else {
            lemma_mod_add_multiples_vanish((a - b) as int, p() as int);
            lemma_small_mod((a - b) as nat, p());
            assert(fsub(a, b) == a - b);
        }
    }
}

/// Subtraction in the field agrees with plain subtraction when the first
/// operand dominates.
pub proof fn lemma_fsub_small(a: nat, b: nat)
    requires
        b <= a < p(),
    ensures
        fsub(a, b) == a - b,
{
    reveal(fadd); reveal(fneg);
    lemma_small_mod(b, p());
    if b == 0 {
        lemma_mod_self_0(p() as int);
        assert(fneg(0) == 0);
        lemma_small_mod(a, p());
    } else {
        lemma_small_mod((p() - b) as nat, p());
        assert(fneg(b) == p() - b);
        lemma_mod_add_multiples_vanish((a - b) as int, p() as int);
        lemma_small_mod((a - b) as nat, p());
    }
}

} // verus!
