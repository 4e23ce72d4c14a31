//! Prime-field coefficients and the modular arithmetic that all emitted
//! coefficient identities are stated over.

use vstd::prelude::*;
use vstd::arithmetic::div_mod::*;
use vstd::arithmetic::mul::*;

verus! {

/// The prime modulus of the coefficient field: 2^61 - 1.
pub const FIELD_MODULUS: u64 = 2305843009213693951;

/// A field element, held as its canonical representative below the modulus.
#[derive(Clone, Copy, PartialEq, Eq, Structural, Debug, Hash)]
pub struct Fr {
    pub v: u64,
}

/// The modulus as a mathematical integer.
pub open spec fn modulus() -> int {
    FIELD_MODULUS as int
}

/// A field element is well formed when its representative is canonical.
pub open spec fn fr_ok(f: Fr) -> bool {
    f.v < FIELD_MODULUS
}

/// Field addition on representatives.
pub open spec fn fadd(a: int, b: int) -> int {
    (a + b) % modulus()
}

/// Field multiplication on representatives.
pub open spec fn fmul(a: int, b: int) -> int {
    (a * b) % modulus()
}

/// Field negation on representatives.
pub open spec fn fneg(a: int) -> int {
    (modulus() - a % modulus()) % modulus()
}

/// Field subtraction on representatives.
pub open spec fn fsub(a: int, b: int) -> int {
    fadd(a, fneg(b))
}

/// Congruence modulo the field modulus.
pub open spec fn eqm(a: int, b: int) -> bool {
    (a - b) % modulus() == 0
}

/// The additive identity.
pub fn fr_zero() -> (r: Fr)
    ensures
        r.v == 0,
        fr_ok(r),
{
    Fr { v: 0 }
}

/// The multiplicative identity.
pub fn fr_one() -> (r: Fr)
    ensures
        r.v == 1,
        fr_ok(r),
{
    Fr { v: 1 }
}

/// Builds the field element of a machine integer by reduction.
pub fn fr_from_u64(x: u64) -> (r: Fr)
    ensures
        fr_ok(r),
        r.v as int == (x as int) % modulus(),
{
    Fr { v: x % FIELD_MODULUS }
}

/// Adds two field elements.
pub fn fr_add(a: Fr, b: Fr) -> (r: Fr)
    requires
        fr_ok(a),
        fr_ok(b),
    ensures
        fr_ok(r),
        r.v as int == fadd(a.v as int, b.v as int),
{
    let s: u64 = a.v + b.v;
    if s >= FIELD_MODULUS {
        proof {
            lemma_mod_sub_multiples_vanish(s as int, modulus());
            lemma_small_mod((s - FIELD_MODULUS) as nat, FIELD_MODULUS as nat);
        }
        Fr { v: s - FIELD_MODULUS }
    } else {
        proof {
            lemma_small_mod(s as nat, FIELD_MODULUS as nat);
        }
        Fr { v: s }
    }
}

/// Negates a field element.
pub fn fr_neg(a: Fr) -> (r: Fr)
    requires
        fr_ok(a),
    ensures
        fr_ok(r),
        r.v as int == fneg(a.v as int),
{
    proof {
        lemma_small_mod(a.v as nat, FIELD_MODULUS as nat);
        if a.v == 0 {
            lemma_mod_self_0(modulus());
        } else {
            lemma_small_mod((FIELD_MODULUS - a.v) as nat, FIELD_MODULUS as nat);
        }
    }
    if a.v == 0 {
        Fr { v: 0 }
    } else {
        Fr { v: FIELD_MODULUS - a.v }
    }
}

/// Subtracts one field element from another.
pub fn fr_sub(a: Fr, b: Fr) -> (r: Fr)
    requires
        fr_ok(a),
        fr_ok(b),
    ensures
        fr_ok(r),
        r.v as int == fsub(a.v as int, b.v as int),
{
    let n = fr_neg(b);
    fr_add(a, n)
}

/// Multiplies two field elements.
pub fn fr_mul(a: Fr, b: Fr) -> (r: Fr)
    requires
        fr_ok(a),
        fr_ok(b),
    ensures
        fr_ok(r),
        r.v as int == fmul(a.v as int, b.v as int),
{
    proof {
        lemma_mul_upper_bound(a.v as int, modulus() - 1, b.v as int, modulus() - 1);
        assert((modulus() - 1) * (modulus() - 1) < u128::MAX as int) by (nonlinear_arith);
        lemma_mod_bound(a.v as int * b.v as int, modulus());
    }
    let p: u128 = (a.v as u128) * (b.v as u128);
    let m: u128 = FIELD_MODULUS as u128;
    let r: u64 = (p % m) as u64;
    Fr { v: r }
}

/// Scaling by the multiplicative identity changes nothing.
pub proof fn lemma_fmul_one(a: int)
    requires
        0 <= a < modulus(),
    ensures
        fmul(a, 1) == a,
{
    assert(a * 1 == a);
    lemma_small_mod(a as nat, FIELD_MODULUS as nat);
}

/// The field product of nonnegative representatives is canonical.
pub proof fn lemma_fmul_bound(a: int, b: int)
    requires
        a >= 0,
        b >= 0,
    ensures
        0 <= fmul(a, b) < modulus(),
{
    lemma_mul_nonnegative(a, b);
    lemma_mod_bound(a * b, modulus());
}

/// Reducing by a zero free term changes nothing.
pub proof fn lemma_fsub_zero(a: int)
    requires
        0 <= a < modulus(),
    ensures
        fsub(a, 0) == a,
{
    lemma_small_mod(0, FIELD_MODULUS as nat);
    lemma_mod_self_0(modulus());
    lemma_small_mod(a as nat, FIELD_MODULUS as nat);
}

/// Congruence is reflexive.
pub proof fn lemma_eqm_refl(a: int)
    ensures
        eqm(a, a),
{
    lemma_small_mod(0, FIELD_MODULUS as nat);
}

/// The field sum of nonnegative representatives is canonical.
pub proof fn lemma_fadd_bound(a: int, b: int)
    requires
        a >= 0,
        b >= 0,
    ensures
        0 <= fadd(a, b) < modulus(),
        (Fr { v: fadd(a, b) as u64 }).v as int == fadd(a, b),
{
    lemma_mod_bound(a + b, modulus());
}

/// Every integer is congruent to its remainder.
pub proof fn lemma_eqm_mod(a: int)
    ensures
        eqm(a % modulus(), a),
{
    lemma_fundamental_div_mod(a, modulus());
    assert(a % modulus() - a == (-(a / modulus())) * modulus()) by (nonlinear_arith)
        requires a == modulus() * (a / modulus()) + a % modulus();
    lemma_mod_multiples_basic(-(a / modulus()), modulus());
}

/// A multiple of the modulus is congruent to zero.
proof fn lemma_multiple_vanishes(k: int)
    ensures
        (k * modulus()) % modulus() == 0,
{
    lemma_mod_multiples_basic(k, modulus());
}

/// A vanishing remainder exposes the factor of the modulus.
proof fn lemma_factor_of_multiple(x: int)
    requires
        x % modulus() == 0,
    ensures
        x == (x / modulus()) * modulus(),
{
    lemma_fundamental_div_mod(x, modulus());
    assert(x == (x / modulus()) * modulus()) by (nonlinear_arith)
        requires x == modulus() * (x / modulus()) + x % modulus(), x % modulus() == 0;
}

/// Congruence is symmetric.
pub proof fn lemma_eqm_sym(a: int, b: int)
    requires
        eqm(a, b),
    ensures
        eqm(b, a),
{
    lemma_factor_of_multiple(a - b);
    let q = (a - b) / modulus();
    assert(b - a == (-q) * modulus()) by (nonlinear_arith)
        requires a - b == q * modulus();
    lemma_multiple_vanishes(-q);
}

/// Congruence is transitive.
pub proof fn lemma_eqm_trans(a: int, b: int, c: int)
    requires
        eqm(a, b),
        eqm(b, c),
    ensures
        eqm(a, c),
{
    lemma_factor_of_multiple(a - b);
    lemma_factor_of_multiple(b - c);
    let q1 = (a - b) / modulus();
    let q2 = (b - c) / modulus();
    assert(a - c == (q1 + q2) * modulus()) by (nonlinear_arith)
        requires a - b == q1 * modulus(), b - c == q2 * modulus();
    lemma_multiple_vanishes(q1 + q2);
}

/// Congruence is preserved by addition.
pub proof fn lemma_eqm_add(a: int, b: int, c: int, d: int)
    requires
        eqm(a, b),
        eqm(c, d),
    ensures
        eqm(a + c, b + d),
{
    lemma_factor_of_multiple(a - b);
    lemma_factor_of_multiple(c - d);
    let q1 = (a - b) / modulus();
    let q2 = (c - d) / modulus();
    assert((a + c) - (b + d) == (q1 + q2) * modulus()) by (nonlinear_arith)
        requires a - b == q1 * modulus(), c - d == q2 * modulus();
    lemma_multiple_vanishes(q1 + q2);
}

/// Congruence is preserved by multiplication.
pub proof fn lemma_eqm_mul(a: int, b: int, c: int, d: int)
    requires
        eqm(a, b),
        eqm(c, d),
    ensures
        eqm(a * c, b * d),
{
    lemma_factor_of_multiple(a - b);
    lemma_factor_of_multiple(c - d);
    let q1 = (a - b) / modulus();
    let q2 = (c - d) / modulus();
    assert(a * c - b * d == (q1 * c + b * q2) * modulus()) by (nonlinear_arith)
        requires a - b == q1 * modulus(), c - d == q2 * modulus();
    lemma_multiple_vanishes(q1 * c + b * q2);
}

/// Congruence is preserved by negation.
pub proof fn lemma_eqm_neg(a: int, b: int)
    requires
        eqm(a, b),
    ensures
        eqm(-a, -b),
{
    lemma_factor_of_multiple(a - b);
    let q = (a - b) / modulus();
    assert((-a) - (-b) == (-q) * modulus()) by (nonlinear_arith)
        requires a - b == q * modulus();
    lemma_multiple_vanishes(-q);
}

/// The field addition of representatives is congruent to their plain sum.
pub proof fn lemma_fadd_eqm(a: int, b: int)
    ensures
        eqm(fadd(a, b), a + b),
{
    lemma_eqm_mod(a + b);
}

/// The field product of representatives is congruent to their plain product.
pub proof fn lemma_fmul_eqm(a: int, b: int)
    ensures
        eqm(fmul(a, b), a * b),
{
    lemma_eqm_mod(a * b);
}

/// The field negation of a representative is congruent to its plain negation.
pub proof fn lemma_fneg_eqm(a: int)
    ensures
        eqm(fneg(a), -a),
{
    lemma_eqm_mod(modulus() - a % modulus());
    lemma_eqm_mod(a);
    lemma_eqm_neg(a % modulus(), a);
    lemma_mod_self_0(modulus());
    lemma_eqm_add(modulus(), 0, -(a % modulus()), -a);
    lemma_eqm_trans(fneg(a), modulus() - a % modulus(), -a);
}

/// The field difference of representatives is congruent to their plain difference.
pub proof fn lemma_fsub_eqm(a: int, b: int)
    ensures
        eqm(fsub(a, b), a - b),
{
    lemma_fneg_eqm(b);
    lemma_eqm_mod(a + fneg(b));
    lemma_mod_self_0(modulus());
    assert(eqm(a, a));
    lemma_eqm_add(a, a, fneg(b), -b);
    lemma_eqm_trans(fsub(a, b), a + fneg(b), a - b);
}

} // verus!
