//! The constraint classifier and shape rewriters: every incoming
//! `A * B = C` constraint is classified by the constant-ness of its sides and
//! rewritten into one tagged hint describing bounded fan-in gates.

use vstd::prelude::*;
use crate::field::{Fr, FIELD_MODULUS, fr_ok, fr_zero, fr_one, fr_add, fr_sub, fr_mul, fr_neg,
    fadd, fsub, fmul, modulus, lemma_fmul_one, lemma_fsub_zero};
use crate::lc::{Variable, LinearCombination, one_variable, lc_ok, no_dup_vars, distinct_vars,
    non_one_terms, one_coeff_sum, spec_const_term, spec_is_constant, spec_has_one,
    last_non_one_coeff, num_unique_values, is_linear_term, is_constant, get_constant_term,
    normalize, spec_normalize, lemma_non_one_len, lemma_non_one_take_prefix, lemma_non_one_ok,
    lemma_const_term_ok, lemma_one_coeff_sum_absent, lemma_one_coeff_sum_is_const_term,
    lemma_distinct_le_len, lemma_normalize_le_len, lemma_nonconstant_has_var,
    lemma_normalize_props, lemma_distinct_vars_finite, lemma_singleton_sets_eq};

verus! {

/// A terminal failure of a synthesis pass.
#[derive(Clone, Copy, PartialEq, Eq, Structural, Debug)]
pub enum SynthesisError {
    /// All three sides of a constraint are bare constants.
    ConstantConstraint,
    /// A zero multiplier met a nonzero free term: the constraint demands
    /// `0 * LC = k` with `k != 0`.
    ZeroMultiplierWithFreeTerm,
    /// The wrapped circuit definition failed to synthesize.
    AssignmentMissing,
}

/// How one original constraint, or one of its sides, was restructured.
#[derive(Debug)]
pub enum TranspilationVariant {
    /// The side is a bare field constant.
    IsConstant(Fr),
    /// Reserved degenerate pass-through shape; never produced.
    IntoLinearGate((Fr, Fr)),
    /// One univariate quadratic gate: (constant, linear, quadratic).
    IntoQuadraticGate((Fr, Fr, Fr)),
    /// One addition gate consuming up to two variables: (a, b, c, constant),
    /// where the c slot is reserved for the minted output variable.
    IntoSingleAdditionGate((Fr, Fr, Fr, Fr)),
    /// A first addition gate followed by one chained gate per extra
    /// coefficient.
    IntoMultipleAdditionGates((Fr, Fr, Fr, Fr), Vec<Fr>),
    /// The three independently rewritten sides of a general constraint.
    TransformLc(Box<(TranspilationVariant, TranspilationVariant, TranspilationVariant)>),
}

/// The classifier state of one transpilation run: the hint stream, the two
/// variable counters, and the reusable scratch workspace.
pub struct Transpiler {
    pub current_constraint_index: usize,
    pub current_plonk_input_idx: usize,
    pub current_plonk_aux_idx: usize,
    pub scratch: Vec<Variable>,
    pub hints: Vec<(usize, TranspilationVariant)>,
}

/// The additive inverse of the multiplicative identity.
pub open spec fn neg_one_fr() -> Fr {
    Fr { v: (FIELD_MODULUS - 1) as u64 }
}

/// The single-addition-gate coefficients of a combination: the first two
/// ordinary coefficients in order, the reserved output slot, and the
/// constant term.
pub open spec fn spec_single_gate(s: Seq<(Variable, Fr)>) -> (Fr, Fr, Fr, Fr) {
    let ts = non_one_terms(s);
    (
        ts[0].1,
        if ts.len() >= 2 {
            ts[1].1
        } else {
            Fr { v: 0 }
        },
        neg_one_fr(),
        Fr { v: spec_const_term(s) as u64 },
    )
}

/// The chained extra coefficients: one per ordinary term beyond the second.
pub open spec fn spec_extra_coeffs(s: Seq<(Variable, Fr)>) -> Seq<Fr> {
    non_one_terms(s).skip(2).map_values(|t: (Variable, Fr)| t.1)
}

/// One coefficient scaled by the multiplier.
pub open spec fn spec_scale_fr(c: Fr, m: Fr) -> Fr {
    Fr { v: fmul(c.v as int, m.v as int) as u64 }
}

/// A gate scaled by the multiplier, its constant then reduced by the free
/// term.
pub open spec fn spec_scale_gate(g: (Fr, Fr, Fr, Fr), m: Fr, f: Fr) -> (Fr, Fr, Fr, Fr) {
    (
        spec_scale_fr(g.0, m),
        spec_scale_fr(g.1, m),
        spec_scale_fr(g.2, m),
        Fr { v: fsub(fmul(g.3.v as int, m.v as int), f.v as int) as u64 },
    )
}

/// How many auxiliary variables rewriting a combination mints.
pub open spec fn spec_aux_minted(s: Seq<(Variable, Fr)>) -> int {
    if distinct_vars(s).len() <= 2 {
        1
    } else {
        distinct_vars(s).len() - 1
    }
}

/// The one hint that rewriting a combination with a multiplier and a free
/// term must produce.
pub open spec fn rewrite_variant_matches(
    v: TranspilationVariant,
    s: Seq<(Variable, Fr)>,
    m: Fr,
    f: Fr,
) -> bool {
    match v {
        TranspilationVariant::IntoSingleAdditionGate(g) => distinct_vars(s).len() <= 2 && g
            == spec_scale_gate(spec_single_gate(s), m, f),
        TranspilationVariant::IntoMultipleAdditionGates(g, extras) => distinct_vars(s).len() > 2
            && g == spec_scale_gate(spec_single_gate(s), m, f) && extras@ == spec_extra_coeffs(
            s,
        ).map_values(|c: Fr| spec_scale_fr(c, m)),
        _ => false,
    }
}

impl Transpiler {
    /// A fresh transpilation run: no hints, public numbering reserving index
    /// 1 for the constant-one variable, no auxiliaries yet.
    pub fn new() -> (r: Transpiler)
        ensures
            r.current_constraint_index == 0,
            r.current_plonk_input_idx == 1,
            r.current_plonk_aux_idx == 0,
            r.scratch@.len() == 0,
            r.hints@.len() == 0,
    {
        Transpiler {
            current_constraint_index: 0,
            current_plonk_input_idx: 1,
            current_plonk_aux_idx: 0,
            scratch: Vec::new(),
            hints: Vec::new(),
        }
    }

    /// Hands out the next constraint index and advances the counter.
    pub fn increment_lc_number(&mut self) -> (r: usize)
        requires
            old(self).current_constraint_index < usize::MAX,
        ensures
            r == old(self).current_constraint_index,
            final(self).current_constraint_index == old(self).current_constraint_index + 1,
            final(self).current_plonk_input_idx == old(self).current_plonk_input_idx,
            final(self).current_plonk_aux_idx == old(self).current_plonk_aux_idx,
            final(self).scratch@ == old(self).scratch@,
            final(self).hints@ == old(self).hints@,
    {
        let current_lc_number = self.current_constraint_index;
        self.current_constraint_index += 1;
        current_lc_number
    }

    /// The constant-one variable.
    pub fn one() -> (r: Variable)
        ensures
            r == one_variable(),
    {
        Variable::Input(1)
    }

    /// Mints a fresh auxiliary (synthetic) variable.
    pub fn alloc_aux(&mut self) -> (r: Variable)
        requires
            old(self).current_plonk_aux_idx < usize::MAX,
        ensures
            final(self).current_plonk_aux_idx == old(self).current_plonk_aux_idx + 1,
            r == Variable::Aux((old(self).current_plonk_aux_idx + 1) as usize),
            final(self).current_constraint_index == old(self).current_constraint_index,
            final(self).current_plonk_input_idx == old(self).current_plonk_input_idx,
            final(self).scratch@ == old(self).scratch@,
            final(self).hints@ == old(self).hints@,
    {
        self.current_plonk_aux_idx += 1;
        Variable::Aux(self.current_plonk_aux_idx)
    }

    /// Mints a fresh public input variable.
    pub fn alloc_input(&mut self) -> (r: Variable)
        requires
            old(self).current_plonk_input_idx < usize::MAX,
        ensures
            final(self).current_plonk_input_idx == old(self).current_plonk_input_idx + 1,
            r == Variable::Input((old(self).current_plonk_input_idx + 1) as usize),
            final(self).current_constraint_index == old(self).current_constraint_index,
            final(self).current_plonk_aux_idx == old(self).current_plonk_aux_idx,
            final(self).scratch@ == old(self).scratch@,
            final(self).hints@ == old(self).hints@,
    {
        self.current_plonk_input_idx += 1;
        Variable::Input(self.current_plonk_input_idx)
    }

    /// The hint stream produced so far, in constraint order.
    pub fn hints(&self) -> (r: &Vec<(usize, TranspilationVariant)>)
        ensures
            r@ == self.hints@,
    {
        &self.hints
    }
}

/// Rewrites a combination of one or two distinct ordinary variables into one
/// addition gate, minting that gate's output variable.
pub fn rewrite_lc_into_single_addition_gate(lc: &LinearCombination, cs: &mut Transpiler) -> (r: (
    Variable,
    (Fr, Fr, Fr, Fr),
))
    requires
        lc_ok(lc@),
        no_dup_vars(lc@),
        1 <= distinct_vars(lc@).len() <= 2,
        old(cs).current_plonk_aux_idx < usize::MAX,
    ensures
        r.1 == spec_single_gate(lc@),
        fr_ok(r.1.0) && fr_ok(r.1.1) && fr_ok(r.1.2) && fr_ok(r.1.3),
        r.0 == Variable::Aux((old(cs).current_plonk_aux_idx + 1) as usize),
        final(cs).current_plonk_aux_idx == old(cs).current_plonk_aux_idx + 1,
        final(cs).current_constraint_index == old(cs).current_constraint_index,
        final(cs).current_plonk_input_idx == old(cs).current_plonk_input_idx,
        final(cs).scratch@ == old(cs).scratch@,
        final(cs).hints@ == old(cs).hints@,
{
    proof {
        lemma_non_one_len(lc@);
        lemma_non_one_ok(lc@);
        lemma_const_term_ok(lc@);
        lemma_one_coeff_sum_is_const_term(lc@);
    }
    let n = lc.terms.len();
    let mut constant_term = fr_zero();
    let mut found_a = false;
    let mut a_coeff = fr_zero();
    let mut b_coeff = fr_zero();
    let mut i: usize = 0;
    while i < n
        invariant
            0 <= i <= n,
            n == lc@.len(),
            lc_ok(lc@),
            no_dup_vars(lc@),
            non_one_terms(lc@).len() <= 2,
            found_a == (non_one_terms(lc@.take(i as int)).len() >= 1),
            a_coeff == if non_one_terms(lc@.take(i as int)).len() >= 1 {
                non_one_terms(lc@.take(i as int))[0].1
            } else {
                Fr { v: 0 }
            },
            b_coeff == if non_one_terms(lc@.take(i as int)).len() >= 2 {
                non_one_terms(lc@.take(i as int))[1].1
            } else {
                Fr { v: 0 }
            },
            constant_term.v as int == one_coeff_sum(lc@.take(i as int)),
            fr_ok(constant_term),
        decreases n - i,
    {
        let ghost pre = lc@.take(i as int);
        let ghost post = lc@.take(i as int + 1);
        proof {
            assert(post.drop_last() =~= pre);
            assert(post.last() == lc@[i as int]);
            lemma_non_one_take_prefix(lc@, i as int + 1);
            assert(fr_ok(lc@[i as int].1));
        }
        let (var, coeff) = lc.terms[i];
        if var == Variable::Input(1) {
            proof {
                assert(forall|j: int| 0 <= j < i ==> (#[trigger] lc@[j]).0 != lc@[i as int].0);
                assert(forall|j: int| 0 <= j < pre.len() ==> (#[trigger] pre[j]).0
                    != one_variable());
                lemma_one_coeff_sum_absent(pre);
            }
            constant_term = coeff;
        } else {
            proof {
                let na = non_one_terms(pre);
                assert(non_one_terms(post) == na.push(lc@[i as int]));
                assert(forall|j: int| 0 <= j < na.len() ==> na.push(lc@[i as int])[j] == na[j]);
            }
            if !found_a {
                found_a = true;
                a_coeff = coeff;
            } else {
                b_coeff = coeff;
            }
        }
        i += 1;
    }
    proof {
        assert(lc@.take(n as int) =~= lc@);
    }
    let one = fr_one();
    let c_coeff = fr_neg(one);
    proof {
        assert(c_coeff.v as int == (modulus() - 1int % modulus()) % modulus());
        assert(1int % modulus() == 1) by {
            vstd::arithmetic::div_mod::lemma_small_mod(1nat, FIELD_MODULUS as nat);
        }
        assert((modulus() - 1) % modulus() == modulus() - 1) by {
            vstd::arithmetic::div_mod::lemma_small_mod((FIELD_MODULUS - 1) as nat,
                FIELD_MODULUS as nat);
        }
        assert(c_coeff == neg_one_fr());
    }
    let new_var = cs.alloc_aux();
    (new_var, (a_coeff, b_coeff, c_coeff, constant_term))
}

/// Rewrites a combination of more than two distinct ordinary variables into
/// a first addition gate and a chain of one extra gate per further variable,
/// minting one auxiliary variable per gate.
pub fn rewrite_lc_into_multiple_addition_gates(lc: &LinearCombination, cs: &mut Transpiler) -> (r:
    (Variable, (Fr, Fr, Fr, Fr), Vec<Fr>))
    requires
        lc_ok(lc@),
        no_dup_vars(lc@),
        distinct_vars(lc@).len() > 2,
        old(cs).current_plonk_aux_idx + distinct_vars(lc@).len() - 1 <= usize::MAX,
    ensures
        r.1 == spec_single_gate(lc@),
        fr_ok(r.1.0) && fr_ok(r.1.1) && fr_ok(r.1.2) && fr_ok(r.1.3),
        r.2@ == spec_extra_coeffs(lc@),
        r.2@.len() == distinct_vars(lc@).len() - 2,
        forall|j: int| 0 <= j < r.2@.len() ==> fr_ok(#[trigger] r.2@[j]),
        final(cs).current_plonk_aux_idx == old(cs).current_plonk_aux_idx + distinct_vars(
            lc@,
        ).len() - 1,
        r.0 == Variable::Aux(
            (old(cs).current_plonk_aux_idx + distinct_vars(lc@).len() - 1) as usize,
        ),
        final(cs).current_constraint_index == old(cs).current_constraint_index,
        final(cs).current_plonk_input_idx == old(cs).current_plonk_input_idx,
        final(cs).scratch@ == old(cs).scratch@,
        final(cs).hints@ == old(cs).hints@,
{
    proof {
        lemma_non_one_len(lc@);
        lemma_non_one_ok(lc@);
        lemma_const_term_ok(lc@);
        lemma_one_coeff_sum_is_const_term(lc@);
    }
    let n = lc.terms.len();
    let (_, constant_fr) = get_constant_term(lc);
    let mut a_coeff = fr_zero();
    let mut b_coeff = fr_zero();
    let mut count: usize = 0;
    let mut i: usize = 0;
    while i < n && count < 2
        invariant
            0 <= i <= n,
            n == lc@.len(),
            lc_ok(lc@),
            no_dup_vars(lc@),
            count <= 2,
            count as int == non_one_terms(lc@.take(i as int)).len(),
            count >= 1 ==> a_coeff == non_one_terms(lc@.take(i as int))[0].1,
            count >= 2 ==> b_coeff == non_one_terms(lc@.take(i as int))[1].1,
        decreases n - i,
    {
        let ghost pre = lc@.take(i as int);
        let ghost post = lc@.take(i as int + 1);
        proof {
            assert(post.drop_last() =~= pre);
            assert(post.last() == lc@[i as int]);
        }
        let (var, coeff) = lc.terms[i];
        if var != Variable::Input(1) {
            proof {
                let na = non_one_terms(pre);
                assert(non_one_terms(post) == na.push(lc@[i as int]));
                assert(forall|j: int| 0 <= j < na.len() ==> na.push(lc@[i as int])[j] == na[j]);
            }
            if count == 0 {
                a_coeff = coeff;
            } else {
                b_coeff = coeff;
            }
            count += 1;
        }
        i += 1;
    }
    proof {
        if count < 2 {
            assert(lc@.take(n as int) =~= lc@);
            assert(false);
        }
        lemma_non_one_take_prefix(lc@, i as int);
    }
    let c_coeff = fr_neg_one();
    let mut new_var = cs.alloc_aux();
    let first_addition_gate = (a_coeff, b_coeff, c_coeff, constant_fr);
    let mut extra_coefficients: Vec<Fr> = Vec::new();
    while i < n
        invariant
            0 <= i <= n,
            n == lc@.len(),
            lc_ok(lc@),
            no_dup_vars(lc@),
            distinct_vars(lc@).len() > 2,
            non_one_terms(lc@).len() == distinct_vars(lc@).len(),
            old(cs).current_plonk_aux_idx + distinct_vars(lc@).len() - 1 <= usize::MAX,
            non_one_terms(lc@.take(i as int)).len() == 2 + extra_coefficients@.len(),
            forall|j: int| 0 <= j < extra_coefficients@.len()
                ==> (#[trigger] extra_coefficients@[j]) == non_one_terms(
                lc@.take(i as int),
            )[j + 2].1,
            forall|j: int| 0 <= j < extra_coefficients@.len() ==> fr_ok(
                #[trigger] extra_coefficients@[j],
            ),
            cs.current_plonk_aux_idx == old(cs).current_plonk_aux_idx + 1
                + extra_coefficients@.len(),
            new_var == Variable::Aux(cs.current_plonk_aux_idx),
            cs.current_constraint_index == old(cs).current_constraint_index,
            cs.current_plonk_input_idx == old(cs).current_plonk_input_idx,
            cs.scratch@ == old(cs).scratch@,
            cs.hints@ == old(cs).hints@,
        decreases n - i,
    {
        let ghost pre = lc@.take(i as int);
        let ghost post = lc@.take(i as int + 1);
        proof {
            assert(post.drop_last() =~= pre);
            assert(post.last() == lc@[i as int]);
        }
        let (var, coeff) = lc.terms[i];
        if var != Variable::Input(1) {
            proof {
                let na = non_one_terms(pre);
                assert(non_one_terms(post) == na.push(lc@[i as int]));
                assert(forall|j: int| 0 <= j < na.len() ==> na.push(lc@[i as int])[j] == na[j]);
                lemma_non_one_take_prefix(lc@, i as int + 1);
                assert(fr_ok(lc@[i as int].1));
            }
            extra_coefficients.push(coeff);
            new_var = cs.alloc_aux();
        }
        i += 1;
    }
    proof {
        assert(lc@.take(n as int) =~= lc@);
        let ex = spec_extra_coeffs(lc@);
        let na = non_one_terms(lc@);
        assert(na.skip(2).len() == na.len() - 2);
        assert(forall|j: int| 0 <= j < na.len() - 2 ==> (#[trigger] na.skip(2)[j]) == na[j + 2]);
        assert(extra_coefficients@ =~= ex);
    }
    (new_var, first_addition_gate, extra_coefficients)
}

/// The additive inverse of the multiplicative identity, as a field element.
pub fn fr_neg_one() -> (r: Fr)
    ensures
        r == neg_one_fr(),
        fr_ok(r),
{
    Fr { v: FIELD_MODULUS - 1 }
}

/// Scales a gate by the multiplier and reduces its constant by the free
/// term.
fn scale_gate(g: (Fr, Fr, Fr, Fr), m: Fr, f: Fr) -> (r: (Fr, Fr, Fr, Fr))
    requires
        fr_ok(g.0) && fr_ok(g.1) && fr_ok(g.2) && fr_ok(g.3),
        fr_ok(m),
        fr_ok(f),
    ensures
        r == spec_scale_gate(g, m, f),
        fr_ok(r.0) && fr_ok(r.1) && fr_ok(r.2) && fr_ok(r.3),
{
    let (mut a, mut b, mut c, mut k) = g;
    if m.v != 1 {
        a = fr_mul(a, m);
        b = fr_mul(b, m);
        c = fr_mul(c, m);
        k = fr_mul(k, m);
    } else {
        proof {
            lemma_fmul_one(a.v as int);
            lemma_fmul_one(b.v as int);
            lemma_fmul_one(c.v as int);
            lemma_fmul_one(k.v as int);
        }
    }
    let k2 = fr_sub(k, f);
    (a, b, c, k2)
}

impl Transpiler {
    /// Rewrites one combination into a single addition gate or a chain of
    /// them, then scales every coefficient by the multiplier and reduces the
    /// constant by the free term. A zero multiplier marks the combination's
    /// value irrelevant and therefore demands a zero free term.
    pub fn rewrite_lc(&mut self, lc: &LinearCombination, multiplier: Fr, free_term_constant: Fr)
        -> (r: (Variable, TranspilationVariant))
        requires
            lc_ok(lc@),
            no_dup_vars(lc@),
            distinct_vars(lc@).len() >= 1,
            fr_ok(multiplier),
            fr_ok(free_term_constant),
            multiplier.v == 0 ==> free_term_constant.v == 0,
            old(self).scratch@.len() == 0,
            old(self).current_plonk_aux_idx + distinct_vars(lc@).len() <= usize::MAX,
        ensures
            final(self).scratch@.len() == 0,
            final(self).current_plonk_aux_idx == old(self).current_plonk_aux_idx
                + spec_aux_minted(lc@),
            final(self).current_constraint_index == old(self).current_constraint_index,
            final(self).current_plonk_input_idx == old(self).current_plonk_input_idx,
            final(self).hints@ == old(self).hints@,
            r.0 == Variable::Aux(
                (old(self).current_plonk_aux_idx + spec_aux_minted(lc@)) as usize,
            ),
            rewrite_variant_matches(r.1, lc@, multiplier, free_term_constant),
    {
        let (_contains_constant, num_linear_terms) = num_unique_values(lc, &mut self.scratch);
        if num_linear_terms <= 2 {
            let (new_var, gate) = rewrite_lc_into_single_addition_gate(lc, self);
            let scaled = scale_gate(gate, multiplier, free_term_constant);
            (new_var, TranspilationVariant::IntoSingleAdditionGate(scaled))
        } else {
            let (new_var, first_gate, mut other_coefs) = rewrite_lc_into_multiple_addition_gates(
                lc,
                self,
            );
            let scaled = scale_gate(first_gate, multiplier, free_term_constant);
            let ghost orig = other_coefs@;
            if multiplier.v != 1 {
                let en = other_coefs.len();
                let mut j: usize = 0;
                while j < en
                    invariant
                        0 <= j <= en,
                        en == other_coefs@.len(),
                        orig.len() == en,
                        fr_ok(multiplier),
                        forall|k: int| 0 <= k < orig.len() ==> fr_ok(#[trigger] orig[k]),
                        forall|k: int| 0 <= k < j ==> (#[trigger] other_coefs@[k])
                            == spec_scale_fr(orig[k], multiplier),
                        forall|k: int| j <= k < en ==> (#[trigger] other_coefs@[k]) == orig[k],
                    decreases en - j,
                {
                    let cur = other_coefs[j];
                    other_coefs.set(j, fr_mul(cur, multiplier));
                    j += 1;
                }
            } else {
                proof {
                    assert forall|k: int| 0 <= k < orig.len() implies spec_scale_fr(
                        orig[k],
                        multiplier,
                    ) == orig[k] by {
                        lemma_fmul_one(orig[k].v as int);
                    }
                }
            }
            proof {
                assert(other_coefs@ =~= orig.map_values(
                    |c: Fr| spec_scale_fr(c, multiplier),
                ));
            }
            (new_var, TranspilationVariant::IntoMultipleAdditionGates(scaled, other_coefs))
        }
    }
}


/// A side is exactly a quadratic factor when it holds a constant term and
/// one ordinary variable.
pub open spec fn spec_is_quadratic(a: Seq<(Variable, Fr)>, b: Seq<(Variable, Fr)>) -> bool {
    distinct_vars(a).len() == 1 && distinct_vars(b).len() == 1 && spec_has_one(a) && spec_has_one(
        b,
    ) && distinct_vars(a) == distinct_vars(b)
}

/// The coefficient of the first constant-one term, as a field element.
pub open spec fn const_fr(s: Seq<(Variable, Fr)>) -> Fr {
    Fr { v: spec_const_term(s) as u64 }
}

/// The quadratic gate of `A * B = C` with `A = a1 v + a0`, `B = b1 v + b0`
/// and constant `C`: (a0 b0 - C, a0 b1 + b0 a1, a1 b1).
pub open spec fn spec_quad_coeffs(
    a: Seq<(Variable, Fr)>,
    b: Seq<(Variable, Fr)>,
    c: Seq<(Variable, Fr)>,
) -> (Fr, Fr, Fr) {
    let a0 = spec_const_term(a);
    let b0 = spec_const_term(b);
    let a1 = last_non_one_coeff(a);
    let b1 = last_non_one_coeff(b);
    let cc = spec_const_term(c);
    (
        Fr { v: fsub(fmul(a0, b0), cc) as u64 },
        Fr { v: fadd(fmul(a0, b1), fmul(b0, a1)) as u64 },
        Fr { v: fmul(a1, b1) as u64 },
    )
}

/// A member of a singleton set is its one element.
proof fn lemma_singleton_member(s: Set<Variable>, x: Variable, y: Variable)
    requires
        s.finite(),
        s.len() == 1,
        s.contains(x),
        s.contains(y),
    ensures
        x == y,
{
    if x != y {
        assert(s.remove(x).contains(y));
        assert(s.remove(x).len() == 0);
    }
}

/// Detects the quadratic pattern: both sides linear in the same variable
/// with a constant part, against a constant right-hand side; if it matches,
/// hands back the folded quadratic gate coefficients.
pub fn is_quadratic_gate(
    a: &LinearCombination,
    b: &LinearCombination,
    c: &LinearCombination,
    scratch: &mut Vec<Variable>,
) -> (r: (bool, (Fr, Fr, Fr)))
    requires
        lc_ok(a@),
        lc_ok(b@),
        lc_ok(c@),
        old(scratch)@.len() == 0,
    ensures
        final(scratch)@.len() == 0,
        r.0 == (spec_is_constant(c@) && spec_is_quadratic(a@, b@)),
        r.0 ==> r.1 == spec_quad_coeffs(a@, b@, c@),
        !r.0 ==> r.1.0.v == 0 && r.1.1.v == 0 && r.1.2.v == 0,
        fr_ok(r.1.0) && fr_ok(r.1.1) && fr_ok(r.1.2),
{
    let zero = fr_zero();
    let (c_is_constant, c_constant_coeff) = is_constant(c);
    if !c_is_constant {
        return (false, (zero, zero, zero));
    }
    let (a_contains_constant, a_constant_coeff) = get_constant_term(a);
    let (b_contains_constant, b_constant_coeff) = get_constant_term(b);
    let (a_is_linear, a_linear_var, a_linear_var_coeff) = is_linear_term(a, scratch);
    let (b_is_linear, b_linear_var, b_linear_var_coeff) = is_linear_term(b, scratch);
    proof {
        lemma_distinct_vars_finite(a@);
        lemma_distinct_vars_finite(b@);
        if a_is_linear {
            assert(a@.len() > 0);
        }
        if b_is_linear {
            assert(b@.len() > 0);
        }
    }
    if a_contains_constant && a_is_linear && b_contains_constant && b_is_linear && a_linear_var
        == b_linear_var {
        proof {
            lemma_singleton_sets_eq(distinct_vars(a@), distinct_vars(b@), a_linear_var);
        }
        let quadratic_term = fr_mul(a_linear_var_coeff, b_linear_var_coeff);
        let linear_term_0 = fr_mul(a_constant_coeff, b_linear_var_coeff);
        let linear_term_1 = fr_mul(b_constant_coeff, a_linear_var_coeff);
        let linear_term = fr_add(linear_term_0, linear_term_1);
        let mut constant_term = fr_mul(a_constant_coeff, b_constant_coeff);
        if c_constant_coeff.v != 0 {
            constant_term = fr_sub(constant_term, c_constant_coeff);
        } else {
            proof {
                lemma_fsub_zero(constant_term.v as int);
            }
        }
        return (true, (constant_term, linear_term, quadratic_term));
    }
    proof {
        if spec_is_constant(c@) && spec_is_quadratic(a@, b@) {
            if a_is_linear && b_is_linear && a_linear_var != b_linear_var {
                assert(distinct_vars(b@).contains(a_linear_var));
                lemma_singleton_member(distinct_vars(b@), a_linear_var, b_linear_var);
            }
        }
    }
    (false, (zero, zero, zero))
}

/// The terminal failure of classifying one constraint over its normalized
/// sides, if any: an all-constant constraint, or a zero multiplier against a
/// nonzero constant right-hand side.
pub open spec fn spec_enforce_error(
    a: Seq<(Variable, Fr)>,
    b: Seq<(Variable, Fr)>,
    c: Seq<(Variable, Fr)>,
) -> Option<SynthesisError> {
    let ac = spec_is_constant(a);
    let bc = spec_is_constant(b);
    let cc = spec_is_constant(c);
    if ac && bc && cc {
        Some(SynthesisError::ConstantConstraint)
    } else if ac && !bc && cc && spec_const_term(a) == 0 && spec_const_term(c) != 0 {
        Some(SynthesisError::ZeroMultiplierWithFreeTerm)
    } else if !ac && bc && cc && spec_const_term(b) == 0 && spec_const_term(c) != 0 {
        Some(SynthesisError::ZeroMultiplierWithFreeTerm)
    } else {
        None
    }
}

/// The hint that classifying one constraint over its normalized sides must
/// emit, by the constant-ness of the three sides.
pub open spec fn enforce_hint_matches(
    v: TranspilationVariant,
    a: Seq<(Variable, Fr)>,
    b: Seq<(Variable, Fr)>,
    c: Seq<(Variable, Fr)>,
) -> bool {
    let ac = spec_is_constant(a);
    let bc = spec_is_constant(b);
    let cc = spec_is_constant(c);
    if ac && bc && cc {
        false
    } else if ac && cc {
        rewrite_variant_matches(v, b, const_fr(a), const_fr(c))
    } else if bc && cc {
        rewrite_variant_matches(v, a, const_fr(b), const_fr(c))
    } else if cc {
        if spec_is_quadratic(a, b) {
            v == TranspilationVariant::IntoQuadraticGate(spec_quad_coeffs(a, b, c))
        } else {
            match v {
                TranspilationVariant::TransformLc(t) => rewrite_variant_matches(
                    (*t).0,
                    a,
                    Fr { v: 1 },
                    Fr { v: 0 },
                ) && rewrite_variant_matches((*t).1, b, Fr { v: 1 }, Fr { v: 0 }) && (*t).2
                    == TranspilationVariant::IsConstant(const_fr(c)),
                _ => false,
            }
        }
    } else if ac && bc {
        match v {
            TranspilationVariant::TransformLc(t) => (*t).0 == TranspilationVariant::IsConstant(
                const_fr(a),
            ) && (*t).1 == TranspilationVariant::IsConstant(const_fr(b))
                && rewrite_variant_matches((*t).2, c, Fr { v: 1 }, Fr { v: 0 }),
            _ => false,
        }
    } else if ac {
        rewrite_variant_matches(v, b, const_fr(a), Fr { v: 0 })
    } else if bc {
        rewrite_variant_matches(v, a, const_fr(b), Fr { v: 0 })
    } else {
        match v {
            TranspilationVariant::TransformLc(t) => rewrite_variant_matches(
                (*t).0,
                a,
                Fr { v: 1 },
                Fr { v: 0 },
            ) && rewrite_variant_matches((*t).1, b, Fr { v: 1 }, Fr { v: 0 })
                && rewrite_variant_matches((*t).2, c, Fr { v: 1 }, Fr { v: 0 }),
            _ => false,
        }
    }
}

/// How many auxiliary variables classifying one constraint mints.
pub open spec fn spec_enforce_aux(
    a: Seq<(Variable, Fr)>,
    b: Seq<(Variable, Fr)>,
    c: Seq<(Variable, Fr)>,
) -> int {
    let ac = spec_is_constant(a);
    let bc = spec_is_constant(b);
    let cc = spec_is_constant(c);
    if ac && bc && cc {
        0
    } else if ac && cc {
        spec_aux_minted(b)
    } else if bc && cc {
        spec_aux_minted(a)
    } else if cc {
        if spec_is_quadratic(a, b) {
            0
        } else {
            spec_aux_minted(a) + spec_aux_minted(b)
        }
    } else if ac && bc {
        spec_aux_minted(c)
    } else if ac {
        spec_aux_minted(b)
    } else if bc {
        spec_aux_minted(a)
    } else {
        spec_aux_minted(a) + spec_aux_minted(b) + spec_aux_minted(c)
    }
}


impl Transpiler {
    /// Classifies one constraint `A * B = C` by the constant-ness of its
    /// normalized sides and appends exactly one hint describing how it is
    /// rewritten into gates; fails exactly on an all-constant constraint or
    /// on a zero multiplier against a nonzero constant right-hand side.
    #[verifier::rlimit(100)]
    pub fn enforce(
        &mut self,
        a: &LinearCombination,
        b: &LinearCombination,
        c: &LinearCombination,
    ) -> (r: Result<(), SynthesisError>)
        requires
            lc_ok(a@),
            lc_ok(b@),
            lc_ok(c@),
            old(self).scratch@.len() == 0,
            old(self).current_constraint_index < usize::MAX,
            old(self).current_plonk_aux_idx + a@.len() + b@.len() + c@.len() <= usize::MAX,
        ensures
            final(self).scratch@.len() == 0,
            final(self).current_plonk_input_idx == old(self).current_plonk_input_idx,
            ({
                let na = spec_normalize(a@);
                let nb = spec_normalize(b@);
                let nc = spec_normalize(c@);
                match r {
                    Ok(_) => spec_enforce_error(na, nb, nc) == Option::<SynthesisError>::None
                        && final(self).current_constraint_index
                        == old(self).current_constraint_index + 1
                        && final(self).hints@.len() == old(self).hints@.len() + 1
                        && final(self).hints@.drop_last() == old(self).hints@
                        && final(self).hints@.last().0 == old(self).current_constraint_index
                        && enforce_hint_matches(final(self).hints@.last().1, na, nb, nc)
                        && final(self).current_plonk_aux_idx == old(self).current_plonk_aux_idx
                        + spec_enforce_aux(na, nb, nc),
                    Err(e) => spec_enforce_error(na, nb, nc) == Some(e)
                        && final(self).current_constraint_index
                        == old(self).current_constraint_index
                        && final(self).current_plonk_aux_idx == old(self).current_plonk_aux_idx
                        && final(self).hints@ == old(self).hints@,
                }
            }),
    {
        let na = normalize(a);
        let nb = normalize(b);
        let nc = normalize(c);
        proof {
            lemma_normalize_props(a@);
            lemma_normalize_props(b@);
            lemma_normalize_props(c@);
            lemma_normalize_le_len(a@);
            lemma_normalize_le_len(b@);
            lemma_normalize_le_len(c@);
            lemma_distinct_le_len(na@);
            lemma_distinct_le_len(nb@);
            lemma_distinct_le_len(nc@);
        }
        let (a_is_constant, a_constant_coeff) = is_constant(&na);
        let (b_is_constant, b_constant_coeff) = is_constant(&nb);
        let (c_is_constant, c_constant_coeff) = is_constant(&nc);
        if a_is_constant && b_is_constant && c_is_constant {
            return Err(SynthesisError::ConstantConstraint);
        }
        if a_is_constant && !b_is_constant && c_is_constant {
            if a_constant_coeff.v == 0 && c_constant_coeff.v != 0 {
                return Err(SynthesisError::ZeroMultiplierWithFreeTerm);
            }
            proof {
                lemma_nonconstant_has_var(nb@);
            }
            let (_new_var, hint) = self.rewrite_lc(&nb, a_constant_coeff, c_constant_coeff);
            let current_lc_number = self.increment_lc_number();
            let ghost hints0 = self.hints@;
            self.hints.push((current_lc_number, hint));
            proof {
                assert(self.hints@.drop_last() =~= hints0);
            }
            return Ok(());
        }
        if !a_is_constant && b_is_constant && c_is_constant {
            if b_constant_coeff.v == 0 && c_constant_coeff.v != 0 {
                return Err(SynthesisError::ZeroMultiplierWithFreeTerm);
            }
            proof {
                lemma_nonconstant_has_var(na@);
            }
            let (_new_var, hint) = self.rewrite_lc(&na, b_constant_coeff, c_constant_coeff);
            let current_lc_number = self.increment_lc_number();
            let ghost hints0 = self.hints@;
            self.hints.push((current_lc_number, hint));
            proof {
                assert(self.hints@.drop_last() =~= hints0);
            }
            return Ok(());
        }
        if !a_is_constant && !b_is_constant && c_is_constant {
            let (quad_matches, coeffs) = is_quadratic_gate(&na, &nb, &nc, &mut self.scratch);
            if quad_matches {
                let current_lc_number = self.increment_lc_number();
                let ghost hints0 = self.hints@;
                self.hints.push((
                    current_lc_number,
                    TranspilationVariant::IntoQuadraticGate(coeffs),
                ));
                proof {
                    assert(self.hints@.drop_last() =~= hints0);
                }
                return Ok(());
            }
            proof {
                lemma_nonconstant_has_var(na@);
                lemma_nonconstant_has_var(nb@);
            }
            let one_fr = fr_one();
            let zero_fr = fr_zero();
            let (_va, hint_a) = self.rewrite_lc(&na, one_fr, zero_fr);
            let (_vb, hint_b) = self.rewrite_lc(&nb, one_fr, zero_fr);
            let hint_c = TranspilationVariant::IsConstant(c_constant_coeff);
            let current_lc_number = self.increment_lc_number();
            let ghost hints0 = self.hints@;
            self.hints.push((
                current_lc_number,
                TranspilationVariant::TransformLc(Box::new((hint_a, hint_b, hint_c))),
            ));
            proof {
                assert(self.hints@.drop_last() =~= hints0);
            }
            return Ok(());
        }
        if a_is_constant && b_is_constant && !c_is_constant {
            proof {
                lemma_nonconstant_has_var(nc@);
            }
            let one_fr = fr_one();
            let zero_fr = fr_zero();
            let (_vc, hint_c) = self.rewrite_lc(&nc, one_fr, zero_fr);
            let hint_a = TranspilationVariant::IsConstant(a_constant_coeff);
            let hint_b = TranspilationVariant::IsConstant(b_constant_coeff);
            let current_lc_number = self.increment_lc_number();
            let ghost hints0 = self.hints@;
            self.hints.push((
                current_lc_number,
                TranspilationVariant::TransformLc(Box::new((hint_a, hint_b, hint_c))),
            ));
            proof {
                assert(self.hints@.drop_last() =~= hints0);
            }
            return Ok(());
        }
        if a_is_constant && !b_is_constant && !c_is_constant {
            proof {
                lemma_nonconstant_has_var(nb@);
            }
            let zero_fr = fr_zero();
            let (_new_var, hint) = self.rewrite_lc(&nb, a_constant_coeff, zero_fr);
            let current_lc_number = self.increment_lc_number();
            let ghost hints0 = self.hints@;
            self.hints.push((current_lc_number, hint));
            proof {
                assert(self.hints@.drop_last() =~= hints0);
            }
            return Ok(());
        }
        if !a_is_constant && b_is_constant && !c_is_constant {
            proof {
                lemma_nonconstant_has_var(na@);
            }
            let zero_fr = fr_zero();
            let (_new_var, hint) = self.rewrite_lc(&na, b_constant_coeff, zero_fr);
            let current_lc_number = self.increment_lc_number();
            let ghost hints0 = self.hints@;
            self.hints.push((current_lc_number, hint));
            proof {
                assert(self.hints@.drop_last() =~= hints0);
            }
            return Ok(());
        }
        proof {
            lemma_nonconstant_has_var(na@);
            lemma_nonconstant_has_var(nb@);
            lemma_nonconstant_has_var(nc@);
        }
        let one_fr = fr_one();
        let zero_fr = fr_zero();
        let (_va, hint_a) = self.rewrite_lc(&na, one_fr, zero_fr);
        let (_vb, hint_b) = self.rewrite_lc(&nb, one_fr, zero_fr);
        let (_vc, hint_c) = self.rewrite_lc(&nc, one_fr, zero_fr);
        let current_lc_number = self.increment_lc_number();
        let ghost hints0 = self.hints@;
        self.hints.push((
            current_lc_number,
            TranspilationVariant::TransformLc(Box::new((hint_a, hint_b, hint_c))),
        ));
        proof {
            assert(self.hints@.drop_last() =~= hints0);
        }
        Ok(())
    }

    /// Namespace scoping is irrelevant to hint generation.
    pub fn push_namespace(&mut self)
        ensures
            *final(self) == *old(self),
    {
    }

    /// Namespace scoping is irrelevant to hint generation.
    pub fn pop_namespace(&mut self)
        ensures
            *final(self) == *old(self),
    {
    }
}


} // verus!
