//! The algebraic laws of the rewriters: what the emitted gate coefficients
//! mean under any witness assignment.

use vstd::prelude::*;
use vstd::arithmetic::div_mod::lemma_mod_multiples_basic;
use crate::field::{Fr, fr_ok, fadd, fsub, fmul, fneg, modulus, eqm, lemma_eqm_refl,
    lemma_eqm_sym, lemma_eqm_trans, lemma_eqm_add, lemma_eqm_mul, lemma_fadd_eqm,
    lemma_fsub_eqm, lemma_fmul_eqm, lemma_fmul_one, lemma_fsub_zero, lemma_fmul_bound,
    lemma_fadd_bound};
use crate::lc::{Variable, one_variable, lc_ok, no_dup_vars, distinct_vars, non_one_terms, spec_const_term,
    spec_is_constant, last_non_one_coeff, var_value, term_value, lc_eval, lemma_eval_split,
    lemma_one_coeff_sum_is_const_term, lemma_non_one_len, lemma_non_one_ok,
    lemma_const_term_ok, lemma_distinct_vars_finite, lemma_last_non_one, lemma_eval_constant,
    lemma_non_one_in_distinct};
use crate::transpiler::{TranspilationVariant, spec_single_gate, spec_extra_coeffs,
    spec_scale_fr, spec_scale_gate, rewrite_variant_matches, neg_one_fr, spec_is_quadratic,
    spec_quad_coeffs};

verus! {

/// The value of one addition gate's polynomial under a witness: the two
/// coefficient slots against the combination's first two ordinary variables,
/// the output slot against the minted variable's value, plus the constant.
pub open spec fn addition_gate_poly(
    lc: Seq<(Variable, Fr)>,
    g: (Fr, Fr, Fr, Fr),
    w: Map<Variable, int>,
    new_var_value: int,
) -> int {
    let ts = non_one_terms(lc);
    g.0.v as int * var_value(ts[0].0, w) + g.1.v as int * (if ts.len() >= 2 {
        var_value(ts[1].0, w)
    } else {
        0
    }) + g.2.v as int * new_var_value + g.3.v as int
}

/// What the scaled single-addition gate computes: the multiplier times the
/// combination's value less the minted variable, reduced by the free term.
pub proof fn lemma_rewritten_gate_poly(
    lc: Seq<(Variable, Fr)>,
    w: Map<Variable, int>,
    nv: int,
    m: Fr,
    f: Fr,
)
    requires
        lc_ok(lc),
        no_dup_vars(lc),
        1 <= distinct_vars(lc).len() <= 2,
        fr_ok(m),
        fr_ok(f),
    ensures
        eqm(
            addition_gate_poly(lc, spec_scale_gate(spec_single_gate(lc), m, f), w, nv),
            m.v as int * lc_eval(lc, w) - m.v as int * nv - f.v as int,
        ),
{
    lemma_non_one_len(lc);
    lemma_non_one_ok(lc);
    lemma_const_term_ok(lc);
    lemma_eval_split(lc, w);
    lemma_one_coeff_sum_is_const_term(lc);
    let ts = non_one_terms(lc);
    let g = spec_single_gate(lc);
    let sg = spec_scale_gate(g, m, f);
    let a = g.0.v as int;
    let b = g.1.v as int;
    let k = spec_const_term(lc);
    let mv = m.v as int;
    let fv = f.v as int;
    let v0 = var_value(ts[0].0, w);
    let v1: int = if ts.len() >= 2 {
        var_value(ts[1].0, w)
    } else {
        0
    };
    assert(g.3.v as int == k);
    // each scaled slot is canonical, so the struct fields carry the spec values
    lemma_fmul_bound(a, mv);
    lemma_fmul_bound(b, mv);
    lemma_fmul_bound(neg_one_fr().v as int, mv);
    lemma_fmul_bound(k, mv);
    assert(sg.0.v as int == fmul(a, mv));
    assert(sg.1.v as int == fmul(b, mv));
    assert(sg.2.v as int == fmul(neg_one_fr().v as int, mv));
    assert(sg.3.v as int == fsub(fmul(k, mv), fv)) by {
        lemma_fadd_bound(fmul(k, mv), fneg(fv));
    }
    let p = modulus();
    // move each slot to plain products
    lemma_fmul_eqm(a, mv);
    lemma_eqm_refl(v0);
    lemma_eqm_mul(fmul(a, mv), a * mv, v0, v0);
    lemma_fmul_eqm(b, mv);
    lemma_eqm_refl(v1);
    lemma_eqm_mul(fmul(b, mv), b * mv, v1, v1);
    lemma_fmul_eqm(p - 1, mv);
    lemma_eqm_refl(nv);
    lemma_eqm_mul(fmul(p - 1, mv), (p - 1) * mv, nv, nv);
    lemma_fsub_eqm(fmul(k, mv), fv);
    lemma_fmul_eqm(k, mv);
    lemma_eqm_refl(-fv);
    lemma_eqm_add(fmul(k, mv), k * mv, -fv, -fv);
    lemma_eqm_trans(fsub(fmul(k, mv), fv), fmul(k, mv) - fv, k * mv - fv);
    lemma_eqm_add(fmul(a, mv) * v0, (a * mv) * v0, fmul(b, mv) * v1, (b * mv) * v1);
    lemma_eqm_add(
        fmul(a, mv) * v0 + fmul(b, mv) * v1,
        (a * mv) * v0 + (b * mv) * v1,
        fmul(p - 1, mv) * nv,
        ((p - 1) * mv) * nv,
    );
    lemma_eqm_add(
        fmul(a, mv) * v0 + fmul(b, mv) * v1 + fmul(p - 1, mv) * nv,
        (a * mv) * v0 + (b * mv) * v1 + ((p - 1) * mv) * nv,
        fsub(fmul(k, mv), fv),
        k * mv - fv,
    );
    // the reserved slot is congruent to the negated minted value
    assert(((p - 1) * mv) * nv - (-(mv * nv)) == (mv * nv) * p) by (nonlinear_arith);
    lemma_mod_multiples_basic(mv * nv, p);
    assert(eqm(((p - 1) * mv) * nv, -(mv * nv)));
    lemma_eqm_refl((a * mv) * v0 + (b * mv) * v1);
    lemma_eqm_add(
        (a * mv) * v0 + (b * mv) * v1,
        (a * mv) * v0 + (b * mv) * v1,
        ((p - 1) * mv) * nv,
        -(mv * nv),
    );
    lemma_eqm_refl(k * mv - fv);
    lemma_eqm_add(
        (a * mv) * v0 + (b * mv) * v1 + ((p - 1) * mv) * nv,
        (a * mv) * v0 + (b * mv) * v1 + (-(mv * nv)),
        k * mv - fv,
        k * mv - fv,
    );
    // the combination's value under the witness
    if ts.len() == 1 {
        assert(ts.drop_last() =~= Seq::<(Variable, Fr)>::empty());
        assert(lc_eval(Seq::<(Variable, Fr)>::empty(), w) == 0);
        assert(ts.last() == ts[0]);
        assert(lc_eval(ts, w) == term_value(ts[0], w));
        assert(b == 0);
        assert(lc_eval(lc, w) == a * v0 + k);
        assert((a * mv) * v0 + (b * mv) * v1 + (-(mv * nv)) + (k * mv - fv) == mv * (a * v0 + k)
            - mv * nv - fv) by (nonlinear_arith)
            requires b == 0;
    } else {
        assert(ts.drop_last().len() == 1);
        assert(ts.drop_last().drop_last() =~= Seq::<(Variable, Fr)>::empty());
        assert(lc_eval(Seq::<(Variable, Fr)>::empty(), w) == 0);
        assert(ts.drop_last()[0] == ts[0]);
        assert(ts.drop_last().last() == ts[0]);
        assert(lc_eval(ts.drop_last(), w) == term_value(ts[0], w));
        assert(lc_eval(ts, w) == term_value(ts[0], w) + term_value(ts[1], w));
        assert(lc_eval(lc, w) == a * v0 + b * v1 + k);
        assert((a * mv) * v0 + (b * mv) * v1 + (-(mv * nv)) + (k * mv - fv) == mv * (a * v0 + b
            * v1 + k) - mv * nv - fv) by (nonlinear_arith);
    }
    lemma_eqm_trans(
        addition_gate_poly(lc, sg, w, nv),
        (a * mv) * v0 + (b * mv) * v1 + ((p - 1) * mv) * nv + (k * mv - fv),
        mv * lc_eval(lc, w) - mv * nv - fv,
    );
}

/// Scaling by the identity multiplier and a zero free term leaves a gate
/// unchanged.
pub proof fn lemma_scale_gate_identity(g: (Fr, Fr, Fr, Fr))
    requires
        fr_ok(g.0),
        fr_ok(g.1),
        fr_ok(g.2),
        fr_ok(g.3),
    ensures
        spec_scale_gate(g, Fr { v: 1 }, Fr { v: 0 }) == g,
{
    lemma_fmul_one(g.0.v as int);
    lemma_fmul_one(g.1.v as int);
    lemma_fmul_one(g.2.v as int);
    lemma_fmul_one(g.3.v as int);
    lemma_fsub_zero(g.3.v as int);
}

/// The single-addition-gate identity: under any witness that carries the
/// combination's value on the minted variable, the unscaled gate's
/// polynomial `a * v_a + b * v_b + c * new_var + const` vanishes.
pub proof fn lemma_single_addition_gate_identity(
    lc: Seq<(Variable, Fr)>,
    w: Map<Variable, int>,
    nv: int,
)
    requires
        lc_ok(lc),
        no_dup_vars(lc),
        1 <= distinct_vars(lc).len() <= 2,
        eqm(nv, lc_eval(lc, w)),
    ensures
        eqm(addition_gate_poly(lc, spec_single_gate(lc), w, nv), 0),
{
    lemma_rewritten_gate_poly(lc, w, nv, Fr { v: 1 }, Fr { v: 0 });
    lemma_non_one_ok(lc);
    lemma_const_term_ok(lc);
    lemma_non_one_len(lc);
    lemma_scale_gate_identity(spec_single_gate(lc));
    lemma_eqm_sym(nv, lc_eval(lc, w));
    lemma_eqm_refl(-nv);
    lemma_eqm_add(lc_eval(lc, w), nv, -nv, -nv);
    assert(1 * lc_eval(lc, w) - 1 * nv - 0 == lc_eval(lc, w) - nv);
    lemma_eqm_trans(
        addition_gate_poly(lc, spec_single_gate(lc), w, nv),
        lc_eval(lc, w) - nv,
        0,
    );
}

/// Satisfaction of the unscaled gate is exactly consistency of the minted
/// variable with the combination's value.
pub proof fn lemma_single_addition_gate_round_trip(
    lc: Seq<(Variable, Fr)>,
    w: Map<Variable, int>,
    nv: int,
)
    requires
        lc_ok(lc),
        no_dup_vars(lc),
        1 <= distinct_vars(lc).len() <= 2,
    ensures
        eqm(addition_gate_poly(lc, spec_single_gate(lc), w, nv), 0) <==> eqm(
            nv,
            lc_eval(lc, w),
        ),
{
    lemma_rewritten_gate_poly(lc, w, nv, Fr { v: 1 }, Fr { v: 0 });
    lemma_non_one_ok(lc);
    lemma_const_term_ok(lc);
    lemma_non_one_len(lc);
    lemma_scale_gate_identity(spec_single_gate(lc));
    let poly = addition_gate_poly(lc, spec_single_gate(lc), w, nv);
    let ev = lc_eval(lc, w);
    assert(1 * ev - 1 * nv - 0 == ev - nv);
    if eqm(poly, 0) {
        lemma_eqm_sym(poly, ev - nv);
        lemma_eqm_trans(ev - nv, poly, 0);
        lemma_eqm_refl(nv);
        lemma_eqm_add(ev - nv, 0, nv, nv);
        lemma_eqm_sym(ev, nv);
    }
    if eqm(nv, ev) {
        lemma_eqm_sym(nv, ev);
        lemma_eqm_refl(-nv);
        lemma_eqm_add(ev, nv, -nv, -nv);
        lemma_eqm_trans(poly, ev - nv, 0);
    }
}

/// The scaling law: a rewrite under a multiplier and a free term
/// carries exactly the coefficients of the identity rewrite, each multiplied
/// by the multiplier, with the constant further reduced by the free term;
/// every chained extra coefficient is scaled the same way.
pub proof fn lemma_rewrite_scaling(
    lc: Seq<(Variable, Fr)>,
    m: Fr,
    f: Fr,
    scaled: TranspilationVariant,
    base: TranspilationVariant,
)
    requires
        lc_ok(lc),
        no_dup_vars(lc),
        distinct_vars(lc).len() >= 1,
        fr_ok(m),
        fr_ok(f),
        rewrite_variant_matches(scaled, lc, m, f),
        rewrite_variant_matches(base, lc, Fr { v: 1 }, Fr { v: 0 }),
    ensures
        match (scaled, base) {
            (
                TranspilationVariant::IntoSingleAdditionGate(g1),
                TranspilationVariant::IntoSingleAdditionGate(g0),
            ) => g1.0 == spec_scale_fr(g0.0, m) && g1.1 == spec_scale_fr(g0.1, m) && g1.2
                == spec_scale_fr(g0.2, m) && g1.3.v as int == fsub(
                fmul(g0.3.v as int, m.v as int),
                f.v as int,
            ),
            (
                TranspilationVariant::IntoMultipleAdditionGates(g1, e1),
                TranspilationVariant::IntoMultipleAdditionGates(g0, e0),
            ) => g1.0 == spec_scale_fr(g0.0, m) && g1.1 == spec_scale_fr(g0.1, m) && g1.2
                == spec_scale_fr(g0.2, m) && g1.3.v as int == fsub(
                fmul(g0.3.v as int, m.v as int),
                f.v as int,
            ) && e1@.len() == e0@.len() && (forall|i: int|
                0 <= i < e0@.len() ==> #[trigger] e1@[i] == spec_scale_fr(e0@[i], m)),
            _ => false,
        },
{
    lemma_non_one_len(lc);
    lemma_non_one_ok(lc);
    lemma_const_term_ok(lc);
    let g = spec_single_gate(lc);
    lemma_scale_gate_identity(g);
    lemma_fmul_bound(g.3.v as int, m.v as int);
    lemma_fadd_bound(fmul(g.3.v as int, m.v as int), fneg(f.v as int));
    let ts = non_one_terms(lc);
    if distinct_vars(lc).len() > 2 {
        let ex = spec_extra_coeffs(lc);
        assert(forall|i: int| 0 <= i < ex.len() ==> #[trigger] ex[i] == ts.skip(2)[i].1);
        assert forall|i: int| 0 <= i < ex.len() implies spec_scale_fr(ex[i], Fr { v: 1 })
            == ex[i] by {
            assert(ts.skip(2)[i] == ts[i + 2]);
            assert(fr_ok(ts[i + 2].1));
            lemma_fmul_one(ex[i].v as int);
        }
    }
}

/// The running value at the end of an addition-gate chain: the first gate's
/// value, then one coefficient-weighted variable added per chained gate.
pub open spec fn chain_final_value(first_value: int, extras: Seq<Fr>, vals: Seq<int>) -> int
    decreases extras.len(),
{
    if extras.len() == 0 {
        first_value
    } else {
        chain_final_value(first_value, extras.drop_last(), vals.drop_last())
            + extras.last().v as int * vals.last()
    }
}

/// The witness values of the ordinary variables beyond the second.
pub open spec fn extra_var_values(lc: Seq<(Variable, Fr)>, w: Map<Variable, int>) -> Seq<int> {
    non_one_terms(lc).skip(2).map_values(|t: (Variable, Fr)| var_value(t.0, w))
}

proof fn lemma_chain_dot(s: Seq<(Variable, Fr)>, w: Map<Variable, int>, base: int)
    requires
        s.len() >= 2,
        forall|i: int| 0 <= i < s.len() ==> (#[trigger] s[i]).0 != one_variable(),
    ensures
        chain_final_value(
            term_value(s[0], w) + term_value(s[1], w) + base,
            s.skip(2).map_values(|t: (Variable, Fr)| t.1),
            s.skip(2).map_values(|t: (Variable, Fr)| var_value(t.0, w)),
        ) == lc_eval(s, w) + base,
    decreases s.len(),
{
    let coeffs = s.skip(2).map_values(|t: (Variable, Fr)| t.1);
    let vals = s.skip(2).map_values(|t: (Variable, Fr)| var_value(t.0, w));
    if s.len() == 2 {
        assert(s.skip(2) =~= Seq::<(Variable, Fr)>::empty());
        assert(coeffs.len() == 0);
        assert(s.drop_last().drop_last() =~= Seq::<(Variable, Fr)>::empty());
        assert(lc_eval(Seq::<(Variable, Fr)>::empty(), w) == 0);
        assert(s.drop_last()[0] == s[0]);
        assert(s.drop_last().last() == s[0]);
        assert(lc_eval(s.drop_last(), w) == term_value(s[0], w));
        assert(lc_eval(s, w) == term_value(s[0], w) + term_value(s[1], w));
    } else {
        let d = s.drop_last();
        assert(forall|i: int| 0 <= i < d.len() ==> d[i] == s[i]);
        lemma_chain_dot(d, w, base);
        let dcoeffs = d.skip(2).map_values(|t: (Variable, Fr)| t.1);
        let dvals = d.skip(2).map_values(|t: (Variable, Fr)| var_value(t.0, w));
        assert(s.skip(2).drop_last() =~= d.skip(2));
        assert(coeffs.drop_last() =~= dcoeffs);
        assert(vals.drop_last() =~= dvals);
        assert(coeffs.last() == s.last().1);
        assert(vals.last() == var_value(s.last().0, w));
        assert(coeffs.last().v as int * vals.last() == term_value(s.last(), w));
    }
}

/// The chain law: rewriting a combination of `k > 2` distinct variables
/// yields exactly `k - 2` chained gates after the first (so `k - 1` gates in
/// all), and the final chain value is the combination's value under every
/// witness.
pub proof fn lemma_addition_chain_value(lc: Seq<(Variable, Fr)>, w: Map<Variable, int>)
    requires
        lc_ok(lc),
        no_dup_vars(lc),
        distinct_vars(lc).len() > 2,
    ensures
        spec_extra_coeffs(lc).len() == distinct_vars(lc).len() - 2,
        ({
            let ts = non_one_terms(lc);
            let g = spec_single_gate(lc);
            chain_final_value(
                g.0.v as int * var_value(ts[0].0, w) + g.1.v as int * var_value(ts[1].0, w)
                    + g.3.v as int,
                spec_extra_coeffs(lc),
                extra_var_values(lc, w),
            ) == lc_eval(lc, w)
        }),
{
    lemma_non_one_len(lc);
    lemma_non_one_ok(lc);
    lemma_const_term_ok(lc);
    lemma_eval_split(lc, w);
    lemma_one_coeff_sum_is_const_term(lc);
    let ts = non_one_terms(lc);
    lemma_chain_dot(ts, w, spec_const_term(lc));
}

/// The quadratic gate characterization: the emitted polynomial in the shared
/// variable is congruent to `A * B - C` under every witness.
pub proof fn lemma_quadratic_gate_poly(
    a: Seq<(Variable, Fr)>,
    b: Seq<(Variable, Fr)>,
    c: Seq<(Variable, Fr)>,
    w: Map<Variable, int>,
    x_var: Variable,
)
    requires
        lc_ok(a),
        lc_ok(b),
        lc_ok(c),
        no_dup_vars(a),
        no_dup_vars(b),
        spec_is_constant(c),
        spec_is_quadratic(a, b),
        distinct_vars(a).contains(x_var),
    ensures
        ({
            let coeffs = spec_quad_coeffs(a, b, c);
            let x = var_value(x_var, w);
            eqm(
                coeffs.2.v as int * (x * x) + coeffs.1.v as int * x + coeffs.0.v as int,
                lc_eval(a, w) * lc_eval(b, w) - lc_eval(c, w),
            )
        }),
{
    lemma_non_one_len(a);
    lemma_non_one_len(b);
    lemma_non_one_ok(a);
    lemma_non_one_ok(b);
    lemma_const_term_ok(a);
    lemma_const_term_ok(b);
    lemma_const_term_ok(c);
    lemma_eval_split(a, w);
    lemma_eval_split(b, w);
    lemma_one_coeff_sum_is_const_term(a);
    lemma_one_coeff_sum_is_const_term(b);
    lemma_eval_constant(c, w);
    lemma_last_non_one(a);
    lemma_last_non_one(b);
    lemma_non_one_in_distinct(a);
    lemma_non_one_in_distinct(b);
    lemma_distinct_vars_finite(a);
    lemma_distinct_vars_finite(b);
    let ta = non_one_terms(a);
    let tb = non_one_terms(b);
    let x = var_value(x_var, w);
    // each side has exactly one ordinary term, on the shared variable
    lemma_singleton_member_vars(distinct_vars(a), ta[0].0, x_var);
    lemma_singleton_member_vars(distinct_vars(b), tb[0].0, x_var);
    assert(ta.drop_last() =~= Seq::<(Variable, Fr)>::empty());
    assert(lc_eval(Seq::<(Variable, Fr)>::empty(), w) == 0);
    assert(ta.last() == ta[0]);
    assert(lc_eval(ta, w) == term_value(ta[0], w));
    assert(tb.drop_last() =~= Seq::<(Variable, Fr)>::empty());
    assert(tb.last() == tb[0]);
    assert(lc_eval(tb, w) == term_value(tb[0], w));
    let a1 = last_non_one_coeff(a);
    let b1 = last_non_one_coeff(b);
    let a0 = spec_const_term(a);
    let b0 = spec_const_term(b);
    let cc = spec_const_term(c);
    assert(lc_eval(a, w) == a1 * x + a0);
    assert(lc_eval(b, w) == b1 * x + b0);
    let coeffs = spec_quad_coeffs(a, b, c);
    lemma_fmul_bound(a1, b1);
    lemma_fmul_bound(a0, b1);
    lemma_fmul_bound(b0, a1);
    lemma_fmul_bound(a0, b0);
    lemma_fadd_bound(fmul(a0, b1), fmul(b0, a1));
    lemma_fadd_bound(fmul(a0, b0), fneg(cc));
    assert(coeffs.2.v as int == fmul(a1, b1));
    assert(coeffs.1.v as int == fadd(fmul(a0, b1), fmul(b0, a1)));
    assert(coeffs.0.v as int == fsub(fmul(a0, b0), cc));
    // move each coefficient to plain products
    lemma_fmul_eqm(a1, b1);
    lemma_eqm_refl(x * x);
    lemma_eqm_mul(fmul(a1, b1), a1 * b1, x * x, x * x);
    lemma_fadd_eqm(fmul(a0, b1), fmul(b0, a1));
    lemma_fmul_eqm(a0, b1);
    lemma_fmul_eqm(b0, a1);
    lemma_eqm_add(fmul(a0, b1), a0 * b1, fmul(b0, a1), b0 * a1);
    lemma_eqm_trans(
        fadd(fmul(a0, b1), fmul(b0, a1)),
        fmul(a0, b1) + fmul(b0, a1),
        a0 * b1 + b0 * a1,
    );
    lemma_eqm_refl(x);
    lemma_eqm_mul(fadd(fmul(a0, b1), fmul(b0, a1)), a0 * b1 + b0 * a1, x, x);
    lemma_fsub_eqm(fmul(a0, b0), cc);
    lemma_fmul_eqm(a0, b0);
    lemma_eqm_refl(-cc);
    lemma_eqm_add(fmul(a0, b0), a0 * b0, -cc, -cc);
    lemma_eqm_trans(fsub(fmul(a0, b0), cc), fmul(a0, b0) - cc, a0 * b0 - cc);
    lemma_eqm_add(
        fmul(a1, b1) * (x * x),
        (a1 * b1) * (x * x),
        fadd(fmul(a0, b1), fmul(b0, a1)) * x,
        (a0 * b1 + b0 * a1) * x,
    );
    lemma_eqm_add(
        fmul(a1, b1) * (x * x) + fadd(fmul(a0, b1), fmul(b0, a1)) * x,
        (a1 * b1) * (x * x) + (a0 * b1 + b0 * a1) * x,
        fsub(fmul(a0, b0), cc),
        a0 * b0 - cc,
    );
    vstd::arithmetic::mul::lemma_mul_is_distributive_add_other_way(b1 * x + b0, a1 * x, a0);
    vstd::arithmetic::mul::lemma_mul_is_distributive_add(a1 * x, b1 * x, b0);
    vstd::arithmetic::mul::lemma_mul_is_distributive_add(a0, b1 * x, b0);
    vstd::arithmetic::mul::lemma_mul_is_associative(a1, x, b1 * x);
    vstd::arithmetic::mul::lemma_mul_is_associative(x, b1, x);
    vstd::arithmetic::mul::lemma_mul_is_commutative(x, b1);
    vstd::arithmetic::mul::lemma_mul_is_associative(b1, x, x);
    vstd::arithmetic::mul::lemma_mul_is_associative(a1, b1, x * x);
    assert((a1 * x) * (b1 * x) == (a1 * b1) * (x * x));
    vstd::arithmetic::mul::lemma_mul_is_associative(a1, x, b0);
    vstd::arithmetic::mul::lemma_mul_is_commutative(x, b0);
    vstd::arithmetic::mul::lemma_mul_is_associative(a1, b0, x);
    assert((a1 * x) * b0 == (a1 * b0) * x);
    vstd::arithmetic::mul::lemma_mul_is_associative(a0, b1, x);
    assert(a0 * (b1 * x) == (a0 * b1) * x);
    vstd::arithmetic::mul::lemma_mul_is_distributive_add_other_way(x, a0 * b1, b0 * a1);
    vstd::arithmetic::mul::lemma_mul_is_commutative(b0, a1);
    assert((a1 * x + a0) * (b1 * x + b0) == (a1 * b1) * (x * x) + (a1 * b0) * x + (a0 * b1) * x
        + a0 * b0);
    assert((a1 * b1) * (x * x) + (a0 * b1 + b0 * a1) * x + (a0 * b0 - cc) == (a1 * x + a0) * (b1
        * x + b0) - cc);
    lemma_eqm_trans(
        coeffs.2.v as int * (x * x) + coeffs.1.v as int * x + coeffs.0.v as int,
        fmul(a1, b1) * (x * x) + fadd(fmul(a0, b1), fmul(b0, a1)) * x + fsub(fmul(a0, b0), cc),
        lc_eval(a, w) * lc_eval(b, w) - lc_eval(c, w),
    );
}

/// A member of a singleton variable set is its one element.
proof fn lemma_singleton_member_vars(s: Set<Variable>, x: Variable, y: Variable)
    requires
        s.finite(),
        s.len() == 1,
        s.contains(x),
        s.contains(y),
    ensures
        x == y,
{
    if x != y {
        assert(s.remove(x).contains(y));
        assert(s.remove(x).len() == 0);
    }
}

/// The quadratic law: whenever the constraint `A * B = C` holds under a
/// witness, the emitted quadratic gate polynomial vanishes.
pub proof fn lemma_quadratic_gate_identity(
    a: Seq<(Variable, Fr)>,
    b: Seq<(Variable, Fr)>,
    c: Seq<(Variable, Fr)>,
    w: Map<Variable, int>,
    x_var: Variable,
)
    requires
        lc_ok(a),
        lc_ok(b),
        lc_ok(c),
        no_dup_vars(a),
        no_dup_vars(b),
        spec_is_constant(c),
        spec_is_quadratic(a, b),
        distinct_vars(a).contains(x_var),
        eqm(lc_eval(a, w) * lc_eval(b, w), lc_eval(c, w)),
    ensures
        ({
            let coeffs = spec_quad_coeffs(a, b, c);
            let x = var_value(x_var, w);
            eqm(coeffs.2.v as int * (x * x) + coeffs.1.v as int * x + coeffs.0.v as int, 0)
        }),
{
    lemma_quadratic_gate_poly(a, b, c, w, x_var);
    let coeffs = spec_quad_coeffs(a, b, c);
    let x = var_value(x_var, w);
    let poly = coeffs.2.v as int * (x * x) + coeffs.1.v as int * x + coeffs.0.v as int;
    let ea = lc_eval(a, w);
    let eb = lc_eval(b, w);
    let ec = lc_eval(c, w);
    lemma_eqm_refl(-ec);
    lemma_eqm_add(ea * eb, ec, -ec, -ec);
    lemma_eqm_trans(poly, ea * eb - ec, 0);
}

/// The round-trip law for a general constraint: with each minted variable
/// carrying its side's value, the product relation over the minted variables
/// holds exactly when the original constraint held under that witness.
pub proof fn lemma_transform_lc_round_trip(
    a: Seq<(Variable, Fr)>,
    b: Seq<(Variable, Fr)>,
    c: Seq<(Variable, Fr)>,
    w: Map<Variable, int>,
    nva: int,
    nvb: int,
    nvc: int,
)
    requires
        eqm(nva, lc_eval(a, w)),
        eqm(nvb, lc_eval(b, w)),
        eqm(nvc, lc_eval(c, w)),
    ensures
        eqm(nva * nvb, nvc) <==> eqm(lc_eval(a, w) * lc_eval(b, w), lc_eval(c, w)),
{
    let ea = lc_eval(a, w);
    let eb = lc_eval(b, w);
    let ec = lc_eval(c, w);
    lemma_eqm_mul(nva, ea, nvb, eb);
    if eqm(nva * nvb, nvc) {
        lemma_eqm_sym(nva * nvb, ea * eb);
        lemma_eqm_trans(ea * eb, nva * nvb, nvc);
        lemma_eqm_trans(ea * eb, nvc, ec);
    }
    if eqm(ea * eb, ec) {
        lemma_eqm_trans(nva * nvb, ea * eb, ec);
        lemma_eqm_sym(nvc, ec);
        lemma_eqm_sym(ec, nvc);
        lemma_eqm_trans(nva * nvb, ec, nvc);
    }
}


/// The quadratic round trip: the emitted quadratic gate polynomial vanishes
/// under a witness exactly when the original constraint `A * B = C` holds
/// under it.
pub proof fn lemma_quadratic_gate_round_trip(
    a: Seq<(Variable, Fr)>,
    b: Seq<(Variable, Fr)>,
    c: Seq<(Variable, Fr)>,
    w: Map<Variable, int>,
    x_var: Variable,
)
    requires
        lc_ok(a),
        lc_ok(b),
        lc_ok(c),
        no_dup_vars(a),
        no_dup_vars(b),
        spec_is_constant(c),
        spec_is_quadratic(a, b),
        distinct_vars(a).contains(x_var),
    ensures
        ({
            let coeffs = spec_quad_coeffs(a, b, c);
            let x = var_value(x_var, w);
            eqm(coeffs.2.v as int * (x * x) + coeffs.1.v as int * x + coeffs.0.v as int, 0)
                <==> eqm(lc_eval(a, w) * lc_eval(b, w), lc_eval(c, w))
        }),
{
    lemma_quadratic_gate_poly(a, b, c, w, x_var);
    let coeffs = spec_quad_coeffs(a, b, c);
    let x = var_value(x_var, w);
    let poly = coeffs.2.v as int * (x * x) + coeffs.1.v as int * x + coeffs.0.v as int;
    let prod = lc_eval(a, w) * lc_eval(b, w);
    let ec = lc_eval(c, w);
    if eqm(poly, 0) {
        lemma_eqm_sym(poly, prod - ec);
        lemma_eqm_trans(prod - ec, poly, 0);
        lemma_eqm_refl(ec);
        lemma_eqm_add(prod - ec, 0, ec, ec);
    }
    if eqm(prod, ec) {
        lemma_eqm_refl(-ec);
        lemma_eqm_add(prod, ec, -ec, -ec);
        lemma_eqm_trans(poly, prod - ec, 0);
    }
}


} // verus!
