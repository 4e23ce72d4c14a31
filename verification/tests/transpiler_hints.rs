use r1cs_transpiler::field::{fr_add, fr_from_u64, fr_mul, fr_neg, fr_sub, fr_zero, FIELD_MODULUS};
use r1cs_transpiler::lc::{
    get_constant_term, is_constant, is_linear_term, normalize, num_unique_values,
    LinearCombination, Variable,
};
use r1cs_transpiler::transpiler::{SynthesisError, Transpiler, TranspilationVariant};

fn lc_of(terms: &[(Variable, u64)]) -> LinearCombination {
    let mut lc = LinearCombination::new();
    for (var, coeff) in terms {
        lc.add_term(*var, fr_from_u64(*coeff));
    }
    lc
}

const ONE: Variable = Variable::Input(1);
const NEG_ONE: u64 = FIELD_MODULUS - 1;

#[test]
fn test_field_arithmetic() {
    assert_eq!(fr_add(fr_from_u64(NEG_ONE), fr_from_u64(1)).v, 0);
    assert_eq!(fr_mul(fr_from_u64(3), fr_from_u64(4)).v, 12);
    assert_eq!(fr_neg(fr_zero()).v, 0);
    assert_eq!(fr_neg(fr_from_u64(1)).v, NEG_ONE);
    assert_eq!(fr_sub(fr_from_u64(3), fr_from_u64(5)).v, FIELD_MODULUS - 2);
    assert_eq!(fr_from_u64(FIELD_MODULUS).v, 0);
}

#[test]
fn test_classifiers() {
    let empty = lc_of(&[]);
    assert_eq!(is_constant(&empty), (true, fr_zero()));
    assert_eq!(get_constant_term(&empty).0, true);

    let x = Variable::Aux(1);
    let constant = lc_of(&[(ONE, 5)]);
    let (c, v) = is_constant(&constant);
    assert!(c);
    assert_eq!(v.v, 5);

    let affine = lc_of(&[(x, 2), (ONE, 1)]);
    assert_eq!(is_constant(&affine).0, false);
    let (has, cv) = get_constant_term(&affine);
    assert!(has);
    assert_eq!(cv.v, 1);

    let mut scratch: Vec<Variable> = Vec::new();
    let (saw_one, count) = num_unique_values(&affine, &mut scratch);
    assert!(saw_one);
    assert_eq!(count, 1);
    assert!(scratch.is_empty());

    let dup = lc_of(&[(x, 2), (x, 3), (Variable::Aux(2), 1)]);
    let (saw_one2, count2) = num_unique_values(&dup, &mut scratch);
    assert!(!saw_one2);
    assert_eq!(count2, 2);

    let (is_lin, var, coeff) = is_linear_term(&affine, &mut scratch);
    assert!(is_lin);
    assert_eq!(var, x);
    assert_eq!(coeff.v, 2);
}

#[test]
fn test_normalize_merges_and_drops() {
    let x = Variable::Aux(1);
    let lc = lc_of(&[(x, 1), (x, 2), (ONE, 0)]);
    let n = normalize(&lc);
    assert_eq!(n.terms.len(), 1);
    assert_eq!(n.terms[0].0, x);
    assert_eq!(n.terms[0].1.v, 3);
}

#[test]
fn test_one_constant_side_single_addition_gate() {
    let mut t = Transpiler::new();
    let x = t.alloc_aux();
    let a = lc_of(&[(x, 2), (ONE, 1)]);
    let b = lc_of(&[(ONE, 1)]);
    let c = lc_of(&[(x, 2), (ONE, 1)]);
    assert!(t.enforce(&a, &b, &c).is_ok());
    let hints = t.hints();
    assert_eq!(hints.len(), 1);
    assert_eq!(hints[0].0, 0);
    match &hints[0].1 {
        TranspilationVariant::IntoSingleAdditionGate(g) => {
            assert_eq!(g.0.v, 2);
            assert_eq!(g.1.v, 0);
            assert_eq!(g.2.v, NEG_ONE);
            assert_eq!(g.3.v, 1);
        },
        other => panic!("unexpected hint {:?}", other),
    }
    // exactly one variable was minted for the rewritten side
    assert_eq!(t.current_plonk_aux_idx, 2);
}

#[test]
fn test_quadratic_gate_scenario() {
    let mut t = Transpiler::new();
    let x = t.alloc_aux();
    let a = lc_of(&[(x, 1), (ONE, NEG_ONE)]);
    let b = lc_of(&[(x, 1), (ONE, NEG_ONE)]);
    let c = lc_of(&[]);
    assert!(t.enforce(&a, &b, &c).is_ok());
    let hints = t.hints();
    assert_eq!(hints.len(), 1);
    match &hints[0].1 {
        TranspilationVariant::IntoQuadraticGate(g) => {
            assert_eq!(g.0.v, 1);
            assert_eq!(g.1.v, FIELD_MODULUS - 2);
            assert_eq!(g.2.v, 1);
        },
        other => panic!("unexpected hint {:?}", other),
    }
    // the quadratic fold mints no synthetic variable
    assert_eq!(t.current_plonk_aux_idx, 1);
}

#[test]
fn test_all_constant_constraint_is_fatal_when_contradictory() {
    let mut t = Transpiler::new();
    let a = lc_of(&[(ONE, 2)]);
    let b = lc_of(&[(ONE, 3)]);
    let c = lc_of(&[(ONE, 7)]);
    assert_eq!(t.enforce(&a, &b, &c), Err(SynthesisError::ConstantConstraint));
    assert_eq!(t.hints().len(), 0);
}

#[test]
fn test_all_constant_constraint_is_fatal_even_when_true() {
    let mut t = Transpiler::new();
    let a = lc_of(&[(ONE, 2)]);
    let b = lc_of(&[(ONE, 3)]);
    let c = lc_of(&[(ONE, 6)]);
    assert_eq!(t.enforce(&a, &b, &c), Err(SynthesisError::ConstantConstraint));
}

#[test]
fn test_zero_multiplier_with_free_term_is_fatal() {
    let mut t = Transpiler::new();
    let x = t.alloc_aux();
    let a = lc_of(&[(ONE, 0)]);
    let b = lc_of(&[(x, 1)]);
    let c = lc_of(&[(ONE, 5)]);
    assert_eq!(t.enforce(&a, &b, &c), Err(SynthesisError::ZeroMultiplierWithFreeTerm));
}

#[test]
fn test_long_combination_becomes_addition_chain() {
    let mut t = Transpiler::new();
    let x1 = t.alloc_aux();
    let x2 = t.alloc_aux();
    let x3 = t.alloc_aux();
    let x4 = t.alloc_aux();
    let a = lc_of(&[(x1, 1), (x2, 2), (x3, 3), (x4, 4), (ONE, 5)]);
    let b = lc_of(&[(ONE, 1)]);
    let c = lc_of(&[(ONE, 0)]);
    assert!(t.enforce(&a, &b, &c).is_ok());
    match &t.hints()[0].1 {
        TranspilationVariant::IntoMultipleAdditionGates(g, extras) => {
            assert_eq!(g.0.v, 1);
            assert_eq!(g.1.v, 2);
            assert_eq!(g.2.v, NEG_ONE);
            // the constant is reduced by the free term 0
            assert_eq!(g.3.v, 5);
            // four distinct variables: exactly two chained extras
            assert_eq!(extras.len(), 2);
            assert_eq!(extras[0].v, 3);
            assert_eq!(extras[1].v, 4);
        },
        other => panic!("unexpected hint {:?}", other),
    }
    // k - 1 = 3 variables minted beyond the four inputs
    assert_eq!(t.current_plonk_aux_idx, 7);
}

#[test]
fn test_scaling_multiplies_coefficients_and_reduces_constant() {
    let mut t = Transpiler::new();
    let x = t.alloc_aux();
    let a = lc_of(&[(x, 3), (ONE, 4)]);
    let b = lc_of(&[(ONE, 2)]);
    let c = lc_of(&[(ONE, 5)]);
    assert!(t.enforce(&a, &b, &c).is_ok());
    match &t.hints()[0].1 {
        TranspilationVariant::IntoSingleAdditionGate(g) => {
            assert_eq!(g.0.v, 6);
            assert_eq!(g.1.v, 0);
            assert_eq!(g.2.v, FIELD_MODULUS - 2);
            assert_eq!(g.3.v, 3);
        },
        other => panic!("unexpected hint {:?}", other),
    }
}

#[test]
fn test_general_constraint_wraps_three_rewrites() {
    let mut t = Transpiler::new();
    let x = t.alloc_aux();
    let y = t.alloc_aux();
    let z = t.alloc_aux();
    let a = lc_of(&[(x, 1)]);
    let b = lc_of(&[(y, 1)]);
    let c = lc_of(&[(z, 1)]);
    assert!(t.enforce(&a, &b, &c).is_ok());
    match &t.hints()[0].1 {
        TranspilationVariant::TransformLc(parts) => {
            let (ha, hb, hc) = &**parts;
            for h in [ha, hb, hc] {
                match h {
                    TranspilationVariant::IntoSingleAdditionGate(g) => {
                        assert_eq!(g.0.v, 1);
                        assert_eq!(g.1.v, 0);
                        assert_eq!(g.2.v, NEG_ONE);
                        assert_eq!(g.3.v, 0);
                    },
                    other => panic!("unexpected part {:?}", other),
                }
            }
        },
        other => panic!("unexpected hint {:?}", other),
    }
    assert_eq!(t.current_plonk_aux_idx, 6);
}

#[test]
fn test_unmatched_quadratic_falls_back_to_general_rewrite() {
    let mut t = Transpiler::new();
    let x = t.alloc_aux();
    let y = t.alloc_aux();
    let a = lc_of(&[(x, 1), (ONE, 1)]);
    let b = lc_of(&[(y, 1), (ONE, 1)]);
    let c = lc_of(&[(ONE, 4)]);
    assert!(t.enforce(&a, &b, &c).is_ok());
    match &t.hints()[0].1 {
        TranspilationVariant::TransformLc(parts) => {
            let (ha, hb, hc) = &**parts;
            assert!(matches!(ha, TranspilationVariant::IntoSingleAdditionGate(_)));
            assert!(matches!(hb, TranspilationVariant::IntoSingleAdditionGate(_)));
            match hc {
                TranspilationVariant::IsConstant(v) => assert_eq!(v.v, 4),
                other => panic!("unexpected part {:?}", other),
            }
        },
        other => panic!("unexpected hint {:?}", other),
    }
}

#[test]
fn test_constant_product_against_free_side() {
    let mut t = Transpiler::new();
    let x = t.alloc_aux();
    let a = lc_of(&[(ONE, 2)]);
    let b = lc_of(&[(ONE, 3)]);
    let c = lc_of(&[(x, 1)]);
    assert!(t.enforce(&a, &b, &c).is_ok());
    match &t.hints()[0].1 {
        TranspilationVariant::TransformLc(parts) => {
            let (ha, hb, hc) = &**parts;
            match ha {
                TranspilationVariant::IsConstant(v) => assert_eq!(v.v, 2),
                other => panic!("unexpected part {:?}", other),
            }
            match hb {
                TranspilationVariant::IsConstant(v) => assert_eq!(v.v, 3),
                other => panic!("unexpected part {:?}", other),
            }
            assert!(matches!(hc, TranspilationVariant::IntoSingleAdditionGate(_)));
        },
        other => panic!("unexpected hint {:?}", other),
    }
}

#[test]
fn test_hint_indices_follow_constraint_order() {
    let mut t = Transpiler::new();
    let x = t.alloc_aux();
    let a = lc_of(&[(x, 2), (ONE, 1)]);
    let b = lc_of(&[(ONE, 1)]);
    let c = lc_of(&[(x, 2), (ONE, 1)]);
    assert!(t.enforce(&a, &b, &c).is_ok());
    assert!(t.enforce(&a, &b, &c).is_ok());
    assert!(t.enforce(&a, &b, &c).is_ok());
    let hints = t.hints();
    assert_eq!(hints.len(), 3);
    assert_eq!(hints[0].0, 0);
    assert_eq!(hints[1].0, 1);
    assert_eq!(hints[2].0, 2);
}

#[test]
fn test_variable_minting_is_monotonic() {
    let mut t = Transpiler::new();
    assert_eq!(t.alloc_aux(), Variable::Aux(1));
    assert_eq!(t.alloc_aux(), Variable::Aux(2));
    assert_eq!(t.alloc_input(), Variable::Input(2));
    assert_eq!(t.alloc_input(), Variable::Input(3));
    assert_eq!(Transpiler::one(), Variable::Input(1));
}
