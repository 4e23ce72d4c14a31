//! The adaptor: exposes the classifier as one implementation of the generic
//! constraint-building capability, so an unmodified circuit definition can
//! drive either the transpiler or a real gate-and-witness builder.

use vstd::prelude::*;
use crate::field::FIELD_MODULUS;
use crate::lc::{Variable, LinearCombination, lc_ok};
use crate::transpiler::{Transpiler, SynthesisError};

verus! {

/// The constraint-building capability a circuit definition is written
/// against: allocate variables, enforce `A * B = C`, scope namespaces.
pub trait ConstraintSystem {
    /// Mints a private (auxiliary) variable.
    fn allocate_private(&mut self) -> Result<Variable, SynthesisError>;

    /// Mints a public input variable.
    fn allocate_public(&mut self) -> Result<Variable, SynthesisError>;

    /// Enforces one constraint `a * b = c`.
    fn enforce_constraint(
        &mut self,
        a: &LinearCombination,
        b: &LinearCombination,
        c: &LinearCombination,
    ) -> Result<(), SynthesisError>;

    /// Opens a namespace scope; sinks may ignore it.
    fn begin_namespace(&mut self);

    /// Closes a namespace scope; sinks may ignore it.
    fn end_namespace(&mut self);
}

/// Whether every coefficient of a combination is canonical.
fn lc_is_ok(lc: &LinearCombination) -> (r: bool)
    ensures
        r == lc_ok(lc@),
{
    let n = lc.terms.len();
    let mut i: usize = 0;
    while i < n
        invariant
            0 <= i <= n,
            n == lc@.len(),
            forall|j: int| 0 <= j < i ==> (#[trigger] lc@[j]).1.v < FIELD_MODULUS,
        decreases n - i,
    {
        let (_var, coeff) = lc.terms[i];
        if coeff.v >= FIELD_MODULUS {
            return false;
        }
        i += 1;
    }
    true
}

impl ConstraintSystem for Transpiler {
    /// Mints an auxiliary variable, failing once the index space is spent.
    fn allocate_private(&mut self) -> Result<Variable, SynthesisError> {
        if self.current_plonk_aux_idx == usize::MAX {
            return Err(SynthesisError::AssignmentMissing);
        }
        Ok(self.alloc_aux())
    }

    /// Mints a public input variable, failing once the index space is spent.
    fn allocate_public(&mut self) -> Result<Variable, SynthesisError> {
        if self.current_plonk_input_idx == usize::MAX {
            return Err(SynthesisError::AssignmentMissing);
        }
        Ok(self.alloc_input())
    }

    /// Classifies the constraint and appends its hint, guarding every
    /// machine limit the classifier relies on.
    fn enforce_constraint(
        &mut self,
        a: &LinearCombination,
        b: &LinearCombination,
        c: &LinearCombination,
    ) -> Result<(), SynthesisError> {
        if !lc_is_ok(a) || !lc_is_ok(b) || !lc_is_ok(c) {
            return Err(SynthesisError::AssignmentMissing);
        }
        if self.scratch.len() != 0 {
            return Err(SynthesisError::AssignmentMissing);
        }
        if self.current_constraint_index == usize::MAX {
            return Err(SynthesisError::AssignmentMissing);
        }
        let mut budget = usize::MAX - self.current_plonk_aux_idx;
        if a.terms.len() > budget {
            return Err(SynthesisError::AssignmentMissing);
        }
        budget = budget - a.terms.len();
        if b.terms.len() > budget {
            return Err(SynthesisError::AssignmentMissing);
        }
        budget = budget - b.terms.len();
        if c.terms.len() > budget {
            return Err(SynthesisError::AssignmentMissing);
        }
        self.enforce(a, b, c)
    }

    /// Namespace scoping does not affect hint generation.
    fn begin_namespace(&mut self) {
    }

    /// Namespace scoping does not affect hint generation.
    fn end_namespace(&mut self) {
    }
}

/// A circuit definition, polymorphic over the constraint sink that records
/// its variables and constraints.
pub trait Circuit {
    /// Builds the circuit's variables and constraints against the sink.
    fn synthesize<CS: ConstraintSystem>(&self, cs: &mut CS) -> Result<(), SynthesisError>;
}

/// Wraps a clonable circuit definition so the transpiler can drive it.
pub struct AdaptorCircuit<T>(pub T);

impl<T: Circuit + Clone> AdaptorCircuit<T> {
    /// Drives the wrapped circuit against the transpiler, surfacing any
    /// synthesis failure as a missing-assignment error.
    pub fn synthesize(&self, cs: &mut Transpiler) -> (r: Result<(), SynthesisError>)
        ensures
            match r {
                Ok(_) => true,
                Err(e) => e == SynthesisError::AssignmentMissing,
            },
    {
        match self.0.clone().synthesize(cs) {
            Err(_) => Err(SynthesisError::AssignmentMissing),
            Ok(_) => Ok(()),
        }
    }
}

} // verus!
