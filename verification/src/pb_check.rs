//! Checks on pseudo-boolean constraints before they are handed to a solver: the literals and
//! coefficients must pair up, and every literal must name a variable in range.

use vstd::prelude::*;

verus! {

/// Errors a solver reports.
#[derive(Debug, Clone, Copy, PartialEq, Eq, Structural)]
pub enum SolverError {
    /// Failed to create a new solver instance.
    CreationFailed,
    /// Adding a constraint made the problem unsatisfiable at root level.
    UnsatAtRoot,
    /// Mismatched array lengths for a pseudo-boolean constraint.
    MismatchedLengths { lits: usize, coefs: usize },
    /// A literal references a variable outside the valid range.
    InvalidLiteral { lit: i32, num_vars: i32 },
}

/// `lit` is not zero and names a variable among `1..=n`, positively or negatively.
pub open spec fn lit_valid(lit: i32, n: i32) -> bool {
    lit != 0 && -n <= lit <= n
}

/// The first `k` literals are valid.
pub open spec fn lits_valid_upto(lits: Seq<i32>, n: i32, k: int) -> bool {
    forall|i: int| 0 <= i < k ==> #[trigger] lit_valid(lits[i], n)
}

/// Check that every literal names a variable among `1..=num_vars`; the error names the first
/// literal that does not.
pub fn validate_literals(lits: &[i32], num_vars: i32) -> (r: Result<(), SolverError>)
    ensures
        r is Ok <==> lits_valid_upto(lits@, num_vars, lits@.len() as int),
        r matches Err(e) ==> exists|i: int| 0 <= i < lits@.len() && lits_valid_upto(lits@, num_vars, i) && !lit_valid(lits@[i], num_vars)
            && e == (SolverError::InvalidLiteral { lit: lits@[i], num_vars }),
{
    let mut i: usize = 0;
    while i < lits.len()
        invariant
            i <= lits@.len(),
            lits_valid_upto(lits@, num_vars, i as int),
        decreases lits@.len() - i,
    {
        let lit = lits[i];
        if !(lit != 0 && (num_vars >= 0 && lit >= -num_vars && lit <= num_vars)) {
            proof {
                assert(!lit_valid(lits@[i as int], num_vars));
            }
            return Err(SolverError::InvalidLiteral { lit, num_vars });
        }
        i = i + 1;
    }
    Ok(())
}

/// Check a pseudo-boolean constraint's terms before it is added: the literals and the
/// coefficients must be as many, and every literal valid.
pub fn check_pb_terms(lits: &[i32], coefs: &[i32], num_vars: i32) -> (r: Result<(), SolverError>)
    ensures
        lits@.len() != coefs@.len() ==> r == Err::<(), SolverError>(SolverError::MismatchedLengths { lits: lits@.len() as usize, coefs: coefs@.len() as usize }),
        lits@.len() == coefs@.len() ==> (r is Ok <==> lits_valid_upto(lits@, num_vars, lits@.len() as int)),
        lits@.len() == coefs@.len() ==> (r matches Err(e) ==> exists|i: int| 0 <= i < lits@.len() && lits_valid_upto(lits@, num_vars, i)
            && !lit_valid(lits@[i], num_vars) && e == (SolverError::InvalidLiteral { lit: lits@[i], num_vars })),
{
    if lits.len() != coefs.len() {
        return Err(SolverError::MismatchedLengths { lits: lits.len(), coefs: coefs.len() });
    }
    validate_literals(lits, num_vars)
}

} // verus!
