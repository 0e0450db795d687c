use relational::pb_check::{check_pb_terms, validate_literals, SolverError};

#[test]
fn pb_terms_of_mismatched_lengths_are_refused() {
    let result = check_pb_terms(&[1, 2, 3], &[1, 1], 3);
    assert_eq!(result, Err(SolverError::MismatchedLengths { lits: 3, coefs: 2 }));
}

#[test]
fn pb_literal_out_of_range_is_refused() {
    let result = check_pb_terms(&[1, 10], &[1, 1], 2);
    assert_eq!(result, Err(SolverError::InvalidLiteral { lit: 10, num_vars: 2 }));
    assert_eq!(validate_literals(&[1, 3], 2), Err(SolverError::InvalidLiteral { lit: 3, num_vars: 2 }));
    assert_eq!(validate_literals(&[-5], 2), Err(SolverError::InvalidLiteral { lit: -5, num_vars: 2 }));
    assert_eq!(validate_literals(&[0], 2), Err(SolverError::InvalidLiteral { lit: 0, num_vars: 2 }));
    assert_eq!(validate_literals(&[i32::MIN], 2), Err(SolverError::InvalidLiteral { lit: i32::MIN, num_vars: 2 }));
}

#[test]
fn pb_valid_terms_are_accepted() {
    assert_eq!(check_pb_terms(&[1, -2], &[3, 4], 2), Ok(()));
    assert_eq!(validate_literals(&[], 0), Ok(()));
}
