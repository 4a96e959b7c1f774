//! Predicate operators, the operator-iterator abstraction, and the library's
//! error type.

use vstd::prelude::*;

use crate::hash::HashNode;

verus! {

/// Predicate operators.
#[derive(Debug, Clone, Copy)]
pub enum PredicateOp {
    Equals,
    GreaterThan,
    LessThan,
    LessThanOrEq,
    GreaterThanOrEq,
    NotEq,
    All,
}

impl PredicateOp {
    /// What a comparison under this operator means.
    pub open spec fn spec_compare(self, left: int, right: int) -> bool {
        match self {
            PredicateOp::Equals => left == right,
            PredicateOp::GreaterThan => left > right,
            PredicateOp::LessThan => left < right,
            PredicateOp::LessThanOrEq => left <= right,
            PredicateOp::GreaterThanOrEq => left >= right,
            PredicateOp::NotEq => left != right,
            PredicateOp::All => true,
        }
    }

    /// Do predicate comparison.
    pub fn compare(&self, left_field: &i64, right_field: &i64) -> (r: bool)
        ensures
            r == self.spec_compare(*left_field as int, *right_field as int),
    {
        match self {
            PredicateOp::Equals => *left_field == *right_field,
            PredicateOp::GreaterThan => *left_field > *right_field,
            PredicateOp::LessThan => *left_field < *right_field,
            PredicateOp::LessThanOrEq => *left_field <= *right_field,
            PredicateOp::GreaterThanOrEq => *left_field >= *right_field,
            PredicateOp::NotEq => *left_field != *right_field,
            PredicateOp::All => true,
        }
    }

    /// Flip the operator: swap the order relations, keep the others.
    pub fn flip(&self) -> (r: Self)
        ensures
            forall|l: int, rr: int| r.spec_compare(l, rr) == self.spec_compare(rr, l),
    {
        match self {
            PredicateOp::GreaterThan => PredicateOp::LessThan,
            PredicateOp::LessThan => PredicateOp::GreaterThan,
            PredicateOp::LessThanOrEq => PredicateOp::GreaterThanOrEq,
            PredicateOp::GreaterThanOrEq => PredicateOp::LessThanOrEq,
            op => *op,
        }
    }
}

/// The operator-iterator abstraction: open before use, pull tuples with
/// `next`, close to release resources, rewind to start over. Calling `next`
/// or `rewind` on an operator that is not open is a misuse the contracts
/// exclude.
pub trait OpIterator {
    /// Whether the operator has been opened and not yet closed.
    spec fn is_open(&self) -> bool;

    /// Opens the iterator. This must be called before any of the other
    /// methods.
    fn open(&mut self) -> Result<(), CrustyError>;

    /// Advances the iterator and returns the next tuple from the operator,
    /// or nothing when iteration is finished.
    fn next(&mut self) -> Result<Option<HashNode>, CrustyError>
        requires
            old(self).is_open(),
    ;

    /// Closes the iterator; afterwards the operator is no longer open.
    fn close(&mut self) -> (r: Result<(), CrustyError>)
        ensures
            !final(self).is_open(),
    ;

    /// Returns the iterator to the start.
    fn rewind(&mut self) -> Result<(), CrustyError>
        requires
            old(self).is_open(),
    ;
}

/// The library's error type.
#[derive(Debug, Clone, PartialEq)]
pub enum CrustyError {
    /// IO Errors.
    IOError(String),
    /// Custom errors.
    CrustyError(String),
    /// Validation errors.
    ValidationError(String),
    /// Execution errors.
    ExecutionError(String),
    /// Transaction aborted.
    TransactionAbortedError,
}

impl CrustyError {
    /// What each kind of error renders as.
    pub open spec fn spec_message(&self) -> Seq<char> {
        match self {
            CrustyError::ValidationError(s) => "Validation Error: "@ + s@,
            CrustyError::ExecutionError(s) => "Execution Error: "@ + s@,
            CrustyError::CrustyError(s) => "Crusty Error: "@ + s@,
            CrustyError::IOError(s) => s@,
            CrustyError::TransactionAbortedError => "Transaction Aborted Error"@,
        }
    }

    /// The error's text, one line naming the error kind and its detail.
    pub fn message(&self) -> (r: String)
        ensures
            r@ == self.spec_message(),
    {
        match self {
            CrustyError::ValidationError(s) => {
                let mut r = String::from_str("Validation Error: ");
                r.append(s.as_str());
                r
            },
            CrustyError::ExecutionError(s) => {
                let mut r = String::from_str("Execution Error: ");
                r.append(s.as_str());
                r
            },
            CrustyError::CrustyError(s) => {
                let mut r = String::from_str("Crusty Error: ");
                r.append(s.as_str());
                r
            },
            CrustyError::IOError(s) => s.clone(),
            CrustyError::TransactionAbortedError => String::from_str("Transaction Aborted Error"),
        }
    }
}

} // verus!
