use vstd::prelude::*;

verus! {

use crate::error::DbError;

/// The lifecycle state of an explicitly started transaction.
#[derive(Clone, Copy, Debug, PartialEq, Eq, Structural)]
pub enum TransactionStatus {
    /// Started and neither committed nor rolled back.
    InProgress,
    /// Committed, or marked committed with its flush delayed.
    Committed,
    /// Rolled back; its changes were discarded.
    Aborted,
}

/// Guard of every transaction operation: work is permitted exactly while
/// the transaction is in progress, anything else is the wrong state.
pub fn op_permitted(status: &TransactionStatus) -> (r: Result<(), DbError>)
    ensures
        r is Ok <==> status is InProgress,
        r matches Err(e) ==> e == DbError::WrongState,
{
    match status {
        TransactionStatus::InProgress => Ok(()),
        TransactionStatus::Committed => Err(DbError::WrongState),
        TransactionStatus::Aborted => Err(DbError::WrongState),
    }
}

} // verus!
