//! Why a lock was not granted.

use vstd::prelude::*;

verus! {

#[derive(Debug, Clone, Copy, PartialEq, Eq, Structural)]
pub enum LockError {
    Timeout,
    Deadlock,
    TransactionAborted,
    LockEscalationFailed,
    RangeConflict,
    RangeLocksDisabled,
    NotHeld,
    InvalidUpgrade,
}

impl LockError {
    /// The text that describes the error.
    pub open spec fn text(self) -> Seq<char> {
        match self {
            LockError::Timeout => "lock acquisition timed out"@,
            LockError::Deadlock => "deadlock detected"@,
            LockError::TransactionAborted => "transaction was aborted"@,
            LockError::LockEscalationFailed => "lock escalation failed"@,
            LockError::RangeConflict => "range lock conflict"@,
            LockError::RangeLocksDisabled => "range locks are disabled"@,
            LockError::NotHeld => "lock not held by transaction"@,
            LockError::InvalidUpgrade => "invalid lock upgrade path"@,
        }
    }

    pub fn message(&self) -> (text: String)
        ensures
            text@ == self.text(),
    {
        match self {
            LockError::Timeout => "lock acquisition timed out".to_owned(),
            LockError::Deadlock => "deadlock detected".to_owned(),
            LockError::TransactionAborted => "transaction was aborted".to_owned(),
            LockError::LockEscalationFailed => "lock escalation failed".to_owned(),
            LockError::RangeConflict => "range lock conflict".to_owned(),
            LockError::RangeLocksDisabled => "range locks are disabled".to_owned(),
            LockError::NotHeld => "lock not held by transaction".to_owned(),
            LockError::InvalidUpgrade => "invalid lock upgrade path".to_owned(),
        }
    }
}

} // verus!
