//! Lock management: lock modes, key and range locks, deadlock detection and
//! serialisation conflicts.

pub mod deadlock;
pub mod escalation;
pub mod grant_laws;
pub mod lock_entry;
pub mod lock_error;
pub mod lock_laws;
pub mod lock_manager;
pub mod lock_mode;
pub mod lock_table;
pub mod range_lock;
pub mod shared_maps;
pub mod ssi;

pub use deadlock::{TxnInfo, WaitForGraph};
pub use escalation::{EscalationAction, EscalationConfig, EscalationState};
pub use lock_entry::{LockEntry, LockRequest};
pub use lock_error::LockError;
pub use lock_manager::{LockAttempt, LockGuard, LockManager, RangeLockGuard};
pub use lock_mode::LockMode;
pub use lock_table::{LockConfig, LockTable};
pub use range_lock::{IntervalTree, RangeLockEntry};
pub use ssi::{ReadWriteSet, SSIConflict, SSIManager};
