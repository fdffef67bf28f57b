//! Lock modes and which of them may be held together.

use vstd::prelude::*;

verus! {

/// Shared, exclusive, the two intention modes, and shared with intention exclusive.
#[derive(Debug, Clone, Copy, PartialEq, Eq, Hash, Structural)]
pub enum LockMode {
    S,
    X,
    IS,
    IX,
    SIX,
}

impl LockMode {
    /// The two modes may be held on one key by different transactions.
    pub open spec fn compatible(self, other: LockMode) -> bool {
        match (self, other) {
            (LockMode::X, _) | (_, LockMode::X) => false,
            (LockMode::IS, _) | (_, LockMode::IS) => true,
            (LockMode::IX, LockMode::IX) | (LockMode::S, LockMode::S) => true,
            _ => false,
        }
    }

    /// A lock held in this mode may be turned into one of mode `target`.
    pub open spec fn upgradable(self, target: LockMode) -> bool {
        match self {
            LockMode::S | LockMode::IX => target == LockMode::X || target == LockMode::SIX,
            LockMode::IS => target != LockMode::IS,
            LockMode::X | LockMode::SIX => false,
        }
    }

    pub fn is_compatible(&self, other: &LockMode) -> (result: bool)
        ensures
            result == self.compatible(*other),
    {
        match (self, other) {
            (LockMode::IS, LockMode::IS) => true,
            (LockMode::IS, LockMode::IX) => true,
            (LockMode::IS, LockMode::S) => true,
            (LockMode::IS, LockMode::SIX) => true,
            (LockMode::IX, LockMode::IS) => true,
            (LockMode::IX, LockMode::IX) => true,
            (LockMode::S, LockMode::IS) => true,
            (LockMode::S, LockMode::S) => true,
            (LockMode::SIX, LockMode::IS) => true,
            _ => false,
        }
    }

    pub fn is_shared(&self) -> (result: bool)
        ensures
            result == (*self == LockMode::S || *self == LockMode::IS),
    {
        matches!(self, LockMode::S | LockMode::IS)
    }

    pub fn is_exclusive(&self) -> (result: bool)
        ensures
            result == (*self == LockMode::X || *self == LockMode::IX || *self == LockMode::SIX),
    {
        matches!(self, LockMode::X | LockMode::IX | LockMode::SIX)
    }

    pub fn can_upgrade_to(&self, target: &LockMode) -> (result: bool)
        ensures
            result == self.upgradable(*target),
    {
        match (self, target) {
            (LockMode::S, LockMode::X) => true,
            (LockMode::S, LockMode::SIX) => true,
            (LockMode::IS, LockMode::IX) => true,
            (LockMode::IS, LockMode::S) => true,
            (LockMode::IS, LockMode::X) => true,
            (LockMode::IS, LockMode::SIX) => true,
            (LockMode::IX, LockMode::X) => true,
            (LockMode::IX, LockMode::SIX) => true,
            _ => false,
        }
    }

    /// The text that stands for a mode.
    pub open spec fn text(self) -> Seq<char> {
        match self {
            LockMode::S => "S"@,
            LockMode::X => "X"@,
            LockMode::IS => "IS"@,
            LockMode::IX => "IX"@,
            LockMode::SIX => "SIX"@,
        }
    }

    /// The name of the mode.
    pub fn name(&self) -> (name: String)
        ensures
            name@ == self.text(),
    {
        match self {
            LockMode::S => "S".to_owned(),
            LockMode::X => "X".to_owned(),
            LockMode::IS => "IS".to_owned(),
            LockMode::IX => "IX".to_owned(),
            LockMode::SIX => "SIX".to_owned(),
        }
    }
}

/// Compatibility does not depend on which of two locks came first.
pub proof fn lemma_compatible_symmetric(a: LockMode, b: LockMode)
    ensures
        a.compatible(b) == b.compatible(a),
{
}

/// An exclusive lock is held alone.
pub proof fn lemma_exclusive_alone(a: LockMode)
    ensures
        !LockMode::X.compatible(a),
        !a.compatible(LockMode::X),
{
}

/// Every mode is either shared or exclusive, and never both.
pub proof fn lemma_shared_or_exclusive(a: LockMode)
    ensures
        (a == LockMode::S || a == LockMode::IS) != (a == LockMode::X || a == LockMode::IX || a
            == LockMode::SIX),
{
}

/// An upgrade only makes a lock stronger: what is compatible with the upgraded lock
/// was compatible with the lock before. There is no way back.
pub proof fn lemma_upgrade_strengthens(a: LockMode, b: LockMode, other: LockMode)
    requires
        a.upgradable(b),
    ensures
        b.compatible(other) ==> a.compatible(other),
        !b.upgradable(a),
        a != b,
{
}

} // verus!
