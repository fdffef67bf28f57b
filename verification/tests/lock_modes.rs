use crabstash::lock::LockMode;
use crabstash::lock::LockMode::{IS, IX, S, SIX, X};

#[test]
fn test_compatibility_matrix() {
    assert!(IS.is_compatible(&IS));
    assert!(IS.is_compatible(&IX));
    assert!(IS.is_compatible(&S));
    assert!(IS.is_compatible(&SIX));
    assert!(!IS.is_compatible(&X));

    assert!(IX.is_compatible(&IS));
    assert!(IX.is_compatible(&IX));
    assert!(!IX.is_compatible(&S));
    assert!(!IX.is_compatible(&SIX));
    assert!(!IX.is_compatible(&X));

    assert!(S.is_compatible(&IS));
    assert!(!S.is_compatible(&IX));
    assert!(S.is_compatible(&S));
    assert!(!S.is_compatible(&SIX));
    assert!(!S.is_compatible(&X));

    assert!(SIX.is_compatible(&IS));
    assert!(!SIX.is_compatible(&IX));
    assert!(!SIX.is_compatible(&S));
    assert!(!SIX.is_compatible(&SIX));
    assert!(!SIX.is_compatible(&X));

    assert!(!X.is_compatible(&IS));
    assert!(!X.is_compatible(&IX));
    assert!(!X.is_compatible(&S));
    assert!(!X.is_compatible(&SIX));
    assert!(!X.is_compatible(&X));
}

#[test]
fn test_upgrade_paths() {
    assert!(S.can_upgrade_to(&X));
    assert!(S.can_upgrade_to(&SIX));
    assert!(IS.can_upgrade_to(&IX));
    assert!(IS.can_upgrade_to(&S));
    assert!(IS.can_upgrade_to(&X));
    assert!(IX.can_upgrade_to(&X));

    assert!(!X.can_upgrade_to(&S));
    assert!(!S.can_upgrade_to(&IS));
}

#[test]
fn modes_are_shared_or_exclusive() {
    let modes = [IS, IX, S, SIX, X];
    for mode in modes {
        assert!(!(mode.is_shared() && mode.is_exclusive()));
    }
    assert!(X.is_exclusive());
    assert!(S.is_shared());
}

#[test]
fn names_of_the_modes() {
    let names: Vec<String> = [IS, IX, S, SIX, X].iter().map(LockMode::name).collect();
    assert_eq!(names, vec!["IS", "IX", "S", "SIX", "X"]);
}
