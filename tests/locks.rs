use oma_apt::util::{
    apt_is_locked, apt_lock, apt_lock_inner, apt_unlock, apt_unlock_inner, LockError, LockState,
};

fn refused() -> Result<(), LockError> {
    Err(LockError { message: String::from("E:Could not open lock file - open (13: Permission denied)") })
}

#[test]
fn nested_outer_lock_engages_once() {
    let mut state = LockState::new();
    assert!(!apt_is_locked(&state));
    assert!(state.engages_outer());
    assert!(apt_lock(&mut state, Ok(())).is_ok());
    assert!(!state.engages_outer());
    assert!(apt_lock(&mut state, refused()).is_ok());
    assert_eq!(state.outer_held(), 2);
    assert!(apt_is_locked(&state));
    assert!(!apt_unlock(&mut state));
    assert!(apt_is_locked(&state));
    assert!(apt_unlock(&mut state));
    assert!(!apt_is_locked(&state));
    assert_eq!(state.outer_held(), 0);
}

#[test]
fn failed_engage_leaves_count() {
    let mut state = LockState::new();
    let r = apt_lock(&mut state, refused());
    match r {
        Err(e) => assert!(e.message.contains("Permission denied")),
        Ok(()) => panic!("lock reported taken"),
    }
    assert_eq!(state.outer_held(), 0);
    assert!(!apt_is_locked(&state));
    assert!(state.engages_outer());
}

#[test]
fn inner_lock_is_independent() {
    let mut state = LockState::new();
    assert!(apt_lock_inner(&mut state, Ok(())).is_ok());
    assert_eq!(state.inner_held(), 1);
    assert_eq!(state.outer_held(), 0);
    assert!(apt_is_locked(&state));
    assert!(state.engages_outer());
    assert!(apt_lock(&mut state, Ok(())).is_ok());
    assert!(apt_unlock_inner(&mut state));
    assert!(apt_is_locked(&state));
    assert!(apt_unlock(&mut state));
    assert!(!apt_is_locked(&state));
}

#[test]
fn inner_lock_failure_is_reported() {
    let mut state = LockState::new();
    assert!(apt_lock_inner(&mut state, refused()).is_err());
    assert_eq!(state.inner_held(), 0);
    assert!(state.engages_inner());
}

#[test]
fn engagements_follow_the_count() {
    let mut state = LockState::new();
    let mut engaged = 0u32;
    let mut disengaged = 0u32;
    let run = [true, true, false, true, false, false, true, false, true, true, false];
    for take in run {
        if take {
            let outcome = if state.engages_outer() {
                engaged += 1;
                Ok(())
            } else {
                refused()
            };
            assert!(apt_lock(&mut state, outcome).is_ok());
        } else if apt_unlock(&mut state) {
            disengaged += 1;
        }
        let held = if apt_is_locked(&state) { 1 } else { 0 };
        assert_eq!(engaged, disengaged + held);
    }
    assert_eq!(engaged, 3);
    assert_eq!(disengaged, 2);
    assert_eq!(state.outer_held(), 1);
}
