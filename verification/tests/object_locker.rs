use guardsync::GuardObject;
use guardsync::LockOutcome;
use guardsync::Locker;
use guardsync::LockerManager;

// Counterpart of the locking exercise that the original suite ran across
// tasks: a second request for a held name waits; release hands it over.
#[test]
fn object_locker_test() {
    let mut manager = LockerManager::new();
    assert!(matches!(manager.lock("test".to_string()), LockOutcome::Acquired));
    let token = match manager.lock("test".to_string()) {
        LockOutcome::Wait(t) => t,
        LockOutcome::Acquired => panic!("the lock is held"),
    };
    assert_eq!(manager.unlock("test"), Some(token));
    assert_eq!(manager.unlock("test"), None);
}

#[test]
fn first_lock_acquires_immediately() {
    let mut manager = LockerManager::new();
    assert!(!manager.is_known("x"));
    assert!(matches!(manager.lock("x".to_string()), LockOutcome::Acquired));
    assert!(manager.is_known("x"));
}

#[test]
fn second_lock_on_held_name_waits() {
    let mut manager = LockerManager::new();
    assert!(matches!(manager.lock("x".to_string()), LockOutcome::Acquired));
    assert!(matches!(manager.lock("x".to_string()), LockOutcome::Wait(0)));
}

// Waiters for one name are granted the lock in strict enqueue order, and the
// lock is never observed free during a handoff.
#[test]
fn waiters_are_granted_fifo() {
    let mut manager = LockerManager::new();
    assert!(matches!(manager.lock("x".to_string()), LockOutcome::Acquired));
    let tb = match manager.lock("x".to_string()) {
        LockOutcome::Wait(t) => t,
        LockOutcome::Acquired => panic!("the lock is held"),
    };
    let tc = match manager.lock("x".to_string()) {
        LockOutcome::Wait(t) => t,
        LockOutcome::Acquired => panic!("the lock is held"),
    };
    assert!(tb < tc);
    assert_eq!(manager.unlock("x"), Some(tb));
    // ownership passed to the first waiter: a new requester still waits
    assert!(matches!(manager.lock("x".to_string()), LockOutcome::Wait(_)));
    assert_eq!(manager.unlock("x"), Some(tc));
}

#[test]
fn unlock_with_empty_queue_frees_the_lock() {
    let mut manager = LockerManager::new();
    assert!(matches!(manager.lock("x".to_string()), LockOutcome::Acquired));
    assert_eq!(manager.unlock("x"), None);
    assert!(matches!(manager.lock("x".to_string()), LockOutcome::Acquired));
}

#[test]
fn distinct_names_do_not_interfere() {
    let mut manager = LockerManager::new();
    assert!(matches!(manager.lock("x".to_string()), LockOutcome::Acquired));
    assert!(matches!(manager.lock("y".to_string()), LockOutcome::Acquired));
    assert_eq!(manager.unlock("x"), None);
    assert!(matches!(manager.lock("y".to_string()), LockOutcome::Wait(_)));
}

#[test]
fn entries_stay_known_after_release() {
    let mut manager = LockerManager::new();
    assert!(matches!(manager.lock("x".to_string()), LockOutcome::Acquired));
    assert_eq!(manager.unlock("x"), None);
    assert!(manager.is_known("x"));
}

#[test]
fn guard_object_couples_lock_and_payload() {
    let locker = Locker::get_locker("x".to_string());
    assert_eq!(locker.locker_id().as_str(), "x");
    let guard = GuardObject::new(locker, 41u64);
    assert_eq!(*guard.obj(), 41);
}

#[test]
fn guard_object_release_returns_payload() {
    let locker = Locker::get_locker("x".to_string());
    let guard = GuardObject::new(locker, "payload".to_string());
    assert_eq!(guard.release_locker(), "payload");
}
