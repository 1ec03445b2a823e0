use guardsync::GetOutcome;
use guardsync::ObjectHolder;

// Counterpart of the cell exercise that the original suite ran across tasks:
// one holder, one value, a second requester queues and is served on release.
#[test]
fn test_object_holder() {
    let mut holder = ObjectHolder::new(1);
    let first = holder.get();
    assert!(matches!(first, GetOutcome::Ready(1)));
    let token = match holder.get() {
        GetOutcome::Wait(t) => t,
        GetOutcome::Ready(_) => panic!("value should be out"),
    };
    match holder.release(1) {
        Some((woken, value)) => {
            assert_eq!(woken, token);
            assert_eq!(value, 1);
        }
        None => panic!("the waiter should be served"),
    }
    match holder.release(1) {
        None => {}
        Some(_) => panic!("nobody left to serve"),
    }
    assert!(holder.has_object());
}

#[test]
fn immediate_get_takes_the_value() {
    let mut holder = ObjectHolder::new(7u64);
    assert!(holder.has_object());
    match holder.get() {
        GetOutcome::Ready(v) => assert_eq!(v, 7),
        GetOutcome::Wait(_) => panic!("the value was resting"),
    }
    assert!(!holder.has_object());
}

#[test]
fn release_without_waiters_rests_the_value() {
    let mut holder = ObjectHolder::new(3u32);
    let value = match holder.get() {
        GetOutcome::Ready(v) => v,
        GetOutcome::Wait(_) => panic!("the value was resting"),
    };
    assert!(holder.release(value).is_none());
    assert!(holder.has_object());
    assert!(matches!(holder.get(), GetOutcome::Ready(3)));
}

// With several acquirers queued before any release, each release hands the
// value to the most recently enqueued waiter still pending.
#[test]
fn waiters_are_woken_lifo() {
    let mut holder = ObjectHolder::new(9u64);
    let value = match holder.get() {
        GetOutcome::Ready(v) => v,
        GetOutcome::Wait(_) => panic!("the value was resting"),
    };
    let t0 = match holder.get() {
        GetOutcome::Wait(t) => t,
        GetOutcome::Ready(_) => panic!("value should be out"),
    };
    let t1 = match holder.get() {
        GetOutcome::Wait(t) => t,
        GetOutcome::Ready(_) => panic!("value should be out"),
    };
    let t2 = match holder.get() {
        GetOutcome::Wait(t) => t,
        GetOutcome::Ready(_) => panic!("value should be out"),
    };
    assert_eq!((t0, t1, t2), (0, 1, 2));

    let (woken, v) = holder.release(value).expect("a waiter is pending");
    assert_eq!(woken, t2);
    let (woken, v) = holder.release(v).expect("a waiter is pending");
    assert_eq!(woken, t1);
    let (woken, v) = holder.release(v).expect("a waiter is pending");
    assert_eq!(woken, t0);
    assert!(holder.release(v).is_none());
    assert!(holder.has_object());
}

// The handoff passes the released value itself, untouched.
#[test]
fn handoff_carries_the_released_value() {
    let mut holder = ObjectHolder::new("payload".to_string());
    let value = match holder.get() {
        GetOutcome::Ready(v) => v,
        GetOutcome::Wait(_) => panic!("the value was resting"),
    };
    let token = match holder.get() {
        GetOutcome::Wait(t) => t,
        GetOutcome::Ready(_) => panic!("value should be out"),
    };
    let (woken, delivered) = holder.release(value).expect("a waiter is pending");
    assert_eq!(woken, token);
    assert_eq!(delivered, "payload");
}
