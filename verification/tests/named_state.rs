use guardsync::NamedStateHolder;

// Counterpart of the registry exercise that the original suite ran across
// tasks: holds on one name keep it held until the last one is released.
#[test]
fn named_state_test() {
    let mut holder = NamedStateHolder::new();

    let guard1 = holder.new_state("test".to_string());
    assert!(holder.has_state("test".to_string()));
    holder.release_state(guard1.name().clone(), guard1.id());
    assert!(!holder.has_state("test".to_string()));

    let guard1 = holder.new_state("test".to_string());
    let guard2 = holder.new_state("test".to_string());
    assert!(holder.has_state("test".to_string()));
    holder.release_state(guard1.name().clone(), guard1.id());
    assert!(holder.has_state("test".to_string()));
    holder.release_state(guard2.name().clone(), guard2.id());
    assert!(!holder.has_state("test".to_string()));
}

#[test]
fn hold_then_release_clears_state() {
    let mut holder = NamedStateHolder::new();
    assert!(!holder.has_state("a".to_string()));
    let guard = holder.new_state("a".to_string());
    assert!(holder.has_state("a".to_string()));
    holder.release_state("a".to_string(), guard.id());
    assert!(!holder.has_state("a".to_string()));
}

#[test]
fn two_holds_release_first_then_second() {
    let mut holder = NamedStateHolder::new();
    let hold1 = holder.new_state("a".to_string());
    let hold2 = holder.new_state("a".to_string());
    holder.release_state("a".to_string(), hold1.id());
    assert!(holder.has_state("a".to_string()));
    holder.release_state("a".to_string(), hold2.id());
    assert!(!holder.has_state("a".to_string()));
}

#[test]
fn two_holds_release_second_then_first() {
    let mut holder = NamedStateHolder::new();
    let hold1 = holder.new_state("a".to_string());
    let hold2 = holder.new_state("a".to_string());
    holder.release_state("a".to_string(), hold2.id());
    assert!(holder.has_state("a".to_string()));
    holder.release_state("a".to_string(), hold1.id());
    assert!(!holder.has_state("a".to_string()));
}

#[test]
fn unknown_name_is_not_held() {
    let holder = NamedStateHolder::new();
    assert!(!holder.has_state("never-seen".to_string()));
}

#[test]
fn release_on_unknown_name_is_a_noop() {
    let mut holder = NamedStateHolder::new();
    let guard = holder.new_state("a".to_string());
    holder.release_state("b".to_string(), guard.id());
    assert!(holder.has_state("a".to_string()));
    assert!(!holder.has_state("b".to_string()));
}

#[test]
fn release_of_foreign_id_leaves_hold_in_place() {
    let mut holder = NamedStateHolder::new();
    let guard = holder.new_state("a".to_string());
    holder.release_state("a".to_string(), guard.id().wrapping_add(1));
    assert!(holder.has_state("a".to_string()));
}

#[test]
fn hold_ids_are_unique_and_increasing() {
    let mut holder = NamedStateHolder::new();
    let hold1 = holder.new_state("a".to_string());
    let hold2 = holder.new_state("b".to_string());
    let hold3 = holder.new_state("a".to_string());
    assert_ne!(hold1.id(), hold2.id());
    assert_ne!(hold2.id(), hold3.id());
    assert_ne!(hold1.id(), hold3.id());
    assert_eq!(hold2.id(), hold1.id() + 1);
    assert_eq!(hold3.id(), hold2.id() + 1);
}

#[test]
fn holds_on_other_names_are_unaffected() {
    let mut holder = NamedStateHolder::new();
    let hold_a = holder.new_state("a".to_string());
    let _hold_b = holder.new_state("b".to_string());
    holder.release_state("a".to_string(), hold_a.id());
    assert!(!holder.has_state("a".to_string()));
    assert!(holder.has_state("b".to_string()));
}

#[test]
fn guard_reports_its_name_and_id() {
    let mut holder = NamedStateHolder::new();
    let first = holder.new_state("a".to_string());
    let second = holder.new_state("a".to_string());
    assert_eq!(first.name().as_str(), "a");
    assert_eq!(second.name().as_str(), "a");
    assert_eq!(second.id(), first.id() + 1);
}
