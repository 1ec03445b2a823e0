//! In-process synchronization primitives built around guard-based ownership:
//! a registry of named holds, an exclusive cell with queued waiters, and a
//! table of named mutual-exclusion locks.
//!
//! Each primitive is a state machine over plain values: every operation is a
//! short, non-suspending transition with a contract. Suspension itself (parking
//! a task on a notify-future and waking it later) is left to the embedding
//! runtime, which drives these transitions and parks on the waiter tokens they
//! hand out.

pub mod named_state;
pub mod object_holder;
pub mod object_locker;

pub use named_state::NamedStateGuard;
pub use named_state::NamedStateHolder;
pub use object_holder::GetOutcome;
pub use object_holder::ObjectHolder;
pub use object_locker::GuardObject;
pub use object_locker::LockOutcome;
pub use object_locker::Locker;
pub use object_locker::LockerManager;
