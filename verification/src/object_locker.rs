//! Named mutual-exclusion locks: a table keyed by a string id. Each entry
//! records whether its lock is held and the tokens of the waiters queued for
//! it, in strict enqueue order; waiters are granted the lock first-in
//! first-out. Entries are created lazily on first request and never removed.
//!
//! Each queued waiter is named by a token. The embedding runtime parks the
//! requesting task on a notify-future filed under that token; when `unlock`
//! picks a token, the runtime resolves that future, and ownership passes to
//! the woken waiter without the lock ever being observed free in between.

use vstd::prelude::*;

verus! {

/// One lock's state: whether it is held, and who waits for it.
struct LockerState {
    is_locked: bool,
    pending_list: Vec<u64>,
}

/// One table entry: a lock name and its state.
struct LockerEntry {
    locker_id: String,
    state: LockerState,
}

/// What `lock` decided: the lock was free (or new) and is granted at once, or
/// it is held and the caller was enqueued and must park on the waiter named
/// by the token.
pub enum LockOutcome {
    Acquired,
    Wait(u64),
}

/// The table of named locks, and the counter from which the next waiter token
/// is taken.
pub struct LockerManager {
    locker_map: Vec<LockerEntry>,
    token_seq: u64,
}

impl LockerManager {
    /// Whether the table has an entry for `id` (entries are never removed).
    pub closed spec fn known(&self, id: Seq<char>) -> bool {
        exists|i: int| 0 <= i < self.locker_map@.len() && self.locker_map@[i].locker_id@ == id
    }

    /// Whether the lock named `id` is currently held; false for unknown names.
    pub closed spec fn spec_is_locked(&self, id: Seq<char>) -> bool {
        if self.known(id) {
            let i = choose|i: int|
                0 <= i < self.locker_map@.len() && self.locker_map@[i].locker_id@ == id;
            self.locker_map@[i].state.is_locked
        } else {
            false
        }
    }

    /// The waiter tokens queued for the lock named `id`, in enqueue order;
    /// empty for unknown names.
    pub closed spec fn pending(&self, id: Seq<char>) -> Seq<u64> {
        if self.known(id) {
            let i = choose|i: int|
                0 <= i < self.locker_map@.len() && self.locker_map@[i].locker_id@ == id;
            self.locker_map@[i].state.pending_list@
        } else {
            Seq::<u64>::empty()
        }
    }

    /// The token the next enqueued waiter will be given.
    pub closed spec fn next_token(&self) -> u64 {
        self.token_seq
    }

    /// Each lock name occurs at most once in the table.
    spec fn unique_ids(&self) -> bool {
        forall|a: int, b: int|
            0 <= a < b < self.locker_map@.len() ==> self.locker_map@[a].locker_id@
                != self.locker_map@[b].locker_id@
    }

    /// Internal well-formedness: names are unique, and a queue is non-empty
    /// only while its lock is held.
    pub closed spec fn wf(&self) -> bool {
        self.unique_ids() && (forall|a: int|
            0 <= a < self.locker_map@.len() ==> (self.locker_map@[a].state.pending_list@.len() > 0
                ==> #[trigger] self.locker_map@[a].state.is_locked))
    }

    /// Every queued token was allocated before the current counter value, so
    /// tokens are pairwise distinct and the next one is fresh.
    pub closed spec fn fresh_tokens(&self) -> bool {
        (forall|a: int, m: int|
            0 <= a < self.locker_map@.len() && 0 <= m
                < self.locker_map@[a].state.pending_list@.len()
                ==> #[trigger] self.locker_map@[a].state.pending_list@[m] < self.token_seq) && (
        forall|a: int, m1: int, m2: int|
            0 <= a < self.locker_map@.len() && 0 <= m1 < m2
                < self.locker_map@[a].state.pending_list@.len()
                ==> self.locker_map@[a].state.pending_list@[m1]
                != self.locker_map@[a].state.pending_list@[m2])
    }

    /// Fresh table: no lock is known, none is held, nobody waits.
    pub fn new() -> (r: Self)
        ensures
            r.wf(),
            r.fresh_tokens(),
            r.next_token() == 0,
            forall|n: Seq<char>| !#[trigger] r.known(n),
            forall|n: Seq<char>| !#[trigger] r.spec_is_locked(n),
            forall|n: Seq<char>| #[trigger] r.pending(n) == Seq::<u64>::empty(),
    {
        let r = LockerManager { locker_map: Vec::new(), token_seq: 0 };
        proof {
            assert forall|n: Seq<char>| !#[trigger] r.known(n) by {
                assert(r.locker_map@.len() == 0);
            }
        }
        r
    }

    /// Whether the table has an entry for `locker_id`.
    #[verifier::loop_isolation(false)]
    pub fn is_known(&self, locker_id: &str) -> (r: bool)
        requires
            self.wf(),
        ensures
            r == self.known(locker_id@),
    {
        let key: String = locker_id.to_owned();
        let n = self.locker_map.len();
        let mut i: usize = 0;
        while i < n
            invariant
                n == self.locker_map@.len(),
                0 <= i <= n,
                forall|j: int| 0 <= j < i ==> self.locker_map@[j].locker_id@ != locker_id@,
                key@ == locker_id@,
            decreases n - i,
        {
            if self.locker_map[i].locker_id == key {
                return true;
            }
            i += 1;
        }
        false
    }

    /// Requests the lock named `locker_id`. A new or free lock is granted at
    /// once and marked held; a held one enqueues the caller at the tail of
    /// its queue and returns the token under which it must park. The lock is
    /// granted immediately exactly when it was not held.
    #[verifier::loop_isolation(false)]
    pub fn lock(&mut self, locker_id: String) -> (r: LockOutcome)
        requires
            old(self).wf(),
        ensures
            final(self).wf(),
            final(self).known(locker_id@),
            final(self).spec_is_locked(locker_id@),
            (r is Acquired) == !old(self).spec_is_locked(locker_id@),
            (match r {
                LockOutcome::Acquired => {
                    &&& final(self).pending(locker_id@) == old(self).pending(locker_id@)
                    &&& final(self).next_token() == old(self).next_token()
                },
                LockOutcome::Wait(t) => {
                    &&& old(self).spec_is_locked(locker_id@)
                    &&& t == old(self).next_token()
                    &&& final(self).pending(locker_id@) == old(self).pending(locker_id@).push(t)
                    &&& old(self).next_token() < u64::MAX ==> final(self).next_token() == old(
                        self).next_token() + 1
                    &&& old(self).next_token() == u64::MAX ==> final(self).next_token() == 0
                },
            }),
            forall|n: Seq<char>|
                n != locker_id@ ==> #[trigger] final(self).known(n) == old(self).known(n),
            forall|n: Seq<char>|
                n != locker_id@ ==> #[trigger] final(self).spec_is_locked(n) == old(
                    self).spec_is_locked(n),
            forall|n: Seq<char>|
                n != locker_id@ ==> #[trigger] final(self).pending(n) == old(self).pending(n),
            old(self).fresh_tokens() && old(self).next_token() < u64::MAX ==> final(
                self).fresh_tokens(),
    {
        let ghost pre = *self;
        let n = self.locker_map.len();
        let mut i: usize = 0;
        while i < n
            invariant
                n == self.locker_map@.len(),
                0 <= i <= n,
                forall|j: int| 0 <= j < i ==> self.locker_map@[j].locker_id@ != locker_id@,
                *self == pre,
            decreases n - i,
        {
            if self.locker_map[i].locker_id == locker_id {
                let mut entry = self.locker_map.remove(i);
                if entry.state.is_locked {
                    let t = self.token_seq;
                    self.token_seq = if t < u64::MAX {
                        t + 1
                    } else {
                        0
                    };
                    entry.state.pending_list.push(t);
                    self.locker_map.insert(i, entry);
                    proof {
                        assert(self.locker_map@ =~= pre.locker_map@.update(
                            i as int,
                            self.locker_map@[i as int],
                        ));
                        lemma_locker_after_update(pre, *self, i as int, locker_id@);
                    }
                    return LockOutcome::Wait(t);
                } else {
                    entry.state.is_locked = true;
                    self.locker_map.insert(i, entry);
                    proof {
                        assert(self.locker_map@ =~= pre.locker_map@.update(
                            i as int,
                            self.locker_map@[i as int],
                        ));
                        lemma_locker_after_update(pre, *self, i as int, locker_id@);
                    }
                    return LockOutcome::Acquired;
                }
            }
            i += 1;
        }
        let state = LockerState { is_locked: true, pending_list: Vec::new() };
        self.locker_map.push(LockerEntry { locker_id, state });
        proof {
            lemma_locker_after_push(pre, *self);
        }
        LockOutcome::Acquired
    }

    /// Releases the lock named `locker_id`, which must be an entry of the
    /// table — releasing an unknown name would mean the table's own
    /// bookkeeping was broken. If waiters are queued, the head waiter's token
    /// is returned and ownership passes to it directly: the lock never shows
    /// as free in between. Only with an empty queue is the lock marked free.
    #[verifier::loop_isolation(false)]
    pub fn unlock(&mut self, locker_id: &str) -> (r: Option<u64>)
        requires
            old(self).wf(),
            old(self).known(locker_id@),
        ensures
            final(self).wf(),
            final(self).known(locker_id@),
            final(self).next_token() == old(self).next_token(),
            (r is Some) == (old(self).pending(locker_id@).len() > 0),
            (match r {
                Some(t) => {
                    &&& t == old(self).pending(locker_id@)[0]
                    &&& final(self).pending(locker_id@) == old(self).pending(
                        locker_id@).drop_first()
                    &&& final(self).spec_is_locked(locker_id@)
                },
                None => {
                    &&& !final(self).spec_is_locked(locker_id@)
                    &&& final(self).pending(locker_id@) == Seq::<u64>::empty()
                },
            }),
            forall|n: Seq<char>|
                n != locker_id@ ==> #[trigger] final(self).known(n) == old(self).known(n),
            forall|n: Seq<char>|
                n != locker_id@ ==> #[trigger] final(self).spec_is_locked(n) == old(
                    self).spec_is_locked(n),
            forall|n: Seq<char>|
                n != locker_id@ ==> #[trigger] final(self).pending(n) == old(self).pending(n),
            old(self).fresh_tokens() ==> final(self).fresh_tokens(),
    {
        let key: String = locker_id.to_owned();
        let ghost pre = *self;
        let n = self.locker_map.len();
        let mut i: usize = 0;
        while i < n
            invariant
                n == self.locker_map@.len(),
                0 <= i <= n,
                forall|j: int| 0 <= j < i ==> self.locker_map@[j].locker_id@ != locker_id@,
                *self == pre,
                key@ == locker_id@,
            decreases n - i,
        {
            if self.locker_map[i].locker_id == key {
                let mut entry = self.locker_map.remove(i);
                if entry.state.pending_list.len() > 0 {
                    let t = entry.state.pending_list.remove(0);
                    proof {
                        assert(entry.state.pending_list@ =~= pre.locker_map@[i as int]
                            .state.pending_list@.drop_first());
                    }
                    self.locker_map.insert(i, entry);
                    proof {
                        assert(self.locker_map@ =~= pre.locker_map@.update(
                            i as int,
                            self.locker_map@[i as int],
                        ));
                        lemma_locker_after_update(pre, *self, i as int, locker_id@);
                    }
                    return Some(t);
                } else {
                    entry.state.is_locked = false;
                    self.locker_map.insert(i, entry);
                    proof {
                        assert(self.locker_map@ =~= pre.locker_map@.update(
                            i as int,
                            self.locker_map@[i as int],
                        ));
                        lemma_locker_after_update(pre, *self, i as int, locker_id@);
                    }
                    return None;
                }
            }
            i += 1;
        }
        proof {
            assert(false);
        }
        vstd::pervasive::unreached()
    }
}

/// Two entries with the same lock name are the same entry.
proof fn lemma_locker_unique(m: LockerManager, a: int, b: int)
    requires
        m.unique_ids(),
        0 <= a < m.locker_map@.len(),
        0 <= b < m.locker_map@.len(),
        m.locker_map@[a].locker_id@ == m.locker_map@[b].locker_id@,
    ensures
        a == b,
{
    if a < b {
        assert(m.locker_map@[a].locker_id@ != m.locker_map@[b].locker_id@);
    } else if b < a {
        assert(m.locker_map@[b].locker_id@ != m.locker_map@[a].locker_id@);
    }
}

/// After replacing the entry at `i` by one with the same lock name, lookups
/// for that name see the replacement's state and lookups for every other name
/// are unchanged.
proof fn lemma_locker_after_update(pre: LockerManager, post: LockerManager, i: int, id: Seq<char>)
    requires
        pre.unique_ids(),
        0 <= i < pre.locker_map@.len(),
        post.locker_map@ == pre.locker_map@.update(i, post.locker_map@[i]),
        post.locker_map@[i].locker_id@ == id,
        pre.locker_map@[i].locker_id@ == id,
    ensures
        post.unique_ids(),
        pre.known(id),
        post.known(id),
        pre.spec_is_locked(id) == pre.locker_map@[i].state.is_locked,
        pre.pending(id) == pre.locker_map@[i].state.pending_list@,
        post.spec_is_locked(id) == post.locker_map@[i].state.is_locked,
        post.pending(id) == post.locker_map@[i].state.pending_list@,
        forall|n: Seq<char>| n != id ==> #[trigger] post.known(n) == pre.known(n),
        forall|n: Seq<char>|
            n != id ==> #[trigger] post.spec_is_locked(n) == pre.spec_is_locked(n),
        forall|n: Seq<char>| n != id ==> #[trigger] post.pending(n) == pre.pending(n),
{
    assert(post.locker_map@.len() == pre.locker_map@.len());
    assert forall|j: int| 0 <= j < pre.locker_map@.len() implies post.locker_map@[j].locker_id@
        == pre.locker_map@[j].locker_id@ by {}
    let kpre = choose|k: int|
        0 <= k < pre.locker_map@.len() && pre.locker_map@[k].locker_id@ == id;
    lemma_locker_unique(pre, kpre, i);
    let kpost = choose|k: int|
        0 <= k < post.locker_map@.len() && post.locker_map@[k].locker_id@ == id;
    lemma_locker_unique(post, kpost, i);
    assert forall|n: Seq<char>| n != id implies {
        &&& #[trigger] post.known(n) == pre.known(n)
        &&& post.spec_is_locked(n) == pre.spec_is_locked(n)
        &&& post.pending(n) == pre.pending(n)
    } by {
        if exists|k: int| 0 <= k < pre.locker_map@.len() && pre.locker_map@[k].locker_id@ == n {
            let ka = choose|k: int|
                0 <= k < pre.locker_map@.len() && pre.locker_map@[k].locker_id@ == n;
            assert(post.locker_map@[ka].locker_id@ == n);
            let kb = choose|k: int|
                0 <= k < post.locker_map@.len() && post.locker_map@[k].locker_id@ == n;
            lemma_locker_unique(post, ka, kb);
            assert(kb != i);
            assert(post.locker_map@[kb].state == pre.locker_map@[kb].state);
        } else {
            assert(!(exists|k: int|
                0 <= k < post.locker_map@.len() && post.locker_map@[k].locker_id@ == n));
        }
    }
}

/// After appending an entry for a lock name that was absent, that name is
/// known with the new entry's state and every other name is unchanged.
proof fn lemma_locker_after_push(pre: LockerManager, post: LockerManager)
    requires
        pre.unique_ids(),
        forall|j: int|
            0 <= j < pre.locker_map@.len() ==> pre.locker_map@[j].locker_id@
                != post.locker_map@.last().locker_id@,
        post.locker_map@.len() == pre.locker_map@.len() + 1,
        post.locker_map@ == pre.locker_map@.push(post.locker_map@.last()),
    ensures
        post.unique_ids(),
        !pre.known(post.locker_map@.last().locker_id@),
        post.known(post.locker_map@.last().locker_id@),
        post.spec_is_locked(post.locker_map@.last().locker_id@) == post.locker_map@.last()
            .state.is_locked,
        post.pending(post.locker_map@.last().locker_id@) == post.locker_map@.last()
            .state.pending_list@,
        forall|n: Seq<char>|
            n != post.locker_map@.last().locker_id@ ==> #[trigger] post.known(n) == pre.known(n),
        forall|n: Seq<char>|
            n != post.locker_map@.last().locker_id@ ==> #[trigger] post.spec_is_locked(n)
                == pre.spec_is_locked(n),
        forall|n: Seq<char>|
            n != post.locker_map@.last().locker_id@ ==> #[trigger] post.pending(n) == pre.pending(
                n,
            ),
{
    let id = post.locker_map@.last().locker_id@;
    let last = pre.locker_map@.len() as int;
    assert forall|a: int, b: int|
        0 <= a < b < post.locker_map@.len() implies post.locker_map@[a].locker_id@
        != post.locker_map@[b].locker_id@ by {
        if b < last {
            assert(pre.locker_map@[a].locker_id@ != pre.locker_map@[b].locker_id@);
        } else {
            assert(post.locker_map@[b].locker_id@ == id);
            assert(pre.locker_map@[a].locker_id@ != id);
        }
    }
    assert(!(exists|k: int| 0 <= k < pre.locker_map@.len() && pre.locker_map@[k].locker_id@ == id));
    let kpost = choose|k: int|
        0 <= k < post.locker_map@.len() && post.locker_map@[k].locker_id@ == id;
    lemma_locker_unique(post, kpost, last);
    assert forall|n: Seq<char>| n != id implies {
        &&& #[trigger] post.known(n) == pre.known(n)
        &&& post.spec_is_locked(n) == pre.spec_is_locked(n)
        &&& post.pending(n) == pre.pending(n)
    } by {
        if exists|k: int| 0 <= k < pre.locker_map@.len() && pre.locker_map@[k].locker_id@ == n {
            let ka = choose|k: int|
                0 <= k < pre.locker_map@.len() && pre.locker_map@[k].locker_id@ == n;
            assert(post.locker_map@[ka].locker_id@ == n);
            let kb = choose|k: int|
                0 <= k < post.locker_map@.len() && post.locker_map@[k].locker_id@ == n;
            lemma_locker_unique(post, ka, kb);
            assert(kb != last);
            assert(post.locker_map@[kb].state == pre.locker_map@[kb].state);
        } else {
            assert forall|k: int|
                0 <= k < post.locker_map@.len() implies post.locker_map@[k].locker_id@ != n by {
                if k < last {
                    assert(pre.locker_map@[k].locker_id@ != n);
                }
            }
        }
    }
}

/// Handle for a granted named lock: it remembers which name it holds. The
/// embedding runtime constructs it once the manager has granted the name —
/// immediately, or after the enqueued waiter was woken — and hands the name
/// back to [`LockerManager::unlock`] when the handle is retired.
pub struct Locker {
    locker_id: String,
}

impl Locker {
    /// The name of the lock this handle holds.
    pub closed spec fn spec_locker_id(&self) -> Seq<char> {
        self.locker_id@
    }

    /// Wraps a granted lock name in a handle.
    pub fn get_locker(locker_id: String) -> (r: Self)
        ensures
            r.spec_locker_id() == locker_id@,
    {
        Locker { locker_id }
    }

    pub fn locker_id(&self) -> (r: &String)
        ensures
            r@ == self.spec_locker_id(),
    {
        &self.locker_id
    }
}

/// Couples a granted lock handle with a payload value: the payload is
/// accessible while the lock is held, and releasing the guard hands the raw
/// payload back (the embedding runtime then retires the lock handle).
pub struct GuardObject<T> {
    _locker: Locker,
    obj: T,
}

impl<T> GuardObject<T> {
    /// The payload carried while the lock is held.
    pub closed spec fn spec_obj(&self) -> T {
        self.obj
    }

    /// The lock handle this guard couples with its payload.
    pub closed spec fn spec_locker(&self) -> Locker {
        self._locker
    }

    /// Couples `locker` with `obj`.
    pub fn new(locker: Locker, obj: T) -> (r: Self)
        ensures
            r.spec_locker() == locker,
            r.spec_obj() == obj,
    {
        GuardObject { _locker: locker, obj }
    }

    /// Gives the payload back, retiring the guard.
    pub fn release_locker(self) -> (r: T)
        ensures
            r == self.spec_obj(),
    {
        let GuardObject { _locker: _, obj } = self;
        obj
    }

    /// The payload, readable while the guard lives.
    pub fn obj(&self) -> (r: &T)
        ensures
            *r == self.spec_obj(),
    {
        &self.obj
    }
}

/// Law: for one lock name, waiters are granted the lock in strict enqueue
/// order. In a table whose queue for `id` starts with `t1` and then `t2`
/// (`t1` enqueued first), the next unlock wakes `t1`, and the unlock after
/// that — with the queue now starting at `t2` — wakes `t2`. (`unlock` always
/// wakes the queue's first token and drops it from the queue, and the lock
/// stays held across the handoff.)
pub proof fn lemma_grant_order_fifo(
    m: LockerManager,
    id: Seq<char>,
    t1: u64,
    t2: u64,
    rest: Seq<u64>,
)
    requires
        m.pending(id) == seq![t1, t2] + rest,
    ensures
        m.pending(id)[0] == t1,
        m.pending(id).drop_first() == seq![t2] + rest,
        m.pending(id).drop_first()[0] == t2,
        m.pending(id).drop_first().drop_first() == rest,
{
    assert((seq![t1, t2] + rest).drop_first() =~= seq![t2] + rest);
    assert((seq![t2] + rest).drop_first() =~= rest);
}

} // verus!
