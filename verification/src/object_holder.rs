//! Exclusive cell: wraps exactly one value. At most one task holds the value
//! at a time; while it is out, further requesters queue as waiters and the
//! value is handed over directly on release — to the most recently enqueued
//! waiter first.
//!
//! Each pending waiter is named by a token. The embedding runtime parks the
//! requesting task on a notify-future filed under that token; when `release`
//! picks a token, the runtime resolves that future with the value.

use vstd::prelude::*;

verus! {

/// What `get` decided: the value was resting and is handed over at once, or
/// the caller was enqueued and must park on the waiter named by the token.
pub enum GetOutcome<T> {
    Ready(T),
    Wait(u64),
}

/// The exclusive cell: the resting value (if any), the tokens of the pending
/// waiters in enqueue order, and the counter from which the next waiter token
/// is taken.
pub struct ObjectHolder<T> {
    obj: Option<T>,
    waiter_list: Vec<u64>,
    token_seq: u64,
}

impl<T> ObjectHolder<T> {
    /// The resting value, or `None` while a guard is outstanding.
    pub closed spec fn spec_obj(&self) -> Option<T> {
        self.obj
    }

    /// The tokens of the pending waiters, in enqueue order.
    pub closed spec fn waiters(&self) -> Seq<u64> {
        self.waiter_list@
    }

    /// The token the next enqueued waiter will be given.
    pub closed spec fn next_token(&self) -> u64 {
        self.token_seq
    }

    /// Internal well-formedness: a resting value and pending waiters never
    /// coexist — whenever the value rests in the cell, no one is waiting.
    pub closed spec fn wf(&self) -> bool {
        self.obj is Some ==> self.waiter_list@.len() == 0
    }

    /// Every pending token was allocated before the current counter value, so
    /// tokens are pairwise distinct and the next one is fresh.
    pub closed spec fn fresh_tokens(&self) -> bool {
        (forall|m: int|
            0 <= m < self.waiter_list@.len() ==> #[trigger] self.waiter_list@[m] < self.token_seq)
            && (forall|a: int, b: int|
            0 <= a < b < self.waiter_list@.len() ==> self.waiter_list@[a] != self.waiter_list@[b])
    }

    /// Fresh cell: the value rests in it, nobody waits.
    pub fn new(obj: T) -> (r: Self)
        ensures
            r.wf(),
            r.fresh_tokens(),
            r.spec_obj() == Some(obj),
            r.waiters() == Seq::<u64>::empty(),
            r.next_token() == 0,
    {
        ObjectHolder { obj: Some(obj), waiter_list: Vec::new(), token_seq: 0 }
    }

    /// Whether the value is resting in the cell right now.
    pub fn has_object(&self) -> (r: bool)
        ensures
            r == (self.spec_obj() is Some),
    {
        self.obj.is_some()
    }

    /// Requests the value. If it is resting it is taken out and handed over at
    /// once; otherwise the caller is appended to the waiter queue and gets the
    /// token under which it must park.
    pub fn get(&mut self) -> (r: GetOutcome<T>)
        requires
            old(self).wf(),
        ensures
            final(self).wf(),
            (r is Ready) == (old(self).spec_obj() is Some),
            (match r {
                GetOutcome::Ready(v) => {
                    &&& old(self).spec_obj() == Some(v)
                    &&& final(self).spec_obj() is None
                    &&& final(self).waiters() == old(self).waiters()
                    &&& final(self).next_token() == old(self).next_token()
                },
                GetOutcome::Wait(t) => {
                    &&& old(self).spec_obj() is None
                    &&& final(self).spec_obj() is None
                    &&& t == old(self).next_token()
                    &&& final(self).waiters() == old(self).waiters().push(t)
                    &&& old(self).next_token() < u64::MAX ==> final(self).next_token() == old(
                        self).next_token() + 1
                    &&& old(self).next_token() == u64::MAX ==> final(self).next_token() == 0
                },
            }),
            old(self).fresh_tokens() && old(self).next_token() < u64::MAX ==> final(
                self).fresh_tokens(),
    {
        let taken = self.obj.take();
        match taken {
            Some(v) => GetOutcome::Ready(v),
            None => {
                let t = self.token_seq;
                self.token_seq = if t < u64::MAX {
                    t + 1
                } else {
                    0
                };
                self.waiter_list.push(t);
                GetOutcome::Wait(t)
            },
        }
    }

    /// Gives the value back. If anyone is waiting, the value is handed
    /// directly to the most recently enqueued waiter — the returned pair names
    /// that waiter's token and carries the value for it, and the value never
    /// rests in between. Only when nobody waits does the value rest in the
    /// cell again (`None`).
    pub fn release(&mut self, obj: T) -> (r: Option<(u64, T)>)
        requires
            old(self).wf(),
            old(self).spec_obj() is None,
        ensures
            final(self).wf(),
            final(self).next_token() == old(self).next_token(),
            (r is Some) == (old(self).waiters().len() > 0),
            (match r {
                Some(p) => {
                    &&& p.0 == old(self).waiters().last()
                    &&& p.1 == obj
                    &&& final(self).waiters() == old(self).waiters().drop_last()
                    &&& final(self).spec_obj() is None
                },
                None => {
                    &&& final(self).spec_obj() == Some(obj)
                    &&& final(self).waiters() == old(self).waiters()
                },
            }),
            old(self).fresh_tokens() ==> final(self).fresh_tokens(),
    {
        if self.waiter_list.len() > 0 {
            let t = self.waiter_list.pop().unwrap();
            Some((t, obj))
        } else {
            self.obj = Some(obj);
            None
        }
    }
}

/// Law: pending acquirers are woken most-recently-enqueued first. In a cell
/// whose waiter queue ends with `t1` and then `t2` (so `t2` was enqueued
/// last), the next release hands the value to `t2`, and the release after
/// that — with the queue now ending in `t1` — hands it to `t1`. (`release`
/// always wakes the queue's last token and drops it from the queue.)
pub proof fn lemma_release_order_lifo<T>(h: ObjectHolder<T>, rest: Seq<u64>, t1: u64, t2: u64)
    requires
        h.waiters() == rest.push(t1).push(t2),
    ensures
        h.waiters().last() == t2,
        h.waiters().drop_last() == rest.push(t1),
        h.waiters().drop_last().last() == t1,
        h.waiters().drop_last().drop_last() == rest,
{
    assert(rest.push(t1).push(t2).drop_last() =~= rest.push(t1));
    assert(rest.push(t1).drop_last() =~= rest);
}

} // verus!
