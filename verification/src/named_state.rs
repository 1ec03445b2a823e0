//! Registry of named holds: per name, the ids of the holds currently
//! outstanding for it. A name counts as held exactly while at least one hold
//! on it is outstanding.

use vstd::prelude::*;

verus! {

/// One name together with the ids of the holds currently outstanding for it.
struct NameHolds {
    name: String,
    ids: Vec<u64>,
}

/// Record of one hold: the name it claims and the unique id it was given.
/// Releasing the hold means handing `name` and `id` back to
/// [`NamedStateHolder::release_state`]; an embedding runtime typically does
/// that from a scope-exit guard.
pub struct NamedStateGuard {
    name: String,
    id: u64,
}

impl NamedStateGuard {
    /// The name this hold claims.
    pub closed spec fn spec_name(&self) -> Seq<char> {
        self.name@
    }

    /// The id of this hold.
    pub closed spec fn spec_id(&self) -> u64 {
        self.id
    }

    pub fn name(&self) -> (r: &String)
        ensures
            r@ == self.spec_name(),
    {
        &self.name
    }

    pub fn id(&self) -> (r: u64)
        ensures
            r == self.spec_id(),
    {
        self.id
    }
}

/// Tracks, per name, the ordered ids of its outstanding holds, and carries the
/// counter from which the next hold id is taken.
pub struct NamedStateHolder {
    names: Vec<NameHolds>,
    id_seq: u64,
}

/// The hold sequence `ids` after releasing the hold `id`: every occurrence of
/// `id` is removed, all other ids keep their order.
pub open spec fn without_id(ids: Seq<u64>, id: u64) -> Seq<u64> {
    ids.filter(|x: u64| x != id)
}

/// Two entries with the same name are the same entry.
proof fn lemma_wf_unique(h: NamedStateHolder, a: int, b: int)
    requires
        h.wf(),
        0 <= a < h.names@.len(),
        0 <= b < h.names@.len(),
        h.names@[a].name@ == h.names@[b].name@,
    ensures
        a == b,
{
    if a < b {
        assert(h.names@[a].name@ != h.names@[b].name@);
    } else if b < a {
        assert(h.names@[b].name@ != h.names@[a].name@);
    }
}

/// After replacing the entry at `i` by one with the same name, lookups for
/// that name see the replacement's ids and lookups for every other name are
/// unchanged.
proof fn lemma_lookup_after_update(
    pre: NamedStateHolder,
    post: NamedStateHolder,
    i: int,
    name: Seq<char>,
)
    requires
        pre.wf(),
        0 <= i < pre.names@.len(),
        post.names@ == pre.names@.update(i, post.names@[i]),
        post.names@[i].name@ == name,
        pre.names@[i].name@ == name,
    ensures
        post.wf(),
        pre.ids_for(name) == pre.names@[i].ids@,
        post.ids_for(name) == post.names@[i].ids@,
        forall|n: Seq<char>| n != name ==> #[trigger] post.ids_for(n) == pre.ids_for(n),
{
    assert(post.names@.len() == pre.names@.len());
    assert forall|j: int| 0 <= j < pre.names@.len() implies post.names@[j].name@
        == pre.names@[j].name@ by {}
    assert(post.wf());
    let kpre = choose|k: int| 0 <= k < pre.names@.len() && pre.names@[k].name@ == name;
    lemma_wf_unique(pre, kpre, i);
    let kpost = choose|k: int| 0 <= k < post.names@.len() && post.names@[k].name@ == name;
    lemma_wf_unique(post, kpost, i);
    assert forall|n: Seq<char>| n != name implies #[trigger] post.ids_for(n) == pre.ids_for(
        n,
    ) by {
        if exists|k: int| 0 <= k < pre.names@.len() && pre.names@[k].name@ == n {
            let ka = choose|k: int| 0 <= k < pre.names@.len() && pre.names@[k].name@ == n;
            assert(post.names@[ka].name@ == n);
            let kb = choose|k: int| 0 <= k < post.names@.len() && post.names@[k].name@ == n;
            lemma_wf_unique(post, ka, kb);
            assert(kb != i);
            assert(post.names@[kb].ids@ == pre.names@[kb].ids@);
        } else {
            assert(!(exists|k: int| 0 <= k < post.names@.len() && post.names@[k].name@ == n));
        }
    }
}

/// After appending an entry for a name that was absent, lookups for that name
/// see the new entry's ids and lookups for every other name are unchanged.
proof fn lemma_lookup_after_push(
    pre: NamedStateHolder,
    post: NamedStateHolder,
    name: Seq<char>,
    id: u64,
)
    requires
        pre.wf(),
        forall|j: int| 0 <= j < pre.names@.len() ==> pre.names@[j].name@ != name,
        post.names@.len() == pre.names@.len() + 1,
        post.names@ == pre.names@.push(post.names@.last()),
        post.names@.last().name@ == name,
        post.names@.last().ids@ == seq![id],
    ensures
        post.wf(),
        pre.ids_for(name) == Seq::<u64>::empty(),
        post.ids_for(name) == pre.ids_for(name).push(id),
        forall|n: Seq<char>| n != name ==> #[trigger] post.ids_for(n) == pre.ids_for(n),
{
    let last = pre.names@.len() as int;
    assert forall|a: int, b: int|
        0 <= a < b < post.names@.len() implies post.names@[a].name@ != post.names@[b].name@ by {
        if b < last {
            assert(pre.names@[a].name@ != pre.names@[b].name@);
        } else {
            assert(post.names@[b].name@ == name);
            assert(pre.names@[a].name@ != name);
        }
    }
    assert(!(exists|k: int| 0 <= k < pre.names@.len() && pre.names@[k].name@ == name));
    let kpost = choose|k: int| 0 <= k < post.names@.len() && post.names@[k].name@ == name;
    lemma_wf_unique(post, kpost, last);
    assert(post.ids_for(name) == seq![id]);
    assert(Seq::<u64>::empty().push(id) =~= seq![id]);
    assert forall|n: Seq<char>| n != name implies #[trigger] post.ids_for(n) == pre.ids_for(
        n,
    ) by {
        if exists|k: int| 0 <= k < pre.names@.len() && pre.names@[k].name@ == n {
            let ka = choose|k: int| 0 <= k < pre.names@.len() && pre.names@[k].name@ == n;
            assert(post.names@[ka].name@ == n);
            let kb = choose|k: int| 0 <= k < post.names@.len() && post.names@[k].name@ == n;
            lemma_wf_unique(post, ka, kb);
            assert(kb != last);
            assert(post.names@[kb].ids@ == pre.names@[kb].ids@);
        } else {
            assert forall|k: int| 0 <= k < post.names@.len() implies post.names@[k].name@ != n by {
                if k < last {
                    assert(pre.names@[k].name@ != n);
                }
            }
        }
    }
}

/// Relies on std::time::SystemTime::now for the wall clock, read as whole
/// milliseconds since the Unix epoch (zero if the clock is before the epoch).
/// Nothing is promised of the value: callers treat it as an arbitrary seed.
#[verifier::external_body]
fn now_millis() -> u64 {
    std::time::SystemTime::now()
        .duration_since(std::time::UNIX_EPOCH)
        .map(|d| d.as_millis() as u64)
        .unwrap_or(0)
}

impl NamedStateHolder {
    /// The ids of the holds currently outstanding for `name`, in the order the
    /// holds were created; empty when the name is unknown.
    pub closed spec fn ids_for(&self, name: Seq<char>) -> Seq<u64> {
        if exists|i: int| 0 <= i < self.names@.len() && self.names@[i].name@ == name {
            let i = choose|i: int| 0 <= i < self.names@.len() && self.names@[i].name@ == name;
            self.names@[i].ids@
        } else {
            Seq::<u64>::empty()
        }
    }

    /// The id the next hold will be given.
    pub closed spec fn next_id(&self) -> u64 {
        self.id_seq
    }

    /// Internal well-formedness: each name occurs at most once in the table.
    pub closed spec fn wf(&self) -> bool {
        forall|i: int, j: int|
            0 <= i < j < self.names@.len() ==> self.names@[i].name@ != self.names@[j].name@
    }

    /// Every outstanding hold id was allocated before the current counter
    /// value, so the next id is fresh.
    pub closed spec fn fresh_ids(&self) -> bool {
        forall|i: int, k: int|
            0 <= i < self.names@.len() && 0 <= k < self.names@[i].ids@.len()
                ==> #[trigger] self.names@[i].ids@[k] < self.id_seq
    }

    /// A name is held exactly while some hold on it is outstanding.
    pub open spec fn spec_has_state(&self, name: Seq<char>) -> bool {
        self.ids_for(name).len() > 0
    }

    /// Fresh registry: nothing is held; the id counter is seeded from the wall
    /// clock so that ids are unlikely to repeat across process restarts. The
    /// seed is kept in the lower half of the id space, leaving the counter
    /// ample headroom before it would wrap.
    pub fn new() -> (r: Self)
        ensures
            r.wf(),
            r.fresh_ids(),
            r.next_id() < 0x8000_0000_0000_0000u64,
            forall|n: Seq<char>| #[trigger] r.ids_for(n) == Seq::<u64>::empty(),
            forall|n: Seq<char>| !#[trigger] r.spec_has_state(n),
    {
        let t = now_millis();
        let r = NamedStateHolder { names: Vec::new(), id_seq: t % 0x8000_0000_0000_0000u64 };
        proof {
            assert forall|n: Seq<char>| #[trigger] r.ids_for(n) == Seq::<u64>::empty() by {
                assert(r.names@.len() == 0);
            }
        }
        r
    }

    /// Begins a hold on `name`: allocates the next id, appends it to the
    /// name's hold sequence (creating the entry if the name is new), and
    /// returns the record of the hold. Other names are untouched.
    #[verifier::loop_isolation(false)]
    pub fn new_state(&mut self, name: String) -> (r: NamedStateGuard)
        requires
            old(self).wf(),
        ensures
            final(self).wf(),
            r.spec_name() == name@,
            r.spec_id() == old(self).next_id(),
            final(self).ids_for(name@) == old(self).ids_for(name@).push(r.spec_id()),
            forall|n: Seq<char>|
                n != name@ ==> #[trigger] final(self).ids_for(n) == old(self).ids_for(n),
            old(self).next_id() < u64::MAX ==> final(self).next_id() == old(self).next_id() + 1,
            old(self).next_id() == u64::MAX ==> final(self).next_id() == 0,
            old(self).fresh_ids() ==> !old(self).ids_for(name@).contains(r.spec_id()),
            old(self).fresh_ids() && old(self).next_id() < u64::MAX ==> final(self).fresh_ids(),
    {
        let id = self.id_seq;
        self.id_seq = if id < u64::MAX {
            id + 1
        } else {
            0
        };
        let ghost pre = *self;
        let n = self.names.len();
        let mut i: usize = 0;
        while i < n
            invariant
                n == self.names@.len(),
                0 <= i <= n,
                forall|j: int| 0 <= j < i ==> self.names@[j].name@ != name@,
                *self == pre,
            decreases n - i,
        {
            if self.names[i].name == name {
                let mut entry = self.names.remove(i);
                entry.ids.push(id);
                self.names.insert(i, entry);
                proof {
                    assert(self.names@ =~= pre.names@.update(i as int, self.names@[i as int]));
                    assert(self.names@[i as int].ids@ =~= pre.names@[i as int].ids@.push(id));
                    lemma_lookup_after_update(pre, *self, i as int, name@);
                }
                return NamedStateGuard { name, id };
            }
            i += 1;
        }
        let mut ids: Vec<u64> = Vec::new();
        ids.push(id);
        self.names.push(NameHolds { name: name.clone(), ids });
        proof {
            lemma_lookup_after_push(pre, *self, name@, id);
        }
        NamedStateGuard { name, id }
    }

    /// Ends the hold with `id` on `name`: every occurrence of `id` in the
    /// name's hold sequence is removed. Other ids and other names are
    /// untouched; an unknown name is left as it is.
    #[verifier::loop_isolation(false)]
    pub fn release_state(&mut self, name: String, id: u64)
        requires
            old(self).wf(),
        ensures
            final(self).wf(),
            final(self).next_id() == old(self).next_id(),
            final(self).ids_for(name@) == without_id(old(self).ids_for(name@), id),
            forall|n: Seq<char>|
                n != name@ ==> #[trigger] final(self).ids_for(n) == old(self).ids_for(n),
            old(self).fresh_ids() ==> final(self).fresh_ids(),
    {
        let ghost pre = *self;
        let n = self.names.len();
        let mut i: usize = 0;
        while i < n
            invariant
                n == self.names@.len(),
                0 <= i <= n,
                forall|j: int| 0 <= j < i ==> self.names@[j].name@ != name@,
                *self == pre,
            decreases n - i,
        {
            if self.names[i].name == name {
                let mut entry = self.names.remove(i);
                let ghost orig_ids = entry.ids@;
                let len = entry.ids.len();
                let mut kept: Vec<u64> = Vec::new();
                let mut k: usize = 0;
                while k < len
                    invariant
                        len == entry.ids@.len(),
                        entry.ids@ == orig_ids,
                        0 <= k <= len,
                        kept@ == without_id(orig_ids.take(k as int), id),
                        forall|m: int| 0 <= m < kept@.len() ==> orig_ids.contains(#[trigger] kept@[m]),
                    decreases len - k,
                {
                    proof {
                        broadcast use Seq::lemma_filter_push;

                        assert(entry.ids@.take(k as int + 1) =~= entry.ids@.take(k as int).push(
                            entry.ids@[k as int],
                        ));
                    }
                    let x = entry.ids[k];
                    if x != id {
                        kept.push(x);
                    }
                    k += 1;
                }
                proof {
                    assert(orig_ids.take(len as int) =~= orig_ids);
                }
                entry.ids = kept;
                self.names.insert(i, entry);
                proof {
                    assert(self.names@ =~= pre.names@.update(i as int, self.names@[i as int]));
                    lemma_lookup_after_update(pre, *self, i as int, name@);
                    if old(self).fresh_ids() {
                        assert forall|a: int, c: int|
                            0 <= a < self.names@.len() && 0 <= c < self.names@[a].ids@.len()
                            implies #[trigger] self.names@[a].ids@[c] < self.id_seq by {
                            if a == i as int {
                                let v = self.names@[a].ids@[c];
                                assert(orig_ids.contains(v));
                                let j = choose|j: int|
                                    0 <= j < orig_ids.len() && orig_ids[j] == v;
                                assert(old(self).names@[a].ids@[j] == v);
                            } else {
                                assert(self.names@[a] == old(self).names@[a]);
                            }
                        }
                    }
                }
                return ;
            }
            i += 1;
        }
        proof {
            assert(pre.ids_for(name@) == Seq::<u64>::empty());
            assert(without_id(Seq::<u64>::empty(), id) =~= Seq::<u64>::empty());
        }
    }

    /// Whether `name` is currently held by anyone; false for unknown names.
    #[verifier::loop_isolation(false)]
    pub fn has_state(&self, name: String) -> (r: bool)
        requires
            self.wf(),
        ensures
            r == self.spec_has_state(name@),
    {
        let n = self.names.len();
        let mut i: usize = 0;
        while i < n
            invariant
                n == self.names@.len(),
                0 <= i <= n,
                forall|j: int| 0 <= j < i ==> self.names@[j].name@ != name@,
                self.wf(),
            decreases n - i,
        {
            if self.names[i].name == name {
                return self.names[i].ids.len() > 0;
            }
            i += 1;
        }
        proof {
            assert(!(exists|k: int| 0 <= k < self.names@.len() && self.names@[k].name@ == name@));
        }
        false
    }
}

/// Law: a name with no outstanding holds is not held; beginning a hold makes
/// it held; it stays held while any hold is outstanding; and once every
/// outstanding hold has been released — in either order — it is no longer
/// held. (`push` is what beginning a hold does to the name's hold sequence and
/// `without_id` what releasing one does, and every other name's sequence is
/// left unchanged by both, so this covers the whole lifecycle of a name.)
pub proof fn lemma_hold_lifecycle(ids: Seq<u64>, id1: u64, id2: u64)
    requires
        ids.len() == 0,
        id1 != id2,
    ensures
        ids.push(id1).len() > 0,
        without_id(ids.push(id1), id1).len() == 0,
        without_id(ids.push(id1).push(id2), id1).len() > 0,
        without_id(ids.push(id1).push(id2), id2).len() > 0,
        without_id(without_id(ids.push(id1).push(id2), id1), id2).len() == 0,
        without_id(without_id(ids.push(id1).push(id2), id2), id1).len() == 0,
{
    broadcast use Seq::lemma_filter_push;

    assert(ids =~= Seq::<u64>::empty());
    assert(without_id(ids, id1) =~= Seq::<u64>::empty());
    assert(without_id(ids, id2) =~= Seq::<u64>::empty());
    assert(without_id(ids.push(id1).push(id2), id1) =~= Seq::<u64>::empty().push(id2));
    assert(without_id(ids.push(id1).push(id2), id2) =~= Seq::<u64>::empty().push(id1));
}

} // verus!
