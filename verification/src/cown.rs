//! Concurrent owners ("cowns"): reference-counted handles to values that can
//! only be touched by code holding an exclusive grant.
//!
//! A `CownTable` models the engine-side bookkeeping for a family of cowns of
//! one value type: for each cown it tracks the outstanding user handles, the
//! behaviors (scheduled `when` clauses) that reference it, which behavior (if
//! any) currently holds it exclusively, and whether its destructor has run.
//! The destructor — the type-erased trampoline of the design — is modelled by
//! dropping the value slot in place; `destructor_runs` counts how often that
//! happened, and the invariant `wf` pins it to at most once, only after every
//! handle and every behavior reference is gone.
//!
//! Each public operation is one atomic step; a concurrent history is any
//! interleaving of such steps, so the invariants hold for every interleaving.

use vstd::prelude::*;

verus! {

/// Engine-side bookkeeping for one cown slot.
#[derive(Clone, Copy)]
pub struct CownMeta {
    /// Outstanding user handles (`Cown` values) for this slot.
    pub handles: usize,
    /// Pending or granted behaviors whose target set names this slot.
    pub guards: usize,
    /// The behavior currently holding exclusive access, if any.
    pub holder: Option<usize>,
    /// How many times the destructor trampoline has fired for this slot.
    pub destructor_runs: usize,
}

/// Lifecycle of a scheduled `when` clause.
#[derive(Clone, Copy, PartialEq, Eq, Structural, Debug)]
pub enum CallState {
    /// Queued; waiting for its targets to be simultaneously free.
    Pending,
    /// Holding exclusive access to all its targets.
    Granted,
    /// Released; its callback body has finished.
    Done,
}

/// A scheduled `when` clause: an all-or-nothing request for exclusive access
/// to a set of cowns, recorded in the canonical acquisition order.
pub struct CownCallback {
    /// Requested cown identities, strictly increasing (the fixed total order
    /// that makes overlapping requests deadlock-free).
    pub targets: Vec<usize>,
    pub state: CallState,
}

/// A reference-counted handle to one cown. Handles are deliberately not
/// `Clone`: duplicating one goes through `CownTable::clone_cown`, which
/// adjusts the reference count, and dropping one goes through
/// `CownTable::drop_cown`, which consumes it.
pub struct Cown<T> {
    id: usize,
    marker: core::marker::PhantomData<T>,
}

impl<T> Cown<T> {
    /// The cown's identity: its creation sequence number, which doubles as
    /// its key in the total acquisition order.
    pub closed spec fn view(&self) -> int {
        self.id as int
    }

    /// The identity as a plain index into the table that issued the handle.
    pub fn id(&self) -> (r: usize)
        ensures
            r as int == self@,
    {
        self.id
    }
}

/// The cown registry for one value type: value slots, per-slot bookkeeping,
/// and the queue of scheduled `when` clauses.
pub struct CownTable<T> {
    values: Vec<Option<T>>,
    meta: Vec<CownMeta>,
    queue: Vec<CownCallback>,
}

proof fn lemma_guard_refs_no_target(q: Seq<CownCallback>, i: int)
    requires
        forall|b: int| 0 <= b < q.len() ==> !has_target(q[b], i),
    ensures
        guard_refs(q, i) == 0,
    decreases q.len(),
{
    if q.len() > 0 {
        assert(forall|b: int| 0 <= b < q.drop_last().len() ==> q.drop_last()[b] == q[b]);
        lemma_guard_refs_no_target(q.drop_last(), i);
        assert(!has_target(q[q.len() - 1], i));
    }
}

proof fn lemma_guard_refs_push(q: Seq<CownCallback>, c: CownCallback, i: int)
    ensures
        guard_refs(q.push(c), i) == guard_refs(q, i) + guard_share(c, i),
{
    assert(q.push(c).drop_last() =~= q);
    assert(q.push(c).last() == c);
}

proof fn lemma_guard_refs_update(q: Seq<CownCallback>, b: int, c: CownCallback, i: int)
    requires
        0 <= b < q.len(),
    ensures
        guard_refs(q.update(b, c), i) + guard_share(q[b], i) == guard_refs(q, i) + guard_share(c, i),
    decreases q.len(),
{
    let q2 = q.update(b, c);
    if b == q.len() - 1 {
        assert(q2.drop_last() =~= q.drop_last());
        assert(q2.last() == c);
    } else {
        assert(q2.drop_last() =~= q.drop_last().update(b, c));
        assert(q2.last() == q.last());
        lemma_guard_refs_update(q.drop_last(), b, c, i);
    }
}

proof fn lemma_guard_refs_lower(q: Seq<CownCallback>, b: int, i: int)
    requires
        0 <= b < q.len(),
    ensures
        guard_refs(q, i) >= guard_share(q[b], i),
    decreases q.len(),
{
    if b == q.len() - 1 {
        assert(q.last() == q[b]);
    } else {
        lemma_guard_refs_lower(q.drop_last(), b, i);
        assert(q.drop_last()[b] == q[b]);
    }
}

/// Whether a behavior still counts as a reference to its targets.
pub open spec fn call_active(c: CownCallback) -> bool {
    c.state is Pending || c.state is Granted
}

/// Whether `y` occurs in `s`.
pub open spec fn seq_has(s: Seq<usize>, y: int) -> bool {
    exists|k: int| 0 <= k < s.len() && s[k] == y
}

/// Whether `s` is strictly increasing.
pub open spec fn strictly_sorted(s: Seq<usize>) -> bool {
    forall|k1: int, k2: int| 0 <= k1 < k2 < s.len() ==> s[k1] < s[k2]
}

/// Whether slot `i` is in the target set of `c`.
pub open spec fn has_target(c: CownCallback, i: int) -> bool {
    seq_has(c.targets@, i)
}

/// Whether some handle in `hs` names cown `i`.
pub open spec fn names_id<T>(hs: Seq<&Cown<T>>, i: int) -> bool {
    exists|k: int| 0 <= k < hs.len() && hs[k]@ == i
}

/// Two strictly increasing sequences with the same members are the same
/// sequence: the canonical acquisition order is determined by the target
/// set alone.
pub proof fn lemma_sorted_same_members_equal(s1: Seq<usize>, s2: Seq<usize>)
    requires
        strictly_sorted(s1),
        strictly_sorted(s2),
        forall|y: int| seq_has(s1, y) <==> seq_has(s2, y),
    ensures
        s1 == s2,
    decreases s1.len(),
{
    if s1.len() == 0 {
        if s2.len() > 0 {
            assert(seq_has(s2, s2[0] as int));
            assert(seq_has(s1, s2[0] as int));
        }
        assert(s1 =~= s2);
    } else {
        assert(seq_has(s1, s1.last() as int));
        assert(seq_has(s2, s2.last() as int));
        let j1 = choose|k: int| 0 <= k < s2.len() && s2[k] == s1.last();
        let j2 = choose|k: int| 0 <= k < s1.len() && s1[k] == s2.last();
        assert(s2[j1] <= s2.last());
        assert(s1[j2] <= s1.last());
        assert(s1.last() == s2.last());
        assert forall|y: int| seq_has(s1.drop_last(), y) <==> seq_has(
            s2.drop_last(),
            y,
        ) by {
            if seq_has(s1.drop_last(), y) {
                let k = choose|k: int| 0 <= k < s1.drop_last().len() && s1.drop_last()[k] == y;
                assert(s1[k] == y);
                assert(y < s1.last());
                assert(seq_has(s2, y));
                let k2 = choose|k2: int| 0 <= k2 < s2.len() && s2[k2] == y;
                assert(k2 < s2.len() - 1);
                assert(s2.drop_last()[k2] == y);
            }
            if seq_has(s2.drop_last(), y) {
                let k = choose|k: int| 0 <= k < s2.drop_last().len() && s2.drop_last()[k] == y;
                assert(s2[k] == y);
                assert(y < s2.last());
                assert(seq_has(s1, y));
                let k2 = choose|k2: int| 0 <= k2 < s1.len() && s1[k2] == y;
                assert(k2 < s1.len() - 1);
                assert(s1.drop_last()[k2] == y);
            }
        }
        lemma_sorted_same_members_equal(s1.drop_last(), s2.drop_last());
        let d1 = s1.drop_last();
        let d2 = s2.drop_last();
        assert(s1.len() == s2.len());
        assert forall|j: int| 0 <= j < s1.len() implies s1[j] == s2[j] by {
            if j < s1.len() - 1 {
                assert(d1[j] == s1[j]);
                assert(d2[j] == s2[j]);
            }
        }
        assert(s1 =~= s2);
    }
}

/// Insert `x` into the strictly increasing `v`, keeping it strictly
/// increasing; a duplicate is dropped.
fn sorted_insert(v: &mut Vec<usize>, x: usize)
    requires
        strictly_sorted(old(v)@),
        old(v)@.len() < usize::MAX,
    ensures
        strictly_sorted(final(v)@),
        forall|y: int| seq_has(final(v)@, y) <==> seq_has(old(v)@, y) || y == x,
        final(v)@.len() <= old(v)@.len() + 1,
{
    let n = v.len();
    let mut k: usize = 0;
    while k < n && v[k] < x
        invariant
            0 <= k <= n,
            n == v.len(),
            strictly_sorted(v@),
            forall|j: int| 0 <= j < k ==> v@[j] < x,
        decreases n - k,
    {
        k = k + 1;
    }
    if k < n && v[k] == x {
        proof {
            assert(seq_has(v@, x as int));
        }
    } else {
        v.insert(k, x);
        proof {
            let s0 = old(v)@;
            let s1 = v@;
            let ki = k as int;
            assert forall|a: int, b: int| 0 <= a < b < s1.len() implies s1[a] < s1[b] by {
                if b < ki {
                    assert(s1[a] == s0[a] && s1[b] == s0[b]);
                } else if b == ki {
                    assert(s1[a] == s0[a] && s0[a] < x);
                } else {
                    // here b > ki, so s1[b] == s0[b - 1] and ki < s0.len()
                    assert(s1[b] == s0[b - 1] && ki <= b - 1 < s0.len());
                    assert(s0[ki] > x);
                    assert(s0[b - 1] >= s0[ki]);
                    if a == ki {
                        assert(s1[a] == x);
                    } else if a < ki {
                        assert(s1[a] == s0[a] && s0[a] < x);
                    } else {
                        assert(s1[a] == s0[a - 1] && s0[a - 1] < s0[b - 1]);
                    }
                }
            }
            assert forall|y: int| seq_has(s1, y) implies seq_has(s0, y) || y == x by {
                let j = choose|j: int| 0 <= j < s1.len() && s1[j] == y;
                if j < k {
                    assert(s0[j] == y);
                } else if j > k {
                    assert(s0[j - 1] == y);
                }
            }
            assert forall|y: int| seq_has(s0, y) || y == x implies seq_has(s1, y) by {
                if y == x {
                    assert(s1[k as int] == x);
                } else if seq_has(s0, y) {
                    let j = choose|j: int| 0 <= j < s0.len() && s0[j] == y;
                    if j < k {
                        assert(s1[j] == y);
                    } else {
                        assert(s1[j + 1] == y);
                    }
                }
            }
        }
    }
}

/// This behavior's contribution to the reference count of slot `i`.
pub open spec fn guard_share(c: CownCallback, i: int) -> nat {
    if call_active(c) && has_target(c, i) {
        1nat
    } else {
        0nat
    }
}

/// How many active behaviors in `q` reference slot `i`.
pub open spec fn guard_refs(q: Seq<CownCallback>, i: int) -> nat
    decreases q.len(),
{
    if q.len() <= 0 {
        0nat
    } else {
        guard_refs(q.drop_last(), i) + guard_share(q.last(), i)
    }
}

impl<T> CownTable<T> {
    // ---- spec-level observables ----

    pub closed spec fn metas(self) -> Seq<CownMeta> {
        self.meta@
    }

    pub closed spec fn vals(self) -> Seq<Option<T>> {
        self.values@
    }

    pub closed spec fn calls(self) -> Seq<CownCallback> {
        self.queue@
    }

    /// Number of cown slots ever created.
    pub open spec fn len(self) -> nat {
        self.metas().len()
    }

    pub open spec fn handles(self, i: int) -> nat {
        self.metas()[i].handles as nat
    }

    pub open spec fn guards(self, i: int) -> nat {
        self.metas()[i].guards as nat
    }

    pub open spec fn holder(self, i: int) -> Option<usize> {
        self.metas()[i].holder
    }

    pub open spec fn runs(self, i: int) -> nat {
        self.metas()[i].destructor_runs as nat
    }

    /// Whether the value is still present (its destructor has not fired).
    pub open spec fn live(self, i: int) -> bool {
        self.vals()[i] is Some
    }

    pub open spec fn value(self, i: int) -> T
        recommends
            self.live(i),
    {
        self.vals()[i]->0
    }

    pub open spec fn n_calls(self) -> nat {
        self.calls().len()
    }

    pub open spec fn target_seq(self, b: int) -> Seq<usize> {
        self.calls()[b].targets@
    }

    pub open spec fn pending(self, b: int) -> bool {
        self.calls()[b].state is Pending
    }

    pub open spec fn granted(self, b: int) -> bool {
        self.calls()[b].state is Granted
    }

    pub open spec fn done(self, b: int) -> bool {
        self.calls()[b].state is Done
    }

    /// All of `b`'s targets are free: nothing holds them exclusively.
    pub open spec fn grantable(self, b: int) -> bool {
        forall|k: int|
            0 <= k < self.target_seq(b).len() ==> self.holder(
                self.target_seq(b)[k] as int,
            ) is None
    }

    /// Structural sanity of one queue entry: targets strictly increasing
    /// (the canonical acquisition order) and in range.
    pub open spec fn call_wf(self, b: int) -> bool {
        &&& forall|k1: int, k2: int|
            0 <= k1 < k2 < self.target_seq(b).len() ==> self.target_seq(b)[k1]
                < self.target_seq(b)[k2]
        &&& forall|k: int| 0 <= k < self.target_seq(b).len() ==> (self.target_seq(b)[k] as int)
            < self.len()
    }

    /// Per-slot invariant: the destructor fires at most once, exactly when
    /// the value goes away; a destroyed slot is referenced and held by
    /// nothing; a live slot is kept alive by at least one handle or behavior;
    /// the guard count is exactly the number of active behaviors naming the
    /// slot; and an exclusive holder is a granted behavior targeting it.
    pub open spec fn slot_inv(self, i: int) -> bool {
        &&& self.runs(i) <= 1
        &&& (!self.live(i) <==> self.runs(i) == 1)
        &&& (!self.live(i) ==> self.handles(i) == 0 && self.guards(i) == 0 && self.holder(
            i,
        ) is None)
        &&& (self.live(i) ==> self.handles(i) + self.guards(i) >= 1)
        &&& self.guards(i) == guard_refs(self.calls(), i)
        &&& (self.holder(i) is Some ==> 0 <= self.holder(i)->0 < self.n_calls() && self.granted(
            self.holder(i)->0 as int,
        ) && has_target(self.calls()[self.holder(i)->0 as int], i))
    }

    /// Per-behavior invariant: targets are canonical and in range, and a
    /// granted behavior holds every one of its targets.
    pub open spec fn call_inv(self, b: int) -> bool {
        &&& self.call_wf(b)
        &&& (self.granted(b) ==> forall|k: int|
            0 <= k < self.target_seq(b).len() ==> (#[trigger] self.holder(
                self.target_seq(b)[k] as int,
            )) is Some && self.holder(self.target_seq(b)[k] as int)->0 == b)
    }

    /// A queue entry keeps its invariant across a step that leaves the entry
    /// itself and every exclusive holder unchanged.
    proof fn lemma_call_inv_preserved(pre: Self, post: Self, b2: int)
        requires
            0 <= b2 < post.n_calls(),
            b2 < pre.n_calls(),
            pre.call_inv(b2),
            post.calls()[b2] == pre.calls()[b2],
            pre.len() <= post.len(),
            forall|i: int| 0 <= i < pre.len() ==> post.holder(i) == pre.holder(i),
        ensures
            post.call_inv(b2),
    {
        if post.granted(b2) {
            assert forall|k: int| 0 <= k < post.target_seq(b2).len() implies (
            #[trigger] post.holder(post.target_seq(b2)[k] as int)) is Some && post.holder(
                post.target_seq(b2)[k] as int,
            )->0 == b2 by {
                let t = pre.target_seq(b2)[k] as int;
                assert(pre.holder(t) is Some && pre.holder(t)->0 == b2);
                assert(post.holder(t) == pre.holder(t));
            }
        }
    }

    /// The invariant every operation preserves.
    pub open spec fn wf(self) -> bool {
        &&& self.vals().len() == self.len()
        &&& forall|i: int| 0 <= i < self.len() ==> #[trigger] self.slot_inv(i)
        &&& forall|b: int| 0 <= b < self.n_calls() ==> #[trigger] self.call_inv(b)
    }

    // ---- construction and the handle lifecycle ----

    /// An empty registry: no cowns, no scheduled behaviors.
    pub fn new() -> (t: Self)
        ensures
            t.wf(),
            t.len() == 0,
            t.n_calls() == 0,
    {
        CownTable { values: Vec::new(), meta: Vec::new(), queue: Vec::new() }
    }

    /// Atomically add one handle to an existing cown.
    pub fn clone_cown(&mut self, h: &Cown<T>) -> (h2: Cown<T>)
        requires
            old(self).wf(),
            0 <= h@ < old(self).len(),
            old(self).handles(h@) >= 1,
            old(self).handles(h@) < usize::MAX,
        ensures
            final(self).wf(),
            h2@ == h@,
            final(self).metas() == old(self).metas().update(
                h@,
                (CownMeta { handles: (old(self).handles(h@) + 1) as usize, ..old(self).metas()[h@] }),
            ),
            final(self).vals() == old(self).vals(),
            final(self).calls() == old(self).calls(),
    {
        let i = h.id();
        let mut m = self.meta[i];
        m.handles = m.handles + 1;
        self.meta.set(i, m);
        proof {
            assert forall|j: int| 0 <= j < self.len() implies self.slot_inv(j) by {
                assert(old(self).slot_inv(j));
            }
            assert forall|b: int| 0 <= b < self.n_calls() implies self.call_inv(b) by {
                assert(old(self).call_inv(b));
                Self::lemma_call_inv_preserved(*old(self), *self, b);
            }
        }
        Cown { id: i, marker: core::marker::PhantomData }
    }

    /// Give up one handle. When the last handle goes and no behavior
    /// references the cown, the destructor fires here, exactly once;
    /// if behaviors still reference it, destruction is deferred to the
    /// release of the last of them.
    pub fn drop_cown(&mut self, h: Cown<T>)
        requires
            old(self).wf(),
            0 <= h@ < old(self).len(),
            old(self).handles(h@) >= 1,
        ensures
            final(self).wf(),
            final(self).len() == old(self).len(),
            final(self).calls() == old(self).calls(),
            final(self).handles(h@) == old(self).handles(h@) - 1,
            final(self).guards(h@) == old(self).guards(h@),
            final(self).holder(h@) == old(self).holder(h@),
            // every other slot is untouched
            forall|i: int|
                0 <= i < old(self).len() && i != h@ ==> final(self).metas()[i] == old(self).metas()[i]
                    && final(self).vals()[i] == old(self).vals()[i],
            // the destructor fires now iff this was the last reference
            if old(self).handles(h@) == 1 && old(self).guards(h@) == 0 {
                &&& !final(self).live(h@)
                &&& final(self).runs(h@) == 1
                &&& final(self).vals() == old(self).vals().update(h@, None::<T>)
            } else {
                &&& final(self).live(h@) == old(self).live(h@)
                &&& final(self).runs(h@) == old(self).runs(h@)
                &&& final(self).vals() == old(self).vals()
            },
    {
        let i = h.id();
        let mut m = self.meta[i];
        m.handles = m.handles - 1;
        if m.handles == 0 && m.guards == 0 {
            proof {
                // nothing can hold a slot whose guard count is zero
                assert(old(self).slot_inv(i as int));
                let h0 = old(self).holder(i as int);
                if h0 is Some {
                    lemma_guard_refs_lower(old(self).calls(), h0->0 as int, i as int);
                }
            }
            m.destructor_runs = m.destructor_runs + 1;
            self.meta.set(i, m);
            self.values.set(i, None);
        } else {
            self.meta.set(i, m);
        }
        proof {
            assert forall|j: int| 0 <= j < self.len() implies self.slot_inv(j) by {
                assert(old(self).slot_inv(j));
            }
            assert forall|b: int| 0 <= b < self.n_calls() implies self.call_inv(b) by {
                assert(old(self).call_inv(b));
                Self::lemma_call_inv_preserved(*old(self), *self, b);
            }
        }
    }

    // ---- scheduling behaviors ----

    /// Schedule a behavior requesting exclusive access to every cown named
    /// in `hs`, atomically and all-or-nothing. The target set is recorded in
    /// the canonical acquisition order — strictly increasing cown identity —
    /// so any two requests over the same cowns acquire in the same order,
    /// whatever order they were written in.
    pub fn when_all(&mut self, hs: Vec<&Cown<T>>) -> (b: usize)
        requires
            old(self).wf(),
            old(self).n_calls() < usize::MAX,
            hs@.len() < usize::MAX,
            forall|k: int| 0 <= k < hs@.len() ==> 0 <= #[trigger] hs@[k]@ < old(self).len(),
            forall|k: int| 0 <= k < hs@.len() ==> old(self).handles(#[trigger] hs@[k]@) >= 1,
            forall|k: int| 0 <= k < hs@.len() ==> old(self).guards(#[trigger] hs@[k]@) < usize::MAX,
        ensures
            final(self).wf(),
            b == old(self).n_calls(),
            final(self).n_calls() == old(self).n_calls() + 1,
            final(self).len() == old(self).len(),
            final(self).vals() == old(self).vals(),
            final(self).pending(b as int),
            forall|y: int|
                has_target(final(self).calls()[b as int], y) <==> names_id(hs@, y),
            forall|b2: int|
                0 <= b2 < old(self).n_calls() ==> final(self).calls()[b2] == old(self).calls()[b2],
            forall|i: int|
                0 <= i < old(self).len() ==> final(self).handles(i) == old(self).handles(i)
                    && final(self).holder(i) == old(self).holder(i) && final(self).runs(i)
                    == old(self).runs(i) && final(self).vals()[i] == old(self).vals()[i],
            forall|i: int|
                0 <= i < old(self).len() ==> final(self).guards(i) == old(self).guards(i) + (
                if names_id(hs@, i) {
                    1int
                } else {
                    0int
                }),
    {
        // canonicalize the requested set
        let mut ids: Vec<usize> = Vec::new();
        let mut n: usize = 0;
        while n < hs.len()
            invariant
                0 <= n <= hs@.len(),
                hs@.len() < usize::MAX,
                strictly_sorted(ids@),
                ids@.len() <= n,
                forall|y: int| seq_has(ids@, y) <==> names_id(hs@.take(n as int), y),
            decreases hs@.len() - n,
        {
            let ghost ids0 = ids@;
            let x = hs[n].id();
            sorted_insert(&mut ids, x);
            n = n + 1;
            proof {
                let ni = n as int;
                assert forall|y: int| seq_has(ids@, y) <==> names_id(hs@.take(ni), y) by {
                    if seq_has(ids@, y) {
                        if seq_has(ids0, y) {
                            let k = choose|k: int| 0 <= k < ni - 1 && #[trigger] hs@.take(ni - 1)[k]@ == y;
                            assert(hs@.take(ni)[k]@ == y);
                        } else {
                            assert(y == x as int);
                            assert(hs@.take(ni)[ni - 1]@ == y);
                        }
                    }
                    if names_id(hs@.take(ni), y) {
                        let k = choose|k: int| 0 <= k < ni && #[trigger] hs@.take(ni)[k]@ == y;
                        if k < ni - 1 {
                            assert(hs@.take(ni - 1)[k]@ == y);
                            assert(seq_has(ids0, y));
                        } else {
                            assert(y == x as int);
                        }
                    }
                }
            }
        }
        proof {
            assert(hs@.take(hs@.len() as int) =~= hs@);
            assert forall|j: int| 0 <= j < ids@.len() implies (ids@[j] as int) < old(self).len()
                && old(self).handles(ids@[j] as int) >= 1 && old(self).guards(ids@[j] as int)
                < usize::MAX by {
                assert(seq_has(ids@, ids@[j] as int));
                let k = choose|k: int| 0 <= k < hs@.len() && hs@[k]@ == ids@[j] as int;
                assert(0 <= hs@[k]@ < old(self).len());
            }
        }
        // one guard per distinct target
        let m = ids.len();
        let mut k: usize = 0;
        while k < m
            invariant
                0 <= k <= m,
                m == ids@.len(),
                strictly_sorted(ids@),
                forall|y: int| seq_has(ids@, y) <==> names_id(hs@, y),
                forall|j: int|
                    0 <= j < ids@.len() ==> (#[trigger] ids@[j] as int) < old(self).len() && old(
                        self,
                    ).handles(ids@[j] as int) >= 1 && old(self).guards(ids@[j] as int)
                        < usize::MAX,
                self.calls() == old(self).calls(),
                self.vals() == old(self).vals(),
                self.metas().len() == old(self).metas().len(),
                forall|i: int|
                    0 <= i < old(self).len() ==> self.handles(i) == old(self).handles(i)
                        && self.holder(i) == old(self).holder(i) && self.runs(i) == old(
                        self,
                    ).runs(i),
                forall|i: int|
                    0 <= i < old(self).len() ==> self.guards(i) == old(self).guards(i) + (
                    if (exists|j: int| 0 <= j < k && ids@[j] == i) {
                        1int
                    } else {
                        0int
                    }),
            decreases m - k,
        {
            let ghost prev = *self;
            let t = ids[k];
            proof {
                assert forall|j: int| 0 <= j < k implies ids@[j] != t by {
                    assert(ids@[j] < ids@[k as int]);
                }
                assert(!(exists|j: int| 0 <= j < k && ids@[j] == t as int));
                assert(prev.guards(t as int) == old(self).guards(t as int));
            }
            let mut mm = self.meta[t];
            mm.guards = mm.guards + 1;
            self.meta.set(t, mm);
            k = k + 1;
            proof {
                assert forall|i: int|
                    0 <= i < old(self).len() implies self.handles(i) == old(self).handles(i)
                        && self.holder(i) == old(self).holder(i) && self.runs(i) == old(
                        self,
                    ).runs(i) by {
                    assert(prev.handles(i) == old(self).handles(i) && prev.holder(i) == old(
                        self,
                    ).holder(i) && prev.runs(i) == old(self).runs(i));
                }
                assert forall|i: int|
                    0 <= i < old(self).len() implies self.guards(i) == old(self).guards(i) + (
                    if (exists|j: int| 0 <= j < k && ids@[j] == i) {
                        1int
                    } else {
                        0int
                    }) by {
                    assert(prev.guards(i) == old(self).guards(i) + (
                    if (exists|j: int| 0 <= j < k - 1 && ids@[j] == i) {
                        1int
                    } else {
                        0int
                    }));
                    if i == t as int {
                        assert(ids@[k - 1] == i);
                        assert(self.guards(i) == prev.guards(i) + 1);
                    } else {
                        assert(self.guards(i) == prev.guards(i));
                        assert forall|j: int| 0 <= j < k && ids@[j] == i implies j < k - 1 by {
                            assert(ids@[k - 1] == t as int);
                        }
                        assert((exists|j: int| 0 <= j < k && ids@[j] == i) == (exists|j: int|
                            0 <= j < k - 1 && ids@[j] == i));
                    }
                }
            }
        }
        let ghost idsv = ids@;
        let ghost mid = *self;
        let b = self.queue.len();
        self.queue.push(CownCallback { targets: ids, state: CallState::Pending });
        proof {
            let c = self.calls()[b as int];
            assert(c.targets@ == idsv);
            assert forall|i: int| 0 <= i < self.len() implies self.slot_inv(i) by {
                assert(old(self).slot_inv(i));
                assert(mid.guards(i) == old(self).guards(i) + (
                if (exists|j: int| 0 <= j < idsv.len() && idsv[j] == i) {
                    1int
                } else {
                    0int
                }));
                assert(mid.handles(i) == old(self).handles(i) && mid.holder(i) == old(
                    self,
                ).holder(i) && mid.runs(i) == old(self).runs(i));
                lemma_guard_refs_push(old(self).calls(), c, i);
                assert(guard_share(c, i) == (if seq_has(idsv, i) {
                    1nat
                } else {
                    0nat
                }));
                if seq_has(idsv, i) {
                    assert(names_id(hs@, i));
                    let k2 = choose|k2: int| 0 <= k2 < hs@.len() && hs@[k2]@ == i;
                    assert(old(self).handles(i) >= 1);
                    assert(old(self).live(i));
                }
            }
            assert forall|b2: int| 0 <= b2 < self.n_calls() implies self.call_inv(b2) by {
                if b2 < old(self).n_calls() {
                    assert(old(self).call_inv(b2));
                    assert(self.calls()[b2] == old(self).calls()[b2]);
                    Self::lemma_call_inv_preserved(*old(self), *self, b2);
                } else {
                    assert(self.calls()[b2] == c);
                }
            }
            assert forall|i: int|
                0 <= i < old(self).len() implies self.guards(i) == old(self).guards(i) + (
                if names_id(hs@, i) {
                    1int
                } else {
                    0int
                }) by {
                assert(mid.guards(i) == old(self).guards(i) + (
                if (exists|j: int| 0 <= j < idsv.len() && idsv[j] == i) {
                    1int
                } else {
                    0int
                }));
                assert(seq_has(idsv, i) <==> names_id(hs@, i));
                assert(self.guards(i) == mid.guards(i));
            }
        }
        b
    }

    /// Schedule a behavior on one cown: `when(c)` requests exclusive access
    /// to `c` alone.
    pub fn when(&mut self, h: &Cown<T>) -> (b: usize)
        requires
            old(self).wf(),
            old(self).n_calls() < usize::MAX,
            0 <= h@ < old(self).len(),
            old(self).handles(h@) >= 1,
            old(self).guards(h@) < usize::MAX,
        ensures
            final(self).wf(),
            b == old(self).n_calls(),
            final(self).n_calls() == old(self).n_calls() + 1,
            final(self).len() == old(self).len(),
            final(self).vals() == old(self).vals(),
            final(self).pending(b as int),
            forall|y: int| has_target(final(self).calls()[b as int], y) <==> y == h@,
            forall|b2: int|
                0 <= b2 < old(self).n_calls() ==> final(self).calls()[b2] == old(self).calls()[b2],
            forall|i: int|
                0 <= i < old(self).len() ==> final(self).handles(i) == old(self).handles(i)
                    && final(self).holder(i) == old(self).holder(i) && final(self).runs(i)
                    == old(self).runs(i) && final(self).vals()[i] == old(self).vals()[i],
            forall|i: int|
                0 <= i < old(self).len() ==> final(self).guards(i) == old(self).guards(i) + (
                if i == h@ {
                    1int
                } else {
                    0int
                }),
    {
        let mut hs: Vec<&Cown<T>> = Vec::new();
        hs.push(h);
        let ghost hsv = hs@;
        let b = self.when_all(hs);
        proof {
            assert forall|y: int| has_target(self.calls()[b as int], y) <==> y == h@ by {
                assert(has_target(self.calls()[b as int], y) <==> names_id(hsv, y));
                if y == h@ {
                    assert(hsv[0]@ == y);
                }
            }
            assert forall|i: int|
                0 <= i < old(self).len() implies self.guards(i) == old(self).guards(i) + (
                if i == h@ {
                    1int
                } else {
                    0int
                }) by {
                assert(self.guards(i) == old(self).guards(i) + (
                if names_id(hsv, i) {
                    1int
                } else {
                    0int
                }));
                if i == h@ {
                    assert(hsv[0]@ == i);
                }
            }
        }
        b
    }

    /// Schedule a behavior on two cowns at once. The pair is acquired
    /// atomically in the canonical order, so `when2(a, b)` and `when2(b, a)`
    /// issue identical requests.
    pub fn when2(&mut self, h1: &Cown<T>, h2: &Cown<T>) -> (b: usize)
        requires
            old(self).wf(),
            old(self).n_calls() < usize::MAX,
            0 <= h1@ < old(self).len(),
            0 <= h2@ < old(self).len(),
            old(self).handles(h1@) >= 1,
            old(self).handles(h2@) >= 1,
            old(self).guards(h1@) < usize::MAX,
            old(self).guards(h2@) < usize::MAX,
        ensures
            final(self).wf(),
            b == old(self).n_calls(),
            final(self).n_calls() == old(self).n_calls() + 1,
            final(self).len() == old(self).len(),
            final(self).vals() == old(self).vals(),
            final(self).pending(b as int),
            forall|y: int|
                has_target(final(self).calls()[b as int], y) <==> (y == h1@ || y == h2@),
            forall|b2: int|
                0 <= b2 < old(self).n_calls() ==> final(self).calls()[b2] == old(self).calls()[b2],
            forall|i: int|
                0 <= i < old(self).len() ==> final(self).handles(i) == old(self).handles(i)
                    && final(self).holder(i) == old(self).holder(i) && final(self).runs(i)
                    == old(self).runs(i) && final(self).vals()[i] == old(self).vals()[i],
            forall|i: int|
                0 <= i < old(self).len() ==> final(self).guards(i) == old(self).guards(i) + (
                if i == h1@ || i == h2@ {
                    1int
                } else {
                    0int
                }),
    {
        let mut hs: Vec<&Cown<T>> = Vec::new();
        hs.push(h1);
        hs.push(h2);
        let ghost hsv = hs@;
        let b = self.when_all(hs);
        proof {
            assert forall|y: int|
                has_target(self.calls()[b as int], y) <==> (y == h1@ || y == h2@) by {
                assert(has_target(self.calls()[b as int], y) <==> names_id(hsv, y));
                if y == h1@ {
                    assert(hsv[0]@ == y);
                } else if y == h2@ {
                    assert(hsv[1]@ == y);
                }
            }
            assert forall|i: int|
                0 <= i < old(self).len() implies self.guards(i) == old(self).guards(i) + (
                if i == h1@ || i == h2@ {
                    1int
                } else {
                    0int
                }) by {
                assert(self.guards(i) == old(self).guards(i) + (
                if names_id(hsv, i) {
                    1int
                } else {
                    0int
                }));
                if i == h1@ {
                    assert(hsv[0]@ == i);
                } else if i == h2@ {
                    assert(hsv[1]@ == i);
                }
            }
        }
        b
    }

    /// One scheduling step of the engine: grant the first pending behavior
    /// whose targets are all free, giving it exclusive access to every one
    /// of them at once — all-or-nothing, never a partial grant. Returns the
    /// granted behavior, or `None` when every pending behavior is blocked
    /// on some held target.
    pub fn step_behavior(&mut self) -> (r: Option<usize>)
        requires
            old(self).wf(),
        ensures
            final(self).wf(),
            final(self).len() == old(self).len(),
            final(self).n_calls() == old(self).n_calls(),
            final(self).vals() == old(self).vals(),
            r is None ==> final(self).metas() == old(self).metas() && final(self).calls() == old(
                self,
            ).calls() && (forall|b: int|
                0 <= b < old(self).n_calls() && old(self).pending(b) ==> !old(self).grantable(b)),
            r is Some ==> 0 <= r->0 < old(self).n_calls() && old(self).pending(r->0 as int) && old(
                self,
            ).grantable(r->0 as int) && final(self).granted(r->0 as int),
            r is Some ==> (forall|b2: int|
                0 <= b2 < r->0 && old(self).pending(b2) ==> !old(self).grantable(b2)),
            r is Some ==> final(self).calls() == old(self).calls().update(
                r->0 as int,
                (CownCallback {
                    targets: old(self).calls()[r->0 as int].targets,
                    state: CallState::Granted,
                }),
            ),
            r is Some ==> (forall|i: int|
                0 <= i < old(self).len() && !has_target(old(self).calls()[r->0 as int], i)
                    ==> final(self).metas()[i] == old(self).metas()[i]),
            r is Some ==> (forall|i: int|
                0 <= i < old(self).len() && has_target(old(self).calls()[r->0 as int], i)
                    ==> final(self).metas()[i] == (CownMeta {
                    holder: Some(r->0),
                    ..old(self).metas()[i]
                })),
    {
        let nq = self.queue.len();
        let mut b: usize = 0;
        while b < nq
            invariant
                old(self).wf(),
                0 <= b <= nq,
                nq == old(self).n_calls(),
                self.metas() == old(self).metas(),
                self.calls() == old(self).calls(),
                self.vals() == old(self).vals(),
                forall|b2: int| 0 <= b2 < b && old(self).pending(b2) ==> !old(self).grantable(b2),
            decreases nq - b,
        {
            let is_pending = self.queue[b].state == CallState::Pending;
            if is_pending {
                proof {
                    assert(old(self).call_inv(b as int));
                }
                let nt = self.queue[b].targets.len();
                let mut kk: usize = 0;
                let mut free = true;
                while kk < nt
                    invariant
                        old(self).wf(),
                        0 <= kk <= nt,
                        b < nq,
                        nq == old(self).n_calls(),
                        nt == old(self).target_seq(b as int).len(),
                        old(self).pending(b as int),
                        old(self).call_wf(b as int),
                        self.metas() == old(self).metas(),
                        self.calls() == old(self).calls(),
                        self.vals() == old(self).vals(),
                        free <==> (forall|j: int|
                            0 <= j < kk ==> old(self).holder(
                                old(self).target_seq(b as int)[j] as int,
                            ) is None),
                    decreases nt - kk,
                {
                    let t = self.queue[b].targets[kk];
                    if self.meta[t].holder.is_some() {
                        free = false;
                    }
                    kk = kk + 1;
                }
                if free {
                    proof {
                        assert(old(self).grantable(b as int));
                    }
                    // take every target at once
                    let mut k2: usize = 0;
                    while k2 < nt
                        invariant
                            old(self).wf(),
                            0 <= k2 <= nt,
                            b < nq,
                            nq == old(self).n_calls(),
                            nt == old(self).target_seq(b as int).len(),
                            old(self).pending(b as int),
                            old(self).call_wf(b as int),
                            old(self).grantable(b as int),
                            self.calls() == old(self).calls(),
                            self.vals() == old(self).vals(),
                            self.metas().len() == old(self).metas().len(),
                            forall|i: int|
                                0 <= i < old(self).len() ==> self.metas()[i] == (
                                if (exists|j: int|
                                    0 <= j < k2 && old(self).target_seq(b as int)[j] == i) {
                                    (CownMeta { holder: Some(b), ..old(self).metas()[i] })
                                } else {
                                    old(self).metas()[i]
                                }),
                        decreases nt - k2,
                    {
                        let ghost prev = *self;
                        let t = self.queue[b].targets[k2];
                        let mut mm = self.meta[t];
                        mm.holder = Some(b);
                        self.meta.set(t, mm);
                        k2 = k2 + 1;
                        proof {
                            assert forall|j: int|
                                0 <= j < k2 - 1 implies old(self).target_seq(b as int)[j]
                                != t by {
                                assert(old(self).target_seq(b as int)[j] < old(self).target_seq(
                                    b as int,
                                )[k2 - 1]);
                            }
                            assert forall|i: int|
                                0 <= i < old(self).len() implies self.metas()[i] == (
                            if (exists|j: int|
                                0 <= j < k2 && old(self).target_seq(b as int)[j] == i) {
                                (CownMeta { holder: Some(b), ..old(self).metas()[i] })
                            } else {
                                old(self).metas()[i]
                            }) by {
                                assert(prev.metas()[i] == (
                                if (exists|j: int|
                                    0 <= j < k2 - 1 && old(self).target_seq(b as int)[j] == i) {
                                    (CownMeta { holder: Some(b), ..old(self).metas()[i] })
                                } else {
                                    old(self).metas()[i]
                                }));
                                if i == t as int {
                                    assert(old(self).target_seq(b as int)[k2 - 1] == i);
                                    assert(!(exists|j: int|
                                        0 <= j < k2 - 1 && old(self).target_seq(b as int)[j]
                                            == i));
                                } else {
                                    assert forall|j: int|
                                        0 <= j < k2 && old(self).target_seq(b as int)[j]
                                            == i implies j < k2 - 1 by {
                                        assert(old(self).target_seq(b as int)[k2 - 1] == t as int);
                                    }
                                }
                            }
                        }
                    }
                    self.queue[b].state = CallState::Granted;
                    proof {
                        let bi = b as int;
                        let c2 = self.calls()[bi];
                        assert(self.calls() =~= old(self).calls().update(
                            bi,
                            (CownCallback {
                                targets: old(self).calls()[bi].targets,
                                state: CallState::Granted,
                            }),
                        ));
                        assert(c2.targets@ == old(self).target_seq(bi));
                        assert forall|i: int| 0 <= i < self.len() implies self.slot_inv(i) by {
                            assert(old(self).slot_inv(i));
                            lemma_guard_refs_update(old(self).calls(), bi, c2, i);
                            assert(guard_share(old(self).calls()[bi], i) == guard_share(c2, i));
                            if has_target(old(self).calls()[bi], i) {
                                assert(self.holder(i) == Some(b));
                                lemma_guard_refs_lower(old(self).calls(), bi, i);
                                assert(old(self).guards(i) >= 1);
                                assert(old(self).live(i));
                            } else {
                                assert(self.metas()[i] == old(self).metas()[i]);
                                if old(self).holder(i) is Some {
                                    assert(old(self).granted(old(self).holder(i)->0 as int));
                                    assert(old(self).holder(i)->0 != b);
                                }
                            }
                        }
                        assert forall|b2: int| 0 <= b2 < self.n_calls() implies self.call_inv(
                            b2,
                        ) by {
                            assert(old(self).call_inv(b2));
                            if b2 == bi {
                                assert forall|j: int|
                                    0 <= j < self.target_seq(b2).len() implies self.holder(
                                    self.target_seq(b2)[j] as int,
                                ) == Some(b) by {
                                    assert(has_target(
                                        old(self).calls()[bi],
                                        old(self).target_seq(bi)[j] as int,
                                    ));
                                }
                            } else if self.granted(b2) {
                                assert forall|j: int|
                                    0 <= j < self.target_seq(b2).len() implies (
                                #[trigger] self.holder(self.target_seq(b2)[j] as int)) is Some
                                    && self.holder(self.target_seq(b2)[j] as int)->0 == b2 by {
                                    let t2 = old(self).target_seq(b2)[j] as int;
                                    assert(old(self).holder(t2) is Some && old(self).holder(
                                        t2,
                                    )->0 == b2);
                                    if has_target(old(self).calls()[bi], t2) {
                                        let jj = choose|jj: int|
                                            0 <= jj < old(self).target_seq(bi).len() && old(
                                                self,
                                            ).target_seq(bi)[jj] == t2;
                                        assert(old(self).holder(
                                            old(self).target_seq(bi)[jj] as int,
                                        ) is None);
                                    } else {
                                        assert(self.metas()[t2] == old(self).metas()[t2]);
                                    }
                                }
                            }
                        }
                    }
                    return Some(b);
                }
            }
            b = b + 1;
        }
        proof {
            assert forall|i: int| 0 <= i < self.len() implies self.slot_inv(i) by {
                assert(old(self).slot_inv(i));
            }
            assert forall|b2: int| 0 <= b2 < self.n_calls() implies self.call_inv(b2) by {
                assert(old(self).call_inv(b2));
                Self::lemma_call_inv_preserved(*old(self), *self, b2);
            }
        }
        None
    }

    /// Release a granted behavior: its callback body has finished, every
    /// target is freed at once, and any target left with neither handles
    /// nor behavior references is destroyed here — the deferred-destruction
    /// point of the design.
    pub fn release(&mut self, b: usize)
        requires
            old(self).wf(),
            b < old(self).n_calls(),
            old(self).granted(b as int),
        ensures
            final(self).wf(),
            final(self).len() == old(self).len(),
            final(self).n_calls() == old(self).n_calls(),
            final(self).done(b as int),
            final(self).calls() == old(self).calls().update(
                b as int,
                (CownCallback { targets: old(self).calls()[b as int].targets, state: CallState::Done }),
            ),
            forall|i: int|
                0 <= i < old(self).len() && !has_target(old(self).calls()[b as int], i)
                    ==> final(self).metas()[i] == old(self).metas()[i] && final(self).vals()[i]
                    == old(self).vals()[i],
            forall|i: int|
                0 <= i < old(self).len() && has_target(old(self).calls()[b as int], i)
                    ==> final(self).holder(i) is None && final(self).guards(i) == old(self).guards(
                    i,
                ) - 1 && final(self).handles(i) == old(self).handles(i),
            forall|i: int|
                0 <= i < old(self).len() && has_target(old(self).calls()[b as int], i) ==> (
                if old(self).handles(i) == 0 && old(self).guards(i) == 1 {
                    !final(self).live(i) && final(self).runs(i) == 1
                } else {
                    final(self).vals()[i] == old(self).vals()[i] && final(self).runs(i) == old(
                        self,
                    ).runs(i)
                }),
    {
        proof {
            assert(old(self).call_inv(b as int));
        }
        self.queue[b].state = CallState::Done;
        let nt = self.queue[b].targets.len();
        let ghost dc = (CownCallback {
            targets: old(self).calls()[b as int].targets,
            state: CallState::Done,
        });
        proof {
            assert(self.calls() =~= old(self).calls().update(b as int, dc));
        }
        let mut k: usize = 0;
        while k < nt
            invariant
                old(self).wf(),
                old(self).granted(b as int),
                old(self).call_inv(b as int),
                0 <= k <= nt,
                b < old(self).n_calls(),
                nt == old(self).target_seq(b as int).len(),
                self.calls() == old(self).calls().update(b as int, dc),
                dc.targets@ == old(self).target_seq(b as int),
                self.metas().len() == old(self).metas().len(),
                self.vals().len() == old(self).vals().len(),
                forall|i: int|
                    0 <= i < old(self).len() && !has_target(old(self).calls()[b as int], i)
                        ==> self.metas()[i] == old(self).metas()[i] && self.vals()[i] == old(
                        self,
                    ).vals()[i],
                forall|j: int|
                    k <= j < nt ==> self.metas()[old(self).target_seq(b as int)[j] as int] == old(
                        self,
                    ).metas()[old(self).target_seq(b as int)[j] as int] && self.vals()[old(
                        self,
                    ).target_seq(b as int)[j] as int] == old(self).vals()[old(self).target_seq(
                        b as int,
                    )[j] as int],
                forall|j: int|
                    0 <= j < k ==> self.holder(old(self).target_seq(b as int)[j] as int) is None
                        && self.guards(old(self).target_seq(b as int)[j] as int) == old(
                        self,
                    ).guards(old(self).target_seq(b as int)[j] as int) - 1 && self.handles(
                        old(self).target_seq(b as int)[j] as int,
                    ) == old(self).handles(old(self).target_seq(b as int)[j] as int),
                forall|j: int|
                    0 <= j < k ==> (
                    {
                        let t2 = #[trigger] old(self).target_seq(b as int)[j] as int;
                        if old(self).handles(t2) == 0 && old(self).guards(t2) == 1 {
                            !self.live(t2) && self.runs(t2) == 1
                        } else {
                            self.vals()[t2] == old(self).vals()[t2] && self.runs(t2) == old(
                                self,
                            ).runs(t2)
                        }
                    }),
            decreases nt - k,
        {
            let ghost prev = *self;
            let t = self.queue[b].targets[k];
            proof {
                assert(old(self).target_seq(b as int)[k as int] == t);
                assert forall|j: int|
                    0 <= j < nt && j != k implies old(self).target_seq(b as int)[j] != t by {
                    if j < k {
                        let ts = old(self).target_seq(b as int);
                        assert(ts[j] < ts[k as int]);
                    } else {
                        assert(old(self).target_seq(b as int)[k as int] < old(self).target_seq(
                            b as int,
                        )[j]);
                    }
                }
                assert(old(self).slot_inv(t as int));
                assert(old(self).holder(t as int) == Some(b));
                lemma_guard_refs_lower(old(self).calls(), b as int, t as int);
                assert(guard_share(old(self).calls()[b as int], t as int) == 1);
            }
            let mut mm = self.meta[t];
            mm.holder = None;
            mm.guards = mm.guards - 1;
            if mm.guards == 0 && mm.handles == 0 {
                mm.destructor_runs = mm.destructor_runs + 1;
                self.meta.set(t, mm);
                self.values.set(t, None);
            } else {
                self.meta.set(t, mm);
            }
            k = k + 1;
            proof {
                assert(forall|i2: int|
                    0 <= i2 < old(self).len() && !has_target(old(self).calls()[b as int], i2)
                        ==> prev.metas()[i2] == old(self).metas()[i2] && prev.vals()[i2] == old(
                        self,
                    ).vals()[i2]);
                assert forall|i: int|
                    0 <= i < old(self).len() && !has_target(
                        old(self).calls()[b as int],
                        i,
                    ) implies self.metas()[i] == old(self).metas()[i] && self.vals()[i] == old(
                    self,
                ).vals()[i] by {
                    assert(prev.metas()[i] == old(self).metas()[i]);
                    assert(prev.vals()[i] == old(self).vals()[i]);
                    assert(i != t as int);
                    assert(self.metas()[i] == prev.metas()[i]);
                    assert(self.vals()[i] == prev.vals()[i]);
                }
            }
        }
        proof {
            assert forall|i: int| 0 <= i < self.len() implies self.slot_inv(i) by {
                assert(old(self).slot_inv(i));
                lemma_guard_refs_update(old(self).calls(), b as int, dc, i);
                if has_target(old(self).calls()[b as int], i) {
                    let j = choose|j: int|
                        0 <= j < old(self).target_seq(b as int).len() && old(self).target_seq(
                            b as int,
                        )[j] == i;
                    assert(self.holder(i) is None);
                    assert(guard_share(old(self).calls()[b as int], i) == 1);
                } else {
                    assert(self.metas()[i] == old(self).metas()[i]);
                    assert(guard_share(old(self).calls()[b as int], i) == 0);
                    if old(self).holder(i) is Some {
                        assert(has_target(
                            old(self).calls()[old(self).holder(i)->0 as int],
                            i,
                        ));
                        assert(old(self).holder(i)->0 != b);
                    }
                }
            }
            assert forall|b2: int| 0 <= b2 < self.n_calls() implies self.call_inv(b2) by {
                assert(old(self).call_inv(b2));
                if b2 != b as int && self.granted(b2) {
                    assert forall|j: int|
                        0 <= j < self.target_seq(b2).len() implies (#[trigger] self.holder(
                        self.target_seq(b2)[j] as int,
                    )) is Some && self.holder(self.target_seq(b2)[j] as int)->0 == b2 by {
                        let t2 = old(self).target_seq(b2)[j] as int;
                        assert(old(self).holder(t2) is Some && old(self).holder(t2)->0 == b2);
                        if has_target(old(self).calls()[b as int], t2) {
                            assert(old(self).call_inv(b as int));
                            let jj = choose|jj: int|
                                0 <= jj < old(self).target_seq(b as int).len() && old(
                                    self,
                                ).target_seq(b as int)[jj] == t2;
                            assert(old(self).holder(old(self).target_seq(b as int)[jj] as int)->0
                                == b);
                        } else {
                            assert(self.metas()[t2] == old(self).metas()[t2]);
                        }
                    }
                }
            }
        }
    }

    /// Read the value of cown `i` under the exclusive grant `b`. The only
    /// read access the design allows is through a granted behavior.
    pub fn read(&self, b: usize, i: usize) -> (r: &T)
        requires
            self.wf(),
            i < self.len(),
            self.holder(i as int) == Some(b),
        ensures
            *r == self.value(i as int),
    {
        proof {
            assert(self.slot_inv(i as int));
        }
        match &self.values[i] {
            Some(v) => v,
            None => unreached(),
        }
    }

    /// Overwrite the value of cown `i` under the exclusive grant `b`. The
    /// only mutation path the design allows is through a granted behavior.
    pub fn write(&mut self, b: usize, i: usize, v: T)
        requires
            old(self).wf(),
            i < old(self).len(),
            old(self).holder(i as int) == Some(b),
        ensures
            final(self).wf(),
            final(self).metas() == old(self).metas(),
            final(self).calls() == old(self).calls(),
            final(self).vals() == old(self).vals().update(i as int, Some(v)),
    {
        proof {
            assert(old(self).slot_inv(i as int));
        }
        self.values.set(i, Some(v));
        proof {
            assert forall|j: int| 0 <= j < self.len() implies self.slot_inv(j) by {
                assert(old(self).slot_inv(j));
            }
            assert forall|b2: int| 0 <= b2 < self.n_calls() implies self.call_inv(b2) by {
                assert(old(self).call_inv(b2));
                Self::lemma_call_inv_preserved(*old(self), *self, b2);
            }
        }
    }

    // ---- exec observers, mainly for drivers and tests ----

    /// How many cown slots this registry has created.
    pub fn slot_count(&self) -> (r: usize)
        ensures
            r == self.len(),
    {
        self.meta.len()
    }

    /// Outstanding handles for slot `i`.
    pub fn handle_count(&self, i: usize) -> (r: usize)
        requires
            i < self.len(),
        ensures
            r == self.handles(i as int),
    {
        self.meta[i].handles
    }

    /// Active behavior references for slot `i`.
    pub fn guard_count(&self, i: usize) -> (r: usize)
        requires
            i < self.len(),
        ensures
            r == self.guards(i as int),
    {
        self.meta[i].guards
    }

    /// How many times the destructor has fired for slot `i`.
    pub fn destructor_count(&self, i: usize) -> (r: usize)
        requires
            i < self.len(),
        ensures
            r == self.runs(i as int),
    {
        self.meta[i].destructor_runs
    }

    /// How many behaviors were ever scheduled.
    pub fn call_count(&self) -> (r: usize)
        ensures
            r == self.n_calls(),
    {
        self.queue.len()
    }

    /// The lifecycle state of behavior `b`.
    pub fn call_state(&self, b: usize) -> (r: CallState)
        requires
            (b as int) < self.n_calls(),
        ensures
            r == self.calls()[b as int].state,
    {
        self.queue[b].state
    }

    /// How many cowns behavior `b` targets.
    pub fn target_count(&self, b: usize) -> (r: usize)
        requires
            (b as int) < self.n_calls(),
        ensures
            r == self.target_seq(b as int).len(),
    {
        self.queue[b].targets.len()
    }

    /// The `k`-th target of behavior `b`, in the canonical acquisition
    /// order.
    pub fn target_at(&self, b: usize, k: usize) -> (r: usize)
        requires
            (b as int) < self.n_calls(),
            (k as int) < self.target_seq(b as int).len(),
        ensures
            r == self.target_seq(b as int)[k as int],
    {
        self.queue[b].targets[k]
    }

    /// Whether the value of slot `i` is still present.
    pub fn is_live(&self, i: usize) -> (r: bool)
        requires
            self.wf(),
            i < self.len(),
        ensures
            r == self.live(i as int),
    {
        self.values[i].is_some()
    }
}

impl<T> CownTable<T> {
    // ---- the laws of the protocol ----

    /// Refcount soundness: in every reachable state the destructor of a cown
    /// has fired at most once, and it can only have fired after the count of
    /// outstanding handles and of behavior references both reached zero.
    /// Together with the contracts of `drop_cown` and `release`, which fire
    /// it exactly when the last reference goes, the destructor fires exactly
    /// once over any interleaving of clones and drops.
    pub proof fn lemma_destructor_at_most_once(self, i: int)
        requires
            self.wf(),
            0 <= i < self.len(),
        ensures
            self.runs(i) <= 1,
            self.runs(i) == 1 ==> self.handles(i) == 0 && self.guards(i) == 0 && !self.live(i),
    {
        assert(self.slot_inv(i));
    }

    /// No use-after-destroy: while any behavior holds an exclusive grant on
    /// a cown, the value is still present and the destructor has not fired.
    pub proof fn lemma_no_destroy_while_held(self, i: int)
        requires
            self.wf(),
            0 <= i < self.len(),
            self.holder(i) is Some,
        ensures
            self.live(i),
            self.runs(i) == 0,
    {
        assert(self.slot_inv(i));
    }

    /// Deadlock freedom, part one: two behaviors over the same set of cowns
    /// store identical target lists — the acquisition order is canonical and
    /// does not depend on the order in which the request named its cowns.
    pub proof fn lemma_canonical_acquisition_order(self, b1: int, b2: int)
        requires
            self.wf(),
            0 <= b1 < self.n_calls(),
            0 <= b2 < self.n_calls(),
            forall|y: int| has_target(self.calls()[b1], y) <==> has_target(self.calls()[b2], y),
        ensures
            self.target_seq(b1) == self.target_seq(b2),
    {
        assert(self.call_inv(b1));
        assert(self.call_inv(b2));
        assert(strictly_sorted(self.target_seq(b1)));
        assert(strictly_sorted(self.target_seq(b2)));
        assert forall|y: int| seq_has(self.target_seq(b1), y) <==> seq_has(
            self.target_seq(b2),
            y,
        ) by {
            assert(has_target(self.calls()[b1], y) <==> has_target(self.calls()[b2], y));
        }
        lemma_sorted_same_members_equal(self.target_seq(b1), self.target_seq(b2));
    }

    /// Deadlock freedom, part two: while no behavior is granted, every
    /// pending behavior is grantable in one step. A blocked request always
    /// waits on a *granted* behavior, never on another waiting request, so
    /// with behaviors running to completion and releasing, the engine can
    /// always grant something until every behavior has run: no two requests
    /// can block each other forever, whatever order they named their cowns.
    pub proof fn lemma_idle_engine_grants(self, b: int)
        requires
            self.wf(),
            0 <= b < self.n_calls(),
            self.pending(b),
            forall|b2: int| 0 <= b2 < self.n_calls() ==> !self.granted(b2),
        ensures
            self.grantable(b),
    {
        assert(self.call_inv(b));
        assert forall|k: int| 0 <= k < self.target_seq(b).len() implies self.holder(
            self.target_seq(b)[k] as int,
        ) is None by {
            let t = self.target_seq(b)[k] as int;
            assert(self.slot_inv(t));
            if self.holder(t) is Some {
                assert(self.granted(self.holder(t)->0 as int));
            }
        }
    }
}

impl<T> Cown<T> {
    /// Create a new cown owning `value`, registered in `table` with a single
    /// handle and a destructor that has not yet fired.
    pub fn new(table: &mut CownTable<T>, value: T) -> (h: Cown<T>)
        requires
            old(table).wf(),
            old(table).len() < usize::MAX,
        ensures
            final(table).wf(),
            h@ == old(table).len(),
            final(table).len() == old(table).len() + 1,
            final(table).metas() == old(table).metas().push(
                (CownMeta { handles: 1, guards: 0, holder: None, destructor_runs: 0 }),
            ),
            final(table).vals() == old(table).vals().push(Some(value)),
            final(table).calls() == old(table).calls(),
    {
        let i = table.meta.len();
        table.meta.push(CownMeta { handles: 1, guards: 0, holder: None, destructor_runs: 0 });
        table.values.push(Some(value));
        proof {
            assert forall|j: int| 0 <= j < table.len() implies table.slot_inv(j) by {
                if j < old(table).len() {
                    assert(old(table).slot_inv(j));
                } else {
                    assert forall|b: int| 0 <= b < table.calls().len() implies !has_target(
                        table.calls()[b],
                        j,
                    ) by {
                        assert(old(table).call_inv(b));
                        assert forall|k: int|
                            0 <= k < table.calls()[b].targets@.len() implies table.calls()[b].targets@[k]
                            != j by {
                            assert((old(table).target_seq(b)[k] as int) < old(table).len());
                        }
                    }
                    lemma_guard_refs_no_target(table.calls(), j);
                }
            }
            assert forall|b: int| 0 <= b < table.n_calls() implies table.call_inv(b) by {
                assert(old(table).call_inv(b));
                CownTable::lemma_call_inv_preserved(*old(table), *table, b);
            }
        }
        Cown { id: i, marker: core::marker::PhantomData }
    }
}

} // verus!
