//! Deferred reclamation by epochs.
//!
//! A `Collector` keeps a global epoch counter, the multiset of epochs at which
//! readers are currently pinned, and a queue of retired handles. Unlinking a
//! node does not free it: the handle is deferred into the queue together with
//! the epoch at which it was retired. A sweep frees a retired handle only once
//! no reader is pinned at an epoch at or before the retirement epoch — every
//! guard that could still observe the node therefore blocks its reclamation.

use vstd::multiset::Multiset;
use vstd::prelude::*;
use vstd::seq_lib::group_to_multiset_ensures;

verus! {

broadcast use group_to_multiset_ensures, vstd::seq_lib::lemma_seq_contains_after_push;

/// A token proving that its holder is pinned at `epoch`. While any guard with
/// an epoch at or before a retirement epoch is outstanding, the retired handle
/// is not freed.
pub struct Guard {
    epoch: u64,
}

impl View for Guard {
    type V = u64;

    closed spec fn view(&self) -> u64 {
        self.epoch
    }
}

/// One entry of the retirement queue: a handle and the epoch it was retired
/// in.
#[derive(Clone, Copy, PartialEq, Eq, Structural, Debug)]
pub struct Retired {
    pub handle: usize,
    pub epoch: u64,
}

/// The reclamation state: the current epoch, the epochs of the active guards,
/// and the handles whose reclamation has been deferred.
pub struct Collector {
    epoch: u64,
    pins: Vec<u64>,
    retired: Vec<Retired>,
}

impl Collector {
    /// The current epoch.
    pub closed spec fn epoch(self) -> u64 {
        self.epoch
    }

    /// The epochs of the guards that are currently active, as a multiset
    /// (several guards may share an epoch).
    pub closed spec fn pins(self) -> Multiset<u64> {
        self.pins@.to_multiset()
    }

    /// The retirement queue.
    pub closed spec fn retired(self) -> Seq<Retired> {
        self.retired@
    }

    /// The handles in the retirement queue.
    pub open spec fn retired_handles(self) -> Seq<usize> {
        self.retired().map(|i: int, r: Retired| r.handle)
    }

    /// A retirement epoch `e` is safe once no active guard is pinned at or
    /// before it.
    pub open spec fn epoch_safe(self, e: u64) -> bool {
        forall|p: u64| self.pins().count(p) > 0 ==> p > e
    }

    /// Internal consistency: retired handles are pairwise distinct, and no
    /// recorded epoch lies in the future.
    pub closed spec fn wf(self) -> bool {
        &&& forall|i: int, j: int|
            0 <= i < j < self.retired@.len() ==> (#[trigger] self.retired@[i]).handle != (
            #[trigger] self.retired@[j]).handle
        &&& forall|i: int|
            0 <= i < self.pins@.len() ==> (#[trigger] self.pins@[i]) <= self.epoch
        &&& forall|i: int|
            0 <= i < self.retired@.len() ==> (#[trigger] self.retired@[i]).epoch <= self.epoch
    }

    /// A fresh collector: epoch zero, no guards, nothing retired.
    pub fn new() -> (c: Collector)
        ensures
            c.wf(),
            c.epoch() == 0,
            c.pins() == Multiset::<u64>::empty(),
            c.retired() == Seq::<Retired>::empty(),
    {
        let c = Collector { epoch: 0, pins: Vec::new(), retired: Vec::new() };
        proof {
            assert(c.pins@.to_multiset() =~= Multiset::<u64>::empty());
        }
        c
    }

    /// Pin the caller into the current epoch and hand back the guard that
    /// records it.
    pub fn pin(&mut self) -> (g: Guard)
        requires
            old(self).wf(),
        ensures
            final(self).wf(),
            g@ == old(self).epoch(),
            final(self).epoch() == old(self).epoch(),
            final(self).pins() == old(self).pins().insert(g@),
            final(self).retired() == old(self).retired(),
    {
        let e = self.epoch;
        self.pins.push(e);
        Guard { epoch: e }
    }

    /// Drop a guard: one pin at its epoch goes away.
    pub fn unpin(&mut self, g: Guard)
        requires
            old(self).wf(),
            old(self).pins().count(g@) > 0,
        ensures
            final(self).wf(),
            final(self).epoch() == old(self).epoch(),
            final(self).pins() == old(self).pins().remove(g@),
            final(self).retired() == old(self).retired(),
    {
        let mut i: usize = 0;
        let n = self.pins.len();
        while i < n && self.pins[i] != g.epoch
            invariant
                n == self.pins.len(),
                i <= n,
                forall|j: int| 0 <= j < i ==> self.pins@[j] != g@,
                self.pins@.contains(g@),
            decreases n - i,
        {
            i = i + 1;
        }
        proof {
            if i == n {
                let j = choose|j: int| 0 <= j < self.pins@.len() && self.pins@[j] == g@;
                assert(false);
            }
        }
        self.pins.remove(i);
    }

    /// How many handles are waiting in the retirement queue.
    pub fn retired_count(&self) -> (n: usize)
        ensures
            n == self.retired().len(),
    {
        self.retired.len()
    }

    /// The current epoch, readable.
    pub fn current_epoch(&self) -> (e: u64)
        ensures
            e == self.epoch(),
    {
        self.epoch
    }

    /// Defer reclamation of `handle`: queue it under the current epoch.
    pub fn defer(&mut self, handle: usize)
        requires
            old(self).wf(),
            !old(self).retired_handles().contains(handle),
        ensures
            final(self).wf(),
            final(self).epoch() == old(self).epoch(),
            final(self).pins() == old(self).pins(),
            final(self).retired() == old(self).retired().push(
                Retired { handle, epoch: old(self).epoch() },
            ),
    {
        let e = self.epoch;
        self.retired.push(Retired { handle, epoch: e });
        proof {
            assert forall|i: int, j: int| 0 <= i < j < self.retired@.len() implies (
            #[trigger] self.retired@[i]).handle != (#[trigger] self.retired@[j]).handle by {
                if j == self.retired@.len() - 1 {
                    assert(old(self).retired_handles()[i] == old(self).retired@[i].handle);
                }
            }
        }
    }

    /// True when no active guard is pinned at or before `e`.
    fn no_pin_at_or_before(&self, e: u64) -> (r: bool)
        ensures
            r == self.epoch_safe(e),
    {
        let mut i: usize = 0;
        let n = self.pins.len();
        while i < n
            invariant
                n == self.pins.len(),
                i <= n,
                forall|j: int| 0 <= j < i ==> self.pins@[j] > e,
            decreases n - i,
        {
            if self.pins[i] <= e {
                proof {
                    assert(self.pins().count(self.pins@[i as int]) > 0);
                }
                return false;
            }
            i = i + 1;
        }
        proof {
            assert forall|p: u64| self.pins().count(p) > 0 implies p > e by {
                assert(self.pins@.contains(p));
            }
        }
        true
    }

    /// Advance the epoch and drain every retired handle whose epoch is safe:
    /// exactly the handles no outstanding guard could still observe are
    /// returned for reclamation; the rest stay queued.
    pub fn sweep(&mut self) -> (freed: Vec<usize>)
        requires
            old(self).wf(),
            old(self).epoch() < u64::MAX,
        ensures
            final(self).wf(),
            final(self).epoch() == old(self).epoch() + 1,
            final(self).pins() == old(self).pins(),
            forall|h: usize|
                #[trigger] freed@.contains(h) <==> exists|i: int|
                    0 <= i < old(self).retired().len() && (#[trigger] old(self).retired()[
                    i]).handle == h && old(self).epoch_safe(old(self).retired()[i].epoch),
            forall|r: Retired|
                #[trigger] final(self).retired().contains(r) <==> old(self).retired().contains(r)
                    && !old(self).epoch_safe(r.epoch),
            forall|i: int, j: int| 0 <= i < j < freed@.len() ==> freed@[i] != freed@[j],
    {
        let ghost orig = *old(self);
        let mut keep: Vec<Retired> = Vec::new();
        let mut freed: Vec<usize> = Vec::new();
        let mut i: usize = 0;
        let n = self.retired.len();
        while i < n
            invariant
                *self == orig,
                orig.wf(),
                n == self.retired.len(),
                i <= n,
                forall|r: Retired|
                    #[trigger] keep@.contains(r) <==> exists|j: int|
                        0 <= j < i && orig.retired()[j] == r && !orig.epoch_safe(r.epoch),
                forall|h: usize|
                    #[trigger] freed@.contains(h) <==> exists|j: int|
                        0 <= j < i && (#[trigger] orig.retired()[j]).handle == h && orig.epoch_safe(
                            orig.retired()[j].epoch,
                        ),
                forall|a: int, b: int| 0 <= a < b < freed@.len() ==> freed@[a] != freed@[b],
                forall|a: int, b: int|
                    0 <= a < b < keep@.len() ==> (#[trigger] keep@[a]).handle != (
                    #[trigger] keep@[b]).handle,
                forall|a: int|
                    0 <= a < keep@.len() ==> (#[trigger] keep@[a]).epoch <= orig.epoch(),
            decreases n - i,
        {
            let r = self.retired[i];
            if self.no_pin_at_or_before(r.epoch) {
                let ghost pre = freed@;
                freed.push(r.handle);
                proof {
                    let rh = r.handle;
                    assert(freed@ == pre.push(rh));
                    assert forall|h: usize| #[trigger] freed@.contains(h) implies exists|j: int|
                        0 <= j < i + 1 && (#[trigger] orig.retired()[j]).handle == h
                            && orig.epoch_safe(orig.retired()[j].epoch) by {
                        vstd::seq_lib::lemma_seq_contains_after_push(pre, rh, h);
                        if h == rh {
                            assert(orig.retired()[i as int].handle == h && orig.epoch_safe(
                                orig.retired()[i as int].epoch,
                            ));
                        } else {
                            let j = choose|j: int|
                                0 <= j < i && (#[trigger] orig.retired()[j]).handle == h
                                    && orig.epoch_safe(orig.retired()[j].epoch);
                            assert(0 <= j < i + 1 && orig.retired()[j].handle == h
                                && orig.epoch_safe(orig.retired()[j].epoch));
                        }
                    }
                    assert forall|j: int|
                        0 <= j < i + 1 && orig.epoch_safe(
                            (#[trigger] orig.retired()[j]).epoch,
                        ) implies freed@.contains(orig.retired()[j].handle) by {
                        vstd::seq_lib::lemma_seq_contains_after_push(
                            pre,
                            rh,
                            orig.retired()[j].handle,
                        );
                    }
                    assert forall|a: int, b: int| 0 <= a < b < freed@.len() implies freed@[a]
                        != freed@[b] by {
                        if b == freed@.len() - 1 {
                            assert(pre.contains(pre[a]));
                            let ja = choose|ja: int|
                                0 <= ja < i && (#[trigger] orig.retired()[ja]).handle == pre[a]
                                    && orig.epoch_safe(orig.retired()[ja].epoch);
                            assert(orig.retired()[ja].handle != orig.retired()[i as int].handle);
                        }
                    }
                }
            } else {
                let ghost pre = keep@;
                keep.push(r);
                proof {
                    assert(keep@ == pre.push(r));
                    assert forall|q: Retired| #[trigger] keep@.contains(q) implies exists|j: int|
                        0 <= j < i + 1 && orig.retired()[j] == q && !orig.epoch_safe(q.epoch) by {
                        vstd::seq_lib::lemma_seq_contains_after_push(pre, r, q);
                        if q == r {
                            assert(orig.retired()[i as int] == q && !orig.epoch_safe(q.epoch));
                        } else {
                            let j = choose|j: int|
                                0 <= j < i && orig.retired()[j] == q && !orig.epoch_safe(q.epoch);
                            assert(0 <= j < i + 1 && orig.retired()[j] == q && !orig.epoch_safe(
                                q.epoch,
                            ));
                        }
                    }
                    assert forall|j: int|
                        0 <= j < i + 1 && !orig.epoch_safe(
                            (#[trigger] orig.retired()[j]).epoch,
                        ) implies keep@.contains(orig.retired()[j]) by {
                        vstd::seq_lib::lemma_seq_contains_after_push(pre, r, orig.retired()[j]);
                    }
                    assert forall|a: int, b: int| 0 <= a < b < keep@.len() implies (
                    #[trigger] keep@[a]).handle != (#[trigger] keep@[b]).handle by {
                        if b == keep@.len() - 1 {
                            assert(pre.contains(pre[a]));
                            let ja = choose|ja: int|
                                0 <= ja < i && orig.retired()[ja] == pre[a] && !orig.epoch_safe(
                                    pre[a].epoch,
                                );
                            assert(orig.retired()[ja].handle != orig.retired()[i as int].handle);
                        }
                    }
                }
            }
            i = i + 1;
        }
        self.retired = keep;
        self.epoch = self.epoch + 1;
        freed
    }

    /// A handle sits at most once in the retirement queue.
    pub proof fn lemma_retired_distinct(self)
        requires
            self.wf(),
        ensures
            forall|i: int, j: int|
                0 <= i < j < self.retired().len() ==> (#[trigger] self.retired()[i]).handle != (
                #[trigger] self.retired()[j]).handle,
    {
    }

    /// Law: a guard pinned at epoch `p` blocks reclamation of anything retired
    /// at an epoch `e >= p` — the epoch is not safe while the guard is active,
    /// so `sweep` keeps the handle queued.
    pub proof fn lemma_guard_blocks_reclaim(self, p: u64, e: u64)
        requires
            self.pins().count(p) > 0,
            p <= e,
        ensures
            !self.epoch_safe(e),
    {
    }
}

} // verus!
