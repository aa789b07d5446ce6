//! A last-in-first-out chain under the same slot and reclamation model.
//!
//! Push installs a fresh node as the head by compare-and-swap; pop swings the
//! head to the successor and defers reclamation of the detached node through
//! the epoch collector, so a caller holding a guard taken before the pop can
//! never observe freed memory. Both operations take the caller's guard, as
//! the traversal rules require.

use crate::epoch::{Collector, Guard};
use crate::slot::{Atomic, Link};
use vstd::prelude::*;

verus! {

/// One node of the chain.
#[derive(Clone, Copy)]
struct StackNode {
    item: u64,
    next: Atomic<Link>,
}

/// The stack: an arena of nodes, the head link, and the collector that
/// defers reclamation of popped nodes.
pub struct LinkedList {
    arena: Vec<Option<StackNode>>,
    head: Atomic<Link>,
    collector: Collector,
    spine: Ghost<Seq<usize>>,
    model: Ghost<Seq<u64>>,
}

impl View for LinkedList {
    type V = Seq<u64>;

    closed spec fn view(&self) -> Seq<u64> {
        self.model@
    }
}

impl LinkedList {
    /// The reclamation state.
    pub closed spec fn gc(self) -> Collector {
        self.collector
    }

    spec fn live(self, h: usize) -> bool {
        h < self.arena@.len() && self.arena@[h as int] is Some
    }

    spec fn nd(self, h: usize) -> StackNode {
        self.arena@[h as int].unwrap()
    }

    spec fn wf_links(self) -> bool {
        let c = self.spine@;
        &&& forall|i: int| 0 <= i < c.len() ==> self.live(#[trigger] c[i])
        &&& forall|i: int, j: int| 0 <= i < j < c.len() ==> c[i] != c[j]
        &&& self.head@ == (if c.len() == 0 {
            Link::Null
        } else {
            Link::Live(c[0])
        })
        &&& forall|i: int|
            0 <= i < c.len() ==> (#[trigger] self.nd(c[i])).next@ == (if i + 1 < c.len() {
                Link::Live(c[i + 1])
            } else {
                Link::Null
            })
    }

    spec fn wf_model(self) -> bool {
        &&& self.model@.len() == self.spine@.len()
        &&& forall|i: int|
            0 <= i < self.spine@.len() ==> #[trigger] self.model@[i] == self.nd(
                self.spine@[i],
            ).item
    }

    spec fn wf_mem(self) -> bool {
        &&& self.collector.wf()
        &&& forall|t: int|
            0 <= t < self.collector.retired().len() ==> self.live(
                (#[trigger] self.collector.retired()[t]).handle,
            ) && !self.spine@.contains(self.collector.retired()[t].handle)
        &&& forall|h: int|
            0 <= h < self.arena@.len() && self.arena@[h] is Some ==> self.spine@.contains(h as usize)
                || self.collector.retired_handles().contains(h as usize)
    }

    /// The structure is sound: the chain is linked without duplicates, the
    /// sequence view lists its items head first, and every node still
    /// allocated is either reachable or queued for reclamation.
    pub closed spec fn wf(self) -> bool {
        &&& self.wf_links()
        &&& self.wf_model()
        &&& self.wf_mem()
    }

    proof fn lemma_wf_gc_frame(a: LinkedList, b: LinkedList)
        requires
            a.wf(),
            b.arena == a.arena,
            b.head == a.head,
            b.spine == a.spine,
            b.model == a.model,
            b.collector.wf(),
            b.collector.retired() == a.collector.retired(),
        ensures
            b.wf(),
    {
        assert forall|i: int| 0 <= i < b.spine@.len() implies b.live(#[trigger] b.spine@[i]) && (
        #[trigger] b.nd(b.spine@[i])).next@ == (if i + 1 < b.spine@.len() {
            Link::Live(b.spine@[i + 1])
        } else {
            Link::Null
        }) by {
            assert(a.live(a.spine@[i]));
            assert(a.nd(a.spine@[i]).next@ == (if i + 1 < a.spine@.len() {
                Link::Live(a.spine@[i + 1])
            } else {
                Link::Null
            }));
        }
        assert forall|i: int, j: int| 0 <= i < j < b.spine@.len() implies b.spine@[i]
            != b.spine@[j] by {
            assert(a.spine@[i] != a.spine@[j]);
        }
        assert forall|i: int| 0 <= i < b.spine@.len() implies #[trigger] b.model@[i] == b.nd(
            b.spine@[i],
        ).item by {
            assert(a.model@[i] == a.nd(a.spine@[i]).item);
        }
        assert forall|t: int| 0 <= t < b.collector.retired().len() implies b.live(
            (#[trigger] b.collector.retired()[t]).handle,
        ) && !b.spine@.contains(b.collector.retired()[t].handle) by {
            assert(a.live(a.collector.retired()[t].handle));
            assert(!a.spine@.contains(a.collector.retired()[t].handle));
        }
        assert forall|h: int|
            0 <= h < b.arena@.len() && b.arena@[h] is Some implies b.spine@.contains(h as usize)
                || b.collector.retired_handles().contains(h as usize) by {
            assert(a.spine@.contains(h as usize) || a.collector.retired_handles().contains(
                h as usize,
            ));
            assert(b.collector.retired_handles() == a.collector.retired_handles());
        }
    }

    /// An empty stack with a fresh collector.
    pub fn new() -> (l: LinkedList)
        ensures
            l.wf(),
            l@ == Seq::<u64>::empty(),
            l.gc().epoch() == 0,
            l.gc().retired() == Seq::<crate::epoch::Retired>::empty(),
    {
        LinkedList {
            arena: Vec::new(),
            head: Atomic::init(Link::Null),
            collector: Collector::new(),
            spine: Ghost(Seq::empty()),
            model: Ghost(Seq::empty()),
        }
    }

    /// Pin the caller into the current epoch; the guard must be held across
    /// push and pop calls.
    pub fn pin(&mut self) -> (g: Guard)
        requires
            old(self).wf(),
        ensures
            final(self).wf(),
            final(self)@ == old(self)@,
            g@ == old(self).gc().epoch(),
            final(self).gc().epoch() == old(self).gc().epoch(),
            final(self).gc().pins() == old(self).gc().pins().insert(g@),
            final(self).gc().retired() == old(self).gc().retired(),
    {
        let g = self.collector.pin();
        proof {
            LinkedList::lemma_wf_gc_frame(*old(self), *self);
        }
        g
    }

    /// Drop a guard.
    pub fn unpin(&mut self, g: Guard)
        requires
            old(self).wf(),
            old(self).gc().pins().count(g@) > 0,
        ensures
            final(self).wf(),
            final(self)@ == old(self)@,
            final(self).gc().epoch() == old(self).gc().epoch(),
            final(self).gc().pins() == old(self).gc().pins().remove(g@),
            final(self).gc().retired() == old(self).gc().retired(),
    {
        self.collector.unpin(g);
        proof {
            LinkedList::lemma_wf_gc_frame(*old(self), *self);
        }
    }

    /// How many popped nodes wait for reclamation.
    pub fn retired_count(&self) -> (n: usize)
        ensures
            n == self.gc().retired().len(),
    {
        self.collector.retired_count()
    }

    /// Run a reclamation pass over the popped nodes.
    pub fn collect(&mut self)
        requires
            old(self).wf(),
            old(self).gc().epoch() < u64::MAX,
        ensures
            final(self).wf(),
            final(self)@ == old(self)@,
            final(self).gc().epoch() == old(self).gc().epoch() + 1,
            final(self).gc().pins() == old(self).gc().pins(),
            forall|r: crate::epoch::Retired|
                #[trigger] final(self).gc().retired().contains(r) <==> old(
                    self,
                ).gc().retired().contains(r) && !old(self).gc().epoch_safe(r.epoch),
    {
        let freed = self.collector.sweep();
        let ghost mid = *self;
        proof {
            old(self).collector.lemma_retired_distinct();
            assert forall|j: int| 0 <= j < freed@.len() implies mid.live(#[trigger] freed@[j])
                && !mid.spine@.contains(freed@[j]) && !mid.collector.retired_handles().contains(
                freed@[j],
            ) by {
                assert(freed@.contains(freed@[j]));
                let t = choose|t: int|
                    0 <= t < old(self).collector.retired().len() && (#[trigger] old(
                        self,
                    ).collector.retired()[t]).handle == freed@[j] && old(self).collector.epoch_safe(
                        old(self).collector.retired()[t].epoch,
                    );
                assert(old(self).live(freed@[j]));
                assert(!old(self).spine@.contains(freed@[j]));
                if mid.collector.retired_handles().contains(freed@[j]) {
                    let t2 = choose|t2: int|
                        0 <= t2 < mid.collector.retired_handles().len()
                            && mid.collector.retired_handles()[t2] == freed@[j];
                    let r2 = mid.collector.retired()[t2];
                    assert(mid.collector.retired_handles()[t2] == r2.handle);
                    assert(mid.collector.retired().contains(r2));
                    assert(old(self).collector.retired().contains(r2) && !old(
                        self,
                    ).collector.epoch_safe(r2.epoch));
                    let t3 = choose|t3: int|
                        0 <= t3 < old(self).collector.retired().len() && old(
                            self,
                        ).collector.retired()[t3] == r2;
                    assert(old(self).collector.retired()[t3].handle == old(
                        self,
                    ).collector.retired()[t].handle);
                    assert(t3 == t);
                    assert(false);
                }
            }
        }
        let mut i: usize = 0;
        while i < freed.len()
            invariant
                old(self).wf(),
                mid.arena == old(self).arena,
                mid.head == old(self).head,
                mid.spine == old(self).spine,
                mid.model == old(self).model,
                mid.collector.wf(),
                forall|r: crate::epoch::Retired|
                    #[trigger] mid.collector.retired().contains(r) <==> old(
                        self,
                    ).collector.retired().contains(r) && !old(self).collector.epoch_safe(r.epoch),
                forall|h: usize|
                    #[trigger] freed@.contains(h) <==> exists|t: int|
                        0 <= t < old(self).collector.retired().len() && (#[trigger] old(
                        self).collector.retired()[t]).handle == h && old(
                        self).collector.epoch_safe(old(self).collector.retired()[t].epoch),
                forall|j: int|
                    0 <= j < freed@.len() ==> mid.live(#[trigger] freed@[j])
                        && !mid.spine@.contains(freed@[j])
                        && !mid.collector.retired_handles().contains(freed@[j]),
                i <= freed@.len(),
                self.head == mid.head,
                self.spine == mid.spine,
                self.model == mid.model,
                self.collector == mid.collector,
                self.arena@.len() == mid.arena@.len(),
                forall|t: int|
                    0 <= t < self.arena@.len() ==> #[trigger] self.arena@[t] == (if (exists|
                        j: int,
                    |
                        0 <= j < i && freed@[j] as int == t) {
                        None::<StackNode>
                    } else {
                        mid.arena@[t]
                    }),
            decreases freed@.len() - i,
        {
            let h = freed[i];
            proof {
                assert(mid.live(h));
            }
            self.arena[h] = None;
            i = i + 1;
            proof {
                assert forall|t: int| 0 <= t < self.arena@.len() implies #[trigger] self.arena@[t]
                    == (if (exists|j: int| 0 <= j < i && freed@[j] as int == t) {
                    None::<StackNode>
                } else {
                    mid.arena@[t]
                }) by {
                    if t == h as int {
                        assert(freed@[i - 1] as int == t);
                    } else {
                        if exists|j: int| 0 <= j < i && freed@[j] as int == t {
                            let j = choose|j: int| 0 <= j < i && freed@[j] as int == t;
                            assert(0 <= j < i - 1);
                        }
                    }
                }
            }
        }
        proof {
            let a = *old(self);
            let b = *self;
            assert(b.arena.len() == b.arena@.len());
            assert forall|q: int| 0 <= q < b.spine@.len() implies b.nd(#[trigger] b.spine@[q])
                == a.nd(a.spine@[q]) && b.live(b.spine@[q]) by {
                let t = a.spine@[q];
                assert(a.spine@.contains(t));
                assert(a.live(t));
                if exists|j: int| 0 <= j < i && freed@[j] as int == t as int {
                    let j = choose|j: int| 0 <= j < i && freed@[j] as int == t as int;
                    assert(freed@[j] == t);
                    assert(!mid.spine@.contains(freed@[j]));
                    assert(false);
                }
            }
            assert forall|q1: int, q2: int| 0 <= q1 < q2 < b.spine@.len() implies b.spine@[q1]
                != b.spine@[q2] by {
                assert(a.spine@[q1] != a.spine@[q2]);
            }
            assert(b.wf_links());
            assert forall|q: int| 0 <= q < b.spine@.len() implies #[trigger] b.model@[q] == b.nd(
                b.spine@[q],
            ).item by {
                assert(a.model@[q] == a.nd(a.spine@[q]).item);
                assert(b.nd(b.spine@[q]) == a.nd(a.spine@[q]));
            }
            assert(b.wf_model());
            assert forall|t: int| 0 <= t < b.collector.retired().len() implies b.live(
                (#[trigger] b.collector.retired()[t]).handle,
            ) && !b.spine@.contains(b.collector.retired()[t].handle) by {
                let r = b.collector.retired()[t];
                let rh = r.handle;
                assert(mid.collector.retired_handles()[t] == rh);
                assert(mid.collector.retired_handles().contains(rh));
                assert(mid.collector.retired().contains(r));
                assert(a.collector.retired().contains(r));
                let t2 = choose|t2: int|
                    0 <= t2 < a.collector.retired().len() && a.collector.retired()[t2] == r;
                assert(a.live(rh));
                assert(!a.spine@.contains(rh));
                if exists|j: int| 0 <= j < i && freed@[j] as int == rh as int {
                    let j = choose|j: int| 0 <= j < i && freed@[j] as int == rh as int;
                    assert(freed@[j] == rh);
                    assert(!mid.collector.retired_handles().contains(freed@[j]));
                    assert(false);
                }
            }
            assert forall|t: int|
                0 <= t < b.arena@.len() && b.arena@[t] is Some implies b.spine@.contains(t as usize)
                    || b.collector.retired_handles().contains(t as usize) by {
                let tu = t as usize;
                assert(!(exists|j: int| 0 <= j < i && freed@[j] as int == t));
                assert(a.arena@[t] is Some);
                assert(a.spine@.contains(tu) || a.collector.retired_handles().contains(tu));
                if a.spine@.contains(tu) {
                    assert(b.spine@.contains(tu));
                } else {
                    let t2 = choose|t2: int|
                        0 <= t2 < a.collector.retired_handles().len()
                            && a.collector.retired_handles()[t2] == tu;
                    let r2 = a.collector.retired()[t2];
                    assert(a.collector.retired_handles()[t2] == r2.handle);
                    assert(a.collector.retired().contains(r2));
                    if a.collector.epoch_safe(r2.epoch) {
                        assert(freed@.contains(tu));
                        let j = choose|j: int| 0 <= j < freed@.len() && freed@[j] == tu;
                        assert(i == freed@.len());
                        assert(freed@[j] as int == t);
                        assert(false);
                    } else {
                        assert(mid.collector.retired().contains(r2));
                        let t3 = choose|t3: int|
                            0 <= t3 < mid.collector.retired().len() && mid.collector.retired()[t3]
                                == r2;
                        assert(mid.collector.retired_handles()[t3] == tu);
                        assert(b.collector.retired_handles().contains(tu));
                    }
                }
            }
            assert(b.wf_mem());
        }
    }

    /// Push `item`: a fresh node becomes the head by compare-and-swap; the
    /// caller's guard must be active.
    pub fn push(&mut self, item: u64, g: &Guard)
        requires
            old(self).wf(),
            old(self).gc().pins().count(g@) > 0,
        ensures
            final(self).wf(),
            final(self)@ == seq![item] + old(self)@,
            final(self).gc() == old(self).gc(),
    {
        let ghost a = *old(self);
        let old_head = self.head.load();
        let h = self.arena.len();
        let mut n = StackNode { item, next: Atomic::init(Link::Null) };
        n.next.store(old_head);
        self.arena.push(Some(n));
        let res = self.head.compare_exchange(old_head, Link::Live(h));
        proof {
            self.spine@ = seq![h] + a.spine@;
            self.model@ = seq![item] + a.model@;
        }
        proof {
            let b = *self;
            let c = a.spine@;
            let c2 = b.spine@;
            assert(c2.len() == c.len() + 1);
            assert(c2[0] == h);
            assert(forall|i: int| 0 <= i < c.len() ==> #[trigger] c2[i + 1] == c[i]);
            assert forall|i: int| 0 <= i < c.len() implies a.live(#[trigger] c[i]) && c[i] != h
                && b.nd(c[i]) == a.nd(c[i]) by {}
            assert forall|i: int| 0 <= i < c2.len() implies b.live(#[trigger] c2[i]) && (
            #[trigger] b.nd(c2[i])).next@ == (if i + 1 < c2.len() {
                Link::Live(c2[i + 1])
            } else {
                Link::Null
            }) by {
                if i > 0 {
                    assert(c2[i] == c[i - 1]);
                    assert(a.nd(c[i - 1]).next@ == (if i < c.len() {
                        Link::Live(c[i])
                    } else {
                        Link::Null
                    }));
                }
            }
            assert forall|i: int, j: int| 0 <= i < j < c2.len() implies c2[i] != c2[j] by {
                if i == 0 {
                    assert(c[j - 1] != h);
                } else {
                    assert(c[i - 1] != c[j - 1]);
                }
            }
            assert(b.wf_links());
            assert forall|i: int| 0 <= i < c2.len() implies #[trigger] b.model@[i] == b.nd(
                c2[i],
            ).item by {
                if i > 0 {
                    assert(a.model@[i - 1] == a.nd(c[i - 1]).item);
                }
            }
            assert(b.wf_model());
            assert forall|t: int| 0 <= t < b.collector.retired().len() implies b.live(
                (#[trigger] b.collector.retired()[t]).handle,
            ) && !c2.contains(b.collector.retired()[t].handle) by {
                let rh = a.collector.retired()[t].handle;
                assert(a.live(rh));
                assert(!a.spine@.contains(rh));
                assert forall|q: int| 0 <= q < c2.len() implies c2[q] != rh by {
                    if q > 0 {
                        assert(!c.contains(rh));
                        assert(c[q - 1] != rh);
                    } else {
                        assert(rh < a.arena@.len());
                    }
                }
            }
            assert forall|t: int|
                0 <= t < b.arena@.len() && b.arena@[t] is Some implies c2.contains(t as usize)
                    || b.collector.retired_handles().contains(t as usize) by {
                if t == h as int {
                    assert(c2[0] == t as usize);
                } else {
                    assert(a.arena@[t] is Some);
                    assert(a.spine@.contains(t as usize) || a.collector.retired_handles().contains(
                        t as usize,
                    ));
                    if a.spine@.contains(t as usize) {
                        let q = choose|q: int| 0 <= q < c.len() && c[q] == t as usize;
                        assert(c2[q + 1] == t as usize);
                    }
                }
            }
            assert(b.wf_mem());
        }
        proof {
            if res is Err {
                assert(false);
            }
        }
    }

    /// Pop the head item, if any: the head swings to the successor and the
    /// detached node's reclamation is deferred; the caller's guard must be
    /// active and keeps the node alive while held.
    pub fn pop(&mut self, g: &Guard) -> (r: Option<u64>)
        requires
            old(self).wf(),
            old(self).gc().pins().count(g@) > 0,
        ensures
            final(self).wf(),
            r == (if old(self)@.len() == 0 {
                None::<u64>
            } else {
                Some(old(self)@[0])
            }),
            final(self)@ == (if old(self)@.len() == 0 {
                old(self)@
            } else {
                old(self)@.drop_first()
            }),
            final(self).gc().epoch() == old(self).gc().epoch(),
            final(self).gc().pins() == old(self).gc().pins(),
            old(self)@.len() == 0 ==> final(self).gc().retired() == old(self).gc().retired(),
            old(self)@.len() > 0 ==> final(self).gc().retired().len() == old(
                self,
            ).gc().retired().len() + 1,
    {
        let ghost a = *old(self);
        let old_head = self.head.load();
        match old_head {
            Link::Null => None,
            Link::Live(h) => {
                let n = match &self.arena[h] {
                    Some(n) => *n,
                    None => vstd::pervasive::unreached(),
                };
                let nxt = n.next.load();
                let res = self.head.compare_exchange(old_head, nxt);
                proof {
                    if res is Err {
                        assert(false);
                    }
                    if self.collector.retired_handles().contains(h) {
                        let t = choose|t: int|
                            0 <= t < self.collector.retired_handles().len()
                                && self.collector.retired_handles()[t] == h;
                        assert(self.collector.retired()[t].handle == h);
                        assert(!a.spine@.contains(h));
                        assert(a.spine@[0] == h);
                        assert(false);
                    }
                }
                self.collector.defer(h);
                proof {
                    self.spine@ = a.spine@.drop_first();
                    self.model@ = a.model@.drop_first();
                }
                proof {
                    let b = *self;
                    let c = a.spine@;
                    let c2 = b.spine@;
                    assert(b.arena.len() == b.arena@.len());
                    assert(h == c[0]);
                    assert(a.nd(c[0]).next@ == (if 1 < c.len() {
                        Link::Live(c[1])
                    } else {
                        Link::Null
                    }));
                    assert(c2.len() == c.len() - 1);
                    assert(forall|i: int| 0 <= i < c2.len() ==> #[trigger] c2[i] == c[i + 1]);
                    assert forall|i: int| 0 <= i < c2.len() implies b.live(#[trigger] c2[i]) && (
                    #[trigger] b.nd(c2[i])).next@ == (if i + 1 < c2.len() {
                        Link::Live(c2[i + 1])
                    } else {
                        Link::Null
                    }) by {
                        assert(a.live(c[i + 1]));
                        assert(a.nd(c[i + 1]).next@ == (if i + 2 < c.len() {
                            Link::Live(c[i + 2])
                        } else {
                            Link::Null
                        }));
                    }
                    assert forall|i: int, j: int| 0 <= i < j < c2.len() implies c2[i] != c2[j] by {
                        assert(c[i + 1] != c[j + 1]);
                    }
                    assert(b.head@ == (if c2.len() == 0 {
                        Link::Null
                    } else {
                        Link::Live(c2[0])
                    }));
                    assert(b.wf_links());
                    assert forall|i: int| 0 <= i < c2.len() implies #[trigger] b.model@[i] == b.nd(
                        c2[i],
                    ).item by {
                        assert(a.model@[i + 1] == a.nd(c[i + 1]).item);
                    }
                    assert(b.wf_model());
                    assert forall|t: int| 0 <= t < b.collector.retired().len() implies b.live(
                        (#[trigger] b.collector.retired()[t]).handle,
                    ) && !c2.contains(b.collector.retired()[t].handle) by {
                        let rh = b.collector.retired()[t].handle;
                        if t < a.collector.retired().len() {
                            assert(a.live(rh));
                            assert(!a.spine@.contains(rh));
                            assert forall|q: int| 0 <= q < c2.len() implies c2[q] != rh by {
                                assert(c[q + 1] != rh);
                            }
                        } else {
                            assert(rh == h);
                            assert(a.live(h));
                            assert forall|q: int| 0 <= q < c2.len() implies c2[q] != h by {
                                assert(c[0] != c[q + 1]);
                            }
                        }
                    }
                    assert forall|t: int|
                        0 <= t < b.arena@.len() && b.arena@[t] is Some implies c2.contains(
                            t as usize,
                        ) || b.collector.retired_handles().contains(t as usize) by {
                        assert(a.arena@[t] is Some);
                        assert(a.spine@.contains(t as usize)
                            || a.collector.retired_handles().contains(t as usize));
                        if t == h as int {
                            assert(b.collector.retired()[b.collector.retired().len() - 1]
                                == (crate::epoch::Retired {
                                handle: h,
                                epoch: a.collector.epoch(),
                            }));
                            assert(b.collector.retired_handles()[b.collector.retired().len() - 1]
                                == h);
                            assert(b.collector.retired_handles().contains(t as usize));
                        } else if a.spine@.contains(t as usize) {
                            let q = choose|q: int| 0 <= q < c.len() && c[q] == t as usize;
                            assert(q != 0);
                            assert(c2[q - 1] == t as usize);
                        } else {
                            let t2 = choose|t2: int|
                                0 <= t2 < a.collector.retired_handles().len()
                                    && a.collector.retired_handles()[t2] == t as usize;
                            assert(b.collector.retired_handles()[t2] == t as usize);
                        }
                    }
                    assert(b.wf_mem());
                }
                Some(n.item)
            },
        }
    }
}

} // verus!
