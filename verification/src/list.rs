//! The tombstone-deleting linked map.
//!
//! A chain of doubly linked nodes, each holding one key together with an
//! atomically swappable value slot and an `active` flag. Lookup walks the
//! chain and reports the first active node with the key; insert either swaps
//! the value of the live node for the key or appends a fresh node at the tail;
//! removal is two-phase — the node is first marked inactive (the tombstone,
//! invisible to every later lookup) and only then unlinked, after which its
//! reclamation is deferred through the epoch collector rather than performed
//! eagerly.
//!
//! Nodes live in an arena owned by the list and links carry arena handles, so
//! the whole protocol, including the rule that no reachable node is ever
//! reclaimed, is checked by the verifier.

use crate::epoch::{Collector, Guard};
use crate::slot::{Atomic, Link};
use vstd::multiset::Multiset;
use vstd::prelude::*;

verus! {

/// What an insert did: appended a fresh entry, swapped the value of the live
/// entry for the key, or lost the value swap to a competing writer — the
/// competing value is reported and the caller decides whether to retry.
#[derive(Clone, Copy, PartialEq, Eq, Structural, Debug)]
pub enum InsertOutcome {
    Inserted,
    Updated,
    Conflict(u64),
}

/// One node of the chain.
#[derive(Clone, Copy)]
struct Node {
    key: u64,
    value: Atomic<u64>,
    active: Atomic<bool>,
    next: Atomic<Link>,
    prev: Atomic<Link>,
}

impl Node {
    /// A fresh, live, unlinked node.
    fn new(key: u64, value: u64) -> (n: Node)
        ensures
            n.key == key,
            n.value@ == value,
            n.active@ == true,
            n.next@ == Link::Null,
            n.prev@ == Link::Null,
    {
        Node {
            key,
            value: Atomic::init(value),
            active: Atomic::init(true),
            next: Atomic::init(Link::Null),
            prev: Atomic::init(Link::Null),
        }
    }
}

/// The map: an arena of nodes, the head link of the chain, and the epoch
/// collector that defers reclamation of unlinked nodes.
pub struct List {
    arena: Vec<Option<Node>>,
    head: Atomic<Link>,
    collector: Collector,
    spine: Ghost<Seq<usize>>,
    model: Ghost<Map<u64, u64>>,
}

impl View for List {
    type V = Map<u64, u64>;

    closed spec fn view(&self) -> Map<u64, u64> {
        self.model@
    }
}

impl List {
    /// The handles of the chain, head first.
    pub closed spec fn reachable(self) -> Seq<usize> {
        self.spine@
    }

    /// Whether the arena still holds a node under `h`.
    pub closed spec fn allocated(self, h: usize) -> bool {
        h < self.arena@.len() && self.arena@[h as int] is Some
    }

    /// The reclamation state.
    pub closed spec fn gc(self) -> Collector {
        self.collector
    }

    spec fn nd(self, h: usize) -> Node {
        self.arena@[h as int].unwrap()
    }

    spec fn key_at(self, i: int) -> u64 {
        self.nd(self.spine@[i]).key
    }

    spec fn val_at(self, i: int) -> u64 {
        self.nd(self.spine@[i]).value@
    }

    spec fn act_at(self, i: int) -> bool {
        self.nd(self.spine@[i]).active@
    }

    spec fn wf_links(self) -> bool {
        let c = self.spine@;
        &&& forall|i: int| 0 <= i < c.len() ==> self.allocated(#[trigger] c[i])
        &&& forall|i: int, j: int| 0 <= i < j < c.len() ==> c[i] != c[j]
        &&& self.head@ == (if c.len() == 0 {
            Link::Null
        } else {
            Link::Live(c[0])
        })
        &&& forall|i: int|
            0 <= i < c.len() ==> (#[trigger] self.nd(c[i])).next@ == (if i + 1 < c.len() {
                Link::Live(c[i + 1])
            } else {
                Link::Null
            })
        &&& forall|i: int|
            0 <= i < c.len() ==> (#[trigger] self.nd(c[i])).prev@ == (if 0 < i {
                Link::Live(c[i - 1])
            } else {
                Link::Null
            })
    }

    spec fn wf_model(self) -> bool {
        &&& forall|i: int|
            0 <= i < self.spine@.len() && self.act_at(i) ==> self.model@.contains_key(
                #[trigger] self.key_at(i),
            ) && self.model@[self.key_at(i)] == self.val_at(i)
        &&& forall|k: u64|
            #[trigger] self.model@.contains_key(k) ==> exists|i: int|
                0 <= i < self.spine@.len() && self.act_at(i) && self.key_at(i) == k
        &&& forall|i: int, j: int|
            0 <= i < self.spine@.len() && 0 <= j < self.spine@.len() && i != j && self.act_at(i)
                && self.act_at(j) ==> #[trigger] self.key_at(i) != #[trigger] self.key_at(j)
    }

    spec fn wf_mem(self) -> bool {
        &&& self.collector.wf()
        &&& forall|t: int|
            0 <= t < self.collector.retired().len() ==> self.allocated(
                (#[trigger] self.collector.retired()[t]).handle,
            ) && !self.spine@.contains(self.collector.retired()[t].handle)
        &&& forall|h: int|
            0 <= h < self.arena@.len() && self.arena@[h] is Some ==> self.spine@.contains(h as usize)
                || self.collector.retired_handles().contains(h as usize)
    }

    /// The structure is sound: the chain is doubly linked without duplicates,
    /// the map view matches exactly the active nodes, each key has at most one
    /// active node, and every node still allocated is either reachable or
    /// queued for reclamation — never both.
    pub closed spec fn wf(self) -> bool {
        &&& self.wf_links()
        &&& self.wf_model()
        &&& self.wf_mem()
    }

    /// Law (no dangling access): every reachable node is still allocated, and
    /// no reachable node sits in the retirement queue — so a sweep, which
    /// frees only retired handles, can never free a node a traversal could
    /// still step onto.
    pub proof fn lemma_no_dangling(self)
        requires
            self.wf(),
        ensures
            forall|i: int|
                0 <= i < self.reachable().len() ==> self.allocated(#[trigger] self.reachable()[i])
                    && !self.gc().retired_handles().contains(self.reachable()[i]),
    {
        assert forall|i: int| 0 <= i < self.reachable().len() implies self.allocated(
            #[trigger] self.reachable()[i],
        ) && !self.gc().retired_handles().contains(self.reachable()[i]) by {
            if self.gc().retired_handles().contains(self.reachable()[i]) {
                let t = choose|t: int|
                    0 <= t < self.gc().retired_handles().len() && self.gc().retired_handles()[t]
                        == self.reachable()[i];
                assert(self.collector.retired()[t].handle == self.reachable()[i]);
                assert(self.spine@.contains(self.reachable()[i]));
            }
        }
    }

    /// Law (round trip): inserting `(k, v)` puts exactly `v` under `k` in the
    /// view, so by the contract of `get` an immediately following lookup of
    /// `k` returns `Some(v)`.
    pub proof fn lemma_round_trip(m: Map<u64, u64>, k: u64, v: u64)
        ensures
            m.insert(k, v).contains_key(k),
            m.insert(k, v)[k] == v,
    {
    }

    /// Law (lookups see the latest write): of two successive inserts for the
    /// same key, the later one determines the view, so a lookup not raced by
    /// any writer returns the most recently inserted value.
    pub proof fn lemma_last_write_wins(m: Map<u64, u64>, k: u64, v1: u64, v2: u64)
        ensures
            m.insert(k, v1).insert(k, v2)[k] == v2,
    {
    }

    /// Law (remove idempotence): removing `k` leaves a view without `k`, so by
    /// the contract of `remove` a second, uninterleaved `remove(k)` returns
    /// `false`.
    pub proof fn lemma_remove_idempotent(m: Map<u64, u64>, k: u64)
        ensures
            !m.remove(k).contains_key(k),
    {
    }

    proof fn lemma_wf_gc_frame(a: List, b: List)
        requires
            a.wf(),
            b.arena == a.arena,
            b.head == a.head,
            b.spine == a.spine,
            b.model == a.model,
            b.collector.wf(),
            b.collector.retired() == a.collector.retired(),
        ensures
            b.wf(),
    {
        assert forall|i: int| 0 <= i < b.spine@.len() implies b.allocated(
            #[trigger] b.spine@[i],
        ) by {
            assert(a.allocated(a.spine@[i]));
        }
        assert forall|i: int, j: int| 0 <= i < j < b.spine@.len() implies b.spine@[i]
            != b.spine@[j] by {
            assert(a.spine@[i] != a.spine@[j]);
        }
        assert forall|i: int| 0 <= i < b.spine@.len() implies (#[trigger] b.nd(b.spine@[i])).next@
            == (if i + 1 < b.spine@.len() {
            Link::Live(b.spine@[i + 1])
        } else {
            Link::Null
        }) by {
            assert(a.nd(a.spine@[i]).next@ == (if i + 1 < a.spine@.len() {
                Link::Live(a.spine@[i + 1])
            } else {
                Link::Null
            }));
        }
        assert forall|i: int| 0 <= i < b.spine@.len() implies (#[trigger] b.nd(b.spine@[i])).prev@
            == (if 0 < i {
            Link::Live(b.spine@[i - 1])
        } else {
            Link::Null
        }) by {
            assert(a.nd(a.spine@[i]).prev@ == (if 0 < i {
                Link::Live(a.spine@[i - 1])
            } else {
                Link::Null
            }));
        }
        assert forall|i: int| 0 <= i < b.spine@.len() && b.act_at(i) implies b.model@.contains_key(
            #[trigger] b.key_at(i),
        ) && b.model@[b.key_at(i)] == b.val_at(i) by {
            assert(a.act_at(i) && a.key_at(i) == b.key_at(i));
        }
        assert forall|k: u64| #[trigger] b.model@.contains_key(k) implies exists|i: int|
            0 <= i < b.spine@.len() && b.act_at(i) && b.key_at(i) == k by {
            assert(a.model@.contains_key(k));
            let i = choose|i: int| 0 <= i < a.spine@.len() && a.act_at(i) && a.key_at(i) == k;
            assert(0 <= i < b.spine@.len() && b.act_at(i) && b.key_at(i) == k);
        }
        assert forall|i: int, j: int|
            0 <= i < b.spine@.len() && 0 <= j < b.spine@.len() && i != j && b.act_at(i) && b.act_at(
                j,
            ) implies #[trigger] b.key_at(i) != #[trigger] b.key_at(j) by {
            assert(a.key_at(i) != a.key_at(j));
        }
        assert forall|t: int| 0 <= t < b.collector.retired().len() implies b.allocated(
            (#[trigger] b.collector.retired()[t]).handle,
        ) && !b.spine@.contains(b.collector.retired()[t].handle) by {
            assert(a.allocated(a.collector.retired()[t].handle));
            assert(!a.spine@.contains(a.collector.retired()[t].handle));
        }
        assert forall|h: int|
            0 <= h < b.arena@.len() && b.arena@[h] is Some implies b.spine@.contains(h as usize)
                || b.collector.retired_handles().contains(h as usize) by {
            assert(a.spine@.contains(h as usize) || a.collector.retired_handles().contains(
                h as usize,
            ));
            assert(b.collector.retired_handles() == a.collector.retired_handles());
        }
    }

    proof fn lemma_remove_wf(a: List, b: List, pos: int, key: u64, cur: usize, nxt: Link, prv: Link)
        requires
            a.wf(),
            0 <= pos < a.spine@.len(),
            cur == a.spine@[pos],
            a.act_at(pos),
            a.key_at(pos) == key,
            nxt == (if pos + 1 < a.spine@.len() {
                Link::Live(a.spine@[pos + 1])
            } else {
                Link::Null
            }),
            prv == (if 0 < pos {
                Link::Live(a.spine@[pos - 1])
            } else {
                Link::Null
            }),
            b.spine@.len() == a.spine@.len() - 1,
            forall|j: int| 0 <= j < pos ==> b.spine@[j] == a.spine@[j],
            forall|j: int| pos <= j < b.spine@.len() ==> b.spine@[j] == a.spine@[j + 1],
            b.model@ == a.model@.remove(key),
            b.arena@.len() == a.arena@.len(),
            forall|t: int| 0 <= t < b.arena@.len() ==> (b.arena@[t] is Some <==> a.arena@[t] is Some),
            forall|i: int|
                0 <= i < a.spine@.len() && i != pos && i != pos - 1 && i != pos + 1 ==> b.nd(
                    #[trigger] a.spine@[i],
                ) == a.nd(a.spine@[i]),
            0 < pos ==> b.nd(a.spine@[pos - 1]).next@ == nxt && b.nd(a.spine@[pos - 1]).prev@
                == a.nd(a.spine@[pos - 1]).prev@ && b.nd(a.spine@[pos - 1]).key == a.nd(
                a.spine@[pos - 1],
            ).key && b.nd(a.spine@[pos - 1]).active@ == a.nd(a.spine@[pos - 1]).active@ && b.nd(
                a.spine@[pos - 1],
            ).value@ == a.nd(a.spine@[pos - 1]).value@,
            pos + 1 < a.spine@.len() ==> b.nd(a.spine@[pos + 1]).prev@ == prv && b.nd(
                a.spine@[pos + 1],
            ).next@ == a.nd(a.spine@[pos + 1]).next@ && b.nd(a.spine@[pos + 1]).key == a.nd(
                a.spine@[pos + 1],
            ).key && b.nd(a.spine@[pos + 1]).active@ == a.nd(a.spine@[pos + 1]).active@ && b.nd(
                a.spine@[pos + 1],
            ).value@ == a.nd(a.spine@[pos + 1]).value@,
            b.head@ == (if pos == 0 {
                nxt
            } else {
                a.head@
            }),
            b.collector.wf(),
            b.collector.retired() == a.collector.retired().push(
                (crate::epoch::Retired { handle: cur, epoch: a.collector.epoch() }),
            ),
        ensures
            b.wf(),
    {
        let c = a.spine@;
        let c2 = b.spine@;
        assert forall|i: int| 0 <= i < c2.len() implies b.allocated(#[trigger] c2[i]) && c2[i]
            != cur by {
            let j = if i < pos {
                i
            } else {
                i + 1
            };
            assert(a.allocated(c[j]));
            if j < pos {
                assert(c[j] != c[pos]);
            } else {
                assert(c[pos] != c[j]);
            }
        }
        assert forall|i: int, j: int| 0 <= i < j < c2.len() implies c2[i] != c2[j] by {
            let i2 = if i < pos {
                i
            } else {
                i + 1
            };
            let j2 = if j < pos {
                j
            } else {
                j + 1
            };
            assert(c[i2] != c[j2]);
        }
        assert forall|i: int| 0 <= i < c2.len() implies (#[trigger] b.nd(c2[i])).next@ == (if i + 1
            < c2.len() {
            Link::Live(c2[i + 1])
        } else {
            Link::Null
        }) && b.nd(c2[i]).prev@ == (if 0 < i {
            Link::Live(c2[i - 1])
        } else {
            Link::Null
        }) by {
            let j = if i < pos {
                i
            } else {
                i + 1
            };
            if j != pos - 1 && j != pos + 1 {
                assert(b.nd(c[j]) == a.nd(c[j]));
            }
            assert(a.nd(c[j]).next@ == (if j + 1 < c.len() {
                Link::Live(c[j + 1])
            } else {
                Link::Null
            }));
            assert(a.nd(c[j]).prev@ == (if 0 < j {
                Link::Live(c[j - 1])
            } else {
                Link::Null
            }));
        }
        assert(b.wf_links());
        assert forall|i: int| 0 <= i < c2.len() implies b.key_at(i) == a.key_at(
            (if i < pos {
                i
            } else {
                i + 1
            }),
        ) && b.act_at(i) == a.act_at(
            (if i < pos {
                i
            } else {
                i + 1
            }),
        ) && b.val_at(i) == a.val_at(
            (if i < pos {
                i
            } else {
                i + 1
            }),
        ) by {
            let j = if i < pos {
                i
            } else {
                i + 1
            };
            if j != pos - 1 && j != pos + 1 {
                assert(b.nd(c[j]) == a.nd(c[j]));
            }
        }
        assert forall|i: int| 0 <= i < c2.len() && b.act_at(i) implies b.model@.contains_key(
            #[trigger] b.key_at(i),
        ) && b.model@[b.key_at(i)] == b.val_at(i) by {
            let j = if i < pos {
                i
            } else {
                i + 1
            };
            assert(a.act_at(j) && a.act_at(pos));
            assert(a.key_at(j) != a.key_at(pos));
            assert(a.model@.contains_key(a.key_at(j)));
        }
        assert forall|k: u64| #[trigger] b.model@.contains_key(k) implies exists|i: int|
            0 <= i < c2.len() && b.act_at(i) && b.key_at(i) == k by {
            assert(a.model@.contains_key(k) && k != key);
            let j = choose|j: int| 0 <= j < a.spine@.len() && a.act_at(j) && a.key_at(j) == k;
            assert(j != pos);
            let i = if j < pos {
                j
            } else {
                j - 1
            };
            assert(b.act_at(i) && b.key_at(i) == k);
        }
        assert forall|i: int, j: int|
            0 <= i < c2.len() && 0 <= j < c2.len() && i != j && b.act_at(i) && b.act_at(
                j,
            ) implies #[trigger] b.key_at(i) != #[trigger] b.key_at(j) by {
            let i2 = if i < pos {
                i
            } else {
                i + 1
            };
            let j2 = if j < pos {
                j
            } else {
                j + 1
            };
            assert(a.act_at(i2) && a.act_at(j2));
            assert(a.key_at(i2) != a.key_at(j2));
        }
        assert(b.wf_model());
        assert forall|t: int| 0 <= t < b.collector.retired().len() implies b.allocated(
            (#[trigger] b.collector.retired()[t]).handle,
        ) && !c2.contains(b.collector.retired()[t].handle) by {
            let rh = b.collector.retired()[t].handle;
            if t < a.collector.retired().len() {
                assert(a.allocated(rh));
                assert(!c.contains(rh));
                assert forall|q2: int| 0 <= q2 < c2.len() implies c2[q2] != rh by {
                    let j = if q2 < pos {
                        q2
                    } else {
                        q2 + 1
                    };
                    assert(c[j] != rh);
                }
            } else {
                assert(rh == cur);
                assert(a.allocated(cur));
            }
        }
        assert forall|t: int| 0 <= t < b.arena@.len() && b.arena@[t] is Some implies c2.contains(
            t as usize,
        ) || b.collector.retired_handles().contains(t as usize) by {
            let tu = t as usize;
            assert(a.arena@[t] is Some);
            assert(a.spine@.contains(tu) || a.collector.retired_handles().contains(tu));
            if a.spine@.contains(tu) {
                let j = choose|j: int| 0 <= j < c.len() && c[j] == tu;
                if j == pos {
                    assert(tu == cur);
                    assert(b.collector.retired()[b.collector.retired().len() - 1]
                        == (crate::epoch::Retired { handle: cur, epoch: a.collector.epoch() }));
                    assert(b.collector.retired_handles()[b.collector.retired().len() - 1] == cur);
                    assert(b.collector.retired_handles().contains(tu));
                } else {
                    let i = if j < pos {
                        j
                    } else {
                        j - 1
                    };
                    assert(c2[i] == tu);
                }
            } else {
                let t2 = choose|t2: int|
                    0 <= t2 < a.collector.retired_handles().len()
                        && a.collector.retired_handles()[t2] == tu;
                assert(b.collector.retired_handles()[t2] == tu);
            }
        }
        assert(b.wf_mem());
    }


    fn read_node(&self, h: usize) -> (n: Node)
        requires
            self.allocated(h),
        ensures
            n == self.nd(h),
    {
        match &self.arena[h] {
            Some(n) => *n,
            None => vstd::pervasive::unreached(),
        }
    }

    fn write_node(&mut self, h: usize, n: Node)
        requires
            old(self).allocated(h),
        ensures
            final(self).arena@ == old(self).arena@.update(h as int, Some(n)),
            final(self).head == old(self).head,
            final(self).collector == old(self).collector,
            final(self).spine == old(self).spine,
            final(self).model == old(self).model,
    {
        self.arena[h] = Some(n);
    }

    fn alloc_node(&mut self, key: u64, value: u64, prev: Link) -> (h: usize)
        ensures
            h == old(self).arena@.len(),
            final(self).arena@.len() == old(self).arena@.len() + 1,
            forall|t: int|
                0 <= t < old(self).arena@.len() ==> final(self).arena@[t] == old(self).arena@[t],
            final(self).allocated(h),
            final(self).nd(h).key == key,
            final(self).nd(h).value@ == value,
            final(self).nd(h).active@ == true,
            final(self).nd(h).next@ == Link::Null,
            final(self).nd(h).prev@ == prev,
            final(self).head == old(self).head,
            final(self).collector == old(self).collector,
            final(self).spine == old(self).spine,
            final(self).model == old(self).model,
    {
        let h = self.arena.len();
        let mut n = Node::new(key, value);
        n.prev.store(prev);
        self.arena.push(Some(n));
        h
    }

    /// Look `key` up: the value of the first active node carrying it, copied
    /// out. Tombstoned nodes are invisible; the walk neither blocks nor
    /// mutates.
    pub fn get(&self, key: u64) -> (r: Option<u64>)
        requires
            self.wf(),
        ensures
            r == (if self@.contains_key(key) {
                Some(self@[key])
            } else {
                None::<u64>
            }),
    {
        let mut link = self.head.load();
        let ghost mut pos: int = 0;
        loop
            invariant
                self.wf(),
                0 <= pos <= self.spine@.len(),
                link == (if pos < self.spine@.len() {
                    Link::Live(self.spine@[pos])
                } else {
                    Link::Null
                }),
                forall|i: int| 0 <= i < pos ==> !(self.act_at(i) && self.key_at(i) == key),
            decreases self.spine@.len() - pos,
        {
            match link {
                Link::Null => {
                    proof {
                        if self@.contains_key(key) {
                            let i = choose|i: int|
                                0 <= i < self.spine@.len() && self.act_at(i) && self.key_at(i)
                                    == key;
                            assert(false);
                        }
                    }
                    return None;
                },
                Link::Live(cur) => {
                    let n = self.read_node(cur);
                    if n.key == key && n.active.load() {
                        proof {
                            assert(self.act_at(pos) && self.key_at(pos) == key);
                        }
                        return Some(n.value.load());
                    }
                    link = n.next.load();
                    proof {
                        pos = pos + 1;
                    }
                },
            }
        }
    }

    /// Insert or update: if an active node for the key exists its value slot
    /// is swapped to `value`; a lost swap would be reported as `Conflict` with
    /// the competing value, for the caller to retry — with exclusive access
    /// the swap cannot lose, so the call reports `Updated`. Otherwise a fresh
    /// node is appended at the tail (or installed as the head of an empty
    /// chain) and the call reports `Inserted`.
    pub fn insert(&mut self, key: u64, value: u64) -> (r: InsertOutcome)
        requires
            old(self).wf(),
        ensures
            final(self).wf(),
            final(self)@ == old(self)@.insert(key, value),
            r == (if old(self)@.contains_key(key) {
                InsertOutcome::Updated
            } else {
                InsertOutcome::Inserted
            }),
            final(self).gc().epoch() == old(self).gc().epoch(),
            final(self).gc().pins() == old(self).gc().pins(),
            final(self).gc().retired() == old(self).gc().retired(),
    {
        let g = self.collector.pin();
        proof {
            List::lemma_wf_gc_frame(*old(self), *self);
        }
        let ghost entry = *self;
        let mut link = self.head.load();
        match link {
            Link::Null => {
                proof {
                    if self@.contains_key(key) {
                        let i = choose|i: int|
                            0 <= i < self.spine@.len() && self.act_at(i) && self.key_at(i) == key;
                        assert(false);
                    }
                }
                let h = self.alloc_node(key, value, Link::Null);
                self.head.store(Link::Live(h));
                proof {
                    self.spine@ = entry.spine@.push(h);
                    self.model@ = entry.model@.insert(key, value);
                }
                proof {
                    let a = entry;
                    let b = *self;
                    assert(b.spine@.len() == 1 && b.spine@[0] == h);
                    assert(b.wf_links());
                    assert forall|k: u64| #[trigger] b.model@.contains_key(k) implies exists|i: int|
                        0 <= i < b.spine@.len() && b.act_at(i) && b.key_at(i) == k by {
                        if k == key {
                            assert(b.act_at(0) && b.key_at(0) == k);
                        } else {
                            assert(a.model@.contains_key(k));
                            assert(false);
                        }
                    }
                    assert(b.wf_model());
                    assert forall|t: int| 0 <= t < b.collector.retired().len() implies b.allocated(
                        (#[trigger] b.collector.retired()[t]).handle,
                    ) && !b.spine@.contains(b.collector.retired()[t].handle) by {
                        assert(a.allocated(a.collector.retired()[t].handle));
                        assert(b.collector.retired()[t].handle != h);
                    }
                    assert forall|t: int|
                        0 <= t < b.arena@.len() && b.arena@[t] is Some implies b.spine@.contains(
                            t as usize,
                        ) || b.collector.retired_handles().contains(t as usize) by {
                        if t == h as int {
                            assert(b.spine@[0] == t as usize);
                        } else {
                            assert(a.arena@[t] is Some);
                            assert(a.spine@.contains(t as usize)
                                || a.collector.retired_handles().contains(t as usize));
                        }
                    }
                    assert(b.wf_mem());
                }
                let ghost before = *self;
                self.collector.unpin(g);
                proof {
                    List::lemma_wf_gc_frame(before, *self);
                    assert(self.collector.pins() =~= old(self).collector.pins());
                }
                return InsertOutcome::Inserted;
            },
            Link::Live(first) => {
                let mut cur = first;
                let ghost mut pos: int = 0;
                loop
                    invariant
                        *self == entry,
                        entry.wf(),
                        entry.arena == old(self).arena,
                        entry.head == old(self).head,
                        entry.spine == old(self).spine,
                        entry.model == old(self).model,
                        entry.collector.wf(),
                        entry.collector.epoch() == old(self).collector.epoch(),
                        entry.collector.retired() == old(self).collector.retired(),
                        entry.collector.pins() == old(self).collector.pins().insert(g@),
                        g@ == old(self).collector.epoch(),
                        0 <= pos < self.spine@.len(),
                        cur == self.spine@[pos],
                        forall|i: int| 0 <= i < pos ==> !(self.act_at(i) && self.key_at(i) == key),
                    decreases self.spine@.len() - pos,
                {
                    let n = self.read_node(cur);
                    if n.key == key && n.active.load() {
                        proof {
                            assert(self.act_at(pos) && self.key_at(pos) == key);
                        }
                        let oldv = n.value.load();
                        let mut n2 = n;
                        let res = n2.value.compare_exchange(oldv, value);
                        self.write_node(cur, n2);
                        proof {
                            self.model@ = entry.model@.insert(key, value);
                        }
                        proof {
                            let a = entry;
                            let b = *self;
                            let c = a.spine@;
                            assert(b.spine@ == c);
                            assert forall|t: int| 0 <= t < c.len() && t != pos implies b.nd(
                                #[trigger] c[t],
                            ) == a.nd(c[t]) by {
                                if t < pos {
                                    assert(c[t] != c[pos]);
                                } else {
                                    assert(c[pos] != c[t]);
                                }
                            }
                            assert(b.nd(c[pos]).key == a.nd(c[pos]).key && b.nd(c[pos]).active@
                                == a.nd(c[pos]).active@ && b.nd(c[pos]).next@ == a.nd(c[pos]).next@
                                && b.nd(c[pos]).prev@ == a.nd(c[pos]).prev@);
                            assert(b.nd(c[pos]).value@ == value);
                            assert forall|x: usize| b.allocated(x) == a.allocated(x) by {}
                            assert forall|i: int| 0 <= i < c.len() implies b.allocated(
                                #[trigger] c[i],
                            ) && b.nd(c[i]).next@ == a.nd(c[i]).next@ && b.nd(c[i]).prev@ == a.nd(
                                c[i],
                            ).prev@ && b.key_at(i) == a.key_at(i) && b.act_at(i) == a.act_at(
                                i,
                            ) by {
                                assert(a.allocated(c[i]));
                                if i != pos {
                                    assert(b.nd(c[i]) == a.nd(c[i]));
                                }
                            }
                            assert(b.wf_links());
                            assert forall|i: int|
                                0 <= i < c.len() && b.act_at(i) implies b.model@.contains_key(
                                    #[trigger] b.key_at(i),
                                ) && b.model@[b.key_at(i)] == b.val_at(i) by {
                                if i == pos {
                                    assert(b.val_at(pos) == value);
                                } else {
                                    assert(a.act_at(i) && a.act_at(pos));
                                    assert(a.key_at(i) != a.key_at(pos));
                                    assert(b.val_at(i) == a.val_at(i));
                                }
                            }
                            assert forall|k: u64| #[trigger] b.model@.contains_key(
                                k,
                            ) implies exists|i: int|
                                0 <= i < b.spine@.len() && b.act_at(i) && b.key_at(i) == k by {
                                if k == key {
                                    assert(b.act_at(pos) && b.key_at(pos) == k);
                                } else {
                                    assert(a.model@.contains_key(k));
                                    let i = choose|i: int|
                                        0 <= i < c.len() && a.act_at(i) && a.key_at(i) == k;
                                    assert(b.act_at(i) && b.key_at(i) == k);
                                }
                            }
                            assert(b.wf_model());
                            assert forall|t: int|
                                0 <= t < b.collector.retired().len() implies b.allocated(
                                    (#[trigger] b.collector.retired()[t]).handle,
                                ) && !b.spine@.contains(b.collector.retired()[t].handle) by {
                                assert(a.allocated(a.collector.retired()[t].handle));
                                assert(!a.spine@.contains(a.collector.retired()[t].handle));
                            }
                            assert forall|t: int|
                                0 <= t < b.arena@.len() && b.arena@[t] is Some implies b.spine@
                                    .contains(t as usize) || b.collector.retired_handles().contains(
                                    t as usize,
                                ) by {
                                assert(a.arena@[t] is Some);
                                assert(a.spine@.contains(t as usize)
                                    || a.collector.retired_handles().contains(t as usize));
                            }
                            assert(b.wf_mem());
                        }
                        let ghost before = *self;
                        self.collector.unpin(g);
                        proof {
                            List::lemma_wf_gc_frame(before, *self);
                            assert(self.collector.pins() =~= old(self).collector.pins());
                        }
                        match res {
                            Ok(_) => {
                                return InsertOutcome::Updated;
                            },
                            Err(c) => {
                                // a competing writer changed the slot between the
                                // read and the swap; report its value instead of
                                // retrying (unreachable under exclusive access)
                                return InsertOutcome::Conflict(c);
                            },
                        }
                    }
                    let nx = n.next.load();
                    match nx {
                        Link::Null => {
                            proof {
                                assert(pos == self.spine@.len() - 1);
                                if self@.contains_key(key) {
                                    let i = choose|i: int|
                                        0 <= i < self.spine@.len() && self.act_at(i) && self.key_at(
                                            i,
                                        ) == key;
                                    assert(false);
                                }
                            }
                            let h = self.alloc_node(key, value, Link::Live(cur));
                            let mut n2 = self.read_node(cur);
                            n2.next.store(Link::Live(h));
                            self.write_node(cur, n2);
                            proof {
                                self.spine@ = entry.spine@.push(h);
                                self.model@ = entry.model@.insert(key, value);
                            }
                            proof {
                                let a = entry;
                                let b = *self;
                                let c = a.spine@;
                                let c2 = b.spine@;
                                assert(c2 == c.push(h));
                                assert(c2.len() == c.len() + 1);
                                assert forall|i: int| 0 <= i < c.len() implies a.allocated(
                                    #[trigger] c[i],
                                ) && c[i] != h && c[i] == c2[i] by {}
                                assert forall|t: int| 0 <= t < c.len() && t != pos implies b.nd(
                                    #[trigger] c[t],
                                ) == a.nd(c[t]) by {
                                    if t < pos {
                                        assert(c[t] != c[pos]);
                                    } else {
                                        assert(c[pos] != c[t]);
                                    }
                                }
                                assert(b.allocated(h) && b.nd(h).key == key && b.nd(h).value@
                                    == value && b.nd(h).active@ == true && b.nd(h).next@
                                    == Link::Null && b.nd(h).prev@ == Link::Live(c[pos]));
                                assert(b.nd(c[pos]).key == a.nd(c[pos]).key && b.nd(c[pos]).active@
                                    == a.nd(c[pos]).active@ && b.nd(c[pos]).value@ == a.nd(
                                    c[pos],
                                ).value@ && b.nd(c[pos]).prev@ == a.nd(c[pos]).prev@);
                                assert(b.nd(c[pos]).next@ == Link::Live(h));
                                assert forall|i: int| 0 <= i < c2.len() implies b.allocated(
                                    #[trigger] c2[i],
                                ) by {
                                    if i < c.len() {
                                        assert(a.allocated(c[i]));
                                    }
                                }
                                assert forall|i: int, j: int| 0 <= i < j < c2.len() implies c2[i]
                                    != c2[j] by {
                                    if j < c.len() {
                                        assert(c[i] != c[j]);
                                    } else {
                                        assert(c2[j] == h && c[i] != h);
                                    }
                                }
                                assert forall|i: int| 0 <= i < c2.len() implies (#[trigger] b.nd(
                                    c2[i],
                                )).next@ == (if i + 1 < c2.len() {
                                    Link::Live(c2[i + 1])
                                } else {
                                    Link::Null
                                }) && b.nd(c2[i]).prev@ == (if 0 < i {
                                    Link::Live(c2[i - 1])
                                } else {
                                    Link::Null
                                }) by {
                                    if i < pos {
                                        assert(b.nd(c[i]) == a.nd(c[i]));
                                        assert(a.nd(c[i]).next@ == Link::Live(c[i + 1]));
                                    } else if i == pos {
                                        assert(a.nd(c[pos]).prev@ == (if 0 < pos {
                                            Link::Live(c[pos - 1])
                                        } else {
                                            Link::Null
                                        }));
                                    }
                                }
                                assert(b.wf_links());
                                assert forall|i: int|
                                    0 <= i < c2.len() && b.act_at(i) implies b.model@.contains_key(
                                        #[trigger] b.key_at(i),
                                    ) && b.model@[b.key_at(i)] == b.val_at(i) by {
                                    if i < c.len() {
                                        assert(a.act_at(i) && a.key_at(i) == b.key_at(i)
                                            && a.val_at(i) == b.val_at(i));
                                        assert(a.key_at(i) != key);
                                    }
                                }
                                assert forall|k: u64| #[trigger] b.model@.contains_key(
                                    k,
                                ) implies exists|i: int|
                                    0 <= i < c2.len() && b.act_at(i) && b.key_at(i) == k by {
                                    if k == key {
                                        assert(b.act_at(c.len() as int) && b.key_at(c.len() as int)
                                            == k);
                                    } else {
                                        assert(a.model@.contains_key(k));
                                        let i = choose|i: int|
                                            0 <= i < c.len() && a.act_at(i) && a.key_at(i) == k;
                                        assert(b.act_at(i) && b.key_at(i) == k);
                                    }
                                }
                                assert forall|i: int, j: int|
                                    0 <= i < c2.len() && 0 <= j < c2.len() && i != j && b.act_at(i)
                                        && b.act_at(j) implies #[trigger] b.key_at(i)
                                        != #[trigger] b.key_at(j) by {
                                    if i < c.len() && j < c.len() {
                                        assert(a.act_at(i) && a.act_at(j));
                                        assert(a.key_at(i) != a.key_at(j));
                                    } else if i < c.len() {
                                        assert(a.act_at(i) ==> a.key_at(i) != key);
                                    } else if j < c.len() {
                                        assert(a.act_at(j) ==> a.key_at(j) != key);
                                    }
                                }
                                assert(b.wf_model());
                                assert forall|t: int|
                                    0 <= t < b.collector.retired().len() implies b.allocated(
                                        (#[trigger] b.collector.retired()[t]).handle,
                                    ) && !b.spine@.contains(b.collector.retired()[t].handle) by {
                                    assert(a.allocated(a.collector.retired()[t].handle));
                                    assert(!a.spine@.contains(a.collector.retired()[t].handle));
                                    let rh = a.collector.retired()[t].handle;
                                    assert(rh != h);
                                    assert forall|q: int| 0 <= q < c2.len() implies c2[q] != rh by {
                                        if q < c.len() {
                                            assert(!c.contains(rh));
                                            assert(c[q] != rh);
                                        }
                                    }
                                }
                                assert forall|t: int|
                                    0 <= t < b.arena@.len() && b.arena@[t] is Some implies b.spine@
                                        .contains(t as usize)
                                        || b.collector.retired_handles().contains(t as usize) by {
                                    if t == h as int {
                                        assert(c2[c.len() as int] == t as usize);
                                    } else {
                                        assert(a.arena@[t] is Some);
                                        assert(a.spine@.contains(t as usize)
                                            || a.collector.retired_handles().contains(t as usize));
                                        if a.spine@.contains(t as usize) {
                                            let q = choose|q: int|
                                                0 <= q < c.len() && c[q] == t as usize;
                                            assert(c2[q] == t as usize);
                                        }
                                    }
                                }
                                assert(b.wf_mem());
                            }
                            let ghost before = *self;
                            self.collector.unpin(g);
                            proof {
                                List::lemma_wf_gc_frame(before, *self);
                                assert(self.collector.pins() =~= old(self).collector.pins());
                            }
                            return InsertOutcome::Inserted;
                        },
                        Link::Live(nxt) => {
                            proof {
                                assert(nx == self.nd(self.spine@[pos]).next@);
                                pos = pos + 1;
                            }
                            cur = nxt;
                        },
                    }
                }
            },
        }
    }

    /// Remove `key`, in two phases. Phase one finds the live node and marks
    /// it inactive: the tombstone, after which no lookup can see the entry.
    /// Phase two unlinks the node from its neighbours (or from the head) by
    /// compare-and-swap and defers its reclamation through the collector; a
    /// failed swap would abort the call with `false`, leaving the tombstone
    /// for a later cleanup, but with exclusive access every swap succeeds.
    /// Returns whether a live entry was found: `false` means the map did not
    /// change.
    pub fn remove(&mut self, key: u64) -> (r: bool)
        requires
            old(self).wf(),
        ensures
            final(self).wf(),
            final(self)@ == old(self)@.remove(key),
            r == old(self)@.contains_key(key),
            final(self).gc().epoch() == old(self).gc().epoch(),
            final(self).gc().pins() == old(self).gc().pins(),
            r ==> final(self).gc().retired().len() == old(self).gc().retired().len() + 1,
            !r ==> final(self).gc().retired() == old(self).gc().retired(),
    {
        let g = self.collector.pin();
        proof {
            List::lemma_wf_gc_frame(*old(self), *self);
        }
        let ghost entry = *self;
        let mut link = self.head.load();
        let ghost mut pos: int = 0;
        loop
            invariant
                *self == entry,
                entry.wf(),
                entry.arena == old(self).arena,
                entry.head == old(self).head,
                entry.spine == old(self).spine,
                entry.model == old(self).model,
                entry.collector.wf(),
                entry.collector.epoch() == old(self).collector.epoch(),
                entry.collector.retired() == old(self).collector.retired(),
                entry.collector.pins() == old(self).collector.pins().insert(g@),
                g@ == old(self).collector.epoch(),
                0 <= pos <= self.spine@.len(),
                link == (if pos < self.spine@.len() {
                    Link::Live(self.spine@[pos])
                } else {
                    Link::Null
                }),
                forall|i: int| 0 <= i < pos ==> !(self.act_at(i) && self.key_at(i) == key),
            decreases self.spine@.len() - pos,
        {
            match link {
                Link::Null => {
                    proof {
                        if self@.contains_key(key) {
                            let i = choose|i: int|
                                0 <= i < self.spine@.len() && self.act_at(i) && self.key_at(i)
                                    == key;
                            assert(false);
                        }
                        assert(self.model@ =~= self.model@.remove(key));
                    }
                    let ghost before = *self;
                    self.collector.unpin(g);
                    proof {
                        List::lemma_wf_gc_frame(before, *self);
                        assert(self.collector.pins() =~= old(self).collector.pins());
                    }
                    return false;
                },
                Link::Live(cur) => {
                    let n = self.read_node(cur);
                    if n.key == key && n.active.load() {
                        proof {
                            assert(self.act_at(pos) && self.key_at(pos) == key);
                        }
                        let ghost c = entry.spine@;
                        // phase one: tombstone the node
                        let mut n2 = n;
                        n2.active.store(false);
                        self.write_node(cur, n2);
                        // re-read the links now that the node is dead
                        let n3 = self.read_node(cur);
                        let nxt = n3.next.load();
                        let prv = n3.prev.load();
                        proof {
                            assert(self.nd(cur).next@ == entry.nd(cur).next@ && self.nd(cur).prev@
                                == entry.nd(cur).prev@);
                            assert(nxt == (if pos + 1 < c.len() {
                                Link::Live(c[pos + 1])
                            } else {
                                Link::Null
                            }));
                            assert(prv == (if 0 < pos {
                                Link::Live(c[pos - 1])
                            } else {
                                Link::Null
                            }));
                        }
                        // phase two: unlink by compare-and-swap
                        match nxt {
                            Link::Live(q) => {
                                match prv {
                                    Link::Live(p) => {
                                        // interior node: predecessor first, then successor
                                        proof {
                                            assert(0 < pos && p == c[pos - 1] && q == c[pos + 1]);
                                            assert(c[pos - 1] != c[pos]);
                                            assert(self.nd(p) == entry.nd(p));
                                        }
                                        let mut pn = self.read_node(p);
                                        let res = pn.next.compare_exchange(Link::Live(cur), nxt);
                                        self.write_node(p, pn);
                                        if res.is_err() {
                                            return false;
                                        }
                                        proof {
                                            assert(c[pos - 1] != c[pos + 1] && c[pos] != c[pos
                                                + 1]);
                                            assert(self.nd(q) == entry.nd(q));
                                        }
                                        let mut qn = self.read_node(q);
                                        let res = qn.prev.compare_exchange(Link::Live(cur), prv);
                                        self.write_node(q, qn);
                                        if res.is_err() {
                                            return false;
                                        }
                                    },
                                    Link::Null => {
                                        // head node with a successor
                                        proof {
                                            assert(pos == 0 && q == c[1] && cur == c[0]);
                                            assert(c[0] != c[1]);
                                            assert(self.nd(q) == entry.nd(q));
                                        }
                                        let mut qn = self.read_node(q);
                                        let res = qn.prev.compare_exchange(Link::Live(cur), prv);
                                        self.write_node(q, qn);
                                        if res.is_err() {
                                            return false;
                                        }
                                        let res = self.head.compare_exchange(Link::Live(cur), nxt);
                                        if res.is_err() {
                                            return false;
                                        }
                                    },
                                }
                            },
                            Link::Null => {
                                match prv {
                                    Link::Live(p) => {
                                        // tail node: cut the predecessor's next link
                                        proof {
                                            assert(0 < pos && p == c[pos - 1]);
                                            assert(c[pos - 1] != c[pos]);
                                            assert(self.nd(p) == entry.nd(p));
                                        }
                                        let mut pn = self.read_node(p);
                                        let res = pn.next.compare_exchange(Link::Live(cur), nxt);
                                        self.write_node(p, pn);
                                        if res.is_err() {
                                            return false;
                                        }
                                    },
                                    Link::Null => {
                                        // the only node: empty the head
                                        let res = self.head.compare_exchange(Link::Live(cur), nxt);
                                        if res.is_err() {
                                            return false;
                                        }
                                    },
                                }
                            },
                        }
                        proof {
                            assert(nxt == (if pos + 1 < c.len() {
                                Link::Live(c[pos + 1])
                            } else {
                                Link::Null
                            }));
                            assert(prv == (if 0 < pos {
                                Link::Live(c[pos - 1])
                            } else {
                                Link::Null
                            }));
                            if self.collector.retired_handles().contains(cur) {
                                let t = choose|t: int|
                                    0 <= t < self.collector.retired_handles().len()
                                        && self.collector.retired_handles()[t] == cur;
                                assert(entry.collector.retired()[t].handle == cur);
                                assert(!c.contains(cur));
                                assert(false);
                            }
                        }
                        // the node is unreachable: hand it to the collector
                        self.collector.defer(cur);
                        proof {
                            self.spine@ = Seq::new(
                                (c.len() - 1) as nat,
                                |j: int|
                                    if j < pos {
                                        c[j]
                                    } else {
                                        c[j + 1]
                                    },
                            );
                            self.model@ = entry.model@.remove(key);
                        }
                        proof {
                            let a = entry;
                            let b = *self;
                            assert forall|i: int|
                                0 <= i < c.len() && i != pos && i != pos - 1 && i != pos
                                    + 1 implies b.nd(#[trigger] c[i]) == a.nd(c[i]) by {
                                if i < pos {
                                    assert(c[i] != c[pos]);
                                } else {
                                    assert(c[pos] != c[i]);
                                }
                                if 0 < pos {
                                    if i < pos - 1 {
                                        assert(c[i] != c[pos - 1]);
                                    } else if i > pos - 1 {
                                        assert(c[pos - 1] != c[i]);
                                    }
                                }
                                if pos + 1 < c.len() {
                                    if i < pos + 1 {
                                        assert(c[i] != c[pos + 1]);
                                    } else if i > pos + 1 {
                                        assert(c[pos + 1] != c[i]);
                                    }
                                }
                            }
                            assert(0 < pos ==> c[pos - 1] != c[pos] && b.nd(c[pos - 1]).next@ == nxt
                                && b.nd(c[pos - 1]).prev@ == a.nd(c[pos - 1]).prev@ && b.nd(
                                c[pos - 1],
                            ).key == a.nd(c[pos - 1]).key && b.nd(c[pos - 1]).active@ == a.nd(
                                c[pos - 1],
                            ).active@ && b.nd(c[pos - 1]).value@ == a.nd(c[pos - 1]).value@);
                            assert(pos + 1 < c.len() ==> c[pos + 1] != c[pos] && b.nd(
                                c[pos + 1],
                            ).prev@ == prv && b.nd(c[pos + 1]).next@ == a.nd(c[pos + 1]).next@
                                && b.nd(c[pos + 1]).key == a.nd(c[pos + 1]).key && b.nd(
                                c[pos + 1],
                            ).active@ == a.nd(c[pos + 1]).active@ && b.nd(c[pos + 1]).value@ == a.nd(
                                c[pos + 1],
                            ).value@);
                            assert(b.head@ == (if pos == 0 {
                                nxt
                            } else {
                                a.head@
                            }));
                            assert(b.arena@.len() == a.arena@.len());
                            assert(forall|t: int|
                                0 <= t < b.arena@.len() ==> (b.arena@[t] is Some <==> a.arena@[t]
                                    is Some));
                            List::lemma_remove_wf(a, b, pos, key, cur, nxt, prv);
                        }
                        let ghost before = *self;
                        self.collector.unpin(g);
                        proof {
                            List::lemma_wf_gc_frame(before, *self);
                            assert(self.collector.pins() =~= old(self).collector.pins());
                        }
                        return true;
                    }
                    link = n.next.load();
                    proof {
                        pos = pos + 1;
                    }
                },
            }
        }
    }

    /// Walk the chain and copy out every active entry, in chain order. The
    /// walk skips tombstones, yields each key at most once, and every yielded
    /// pair agrees with the map view.
    pub fn iterate(&self) -> (entries: Vec<(u64, u64)>)
        requires
            self.wf(),
        ensures
            forall|j: int|
                0 <= j < entries@.len() ==> self@.contains_key((#[trigger] entries@[j]).0)
                    && entries@[j].1 == self@[entries@[j].0],
            forall|k: u64|
                #[trigger] self@.contains_key(k) ==> exists|j: int|
                    0 <= j < entries@.len() && (#[trigger] entries@[j]).0 == k,
            forall|j1: int, j2: int|
                0 <= j1 < j2 < entries@.len() ==> (#[trigger] entries@[j1]).0 != (
                #[trigger] entries@[j2]).0,
    {
        let mut out: Vec<(u64, u64)> = Vec::new();
        let mut link = self.head.load();
        let ghost mut pos: int = 0;
        let ghost mut srcs: Seq<int> = Seq::empty();
        loop
            invariant
                self.wf(),
                0 <= pos <= self.spine@.len(),
                link == (if pos < self.spine@.len() {
                    Link::Live(self.spine@[pos])
                } else {
                    Link::Null
                }),
                srcs.len() == out@.len(),
                forall|j: int|
                    0 <= j < out@.len() ==> 0 <= #[trigger] srcs[j] < pos && self.act_at(srcs[j])
                        && self.key_at(srcs[j]) == out@[j].0 && self.val_at(srcs[j]) == out@[j].1,
                forall|i: int|
                    0 <= i < pos && self.act_at(i) ==> exists|j: int|
                        0 <= j < out@.len() && (#[trigger] out@[j]).0 == self.key_at(i),
                forall|j1: int, j2: int|
                    0 <= j1 < j2 < out@.len() ==> (#[trigger] out@[j1]).0 != (
                    #[trigger] out@[j2]).0,
            decreases self.spine@.len() - pos,
        {
            match link {
                Link::Null => {
                    proof {
                        assert forall|k: u64| #[trigger] self@.contains_key(k) implies exists|
                            j: int,
                        |
                            0 <= j < out@.len() && (#[trigger] out@[j]).0 == k by {
                            let i = choose|i: int|
                                0 <= i < self.spine@.len() && self.act_at(i) && self.key_at(i)
                                    == k;
                            assert(0 <= i < pos && self.act_at(i));
                        }
                        assert forall|j: int| 0 <= j < out@.len() implies self@.contains_key(
                            (#[trigger] out@[j]).0,
                        ) && out@[j].1 == self@[out@[j].0] by {
                            assert(self.act_at(srcs[j]));
                        }
                    }
                    return out;
                },
                Link::Live(cur) => {
                    let n = self.read_node(cur);
                    if n.active.load() {
                        let ghost pre = out@;
                        out.push((n.key, n.value.load()));
                        proof {
                            srcs = srcs.push(pos);
                            assert(out@[out@.len() - 1] == (self.key_at(pos), self.val_at(pos)));
                            assert forall|j1: int, j2: int| 0 <= j1 < j2 < out@.len() implies (
                            #[trigger] out@[j1]).0 != (#[trigger] out@[j2]).0 by {
                                if j2 == out@.len() - 1 {
                                    assert(srcs[j1] < pos && self.act_at(srcs[j1]));
                                    assert(self.key_at(srcs[j1]) != self.key_at(pos));
                                }
                            }
                            assert forall|i: int|
                                0 <= i < pos + 1 && self.act_at(i) implies exists|j: int|
                                    0 <= j < out@.len() && (#[trigger] out@[j]).0 == self.key_at(
                                        i,
                                    ) by {
                                if i < pos {
                                    let j = choose|j: int|
                                        0 <= j < pre.len() && (#[trigger] pre[j]).0 == self.key_at(
                                            i,
                                        );
                                    assert(out@[j].0 == self.key_at(i));
                                } else {
                                    assert(out@[out@.len() - 1].0 == self.key_at(i));
                                }
                            }
                        }
                    }
                    link = n.next.load();
                    proof {
                        pos = pos + 1;
                    }
                },
            }
        }
    }

    /// Run a reclamation pass: advance the epoch and free exactly the retired
    /// nodes whose epoch no outstanding guard could still observe. The map
    /// view does not change.
    pub fn collect(&mut self)
        requires
            old(self).wf(),
            old(self).gc().epoch() < u64::MAX,
        ensures
            final(self).wf(),
            final(self)@ == old(self)@,
            final(self).gc().epoch() == old(self).gc().epoch() + 1,
            final(self).gc().pins() == old(self).gc().pins(),
            forall|r: crate::epoch::Retired|
                #[trigger] final(self).gc().retired().contains(r) <==> old(
                    self,
                ).gc().retired().contains(r) && !old(self).gc().epoch_safe(r.epoch),
    {
        let freed = self.collector.sweep();
        let ghost mid = *self;
        proof {
            old(self).collector.lemma_retired_distinct();
            assert forall|j: int| 0 <= j < freed@.len() implies mid.allocated(#[trigger] freed@[j])
                && !mid.spine@.contains(freed@[j]) && !mid.collector.retired_handles().contains(
                freed@[j],
            ) by {
                assert(freed@.contains(freed@[j]));
                let t = choose|t: int|
                    0 <= t < old(self).collector.retired().len() && (#[trigger] old(
                        self,
                    ).collector.retired()[t]).handle == freed@[j] && old(self).collector.epoch_safe(
                        old(self).collector.retired()[t].epoch,
                    );
                assert(old(self).allocated(freed@[j]));
                assert(!old(self).spine@.contains(freed@[j]));
                if mid.collector.retired_handles().contains(freed@[j]) {
                    let t2 = choose|t2: int|
                        0 <= t2 < mid.collector.retired_handles().len()
                            && mid.collector.retired_handles()[t2] == freed@[j];
                    let r2 = mid.collector.retired()[t2];
                    assert(mid.collector.retired_handles()[t2] == r2.handle);
                    assert(mid.collector.retired().contains(r2));
                    assert(old(self).collector.retired().contains(r2) && !old(
                        self,
                    ).collector.epoch_safe(r2.epoch));
                    let t3 = choose|t3: int|
                        0 <= t3 < old(self).collector.retired().len() && old(
                            self,
                        ).collector.retired()[t3] == r2;
                    assert(old(self).collector.retired()[t3].handle == old(
                        self,
                    ).collector.retired()[t].handle);
                    assert(t3 == t);
                    assert(false);
                }
            }
        }
        let mut i: usize = 0;
        while i < freed.len()
            invariant
                old(self).wf(),
                mid.arena == old(self).arena,
                mid.head == old(self).head,
                mid.spine == old(self).spine,
                mid.model == old(self).model,
                mid.collector.wf(),
                mid.collector.epoch() == old(self).collector.epoch() + 1,
                mid.collector.pins() == old(self).collector.pins(),
                forall|r: crate::epoch::Retired|
                    #[trigger] mid.collector.retired().contains(r) <==> old(
                        self,
                    ).collector.retired().contains(r) && !old(self).collector.epoch_safe(r.epoch),
                forall|h: usize|
                    #[trigger] freed@.contains(h) <==> exists|t: int|
                        0 <= t < old(self).collector.retired().len() && (#[trigger] old(
                        self).collector.retired()[t]).handle == h && old(
                        self).collector.epoch_safe(old(self).collector.retired()[t].epoch),
                forall|j: int|
                    0 <= j < freed@.len() ==> mid.allocated(#[trigger] freed@[j])
                        && !mid.spine@.contains(freed@[j])
                        && !mid.collector.retired_handles().contains(freed@[j]),
                i <= freed@.len(),
                self.head == mid.head,
                self.spine == mid.spine,
                self.model == mid.model,
                self.collector == mid.collector,
                self.arena@.len() == mid.arena@.len(),
                forall|t: int|
                    0 <= t < self.arena@.len() ==> #[trigger] self.arena@[t] == (if (exists|
                        j: int,
                    |
                        0 <= j < i && freed@[j] as int == t) {
                        None::<Node>
                    } else {
                        mid.arena@[t]
                    }),
            decreases freed@.len() - i,
        {
            let h = freed[i];
            proof {
                assert(mid.allocated(h));
            }
            self.arena[h] = None;
            i = i + 1;
            proof {
                assert forall|t: int| 0 <= t < self.arena@.len() implies #[trigger] self.arena@[t]
                    == (if (exists|j: int| 0 <= j < i && freed@[j] as int == t) {
                    None::<Node>
                } else {
                    mid.arena@[t]
                }) by {
                    if t == h as int {
                        assert(freed@[i - 1] as int == t);
                    } else {
                        if exists|j: int| 0 <= j < i && freed@[j] as int == t {
                            let j = choose|j: int| 0 <= j < i && freed@[j] as int == t;
                            assert(0 <= j < i - 1);
                        }
                    }
                }
            }
        }
        proof {
            let a = *old(self);
            let b = *self;
            assert(b.arena.len() == b.arena@.len());
            assert forall|q: int| 0 <= q < b.spine@.len() implies b.nd(#[trigger] b.spine@[q])
                == a.nd(a.spine@[q]) && b.allocated(b.spine@[q]) by {
                let t = a.spine@[q];
                assert(a.spine@.contains(t));
                assert(a.allocated(t));
                if exists|j: int| 0 <= j < i && freed@[j] as int == t as int {
                    let j = choose|j: int| 0 <= j < i && freed@[j] as int == t as int;
                    assert(freed@[j] == t);
                    assert(!mid.spine@.contains(freed@[j]));
                    assert(false);
                }
            }
            assert forall|q1: int, q2: int| 0 <= q1 < q2 < b.spine@.len() implies b.spine@[q1]
                != b.spine@[q2] by {
                assert(a.spine@[q1] != a.spine@[q2]);
            }
            assert(b.wf_links());
            assert forall|q: int| 0 <= q < b.spine@.len() implies b.key_at(q) == a.key_at(q)
                && b.act_at(q) == a.act_at(q) && b.val_at(q) == a.val_at(q) by {
                assert(b.nd(b.spine@[q]) == a.nd(a.spine@[q]));
            }
            assert forall|q: int| 0 <= q < b.spine@.len() && b.act_at(q) implies b.model@
                .contains_key(#[trigger] b.key_at(q)) && b.model@[b.key_at(q)] == b.val_at(q) by {
                assert(a.act_at(q) && a.key_at(q) == b.key_at(q));
            }
            assert forall|k: u64| #[trigger] b.model@.contains_key(k) implies exists|q: int|
                0 <= q < b.spine@.len() && b.act_at(q) && b.key_at(q) == k by {
                let q = choose|q: int| 0 <= q < a.spine@.len() && a.act_at(q) && a.key_at(q) == k;
                assert(b.act_at(q) && b.key_at(q) == k);
            }
            assert forall|q1: int, q2: int|
                0 <= q1 < b.spine@.len() && 0 <= q2 < b.spine@.len() && q1 != q2 && b.act_at(q1)
                    && b.act_at(q2) implies #[trigger] b.key_at(q1) != #[trigger] b.key_at(
                q2,
            ) by {
                assert(a.act_at(q1) && a.act_at(q2));
                assert(a.key_at(q1) != a.key_at(q2));
            }
            assert(b.wf_model());
            assert forall|t: int| 0 <= t < b.collector.retired().len() implies b.allocated(
                (#[trigger] b.collector.retired()[t]).handle,
            ) && !b.spine@.contains(b.collector.retired()[t].handle) by {
                let r = b.collector.retired()[t];
                let rh = r.handle;
                assert(mid.collector.retired_handles()[t] == rh);
                assert(mid.collector.retired_handles().contains(rh));
                assert(mid.collector.retired().contains(r));
                assert(a.collector.retired().contains(r));
                let t2 = choose|t2: int|
                    0 <= t2 < a.collector.retired().len() && a.collector.retired()[t2] == r;
                assert(a.allocated(rh));
                assert(!a.spine@.contains(rh));
                if exists|j: int| 0 <= j < i && freed@[j] as int == rh as int {
                    let j = choose|j: int| 0 <= j < i && freed@[j] as int == rh as int;
                    assert(freed@[j] == rh);
                    assert(!mid.collector.retired_handles().contains(freed@[j]));
                    assert(false);
                }
            }
            assert forall|t: int|
                0 <= t < b.arena@.len() && b.arena@[t] is Some implies b.spine@.contains(t as usize)
                    || b.collector.retired_handles().contains(t as usize) by {
                let tu = t as usize;
                assert(!(exists|j: int| 0 <= j < i && freed@[j] as int == t));
                assert(a.arena@[t] is Some);
                assert(a.spine@.contains(tu) || a.collector.retired_handles().contains(tu));
                if a.spine@.contains(tu) {
                    assert(b.spine@.contains(tu));
                } else {
                    let t2 = choose|t2: int|
                        0 <= t2 < a.collector.retired_handles().len()
                            && a.collector.retired_handles()[t2] == tu;
                    let r2 = a.collector.retired()[t2];
                    assert(a.collector.retired_handles()[t2] == r2.handle);
                    assert(a.collector.retired().contains(r2));
                    if a.collector.epoch_safe(r2.epoch) {
                        assert(freed@.contains(tu));
                        let j = choose|j: int| 0 <= j < freed@.len() && freed@[j] == tu;
                        assert(i == freed@.len());
                        assert(freed@[j] as int == t);
                        assert(false);
                    } else {
                        assert(mid.collector.retired().contains(r2));
                        let t3 = choose|t3: int|
                            0 <= t3 < mid.collector.retired().len() && mid.collector.retired()[t3]
                                == r2;
                        assert(mid.collector.retired_handles()[t3] == tu);
                        assert(b.collector.retired_handles().contains(tu));
                    }
                }
            }
            assert(b.wf_mem());
        }
    }

    /// An empty map with a fresh collector.
    pub fn new() -> (l: List)
        ensures
            l.wf(),
            l@ == Map::<u64, u64>::empty(),
            l.gc().epoch() == 0,
            l.gc().pins() == Multiset::<u64>::empty(),
            l.gc().retired() == Seq::<crate::epoch::Retired>::empty(),
    {
        List {
            arena: Vec::new(),
            head: Atomic::init(Link::Null),
            collector: Collector::new(),
            spine: Ghost(Seq::empty()),
            model: Ghost(Map::empty()),
        }
    }

    /// Pin the caller into the current epoch: while the guard is held, nothing
    /// retired at or after its epoch is reclaimed.
    pub fn pin(&mut self) -> (g: Guard)
        requires
            old(self).wf(),
        ensures
            final(self).wf(),
            final(self)@ == old(self)@,
            g@ == old(self).gc().epoch(),
            final(self).gc().epoch() == old(self).gc().epoch(),
            final(self).gc().pins() == old(self).gc().pins().insert(g@),
            final(self).gc().retired() == old(self).gc().retired(),
    {
        let g = self.collector.pin();
        proof {
            List::lemma_wf_gc_frame(*old(self), *self);
        }
        g
    }

    /// Drop a guard.
    pub fn unpin(&mut self, g: Guard)
        requires
            old(self).wf(),
            old(self).gc().pins().count(g@) > 0,
        ensures
            final(self).wf(),
            final(self)@ == old(self)@,
            final(self).gc().epoch() == old(self).gc().epoch(),
            final(self).gc().pins() == old(self).gc().pins().remove(g@),
            final(self).gc().retired() == old(self).gc().retired(),
    {
        self.collector.unpin(g);
        proof {
            List::lemma_wf_gc_frame(*old(self), *self);
        }
    }

    /// How many unlinked nodes wait for reclamation.
    pub fn retired_count(&self) -> (n: usize)
        ensures
            n == self.gc().retired().len(),
    {
        self.collector.retired_count()
    }

    /// The collector's current epoch.
    pub fn current_epoch(&self) -> (e: u64)
        ensures
            e == self.gc().epoch(),
    {
        self.collector.current_epoch()
    }
}

impl Default for List {
    /// Same as `new`: the empty map.
    fn default() -> (l: List)
        ensures
            l.wf(),
            l@ == Map::<u64, u64>::empty(),
            l.gc().epoch() == 0,
            l.gc().pins() == Multiset::<u64>::empty(),
            l.gc().retired() == Seq::<crate::epoch::Retired>::empty(),
    {
        List::new()
    }
}

} // verus!
