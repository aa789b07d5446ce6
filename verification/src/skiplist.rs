//! The multi-level indexed map.
//!
//! Each node carries one key/value pair and a tower of forward links, one per
//! level; its height is drawn at insertion from a geometric distribution and
//! never changes. Level 0 chains every node in increasing key order; each
//! higher level chains exactly the nodes tall enough to reach it, so a search
//! walks top level down and skips far ahead before dropping a level, giving
//! expected logarithmic cost. Deletion finds the per-level predecessors and
//! unlinks the node from every level it appears in. In the concurrent variant
//! of this protocol the base-level link is first tagged as a tombstone so
//! that other traversals observe the deletion and help unlink; under
//! exclusive access the unlink itself is the single visible step.
//!
//! Nodes live in an arena owned by the list and links carry arena handles, so
//! the level structure — every level a sorted subchain of the level below —
//! is checked by the verifier.

use crate::slot::Link;
use vstd::prelude::*;

verus! {

/// Relies on `rand::random`: one draw of machine randomness. Nothing is
/// assumed about the value.
pub assume_specification<T>[ rand::random::<T> ]() -> (r: T)
    where
        rand::distributions::Standard: rand::distributions::Distribution<T>,
;

/// `s` with `h` inserted right after position `p` (`p == -1` inserts at the
/// front).
spec fn seq_ins(s: Seq<usize>, p: int, h: usize) -> Seq<usize> {
    Seq::new(
        (s.len() + 1) as nat,
        |j: int|
            if j <= p {
                s[j]
            } else if j == p + 1 {
                h
            } else {
                s[j - 1]
            },
    )
}

proof fn lemma_seq_ins_contains(s: Seq<usize>, p: int, h: usize, t: usize)
    requires
        -1 <= p < s.len() || (p == -1 && s.len() == 0),
    ensures
        seq_ins(s, p, h).contains(t) <==> (s.contains(t) || t == h),
{
    let s2 = seq_ins(s, p, h);
    if s2.contains(t) {
        let j = choose|j: int| 0 <= j < s2.len() && s2[j] == t;
        if j <= p {
            assert(s[j] == t);
            assert(s.contains(t));
        } else if j > p + 1 {
            assert(s[j - 1] == t);
            assert(s.contains(t));
        }
    }
    if s.contains(t) {
        let j = choose|j: int| 0 <= j < s.len() && s[j] == t;
        if j <= p {
            assert(s2[j] == t);
        } else {
            assert(s2[j + 1] == t);
        }
        assert(s2.contains(t));
    }
    assert(s2[p + 1] == h);
    assert(s2.contains(h));
}

/// `s` with the entry at position `p` removed.
spec fn seq_del(s: Seq<usize>, p: int) -> Seq<usize> {
    Seq::new(
        (s.len() - 1) as nat,
        |j: int|
            if j < p {
                s[j]
            } else {
                s[j + 1]
            },
    )
}

proof fn lemma_seq_del_contains(s: Seq<usize>, p: int, t: usize)
    requires
        0 <= p < s.len(),
        forall|j1: int, j2: int| 0 <= j1 < j2 < s.len() ==> s[j1] != s[j2],
    ensures
        seq_del(s, p).contains(t) <==> (s.contains(t) && t != s[p]),
{
    let s2 = seq_del(s, p);
    if s2.contains(t) {
        let j = choose|j: int| 0 <= j < s2.len() && s2[j] == t;
        if j < p {
            assert(s[j] == t);
            assert(s.contains(t));
        } else {
            assert(s[j + 1] == t);
            assert(s.contains(t));
        }
    }
    if s.contains(t) && t != s[p] {
        let j = choose|j: int| 0 <= j < s.len() && s[j] == t;
        if j < p {
            assert(s2[j] == t);
        } else {
            assert(j > p);
            assert(s2[j - 1] == t);
        }
        assert(s2.contains(t));
    }
}

/// One node: a key, its value, and one forward link per level up to the
/// node's height.
struct SkipNode {
    key: u64,
    value: u64,
    next: Vec<Link>,
}

/// The skip list: per-level head links, the node arena, and the drawing
/// parameters for new heights.
pub struct SkipList {
    max_level: usize,
    current_level: usize,
    current_len: usize,
    ratio: u64,
    head: Vec<Link>,
    arena: Vec<Option<SkipNode>>,
    levels: Ghost<Seq<Seq<usize>>>,
    model: Ghost<Map<u64, u64>>,
}

impl View for SkipList {
    type V = Map<u64, u64>;

    closed spec fn view(&self) -> Map<u64, u64> {
        self.model@
    }
}

impl SkipList {
    /// How many entries the list holds.
    pub closed spec fn count(self) -> usize {
        self.current_len
    }

    /// How many levels are currently in use.
    pub closed spec fn level_count(self) -> usize {
        self.current_level
    }

    /// The configured maximum number of levels.
    pub closed spec fn height_limit(self) -> usize {
        self.max_level
    }

    /// The configured success ratio of the geometric height draw.
    pub closed spec fn spec_ratio(self) -> u64 {
        self.ratio
    }

    spec fn live(self, h: usize) -> bool {
        h < self.arena@.len() && self.arena@[h as int] is Some
    }

    spec fn nd(self, h: usize) -> SkipNode {
        self.arena@[h as int].unwrap()
    }

    spec fn hkey(self, h: usize) -> u64 {
        self.nd(h).key
    }

    spec fn hval(self, h: usize) -> u64 {
        self.nd(h).value
    }

    spec fn height(self, h: usize) -> int {
        self.nd(h).next@.len() as int
    }

    /// The level-0 chain: every node, in increasing key order.
    spec fn base(self) -> Seq<usize> {
        if self.levels@.len() == 0 {
            Seq::empty()
        } else {
            self.levels@[0]
        }
    }

    /// The chain entry `j` of level `i` is allocated, tall enough for the
    /// level, and linked to its successor on that level.
    spec fn lvl_ok(self, i: int, j: int) -> bool {
        let h = self.levels@[i][j];
        &&& self.live(h)
        &&& i < self.height(h)
        &&& self.nd(h).next@[i] == (if j + 1 < self.levels@[i].len() {
            Link::Live(self.levels@[i][j + 1])
        } else {
            Link::Null
        })
    }

    spec fn wf_shape(self) -> bool {
        &&& self.head@.len() == self.current_level
        &&& self.levels@.len() == self.current_level
        &&& self.current_level <= self.max_level
        &&& 1 <= self.max_level
        &&& 1 <= self.ratio
        &&& self.current_len == self.base().len()
        &&& self.current_level > 0 ==> self.levels@[self.current_level - 1].len() > 0
    }

    spec fn wf_chains(self) -> bool {
        &&& forall|i: int, j: int|
            0 <= i < self.levels@.len() && 0 <= j < self.levels@[i].len()
                ==> #[trigger] self.lvl_ok(i, j)
        &&& forall|i: int|
            0 <= i < self.levels@.len() ==> #[trigger] self.head@[i] == (if self.levels@[
                i].len() == 0 {
                Link::Null
            } else {
                Link::Live(self.levels@[i][0])
            })
        &&& forall|i: int, j1: int, j2: int|
            0 <= i < self.levels@.len() && 0 <= j1 < j2 < self.levels@[i].len()
                ==> #[trigger] self.hkey(self.levels@[i][j1]) < #[trigger] self.hkey(
                self.levels@[i][j2],
            )
        &&& forall|i: int, h: usize|
            0 <= i < self.levels@.len() ==> (#[trigger] self.levels@[i].contains(h)
                <==> self.base().contains(h) && i < self.height(h))
        &&& forall|j: int|
            0 <= j < self.base().len() ==> #[trigger] self.height(self.base()[j])
                <= self.current_level
    }

    spec fn wf_mem(self) -> bool {
        forall|t: int|
            0 <= t < self.arena@.len() ==> (self.arena@[t] is Some <==> self.base().contains(
                t as usize,
            ))
    }

    spec fn wf_model(self) -> bool {
        &&& forall|j: int|
            0 <= j < self.base().len() ==> self.model@.contains_key(
                #[trigger] self.hkey(self.base()[j]),
            ) && self.model@[self.hkey(self.base()[j])] == self.hval(self.base()[j])
        &&& forall|k: u64|
            #[trigger] self.model@.contains_key(k) ==> exists|j: int|
                0 <= j < self.base().len() && self.hkey(self.base()[j]) == k
    }

    /// The structure is sound: each level is a sorted chain of exactly the
    /// nodes tall enough for it, level 0 holds every node, the arena holds
    /// nothing else, and the map view matches the level-0 chain.
    pub closed spec fn wf(self) -> bool {
        &&& self.wf_shape()
        &&& self.wf_chains()
        &&& self.wf_mem()
        &&& self.wf_model()
    }

    /// An empty list with the given maximum height and height-draw ratio.
    pub fn new(max_level: usize, ratio: u64) -> (l: SkipList)
        requires
            1 <= max_level,
            1 <= ratio,
        ensures
            l.wf(),
            l@ == Map::<u64, u64>::empty(),
            l.count() == 0,
            l.level_count() == 0,
            l.height_limit() == max_level,
            l.spec_ratio() == ratio,
    {
        SkipList {
            max_level,
            current_level: 0,
            current_len: 0,
            ratio,
            head: Vec::new(),
            arena: Vec::new(),
            levels: Ghost(Seq::empty()),
            model: Ghost(Map::empty()),
        }
    }

    /// How many entries the list holds.
    pub fn len(&self) -> (n: usize)
        ensures
            n == self.count(),
    {
        self.current_len
    }

    /// How many levels are currently in use.
    pub fn levels_in_use(&self) -> (n: usize)
        ensures
            n == self.level_count(),
    {
        self.current_level
    }

    /// The configured maximum number of levels.
    pub fn max_levels(&self) -> (n: usize)
        ensures
            n == self.height_limit(),
    {
        self.max_level
    }

    fn key_of(&self, h: usize) -> (k: u64)
        requires
            self.live(h),
        ensures
            k == self.hkey(h),
    {
        match &self.arena[h] {
            Some(n) => n.key,
            None => vstd::pervasive::unreached(),
        }
    }

    fn val_of(&self, h: usize) -> (v: u64)
        requires
            self.live(h),
        ensures
            v == self.hval(h),
    {
        match &self.arena[h] {
            Some(n) => n.value,
            None => vstd::pervasive::unreached(),
        }
    }

    fn height_of(&self, h: usize) -> (t: usize)
        requires
            self.live(h),
        ensures
            t == self.height(h),
    {
        match &self.arena[h] {
            Some(n) => n.next.len(),
            None => vstd::pervasive::unreached(),
        }
    }

    fn next_of(&self, h: usize, i: usize) -> (l: Link)
        requires
            self.live(h),
            i < self.height(h),
        ensures
            l == self.nd(h).next@[i as int],
    {
        match &self.arena[h] {
            Some(n) => n.next[i],
            None => vstd::pervasive::unreached(),
        }
    }

    /// Search for `key` top level down: for each level in use, the last node
    /// whose key is below `key` (`None` when the level's head already is at
    /// or past it), together with the position of that node in the level's
    /// chain (`-1` for the head).
    fn find_preds(&self, key: u64) -> (r: (Vec<Option<usize>>, Ghost<Seq<int>>))
        requires
            self.wf(),
        ensures
            r.0@.len() == self.levels@.len(),
            r.1@.len() == self.levels@.len(),
            forall|i: int| 0 <= i < r.1@.len() ==> -1 <= #[trigger] r.1@[i] < self.levels@[i].len(),
            forall|i: int|
                0 <= i < r.1@.len() ==> #[trigger] r.0@[i] == (if r.1@[i] == -1 {
                    None::<usize>
                } else {
                    Some(self.levels@[i][r.1@[i]])
                }),
            forall|i: int|
                0 <= i < r.1@.len() && r.1@[i] >= 0 ==> #[trigger] self.hkey(
                    self.levels@[i][r.1@[i]],
                ) < key,
            forall|i: int|
                0 <= i < r.1@.len() && r.1@[i] + 1 < self.levels@[i].len() ==> #[trigger] self.hkey(
                    self.levels@[i][r.1@[i] + 1],
                ) >= key,
    {
        let cl = self.current_level;
        let mut preds: Vec<Option<usize>> = Vec::new();
        let mut t: usize = 0;
        while t < cl
            invariant
                t <= cl,
                preds@.len() == t,
            decreases cl - t,
        {
            preds.push(None);
            t = t + 1;
        }
        let ghost mut ps: Seq<int> = Seq::new(cl as nat, |x: int| -1);
        let mut pred: Option<usize> = None;
        let mut i: usize = cl;
        while i > 0
            invariant
                self.wf(),
                cl == self.current_level,
                i <= cl,
                preds@.len() == cl,
                ps.len() == cl,
                forall|l: int| i <= l < cl ==> -1 <= #[trigger] ps[l] < self.levels@[l].len(),
                forall|l: int|
                    i <= l < cl ==> #[trigger] preds@[l] == (if ps[l] == -1 {
                        None::<usize>
                    } else {
                        Some(self.levels@[l][ps[l]])
                    }),
                forall|l: int|
                    i <= l < cl && ps[l] >= 0 ==> #[trigger] self.hkey(self.levels@[l][ps[l]])
                        < key,
                forall|l: int|
                    i <= l < cl && ps[l] + 1 < self.levels@[l].len() ==> #[trigger] self.hkey(
                        self.levels@[l][ps[l] + 1],
                    ) >= key,
                pred is Some ==> self.live(pred.unwrap()) && self.base().contains(pred.unwrap())
                    && self.height(pred.unwrap()) >= i && self.hkey(pred.unwrap()) < key,
            decreases i,
        {
            i = i - 1;
            let ghost lvl = self.levels@[i as int];
            let ghost mut j: int = -1;
            proof {
                if pred is Some {
                    let p = pred.unwrap();
                    assert(self.levels@[i as int].contains(p));
                    j = choose|j0: int| 0 <= j0 < lvl.len() && lvl[j0] == p;
                }
            }
            let mut stop = false;
            while !stop
                invariant
                    self.wf(),
                    cl == self.current_level,
                    i < cl,
                    lvl == self.levels@[i as int],
                    -1 <= j < lvl.len(),
                    pred == (if j == -1 {
                        None::<usize>
                    } else {
                        Some(lvl[j])
                    }),
                    pred is Some ==> self.live(pred.unwrap()) && self.base().contains(
                        pred.unwrap(),
                    ) && self.height(pred.unwrap()) > i && self.hkey(pred.unwrap()) < key,
                    stop ==> (j + 1 == lvl.len() || self.hkey(lvl[j + 1]) >= key),
                decreases lvl.len() - j, (if stop {
                    0int
                } else {
                    1int
                }),
            {
                let nxt: Link = match pred {
                    None => self.head[i],
                    Some(p) => self.next_of(p, i),
                };
                proof {
                    if j >= 0 {
                        assert(self.lvl_ok(i as int, j));
                    }
                    assert(nxt == (if j + 1 < lvl.len() {
                        Link::Live(lvl[j + 1])
                    } else {
                        Link::Null
                    }));
                }
                match nxt {
                    Link::Null => {
                        stop = true;
                    },
                    Link::Live(nh) => {
                        proof {
                            assert(self.lvl_ok(i as int, j + 1));
                            assert(self.levels@[i as int].contains(lvl[j + 1]));
                        }
                        if self.key_of(nh) < key {
                            pred = Some(nh);
                            proof {
                                j = j + 1;
                            }
                        } else {
                            stop = true;
                        }
                    },
                }
            }
            preds[i] = pred;
            proof {
                ps = ps.update(i as int, j);
            }
        }
        (preds, Ghost(ps))
    }

    fn set_value(&mut self, h: usize, v: u64)
        requires
            old(self).live(h),
        ensures
            final(self).arena@.len() == old(self).arena@.len(),
            forall|t: int|
                0 <= t < old(self).arena@.len() && t != h ==> final(self).arena@[t] == old(
                    self,
                ).arena@[t],
            forall|t: int|
                0 <= t < old(self).arena@.len() ==> (final(self).arena@[t] is Some <==> old(
                    self,
                ).arena@[t] is Some),
            final(self).nd(h).key == old(self).nd(h).key,
            final(self).nd(h).value == v,
            final(self).nd(h).next == old(self).nd(h).next,
            final(self).head == old(self).head,
            final(self).current_level == old(self).current_level,
            final(self).current_len == old(self).current_len,
            final(self).ratio == old(self).ratio,
            final(self).max_level == old(self).max_level,
            final(self).levels == old(self).levels,
            final(self).model == old(self).model,
    {
        match &mut self.arena[h] {
            Some(n) => {
                n.value = v;
            },
            None => {},
        }
    }

    fn set_next(&mut self, h: usize, i: usize, l: Link)
        requires
            old(self).live(h),
            i < old(self).height(h),
        ensures
            final(self).arena@.len() == old(self).arena@.len(),
            forall|t: int|
                0 <= t < old(self).arena@.len() && t != h ==> final(self).arena@[t] == old(
                    self,
                ).arena@[t],
            forall|t: int|
                0 <= t < old(self).arena@.len() ==> (final(self).arena@[t] is Some <==> old(
                    self,
                ).arena@[t] is Some),
            final(self).nd(h).key == old(self).nd(h).key,
            final(self).nd(h).value == old(self).nd(h).value,
            final(self).nd(h).next@ == old(self).nd(h).next@.update(i as int, l),
            final(self).head == old(self).head,
            final(self).current_level == old(self).current_level,
            final(self).current_len == old(self).current_len,
            final(self).ratio == old(self).ratio,
            final(self).max_level == old(self).max_level,
            final(self).levels == old(self).levels,
            final(self).model == old(self).model,
    {
        match &mut self.arena[h] {
            Some(n) => {
                n.next[i] = l;
            },
            None => {},
        }
    }

    fn alloc_node(&mut self, key: u64, value: u64, links: Vec<Link>) -> (h: usize)
        ensures
            h == old(self).arena@.len(),
            final(self).arena@.len() == old(self).arena@.len() + 1,
            forall|t: int|
                0 <= t < old(self).arena@.len() ==> final(self).arena@[t] == old(self).arena@[t],
            final(self).live(h),
            final(self).nd(h).key == key,
            final(self).nd(h).value == value,
            final(self).nd(h).next@ == links@,
            final(self).head == old(self).head,
            final(self).current_level == old(self).current_level,
            final(self).current_len == old(self).current_len,
            final(self).ratio == old(self).ratio,
            final(self).max_level == old(self).max_level,
            final(self).levels == old(self).levels,
            final(self).model == old(self).model,
    {
        let h = self.arena.len();
        self.arena.push(Some(SkipNode { key, value, next: links }));
        h
    }

    /// With a level-0 predecessor position for `key` in hand, the key is in
    /// the map exactly when the next level-0 node carries it.
    proof fn lemma_found_at_base(self, key: u64, p0: int)
        requires
            self.wf(),
            self.level_count() > 0,
            -1 <= p0 < self.base().len(),
            p0 >= 0 ==> self.hkey(self.base()[p0]) < key,
            p0 + 1 < self.base().len() ==> self.hkey(self.base()[p0 + 1]) >= key,
        ensures
            self@.contains_key(key) <==> (p0 + 1 < self.base().len() && self.hkey(
                self.base()[p0 + 1],
            ) == key),
            p0 + 1 < self.base().len() && self.hkey(self.base()[p0 + 1]) == key ==> self@[key]
                == self.hval(self.base()[p0 + 1]),
    {
        if p0 + 1 < self.base().len() && self.hkey(self.base()[p0 + 1]) == key {
            assert(self.model@.contains_key(self.hkey(self.base()[p0 + 1])));
        }
        if self@.contains_key(key) {
            let j = choose|j: int|
                0 <= j < self.base().len() && self.hkey(self.base()[j]) == key;
            if j <= p0 {
                if j < p0 {
                    assert(self.hkey(self.levels@[0][j]) < self.hkey(self.levels@[0][p0]));
                }
                assert(false);
            } else if j > p0 + 1 {
                assert(self.hkey(self.levels@[0][p0 + 1]) < self.hkey(self.levels@[0][j]));
                assert(false);
            }
        }
    }

    /// Look `key` up: the value stored under it, copied out, or `None` when
    /// no node carries it.
    pub fn get(&self, key: u64) -> (r: Option<u64>)
        requires
            self.wf(),
        ensures
            r == (if self@.contains_key(key) {
                Some(self@[key])
            } else {
                None::<u64>
            }),
    {
        if self.current_level == 0 {
            proof {
                if self@.contains_key(key) {
                    let j = choose|j: int|
                        0 <= j < self.base().len() && self.hkey(self.base()[j]) == key;
                    assert(false);
                }
            }
            return None;
        }
        let (preds, ps) = self.find_preds(key);
        let succ: Link = match preds[0] {
            None => self.head[0],
            Some(p) => {
                proof {
                    assert(self.lvl_ok(0, ps@[0]));
                }
                self.next_of(p, 0)
            },
        };
        proof {
            assert(succ == (if ps@[0] + 1 < self.base().len() {
                Link::Live(self.base()[ps@[0] + 1])
            } else {
                Link::Null
            }));
            self.lemma_found_at_base(key, ps@[0]);
        }
        match succ {
            Link::Live(h) => {
                proof {
                    assert(self.lvl_ok(0, ps@[0] + 1));
                }
                if self.key_of(h) == key {
                    Some(self.val_of(h))
                } else {
                    None
                }
            },
            Link::Null => None,
        }
    }

    /// Replace, in place, the value of the node `hf` that already carries
    /// `key`.
    #[verifier::rlimit(100)]
    fn set_existing(&mut self, hf: usize, jfg: Ghost<int>, key: u64, value: u64)
        requires
            old(self).wf(),
            old(self).level_count() > 0,
            0 <= jfg@ < old(self).base().len(),
            old(self).base()[jfg@] == hf,
            old(self).live(hf),
            old(self).hkey(hf) == key,
        ensures
            final(self).wf(),
            final(self)@ == old(self)@.insert(key, value),
            final(self).count() == old(self).count(),
            final(self).level_count() == old(self).level_count(),
            final(self).height_limit() == old(self).height_limit(),
            final(self).spec_ratio() == old(self).spec_ratio(),
    {
        let ghost a0 = *old(self);
        self.set_value(hf, value);
        proof {
            self.model@ = a0.model@.insert(key, value);
            let b = *self;
            let jf = jfg@;
            assert(b.nd(hf).next == a0.nd(hf).next);
            assert forall|l: int, j: int|
                0 <= l < b.levels@.len() && 0 <= j < b.levels@[l].len() implies
            #[trigger] b.lvl_ok(l, j) by {
                assert(a0.lvl_ok(l, j));
                let m = a0.levels@[l][j];
                if m != hf {
                    assert(b.arena@[m as int] == a0.arena@[m as int]);
                }
            }
            assert forall|l: int, j1: int, j2: int|
                0 <= l < b.levels@.len() && 0 <= j1 < j2 < b.levels@[l].len() implies
            #[trigger] b.hkey(b.levels@[l][j1]) < #[trigger] b.hkey(
                b.levels@[l][j2],
            ) by {
                assert(a0.hkey(a0.levels@[l][j1]) < a0.hkey(a0.levels@[l][j2]));
                assert(a0.lvl_ok(l, j1) && a0.lvl_ok(l, j2));
                if a0.levels@[l][j1] != hf {
                    assert(b.arena@[a0.levels@[l][j1] as int] == a0.arena@[a0.levels@[
                    l][j1] as int]);
                }
                if a0.levels@[l][j2] != hf {
                    assert(b.arena@[a0.levels@[l][j2] as int] == a0.arena@[a0.levels@[
                    l][j2] as int]);
                }
            }
            assert forall|l: int, t: usize|
                0 <= l < b.levels@.len() implies (#[trigger] b.levels@[l].contains(t)
                <==> b.base().contains(t) && l < b.height(t)) by {
                assert(a0.levels@[l].contains(t) <==> a0.base().contains(t) && l
                    < a0.height(t));
                if a0.base().contains(t) {
                    let j0 = choose|j0: int|
                        0 <= j0 < a0.base().len() && a0.base()[j0] == t;
                    assert(a0.lvl_ok(0, j0));
                    if t != hf {
                        assert(b.arena@[t as int] == a0.arena@[t as int]);
                    }
                    assert(b.height(t) == a0.height(t));
                }
            }
            assert forall|j: int|
                0 <= j < b.base().len() implies #[trigger] b.height(b.base()[j])
                <= b.current_level by {
                assert(a0.height(a0.base()[j]) <= a0.current_level);
                assert(a0.lvl_ok(0, j));
                if b.base()[j] != hf {
                    assert(b.arena@[b.base()[j] as int] == a0.arena@[b.base()[
                    j] as int]);
                }
            }
            assert(b.wf_chains());
            assert forall|j: int| 0 <= j < b.base().len() implies b.model@.contains_key(
                #[trigger] b.hkey(b.base()[j]),
            ) && b.model@[b.hkey(b.base()[j])] == b.hval(b.base()[j]) by {
                if j == jf {
                    assert(b.hkey(b.base()[j]) == key);
                } else {
                    assert(a0.lvl_ok(0, j));
                    assert(b.base()[j] != hf) by {
                        if j < jf {
                            assert(a0.hkey(a0.levels@[0][j]) < a0.hkey(
                                a0.levels@[0][jf],
                            ));
                        } else {
                            assert(a0.hkey(a0.levels@[0][jf]) < a0.hkey(
                                a0.levels@[0][j],
                            ));
                        }
                    }
                    assert(b.arena@[b.base()[j] as int] == a0.arena@[b.base()[
                    j] as int]);
                    assert(a0.model@.contains_key(a0.hkey(a0.base()[j])));
                    assert(a0.hkey(a0.base()[j]) != key) by {
                        if j < jf {
                            assert(a0.hkey(a0.levels@[0][j]) < a0.hkey(
                                a0.levels@[0][jf],
                            ));
                        } else {
                            assert(a0.hkey(a0.levels@[0][jf]) < a0.hkey(
                                a0.levels@[0][j],
                            ));
                        }
                    }
                }
            }
            assert forall|k: u64| #[trigger] b.model@.contains_key(k) implies exists|
                j: int,
            |
                0 <= j < b.base().len() && b.hkey(b.base()[j]) == k by {
                if k == key {
                    assert(b.hkey(b.base()[jf]) == k);
                } else {
                    let j = choose|j: int|
                        0 <= j < a0.base().len() && a0.hkey(a0.base()[j]) == k;
                    assert(a0.lvl_ok(0, j));
                    assert(b.base()[j] != hf) by {
                        assert(a0.hkey(a0.base()[jf]) == key);
                    }
                    assert(b.arena@[b.base()[j] as int] == a0.arena@[b.base()[
                    j] as int]);
                    assert(b.hkey(b.base()[j]) == k);
                }
            }
            assert(b.wf_model());
            assert(b.wf_mem());
            assert(b.wf());
        }
    }

    proof fn lemma_insert_wf(
        e0: SkipList,
        e: SkipList,
        b: SkipList,
        ps: Seq<int>,
        h: usize,
        key: u64,
        value: u64,
        level: usize,
        ecl: int,
        cl: usize,
    )
        requires
            e0.wf(),
            !e0.model@.contains_key(key),
            ecl == e0.current_level,
            cl == e.current_level,
            e.head@.len() == cl,
            e.levels@.len() == cl,
            ecl <= cl,
            1 <= level,
            level <= cl,
            cl <= e0.max_level,
            cl == ecl || cl == level,
            e.max_level == e0.max_level,
            e.ratio == e0.ratio,
            e.current_len == e0.current_len,
            e.model == e0.model,
            e.arena@.len() == e0.arena@.len() + 1,
            forall|t: int| 0 <= t < e0.arena@.len() ==> e.arena@[t] == e0.arena@[t],
            h as int == e0.arena@.len(),
            e.live(h),
            e.nd(h).key == key,
            e.nd(h).value == value,
            e.nd(h).next@.len() == level,
            forall|l: int| 0 <= l < ecl ==> #[trigger] e.levels@[l] == e0.levels@[l],
            forall|l: int| ecl <= l < cl ==> (#[trigger] e.levels@[l]).len() == 0,
            ps.len() == cl,
            forall|l: int|
                0 <= l < cl ==> ((-1 <= #[trigger] ps[l] && ps[l] < e.levels@[l].len()) || (ps[l]
                    == -1 && e.levels@[l].len() == 0)),
            b.arena@.len() == e.arena@.len(),
            forall|t: int|
                0 <= t < b.arena@.len() ==> (b.arena@[t] is Some <==> e.arena@[t] is Some),
            forall|t: usize|
                e.live(t) ==> b.nd(t).key == (#[trigger] e.nd(t)).key && b.nd(t).value == e.nd(
                    t,
                ).value && b.nd(t).next@.len() == e.nd(t).next@.len(),
            b.nd(h) == e.nd(h),
            b.current_level == cl,
            b.head@.len() == cl,
            b.levels@.len() == cl,
            b.current_len == e.current_len + 1,
            b.model@ == e.model@.insert(key, value),
            b.ratio == e.ratio,
            b.max_level == e.max_level,
            forall|l: int|
                0 <= l < level ==> b.levels@[l] == seq_ins(#[trigger] e.levels@[l], ps[l], h),
            forall|l: int| level <= l < cl ==> b.levels@[l] == #[trigger] e.levels@[l],
            forall|l: int, j: int|
                0 <= l < cl && 0 <= j < b.levels@[l].len() ==> #[trigger] b.lvl_ok(l, j),
            forall|l: int|
                0 <= l < cl ==> #[trigger] b.head@[l] == (if b.levels@[l].len() == 0 {
                    Link::Null
                } else {
                    Link::Live(b.levels@[l][0])
                }),
            forall|l: int, j1: int, j2: int|
                0 <= l < cl && 0 <= j1 < j2 < b.levels@[l].len() ==> #[trigger] b.hkey(
                    b.levels@[l][j1],
                ) < #[trigger] b.hkey(b.levels@[l][j2]),
            forall|l: int, t: usize|
                0 <= l < cl ==> (b.levels@[l].contains(t) <==> ((#[trigger] e.levels@[l].contains(
                    t,
                )) || (l < level && t == h))),
            forall|l: int, j: int|
                0 <= l < cl && 0 <= j < e.levels@[l].len() ==> #[trigger] e.lvl_ok(l, j)
                    && e.levels@[l][j] != h,
        ensures
            b.wf(),
    {
        let bb = b.base();
        let eb = e.base();
            assert(b.levels@[0] == seq_ins(eb, ps[0], h));
        assert(bb == seq_ins(eb, ps[0], h));
        assert(bb.len() == eb.len() + 1);
        assert(e.current_len == eb.len()) by {
            if ecl > 0 {
                assert(e.levels@[0] == e0.levels@[0]);
            } else {
                assert(e.levels@[0].len() == 0);
            }
        }
        // every original entry keeps a key other than the new one
        assert forall|j: int| 0 <= j < eb.len() implies #[trigger] e.hkey(eb[j]) != key && e
            .live(eb[j]) && eb[j] != h by {
            assert(e.lvl_ok(0, j));
            assert((0 < ecl));
            assert(e0.lvl_ok(0, j));
            assert(e0.base().contains(e0.base()[j]));
            assert(e0.model@.contains_key(e0.hkey(e0.base()[j])));
        }
        assert forall|l: int, t: usize|
            0 <= l < cl implies (#[trigger] b.levels@[l].contains(t) <==> bb.contains(t) && l
                < b.height(t)) by {
            lemma_seq_ins_contains(eb, ps[0], h, t);
            if t == h {
                if e.levels@[l].contains(h) {
                    let jx = choose|jx: int|
                        0 <= jx < e.levels@[l].len() && e.levels@[l][jx] == h;
                    assert(e.lvl_ok(l, jx));
                    assert(e.levels@[l][jx] != h);
                    assert(false);
                }
                assert(b.levels@[l].contains(t) <==> l < level);
                assert(b.height(h) == level);
                assert(bb.contains(h));
            } else {
                if l < ecl {
                    assert(e0.levels@[l].contains(t) <==> e0.base().contains(t) && l
                        < e0.height(t));
                    if e0.base().contains(t) {
                        let j0 = choose|j0: int|
                            0 <= j0 < e0.base().len() && e0.base()[j0] == t;
                        assert(e0.lvl_ok(0, j0));
                        assert(e.arena@[t as int] == e0.arena@[t as int]);
                        assert(e.live(t));
                        assert(b.nd(t).next@.len() == (#[trigger] e.nd(t)).next@.len());
                        assert(b.height(t) == e0.height(t));
                    }
                } else {
                    assert(b.levels@[l].contains(t) <==> e.levels@[l].contains(t));
                    assert(e.levels@[l].len() == 0);
                    if bb.contains(t) {
                        let j0 = choose|j0: int| 0 <= j0 < eb.len() && eb[j0] == t;
                        assert(e.lvl_ok(0, j0));
                        assert(e0.lvl_ok(0, j0));
                        assert(e0.height(t) <= e0.current_level);
                        assert(e.arena@[t as int] == e0.arena@[t as int]);
                        assert(b.nd(t).next@.len() == (#[trigger] e.nd(t)).next@.len());
                        assert(b.height(t) == e0.height(t));
                        assert(!(l < b.height(t)));
                    }
                }
            }
        }
        assert forall|j: int| 0 <= j < bb.len() implies #[trigger] b.height(bb[j])
            <= b.current_level by {
            if j == ps[0] + 1 {
                assert(bb[j] == h);
                assert(b.nd(h) == e.nd(h));
            } else {
                let j0 = if j <= ps[0] {
                    j
                } else {
                    j - 1
                };
                assert(bb[j] == eb[j0]);
                assert(e.lvl_ok(0, j0));
                assert(e0.lvl_ok(0, j0));
                assert(e0.height(e0.base()[j0]) <= e0.current_level);
                assert(e.arena@[eb[j0] as int] == e0.arena@[eb[j0] as int]);
                assert(b.nd(eb[j0]).next@.len() == (#[trigger] e.nd(eb[j0])).next@.len());
            }
        }
        assert forall|t: int|
            0 <= t < b.arena@.len() implies (b.arena@[t] is Some <==> bb.contains(
                t as usize,
            )) by {
            lemma_seq_ins_contains(eb, ps[0], h, t as usize);
            if t == h as int {
                assert(bb.contains(h));
            } else {
                assert(e.arena@[t] == e0.arena@[t]);
                assert(e0.arena@[t] is Some <==> e0.base().contains(t as usize));
            }
        }
        assert forall|j: int| 0 <= j < bb.len() implies b.model@.contains_key(
            #[trigger] b.hkey(bb[j]),
        ) && b.model@[b.hkey(bb[j])] == b.hval(bb[j]) by {
            if j == ps[0] + 1 {
                assert(bb[j] == h);
                assert(b.hkey(h) == key && b.hval(h) == value);
            } else {
                let j0 = if j <= ps[0] {
                    j
                } else {
                    j - 1
                };
                assert(bb[j] == eb[j0]);
                assert(e.hkey(eb[j0]) != key);
                assert(e.lvl_ok(0, j0));
                assert(e0.lvl_ok(0, j0));
                assert(e.arena@[eb[j0] as int] == e0.arena@[eb[j0] as int]);
                assert(b.nd(eb[j0]).key == (#[trigger] e.nd(eb[j0])).key && b.nd(
                    eb[j0],
                ).value == e.nd(eb[j0]).value);
                assert(e0.model@.contains_key(e0.hkey(e0.base()[j0])));
            }
        }
        assert forall|k: u64| #[trigger] b.model@.contains_key(k) implies exists|j: int|
            0 <= j < bb.len() && b.hkey(bb[j]) == k by {
            if k == key {
                assert(b.hkey(bb[ps[0] + 1]) == k);
            } else {
                let j0 = choose|j0: int|
                    0 <= j0 < e0.base().len() && e0.hkey(e0.base()[j0]) == k;
                let j = if j0 <= ps[0] {
                    j0
                } else {
                    j0 + 1
                };
                assert(bb[j] == eb[j0]);
                assert(e.lvl_ok(0, j0));
                assert(e0.lvl_ok(0, j0));
                assert(e.arena@[eb[j0] as int] == e0.arena@[eb[j0] as int]);
                assert(b.nd(eb[j0]).key == (#[trigger] e.nd(eb[j0])).key);
                assert(b.hkey(bb[j]) == k);
            }
        }
        assert(b.wf_shape()) by {
            assert(b.levels@[cl - 1].len() > 0) by {
                if (cl as int) == ecl {
                    assert(ecl > 0);
                    assert(e0.levels@[ecl - 1].len() > 0);
                    if cl - 1 < level {
                        assert(b.levels@[cl - 1] == seq_ins(e.levels@[cl - 1], ps[cl - 1], h));
                    } else {
                        assert(b.levels@[cl - 1] == e.levels@[cl - 1]);
                    }
                } else {
                    assert(cl == level);
                    assert(b.levels@[cl - 1] == seq_ins(e.levels@[cl - 1], ps[cl - 1], h));
                }
            }
        }
        assert(b.wf_chains());
        assert(b.wf_mem());
        assert(b.wf_model());
        assert(b.wf());
    }

    /// Insert or update. An existing node for the key has its value replaced
    /// in place; otherwise a node of freshly drawn height is spliced into
    /// every level from the bottom up to that height, raising the number of
    /// levels in use when the draw exceeds it.
    #[verifier::loop_isolation(false)]
    #[verifier::rlimit(100)]
    pub fn set(&mut self, key: u64, value: u64)
        requires
            old(self).wf(),
            old(self).count() < usize::MAX,
        ensures
            final(self).wf(),
            final(self)@ == old(self)@.insert(key, value),
            final(self).height_limit() == old(self).height_limit(),
            final(self).spec_ratio() == old(self).spec_ratio(),
            final(self).count() == (if old(self)@.contains_key(key) {
                old(self).count() as int
            } else {
                old(self).count() + 1
            }),
    {
        let ghost e0 = *self;
        let (preds0, ps0) = self.find_preds(key);
        if self.current_level > 0 {
            let succ: Link = match preds0[0] {
                None => self.head[0],
                Some(p) => {
                    proof {
                        assert(self.lvl_ok(0, ps0@[0]));
                    }
                    self.next_of(p, 0)
                },
            };
            proof {
                assert(succ == (if ps0@[0] + 1 < self.base().len() {
                    Link::Live(self.base()[ps0@[0] + 1])
                } else {
                    Link::Null
                }));
                self.lemma_found_at_base(key, ps0@[0]);
            }
            if let Link::Live(hf) = succ {
                proof {
                    assert(self.lvl_ok(0, ps0@[0] + 1));
                }
                if self.key_of(hf) == key {
                    proof {
                        assert(self.base()[ps0@[0] + 1] == hf);
                    }
                    self.set_existing(hf, Ghost(ps0@[0] + 1), key, value);
                    return;
                }
            }
        }
        proof {
            if self.current_level == 0 && self@.contains_key(key) {
                let j = choose|j: int|
                    0 <= j < self.base().len() && self.hkey(self.base()[j]) == key;
                assert(false);
            }
            assert(!e0.model@.contains_key(key));
        }
        let level = self.get_random_level();
        let mut preds = preds0;
        let ghost mut ps = ps0@;
        let ghost ecl = self.current_level as int;
        while self.current_level < level
            invariant
                self.arena == e0.arena,
                self.model == e0.model,
                self.current_len == e0.current_len,
                self.ratio == e0.ratio,
                self.max_level == e0.max_level,
                ecl <= self.current_level,
                self.current_level > ecl ==> self.current_level <= level,
                level <= self.max_level,
                self.head@.len() == self.current_level,
                self.levels@.len() == self.current_level,
                forall|l: int|
                    0 <= l < ecl ==> self.levels@[l] == #[trigger] e0.levels@[l] && self.head@[l]
                        == e0.head@[l],
                forall|l: int|
                    ecl <= l < self.current_level ==> #[trigger] self.levels@[l].len() == 0
                        && self.head@[l] == Link::Null,
                preds@.len() == self.current_level,
                ps.len() == self.current_level,
                forall|l: int| 0 <= l < ecl ==> #[trigger] ps[l] == ps0@[l],
                forall|l: int| 0 <= l < ecl ==> (#[trigger] preds@[l]) == preds0@[l],
                forall|l: int| ecl <= l < self.current_level ==> #[trigger] ps[l] == -1,
                forall|l: int|
                    ecl <= l < self.current_level ==> (#[trigger] preds@[l]) is None,
            decreases level - self.current_level,
        {
            self.head.push(Link::Null);
            preds.push(None);
            self.current_level = self.current_level + 1;
            proof {
                self.levels@ = self.levels@.push(Seq::<usize>::empty());
                ps = ps.push(-1);
            }
        }
        let cl = self.current_level;
        let mut links: Vec<Link> = Vec::new();
        let mut li: usize = 0;
        while li < level
            invariant
                li <= level,
                links@.len() == li,
                forall|l: int|
                    0 <= l < li ==> #[trigger] links@[l] == (if ps[l] + 1 < self.levels@[
                        l].len() {
                        Link::Live(self.levels@[l][ps[l] + 1])
                    } else {
                        Link::Null
                    }),
            decreases level - li,
        {
            let lk: Link = match preds[li] {
                None => self.head[li],
                Some(p) => {
                    proof {
                        assert((li as int) < ecl);
                        assert(self.lvl_ok(li as int, ps[li as int])) by {
                            assert(e0.lvl_ok(li as int, ps0@[li as int]));
                        }
                    }
                    self.next_of(p, li)
                },
            };
            proof {
                if preds@[li as int] is None {
                    if (li as int) < ecl {
                        assert(e0.head@[li as int] == (if e0.levels@[li as int].len() == 0 {
                            Link::Null
                        } else {
                            Link::Live(e0.levels@[li as int][0])
                        }));
                    }
                }
                assert(lk == (if ps[li as int] + 1 < self.levels@[li as int].len() {
                    Link::Live(self.levels@[li as int][ps[li as int] + 1])
                } else {
                    Link::Null
                }));
            }
            links.push(lk);
            li = li + 1;
        }
        let h = self.alloc_node(key, value, links);
        let ghost e = *self;
        proof {
            assert(e.height(h) == level);
            assert forall|l: int, j: int|
                0 <= l < cl && 0 <= j < e.levels@[l].len() implies #[trigger] e.lvl_ok(l, j) && e
                    .levels@[l][j] != h && e.live(e.levels@[l][j]) by {
                assert(l < ecl);
                assert(e0.lvl_ok(l, j));
                assert(e0.live(e0.levels@[l][j]));
            }
            assert forall|l: int, j1: int, j2: int|
                0 <= l < cl && 0 <= j1 < j2 < e.levels@[l].len() implies #[trigger] e.hkey(
                    e.levels@[l][j1],
                ) < #[trigger] e.hkey(e.levels@[l][j2]) by {
                assert(l < ecl);
                assert(e0.hkey(e0.levels@[l][j1]) < e0.hkey(e0.levels@[l][j2]));
                assert(e0.lvl_ok(l, j1) && e0.lvl_ok(l, j2));
            }
            assert forall|l: int| 0 <= l < cl implies #[trigger] e.head@[l] == (if e.levels@[
                l].len() == 0 {
                Link::Null
            } else {
                Link::Live(e.levels@[l][0])
            }) by {
                if l < ecl {
                    assert(e0.head@[l] == (if e0.levels@[l].len() == 0 {
                        Link::Null
                    } else {
                        Link::Live(e0.levels@[l][0])
                    }));
                }
            }
            assert forall|l: int|
                0 <= l < cl && ps[l] >= 0 implies #[trigger] e.hkey(e.levels@[l][ps[l]])
                < key by {
                assert(l < ecl);
                assert(e0.hkey(e0.levels@[l][ps0@[l]]) < key);
                assert(e0.lvl_ok(l, ps[l]));
                let m = e0.levels@[l][ps[l]];
                assert(e.arena@[m as int] == e0.arena@[m as int]);
            }
            assert forall|l: int|
                0 <= l < cl && ps[l] + 1 < e.levels@[l].len() implies #[trigger] e.hkey(
                    e.levels@[l][ps[l] + 1],
                ) > key by {
                assert(l < ecl);
                assert(e0.hkey(e0.levels@[l][ps0@[l] + 1]) >= key);
                assert(e0.lvl_ok(l, ps[l] + 1));
                let m = e0.levels@[l][ps[l] + 1];
                assert(e0.levels@[l].contains(m));
                assert(e0.base().contains(m));
                let j0 = choose|j0: int| 0 <= j0 < e0.base().len() && e0.base()[j0] == m;
                assert(e0.model@.contains_key(e0.hkey(e0.base()[j0])));
                assert(e0.hkey(m) != key);
                assert(e.arena@[m as int] == e0.arena@[m as int]);
            }
            assert forall|l: int| 0 <= l < cl implies (#[trigger] preds@[l]) == (if ps[l] == -1 {
                None::<usize>
            } else {
                Some(e.levels@[l][ps[l]])
            }) by {
                if l < ecl {
                    assert(preds@[l] == preds0@[l] && ps[l] == ps0@[l]);
                }
            }
            assert forall|l: int| 0 <= l < level implies #[trigger] e.nd(h).next@[l] == (if ps[l]
                + 1 < e.levels@[l].len() {
                Link::Live(e.levels@[l][ps[l] + 1])
            } else {
                Link::Null
            }) by {
                assert(links@[l] == (if ps[l] + 1 < e.levels@[l].len() {
                    Link::Live(e.levels@[l][ps[l] + 1])
                } else {
                    Link::Null
                }));
            }
            assert forall|l: int|
                0 <= l < cl implies ((-1 <= #[trigger] ps[l] && ps[l] < e.levels@[l].len()) || (
                ps[l] == -1 && e.levels@[l].len() == 0)) by {
                if l < ecl {
                    assert(ps[l] == ps0@[l]);
                } else {
                    assert(ps[l] == -1);
                }
            }
        }
        let mut si: usize = 0;
        #[verifier::loop_isolation(true)]
        while si < level
            invariant
                si <= level,
                1 <= level,
                level <= cl,
                self.arena@.len() == e.arena@.len(),
                forall|t: int|
                    0 <= t < self.arena@.len() ==> (self.arena@[t] is Some <==> e.arena@[t]
                        is Some),
                forall|t: usize|
                    e.live(t) ==> self.nd(t).key == (#[trigger] e.nd(t)).key && self.nd(t).value
                        == e.nd(t).value && self.nd(t).next@.len() == e.nd(t).next@.len(),
                self.nd(h) == e.nd(h),
                e.live(h),
                e.nd(h).key == key,
                e.nd(h).value == value,
                e.nd(h).next@.len() == level,
                self.current_level == cl,
                self.head@.len() == cl,
                self.levels@.len() == cl,
                e.levels@.len() == cl,
                self.current_len == e.current_len,
                self.model == e.model,
                self.ratio == e.ratio,
                self.max_level == e.max_level,
                ps.len() == cl,
                preds@.len() == cl,
                forall|l: int|
                    0 <= l < cl ==> ((-1 <= #[trigger] ps[l] && ps[l] < e.levels@[l].len()) || (
                    ps[l] == -1 && e.levels@[l].len() == 0)),
                forall|l: int|
                    0 <= l < cl ==> (#[trigger] preds@[l]) == (if ps[l] == -1 {
                        None::<usize>
                    } else {
                        Some(e.levels@[l][ps[l]])
                    }),
                forall|l: int, j: int|
                    0 <= l < cl && 0 <= j < e.levels@[l].len() ==> #[trigger] e.lvl_ok(l, j)
                        && e.levels@[l][j] != h,
                forall|l: int|
                    0 <= l < cl && ps[l] >= 0 ==> #[trigger] e.hkey(e.levels@[l][ps[l]]) < key,
                forall|l: int|
                    0 <= l < cl && ps[l] + 1 < e.levels@[l].len() ==> #[trigger] e.hkey(
                        e.levels@[l][ps[l] + 1],
                    ) > key,
                forall|l: int|
                    0 <= l < level ==> #[trigger] e.nd(h).next@[l] == (if ps[l] + 1 < e.levels@[
                        l].len() {
                        Link::Live(e.levels@[l][ps[l] + 1])
                    } else {
                        Link::Null
                    }),
                forall|l: int|
                    0 <= l < si ==> self.levels@[l] == seq_ins(#[trigger] e.levels@[l], ps[l], h),
                forall|l: int|
                    si <= l < cl ==> self.levels@[l] == #[trigger] e.levels@[l] && self.head@[l]
                        == e.head@[l],
                forall|l: int, j: int|
                    0 <= l < cl && 0 <= j < self.levels@[l].len() ==> #[trigger] self.lvl_ok(l, j),
                forall|l: int|
                    0 <= l < cl ==> #[trigger] self.head@[l] == (if self.levels@[l].len() == 0 {
                        Link::Null
                    } else {
                        Link::Live(self.levels@[l][0])
                    }),
                forall|l: int, j1: int, j2: int|
                    0 <= l < cl && 0 <= j1 < j2 < self.levels@[l].len() ==> #[trigger] self.hkey(
                        self.levels@[l][j1],
                    ) < #[trigger] self.hkey(self.levels@[l][j2]),
                forall|l: int, t: usize|
                    0 <= l < cl ==> (self.levels@[l].contains(t) <==> ((#[trigger] e.levels@[
                    l].contains(t)) || (l < si && t == h))),
            decreases level - si,
        {
            let ghost s0 = *self;
            let ghost sl = e.levels@[si as int];
            let ghost sp = ps[si as int];
            proof {
                assert(self.levels@[si as int] == sl);
                assert(sp >= 0 ==> s0.hkey(sl[sp]) < key) by {
                    if sp >= 0 {
                        assert(e.lvl_ok(si as int, sp));
                        assert(e.hkey(e.levels@[si as int][ps[si as int]]) < key);
                        let m = sl[sp];
                        assert(s0.nd(m).key == (#[trigger] e.nd(m)).key);
                    }
                }
                assert(sp + 1 < sl.len() ==> s0.hkey(sl[sp + 1]) > key) by {
                    if sp + 1 < sl.len() {
                        assert(e.lvl_ok(si as int, sp + 1));
                        assert(e.hkey(e.levels@[si as int][ps[si as int] + 1]) > key);
                        let m = sl[sp + 1];
                        assert(s0.nd(m).key == (#[trigger] e.nd(m)).key);
                    }
                }
            }
            match preds[si] {
                None => {
                    proof {
                        assert(ps[si as int] == -1);
                    }
                    self.head[si] = Link::Live(h);
                },
                Some(p) => {
                    proof {
                        assert(sp >= 0 && p == sl[sp]);
                        assert(self.lvl_ok(si as int, sp));
                        assert(p != h) by {
                            assert(self.nd(h).key == key);
                            assert(self.hkey(p) < key);
                        }
                    }
                    self.set_next(p, si, Link::Live(h));
                },
            }
            let ghost cur = si as int;
            si = si + 1;
            proof {
                self.levels@ = self.levels@.update(cur, seq_ins(sl, sp, h));
                let s2 = seq_ins(sl, sp, h);
                assert(self.levels@[cur] == s2);
                assert(self.nd(h) == e.nd(h));
                assert forall|m: usize| s0.live(m) implies self.live(m) && #[trigger] self.hkey(m)
                    == s0.hkey(m) && self.hval(m) == s0.hval(m) && self.height(m) == s0.height(m) by {
                    if !(sp >= 0 && m == sl[sp]) {
                        assert(self.arena@[m as int] == s0.arena@[m as int]);
                    }
                }
                assert forall|l: int, j: int|
                    0 <= l < cl && 0 <= j < self.levels@[l].len() implies #[trigger] self.lvl_ok(
                    l, j) by {
                    if l == cur {
                        assert(s0.levels@[l] == sl);
                        if j <= sp - 1 {
                            assert(s0.lvl_ok(l, j));
                            assert(s2[j] == sl[j] && s2[j + 1] == sl[j + 1]);
                            assert(sl[j] != sl[sp]) by {
                                assert(s0.hkey(s0.levels@[l][j]) < s0.hkey(s0.levels@[l][sp]));
                            }
                            assert(self.nd(s2[j]) == s0.nd(sl[j]));
                        } else if j == sp {
                            assert(self.nd(sl[sp]).next@[l] == Link::Live(h));
                        } else if j == sp + 1 {
                            assert(s2[j] == h);
                            assert(self.nd(h).next@[l] == (if sp + 1 < sl.len() {
                                Link::Live(sl[sp + 1])
                            } else {
                                Link::Null
                            }));
                        } else {
                            assert(s0.lvl_ok(l, j - 1));
                            assert(s2[j] == sl[j - 1]);
                            if sp >= 0 {
                                assert(sl[j - 1] != sl[sp]) by {
                                    assert(s0.hkey(s0.levels@[l][sp]) < s0.hkey(
                                        s0.levels@[l][j - 1],
                                    ));
                                }
                            }
                            assert(self.nd(s2[j]) == s0.nd(sl[j - 1]));
                            if j + 1 < s2.len() {
                                assert(s2[j + 1] == sl[j]);
                            }
                        }
                    } else {
                        assert(s0.lvl_ok(l, j));
                        let m = s0.levels@[l][j];
                        if sp >= 0 && m == sl[sp] {
                            assert(self.nd(m).next@ == s0.nd(m).next@.update(cur, Link::Live(
                                h,
                            )));
                            assert(self.nd(m).next@[l] == s0.nd(m).next@[l]);
                        } else {
                            assert(self.nd(m) == s0.nd(m));
                        }
                    }
                }
                assert forall|l: int| 0 <= l < cl implies #[trigger] self.head@[l] == (if self.levels@[
                    l].len() == 0 {
                    Link::Null
                } else {
                    Link::Live(self.levels@[l][0])
                }) by {
                    if l == cur {
                        if sp == -1 {
                            assert(s2[0] == h);
                        } else {
                            assert(s2[0] == sl[0]);
                        }
                    }
                }
                assert forall|l: int, j1: int, j2: int|
                    0 <= l < cl && 0 <= j1 < j2 < self.levels@[l].len() implies #[trigger] self.hkey(
                        self.levels@[l][j1],
                    ) < #[trigger] self.hkey(self.levels@[l][j2]) by {
                    if l == cur {
                        assert(s0.levels@[l] == sl);
                        if j1 <= sp {
                            assert(s0.lvl_ok(l, j1));
                            assert(self.hkey(s2[j1]) == s0.hkey(sl[j1]));
                        } else if j1 > sp + 1 {
                            assert(s0.lvl_ok(l, j1 - 1));
                            assert(self.hkey(s2[j1]) == s0.hkey(sl[j1 - 1]));
                        } else {
                            assert(self.hkey(s2[j1]) == key);
                        }
                        if j2 <= sp {
                            assert(s0.lvl_ok(l, j2));
                            assert(self.hkey(s2[j2]) == s0.hkey(sl[j2]));
                        } else if j2 > sp + 1 {
                            assert(s0.lvl_ok(l, j2 - 1));
                            assert(self.hkey(s2[j2]) == s0.hkey(sl[j2 - 1]));
                        } else {
                            assert(self.hkey(s2[j2]) == key);
                        }
                        if j1 < j2 && j2 <= sp {
                            assert(s0.hkey(s0.levels@[l][j1]) < s0.hkey(s0.levels@[l][j2]));
                        }
                        if sp + 1 < j1 && j1 < j2 {
                            assert(s0.hkey(s0.levels@[l][j1 - 1]) < s0.hkey(
                                s0.levels@[l][j2 - 1],
                            ));
                        }
                        if j1 <= sp && j2 > sp + 1 {
                            if j1 < sp {
                                assert(s0.hkey(s0.levels@[l][j1]) < s0.hkey(s0.levels@[l][sp]));
                            }
                            assert(s0.hkey(sl[sp]) < key);
                            if sp + 1 < j2 - 1 {
                                assert(s0.hkey(s0.levels@[l][sp + 1]) < s0.hkey(
                                    s0.levels@[l][j2 - 1],
                                ));
                            }
                            assert(s0.hkey(sl[sp + 1]) > key);
                        }
                        if j1 <= sp && j2 == sp + 1 {
                            if j1 < sp {
                                assert(s0.hkey(s0.levels@[l][j1]) < s0.hkey(s0.levels@[l][sp]));
                            }
                            assert(s0.hkey(sl[sp]) < key);
                        }
                        if j1 == sp + 1 && j2 > sp + 1 {
                            assert(s0.hkey(sl[sp + 1]) > key);
                            if sp + 1 < j2 - 1 {
                                assert(s0.hkey(s0.levels@[l][sp + 1]) < s0.hkey(
                                    s0.levels@[l][j2 - 1],
                                ));
                            }
                        }
                    } else {
                        assert(s0.hkey(s0.levels@[l][j1]) < s0.hkey(s0.levels@[l][j2]));
                        assert(s0.lvl_ok(l, j1) && s0.lvl_ok(l, j2));
                    }
                }
                assert forall|l: int, t: usize|
                    0 <= l < cl implies (self.levels@[l].contains(t) <==> ((#[trigger] e.levels@[
                l].contains(t)) || (l < si && t == h))) by {
                    if l == cur {
                        lemma_seq_ins_contains(sl, sp, h, t);
                    } else if l < cur {
                        assert(self.levels@[l] == seq_ins(e.levels@[l], ps[l], h));
                        lemma_seq_ins_contains(e.levels@[l], ps[l], h, t);
                    } else {
                        assert(self.levels@[l] == e.levels@[l]);
                    }
                }
                assert forall|l: int| si <= l < cl implies self.levels@[l]
                    == #[trigger] e.levels@[l] && self.head@[l] == e.head@[l] by {
                    assert(l > cur);
                    assert(self.levels@[l] == s0.levels@[l]);
                    assert(self.head@[l] == s0.head@[l]);
                    assert(s0.levels@[l] == e.levels@[l]);
                    assert(s0.head@[l] == e.head@[l]);
                }
                assert forall|l: int|
                    0 <= l < si implies self.levels@[l] == seq_ins(
                    #[trigger] e.levels@[l],
                    ps[l],
                    h,
                ) by {
                    if l < cur {
                        assert(self.levels@[l] == s0.levels@[l]);
                    }
                }
            }
        }
        let ghost ex = *self;
        self.current_len = self.current_len + 1;
        proof {
            self.model@ = e.model@.insert(key, value);
            let b = *self;
            assert(b.arena == ex.arena && b.levels == ex.levels && b.head == ex.head);
            assert forall|l: int, j: int|
                0 <= l < cl && 0 <= j < b.levels@[l].len() implies #[trigger] b.lvl_ok(l, j) by {
                assert(ex.lvl_ok(l, j));
            }
            assert forall|l: int| 0 <= l < cl implies #[trigger] b.head@[l] == (if b.levels@[
                l].len() == 0 {
                Link::Null
            } else {
                Link::Live(b.levels@[l][0])
            }) by {
                assert(ex.head@[l] == (if ex.levels@[l].len() == 0 {
                    Link::Null
                } else {
                    Link::Live(ex.levels@[l][0])
                }));
            }
            assert forall|l: int, j1: int, j2: int|
                0 <= l < cl && 0 <= j1 < j2 < b.levels@[l].len() implies #[trigger] b.hkey(
                    b.levels@[l][j1],
                ) < #[trigger] b.hkey(b.levels@[l][j2]) by {
                assert(ex.hkey(ex.levels@[l][j1]) < ex.hkey(ex.levels@[l][j2]));
            }
            assert forall|l: int, t: usize|
                0 <= l < cl implies (b.levels@[l].contains(t) <==> ((#[trigger] e.levels@[
            l].contains(t)) || (l < level && t == h))) by {
                assert(ex.levels@[l].contains(t) <==> ((#[trigger] e.levels@[l].contains(t)) || (l
                    < level && t == h)));
            }
            assert forall|t: usize| e.live(t) implies b.nd(t).key == (#[trigger] e.nd(t)).key && b
                .nd(t).value == e.nd(t).value && b.nd(t).next@.len() == e.nd(t).next@.len() by {
                assert(ex.nd(t).key == (#[trigger] e.nd(t)).key && ex.nd(t).value == e.nd(t).value
                    && ex.nd(t).next@.len() == e.nd(t).next@.len());
            }
            Self::lemma_insert_wf(e0, e, b, ps, h, key, value, level, ecl as int, cl);
        }
    }

    proof fn lemma_delete_wf(
        e0: SkipList,
        x: SkipList,
        f: SkipList,
        ps: Seq<int>,
        hd: usize,
        ht: usize,
        key: u64,
        cl: usize,
    )
        requires
            e0.wf(),
            0 < cl,
            cl == e0.current_level,
            ps.len() == cl,
            e0.live(hd),
            e0.hkey(hd) == key,
            e0.height(hd) == ht,
            1 <= ht <= cl,
            0 <= ps[0] + 1 < e0.base().len(),
            e0.base()[ps[0] + 1] == hd,
            forall|l: int|
                0 <= l < cl ==> ((-1 <= #[trigger] ps[l] && ps[l] < e0.levels@[l].len()) || (ps[l]
                    == -1 && e0.levels@[l].len() == 0)),
            forall|l: int|
                0 <= l < ht ==> 0 <= ps[l] + 1 < (#[trigger] e0.levels@[l]).len() && e0.levels@[
                    l][ps[l] + 1] == hd,
            forall|l: int| ht <= l < cl ==> !(#[trigger] e0.levels@[l]).contains(hd),
            forall|l: int|
                0 <= l < cl && ps[l] >= 0 ==> #[trigger] e0.hkey(e0.levels@[l][ps[l]]) < key,
            forall|l: int|
                0 <= l < cl && ps[l] + 1 < e0.levels@[l].len() ==> #[trigger] e0.hkey(
                    e0.levels@[l][ps[l] + 1],
                ) >= key,
            x.arena@.len() == e0.arena@.len(),
            forall|t: int|
                0 <= t < x.arena@.len() ==> (x.arena@[t] is Some <==> e0.arena@[t] is Some),
            forall|t: usize|
                e0.live(t) ==> x.nd(t).key == (#[trigger] e0.nd(t)).key && x.nd(t).value == e0.nd(
                    t,
                ).value && x.nd(t).next@.len() == e0.nd(t).next@.len(),
            x.current_level == cl,
            x.head@.len() == cl,
            x.levels@.len() == cl,
            forall|l: int|
                0 <= l < ht ==> x.levels@[l] == seq_del(#[trigger] e0.levels@[l], ps[l] + 1),
            forall|l: int|
                ht <= l < cl ==> x.levels@[l] == #[trigger] e0.levels@[l] && x.head@[l]
                    == e0.head@[l],
            forall|l: int, j: int|
                0 <= l < cl && 0 <= j < x.levels@[l].len() ==> #[trigger] x.lvl_ok(l, j),
            forall|l: int|
                0 <= l < cl ==> #[trigger] x.head@[l] == (if x.levels@[l].len() == 0 {
                    Link::Null
                } else {
                    Link::Live(x.levels@[l][0])
                }),
            forall|l: int, j1: int, j2: int|
                0 <= l < cl && 0 <= j1 < j2 < x.levels@[l].len() ==> #[trigger] x.hkey(
                    x.levels@[l][j1],
                ) < #[trigger] x.hkey(x.levels@[l][j2]),
            f.arena@ == x.arena@.update(hd as int, None),
            f.head == x.head,
            f.levels == x.levels,
            f.current_level == cl,
            f.current_len == e0.current_len - 1,
            f.model@ == e0.model@.remove(key),
            f.ratio == e0.ratio,
            f.max_level == e0.max_level,
        ensures
            f.head@.len() == cl,
            f.levels@.len() == cl,
            f.base() == seq_del(e0.base(), ps[0] + 1),
            f.current_len == f.base().len(),
            forall|l: int, j: int|
                0 <= l < cl && 0 <= j < f.levels@[l].len() ==> #[trigger] f.lvl_ok(l, j),
            forall|l: int|
                0 <= l < cl ==> #[trigger] f.head@[l] == (if f.levels@[l].len() == 0 {
                    Link::Null
                } else {
                    Link::Live(f.levels@[l][0])
                }),
            forall|l: int, j1: int, j2: int|
                0 <= l < cl && 0 <= j1 < j2 < f.levels@[l].len() ==> #[trigger] f.hkey(
                    f.levels@[l][j1],
                ) < #[trigger] f.hkey(f.levels@[l][j2]),
            forall|l: int, t: usize|
                0 <= l < cl ==> ((#[trigger] f.levels@[l].contains(t)) <==> f.base().contains(t)
                    && l < f.height(t)),
            forall|j: int|
                0 <= j < f.base().len() ==> #[trigger] f.height(f.base()[j]) <= cl,
            forall|t: int|
                0 <= t < f.arena@.len() ==> (f.arena@[t] is Some <==> f.base().contains(
                    t as usize,
                )),
            forall|j: int|
                0 <= j < f.base().len() ==> f.model@.contains_key(#[trigger] f.hkey(f.base()[j]))
                    && f.model@[f.hkey(f.base()[j])] == f.hval(f.base()[j]),
            forall|k: u64|
                #[trigger] f.model@.contains_key(k) ==> exists|j: int|
                    0 <= j < f.base().len() && f.hkey(f.base()[j]) == k,
    {
        let ghost qp0 = ps[0] + 1;
        assert forall|l: int, t: usize|
            0 <= l < cl implies (x.levels@[l].contains(t) <==> ((#[trigger] e0.levels@[
        l].contains(t)) && !(l < ht && t == hd))) by {
            if l < ht {
                assert(x.levels@[l] == seq_del(e0.levels@[l], ps[l] + 1));
                assert forall|j1: int, j2: int|
                    0 <= j1 < j2 < e0.levels@[l].len() implies e0.levels@[l][j1] != e0.levels@[
                    l][j2] by {
                    assert(e0.hkey(e0.levels@[l][j1]) < e0.hkey(e0.levels@[l][j2]));
                }
                assert(0 <= ps[l] + 1 < e0.levels@[l].len());
                lemma_seq_del_contains(e0.levels@[l], ps[l] + 1, t);
                assert(e0.levels@[l][ps[l] + 1] == hd);
            } else {
                assert(x.levels@[l] == e0.levels@[l]);
            }
        }
        assert(f.arena.len() == f.arena@.len());
        assert(e0.arena.len() == e0.arena@.len());
        assert(f.levels@.len() == cl && f.head@.len() == cl && f.current_level == cl);
        assert(f.base() == f.levels@[0]);
        assert(f.base() == seq_del(e0.base(), qp0));
        // membership after the free: exactly the old members except the
        // freed node
        assert forall|l: int, t: usize|
            0 <= l < cl implies (f.levels@[l].contains(t) <==> ((#[trigger] e0.levels@[
        l].contains(t)) && t != hd)) by {
            if l < ht {
                assert(x.levels@[l].contains(t) <==> ((e0.levels@[l].contains(t)) && !(l < ht
                    && t == hd)));
                assert(e0.levels@[l] == e0.levels@[l]);
                assert(f.levels@[l] == x.levels@[l]);
            } else {
                assert(f.levels@[l] == e0.levels@[l]);
                assert(!e0.levels@[l].contains(hd));
            }
        }
        assert forall|l: int, j: int|
            0 <= l < cl && 0 <= j < f.levels@[l].len() implies #[trigger] f.lvl_ok(l, j) && f
                .levels@[l][j] != hd && f.hkey(f.levels@[l][j]) != key by {
            let m = f.levels@[l][j];
            assert(f.levels@[l].contains(m));
            assert(x.levels@[l].contains(m) <==> ((#[trigger] e0.levels@[l].contains(m)) && !(
            l < ht && m == hd)));
            assert(f.levels@[l] == x.levels@[l]);
            if l >= ht {
                assert(f.levels@[l] == e0.levels@[l] && !e0.levels@[l].contains(hd));
            }
            assert(m != hd);
            assert(e0.levels@[l].contains(m));
            let q = choose|q: int| 0 <= q < e0.levels@[l].len() && e0.levels@[l][q] == m;
            assert(e0.lvl_ok(l, q));
            assert(x.lvl_ok(l, j));
            assert(f.arena@[m as int] == x.arena@[m as int]);
            assert(x.arena@[m as int] is Some);
            assert(e0.hkey(m) != key) by {
                if e0.hkey(m) == key {
                    e0.lemma_target_pos(key, l, ps[l]);
                    assert(q == ps[l] + 1);
                    if l < ht {
                        assert(e0.levels@[l][ps[l] + 1] == hd);
                        assert(false);
                    } else {
                        assert(e0.levels@[l].contains(hd) <==> e0.base().contains(hd) && l
                            < e0.height(hd));
                        assert(e0.base().contains(m) && l < e0.height(m));
                        assert(false);
                    }
                }
            }
        }
        assert forall|l: int, t: usize|
            0 <= l < cl implies ((#[trigger] f.levels@[l].contains(t)) <==> f.base().contains(
                t,
            ) && l < f.height(t)) by {
            assert(e0.levels@[l].contains(t) <==> e0.base().contains(t) && l < e0.height(t));
            assert(f.levels@[0].contains(t) <==> e0.levels@[0].contains(t) && t != hd);
            if t != hd && e0.base().contains(t) {
                let q = choose|q: int| 0 <= q < e0.base().len() && e0.base()[q] == t;
                assert(e0.lvl_ok(0, q));
                assert(e0.live(t));
                assert(x.nd(t).next@.len() == (#[trigger] e0.nd(t)).next@.len());
                assert(f.nd(t) == x.nd(t));
                assert(f.height(t) == e0.height(t));
            }
        }
        assert forall|j: int| 0 <= j < f.base().len() implies #[trigger] f.height(f.base()[j])
            <= cl by {
            let m = f.base()[j];
            assert(f.levels@[0].contains(m));
            assert(f.lvl_ok(0, j));
            assert(f.levels@[0][j] != hd);
            assert(e0.base().contains(m));
            let q = choose|q: int| 0 <= q < e0.base().len() && e0.base()[q] == m;
            assert(e0.height(e0.base()[q]) <= cl);
            assert(e0.live(m));
            assert(x.nd(m).next@.len() == (#[trigger] e0.nd(m)).next@.len());
            assert(f.nd(m) == x.nd(m));
        }
        assert forall|t: int|
            0 <= t < f.arena@.len() implies (f.arena@[t] is Some <==> f.base().contains(
                t as usize,
            )) by {
            if t == hd as int {
                let c0 = e0.levels@[0].contains(hd);
                assert(f.base() == f.levels@[0]);
                assert(!f.base().contains(hd));
            } else {
                assert(f.arena@[t] == x.arena@[t]);
                assert(x.arena@[t] is Some <==> e0.arena@[t] is Some);
                assert(e0.arena@[t] is Some <==> e0.base().contains(t as usize));
                assert(f.levels@[0].contains(t as usize) <==> e0.levels@[0].contains(
                    t as usize,
                ) && t as usize != hd);
            }
        }
        assert forall|j: int| 0 <= j < f.base().len() implies f.model@.contains_key(
            #[trigger] f.hkey(f.base()[j]),
        ) && f.model@[f.hkey(f.base()[j])] == f.hval(f.base()[j]) by {
            let m = f.base()[j];
            assert(m == f.levels@[0][j]);
            assert(f.lvl_ok(0, j));
            assert(f.levels@[0][j] != hd && f.hkey(f.levels@[0][j]) != key);
            assert(f.levels@[0].contains(m));
            assert(f.levels@[0].contains(m) <==> (e0.levels@[0].contains(m) && m != hd));
            assert(e0.base().contains(m));
            let q = choose|q: int| 0 <= q < e0.base().len() && e0.base()[q] == m;
            assert(e0.lvl_ok(0, q));
            assert(e0.model@.contains_key(e0.hkey(e0.base()[q])));
            assert(e0.live(m));
            assert(x.nd(m).key == (#[trigger] e0.nd(m)).key && x.nd(m).value == e0.nd(m).value);
            assert(f.nd(m) == x.nd(m));
        }
        assert forall|k: u64| #[trigger] f.model@.contains_key(k) implies exists|j: int|
            0 <= j < f.base().len() && f.hkey(f.base()[j]) == k by {
            assert(e0.model@.contains_key(k) && k != key);
            let q = choose|q: int| 0 <= q < e0.base().len() && e0.hkey(e0.base()[q]) == k;
            assert(q != qp0) by {
                assert(e0.hkey(e0.base()[qp0]) == key);
            }
            let j = if q < qp0 {
                q
            } else {
                q - 1
            };
            assert(f.base()[j] == e0.base()[q]);
            assert(e0.lvl_ok(0, q));
            let m = e0.base()[q];
            assert(m != hd) by {
                assert(e0.hkey(e0.base()[qp0]) == key);
            }
            assert(e0.live(m));
            assert(x.nd(m).key == (#[trigger] e0.nd(m)).key);
            assert(f.nd(m) == x.nd(m));
            assert(f.hkey(f.base()[j]) == k);
        }
        assert forall|l: int| 0 <= l < cl implies #[trigger] f.head@[l] == (if f.levels@[
            l].len() == 0 {
            Link::Null
        } else {
            Link::Live(f.levels@[l][0])
        }) by {}
        assert forall|l: int, j1: int, j2: int|
            0 <= l < cl && 0 <= j1 < j2 < f.levels@[l].len() implies #[trigger] f.hkey(
                f.levels@[l][j1],
            ) < #[trigger] f.hkey(f.levels@[l][j2]) by {
            let m1 = f.levels@[l][j1];
            let m2 = f.levels@[l][j2];
            assert(f.lvl_ok(l, j1) && f.lvl_ok(l, j2));
            assert(f.levels@[l][j1] != hd && f.levels@[l][j2] != hd);
            assert(f.levels@[l] == x.levels@[l]);
            assert(x.hkey(x.levels@[l][j1]) < x.hkey(x.levels@[l][j2]));
            assert(f.nd(m1) == x.nd(m1) && f.nd(m2) == x.nd(m2));
        }
    }

    /// Within one level, a node carrying `key` can only sit right after the
    /// found predecessor position.
    proof fn lemma_target_pos(self, key: u64, i: int, p: int)
        requires
            self.wf(),
            0 <= i < self.levels@.len(),
            -1 <= p < self.levels@[i].len(),
            p >= 0 ==> self.hkey(self.levels@[i][p]) < key,
            p + 1 < self.levels@[i].len() ==> self.hkey(self.levels@[i][p + 1]) >= key,
        ensures
            forall|q: int|
                0 <= q < self.levels@[i].len() && self.hkey(
                    #[trigger] self.levels@[i][q],
                ) == key ==> q == p + 1,
    {
        assert forall|q: int|
            0 <= q < self.levels@[i].len() && self.hkey(#[trigger] self.levels@[i][q])
                == key implies q == p + 1 by {
            if q <= p {
                if q < p {
                    assert(self.hkey(self.levels@[i][q]) < self.hkey(self.levels@[i][p]));
                }
                assert(false);
            } else if q > p + 1 {
                assert(self.hkey(self.levels@[i][p + 1]) < self.hkey(self.levels@[i][q]));
                assert(false);
            }
        }
    }

    /// Remove `key`: find its per-level predecessors, unlink the node from
    /// every level it appears in, and free it. The removed value is returned;
    /// an absent key changes nothing.
    #[verifier::loop_isolation(false)]
    #[verifier::rlimit(100)]
    #[verifier::spinoff_prover]
    pub fn delete(&mut self, key: u64) -> (r: Option<u64>)
        requires
            old(self).wf(),
        ensures
            final(self).wf(),
            final(self)@ == old(self)@.remove(key),
            r == (if old(self)@.contains_key(key) {
                Some(old(self)@[key])
            } else {
                None::<u64>
            }),
            final(self).height_limit() == old(self).height_limit(),
            final(self).spec_ratio() == old(self).spec_ratio(),
            final(self).count() == (if old(self)@.contains_key(key) {
                old(self).count() - 1
            } else {
                old(self).count() as int
            }),
    {
        let ghost e0 = *self;
        if self.current_level == 0 {
            proof {
                if self@.contains_key(key) {
                    let j = choose|j: int|
                        0 <= j < self.base().len() && self.hkey(self.base()[j]) == key;
                    assert(false);
                }
                assert(self.model@ =~= self.model@.remove(key));
            }
            return None;
        }
        let (preds, ps) = self.find_preds(key);
        let succ: Link = match preds[0] {
            None => self.head[0],
            Some(p) => {
                proof {
                    assert(self.lvl_ok(0, ps@[0]));
                }
                self.next_of(p, 0)
            },
        };
        proof {
            assert(succ == (if ps@[0] + 1 < self.base().len() {
                Link::Live(self.base()[ps@[0] + 1])
            } else {
                Link::Null
            }));
            self.lemma_found_at_base(key, ps@[0]);
        }
        let hd: usize = match succ {
            Link::Null => {
                proof {
                    assert(self.model@ =~= self.model@.remove(key));
                }
                return None;
            },
            Link::Live(hd) => hd,
        };
        proof {
            assert(self.lvl_ok(0, ps@[0] + 1));
        }
        if self.key_of(hd) != key {
            proof {
                assert(self.model@ =~= self.model@.remove(key));
            }
            return None;
        }
        let value = self.val_of(hd);
        let ht = self.height_of(hd);
        let cl = self.current_level;
        proof {
            assert(self@.contains_key(key) && self@[key] == value);
            assert(1 <= ht <= cl) by {
                assert(self.base().contains(self.base()[ps@[0] + 1]));
                assert(self.height(self.base()[ps@[0] + 1]) <= self.current_level);
            }
            // the node sits right after the found predecessor on every level
            // it reaches
            assert forall|l: int|
                0 <= l < ht implies 0 <= ps@[l] + 1 < (#[trigger] e0.levels@[l]).len() && e0
                .levels@[l][ps@[l] + 1] == hd by {
                assert(e0.levels@[l].contains(hd)) by {
                    assert(e0.base().contains(hd));
                }
                let q = choose|q: int| 0 <= q < e0.levels@[l].len() && e0.levels@[l][q] == hd;
                e0.lemma_target_pos(key, l, ps@[l]);
                assert(e0.hkey(e0.levels@[l][q]) == key);
            }
            // it reaches no level above its height
            assert forall|l: int| ht <= l < cl implies !(#[trigger] e0.levels@[l]).contains(
                hd,
            ) by {
                assert(e0.levels@[l].contains(hd) <==> e0.base().contains(hd) && l < e0.height(
                    hd,
                ));
            }
            // every level chain has pairwise distinct handles
            assert forall|l: int, j1: int, j2: int|
                0 <= l < cl && 0 <= j1 < j2 < e0.levels@[l].len() implies (#[trigger] e0.levels@[
            l][j1]) != (#[trigger] e0.levels@[l][j2]) by {
                assert(e0.hkey(e0.levels@[l][j1]) < e0.hkey(e0.levels@[l][j2]));
            }
            assert forall|l: int, j: int|
                0 <= l < cl && 0 <= j < e0.levels@[l].len() implies #[trigger] e0.lvl_ok(
                l, j) by {}
        }
        // read the successor links before unlinking
        let mut succs: Vec<Link> = Vec::new();
        let mut li: usize = 0;
        while li < ht
            invariant
                li <= ht,
                succs@.len() == li,
                forall|l: int| 0 <= l < li ==> #[trigger] succs@[l] == self.nd(hd).next@[l],
            decreases ht - li,
        {
            let lk = self.next_of(hd, li);
            succs.push(lk);
            li = li + 1;
        }
        proof {
            assert forall|l: int| 0 <= l < ht implies #[trigger] succs@[l] == (if ps@[l] + 2
                < e0.levels@[l].len() {
                Link::Live(e0.levels@[l][ps@[l] + 2])
            } else {
                Link::Null
            }) by {
                assert(e0.lvl_ok(l, ps@[l] + 1));
            }
        }
        let mut ui: usize = 0;
        #[verifier::loop_isolation(true)]
        while ui < ht
            invariant
                ui <= ht,
                1 <= ht,
                ht <= cl,
                e0.wf(),
                e0.live(hd),
                e0.hkey(hd) == key,
                e0.height(hd) == ht,
                self.arena@.len() == e0.arena@.len(),
                forall|t: int|
                    0 <= t < self.arena@.len() ==> (self.arena@[t] is Some <==> e0.arena@[t]
                        is Some),
                forall|t: usize|
                    e0.live(t) ==> self.nd(t).key == (#[trigger] e0.nd(t)).key && self.nd(t).value
                        == e0.nd(t).value && self.nd(t).next@.len() == e0.nd(t).next@.len(),
                self.nd(hd) == e0.nd(hd),
                self.current_level == cl,
                self.head@.len() == cl,
                self.levels@.len() == cl,
                e0.levels@.len() == cl,
                self.current_len == e0.current_len,
                self.model == e0.model,
                self.ratio == e0.ratio,
                self.max_level == e0.max_level,
                ps@.len() == cl,
                preds@.len() == cl,
                succs@.len() == ht,
                forall|l: int|
                    0 <= l < cl ==> ((-1 <= #[trigger] ps@[l] && ps@[l] < e0.levels@[l].len()) || (
                    ps@[l] == -1 && e0.levels@[l].len() == 0)),
                forall|l: int|
                    0 <= l < cl ==> (#[trigger] preds@[l]) == (if ps@[l] == -1 {
                        None::<usize>
                    } else {
                        Some(e0.levels@[l][ps@[l]])
                    }),
                forall|l: int, j: int|
                    0 <= l < cl && 0 <= j < e0.levels@[l].len() ==> #[trigger] e0.lvl_ok(l, j),
                forall|l: int, j1: int, j2: int|
                    0 <= l < cl && 0 <= j1 < j2 < e0.levels@[l].len() ==> (#[trigger] e0.levels@[
                    l][j1]) != (#[trigger] e0.levels@[l][j2]),
                forall|l: int|
                    0 <= l < cl && ps@[l] >= 0 ==> #[trigger] e0.hkey(e0.levels@[l][ps@[l]]) < key,
                forall|l: int|
                    0 <= l < ht ==> 0 <= ps@[l] + 1 < (#[trigger] e0.levels@[l]).len()
                        && e0.levels@[l][ps@[l] + 1] == hd,
                forall|l: int|
                    0 <= l < ht ==> #[trigger] succs@[l] == (if ps@[l] + 2 < e0.levels@[l].len() {
                        Link::Live(e0.levels@[l][ps@[l] + 2])
                    } else {
                        Link::Null
                    }),
                forall|l: int|
                    0 <= l < ui ==> self.levels@[l] == seq_del(#[trigger] e0.levels@[l], ps@[l] + 1),
                forall|l: int|
                    ui <= l < cl ==> self.levels@[l] == #[trigger] e0.levels@[l] && self.head@[l]
                        == e0.head@[l],
                forall|l: int, j: int|
                    0 <= l < cl && 0 <= j < self.levels@[l].len() ==> #[trigger] self.lvl_ok(l, j),
                forall|l: int|
                    0 <= l < cl ==> #[trigger] self.head@[l] == (if self.levels@[l].len() == 0 {
                        Link::Null
                    } else {
                        Link::Live(self.levels@[l][0])
                    }),
                forall|l: int, j1: int, j2: int|
                    0 <= l < cl && 0 <= j1 < j2 < self.levels@[l].len() ==> #[trigger] self.hkey(
                        self.levels@[l][j1],
                    ) < #[trigger] self.hkey(self.levels@[l][j2]),
                forall|l: int, t: usize|
                    0 <= l < cl ==> (self.levels@[l].contains(t) <==> ((#[trigger] e0.levels@[
                    l].contains(t)) && !(l < ui && t == hd))),
            decreases ht - ui,
        {
            let ghost s0 = *self;
            let ghost sl = e0.levels@[ui as int];
            let ghost sp = ps@[ui as int];
            let ghost qp = sp + 1;
            let newlink = succs[ui];
            match preds[ui] {
                None => {
                    proof {
                        assert(sp == -1);
                    }
                    self.head[ui] = newlink;
                },
                Some(p) => {
                    proof {
                        assert(sp >= 0 && p == sl[sp]);
                        assert(self.lvl_ok(ui as int, sp));
                        assert(p != hd) by {
                            assert(e0.hkey(e0.levels@[ui as int][ps@[ui as int]]) < key);
                            assert(self.nd(p).key == (#[trigger] e0.nd(p)).key);
                            assert(self.nd(hd).key == key);
                        }
                    }
                    self.set_next(p, ui, newlink);
                },
            }
            let ghost cur = ui as int;
            ui = ui + 1;
            proof {
                self.levels@ = self.levels@.update(cur, seq_del(sl, qp));
                let s2 = seq_del(sl, qp);
                assert(e0.levels@[cur][ps@[cur] + 1] == hd);
                assert(0 <= qp < sl.len());
                assert(sl[qp] == hd);
                assert(self.levels@[cur] == s2);
                assert(self.nd(hd) == e0.nd(hd));
                assert forall|m: usize| s0.live(m) implies self.live(m) && #[trigger] self.hkey(m)
                    == s0.hkey(m) && self.hval(m) == s0.hval(m) && self.height(m) == s0.height(
                    m,
                ) by {
                    if !(sp >= 0 && m == sl[sp]) {
                        assert(self.arena@[m as int] == s0.arena@[m as int]);
                    }
                }
                assert forall|l: int, j: int|
                    0 <= l < cl && 0 <= j < self.levels@[l].len() implies #[trigger] self.lvl_ok(
                    l, j) by {
                    if l == cur {
                        assert(s0.levels@[l] == sl);
                        if j < sp {
                            assert(s0.lvl_ok(l, j));
                            assert(s2[j] == sl[j] && s2[j + 1] == sl[j + 1]);
                            assert(sl[j] != sl[sp]);
                            assert(self.nd(s2[j]) == s0.nd(sl[j]));
                        } else if j == sp {
                            assert(self.nd(sl[sp]).next@[l] == newlink);
                            if j + 1 < s2.len() {
                                assert(s2[j + 1] == sl[j + 2]);
                            }
                        } else {
                            assert(s0.lvl_ok(l, j + 1));
                            assert(s2[j] == sl[j + 1]);
                            assert(sl[j + 1] != sl[qp]);
                            if sp >= 0 {
                                assert(sl[j + 1] != sl[sp]);
                            }
                            assert(self.nd(s2[j]) == s0.nd(sl[j + 1]));
                            if j + 1 < s2.len() {
                                assert(s2[j + 1] == sl[j + 2]);
                            }
                        }
                    } else {
                        assert(s0.lvl_ok(l, j));
                        let m = s0.levels@[l][j];
                        if sp >= 0 && m == sl[sp] {
                            assert(self.nd(m).next@ == s0.nd(m).next@.update(cur, newlink));
                            assert(self.nd(m).next@[l] == s0.nd(m).next@[l]);
                        } else {
                            assert(self.nd(m) == s0.nd(m));
                        }
                    }
                }
                assert forall|l: int| 0 <= l < cl implies #[trigger] self.head@[l] == (if self
                    .levels@[l].len() == 0 {
                    Link::Null
                } else {
                    Link::Live(self.levels@[l][0])
                }) by {
                    if l == cur {
                        if sp == -1 {
                            if s2.len() > 0 {
                                assert(s2[0] == sl[1]);
                            }
                        } else {
                            assert(s2[0] == sl[0]);
                        }
                    }
                }
                assert forall|l: int, j1: int, j2: int|
                    0 <= l < cl && 0 <= j1 < j2 < self.levels@[l].len() implies #[trigger] self
                    .hkey(self.levels@[l][j1]) < #[trigger] self.hkey(self.levels@[l][j2]) by {
                    if l == cur {
                        assert(s0.levels@[l] == sl);
                        let i1 = if j1 < qp {
                            j1
                        } else {
                            j1 + 1
                        };
                        let i2 = if j2 < qp {
                            j2
                        } else {
                            j2 + 1
                        };
                        assert(s2[j1] == sl[i1] && s2[j2] == sl[i2]);
                        assert(s0.hkey(s0.levels@[l][i1]) < s0.hkey(s0.levels@[l][i2]));
                        assert(s0.lvl_ok(l, i1) && s0.lvl_ok(l, i2));
                    } else {
                        assert(s0.hkey(s0.levels@[l][j1]) < s0.hkey(s0.levels@[l][j2]));
                        assert(s0.lvl_ok(l, j1) && s0.lvl_ok(l, j2));
                    }
                }
                assert forall|l: int| ui <= l < cl implies self.levels@[l] == #[trigger] e0.levels@[
                    l] && self.head@[l] == e0.head@[l] by {
                    assert(l > cur);
                    assert(self.levels@[l] == s0.levels@[l]);
                    assert(self.head@[l] == s0.head@[l]);
                    assert(s0.levels@[l] == e0.levels@[l]);
                    assert(s0.head@[l] == e0.head@[l]);
                }
                assert forall|l: int|
                    0 <= l < ui implies self.levels@[l] == seq_del(
                    #[trigger] e0.levels@[l],
                    ps@[l] + 1,
                ) by {}
                assert forall|l: int|
                    0 <= l < ht implies 0 <= ps@[l] + 1 < (#[trigger] e0.levels@[l]).len()
                    && e0.levels@[l][ps@[l] + 1] == hd by {}
                assert forall|l: int, t: usize|
                    0 <= l < cl implies (self.levels@[l].contains(t) <==> ((#[trigger] e0.levels@[
                l].contains(t)) && !(l < ui && t == hd))) by {
                    if l == cur {
                        lemma_seq_del_contains(sl, qp, t);
                        assert(sl[qp] == hd);
                    } else if l < cur {
                        assert(e0.levels@[l][ps@[l] + 1] == hd);
                        assert(self.levels@[l] == seq_del(e0.levels@[l], ps@[l] + 1));
                        lemma_seq_del_contains(e0.levels@[l], ps@[l] + 1, t);
                    } else {
                        assert(self.levels@[l] == e0.levels@[l]);
                    }
                }
            }
        }
        // the node is unreachable from every level: free it
        let ghost x = *self;
        proof {
            assert(self.current_len == e0.base().len());
        }
        self.arena[hd] = None;
        self.current_len = self.current_len - 1;
        proof {
            self.model@ = e0.model@.remove(key);
        }
        let ghost f = *self;
        proof {
            assert(ui == ht);
            Self::lemma_delete_wf(e0, x, f, ps@, hd, ht, key, cl);
        }
        // drop the levels that have emptied
        while self.current_level > 0 && self.head[self.current_level - 1].is_null()
            invariant
                self.arena == f.arena,
                self.model == f.model,
                self.current_len == f.current_len,
                self.ratio == f.ratio,
                self.max_level == f.max_level,
                self.current_level <= cl,
                self.head@.len() == self.current_level,
                self.levels@.len() == self.current_level,
                forall|l: int|
                    0 <= l < self.current_level ==> self.levels@[l] == #[trigger] f.levels@[l]
                        && self.head@[l] == f.head@[l],
                self.base() == f.base(),
                forall|j: int|
                    0 <= j < f.base().len() ==> #[trigger] f.height(f.base()[j])
                        <= self.current_level,
            decreases self.current_level,
        {
            let ghost d0 = *self;
            proof {
                assert(self.levels@[self.current_level - 1].len() == 0) by {
                    assert(f.head@[self.current_level - 1] == (if f.levels@[self.current_level
                        - 1].len() == 0 {
                        Link::Null
                    } else {
                        Link::Live(f.levels@[self.current_level - 1][0])
                    }));
                }
            }
            self.head.pop();
            self.current_level = self.current_level - 1;
            proof {
                self.levels@ = self.levels@.take(self.levels@.len() - 1);
                assert(self.levels@.len() == self.current_level);
                if self.current_level == 0 {
                    assert(d0.levels@[0].len() == 0) by {
                        assert(d0.levels@[0] == f.levels@[0]);
                        assert(d0.levels@[d0.current_level - 1].len() == 0);
                    }
                    assert(self.base() =~= f.base());
                } else {
                    assert(self.levels@[0] == d0.levels@[0]);
                }
                assert forall|j: int| 0 <= j < f.base().len() implies #[trigger] f.height(
                    f.base()[j],
                ) <= self.current_level by {
                    let m = f.base()[j];
                    if f.height(m) > self.current_level {
                        assert(f.levels@[d0.current_level - 1].contains(m) <==> f.base().contains(
                            m,
                        ) && d0.current_level - 1 < f.height(m));
                        assert(f.base().contains(f.base()[j]));
                        assert(f.levels@[d0.current_level - 1].contains(m));
                        assert(d0.levels@[d0.current_level - 1].len() == 0);
                        assert(d0.levels@[d0.current_level - 1] == f.levels@[d0.current_level
                            - 1]);
                        assert(false);
                    }
                }
            }
        }
        proof {
            let g = *self;
            let gcl = g.current_level as int;
            assert(g.current_level > 0 ==> g.levels@[gcl - 1].len() > 0) by {
                if g.current_level > 0 {
                    assert(g.head@[gcl - 1] == f.head@[gcl - 1]);
                    assert(f.head@[gcl - 1] == (if f.levels@[gcl - 1].len() == 0 {
                        Link::Null
                    } else {
                        Link::Live(f.levels@[gcl - 1][0])
                    }));
                }
            }
            assert forall|l: int, j: int|
                0 <= l < gcl && 0 <= j < g.levels@[l].len() implies #[trigger] g.lvl_ok(l, j) by {
                assert(g.levels@[l] == f.levels@[l]);
                assert(f.lvl_ok(l, j));
            }
            assert forall|l: int| 0 <= l < gcl implies #[trigger] g.head@[l] == (if g.levels@[
                l].len() == 0 {
                Link::Null
            } else {
                Link::Live(g.levels@[l][0])
            }) by {
                assert(g.head@[l] == f.head@[l] && g.levels@[l] == f.levels@[l]);
                assert(f.head@[l] == (if f.levels@[l].len() == 0 {
                    Link::Null
                } else {
                    Link::Live(f.levels@[l][0])
                }));
            }
            assert forall|l: int, j1: int, j2: int|
                0 <= l < gcl && 0 <= j1 < j2 < g.levels@[l].len() implies #[trigger] g.hkey(
                    g.levels@[l][j1],
                ) < #[trigger] g.hkey(g.levels@[l][j2]) by {
                assert(g.levels@[l] == f.levels@[l]);
                assert(f.hkey(f.levels@[l][j1]) < f.hkey(f.levels@[l][j2]));
            }
            assert forall|l: int, t: usize|
                0 <= l < gcl implies ((#[trigger] g.levels@[l].contains(t)) <==> g.base().contains(
                    t,
                ) && l < g.height(t)) by {
                assert(g.levels@[l] == f.levels@[l]);
                assert(f.levels@[l].contains(t) <==> f.base().contains(t) && l < f.height(t));
            }
            assert forall|j: int| 0 <= j < g.base().len() implies #[trigger] g.height(g.base()[j])
                <= g.current_level by {
                assert(f.height(f.base()[j]) <= g.current_level);
            }
            assert forall|t: int|
                0 <= t < g.arena@.len() implies (g.arena@[t] is Some <==> g.base().contains(
                    t as usize,
                )) by {
                assert(f.arena@[t] is Some <==> f.base().contains(t as usize));
            }
            assert forall|j: int| 0 <= j < g.base().len() implies g.model@.contains_key(
                #[trigger] g.hkey(g.base()[j]),
            ) && g.model@[g.hkey(g.base()[j])] == g.hval(g.base()[j]) by {
                assert(f.model@.contains_key(f.hkey(f.base()[j])) && f.model@[f.hkey(f.base()[j])]
                    == f.hval(f.base()[j]));
            }
            assert forall|k: u64| #[trigger] g.model@.contains_key(k) implies exists|j: int|
                0 <= j < g.base().len() && g.hkey(g.base()[j]) == k by {
                let j = choose|j: int| 0 <= j < f.base().len() && f.hkey(f.base()[j]) == k;
                assert(g.hkey(g.base()[j]) == k);
            }
            assert(g.wf_shape());
            assert(g.wf_chains());
            assert(g.wf_mem());
            assert(g.wf_model());
            assert(g.wf());
        }
        Some(value)
    }

    /// The entry with the smallest key, or `None` on an empty list.
    pub fn front(&self) -> (r: Option<(u64, u64)>)
        requires
            self.wf(),
        ensures
            r is Some ==> self@.contains_key(r.unwrap().0) && r.unwrap().1 == self@[r.unwrap().0]
                && (forall|k: u64| #[trigger] self@.contains_key(k) ==> r.unwrap().0 <= k),
            r is None ==> forall|k: u64| !(#[trigger] self@.contains_key(k)),
    {
        if self.current_level == 0 {
            proof {
                assert forall|k: u64| !(#[trigger] self@.contains_key(k)) by {
                    if self@.contains_key(k) {
                        let j = choose|j: int|
                            0 <= j < self.base().len() && self.hkey(self.base()[j]) == k;
                        assert(false);
                    }
                }
            }
            return None;
        }
        match self.head[0] {
            Link::Null => {
                proof {
                    let cl = self.current_level as int;
                    assert(self.levels@[cl - 1].len() > 0);
                    let m = self.levels@[cl - 1][0];
                    assert(self.levels@[cl - 1].contains(m));
                    assert(self.base().contains(m));
                    let q = choose|q: int|
                        0 <= q < self.base().len() && self.base()[q] == m;
                    assert(self.head@[0] == Link::Live(self.base()[0]));
                    assert(false);
                }
                None
            },
            Link::Live(h) => {
                proof {
                    assert(self.lvl_ok(0, 0));
                    assert(h == self.base()[0]);
                    assert forall|k: u64| #[trigger] self@.contains_key(k) implies self.hkey(h)
                        <= k by {
                        let j = choose|j: int|
                            0 <= j < self.base().len() && self.hkey(self.base()[j]) == k;
                        if j > 0 {
                            assert(self.hkey(self.levels@[0][0]) < self.hkey(self.levels@[0][j]));
                        }
                    }
                }
                Some((self.key_of(h), self.val_of(h)))
            },
        }
    }

    /// The keys linked on level `i`, in increasing order: a subset of the
    /// map's keys (empty above the levels in use), and on level 0 every key
    /// of the map.
    pub fn keys_at_level(&self, i: usize) -> (ks: Vec<u64>)
        requires
            self.wf(),
        ensures
            forall|j: int| 0 <= j < ks@.len() ==> self@.contains_key(#[trigger] ks@[j]),
            forall|j1: int, j2: int| 0 <= j1 < j2 < ks@.len() ==> ks@[j1] < ks@[j2],
            i == 0 && i < self.level_count() ==> (forall|k: u64|
                #[trigger] self@.contains_key(k) ==> ks@.contains(k)),
            i >= self.level_count() ==> ks@.len() == 0,
    {
        let mut ks: Vec<u64> = Vec::new();
        if i >= self.current_level {
            return ks;
        }
        let ghost lvl = self.levels@[i as int];
        let mut link = self.head[i];
        let ghost mut j: int = 0;
        loop
            invariant
                self.wf(),
                (i as int) < self.levels@.len(),
                lvl == self.levels@[i as int],
                0 <= j <= lvl.len(),
                ks@.len() == j,
                forall|q: int| 0 <= q < j ==> #[trigger] ks@[q] == self.hkey(lvl[q]),
                link == (if j < lvl.len() {
                    Link::Live(lvl[j])
                } else {
                    Link::Null
                }),
            decreases lvl.len() - j,
        {
            match link {
                Link::Null => {
                    proof {
                        assert forall|q: int| 0 <= q < ks@.len() implies self@.contains_key(
                            #[trigger] ks@[q],
                        ) by {
                            assert(self.lvl_ok(i as int, q));
                            let m = lvl[q];
                            assert(self.levels@[i as int].contains(m));
                            assert(self.base().contains(m));
                            let b = choose|b: int|
                                0 <= b < self.base().len() && self.base()[b] == m;
                            assert(self.model@.contains_key(self.hkey(self.base()[b])));
                        }
                        assert forall|q1: int, q2: int| 0 <= q1 < q2 < ks@.len() implies ks@[q1]
                            < ks@[q2] by {
                            assert(self.hkey(self.levels@[i as int][q1]) < self.hkey(
                                self.levels@[i as int][q2],
                            ));
                        }
                        if i == 0 {
                            assert forall|k: u64| #[trigger] self@.contains_key(
                                k,
                            ) implies ks@.contains(k) by {
                                let b = choose|b: int|
                                    0 <= b < self.base().len() && self.hkey(self.base()[b]) == k;
                                assert(ks@[b] == k);
                            }
                        }
                    }
                    return ks;
                },
                Link::Live(h) => {
                    proof {
                        assert(self.lvl_ok(i as int, j));
                    }
                    ks.push(self.key_of(h));
                    link = self.next_of(h, i);
                    proof {
                        j = j + 1;
                    }
                },
            }
        }
    }

    /// Draw the height for a fresh node: starting from one, each further
    /// level is kept with probability one in `ratio`, capped by the maximum.
    fn get_random_level(&self) -> (level: usize)
        requires
            self.wf(),
        ensures
            1 <= level <= self.height_limit(),
    {
        let mut level: usize = 1;
        while level < self.max_level
            invariant
                1 <= level <= self.max_level,
                self.ratio >= 1,
            decreases self.max_level - level,
        {
            let draw: u64 = rand::random::<u64>();
            if draw % self.ratio == 0 {
                level = level + 1;
            } else {
                break ;
            }
        }
        level
    }
}

} // verus!
