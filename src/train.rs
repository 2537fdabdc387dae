use vstd::prelude::*;
use crate::block::PairChange;
use crate::pairs::PairMap;

verus! {

/// A heap entry: a pair, its count when the entry was pushed, and the local blocks known to
/// hold the pair at that time.
pub struct Pair {
    pub count: i64,
    pub vals: (u32, u32),
    pub block_ids: Vec<usize>,
}

/// The entry's priority: its count, then its pair.
pub open spec fn key_of(p: Pair) -> (i64, (u32, u32)) {
    (p.count, p.vals)
}

/// Whether an entry of key `a` is taken no later than one of key `b`: the higher count first,
/// and on equal counts the lexicographically smaller pair.
pub open spec fn pops_before(a: (i64, (u32, u32)), b: (i64, (u32, u32))) -> bool {
    a.0 > b.0 || (a.0 == b.0 && (a.1.0 < b.1.0 || (a.1.0 == b.1.0 && a.1.1 <= b.1.1)))
}

/// Where an entry of key `k` goes in the ordered keys `s`: after every key that is taken later.
pub open spec fn insert_pos(s: Seq<(i64, (u32, u32))>, k: (i64, (u32, u32))) -> int
    decreases s.len(),
{
    if s.len() == 0 {
        0
    } else if pops_before(s.last(), k) {
        insert_pos(s.drop_last(), k)
    } else {
        s.len() as int
    }
}

/// `x` brought into the range of `i64`.
pub open spec fn clamp(x: int) -> i64 {
    if x > i64::MAX { i64::MAX } else if x < i64::MIN { i64::MIN } else { x as i64 }
}

/// `a + b`, held in the range of `i64`.
pub fn add_clamped(a: i64, b: i64) -> (r: i64)
    ensures
        r == clamp(a + b),
{
    if b > 0 && a > i64::MAX - b {
        i64::MAX
    } else if b < 0 && a < i64::MIN - b {
        i64::MIN
    } else {
        a + b
    }
}

/// The counts after one change: a held pair moves by `delta`; an absent pair enters only with a
/// positive `delta`.
pub open spec fn apply_change(m: Map<(u32, u32), i64>, pair: (u32, u32), delta: i64) -> Map<(u32, u32), i64> {
    if m.contains_key(pair) {
        m.insert(pair, clamp(m[pair] + delta))
    } else if delta > 0 {
        m.insert(pair, delta)
    } else {
        m
    }
}

/// The counts after a list of changes, applied in order.
pub open spec fn apply_changes(m: Map<(u32, u32), i64>, cs: Seq<PairChange>) -> Map<(u32, u32), i64>
    decreases cs.len(),
{
    if cs.len() == 0 {
        m
    } else {
        apply_change(apply_changes(m, cs.drop_last()), cs.last().pair, cs.last().delta)
    }
}

/// The heap's keys after a list of changes: each change that brings a new pair in adds an
/// entry with the change as its count, in order.
pub open spec fn commit_keys(
    keys: Seq<(i64, (u32, u32))>,
    m: Map<(u32, u32), i64>,
    cs: Seq<PairChange>,
) -> Seq<(i64, (u32, u32))>
    decreases cs.len(),
{
    if cs.len() == 0 {
        keys
    } else {
        let k0 = commit_keys(keys, m, cs.drop_last());
        let e = cs.last();
        if e.delta > 0 && !apply_changes(m, cs.drop_last()).contains_key(e.pair) {
            k0.insert(insert_pos(k0, (e.delta, e.pair)), (e.delta, e.pair))
        } else {
            k0
        }
    }
}

/// The blocks of the heap's entries after a list of changes, in the order of `commit_keys`.
pub open spec fn commit_hints(
    keys: Seq<(i64, (u32, u32))>,
    hints: Seq<Seq<usize>>,
    m: Map<(u32, u32), i64>,
    cs: Seq<PairChange>,
) -> Seq<Seq<usize>>
    decreases cs.len(),
{
    if cs.len() == 0 {
        hints
    } else {
        let k0 = commit_keys(keys, m, cs.drop_last());
        let h0 = commit_hints(keys, hints, m, cs.drop_last());
        let e = cs.last();
        if e.delta > 0 && !apply_changes(m, cs.drop_last()).contains_key(e.pair) {
            h0.insert(insert_pos(k0, (e.delta, e.pair)), e.block_ids@)
        } else {
            h0
        }
    }
}

/// A copy of the block indices `v`.
pub fn copy_ids(v: &Vec<usize>) -> (r: Vec<usize>)
    ensures
        r@ == v@,
{
    let mut r: Vec<usize> = Vec::new();
    let mut i: usize = 0;
    while i < v.len()
        invariant
            i <= v@.len(),
            r@ == v@.subrange(0, i as int),
        decreases v@.len() - i,
    {
        r.push(v[i]);
        i = i + 1;
        proof {
            assert(r@ =~= v@.subrange(0, i as int));
        }
    }
    proof {
        assert(v@.subrange(0, v@.len() as int) =~= v@);
    }
    r
}

/// Whether the change `cs[j]` brings a new pair in, so that it gets a heap entry.
pub open spec fn enters(m: Map<(u32, u32), i64>, cs: Seq<PairChange>, j: int) -> bool {
    cs[j].delta > 0 && !apply_changes(m, cs.subrange(0, j)).contains_key(cs[j].pair)
}

/// How many entries of `s` hold a count other than the current count of their pair.
pub open spec fn stale_count(s: Seq<(i64, (u32, u32))>, counts: Map<(u32, u32), i64>) -> nat
    decreases s.len(),
{
    if s.len() == 0 {
        0
    } else {
        stale_count(s.drop_last(), counts) + (if s.last().0 != counts[s.last().1] { 1nat } else { 0nat })
    }
}

pub proof fn lemma_stale_count_insert(s: Seq<(i64, (u32, u32))>, counts: Map<(u32, u32), i64>, pos: int, e: (i64, (u32, u32)))
    requires
        0 <= pos <= s.len(),
        e.0 == counts[e.1],
    ensures
        stale_count(s.insert(pos, e), counts) == stale_count(s, counts),
    decreases s.len(),
{
    if pos == s.len() {
        assert(s.insert(pos, e).drop_last() =~= s);
    } else {
        assert(s.insert(pos, e).drop_last() =~= s.drop_last().insert(pos, e));
        assert(s.insert(pos, e).last() == s.last());
        lemma_stale_count_insert(s.drop_last(), counts, pos, e);
    }
}

/// Keeps the global count of every pair and surfaces the pair with the highest count.
pub struct PairCounter {
    heap: Vec<Pair>,
    counts: PairMap<i64>,
}

impl PairCounter {
    /// The heap's entries by key, the entry to be taken first at the end.
    pub closed spec fn heap_keys(&self) -> Seq<(i64, (u32, u32))> {
        self.heap@.map_values(|p: Pair| key_of(p))
    }

    /// The blocks that each heap entry lists, in the order of `heap_keys`.
    pub closed spec fn heap_hints(&self) -> Seq<Seq<usize>> {
        self.heap@.map_values(|p: Pair| p.block_ids@)
    }

    /// The current count of each pair.
    pub closed spec fn counts(&self) -> Map<(u32, u32), i64> {
        self.counts@
    }

    /// The heap is ordered and each of its pairs has a count.
    pub closed spec fn wf(&self) -> bool {
        &&& forall|i: int, j: int|
            0 <= i < j < self.heap@.len() ==> pops_before(key_of(#[trigger] self.heap@[j]), key_of(#[trigger] self.heap@[i]))
        &&& forall|i: int| 0 <= i < self.heap@.len() ==> self.counts@.contains_key((#[trigger] self.heap@[i]).vals)
    }

    /// Every heap entry's pair has a count.
    pub proof fn lemma_heap_counted(&self)
        requires
            self.wf(),
        ensures
            forall|i: int| 0 <= i < self.heap_keys().len() ==> self.counts().contains_key((#[trigger] self.heap_keys()[i]).1),
    {
        assert forall|i: int| 0 <= i < self.heap_keys().len() implies self.counts().contains_key((#[trigger] self.heap_keys()[i]).1) by {
            assert(self.heap_keys()[i] == key_of(self.heap@[i]));
        }
    }

    /// A counter with no pairs.
    pub fn empty() -> (pc: Self)
        ensures
            pc.wf(),
            pc.heap_keys().len() == 0,
            pc.counts() == Map::<(u32, u32), i64>::empty(),
    {
        PairCounter { heap: Vec::new(), counts: PairMap::new() }
    }

    /// The number of heap entries, stale ones included.
    pub fn heap_len(&self) -> (r: usize)
        ensures
            r == self.heap_keys().len(),
    {
        self.heap.len()
    }

    /// The current count of `pair`, if it has one.
    pub fn count_of(&self, pair: (u32, u32)) -> (r: Option<i64>)
        ensures
            r == (if self.counts().contains_key(pair) { Some(self.counts()[pair]) } else { None }),
    {
        self.counts.get(pair.0, pair.1)
    }

    fn push_sorted(&mut self, p: Pair)
        requires
            old(self).wf(),
            old(self).counts@.contains_key(p.vals),
        ensures
            final(self).wf(),
            final(self).counts@ == old(self).counts@,
            exists|pos: int| 0 <= pos <= old(self).heap_keys().len()
                && final(self).heap_keys() == old(self).heap_keys().insert(pos, key_of(p)),
            final(self).heap_keys() == old(self).heap_keys().insert(insert_pos(old(self).heap_keys(), key_of(p)), key_of(p)),
            final(self).heap_hints() == old(self).heap_hints().insert(insert_pos(old(self).heap_keys(), key_of(p)), p.block_ids@),
    {
        let ghost before = self.heap@;
        let ghost ids = p.block_ids@;
        let ghost ks = old(self).heap_keys();
        let mut pos: usize = self.heap.len();
        proof {
            assert(ks.subrange(0, ks.len() as int) =~= ks);
        }
        while pos > 0 && (
            self.heap[pos - 1].count > p.count || (self.heap[pos - 1].count == p.count && (
                self.heap[pos - 1].vals.0 < p.vals.0 || (self.heap[pos - 1].vals.0 == p.vals.0 && self.heap[pos - 1].vals.1 <= p.vals.1))))
            invariant
                self.heap@ == before,
                self.wf(),
                pos <= self.heap@.len(),
                forall|j: int| pos <= j < self.heap@.len() ==> pops_before(key_of(#[trigger] self.heap@[j]), key_of(p)),
                ks == old(self).heap_keys(),
                insert_pos(ks, key_of(p)) == insert_pos(ks.subrange(0, pos as int), key_of(p)),
            decreases pos,
        {
            proof {
                let sub = ks.subrange(0, pos as int);
                assert(sub.drop_last() =~= ks.subrange(0, pos - 1));
                assert(sub.last() == key_of(self.heap@[pos - 1]));
            }
            pos = pos - 1;
        }
        proof {
            if pos > 0 {
                assert(ks.subrange(0, pos as int).last() == key_of(before[pos - 1]));
            }
            assert(insert_pos(ks, key_of(p)) == pos);
        }
        assert forall|j: int| 0 <= j < pos implies pops_before(key_of(p), key_of(#[trigger] before[j])) by {
            assert(pops_before(key_of(p), key_of(before[pos - 1])));
            if j < pos - 1 {
                assert(pops_before(key_of(before[pos - 1]), key_of(before[j])));
            }
        }
        self.heap.insert(pos, p);
        assert(self.heap@ == before.insert(pos as int, p));
        assert(self.heap_keys() =~= old(self).heap_keys().insert(pos as int, key_of(p)));
        assert(self.heap_hints() =~= old(self).heap_hints().insert(pos as int, ids));
        assert forall|i: int| 0 <= i < self.heap@.len() implies self.counts@.contains_key((#[trigger] self.heap@[i]).vals) by {
            if i < pos {
                assert(self.heap@[i] == before[i]);
            } else if i > pos {
                assert(self.heap@[i] == before[i - 1]);
            }
        }
        assert forall|i: int, j: int|
            0 <= i < j < self.heap@.len() implies pops_before(key_of(#[trigger] self.heap@[j]), key_of(#[trigger] self.heap@[i])) by {
            let h = self.heap@;
            if j < pos {
                assert(h[i] == before[i] && h[j] == before[j]);
            } else if j == pos {
                assert(h[i] == before[i]);
            } else if i == pos {
                assert(h[j] == before[j - 1]);
            } else if i < pos {
                assert(h[i] == before[i] && h[j] == before[j - 1]);
            } else {
                assert(h[i] == before[i - 1] && h[j] == before[j - 1]);
            }
        }
    }

    /// Takes out the entry with the highest count (on a tie, the smallest pair), if any.
    pub fn pop(&mut self) -> (r: Option<Pair>)
        requires
            old(self).wf(),
        ensures
            final(self).wf(),
            final(self).counts() == old(self).counts(),
            old(self).heap_keys().len() == 0 ==> r is None && final(self).heap_keys() == old(self).heap_keys()
                && final(self).heap_hints() == old(self).heap_hints(),
            old(self).heap_keys().len() > 0 ==> (r matches Some(p) && {
                &&& key_of(p) == old(self).heap_keys().last()
                &&& p.block_ids@ == old(self).heap_hints().last()
                &&& final(self).heap_keys() == old(self).heap_keys().drop_last()
                &&& final(self).heap_hints() == old(self).heap_hints().drop_last()
                &&& old(self).counts().contains_key(p.vals)
                &&& forall|k: int| 0 <= k < old(self).heap_keys().len() ==> pops_before(key_of(p), #[trigger] old(self).heap_keys()[k])
            }),
    {
        let ghost before = self.heap@;
        let r = self.heap.pop();
        proof {
            if before.len() > 0 {
                assert(self.heap_keys() =~= old(self).heap_keys().drop_last());
                assert(self.heap_hints() =~= old(self).heap_hints().drop_last());
                assert forall|k: int| 0 <= k < before.len() implies pops_before(key_of(before.last()), #[trigger] old(self).heap_keys()[k]) by {
                    if k < before.len() - 1 {
                        assert(pops_before(key_of(before[before.len() - 1]), key_of(before[k])));
                    }
                }
                assert(self.counts@.contains_key(before[before.len() - 1].vals));
            } else {
                assert(self.heap_keys() =~= old(self).heap_keys());
                assert(self.heap_hints() =~= old(self).heap_hints());
            }
        }
        r
    }

    /// Whether the entry's count differs from its pair's current count.
    pub fn is_stale(&self, pair: &Pair) -> (r: bool)
        requires
            self.counts().contains_key(pair.vals),
        ensures
            r == (pair.count != self.counts()[pair.vals]),
    {
        match self.counts.get(pair.vals.0, pair.vals.1) {
            Some(c) => pair.count != c,
            None => true,
        }
    }

    /// Pushes the entry back with its pair's current count.
    pub fn update_count_and_push(&mut self, pair: Pair)
        requires
            old(self).wf(),
            old(self).counts().contains_key(pair.vals),
        ensures
            final(self).wf(),
            final(self).counts() == old(self).counts(),
            exists|pos: int| 0 <= pos <= old(self).heap_keys().len()
                && final(self).heap_keys() == old(self).heap_keys().insert(pos, (old(self).counts()[pair.vals], pair.vals)),
            stale_count(final(self).heap_keys(), final(self).counts()) == stale_count(old(self).heap_keys(), old(self).counts()),
            final(self).heap_keys() == old(self).heap_keys().insert(
                insert_pos(old(self).heap_keys(), (old(self).counts()[pair.vals], pair.vals)),
                (old(self).counts()[pair.vals], pair.vals),
            ),
            final(self).heap_hints() == old(self).heap_hints().insert(
                insert_pos(old(self).heap_keys(), (old(self).counts()[pair.vals], pair.vals)),
                pair.block_ids@,
            ),
    {
        let mut pair = pair;
        let c = match self.counts.get(pair.vals.0, pair.vals.1) {
            Some(c) => c,
            None => pair.count,
        };
        pair.count = c;
        self.push_sorted(pair);
        proof {
            let pos = choose|pos: int| 0 <= pos <= old(self).heap_keys().len()
                && self.heap_keys() == old(self).heap_keys().insert(pos, key_of(pair));
            lemma_stale_count_insert(old(self).heap_keys(), self.counts@, pos, key_of(pair));
        }
    }

    /// Applies the changes in order: a pair with a count moves by its change; a pair without one
    /// enters with a positive change, and only then gets a heap entry, with the change's blocks.
    pub fn commit(&mut self, changes: Vec<PairChange>)
        requires
            old(self).wf(),
        ensures
            final(self).wf(),
            final(self).counts() == apply_changes(old(self).counts(), changes@),
            forall|k: int| 0 <= k < old(self).heap_keys().len() ==> final(self).heap_keys().contains(#[trigger] old(self).heap_keys()[k]),
            forall|j: int| 0 <= j < changes@.len() && #[trigger] enters(old(self).counts(), changes@, j)
                ==> final(self).heap_keys().contains((changes@[j].delta, changes@[j].pair)),
            changes@.len() == 0 ==> final(self).heap_keys() == old(self).heap_keys(),
            final(self).heap_keys() == commit_keys(old(self).heap_keys(), old(self).counts(), changes@),
            final(self).heap_hints() == commit_hints(old(self).heap_keys(), old(self).heap_hints(), old(self).counts(), changes@),
            forall|j: int| 0 <= j < changes@.len() && #[trigger] enters(old(self).counts(), changes@, j)
                ==> exists|i: int| 0 <= i < final(self).heap_keys().len()
                    && final(self).heap_keys()[i] == (changes@[j].delta, changes@[j].pair)
                    && final(self).heap_hints()[i] == changes@[j].block_ids@,
    {
        let ghost m0 = self.counts@;
        let mut j: usize = 0;
        while j < changes.len()
            invariant
                j <= changes@.len(),
                self.wf(),
                self.counts@ == apply_changes(m0, changes@.subrange(0, j as int)),
                forall|k: int| 0 <= k < old(self).heap_keys().len() ==> self.heap_keys().contains(#[trigger] old(self).heap_keys()[k]),
                forall|i: int| 0 <= i < j && #[trigger] enters(m0, changes@, i)
                    ==> self.heap_keys().contains((changes@[i].delta, changes@[i].pair)),
                j == 0 ==> self.heap_keys() == old(self).heap_keys(),
                self.heap_keys() == commit_keys(old(self).heap_keys(), m0, changes@.subrange(0, j as int)),
                self.heap_hints() == commit_hints(old(self).heap_keys(), old(self).heap_hints(), m0, changes@.subrange(0, j as int)),
                self.heap_hints().len() == self.heap_keys().len(),
                forall|i: int| 0 <= i < j && #[trigger] enters(m0, changes@, i)
                    ==> exists|x: int| 0 <= x < self.heap_keys().len()
                        && self.heap_keys()[x] == (changes@[i].delta, changes@[i].pair)
                        && self.heap_hints()[x] == changes@[i].block_ids@,
            decreases changes@.len() - j,
        {
            let ghost keys0 = self.heap_keys();
            let ghost hints0 = self.heap_hints();
            let pair = changes[j].pair;
            let delta = changes[j].delta;
            proof {
                assert(changes@.subrange(0, j + 1).drop_last() =~= changes@.subrange(0, j as int));
            }
            match self.counts.get(pair.0, pair.1) {
                Some(c) => {
                    let v = add_clamped(c, delta);
                    self.counts.insert(pair, v);
                },
                None => {
                    if delta > 0 {
                        self.counts.insert(pair, delta);
                        let ids = copy_ids(&changes[j].block_ids);
                        proof {
                            assert forall|i: int| 0 <= i < self.heap@.len() implies self.counts@.contains_key((#[trigger] self.heap@[i]).vals) by {
                            }
                        }
                        self.push_sorted(Pair { count: delta, vals: pair, block_ids: ids });
                        proof {
                            let pos = choose|pos: int| 0 <= pos <= keys0.len()
                                && self.heap_keys() == keys0.insert(pos, (delta, pair));
                            assert(self.heap_keys()[pos] == (delta, pair));
                            assert forall|x: (i64, (u32, u32))| keys0.contains(x) implies self.heap_keys().contains(x) by {
                                let q = choose|q: int| 0 <= q < keys0.len() && keys0[q] == x;
                                if q < pos {
                                    assert(self.heap_keys()[q] == x);
                                } else {
                                    assert(self.heap_keys()[q + 1] == x);
                                }
                            }
                            let ip = insert_pos(keys0, (delta, pair));
                            assert(self.heap_keys() == keys0.insert(ip, (delta, pair)));
                            lemma_insert_pos_bound(keys0, (delta, pair));
                            assert forall|i: int| 0 <= i < j && #[trigger] enters(m0, changes@, i)
                                implies exists|x: int| 0 <= x < self.heap_keys().len()
                                    && self.heap_keys()[x] == (changes@[i].delta, changes@[i].pair)
                                    && self.heap_hints()[x] == changes@[i].block_ids@ by {
                                let x = choose|x: int| 0 <= x < keys0.len()
                                    && keys0[x] == (changes@[i].delta, changes@[i].pair)
                                    && hints0[x] == changes@[i].block_ids@;
                                if x < ip {
                                    assert(self.heap_keys()[x] == keys0[x] && self.heap_hints()[x] == hints0[x]);
                                } else {
                                    assert(self.heap_keys()[x + 1] == keys0[x] && self.heap_hints()[x + 1] == hints0[x]);
                                }
                            }
                            assert(self.heap_keys()[ip] == (delta, pair) && self.heap_hints()[ip] == changes@[j as int].block_ids@);
                        }
                    }
                },
            }
            proof {
                let sub = changes@.subrange(0, j + 1);
                assert(sub.drop_last() =~= changes@.subrange(0, j as int));
                assert(sub.last() == changes@[j as int]);
                assert(self.heap_keys() == commit_keys(old(self).heap_keys(), m0, sub));
                assert(self.heap_hints() == commit_hints(old(self).heap_keys(), old(self).heap_hints(), m0, sub));
                assert forall|i: int| 0 <= i < j + 1 && #[trigger] enters(m0, changes@, i)
                    implies exists|x: int| 0 <= x < self.heap_keys().len()
                        && self.heap_keys()[x] == (changes@[i].delta, changes@[i].pair)
                        && self.heap_hints()[x] == changes@[i].block_ids@ by {
                    if i == j {
                        assert(changes@.subrange(0, j as int) =~= sub.drop_last());
                    }
                }
                assert(self.counts@ =~= apply_changes(m0, changes@.subrange(0, j + 1)));
                assert forall|k: int| 0 <= k < old(self).heap_keys().len() implies self.heap_keys().contains(#[trigger] old(self).heap_keys()[k]) by {
                    assert(keys0.contains(old(self).heap_keys()[k]));
                }
                assert forall|i: int| 0 <= i < j + 1 && #[trigger] enters(m0, changes@, i)
                    implies self.heap_keys().contains((changes@[i].delta, changes@[i].pair)) by {
                    if i < j {
                        assert(keys0.contains((changes@[i].delta, changes@[i].pair)));
                    }
                }
            }
            j = j + 1;
        }
        proof {
            assert(changes@.subrange(0, changes@.len() as int) =~= changes@);
        }
    }
}

} // verus!

verus! {

use crate::block::{Block, pair_count, lemma_pair_count_concat, lemma_pair_count_bounds};

/// The count of pair `p` over the first `n` blocks, each occurrence weighted by its block's count.
pub open spec fn weighted_count(blocks: Seq<Block>, p: (u32, u32), n: int) -> int
    decreases n,
{
    if n <= 0 {
        0
    } else {
        weighted_count(blocks, p, n - 1) + blocks[n - 1].count * pair_count(blocks[n - 1].tokens@, p)
    }
}

/// The number of tokens of the first `n` blocks, each weighted by its block's count.
pub open spec fn total_weight(blocks: Seq<Block>, n: int) -> int
    decreases n,
{
    if n <= 0 {
        0
    } else {
        total_weight(blocks, n - 1) + blocks[n - 1].count * blocks[n - 1].tokens@.len()
    }
}

pub proof fn lemma_weighted_bounds(blocks: Seq<Block>, p: (u32, u32), n: int)
    requires
        0 <= n <= blocks.len(),
        forall|b: int| 0 <= b < blocks.len() ==> (#[trigger] blocks[b]).count >= 1,
    ensures
        0 <= weighted_count(blocks, p, n) <= total_weight(blocks, n),
        forall|m: int| 0 <= m <= n ==> #[trigger] total_weight(blocks, m) <= total_weight(blocks, n),
    decreases n,
{
    if n > 0 {
        lemma_weighted_bounds(blocks, p, n - 1);
        let b = blocks[n - 1];
        lemma_pair_count_bounds(b.tokens@, p);
        let c = b.count as int;
        let x = pair_count(b.tokens@, p);
        let l = b.tokens@.len() as int;
        assert(0 <= c * x <= c * l) by (nonlinear_arith)
            requires c >= 1, 0 <= x <= l;
    }
}

/// The state of the pair scan after the first `b` blocks and, of block `b` (of count `c`),
/// the tokens `pre`: `out` lists each pair seen once, `w` says where.
pub open spec fn counts_inv(
    bs: Seq<Block>,
    out: Seq<PairChange>,
    w: Map<(u32, u32), usize>,
    b: int,
    pre: Seq<u32>,
    c: int,
) -> bool {
    &&& forall|i: int, j: int| 0 <= i < j < out.len() ==> (#[trigger] out[i]).pair != (#[trigger] out[j]).pair
    &&& forall|p: (u32, u32)| #[trigger] w.contains_key(p) ==> w[p] < out.len() && out[w[p] as int].pair == p
    &&& forall|j: int| 0 <= j < out.len() ==> w.contains_key((#[trigger] out[j]).pair)
    &&& forall|j: int| 0 <= j < out.len() ==> entry_ok(bs, #[trigger] out[j], b, pre, c)
    &&& forall|p: (u32, u32)| !#[trigger] w.contains_key(p) ==> pair_count(pre, p) == 0
        && forall|x: int| 0 <= x < b ==> pair_count((#[trigger] bs[x]).tokens@, p) == 0
}

/// What an entry of the pair scan holds after the first `b` blocks and the tokens `pre` of block `b`.
pub open spec fn entry_ok(bs: Seq<Block>, e: PairChange, b: int, pre: Seq<u32>, c: int) -> bool {
    &&& e.delta == weighted_count(bs, e.pair, b) + c * pair_count(pre, e.pair)
    &&& e.delta > 0
    &&& forall|x: usize| #[trigger] e.block_ids@.contains(x) <==> ((x < b && pair_count(bs[x as int].tokens@, e.pair) > 0)
        || (x == b && pair_count(pre, e.pair) > 0))
    &&& forall|i: int, j: int| 0 <= i < j < e.block_ids@.len() ==> e.block_ids@[i] < e.block_ids@[j]
}

proof fn lemma_counts_block_end(bs: Seq<Block>, out: Seq<PairChange>, w: Map<(u32, u32), usize>, b: int)
    requires
        0 <= b < bs.len(),
        counts_inv(bs, out, w, b, bs[b].tokens@, bs[b].count as int),
    ensures
        counts_inv(bs, out, w, b + 1, Seq::empty(), 0),
{
    assert forall|j: int| 0 <= j < out.len() implies entry_ok(bs, #[trigger] out[j], b + 1, Seq::empty(), 0) by {
        let e = out[j];
        assert(entry_ok(bs, e, b, bs[b].tokens@, bs[b].count as int));
        assert(pair_count(Seq::<u32>::empty(), e.pair) == 0);
    }
    assert forall|p: (u32, u32)| !#[trigger] w.contains_key(p) implies pair_count(Seq::<u32>::empty(), p) == 0
        && forall|x: int| 0 <= x < b + 1 ==> pair_count((#[trigger] bs[x]).tokens@, p) == 0 by {
    }
}

proof fn lemma_counts_block_start(bs: Seq<Block>, out: Seq<PairChange>, w: Map<(u32, u32), usize>, b: int, pre: Seq<u32>, c: int)
    requires
        counts_inv(bs, out, w, b, Seq::empty(), 0),
        pre.len() <= 1,
    ensures
        counts_inv(bs, out, w, b, pre, c),
{
    assert(pair_count(Seq::<u32>::empty(), (0u32, 0u32)) == 0);
    assert forall|j: int| 0 <= j < out.len() implies entry_ok(bs, #[trigger] out[j], b, pre, c) by {
        let e = out[j];
        assert(entry_ok(bs, e, b, Seq::empty(), 0));
        assert(pair_count(pre, e.pair) == 0);
        assert(pair_count(Seq::<u32>::empty(), e.pair) == 0);
        assert(c * 0 == 0);
    }
}

/// Counts every adjacent pair of the blocks: for each pair found, listed once in order of first
/// appearance, its count weighted by the blocks' counts, and the blocks that hold it, in order.
pub fn local_pair_counts(blocks: &Vec<Block>) -> (r: Vec<PairChange>)
    requires
        forall|b: int| 0 <= b < blocks@.len() ==> (#[trigger] blocks@[b]).count >= 1,
        total_weight(blocks@, blocks@.len() as int) <= i64::MAX,
    ensures
        forall|i: int, j: int| 0 <= i < j < r@.len() ==> (#[trigger] r@[i]).pair != (#[trigger] r@[j]).pair,
        forall|j: int| 0 <= j < r@.len() ==> entry_ok(blocks@, #[trigger] r@[j], blocks@.len() as int, Seq::empty(), 0),
        forall|p: (u32, u32), x: int| 0 <= x < blocks@.len() && (forall|j: int| 0 <= j < r@.len() ==> (#[trigger] r@[j]).pair != p)
            ==> #[trigger] pair_count(blocks@[x].tokens@, p) == 0,
{
    let ghost bs = blocks@;
    let mut out: Vec<PairChange> = Vec::new();
    let mut where_: PairMap<usize> = PairMap::new();
    let mut b: usize = 0;
    proof {
        lemma_weighted_bounds(bs, (0, 0), bs.len() as int);
    }
    while b < blocks.len()
        invariant
            bs == blocks@,
            b <= bs.len(),
            forall|c: int| 0 <= c < bs.len() ==> (#[trigger] bs[c]).count >= 1,
            total_weight(bs, bs.len() as int) <= i64::MAX,
            forall|m: int| 0 <= m <= bs.len() ==> #[trigger] total_weight(bs, m) <= total_weight(bs, bs.len() as int),
            counts_inv(bs, out@, where_@, b as int, Seq::empty(), 0),
        decreases bs.len() - b,
    {
        let block = &blocks[b];
        let c = block.count;
        let n = block.tokens.len();
        let ghost t = block.tokens@;
        let mut i: usize = if n == 0 { 0 } else { 1 };
        proof {
            lemma_counts_block_start(bs, out@, where_@, b as int, t.subrange(0, i as int), c as int);
        }
        while i < n
            invariant
                bs == blocks@,
                b < bs.len(),
                *block == bs[b as int],
                t == block.tokens@,
                n == t.len(),
                c == bs[b as int].count,
                c >= 1,
                i <= n,
                n > 0 ==> i >= 1,
                forall|x: int| 0 <= x < bs.len() ==> (#[trigger] bs[x]).count >= 1,
                total_weight(bs, b + 1) <= i64::MAX,
                counts_inv(bs, out@, where_@, b as int, t.subrange(0, i as int), c as int),
            decreases n - i,
        {
            let p = (block.tokens[i - 1], block.tokens[i]);
            let ghost pre = t.subrange(0, i as int);
            let ghost pre2 = t.subrange(0, i + 1);
            let ghost out0 = out@;
            let ghost w0 = where_@;
            proof {
                assert(pre2 =~= pre + seq![t[i as int]]);
                assert(pre.last() == t[i - 1]);
                assert forall|q: (u32, u32)| #[trigger] pair_count(pre2, q) == pair_count(pre, q) + (if q == p { 1int } else { 0int }) by {
                    lemma_pair_count_concat(pre, seq![t[i as int]], q);
                }
                lemma_weighted_bounds(bs, p, b as int);
                lemma_pair_count_bounds(pre2, p);
                let x = pair_count(pre2, p);
                assert(c * x <= c * n) by (nonlinear_arith)
                    requires x <= n, c >= 1;
                assert(total_weight(bs, b + 1) == total_weight(bs, b as int) + c * n);
            }
            match where_.get(p.0, p.1) {
                Some(k) => {
                    proof {
                        assert(entry_ok(bs, out0[k as int], b as int, pre, c as int));
                        let x = pair_count(pre, p);
                        assert(c * (x + 1) == c * x + c) by (nonlinear_arith);
                    }
                    let d = out[k].delta;
                    out[k].delta = d + c;
                    let len = out[k].block_ids.len();
                    if len == 0 || out[k].block_ids[len - 1] != b {
                        out[k].block_ids.push(b);
                    }
                    proof {
                        lemma_counts_bump(bs, out0, out@, w0, b as int, pre, pre2, c as int, p, k as int);
                    }
                },
                None => {
                    let k = out.len();
                    out.push(PairChange { pair: p, delta: c, block_ids: vec![b] });
                    where_.insert(p, k);
                    proof {
                        assert(out@[k as int].block_ids@ =~= seq![b]);
                        assert(out@.len() == out0.len() + 1);
                        lemma_counts_new(bs, out0, out@, w0, where_@, b as int, pre, pre2, c as int, p, k);
                    }
                },
            }
            i = i + 1;
        }
        proof {
            assert(t.subrange(0, i as int) =~= t);
            lemma_counts_block_end(bs, out@, where_@, b as int);
        }
        b = b + 1;
    }
    proof {
        assert forall|j: int| 0 <= j < out@.len() implies entry_ok(bs, #[trigger] out@[j], bs.len() as int, Seq::empty(), 0) by {
        }
        assert forall|p: (u32, u32), x: int| 0 <= x < bs.len() && (forall|j: int| 0 <= j < out@.len() ==> (#[trigger] out@[j]).pair != p)
            implies #[trigger] pair_count(bs[x].tokens@, p) == 0 by {
            if where_@.contains_key(p) {
                assert(out@[where_@[p] as int].pair == p);
            }
        }
    }
    out
}

proof fn lemma_counts_bump(
    bs: Seq<Block>,
    out0: Seq<PairChange>,
    out1: Seq<PairChange>,
    w: Map<(u32, u32), usize>,
    b: int,
    pre: Seq<u32>,
    pre2: Seq<u32>,
    c: int,
    p: (u32, u32),
    k: int,
)
    requires
        0 <= b,
        c >= 1,
        counts_inv(bs, out0, w, b, pre, c),
        w.contains_key(p),
        k == w[p] as int,
        forall|q: (u32, u32)| #[trigger] pair_count(pre2, q) == pair_count(pre, q) + (if q == p { 1int } else { 0int }),
        c * (pair_count(pre, p) + 1) == c * pair_count(pre, p) + c,
        out1.len() == out0.len(),
        forall|j: int| 0 <= j < out0.len() && j != k ==> #[trigger] out1[j] == out0[j],
        out1[k].pair == p,
        out1[k].delta == out0[k].delta + c,
        out1[k].block_ids@ == (if out0[k].block_ids@.len() > 0 && out0[k].block_ids@.last() == b {
            out0[k].block_ids@
        } else {
            out0[k].block_ids@.push(b as usize)
        }),
        b <= usize::MAX,
    ensures
        counts_inv(bs, out1, w, b, pre2, c),
{
    let e0 = out0[k];
    let e1 = out1[k];
    assert(entry_ok(bs, e0, b, pre, c));
    assert forall|j: int| 0 <= j < out1.len() implies entry_ok(bs, #[trigger] out1[j], b, pre2, c) by {
        if j != k {
            let e = out0[j];
            assert(entry_ok(bs, e, b, pre, c));
            assert(e.pair != p);
            assert(pair_count(pre2, e.pair) == pair_count(pre, e.pair));
        } else {
            let ids0 = e0.block_ids@;
            let ids1 = e1.block_ids@;
            assert(pair_count(pre2, p) == pair_count(pre, p) + 1);
            lemma_pair_count_bounds(pre, p);
            if ids0.len() > 0 && ids0.last() == b {
            } else {
                if ids0.len() > 0 {
                    assert(ids0.contains(ids0.last()));
                }
                assert forall|x: usize| #[trigger] ids1.contains(x) <==> (ids0.contains(x) || x == b) by {
                    if ids1.contains(x) && x != b {
                        let q = choose|q: int| 0 <= q < ids1.len() && ids1[q] == x;
                        assert(ids0[q] == x);
                    }
                    if ids0.contains(x) {
                        let q = choose|q: int| 0 <= q < ids0.len() && ids0[q] == x;
                        assert(ids1[q] == x);
                    }
                    if x == b {
                        assert(ids1[ids0.len() as int] == x);
                    }
                }
                assert forall|i: int, j: int| 0 <= i < j < ids1.len() implies ids1[i] < ids1[j] by {
                    if j == ids0.len() {
                        assert(ids0.contains(ids0[i]));
                        if i < ids0.len() - 1 {
                            assert(ids0[i] < ids0[ids0.len() - 1]);
                        }
                    }
                }
            }
        }
    }
    assert forall|i: int, j: int| 0 <= i < j < out1.len() implies (#[trigger] out1[i]).pair != (#[trigger] out1[j]).pair by {
        assert(out0[i].pair != out0[j].pair);
    }
    assert forall|q: (u32, u32)| #[trigger] w.contains_key(q) implies w[q] < out1.len() && out1[w[q] as int].pair == q by {
    }
    assert forall|j: int| 0 <= j < out1.len() implies w.contains_key((#[trigger] out1[j]).pair) by {
        assert(w.contains_key(out0[j].pair));
    }
    assert forall|q: (u32, u32)| !#[trigger] w.contains_key(q) implies pair_count(pre2, q) == 0
        && forall|x: int| 0 <= x < b ==> pair_count((#[trigger] bs[x]).tokens@, q) == 0 by {
        assert(q != p);
        assert(pair_count(pre2, q) == pair_count(pre, q));
    }
}

proof fn lemma_counts_new(
    bs: Seq<Block>,
    out0: Seq<PairChange>,
    out1: Seq<PairChange>,
    w0: Map<(u32, u32), usize>,
    w1: Map<(u32, u32), usize>,
    b: int,
    pre: Seq<u32>,
    pre2: Seq<u32>,
    c: int,
    p: (u32, u32),
    k: usize,
)
    requires
        0 <= b,
        c >= 1,
        counts_inv(bs, out0, w0, b, pre, c),
        !w0.contains_key(p),
        forall|q: (u32, u32)| #[trigger] pair_count(pre2, q) == pair_count(pre, q) + (if q == p { 1int } else { 0int }),
        out1.len() == out0.len() + 1,
        forall|j: int| 0 <= j < out0.len() ==> #[trigger] out1[j] == out0[j],
        out1[out0.len() as int].pair == p,
        out1[out0.len() as int].delta == c,
        out1[out0.len() as int].block_ids@ == seq![b as usize],
        b <= usize::MAX,
        out0.len() == k as int,
        w1 == w0.insert(p, k),
    ensures
        counts_inv(bs, out1, w1, b, pre2, c),
{
    let k = k as int;
    assert(pair_count(pre, p) == 0);
    assert(pair_count(pre2, p) == 1);
    assert(weighted_count(bs, p, b) == 0) by {
        lemma_weighted_zero(bs, p, b);
    }
    assert forall|j: int| 0 <= j < out1.len() implies entry_ok(bs, #[trigger] out1[j], b, pre2, c) by {
        if j < k {
            let e = out0[j];
            assert(entry_ok(bs, e, b, pre, c));
            assert(w0.contains_key(e.pair));
            assert(e.pair != p);
            assert(pair_count(pre2, e.pair) == pair_count(pre, e.pair));
        } else {
            let ids = out1[k].block_ids@;
            assert forall|x: usize| #[trigger] ids.contains(x) <==> ((x < b && pair_count(bs[x as int].tokens@, p) > 0)
                || (x == b && pair_count(pre2, p) > 0)) by {
                if ids.contains(x) {
                    let q = choose|q: int| 0 <= q < ids.len() && ids[q] == x;
                }
                if x == b {
                    assert(ids[0] == x);
                }
            }
        }
    }
    assert forall|i: int, j: int| 0 <= i < j < out1.len() implies (#[trigger] out1[i]).pair != (#[trigger] out1[j]).pair by {
        if j < k {
            assert(out0[i].pair != out0[j].pair);
        } else {
            assert(w0.contains_key(out0[i].pair));
        }
    }
    assert forall|q: (u32, u32)| #[trigger] w1.contains_key(q) implies w1[q] < out1.len() && out1[w1[q] as int].pair == q by {
    }
    assert forall|j: int| 0 <= j < out1.len() implies w1.contains_key((#[trigger] out1[j]).pair) by {
        if j < k {
            assert(w0.contains_key(out0[j].pair));
        }
    }
    assert forall|q: (u32, u32)| !#[trigger] w1.contains_key(q) implies pair_count(pre2, q) == 0
        && forall|x: int| 0 <= x < b ==> pair_count((#[trigger] bs[x]).tokens@, q) == 0 by {
        assert(!w0.contains_key(q));
    }
}

pub proof fn lemma_weighted_zero(bs: Seq<Block>, p: (u32, u32), n: int)
    requires
        forall|x: int| 0 <= x < n ==> pair_count((#[trigger] bs[x]).tokens@, p) == 0,
    ensures
        weighted_count(bs, p, n) == 0,
    decreases n,
{
    if n > 0 {
        lemma_weighted_zero(bs, p, n - 1);
        assert(pair_count(bs[n - 1].tokens@, p) == 0);
        assert(bs[n - 1].count * 0 == 0);
    }
}

proof fn lemma_apply_fresh(cs: Seq<PairChange>)
    requires
        forall|i: int, j: int| 0 <= i < j < cs.len() ==> (#[trigger] cs[i]).pair != (#[trigger] cs[j]).pair,
        forall|j: int| 0 <= j < cs.len() ==> (#[trigger] cs[j]).delta > 0,
    ensures
        forall|p: (u32, u32)| #[trigger] apply_changes(Map::empty(), cs).contains_key(p)
            <==> exists|j: int| 0 <= j < cs.len() && (#[trigger] cs[j]).pair == p,
        forall|j: int| 0 <= j < cs.len() ==> apply_changes(Map::empty(), cs)[(#[trigger] cs[j]).pair] == cs[j].delta,
    decreases cs.len(),
{
    if cs.len() > 0 {
        let init = cs.drop_last();
        lemma_apply_fresh(init);
        let e = cs.last();
        let m = apply_changes(Map::empty(), init);
        assert(!m.contains_key(e.pair)) by {
            if m.contains_key(e.pair) {
                let j = choose|j: int| 0 <= j < init.len() && (#[trigger] init[j]).pair == e.pair;
                assert(cs[j].pair != cs[cs.len() - 1].pair);
            }
        }
        assert forall|p: (u32, u32)| #[trigger] apply_changes(Map::empty(), cs).contains_key(p)
            <==> exists|j: int| 0 <= j < cs.len() && (#[trigger] cs[j]).pair == p by {
            if m.contains_key(p) {
                let j = choose|j: int| 0 <= j < init.len() && (#[trigger] init[j]).pair == p;
                assert(cs[j].pair == p);
            }
            if exists|j: int| 0 <= j < cs.len() && (#[trigger] cs[j]).pair == p {
                let j = choose|j: int| 0 <= j < cs.len() && (#[trigger] cs[j]).pair == p;
                if j < cs.len() - 1 {
                    assert(init[j].pair == p);
                }
            }
        }
        assert forall|j: int| 0 <= j < cs.len() implies apply_changes(Map::empty(), cs)[(#[trigger] cs[j]).pair] == cs[j].delta by {
            if j < cs.len() - 1 {
                assert(init[j] == cs[j]);
                assert(cs[j].pair != cs[cs.len() - 1].pair);
            }
        }
    }
}

proof fn lemma_all_enter(cs: Seq<PairChange>)
    requires
        forall|i: int, j: int| 0 <= i < j < cs.len() ==> (#[trigger] cs[i]).pair != (#[trigger] cs[j]).pair,
        forall|j: int| 0 <= j < cs.len() ==> (#[trigger] cs[j]).delta > 0,
    ensures
        forall|j: int| 0 <= j < cs.len() ==> #[trigger] enters(Map::empty(), cs, j),
{
    assert forall|j: int| 0 <= j < cs.len() implies #[trigger] enters(Map::empty(), cs, j) by {
        let pre = cs.subrange(0, j);
        assert forall|a: int, b: int| 0 <= a < b < pre.len() implies (#[trigger] pre[a]).pair != (#[trigger] pre[b]).pair by {
            assert(cs[a].pair != cs[b].pair);
        }
        assert forall|a: int| 0 <= a < pre.len() implies (#[trigger] pre[a]).delta > 0 by {
            assert(cs[a].delta > 0);
        }
        lemma_apply_fresh(pre);
        if apply_changes(Map::empty(), pre).contains_key(cs[j].pair) {
            let a = choose|a: int| 0 <= a < pre.len() && (#[trigger] pre[a]).pair == cs[j].pair;
            assert(cs[a].pair != cs[j].pair);
        }
    }
}

impl PairCounter {
    /// A counter loaded with every adjacent pair of the blocks: each pair's count is its
    /// occurrences weighted by the blocks' counts, and each pair has a heap entry.
    pub fn new(blocks: &Vec<Block>) -> (pc: Self)
        requires
            forall|b: int| 0 <= b < blocks@.len() ==> (#[trigger] blocks@[b]).count >= 1,
            total_weight(blocks@, blocks@.len() as int) <= i64::MAX,
        ensures
            pc.wf(),
            forall|p: (u32, u32)| #[trigger] pc.counts().contains_key(p) ==> pc.counts()[p] == weighted_count(blocks@, p, blocks@.len() as int)
                && pc.heap_keys().contains((pc.counts()[p], p)),
            forall|p: (u32, u32)| #[trigger] pc.counts().contains_key(p) ==> exists|i: int| 0 <= i < pc.heap_keys().len()
                && pc.heap_keys()[i] == (pc.counts()[p], p)
                && pc.heap_hints()[i].no_duplicates()
                && forall|x: usize| #[trigger] pc.heap_hints()[i].contains(x)
                    <==> (x < blocks@.len() && pair_count(blocks@[x as int].tokens@, p) > 0),
            distinct_key_pairs(pc.heap_keys()),
            forall|p: (u32, u32), b: int| 0 <= b < blocks@.len() && #[trigger] pair_count(blocks@[b].tokens@, p) > 0
                ==> pc.counts().contains_key(p),
            forall|p: (u32, u32)| #[trigger] pc.counts().contains_key(p)
                ==> exists|b: int| 0 <= b < blocks@.len() && #[trigger] pair_count(blocks@[b].tokens@, p) > 0,
            (forall|b: int| 0 <= b < blocks@.len() ==> (#[trigger] blocks@[b]).tokens@.len() < 2) ==> pc.heap_keys().len() == 0,
    {
        let changes = local_pair_counts(blocks);
        let ghost cs = changes@;
        let mut pc = PairCounter::empty();
        let ghost k0 = pc.heap_keys();
        proof {
            pc.lemma_heap_counted();
            lemma_commit_shape(k0, pc.counts(), cs);
            assert forall|j: int| 0 <= j < cs.len() implies (#[trigger] cs[j]).delta > 0 by {
                assert(entry_ok(blocks@, cs[j], blocks@.len() as int, Seq::empty(), 0));
            }
            lemma_apply_fresh(cs);
            lemma_all_enter(cs);
        }
        pc.commit(changes);
        proof {
            let n = blocks@.len() as int;
            assert forall|p: (u32, u32)| #[trigger] pc.counts().contains_key(p) implies pc.counts()[p] == weighted_count(blocks@, p, n)
                && pc.heap_keys().contains((pc.counts()[p], p)) by {
                let j = choose|j: int| 0 <= j < cs.len() && (#[trigger] cs[j]).pair == p;
                assert(entry_ok(blocks@, cs[j], n, Seq::empty(), 0));
                assert(pair_count(Seq::<u32>::empty(), p) == 0);
                assert(enters(Map::empty(), cs, j));
            }
            assert forall|p: (u32, u32)| #[trigger] pc.counts().contains_key(p) implies exists|i: int| 0 <= i < pc.heap_keys().len()
                && pc.heap_keys()[i] == (pc.counts()[p], p)
                && pc.heap_hints()[i].no_duplicates()
                && forall|x: usize| #[trigger] pc.heap_hints()[i].contains(x)
                    <==> (x < blocks@.len() && pair_count(blocks@[x as int].tokens@, p) > 0) by {
                let j = choose|j: int| 0 <= j < cs.len() && (#[trigger] cs[j]).pair == p;
                assert(entry_ok(blocks@, cs[j], n, Seq::empty(), 0));
                assert(pair_count(Seq::<u32>::empty(), p) == 0);
                assert(enters(Map::empty(), cs, j));
                let i = choose|i: int| 0 <= i < pc.heap_keys().len()
                    && pc.heap_keys()[i] == (cs[j].delta, cs[j].pair)
                    && pc.heap_hints()[i] == cs[j].block_ids@;
                assert(pc.heap_keys()[i] == (pc.counts()[p], p));
                let ids = cs[j].block_ids@;
                assert forall|a: int, b: int| 0 <= a < ids.len() && 0 <= b < ids.len() && a != b implies ids[a] != ids[b] by {
                    if a < b {
                        assert(ids[a] < ids[b]);
                    } else {
                        assert(ids[b] < ids[a]);
                    }
                }
            }
            assert forall|p: (u32, u32), b: int| 0 <= b < n && #[trigger] pair_count(blocks@[b].tokens@, p) > 0
                implies pc.counts().contains_key(p) by {
                if !(exists|j: int| 0 <= j < cs.len() && (#[trigger] cs[j]).pair == p) {
                    assert forall|j: int| 0 <= j < cs.len() implies (#[trigger] cs[j]).pair != p by {}
                }
            }
            assert forall|p: (u32, u32)| #[trigger] pc.counts().contains_key(p)
                implies exists|b: int| 0 <= b < n && #[trigger] pair_count(blocks@[b].tokens@, p) > 0 by {
                let j = choose|j: int| 0 <= j < cs.len() && (#[trigger] cs[j]).pair == p;
                let e = cs[j];
                assert(entry_ok(blocks@, e, n, Seq::empty(), 0));
                if !(exists|b: int| 0 <= b < n && #[trigger] pair_count(blocks@[b].tokens@, p) > 0) {
                    assert forall|b: int| 0 <= b < n implies pair_count((#[trigger] blocks@[b]).tokens@, p) == 0 by {
                        lemma_pair_count_bounds(blocks@[b].tokens@, p);
                    }
                    lemma_weighted_zero(blocks@, p, n);
                }
            }
            if forall|b: int| 0 <= b < n ==> (#[trigger] blocks@[b]).tokens@.len() < 2 {
                if cs.len() > 0 {
                    let e = cs[0];
                    assert(entry_ok(blocks@, e, n, Seq::empty(), 0));
                    assert forall|b: int| 0 <= b < n implies pair_count((#[trigger] blocks@[b]).tokens@, e.pair) == 0 by {
                        assert(blocks@[b].tokens@.len() < 2);
                    }
                    lemma_weighted_zero(blocks@, e.pair, n);
                }
            }
        }
        pc
    }
}

/// The count that `m` holds for `p`, zero where it holds none.
pub open spec fn held(m: Map<(u32, u32), i64>, p: (u32, u32)) -> int {
    if m.contains_key(p) { m[p] as int } else { 0 }
}

/// Committing exact changes keeps the counts equal to the pair histogram: if the counts hold the
/// histogram `before`, and the changes list each pair once with the difference `after - before`
/// (a pair not listed keeping its count), then after the commit the counts hold `after`.
pub proof fn lemma_commit_tracks_histogram(
    counts: Map<(u32, u32), i64>,
    cs: Seq<PairChange>,
    before: spec_fn((u32, u32)) -> int,
    after: spec_fn((u32, u32)) -> int,
)
    requires
        forall|p: (u32, u32)| #[trigger] held(counts, p) == before(p),
        forall|p: (u32, u32)| 0 <= #[trigger] before(p) <= i64::MAX,
        forall|p: (u32, u32)| 0 <= #[trigger] after(p) <= i64::MAX,
        forall|i: int, j: int| 0 <= i < j < cs.len() ==> (#[trigger] cs[i]).pair != (#[trigger] cs[j]).pair,
        forall|j: int| 0 <= j < cs.len() ==> (#[trigger] cs[j]).delta == after(cs[j].pair) - before(cs[j].pair),
        forall|p: (u32, u32)| (forall|j: int| 0 <= j < cs.len() ==> (#[trigger] cs[j]).pair != p) ==> #[trigger] after(p) == before(p),
    ensures
        forall|p: (u32, u32)| #[trigger] held(apply_changes(counts, cs), p) == after(p),
    decreases cs.len(),
{
    if cs.len() == 0 {
        assert forall|p: (u32, u32)| #[trigger] held(apply_changes(counts, cs), p) == after(p) by {
            assert(forall|j: int| 0 <= j < cs.len() ==> (#[trigger] cs[j]).pair != p);
        }
    } else {
        let init = cs.drop_last();
        let e = cs.last();
        let mid = |p: (u32, u32)| if p == e.pair { before(p) } else { after(p) };
        assert forall|i: int, j: int| 0 <= i < j < init.len() implies (#[trigger] init[i]).pair != (#[trigger] init[j]).pair by {
            assert(cs[i].pair != cs[j].pair);
        }
        assert forall|j: int| 0 <= j < init.len() implies (#[trigger] init[j]).delta == mid(init[j].pair) - before(init[j].pair) by {
            assert(cs[j] == init[j]);
            assert(cs[j].pair != cs[cs.len() - 1].pair);
        }
        assert forall|p: (u32, u32)| (forall|j: int| 0 <= j < init.len() ==> (#[trigger] init[j]).pair != p) implies #[trigger] mid(p) == before(p) by {
            if p != e.pair {
                assert forall|j: int| 0 <= j < cs.len() implies (#[trigger] cs[j]).pair != p by {
                    if j < init.len() {
                        assert(init[j] == cs[j]);
                    }
                }
            }
        }
        assert forall|p: (u32, u32)| 0 <= #[trigger] mid(p) <= i64::MAX by {
            assert(0 <= before(p) <= i64::MAX);
            assert(0 <= after(p) <= i64::MAX);
        }
        lemma_commit_tracks_histogram(counts, init, before, mid);
        let m = apply_changes(counts, init);
        assert(apply_changes(counts, cs) == apply_change(m, e.pair, e.delta));
        assert(e.delta == after(e.pair) - before(e.pair));
        assert forall|p: (u32, u32)| #[trigger] held(apply_changes(counts, cs), p) == after(p) by {
            assert(held(m, p) == mid(p));
            assert(0 <= after(p) <= i64::MAX);
            assert(0 <= before(p) <= i64::MAX);
        }
    }
}

/// Two lists of changes that agree on each pair and its change, whatever blocks each lists.
pub open spec fn same_changes(a: Seq<PairChange>, b: Seq<PairChange>) -> bool {
    &&& a.len() == b.len()
    &&& forall|j: int| 0 <= j < a.len() ==> (#[trigger] a[j]).pair == b[j].pair && a[j].delta == b[j].delta
}

/// Peers whose counters agree, and who commit changes that agree on pairs and counts (their
/// block lists being local and free to differ), still agree after the commit: the counts and the
/// heap's keys, and so every later pop and staleness check, come out the same on each peer.
pub proof fn lemma_peers_agree(
    keys: Seq<(i64, (u32, u32))>,
    m: Map<(u32, u32), i64>,
    a: Seq<PairChange>,
    b: Seq<PairChange>,
)
    requires
        same_changes(a, b),
    ensures
        apply_changes(m, a) == apply_changes(m, b),
        commit_keys(keys, m, a) == commit_keys(keys, m, b),
    decreases a.len(),
{
    if a.len() > 0 {
        assert(same_changes(a.drop_last(), b.drop_last()));
        lemma_peers_agree(keys, m, a.drop_last(), b.drop_last());
        assert(a.last().pair == b.last().pair && a.last().delta == b.last().delta);
    }
}

/// The sum of the counts of the pairs `ps` in `t`.
pub open spec fn sum_counts(t: Seq<u32>, ps: Seq<(u32, u32)>) -> int
    decreases ps.len(),
{
    if ps.len() == 0 {
        0
    } else {
        sum_counts(t, ps.drop_last()) + pair_count(t, ps.last())
    }
}

/// How many of the pairs `ps` are `x`.
pub open spec fn occurrences(ps: Seq<(u32, u32)>, x: (u32, u32)) -> int
    decreases ps.len(),
{
    if ps.len() == 0 {
        0
    } else {
        occurrences(ps.drop_last(), x) + (if ps.last() == x { 1int } else { 0int })
    }
}

/// The number of adjacent positions of `t`.
pub open spec fn slots(t: Seq<u32>) -> int {
    if t.len() >= 2 { t.len() - 1 } else { 0 }
}

proof fn lemma_occurrences_once(ps: Seq<(u32, u32)>, x: (u32, u32))
    requires
        ps.no_duplicates(),
        ps.contains(x),
    ensures
        occurrences(ps, x) == 1,
    decreases ps.len(),
{
    let init = ps.drop_last();
    if ps.last() == x {
        assert(!init.contains(x)) by {
            if init.contains(x) {
                let j = choose|j: int| 0 <= j < init.len() && init[j] == x;
                assert(ps[j] == ps[ps.len() - 1]);
            }
        }
        lemma_occurrences_none(init, x);
    } else {
        let j = choose|j: int| 0 <= j < ps.len() && ps[j] == x;
        assert(init[j] == x);
        lemma_occurrences_once(init, x);
    }
}

proof fn lemma_occurrences_none(ps: Seq<(u32, u32)>, x: (u32, u32))
    requires
        !ps.contains(x),
    ensures
        occurrences(ps, x) == 0,
    decreases ps.len(),
{
    if ps.len() > 0 {
        if ps.drop_last().contains(x) {
            let j = choose|j: int| 0 <= j < ps.drop_last().len() && ps.drop_last()[j] == x;
            assert(ps[j] == x);
        }
        lemma_occurrences_none(ps.drop_last(), x);
    }
}

proof fn lemma_sum_counts_step(t: Seq<u32>, ps: Seq<(u32, u32)>)
    requires
        t.len() >= 2,
    ensures
        sum_counts(t, ps) == occurrences(ps, (t[0], t[1])) + sum_counts(t.drop_first(), ps),
    decreases ps.len(),
{
    if ps.len() > 0 {
        lemma_sum_counts_step(t, ps.drop_last());
    }
}

proof fn lemma_sum_counts_short(t: Seq<u32>, ps: Seq<(u32, u32)>)
    requires
        t.len() < 2,
    ensures
        sum_counts(t, ps) == 0,
    decreases ps.len(),
{
    if ps.len() > 0 {
        lemma_sum_counts_short(t, ps.drop_last());
    }
}

/// Summed over a list of distinct pairs that holds every pair of `t`, the pair counts of `t`
/// add up to its number of adjacent positions.
pub proof fn lemma_sum_counts_covering(t: Seq<u32>, ps: Seq<(u32, u32)>)
    requires
        ps.no_duplicates(),
        forall|i: int| 0 <= i < t.len() - 1 ==> ps.contains((#[trigger] t[i], t[i + 1])),
    ensures
        sum_counts(t, ps) == slots(t),
    decreases t.len(),
{
    if t.len() < 2 {
        lemma_sum_counts_short(t, ps);
    } else {
        lemma_sum_counts_step(t, ps);
        assert(ps.contains((t[0], t[1])));
        lemma_occurrences_once(ps, (t[0], t[1]));
        let rest = t.drop_first();
        assert forall|i: int| 0 <= i < rest.len() - 1 implies ps.contains((#[trigger] rest[i], rest[i + 1])) by {
            assert(rest[i] == t[i + 1] && rest[i + 1] == t[i + 2]);
        }
        lemma_sum_counts_covering(rest, ps);
    }
}

/// The sum of the changes listed.
pub open spec fn sum_deltas(r: Seq<PairChange>) -> int
    decreases r.len(),
{
    if r.len() == 0 {
        0
    } else {
        sum_deltas(r.drop_last()) + r.last().delta
    }
}

/// The number of adjacent positions of the first `n` blocks, each weighted by its block's count.
pub open spec fn weighted_slots(bs: Seq<Block>, n: int) -> int
    decreases n,
{
    if n <= 0 {
        0
    } else {
        weighted_slots(bs, n - 1) + bs[n - 1].count * slots(bs[n - 1].tokens@)
    }
}

/// The weighted counts over the first `n` blocks of the pairs `ps`, summed.
pub open spec fn sum_weighted(bs: Seq<Block>, ps: Seq<(u32, u32)>, n: int) -> int
    decreases ps.len(),
{
    if ps.len() == 0 {
        0
    } else {
        sum_weighted(bs, ps.drop_last(), n) + weighted_count(bs, ps.last(), n)
    }
}

/// The same sum taken block by block.
pub open spec fn weighted_sums(bs: Seq<Block>, ps: Seq<(u32, u32)>, n: int) -> int
    decreases n,
{
    if n <= 0 {
        0
    } else {
        weighted_sums(bs, ps, n - 1) + bs[n - 1].count * sum_counts(bs[n - 1].tokens@, ps)
    }
}

proof fn lemma_sum_weighted_split(bs: Seq<Block>, ps: Seq<(u32, u32)>, n: int)
    ensures
        sum_weighted(bs, ps, n) == weighted_sums(bs, ps, n),
    decreases ps.len(), n,
{
    if ps.len() > 0 && n > 0 {
        lemma_sum_weighted_split(bs, ps.drop_last(), n);
        lemma_sum_weighted_split(bs, ps, n - 1);
        lemma_sum_weighted_split(bs, ps.drop_last(), n - 1);
        let c = bs[n - 1].count as int;
        let a = sum_counts(bs[n - 1].tokens@, ps.drop_last());
        let b = pair_count(bs[n - 1].tokens@, ps.last());
        assert(c * (a + b) == c * a + c * b) by (nonlinear_arith);
    } else if ps.len() == 0 {
        lemma_weighted_sums_empty(bs, ps, n);
    } else {
        lemma_sum_weighted_zero_blocks(bs, ps, n);
    }
}

proof fn lemma_weighted_sums_empty(bs: Seq<Block>, ps: Seq<(u32, u32)>, n: int)
    requires
        ps.len() == 0,
    ensures
        weighted_sums(bs, ps, n) == 0,
    decreases n,
{
    if n > 0 {
        lemma_weighted_sums_empty(bs, ps, n - 1);
        assert(bs[n - 1].count * 0 == 0);
    }
}

proof fn lemma_sum_weighted_zero_blocks(bs: Seq<Block>, ps: Seq<(u32, u32)>, n: int)
    requires
        n <= 0,
    ensures
        sum_weighted(bs, ps, n) == 0,
    decreases ps.len(),
{
    if ps.len() > 0 {
        lemma_sum_weighted_zero_blocks(bs, ps.drop_last(), n);
    }
}

proof fn lemma_weighted_sums_slots(bs: Seq<Block>, ps: Seq<(u32, u32)>, n: int)
    requires
        0 <= n <= bs.len(),
        ps.no_duplicates(),
        forall|b: int, i: int| 0 <= b < n && 0 <= i < bs[b].tokens@.len() - 1
            ==> ps.contains((#[trigger] bs[b].tokens@[i], bs[b].tokens@[i + 1])),
    ensures
        weighted_sums(bs, ps, n) == weighted_slots(bs, n),
    decreases n,
{
    if n > 0 {
        lemma_weighted_sums_slots(bs, ps, n - 1);
        let t = bs[n - 1].tokens@;
        assert forall|i: int| 0 <= i < t.len() - 1 implies ps.contains((#[trigger] t[i], t[i + 1])) by {
            assert(ps.contains((bs[n - 1].tokens@[i], bs[n - 1].tokens@[i + 1])));
        }
        lemma_sum_counts_covering(t, ps);
    }
}

proof fn lemma_sum_deltas_is_sum_weighted(bs: Seq<Block>, r: Seq<PairChange>)
    requires
        forall|j: int| 0 <= j < r.len() ==> (#[trigger] r[j]).delta == weighted_count(bs, r[j].pair, bs.len() as int),
    ensures
        sum_deltas(r) == sum_weighted(bs, r.map_values(|e: PairChange| e.pair), bs.len() as int),
    decreases r.len(),
{
    if r.len() > 0 {
        let init = r.drop_last();
        assert forall|j: int| 0 <= j < init.len() implies (#[trigger] init[j]).delta == weighted_count(bs, init[j].pair, bs.len() as int) by {
            assert(init[j] == r[j]);
        }
        lemma_sum_deltas_is_sum_weighted(bs, init);
        assert(r.map_values(|e: PairChange| e.pair).drop_last() =~= init.map_values(|e: PairChange| e.pair));
    }
}

/// Over all the blocks, the pair counts add up to the adjacent positions: the changes that
/// `local_pair_counts` lists sum to each block's number of tokens less one, times its count.
pub proof fn lemma_pair_total(blocks: Seq<Block>, r: Seq<PairChange>)
    requires
        forall|i: int, j: int| 0 <= i < j < r.len() ==> (#[trigger] r[i]).pair != (#[trigger] r[j]).pair,
        forall|j: int| 0 <= j < r.len() ==> entry_ok(blocks, #[trigger] r[j], blocks.len() as int, Seq::empty(), 0),
        forall|p: (u32, u32), x: int| 0 <= x < blocks.len() && (forall|j: int| 0 <= j < r.len() ==> (#[trigger] r[j]).pair != p)
            ==> #[trigger] pair_count(blocks[x].tokens@, p) == 0,
    ensures
        sum_deltas(r) == weighted_slots(blocks, blocks.len() as int),
{
    let n = blocks.len() as int;
    let ps = r.map_values(|e: PairChange| e.pair);
    assert forall|j: int| 0 <= j < r.len() implies (#[trigger] r[j]).delta == weighted_count(blocks, r[j].pair, n) by {
        assert(entry_ok(blocks, r[j], n, Seq::empty(), 0));
        assert(pair_count(Seq::<u32>::empty(), r[j].pair) == 0);
    }
    lemma_sum_deltas_is_sum_weighted(blocks, r);
    lemma_sum_weighted_split(blocks, ps, n);
    assert(ps.no_duplicates()) by {
        assert forall|i: int, j: int| 0 <= i < ps.len() && 0 <= j < ps.len() && i != j implies ps[i] != ps[j] by {
            if i < j {
                assert(r[i].pair != r[j].pair);
            } else {
                assert(r[j].pair != r[i].pair);
            }
        }
    }
    assert forall|b: int, i: int| 0 <= b < n && 0 <= i < blocks[b].tokens@.len() - 1
        implies ps.contains((#[trigger] blocks[b].tokens@[i], blocks[b].tokens@[i + 1])) by {
        let t = blocks[b].tokens@;
        let p = (t[i], t[i + 1]);
        lemma_pair_count_positive(t, i);
        if !ps.contains(p) {
            assert forall|j: int| 0 <= j < r.len() implies (#[trigger] r[j]).pair != p by {
                if r[j].pair == p {
                    assert(ps[j] == p);
                }
            }
        }
    }
    lemma_weighted_sums_slots(blocks, ps, n);
}

/// A pair that occurs at some position is counted.
pub proof fn lemma_pair_count_positive(t: Seq<u32>, i: int)
    requires
        0 <= i < t.len() - 1,
    ensures
        pair_count(t, (t[i], t[i + 1])) > 0,
    decreases i,
{
    lemma_pair_count_bounds(t.drop_first(), (t[i], t[i + 1]));
    if i > 0 {
        lemma_pair_count_positive(t.drop_first(), i - 1);
        assert(t.drop_first()[i - 1] == t[i]);
    }
}

/// The keys after the entry on top, which is stale, is pushed back with its pair's count.
pub open spec fn refreshed(keys: Seq<(i64, (u32, u32))>, counts: Map<(u32, u32), i64>) -> Seq<(i64, (u32, u32))> {
    let f = (counts[keys.last().1], keys.last().1);
    keys.drop_last().insert(insert_pos(keys.drop_last(), f), f)
}

/// The pair that popping gives, stale entries being pushed back with their current count until
/// the top entry is current; nothing for an empty heap.
pub open spec fn chosen(keys: Seq<(i64, (u32, u32))>, counts: Map<(u32, u32), i64>) -> Option<(u32, u32)>
    decreases stale_count(keys, counts),
    via chosen_decreases
{
    if keys.len() == 0 {
        None
    } else if keys.last().0 != counts[keys.last().1] {
        chosen(refreshed(keys, counts), counts)
    } else {
        Some(keys.last().1)
    }
}

/// The heap's keys once `chosen` has popped its entry: stale entries on top pushed back with
/// their current counts, then the current top entry taken out.
pub open spec fn settled_keys(keys: Seq<(i64, (u32, u32))>, counts: Map<(u32, u32), i64>) -> Seq<(i64, (u32, u32))>
    decreases stale_count(keys, counts),
    via settled_keys_decreases
{
    if keys.len() == 0 {
        keys
    } else if keys.last().0 != counts[keys.last().1] {
        settled_keys(refreshed(keys, counts), counts)
    } else {
        keys.drop_last()
    }
}

#[via_fn]
proof fn settled_keys_decreases(keys: Seq<(i64, (u32, u32))>, counts: Map<(u32, u32), i64>) {
    lemma_refresh_shrinks(keys, counts);
}

/// The blocks of the heap's entries once `chosen` has popped its entry, in the order of
/// `settled_keys`.
pub open spec fn settled_hints(
    keys: Seq<(i64, (u32, u32))>,
    hints: Seq<Seq<usize>>,
    counts: Map<(u32, u32), i64>,
) -> Seq<Seq<usize>>
    decreases stale_count(keys, counts),
    via settled_hints_decreases
{
    if keys.len() == 0 {
        hints
    } else if keys.last().0 != counts[keys.last().1] {
        let f = (counts[keys.last().1], keys.last().1);
        settled_hints(refreshed(keys, counts), hints.drop_last().insert(insert_pos(keys.drop_last(), f), hints.last()), counts)
    } else {
        hints.drop_last()
    }
}

#[via_fn]
proof fn settled_hints_decreases(keys: Seq<(i64, (u32, u32))>, hints: Seq<Seq<usize>>, counts: Map<(u32, u32), i64>) {
    lemma_refresh_shrinks(keys, counts);
}

/// `covers`, except perhaps for pair `p`.
pub open spec fn covers_except(keys: Seq<(i64, (u32, u32))>, counts: Map<(u32, u32), i64>, p: (u32, u32)) -> bool {
    forall|q: (u32, u32)| #[trigger] counts.contains_key(q) && counts[q] > 0 && q != p
        ==> exists|j: int| 0 <= j < keys.len() && keys[j].1 == q && keys[j].0 >= counts[q]
}

/// The blocks that the entry `chosen` pops lists, each refreshed entry keeping its blocks.
pub open spec fn chosen_hints(
    keys: Seq<(i64, (u32, u32))>,
    hints: Seq<Seq<usize>>,
    counts: Map<(u32, u32), i64>,
) -> Seq<usize>
    decreases stale_count(keys, counts),
    via chosen_hints_decreases
{
    if keys.len() == 0 {
        Seq::empty()
    } else if keys.last().0 != counts[keys.last().1] {
        let f = (counts[keys.last().1], keys.last().1);
        chosen_hints(refreshed(keys, counts), hints.drop_last().insert(insert_pos(keys.drop_last(), f), hints.last()), counts)
    } else {
        hints.last()
    }
}

#[via_fn]
proof fn chosen_hints_decreases(keys: Seq<(i64, (u32, u32))>, hints: Seq<Seq<usize>>, counts: Map<(u32, u32), i64>) {
    lemma_refresh_shrinks(keys, counts);
}

proof fn lemma_refresh_shrinks(keys: Seq<(i64, (u32, u32))>, counts: Map<(u32, u32), i64>)
    ensures
        keys.len() > 0 && keys.last().0 != counts[keys.last().1]
            ==> stale_count(refreshed(keys, counts), counts) < stale_count(keys, counts),
{
    if keys.len() > 0 && keys.last().0 != counts[keys.last().1] {
        let k2 = keys.drop_last();
        let f = (counts[keys.last().1], keys.last().1);
        lemma_insert_pos_bound(k2, f);
        lemma_stale_count_insert(k2, counts, insert_pos(k2, f), f);
    }
}

#[via_fn]
proof fn chosen_decreases(keys: Seq<(i64, (u32, u32))>, counts: Map<(u32, u32), i64>) {
    lemma_refresh_shrinks(keys, counts);
}

/// The insertion place lies within the keys.
pub proof fn lemma_insert_pos_bound(s: Seq<(i64, (u32, u32))>, k: (i64, (u32, u32)))
    ensures
        0 <= insert_pos(s, k) <= s.len(),
    decreases s.len(),
{
    if s.len() > 0 {
        lemma_insert_pos_bound(s.drop_last(), k);
    }
}

/// Every pair with a positive count has an entry whose count is at least the pair's count.
pub open spec fn covers(keys: Seq<(i64, (u32, u32))>, counts: Map<(u32, u32), i64>) -> bool {
    forall|q: (u32, u32)| #[trigger] counts.contains_key(q) && counts[q] > 0
        ==> exists|j: int| 0 <= j < keys.len() && keys[j].1 == q && keys[j].0 >= counts[q]
}

proof fn lemma_apply_unlisted(m: Map<(u32, u32), i64>, cs: Seq<PairChange>, q: (u32, u32))
    requires
        forall|j: int| 0 <= j < cs.len() ==> (#[trigger] cs[j]).pair != q,
    ensures
        apply_changes(m, cs).contains_key(q) == m.contains_key(q),
        m.contains_key(q) ==> apply_changes(m, cs)[q] == m[q],
    decreases cs.len(),
{
    if cs.len() > 0 {
        let init = cs.drop_last();
        assert forall|j: int| 0 <= j < init.len() implies (#[trigger] init[j]).pair != q by {
            assert(init[j] == cs[j]);
        }
        lemma_apply_unlisted(m, init, q);
        assert(cs.last().pair != q);
    }
}

/// Committing keeps every pair with a positive count behind an entry whose count is at least
/// as high, when the changes list each pair once and only pairs without a count grow: in
/// training, the pairs that grow are the new ones, made with the step's new token.
pub proof fn lemma_commit_covers(keys: Seq<(i64, (u32, u32))>, counts: Map<(u32, u32), i64>, cs: Seq<PairChange>)
    requires
        covers(keys, counts),
        forall|i: int, j: int| 0 <= i < j < cs.len() ==> (#[trigger] cs[i]).pair != (#[trigger] cs[j]).pair,
        forall|j: int| 0 <= j < cs.len() && (#[trigger] cs[j]).delta > 0 ==> !counts.contains_key(cs[j].pair),
    ensures
        covers(commit_keys(keys, counts, cs), apply_changes(counts, cs)),
    decreases cs.len(),
{
    if cs.len() > 0 {
        let init = cs.drop_last();
        assert forall|i: int, j: int| 0 <= i < j < init.len() implies (#[trigger] init[i]).pair != (#[trigger] init[j]).pair by {
            assert(cs[i].pair != cs[j].pair);
        }
        assert forall|j: int| 0 <= j < init.len() && (#[trigger] init[j]).delta > 0 implies !counts.contains_key(init[j].pair) by {
            assert(init[j] == cs[j]);
        }
        lemma_commit_covers(keys, counts, init);
        let e = cs.last();
        let k0 = commit_keys(keys, counts, init);
        let m0 = apply_changes(counts, init);
        let k1 = commit_keys(keys, counts, cs);
        let m1 = apply_changes(counts, cs);
        assert forall|j: int| 0 <= j < init.len() implies (#[trigger] init[j]).pair != e.pair by {
            assert(cs[j].pair != cs[cs.len() - 1].pair);
        }
        lemma_apply_unlisted(counts, init, e.pair);
        if e.delta > 0 && !m0.contains_key(e.pair) {
            let f = (e.delta, e.pair);
            let pos = insert_pos(k0, f);
            lemma_insert_pos_bound(k0, f);
            assert(k1 == k0.insert(pos, f));
            assert forall|q: (u32, u32)| #[trigger] m1.contains_key(q) && m1[q] > 0
                implies exists|j: int| 0 <= j < k1.len() && k1[j].1 == q && k1[j].0 >= m1[q] by {
                if q == e.pair {
                    assert(k1[pos] == f);
                } else {
                    assert(m0.contains_key(q) && m0[q] > 0);
                    let j = choose|j: int| 0 <= j < k0.len() && k0[j].1 == q && k0[j].0 >= m0[q];
                    if j < pos {
                        assert(k1[j] == k0[j]);
                    } else {
                        assert(k1[j + 1] == k0[j]);
                    }
                }
            }
        } else {
            assert(k1 == k0);
            assert forall|q: (u32, u32)| #[trigger] m1.contains_key(q) && m1[q] > 0
                implies exists|j: int| 0 <= j < k1.len() && k1[j].1 == q && k1[j].0 >= m1[q] by {
                if q == e.pair {
                    assert(m0.contains_key(q));
                    assert(m1[q] <= m0[q]);
                    assert(m0[q] > 0);
                } else {
                    assert(m0.contains_key(q) && m0[q] > 0);
                }
            }
        }
    }
}

/// The pairs of the keys are distinct.
pub open spec fn distinct_key_pairs(keys: Seq<(i64, (u32, u32))>) -> bool {
    forall|i: int, j: int| 0 <= i < j < keys.len() ==> (#[trigger] keys[i]).1 != (#[trigger] keys[j]).1
}

/// What a commit does to which pairs have counts and entries: counts keep their pairs and gain
/// only listed ones; the heap keeps its pairs distinct and counted, and gains only pairs that
/// had no count.
pub proof fn lemma_commit_shape(keys: Seq<(i64, (u32, u32))>, m: Map<(u32, u32), i64>, cs: Seq<PairChange>)
    requires
        distinct_key_pairs(keys),
        forall|i: int| 0 <= i < keys.len() ==> m.contains_key((#[trigger] keys[i]).1),
    ensures
        distinct_key_pairs(commit_keys(keys, m, cs)),
        forall|i: int| 0 <= i < commit_keys(keys, m, cs).len()
            ==> apply_changes(m, cs).contains_key((#[trigger] commit_keys(keys, m, cs)[i]).1),
        forall|i: int| 0 <= i < commit_keys(keys, m, cs).len()
            ==> keys.contains(#[trigger] commit_keys(keys, m, cs)[i]) || !m.contains_key(commit_keys(keys, m, cs)[i].1),
        forall|q: (u32, u32)| #[trigger] apply_changes(m, cs).contains_key(q)
            ==> m.contains_key(q) || exists|j: int| 0 <= j < cs.len() && cs[j].pair == q,
        forall|q: (u32, u32)| m.contains_key(q) ==> #[trigger] apply_changes(m, cs).contains_key(q),
    decreases cs.len(),
{
    if cs.len() > 0 {
        let init = cs.drop_last();
        lemma_commit_shape(keys, m, init);
        let k0 = commit_keys(keys, m, init);
        let m0 = apply_changes(m, init);
        let k1 = commit_keys(keys, m, cs);
        let m1 = apply_changes(m, cs);
        let e = cs.last();
        assert forall|q: (u32, u32)| #[trigger] m1.contains_key(q)
            implies m.contains_key(q) || exists|j: int| 0 <= j < cs.len() && cs[j].pair == q by {
            if q != e.pair {
                assert(m0.contains_key(q));
                if !m.contains_key(q) {
                    let j = choose|j: int| 0 <= j < init.len() && init[j].pair == q;
                    assert(cs[j].pair == q);
                }
            } else {
                assert(cs[cs.len() - 1].pair == q);
            }
        }
        assert forall|q: (u32, u32)| m.contains_key(q) implies #[trigger] m1.contains_key(q) by {
            assert(m0.contains_key(q));
        }
        if e.delta > 0 && !m0.contains_key(e.pair) {
            let f = (e.delta, e.pair);
            let pos = insert_pos(k0, f);
            lemma_insert_pos_bound(k0, f);
            assert(k1 == k0.insert(pos, f));
            assert forall|i: int, j: int| 0 <= i < j < k1.len() implies (#[trigger] k1[i]).1 != (#[trigger] k1[j]).1 by {
                if i == pos {
                    assert(k1[j] == k0[j - 1]);
                    assert(m0.contains_key(k0[j - 1].1));
                } else if j == pos {
                    assert(k1[i] == k0[i]);
                    assert(m0.contains_key(k0[i].1));
                } else {
                    let a = if i < pos { i } else { i - 1 };
                    let b = if j < pos { j } else { j - 1 };
                    assert(k1[i] == k0[a] && k1[j] == k0[b]);
                }
            }
            assert forall|i: int| 0 <= i < k1.len() implies m1.contains_key((#[trigger] k1[i]).1) by {
                if i != pos {
                    let a = if i < pos { i } else { i - 1 };
                    assert(k1[i] == k0[a]);
                    assert(m0.contains_key(k0[a].1));
                }
            }
            assert forall|i: int| 0 <= i < k1.len() implies keys.contains(#[trigger] k1[i]) || !m.contains_key(k1[i].1) by {
                if i != pos {
                    let a = if i < pos { i } else { i - 1 };
                    assert(k1[i] == k0[a]);
                } else {
                    assert(!m.contains_key(e.pair));
                }
            }
        } else {
            assert(k1 == k0);
            assert forall|i: int| 0 <= i < k1.len() implies m1.contains_key((#[trigger] k1[i]).1) by {
                assert(m0.contains_key(k0[i].1));
            }
        }
    }
}

/// `lemma_commit_covers` with an exception: pairs other than `p` keep their cover.
pub proof fn lemma_commit_covers_except(
    keys: Seq<(i64, (u32, u32))>,
    counts: Map<(u32, u32), i64>,
    cs: Seq<PairChange>,
    p: (u32, u32),
)
    requires
        covers_except(keys, counts, p),
        forall|i: int, j: int| 0 <= i < j < cs.len() ==> (#[trigger] cs[i]).pair != (#[trigger] cs[j]).pair,
        forall|j: int| 0 <= j < cs.len() && (#[trigger] cs[j]).delta > 0 ==> !counts.contains_key(cs[j].pair),
    ensures
        covers_except(commit_keys(keys, counts, cs), apply_changes(counts, cs), p),
    decreases cs.len(),
{
    if cs.len() > 0 {
        let init = cs.drop_last();
        assert forall|i: int, j: int| 0 <= i < j < init.len() implies (#[trigger] init[i]).pair != (#[trigger] init[j]).pair by {
            assert(cs[i].pair != cs[j].pair);
        }
        assert forall|j: int| 0 <= j < init.len() && (#[trigger] init[j]).delta > 0 implies !counts.contains_key(init[j].pair) by {
            assert(init[j] == cs[j]);
        }
        lemma_commit_covers_except(keys, counts, init, p);
        let e = cs.last();
        let k0 = commit_keys(keys, counts, init);
        let m0 = apply_changes(counts, init);
        let k1 = commit_keys(keys, counts, cs);
        let m1 = apply_changes(counts, cs);
        assert forall|j: int| 0 <= j < init.len() implies (#[trigger] init[j]).pair != e.pair by {
            assert(cs[j].pair != cs[cs.len() - 1].pair);
        }
        lemma_apply_unlisted(counts, init, e.pair);
        if e.delta > 0 && !m0.contains_key(e.pair) {
            let f = (e.delta, e.pair);
            let pos = insert_pos(k0, f);
            lemma_insert_pos_bound(k0, f);
            assert(k1 == k0.insert(pos, f));
            assert forall|q: (u32, u32)| #[trigger] m1.contains_key(q) && m1[q] > 0 && q != p
                implies exists|j: int| 0 <= j < k1.len() && k1[j].1 == q && k1[j].0 >= m1[q] by {
                if q == e.pair {
                    assert(k1[pos] == f);
                } else {
                    assert(m0.contains_key(q) && m0[q] > 0);
                    let j = choose|j: int| 0 <= j < k0.len() && k0[j].1 == q && k0[j].0 >= m0[q];
                    if j < pos {
                        assert(k1[j] == k0[j]);
                    } else {
                        assert(k1[j + 1] == k0[j]);
                    }
                }
            }
        } else {
            assert(k1 == k0);
            assert forall|q: (u32, u32)| #[trigger] m1.contains_key(q) && m1[q] > 0 && q != p
                implies exists|j: int| 0 <= j < k1.len() && k1[j].1 == q && k1[j].0 >= m1[q] by {
                if q == e.pair {
                    assert(m0.contains_key(q));
                    assert(m1[q] <= m0[q]);
                    assert(m0[q] > 0);
                } else {
                    assert(m0.contains_key(q) && m0[q] > 0);
                }
            }
        }
    }
}

/// A step restores the cover: if every pair but the merged one `p` is covered, the changes list
/// each pair once, only pairs without a count grow, and the merged pair ends without a positive
/// count, then after the commit every pair with a positive count is covered.
pub proof fn lemma_step_restores_covers(
    keys: Seq<(i64, (u32, u32))>,
    counts: Map<(u32, u32), i64>,
    cs: Seq<PairChange>,
    p: (u32, u32),
)
    requires
        covers_except(keys, counts, p),
        forall|i: int, j: int| 0 <= i < j < cs.len() ==> (#[trigger] cs[i]).pair != (#[trigger] cs[j]).pair,
        forall|j: int| 0 <= j < cs.len() && (#[trigger] cs[j]).delta > 0 ==> !counts.contains_key(cs[j].pair),
        apply_changes(counts, cs).contains_key(p) ==> apply_changes(counts, cs)[p] <= 0,
    ensures
        covers(commit_keys(keys, counts, cs), apply_changes(counts, cs)),
{
    lemma_commit_covers_except(keys, counts, cs, p);
}

} // verus!
