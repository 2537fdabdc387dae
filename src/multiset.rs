use vstd::prelude::*;
use crate::block::{PairChange, pair_count};
use crate::bpe::{total_len, unit_blocks, hist, vec_views, token_lists, lemma_hist_weighted};
use crate::pairs::PairMap;
use crate::train::{local_pair_counts, entry_ok, lemma_weighted_zero};

verus! {

/// The counts after adding `c` to pair `p`: nothing for zero, held at `u64::MAX` on overflow.
pub open spec fn add_one(m: Map<(u32, u32), u64>, p: (u32, u32), c: u64) -> Map<(u32, u32), u64> {
    if c == 0 {
        m
    } else if m.contains_key(p) {
        m.insert(p, if m[p] + c > u64::MAX { u64::MAX } else { (m[p] + c) as u64 })
    } else {
        m.insert(p, c)
    }
}

/// The counts after removing `c` from pair `p`: nothing for zero or an absent pair, held at zero.
pub open spec fn remove_one(m: Map<(u32, u32), u64>, p: (u32, u32), c: u64) -> Map<(u32, u32), u64> {
    if c == 0 || !m.contains_key(p) {
        m
    } else {
        m.insert(p, if m[p] < c { 0 } else { (m[p] - c) as u64 })
    }
}

/// The counts after the additions `s`, in order.
pub open spec fn add_all(m: Map<(u32, u32), u64>, s: Seq<((u32, u32), u64)>) -> Map<(u32, u32), u64>
    decreases s.len(),
{
    if s.len() == 0 {
        m
    } else {
        add_one(add_all(m, s.drop_last()), s.last().0, s.last().1)
    }
}

/// The counts after the removals `s`, in order.
pub open spec fn remove_all(m: Map<(u32, u32), u64>, s: Seq<((u32, u32), u64)>) -> Map<(u32, u32), u64>
    decreases s.len(),
{
    if s.len() == 0 {
        m
    } else {
        remove_one(remove_all(m, s.drop_last()), s.last().0, s.last().1)
    }
}

/// The additions that a list of changes makes.
pub open spec fn adds_of(s: Seq<PairChange>) -> Seq<((u32, u32), u64)> {
    s.map_values(|e: PairChange| (e.pair, e.delta as u64))
}

/// Pair counts kept alike on every peer: additions and removals wait until a commit, which
/// applies the additions and then the removals that all peers contributed.
pub struct DistributedMultiset {
    nodes: Vec<((u32, u32), u64)>,
    index: PairMap<usize>,
    to_add: Vec<((u32, u32), u64)>,
    to_remove: Vec<((u32, u32), u64)>,
}

impl DistributedMultiset {
    /// The committed count of each pair.
    pub closed spec fn counts(&self) -> Map<(u32, u32), u64> {
        Map::new(|p: (u32, u32)| self.index@.contains_key(p), |p: (u32, u32)| self.nodes@[self.index@[p] as int].1)
    }

    /// The additions waiting for the next commit.
    pub closed spec fn pending_adds(&self) -> Seq<((u32, u32), u64)> {
        self.to_add@
    }

    /// The removals waiting for the next commit.
    pub closed spec fn pending_removes(&self) -> Seq<((u32, u32), u64)> {
        self.to_remove@
    }

    /// The index finds each node, and each node is indexed.
    pub closed spec fn wf(&self) -> bool {
        &&& forall|p: (u32, u32)| #[trigger] self.index@.contains_key(p) ==> self.index@[p] < self.nodes@.len()
            && self.nodes@[self.index@[p] as int].0 == p
        &&& forall|j: int| 0 <= j < self.nodes@.len() ==> self.index@.contains_key((#[trigger] self.nodes@[j]).0)
            && self.index@[self.nodes@[j].0] == j
    }

    /// A multiset with no counts and nothing pending.
    pub fn empty() -> (r: Self)
        ensures
            r.wf(),
            r.counts() == Map::<(u32, u32), u64>::empty(),
            r.pending_adds().len() == 0,
            r.pending_removes().len() == 0,
    {
        let r = DistributedMultiset { nodes: Vec::new(), index: PairMap::new(), to_add: Vec::new(), to_remove: Vec::new() };
        assert(r.counts() =~= Map::<(u32, u32), u64>::empty());
        r
    }

    /// The counts of the adjacent pairs of `data`, one for each occurrence, committed.
    pub fn new(data: Vec<Vec<u32>>) -> (r: Self)
        requires
            total_len(data@, data@.len() as int) + 5 <= i64::MAX,
        ensures
            r.wf(),
            r.pending_adds().len() == 0,
            r.pending_removes().len() == 0,
            forall|p: (u32, u32)| #[trigger] r.counts().contains_key(p)
                <==> exists|b: int| 0 <= b < data@.len() && #[trigger] pair_count(data@[b]@, p) > 0,
            forall|p: (u32, u32)| #[trigger] r.counts().contains_key(p) ==> r.counts()[p] == hist(vec_views(data@), p),
    {
        let blocks = unit_blocks(&data);
        let local = local_pair_counts(&blocks);
        let mut ms = DistributedMultiset::empty();
        let mut j: usize = 0;
        proof {
            assert forall|i: int| 0 <= i < local@.len() implies (#[trigger] local@[i]).delta > 0 by {
                assert(entry_ok(blocks@, local@[i], blocks@.len() as int, Seq::empty(), 0));
            }
            assert(adds_of(local@.subrange(0, 0)) =~= Seq::<((u32, u32), u64)>::empty());
        }
        while j < local.len()
            invariant
                j <= local@.len(),
                ms.wf(),
                ms.pending_removes().len() == 0,
                ms.counts() == Map::<(u32, u32), u64>::empty(),
                ms.pending_adds() == adds_of(local@.subrange(0, j as int)),
                forall|i: int| 0 <= i < local@.len() ==> (#[trigger] local@[i]).delta > 0,
            decreases local@.len() - j,
        {
            ms.add(local[j].pair, local[j].delta as u64);
            j = j + 1;
            proof {
                let sub = local@.subrange(0, j as int);
                assert(sub.drop_last() =~= local@.subrange(0, j - 1));
                assert(adds_of(sub) =~= adds_of(local@.subrange(0, j - 1)).push((local@[j - 1].pair, local@[j - 1].delta as u64)));
            }
        }
        let ghost adds = ms.pending_adds();
        ms.commit();
        proof {
            assert(local@.subrange(0, local@.len() as int) =~= local@);
            assert(adds == adds_of(local@));
            lemma_add_all_keys(Map::empty(), adds);
            let n = data@.len() as int;
            assert(token_lists(blocks@) =~= vec_views(data@));
            assert(token_lists(blocks@).subrange(0, n) =~= token_lists(blocks@));
            assert forall|i: int, j: int| 0 <= i < j < adds.len() implies (#[trigger] adds[i]).0 != (#[trigger] adds[j]).0 by {
                assert(local@[i].pair != local@[j].pair);
            }
            assert forall|i: int| 0 <= i < adds.len() implies (#[trigger] adds[i]).1 > 0 by {
                assert(entry_ok(blocks@, local@[i], n, Seq::empty(), 0));
            }
            lemma_add_all_values(adds);
            assert forall|p: (u32, u32)| #[trigger] ms.counts().contains_key(p) implies ms.counts()[p] == hist(vec_views(data@), p) by {
                let i = choose|i: int| 0 <= i < adds.len() && adds[i].0 == p && adds[i].1 > 0;
                let e = local@[i];
                assert(entry_ok(blocks@, e, n, Seq::empty(), 0));
                assert(pair_count(Seq::<u32>::empty(), p) == 0);
                lemma_hist_weighted(blocks@, p, n);
            }
            assert forall|p: (u32, u32)| #[trigger] ms.counts().contains_key(p)
                <==> exists|b: int| 0 <= b < data@.len() && #[trigger] pair_count(data@[b]@, p) > 0 by {
                if ms.counts().contains_key(p) {
                    let i = choose|i: int| 0 <= i < adds.len() && adds[i].0 == p && adds[i].1 > 0;
                    let e = local@[i];
                    assert(adds[i] == (e.pair, e.delta as u64));
                    assert(entry_ok(blocks@, e, blocks@.len() as int, Seq::empty(), 0));
                    if !(exists|b: int| 0 <= b < data@.len() && #[trigger] pair_count(data@[b]@, p) > 0) {
                        assert forall|x: int| 0 <= x < blocks@.len() implies pair_count((#[trigger] blocks@[x]).tokens@, p) == 0 by {
                            crate::block::lemma_pair_count_bounds(blocks@[x].tokens@, p);
                            assert(blocks@[x].tokens@ == data@[x]@);
                        }
                        lemma_weighted_zero(blocks@, p, blocks@.len() as int);
                    }
                }
                if exists|b: int| 0 <= b < data@.len() && #[trigger] pair_count(data@[b]@, p) > 0 {
                    let b = choose|b: int| 0 <= b < data@.len() && #[trigger] pair_count(data@[b]@, p) > 0;
                    assert(blocks@[b].tokens@ == data@[b]@);
                    assert(pair_count(blocks@[b].tokens@, p) > 0);
                    if !(exists|j: int| 0 <= j < local@.len() && (#[trigger] local@[j]).pair == p) {
                        assert(forall|j: int| 0 <= j < local@.len() ==> (#[trigger] local@[j]).pair != p);
                    } else {
                        let j = choose|j: int| 0 <= j < local@.len() && (#[trigger] local@[j]).pair == p;
                        assert(entry_ok(blocks@, local@[j], blocks@.len() as int, Seq::empty(), 0));
                        assert(adds[j] == (local@[j].pair, local@[j].delta as u64));
                        assert(adds[j].0 == p && adds[j].1 > 0);
                    }
                }
            }
        }
        ms
    }

    /// Records an addition for the next commit.
    pub fn add(&mut self, item: (u32, u32), count: u64)
        requires
            old(self).wf(),
        ensures
            final(self).wf(),
            final(self).counts() == old(self).counts(),
            final(self).pending_adds() == old(self).pending_adds().push((item, count)),
            final(self).pending_removes() == old(self).pending_removes(),
    {
        self.to_add.push((item, count));
    }

    /// Records a removal for the next commit.
    pub fn remove(&mut self, item: (u32, u32), count: u64)
        requires
            old(self).wf(),
        ensures
            final(self).wf(),
            final(self).counts() == old(self).counts(),
            final(self).pending_removes() == old(self).pending_removes().push((item, count)),
            final(self).pending_adds() == old(self).pending_adds(),
    {
        self.to_remove.push((item, count));
    }

    /// Hands out what waits for the next commit, to be reduced across peers, and clears it.
    pub fn take_pending(&mut self) -> (r: (Vec<((u32, u32), u64)>, Vec<((u32, u32), u64)>))
        requires
            old(self).wf(),
        ensures
            final(self).wf(),
            final(self).counts() == old(self).counts(),
            r.0@ == old(self).pending_adds(),
            r.1@ == old(self).pending_removes(),
            final(self).pending_adds().len() == 0,
            final(self).pending_removes().len() == 0,
    {
        let mut adds: Vec<((u32, u32), u64)> = Vec::new();
        let mut removes: Vec<((u32, u32), u64)> = Vec::new();
        std::mem::swap(&mut adds, &mut self.to_add);
        std::mem::swap(&mut removes, &mut self.to_remove);
        (adds, removes)
    }

    /// Applies additions and then removals that all peers agree on.
    pub fn apply(&mut self, adds: &Vec<((u32, u32), u64)>, removes: &Vec<((u32, u32), u64)>)
        requires
            old(self).wf(),
        ensures
            final(self).wf(),
            final(self).counts() == remove_all(add_all(old(self).counts(), adds@), removes@),
            final(self).pending_adds() == old(self).pending_adds(),
            final(self).pending_removes() == old(self).pending_removes(),
    {
        let ghost m0 = self.counts();
        let mut i: usize = 0;
        while i < adds.len()
            invariant
                i <= adds@.len(),
                self.wf(),
                self.counts() == add_all(m0, adds@.subrange(0, i as int)),
                self.to_add == old(self).to_add,
                self.to_remove == old(self).to_remove,
            decreases adds@.len() - i,
        {
            self.add_pair(adds[i].0, adds[i].1);
            i = i + 1;
            proof {
                let sub = adds@.subrange(0, i as int);
                assert(sub.drop_last() =~= adds@.subrange(0, i - 1));
            }
        }
        proof {
            assert(adds@.subrange(0, adds@.len() as int) =~= adds@);
        }
        let ghost m1 = self.counts();
        let mut i: usize = 0;
        while i < removes.len()
            invariant
                i <= removes@.len(),
                self.wf(),
                self.counts() == remove_all(m1, removes@.subrange(0, i as int)),
                m1 == add_all(m0, adds@),
                self.to_add == old(self).to_add,
                self.to_remove == old(self).to_remove,
            decreases removes@.len() - i,
        {
            self.remove_pair(removes[i].0, removes[i].1);
            i = i + 1;
            proof {
                let sub = removes@.subrange(0, i as int);
                assert(sub.drop_last() =~= removes@.subrange(0, i - 1));
            }
        }
        proof {
            assert(removes@.subrange(0, removes@.len() as int) =~= removes@);
        }
    }

    /// Applies this peer's own pending additions and removals, as a single peer does.
    pub fn commit(&mut self)
        requires
            old(self).wf(),
        ensures
            final(self).wf(),
            final(self).counts() == remove_all(add_all(old(self).counts(), old(self).pending_adds()), old(self).pending_removes()),
            final(self).pending_adds().len() == 0,
            final(self).pending_removes().len() == 0,
    {
        let (adds, removes) = self.take_pending();
        self.apply(&adds, &removes);
    }

    fn add_pair(&mut self, item: (u32, u32), count: u64)
        requires
            old(self).wf(),
        ensures
            final(self).wf(),
            final(self).counts() == add_one(old(self).counts(), item, count),
            final(self).to_add == old(self).to_add,
            final(self).to_remove == old(self).to_remove,
    {
        if count == 0 {
            return;
        }
        let ghost before = self.nodes@;
        match self.index.get(item.0, item.1) {
            Some(k) => {
                let c = self.nodes[k].1;
                let v = if c > u64::MAX - count { u64::MAX } else { c + count };
                self.nodes.set(k, (item, v));
                proof {
                    assert forall|j: int| 0 <= j < self.nodes@.len() implies self.index@.contains_key((#[trigger] self.nodes@[j]).0)
                        && self.index@[self.nodes@[j].0] == j by {
                        if j != k {
                            assert(self.nodes@[j] == before[j]);
                        }
                    }
                    assert(self.counts() =~= add_one(old(self).counts(), item, count));
                }
            },
            None => {
                let k = self.nodes.len();
                self.nodes.push((item, count));
                self.index.insert(item, k);
                proof {
                    assert forall|p: (u32, u32)| #[trigger] self.index@.contains_key(p) implies self.index@[p] < self.nodes@.len()
                        && self.nodes@[self.index@[p] as int].0 == p by {
                        if p != item {
                            assert(self.nodes@[self.index@[p] as int] == before[self.index@[p] as int]);
                        }
                    }
                    assert forall|j: int| 0 <= j < self.nodes@.len() implies self.index@.contains_key((#[trigger] self.nodes@[j]).0)
                        && self.index@[self.nodes@[j].0] == j by {
                        if j < k {
                            assert(self.nodes@[j] == before[j]);
                            assert(old(self).index@.contains_key(before[j].0));
                            if before[j].0 == item {
                                assert(old(self).index@.contains_key(item));
                            }
                        }
                    }
                    assert forall|p: (u32, u32)| #[trigger] self.index@.contains_key(p) && p != item implies
                        self.nodes@[self.index@[p] as int] == before[old(self).index@[p] as int] by {
                    }
                    assert(self.counts() =~= add_one(old(self).counts(), item, count));
                }
            },
        }
    }

    fn remove_pair(&mut self, item: (u32, u32), count: u64)
        requires
            old(self).wf(),
        ensures
            final(self).wf(),
            final(self).counts() == remove_one(old(self).counts(), item, count),
            final(self).to_add == old(self).to_add,
            final(self).to_remove == old(self).to_remove,
    {
        if count == 0 {
            return;
        }
        let ghost before = self.nodes@;
        match self.index.get(item.0, item.1) {
            Some(k) => {
                let c = self.nodes[k].1;
                let v = if c < count { 0 } else { c - count };
                self.nodes.set(k, (item, v));
                proof {
                    assert forall|j: int| 0 <= j < self.nodes@.len() implies self.index@.contains_key((#[trigger] self.nodes@[j]).0)
                        && self.index@[self.nodes@[j].0] == j by {
                        if j != k {
                            assert(self.nodes@[j] == before[j]);
                        }
                    }
                    assert(self.counts() =~= remove_one(old(self).counts(), item, count));
                }
            },
            None => {
                assert(self.counts() =~= remove_one(old(self).counts(), item, count));
            },
        }
    }

    /// Commits what is pending, then gives a pair with the highest count and that count, if any
    /// pair has a count (on a tie, the pair that was counted first).
    pub fn most_common(&mut self) -> (r: Option<((u32, u32), u64)>)
        requires
            old(self).wf(),
        ensures
            final(self).wf(),
            final(self).counts() == remove_all(add_all(old(self).counts(), old(self).pending_adds()), old(self).pending_removes()),
            r is None <==> final(self).counts() == Map::<(u32, u32), u64>::empty(),
            r matches Some((p, c)) ==> final(self).counts().contains_key(p) && final(self).counts()[p] == c
                && forall|q: (u32, u32)| #[trigger] final(self).counts().contains_key(q) ==> final(self).counts()[q] <= c,
    {
        self.commit();
        if self.nodes.len() == 0 {
            proof {
                assert forall|p: (u32, u32)| !self.index@.contains_key(p) by {
                    if self.index@.contains_key(p) {
                        assert(self.index@[p] < self.nodes@.len());
                    }
                }
                assert(self.counts() =~= Map::<(u32, u32), u64>::empty());
            }
            return None;
        }
        let mut best: usize = 0;
        let mut j: usize = 1;
        while j < self.nodes.len()
            invariant
                self.wf(),
                1 <= j <= self.nodes@.len(),
                best < j,
                forall|i: int| 0 <= i < j ==> (#[trigger] self.nodes@[i]).1 <= self.nodes@[best as int].1,
            decreases self.nodes@.len() - j,
        {
            if self.nodes[j].1 > self.nodes[best].1 {
                best = j;
            }
            j = j + 1;
        }
        let (p, c) = self.nodes[best];
        proof {
            assert(self.index@.contains_key(p));
            let k = self.index@[p] as int;
            if k != best {
                assert(self.nodes@[k].0 == p);
            }
            assert(self.counts().contains_key(p));
            assert forall|q: (u32, u32)| #[trigger] self.counts().contains_key(q) implies self.counts()[q] <= c by {
                assert(self.index@[q] < self.nodes@.len());
            }
            assert(!Map::<(u32, u32), u64>::empty().contains_key(p));
        }
        Some((p, c))
    }
}

/// Additions with positive counts, from nothing, hold exactly their pairs.
proof fn lemma_add_all_keys(m: Map<(u32, u32), u64>, s: Seq<((u32, u32), u64)>)
    requires
        m == Map::<(u32, u32), u64>::empty(),
    ensures
        forall|p: (u32, u32)| #[trigger] add_all(m, s).contains_key(p)
            <==> exists|i: int| 0 <= i < s.len() && s[i].0 == p && s[i].1 > 0,
    decreases s.len(),
{
    if s.len() > 0 {
        let init = s.drop_last();
        lemma_add_all_keys(m, init);
        assert forall|p: (u32, u32)| #[trigger] add_all(m, s).contains_key(p)
            <==> exists|i: int| 0 <= i < s.len() && s[i].0 == p && s[i].1 > 0 by {
            if add_all(m, init).contains_key(p) {
                let i = choose|i: int| 0 <= i < init.len() && init[i].0 == p && init[i].1 > 0;
                assert(s[i] == init[i]);
            }
            if exists|i: int| 0 <= i < s.len() && s[i].0 == p && s[i].1 > 0 {
                let i = choose|i: int| 0 <= i < s.len() && s[i].0 == p && s[i].1 > 0;
                if i < init.len() {
                    assert(init[i] == s[i]);
                }
            }
        }
    }
}

/// Additions of distinct pairs with positive counts, from nothing, hold each pair's count.
proof fn lemma_add_all_values(s: Seq<((u32, u32), u64)>)
    requires
        forall|i: int, j: int| 0 <= i < j < s.len() ==> (#[trigger] s[i]).0 != (#[trigger] s[j]).0,
        forall|i: int| 0 <= i < s.len() ==> (#[trigger] s[i]).1 > 0,
    ensures
        forall|i: int| 0 <= i < s.len() ==> add_all(Map::empty(), s)[(#[trigger] s[i]).0] == s[i].1,
    decreases s.len(),
{
    if s.len() > 0 {
        let init = s.drop_last();
        assert forall|i: int, j: int| 0 <= i < j < init.len() implies (#[trigger] init[i]).0 != (#[trigger] init[j]).0 by {
            assert(s[i].0 != s[j].0);
        }
        assert forall|i: int| 0 <= i < init.len() implies (#[trigger] init[i]).1 > 0 by {
            assert(s[i].1 > 0);
        }
        lemma_add_all_values(init);
        lemma_add_all_keys(Map::empty(), init);
        let e = s.last();
        assert(!add_all(Map::empty(), init).contains_key(e.0)) by {
            if add_all(Map::empty(), init).contains_key(e.0) {
                let i = choose|i: int| 0 <= i < init.len() && init[i].0 == e.0 && init[i].1 > 0;
                assert(s[i].0 != s[s.len() - 1].0);
            }
        }
        assert forall|i: int| 0 <= i < s.len() implies add_all(Map::empty(), s)[(#[trigger] s[i]).0] == s[i].1 by {
            if i < s.len() - 1 {
                assert(init[i] == s[i]);
                assert(s[i].0 != s[s.len() - 1].0);
            }
        }
    }
}

} // verus!
