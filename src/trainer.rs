use vstd::prelude::*;
use crate::block::{Block, PairChange, lemma_merge_seq_len, pair_count};
use crate::train::{pops_before, key_of, insert_pos, refreshed, chosen, chosen_hints, covers, covers_except, settled_keys, settled_hints, commit_keys, commit_hints, lemma_insert_pos_bound, distinct_key_pairs, lemma_commit_shape};
use crate::train::{PairCounter, add_clamped, stale_count, total_weight, weighted_count, lemma_weighted_bounds, held, apply_changes, lemma_commit_tracks_histogram};

verus! {

/// Each pair of the list is listed once.
pub open spec fn unique_pairs(s: Seq<PairChange>) -> bool {
    forall|i: int, j: int| 0 <= i < j < s.len() ==> (#[trigger] s[i]).pair != (#[trigger] s[j]).pair
}

/// The total change that the list records for pair `p`.
pub open spec fn sum_of(s: Seq<PairChange>, p: (u32, u32)) -> int
    decreases s.len(),
{
    if s.len() == 0 {
        0
    } else {
        sum_of(s.drop_last(), p) + (if s.last().pair == p { s.last().delta as int } else { 0 })
    }
}

proof fn lemma_sum_of_update(s: Seq<PairChange>, i: int, e: PairChange, p: (u32, u32))
    requires
        0 <= i < s.len(),
    ensures
        sum_of(s.update(i, e), p) == sum_of(s, p) - (if s[i].pair == p { s[i].delta as int } else { 0 })
            + (if e.pair == p { e.delta as int } else { 0 }),
    decreases s.len(),
{
    let u = s.update(i, e);
    if i == s.len() - 1 {
        assert(u.drop_last() =~= s.drop_last());
    } else {
        assert(u.drop_last() =~= s.drop_last().update(i, e));
        lemma_sum_of_update(s.drop_last(), i, e, p);
    }
}

/// In a list that names each pair once, the total for a listed pair is its one change.
pub proof fn lemma_sum_of_unique(s: Seq<PairChange>, j: int)
    requires
        unique_pairs(s),
        0 <= j < s.len(),
    ensures
        sum_of(s, s[j].pair) == s[j].delta,
    decreases s.len(),
{
    let init = s.drop_last();
    assert(unique_pairs(init)) by {
        assert forall|a: int, b: int| 0 <= a < b < init.len() implies (#[trigger] init[a]).pair != (#[trigger] init[b]).pair by {
            assert(s[a].pair != s[b].pair);
        }
    }
    if j == s.len() - 1 {
        assert forall|k: int| 0 <= k < init.len() implies (#[trigger] init[k]).pair != s[j].pair by {
            assert(s[k].pair != s[j].pair);
        }
        lemma_sum_of_absent(init, s[j].pair);
    } else {
        assert(init[j] == s[j]);
        lemma_sum_of_unique(init, j);
        assert(s.last().pair != s[j].pair);
    }
}

/// The total for a pair the list does not name is zero.
pub proof fn lemma_sum_of_absent(s: Seq<PairChange>, p: (u32, u32))
    requires
        forall|k: int| 0 <= k < s.len() ==> (#[trigger] s[k]).pair != p,
    ensures
        sum_of(s, p) == 0,
    decreases s.len(),
{
    if s.len() > 0 {
        let init = s.drop_last();
        assert forall|k: int| 0 <= k < init.len() implies (#[trigger] init[k]).pair != p by {
            assert(init[k] == s[k]);
        }
        lemma_sum_of_absent(init, p);
    }
}

proof fn lemma_sum_of_prefix(s: Seq<PairChange>, k: int, p: (u32, u32))
    requires
        0 <= k < s.len(),
    ensures
        sum_of(s.subrange(0, k + 1), p) == sum_of(s.subrange(0, k), p) + (if s[k].pair == p { s[k].delta as int } else { 0 }),
{
    assert(s.subrange(0, k + 1).drop_last() =~= s.subrange(0, k));
}

/// In a list that names each pair once, a prefix records for `p` either nothing or all of it.
proof fn lemma_sum_of_prefix_unique(s: Seq<PairChange>, k: int, p: (u32, u32))
    requires
        unique_pairs(s),
        0 <= k <= s.len(),
    ensures
        sum_of(s.subrange(0, k), p) == 0 || sum_of(s.subrange(0, k), p) == sum_of(s, p),
    decreases k,
{
    if k > 0 {
        lemma_sum_of_prefix_unique(s, k - 1, p);
        lemma_sum_of_prefix(s, k - 1, p);
        if s[k - 1].pair == p {
            let pre = s.subrange(0, k - 1);
            assert forall|i: int| 0 <= i < pre.len() implies (#[trigger] pre[i]).pair != p by {
                assert(s[i].pair != s[k - 1].pair);
            }
            lemma_sum_of_absent(pre, p);
            lemma_sum_of_unique(s, k - 1);
        }
    }
}

/// Folds the changes of one block into `acc`: changes to the same pair are summed, and their
/// block lists joined.
pub fn fold_changes_into(acc: &mut Vec<PairChange>, more: &Vec<PairChange>)
    requires
        unique_pairs(old(acc)@),
        unique_pairs(more@),
        forall|p: (u32, u32)| i64::MIN <= #[trigger] sum_of(old(acc)@, p) + sum_of(more@, p) <= i64::MAX,
    ensures
        unique_pairs(final(acc)@),
        forall|p: (u32, u32)| #[trigger] sum_of(final(acc)@, p) == sum_of(old(acc)@, p) + sum_of(more@, p),
{
    let ghost acc0 = acc@;
    let mut j: usize = 0;
    while j < more.len()
        invariant
            j <= more@.len(),
            unique_pairs(acc@),
            unique_pairs(more@),
            forall|p: (u32, u32)| i64::MIN <= #[trigger] sum_of(acc0, p) + sum_of(more@, p) <= i64::MAX,
            forall|p: (u32, u32)| #[trigger] sum_of(acc@, p) == sum_of(acc0, p) + sum_of(more@.subrange(0, j as int), p),
        decreases more@.len() - j,
    {
        let pair = more[j].pair;
        let mut k: usize = 0;
        let mut found = false;
        while k < acc.len() && !found
            invariant
                k <= acc@.len(),
                unique_pairs(acc@),
                !found ==> forall|i: int| 0 <= i < k ==> (#[trigger] acc@[i]).pair != pair,
                found ==> k < acc@.len() && acc@[k as int].pair == pair,
            decreases acc@.len() - k + (if found { 0int } else { 1int }),
        {
            if acc[k].pair.0 == pair.0 && acc[k].pair.1 == pair.1 {
                found = true;
            } else {
                k = k + 1;
            }
        }
        proof {
            lemma_sum_of_prefix_unique(more@, j as int, pair);
            lemma_sum_of_unique(more@, j as int);
            lemma_sum_of_prefix(more@, j as int, pair);
            assert(sum_of(more@.subrange(0, j as int), pair) == 0) by {
                let pre = more@.subrange(0, j as int);
                assert forall|i: int| 0 <= i < pre.len() implies (#[trigger] pre[i]).pair != pair by {
                    assert(more@[i].pair != more@[j as int].pair);
                }
                lemma_sum_of_absent(pre, pair);
            }
        }
        if found && k < acc.len() {
            let ghost before = acc@;
            proof {
                lemma_sum_of_unique(before, k as int);
            }
            let d = add_clamped(acc[k].delta, more[j].delta);
            acc[k].delta = d;
            let mut ids = more[j].block_ids.clone();
            acc[k].block_ids.append(&mut ids);
            proof {
                assert(acc@ == before.update(k as int, acc@[k as int]));
                assert forall|p: (u32, u32)| #[trigger] sum_of(acc@, p) == sum_of(acc0, p) + sum_of(more@.subrange(0, j + 1), p) by {
                    lemma_sum_of_update(before, k as int, acc@[k as int], p);
                    lemma_sum_of_prefix(more@, j as int, p);
                }
            }
            assert forall|a: int, b: int| 0 <= a < b < acc@.len() implies (#[trigger] acc@[a]).pair != (#[trigger] acc@[b]).pair by {
                assert(before[a].pair != before[b].pair);
            }
        } else {
            let ghost before = acc@;
            proof {
                lemma_sum_of_absent(before, pair);
            }
            let ids = more[j].block_ids.clone();
            acc.push(PairChange { pair, delta: more[j].delta, block_ids: ids });
            proof {
                assert(acc@.drop_last() == before);
                assert(acc@.last().pair == pair && acc@.last().delta == more@[j as int].delta);
                assert forall|p: (u32, u32)| #[trigger] sum_of(acc@, p) == sum_of(acc0, p) + sum_of(more@.subrange(0, j + 1), p) by {
                    lemma_sum_of_prefix(more@, j as int, p);
                    assert(sum_of(acc@, p) == sum_of(acc@.drop_last(), p)
                        + (if acc@.last().pair == p { acc@.last().delta as int } else { 0 }));
                    assert(sum_of(before, p) == sum_of(acc0, p) + sum_of(more@.subrange(0, j as int), p));
                }
            }
            assert forall|a: int, b: int| 0 <= a < b < acc@.len() implies (#[trigger] acc@[a]).pair != (#[trigger] acc@[b]).pair by {
                if b < before.len() {
                    assert(before[a].pair != before[b].pair);
                } else {
                    assert(before[a].pair != pair);
                }
            }
        }
        j = j + 1;
    }
    proof {
        assert(more@.subrange(0, more@.len() as int) =~= more@);
    }
}

/// Merge `k` makes token `256 + k` from two earlier tokens, and no pair is merged twice.
pub open spec fn merges_ok(m: Seq<((u32, u32), u32)>) -> bool {
    &&& forall|k: int| 0 <= k < m.len() ==> {
        let e = #[trigger] m[k];
        &&& e.1 == 256 + k
        &&& e.0.0 < 256 + k
        &&& e.0.1 < 256 + k
    }
    &&& forall|i: int, j: int| 0 <= i < j < m.len() ==> (#[trigger] m[i]).0 != (#[trigger] m[j]).0
}

/// Every counted pair is made of tokens below `t`, and so is every pair of the heap.
pub open spec fn counted_below(counts: Map<(u32, u32), i64>, keys: Seq<(i64, (u32, u32))>, t: int) -> bool {
    &&& forall|q: (u32, u32)| #[trigger] counts.contains_key(q) ==> q.0 < t && q.1 < t
    &&& forall|j: int| 0 <= j < keys.len() ==> counts.contains_key((#[trigger] keys[j]).1)
    &&& distinct_key_pairs(keys)
}

/// Every listed pair is made of tokens below `t`.
pub open spec fn pairs_below(cs: Seq<PairChange>, t: int) -> bool {
    forall|j: int| 0 <= j < cs.len() ==> (#[trigger] cs[j]).pair.0 < t && cs[j].pair.1 < t
}

fn all_pairs_below(changes: &Vec<PairChange>, t: u32) -> (r: bool)
    ensures
        r == pairs_below(changes@, t as int),
{
    let mut j: usize = 0;
    while j < changes.len()
        invariant
            j <= changes@.len(),
            forall|i: int| 0 <= i < j ==> (#[trigger] changes@[i]).pair.0 < t && changes@[i].pair.1 < t,
        decreases changes@.len() - j,
    {
        if changes[j].pair.0 >= t || changes[j].pair.1 >= t {
            return false;
        }
        j = j + 1;
    }
    true
}

/// How many merges a vocabulary of `vocab` tokens has room for.
pub open spec fn merge_room(vocab: u32) -> int {
    if vocab >= 256 { vocab - 256 } else { 0 }
}

/// The training state of one peer, driven step by step by a caller that exchanges the changes
/// with the other peers: the peer's blocks, its pair counter, and the merges chosen so far.
pub struct Trainer {
    blocks: Vec<Block>,
    counter: PairCounter,
    current: u32,
    vocab_size: u32,
    merges: Vec<((u32, u32), u32)>,
}

/// Pairs each global change with this peer's own blocks for that pair: the blocks of the local
/// change for the same pair, or none where this peer has no such change.
pub fn with_local_blocks(global: &Vec<((u32, u32), i64)>, local: &Vec<PairChange>) -> (r: Vec<PairChange>)
    ensures
        r@.len() == global@.len(),
        forall|j: int| 0 <= j < r@.len() ==> {
            &&& (#[trigger] r@[j]).pair == global@[j].0
            &&& r@[j].delta == global@[j].1
            &&& (exists|k: int| 0 <= k < local@.len() && local@[k].pair == global@[j].0 && r@[j].block_ids@ == local@[k].block_ids@)
                || ((forall|k: int| 0 <= k < local@.len() ==> (#[trigger] local@[k]).pair != global@[j].0) && r@[j].block_ids@.len() == 0)
        },
{
    let mut r: Vec<PairChange> = Vec::new();
    let mut j: usize = 0;
    while j < global.len()
        invariant
            j <= global@.len(),
            r@.len() == j,
            forall|i: int| 0 <= i < j ==> {
                &&& (#[trigger] r@[i]).pair == global@[i].0
                &&& r@[i].delta == global@[i].1
                &&& (exists|k: int| 0 <= k < local@.len() && local@[k].pair == global@[i].0 && r@[i].block_ids@ == local@[k].block_ids@)
                    || ((forall|k: int| 0 <= k < local@.len() ==> (#[trigger] local@[k]).pair != global@[i].0) && r@[i].block_ids@.len() == 0)
            },
        decreases global@.len() - j,
    {
        let (pair, delta) = global[j];
        let mut k: usize = 0;
        let mut found = false;
        while k < local.len() && !found
            invariant
                k <= local@.len(),
                !found ==> forall|i: int| 0 <= i < k ==> (#[trigger] local@[i]).pair != pair,
                found ==> k < local@.len() && local@[k as int].pair == pair,
            decreases local@.len() - k + (if found { 0int } else { 1int }),
        {
            if local[k].pair.0 == pair.0 && local[k].pair.1 == pair.1 {
                found = true;
            } else {
                k = k + 1;
            }
        }
        let ids = if found {
            let mut ids: Vec<usize> = Vec::new();
            let src = &local[k].block_ids;
            let mut a: usize = 0;
            while a < src.len()
                invariant
                    a <= src@.len(),
                    ids@ == src@.subrange(0, a as int),
                decreases src@.len() - a,
            {
                ids.push(src[a]);
                a = a + 1;
                proof {
                    assert(ids@ =~= src@.subrange(0, a as int));
                }
            }
            proof {
                assert(src@.subrange(0, src@.len() as int) =~= src@);
            }
            ids
        } else {
            Vec::new()
        };
        r.push(PairChange { pair, delta, block_ids: ids });
        proof {
            let e = r@[j as int];
            if found {
                assert(local@[k as int].pair == global@[j as int].0 && e.block_ids@ == local@[k as int].block_ids@);
            }
        }
        j = j + 1;
    }
    r
}

/// The contributions that a peer hands to the reduction: each change as its pair and value.
pub fn contributions(local: &Vec<PairChange>) -> (r: Vec<((u32, u32), i64)>)
    ensures
        r@.len() == local@.len(),
        forall|j: int| 0 <= j < r@.len() ==> #[trigger] r@[j] == (local@[j].pair, local@[j].delta),
{
    let mut r: Vec<((u32, u32), i64)> = Vec::new();
    let mut j: usize = 0;
    while j < local.len()
        invariant
            j <= local@.len(),
            r@.len() == j,
            forall|i: int| 0 <= i < j ==> #[trigger] r@[i] == (local@[i].pair, local@[i].delta),
        decreases local@.len() - j,
    {
        r.push((local[j].pair, local[j].delta));
        j = j + 1;
    }
    r
}

impl Trainer {
    /// Every block is counted at least once and is short enough for its changes to fit in `i64`.
    pub closed spec fn wf(&self) -> bool {
        &&& self.counter.wf()
        &&& 256 <= self.current
        &&& (self.current <= self.vocab_size || self.current == 256)
        &&& self.merges@.len() == self.current - 256
        &&& forall|k: int| 0 <= k < self.merges@.len() ==> (#[trigger] self.merges@[k]).1 == 256 + k
        &&& forall|b: int| 0 <= b < self.blocks@.len() ==> (#[trigger] self.blocks@[b]).count >= 1
            && self.blocks@[b].count * (self.blocks@[b].tokens@.len() + 5) <= i64::MAX
        &&& total_weight(self.blocks@, self.blocks@.len() as int) <= i64::MAX
        &&& distinct_key_pairs(self.counter.heap_keys())
        &&& forall|q: (u32, u32)| #[trigger] self.counter.counts().contains_key(q) ==> q.0 < self.current && q.1 < self.current
        &&& merges_ok(self.merges@)
        &&& forall|k: int| 0 <= k < self.merges@.len() ==> self.counter.counts().contains_key((#[trigger] self.merges@[k]).0)
        &&& forall|k: int, j: int| 0 <= k < self.merges@.len() && 0 <= j < self.counter.heap_keys().len()
            ==> (#[trigger] self.merges@[k]).0 != (#[trigger] self.counter.heap_keys()[j]).1
    }

    proof fn lemma_counted(&self)
        requires
            self.wf(),
        ensures
            counted_below(self.counts_view(), self.heap_view(), 256 + self.merges_view().len() as int),
    {
        self.counter.lemma_heap_counted();
    }

    /// The merges chosen so far, in order.
    pub closed spec fn merges_view(&self) -> Seq<((u32, u32), u32)> {
        self.merges@
    }

    /// The blocks as they stand.
    pub closed spec fn blocks_view(&self) -> Seq<Block> {
        self.blocks@
    }

    /// The vocabulary size at which training stops.
    pub closed spec fn vocab(&self) -> u32 {
        self.vocab_size
    }

    /// The current count of each pair.
    pub closed spec fn counts_view(&self) -> Map<(u32, u32), i64> {
        self.counter.counts()
    }

    /// The counter's heap, by key, the entry to be taken first at the end.
    pub closed spec fn heap_view(&self) -> Seq<(i64, (u32, u32))> {
        self.counter.heap_keys()
    }

    /// The blocks that each heap entry lists, in the order of `heap_view`.
    pub closed spec fn hints_view(&self) -> Seq<Seq<usize>> {
        self.counter.heap_hints()
    }

    /// Whether no pair is left to choose from.
    pub closed spec fn exhausted(&self) -> bool {
        self.counter.heap_keys().len() == 0
    }

    /// A trainer over this peer's blocks, with an empty counter and no merges, that will stop
    /// when the vocabulary reaches `vocab_size`.
    pub fn new(blocks: Vec<Block>, vocab_size: u32) -> (t: Self)
        requires
            forall|b: int| 0 <= b < blocks@.len() ==> (#[trigger] blocks@[b]).count >= 1
                && blocks@[b].count * (blocks@[b].tokens@.len() + 5) <= i64::MAX,
            total_weight(blocks@, blocks@.len() as int) <= i64::MAX,
        ensures
            t.wf(),
            t.merges_view().len() == 0,
            t.blocks_view() == blocks@,
            t.vocab() == vocab_size,
            t.exhausted(),
            t.merges_view().len() <= merge_room(t.vocab()),
            merges_ok(t.merges_view()),
            t.counts_view() == Map::<(u32, u32), i64>::empty(),
            t.heap_view().len() == 0,
    {
        Trainer { blocks, counter: PairCounter::empty(), current: 256, vocab_size, merges: Vec::new() }
    }

    /// The blocks of this peer.
    pub fn blocks(&self) -> (r: &Vec<Block>)
        ensures
            r@ == self.blocks_view(),
    {
        &self.blocks
    }

    /// Commits changes that all peers agree on, each with this peer's own blocks: the initial
    /// counts, or the changes of a step's merge. Changes naming a token not made yet are refused,
    /// and then nothing changes.
    pub fn commit(&mut self, changes: Vec<PairChange>) -> (ok: bool)
        requires
            old(self).wf(),
        ensures
            final(self).wf(),
            ok == pairs_below(changes@, 256 + old(self).merges_view().len() as int),
            counted_below(final(self).counts_view(), final(self).heap_view(), 256 + final(self).merges_view().len() as int),
            final(self).merges_view() == old(self).merges_view(),
            final(self).blocks_view() == old(self).blocks_view(),
            final(self).vocab() == old(self).vocab(),
            merges_ok(final(self).merges_view()),
            final(self).merges_view().len() <= merge_room(final(self).vocab()),
            !ok ==> final(self).counts_view() == old(self).counts_view() && final(self).heap_view() == old(self).heap_view()
                && final(self).hints_view() == old(self).hints_view(),
            ok ==> final(self).counts_view() == apply_changes(old(self).counts_view(), changes@),
            ok ==> final(self).heap_view() == commit_keys(old(self).heap_view(), old(self).counts_view(), changes@),
            ok ==> final(self).hints_view() == commit_hints(old(self).heap_view(), old(self).hints_view(), old(self).counts_view(), changes@),
            old(self).exhausted() && changes@.len() == 0 ==> final(self).exhausted(),
    {
        if !all_pairs_below(&changes, self.current) {
            proof {
                self.lemma_counted();
            }
            return false;
        }
        let ghost keys0 = self.counter.heap_keys();
        let ghost m0 = self.counter.counts();
        proof {
            self.counter.lemma_heap_counted();
        }
        self.counter.commit(changes);
        proof {
            lemma_commit_shape(keys0, m0, changes@);
            let m1 = self.counter.counts();
            assert forall|q: (u32, u32)| #[trigger] m1.contains_key(q) implies q.0 < self.current && q.1 < self.current by {
                if !m0.contains_key(q) {
                    let i = choose|i: int| 0 <= i < changes@.len() && changes@[i].pair == q;
                }
            }
            assert forall|k: int| 0 <= k < self.merges@.len() implies m1.contains_key((#[trigger] self.merges@[k]).0) by {
                assert(m0.contains_key(self.merges@[k].0));
            }
            let k1 = self.counter.heap_keys();
            assert forall|k: int, i: int| 0 <= k < self.merges@.len() && 0 <= i < k1.len()
                implies (#[trigger] self.merges@[k]).0 != (#[trigger] k1[i]).1 by {
                if keys0.contains(k1[i]) {
                    let x = choose|x: int| 0 <= x < keys0.len() && keys0[x] == k1[i];
                    assert(self.merges@[k].0 != keys0[x].1);
                } else {
                    assert(m0.contains_key(self.merges@[k].0));
                }
            }
            self.lemma_counted();
        }
        true
    }

    /// Chooses the next merge, if the vocabulary is not full and a pair is left: stale entries
    /// are refreshed until the top entry is current; its pair becomes the next token, is merged
    /// in the blocks that its entry lists, and the changes of those blocks come back summed per
    /// pair, to be reduced across peers and committed. The changes listed are exactly how the
    /// peer's weighted pair histogram moved.
    pub fn next_merge(&mut self) -> (r: Option<Vec<PairChange>>)
        requires
            old(self).wf(),
        ensures
            final(self).wf(),
            final(self).blocks_view().len() == old(self).blocks_view().len(),
            final(self).vocab() == old(self).vocab(),
            old(self).exhausted() ==> r is None && final(self).exhausted(),
            final(self).merges_view().len() <= merge_room(final(self).vocab()),
            r is None ==> final(self).merges_view() == old(self).merges_view()
                && final(self).blocks_view() == old(self).blocks_view(),
            r matches Some(changes) ==> unique_pairs(changes@) && forall|p: (u32, u32)| #[trigger] sum_of(changes@, p)
                == weighted_count(final(self).blocks_view(), p, old(self).blocks_view().len() as int)
                - weighted_count(old(self).blocks_view(), p, old(self).blocks_view().len() as int),
            r is Some ==> final(self).merges_view().len() == old(self).merges_view().len() + 1
                && final(self).merges_view().drop_last() == old(self).merges_view(),
            !old(self).exhausted() && old(self).merges_view().len() < merge_room(old(self).vocab()) ==> r is Some,
            final(self).counts_view() == old(self).counts_view(),
            r is Some ==> forall|b: int| 0 <= b < old(self).blocks_view().len() ==> {
                let m = final(self).merges_view().last();
                let ids = chosen_hints(old(self).heap_view(), old(self).hints_view(), old(self).counts_view());
                &&& (#[trigger] final(self).blocks_view()[b]).count == old(self).blocks_view()[b].count
                &&& (ids.contains(b as usize) ==> final(self).blocks_view()[b].tokens@
                    == crate::block::merge_seq(old(self).blocks_view()[b].tokens@, m.0.0, m.0.1, m.1))
                &&& (!ids.contains(b as usize) ==> final(self).blocks_view()[b].tokens@ == old(self).blocks_view()[b].tokens@)
            },
            r is Some ==> forall|b: int| 0 <= b < old(self).blocks_view().len() ==> {
                let m = final(self).merges_view().last();
                &&& (#[trigger] final(self).blocks_view()[b]).count == old(self).blocks_view()[b].count
                &&& (final(self).blocks_view()[b].tokens@ == old(self).blocks_view()[b].tokens@
                    || final(self).blocks_view()[b].tokens@ == crate::block::merge_seq(old(self).blocks_view()[b].tokens@, m.0.0, m.0.1, m.1))
            },
            r is Some ==> chosen(old(self).heap_view(), old(self).counts_view()) == Some(final(self).merges_view().last().0)
                && final(self).merges_view().last().1 == 256 + old(self).merges_view().len(),
            merges_ok(final(self).merges_view()),
            counted_below(final(self).counts_view(), final(self).heap_view(), 256 + final(self).merges_view().len() as int),
            r is Some ==> final(self).heap_view() == settled_keys(old(self).heap_view(), old(self).counts_view())
                && final(self).hints_view() == settled_hints(old(self).heap_view(), old(self).hints_view(), old(self).counts_view()),
            r is Some && covers(old(self).heap_view(), old(self).counts_view())
                ==> covers_except(final(self).heap_view(), final(self).counts_view(), final(self).merges_view().last().0),
            r is None ==> final(self).heap_view() == old(self).heap_view() && final(self).hints_view() == old(self).hints_view(),
            r is None && covers(old(self).heap_view(), old(self).counts_view())
                && old(self).merges_view().len() < merge_room(old(self).vocab())
                ==> forall|q: (u32, u32)| #[trigger] old(self).counts_view().contains_key(q) ==> old(self).counts_view()[q] <= 0,
            r is Some && covers(old(self).heap_view(), old(self).counts_view()) ==> {
                let p = final(self).merges_view().last().0;
                let c = old(self).counts_view();
                &&& c.contains_key(p)
                &&& forall|q: (u32, u32)| #[trigger] c.contains_key(q) && c[q] > 0
                    ==> c[q] < c[p] || (c[q] == c[p] && crate::bpe::lex_le(p, q))
            },
    {
        if self.current >= self.vocab_size {
            proof {
                self.lemma_counted();
            }
            return None;
        }
        let ghost was_exhausted = old(self).exhausted();
        loop
            invariant
                self.wf(),
                was_exhausted == old(self).exhausted(),
                was_exhausted ==> self.exhausted(),
                was_exhausted ==> self.counter.heap_keys() == old(self).counter.heap_keys()
                    && self.counter.heap_hints() == old(self).counter.heap_hints(),
                self.merges@ == old(self).merges@,
                self.current == old(self).current,
                self.current < self.vocab_size,
                self.vocab_size == old(self).vocab_size,
                self.blocks@ == old(self).blocks@,
                !was_exhausted ==> self.counter.heap_keys().len() > 0,
                self.counter.counts() == old(self).counter.counts(),
                chosen(self.counter.heap_keys(), self.counter.counts()) == chosen(old(self).counter.heap_keys(), old(self).counter.counts()),
                settled_keys(self.counter.heap_keys(), self.counter.counts()) == settled_keys(old(self).counter.heap_keys(), old(self).counter.counts()),
                settled_hints(self.counter.heap_keys(), self.counter.heap_hints(), self.counter.counts())
                    == settled_hints(old(self).counter.heap_keys(), old(self).counter.heap_hints(), old(self).counter.counts()),
                chosen_hints(self.counter.heap_keys(), self.counter.heap_hints(), self.counter.counts())
                    == chosen_hints(old(self).counter.heap_keys(), old(self).counter.heap_hints(), old(self).counter.counts()),
                covers(old(self).counter.heap_keys(), old(self).counter.counts()) ==> covers(self.counter.heap_keys(), self.counter.counts()),
            decreases stale_count(self.counter.heap_keys(), self.counter.counts()),
        {
            let ghost h0 = self.counter.heap_keys();
            let ghost hh0 = self.counter.heap_hints();
            let popped = self.counter.pop();
            let pair = match popped {
                Some(p) => p,
                None => {
                    proof {
                        self.lemma_counted();
                    }
                    return None;
                },
            };
            assert(h0.len() > 0);
            assert(!was_exhausted);
            if self.counter.is_stale(&pair) {
                let ghost h1 = self.counter.heap_keys();
                self.counter.update_count_and_push(pair);
                proof {
                    let cs = self.counter.counts();
                    assert(h1 == h0.drop_last());
                    assert(self.counter.heap_keys() == refreshed(h0, cs));
                    assert(self.counter.heap_hints() == hh0.drop_last().insert(
                        insert_pos(h0.drop_last(), (cs[h0.last().1], h0.last().1)), hh0.last()));
                    if covers(h0, cs) {
                        lemma_refresh_covers(h0, cs);
                    }
                }
            } else {
                proof {
                    let cs = self.counter.counts();
                    assert(chosen(h0, cs) == Some(pair.vals));
                    assert(settled_keys(h0, cs) == self.counter.heap_keys());
                    assert(settled_hints(h0, hh0, cs) == self.counter.heap_hints());
                    if covers(h0, cs) {
                        assert forall|q: (u32, u32)| #[trigger] cs.contains_key(q) && cs[q] > 0 && q != pair.vals
                            implies exists|j: int| 0 <= j < self.counter.heap_keys().len()
                                && self.counter.heap_keys()[j].1 == q && self.counter.heap_keys()[j].0 >= cs[q] by {
                            let j = choose|j: int| 0 <= j < h0.len() && h0[j].1 == q && h0[j].0 >= cs[q];
                            assert(j != h0.len() - 1);
                            assert(self.counter.heap_keys()[j] == h0[j]);
                        }
                    }
                    assert(chosen_hints(h0, hh0, cs) == pair.block_ids@);
                    if covers(h0, cs) {
                        assert forall|q: (u32, u32)| #[trigger] cs.contains_key(q) && cs[q] > 0
                            implies cs[q] < cs[pair.vals] || (cs[q] == cs[pair.vals] && crate::bpe::lex_le(pair.vals, q)) by {
                            let j = choose|j: int| 0 <= j < h0.len() && h0[j].1 == q && h0[j].0 >= cs[q];
                            assert(pops_before(key_of(pair), h0[j]));
                        }
                    }
                }
                let (left, right) = pair.vals;
                let new = self.current;
                self.merges.push((pair.vals, new));
                let ghost merges1 = self.merges@;
                let ghost counter1 = self.counter;

                let mut changes: Vec<PairChange> = Vec::new();
                let mut i: usize = 0;
                let n = self.blocks.len();
                let ghost blocks0 = self.blocks@;
                proof {
                    assert forall|b: int| 0 <= b < n implies (#[trigger] blocks0[b]).count >= 1 by {
                        assert(self.blocks@[b].count >= 1);
                    }
                    assert forall|p: (u32, u32)| #[trigger] sum_of(changes@, p)
                        == weighted_count(self.blocks@, p, n as int) - weighted_count(blocks0, p, n as int) by {
                    }
                }
                let mut merged: Vec<bool> = Vec::new();
                let mut z: usize = 0;
                while z < n
                    invariant
                        z <= n,
                        merged@.len() == z,
                        forall|b: int| 0 <= b < z ==> !(#[trigger] merged@[b]),
                    decreases n - z,
                {
                    merged.push(false);
                    z = z + 1;
                }
                while i < pair.block_ids.len()
                    invariant
                        merged@.len() == n,
                        i <= pair.block_ids@.len(),
                        forall|b: int| 0 <= b < n ==> (#[trigger] merged@[b] <==> pair.block_ids@.subrange(0, i as int).contains(b as usize)),
                        forall|b: int| 0 <= b < n ==> (#[trigger] self.blocks@[b]).count == blocks0[b].count
                            && (if merged@[b] {
                                self.blocks@[b].tokens@ == crate::block::merge_seq(blocks0[b].tokens@, left, right, new)
                            } else {
                                self.blocks@[b].tokens@ == blocks0[b].tokens@
                            }),
                        pair.vals == (left, right),
                        !was_exhausted,
                        was_exhausted == old(self).exhausted(),
                        self.blocks@.len() == n,
                        self.merges@ == merges1,
                        merges1 == old(self).merges@.push((pair.vals, new)),
                        self.current == new,
                        new == old(self).current,
                        self.vocab_size == old(self).vocab_size,
                        new < self.vocab_size,
                        self.counter == counter1,
                        counter1.wf(),
                        unique_pairs(changes@),
                        blocks0 == old(self).blocks@,
                        blocks0.len() == n,
                        forall|b: int| 0 <= b < n ==> (#[trigger] blocks0[b]).count >= 1,
                        total_weight(blocks0, n as int) <= i64::MAX,
                        total_weight(self.blocks@, n as int) <= total_weight(blocks0, n as int),
                        forall|p: (u32, u32)| #[trigger] sum_of(changes@, p)
                            == weighted_count(self.blocks@, p, n as int) - weighted_count(blocks0, p, n as int),
                        forall|b: int| 0 <= b < n ==> (#[trigger] self.blocks@[b]).count >= 1
                            && self.blocks@[b].count * (self.blocks@[b].tokens@.len() + 5) <= i64::MAX,
                    decreases pair.block_ids@.len() - i,
                {
                    let id = pair.block_ids[i];
                    let ghost merged0 = merged@;
                    let ghost sub0 = pair.block_ids@.subrange(0, i as int);
                    let ghost sub1 = pair.block_ids@.subrange(0, i as int + 1);
                    proof {
                        assert(sub1 =~= sub0.push(id));
                        assert forall|b: int| 0 <= b < n implies (#[trigger] sub1.contains(b as usize) <==> (sub0.contains(b as usize) || b == id as int)) by {
                            if sub1.contains(b as usize) && b != id as int {
                                let k = choose|k: int| 0 <= k < sub1.len() && sub1[k] == b as usize;
                                assert(sub0[k] == b as usize);
                            }
                            if sub0.contains(b as usize) {
                                let k = choose|k: int| 0 <= k < sub0.len() && sub0[k] == b as usize;
                                assert(sub1[k] == b as usize);
                            }
                            if b == id as int {
                                assert(sub1[i as int] == id);
                            }
                        }
                    }
                    if id < self.blocks.len() && !merged[id] {
                        proof {
                            lemma_merge_seq_len(self.blocks@[id as int].tokens@, left, right, new);
                            let c = self.blocks@[id as int].count as int;
                            let l1 = self.blocks@[id as int].tokens@.len() as int;
                            let l2 = crate::block::merge_seq(self.blocks@[id as int].tokens@, left, right, new).len() as int;
                            assert(c * (l2 + 5) <= c * (l1 + 5)) by (nonlinear_arith)
                                requires c >= 1, l2 <= l1;
                        }
                        let ghost before = self.blocks@;
                        let more = self.blocks[id].merge(left, right, new, id);
                        proof {
                            assert(self.blocks@ =~= before.update(id as int, self.blocks@[id as int]));
                            lemma_merge_accounting(before, self.blocks@, blocks0, id as int, changes@, more@);
                            assert forall|b: int| 0 <= b < n implies (#[trigger] self.blocks@[b]).count >= 1
                                && self.blocks@[b].count * (self.blocks@[b].tokens@.len() + 5) <= i64::MAX by {
                                if b != id {
                                    assert(self.blocks@[b] == before[b]);
                                }
                            }
                        }
                        fold_changes_into(&mut changes, &more);
                        merged.set(id, true);
                        proof {
                            assert forall|b: int| 0 <= b < n implies (#[trigger] self.blocks@[b]).count == blocks0[b].count
                                && (if merged@[b] {
                                    self.blocks@[b].tokens@ == crate::block::merge_seq(blocks0[b].tokens@, left, right, new)
                                } else {
                                    self.blocks@[b].tokens@ == blocks0[b].tokens@
                                }) by {
                                if b != id {
                                    assert(self.blocks@[b] == before[b]);
                                }
                            }
                        }
                    }
                    i = i + 1;
                }
                proof {
                    assert(pair.block_ids@.subrange(0, i as int) =~= pair.block_ids@);
                }
                self.current = self.current + 1;
                proof {
                    assert(self.merges@.drop_last() =~= old(self).merges@);
                    self.lemma_counted();
                }
                return Some(changes);
            }
        }
    }

    /// The merges chosen, in order, and the blocks as the merges left them.
    pub fn into_parts(self) -> (r: (Vec<((u32, u32), u32)>, Vec<Block>))
        requires
            self.wf(),
        ensures
            r.0@ == self.merges_view(),
            r.1@ == self.blocks_view(),
            r.0@.len() <= merge_room(self.vocab()),
            forall|k: int| 0 <= k < r.0@.len() ==> (#[trigger] r.0@[k]).1 == 256 + k,
            merges_ok(r.0@),
    {
        (self.merges, self.blocks)
    }

    /// The merges chosen, in order: the `k`-th made token `256 + k`.
    pub fn into_merges(self) -> (r: Vec<((u32, u32), u32)>)
        requires
            self.wf(),
        ensures
            r@ == self.merges_view(),
            forall|k: int| 0 <= k < r@.len() ==> (#[trigger] r@[k]).1 == 256 + k,
            merges_ok(r@),
    {
        self.merges
    }
}

} // verus!

verus! {


/// Each block is counted at least once and short enough for its changes to fit in `i64`, and
/// all of them together, weighted by their counts, fit too.
pub open spec fn weights_fit(blocks: Seq<Block>) -> bool {
    &&& forall|b: int| 0 <= b < blocks.len() ==> (#[trigger] blocks[b]).count >= 1
        && blocks[b].count * (blocks[b].tokens@.len() + 5) <= i64::MAX
    &&& total_weight(blocks, blocks.len() as int) <= i64::MAX
}

/// Whether the blocks can be trained on.
pub fn fits_weights(blocks: &Vec<Block>) -> (r: bool)
    ensures
        r == weights_fit(blocks@),
{
    let mut total: i64 = 0;
    let mut b: usize = 0;
    while b < blocks.len()
        invariant
            b <= blocks@.len(),
            total as int == total_weight(blocks@, b as int),
            0 <= total,
            forall|c: int| 0 <= c < b ==> (#[trigger] blocks@[c]).count >= 1
                && blocks@[c].count * (blocks@[c].tokens@.len() + 5) <= i64::MAX,
        decreases blocks@.len() - b,
    {
        let c = blocks[b].count;
        let len = blocks[b].tokens.len();
        if c < 1 {
            return false;
        }
        if len as u64 > 0x7fff_ffff_ffff_fffau64 {
            assert((c as int) * (len as int + 5) > i64::MAX) by (nonlinear_arith)
                requires c >= 1, len as int > 0x7fff_ffff_ffff_fffa as int;
            return false;
        }
        assert((c as int) * (len as int + 5) <= (0x8000_0000_0000_0000 as int) * (0x8000_0000_0000_0000 as int)) by (nonlinear_arith)
            requires 1 <= c as int <= 0x7fff_ffff_ffff_ffff as int, 0 <= len as int, len as int + 5 <= 0x8000_0000_0000_0000 as int;
        let prod: i128 = (c as i128) * (len as i128 + 5);
        if prod > 0x7fff_ffff_ffff_ffff {
            return false;
        }
        assert((c as int) * (len as int) <= (c as int) * (len as int + 5)) by (nonlinear_arith)
            requires c >= 1, len >= 0;
        assert((c as int) * (len as int) >= 0) by (nonlinear_arith)
            requires c >= 1, len >= 0;
        let weight: i64 = (c as i128 * len as i128) as i64;
        if total > 0x7fff_ffff_ffff_ffff - weight {
            proof {
                if weights_fit(blocks@) {
                    lemma_weighted_bounds(blocks@, (0, 0), blocks@.len() as int);
                    assert(total_weight(blocks@, b + 1) <= total_weight(blocks@, blocks@.len() as int));
                }
            }
            return false;
        }
        total = total + weight;
        b = b + 1;
    }
    true
}

/// The blocks of a peer, one per distinct byte string with the number of times it was seen.
pub fn blocks_from_counts(counts: &Vec<(Vec<u8>, i64)>) -> (r: Vec<Block>)
    ensures
        r@.len() == counts@.len(),
        forall|b: int| 0 <= b < r@.len() ==> (#[trigger] r@[b]).count == counts@[b].1
            && r@[b].tokens@.len() == counts@[b].0@.len()
            && forall|i: int| 0 <= i < counts@[b].0@.len() ==> r@[b].tokens@[i] == counts@[b].0@[i] as u32,
{
    let mut r: Vec<Block> = Vec::new();
    let mut b: usize = 0;
    while b < counts.len()
        invariant
            b <= counts@.len(),
            r@.len() == b,
            forall|c: int| 0 <= c < b ==> (#[trigger] r@[c]).count == counts@[c].1
                && r@[c].tokens@.len() == counts@[c].0@.len()
                && forall|i: int| 0 <= i < counts@[c].0@.len() ==> r@[c].tokens@[i] == counts@[c].0@[i] as u32,
        decreases counts@.len() - b,
    {
        r.push(Block::new(counts[b].0.as_slice(), counts[b].1));
        b = b + 1;
    }
    r
}

pub proof fn lemma_weighted_update(bs: Seq<Block>, nb: Block, id: int, p: (u32, u32), n: int)
    requires
        0 <= id < n <= bs.len(),
        nb.count == bs[id].count,
    ensures
        weighted_count(bs.update(id, nb), p, n) == weighted_count(bs, p, n)
            + nb.count * (pair_count(nb.tokens@, p) - pair_count(bs[id].tokens@, p)),
        total_weight(bs.update(id, nb), n) == total_weight(bs, n) + nb.count * (nb.tokens@.len() - bs[id].tokens@.len()),
    decreases n,
{
    let c = nb.count as int;
    if n - 1 > id {
        lemma_weighted_update(bs, nb, id, p, n - 1);
    } else {
        lemma_weighted_same(bs, bs.update(id, nb), p, id);
    }
    let x = pair_count(nb.tokens@, p);
    let y = pair_count(bs[id].tokens@, p);
    assert(c * x == c * y + c * (x - y)) by (nonlinear_arith);
    let l1 = nb.tokens@.len() as int;
    let l0 = bs[id].tokens@.len() as int;
    assert(c * l1 == c * l0 + c * (l1 - l0)) by (nonlinear_arith);
}

proof fn lemma_weighted_same(a: Seq<Block>, b: Seq<Block>, p: (u32, u32), n: int)
    requires
        0 <= n <= a.len(),
        n <= b.len(),
        forall|k: int| 0 <= k < n ==> #[trigger] b[k] == a[k],
    ensures
        weighted_count(a, p, n) == weighted_count(b, p, n),
        total_weight(a, n) == total_weight(b, n),
    decreases n,
{
    if n > 0 {
        lemma_weighted_same(a, b, p, n - 1);
    }
}

/// Merging one block and folding its changes keeps the running changes equal to the weighted
/// pair histogram's difference, within the bounds that the fold needs.
proof fn lemma_merge_accounting(
    before: Seq<Block>,
    after: Seq<Block>,
    blocks0: Seq<Block>,
    id: int,
    changes: Seq<PairChange>,
    more: Seq<PairChange>,
)
    requires
        0 <= id < before.len(),
        after.len() == before.len(),
        blocks0.len() == before.len(),
        after == before.update(id, after[id]),
        after[id].count == before[id].count,
        forall|b: int| 0 <= b < after.len() ==> (#[trigger] after[b]).count >= 1,
        forall|b: int| 0 <= b < blocks0.len() ==> (#[trigger] blocks0[b]).count >= 1,
        after[id].tokens@.len() <= before[id].tokens@.len(),
        total_weight(blocks0, blocks0.len() as int) <= i64::MAX,
        total_weight(before, before.len() as int) <= total_weight(blocks0, blocks0.len() as int),
        forall|p: (u32, u32)| #[trigger] sum_of(changes, p)
            == weighted_count(before, p, before.len() as int) - weighted_count(blocks0, p, blocks0.len() as int),
        unique_pairs(more),
        forall|j: int| 0 <= j < more.len() ==> (#[trigger] more[j]).delta
            == before[id].count * (pair_count(after[id].tokens@, more[j].pair) - pair_count(before[id].tokens@, more[j].pair)),
        forall|q: (u32, u32)| (forall|j: int| 0 <= j < more.len() ==> (#[trigger] more[j]).pair != q)
            ==> pair_count(after[id].tokens@, q) == pair_count(before[id].tokens@, q),
    ensures
        forall|p: (u32, u32)| i64::MIN <= #[trigger] sum_of(changes, p) + sum_of(more, p) <= i64::MAX,
        forall|p: (u32, u32)| #[trigger] sum_of(changes, p) + sum_of(more, p)
            == weighted_count(after, p, after.len() as int) - weighted_count(blocks0, p, blocks0.len() as int),
        total_weight(after, after.len() as int) <= total_weight(blocks0, blocks0.len() as int),
{
    let n = before.len() as int;
    let c = before[id].count as int;
    let l1 = after[id].tokens@.len() as int;
    let l0 = before[id].tokens@.len() as int;
    lemma_weighted_update(before, after[id], id, (0, 0), n);
    assert(c * (l1 - l0) <= 0) by (nonlinear_arith)
        requires c >= 1, l1 <= l0;
    assert forall|p: (u32, u32)| #[trigger] sum_of(changes, p) + sum_of(more, p)
        == weighted_count(after, p, n) - weighted_count(blocks0, p, n) by {
        lemma_weighted_update(before, after[id], id, p, n);
        if exists|j: int| 0 <= j < more.len() && more[j].pair == p {
            let j = choose|j: int| 0 <= j < more.len() && more[j].pair == p;
            lemma_sum_of_unique(more, j);
        } else {
            assert forall|j: int| 0 <= j < more.len() implies (#[trigger] more[j]).pair != p by {}
            lemma_sum_of_absent(more, p);
            let d = pair_count(after[id].tokens@, p) - pair_count(before[id].tokens@, p);
            assert(d == 0);
            assert(c * d == 0) by (nonlinear_arith)
                requires d == 0;
        }
    }
    assert forall|p: (u32, u32)| i64::MIN <= #[trigger] sum_of(changes, p) + sum_of(more, p) <= i64::MAX by {
        lemma_weighted_bounds(after, p, n);
        lemma_weighted_bounds(blocks0, p, n);
    }
}

/// A merge step keeps the counts equal to the weighted pair histogram: if the counts hold the
/// histogram of the blocks before the step, then committing the changes that `next_merge`
/// returns (each pair once, each the histogram's move) leaves them holding the histogram of the
/// blocks after it.
pub proof fn lemma_step_tracks_histogram(
    counts: Map<(u32, u32), i64>,
    changes: Seq<PairChange>,
    before: Seq<Block>,
    after: Seq<Block>,
)
    requires
        before.len() == after.len(),
        forall|b: int| 0 <= b < before.len() ==> (#[trigger] before[b]).count >= 1,
        forall|b: int| 0 <= b < after.len() ==> (#[trigger] after[b]).count >= 1,
        total_weight(before, before.len() as int) <= i64::MAX,
        total_weight(after, after.len() as int) <= i64::MAX,
        forall|p: (u32, u32)| #[trigger] held(counts, p) == weighted_count(before, p, before.len() as int),
        unique_pairs(changes),
        forall|p: (u32, u32)| #[trigger] sum_of(changes, p)
            == weighted_count(after, p, after.len() as int) - weighted_count(before, p, before.len() as int),
    ensures
        forall|p: (u32, u32)| #[trigger] held(apply_changes(counts, changes), p) == weighted_count(after, p, after.len() as int),
{
    let n = before.len() as int;
    let bf = |p: (u32, u32)| weighted_count(before, p, n);
    let af = |p: (u32, u32)| weighted_count(after, p, n);
    assert forall|p: (u32, u32)| 0 <= #[trigger] bf(p) <= i64::MAX by {
        lemma_weighted_bounds(before, p, n);
    }
    assert forall|p: (u32, u32)| 0 <= #[trigger] af(p) <= i64::MAX by {
        lemma_weighted_bounds(after, p, n);
    }
    assert forall|j: int| 0 <= j < changes.len() implies (#[trigger] changes[j]).delta == af(changes[j].pair) - bf(changes[j].pair) by {
        lemma_sum_of_unique(changes, j);
        assert(sum_of(changes, changes[j].pair) == af(changes[j].pair) - bf(changes[j].pair));
    }
    assert forall|p: (u32, u32)| (forall|j: int| 0 <= j < changes.len() ==> (#[trigger] changes[j]).pair != p)
        implies #[trigger] af(p) == bf(p) by {
        lemma_sum_of_absent(changes, p);
        assert(sum_of(changes, p) == af(p) - bf(p));
    }
    assert forall|p: (u32, u32)| #[trigger] held(counts, p) == bf(p) by {}
    lemma_commit_tracks_histogram(counts, changes, bf, af);
}

proof fn lemma_refresh_covers(keys: Seq<(i64, (u32, u32))>, counts: Map<(u32, u32), i64>)
    requires
        keys.len() > 0,
        covers(keys, counts),
    ensures
        covers(refreshed(keys, counts), counts),
{
    let k2 = keys.drop_last();
    let f = (counts[keys.last().1], keys.last().1);
    let pos = insert_pos(k2, f);
    lemma_insert_pos_bound(k2, f);
    let r = refreshed(keys, counts);
    assert forall|q: (u32, u32)| #[trigger] counts.contains_key(q) && counts[q] > 0
        implies exists|j: int| 0 <= j < r.len() && r[j].1 == q && r[j].0 >= counts[q] by {
        let j = choose|j: int| 0 <= j < keys.len() && keys[j].1 == q && keys[j].0 >= counts[q];
        if j == keys.len() - 1 {
            assert(r[pos] == f);
        } else if j < pos {
            assert(r[j] == keys[j]);
        } else {
            assert(r[j + 1] == keys[j]);
        }
    }
}

/// Whether the byte string `v` is among the counted ones.
pub open spec fn listed(r: Seq<(Vec<u8>, i64)>, v: Seq<u8>) -> bool {
    exists|i: int| 0 <= i < r.len() && (#[trigger] r[i]).0@ == v
}

/// How many of the strings equal `x`.
pub open spec fn occurrences_of(strings: Seq<Seq<u8>>, x: Seq<u8>) -> int
    decreases strings.len(),
{
    if strings.len() == 0 {
        0
    } else {
        occurrences_of(strings.drop_last(), x) + (if strings.last() == x { 1int } else { 0int })
    }
}

/// The views of a list of byte vectors.
pub open spec fn byte_views(vs: Seq<Vec<u8>>) -> Seq<Seq<u8>> {
    vs.map_values(|v: Vec<u8>| v@)
}

fn same_bytes(a: &Vec<u8>, b: &Vec<u8>) -> (r: bool)
    ensures
        r == (a@ == b@),
{
    if a.len() != b.len() {
        return false;
    }
    let mut i: usize = 0;
    while i < a.len()
        invariant
            a@.len() == b@.len(),
            i <= a@.len(),
            forall|k: int| 0 <= k < i ==> a@[k] == b@[k],
        decreases a@.len() - i,
    {
        if a[i] != b[i] {
            return false;
        }
        i = i + 1;
    }
    assert(a@ =~= b@);
    true
}

/// Counts equal strings: each distinct string once, in order of first appearance, with the
/// number of times it occurs.
pub fn count_blocks(strings: &Vec<Vec<u8>>) -> (r: Vec<(Vec<u8>, i64)>)
    requires
        strings@.len() <= i64::MAX,
    ensures
        forall|i: int, j: int| 0 <= i < j < r@.len() ==> (#[trigger] r@[i]).0@ != (#[trigger] r@[j]).0@,
        forall|i: int| 0 <= i < r@.len() ==> (#[trigger] r@[i]).1 == occurrences_of(byte_views(strings@), r@[i].0@)
            && r@[i].1 >= 1,
        forall|x: int| 0 <= x < strings@.len() ==> #[trigger] listed(r@, strings@[x]@),
{
    let ghost sv = byte_views(strings@);
    let mut r: Vec<(Vec<u8>, i64)> = Vec::new();
    let mut x: usize = 0;
    while x < strings.len()
        invariant
            x <= strings@.len(),
            strings@.len() <= i64::MAX,
            sv == byte_views(strings@),
            forall|i: int, j: int| 0 <= i < j < r@.len() ==> (#[trigger] r@[i]).0@ != (#[trigger] r@[j]).0@,
            forall|i: int| 0 <= i < r@.len() ==> (#[trigger] r@[i]).1 == occurrences_of(sv.subrange(0, x as int), r@[i].0@)
                && r@[i].1 >= 1,
            forall|y: int| 0 <= y < x ==> #[trigger] listed(r@, strings@[y]@),
        decreases strings@.len() - x,
    {
        let s = &strings[x];
        let ghost pre = sv.subrange(0, x as int);
        let ghost pre2 = sv.subrange(0, x as int + 1);
        proof {
            assert(pre2.drop_last() =~= pre);
            assert(pre2.last() == s@);
        }
        let mut i: usize = 0;
        let mut found = false;
        while i < r.len() && !found
            invariant
                i <= r@.len(),
                !found ==> forall|k: int| 0 <= k < i ==> (#[trigger] r@[k]).0@ != s@,
                found ==> i < r@.len() && r@[i as int].0@ == s@,
            decreases r@.len() - i + (if found { 0int } else { 1int }),
        {
            if same_bytes(&r[i].0, s) {
                found = true;
            } else {
                i = i + 1;
            }
        }
        let ghost before = r@;
        proof {
            lemma_occurrences_bound(pre, s@);
        }
        if found {
            let c = r[i].1;
            let v = copy_bytes(&r[i].0);
            r.set(i, (v, c + 1));
        } else {
            let v = copy_bytes(s);
            r.push((v, 1));
        }
        proof {
            if !found {
                if occurrences_of(pre, s@) > 0 {
                    let y = lemma_occurrence_at(pre, s@);
                    assert(strings@[y]@ == pre[y]);
                    assert(listed(before, strings@[y]@));
                    let k = choose|k: int| 0 <= k < before.len() && (#[trigger] before[k]).0@ == strings@[y]@;
                }
            }
            assert forall|a: int| 0 <= a < r@.len() implies (#[trigger] r@[a]).1 == occurrences_of(pre2, r@[a].0@)
                && r@[a].1 >= 1 by {
                assert(occurrences_of(pre2, r@[a].0@) == occurrences_of(pre, r@[a].0@) + (if s@ == r@[a].0@ { 1int } else { 0int }));
                if found && a == i {
                    assert(before[a].0@ == s@);
                } else if a < before.len() {
                    assert(r@[a] == before[a] || (found && a == i));
                    assert(r@[a].0@ == before[a].0@);
                    if found {
                        assert(before[i as int].0@ == s@);
                        if a < i {
                            assert(before[a].0@ != before[i as int].0@);
                        } else {
                            assert(before[i as int].0@ != before[a].0@);
                        }
                    }
                }
            }
            assert forall|a: int, b: int| 0 <= a < b < r@.len() implies (#[trigger] r@[a]).0@ != (#[trigger] r@[b]).0@ by {
                if b < before.len() {
                    assert(r@[a].0@ == before[a].0@ && r@[b].0@ == before[b].0@);
                } else {
                    assert(r@[a].0@ == before[a].0@);
                }
            }
            assert forall|y: int| 0 <= y < x + 1 implies #[trigger] listed(r@, strings@[y]@) by {
                if y < x {
                    assert(listed(before, strings@[y]@));
                    let k = choose|k: int| 0 <= k < before.len() && (#[trigger] before[k]).0@ == strings@[y]@;
                    assert(r@[k].0@ == before[k].0@);
                } else if found {
                    assert(r@[i as int].0@ == strings@[y]@);
                } else {
                    assert(r@[before.len() as int].0@ == strings@[y]@);
                }
            }
        }
        x = x + 1;
    }
    proof {
        assert(x == strings@.len());
        assert(sv.subrange(0, x as int) =~= sv);
        assert forall|i: int| 0 <= i < r@.len() implies (#[trigger] r@[i]).1 == occurrences_of(byte_views(strings@), r@[i].0@)
            && r@[i].1 >= 1 by {
            assert(r@[i].1 == occurrences_of(sv.subrange(0, x as int), r@[i].0@));
        }

    }
    r
}

proof fn lemma_occurrence_at(s: Seq<Seq<u8>>, x: Seq<u8>) -> (y: int)
    requires
        occurrences_of(s, x) > 0,
    ensures
        0 <= y < s.len() && s[y] == x,
    decreases s.len(),
{
    if s.last() == x {
        s.len() - 1
    } else {
        let y = lemma_occurrence_at(s.drop_last(), x);
        y
    }
}

proof fn lemma_occurrences_bound(s: Seq<Seq<u8>>, x: Seq<u8>)
    ensures
        0 <= occurrences_of(s, x) <= s.len(),
    decreases s.len(),
{
    if s.len() > 0 {
        lemma_occurrences_bound(s.drop_last(), x);
    }
}

fn copy_bytes(v: &Vec<u8>) -> (r: Vec<u8>)
    ensures
        r@ == v@,
{
    let mut r: Vec<u8> = Vec::new();
    let mut i: usize = 0;
    while i < v.len()
        invariant
            i <= v@.len(),
            r@ == v@.subrange(0, i as int),
        decreases v@.len() - i,
    {
        r.push(v[i]);
        i = i + 1;
        proof {
            assert(r@ =~= v@.subrange(0, i as int));
        }
    }
    proof {
        assert(v@.subrange(0, v@.len() as int) =~= v@);
    }
    r
}

proof fn lemma_rules_from(m: Seq<((u32, u32), u32)>, n: int)
    requires
        merges_ok(m),
        0 <= n <= m.len(),
    ensures
        forall|p: (u32, u32)| #[trigger] crate::pairs::rules_map(m, n).contains_key(p)
            ==> exists|k: int| 0 <= k < n && m[k].0 == p && crate::pairs::rules_map(m, n)[p] == m[k].1,
    decreases n,
{
    if n > 0 {
        lemma_rules_from(m, n - 1);
        let r = crate::pairs::rules_map(m, n);
        assert forall|p: (u32, u32)| #[trigger] r.contains_key(p)
            implies exists|k: int| 0 <= k < n && m[k].0 == p && r[p] == m[k].1 by {
            if p != m[n - 1].0 {
                assert(crate::pairs::rules_map(m, n - 1).contains_key(p));
                let k = choose|k: int| 0 <= k < n - 1 && m[k].0 == p && crate::pairs::rules_map(m, n - 1)[p] == m[k].1;
            }
        }
    }
}

/// A merge list that training produces can be read backwards: each rule makes a later token from
/// earlier ones, and no token is made twice. So tokens encoded with it expand back to their bytes.
pub proof fn lemma_trained_table_ok(m: Seq<((u32, u32), u32)>)
    requires
        merges_ok(m),
    ensures
        crate::encode::table_ok(crate::pairs::rules_map(m, m.len() as int)),
{
    let r = crate::pairs::rules_map(m, m.len() as int);
    lemma_rules_from(m, m.len() as int);
    assert forall|p: (u32, u32)| #[trigger] r.contains_key(p) implies r[p] >= 256 && p.0 < r[p] && p.1 < r[p] by {
        let k = choose|k: int| 0 <= k < m.len() && m[k].0 == p && r[p] == m[k].1;
        assert(m[k].1 == 256 + k);
    }
    assert forall|p: (u32, u32), q: (u32, u32)| #[trigger] r.contains_key(p) && #[trigger] r.contains_key(q)
        && r[p] == r[q] implies p == q by {
        let k = choose|k: int| 0 <= k < m.len() && m[k].0 == p && r[p] == m[k].1;
        let j = choose|j: int| 0 <= j < m.len() && m[j].0 == q && r[q] == m[j].1;
        assert(m[k].1 == 256 + k && m[j].1 == 256 + j);
    }
}

} // verus!
