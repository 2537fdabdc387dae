use vstd::prelude::*;
use crate::block::{Block, copy_tokens, pair_count, merge_seq, lemma_merge_seq_len};
use crate::train::{local_pair_counts, entry_ok, lemma_weighted_zero, total_weight, weighted_count};
use crate::trainer::{merge_room, lemma_weighted_update};

verus! {

/// The number of tokens in the first `n` blocks.
pub open spec fn total_len(blocks: Seq<Vec<u32>>, n: int) -> int
    decreases n,
{
    if n <= 0 {
        0
    } else {
        total_len(blocks, n - 1) + blocks[n - 1]@.len()
    }
}

/// The token lists as blocks, each counted once.
pub fn unit_blocks(blocks: &Vec<Vec<u32>>) -> (bs: Vec<Block>)
    requires
        total_len(blocks@, blocks@.len() as int) + 5 <= i64::MAX,
    ensures
        bs@.len() == blocks@.len(),
        forall|c: int| 0 <= c < bs@.len() ==> (#[trigger] bs@[c]).count == 1 && bs@[c].tokens@ == blocks@[c]@,
        total_weight(bs@, bs@.len() as int) == total_len(blocks@, blocks@.len() as int),
{
    let mut bs: Vec<Block> = Vec::new();
    let mut b: usize = 0;
    proof {
        lemma_total_len_mono(blocks@, blocks@.len() as int);
    }
    while b < blocks.len()
        invariant
            b <= blocks@.len(),
            bs@.len() == b,
            total_len(blocks@, blocks@.len() as int) + 5 <= i64::MAX,
            forall|c: int| 0 <= c < b ==> (#[trigger] bs@[c]).count == 1 && bs@[c].tokens@ == blocks@[c]@,
            total_weight(bs@, b as int) == total_len(blocks@, b as int),
            forall|m: int| 0 <= m <= blocks@.len() ==> #[trigger] total_len(blocks@, m) <= total_len(blocks@, blocks@.len() as int),
        decreases blocks@.len() - b,
    {
        let tokens = copy_tokens(&blocks[b]);
        let ghost before = bs@;
        bs.push(Block { tokens, count: 1 });
        b = b + 1;
        proof {
            assert(bs@.drop_last() == before);
            assert(total_weight(bs@, b - 1) == total_len(blocks@, b - 1)) by {
                lemma_weight_prefix(bs@, b - 1);
            }
            assert(bs@[b - 1].count * bs@[b - 1].tokens@.len() == blocks@[b - 1]@.len());
        }
    }
    bs
}

/// The token lists of the blocks.
pub open spec fn token_lists(bs: Seq<Block>) -> Seq<Seq<u32>> {
    bs.map_values(|b: Block| b.tokens@)
}

/// The views of a list of token vectors.
pub open spec fn vec_views(vs: Seq<Vec<u32>>) -> Seq<Seq<u32>> {
    vs.map_values(|v: Vec<u32>| v@)
}

/// How many times pair `q` occurs over all the token lists.
pub open spec fn hist(ts: Seq<Seq<u32>>, q: (u32, u32)) -> int
    decreases ts.len(),
{
    if ts.len() == 0 {
        0
    } else {
        hist(ts.drop_last(), q) + pair_count(ts.last(), q)
    }
}

/// The lexicographic order on pairs.
pub open spec fn lex_le(a: (u32, u32), b: (u32, u32)) -> bool {
    a.0 < b.0 || (a.0 == b.0 && a.1 <= b.1)
}

/// Whether `q` is the pair to merge next: it occurs, no pair occurs more often, and no pair that
/// occurs as often is smaller.
pub open spec fn is_best(ts: Seq<Seq<u32>>, q: (u32, u32)) -> bool {
    &&& hist(ts, q) > 0
    &&& forall|r: (u32, u32)| #[trigger] hist(ts, r) > 0 ==> hist(ts, r) < hist(ts, q)
        || (hist(ts, r) == hist(ts, q) && lex_le(q, r))
}

/// Every token list with pair `q` merged into `t`.
pub open spec fn apply_merge(ts: Seq<Seq<u32>>, q: (u32, u32), t: u32) -> Seq<Seq<u32>> {
    Seq::new(ts.len(), |i: int| merge_seq(ts[i], q.0, q.1, t))
}

/// Training on the token lists with room for `room` merges, the next new token being `t`: while
/// there is room and a pair occurs, the best pair becomes `t` and is merged everywhere. Gives
/// the merges in order and the token lists they leave.
pub open spec fn trained(ts: Seq<Seq<u32>>, room: nat, t: int) -> (Seq<((u32, u32), u32)>, Seq<Seq<u32>>)
    decreases room,
{
    if room == 0 || !(exists|q: (u32, u32)| is_best(ts, q)) {
        (Seq::empty(), ts)
    } else {
        let q = choose|q: (u32, u32)| is_best(ts, q);
        let rest = trained(apply_merge(ts, q, t as u32), (room - 1) as nat, t + 1);
        (seq![(q, t as u32)] + rest.0, rest.1)
    }
}

/// The best pair is unique.
pub proof fn lemma_best_unique(ts: Seq<Seq<u32>>, q1: (u32, u32), q2: (u32, u32))
    requires
        is_best(ts, q1),
        is_best(ts, q2),
    ensures
        q1 == q2,
{
    assert(hist(ts, q1) > 0 && hist(ts, q2) > 0);
}

pub proof fn lemma_hist_weighted(bs: Seq<Block>, q: (u32, u32), n: int)
    requires
        0 <= n <= bs.len(),
        forall|c: int| 0 <= c < bs.len() ==> (#[trigger] bs[c]).count == 1,
    ensures
        weighted_count(bs, q, n) == hist(token_lists(bs).subrange(0, n), q),
    decreases n,
{
    if n > 0 {
        lemma_hist_weighted(bs, q, n - 1);
        assert(token_lists(bs).subrange(0, n).drop_last() =~= token_lists(bs).subrange(0, n - 1));
        assert(bs[n - 1].count * pair_count(bs[n - 1].tokens@, q) == pair_count(bs[n - 1].tokens@, q));
    } else {
        assert(token_lists(bs).subrange(0, n) =~= Seq::<Seq<u32>>::empty());
    }
}

/// The next pair to merge in the blocks, if any pair occurs.
fn best_pair(bs: &Vec<Block>) -> (r: Option<(u32, u32)>)
    requires
        forall|c: int| 0 <= c < bs@.len() ==> (#[trigger] bs@[c]).count == 1,
        total_weight(bs@, bs@.len() as int) <= i64::MAX,
    ensures
        match r {
            Some(q) => is_best(token_lists(bs@), q),
            None => forall|q: (u32, u32)| !is_best(token_lists(bs@), q),
        },
{
    let ghost ts = token_lists(bs@);
    let ghost n = bs@.len() as int;
    let counts = local_pair_counts(bs);
    proof {
        assert(ts.subrange(0, n) =~= ts);
        assert forall|q: (u32, u32)| #[trigger] weighted_count(bs@, q, n) == hist(ts, q) by {
            lemma_hist_weighted(bs@, q, n);
        }
        assert forall|q: (u32, u32)| hist(ts, q) > 0 implies exists|j: int| 0 <= j < counts@.len() && (#[trigger] counts@[j]).pair == q by {
            if !(exists|j: int| 0 <= j < counts@.len() && (#[trigger] counts@[j]).pair == q) {
                assert forall|x: int| 0 <= x < n implies pair_count((#[trigger] bs@[x]).tokens@, q) == 0 by {
                    assert(forall|j: int| 0 <= j < counts@.len() ==> (#[trigger] counts@[j]).pair != q);
                }
                lemma_weighted_zero(bs@, q, n);
                lemma_hist_weighted(bs@, q, n);
            }
        }
    }
    if counts.len() == 0 {
        return None;
    }
    let mut best: usize = 0;
    let mut j: usize = 1;
    while j < counts.len()
        invariant
            1 <= j <= counts@.len(),
            best < j,
            forall|i: int| 0 <= i < j ==> (#[trigger] counts@[i]).delta < counts@[best as int].delta
                || (counts@[i].delta == counts@[best as int].delta && lex_le(counts@[best as int].pair, counts@[i].pair)),
        decreases counts@.len() - j,
    {
        let (a, b) = counts[j].pair;
        let (x, y) = counts[best].pair;
        if counts[j].delta > counts[best].delta
            || (counts[j].delta == counts[best].delta && (a < x || (a == x && b < y))) {
            best = j;
        }
        j = j + 1;
    }
    let q = counts[best].pair;
    proof {
        assert(entry_ok(bs@, counts@[best as int], n, Seq::empty(), 0));
        assert(pair_count(Seq::<u32>::empty(), q) == 0);
        assert forall|r: (u32, u32)| #[trigger] hist(ts, r) > 0 implies hist(ts, r) < hist(ts, q)
            || (hist(ts, r) == hist(ts, q) && lex_le(q, r)) by {
            let i = choose|i: int| 0 <= i < counts@.len() && (#[trigger] counts@[i]).pair == r;
            assert(entry_ok(bs@, counts@[i], n, Seq::empty(), 0));
            assert(pair_count(Seq::<u32>::empty(), r) == 0);
        }
    }
    Some(q)
}

/// Trains merge rules on blocks held by this process alone, each block counted once: while the
/// vocabulary is below `vocab_size` and some pair occurs, the pair that occurs most often (on a
/// tie, the smallest pair) becomes the next token, numbered from 256 on, and is merged in every
/// block. The counts are taken afresh at each step. Returns the merges in order and the blocks
/// as the merges left them.
pub fn bpe(blocks: Vec<Vec<u32>>, vocab_size: u32) -> (r: (Vec<((u32, u32), u32)>, Vec<Vec<u32>>))
    requires
        total_len(blocks@, blocks@.len() as int) + 5 <= i64::MAX,
    ensures
        r.0@ == trained(vec_views(blocks@), merge_room(vocab_size) as nat, 256).0,
        vec_views(r.1@) == trained(vec_views(blocks@), merge_room(vocab_size) as nat, 256).1,
        tokens_below(vec_views(blocks@), 256) ==> forall|k: int| 0 <= k < r.0@.len() ==> {
            let m = #[trigger] r.0@[k];
            &&& m.1 == 256 + k
            &&& m.0.0 < 256 + k
            &&& m.0.1 < 256 + k
        },
        tokens_below(vec_views(blocks@), 256) ==> forall|i: int, j: int| 0 <= i < j < r.0@.len()
            ==> (#[trigger] r.0@[i]).0 != (#[trigger] r.0@[j]).0,
{
    let mut bs = unit_blocks(&blocks);
    let ghost n = blocks@.len() as int;
    let ghost total0 = total_weight(bs@, n);
    let ghost room = merge_room(vocab_size) as nat;
    let ghost goal = trained(vec_views(blocks@), room, 256);
    proof {
        assert(token_lists(bs@) =~= vec_views(blocks@));
        assert forall|c: int| 0 <= c < n implies #[trigger] bs@[c].tokens@.len() + 5 <= i64::MAX by {
            lemma_total_len_part(blocks@, n, c);
        }
    }
    let mut merges: Vec<((u32, u32), u32)> = Vec::new();
    let room_len: usize = if vocab_size >= 256 { (vocab_size - 256) as usize } else { 0 };
    let mut current: u32 = 256;
    let mut done = false;
    while merges.len() < room_len && !done
        invariant
            done ==> trained(token_lists(bs@), (room - merges@.len()) as nat, current as int)
                == (Seq::<((u32, u32), u32)>::empty(), token_lists(bs@)),
            room_len as int == room,
            bs@.len() == n,
            current as int == 256 + merges@.len(),
            merges@.len() <= room,
            room + 256 <= u32::MAX,
            forall|c: int| 0 <= c < n ==> (#[trigger] bs@[c]).count == 1 && bs@[c].tokens@.len() + 5 <= i64::MAX,
            total_weight(bs@, n) <= total0,
            total0 <= i64::MAX,
            goal.0 == merges@ + trained(token_lists(bs@), (room - merges@.len()) as nat, current as int).0,
            goal.1 == trained(token_lists(bs@), (room - merges@.len()) as nat, current as int).1,
        decreases room - merges@.len() + (if done { 0int } else { 1int }),
    {
        let ghost ts = token_lists(bs@);
        let ghost left = (room - merges@.len()) as nat;
        let found = best_pair(&bs);
        if found.is_none() {
            proof {
                assert(trained(ts, left, current as int) == (Seq::<((u32, u32), u32)>::empty(), ts));
            }
            done = true;
            continue;
        }
        let q = found.unwrap();
        proof {
            let c = choose|c: (u32, u32)| is_best(ts, c);
            lemma_best_unique(ts, q, c);
        }
        let ghost before = bs@;
        let mut b: usize = 0;
        while b < bs.len()
            invariant
                bs@.len() == n,
                before.len() == n,
                forall|c: int| 0 <= c < n ==> (#[trigger] before[c]).count == 1 && before[c].tokens@.len() + 5 <= i64::MAX,
                forall|c: int| 0 <= c < n ==> (#[trigger] bs@[c]).count == 1 && bs@[c].tokens@.len() + 5 <= i64::MAX,
                forall|c: int| 0 <= c < b ==> (#[trigger] bs@[c]).tokens@ == merge_seq(before[c].tokens@, q.0, q.1, current),
                forall|c: int| b <= c < n ==> #[trigger] bs@[c] == before[c],
                total_weight(bs@, n) <= total_weight(before, n),
            decreases n - b,
        {
            proof {
                lemma_merge_seq_len(bs@[b as int].tokens@, q.0, q.1, current);
            }
            let ghost pre = bs@;
            let _ = bs[b].merge(q.0, q.1, current, b);
            proof {
                assert(bs@ =~= pre.update(b as int, bs@[b as int]));
                lemma_weighted_update(pre, bs@[b as int], b as int, q, n);
                let c1 = bs@[b as int].tokens@.len() as int;
                let c0 = pre[b as int].tokens@.len() as int;
                assert(1 * (c1 - c0) <= 0);
                assert forall|c: int| 0 <= c < n implies (#[trigger] bs@[c]).count == 1 && bs@[c].tokens@.len() + 5 <= i64::MAX by {
                    if c != b {
                        assert(bs@[c] == pre[c]);
                    }
                }
            }
            b = b + 1;
        }
        proof {
            assert(token_lists(bs@) =~= apply_merge(ts, q, current));
        }
        merges.push((q, current));
        proof {
            assert(merges@ + trained(token_lists(bs@), (left - 1) as nat, current + 1).0
                =~= merges@.drop_last() + (seq![(q, current)] + trained(token_lists(bs@), (left - 1) as nat, current + 1).0));
        }
        current = current + 1;
    }
    proof {
        assert(merges@ + Seq::<((u32, u32), u32)>::empty() =~= merges@);
    }
    let mut out: Vec<Vec<u32>> = Vec::new();
    let mut b: usize = 0;
    while b < bs.len()
        invariant
            b <= bs@.len(),
            out@.len() == b,
            forall|c: int| 0 <= c < b ==> (#[trigger] out@[c])@ == bs@[c].tokens@,
        decreases bs@.len() - b,
    {
        out.push(copy_tokens(&bs[b].tokens));
        b = b + 1;
    }
    proof {
        assert(vec_views(out@) =~= token_lists(bs@));
        if tokens_below(vec_views(blocks@), 256) {
            lemma_trained_merges(vec_views(blocks@), room, 256);
        }
    }
    (merges, out)
}

proof fn lemma_weight_prefix(bs: Seq<Block>, m: int)
    requires
        0 <= m < bs.len(),
    ensures
        total_weight(bs, m) == total_weight(bs.drop_last(), m),
    decreases m,
{
    if m > 0 {
        lemma_weight_prefix(bs, m - 1);
    }
}

proof fn lemma_total_len_mono(blocks: Seq<Vec<u32>>, n: int)
    requires
        0 <= n,
    ensures
        forall|m: int| 0 <= m <= n ==> #[trigger] total_len(blocks, m) <= total_len(blocks, n),
    decreases n,
{
    if n > 0 {
        lemma_total_len_mono(blocks, n - 1);
    }
}

proof fn lemma_total_len_part(blocks: Seq<Vec<u32>>, n: int, c: int)
    requires
        0 <= c < n,
    ensures
        blocks[c]@.len() <= total_len(blocks, n),
{
    lemma_total_len_mono(blocks, n);
    assert(total_len(blocks, c + 1) == total_len(blocks, c) + blocks[c]@.len());
    lemma_total_len_nonneg(blocks, c);
}

proof fn lemma_total_len_nonneg(blocks: Seq<Vec<u32>>, n: int)
    ensures
        total_len(blocks, n) >= 0,
    decreases n,
{
    if n > 0 {
        lemma_total_len_nonneg(blocks, n - 1);
    }
}

/// Every token of the lists lies below `t`.
pub open spec fn tokens_below(ts: Seq<Seq<u32>>, t: int) -> bool {
    forall|b: int, i: int| 0 <= b < ts.len() && 0 <= i < ts[b].len() ==> (#[trigger] ts[b][i]) < t
}

proof fn lemma_hist_nonneg(ts: Seq<Seq<u32>>, q: (u32, u32))
    ensures
        hist(ts, q) >= 0,
    decreases ts.len(),
{
    if ts.len() > 0 {
        lemma_hist_nonneg(ts.drop_last(), q);
        crate::block::lemma_pair_count_bounds(ts.last(), q);
    }
}

proof fn lemma_occurs(s: Seq<u32>, p: (u32, u32)) -> (i: int)
    requires
        pair_count(s, p) > 0,
    ensures
        0 <= i && i + 1 < s.len() && s[i] == p.0 && s[i + 1] == p.1,
    decreases s.len(),
{
    if s[0] == p.0 && s[1] == p.1 {
        0
    } else {
        let i = lemma_occurs(s.drop_first(), p);
        i + 1
    }
}

proof fn lemma_hist_occurs(ts: Seq<Seq<u32>>, q: (u32, u32), t: int)
    requires
        hist(ts, q) > 0,
        tokens_below(ts, t),
    ensures
        q.0 < t && q.1 < t,
    decreases ts.len(),
{
    if pair_count(ts.last(), q) > 0 {
        let i = lemma_occurs(ts.last(), q);
        assert(ts[ts.len() - 1][i] < t && ts[ts.len() - 1][i + 1] < t);
    } else {
        crate::block::lemma_pair_count_bounds(ts.last(), q);
        assert(tokens_below(ts.drop_last(), t)) by {
            assert forall|b: int, i: int| 0 <= b < ts.drop_last().len() && 0 <= i < ts.drop_last()[b].len()
                implies (#[trigger] ts.drop_last()[b][i]) < t by {
                assert(ts.drop_last()[b] == ts[b]);
            }
        }
        lemma_hist_occurs(ts.drop_last(), q, t);
    }
}

proof fn lemma_merge_seq_below(s: Seq<u32>, left: u32, right: u32, new: u32, t: int)
    requires
        forall|i: int| 0 <= i < s.len() ==> (#[trigger] s[i]) < t,
        new < t + 1,
    ensures
        forall|i: int| 0 <= i < merge_seq(s, left, right, new).len() ==> (#[trigger] merge_seq(s, left, right, new)[i]) < t + 1,
    decreases s.len(),
{
    let m = merge_seq(s, left, right, new);
    if s.len() >= 2 && s[0] == left && s[1] == right {
        let rest = s.subrange(2, s.len() as int);
        lemma_merge_seq_below(rest, left, right, new, t);
        assert forall|i: int| 0 <= i < m.len() implies (#[trigger] m[i]) < t + 1 by {
            if i > 0 {
                assert(m[i] == merge_seq(rest, left, right, new)[i - 1]);
            }
        }
    } else if s.len() > 0 {
        let rest = s.drop_first();
        lemma_merge_seq_below(rest, left, right, new, t);
        assert forall|i: int| 0 <= i < m.len() implies (#[trigger] m[i]) < t + 1 by {
            if i > 0 {
                assert(m[i] == merge_seq(rest, left, right, new)[i - 1]);
            }
        }
    }
}

proof fn lemma_apply_merge_hist(ts: Seq<Seq<u32>>, q: (u32, u32), t: u32, p: (u32, u32))
    requires
        t != q.0,
        t != q.1,
        p.0 != t,
        p.1 != t,
    ensures
        hist(apply_merge(ts, q, t), q) == 0,
        hist(apply_merge(ts, q, t), p) <= hist(ts, p),
    decreases ts.len(),
{
    if ts.len() > 0 {
        let a = apply_merge(ts, q, t);
        assert(a.drop_last() =~= apply_merge(ts.drop_last(), q, t));
        lemma_apply_merge_hist(ts.drop_last(), q, t, p);
        crate::block::lemma_merge_seq_clears(ts.last(), q.0, q.1, t);
        crate::block::lemma_merge_seq_no_growth(ts.last(), q.0, q.1, t, p);
    }
}

/// With every token below `t`, training numbers its merges from `t`, builds each merged pair
/// from earlier tokens only, never merges a pair twice, and never merges a pair of earlier
/// tokens that does not occur.
pub proof fn lemma_trained_merges(ts: Seq<Seq<u32>>, room: nat, t: int)
    requires
        tokens_below(ts, t),
        0 <= t,
        t + room <= u32::MAX + 1,
    ensures
        forall|k: int| 0 <= k < trained(ts, room, t).0.len() ==> {
            let m = #[trigger] trained(ts, room, t).0[k];
            &&& m.1 == t + k
            &&& m.0.0 < t + k
            &&& m.0.1 < t + k
        },
        forall|i: int, j: int| 0 <= i < j < trained(ts, room, t).0.len()
            ==> (#[trigger] trained(ts, room, t).0[i]).0 != (#[trigger] trained(ts, room, t).0[j]).0,
        forall|p: (u32, u32), k: int| #![trigger hist(ts, p), trained(ts, room, t).0[k]]
            p.0 < t && p.1 < t && hist(ts, p) == 0 && 0 <= k < trained(ts, room, t).0.len()
            ==> trained(ts, room, t).0[k].0 != p,
    decreases room,
{
    if room == 0 || !(exists|q: (u32, u32)| is_best(ts, q)) {
    } else {
        let q = choose|q: (u32, u32)| is_best(ts, q);
        let nt = t as u32;
        let ts2 = apply_merge(ts, q, nt);
        lemma_hist_occurs(ts, q, t);
        assert(tokens_below(ts2, t + 1)) by {
            assert forall|b: int, i: int| 0 <= b < ts2.len() && 0 <= i < ts2[b].len() implies (#[trigger] ts2[b][i]) < t + 1 by {
                assert forall|x: int| 0 <= x < ts[b].len() implies (#[trigger] ts[b][x]) < t by {
                    assert(ts[b][x] < t);
                }
                lemma_merge_seq_below(ts[b], q.0, q.1, nt, t);
            }
        }
        lemma_trained_merges(ts2, (room - 1) as nat, t + 1);
        let rest = trained(ts2, (room - 1) as nat, t + 1).0;
        let m = trained(ts, room, t).0;
        assert(m == seq![(q, nt)] + rest);
        lemma_apply_merge_hist(ts, q, nt, (0, 0));
        assert forall|k: int| 0 <= k < m.len() implies {
            let e = #[trigger] m[k];
            &&& e.1 == t + k
            &&& e.0.0 < t + k
            &&& e.0.1 < t + k
        } by {
            if k > 0 {
                assert(m[k] == rest[k - 1]);
            }
        }
        assert forall|i: int, j: int| 0 <= i < j < m.len() implies (#[trigger] m[i]).0 != (#[trigger] m[j]).0 by {
            if i == 0 {
                assert(m[j] == rest[j - 1]);
                assert(hist(ts2, q) == 0);
            } else {
                assert(m[i] == rest[i - 1] && m[j] == rest[j - 1]);
            }
        }
        assert forall|p: (u32, u32), k: int| #![trigger hist(ts, p), m[k]]
            p.0 < t && p.1 < t && hist(ts, p) == 0 && 0 <= k < m.len()
            implies m[k].0 != p by {
            if k == 0 {
                assert(hist(ts, q) > 0);
            } else {
                assert(m[k] == rest[k - 1]);
                lemma_apply_merge_hist(ts, q, nt, p);
                lemma_hist_nonneg(ts2, p);
            }
        }
    }
}

} // verus!
