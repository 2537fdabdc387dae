use vstd::prelude::*;
use crate::pairs::{PairMap, combine_u32, split_u64, pair_key, key_pair, lemma_key_pair_round_trip};
use crate::train::{add_clamped, clamp};

verus! {

/// The entries that a gathered buffer holds: each entry is two words, the pair's key and the
/// value's bits.
pub open spec fn decode_words(buf: Seq<u64>) -> Seq<((u32, u32), i64)> {
    Seq::new(buf.len() / 2, |i: int| (key_pair(buf[2 * i]), buf[2 * i + 1] as i64))
}

/// Where pair `p` stands in `s`, if it does.
pub open spec fn index_of_pair(s: Seq<((u32, u32), i64)>, p: (u32, u32)) -> Option<int> {
    if exists|j: int| 0 <= j < s.len() && (#[trigger] s[j]).0 == p {
        Some(choose|j: int| 0 <= j < s.len() && (#[trigger] s[j]).0 == p)
    } else {
        None
    }
}

/// The entries summed per pair, each pair where it first appears.
pub open spec fn reduce_entries(s: Seq<((u32, u32), i64)>) -> Seq<((u32, u32), i64)>
    decreases s.len(),
{
    if s.len() == 0 {
        s
    } else {
        let r = reduce_entries(s.drop_last());
        let e = s.last();
        match index_of_pair(r, e.0) {
            Some(j) => r.update(j, (e.0, clamp(r[j].1 + e.1))),
            None => r.push(e),
        }
    }
}

/// Whether pair `p` appears in `s`.
pub open spec fn has_pair(s: Seq<((u32, u32), i64)>, p: (u32, u32)) -> bool {
    exists|j: int| 0 <= j < s.len() && (#[trigger] s[j]).0 == p
}

/// Each pair of `s` appears once.
pub open spec fn distinct_pairs(s: Seq<((u32, u32), i64)>) -> bool {
    forall|i: int, j: int| 0 <= i < j < s.len() ==> (#[trigger] s[i]).0 != (#[trigger] s[j]).0
}

proof fn lemma_index_unique(s: Seq<((u32, u32), i64)>, p: (u32, u32), j: int)
    requires
        distinct_pairs(s),
        0 <= j < s.len(),
        s[j].0 == p,
    ensures
        index_of_pair(s, p) == Some(j),
{
    let k = choose|k: int| 0 <= k < s.len() && (#[trigger] s[k]).0 == p;
    if k != j {
        if k < j {
            assert(s[k].0 != s[j].0);
        } else {
            assert(s[j].0 != s[k].0);
        }
    }
}

/// The result of the reduction lists each pair once, and exactly the pairs of its input.
pub proof fn lemma_reduce_pairs(s: Seq<((u32, u32), i64)>)
    ensures
        distinct_pairs(reduce_entries(s)),
        forall|p: (u32, u32)| #[trigger] has_pair(reduce_entries(s), p) <==> has_pair(s, p),
    decreases s.len(),
{
    if s.len() > 0 {
        let init = s.drop_last();
        lemma_reduce_pairs(init);
        let r = reduce_entries(init);
        let e = s.last();
        let r2 = reduce_entries(s);
        match index_of_pair(r, e.0) {
            Some(j) => {
                assert(r2 == r.update(j, (e.0, clamp(r[j].1 + e.1))));
                assert forall|a: int, b: int| 0 <= a < b < r2.len() implies (#[trigger] r2[a]).0 != (#[trigger] r2[b]).0 by {
                    assert(r[a].0 != r[b].0);
                }
                assert forall|p: (u32, u32)| #[trigger] has_pair(r2, p) <==> has_pair(s, p) by {
                    if exists|k: int| 0 <= k < r2.len() && (#[trigger] r2[k]).0 == p {
                        let k = choose|k: int| 0 <= k < r2.len() && (#[trigger] r2[k]).0 == p;
                        assert(r[k].0 == p);
                        assert(has_pair(r, p));
                        let m = choose|m: int| 0 <= m < init.len() && (#[trigger] init[m]).0 == p;
                        assert(s[m].0 == p);
                    }
                    if exists|k: int| 0 <= k < s.len() && (#[trigger] s[k]).0 == p {
                        let k = choose|k: int| 0 <= k < s.len() && (#[trigger] s[k]).0 == p;
                        if k < init.len() {
                            assert(init[k].0 == p);
                            assert(has_pair(init, p));
                            assert(has_pair(r, p));
                            let m = choose|m: int| 0 <= m < r.len() && (#[trigger] r[m]).0 == p;
                            assert(r2[m].0 == p);
                        } else {
                            assert(r2[j].0 == p);
                        }
                    }
                }
            },
            None => {
                assert(r2 == r.push(e));
                assert forall|a: int, b: int| 0 <= a < b < r2.len() implies (#[trigger] r2[a]).0 != (#[trigger] r2[b]).0 by {
                    if b < r.len() {
                        assert(r[a].0 != r[b].0);
                    } else {
                        assert(r2[a] == r[a]);
                    }
                }
                assert forall|p: (u32, u32)| #[trigger] has_pair(r2, p) <==> has_pair(s, p) by {
                    if exists|k: int| 0 <= k < r2.len() && (#[trigger] r2[k]).0 == p {
                        let k = choose|k: int| 0 <= k < r2.len() && (#[trigger] r2[k]).0 == p;
                        if k < r.len() {
                            assert(r[k].0 == p);
                            assert(has_pair(r, p));
                            let m = choose|m: int| 0 <= m < init.len() && (#[trigger] init[m]).0 == p;
                            assert(s[m].0 == p);
                        } else {
                            assert(s[s.len() - 1].0 == p);
                        }
                    }
                    if exists|k: int| 0 <= k < s.len() && (#[trigger] s[k]).0 == p {
                        let k = choose|k: int| 0 <= k < s.len() && (#[trigger] s[k]).0 == p;
                        if k < init.len() {
                            assert(init[k].0 == p);
                            assert(has_pair(init, p));
                            assert(has_pair(r, p));
                            let m = choose|m: int| 0 <= m < r.len() && (#[trigger] r[m]).0 == p;
                            assert(r2[m].0 == p);
                        } else {
                            assert(r2[r.len() as int].0 == p);
                        }
                    }
                }
            },
        }
    }
}

/// Reducing entries that already list each pair once gives them back unchanged: the reduction
/// of an already reduced set, contributed by a single peer, is the identity.
pub proof fn lemma_reduce_idempotent(s: Seq<((u32, u32), i64)>)
    requires
        distinct_pairs(s),
    ensures
        reduce_entries(s) == s,
    decreases s.len(),
{
    if s.len() > 0 {
        let init = s.drop_last();
        assert(distinct_pairs(init)) by {
            assert forall|a: int, b: int| 0 <= a < b < init.len() implies (#[trigger] init[a]).0 != (#[trigger] init[b]).0 by {
                assert(s[a].0 != s[b].0);
            }
        }
        lemma_reduce_idempotent(init);
        let e = s.last();
        if exists|j: int| 0 <= j < init.len() && (#[trigger] init[j]).0 == e.0 {
            let j = choose|j: int| 0 <= j < init.len() && (#[trigger] init[j]).0 == e.0;
            assert(s[j].0 != s[s.len() - 1].0);
        }
        assert(index_of_pair(init, e.0) is None);
        assert(init.push(e) =~= s);
    }
}

/// Reducing the entries twice gives what reducing them once gives.
pub proof fn lemma_reduce_twice(s: Seq<((u32, u32), i64)>)
    ensures
        reduce_entries(reduce_entries(s)) == reduce_entries(s),
{
    lemma_reduce_pairs(s);
    lemma_reduce_idempotent(reduce_entries(s));
}

/// Lays out one peer's entries as words: each entry is its pair's key, then its value's bits.
pub fn flatten_changes(local: &Vec<((u32, u32), i64)>) -> (r: Vec<u64>)
    ensures
        r@.len() == 2 * local@.len(),
        decode_words(r@) == local@,
        forall|i: int| 0 <= i < local@.len() ==> r@[2 * i] == pair_key(local@[i].0 .0, local@[i].0 .1)
            && r@[2 * i + 1] == local@[i].1 as u64,
{
    let mut r: Vec<u64> = Vec::new();
    let mut i: usize = 0;
    while i < local.len()
        invariant
            i <= local@.len(),
            r@.len() == 2 * i,
            forall|k: int| 0 <= k < i ==> r@[2 * k] == pair_key(local@[k].0 .0, local@[k].0 .1)
                && r@[2 * k + 1] == local@[k].1 as u64,
        decreases local@.len() - i,
    {
        let ((a, b), v) = local[i];
        r.push(combine_u32(a, b));
        r.push(v as u64);
        i = i + 1;
    }
    proof {
        assert forall|k: int| 0 <= k < local@.len() implies #[trigger] decode_words(r@)[k] == local@[k] by {
            let ((a, b), v) = local@[k];
            lemma_key_pair_round_trip(a, b);
            let w = v as u64;
            assert(w as i64 == v) by (bit_vector)
                requires w == v as u64;
        }
        assert(decode_words(r@) =~= local@);
    }
    r
}

/// Whether summing the entries in order keeps every running sum of a pair within `i64`, so
/// that the sums of `reduce_entries` are the true sums.
pub open spec fn sums_fit(s: Seq<((u32, u32), i64)>) -> bool
    decreases s.len(),
{
    if s.len() == 0 {
        true
    } else {
        let r = reduce_entries(s.drop_last());
        &&& sums_fit(s.drop_last())
        &&& match index_of_pair(r, s.last().0) {
            Some(j) => i64::MIN <= r[j].1 + s.last().1 <= i64::MAX,
            None => true,
        }
    }
}

proof fn lemma_sums_fit_prefix(s: Seq<((u32, u32), i64)>, k: int)
    requires
        sums_fit(s),
        0 <= k <= s.len(),
    ensures
        sums_fit(s.subrange(0, k)),
    decreases s.len() - k,
{
    if k < s.len() {
        lemma_sums_fit_prefix(s.drop_last(), k);
        assert(s.drop_last().subrange(0, k) =~= s.subrange(0, k));
    } else {
        assert(s.subrange(0, k) =~= s);
    }
}

/// Sums a gathered buffer of entries per pair: the result lists each pair once, where it first
/// appears in the buffer, with the sum of its values. A trailing odd word is ignored. Nothing
/// comes back when a sum leaves the range of `i64`.
pub fn reduce_gathered(buf: &Vec<u64>) -> (r: Option<Vec<((u32, u32), i64)>>)
    ensures
        r is Some <==> sums_fit(decode_words(buf@)),
        r matches Some(v) ==> v@ == reduce_entries(decode_words(buf@)),
{
    let ghost d = decode_words(buf@);
    let mut out: Vec<((u32, u32), i64)> = Vec::new();
    let mut at: PairMap<usize> = PairMap::new();
    let n = buf.len() / 2;
    let mut i: usize = 0;
    while i < n
        invariant
            n == buf@.len() / 2,
            buf@.len() <= usize::MAX,
            d == decode_words(buf@),
            i <= n,
            out@ == reduce_entries(d.subrange(0, i as int)),
            sums_fit(d.subrange(0, i as int)),
            distinct_pairs(out@),
            forall|p: (u32, u32)| #[trigger] at@.contains_key(p) ==> at@[p] < out@.len() && out@[at@[p] as int].0 == p,
            forall|j: int| 0 <= j < out@.len() ==> at@.contains_key((#[trigger] out@[j]).0),
        decreases n - i,
    {
        proof {
            let len = buf@.len() as int;
            vstd::arithmetic::div_mod::lemma_fundamental_div_mod(len, 2);
            assert(len == 2 * (len / 2) + len % 2);
            assert(n as int == len / 2);
            assert(len % 2 >= 0);
            assert(2 * i + 1 < len);
        }
        let pair = split_u64(buf[2 * i]);
        let v = #[verifier::truncate] (buf[2 * i + 1] as i64);
        let ghost pre = d.subrange(0, i as int);
        let ghost pre2 = d.subrange(0, i + 1);
        proof {
            assert(pre2.drop_last() =~= pre);
            assert(pre2.last() == (pair, v));
        }
        match at.get(pair.0, pair.1) {
            Some(j) => {
                proof {
                    lemma_index_unique(out@, pair, j as int);
                }
                let old_v = out[j].1;
                if (v > 0 && old_v > i64::MAX - v) || (v < 0 && old_v < i64::MIN - v) {
                    proof {
                        assert(!sums_fit(pre2));
                        if sums_fit(d) {
                            lemma_sums_fit_prefix(d, i + 1);
                        }
                    }
                    return None;
                }
                let s = add_clamped(old_v, v);
                out.set(j, (pair, s));
                proof {
                    assert forall|a: int, b: int| 0 <= a < b < out@.len() implies (#[trigger] out@[a]).0 != (#[trigger] out@[b]).0 by {
                        assert(reduce_entries(pre)[a].0 != reduce_entries(pre)[b].0);
                    }
                }
            },
            None => {
                proof {
                    if exists|j: int| 0 <= j < out@.len() && (#[trigger] out@[j]).0 == pair {
                        let j = choose|j: int| 0 <= j < out@.len() && (#[trigger] out@[j]).0 == pair;
                        assert(at@.contains_key(out@[j].0));
                    }
                }
                let k = out.len();
                out.push((pair, v));
                at.insert(pair, k);
                proof {
                    let o = reduce_entries(pre);
                    assert forall|a: int, b: int| 0 <= a < b < out@.len() implies (#[trigger] out@[a]).0 != (#[trigger] out@[b]).0 by {
                        if b < o.len() {
                            assert(o[a].0 != o[b].0);
                        } else {
                            assert(out@[a] == o[a]);
                        }
                    }
                    assert forall|j: int| 0 <= j < out@.len() implies at@.contains_key((#[trigger] out@[j]).0) by {
                        if j < o.len() {
                            assert(out@[j] == o[j]);
                        }
                    }
                }
            },
        }
        i = i + 1;
    }
    proof {
        assert(d.subrange(0, n as int) =~= d);
    }
    Some(out)
}

} // verus!
