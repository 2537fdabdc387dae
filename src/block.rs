use vstd::prelude::*;
use crate::pairs::PairMap;

verus! {

/// How many times the adjacent pair `p` occurs in `s`.
pub open spec fn pair_count(s: Seq<u32>, p: (u32, u32)) -> int
    decreases s.len(),
{
    if s.len() < 2 {
        0
    } else {
        (if s[0] == p.0 && s[1] == p.1 { 1int } else { 0int }) + pair_count(s.drop_first(), p)
    }
}

/// `s` with each occurrence of `(left, right)`, taken left to right without overlap, replaced by `new`.
pub open spec fn merge_seq(s: Seq<u32>, left: u32, right: u32, new: u32) -> Seq<u32>
    decreases s.len(),
{
    if s.len() == 0 {
        s
    } else if s.len() >= 2 && s[0] == left && s[1] == right {
        seq![new] + merge_seq(s.subrange(2, s.len() as int), left, right, new)
    } else {
        seq![s[0]] + merge_seq(s.drop_first(), left, right, new)
    }
}

pub proof fn lemma_pair_count_bounds(s: Seq<u32>, p: (u32, u32))
    ensures
        0 <= pair_count(s, p) <= s.len(),
    decreases s.len(),
{
    if s.len() >= 2 {
        lemma_pair_count_bounds(s.drop_first(), p);
    }
}

pub proof fn lemma_pair_count_concat(x: Seq<u32>, y: Seq<u32>, p: (u32, u32))
    ensures
        pair_count(x + y, p) == pair_count(x, p) + pair_count(y, p) + (if x.len() > 0 && y.len() > 0
            && x.last() == p.0 && y[0] == p.1 { 1int } else { 0int }),
    decreases x.len(),
{
    if x.len() == 0 {
        assert(x + y =~= y);
    } else if x.len() == 1 {
        assert((x + y).drop_first() =~= y);
    } else {
        lemma_pair_count_concat(x.drop_first(), y, p);
        assert((x + y).drop_first() =~= x.drop_first() + y);
        assert(x.drop_first().last() == x.last());
    }
}

pub open spec fn ind(b: bool) -> int {
    if b { 1 } else { 0 }
}

/// What merging `t[i], t[i + 1]` into `new` does to the count of pair `q`.
pub open spec fn merge_effect(t: Seq<u32>, i: int, new: u32, q: (u32, u32)) -> int {
    let l = t[i];
    let r = t[i + 1];
    -ind(q == (l, r))
        - ind(i > 0 && q == (t[i - 1], l)) + ind(i > 0 && q == (t[i - 1], new))
        - ind(i + 2 < t.len() && q == (r, t[i + 2])) + ind(i + 2 < t.len() && q == (new, t[i + 2]))
}

proof fn lemma_merge_at(t: Seq<u32>, i: int, new: u32, q: (u32, u32))
    requires
        0 <= i && i + 1 < t.len(),
    ensures
        pair_count(t.subrange(0, i) + seq![new] + t.subrange(i + 2, t.len() as int), q)
            == pair_count(t, q) + merge_effect(t, i, new, q),
{
    let n = t.len() as int;
    let a = t.subrange(0, i);
    let b = t.subrange(i + 2, n);
    let lr = seq![t[i], t[i + 1]];
    let nw = seq![new];
    assert(t =~= a + (lr + b));
    assert(t.subrange(0, i) + seq![new] + t.subrange(i + 2, n) =~= a + (nw + b));
    lemma_pair_count_concat(a, lr + b, q);
    lemma_pair_count_concat(lr, b, q);
    lemma_pair_count_concat(a, nw + b, q);
    lemma_pair_count_concat(nw, b, q);
    assert(pair_count(lr.drop_first(), q) == 0);
    assert(pair_count(lr, q) == ind(q == (t[i], t[i + 1])));
    assert(pair_count(nw, q) == 0);
    if i > 0 {
        assert(a.last() == t[i - 1]);
    }
    if i + 2 < n {
        assert(b[0] == t[i + 2]);
    }
}

/// The change recorded for a pair: zero for a pair the map does not hold.
pub open spec fn change_of(m: Map<(u32, u32), i64>, q: (u32, u32)) -> int {
    if m.contains_key(q) { m[q] as int } else { 0 }
}

/// `keys` lists each key of `m` once.
pub open spec fn keys_ok(m: Map<(u32, u32), i64>, keys: Seq<(u32, u32)>) -> bool {
    &&& keys.no_duplicates()
    &&& forall|q: (u32, u32)| m.contains_key(q) <==> keys.contains(q)
}

fn bump(m: &mut PairMap<i64>, keys: &mut Vec<(u32, u32)>, p: (u32, u32), d: i64)
    requires
        keys_ok(old(m)@, old(keys)@),
        i64::MIN <= change_of(old(m)@, p) + d <= i64::MAX,
    ensures
        keys_ok(final(m)@, final(keys)@),
        forall|q: (u32, u32)| change_of(final(m)@, q) == change_of(old(m)@, q) + (if q == p { d as int } else { 0 }),
        forall|j: int| 0 <= j < old(keys)@.len() ==> final(keys)@[j] == old(keys)@[j],
        old(keys)@.len() <= final(keys)@.len(),
{
    match m.get(p.0, p.1) {
        Some(v) => {
            m.insert(p, v + d);
        },
        None => {
            m.insert(p, d);
            keys.push(p);
            proof {
                let ok = old(keys)@;
                let nk = final(keys)@;
                assert(!ok.contains(p));
                assert forall|q: (u32, u32)| final(m)@.contains_key(q) <==> nk.contains(q) by {
                    if q != p && nk.contains(q) {
                        let j = choose|j: int| 0 <= j < nk.len() && nk[j] == q;
                        assert(ok[j] == q);
                    }
                    if q != p && ok.contains(q) {
                        let j = choose|j: int| 0 <= j < ok.len() && ok[j] == q;
                        assert(nk[j] == q);
                    }
                    if q == p {
                        assert(nk[ok.len() as int] == p);
                    }
                }
                assert forall|a: int, b: int| 0 <= a < nk.len() && 0 <= b < nk.len() && a != b implies nk[a] != nk[b] by {
                    if a < ok.len() && b < ok.len() {
                        assert(ok[a] != ok[b]);
                    } else if a < ok.len() {
                        assert(ok.contains(ok[a]));
                    } else {
                        assert(ok.contains(ok[b]));
                    }
                }
            }
        },
    }
}

/// The change to the count of one pair, and the blocks that now hold it where the count grew.
pub struct PairChange {
    pub pair: (u32, u32),
    pub delta: i64,
    pub block_ids: Vec<usize>,
}

/// A unit of input text: its tokens and how many times it occurred.
pub struct Block {
    pub tokens: Vec<u32>,
    pub count: i64,
}

impl Block {
    /// A block of the bytes `bytes`, one token per byte, seen `count` times.
    pub fn new(bytes: &[u8], count: i64) -> (b: Block)
        ensures
            b.count == count,
            b.tokens@.len() == bytes@.len(),
            forall|i: int| 0 <= i < bytes@.len() ==> #[trigger] b.tokens@[i] == bytes@[i] as u32,
    {
        let mut tokens: Vec<u32> = Vec::new();
        let mut i: usize = 0;
        while i < bytes.len()
            invariant
                i <= bytes@.len(),
                tokens@.len() == i,
                forall|k: int| 0 <= k < i ==> #[trigger] tokens@[k] == bytes@[k] as u32,
            decreases bytes@.len() - i,
        {
            tokens.push(bytes[i] as u32);
            i = i + 1;
        }
        Block { tokens, count }
    }

    /// Replaces each occurrence of `(left, right)`, left to right and without overlap, by `new`,
    /// and returns what that did to the pair counts: for each pair whose count changed (or was
    /// touched), the change times the block's count, listed once, with `block_idx` as its one
    /// hint where the change is positive.
    #[verifier::spinoff_prover]
    #[verifier::rlimit(80)]
    pub fn merge(&mut self, left: u32, right: u32, new: u32, block_idx: usize) -> (changes: Vec<PairChange>)
        requires
            old(self).count >= 1,
            old(self).count * (old(self).tokens@.len() + 5) <= i64::MAX,
        ensures
            final(self).count == old(self).count,
            final(self).tokens@ == merge_seq(old(self).tokens@, left, right, new),
            forall|i: int, j: int| 0 <= i < j < changes@.len() ==> (#[trigger] changes@[i]).pair != (#[trigger] changes@[j]).pair,
            forall|j: int| 0 <= j < changes@.len() ==> {
                let c = #[trigger] changes@[j];
                &&& c.delta == old(self).count * (pair_count(final(self).tokens@, c.pair) - pair_count(old(self).tokens@, c.pair))
                &&& c.delta != 0
                &&& c.block_ids@ == (if c.delta > 0 { seq![block_idx] } else { Seq::<usize>::empty() })
            },
            forall|q: (u32, u32)| (forall|j: int| 0 <= j < changes@.len() ==> (#[trigger] changes@[j]).pair != q)
                ==> pair_count(final(self).tokens@, q) == pair_count(old(self).tokens@, q),
            (forall|x: int| 0 <= x < old(self).tokens@.len() - 1
                ==> !(#[trigger] old(self).tokens@[x] == left && old(self).tokens@[x + 1] == right))
                ==> final(self).tokens@ == old(self).tokens@ && changes@.len() == 0,
    {
        let ghost orig = self.tokens@;
        let ghost n = orig.len() as int;
        let c = self.count;
        let mut m: PairMap<i64> = PairMap::new();
        let mut keys: Vec<(u32, u32)> = Vec::new();
        let mut i: usize = 0;
        let ghost mut j: int = 0;
        proof {
            assert(keys_ok(m@, keys@));
            assert(orig.subrange(0, n) =~= orig);
            assert(self.tokens@.subrange(0, 0) + merge_seq(orig, left, right, new) =~= merge_seq(orig, left, right, new));
        }
        while i < self.tokens.len()
            invariant
                self.count == c,
                c >= 1,
                c * (n + 5) <= i64::MAX,
                orig.len() == n,
                0 <= i <= self.tokens@.len(),
                0 <= j <= n,
                self.tokens@.len() - i == n - j,
                self.tokens@.len() <= n,
                self.tokens@.subrange(i as int, self.tokens@.len() as int) == orig.subrange(j, n),
                merge_seq(orig, left, right, new) == self.tokens@.subrange(0, i as int) + merge_seq(orig.subrange(j, n), left, right, new),
                keys_ok(m@, keys@),
                forall|q: (u32, u32)| change_of(m@, q) == c * (pair_count(self.tokens@, q) - pair_count(orig, q)),
            decreases self.tokens@.len() - i,
        {
            let ghost t = self.tokens@;
            let ghost rest = orig.subrange(j, n);
            assert(t[i as int] == rest[0]);
            if self.tokens[i] == left && i + 1 < self.tokens.len() && self.tokens[i + 1] == right {
                assert(t[i + 1] == rest[1]);
                proof {
                    lemma_bounds_all(t, orig, c, n);
                }
                let ghost m0 = m@;
                bump(&mut m, &mut keys, (left, right), -c);
                let ghost m1 = m@;
                let ghost has_prev = i > 0;
                if i > 0 {
                    let prev_token = self.tokens[i - 1];
                    bump(&mut m, &mut keys, (prev_token, left), -c);
                    bump(&mut m, &mut keys, (prev_token, new), c);
                }
                let ghost m2 = m@;
                assert(forall|q: (u32, u32)| change_of(m2, q) == change_of(m1, q)
                    - (if i > 0 && q == (t[i - 1], left) { c as int } else { 0 })
                    + (if i > 0 && q == (t[i - 1], new) { c as int } else { 0 }));
                self.tokens[i] = new;
                self.tokens.remove(i + 1);
                proof {
                    assert(self.tokens@ =~= t.subrange(0, i as int) + seq![new] + t.subrange(i + 2, t.len() as int));
                }
                if i + 1 < self.tokens.len() {
                    let next_token = self.tokens[i + 1];
                    assert(next_token == t[i + 2]);
                    bump(&mut m, &mut keys, (right, next_token), -c);
                    bump(&mut m, &mut keys, (new, next_token), c);
                }
                let ghost m3 = m@;
                assert(forall|q: (u32, u32)| change_of(m3, q) == change_of(m2, q)
                    - (if i + 2 < t.len() && q == (right, t[i + 2]) { c as int } else { 0 })
                    + (if i + 2 < t.len() && q == (new, t[i + 2]) { c as int } else { 0 }));
                proof {
                    lemma_step_changes(t, orig, i as int, new, c as int, m0, m1, m2, m3);
                    assert(merge_seq(rest, left, right, new) == seq![new] + merge_seq(rest.subrange(2, rest.len() as int), left, right, new));
                    assert(rest.subrange(2, rest.len() as int) =~= orig.subrange(j + 2, n));
                    assert(self.tokens@.subrange(i + 1, self.tokens@.len() as int) =~= orig.subrange(j + 2, n));
                    assert(self.tokens@.subrange(0, i + 1) =~= t.subrange(0, i as int) + seq![new]);
                    j = j + 2;
                }
            } else {
                proof {
                    assert(merge_seq(rest, left, right, new) == seq![rest[0]] + merge_seq(rest.drop_first(), left, right, new));
                    assert(rest.drop_first() =~= orig.subrange(j + 1, n));
                    assert(self.tokens@.subrange(i + 1, self.tokens@.len() as int) =~= orig.subrange(j + 1, n));
                    assert(self.tokens@.subrange(0, i + 1) =~= t.subrange(0, i as int) + seq![t[i as int]]);
                    j = j + 1;
                }
            }
            i = i + 1;
        }
        proof {
            assert(orig.subrange(j, n).len() == 0);
            assert(self.tokens@.subrange(0, i as int) =~= self.tokens@);
            assert(merge_seq(orig.subrange(j, n), left, right, new) =~= Seq::<u32>::empty());
        }
        let mut changes: Vec<PairChange> = Vec::new();
        let mut k: usize = 0;
        while k < keys.len()
            invariant
                k <= keys@.len(),
                keys_ok(m@, keys@),
                c >= 1,
                forall|q: (u32, u32)| change_of(m@, q) == c * (pair_count(self.tokens@, q) - pair_count(orig, q)),
                forall|a: int| 0 <= a < changes@.len() ==> exists|i: int| 0 <= i < k && keys@[i] == (#[trigger] changes@[a]).pair,
                forall|a: int, b: int| 0 <= a < b < changes@.len() ==> (#[trigger] changes@[a]).pair != (#[trigger] changes@[b]).pair,
                forall|i: int| 0 <= i < k && change_of(m@, #[trigger] keys@[i]) != 0
                    ==> exists|a: int| 0 <= a < changes@.len() && (#[trigger] changes@[a]).pair == keys@[i],
                forall|a: int| 0 <= a < changes@.len() ==> {
                    let ch = #[trigger] changes@[a];
                    &&& ch.delta == change_of(m@, ch.pair)
                    &&& ch.delta != 0
                    &&& ch.block_ids@ == (if ch.delta > 0 { seq![block_idx] } else { Seq::<usize>::empty() })
                },
            decreases keys@.len() - k,
        {
            let pair = keys[k];
            assert(keys@.contains(pair));
            let delta = match m.get(pair.0, pair.1) {
                Some(d) => d,
                None => 0,
            };
            if delta != 0 {
                let block_ids = if delta > 0 { vec![block_idx] } else { Vec::new() };
                let ghost before = changes@;
                changes.push(PairChange { pair, delta, block_ids });
                proof {
                    assert forall|a: int, b: int| 0 <= a < b < changes@.len() implies (#[trigger] changes@[a]).pair != (#[trigger] changes@[b]).pair by {
                        if b == before.len() {
                            assert(changes@[a] == before[a]);
                            let i = choose|i: int| 0 <= i < k && keys@[i] == before[a].pair;
                            assert(keys@[i] != keys@[k as int]);
                        } else {
                            assert(before[a].pair != before[b].pair);
                        }
                    }
                    assert(changes@[before.len() as int].pair == keys@[k as int]);
                    assert(changes@[before.len() as int].block_ids@ =~= (if delta > 0 { seq![block_idx] } else { Seq::<usize>::empty() }));
                    assert forall|a: int| 0 <= a < changes@.len() implies exists|i: int| 0 <= i < k + 1 && keys@[i] == (#[trigger] changes@[a]).pair by {
                        if a < before.len() {
                            assert(changes@[a] == before[a]);
                        }
                    }
                    assert forall|i: int| 0 <= i < k + 1 && change_of(m@, #[trigger] keys@[i]) != 0
                        implies exists|a: int| 0 <= a < changes@.len() && (#[trigger] changes@[a]).pair == keys@[i] by {
                        if i < k {
                            let a = choose|a: int| 0 <= a < before.len() && (#[trigger] before[a]).pair == keys@[i];
                            assert(changes@[a] == before[a]);
                        } else {
                            assert(changes@[before.len() as int].pair == keys@[i]);
                        }
                    }
                }
            }
            k = k + 1;
        }
        proof {
            assert forall|q: (u32, u32)| (forall|a: int| 0 <= a < changes@.len() ==> (#[trigger] changes@[a]).pair != q)
                implies pair_count(self.tokens@, q) == pair_count(orig, q) by {
                if m@.contains_key(q) {
                    assert(keys@.contains(q));
                    let i = choose|i: int| 0 <= i < keys@.len() && keys@[i] == q;
                    if change_of(m@, keys@[i]) != 0 {
                        let a = choose|a: int| 0 <= a < changes@.len() && (#[trigger] changes@[a]).pair == keys@[i];
                    }
                }
                assert(change_of(m@, q) == 0);
                assert(c * (pair_count(self.tokens@, q) - pair_count(orig, q)) == 0);
                assert(pair_count(self.tokens@, q) - pair_count(orig, q) == 0) by (nonlinear_arith)
                    requires c * (pair_count(self.tokens@, q) - pair_count(orig, q)) == 0, c >= 1;
            }
            if forall|x: int| 0 <= x < orig.len() - 1 ==> !(#[trigger] orig[x] == left && orig[x + 1] == right) {
                lemma_merge_seq_absent(orig, left, right, new);
                assert(self.tokens@ == orig);
                if changes@.len() > 0 {
                    let ch = changes@[0];
                    let d = pair_count(self.tokens@, ch.pair) - pair_count(orig, ch.pair);
                    assert(d == 0);
                    assert(c * d == 0) by (nonlinear_arith)
                        requires d == 0;
                }
            }
        }
        changes
    }
}

proof fn lemma_step_changes(
    t: Seq<u32>,
    orig: Seq<u32>,
    i: int,
    new: u32,
    c: int,
    m0: Map<(u32, u32), i64>,
    m1: Map<(u32, u32), i64>,
    m2: Map<(u32, u32), i64>,
    m3: Map<(u32, u32), i64>,
)
    requires
        0 <= i && i + 1 < t.len(),
        forall|q: (u32, u32)| change_of(m0, q) == c * (pair_count(t, q) - pair_count(orig, q)),
        forall|q: (u32, u32)| change_of(m1, q) == change_of(m0, q) - (if q == (t[i], t[i + 1]) { c } else { 0 }),
        forall|q: (u32, u32)| change_of(m2, q) == change_of(m1, q)
            - (if i > 0 && q == (t[i - 1], t[i]) { c } else { 0 })
            + (if i > 0 && q == (t[i - 1], new) { c } else { 0 }),
        forall|q: (u32, u32)| change_of(m3, q) == change_of(m2, q)
            - (if i + 2 < t.len() && q == (t[i + 1], t[i + 2]) { c } else { 0 })
            + (if i + 2 < t.len() && q == (new, t[i + 2]) { c } else { 0 }),
    ensures
        forall|q: (u32, u32)| change_of(m3, q) == c * (pair_count(t.subrange(0, i) + seq![new] + t.subrange(i + 2, t.len() as int), q) - pair_count(orig, q)),
{
    assert forall|q: (u32, u32)| change_of(m3, q) == c * (pair_count(t.subrange(0, i) + seq![new] + t.subrange(i + 2, t.len() as int), q) - pair_count(orig, q)) by {
        lemma_merge_at(t, i, new, q);
        let a1 = ind(q == (t[i], t[i + 1]));
        let a2 = ind(i > 0 && q == (t[i - 1], t[i]));
        let a3 = ind(i > 0 && q == (t[i - 1], new));
        let a4 = ind(i + 2 < t.len() && q == (t[i + 1], t[i + 2]));
        let a5 = ind(i + 2 < t.len() && q == (new, t[i + 2]));
        lemma_scale(c, a1, a2, a3, a4, a5);
        lemma_scale_ind(c, q == (t[i], t[i + 1]));
        lemma_scale_ind(c, i > 0 && q == (t[i - 1], t[i]));
        lemma_scale_ind(c, i > 0 && q == (t[i - 1], new));
        lemma_scale_ind(c, i + 2 < t.len() && q == (t[i + 1], t[i + 2]));
        lemma_scale_ind(c, i + 2 < t.len() && q == (new, t[i + 2]));
        let x = pair_count((t.subrange(0, i) + seq![new] + t.subrange(i + 2, t.len() as int)), q);
        let y = pair_count(t, q);
        let o = pair_count(orig, q);
        let e = merge_effect(t, i, new, q);
        assert(c * (x - o) == c * (y - o) + c * e) by (nonlinear_arith)
            requires x == y + e;
    }
}

proof fn lemma_scale(c: int, a: int, b: int, d: int, e: int, f: int)
    ensures
        c * (-a - b + d - e + f) == -(c * a) - c * b + c * d - c * e + c * f,
{
    assert(c * (-a - b + d - e + f) == -(c * a) - c * b + c * d - c * e + c * f) by (nonlinear_arith);
}

proof fn lemma_scale_ind(c: int, b: bool)
    ensures
        c * ind(b) == (if b { c } else { 0 }),
{
}

proof fn lemma_bounds_all(t: Seq<u32>, orig: Seq<u32>, c: i64, n: int)
    requires
        t.len() <= n,
        orig.len() == n,
        c >= 1,
        c * (n + 5) <= i64::MAX,
    ensures
        forall|q: (u32, u32)| #![trigger pair_count(t, q)]
            -(c * n) <= c * (pair_count(t, q) - pair_count(orig, q)) <= c * n,
        c * n + 5 * c <= i64::MAX,
{
    assert forall|q: (u32, u32)| #![trigger pair_count(t, q)]
        -(c * n) <= c * (pair_count(t, q) - pair_count(orig, q)) <= c * n by {
        lemma_pair_count_bounds(t, q);
        lemma_pair_count_bounds(orig, q);
        let x = pair_count(t, q) - pair_count(orig, q);
        assert(-n <= x <= n);
        assert(-(c * n) <= c * x <= c * n) by (nonlinear_arith)
            requires -n <= x <= n, c >= 1;
    }
    assert(c * n + 5 * c == c * (n + 5)) by (nonlinear_arith);
}

} // verus!

verus! {

/// Merging never makes a token sequence longer.
pub proof fn lemma_merge_seq_len(s: Seq<u32>, left: u32, right: u32, new: u32)
    ensures
        merge_seq(s, left, right, new).len() <= s.len(),
    decreases s.len(),
{
    if s.len() >= 2 && s[0] == left && s[1] == right {
        lemma_merge_seq_len(s.subrange(2, s.len() as int), left, right, new);
    } else if s.len() > 0 {
        lemma_merge_seq_len(s.drop_first(), left, right, new);
    }
}

/// A copy of the tokens `v`.
pub fn copy_tokens(v: &Vec<u32>) -> (r: Vec<u32>)
    ensures
        r@ == v@,
{
    let mut r: Vec<u32> = Vec::new();
    let mut i: usize = 0;
    while i < v.len()
        invariant
            i <= v@.len(),
            r@ == v@.subrange(0, i as int),
        decreases v@.len() - i,
    {
        r.push(v[i]);
        i = i + 1;
        proof {
            assert(r@ =~= v@.subrange(0, i as int));
        }
    }
    proof {
        assert(v@.subrange(0, v@.len() as int) =~= v@);
    }
    r
}

/// Without an occurrence of the pair, merging leaves the tokens alone.
pub proof fn lemma_merge_seq_absent(s: Seq<u32>, left: u32, right: u32, new: u32)
    requires
        forall|x: int| 0 <= x < s.len() - 1 ==> !(#[trigger] s[x] == left && s[x + 1] == right),
    ensures
        merge_seq(s, left, right, new) == s,
    decreases s.len(),
{
    if s.len() > 0 {
        let rest = s.drop_first();
        assert forall|x: int| 0 <= x < rest.len() - 1 implies !(#[trigger] rest[x] == left && rest[x + 1] == right) by {
            assert(rest[x] == s[x + 1] && rest[x + 1] == s[x + 2]);
        }
        if s.len() >= 2 {
            assert(!(s[0] == left && s[1] == right));
        }
        lemma_merge_seq_absent(rest, left, right, new);
        assert(seq![s[0]] + rest =~= s);
    }
}

proof fn lemma_pair_count_cons(a: u32, x: Seq<u32>, p: (u32, u32))
    ensures
        pair_count(seq![a] + x, p) == (if x.len() > 0 && a == p.0 && x[0] == p.1 { 1int } else { 0int }) + pair_count(x, p),
{
    lemma_pair_count_concat(seq![a], x, p);
    assert(pair_count(seq![a], p) == 0);
}

proof fn lemma_merge_seq_head(s: Seq<u32>, left: u32, right: u32, new: u32)
    requires
        s.len() > 0,
    ensures
        merge_seq(s, left, right, new).len() > 0,
        merge_seq(s, left, right, new)[0] == (if s.len() >= 2 && s[0] == left && s[1] == right { new } else { s[0] }),
{
}

/// Merging a pair into a token other than its own leaves no occurrence of the pair.
pub proof fn lemma_merge_seq_clears(s: Seq<u32>, left: u32, right: u32, new: u32)
    requires
        new != left,
        new != right,
    ensures
        pair_count(merge_seq(s, left, right, new), (left, right)) == 0,
    decreases s.len(),
{
    let p = (left, right);
    if s.len() >= 2 && s[0] == left && s[1] == right {
        let rest = s.subrange(2, s.len() as int);
        lemma_merge_seq_clears(rest, left, right, new);
        lemma_pair_count_cons(new, merge_seq(rest, left, right, new), p);
    } else if s.len() > 0 {
        let rest = s.drop_first();
        lemma_merge_seq_clears(rest, left, right, new);
        lemma_pair_count_cons(s[0], merge_seq(rest, left, right, new), p);
        if rest.len() > 0 {
            lemma_merge_seq_head(rest, left, right, new);
        }
    }
}

/// Merging never adds an occurrence of a pair without the new token.
pub proof fn lemma_merge_seq_no_growth(s: Seq<u32>, left: u32, right: u32, new: u32, p: (u32, u32))
    requires
        p.0 != new,
        p.1 != new,
    ensures
        pair_count(merge_seq(s, left, right, new), p) <= pair_count(s, p),
    decreases s.len(),
{
    if s.len() >= 2 && s[0] == left && s[1] == right {
        let rest = s.subrange(2, s.len() as int);
        lemma_merge_seq_no_growth(rest, left, right, new, p);
        lemma_pair_count_cons(new, merge_seq(rest, left, right, new), p);
        lemma_pair_count_bounds(s, p);
        assert(s.drop_first().drop_first() =~= rest);
        lemma_pair_count_drop(s, p);
        lemma_pair_count_drop(s.drop_first(), p);
    } else if s.len() > 0 {
        let rest = s.drop_first();
        lemma_merge_seq_no_growth(rest, left, right, new, p);
        lemma_pair_count_cons(s[0], merge_seq(rest, left, right, new), p);
        if rest.len() > 0 {
            lemma_merge_seq_head(rest, left, right, new);
        }
        lemma_pair_count_drop(s, p);
        if s.len() >= 2 {
            assert(pair_count(s, p) == (if s[0] == p.0 && s[1] == p.1 { 1int } else { 0int }) + pair_count(rest, p));
        }
    }
}

proof fn lemma_pair_count_drop(s: Seq<u32>, p: (u32, u32))
    requires
        s.len() > 0,
    ensures
        pair_count(s.drop_first(), p) <= pair_count(s, p),
{
    if s.len() >= 2 {
        assert(pair_count(s, p) == (if s[0] == p.0 && s[1] == p.1 { 1int } else { 0int }) + pair_count(s.drop_first(), p));
    } else {
        assert(pair_count(s.drop_first(), p) == 0);
    }
}

} // verus!
