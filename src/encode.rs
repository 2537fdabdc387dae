use vstd::prelude::*;
use crate::pairs::{MergeTable, MergeTableError, rules_map, rules_valid, rule_error};

verus! {

/// How a token is built from bytes: a single byte, or the merge of two tokens by a rule.
pub enum Derivation {
    Byte(u8),
    Join(Box<Derivation>, Box<Derivation>),
}

/// The token that a derivation builds under the table, if every merge in it has a rule.
pub open spec fn built_token(table: Map<(u32, u32), u32>, d: Derivation) -> Option<u32>
    decreases d,
{
    match d {
        Derivation::Byte(b) => Some(b as u32),
        Derivation::Join(l, r) => match (built_token(table, *l), built_token(table, *r)) {
            (Some(a), Some(b)) => if table.contains_key((a, b)) {
                Some(table[(a, b)])
            } else {
                None
            },
            _ => None,
        },
    }
}

/// The bytes that a derivation starts from, in order.
pub open spec fn leaves(d: Derivation) -> Seq<u8>
    decreases d,
{
    match d {
        Derivation::Byte(b) => seq![b],
        Derivation::Join(l, r) => leaves(*l) + leaves(*r),
    }
}

/// Whether token `t` stands for the bytes `s`: a byte stands for itself, and the token of a
/// rule `(a, b) -> t` stands for what `a` stands for followed by what `b` stands for.
pub open spec fn expands(table: Map<(u32, u32), u32>, t: u32, s: Seq<u8>) -> bool {
    exists|d: Derivation| built_token(table, d) == Some(t) && #[trigger] leaves(d) == s
}

/// Whether the tokens `out`, each expanded, give back exactly the bytes `bytes`.
pub open spec fn decodes(table: Map<(u32, u32), u32>, out: Seq<u32>, bytes: Seq<u8>) -> bool
    decreases out.len(),
{
    if out.len() == 0 {
        bytes.len() == 0
    } else {
        exists|k: int|
            0 < k <= bytes.len() && #[trigger] expands(table, out[0], bytes.subrange(0, k))
                && decodes(table, out.drop_first(), bytes.subrange(k, bytes.len() as int))
    }
}

/// No two neighbouring tokens of `out` form a pair that the table merges.
pub open spec fn fully_merged(table: Map<(u32, u32), u32>, out: Seq<u32>) -> bool {
    forall|i: int| 0 <= i < out.len() - 1 ==> !#[trigger] table.contains_key((out[i], out[i + 1]))
}

/// A candidate merge: the token at position `idx` and its right neighbour may merge into `val`.
#[derive(Clone, Copy, Debug, PartialEq, Eq, Structural)]
pub struct Merge {
    pub idx: usize,
    pub val: u32,
}

/// Whether candidate `a` is taken no later than `b`: lower new token first, then lower position.
pub open spec fn comes_first(a: Merge, b: Merge) -> bool {
    a.val < b.val || (a.val == b.val && a.idx <= b.idx)
}

/// Candidate merges waiting to be tried, the first to be taken at the end of the list.
pub struct MergeQueue {
    items: Vec<Merge>,
}

impl View for MergeQueue {
    type V = Seq<Merge>;

    closed spec fn view(&self) -> Seq<Merge> {
        self.items@
    }
}

impl MergeQueue {
    /// The list is ordered: a later candidate is taken no later than an earlier one.
    pub closed spec fn wf(&self) -> bool {
        forall|i: int, j: int|
            0 <= i < j < self.items@.len() ==> comes_first(#[trigger] self.items@[j], #[trigger] self.items@[i])
    }

    /// An empty queue.
    pub fn new() -> (q: Self)
        ensures
            q.wf(),
            q@.len() == 0,
    {
        MergeQueue { items: Vec::new() }
    }

    /// The number of candidates waiting.
    pub fn len(&self) -> (r: usize)
        ensures
            r == self@.len(),
    {
        self.items.len()
    }

    /// Adds a candidate.
    pub fn push(&mut self, m: Merge)
        requires
            old(self).wf(),
        ensures
            final(self).wf(),
            final(self)@.len() == old(self)@.len() + 1,
            final(self)@.contains(m),
            forall|x: Merge| #[trigger] final(self)@.contains(x) <==> (old(self)@.contains(x) || x == m),
    {
        let mut pos: usize = 0;
        while pos < self.items.len() && !(self.items[pos].val < m.val || (self.items[pos].val == m.val && self.items[pos].idx <= m.idx))
            invariant
                self.wf(),
                self@ == old(self)@,
                pos <= self.items@.len(),
                forall|j: int| 0 <= j < pos ==> comes_first(m, #[trigger] self.items@[j]),
            decreases self.items@.len() - pos,
        {
            pos = pos + 1;
        }
        let ghost before = self.items@;
        assert forall|j: int| pos <= j < before.len() implies comes_first(#[trigger] before[j], m) by {
            if j > pos {
                assert(comes_first(before[j], before[pos as int]));
            }
        }
        self.items.insert(pos, m);
        assert(self.items@[pos as int] == m);
        assert forall|x: Merge| #[trigger] self.items@.contains(x) <==> (before.contains(x) || x == m) by {
            if self.items@.contains(x) {
                let k = choose|k: int| 0 <= k < self.items@.len() && self.items@[k] == x;
                if k < pos {
                    assert(before[k] == x);
                } else if k > pos {
                    assert(before[k - 1] == x);
                }
            }
            if before.contains(x) {
                let k = choose|k: int| 0 <= k < before.len() && before[k] == x;
                if k < pos {
                    assert(self.items@[k] == x);
                } else {
                    assert(self.items@[k + 1] == x);
                }
            }
        }
    }

    /// Takes out the candidate that comes first, if there is one.
    pub fn pop(&mut self) -> (r: Option<Merge>)
        requires
            old(self).wf(),
        ensures
            final(self).wf(),
            old(self)@.len() == 0 ==> r is None && final(self)@.len() == 0,
            old(self)@.len() > 0 ==> (r matches Some(m) && {
                &&& old(self)@.contains(m)
                &&& final(self)@.len() == old(self)@.len() - 1
                &&& forall|x: Merge| #[trigger] old(self)@.contains(x) ==> comes_first(m, x)
                &&& forall|x: Merge| #[trigger] old(self)@.contains(x) ==> x == m || final(self)@.contains(x)
                &&& forall|x: Merge| #[trigger] final(self)@.contains(x) ==> old(self)@.contains(x)
            }),
    {
        let ghost before = self.items@;
        let r = self.items.pop();
        match r {
            Some(m) => {
                assert(before[before.len() - 1] == m);
                assert forall|x: Merge| #[trigger] before.contains(x) implies comes_first(m, x) by {
                    let k = choose|k: int| 0 <= k < before.len() && before[k] == x;
                    if k < before.len() - 1 {
                        assert(comes_first(before[before.len() - 1], before[k]));
                    }
                }
                assert forall|x: Merge| #[trigger] before.contains(x) implies x == m || self.items@.contains(x) by {
                    let k = choose|k: int| 0 <= k < before.len() && before[k] == x;
                    if k < before.len() - 1 {
                        assert(self.items@[k] == x);
                    }
                }
                assert forall|x: Merge| #[trigger] self.items@.contains(x) implies before.contains(x) by {
                    let k = choose|k: int| 0 <= k < self.items@.len() && self.items@[k] == x;
                    assert(before[k] == x);
                }
            },
            None => {},
        }
        r
    }
}

} // verus!

verus! {

/// One position of the sequence being encoded. A position swallowed by a merge has width 0;
/// a live one has the number of input bytes that its token stands for.
#[derive(Clone, Copy, Debug, PartialEq, Eq, Structural)]
pub struct Token {
    pub val: u32,
    pub prev: Option<usize>,
    pub next: Option<usize>,
    pub width: usize,
}

impl Token {
    /// Makes this token the merge of itself with its right neighbour `next_token`.
    pub fn merge(&mut self, next_token: &Self, new: u32)
        requires
            old(self).width + next_token.width <= usize::MAX,
        ensures
            final(self).val == new,
            final(self).prev == old(self).prev,
            final(self).next == next_token.next,
            final(self).width == old(self).width + next_token.width,
    {
        self.val = new;
        self.next = next_token.next;
        self.width = self.width + next_token.width;
    }
}

pub open spec fn live(t: Seq<Token>, i: int) -> bool {
    0 <= i < t.len() && t[i].width > 0
}

/// One past the last input position that the live position `i` covers.
pub open spec fn end_of(t: Seq<Token>, i: int) -> int {
    match t[i].next {
        Some(j) => j as int,
        None => t.len() as int,
    }
}

/// The links of live position `i` are consistent with its neighbours.
pub open spec fn node_ok(t: Seq<Token>, i: int) -> bool {
    &&& i < end_of(t, i) <= t.len()
    &&& t[i].width == end_of(t, i) - i
    &&& forall|k: int| i < k < end_of(t, i) ==> (#[trigger] t[k]).width == 0
    &&& (t[i].next matches Some(j) ==> live(t, j as int) && t[j as int].prev == Some(i as usize))
    &&& (t[i].prev matches Some(p) ==> p < i && live(t, p as int) && t[p as int].next == Some(i as usize))
    &&& (i > 0 ==> t[i].prev is Some)
}

/// The live positions form one chain from position 0, in increasing order.
pub open spec fn chain_ok(t: Seq<Token>) -> bool {
    &&& (t.len() > 0 ==> live(t, 0) && t[0].prev is None)
    &&& forall|i: int| #[trigger] live(t, i) ==> node_ok(t, i)
}

/// Each live token stands for the input bytes that its position covers.
pub open spec fn values_ok(table: Map<(u32, u32), u32>, bytes: Seq<u8>, t: Seq<Token>) -> bool {
    forall|i: int| #[trigger] live(t, i) ==> expands(table, t[i].val, bytes.subrange(i, end_of(t, i)))
}

/// The pair at live position `i` merges by the table.
pub open spec fn mergeable_at(table: Map<(u32, u32), u32>, t: Seq<Token>, i: int) -> bool {
    &&& live(t, i)
    &&& t[i].next is Some
    &&& table.contains_key((t[i].val, t[t[i].next.unwrap() as int].val))
}

/// Every pair that can merge has its candidate waiting.
pub open spec fn queue_covers(table: Map<(u32, u32), u32>, t: Seq<Token>, q: Seq<Merge>) -> bool {
    forall|i: int| #[trigger] mergeable_at(table, t, i) ==> q.contains(
        Merge { idx: i as usize, val: table[(t[i].val, t[t[i].next.unwrap() as int].val)] },
    )
}

/// The tokens of the live positions from `i` on, in order.
pub open spec fn live_vals(t: Seq<Token>, i: int) -> Seq<u32>
    decreases t.len() - i,
{
    if i < 0 || i >= t.len() {
        Seq::empty()
    } else if t[i].width > 0 {
        seq![t[i].val] + live_vals(t, i + 1)
    } else {
        live_vals(t, i + 1)
    }
}

proof fn lemma_expands_byte(table: Map<(u32, u32), u32>, s: Seq<u8>)
    requires
        s.len() == 1,
    ensures
        expands(table, s[0] as u32, s),
{
    let d = Derivation::Byte(s[0]);
    assert(leaves(d) =~= s);
}

proof fn lemma_expands_join(table: Map<(u32, u32), u32>, a: u32, b: u32, t: u32, x: Seq<u8>, y: Seq<u8>)
    requires
        table.contains_key((a, b)),
        table[(a, b)] == t,
        expands(table, a, x),
        expands(table, b, y),
    ensures
        expands(table, t, x + y),
{
    let dx = choose|d: Derivation| built_token(table, d) == Some(a) && #[trigger] leaves(d) == x;
    let dy = choose|d: Derivation| built_token(table, d) == Some(b) && #[trigger] leaves(d) == y;
    let d = Derivation::Join(Box::new(dx), Box::new(dy));
    assert(built_token(table, d) == Some(t));
    assert(leaves(d) == x + y);
}

proof fn lemma_live_vals_skip(t: Seq<Token>, i: int, j: int)
    requires
        0 <= i <= j <= t.len(),
        forall|k: int| i <= k < j ==> (#[trigger] t[k]).width == 0,
    ensures
        live_vals(t, i) == live_vals(t, j),
    decreases j - i,
{
    if i < j {
        assert(t[i].width == 0);
        lemma_live_vals_skip(t, i + 1, j);
    }
}

proof fn lemma_decodes_cons(table: Map<(u32, u32), u32>, v: u32, rest: Seq<u32>, s: Seq<u8>, k: int)
    requires
        0 < k <= s.len(),
        expands(table, v, s.subrange(0, k)),
        decodes(table, rest, s.subrange(k, s.len() as int)),
    ensures
        decodes(table, seq![v] + rest, s),
{
    let out = seq![v] + rest;
    assert(out[0] == v);
    assert(out.drop_first() =~= rest);
}

#[verifier::spinoff_prover]
#[verifier::rlimit(50)]
proof fn lemma_decodes_from(table: Map<(u32, u32), u32>, bytes: Seq<u8>, t: Seq<Token>, i: int)
    requires
        t.len() == bytes.len(),
        chain_ok(t),
        values_ok(table, bytes, t),
        live(t, i),
    ensures
        decodes(table, live_vals(t, i), bytes.subrange(i, t.len() as int)),
    decreases t.len() - i,
{
    let n = t.len() as int;
    assert(node_ok(t, i));
    let e = end_of(t, i);
    assert forall|k: int| i + 1 <= k < e implies (#[trigger] t[k]).width == 0 by {
        assert(i < k < end_of(t, i));
    }
    lemma_live_vals_skip(t, i + 1, e);
    assert(live_vals(t, i) == seq![t[i].val] + live_vals(t, e));
    let s = bytes.subrange(i, n);
    let k = e - i;
    assert(s.subrange(0, k) =~= bytes.subrange(i, e));
    assert(s.subrange(k, s.len() as int) =~= bytes.subrange(e, n));
    assert(expands(table, t[i].val, bytes.subrange(i, e)));
    if e < n {
        lemma_decodes_from(table, bytes, t, e);
    } else {
        assert(live_vals(t, e) =~= Seq::<u32>::empty());
        assert(bytes.subrange(e, n).len() == 0);
    }
    lemma_decodes_cons(table, t[i].val, live_vals(t, e), s, k);
}

proof fn lemma_merged_from(table: Map<(u32, u32), u32>, t: Seq<Token>, i: int)
    requires
        chain_ok(t),
        forall|j: int| !#[trigger] mergeable_at(table, t, j),
        live(t, i),
    ensures
        fully_merged(table, live_vals(t, i)),
    decreases t.len() - i,
{
    let n = t.len() as int;
    assert(node_ok(t, i));
    let e = end_of(t, i);
    assert forall|k: int| i + 1 <= k < e implies (#[trigger] t[k]).width == 0 by {
        assert(i < k < end_of(t, i));
    }
    lemma_live_vals_skip(t, i + 1, e);
    let out = live_vals(t, i);
    assert(out == seq![t[i].val] + live_vals(t, e));
    if e < n {
        lemma_merged_from(table, t, e);
        let rest = live_vals(t, e);
        assert(t[i].next.unwrap() as int == e);
        assert(live(t, e));
        assert(rest[0] == t[e].val);
        assert(!mergeable_at(table, t, i));
        assert forall|k: int| 0 <= k < out.len() - 1 implies !#[trigger] table.contains_key((out[k], out[k + 1])) by {
            if k > 0 {
                assert(out[k] == rest[k - 1]);
                assert(out[k + 1] == rest[k]);
                assert(0 <= k - 1 < rest.len() - 1);
                assert(!table.contains_key((rest[k - 1], rest[(k - 1) + 1])));
            } else {
                assert(out[0] == t[i].val);
                assert(out[1] == rest[0]);
            }
        }
    } else {
        assert(live_vals(t, e) =~= Seq::<u32>::empty());
    }
}

/// The state `t2` is `t` after merging live position `idx` with its right neighbour `r` into `new`.
pub open spec fn merge_step(
    table: Map<(u32, u32), u32>,
    bytes: Seq<u8>,
    t: Seq<Token>,
    t2: Seq<Token>,
    idx: int,
    r: int,
    new: u32,
) -> bool {
    &&& t.len() == bytes.len()
    &&& chain_ok(t)
    &&& values_ok(table, bytes, t)
    &&& t.len() <= usize::MAX
    &&& live(t, idx)
    &&& t[idx].next is Some
    &&& r == t[idx].next.unwrap() as int
    &&& table.contains_key((t[idx].val, t[r].val))
    &&& table[(t[idx].val, t[r].val)] == new
    &&& t2.len() == t.len()
    &&& t2[idx].val == new
    &&& t2[idx].prev == t[idx].prev
    &&& t2[idx].next == t[r].next
    &&& t2[idx].width == t[idx].width + t[r].width
    &&& t2[r].width == 0
    &&& (t[r].next matches Some(j) ==> {
        &&& t2[j as int].val == t[j as int].val
        &&& t2[j as int].next == t[j as int].next
        &&& t2[j as int].width == t[j as int].width
        &&& t2[j as int].prev == Some(idx as usize)
    })
    &&& forall|k: int|
        0 <= k < t.len() && k != idx && k != r && t[r].next != Some(k as usize) ==> #[trigger] t2[k] == t[k]
}

proof fn lemma_step_live(
    table: Map<(u32, u32), u32>,
    bytes: Seq<u8>,
    t: Seq<Token>,
    t2: Seq<Token>,
    idx: int,
    r: int,
    new: u32,
)
    requires
        merge_step(table, bytes, t, t2, idx, r, new),
    ensures
        forall|k: int| #[trigger] live(t2, k) ==> live(t, k) && k != r,
{
    let n = t.len() as int;
    assert(node_ok(t, idx));
    assert(live(t, r));
    assert(node_ok(t, r));
    let er = end_of(t, r);
    let nx = t[r].next;
    assert(end_of(t2, idx) == er);
    assert forall|k: int| #[trigger] live(t2, k) implies live(t, k) && k != r by {
        if k != idx && k != r && nx != Some(k as usize) {
            assert(t2[k] == t[k]);
        }
    }
}

#[verifier::spinoff_prover]
#[verifier::rlimit(100)]
proof fn lemma_step_chain(
    table: Map<(u32, u32), u32>,
    bytes: Seq<u8>,
    t: Seq<Token>,
    t2: Seq<Token>,
    idx: int,
    r: int,
    new: u32,
)
    requires
        merge_step(table, bytes, t, t2, idx, r, new),
    ensures
        chain_ok(t2),
{
    let n = t.len() as int;
    assert(node_ok(t, idx));
    assert(live(t, r));
    assert(node_ok(t, r));
    let er = end_of(t, r);
    let nx = t[r].next;
    assert(end_of(t2, idx) == er);
    lemma_step_live(table, bytes, t, t2, idx, r, new);
    assert forall|i: int| #[trigger] live(t2, i) implies node_ok(t2, i) by {
        assert(live(t, i));
        assert(node_ok(t, i));
        if i == idx {
            assert forall|k: int| i < k < end_of(t2, i) implies (#[trigger] t2[k]).width == 0 by {
                if k < r {
                    assert(idx < k < end_of(t, idx));
                    assert(t[k].width == 0);
                    if nx == Some(k as usize) {
                        assert(live(t, k));
                    }
                    assert(t2[k] == t[k]);
                } else if k > r {
                    assert(r < k < end_of(t, r));
                    assert(t[k].width == 0);
                    assert(t2[k] == t[k]);
                }
            }
            if let Some(j) = nx {
                assert(live(t, j as int));
            }
            if let Some(p) = t[idx].prev {
                assert(live(t, p as int));
                assert(t2[p as int] == t[p as int]);
            }
        } else if nx == Some(i as usize) {
            assert(end_of(t2, i) == end_of(t, i));
            assert forall|k: int| i < k < end_of(t2, i) implies (#[trigger] t2[k]).width == 0 by {
                assert(t[k].width == 0);
                assert(t2[k] == t[k]);
            }
            if let Some(j) = t[i].next {
                assert(live(t, j as int));
                assert(node_ok(t, j as int));
                assert(t2[j as int] == t[j as int]);
            }
        } else {
            assert(t2[i] == t[i]);
            assert(end_of(t2, i) == end_of(t, i));
            assert forall|k: int| i < k < end_of(t2, i) implies (#[trigger] t2[k]).width == 0 by {
                assert(t[k].width == 0);
                if k != idx && k != r && nx != Some(k as usize) {
                    assert(t2[k] == t[k]);
                } else if nx == Some(k as usize) {
                    assert(live(t, k));
                }
            }
            if let Some(j) = t[i].next {
                assert(live(t, j as int));
                if j as int != idx && nx != Some(j) {
                    assert(t2[j as int] == t[j as int]);
                }
            }
            if let Some(p) = t[i].prev {
                assert(live(t, p as int));
                if p as int != idx && nx != Some(p) {
                    assert(t2[p as int] == t[p as int]);
                }
            }
        }
    }
    if n > 0 {
        if 0 != idx {
            assert(t2[0] == t[0]);
        }
    }
    if n > 0 {
        if 0 != idx {
            assert(t2[0] == t[0]);
        }
    }
}

proof fn lemma_step_values(
    table: Map<(u32, u32), u32>,
    bytes: Seq<u8>,
    t: Seq<Token>,
    t2: Seq<Token>,
    idx: int,
    r: int,
    new: u32,
)
    requires
        merge_step(table, bytes, t, t2, idx, r, new),
    ensures
        values_ok(table, bytes, t2),
{
    let n = t.len() as int;
    assert(node_ok(t, idx));
    assert(live(t, r));
    assert(node_ok(t, r));
    let er = end_of(t, r);
    let nx = t[r].next;
    assert(end_of(t2, idx) == er);
    lemma_step_live(table, bytes, t, t2, idx, r, new);
    assert forall|i: int| #[trigger] live(t2, i) implies expands(table, t2[i].val, bytes.subrange(i, end_of(t2, i))) by {
        assert(live(t, i));
        if i == idx {
            let s = bytes.subrange(idx, er);
            let k = r - idx;
            assert(s.subrange(0, k) =~= bytes.subrange(idx, r));
            assert(s.subrange(k, s.len() as int) =~= bytes.subrange(r, er));
            assert(expands(table, t[idx].val, bytes.subrange(idx, end_of(t, idx))));
            assert(expands(table, t[r].val, bytes.subrange(r, end_of(t, r))));
            assert(expands(table, t[idx].val, s.subrange(0, k)));
            assert(expands(table, t[r].val, s.subrange(k, s.len() as int)));
            lemma_expands_join(table, t[idx].val, t[r].val, new, bytes.subrange(idx, r), bytes.subrange(r, er));
            assert(bytes.subrange(idx, r) + bytes.subrange(r, er) =~= s);
        } else if nx == Some(i as usize) {
            assert(end_of(t2, i) == end_of(t, i));
            assert(expands(table, t[i].val, bytes.subrange(i, end_of(t, i))));
        } else {
            assert(t2[i] == t[i]);
            assert(expands(table, t[i].val, bytes.subrange(i, end_of(t, i))));
        }
    }
}

proof fn lemma_step_pairs(
    table: Map<(u32, u32), u32>,
    bytes: Seq<u8>,
    t: Seq<Token>,
    t2: Seq<Token>,
    idx: int,
    r: int,
    new: u32,
)
    requires
        merge_step(table, bytes, t, t2, idx, r, new),
    ensures
        forall|k: int|
            #[trigger] mergeable_at(table, t2, k) && k != idx && t[idx].prev != Some(k as usize) ==> {
                &&& mergeable_at(table, t, k)
                &&& t2[k].val == t[k].val
                &&& t2[k].next == t[k].next
                &&& t2[t2[k].next.unwrap() as int].val == t[t[k].next.unwrap() as int].val
            },
{
    let n = t.len() as int;
    assert(node_ok(t, idx));
    assert(live(t, r));
    assert(node_ok(t, r));
    let er = end_of(t, r);
    let nx = t[r].next;
    assert(end_of(t2, idx) == er);
    lemma_step_live(table, bytes, t, t2, idx, r, new);
    assert forall|k: int|
        #[trigger] mergeable_at(table, t2, k) && k != idx && t[idx].prev != Some(k as usize) implies {
            &&& mergeable_at(table, t, k)
            &&& t2[k].val == t[k].val
            &&& t2[k].next == t[k].next
            &&& t2[t2[k].next.unwrap() as int].val == t[t[k].next.unwrap() as int].val
        } by {
        assert(live(t, k));
        assert(node_ok(t, k));
        if nx != Some(k as usize) {
            assert(t2[k] == t[k]);
        }
        let j = t[k].next.unwrap() as int;
        assert(live(t, j));
        assert(node_ok(t, j));
        if j != idx && j != r && nx != Some(j as usize) {
            assert(t2[j] == t[j]);
        }
    }
}

/// Whether `t` is the starting sequence for `bytes`: one live position per byte, linked in order.
pub open spec fn initial_token(bytes: Seq<u8>, i: int) -> Token {
    Token {
        val: bytes[i] as u32,
        prev: if i > 0 { Some((i - 1) as usize) } else { None },
        next: if i + 1 < bytes.len() { Some((i + 1) as usize) } else { None },
        width: 1,
    }
}

/// Encodes `utf8_codepoints` with the merge rules of `merges`: starting from one token per byte,
/// it repeatedly merges the neighbouring pair whose rule gives the lowest new token (the leftmost
/// such pair on a tie) until no neighbouring pair has a rule.
pub fn encode(utf8_codepoints: Vec<u8>, merges: &MergeTable) -> (r: Vec<u32>)
    ensures
        table_ok(merges@) ==> expand_all(merges@, r@) == utf8_codepoints@,
        r@ == greedy(merges@, byte_tokens(utf8_codepoints@)),
        decodes(merges@, r@, utf8_codepoints@),
        fully_merged(merges@, r@),
        utf8_codepoints@.len() == 0 <==> r@.len() == 0,
{
    let n = utf8_codepoints.len();
    let ghost bytes = utf8_codepoints@;
    let ghost table = merges@;
    let mut tokens: Vec<Token> = Vec::new();
    let mut i: usize = 0;
    while i < n
        invariant
            n == bytes.len(),
            bytes == utf8_codepoints@,
            i <= n,
            tokens@.len() == i,
            forall|k: int| 0 <= k < i ==> tokens@[k] == initial_token(bytes, k),
        decreases n - i,
    {
        let prev = if i > 0 { Some(i - 1) } else { None };
        let next = if i + 1 < n { Some(i + 1) } else { None };
        tokens.push(Token { val: utf8_codepoints[i] as u32, prev, next, width: 1 });
        i = i + 1;
    }
    proof {
        lemma_initial_sequence(bytes, tokens@, 0);
        assert(byte_tokens(bytes).subrange(0, n as int) =~= byte_tokens(bytes));
    }
    if n == 0 {
        assert(live_vals(tokens@, 0) =~= Seq::<u32>::empty());
        proof {
            lemma_greedy_done(table, Seq::<u32>::empty());
        }
        return Vec::new();
    }
    proof {
        let t = tokens@;
        assert forall|i: int| #[trigger] live(t, i) implies node_ok(t, i) by {
            assert(t[i] == initial_token(bytes, i));
            if i + 1 < n {
                assert(t[i + 1] == initial_token(bytes, i + 1));
            }
            if i > 0 {
                assert(t[i - 1] == initial_token(bytes, i - 1));
            }
        }
        assert(t[0] == initial_token(bytes, 0));
        assert forall|i: int| #[trigger] live(t, i) implies expands(table, t[i].val, bytes.subrange(i, end_of(t, i))) by {
            assert(t[i] == initial_token(bytes, i));
            lemma_expands_byte(table, bytes.subrange(i, i + 1));
        }
    }
    let mut queue = MergeQueue::new();
    let mut i: usize = 0;
    while i + 1 < n
        invariant
            n == bytes.len(),
            n > 0,
            i + 1 <= n,
            tokens@.len() == n,
            table == merges@,
            forall|k: int| 0 <= k < n ==> tokens@[k] == initial_token(bytes, k),
            queue.wf(),
            queue@.len() <= i,
            forall|x: Merge| #[trigger] queue@.contains(x) ==> x.idx < n,
            forall|k: int| 0 <= k < i && #[trigger] mergeable_at(table, tokens@, k) ==> queue@.contains(
                Merge { idx: k as usize, val: table[(tokens@[k].val, tokens@[k + 1].val)] },
            ),
        decreases n - i,
    {
        assert(tokens@[i as int] == initial_token(bytes, i as int));
        assert(tokens@[i as int + 1] == initial_token(bytes, i as int + 1));
        match merges.get(tokens[i].val, tokens[i + 1].val) {
            Some(v) => {
                queue.push(Merge { idx: i, val: v });
            },
            None => {},
        }
        i = i + 1;
    }
    proof {
        let t = tokens@;
        assert forall|k: int| #[trigger] mergeable_at(table, t, k) implies queue@.contains(
            Merge { idx: k as usize, val: table[(t[k].val, t[t[k].next.unwrap() as int].val)] },
        ) by {
            assert(t[k] == initial_token(bytes, k));
        }
    }
    let ghost mut alive: Set<int> = vstd::set_lib::set_int_range(0, n as int);
    proof {
        vstd::set_lib::lemma_int_range(0, n as int);
    }
    loop
        invariant
            n == bytes.len(),
            n > 0,
            tokens@.len() == n,
            table == merges@,
            chain_ok(tokens@),
            values_ok(table, bytes, tokens@),
            queue.wf(),
            forall|x: Merge| #[trigger] queue@.contains(x) ==> x.idx < n,
            queue_covers(table, tokens@, queue@),
            alive.finite(),
            forall|k: int| #[trigger] live(tokens@, k) ==> alive.contains(k),
            greedy(table, live_vals(tokens@, 0)) == greedy(table, byte_tokens(bytes)),
        ensures
            n == bytes.len(),
            tokens@.len() == n,
            greedy(table, live_vals(tokens@, 0)) == greedy(table, byte_tokens(bytes)),
            chain_ok(tokens@),
            values_ok(table, bytes, tokens@),
            forall|k: int| !#[trigger] mergeable_at(table, tokens@, k),
        decreases queue@.len() + 3 * alive.len(),
    {
        let ghost t = tokens@;
        let ghost q0 = queue@;
        let popped = queue.pop();
        let ghost q1 = queue@;
        let m = match popped {
            Some(m) => m,
            None => {
                assert forall|k: int| !#[trigger] mergeable_at(table, tokens@, k) by {
                    if mergeable_at(table, tokens@, k) {
                        let x = Merge { idx: k as usize, val: table[(t[k].val, t[t[k].next.unwrap() as int].val)] };
                        assert(q0.contains(x));
                    }
                }
                break;
            },
        };
        let idx = m.idx;
        if tokens[idx].width == 0 {
            assert forall|k: int| #[trigger] mergeable_at(table, t, k) implies queue@.contains(
                Merge { idx: k as usize, val: table[(t[k].val, t[t[k].next.unwrap() as int].val)] },
            ) by {
                assert(q0.contains(Merge { idx: k as usize, val: table[(t[k].val, t[t[k].next.unwrap() as int].val)] }));
            }
            continue;
        }
        let right_idx = match tokens[idx].next {
            Some(r) => r,
            None => {
                assert forall|k: int| #[trigger] mergeable_at(table, t, k) implies queue@.contains(
                    Merge { idx: k as usize, val: table[(t[k].val, t[t[k].next.unwrap() as int].val)] },
                ) by {
                    assert(q0.contains(Merge { idx: k as usize, val: table[(t[k].val, t[t[k].next.unwrap() as int].val)] }));
                }
                continue;
            },
        };
        assert(live(t, idx as int));
        assert(node_ok(t, idx as int));
        let right_token = tokens[right_idx];
        let valid = match merges.get(tokens[idx].val, right_token.val) {
            Some(v) => v == m.val,
            None => false,
        };
        if !valid {
            assert forall|k: int| #[trigger] mergeable_at(table, t, k) implies queue@.contains(
                Merge { idx: k as usize, val: table[(t[k].val, t[t[k].next.unwrap() as int].val)] },
            ) by {
                assert(q0.contains(Merge { idx: k as usize, val: table[(t[k].val, t[t[k].next.unwrap() as int].val)] }));
            }
            continue;
        }
        assert(live(t, right_idx as int));
        assert(node_ok(t, right_idx as int));
        let mut left = tokens[idx];
        left.merge(&right_token, m.val);
        tokens[idx] = left;
        tokens[right_idx].width = 0;
        proof {
            alive = alive.remove(right_idx as int);
        }
        let ghost t1 = tokens@;
        match left.next {
            Some(next_idx) => {
                assert(live(t, next_idx as int));
                tokens[next_idx].prev = Some(idx);
                match merges.get(left.val, tokens[next_idx].val) {
                    Some(v) => {
                        queue.push(Merge { idx, val: v });
                    },
                    None => {},
                }
            },
            None => {},
        }
        let ghost t2 = tokens@;
        let ghost q2 = queue@;
        match left.prev {
            Some(prev_idx) => {
                match merges.get(tokens[prev_idx].val, left.val) {
                    Some(v) => {
                        queue.push(Merge { idx: prev_idx, val: v });
                    },
                    None => {},
                }
            },
            None => {},
        }
        proof {
            assert(merge_step(table, bytes, t, t2, idx as int, right_idx as int, m.val));
            lemma_step_live(table, bytes, t, t2, idx as int, right_idx as int, m.val);
            lemma_step_chain(table, bytes, t, t2, idx as int, right_idx as int, m.val);
            lemma_step_values(table, bytes, t, t2, idx as int, right_idx as int, m.val);
            lemma_step_pairs(table, bytes, t, t2, idx as int, right_idx as int, m.val);
            lemma_popped_first(table, t, q0, m);
            lemma_step_sequence(table, bytes, t, t2, idx as int, right_idx as int, m.val);
            lemma_greedy_step(table, live_vals(t, 0), live_seg(t, 0, idx as int).len() as int);
            assert forall|k: int| #[trigger] mergeable_at(table, t2, k) implies queue@.contains(
                Merge { idx: k as usize, val: table[(t2[k].val, t2[t2[k].next.unwrap() as int].val)] },
            ) by {
                let x = Merge { idx: k as usize, val: table[(t2[k].val, t2[t2[k].next.unwrap() as int].val)] };
                if k == idx {
                    assert(q2.contains(x));
                } else if Some(k as usize) == t[idx as int].prev {
                } else {
                    assert(mergeable_at(table, t, k));
                    assert(q0.contains(x));
                    assert(q1.contains(x));
                    assert(q2.contains(x));
                }
            }
        }
    }
    let ghost t = tokens@;
    let mut out: Vec<u32> = Vec::new();
    let mut i: usize = 0;
    while i < n
        invariant
            n == bytes.len(),
            tokens@ == t,
            t.len() == n,
            i <= n,
            out@ + live_vals(t, i as int) == live_vals(t, 0),
        decreases n - i,
    {
        if tokens[i].width != 0 {
            out.push(tokens[i].val);
        }
        i = i + 1;
    }
    proof {
        assert(live_vals(t, n as int) =~= Seq::<u32>::empty());
        assert(out@ =~= live_vals(t, 0));
        lemma_decodes_from(table, bytes, t, 0);
        assert(bytes.subrange(0, n as int) =~= bytes);
        lemma_merged_from(table, t, 0);
        lemma_nothing_mergeable(table, t);
        lemma_greedy_done(table, live_vals(t, 0));
        if table_ok(table) {
            lemma_decodes_expand(table, out@, bytes);
        }
        if out@.len() > 0 {
            let k = choose|k: int| 0 < k <= bytes.len() && #[trigger] expands(table, out@[0], bytes.subrange(0, k))
                && decodes(table, out@.drop_first(), bytes.subrange(k, bytes.len() as int));
        }
    }
    out
}

/// Encodes `utf8_codepoints` with the rules of an ordered merge list, as training produces it.
/// A list with a new token below 256, or with two rules for one pair, is refused.
pub fn encode_with_rules(utf8_codepoints: Vec<u8>, merges: &Vec<((u32, u32), u32)>) -> (r: Result<Vec<u32>, MergeTableError>)
    ensures
        r is Ok <==> rules_valid(merges@),
        r matches Ok(out) ==> {
            &&& table_ok(rules_map(merges@, merges@.len() as int)) ==> expand_all(rules_map(merges@, merges@.len() as int), out@) == utf8_codepoints@
            &&& out@ == greedy(rules_map(merges@, merges@.len() as int), byte_tokens(utf8_codepoints@))
            &&& decodes(rules_map(merges@, merges@.len() as int), out@, utf8_codepoints@)
            &&& fully_merged(rules_map(merges@, merges@.len() as int), out@)
        },
        r matches Err(e) ==> exists|i: int| 0 <= i < merges@.len() && rules_valid(merges@.subrange(0, i))
            && !rules_valid(merges@.subrange(0, i + 1)) && e == rule_error(merges@, i),
{
    match MergeTable::checked_from_rules(merges) {
        Ok(table) => Ok(encode(utf8_codepoints, &table)),
        Err(e) => Err(e),
    }
}

} // verus!

verus! {

/// Whether the neighbouring tokens at `i` and `i + 1` of `s` have a rule.
pub open spec fn mergeable(table: Map<(u32, u32), u32>, s: Seq<u32>, i: int) -> bool {
    0 <= i && i + 1 < s.len() && table.contains_key((s[i], s[i + 1]))
}

/// The token that the rule for the pair at `i` gives.
pub open spec fn rule_at(table: Map<(u32, u32), u32>, s: Seq<u32>, i: int) -> u32 {
    table[(s[i], s[i + 1])]
}

/// Whether the pair at `i` is the one to merge first: its rule gives the lowest new token, and
/// no pair further left has a rule giving the same token.
pub open spec fn is_first_merge(table: Map<(u32, u32), u32>, s: Seq<u32>, i: int) -> bool {
    &&& mergeable(table, s, i)
    &&& forall|j: int| #[trigger] mergeable(table, s, j) ==> rule_at(table, s, i) < rule_at(table, s, j)
        || (rule_at(table, s, i) == rule_at(table, s, j) && i <= j)
}

/// `s` with the pair at `i` replaced by `t`.
pub open spec fn merge_at(s: Seq<u32>, i: int, t: u32) -> Seq<u32> {
    s.subrange(0, i) + seq![t] + s.subrange(i + 2, s.len() as int)
}

/// What merging first-come pairs, one at a time, makes of `s`, until no pair has a rule.
pub open spec fn greedy(table: Map<(u32, u32), u32>, s: Seq<u32>) -> Seq<u32>
    decreases s.len(),
{
    if exists|i: int| is_first_merge(table, s, i) {
        let i = choose|i: int| is_first_merge(table, s, i);
        greedy(table, merge_at(s, i, rule_at(table, s, i)))
    } else {
        s
    }
}

/// The bytes as tokens, one each.
pub open spec fn byte_tokens(bytes: Seq<u8>) -> Seq<u32> {
    bytes.map_values(|b: u8| b as u32)
}

proof fn lemma_first_merge_unique(table: Map<(u32, u32), u32>, s: Seq<u32>, i: int, j: int)
    requires
        is_first_merge(table, s, i),
        is_first_merge(table, s, j),
    ensures
        i == j,
{
    assert(mergeable(table, s, j));
    assert(mergeable(table, s, i));
}

/// Merging the first-come pair does not change where greedy merging ends.
proof fn lemma_greedy_step(table: Map<(u32, u32), u32>, s: Seq<u32>, i: int)
    requires
        is_first_merge(table, s, i),
    ensures
        greedy(table, s) == greedy(table, merge_at(s, i, rule_at(table, s, i))),
{
    let k = choose|k: int| is_first_merge(table, s, k);
    lemma_first_merge_unique(table, s, i, k);
}

/// Without a pair that has a rule, greedy merging leaves `s` alone.
proof fn lemma_greedy_done(table: Map<(u32, u32), u32>, s: Seq<u32>)
    requires
        forall|j: int| !#[trigger] mergeable(table, s, j),
    ensures
        greedy(table, s) == s,
{
    if exists|i: int| is_first_merge(table, s, i) {
        let i = choose|i: int| is_first_merge(table, s, i);
        assert(mergeable(table, s, i));
    }
}

/// The tokens of the live positions in `[a, b)`, in order.
pub open spec fn live_seg(t: Seq<Token>, a: int, b: int) -> Seq<u32>
    decreases b - a,
{
    if a >= b || a < 0 || a >= t.len() {
        Seq::empty()
    } else if t[a].width > 0 {
        seq![t[a].val] + live_seg(t, a + 1, b)
    } else {
        live_seg(t, a + 1, b)
    }
}

proof fn lemma_live_split(t: Seq<Token>, a: int, b: int)
    requires
        0 <= a <= b <= t.len(),
    ensures
        live_vals(t, a) == live_seg(t, a, b) + live_vals(t, b),
    decreases b - a,
{
    if a < b {
        lemma_live_split(t, a + 1, b);
        if t[a].width > 0 {
            assert(seq![t[a].val] + (live_seg(t, a + 1, b) + live_vals(t, b))
                =~= (seq![t[a].val] + live_seg(t, a + 1, b)) + live_vals(t, b));
        }
    } else {
        assert(live_seg(t, a, b) =~= Seq::<u32>::empty());
        assert(live_seg(t, a, b) + live_vals(t, b) =~= live_vals(t, b));
    }
}

proof fn lemma_seg_split(t: Seq<Token>, a: int, b: int, c: int)
    requires
        0 <= a <= b <= c <= t.len(),
    ensures
        live_seg(t, a, c) == live_seg(t, a, b) + live_seg(t, b, c),
    decreases b - a,
{
    if a < b {
        lemma_seg_split(t, a + 1, b, c);
        if t[a].width > 0 {
            assert(seq![t[a].val] + (live_seg(t, a + 1, b) + live_seg(t, b, c))
                =~= (seq![t[a].val] + live_seg(t, a + 1, b)) + live_seg(t, b, c));
        }
    } else {
        assert(live_seg(t, a, b) + live_seg(t, b, c) =~= live_seg(t, b, c));
    }
}

proof fn lemma_seg_same(t: Seq<Token>, t2: Seq<Token>, a: int, b: int)
    requires
        0 <= a <= b <= t.len(),
        t2.len() == t.len(),
        forall|k: int| a <= k < b ==> (#[trigger] t2[k]).width == t[k].width && t2[k].val == t[k].val,
    ensures
        live_seg(t2, a, b) == live_seg(t, a, b),
    decreases b - a,
{
    if a < b {
        assert(t2[a].width == t[a].width && t2[a].val == t[a].val);
        lemma_seg_same(t, t2, a + 1, b);
    }
}

proof fn lemma_vals_same(t: Seq<Token>, t2: Seq<Token>, a: int)
    requires
        0 <= a <= t.len(),
        t2.len() == t.len(),
        forall|k: int| a <= k < t.len() ==> (#[trigger] t2[k]).width == t[k].width && t2[k].val == t[k].val,
    ensures
        live_vals(t2, a) == live_vals(t, a),
    decreases t.len() - a,
{
    if a < t.len() {
        assert(t2[a].width == t[a].width && t2[a].val == t[a].val);
        lemma_vals_same(t, t2, a + 1);
    }
}

proof fn lemma_seg_dead(t: Seq<Token>, a: int, b: int)
    requires
        0 <= a <= b <= t.len(),
        forall|k: int| a <= k < b ==> (#[trigger] t[k]).width == 0,
    ensures
        live_seg(t, a, b) == Seq::<u32>::empty(),
    decreases b - a,
{
    if a < b {
        assert(t[a].width == 0);
        lemma_seg_dead(t, a + 1, b);
    }
}

/// The live position whose token stands at index `j` of the tokens from `a` on.
proof fn lemma_index_in(t: Seq<Token>, a: int, j: int) -> (k: int)
    requires
        0 <= a <= t.len(),
        0 <= j < live_vals(t, a).len(),
    ensures
        a <= k < t.len(),
        live(t, k),
        live_seg(t, a, k).len() == j,
        live_vals(t, a)[j] == t[k].val,
    decreases t.len() - a,
{
    if t[a].width > 0 {
        if j == 0 {
            assert(live_seg(t, a, a) =~= Seq::<u32>::empty());
            a
        } else {
            let k = lemma_index_in(t, a + 1, j - 1);
            assert(live_seg(t, a, k) == seq![t[a].val] + live_seg(t, a + 1, k));
            k
        }
    } else {
        let k = lemma_index_in(t, a + 1, j);
        assert(live_seg(t, a, k) == live_seg(t, a + 1, k));
        k
    }
}

/// Around a live position `k`, the sequence of live tokens reads: those before, `k`'s token,
/// and from its next live position on.
proof fn lemma_around(t: Seq<Token>, k: int)
    requires
        chain_ok(t),
        live(t, k),
    ensures
        live_vals(t, 0) == live_seg(t, 0, k) + seq![t[k].val] + live_vals(t, end_of(t, k)),
{
    assert(node_ok(t, k));
    let e = end_of(t, k);
    lemma_live_split(t, 0, k);
    assert forall|x: int| k + 1 <= x < e implies (#[trigger] t[x]).width == 0 by {
        assert(k < x < end_of(t, k));
    }
    lemma_live_vals_skip(t, k + 1, e);
    assert(live_vals(t, k) == seq![t[k].val] + live_vals(t, k + 1));
    assert(live_seg(t, 0, k) + (seq![t[k].val] + live_vals(t, e)) =~= live_seg(t, 0, k) + seq![t[k].val] + live_vals(t, e));
}

proof fn lemma_step_sequence(
    table: Map<(u32, u32), u32>,
    bytes: Seq<u8>,
    t: Seq<Token>,
    t2: Seq<Token>,
    idx: int,
    r: int,
    new: u32,
)
    requires
        merge_step(table, bytes, t, t2, idx, r, new),
    ensures
        live_seg(t, 0, idx).len() + 1 < live_vals(t, 0).len(),
        live_vals(t, 0)[live_seg(t, 0, idx).len() as int] == t[idx].val,
        live_vals(t, 0)[live_seg(t, 0, idx).len() as int + 1] == t[r].val,
        live_vals(t2, 0) == merge_at(live_vals(t, 0), live_seg(t, 0, idx).len() as int, new),
{
    assert(node_ok(t, idx));
    assert(live(t, r));
    assert(node_ok(t, r));
    lemma_step_live(table, bytes, t, t2, idx, r, new);
    lemma_step_chain(table, bytes, t, t2, idx, r, new);
    let er = end_of(t, r);
    let nx = t[r].next;
    let seg = live_seg(t, 0, idx);
    let s = live_vals(t, 0);
    lemma_around(t, idx);
    assert(end_of(t, idx) == r);
    assert forall|x: int| r + 1 <= x < er implies (#[trigger] t[x]).width == 0 by {
        assert(r < x < end_of(t, r));
    }
    lemma_live_vals_skip(t, r + 1, er);
    assert(live_vals(t, r) == seq![t[r].val] + live_vals(t, er));
    let rest = live_vals(t, er);
    assert(s =~= seg + seq![t[idx].val, t[r].val] + rest);
    assert(live(t2, idx));
    lemma_around(t2, idx);
    assert(end_of(t2, idx) == er);
    assert forall|k: int| 0 <= k < idx implies (#[trigger] t2[k]).width == t[k].width && t2[k].val == t[k].val by {
        if nx == Some(k as usize) {
            assert(live(t, k));
            assert(node_ok(t, k));
        }
        assert(t2[k] == t[k]);
    }
    lemma_seg_same(t, t2, 0, idx);
    assert forall|k: int| er <= k < t.len() implies (#[trigger] t2[k]).width == t[k].width && t2[k].val == t[k].val by {
        if nx != Some(k as usize) {
            assert(t2[k] == t[k]);
        }
    }
    lemma_vals_same(t, t2, er);
    let i = seg.len() as int;
    assert(merge_at(s, i, new) =~= seg + seq![new] + rest);
}

proof fn lemma_popped_first(table: Map<(u32, u32), u32>, t: Seq<Token>, q: Seq<Merge>, m: Merge)
    requires
        t.len() <= usize::MAX,
        chain_ok(t),
        queue_covers(table, t, q),
        forall|x: Merge| #[trigger] q.contains(x) ==> comes_first(m, x),
        live(t, m.idx as int),
        t[m.idx as int].next is Some,
        table.contains_key((t[m.idx as int].val, t[t[m.idx as int].next.unwrap() as int].val)),
        table[(t[m.idx as int].val, t[t[m.idx as int].next.unwrap() as int].val)] == m.val,
    ensures
        is_first_merge(table, live_vals(t, 0), live_seg(t, 0, m.idx as int).len() as int),
{
    let idx = m.idx as int;
    let s = live_vals(t, 0);
    let i = live_seg(t, 0, idx).len() as int;
    assert(node_ok(t, idx));
    let r = t[idx].next.unwrap() as int;
    assert(live(t, r));
    lemma_around(t, idx);
    assert(end_of(t, idx) == r);
    assert(live_vals(t, r)[0] == t[r].val);
    assert(s[i] == t[idx].val);
    assert(s[i + 1] == t[r].val);
    assert(mergeable(table, s, i));
    assert forall|j: int| #[trigger] mergeable(table, s, j) implies rule_at(table, s, i) < rule_at(table, s, j)
        || (rule_at(table, s, i) == rule_at(table, s, j) && i <= j) by {
        let k = lemma_index_in(t, 0, j);
        lemma_around(t, k);
        assert(node_ok(t, k));
        let e = end_of(t, k);
        if e >= t.len() {
            assert(live_vals(t, e) =~= Seq::<u32>::empty());
            assert(s.len() == j + 1);
        }
        assert(live(t, e));
        assert(live_vals(t, e)[0] == t[e].val);
        assert(s[j] == t[k].val);
        assert(s[j + 1] == t[e].val);
        assert(mergeable_at(table, t, k));
        let x = Merge { idx: k as usize, val: table[(t[k].val, t[t[k].next.unwrap() as int].val)] };
        assert(q.contains(x));
        assert(comes_first(m, x));
        if idx <= k {
            lemma_seg_split(t, 0, idx, k);
        }
    }
}

proof fn lemma_nothing_mergeable(table: Map<(u32, u32), u32>, t: Seq<Token>)
    requires
        chain_ok(t),
        forall|k: int| !#[trigger] mergeable_at(table, t, k),
    ensures
        forall|j: int| !#[trigger] mergeable(table, live_vals(t, 0), j),
{
    let s = live_vals(t, 0);
    assert forall|j: int| !#[trigger] mergeable(table, s, j) by {
        if mergeable(table, s, j) {
            let k = lemma_index_in(t, 0, j);
            lemma_around(t, k);
            assert(node_ok(t, k));
            let e = end_of(t, k);
            if e >= t.len() {
                assert(live_vals(t, e) =~= Seq::<u32>::empty());
                assert(s.len() == j + 1);
            }
            assert(live(t, e));
            assert(live_vals(t, e)[0] == t[e].val);
            assert(s[j] == t[k].val);
            assert(s[j + 1] == t[e].val);
            assert(mergeable_at(table, t, k));
        }
    }
}

proof fn lemma_initial_sequence(bytes: Seq<u8>, t: Seq<Token>, i: int)
    requires
        t.len() == bytes.len(),
        forall|k: int| 0 <= k < t.len() ==> #[trigger] t[k] == initial_token(bytes, k),
        0 <= i <= t.len(),
    ensures
        live_vals(t, i) == byte_tokens(bytes).subrange(i, bytes.len() as int),
    decreases t.len() - i,
{
    if i < t.len() {
        assert(t[i] == initial_token(bytes, i));
        lemma_initial_sequence(bytes, t, i + 1);
        assert(byte_tokens(bytes).subrange(i, bytes.len() as int)
            =~= seq![bytes[i] as u32] + byte_tokens(bytes).subrange(i + 1, bytes.len() as int));
    } else {
        assert(byte_tokens(bytes).subrange(i, bytes.len() as int) =~= Seq::<u32>::empty());
    }
}

/// A table that can be read backwards: every rule makes a token above the bytes from two smaller
/// tokens, and no two rules make the same token.
pub open spec fn table_ok(table: Map<(u32, u32), u32>) -> bool {
    &&& forall|p: (u32, u32)| #[trigger] table.contains_key(p) ==> table[p] >= 256 && p.0 < table[p] && p.1 < table[p]
    &&& forall|p: (u32, u32), q: (u32, u32)| #[trigger] table.contains_key(p) && #[trigger] table.contains_key(q)
        && table[p] == table[q] ==> p == q
}

/// The pair that a rule of the table merges into `t`.
pub open spec fn rule_of(table: Map<(u32, u32), u32>, t: u32) -> (u32, u32) {
    choose|p: (u32, u32)| table.contains_key(p) && table[p] == t
}

/// The bytes that token `t` stands for, expanding rules backwards: a byte stands for itself.
pub open spec fn expand(table: Map<(u32, u32), u32>, t: u32) -> Seq<u8>
    decreases t,
{
    if t < 256 {
        seq![t as u8]
    } else if exists|p: (u32, u32)| table.contains_key(p) && table[p] == t {
        let p = rule_of(table, t);
        if p.0 < t && p.1 < t {
            expand(table, p.0) + expand(table, p.1)
        } else {
            Seq::empty()
        }
    } else {
        Seq::empty()
    }
}

/// The bytes that the tokens stand for, one after another.
pub open spec fn expand_all(table: Map<(u32, u32), u32>, out: Seq<u32>) -> Seq<u8>
    decreases out.len(),
{
    if out.len() == 0 {
        Seq::empty()
    } else {
        expand(table, out[0]) + expand_all(table, out.drop_first())
    }
}

proof fn lemma_derivation_expands(table: Map<(u32, u32), u32>, d: Derivation, t: u32)
    requires
        table_ok(table),
        built_token(table, d) == Some(t),
    ensures
        leaves(d) == expand(table, t),
    decreases d,
{
    match d {
        Derivation::Byte(b) => {
            assert(leaves(d) =~= seq![t as u8]);
        },
        Derivation::Join(l, r) => {
            let a = built_token(table, *l).unwrap();
            let b = built_token(table, *r).unwrap();
            assert(table.contains_key((a, b)) && table[(a, b)] == t);
            lemma_derivation_expands(table, *l, a);
            lemma_derivation_expands(table, *r, b);
            let p = rule_of(table, t);
            assert(p == (a, b));
        },
    }
}

/// Under a table that can be read backwards, tokens that decode to some bytes expand to exactly
/// those bytes.
pub proof fn lemma_decodes_expand(table: Map<(u32, u32), u32>, out: Seq<u32>, bytes: Seq<u8>)
    requires
        table_ok(table),
        decodes(table, out, bytes),
    ensures
        expand_all(table, out) == bytes,
    decreases out.len(),
{
    if out.len() == 0 {
        assert(bytes =~= Seq::<u8>::empty());
    } else {
        let k = choose|k: int| 0 < k <= bytes.len() && #[trigger] expands(table, out[0], bytes.subrange(0, k))
            && decodes(table, out.drop_first(), bytes.subrange(k, bytes.len() as int));
        let d = choose|d: Derivation| built_token(table, d) == Some(out[0]) && #[trigger] leaves(d) == bytes.subrange(0, k);
        lemma_derivation_expands(table, d, out[0]);
        lemma_decodes_expand(table, out.drop_first(), bytes.subrange(k, bytes.len() as int));
        assert(bytes.subrange(0, k) + bytes.subrange(k, bytes.len() as int) =~= bytes);
    }
}

} // verus!
