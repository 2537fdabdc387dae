use vstd::prelude::*;
use std::collections::HashMap;

verus! {

broadcast use vstd::std_specs::hash::group_hash_axioms;

/// The 64-bit key of a pair of tokens: the first token in the high half, the second in the low half.
pub open spec fn pair_key(a: u32, b: u32) -> u64 {
    (a as u64 * 0x1_0000_0000 + b as u64) as u64
}

/// Two pairs share a key only if they are the same pair.
pub proof fn lemma_pair_key_injective(a: u32, b: u32, c: u32, d: u32)
    requires
        pair_key(a, b) == pair_key(c, d),
    ensures
        a == c && b == d,
{
    assert(a as int * 0x1_0000_0000 + b as int <= 0xffff_ffff_ffff_ffff) by (nonlinear_arith)
        requires a <= 0xffff_ffff, b <= 0xffff_ffff;
    assert(c as int * 0x1_0000_0000 + d as int <= 0xffff_ffff_ffff_ffff) by (nonlinear_arith)
        requires c <= 0xffff_ffff, d <= 0xffff_ffff;
    assert(a == c && b == d) by (nonlinear_arith)
        requires
            a as int * 0x1_0000_0000 + b as int == c as int * 0x1_0000_0000 + d as int,
            0 <= b < 0x1_0000_0000, 0 <= d < 0x1_0000_0000, a >= 0, c >= 0;
}

/// Packs a pair of tokens into one 64-bit key, the first token in the high half.
pub fn combine_u32(a: u32, b: u32) -> (r: u64)
    ensures
        r == pair_key(a, b),
        r as int == a as int * 0x1_0000_0000 + b as int,
{
    let r = ((a as u64) << 32u64) | (b as u64);
    assert(((a as u64) << 32u64) | (b as u64) == (a as u64) * 0x1_0000_0000 + (b as u64)) by (bit_vector);
    assert(a as int * 0x1_0000_0000 + b as int <= 0xffff_ffff_ffff_ffff) by (nonlinear_arith)
        requires a <= 0xffff_ffff, b <= 0xffff_ffff;
    r
}

/// The pair of tokens that a 64-bit key holds.
pub open spec fn key_pair(key: u64) -> (u32, u32) {
    ((key / 0x1_0000_0000) as u32, (key % 0x1_0000_0000) as u32)
}

/// A pair's key gives the pair back.
pub proof fn lemma_key_pair_round_trip(a: u32, b: u32)
    ensures
        key_pair(pair_key(a, b)) == (a, b),
{
    let k = a as int * 0x1_0000_0000 + b as int;
    assert(a as int * 0x1_0000_0000 + b as int <= 0xffff_ffff_ffff_ffff) by (nonlinear_arith)
        requires a <= 0xffff_ffff, b <= 0xffff_ffff;
    vstd::arithmetic::div_mod::lemma_fundamental_div_mod_converse(k, 0x1_0000_0000, a as int, b as int);
}

/// Splits a key made by `combine_u32` back into its two tokens.
pub fn split_u64(key: u64) -> (r: (u32, u32))
    ensures
        key == pair_key(r.0, r.1),
        r == key_pair(key),
{
    let a = (key >> 32u64) as u32;
    let b = key as u32;
    assert(key == ((key >> 32u64) as u32 as u64) * 0x1_0000_0000 + (key as u32 as u64)) by (bit_vector);
    assert((key >> 32u64) as u32 == (key / 0x1_0000_0000) as u32) by (bit_vector);
    assert(key as u32 == (key % 0x1_0000_0000) as u32) by (bit_vector);
    (a, b)
}

/// A map keyed by pairs of tokens, each pair stored under its 64-bit key.
pub struct PairMap<V> {
    entries: HashMap<u64, V>,
}

/// A table of merge rules: each rule maps an adjacent pair of tokens to the token that replaces it.
pub type MergeTable = PairMap<u32>;

impl<V> View for PairMap<V> {
    type V = Map<(u32, u32), V>;

    closed spec fn view(&self) -> Map<(u32, u32), V> {
        Map::new(
            |p: (u32, u32)| self.entries@.contains_key(pair_key(p.0, p.1)),
            |p: (u32, u32)| self.entries@[pair_key(p.0, p.1)],
        )
    }
}

impl<V: Copy> PairMap<V> {
    /// An empty map.
    pub fn new() -> (t: Self)
        ensures
            t@ == Map::<(u32, u32), V>::empty(),
    {
        let t = PairMap { entries: HashMap::new() };
        assert(t@ =~= Map::<(u32, u32), V>::empty());
        t
    }

    /// Maps `pair` to `value`, replacing what it was mapped to.
    pub fn insert(&mut self, pair: (u32, u32), value: V)
        ensures
            final(self)@ == old(self)@.insert(pair, value),
    {
        let k = combine_u32(pair.0, pair.1);
        self.entries.insert(k, value);
        assert forall|p: (u32, u32)| pair_key(p.0, p.1) == k implies p == pair by {
            lemma_pair_key_injective(p.0, p.1, pair.0, pair.1);
        }
        assert(final(self)@ =~= old(self)@.insert(pair, value));
    }

    /// What the pair `(a, b)` is mapped to, if anything.
    pub fn get(&self, a: u32, b: u32) -> (r: Option<V>)
        ensures
            r == (if self@.contains_key((a, b)) { Some(self@[(a, b)]) } else { None }),
    {
        let k = combine_u32(a, b);
        match self.entries.get(&k) {
            Some(t) => Some(*t),
            None => None,
        }
    }
}

impl PairMap<u32> {
    /// Builds a table from a list of rules; a later rule for a pair replaces an earlier one.
    pub fn from_rules(rules: &Vec<((u32, u32), u32)>) -> (t: Self)
        ensures
            t@ == rules_map(rules@, rules@.len() as int),
    {
        let mut t = PairMap::new();
        let mut i: usize = 0;
        while i < rules.len()
            invariant
                i <= rules@.len(),
                t@ == rules_map(rules@, i as int),
            decreases rules@.len() - i,
        {
            t.insert(rules[i].0, rules[i].1);
            i = i + 1;
        }
        t
    }
}

/// The map that the first `n` rules of a list give, a later rule for a pair replacing an earlier one.
pub open spec fn rules_map(rules: Seq<((u32, u32), u32)>, n: int) -> Map<(u32, u32), u32>
    decreases n,
{
    if n <= 0 {
        Map::empty()
    } else {
        rules_map(rules, n - 1).insert(rules[n - 1].0, rules[n - 1].1)
    }
}

/// Why a list of merge rules is refused, with the index of the first rule at fault.
#[derive(Clone, Copy, Debug, PartialEq, Eq, Structural)]
pub enum MergeTableError {
    /// The rule's new token is a byte.
    TokenBelowBytes(usize),
    /// The rule's pair already has an earlier rule.
    DuplicatePair(usize),
}

/// Every new token lies above the bytes and no pair has two rules.
pub open spec fn rules_valid(rules: Seq<((u32, u32), u32)>) -> bool {
    &&& forall|i: int| 0 <= i < rules.len() ==> (#[trigger] rules[i]).1 >= 256
    &&& forall|i: int, j: int| 0 <= i < j < rules.len() ==> (#[trigger] rules[i]).0 != (#[trigger] rules[j]).0
}

/// The error for a list whose first `i` rules are sound and whose rule `i` is not.
pub open spec fn rule_error(rules: Seq<((u32, u32), u32)>, i: int) -> MergeTableError {
    if rules[i].1 < 256 { MergeTableError::TokenBelowBytes(i as usize) } else { MergeTableError::DuplicatePair(i as usize) }
}

proof fn lemma_rules_map_keys(rules: Seq<((u32, u32), u32)>, n: int, p: (u32, u32))
    requires
        0 <= n <= rules.len(),
    ensures
        rules_map(rules, n).contains_key(p) <==> exists|j: int| 0 <= j < n && (#[trigger] rules[j]).0 == p,
    decreases n,
{
    if n > 0 {
        lemma_rules_map_keys(rules, n - 1, p);
        if exists|j: int| 0 <= j < n && (#[trigger] rules[j]).0 == p {
            let j = choose|j: int| 0 <= j < n && (#[trigger] rules[j]).0 == p;
            if j < n - 1 {
                assert(exists|k: int| 0 <= k < n - 1 && (#[trigger] rules[k]).0 == p);
            }
        }
    }
}

impl PairMap<u32> {
    /// Builds a table from a list of rules, refusing one whose new token is a byte or whose pair
    /// already has a rule; the error names the first such rule.
    pub fn checked_from_rules(rules: &Vec<((u32, u32), u32)>) -> (r: Result<Self, MergeTableError>)
        ensures
            r is Ok <==> rules_valid(rules@),
            r matches Ok(t) ==> t@ == rules_map(rules@, rules@.len() as int),
            r matches Err(e) ==> exists|i: int| 0 <= i < rules@.len() && rules_valid(rules@.subrange(0, i))
                && !rules_valid(rules@.subrange(0, i + 1)) && e == rule_error(rules@, i),
    {
        let mut t = PairMap::new();
        let mut i: usize = 0;
        while i < rules.len()
            invariant
                i <= rules@.len(),
                t@ == rules_map(rules@, i as int),
                rules_valid(rules@.subrange(0, i as int)),
            decreases rules@.len() - i,
        {
            let (pair, token) = rules[i];
            let ghost sub = rules@.subrange(0, i as int + 1);
            if token < 256 {
                proof {
                    assert(sub[i as int].1 < 256);
                    assert(rules@[i as int].1 < 256);
                    assert(!rules_valid(sub));
                    assert(MergeTableError::TokenBelowBytes(i) == rule_error(rules@, i as int));
                }
                return Err(MergeTableError::TokenBelowBytes(i));
            }
            if t.get(pair.0, pair.1).is_some() {
                proof {
                    lemma_rules_map_keys(rules@, i as int, pair);
                    let j = choose|j: int| 0 <= j < i && (#[trigger] rules@[j]).0 == pair;
                    assert(sub[j].0 == sub[i as int].0);
                    assert(rules@[j].0 == rules@[i as int].0);
                    assert(!rules_valid(sub));
                    assert(MergeTableError::DuplicatePair(i) == rule_error(rules@, i as int));
                }
                return Err(MergeTableError::DuplicatePair(i));
            }
            proof {
                lemma_rules_map_keys(rules@, i as int, pair);
                let pre = rules@.subrange(0, i as int);
                assert forall|a: int, b: int| 0 <= a < b < sub.len() implies (#[trigger] sub[a]).0 != (#[trigger] sub[b]).0 by {
                    if b < i {
                        assert(pre[a].0 != pre[b].0);
                    } else {
                        assert(sub[a] == rules@[a]);
                    }
                }
                assert forall|a: int| 0 <= a < sub.len() implies (#[trigger] sub[a]).1 >= 256 by {
                    if a < i {
                        assert(sub[a] == pre[a]);
                    }
                }
            }
            t.insert(pair, token);
            i = i + 1;
        }
        proof {
            assert(rules@.subrange(0, rules@.len() as int) =~= rules@);
        }
        Ok(t)
    }
}

} // verus!
