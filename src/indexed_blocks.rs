use vstd::prelude::*;

verus! {

/// A node of a linked list of tokens kept in an arena: its neighbours are arena positions.
#[derive(Clone, Copy, Debug, PartialEq, Eq, Structural)]
pub struct Node {
    pub val: u32,
    pub prev: Option<usize>,
    pub next: Option<usize>,
}

impl Node {
    /// A node holding `val`, linked to nothing.
    pub fn new(val: u32) -> (n: Node)
        ensures
            n.val == val,
            n.prev is None,
            n.next is None,
    {
        Node { val, prev: None, next: None }
    }

    /// Unlinks the node at position `i` of `nodes`: its previous node then points forward to its
    /// next one and the next node back to the previous one. Its value goes up by one, so that an
    /// index entry that still names it no longer matches the pair it was recorded under.
    pub fn delete(nodes: &mut Vec<Node>, i: usize)
        requires
            i < old(nodes)@.len(),
            old(nodes)@[i as int].val < u32::MAX,
            old(nodes)@[i as int].prev matches Some(p) ==> p < old(nodes)@.len() && p != i,
            old(nodes)@[i as int].next matches Some(n) ==> n < old(nodes)@.len() && n != i,
        ensures
            final(nodes)@ == deleted(old(nodes)@, i as int),
    {
        let node = nodes[i];
        match node.prev {
            Some(p) => {
                nodes[p].next = node.next;
            },
            None => {},
        }
        match node.next {
            Some(n) => {
                nodes[n].prev = node.prev;
            },
            None => {},
        }
        nodes[i].val = node.val + 1;
    }
}

/// The arena after unlinking the node at `i`, as `Node::delete` does it.
pub open spec fn deleted(nodes: Seq<Node>, i: int) -> Seq<Node> {
    let node = nodes[i];
    let a = match node.prev {
        Some(p) => nodes.update(p as int, Node { next: node.next, ..nodes[p as int] }),
        None => nodes,
    };
    let b = match node.next {
        Some(n) => a.update(n as int, Node { prev: node.prev, ..a[n as int] }),
        None => a,
    };
    b.update(i, Node { val: (node.val + 1) as u32, ..b[i] })
}

/// For each adjacent pair of tokens, the places where it was seen, each key listed once.
pub struct PairIndex<V> {
    entries: Vec<((u32, u32), Vec<V>)>,
}

impl<V: Copy> PairIndex<V> {
    /// The pairs, in the order in which they were first added.
    pub closed spec fn keys(&self) -> Seq<(u32, u32)> {
        self.entries@.map_values(|e: ((u32, u32), Vec<V>)| e.0)
    }

    /// Whether place `v` is recorded under pair `k`.
    pub closed spec fn has(&self, k: (u32, u32), v: V) -> bool {
        exists|j: int| 0 <= j < self.entries@.len() && self.entries@[j].0 == k && (#[trigger] self.entries@[j].1@).contains(v)
    }

    /// The places recorded under pair `k`, in the order they were added; none for an absent pair.
    pub closed spec fn places(&self, k: (u32, u32)) -> Seq<V> {
        if exists|j: int| 0 <= j < self.entries@.len() && (#[trigger] self.entries@[j]).0 == k {
            self.entries@[choose|j: int| 0 <= j < self.entries@.len() && (#[trigger] self.entries@[j]).0 == k].1@
        } else {
            Seq::empty()
        }
    }

    proof fn lemma_places_at(&self, j: int)
        requires
            self.wf(),
            0 <= j < self.entries@.len(),
        ensures
            self.places(self.entries@[j].0) == self.entries@[j].1@,
    {
        let k = self.entries@[j].0;
        let i = choose|i: int| 0 <= i < self.entries@.len() && (#[trigger] self.entries@[i]).0 == k;
        if i != j {
            if i < j {
                assert(self.entries@[i].0 != self.entries@[j].0);
            } else {
                assert(self.entries@[j].0 != self.entries@[i].0);
            }
        }
    }

    proof fn lemma_places_absent(&self, k: (u32, u32))
        requires
            forall|j: int| 0 <= j < self.entries@.len() ==> (#[trigger] self.entries@[j]).0 != k,
        ensures
            self.places(k) == Seq::<V>::empty(),
    {
    }

    /// The pairs listed are distinct, and they are exactly the pairs with a place.
    pub proof fn lemma_keys_are_pairs(&self)
        requires
            self.wf(),
        ensures
            self.keys().no_duplicates(),
            forall|k: (u32, u32)| #[trigger] self.keys().contains(k) <==> exists|v: V| self.has(k, v),
            forall|k: (u32, u32), v: V| #[trigger] self.has(k, v) <==> self.places(k).contains(v),
    {
        assert forall|a: int, b: int| 0 <= a < self.keys().len() && 0 <= b < self.keys().len() && a != b
            implies self.keys()[a] != self.keys()[b] by {
            if a < b {
                assert(self.entries@[a].0 != self.entries@[b].0);
            } else {
                assert(self.entries@[b].0 != self.entries@[a].0);
            }
        }
        assert forall|k: (u32, u32)| #[trigger] self.keys().contains(k) <==> exists|v: V| self.has(k, v) by {
            if self.keys().contains(k) {
                let j = choose|j: int| 0 <= j < self.keys().len() && self.keys()[j] == k;
                let v = self.entries@[j].1@[0];
                assert(self.entries@[j].1@.contains(v));
                assert(self.has(k, v));
            }
            if exists|v: V| self.has(k, v) {
                let v = choose|v: V| self.has(k, v);
                let j = choose|j: int| 0 <= j < self.entries@.len() && self.entries@[j].0 == k && (#[trigger] self.entries@[j].1@).contains(v);
                assert(self.keys()[j] == k);
            }
        }
        assert forall|k: (u32, u32), v: V| #[trigger] self.has(k, v) <==> self.places(k).contains(v) by {
            if self.has(k, v) {
                let j = choose|j: int| 0 <= j < self.entries@.len() && self.entries@[j].0 == k && (#[trigger] self.entries@[j].1@).contains(v);
                self.lemma_places_at(j);
            }
            if self.places(k).contains(v) {
                if exists|j: int| 0 <= j < self.entries@.len() && (#[trigger] self.entries@[j]).0 == k {
                    let j = choose|j: int| 0 <= j < self.entries@.len() && (#[trigger] self.entries@[j]).0 == k;
                    self.lemma_places_at(j);
                    assert(self.entries@[j].1@.contains(v));
                }
            }
        }
    }

    /// Each pair is listed once, with at least one place.
    pub closed spec fn wf(&self) -> bool {
        &&& forall|i: int, j: int| 0 <= i < j < self.entries@.len() ==> (#[trigger] self.entries@[i]).0 != (#[trigger] self.entries@[j]).0
        &&& forall|i: int| 0 <= i < self.entries@.len() ==> (#[trigger] self.entries@[i]).1@.len() > 0
    }

    /// An index with no pairs.
    pub fn new() -> (r: Self)
        ensures
            r.wf(),
            r.keys().len() == 0,
            forall|k: (u32, u32), v: V| !r.has(k, v),
    {
        PairIndex { entries: Vec::new() }
    }

    /// The number of distinct pairs.
    pub fn len(&self) -> (r: usize)
        ensures
            r == self.keys().len(),
    {
        self.entries.len()
    }

    fn find(&self, k: &(u32, u32)) -> (r: Option<usize>)
        ensures
            match r {
                Some(j) => j < self.entries@.len() && self.entries@[j as int].0 == *k,
                None => forall|j: int| 0 <= j < self.entries@.len() ==> (#[trigger] self.entries@[j]).0 != *k,
            },
    {
        let mut j: usize = 0;
        while j < self.entries.len()
            invariant
                j <= self.entries@.len(),
                forall|i: int| 0 <= i < j ==> (#[trigger] self.entries@[i]).0 != *k,
            decreases self.entries@.len() - j,
        {
            if self.entries[j].0 .0 == k.0 && self.entries[j].0 .1 == k.1 {
                return Some(j);
            }
            j = j + 1;
        }
        None
    }

    /// Whether pair `k` has been recorded.
    pub fn contains_key(&self, k: &(u32, u32)) -> (r: bool)
        requires
            self.wf(),
        ensures
            r == self.keys().contains(*k),
            r == exists|v: V| self.has(*k, v),
    {
        let r = self.find(k);
        proof {
            match r {
                Some(j) => {
                    assert(self.keys()[j as int] == *k);
                    let v = self.entries@[j as int].1@[0];
                    assert(self.entries@[j as int].1@.contains(v));
                    assert(self.has(*k, v));
                },
                None => {
                    assert forall|i: int| 0 <= i < self.keys().len() implies self.keys()[i] != *k by {
                        assert(self.entries@[i].0 != *k);
                    }
                },
            }
        }
        r.is_some()
    }

    /// The places recorded under pair `k`, if any.
    pub fn get(&self, k: &(u32, u32)) -> (r: Option<&Vec<V>>)
        requires
            self.wf(),
        ensures
            r is Some == self.keys().contains(*k),
            r matches Some(vs) ==> forall|v: V| vs@.contains(v) <==> self.has(*k, v),
            r matches Some(vs) ==> vs@ == self.places(*k),
    {
        match self.find(k) {
            Some(j) => {
                proof {
                    self.lemma_places_at(j as int);
                    assert(self.keys()[j as int] == *k);
                    assert forall|v: V| self.has(*k, v) implies self.entries@[j as int].1@.contains(v) by {
                        let i = choose|i: int| 0 <= i < self.entries@.len() && self.entries@[i].0 == *k && (#[trigger] self.entries@[i].1@).contains(v);
                        if i != j {
                            if i < j {
                                assert(self.entries@[i].0 != self.entries@[j as int].0);
                            } else {
                                assert(self.entries@[j as int].0 != self.entries@[i].0);
                            }
                        }
                    }
                }
                Some(&self.entries[j].1)
            },
            None => {
                proof {
                    assert forall|i: int| 0 <= i < self.keys().len() implies self.keys()[i] != *k by {
                        assert(self.entries@[i].0 != *k);
                    }
                }
                None
            },
        }
    }

    /// Records place `v` under pair `k`.
    pub fn add(&mut self, k: (u32, u32), v: V)
        requires
            old(self).wf(),
        ensures
            final(self).wf(),
            forall|k2: (u32, u32), v2: V| final(self).has(k2, v2) <==> (old(self).has(k2, v2) || (k2 == k && v2 == v)),
            final(self).keys() == (if old(self).keys().contains(k) { old(self).keys() } else { old(self).keys().push(k) }),
            forall|k2: (u32, u32)| #[trigger] final(self).places(k2)
                == (if k2 == k { old(self).places(k).push(v) } else { old(self).places(k2) }),
    {
        let ghost before = self.entries@;
        match self.find(&k) {
            Some(j) => {
                self.entries[j].1.push(v);
                proof {
                    let after = self.entries@;
                    assert(old(self).keys()[j as int] == k);
                    assert(self.keys() =~= old(self).keys());
                    assert(after[j as int].1@ == before[j as int].1@.push(v));
                    assert(after[j as int].1@[before[j as int].1@.len() as int] == v);
                    assert forall|k2: (u32, u32), v2: V| self.has(k2, v2) <==> (old(self).has(k2, v2) || (k2 == k && v2 == v)) by {
                        if self.has(k2, v2) {
                            let i = choose|i: int| 0 <= i < after.len() && after[i].0 == k2 && (#[trigger] after[i].1@).contains(v2);
                            if i != j {
                                assert(before[i] == after[i]);
                            } else if v2 != v {
                                let q = choose|q: int| 0 <= q < after[i].1@.len() && after[i].1@[q] == v2;
                                assert(before[i].1@[q] == v2);
                                assert(before[i].1@.contains(v2));
                            }
                        }
                        if old(self).has(k2, v2) {
                            let i = choose|i: int| 0 <= i < before.len() && before[i].0 == k2 && (#[trigger] before[i].1@).contains(v2);
                            if i != j {
                                assert(before[i] == after[i]);
                            } else {
                                let q = choose|q: int| 0 <= q < before[i].1@.len() && before[i].1@[q] == v2;
                                assert(after[i].1@[q] == v2);
                            }
                            assert(after[i].1@.contains(v2));
                        }
                        if k2 == k && v2 == v {
                            assert(after[j as int].1@.contains(v));
                        }
                    }
                    assert forall|i: int, i2: int| 0 <= i < i2 < after.len() implies (#[trigger] after[i]).0 != (#[trigger] after[i2]).0 by {
                        assert(before[i].0 != before[i2].0);
                    }
                    assert forall|i: int| 0 <= i < after.len() implies (#[trigger] after[i]).1@.len() > 0 by {
                        assert(before[i].1@.len() > 0);
                    }
                    assert forall|k2: (u32, u32)| #[trigger] self.places(k2)
                        == (if k2 == k { old(self).places(k).push(v) } else { old(self).places(k2) }) by {
                        if exists|i: int| 0 <= i < after.len() && (#[trigger] after[i]).0 == k2 {
                            let i = choose|i: int| 0 <= i < after.len() && (#[trigger] after[i]).0 == k2;
                            self.lemma_places_at(i);
                            old(self).lemma_places_at(i);
                        } else {
                            assert forall|i: int| 0 <= i < before.len() implies (#[trigger] before[i]).0 != k2 by {
                                assert(after[i].0 == before[i].0);
                            }
                        }
                    }
                }
            },
            None => {
                self.entries.push((k, vec![v]));
                proof {
                    let after = self.entries@;
                    let n = before.len() as int;
                    assert(after[n].1@ =~= seq![v]);
                    assert(after[n].1@[0] == v);
                    assert forall|i: int| 0 <= i < old(self).keys().len() implies old(self).keys()[i] != k by {
                        assert(before[i].0 != k);
                    }
                    assert(self.keys() =~= old(self).keys().push(k));
                    assert forall|k2: (u32, u32), v2: V| self.has(k2, v2) <==> (old(self).has(k2, v2) || (k2 == k && v2 == v)) by {
                        if self.has(k2, v2) {
                            let i = choose|i: int| 0 <= i < after.len() && after[i].0 == k2 && (#[trigger] after[i].1@).contains(v2);
                            if i < n {
                                assert(before[i] == after[i]);
                            } else {
                                let q = choose|q: int| 0 <= q < after[i].1@.len() && after[i].1@[q] == v2;
                            }
                        }
                        if old(self).has(k2, v2) {
                            let i = choose|i: int| 0 <= i < before.len() && before[i].0 == k2 && (#[trigger] before[i].1@).contains(v2);
                            assert(before[i] == after[i]);
                        }
                        if k2 == k && v2 == v {
                            assert(after[n].1@.contains(v));
                        }
                    }
                    assert forall|i: int, i2: int| 0 <= i < i2 < after.len() implies (#[trigger] after[i]).0 != (#[trigger] after[i2]).0 by {
                        if i2 < n {
                            assert(before[i].0 != before[i2].0);
                        } else {
                            assert(before[i].0 != k);
                        }
                    }
                    assert forall|i: int| 0 <= i < after.len() implies (#[trigger] after[i]).1@.len() > 0 by {
                        if i < n {
                            assert(before[i].1@.len() > 0);
                        }
                    }
                    assert forall|k2: (u32, u32)| #[trigger] self.places(k2)
                        == (if k2 == k { old(self).places(k).push(v) } else { old(self).places(k2) }) by {
                        if k2 == k {
                            self.lemma_places_at(n);
                            assert forall|i: int| 0 <= i < before.len() implies (#[trigger] before[i]).0 != k2 by {}
                            assert(seq![v] =~= Seq::<V>::empty().push(v));
                        } else if exists|i: int| 0 <= i < after.len() && (#[trigger] after[i]).0 == k2 {
                            let i = choose|i: int| 0 <= i < after.len() && (#[trigger] after[i]).0 == k2;
                            self.lemma_places_at(i);
                            assert(i < n);
                            assert(before[i] == after[i]);
                            old(self).lemma_places_at(i);
                        } else {
                            assert forall|i: int| 0 <= i < before.len() implies (#[trigger] before[i]).0 != k2 by {
                                assert(after[i] == before[i]);
                            }
                        }
                    }
                }
            },
        }
    }
}

/// The node at position `i` of the list built from the tokens `l`.
pub open spec fn linked_node(l: Seq<u32>, i: int) -> Node {
    Node {
        val: l[i],
        prev: if i > 0 { Some((i - 1) as usize) } else { None },
        next: if i + 1 < l.len() { Some((i + 1) as usize) } else { None },
    }
}

/// Where the list built from the tokens `l` starts.
pub open spec fn linked_head(l: Seq<u32>) -> Option<usize> {
    if l.len() == 0 { None } else { Some(0usize) }
}

/// The tokens met following `next` links from `cur`, taking at most `fuel` steps and stopping
/// at a link that leaves the arena.
pub open spec fn walk(nodes: Seq<Node>, cur: Option<usize>, fuel: nat) -> Seq<u32>
    decreases fuel,
{
    if fuel > 0 && cur is Some && cur.unwrap() < nodes.len() {
        seq![nodes[cur.unwrap() as int].val] + walk(nodes, nodes[cur.unwrap() as int].next, (fuel - 1) as nat)
    } else {
        Seq::empty()
    }
}

proof fn lemma_walk_linked(l: Seq<u32>, nodes: Seq<Node>, i: int)
    requires
        nodes.len() == l.len(),
        forall|k: int| 0 <= k < l.len() ==> #[trigger] nodes[k] == linked_node(l, k),
        0 <= i < l.len(),
        l.len() <= usize::MAX,
    ensures
        walk(nodes, Some(i as usize), (l.len() - i) as nat) == l.subrange(i, l.len() as int),
    decreases l.len() - i,
{
    assert(nodes[i] == linked_node(l, i));
    if i + 1 < l.len() {
        lemma_walk_linked(l, nodes, i + 1);
        assert(l.subrange(i, l.len() as int) =~= seq![l[i]] + l.subrange(i + 1, l.len() as int));
    } else {
        assert(walk(nodes, nodes[i].next, (l.len() - i - 1) as nat) =~= Seq::<u32>::empty());
        assert(l.subrange(i, l.len() as int) =~= seq![l[i]]);
    }
}

/// Following the links of a list built from `l`, from its head, gives back `l`.
pub proof fn lemma_linked_round_trip(l: Seq<u32>, nodes: Seq<Node>)
    requires
        nodes.len() == l.len(),
        l.len() <= usize::MAX,
        forall|k: int| 0 <= k < l.len() ==> #[trigger] nodes[k] == linked_node(l, k),
    ensures
        walk(nodes, linked_head(l), l.len()) == l,
{
    if l.len() > 0 {
        lemma_walk_linked(l, nodes, 0);
        assert(l.subrange(0, l.len() as int) =~= l);
    } else {
        assert(l =~= Seq::<u32>::empty());
    }
}

fn linked_nodes(l: &Vec<u32>) -> (r: Vec<Node>)
    ensures
        r@.len() == l@.len(),
        forall|k: int| 0 <= k < l@.len() ==> #[trigger] r@[k] == linked_node(l@, k),
{
    let n = l.len();
    let mut r: Vec<Node> = Vec::new();
    let mut i: usize = 0;
    while i < n
        invariant
            n == l@.len(),
            i <= n,
            r@.len() == i,
            forall|k: int| 0 <= k < i ==> #[trigger] r@[k] == linked_node(l@, k),
        decreases n - i,
    {
        let prev = if i > 0 { Some(i - 1) } else { None };
        let next = if i + 1 < n { Some(i + 1) } else { None };
        r.push(Node { val: l[i], prev, next });
        i = i + 1;
    }
    r
}

/// A list of tokens held as linked nodes, with an index from each adjacent pair to the
/// positions of the nodes that start it.
pub struct IndexedList {
    pub index: PairIndex<usize>,
    pub head: Option<usize>,
    pub nodes: Vec<Node>,
}

impl IndexedList {
    /// Links the tokens `l` in order and indexes each adjacent pair under its left node.
    pub fn new(l: Vec<u32>) -> (r: Self)
        ensures
            r.index.wf(),
            r.head == linked_head(l@),
            r.nodes@.len() == l@.len(),
            forall|k: int| 0 <= k < l@.len() ==> #[trigger] r.nodes@[k] == linked_node(l@, k),
            forall|k: (u32, u32), v: usize| r.index.has(k, v) <==> (v + 1 < l@.len() && k == (l@[v as int], l@[v + 1])),
            forall|k: (u32, u32), a: int, b: int| 0 <= a < b < r.index.places(k).len()
                ==> #[trigger] r.index.places(k)[a] < #[trigger] r.index.places(k)[b],
    {
        let nodes = linked_nodes(&l);
        let mut list = IndexedList { index: PairIndex::new(), head: None, nodes };
        if l.len() == 0 {
            return list;
        }
        list.head = Some(0);
        let mut i: usize = 1;
        while i < l.len()
            invariant
                1 <= i <= l@.len(),
                list.index.wf(),
                list.head == linked_head(l@),
                list.nodes@.len() == l@.len(),
                forall|k: int| 0 <= k < l@.len() ==> #[trigger] list.nodes@[k] == linked_node(l@, k),
                forall|k: (u32, u32), v: usize| list.index.has(k, v) <==> (v + 1 < i && k == (l@[v as int], l@[v + 1])),
                forall|k: (u32, u32), a: int, b: int| 0 <= a < b < list.index.places(k).len()
                    ==> #[trigger] list.index.places(k)[a] < #[trigger] list.index.places(k)[b],
                forall|k: (u32, u32), a: int| 0 <= a < list.index.places(k).len() ==> #[trigger] list.index.places(k)[a] + 1 < i,
            decreases l@.len() - i,
        {
            let ghost old_index = list.index;
            list.add_to_index((l[i - 1], l[i]), i - 1);
            proof {
                assert forall|k: (u32, u32), a: int| 0 <= a < list.index.places(k).len()
                    implies #[trigger] list.index.places(k)[a] + 1 < i + 1 by {
                    if a < old_index.places(k).len() {
                        assert(list.index.places(k)[a] == old_index.places(k)[a]);
                    }
                }
                assert forall|k: (u32, u32), a: int, b: int| 0 <= a < b < list.index.places(k).len()
                    implies #[trigger] list.index.places(k)[a] < #[trigger] list.index.places(k)[b] by {
                    if b < old_index.places(k).len() {
                        assert(list.index.places(k)[a] == old_index.places(k)[a]);
                        assert(list.index.places(k)[b] == old_index.places(k)[b]);
                    } else {
                        assert(list.index.places(k)[a] == old_index.places(k)[a]);
                    }
                }
            }
            i = i + 1;
        }
        list
    }

    fn add_to_index(&mut self, pair: (u32, u32), node: usize)
        requires
            old(self).index.wf(),
        ensures
            final(self).index.wf(),
            final(self).head == old(self).head,
            final(self).nodes == old(self).nodes,
            forall|k: (u32, u32), v: usize| final(self).index.has(k, v) <==> (old(self).index.has(k, v) || (k == pair && v == node)),
            forall|k2: (u32, u32)| #[trigger] final(self).index.places(k2)
                == (if k2 == pair { old(self).index.places(pair).push(node) } else { old(self).index.places(k2) }),
    {
        self.index.add(pair, node);
    }
}

/// A node of one of the lists of `IndexedBlocks`: the list, and the node's position in it.
#[derive(Clone, Copy, Debug, PartialEq, Eq, Structural)]
pub struct NodeRef {
    pub block: usize,
    pub pos: usize,
}

/// Several lists of tokens with one index over all of them.
pub struct IndexedBlocks {
    pub index: PairIndex<NodeRef>,
    pub blocks: Vec<IndexedList>,
}

impl IndexedBlocks {
    /// Links each block as a list and indexes every adjacent pair of every block.
    pub fn new(blocks: Vec<Vec<u32>>) -> (r: Self)
        ensures
            r.index.wf(),
            r.blocks@.len() == blocks@.len(),
            forall|b: int| 0 <= b < blocks@.len() ==> {
                &&& (#[trigger] r.blocks@[b]).head == linked_head(blocks@[b]@)
                &&& r.blocks@[b].nodes@.len() == blocks@[b]@.len()
                &&& forall|k: int| 0 <= k < blocks@[b]@.len() ==> #[trigger] r.blocks@[b].nodes@[k] == linked_node(blocks@[b]@, k)
            },
            forall|k: (u32, u32), v: NodeRef| r.index.has(k, v) <==> (v.block < blocks@.len() && pair_at(blocks@[v.block as int]@, v.pos as int, k)),
    {
        let mut ib = IndexedBlocks { blocks: Vec::new(), index: PairIndex::new() };
        let mut b: usize = 0;
        while b < blocks.len()
            invariant
                b <= blocks@.len(),
                ib.index.wf(),
                ib.blocks@.len() == b,
                forall|c: int| 0 <= c < b ==> {
                    &&& (#[trigger] ib.blocks@[c]).head == linked_head(blocks@[c]@)
                    &&& ib.blocks@[c].nodes@.len() == blocks@[c]@.len()
                    &&& forall|k: int| 0 <= k < blocks@[c]@.len() ==> #[trigger] ib.blocks@[c].nodes@[k] == linked_node(blocks@[c]@, k)
                },
                forall|k: (u32, u32), v: NodeRef| ib.index.has(k, v) <==> (v.block < b && pair_at(blocks@[v.block as int]@, v.pos as int, k)),
            decreases blocks@.len() - b,
        {
            let block = &blocks[b];
            let ghost done_lists = ib.blocks@;
            let mut i: usize = 1;
            while i < block.len()
                invariant
                    ib.blocks@ == done_lists,
                    b < blocks@.len(),
                    *block == blocks@[b as int],
                    1 <= i,
                    i <= block@.len() || block@.len() == 0,
                    ib.index.wf(),
                    forall|k: (u32, u32), v: NodeRef| ib.index.has(k, v) <==> (
                        (v.block < b && pair_at(blocks@[v.block as int]@, v.pos as int, k))
                        || (v.block == b && v.pos + 1 < i && pair_at(block@, v.pos as int, k))),
                decreases block@.len() - i,
            {
                ib.add_to_index((block[i - 1], block[i]), NodeRef { block: b, pos: i - 1 });
                i = i + 1;
            }
            let nodes = linked_nodes(block);
            let head = if block.len() == 0 { None } else { Some(0) };
            ib.blocks.push(IndexedList { index: PairIndex::new(), head, nodes });
            b = b + 1;
            proof {
                assert forall|k: (u32, u32), v: NodeRef| ib.index.has(k, v) <==> (v.block < b && pair_at(blocks@[v.block as int]@, v.pos as int, k)) by {
                    if v.block == b - 1 && pair_at(blocks@[v.block as int]@, v.pos as int, k) {
                        assert(v.pos + 1 < i);
                    }
                }
            }
        }
        ib
    }

    /// Records the pairs that the node `node` now forms with its neighbours: the pair with its
    /// previous node under that node, and the pair with its next node under itself.
    pub fn update_index(&mut self, node: NodeRef)
        requires
            old(self).index.wf(),
            node.block < old(self).blocks@.len(),
            node.pos < old(self).blocks@[node.block as int].nodes@.len(),
            old(self).blocks@[node.block as int].nodes@[node.pos as int].prev matches Some(p) ==> p < old(self).blocks@[node.block as int].nodes@.len(),
            old(self).blocks@[node.block as int].nodes@[node.pos as int].next matches Some(n) ==> n < old(self).blocks@[node.block as int].nodes@.len(),
        ensures
            final(self).index.wf(),
            final(self).blocks == old(self).blocks,
            forall|k: (u32, u32), v: NodeRef| final(self).index.has(k, v) <==> (old(self).index.has(k, v) || new_pair_of(old(self).blocks@[node.block as int].nodes@, node, k, v)),
            forall|k: (u32, u32)| #[trigger] final(self).index.places(k)
                == appended_places(old(self).index.places(k), old(self).blocks@[node.block as int].nodes@, node, k),
    {
        let nodes = &self.blocks[node.block].nodes;
        let this = nodes[node.pos];
        let ghost ns = nodes@;
        let prev_entry = match this.prev {
            Some(p) => Some(((nodes[p].val, this.val), NodeRef { block: node.block, pos: p })),
            None => None,
        };
        let next_entry = match this.next {
            Some(n) => Some(((this.val, nodes[n].val), node)),
            None => None,
        };
        let ghost i0 = self.index;
        match prev_entry {
            Some((k, v)) => self.add_to_index(k, v),
            None => {},
        }
        let ghost i1 = self.index;
        match next_entry {
            Some((k, v)) => self.add_to_index(k, v),
            None => {},
        }
        proof {
            assert forall|k: (u32, u32)| #[trigger] self.index.places(k) == appended_places(i0.places(k), ns, node, k) by {
                assert(i1.places(k) == i1.places(k));
            }
        }
    }

    /// The token lists, each read by following its links from its head.
    pub fn drain_blocks(self) -> (r: Vec<Vec<u32>>)
        ensures
            r@.len() == self.blocks@.len(),
            forall|b: int| 0 <= b < r@.len() ==> (#[trigger] r@[b])@ == walk(self.blocks@[b].nodes@, self.blocks@[b].head, self.blocks@[b].nodes@.len()),
    {
        let mut out: Vec<Vec<u32>> = Vec::new();
        let mut b: usize = 0;
        while b < self.blocks.len()
            invariant
                b <= self.blocks@.len(),
                out@.len() == b,
                forall|c: int| 0 <= c < b ==> (#[trigger] out@[c])@ == walk(self.blocks@[c].nodes@, self.blocks@[c].head, self.blocks@[c].nodes@.len()),
            decreases self.blocks@.len() - b,
        {
            let list = &self.blocks[b];
            let n = list.nodes.len();
            let mut block: Vec<u32> = Vec::new();
            let mut cur = list.head;
            let mut steps: usize = 0;
            while steps < n
                invariant
                    n == list.nodes@.len(),
                    steps <= n,
                    block@ + walk(list.nodes@, cur, (n - steps) as nat) == walk(list.nodes@, list.head, n as nat),
                decreases n - steps,
            {
                match cur {
                    Some(i) if i < n => {
                        let node = list.nodes[i];
                        block.push(node.val);
                        cur = node.next;
                        proof {
                            assert(block@ + walk(list.nodes@, cur, (n - steps - 1) as nat) =~= walk(list.nodes@, list.head, n as nat));
                        }
                        steps = steps + 1;
                    },
                    _ => {
                        proof {
                            assert(walk(list.nodes@, cur, (n - steps) as nat) =~= Seq::<u32>::empty());
                            assert(walk(list.nodes@, cur, 0) =~= Seq::<u32>::empty());
                        }
                        steps = n;
                    },
                }
            }
            proof {
                assert(walk(list.nodes@, cur, (n - steps) as nat) =~= Seq::<u32>::empty());
                assert(block@ =~= walk(list.nodes@, list.head, n as nat));
            }
            out.push(block);
            b = b + 1;
        }
        out
    }

    fn add_to_index(&mut self, pair: (u32, u32), node: NodeRef)
        requires
            old(self).index.wf(),
        ensures
            final(self).index.wf(),
            final(self).blocks == old(self).blocks,
            forall|k: (u32, u32), v: NodeRef| final(self).index.has(k, v) <==> (old(self).index.has(k, v) || (k == pair && v == node)),
            forall|k2: (u32, u32)| #[trigger] final(self).index.places(k2)
                == (if k2 == pair { old(self).index.places(pair).push(node) } else { old(self).index.places(k2) }),
    {
        self.index.add(pair, node);
    }
}

/// Whether position `p` of `l` starts the adjacent pair `k`.
pub open spec fn pair_at(l: Seq<u32>, p: int, k: (u32, u32)) -> bool {
    0 <= p && p + 1 < l.len() && k == (l[p], l[p + 1])
}

/// The places under pair `k` after `update_index` on `node`: the pair with the previous node is
/// recorded first, under that node, then the pair with the next node, under `node`.
pub open spec fn appended_places(places: Seq<NodeRef>, nodes: Seq<Node>, node: NodeRef, k: (u32, u32)) -> Seq<NodeRef> {
    let this = nodes[node.pos as int];
    let a = match this.prev {
        Some(p) => if k == (nodes[p as int].val, this.val) { places.push(NodeRef { block: node.block, pos: p }) } else { places },
        None => places,
    };
    match this.next {
        Some(n) => if k == (this.val, nodes[n as int].val) { a.push(node) } else { a },
        None => a,
    }
}

/// Whether `(k, v)` is one of the index entries that `update_index` records for `node`.
pub open spec fn new_pair_of(nodes: Seq<Node>, node: NodeRef, k: (u32, u32), v: NodeRef) -> bool {
    let this = nodes[node.pos as int];
    ||| (this.prev matches Some(p) && k == (nodes[p as int].val, this.val) && v == NodeRef { block: node.block, pos: p })
    ||| (this.next matches Some(n) && k == (this.val, nodes[n as int].val) && v == node)
}

} // verus!
