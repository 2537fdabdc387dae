use vstd::prelude::*;

verus! {

/// Which part of a run a shard belongs to.
#[derive(Clone, Copy, Debug, PartialEq, Eq, Structural)]
pub enum Split {
    Train,
    Val,
}

/// The tokens of the shards, one after another.
pub open spec fn concat(shards: Seq<Vec<u32>>) -> Seq<u32>
    decreases shards.len(),
{
    if shards.len() == 0 {
        Seq::empty()
    } else {
        concat(shards.drop_last()) + shards.last()@
    }
}

/// Cuts a stream of encoded tokens into shards of a fixed number of tokens.
pub struct ShardBuffer {
    shard_size: usize,
    buf: Vec<u32>,
    shard_index: usize,
}

impl ShardBuffer {
    /// The tokens waiting for the next shard.
    pub closed spec fn pending(&self) -> Seq<u32> {
        self.buf@
    }

    /// The number of shards handed out so far.
    pub closed spec fn index(&self) -> nat {
        self.shard_index as nat
    }

    /// The number of tokens per shard.
    pub closed spec fn size(&self) -> nat {
        self.shard_size as nat
    }

    pub closed spec fn wf(&self) -> bool {
        &&& self.shard_size > 0
        &&& self.buf@.len() < self.shard_size
    }

    /// A buffer for shards of `shard_size` tokens.
    pub fn new(shard_size: usize) -> (r: Self)
        requires
            shard_size > 0,
        ensures
            r.wf(),
            r.size() == shard_size,
            r.size() > 0,
            r.pending().len() == 0,
            r.index() == 0,
    {
        ShardBuffer { shard_size, buf: Vec::new(), shard_index: 0 }
    }

    /// The index that the next shard will have.
    pub fn shard_index(&self) -> (r: usize)
        ensures
            r == self.index(),
    {
        self.shard_index
    }

    /// Appends the tokens of one input and hands out every shard that they fill, in order; what
    /// is left waits for the next input.
    pub fn push_tokens(&mut self, tokens: &Vec<u32>) -> (full: Vec<Vec<u32>>)
        requires
            old(self).wf(),
            old(self).index() + tokens@.len() <= usize::MAX,
        ensures
            final(self).wf(),
            final(self).size() == old(self).size(),
            final(self).pending().len() < final(self).size(),
            concat(full@) + final(self).pending() == old(self).pending() + tokens@,
            forall|k: int| 0 <= k < full@.len() ==> (#[trigger] full@[k])@.len() == old(self).size(),
            final(self).index() == old(self).index() + full@.len(),
    {
        let mut full: Vec<Vec<u32>> = Vec::new();
        let mut i: usize = 0;
        let ghost start = self.buf@;
        while i < tokens.len()
            invariant
                self.wf(),
                self.shard_size == old(self).shard_size,
                i <= tokens@.len(),
                concat(full@) + self.buf@ == start + tokens@.subrange(0, i as int),
                start == old(self).buf@,
                forall|k: int| 0 <= k < full@.len() ==> (#[trigger] full@[k])@.len() == self.shard_size,
                self.shard_index == old(self).shard_index + full@.len(),
                full@.len() <= i,
                old(self).shard_index + tokens@.len() <= usize::MAX,
            decreases tokens@.len() - i,
        {
            let ghost before = concat(full@) + self.buf@;
            self.buf.push(tokens[i]);
            proof {
                assert(tokens@.subrange(0, i + 1) =~= tokens@.subrange(0, i as int).push(tokens@[i as int]));
                assert(concat(full@) + self.buf@ =~= before.push(tokens@[i as int]));
                assert(start + tokens@.subrange(0, i + 1) =~= (start + tokens@.subrange(0, i as int)).push(tokens@[i as int]));
            }
            if self.buf.len() == self.shard_size {
                let mut shard: Vec<u32> = Vec::new();
                std::mem::swap(&mut shard, &mut self.buf);
                let ghost f0 = full@;
                full.push(shard);
                self.shard_index = self.shard_index + 1;
                proof {
                    assert(full@.drop_last() == f0);
                    assert(concat(full@) + self.buf@ =~= concat(f0) + shard@);
                }
            }
            i = i + 1;
        }
        proof {
            assert(tokens@.subrange(0, tokens@.len() as int) =~= tokens@);
        }
        full
    }

    /// The split of the last, short shard: `Val` when full shards came before it, else `Train`.
    pub fn final_split(&self) -> (r: Split)
        ensures
            r == (if self.index() == 0 { Split::Train } else { Split::Val }),
    {
        if self.shard_index == 0 { Split::Train } else { Split::Val }
    }

    /// The tokens left for a last, short shard, if any.
    pub fn remainder(&self) -> (r: &Vec<u32>)
        ensures
            r@ == self.pending(),
    {
        &self.buf
    }
}

} // verus!
