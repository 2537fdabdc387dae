//! Byte-pair encoding: training merge rules on blocks of text, possibly spread over several
//! peers that exchange count changes, and encoding bytes with the learned rules.

use vstd::prelude::*;

pub mod pairs;
pub mod encode;
pub mod indexed_blocks;
pub mod block;
pub mod train;
pub mod bpe;
pub mod reduce;
pub mod trainer;
pub mod shards;
pub mod multiset;

verus! {
}
