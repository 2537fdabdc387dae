use std::collections::HashMap;

use bytepair::block::{Block, PairChange};
use bytepair::bpe::bpe;
use bytepair::encode::{encode, encode_with_rules};
use bytepair::pairs::{MergeTable, MergeTableError};
use bytepair::reduce::{flatten_changes, reduce_gathered};
use bytepair::shards::{ShardBuffer, Split};
use bytepair::train::{local_pair_counts, PairCounter};
use bytepair::trainer::{contributions, count_blocks, with_local_blocks, Trainer};

fn table(rules: &[((u32, u32), u32)]) -> MergeTable {
    let mut t = MergeTable::new();
    for &(pair, token) in rules {
        t.insert(pair, token);
    }
    t
}

/// Expands tokens back to bytes by following the rules backwards.
fn decode(tokens: &[u32], rules: &[((u32, u32), u32)]) -> Vec<u8> {
    let inverse: HashMap<u32, (u32, u32)> = rules.iter().map(|&(pair, token)| (token, pair)).collect();
    fn go(t: u32, inverse: &HashMap<u32, (u32, u32)>, out: &mut Vec<u8>) {
        match inverse.get(&t) {
            Some(&(a, b)) => {
                go(a, inverse, out);
                go(b, inverse, out);
            }
            None => out.push(t as u8),
        }
    }
    let mut out = Vec::new();
    for &t in tokens {
        go(t, &inverse, &mut out);
    }
    out
}

#[test]
fn swallowed_candidate_is_dropped() {
    // (a, b) -> X comes before (b, c) -> Y
    let result = encode(vec![1, 2, 3], &table(&[((1, 2), 300), ((2, 3), 301)]));
    assert_eq!(result, vec![300, 3]);
}

#[test]
fn candidate_with_a_changed_neighbour_is_dropped() {
    // (b, c) -> Y comes before (a, b) -> X
    let result = encode(vec![1, 2, 3], &table(&[((2, 3), 300), ((1, 2), 301)]));
    assert_eq!(result, vec![1, 300]);
}

#[test]
fn triple_encodes_left_first() {
    let result = encode(vec![7, 7, 7], &table(&[((7, 7), 256)]));
    assert_eq!(result, vec![256, 7]);
}

#[test]
fn empty_bytes_encode_to_nothing() {
    assert!(encode(vec![], &table(&[((1, 2), 256)])).is_empty());
}

#[test]
fn encoded_output_has_no_mergeable_pair_and_decodes_back() {
    let rules = [((104, 101), 256), ((256, 108), 257), ((108, 111), 258), ((257, 258), 259), ((32, 119), 260)];
    let bytes = b"hello hello world, hell".to_vec();
    let out = encode(bytes.clone(), &table(&rules));
    let rule_map: HashMap<(u32, u32), u32> = rules.iter().cloned().collect();
    for w in out.windows(2) {
        assert!(!rule_map.contains_key(&(w[0], w[1])));
    }
    assert_eq!(decode(&out, &rules), bytes);
    assert!(out.len() < bytes.len());
}

#[test]
fn training_then_encoding_gives_back_the_input() {
    let texts: Vec<&[u8]> = vec![b"abcabcabd", b"cabcab", b"aaaa"];
    let blocks: Vec<Vec<u32>> = texts.iter().map(|t| t.iter().map(|&b| b as u32).collect()).collect();
    let (merges, trained) = bpe(blocks, 266);
    for (text, trained_block) in texts.iter().zip(trained.iter()) {
        let out = encode_with_rules(text.to_vec(), &merges).unwrap();
        assert_eq!(decode(&out, &merges), text.to_vec());
        assert_eq!(decode(trained_block, &merges), text.to_vec());
    }
}

#[test]
fn later_rule_for_a_pair_wins() {
    let t = MergeTable::from_rules(&vec![((1, 2), 300), ((1, 2), 301)]);
    assert_eq!(t.get(1, 2), Some(301));
    assert_eq!(t.get(2, 1), None);
}

fn change_of(changes: &[PairChange], pair: (u32, u32)) -> Option<(i64, Vec<usize>)> {
    changes.iter().find(|c| c.pair == pair).map(|c| (c.delta, c.block_ids.clone()))
}

#[test]
fn block_merge_reports_exact_changes_on_a_triple() {
    let mut block = Block::new(&[108, 108, 108], 3);
    let changes = block.merge(108, 108, 256, 4);
    assert_eq!(block.tokens, vec![256, 108]);
    assert_eq!(change_of(&changes, (108, 108)), Some((-6, vec![])));
    assert_eq!(change_of(&changes, (256, 108)), Some((3, vec![4])));
    assert_eq!(changes.len(), 2);
}

#[test]
fn block_merge_of_adjacent_matches() {
    let mut block = Block::new(&[1, 2, 1, 2], 1);
    let changes = block.merge(1, 2, 9, 0);
    assert_eq!(block.tokens, vec![9, 9]);
    assert_eq!(change_of(&changes, (1, 2)), Some((-2, vec![])));
    assert_eq!(change_of(&changes, (2, 1)), Some((-1, vec![])));
    // (9, 1) is made once and lost once: no change, so it is not listed.
    assert_eq!(change_of(&changes, (9, 1)), None);
    assert_eq!(change_of(&changes, (9, 9)), Some((1, vec![0])));
}

#[test]
fn block_without_the_pair_is_unchanged() {
    let mut block = Block::new(&[5, 6, 7], 2);
    let changes = block.merge(6, 5, 300, 1);
    assert_eq!(block.tokens, vec![5, 6, 7]);
    assert!(changes.is_empty());
}

#[test]
fn local_counts_weight_by_block_count_and_sum_to_positions() {
    let blocks = vec![Block::new(&[1, 2, 1, 2], 2), Block::new(&[2, 1], 5), Block::new(&[9], 7)];
    let counts = local_pair_counts(&blocks);
    assert_eq!(change_of(&counts, (1, 2)), Some((4, vec![0])));
    assert_eq!(change_of(&counts, (2, 1)), Some((7, vec![0, 1])));
    assert_eq!(counts.len(), 2);
    let total: i64 = counts.iter().map(|c| c.delta).sum();
    // (4 - 1) * 2 + (2 - 1) * 5 + 0 * 7
    assert_eq!(total, 11);
}

#[test]
fn counter_pops_highest_count_then_smallest_pair() {
    let blocks = vec![Block::new(&[3, 4, 1, 2, 5, 6, 3, 4], 1)];
    let mut pc = PairCounter::new(&blocks);
    let first = pc.pop().unwrap();
    assert_eq!((first.count, first.vals), (2, (3, 4)));
    let second = pc.pop().unwrap();
    assert_eq!((second.count, second.vals), (1, (1, 2)));
    assert!(!pc.is_stale(&second));
}

#[test]
fn counter_marks_and_refreshes_stale_entries() {
    let blocks = vec![Block::new(&[1, 2, 3], 1)];
    let mut pc = PairCounter::new(&blocks);
    pc.commit(vec![PairChange { pair: (1, 2), delta: -1, block_ids: vec![] }]);
    assert_eq!(pc.count_of((1, 2)), Some(0));
    let top = pc.pop().unwrap();
    assert_eq!(top.vals, (1, 2));
    assert!(pc.is_stale(&top));
    pc.update_count_and_push(top);
    let top = pc.pop().unwrap();
    assert_eq!((top.count, top.vals), (1, (2, 3)));
    assert!(!pc.is_stale(&top));
}

#[test]
fn commit_adds_entries_only_for_new_pairs() {
    let mut pc = PairCounter::empty();
    pc.commit(vec![
        PairChange { pair: (1, 1), delta: 3, block_ids: vec![0] },
        PairChange { pair: (1, 1), delta: 2, block_ids: vec![1] },
        PairChange { pair: (2, 2), delta: -4, block_ids: vec![] },
    ]);
    assert_eq!(pc.count_of((1, 1)), Some(5));
    assert_eq!(pc.count_of((2, 2)), None);
    assert_eq!(pc.heap_len(), 1);
}

fn reduce_across(peers: &[Vec<PairChange>]) -> Vec<((u32, u32), i64)> {
    let mut words = Vec::new();
    for local in peers {
        words.extend(flatten_changes(&contributions(local)));
    }
    reduce_gathered(&words).unwrap()
}

#[test]
fn two_peers_with_ties_choose_the_same_merges() {
    let mut peers = vec![
        Trainer::new(vec![Block::new(&[1, 2, 3], 1)], 259),
        Trainer::new(vec![Block::new(&[4, 5, 6], 1), Block::new(&[5, 6, 4], 1)], 259),
    ];
    let locals: Vec<Vec<PairChange>> = peers.iter().map(|p| local_pair_counts(p.blocks())).collect();
    let global = reduce_across(&locals);
    for (peer, local) in peers.iter_mut().zip(locals.iter()) {
        assert!(peer.commit(with_local_blocks(&global, local)));
    }
    loop {
        let steps: Vec<Option<Vec<PairChange>>> = peers.iter_mut().map(|p| p.next_merge()).collect();
        assert_eq!(steps[0].is_some(), steps[1].is_some());
        if steps[0].is_none() {
            break;
        }
        let locals: Vec<Vec<PairChange>> = steps.into_iter().map(|s| s.unwrap()).collect();
        let global = reduce_across(&locals);
        for (peer, local) in peers.iter_mut().zip(locals.iter()) {
            assert!(peer.commit(with_local_blocks(&global, local)));
        }
    }
    let mut merges: Vec<Vec<((u32, u32), u32)>> = peers.into_iter().map(|p| p.into_merges()).collect();
    let second = merges.pop().unwrap();
    let first = merges.pop().unwrap();
    assert_eq!(first, second);
    // (5, 6) is seen twice; then the ties go to the smallest pair.
    assert_eq!(first, vec![((5, 6), 256), ((1, 2), 257), ((4, 256), 258)]);
}

#[test]
fn global_changes_keep_only_local_blocks() {
    let local = vec![PairChange { pair: (1, 2), delta: 1, block_ids: vec![3, 5] }];
    let global = vec![((9, 9), 4), ((1, 2), 6)];
    let paired = with_local_blocks(&global, &local);
    assert_eq!(paired.len(), 2);
    assert_eq!((paired[0].pair, paired[0].delta, paired[0].block_ids.clone()), ((9, 9), 4, vec![]));
    assert_eq!((paired[1].pair, paired[1].delta, paired[1].block_ids.clone()), ((1, 2), 6, vec![3, 5]));
}

#[test]
fn shards_are_cut_at_the_size_and_the_rest_is_val() {
    let mut shards = ShardBuffer::new(4);
    let full = shards.push_tokens(&vec![1, 2, 3]);
    assert!(full.is_empty());
    let full = shards.push_tokens(&vec![4, 5, 6, 7, 8, 9, 10]);
    assert_eq!(full, vec![vec![1, 2, 3, 4], vec![5, 6, 7, 8]]);
    assert_eq!(shards.remainder(), &vec![9, 10]);
    assert_eq!(shards.shard_index(), 2);
    assert_eq!(shards.final_split(), Split::Val);
}

#[test]
fn a_single_short_shard_is_train() {
    let mut shards = ShardBuffer::new(10);
    assert!(shards.push_tokens(&vec![1, 2]).is_empty());
    assert_eq!(shards.final_split(), Split::Train);
}

#[test]
fn rules_with_byte_tokens_are_refused() {
    assert_eq!(encode_with_rules(vec![1, 2], &vec![((1, 2), 256), ((2, 3), 200)]), Err(MergeTableError::TokenBelowBytes(1)));
    assert_eq!(encode_with_rules(vec![1, 2], &vec![((1, 2), 256), ((1, 2), 257)]), Err(MergeTableError::DuplicatePair(1)));
    assert_eq!(encode_with_rules(vec![1, 2, 3], &vec![((1, 2), 256), ((256, 3), 257)]), Ok(vec![257]));
}

#[test]
fn trained_blocks_follow_every_merge() {
    let (merges, blocks) = bpe(vec![vec![108, 108, 108]], 300);
    // After (108,108) and (256,108) nothing is left to merge.
    assert_eq!(merges, vec![((108, 108), 256), ((256, 108), 257)]);
    assert_eq!(blocks, vec![vec![257]]);
}

#[test]
fn triple_block_merge_lists_exactly_two_changes() {
    let mut block = Block::new(&[108, 108, 108], 1);
    let changes = block.merge(108, 108, 256, 0);
    assert_eq!(changes.len(), 2);
    assert_eq!(change_of(&changes, (108, 108)), Some((-2, vec![])));
    assert_eq!(change_of(&changes, (256, 108)), Some((1, vec![0])));
}

#[test]
fn trainer_stops_only_when_no_pair_is_left() {
    let blocks = vec![Block::new(&[1, 2], 1)];
    let local = local_pair_counts(&blocks);
    let mut t = Trainer::new(blocks, 300);
    assert!(t.commit(with_local_blocks(&reduce_across(std::slice::from_ref(&local)), &local)));
    let step = t.next_merge().unwrap();
    assert!(t.commit(with_local_blocks(&reduce_across(std::slice::from_ref(&step)), &step)));
    assert!(t.next_merge().is_none());
    assert_eq!(t.into_merges(), vec![((1, 2), 256)]);
}

#[test]
fn trainer_refuses_pairs_of_tokens_not_made_yet() {
    let mut t = Trainer::new(vec![Block::new(&[1, 2], 1)], 300);
    assert!(!t.commit(vec![PairChange { pair: (1, 400), delta: 1, block_ids: vec![0] }]));
    assert!(t.next_merge().is_none());
}

#[test]
fn equal_blocks_are_counted_once() {
    let counts = count_blocks(&vec![b"ab".to_vec(), b"c".to_vec(), b"ab".to_vec()]);
    assert_eq!(counts, vec![(b"ab".to_vec(), 2), (b"c".to_vec(), 1)]);
}
