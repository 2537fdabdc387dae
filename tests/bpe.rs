use bytepair::bpe::bpe;

#[test]
fn test_bpe_basic_merge() {
    let blocks = vec![vec![1, 2, 3, 1, 2], vec![3, 1, 2, 4, 1, 2]];

    let vocab_size = 258; // Set a small vocab size for testing

    let (merges, _blocks) = bpe(blocks, vocab_size);

    println!("Merges: {:?}", merges);

    assert_eq!(merges[0].0, (1, 2));
    assert_eq!(merges[0].1, 256);
    assert_eq!(merges[1].0, (3, 256));
    assert_eq!(merges[1].1, 257);

    // As vocab_size is 258, we should see two merges
    assert_eq!(merges.len(), 2);
}

#[test]
fn test_bpe_empty_input() {
    let blocks: Vec<Vec<u32>> = vec![];
    let vocab_size = 300;

    let (merges, _blocks) = bpe(blocks, vocab_size);

    assert!(merges.is_empty());
}

#[test]
fn test_bpe_stop_at_vocab_size() {
    let blocks = vec![vec![5, 6, 7, 8], vec![5, 7, 8, 9, 6, 7]];

    let vocab_size = 260;

    let (merges, _blocks) = bpe(blocks, vocab_size);

    println!("Merges: {:?}", merges);

    // Expect 4 merges, as initial vocab size is 256
    assert_eq!(merges.len(), 4);
}

#[test]
fn stop_at_vocab_size_merges_in_order() {
    let (merges, _blocks) = bpe(vec![vec![5, 6, 7, 8], vec![5, 7, 8, 9, 6, 7]], 260);
    // (6,7) and (7,8) both occur twice: the smaller pair goes first; then ties of one.
    assert_eq!(merges, vec![((6, 7), 256), ((5, 7), 257), ((5, 256), 258), ((8, 9), 259)]);
}

#[test]
fn test_bpe_single_block_merge() {
    let blocks = vec![vec![10, 11, 12, 10, 11, 12, 10, 11]];

    let vocab_size = 260;

    let (merges, _blocks) = bpe(blocks, vocab_size);

    println!("Merges: {:?}", merges);

    assert_eq!(merges[0].0, (10, 11));
    assert_eq!(merges[0].1, 256);

    assert!(merges.len() > 0);
}

#[test]
fn test_bpe_triple_token() {
    let blocks = vec![vec![108, 108, 108]];

    let vocab_size = 258;

    let (merges, _blocks) = bpe(blocks.clone(), vocab_size);

    assert_eq!(merges[0].0, (108, 108), "Expected to merge the pair (108, 108).");
    assert_eq!(merges[0].1, 256, "Expected the first new vocab entry to be 256.");
    assert_eq!(merges[1].0, (256, 108), "Expected to merge the pair (256, 108).");
    assert_eq!(merges[1].1, 257, "Expected the second new vocab entry to be 257.");
}

#[test]
fn single_byte_blocks_give_no_merges() {
    let (merges, blocks) = bpe(vec![vec![1], vec![2], vec![3]], 300);
    assert!(merges.is_empty());
    assert_eq!(blocks, vec![vec![1], vec![2], vec![3]]);
}

#[test]
fn base_vocabulary_gives_no_merges() {
    let (merges, _blocks) = bpe(vec![vec![1, 2, 1, 2]], 256);
    assert!(merges.is_empty());
}

#[test]
fn trained_blocks_are_merged() {
    let (merges, blocks) = bpe(vec![vec![1, 2, 3, 1, 2], vec![3, 1, 2, 4, 1, 2]], 258);
    assert_eq!(merges.len(), 2);
    assert_eq!(blocks, vec![vec![256, 257], vec![257, 4, 256]]);
}
