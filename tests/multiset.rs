use bytepair::multiset::DistributedMultiset;

#[test]
fn add_and_remove_items() {
    // Create a multiset from a simple nested Vec
    let data = vec![vec![1, 2, 3]];
    let mut ms = DistributedMultiset::new(data);

    // Add more occurrences of the pair (2,3)
    ms.add((2, 3), 2); // Now (2,3) should have a count of 3

    // Remove an occurrence of the pair (1,2)
    ms.remove((1, 2), 1); // Now (1,2) should have a count of 0

    // Check that the most common pair is now (2,3)
    assert_eq!(ms.most_common(), Some(((2, 3), 3)));
}

#[test]
fn most_common_with_ties() {
    // Create a multiset where several pairs have the same count
    let data = vec![vec![1, 2], vec![3, 4], vec![5, 6]];
    let mut ms = DistributedMultiset::new(data);

    // All pairs have a count of 1, so any of them could be the most common
    let (most_common, _count) = ms.most_common().unwrap();
    assert!(most_common == (1, 2) || most_common == (3, 4) || most_common == (5, 6));
}

#[test]
fn empty_multiset_has_no_most_common() {
    let mut ms = DistributedMultiset::new(vec![vec![7], vec![]]);
    assert_eq!(ms.most_common(), None);
}

#[test]
fn pending_changes_wait_for_the_commit() {
    let mut ms = DistributedMultiset::new(vec![vec![1, 2, 1, 2]]);
    ms.add((9, 9), 5);
    ms.remove((1, 2), 10);
    let (adds, removes) = ms.take_pending();
    assert_eq!(adds, vec![((9, 9), 5)]);
    assert_eq!(removes, vec![((1, 2), 10)]);
    // Nothing was pending any more, so the counts are those of the data.
    assert_eq!(ms.most_common(), Some(((1, 2), 2)));
    ms.apply(&adds, &removes);
    assert_eq!(ms.most_common(), Some(((9, 9), 5)));
}
