use bytepair::pairs::{combine_u32, split_u64};
use bytepair::reduce::{flatten_changes, reduce_gathered};

#[test]
fn test_combine_u32() {
    let a: u32 = 12345;
    let b: u32 = 67890;
    let combined = combine_u32(a, b);
    assert_eq!(combined, 53021371337010);
}

#[test]
fn test_split_u64() {
    let combined: u64 = 53021371337010;
    let (a, b) = split_u64(combined);
    assert_eq!(a, 12345);
    assert_eq!(b, 67890);
}

#[test]
fn test_combine_and_split() {
    let a: u32 = 98765;
    let b: u32 = 43210;
    let combined = combine_u32(a, b);
    let (a_split, b_split) = split_u64(combined);
    assert_eq!(a, a_split);
    assert_eq!(b, b_split);
}

/// What every peer computes from the words that all `peers` contributed, in rank order.
fn all_reduce(peers: &[Vec<((u32, u32), i64)>]) -> Vec<((u32, u32), i64)> {
    let mut buf: Vec<u64> = Vec::new();
    for local in peers {
        buf.extend(flatten_changes(local));
    }
    reduce_gathered(&buf).unwrap()
}

fn sorted(mut v: Vec<((u32, u32), i64)>) -> Vec<((u32, u32), i64)> {
    v.sort_by_key(|&((a, b), _)| (a, b));
    v
}

#[test]
fn comms_test_empty_vec() {
    let local_changes: Vec<((u32, u32), i64)> = vec![];
    let global_changes = all_reduce(&[local_changes]);
    assert!(global_changes.is_empty(), "Expected empty global_changes, got {:?}", global_changes);
}

#[test]
fn comms_test_single_process() {
    let local_changes = vec![((0, 1), 5), ((1, 2), 10), ((2, 3), 15)];
    let global_changes = all_reduce(&[local_changes.clone()]);
    assert_eq!(global_changes, local_changes, "Expected {:?}, got {:?}", local_changes, global_changes);
}

#[test]
fn comms_test_multiple_processes_unique_tuples() {
    let size: u32 = 1;
    let peers: Vec<Vec<((u32, u32), i64)>> =
        (0..size).map(|rank| vec![((rank, rank + 1), 1), ((rank + 1, rank + 2), 2)]).collect();
    let global_changes = all_reduce(&peers);

    let mut expected_changes = vec![];
    for rank in 0..size {
        expected_changes.push(((rank, rank + 1), 1));
        expected_changes.push(((rank + 1, rank + 2), 2));
    }
    let global_changes_sorted = sorted(global_changes);
    let expected_changes = sorted(expected_changes);
    assert_eq!(global_changes_sorted, expected_changes, "Expected {:?}, got {:?}", expected_changes, global_changes_sorted);
}

#[test]
fn comms_test_multiple_processes_shared_tuples() {
    let size: i64 = 1;
    let peers: Vec<Vec<((u32, u32), i64)>> =
        (0..size).map(|rank| vec![((0, 1), rank + 1), ((1, 2), (rank + 1) * 2)]).collect();
    let global_changes = all_reduce(&peers);

    let expected_changes = vec![((0, 1), (size * (size + 1)) / 2), ((1, 2), size * (size + 1))];
    let global_changes_sorted = sorted(global_changes);
    assert_eq!(global_changes_sorted, expected_changes, "Expected {:?}, got {:?}", expected_changes, global_changes_sorted);
}

#[test]
fn all_reduce_counts_test_empty_vec() {
    let global_counts = all_reduce(&[vec![]]);
    assert!(global_counts.is_empty(), "Expected empty global_counts, got {:?}", global_counts);
}

#[test]
fn all_reduce_counts_test_single_process() {
    let local_counts = vec![((0, 1), 5), ((1, 2), 10), ((2, 3), 15)];
    let global_counts = all_reduce(&[local_counts.clone()]);
    assert_eq!(global_counts, local_counts, "Expected {:?}, got {:?}", local_counts, global_counts);
}

#[test]
fn all_reduce_counts_test_multiple_processes_unique_tuples() {
    let size: u32 = 1;
    let peers: Vec<Vec<((u32, u32), i64)>> =
        (0..size).map(|rank| vec![((rank, rank + 1), 1), ((rank + 1, rank + 2), 2)]).collect();
    let global_counts = all_reduce(&peers);

    let mut expected_counts = vec![];
    for rank in 0..size {
        expected_counts.push(((rank, rank + 1), 1));
        expected_counts.push(((rank + 1, rank + 2), 2));
    }
    let global_counts_sorted = sorted(global_counts);
    let expected_counts = sorted(expected_counts);
    assert_eq!(global_counts_sorted, expected_counts, "Expected {:?}, got {:?}", expected_counts, global_counts_sorted);
}

#[test]
fn all_reduce_counts_test_multiple_processes_shared_tuples() {
    let size: i64 = 1;
    let peers: Vec<Vec<((u32, u32), i64)>> =
        (0..size).map(|rank| vec![((0, 1), rank + 1), ((1, 2), (rank + 1) * 2)]).collect();
    let global_counts = sorted(all_reduce(&peers));
    let expected_counts = vec![((0, 1), (size * (size + 1)) / 2), ((1, 2), size * (size + 1))];
    assert_eq!(global_counts, expected_counts, "Expected {:?}, got {:?}", expected_counts, global_counts);
}

#[test]
fn three_peers_sum_shared_pairs() {
    let size: u32 = 3;
    let peers: Vec<Vec<((u32, u32), i64)>> =
        (0..size).map(|rank| vec![((rank, rank + 1), 1), ((rank + 1, rank + 2), 2)]).collect();
    let global_counts = sorted(all_reduce(&peers));
    // Pairs shared by neighbouring ranks are summed.
    assert_eq!(global_counts, vec![((0, 1), 1), ((1, 2), 3), ((2, 3), 3), ((3, 4), 2)]);
}

#[test]
fn four_peers_sum_the_same_pairs() {
    let size: i64 = 4;
    let peers: Vec<Vec<((u32, u32), i64)>> =
        (0..size).map(|rank| vec![((0, 1), rank + 1), ((1, 2), (rank + 1) * 2)]).collect();
    let global_counts = sorted(all_reduce(&peers));
    let expected_counts = vec![((0, 1), (size * (size + 1)) / 2), ((1, 2), size * (size + 1))];
    assert_eq!(global_counts, expected_counts, "Expected {:?}, got {:?}", expected_counts, global_counts);
}

#[test]
fn reduction_keeps_first_seen_order_and_negative_values() {
    let peers = vec![vec![((5, 6), -3), ((1, 1), 2)], vec![((1, 1), -2), ((9, 9), 7), ((5, 6), 1)]];
    assert_eq!(all_reduce(&peers), vec![((5, 6), -2), ((1, 1), 0), ((9, 9), 7)]);
}

#[test]
fn reducing_twice_changes_nothing() {
    let once = all_reduce(&[vec![((2, 3), 4), ((2, 3), 1), ((7, 1), -1)]]);
    let twice = all_reduce(&[once.clone()]);
    assert_eq!(once, twice);
}

#[test]
fn peers_agree_on_the_order() {
    let peer_a = vec![((3, 4), 1), ((1, 2), 1)];
    let peer_b = vec![((1, 2), 1), ((3, 4), 1)];
    // Every peer walks the same gathered buffer, so all see the same order.
    let seen_by_a = all_reduce(&[peer_a.clone(), peer_b.clone()]);
    let seen_by_b = all_reduce(&[peer_a, peer_b]);
    assert_eq!(seen_by_a, seen_by_b);
    assert_eq!(seen_by_a, vec![((3, 4), 2), ((1, 2), 2)]);
}

#[test]
fn overflowing_sums_are_refused() {
    let buf = flatten_changes(&vec![((1, 1), i64::MAX), ((1, 1), 1)]);
    assert_eq!(reduce_gathered(&buf), None);
    let buf = flatten_changes(&vec![((1, 1), i64::MAX), ((1, 1), -1), ((1, 1), 1)]);
    assert_eq!(reduce_gathered(&buf), Some(vec![((1, 1), i64::MAX)]));
}
