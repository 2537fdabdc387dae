use bytepair::encode::encode;
use bytepair::pairs::MergeTable;

#[test]
fn test_no_merges() {
    let utf8_codepoints = vec![1u8, 2, 3];
    let merges = MergeTable::new();
    let result = encode(utf8_codepoints.clone(), &merges);
    let expected: Vec<u32> = utf8_codepoints.into_iter().map(|b| b as u32).collect();
    assert_eq!(result, expected);
}

#[test]
fn test_single_merge() {
    let utf8_codepoints = vec![1u8, 2, 3];
    let mut merges = MergeTable::new();
    merges.insert((1u32, 2u32), 4u32);
    let result = encode(utf8_codepoints, &merges);
    let expected = vec![4u32, 3u32];
    assert_eq!(result, expected);
}

#[test]
fn test_multiple_merges() {
    let utf8_codepoints = vec![1u8, 2, 3, 4];
    let mut merges = MergeTable::new();
    merges.insert((1u32, 2u32), 5u32);
    merges.insert((3u32, 4u32), 6u32);
    merges.insert((5u32, 6u32), 7u32);
    let result = encode(utf8_codepoints, &merges);
    let expected = vec![7u32];
    assert_eq!(result, expected);
}

#[test]
fn test_conflicting_merges() {
    let utf8_codepoints = vec![1u8, 2, 3];
    let mut merges = MergeTable::new();
    merges.insert((1u32, 2u32), 4u32);
    merges.insert((2u32, 3u32), 5u32);
    let result = encode(utf8_codepoints, &merges);
    let expected = vec![4u32, 3u32];
    assert_eq!(result, expected);
}

#[test]
fn test_stale_merges() {
    let utf8_codepoints = vec![1u8, 2, 1, 2];
    let mut merges = MergeTable::new();
    merges.insert((1u32, 2u32), 4u32);
    merges.insert((2u32, 1u32), 3u32);
    let result = encode(utf8_codepoints, &merges);
    let expected = vec![1u32, 3u32, 2u32];
    assert_eq!(result, expected);
}

#[test]
fn test_empty_input() {
    let utf8_codepoints = vec![];
    let merges = MergeTable::new();
    let result = encode(utf8_codepoints, &merges);
    let expected: Vec<u32> = vec![];
    assert_eq!(result, expected);
}

#[test]
fn test_single_codepoint() {
    let utf8_codepoints = vec![1u8];
    let merges = MergeTable::new();
    let result = encode(utf8_codepoints, &merges);
    let expected = vec![1u32];
    assert_eq!(result, expected);
}
