use bytepair::indexed_blocks::{IndexedBlocks, IndexedList, Node, NodeRef};

#[test]
fn test_rust_node_creation() {
    let node = Node::new(5);
    assert_eq!(node.val, 5);
    assert!(node.prev.is_none());
    assert!(node.next.is_none());
}

#[test]
fn test_rust_node_linking() {
    let mut nodes = vec![Node::new(1), Node::new(2)];

    // Link node 0 and node 1
    nodes[0].next = Some(1);
    nodes[1].prev = Some(0);

    assert!(nodes[0].next.is_some());
    assert!(nodes[1].prev.is_some());
    assert_eq!(nodes[nodes[0].next.unwrap()].val, 2);
    assert_eq!(nodes[nodes[1].prev.unwrap()].val, 1);
}

#[test]
fn test_rust_node_deletion() {
    let mut nodes = vec![Node::new(1), Node::new(2), Node::new(3)];

    // Link the nodes
    nodes[0].next = Some(1);
    nodes[1].prev = Some(0);
    nodes[1].next = Some(2);
    nodes[2].prev = Some(1);

    // Delete the middle node
    Node::delete(&mut nodes, 1);

    // The first node now points to the last, and back
    assert_eq!(nodes[nodes[0].next.unwrap()].val, 3);
    assert_eq!(nodes[nodes[2].prev.unwrap()].val, 1);
}

#[test]
fn test_rust_indexed_list_creation() {
    let vals = vec![1, 2, 3, 4];
    let indexed_list = IndexedList::new(vals);

    assert_eq!(indexed_list.index.len(), 3); // Expect (1, 2), (2, 3), (3, 4)
    assert!(indexed_list.index.contains_key(&(1, 2)));
    assert!(indexed_list.index.contains_key(&(2, 3)));
    assert!(indexed_list.index.contains_key(&(3, 4)));
}

#[test]
fn test_rust_indexed_blocks_creation() {
    let blocks = vec![vec![1, 2, 3], vec![4, 5, 6]];
    let indexed_blocks = IndexedBlocks::new(blocks);

    // Check that all the pairs across blocks are indexed
    assert_eq!(indexed_blocks.index.len(), 4); // Expect (1, 2), (2, 3), (4, 5), (5, 6)
    assert!(indexed_blocks.index.contains_key(&(1, 2)));
    assert!(indexed_blocks.index.contains_key(&(2, 3)));
    assert!(indexed_blocks.index.contains_key(&(4, 5)));
    assert!(indexed_blocks.index.contains_key(&(5, 6)));
}

#[test]
fn test_rust_indexed_blocks_update_index() {
    let blocks = vec![vec![1, 2, 3]];
    let mut indexed_blocks = IndexedBlocks::new(blocks);

    // Create a new node and link it into the list
    let node1 = indexed_blocks.index.get(&(1, 2)).unwrap()[0];
    let nodes = &mut indexed_blocks.blocks[node1.block].nodes;
    nodes.push(Node::new(4));
    let node4 = nodes.len() - 1;
    nodes[node1.pos].next = Some(node4);
    nodes[node4].prev = Some(node1.pos);

    // Update the index to reflect the change
    indexed_blocks.update_index(NodeRef { block: node1.block, pos: node4 });

    // Check that the new pair (1, 4) is in the index
    assert!(indexed_blocks.index.contains_key(&(1, 4)));
}

#[test]
fn test_rust_indexed_blocks_update_node_value() {
    let blocks = vec![vec![1, 2, 3]];
    let mut indexed_blocks = IndexedBlocks::new(blocks);

    // Retrieve node1 and node2 using the global index
    let node1 = indexed_blocks.index.get(&(1, 2)).unwrap()[0];
    let nodes = &mut indexed_blocks.blocks[node1.block].nodes;
    let node2 = nodes[node1.pos].next.unwrap();
    let node3 = nodes[node2].next.unwrap();

    // Change the value of node2 from 2 to 4
    nodes[node2].val = 4;

    // Call update_index on node2
    indexed_blocks.update_index(NodeRef { block: node1.block, pos: node2 });

    let nodes = &indexed_blocks.blocks[node1.block].nodes;
    // Verify that the list is now 1 -> 4 -> 3
    assert_eq!(nodes[node1.pos].val, 1);
    assert_eq!(nodes[nodes[node1.pos].next.unwrap()].val, 4);
    assert_eq!(nodes[nodes[nodes[node1.pos].next.unwrap()].next.unwrap()].val, 3);

    // Also verify that 1 <- 4 <- 3
    assert_eq!(nodes[node3].val, 3);
    assert_eq!(nodes[nodes[node3].prev.unwrap()].val, 4);
    assert_eq!(nodes[nodes[nodes[node3].prev.unwrap()].prev.unwrap()].val, 1);

    // Check that the new pairs are in the index
    assert!(indexed_blocks.index.contains_key(&(1, 4)));
    assert!(indexed_blocks.index.contains_key(&(4, 3)));
}

#[test]
fn test_drain_blocks() {
    // Create some blocks of integers
    let blocks = vec![vec![1, 2, 3], vec![4, 5], vec![6, 7, 8, 9]];

    let indexed_blocks = IndexedBlocks::new(blocks.clone());

    let result = indexed_blocks.drain_blocks();

    assert_eq!(result, blocks);
}

#[test]
fn indexed_list_records_every_position() {
    let list = IndexedList::new(vec![7, 7, 7]);
    let places = list.index.get(&(7, 7)).unwrap();
    assert_eq!(places, &vec![0, 1]);
    assert_eq!(list.head, Some(0));
    assert_eq!(list.nodes[2].next, None);
}

#[test]
fn deleting_bumps_the_value() {
    let mut nodes = vec![Node::new(10), Node::new(20)];
    nodes[0].next = Some(1);
    nodes[1].prev = Some(0);
    Node::delete(&mut nodes, 1);
    assert_eq!(nodes[1].val, 21);
    assert_eq!(nodes[0].next, None);
}
