use adaptive_radix::TrieNode;

#[test]
fn trie_add_and_find() {
    let mut t = TrieNode::<u8>::new();
    t.add(vec![1, 2, 3]);
    t.add(vec![1, 4]);
    assert!(t.find(&[1, 2, 3]));
    assert!(t.find(&[1, 4]));
    assert!(!t.find(&[1, 2]));
    assert!(!t.find(&[1]));
    assert!(!t.find(&[2]));
    assert!(!t.find(&[]));
}

#[test]
fn trie_stops_at_an_added_prefix() {
    let mut t = TrieNode::<u32>::new();
    t.add(vec![5, 6]);
    t.add(vec![5, 6, 7]);
    assert!(t.find(&[5, 6]));
    assert!(!t.find(&[5, 6, 7]));
    t.add(vec![]);
    assert!(t.find(&[]));
    t.add(vec![9]);
    assert!(!t.find(&[9]));
}

#[test]
fn trie_empty_prefix_blocks_everything() {
    let mut t = TrieNode::<u8>::new();
    t.add(vec![]);
    t.add(vec![1, 2]);
    assert!(t.find(&[]));
    assert!(!t.find(&[1, 2]));
}
