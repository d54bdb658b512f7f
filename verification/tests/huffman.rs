use sfdc::huffman::HuffmanTree;

fn distinct(text: &[u8]) -> Vec<u8> {
    let mut seen = Vec::new();
    for b in text {
        if !seen.contains(b) {
            seen.push(*b);
        }
    }
    seen
}

#[test]
fn it_works() {
    let text = "so much words wow many compression";
    let tree = HuffmanTree::new(text.as_bytes());
    for actual_byte in distinct(text.as_bytes()) {
        let actual_code = tree.get_code(actual_byte);
        let decoded_byte = tree.decode(&actual_code);
        assert_eq!(actual_byte, decoded_byte);
    }
}

#[test]
fn tree_of_a_single_symbol_is_one_leaf() {
    let tree = HuffmanTree::new(b"aaaa");
    assert_eq!(tree.tree.len(), 1);
    assert_eq!(tree.root, 0);
    assert_eq!(tree.tree[0].symbol, Some(b'a'));
    assert_eq!(tree.tree[0].count, 4);
    assert_eq!(tree.tree[0].parent, None);
    assert_eq!(tree.tree[0].left, None);
    assert_eq!(tree.tree[0].right, None);
    assert_eq!(tree.get_code(b'a'), vec![1]);
    assert_eq!(tree.decode(&[1]), b'a');
}

#[test]
fn leaves_stand_in_order_of_count_then_symbol() {
    // counts: a = 3, b = 1, c = 1, d = 2
    let tree = HuffmanTree::new(b"adabcda");
    let leaves: Vec<(usize, u8)> =
        tree.tree.iter().take(4).map(|n| (n.count, n.symbol.unwrap())).collect();
    assert_eq!(leaves, vec![(1, b'b'), (1, b'c'), (2, b'd'), (3, b'a')]);
    for (i, node) in tree.tree.iter().enumerate() {
        assert_eq!(node.index, i);
    }
    assert_eq!(tree.symbols[&b'b'], 0);
    assert_eq!(tree.symbols[&b'c'], 1);
    assert_eq!(tree.symbols[&b'd'], 2);
    assert_eq!(tree.symbols[&b'a'], 3);
    assert_eq!(tree.symbols.len(), 4);
}

#[test]
fn inner_nodes_combine_the_two_smallest_with_ties_by_index() {
    // leaves: 0 = (1, b), 1 = (1, c), 2 = (2, d), 3 = (3, a)
    let tree = HuffmanTree::new(b"adabcda");
    assert_eq!(tree.tree.len(), 7);
    assert_eq!(tree.root, 6);
    // first the two leaves of count 1
    assert_eq!((tree.tree[4].left, tree.tree[4].right, tree.tree[4].count), (Some(0), Some(1), 2));
    // then leaf 2 (count 2, index 2) before node 4 (count 2, index 4)
    assert_eq!((tree.tree[5].left, tree.tree[5].right, tree.tree[5].count), (Some(2), Some(4), 4));
    // then leaf 3 (count 3) before node 5 (count 4)
    assert_eq!((tree.tree[6].left, tree.tree[6].right, tree.tree[6].count), (Some(3), Some(5), 7));
    assert_eq!(tree.tree[0].parent, Some(4));
    assert_eq!(tree.tree[1].parent, Some(4));
    assert_eq!(tree.tree[2].parent, Some(5));
    assert_eq!(tree.tree[4].parent, Some(5));
    assert_eq!(tree.tree[3].parent, Some(6));
    assert_eq!(tree.tree[5].parent, Some(6));
    assert_eq!(tree.tree[6].parent, None);
    for node in &tree.tree[4..] {
        assert_eq!(node.symbol, None);
    }
}

#[test]
fn codewords_read_from_the_root_with_one_for_left() {
    let tree = HuffmanTree::new(b"adabcda");
    assert_eq!(tree.get_code(b'a'), vec![1]);
    assert_eq!(tree.get_code(b'd'), vec![0, 1]);
    assert_eq!(tree.get_code(b'b'), vec![0, 0, 1]);
    assert_eq!(tree.get_code(b'c'), vec![0, 0, 0]);
    assert_eq!(tree.decode(&[1]), b'a');
    assert_eq!(tree.decode(&[0, 1]), b'd');
    assert_eq!(tree.decode(&[0, 0, 1]), b'b');
    assert_eq!(tree.decode(&[0, 0, 0]), b'c');
}

#[test]
fn counts_of_children_add_up() {
    let text = b"The quick brown fox jumps over the lazy dog";
    let tree = HuffmanTree::new(text);
    let leaves = (tree.tree.len() + 1) / 2;
    assert_eq!(tree.root, tree.tree.len() - 1);
    assert_eq!(tree.tree[tree.root].count, text.len());
    for (i, node) in tree.tree.iter().enumerate() {
        if i < leaves {
            assert!(node.symbol.is_some());
            assert!(node.left.is_none() && node.right.is_none());
        } else {
            let l = node.left.unwrap();
            let r = node.right.unwrap();
            assert_eq!(node.count, tree.tree[l].count + tree.tree[r].count);
            assert_eq!(tree.tree[l].parent, Some(i));
            assert_eq!(tree.tree[r].parent, Some(i));
        }
    }
}

#[test]
fn two_trees_of_one_text_are_the_same() {
    let text = b"so much words wow many compression";
    let a = HuffmanTree::new(text);
    let b = HuffmanTree::new(text);
    assert_eq!(a.root, b.root);
    assert_eq!(a.tree, b.tree);
    assert_eq!(a.symbols, b.symbols);
}

#[test]
fn any_byte_but_one_reads_as_a_zero_bit() {
    let tree = HuffmanTree::new(b"adabcda");
    assert_eq!(tree.decode(&[0, 7, 1]), b'b');
    assert_eq!(tree.decode(&[255, 0, 2]), b'c');
    assert_eq!(tree.decode(&[9, 1]), b'd');
}

#[test]
fn tree_clone_is_equal() {
    let tree = HuffmanTree::new(b"so much words wow many compression");
    let copy = tree.clone();
    assert_eq!(tree, copy);
    assert_eq!(copy.get_code(b'o'), tree.get_code(b'o'));
}
