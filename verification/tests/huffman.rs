use lau_information_theory::coding::{code_book, extract_codes, CodeBook, CodeTree};
use lau_information_theory::huffman::{huffman_code_book, HuffmanForest};

fn is_prefix(p: &[u8], q: &[u8]) -> bool {
    q.starts_with(p)
}

fn kraft_scaled(lengths: &[usize], e: usize) -> u128 {
    lengths
        .iter()
        .filter(|&&l| l > 0 && l <= e)
        .map(|&l| 1u128 << (e - l))
        .sum()
}

/// Merges as Huffman's rule does in `f64` for probabilities 0.4, 0.3, 0.2,
/// 0.1: {3, 2} first; then, as 0.1 + 0.2 > 0.3 in `f64`, symbol 1 (under
/// bit 0) with that tree; then symbol 0 with the rest.
fn four_symbol_code() -> (CodeTree, CodeBook) {
    let mut forest = HuffmanForest::new(4);
    assert_eq!(forest.tree_count(), 4);
    let a = forest.merge(3, 2);
    assert_eq!(a, 4);
    let b = forest.merge(1, a);
    assert_eq!(b, 5);
    let c = forest.merge(0, b);
    assert_eq!(c, 6);
    assert_eq!(forest.tree_count(), 1);
    huffman_code_book(forest, c)
}

#[test]
fn test_huffman_four_symbols_codes() {
    let (_, book) = four_symbol_code();
    assert_eq!(book.codes, vec![vec![0], vec![1, 0], vec![1, 1, 1], vec![1, 1, 0]]);
    assert_eq!(book.lengths, vec![1, 2, 3, 3]);
}

#[test]
fn test_huffman_prefix_free_law() {
    let (_, book) = four_symbol_code();
    for i in 0..book.codes.len() {
        for j in 0..book.codes.len() {
            if i != j {
                assert!(!book.codes[i].starts_with(&book.codes[j]));
                assert!(!is_prefix(&book.codes[j], &book.codes[i]));
            }
        }
    }
}

#[test]
fn test_huffman_kraft_equality_law() {
    let (_, book) = four_symbol_code();
    for e in 3..10 {
        assert_eq!(kraft_scaled(&book.lengths, e), 1u128 << e);
    }
}

#[test]
fn test_huffman_uniform_four() {
    let mut forest = HuffmanForest::new(4);
    let a = forest.merge(0, 1);
    let b = forest.merge(2, 3);
    let c = forest.merge(a, b);
    let (_, book) = huffman_code_book(forest, c);
    assert_eq!(book.lengths, vec![2, 2, 2, 2]);
    assert_eq!(book.codes, vec![vec![0, 0], vec![0, 1], vec![1, 0], vec![1, 1]]);
}

#[test]
fn test_huffman_single_symbol() {
    let forest = HuffmanForest::new(1);
    assert_eq!(forest.tree_count(), 1);
    let (tree, book) = huffman_code_book(forest, 0);
    assert!(matches!(tree, CodeTree::Leaf(0)));
    assert_eq!(book.lengths, vec![0]);
    assert_eq!(book.codes, vec![Vec::<u8>::new()]);
    assert_eq!(kraft_scaled(&book.lengths, 4), 0);
}

#[test]
fn test_huffman_two_symbols_lengths() {
    let mut forest = HuffmanForest::new(2);
    let s = forest.merge(1, 0);
    let (tree, book) = huffman_code_book(forest, s);
    assert!(matches!(tree, CodeTree::Node(_, _)));
    assert_eq!(book.lengths.iter().sum::<usize>(), 2);
    assert_eq!(book.codes, vec![vec![1], vec![0]]);
}

#[test]
fn test_huffman_all_codes_nonempty() {
    let mut forest = HuffmanForest::new(6);
    let a = forest.merge(0, 1);
    let b = forest.merge(2, a);
    let c = forest.merge(3, 4);
    let d = forest.merge(b, c);
    let e = forest.merge(5, d);
    let (_, book) = huffman_code_book(forest, e);
    assert!(book.lengths.iter().all(|&l| l >= 1));
    assert_eq!(book.lengths, vec![4, 4, 3, 3, 3, 1]);
    let max = *book.lengths.iter().max().unwrap();
    assert_eq!(kraft_scaled(&book.lengths, max), 1u128 << max);
}

#[test]
fn test_code_book_missing_symbol_empty() {
    let tree = CodeTree::Node(Box::new(CodeTree::Leaf(0)), Box::new(CodeTree::Leaf(2)));
    let book = code_book(&tree, 4);
    assert_eq!(book.codes, vec![vec![0], vec![], vec![1], vec![]]);
    assert_eq!(book.lengths, vec![1, 0, 1, 0]);
}

#[test]
fn test_extract_codes_keeps_prefix() {
    let tree = CodeTree::Node(
        Box::new(CodeTree::Leaf(1)),
        Box::new(CodeTree::Node(Box::new(CodeTree::Leaf(0)), Box::new(CodeTree::Leaf(2)))),
    );
    let mut prefix = vec![1u8, 1];
    let mut codes = vec![vec![9u8]; 4];
    extract_codes(&tree, &mut prefix, &mut codes);
    assert_eq!(prefix, vec![1, 1]);
    assert_eq!(codes, vec![vec![1, 1, 1, 0], vec![1, 1, 0], vec![1, 1, 1, 1], vec![9]]);
}

#[test]
fn test_extract_codes_repeated_symbol_last_wins() {
    let tree = CodeTree::Node(Box::new(CodeTree::Leaf(0)), Box::new(CodeTree::Leaf(0)));
    let mut prefix = Vec::new();
    let mut codes = vec![Vec::new(); 1];
    extract_codes(&tree, &mut prefix, &mut codes);
    assert_eq!(codes, vec![vec![1]]);
}

#[test]
fn test_forest_into_tree_shape() {
    let mut forest = HuffmanForest::new(3);
    let a = forest.merge(2, 0);
    let b = forest.merge(1, a);
    assert_eq!(forest.tree_count(), 1);
    let tree = forest.into_tree(b);
    let book = code_book(&tree, 3);
    assert_eq!(book.codes, vec![vec![1, 1], vec![0], vec![1, 0]]);
    match tree {
        CodeTree::Node(l, r) => {
            assert!(matches!(*l, CodeTree::Leaf(1)));
            assert!(matches!(*r, CodeTree::Node(_, _)));
        }
        CodeTree::Leaf(_) => panic!("expected an internal node"),
    }
}

#[test]
fn test_forest_merge_counts_trees() {
    let mut forest = HuffmanForest::new(5);
    assert_eq!(forest.tree_count(), 5);
    let a = forest.merge(4, 3);
    assert_eq!(forest.tree_count(), 4);
    let b = forest.merge(a, 2);
    assert_eq!((a, b), (5, 6));
    assert_eq!(forest.tree_count(), 3);
}

#[test]
fn test_forest_slots_after_merge() {
    let mut forest = HuffmanForest::new(3);
    assert_eq!(forest.slot_count(), 3);
    assert!(forest.holds_tree(0) && forest.holds_tree(2));
    assert!(!forest.holds_tree(3));
    let a = forest.merge(0, 2);
    assert_eq!(forest.slot_count(), 4);
    assert!(!forest.holds_tree(0));
    assert!(!forest.holds_tree(2));
    assert!(forest.holds_tree(1) && forest.holds_tree(a));
}
