use huffman::{HuffmanError, HuffmanNode, HuffmanTree};
use std::collections::HashMap;

fn bits(text: &str) -> Vec<bool> {
    text.chars().map(|c| c == '1').collect()
}

fn leaves(node: &HuffmanNode, out: &mut Vec<u8>) {
    match node {
        HuffmanNode::Leaf { byte } => out.push(*byte),
        HuffmanNode::Internal { left, right } => {
            leaves(left, out);
            leaves(right, out);
        }
    }
}

fn english() -> HashMap<u8, usize> {
    HashMap::from([
        (b'e', 1270),
        (b't', 910),
        (b'a', 820),
        (b'o', 750),
        (b'i', 700),
        (b'n', 670),
        (b's', 630),
        (b'h', 610),
        (b'r', 600),
        (b'd', 430),
        (b'l', 400),
        (b'c', 280),
        (b'u', 280),
        (b'm', 240),
        (b'w', 240),
        (b'f', 220),
        (b'g', 200),
        (b'y', 200),
        (b'p', 190),
        (b'b', 150),
        (b'v', 98),
        (b'k', 77),
        (b'j', 15),
        (b'x', 15),
        (b'q', 9),
        (b'z', 7),
    ])
}

#[test]
fn build_refuses_the_empty_table() {
    let freqs: HashMap<u8, usize> = HashMap::new();
    assert!(matches!(
        HuffmanTree::build(&freqs),
        Err(HuffmanError::EmptyFrequencyTable)
    ));
}

#[test]
fn build_accepts_a_table_of_zero_weights() {
    let freqs = HashMap::from([(b'a', 0), (b'b', 0)]);
    let tree = HuffmanTree::build(&freqs).unwrap();
    assert_eq!(tree.code(b'a'), Some(&bits("0")));
    assert_eq!(tree.code(b'b'), Some(&bits("1")));
}

#[test]
fn three_symbols_get_the_expected_codes() {
    let freqs = HashMap::from([(b'a', 2), (b'b', 1), (b'c', 1)]);
    let tree = HuffmanTree::build(&freqs).unwrap();
    assert_eq!(tree.code(b'a'), Some(&bits("0")));
    assert_eq!(tree.code(b'b'), Some(&bits("10")));
    assert_eq!(tree.code(b'c'), Some(&bits("11")));
    assert_eq!(tree.code(b'd'), None);
}

#[test]
fn three_symbols_get_the_expected_shape() {
    let freqs = HashMap::from([(b'a', 2), (b'b', 1), (b'c', 1)]);
    let tree = HuffmanTree::build(&freqs).unwrap();
    match tree.root_node() {
        HuffmanNode::Internal { left, right } => {
            assert!(matches!(**left, HuffmanNode::Leaf { byte: b'a' }));
            match &**right {
                HuffmanNode::Internal { left, right } => {
                    assert!(matches!(**left, HuffmanNode::Leaf { byte: b'b' }));
                    assert!(matches!(**right, HuffmanNode::Leaf { byte: b'c' }));
                }
                HuffmanNode::Leaf { .. } => panic!("the right child is a leaf"),
            }
        }
        HuffmanNode::Leaf { .. } => panic!("the root is a leaf"),
    }
}

#[test]
fn single_symbol_gets_a_one_bit_code() {
    let freqs = HashMap::from([(b'x', 5)]);
    let tree = HuffmanTree::build(&freqs).unwrap();
    assert!(matches!(tree.root_node(), HuffmanNode::Leaf { byte: b'x' }));
    assert_eq!(tree.code(b'x'), Some(&bits("0")));
    assert!(tree.code(b'x').unwrap().len() >= 1);
    assert_eq!(tree.code(b'y'), None);
}

#[test]
fn equal_weights_are_merged_by_ascending_symbol() {
    let freqs = HashMap::from([(b'd', 1), (b'b', 1), (b'a', 1), (b'c', 1)]);
    let tree = HuffmanTree::build(&freqs).unwrap();
    assert_eq!(tree.code(b'a'), Some(&bits("00")));
    assert_eq!(tree.code(b'b'), Some(&bits("01")));
    assert_eq!(tree.code(b'c'), Some(&bits("10")));
    assert_eq!(tree.code(b'd'), Some(&bits("11")));
}

#[test]
fn a_leaf_leaves_before_a_merged_node_of_its_weight() {
    // b and c merge into a node of weight 2; a, a leaf of weight 2, leaves first.
    let freqs = HashMap::from([(b'c', 1), (b'a', 2), (b'b', 1), (b'z', 2)]);
    let tree = HuffmanTree::build(&freqs).unwrap();
    // queue: b c a z -> a z (bc) -> (bc) (az) -> ((bc)(az))
    assert_eq!(tree.code(b'b'), Some(&bits("00")));
    assert_eq!(tree.code(b'c'), Some(&bits("01")));
    assert_eq!(tree.code(b'a'), Some(&bits("10")));
    assert_eq!(tree.code(b'z'), Some(&bits("11")));
}

#[test]
fn merged_nodes_of_equal_weight_leave_in_the_order_of_their_making() {
    let freqs = HashMap::from([(1u8, 1), (2u8, 1), (3u8, 1), (4u8, 1), (5u8, 4), (6u8, 4)]);
    let tree = HuffmanTree::build(&freqs).unwrap();
    // 1 2 3 4 5 6 -> 3 4 (12) 5 6 -> (12) (34) 5 6 -> 5 6 ((12)(34))
    // -> ((12)(34)) (56) -> (((12)(34)) (56))
    assert_eq!(tree.code(1), Some(&bits("000")));
    assert_eq!(tree.code(2), Some(&bits("001")));
    assert_eq!(tree.code(3), Some(&bits("010")));
    assert_eq!(tree.code(4), Some(&bits("011")));
    assert_eq!(tree.code(5), Some(&bits("10")));
    assert_eq!(tree.code(6), Some(&bits("11")));
}

#[test]
fn the_greatest_weights_do_not_overflow() {
    let freqs = HashMap::from([(0u8, usize::MAX), (1u8, usize::MAX), (2u8, usize::MAX)]);
    let tree = HuffmanTree::build(&freqs).unwrap();
    assert_eq!(tree.code(2), Some(&bits("0")));
    assert_eq!(tree.code(0), Some(&bits("10")));
    assert_eq!(tree.code(1), Some(&bits("11")));
}

#[test]
fn all_byte_values_with_the_greatest_weight_build() {
    let freqs: HashMap<u8, usize> = (0..=255u8).map(|s| (s, usize::MAX)).collect();
    let tree = HuffmanTree::build(&freqs).unwrap();
    for s in 0..=255u8 {
        assert_eq!(tree.code(s).unwrap().len(), 8);
    }
    assert_eq!(tree.code(0), Some(&bits("00000000")));
    assert_eq!(tree.code(255), Some(&bits("11111111")));
}

#[test]
fn the_leaves_are_the_symbols_of_the_table() {
    let freqs = english();
    let tree = HuffmanTree::build(&freqs).unwrap();
    let mut found = Vec::new();
    leaves(tree.root_node(), &mut found);
    found.sort();
    let mut expected: Vec<u8> = freqs.keys().copied().collect();
    expected.sort();
    assert_eq!(found, expected);
}

#[test]
fn the_codebook_covers_exactly_the_symbols_of_the_table() {
    let freqs = english();
    let tree = HuffmanTree::build(&freqs).unwrap();
    for s in 0..=255u8 {
        assert_eq!(tree.code(s).is_some(), freqs.contains_key(&s));
    }
}

#[test]
fn english_letters_get_the_expected_codes() {
    let tree = HuffmanTree::build(&english()).unwrap();
    let expected = [
        (b'a', "1110"),
        (b'b', "110000"),
        (b'c', "01000"),
        (b'd', "11111"),
        (b'e', "100"),
        (b'f', "00100"),
        (b'g', "111100"),
        (b'h', "0110"),
        (b'i', "1011"),
        (b'j', "001011010"),
        (b'k', "0010111"),
        (b'l', "11001"),
        (b'm', "00110"),
        (b'n', "1010"),
        (b'o', "1101"),
        (b'p', "110001"),
        (b'q', "001011001"),
        (b'r', "0101"),
        (b's', "0111"),
        (b't', "000"),
        (b'u', "01001"),
        (b'v', "001010"),
        (b'w', "00111"),
        (b'x', "001011011"),
        (b'y', "111101"),
        (b'z', "001011000"),
    ];
    for (symbol, code) in expected {
        assert_eq!(tree.code(symbol), Some(&bits(code)));
    }
}

#[test]
fn codes_are_prefix_free() {
    let tree = HuffmanTree::build(&english()).unwrap();
    for a in 0..=255u8 {
        for b in 0..=255u8 {
            if a == b {
                continue;
            }
            if let (Some(x), Some(y)) = (tree.code(a), tree.code(b)) {
                assert!(!y.starts_with(x));
            }
        }
    }
}

#[test]
fn the_tree_does_not_depend_on_the_order_of_insertion() {
    let pairs: Vec<(u8, usize)> = (0..40u8).map(|s| (s, (s as usize * 7) % 5)).collect();
    let mut forward = HashMap::new();
    for (s, w) in pairs.iter() {
        forward.insert(*s, *w);
    }
    let mut backward = HashMap::new();
    for (s, w) in pairs.iter().rev() {
        backward.insert(*s, *w);
    }
    let one = HuffmanTree::build(&forward).unwrap();
    let other = HuffmanTree::build(&backward).unwrap();
    for s in 0..=255u8 {
        assert_eq!(one.code(s), other.code(s));
    }
    let again = HuffmanTree::build(&forward).unwrap();
    for s in 0..=255u8 {
        assert_eq!(one.code(s), again.code(s));
    }
}

fn leaf(byte: u8) -> Box<HuffmanNode> {
    Box::new(HuffmanNode::Leaf { byte })
}

#[test]
fn build_codes_records_the_paths_behind_the_prefix() {
    let tree = HuffmanNode::Internal {
        left: leaf(b'a'),
        right: Box::new(HuffmanNode::Internal { left: leaf(b'b'), right: leaf(b'c') }),
    };
    let mut codes = HashMap::new();
    codes.insert(b'z', bits("111"));
    HuffmanTree::build_codes(&tree, bits("01"), &mut codes);
    assert_eq!(codes.len(), 4);
    assert_eq!(codes[&b'a'], bits("010"));
    assert_eq!(codes[&b'b'], bits("0110"));
    assert_eq!(codes[&b'c'], bits("0111"));
    assert_eq!(codes[&b'z'], bits("111"));
}

#[test]
fn build_codes_of_a_root_leaf_records_the_one_bit_code() {
    let mut codes = HashMap::new();
    HuffmanTree::build_codes(&HuffmanNode::Leaf { byte: b'x' }, Vec::new(), &mut codes);
    assert_eq!(codes, HashMap::from([(b'x', vec![false])]));
}

#[test]
fn build_codes_of_a_leaf_behind_a_prefix_records_the_prefix() {
    let mut codes = HashMap::new();
    HuffmanTree::build_codes(&HuffmanNode::Leaf { byte: 9 }, bits("10"), &mut codes);
    assert_eq!(codes, HashMap::from([(9u8, bits("10"))]));
    HuffmanTree::build_codes(&HuffmanNode::Leaf { byte: 7 }, bits("0"), &mut codes);
    assert_eq!(codes, HashMap::from([(9u8, bits("10")), (7u8, bits("0"))]));
}

#[test]
fn build_codes_keeps_the_rightmost_of_two_leaves() {
    let tree = HuffmanNode::Internal {
        left: leaf(b'a'),
        right: Box::new(HuffmanNode::Internal { left: leaf(b'b'), right: leaf(b'a') }),
    };
    let mut codes = HashMap::new();
    HuffmanTree::build_codes(&tree, Vec::new(), &mut codes);
    assert_eq!(codes.len(), 2);
    assert_eq!(codes[&b'a'], bits("11"));
    assert_eq!(codes[&b'b'], bits("10"));
}
