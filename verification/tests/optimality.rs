use huffman::HuffmanTree;
use std::collections::HashMap;

/// The least sum of weight times depth over all binary trees whose leaves
/// carry `weights`, found by trying every split into two subtrees.
fn least_cost(weights: &[u64]) -> u64 {
    let n = weights.len();
    if n <= 1 {
        return 0;
    }
    let total: u64 = weights.iter().sum();
    let mut best = u64::MAX;
    for mask in 1..(1u32 << n) - 1 {
        let mut left = Vec::new();
        let mut right = Vec::new();
        for (i, w) in weights.iter().enumerate() {
            if mask & (1 << i) != 0 {
                left.push(*w);
            } else {
                right.push(*w);
            }
        }
        let cost = least_cost(&left) + least_cost(&right) + total;
        if cost < best {
            best = cost;
        }
    }
    best
}

fn built_cost(weights: &[u64]) -> u64 {
    let freqs: HashMap<u8, usize> =
        weights.iter().enumerate().map(|(i, w)| (b'a' + i as u8, *w as usize)).collect();
    let tree = HuffmanTree::build(&freqs).unwrap();
    weights
        .iter()
        .enumerate()
        .map(|(i, w)| *w * tree.code(b'a' + i as u8).unwrap().len() as u64)
        .sum()
}

#[test]
fn two_symbols_cost_their_weights() {
    assert_eq!(built_cost(&[3, 9]), 12);
    assert_eq!(least_cost(&[3, 9]), 12);
}

#[test]
fn known_costs() {
    assert_eq!(built_cost(&[2, 1, 1]), 6);
    assert_eq!(built_cost(&[1, 1, 1, 1]), 8);
    assert_eq!(built_cost(&[1, 2, 4, 8]), 25);
    assert_eq!(built_cost(&[5, 9, 12, 13, 16, 45]), 224);
}

#[test]
fn english_letters_cost() {
    let letters = b"etaoinshrdlcumwfgypbvkjxqz";
    let weights: [usize; 26] = [
        1270, 910, 820, 750, 700, 670, 630, 610, 600, 430, 400, 280, 280, 240, 240, 220, 200,
        200, 190, 150, 98, 77, 15, 15, 9, 7,
    ];
    let freqs: HashMap<u8, usize> = letters.iter().copied().zip(weights).collect();
    let tree = HuffmanTree::build(&freqs).unwrap();
    let cost: usize =
        letters.iter().zip(weights).map(|(s, w)| w * tree.code(*s).unwrap().len()).sum();
    assert_eq!(cost, 42091);
}

#[test]
fn no_tree_on_two_symbols_is_cheaper() {
    for a in 0..6u64 {
        for b in 0..6u64 {
            assert_eq!(built_cost(&[a, b]), least_cost(&[a, b]));
        }
    }
}

#[test]
fn no_tree_on_three_symbols_is_cheaper() {
    for a in 0..6u64 {
        for b in 0..6u64 {
            for c in 0..6u64 {
                assert_eq!(built_cost(&[a, b, c]), least_cost(&[a, b, c]));
            }
        }
    }
}

#[test]
fn no_tree_on_four_symbols_is_cheaper() {
    for a in 0..5u64 {
        for b in 0..5u64 {
            for c in 0..5u64 {
                for d in 0..5u64 {
                    assert_eq!(built_cost(&[a, b, c, d]), least_cost(&[a, b, c, d]));
                }
            }
        }
    }
}

#[test]
fn no_tree_on_five_symbols_is_cheaper() {
    let samples: [[u64; 5]; 6] = [
        [1, 1, 1, 1, 1],
        [1, 2, 3, 4, 5],
        [5, 5, 5, 1, 1],
        [0, 0, 7, 7, 1],
        [10, 1, 1, 1, 1],
        [3, 3, 2, 2, 2],
    ];
    for weights in samples {
        assert_eq!(built_cost(&weights), least_cost(&weights));
    }
}

fn all_codes(longest: usize) -> Vec<Vec<bool>> {
    let mut codes = Vec::new();
    for len in 1..=longest {
        for value in 0..(1u32 << len) {
            codes.push((0..len).map(|k| value >> (len - 1 - k) & 1 == 1).collect());
        }
    }
    codes
}

#[test]
fn no_prefix_code_on_three_symbols_is_cheaper() {
    let codes = all_codes(3);
    assert_eq!(codes.len(), 14);
    for weights in [[2u64, 1, 1], [1, 1, 1], [0, 3, 5], [7, 1, 0], [4, 4, 1]] {
        let built = built_cost(&weights);
        let mut least = u64::MAX;
        for a in codes.iter() {
            for b in codes.iter() {
                for c in codes.iter() {
                    let free = !a.starts_with(b)
                        && !b.starts_with(a)
                        && !a.starts_with(c)
                        && !c.starts_with(a)
                        && !b.starts_with(c)
                        && !c.starts_with(b);
                    if free {
                        let cost = weights[0] * a.len() as u64
                            + weights[1] * b.len() as u64
                            + weights[2] * c.len() as u64;
                        assert!(built <= cost);
                        least = least.min(cost);
                    }
                }
            }
        }
        assert_eq!(built, least);
    }
}

#[test]
fn a_single_symbol_costs_its_weight() {
    assert_eq!(built_cost(&[5]), 5);
    assert_eq!(built_cost(&[0]), 0);
}
