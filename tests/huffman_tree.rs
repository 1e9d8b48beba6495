use std::collections::HashMap;

use huffman_codec::huffman_tree::HuffmanTree;

fn codes(list: &[(u8, usize)]) -> HashMap<u8, String> {
    let mut v = list.to_vec();
    HuffmanTree::new(&mut v).bits_map().clone()
}

#[test]
fn classic_frequency_set() {
    let list = [(b'a', 5), (b'b', 9), (b'c', 12), (b'd', 13), (b'e', 16), (b'f', 45)];
    let m = codes(&list);
    assert_eq!(m.len(), 6);
    // higher weights never get longer codes
    for (s, w) in list {
        for (t, v) in list {
            if w < v {
                assert!(m[&t].len() <= m[&s].len());
            }
        }
    }
    assert_eq!(m[&b'a'], "1100");
    assert_eq!(m[&b'b'], "1101");
    assert_eq!(m[&b'c'], "100");
    assert_eq!(m[&b'd'], "101");
    assert_eq!(m[&b'e'], "111");
    assert_eq!(m[&b'f'], "0");
}

#[test]
fn three_symbols_are_prefix_free() {
    let m = codes(&[(b'a', 1), (b'b', 2), (b'c', 3)]);
    assert_eq!(m[&b'a'], "10");
    assert_eq!(m[&b'b'], "11");
    assert_eq!(m[&b'c'], "0");
    for (x, cx) in &m {
        for (y, cy) in &m {
            if x != y {
                assert!(!cy.starts_with(cx.as_str()));
            }
        }
    }
}

#[test]
fn single_symbol_gets_empty_code() {
    let m = codes(&[(b'x', 7)]);
    assert_eq!(m.len(), 1);
    assert_eq!(m[&b'x'], "");
}

#[test]
fn empty_input_gives_empty_map() {
    let mut v: Vec<(u8, usize)> = Vec::new();
    let t = HuffmanTree::new(&mut v);
    assert!(t.bits_map().is_empty());
    assert!(v.is_empty());
}

#[test]
fn two_symbols_are_prefix_free() {
    let m = codes(&[(b'q', 10), (b'p', 3)]);
    assert_eq!(m[&b'p'], "0");
    assert_eq!(m[&b'q'], "1");
    let m = codes(&[(b'p', 3), (b'q', 3)]);
    assert_eq!(m[&b'p'], "0");
    assert_eq!(m[&b'q'], "1");
}

#[test]
fn ties_go_to_the_lower_index() {
    let m = codes(&[(b'c', 2), (b'b', 2), (b'a', 2)]);
    assert_eq!(m[&b'c'], "0");
    assert_eq!(m[&b'a'], "10");
    assert_eq!(m[&b'b'], "11");
}

#[test]
fn input_is_sorted_and_deduplicated() {
    let mut v = vec![(b'z', 1), (b'a', 4), (b'z', 1), (b'a', 2), (b'm', 9)];
    let _ = HuffmanTree::new(&mut v);
    assert_eq!(v, vec![(b'a', 2), (b'a', 4), (b'm', 9), (b'z', 1)]);
}

#[test]
fn symbol_with_two_weights_keeps_two_leaves() {
    // leaves: (a,1) (a,5) (b,3); (a,1) and (b,3) merge first, then (a,5)
    let m = codes(&[(b'a', 5), (b'b', 3), (b'a', 1)]);
    assert_eq!(m.len(), 2);
    // the heavier leaf of 'a' comes later and its code is the one kept
    assert_eq!(m[&b'a'], "1");
    assert_eq!(m[&b'b'], "01");
}

#[test]
fn build_is_deterministic() {
    let list = [(b'k', 4), (b'e', 4), (b'y', 1), (b's', 8), (b'e', 4)];
    assert_eq!(codes(&list), codes(&list));
}

#[test]
fn repeated_heavy_entry_is_one_leaf() {
    let heavy = 1usize << (usize::BITS - 1);
    let m = codes(&[(b'x', heavy), (b'x', heavy)]);
    assert_eq!(m.len(), 1);
    assert_eq!(m[&b'x'], "");
}
