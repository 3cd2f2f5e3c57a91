use cidr_matcher::bit_vec::BitVec;
use cidr_matcher::lpc_trie::{InternalNode, LPCTrie, TrieNode, HALVE_THRESHOLD, INFLATE_THRESHOLD};

const KEYS: [&str; 12] = [
    "00010000", "01000010", "00001010", "00101011", "10101101", "10110110", "11011011",
    "01101110", "10111010", "11101001", "10100111", "10011110",
];

#[test]
fn test_lpc_trie() {
    let mut trie = LPCTrie::new();
    let bitvecs: Vec<u32> = vec![
        u32::from_bit_str("00010000"),
        u32::from_bit_str("01000010"),
        u32::from_bit_str("00001010"),
        u32::from_bit_str("00101011"),
        u32::from_bit_str("10101101"),
        u32::from_bit_str("10110110"),
        u32::from_bit_str("11011011"),
        u32::from_bit_str("01101110"),
        u32::from_bit_str("10111010"),
        u32::from_bit_str("11101001"),
        u32::from_bit_str("10100111"),
        u32::from_bit_str("10011110"),
    ];
    for bv in bitvecs {
        trie.put(bv, 1, "fake".to_string());
    }
    assert_eq!(trie.get(u32::from_bit_str("00010000")), true);
    assert_eq!(trie.get(u32::from_bit_str("01000010")), true);
    assert_eq!(trie.get(u32::from_bit_str("00001010")), true);
    assert_eq!(trie.get(u32::from_bit_str("00101011")), true);
    assert_eq!(trie.get(u32::from_bit_str("10101101")), true);
    assert_eq!(trie.get(u32::from_bit_str("10110110")), true);
    assert_eq!(trie.get(u32::from_bit_str("11011011")), true);
    assert_eq!(trie.get(u32::from_bit_str("01101110")), true);
    assert_eq!(trie.get(u32::from_bit_str("10111010")), true);
    assert_eq!(trie.get(u32::from_bit_str("11101001")), true);
    assert_eq!(trie.get(u32::from_bit_str("10100111")), true);
    assert_eq!(trie.get(u32::from_bit_str("10011110")), true);

    let mut trie = LPCTrie::new();
    let bitvecs: Vec<u64> = vec![
        u64::from_bit_str("00010000"),
        u64::from_bit_str("01000010"),
        u64::from_bit_str("00001010"),
        u64::from_bit_str("00101011"),
        u64::from_bit_str("10101101"),
        u64::from_bit_str("10110110"),
        u64::from_bit_str("11011011"),
        u64::from_bit_str("01101110"),
        u64::from_bit_str("10111010"),
        u64::from_bit_str("11101001"),
        u64::from_bit_str("10100111"),
        u64::from_bit_str("10011110"),
    ];
    for bv in bitvecs {
        trie.put(bv, 1, "fake".to_string());
    }
    assert_eq!(trie.get(u64::from_bit_str("00010000")), true);
    assert_eq!(trie.get(u64::from_bit_str("01000010")), true);
    assert_eq!(trie.get(u64::from_bit_str("00001010")), true);
    assert_eq!(trie.get(u64::from_bit_str("00101011")), true);
    assert_eq!(trie.get(u64::from_bit_str("10101101")), true);
    assert_eq!(trie.get(u64::from_bit_str("10110110")), true);
    assert_eq!(trie.get(u64::from_bit_str("11011011")), true);
    assert_eq!(trie.get(u64::from_bit_str("01101110")), true);
    assert_eq!(trie.get(u64::from_bit_str("10111010")), true);
    assert_eq!(trie.get(u64::from_bit_str("11101001")), true);
    assert_eq!(trie.get(u64::from_bit_str("10100111")), true);
    assert_eq!(trie.get(u64::from_bit_str("10011110")), true);

    let mut trie = LPCTrie::new();
    let bitvecs: Vec<u128> = vec![
        u128::from_bit_str("00010000"),
        u128::from_bit_str("01000010"),
        u128::from_bit_str("00001010"),
        u128::from_bit_str("00101011"),
        u128::from_bit_str("10101101"),
        u128::from_bit_str("10110110"),
        u128::from_bit_str("11011011"),
        u128::from_bit_str("01101110"),
        u128::from_bit_str("10111010"),
        u128::from_bit_str("11101001"),
        u128::from_bit_str("10100111"),
        u128::from_bit_str("10011110"),
    ];
    for bv in bitvecs {
        trie.put(bv, 7, "fake".to_string());
    }
    assert_eq!(trie.get(u128::from_bit_str("00110000")), false);
    assert_eq!(trie.get(u128::from_bit_str("00010000")), true);
    assert_eq!(trie.get(u128::from_bit_str("01000010")), true);
    assert_eq!(trie.get(u128::from_bit_str("00001010")), true);
    assert_eq!(trie.get(u128::from_bit_str("00101011")), true);
    assert_eq!(trie.get(u128::from_bit_str("10101101")), true);
    assert_eq!(trie.get(u128::from_bit_str("10110110")), true);
    assert_eq!(trie.get(u128::from_bit_str("11011011")), true);
    assert_eq!(trie.get(u128::from_bit_str("01101110")), true);
    assert_eq!(trie.get(u128::from_bit_str("10111010")), true);
    assert_eq!(trie.get(u128::from_bit_str("11101001")), true);
    assert_eq!(trie.get(u128::from_bit_str("10100111")), true);
    assert_eq!(trie.get(u128::from_bit_str("10011110")), true);
    assert_eq!(trie.get(u128::from_bit_str("10011100")), false);
}

#[test]
fn eight_bit_keys_full_prefix() {
    let mut trie = LPCTrie::new();
    for s in KEYS.iter() {
        trie.put(u32::from_bit_str(s), 8, "x".to_string());
    }
    for s in KEYS.iter() {
        assert!(trie.get(u32::from_bit_str(s)));
    }
    assert!(!trie.get(u32::from_bit_str("00110000")));
    assert_eq!(trie.size(), 12);
}

#[test]
fn seven_bit_prefix_ignores_the_last_bit() {
    let mut trie = LPCTrie::new();
    for s in KEYS.iter() {
        let k = u32::from_bit_str(s) >> 25 << 25;
        trie.put(k, 7, "x".to_string());
    }
    assert!(!trie.get(u32::from_bit_str("10011100")));
    assert!(trie.get(u32::from_bit_str("10011111")));
    assert!(trie.get(u32::from_bit_str("10011110")));
}

#[test]
fn ipv4_block_membership() {
    let mut trie = LPCTrie::new();
    trie.put(0x0100_0100u32, 24, "CN".to_string());
    assert!(trie.get(0x0100_0105));
    assert!(!trie.get(0x0100_0205));
    assert!(!trie.get(0x0808_0808));
    assert_eq!(trie.get_with_value(0x0100_01FF), "CN");
    assert_eq!(trie.get_with_value(0x0808_0808), "");
}

#[test]
fn ipv6_block_value() {
    let mut trie = LPCTrie::new();
    let base: u128 = 0x2001_4860_4860u128 << 80;
    trie.put(base, 48, "US".to_string());
    let q: u128 = (0x2001_4860_4860u128 << 80) | 0x8888;
    assert!(trie.get(q));
    assert_eq!(trie.get_with_value(q), "US");
    assert_eq!(trie.get_with_value(0x2001_4860_4861u128 << 80), "");
}

#[test]
fn clear_empties_the_trie() {
    let mut trie = LPCTrie::new();
    assert!(trie.empty());
    for s in KEYS.iter() {
        trie.put(u32::from_bit_str(s), 8, "x".to_string());
    }
    assert!(!trie.empty());
    trie.clear();
    assert!(trie.empty());
    assert_eq!(trie.size(), 0);
    for s in KEYS.iter() {
        assert!(!trie.get(u32::from_bit_str(s)));
    }
}

#[test]
fn mixed_countries_keep_their_values() {
    let mut both = LPCTrie::new();
    let mut cn_only = LPCTrie::new();
    let cn: u128 = 0x2400_da00u128 << 96;
    let us: u128 = 0x2001_4860u128 << 96;
    both.put(cn, 32, "CN".to_string());
    cn_only.put(cn, 32, "CN".to_string());
    both.put(us, 32, "US".to_string());
    assert_eq!(both.get_with_value(us | 0x8888), "US");
    assert_eq!(both.get_with_value(cn | 0x1), "CN");
    assert!(!cn_only.get(us | 0x8888));
    assert!(cn_only.get(cn | 0x1));
}

#[test]
fn second_put_of_a_key_changes_nothing() {
    let mut trie = LPCTrie::new();
    trie.put(0x0A00_0000u32, 8, "first".to_string());
    assert_eq!(trie.size(), 1);
    trie.put(0x0A00_0000u32, 8, "first".to_string());
    assert_eq!(trie.size(), 1);
    trie.put(0x0A00_0000u32, 16, "second".to_string());
    assert_eq!(trie.size(), 1);
    assert_eq!(trie.get_with_value(0x0A01_0000), "first");
}

#[test]
fn lookup_goes_by_the_branching_bits() {
    // 00/2, 01/2 and 1/1: the node over them widens to two bits, so a key
    // under 1/1 whose second bit is set finds an empty slot.
    let mut trie = LPCTrie::new();
    trie.put(0x0000_0000u32, 2, "a".to_string());
    trie.put(0x4000_0000u32, 2, "b".to_string());
    trie.put(0x8000_0000u32, 1, "c".to_string());
    assert!(trie.get(0x8000_0000));
    assert!(trie.get(0x9000_0000));
    assert!(!trie.get(0xC000_0000));
}

fn used_slots(child: &[TrieNode<u32>]) -> usize {
    child.iter().filter(|c| !c.is_none()).count()
}

/// Checks the counters and the balance of every internal node.
fn check_node(n: &TrieNode<u32>) {
    if let TrieNode::Internal(b) = n {
        let len = b.child.len();
        assert_eq!(len, 1usize << b.bits);
        let empty = b.child.iter().filter(|c| c.is_none()).count();
        let full = b
            .child
            .iter()
            .filter(|c| matches!(c, TrieNode::Internal(x) if x.pos == b.pos + b.bits))
            .count();
        assert_eq!(b.empty_children as usize, empty);
        assert_eq!(b.full_children as usize, full);
        let used = used_slots(&b.child) as u64;
        assert!(used >= 2);
        let inflate = b.pos + b.bits < 32
            && b.bits < cidr_matcher::lpc_trie::MAX_BITS
            && 50 * (full as u64 + used) >= INFLATE_THRESHOLD * len as u64;
        let halve = b.bits > 1 && 100 * used < HALVE_THRESHOLD * len as u64;
        assert!(!inflate);
        assert!(!halve);
        for c in b.child.iter() {
            check_node(c);
        }
    }
}

#[test]
fn every_node_keeps_counters_and_balance() {
    let mut trie = LPCTrie::new();
    let mut x: u32 = 12345;
    let mut keys = Vec::new();
    for i in 0..2000u32 {
        x = x.wrapping_mul(1103515245).wrapping_add(12345);
        let p = 8 + (i % 25) as u8;
        let k = x >> (32 - p as u32) << (32 - p as u32);
        trie.put(k, p, "v".to_string());
        keys.push(k);
        check_node(&trie.trie);
    }
    for k in keys.iter() {
        assert!(trie.get(*k));
    }
}

#[test]
fn dense_keys_widen_the_root() {
    // 256 leaves fill an 8-bit root, which then meets the inflate threshold
    // once more: the root branches on 9 bits and half of its slots are empty.
    let mut trie = LPCTrie::new();
    for i in 0..256u32 {
        trie.put(i << 24, 8, "d".to_string());
    }
    check_node(&trie.trie);
    if let TrieNode::Internal(b) = &trie.trie {
        assert_eq!(b.pos, 0);
        assert_eq!(b.bits, 9);
        assert_eq!(b.empty_children, 256);
    } else {
        panic!("expected an internal root");
    }
    for i in 0..256u32 {
        assert!(trie.get((i << 24) | 0x0012_3456));
        assert!(!trie.get((i << 24) | 0x0080_0000));
    }
}

#[test]
fn internal_node_slots() {
    let mut n: InternalNode<u32> = InternalNode::new(0, 0, 2);
    assert_eq!(n.child.len(), 4);
    assert_eq!(n.empty_children, 4);
    let mut leaf = TrieNode::Empty;
    let mut probe = LPCTrie::new();
    probe.put(0x4000_0000u32, 32, "l".to_string());
    std::mem::swap(&mut leaf, &mut probe.trie);
    n.put_child(1, &mut leaf);
    assert!(leaf.is_none());
    assert_eq!(n.empty_children, 3);
    assert!(n.get_child(1).is_some());
    assert_eq!(n.get_child(1).key(), 0x4000_0000);
    let mut back = TrieNode::Empty;
    n.put_child(1, &mut back);
    assert!(back.is_some());
    assert_eq!(n.empty_children, 4);
}

#[test]
fn uniform_prefix_blocks_cover_their_addresses() {
    let mut trie = LPCTrie::new();
    let mut x: u32 = 777;
    let mut bases = Vec::new();
    for _ in 0..500 {
        x = x.wrapping_mul(1664525).wrapping_add(1013904223);
        let base = x & 0xFFFF_FF00;
        trie.put(base, 24, "b".to_string());
        bases.push(base);
    }
    for (i, b) in bases.iter().enumerate() {
        assert!(trie.get(b | (i as u32 & 0xFF)));
        assert!(trie.get(b | 0xFF));
        assert_eq!(trie.get_with_value(b | 0x7F), "b");
    }
}

#[test]
fn seven_bit_prefix_unmasked_keys() {
    let mut trie = LPCTrie::new();
    for s in KEYS.iter() {
        trie.put(u128::from_bit_str(s), 7, "v".to_string());
    }
    assert!(trie.get(u128::from_bit_str("10011111")));
    assert!(!trie.get(u128::from_bit_str("10011100")));
}
