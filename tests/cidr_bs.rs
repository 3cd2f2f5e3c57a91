use cidr_matcher::cidr_bs::{Cidr, GeoIP, GeoIPMatcher};
use cidr_matcher::lpc_trie::LPCTrie;

fn record(code: &str, blocks: &[(&[u8], u32)]) -> GeoIP {
    GeoIP {
        country_code: code.to_string(),
        cidr: blocks.iter().map(|(ip, p)| Cidr { ip: ip.to_vec(), prefix: *p }).collect(),
    }
}

fn v6(groups: [u16; 8]) -> Vec<u8> {
    groups.iter().flat_map(|g| g.to_be_bytes()).collect()
}

#[test]
fn ipv4_block_match() {
    let mut m = GeoIPMatcher::new();
    m.put(&record("cn", &[(&[1, 0, 1, 0], 24)]));
    assert!(m.match_ip(&vec![1, 0, 1, 5]));
    assert!(!m.match_ip(&vec![1, 0, 2, 5]));
    assert!(!m.match_ip(&vec![8, 8, 8, 8]));
    assert_eq!(m.country_code, "CN");
}

#[test]
fn ipv6_block_match() {
    let mut m = GeoIPMatcher::new();
    let base = v6([0x2001, 0x4860, 0x4860, 0, 0, 0, 0, 0]);
    m.put(&record("us", &[(&base, 48)]));
    assert!(m.match_ip(&v6([0x2001, 0x4860, 0x4860, 0, 0, 0, 0, 0x8888])));
    assert!(!m.match_ip(&v6([0x2001, 0x4860, 0x4861, 0, 0, 0, 0, 0x8888])));
    assert!(m.match_ip(&v6([0x2001, 0x4860, 0x4860, 0xffff, 1, 2, 3, 4])));
}

#[test]
fn ipv6_low_half_counts() {
    let mut m = GeoIPMatcher::new();
    let base = v6([0x2001, 0xdb8, 0, 0, 0xabcd, 0, 0, 0]);
    m.put(&record("de", &[(&base, 80)]));
    assert!(m.match_ip(&v6([0x2001, 0xdb8, 0, 0, 0xabcd, 0, 9, 9])));
    assert!(!m.match_ip(&v6([0x2001, 0xdb8, 0, 0, 0xabce, 0, 9, 9])));
    assert!(!m.match_ip(&v6([0x2001, 0xdb8, 0, 1, 0xabcd, 0, 9, 9])));
}

#[test]
fn empty_matcher_misses() {
    let m = GeoIPMatcher::new();
    assert!(!m.match_ip(&vec![1, 2, 3, 4]));
    assert!(!m.match_ip(&v6([1, 2, 3, 4, 5, 6, 7, 8])));
}

#[test]
fn many_blocks_are_searched() {
    let mut m = GeoIPMatcher::new();
    let mut blocks: Vec<(Vec<u8>, u32)> = Vec::new();
    for i in (0..200u32).rev() {
        blocks.push((vec![10, i as u8, 0, 0], 16));
    }
    let rec = GeoIP {
        country_code: "jp".to_string(),
        cidr: blocks.into_iter().map(|(ip, prefix)| Cidr { ip, prefix }).collect(),
    };
    m.put(&rec);
    for i in 0..200u32 {
        assert!(m.match_ip(&vec![10, i as u8, 7, 9]));
    }
    assert!(!m.match_ip(&vec![10, 200, 0, 1]));
    assert!(!m.match_ip(&vec![9, 255, 255, 255]));
    assert!(!m.match_ip(&vec![11, 0, 0, 0]));
    assert_eq!(m.ip4.len(), 200);
    for w in m.ip4.windows(2) {
        assert!(w[0] <= w[1]);
    }
}

#[test]
fn bad_entries_are_left_out() {
    let mut m = GeoIPMatcher::new();
    m.put(&record("fr", &[(&[1, 2, 3], 8), (&[1, 2, 3, 4], 40), (&[5, 6, 7, 8], 8)]));
    assert_eq!(m.ip4.len(), 1);
    assert!(m.match_ip(&vec![5, 1, 1, 1]));
    assert!(!m.match_ip(&vec![1, 2, 3, 4]));
}

#[test]
fn zero_prefix_covers_everything() {
    let mut m = GeoIPMatcher::new();
    m.put(&record("zz", &[(&[9, 9, 9, 9], 0)]));
    assert_eq!(m.ip4[0], 0);
    assert!(m.match_ip(&vec![200, 1, 2, 3]));
}

#[test]
fn unnormalized_base_is_masked() {
    let mut m = GeoIPMatcher::new();
    m.put(&record("cn", &[(&[1, 0, 1, 77], 24)]));
    assert_eq!(m.ip4[0], 0x0100_0100);
    assert_eq!(m.prefix4[0], 24);
}

#[test]
fn exact_blocks_agree_with_trie() {
    let addrs: [[u8; 4]; 5] = [[1, 2, 3, 4], [8, 8, 8, 8], [10, 0, 0, 1], [192, 168, 1, 1], [1, 2, 3, 5]];
    let mut m = GeoIPMatcher::new();
    let mut t = LPCTrie::new();
    let blocks: Vec<(&[u8], u32)> = addrs[..3].iter().map(|a| (&a[..], 32)).collect();
    m.put(&record("xx", &blocks));
    for a in addrs[..3].iter() {
        t.put(u32::from_be_bytes(*a), 32, "XX".to_string());
    }
    for a in addrs.iter() {
        assert_eq!(m.match_ip(&a.to_vec()), t.get(u32::from_be_bytes(*a)));
    }
}

#[test]
fn nested_blocks_keep_the_outer_block() {
    // The binary search ends on 10.1.0.0/16, which does not hold 10.2.0.0;
    // the wider 10.0.0.0/8 before it still does.
    let mut m = GeoIPMatcher::new();
    m.put(&record("cn", &[(&[10, 0, 0, 0], 8), (&[10, 1, 0, 0], 16)]));
    assert!(m.match_ip(&vec![10, 1, 2, 3]));
    assert!(m.match_ip(&vec![10, 0, 2, 3]));
    assert!(m.match_ip(&vec![10, 2, 0, 0]));
    assert!(!m.match_ip(&vec![11, 2, 0, 0]));
    let mut m6 = GeoIPMatcher::new();
    m6.put(&record("cn", &[(&v6([0x2400, 0, 0, 0, 0, 0, 0, 0]), 12), (&v6([0x2401, 0, 0, 0, 0, 0, 0, 0]), 16)]));
    assert!(m6.match_ip(&v6([0x2402, 1, 0, 0, 0, 0, 0, 0])));
    assert!(!m6.match_ip(&v6([0x2410, 1, 0, 0, 0, 0, 0, 0])));
}

#[test]
fn repeated_block_is_stored_once_per_entry() {
    let mut m = GeoIPMatcher::new();
    m.put(&record("cn", &[(&[1, 0, 1, 0], 24)]));
    assert_eq!(m.ip4.len(), 1);
    m.put(&record("cn", &[(&[1, 0, 1, 9], 24)]));
    assert_eq!(m.ip4.len(), 2);
    assert!(m.match_ip(&vec![1, 0, 1, 5]));
}

#[test]
fn uniform_blocks_agree_with_trie() {
    let mut m = GeoIPMatcher::new();
    let mut t = LPCTrie::new();
    let mut x: u32 = 99;
    let mut blocks: Vec<Vec<u8>> = Vec::new();
    for _ in 0..300 {
        x = x.wrapping_mul(1664525).wrapping_add(1013904223);
        let base = x & 0xFFFF_FF00;
        if blocks.iter().any(|b| *b == base.to_be_bytes().to_vec()) {
            continue;
        }
        blocks.push(base.to_be_bytes().to_vec());
        t.put(base, 24, "XX".to_string());
    }
    let rec = GeoIP {
        country_code: "xx".to_string(),
        cidr: blocks.iter().map(|b| Cidr { ip: b.clone(), prefix: 24 }).collect(),
    };
    m.put(&rec);
    let mut y: u32 = 5;
    for i in 0..3000u32 {
        y = y.wrapping_mul(22695477).wrapping_add(1);
        let q = if i % 2 == 0 {
            let b = &blocks[(i as usize / 2) % blocks.len()];
            u32::from_be_bytes([b[0], b[1], b[2], (y & 0xFF) as u8])
        } else {
            y
        };
        assert_eq!(m.match_ip(&q.to_be_bytes().to_vec()), t.get(q));
    }
}
