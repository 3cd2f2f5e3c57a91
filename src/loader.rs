use vstd::prelude::*;
use crate::cidr_bs::{GeoIP, V6, read_be, mask4, mask64, v4_of, v6_of, entry4};
use crate::lpc_trie::{LPCTrie, put_result};

verus! {

/// `x` with every bit below its first `p` cleared.
pub open spec fn mask128(x: u128, p: u8) -> u128 {
    if p == 0 {
        0
    } else if p >= 128 {
        x
    } else {
        (x >> ((128 - p) as u128)) << ((128 - p) as u128)
    }
}

/// The 128-bit number of an address given as two halves.
pub open spec fn u128_of(v: V6) -> u128 {
    ((v.a as u128) << 64u128) | (v.b as u128)
}

/// Entry `k` of a record is a 16-byte block whose trie key is `key/p`.
pub open spec fn entry6_key(cidr: Seq<crate::cidr_bs::Cidr>, k: int, key: u128, p: u8) -> bool {
    &&& 0 <= k < cidr.len()
    &&& cidr[k].ip@.len() == 16
    &&& cidr[k].prefix <= 128
    &&& p == cidr[k].prefix
    &&& key == mask128(u128_of(v6_of(cidr[k].ip@)), p)
}

/// The trie key of a 4-byte entry: the address masked to its prefix length.
pub fn key_v4(ip: &Vec<u8>, prefix: u32) -> (r: Option<u32>)
    ensures
        r == if ip@.len() == 4 && prefix <= 32 {
            Some(mask4(v4_of(ip@), prefix as u8))
        } else {
            None::<u32>
        },
{
    if ip.len() != 4 || prefix > 32 {
        return None;
    }
    let x = #[verifier::truncate] (read_be(ip, 0, 4) as u32);
    proof {
        assert(ip@.subrange(0, 4) =~= ip@);
    }
    let p = prefix as u8;
    if p == 0 {
        Some(0)
    } else if p >= 32 {
        Some(x)
    } else {
        Some((x >> (32 - p as u32)) << (32 - p as u32))
    }
}

/// The trie key of a 16-byte entry: the address masked to its prefix length.
pub fn key_v6(ip: &Vec<u8>, prefix: u32) -> (r: Option<u128>)
    ensures
        r == if ip@.len() == 16 && prefix <= 128 {
            Some(mask128(u128_of(v6_of(ip@)), prefix as u8))
        } else {
            None::<u128>
        },
{
    if ip.len() != 16 || prefix > 128 {
        return None;
    }
    let a = read_be(ip, 0, 8);
    let b = read_be(ip, 8, 8);
    let x = ((a as u128) << 64u128) | (b as u128);
    let p = prefix as u8;
    if p == 0 {
        Some(0)
    } else if p >= 128 {
        Some(x)
    } else {
        Some((x >> (128 - p as u128)) << (128 - p as u128))
    }
}

/// After a put, a key is held exactly when it was held before or is the
/// key put.
proof fn lemma_put_keys<T: crate::bit_vec::BitVec>(
    t0: LPCTrie<T>,
    t1: LPCTrie<T>,
    key: T,
    prefix: u8,
    value: Seq<char>,
)
    requires
        put_result(t0, t1, key, prefix, value),
    ensures
        forall|k: T| #[trigger] t1.has_key(k) == (t0.has_key(k) || k == key),
{
    assert forall|k: T| #[trigger] t1.has_key(k) == (t0.has_key(k) || k == key) by {
        if t1.has_key(k) {
            let (p, v) = choose|p: u8, v: Seq<char>| #[trigger] t1.holds(k, p, v);
            assert(t0.holds(k, p, v) || k == key);
        }
        if t0.has_key(k) {
            let (p, v) = choose|p: u8, v: Seq<char>| #[trigger] t0.holds(k, p, v);
            assert(t1.holds(k, p, v));
        }
        if k == key && !t0.has_key(k) {
            assert(t1.holds(key, prefix, value));
        }
    }
}

/// Puts every 4-byte entry of `record` into `trie` under its masked key,
/// with `value`; other entries are left out.
pub fn load_v4(trie: &mut LPCTrie<u32>, record: &GeoIP, value: &str)
    requires
        old(trie).wf(),
        old(trie).size + record.cidr@.len() < u64::MAX,
    ensures
        final(trie).wf(),
        final(trie).size <= old(trie).size + record.cidr@.len(),
        forall|k: u32|
            #[trigger] final(trie).has_key(k) == (old(trie).has_key(k) || exists|j: int, p: u8|
                #[trigger] entry4(record.cidr@, j, k, p)),
        forall|k: u32, p: u8, v: Seq<char>|
            #[trigger] final(trie).holds(k, p, v) ==> old(trie).holds(k, p, v) || (v == value@
                && exists|j: int| #[trigger] entry4(record.cidr@, j, k, p)),
{
    let n = record.cidr.len();
    let mut j: usize = 0;
    while j < n
        invariant
            n == record.cidr@.len(),
            j <= n,
            trie.wf(),
            trie.size <= old(trie).size + j,
            old(trie).size + n < u64::MAX,
            forall|k: u32|
                #[trigger] trie.has_key(k) == (old(trie).has_key(k) || exists|i: int, p: u8|
                    0 <= i < j && #[trigger] entry4(record.cidr@, i, k, p)),
            forall|k: u32, p: u8, v: Seq<char>|
                #[trigger] trie.holds(k, p, v) ==> old(trie).holds(k, p, v) || (v == value@
                    && exists|i: int| 0 <= i < j && #[trigger] entry4(record.cidr@, i, k, p)),
        decreases n - j,
    {
        let c = &record.cidr[j];
        let ghost t0 = *trie;
        match key_v4(&c.ip, c.prefix) {
            Some(key) => {
                trie.put(key, c.prefix as u8, value.to_string());
                proof {
                    lemma_put_keys(t0, *trie, key, c.prefix as u8, value@);
                }
            },
            None => {},
        }
        proof {
            assert forall|k: u32|
                #[trigger] trie.has_key(k) == (old(trie).has_key(k) || exists|i: int, p: u8|
                    0 <= i < j + 1 && #[trigger] entry4(record.cidr@, i, k, p)) by {
                if exists|i: int, p: u8| 0 <= i < j + 1 && #[trigger] entry4(record.cidr@, i, k, p) {
                    let (i, p) = choose|i: int, p: u8| 0 <= i < j + 1 && #[trigger] entry4(record.cidr@, i, k, p);
                    if i < j {
                        assert(t0.has_key(k));
                    }
                }
                if trie.has_key(k) && !t0.has_key(k) {
                    assert(entry4(record.cidr@, j as int, k, c.prefix as u8));
                }
            }
            assert forall|k: u32, p: u8, v: Seq<char>| #[trigger] trie.holds(k, p, v) implies old(trie).holds(k, p, v) || (v == value@
                && exists|i: int| 0 <= i < j + 1 && #[trigger] entry4(record.cidr@, i, k, p)) by {
                if !t0.holds(k, p, v) {
                    assert(entry4(record.cidr@, j as int, k, p));
                } else if !old(trie).holds(k, p, v) {
                    let i = choose|i: int| 0 <= i < j && #[trigger] entry4(record.cidr@, i, k, p);
                    assert(0 <= i < j + 1 && entry4(record.cidr@, i, k, p));
                }
            }
        }
        j = j + 1;
    }
    proof {
        assert forall|k: u32|
            #[trigger] trie.has_key(k) == (old(trie).has_key(k) || exists|i: int, p: u8|
                #[trigger] entry4(record.cidr@, i, k, p)) by {
            if exists|i: int, p: u8| #[trigger] entry4(record.cidr@, i, k, p) {
                let (i, p) = choose|i: int, p: u8| #[trigger] entry4(record.cidr@, i, k, p);
                assert(0 <= i < j && entry4(record.cidr@, i, k, p));
            }
        }
    }
}

/// Puts every 16-byte entry of `record` into `trie` under its masked key,
/// with `value`; other entries are left out.
pub fn load_v6(trie: &mut LPCTrie<u128>, record: &GeoIP, value: &str)
    requires
        old(trie).wf(),
        old(trie).size + record.cidr@.len() < u64::MAX,
    ensures
        final(trie).wf(),
        final(trie).size <= old(trie).size + record.cidr@.len(),
        forall|k: u128|
            #[trigger] final(trie).has_key(k) == (old(trie).has_key(k) || exists|j: int, p: u8|
                #[trigger] entry6_key(record.cidr@, j, k, p)),
        forall|k: u128, p: u8, v: Seq<char>|
            #[trigger] final(trie).holds(k, p, v) ==> old(trie).holds(k, p, v) || (v == value@
                && exists|j: int| #[trigger] entry6_key(record.cidr@, j, k, p)),
{
    let n = record.cidr.len();
    let mut j: usize = 0;
    while j < n
        invariant
            n == record.cidr@.len(),
            j <= n,
            trie.wf(),
            trie.size <= old(trie).size + j,
            old(trie).size + n < u64::MAX,
            forall|k: u128|
                #[trigger] trie.has_key(k) == (old(trie).has_key(k) || exists|i: int, p: u8|
                    0 <= i < j && #[trigger] entry6_key(record.cidr@, i, k, p)),
            forall|k: u128, p: u8, v: Seq<char>|
                #[trigger] trie.holds(k, p, v) ==> old(trie).holds(k, p, v) || (v == value@
                    && exists|i: int| 0 <= i < j && #[trigger] entry6_key(record.cidr@, i, k, p)),
        decreases n - j,
    {
        let c = &record.cidr[j];
        let ghost t0 = *trie;
        match key_v6(&c.ip, c.prefix) {
            Some(key) => {
                trie.put(key, c.prefix as u8, value.to_string());
                proof {
                    lemma_put_keys(t0, *trie, key, c.prefix as u8, value@);
                }
            },
            None => {},
        }
        proof {
            assert forall|k: u128|
                #[trigger] trie.has_key(k) == (old(trie).has_key(k) || exists|i: int, p: u8|
                    0 <= i < j + 1 && #[trigger] entry6_key(record.cidr@, i, k, p)) by {
                if exists|i: int, p: u8| 0 <= i < j + 1 && #[trigger] entry6_key(record.cidr@, i, k, p) {
                    let (i, p) = choose|i: int, p: u8| 0 <= i < j + 1 && #[trigger] entry6_key(record.cidr@, i, k, p);
                    if i < j {
                        assert(t0.has_key(k));
                    }
                }
                if trie.has_key(k) && !t0.has_key(k) {
                    assert(entry6_key(record.cidr@, j as int, k, c.prefix as u8));
                }
            }
            assert forall|k: u128, p: u8, v: Seq<char>| #[trigger] trie.holds(k, p, v) implies old(trie).holds(k, p, v) || (v == value@
                && exists|i: int| 0 <= i < j + 1 && #[trigger] entry6_key(record.cidr@, i, k, p)) by {
                if !t0.holds(k, p, v) {
                    assert(entry6_key(record.cidr@, j as int, k, p));
                } else if !old(trie).holds(k, p, v) {
                    let i = choose|i: int| 0 <= i < j && #[trigger] entry6_key(record.cidr@, i, k, p);
                    assert(0 <= i < j + 1 && entry6_key(record.cidr@, i, k, p));
                }
            }
        }
        j = j + 1;
    }
    proof {
        assert forall|k: u128|
            #[trigger] trie.has_key(k) == (old(trie).has_key(k) || exists|i: int, p: u8|
                #[trigger] entry6_key(record.cidr@, i, k, p)) by {
            if exists|i: int, p: u8| #[trigger] entry6_key(record.cidr@, i, k, p) {
                let (i, p) = choose|i: int, p: u8| #[trigger] entry6_key(record.cidr@, i, k, p);
                assert(0 <= i < j && entry6_key(record.cidr@, i, k, p));
            }
        }
    }
}

} // verus!
