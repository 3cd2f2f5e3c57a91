use vstd::prelude::*;
use vstd::multiset::Multiset;
use crate::bit_vec::BitVec;
use crate::bit_vec::prefix_match;
use crate::lpc_trie::{LPCTrie, lookup, branches_within, zero_from, law_get_inside_block, law_get_inside_stored_block};

verus! {

/// The number that the bytes spell, most significant first.
pub open spec fn be_value(s: Seq<u8>) -> nat
    decreases s.len(),
{
    if s.len() == 0 {
        0
    } else {
        be_value(s.drop_last()) * 256 + s.last() as nat
    }
}

pub open spec fn pow256(n: nat) -> nat
    decreases n,
{
    if n == 0 {
        1
    } else {
        256 * pow256((n - 1) as nat)
    }
}

/// `ip` with every bit below its first `p` cleared.
pub open spec fn mask4(ip: u32, p: u8) -> u32 {
    if p == 0 {
        0
    } else if p >= 32 {
        ip
    } else {
        (ip >> ((32 - p) as u32)) << ((32 - p) as u32)
    }
}

pub open spec fn mask64(x: u64, p: u8) -> u64 {
    if p == 0 {
        0
    } else if p >= 64 {
        x
    } else {
        (x >> ((64 - p) as u64)) << ((64 - p) as u64)
    }
}

/// `ip` with every bit below its first `p` cleared.
pub open spec fn mask6(ip: V6, p: u8) -> V6 {
    if p <= 64 {
        V6 { a: mask64(ip.a, p), b: 0 }
    } else {
        V6 { a: ip.a, b: mask64(ip.b, (p - 64) as u8) }
    }
}

/// Lexicographic order on the two halves, which is the numeric order of the
/// 128-bit address.
pub open spec fn v6_le(x: V6, y: V6) -> bool {
    x.a < y.a || (x.a == y.a && x.b <= y.b)
}

/// An IPv6 address as its high and low 64 bits.
#[derive(Clone, Copy, PartialEq, Eq, Structural, Debug, PartialOrd, Ord)]
pub struct V6 {
    pub a: u64,
    pub b: u64,
}

/// One block of a record: the address bytes (4 or 16 of them) and the prefix
/// length.
pub struct Cidr {
    pub ip: Vec<u8>,
    pub prefix: u32,
}

/// The blocks of one country.
pub struct GeoIP {
    pub country_code: String,
    pub cidr: Vec<Cidr>,
}

/// Sorted arrays of normalized blocks, searched by binary search.
pub struct GeoIPMatcher {
    pub country_code: String,
    pub ip4: Vec<u32>,
    pub prefix4: Vec<u8>,
    pub ip6: Vec<V6>,
    pub prefix6: Vec<u8>,
}

/// The big-endian number in the `len` bytes from `from` on.
pub(crate) fn read_be(v: &Vec<u8>, from: usize, len: usize) -> (r: u64)
    requires
        from + len <= v@.len(),
        len <= 8,
    ensures
        r == be_value(v@.subrange(from as int, from + len)),
{
    let mut acc: u64 = 0;
    let mut i: usize = 0;
    let vlen = v.len();
    proof {
        reveal_with_fuel(pow256, 9);
        assert(v@.subrange(from as int, from as int) =~= Seq::<u8>::empty());
    }
    while i < len
        invariant
            from + len <= v@.len(),
            vlen == v@.len(),
            len <= 8,
            i <= len,
            acc == be_value(v@.subrange(from as int, from + i)),
            acc < pow256(i as nat),
            pow256(8) == 0x1_0000_0000_0000_0000,
        decreases len - i,
    {
        let byte = v[from + i];
        proof {
            let p = pow256(i as nat);
            lemma_pow256_mono((i + 1) as nat, 8);
            assert(pow256((i + 1) as nat) == p * 256);
            assert(acc * 256 + byte < p * 256) by (nonlinear_arith)
                requires
                    acc < p,
                    byte < 256,
            ;
            assert(v@.subrange(from as int, from + i + 1).drop_last() =~= v@.subrange(
                from as int,
                from + i,
            ));
        }
        acc = acc * 256 + byte as u64;
        i = i + 1;
    }
    acc
}

proof fn lemma_pow256_mono(i: nat, j: nat)
    requires
        i <= j,
    ensures
        pow256(i) <= pow256(j),
    decreases j,
{
    if i < j {
        lemma_pow256_mono(i, (j - 1) as nat);
    }
}

/// Clearing low bits never raises a value and keeps the order of values.
proof fn lemma_mask_u32(x: u32, y: u32, s: u32)
    by (bit_vector)
    requires
        s < 32,
    ensures
        (x >> s) << s <= x,
        x <= y ==> (x >> s) << s <= (y >> s) << s,
        (((x >> s) << s) >> s) << s == (x >> s) << s,
{
}

proof fn lemma_mask_u64(x: u64, y: u64, s: u64)
    by (bit_vector)
    requires
        s < 64,
    ensures
        (x >> s) << s <= x,
        x <= y ==> (x >> s) << s <= (y >> s) << s,
        (((x >> s) << s) >> s) << s == (x >> s) << s,
{
}

proof fn lemma_mask4(x: u32, y: u32, p: u8)
    ensures
        mask4(x, p) <= x,
        x <= y ==> mask4(x, p) <= mask4(y, p),
        mask4(mask4(x, p), p) == mask4(x, p),
{
    if 0 < p < 32 {
        lemma_mask_u32(x, y, (32 - p) as u32);
    }
}

proof fn lemma_mask64(x: u64, y: u64, p: u8)
    ensures
        mask64(x, p) <= x,
        x <= y ==> mask64(x, p) <= mask64(y, p),
        mask64(mask64(x, p), p) == mask64(x, p),
{
    if 0 < p < 64 {
        lemma_mask_u64(x, y, (64 - p) as u64);
    }
}

proof fn lemma_mask6(x: V6, y: V6, p: u8)
    requires
        p <= 128,
    ensures
        v6_le(mask6(x, p), x),
        v6_le(x, y) ==> v6_le(mask6(x, p), mask6(y, p)),
        mask6(mask6(x, p), p) == mask6(x, p),
{
    lemma_mask64(x.a, y.a, p);
    if p > 64 {
        lemma_mask64(x.b, y.b, (p - 64) as u8);
    }
}

fn mask4_exec(ip: u32, p: u8) -> (r: u32)
    ensures
        r == mask4(ip, p),
{
    if p == 0 {
        0
    } else if p >= 32 {
        ip
    } else {
        (ip >> (32 - p as u32)) << (32 - p as u32)
    }
}

fn mask64_exec(x: u64, p: u8) -> (r: u64)
    ensures
        r == mask64(x, p),
{
    if p == 0 {
        0
    } else if p >= 64 {
        x
    } else {
        (x >> (64 - p as u64)) << (64 - p as u64)
    }
}

impl V6 {
    /// Reads the two halves of a 16-byte address.
    fn new(vec: &Vec<u8>) -> (r: V6)
        requires
            vec@.len() == 16,
        ensures
            r.a == be_value(vec@.subrange(0, 8)),
            r.b == be_value(vec@.subrange(8, 16)),
    {
        V6 { a: read_be(vec, 0, 8), b: read_be(vec, 8, 8) }
    }

    /// Reads a 16-byte address and normalizes it to its first `prefix` bits.
    fn normalize_new(vec: &Vec<u8>, prefix: u8) -> (r: V6)
        requires
            vec@.len() == 16,
        ensures
            r == mask6(v6_of(vec@), prefix),
    {
        let mut v6 = V6::new(vec);
        v6.normalize(prefix);
        v6
    }

    /// Clears every bit below the first `prefix`.
    fn normalize(&mut self, prefix: u8)
        ensures
            *final(self) == mask6(*old(self), prefix),
    {
        if prefix <= 64 {
            self.a = mask64_exec(self.a, prefix);
            self.b = 0;
        } else {
            self.b = mask64_exec(self.b, prefix - 64);
        }
    }

    /// `ip` normalized to its first `prefix` bits.
    fn normalize6(ip: &V6, prefix: u8) -> (r: V6)
        ensures
            r == mask6(*ip, prefix),
    {
        let mut v = *ip;
        v.normalize(prefix);
        v
    }

    fn le(&self, other: &V6) -> (r: bool)
        ensures
            r == v6_le(*self, *other),
    {
        self.a < other.a || (self.a == other.a && self.b <= other.b)
    }
}

/// The address that 16 bytes spell.
pub open spec fn v6_of(s: Seq<u8>) -> V6 {
    V6 { a: be_value(s.subrange(0, 8)) as u64, b: be_value(s.subrange(8, 16)) as u64 }
}

/// The address that 4 bytes spell.
pub open spec fn v4_of(s: Seq<u8>) -> u32 {
    be_value(s) as u32
}

/// Entry `k` of a record is an IPv4 block whose normalized form is `base/p`.
pub open spec fn entry4(cidr: Seq<Cidr>, k: int, base: u32, p: u8) -> bool {
    &&& 0 <= k < cidr.len()
    &&& cidr[k].ip@.len() == 4
    &&& cidr[k].prefix <= 32
    &&& p == cidr[k].prefix
    &&& base == mask4(v4_of(cidr[k].ip@), p)
}

/// Entry `k` of a record is an IPv6 block whose normalized form is `base/p`.
pub open spec fn entry6(cidr: Seq<Cidr>, k: int, base: V6, p: u8) -> bool {
    &&& 0 <= k < cidr.len()
    &&& cidr[k].ip@.len() == 16
    &&& cidr[k].prefix <= 128
    &&& p == cidr[k].prefix
    &&& base == mask6(v6_of(cidr[k].ip@), p)
}

/// The normalized IPv4 blocks of a record's entries, one for each entry of
/// 4 bytes with a prefix length of at most 32.
pub open spec fn new_blocks4(cidr: Seq<Cidr>) -> Seq<(u32, u8)>
    decreases cidr.len(),
{
    if cidr.len() == 0 {
        Seq::empty()
    } else {
        let c = cidr.last();
        new_blocks4(cidr.drop_last()) + if c.ip@.len() == 4 && c.prefix <= 32 {
            seq![(mask4(v4_of(c.ip@), c.prefix as u8), c.prefix as u8)]
        } else {
            Seq::empty()
        }
    }
}

/// The normalized IPv6 blocks of a record's entries, one for each entry of
/// 16 bytes with a prefix length of at most 128.
pub open spec fn new_blocks6(cidr: Seq<Cidr>) -> Seq<(V6, u8)>
    decreases cidr.len(),
{
    if cidr.len() == 0 {
        Seq::empty()
    } else {
        let c = cidr.last();
        new_blocks6(cidr.drop_last()) + if c.ip@.len() == 16 && c.prefix <= 128 {
            seq![(mask6(v6_of(c.ip@), c.prefix as u8), c.prefix as u8)]
        } else {
            Seq::empty()
        }
    }
}

/// A sequence with nothing in it adds nothing to a multiset.
proof fn lemma_multiset_add_empty<A>(s: Seq<A>)
    ensures
        s.to_multiset().add(Seq::<A>::empty().to_multiset()) == s.to_multiset(),
{
    let e = Seq::<A>::empty();
    assert forall|a: A| e.to_multiset().count(a) == 0 by {
        vstd::seq_lib::to_multiset_contains(e, a);
    }
    assert(s.to_multiset().add(e.to_multiset()) =~= s.to_multiset());
}

/// One more step of loading: the blocks grow by what the entry gives.
proof fn lemma_multiset_step<A>(base: Multiset<A>, before: Seq<A>, after: Seq<A>, done: Seq<A>, extra: Seq<A>)
    requires
        before.to_multiset() == base.add(done.to_multiset()),
        (extra.len() == 0 && after.to_multiset() == before.to_multiset()) || (extra.len() == 1
            && after.to_multiset() == before.to_multiset().insert(extra[0])),
    ensures
        after.to_multiset() == base.add((done + extra).to_multiset()),
{
    vstd::seq_lib::lemma_multiset_commutative(done, extra);
    let e = Seq::<A>::empty();
    if extra.len() == 0 {
        assert(extra =~= e);
        lemma_multiset_add_empty(done);
        assert(after.to_multiset() =~= base.add((done + extra).to_multiset()));
    } else {
        assert(extra =~= e.push(extra[0]));
        vstd::seq_lib::to_multiset_build(e, extra[0]);
        assert forall|a: A| e.to_multiset().count(a) == 0 by {
            vstd::seq_lib::to_multiset_contains(e, a);
        }
        assert(after.to_multiset() =~= base.add((done + extra).to_multiset()));
    }
}

/// Block order: by base, then the shorter prefix first.
pub open spec fn block4_le(b1: u32, p1: u8, b2: u32, p2: u8) -> bool {
    b1 < b2 || (b1 == b2 && p1 <= p2)
}

pub open spec fn block6_le(b1: V6, p1: u8, b2: V6, p2: u8) -> bool {
    (v6_le(b1, b2) && b1 != b2) || (b1 == b2 && p1 <= p2)
}

/// Relies on `str::to_uppercase`: the result depends on the characters alone.
pub uninterp spec fn upper_of(s: Seq<char>) -> Seq<char>;

/// Relies on `str::to_uppercase`.
#[verifier::external_body]
fn uppercase(s: &str) -> (r: String)
    ensures
        r@ == upper_of(s@),
{
    s.to_uppercase()
}

impl GeoIPMatcher {
    /// Both block arrays are parallel, each base is normalized to its prefix
    /// length, and the blocks are sorted by base, shorter prefix first.
    pub open spec fn wf(&self) -> bool {
        &&& self.ip4@.len() == self.prefix4@.len()
        &&& self.ip6@.len() == self.prefix6@.len()
        &&& forall|i: int|
            0 <= i < self.ip4@.len() ==> #[trigger] self.prefix4@[i] <= 32 && mask4(
                self.ip4@[i],
                self.prefix4@[i],
            ) == self.ip4@[i]
        &&& forall|i: int|
            0 <= i < self.ip6@.len() ==> #[trigger] self.prefix6@[i] <= 128 && mask6(
                self.ip6@[i],
                self.prefix6@[i],
            ) == self.ip6@[i]
        &&& forall|i: int, j: int|
            0 <= i < j < self.ip4@.len() ==> block4_le(
                #[trigger] self.ip4@[i],
                self.prefix4@[i],
                #[trigger] self.ip4@[j],
                self.prefix4@[j],
            )
        &&& forall|i: int, j: int|
            0 <= i < j < self.ip6@.len() ==> block6_le(
                #[trigger] self.ip6@[i],
                self.prefix6@[i],
                #[trigger] self.ip6@[j],
                self.prefix6@[j],
            )
    }

    /// The IPv4 blocks, in order.
    pub open spec fn blocks4(&self) -> Seq<(u32, u8)> {
        Seq::new(self.ip4@.len(), |i: int| (self.ip4@[i], self.prefix4@[i]))
    }

    /// The IPv6 blocks, in order.
    pub open spec fn blocks6(&self) -> Seq<(V6, u8)> {
        Seq::new(self.ip6@.len(), |i: int| (self.ip6@[i], self.prefix6@[i]))
    }

    /// The IPv4 block `base/p` is held.
    pub open spec fn has4(&self, base: u32, p: u8) -> bool {
        exists|i: int|
            0 <= i < self.ip4@.len() && #[trigger] self.ip4@[i] == base && self.prefix4@[i] == p
    }

    pub open spec fn has6(&self, base: V6, p: u8) -> bool {
        exists|i: int|
            0 <= i < self.ip6@.len() && #[trigger] self.ip6@[i] == base && self.prefix6@[i] == p
    }

    /// Some held IPv4 block contains `ip`.
    pub open spec fn covers4(&self, ip: u32) -> bool {
        exists|i: int|
            0 <= i < self.ip4@.len() && mask4(ip, self.prefix4@[i]) == #[trigger] self.ip4@[i]
    }

    pub open spec fn covers6(&self, ip: V6) -> bool {
        exists|i: int|
            0 <= i < self.ip6@.len() && mask6(ip, self.prefix6@[i]) == #[trigger] self.ip6@[i]
    }

    /// Some IPv4 block starts inside an earlier one.
    pub open spec fn nested4(&self) -> bool {
        exists|i: int, j: int|
            0 <= i < j < self.ip4@.len() && mask4(#[trigger] self.ip4@[j], self.prefix4@[i])
                == #[trigger] self.ip4@[i]
    }

    pub open spec fn nested6(&self) -> bool {
        exists|i: int, j: int|
            0 <= i < j < self.ip6@.len() && mask6(#[trigger] self.ip6@[j], self.prefix6@[i])
                == #[trigger] self.ip6@[i]
    }

    /// What `match_ip` answers for the bytes of an address.
    pub open spec fn covers(&self, v: Seq<u8>) -> bool {
        if v.len() == 4 {
            self.covers4(v4_of(v))
        } else {
            self.covers6(v6_of(v))
        }
    }

    /// An empty matcher.
    pub fn new() -> (r: GeoIPMatcher)
        ensures
            r.wf(),
            r.country_code@ == Seq::<char>::empty(),
            r.ip4@.len() == 0,
            r.ip6@.len() == 0,
    {
        GeoIPMatcher {
            country_code: String::new(),
            ip4: Vec::new(),
            prefix4: Vec::new(),
            ip6: Vec::new(),
            prefix6: Vec::new(),
        }
    }

    /// Adds the blocks of `geoip` and takes its country code, in upper case,
    /// as the label. Entries of another length than 4 or 16 bytes, or with a
    /// prefix longer than the address, are left out.
    pub fn put(&mut self, geoip: &GeoIP)
        requires
            old(self).wf(),
        ensures
            final(self).wf(),
            final(self).country_code@ == upper_of(geoip.country_code@),
            forall|base: u32, p: u8|
                #[trigger] final(self).has4(base, p) <==> (old(self).has4(base, p) || exists|k: int|
                    #[trigger] entry4(geoip.cidr@, k, base, p)),
            forall|base: V6, p: u8|
                #[trigger] final(self).has6(base, p) <==> (old(self).has6(base, p) || exists|k: int|
                    #[trigger] entry6(geoip.cidr@, k, base, p)),
            final(self).blocks4().to_multiset() == old(self).blocks4().to_multiset().add(
                new_blocks4(geoip.cidr@).to_multiset(),
            ),
            final(self).blocks6().to_multiset() == old(self).blocks6().to_multiset().add(
                new_blocks6(geoip.cidr@).to_multiset(),
            ),
    {
        self.country_code = uppercase(geoip.country_code.as_str());
        let n = geoip.cidr.len();
        let mut k: usize = 0;
        proof {
            assert(self.blocks4() =~= old(self).blocks4());
            assert(self.blocks6() =~= old(self).blocks6());
            lemma_multiset_add_empty(old(self).blocks4());
            lemma_multiset_add_empty(old(self).blocks6());
            assert(geoip.cidr@.subrange(0, 0) =~= Seq::<Cidr>::empty());
            assert forall|b: u32, q: u8| #[trigger] self.has4(b, q) == old(self).has4(b, q) by {
                assert(self.ip4 == old(self).ip4 && self.prefix4 == old(self).prefix4);
            }
            assert forall|b: V6, q: u8| #[trigger] self.has6(b, q) == old(self).has6(b, q) by {
                assert(self.ip6 == old(self).ip6 && self.prefix6 == old(self).prefix6);
            }
        }
        while k < n
            invariant
                n == geoip.cidr@.len(),
                k <= n,
                self.wf(),
                self.country_code@ == upper_of(geoip.country_code@),
                forall|base: u32, p: u8|
                    #[trigger] self.has4(base, p) <==> (old(self).has4(base, p) || exists|j: int|
                        0 <= j < k && #[trigger] entry4(geoip.cidr@, j, base, p)),
                forall|base: V6, p: u8|
                    #[trigger] self.has6(base, p) <==> (old(self).has6(base, p) || exists|j: int|
                        0 <= j < k && #[trigger] entry6(geoip.cidr@, j, base, p)),
                self.blocks4().to_multiset() == old(self).blocks4().to_multiset().add(
                    new_blocks4(geoip.cidr@.subrange(0, k as int)).to_multiset(),
                ),
                self.blocks6().to_multiset() == old(self).blocks6().to_multiset().add(
                    new_blocks6(geoip.cidr@.subrange(0, k as int)).to_multiset(),
                ),
            decreases n - k,
        {
            let c = &geoip.cidr[k];
            let len = c.ip.len();
            let ghost before = *self;
            if len == 4 && c.prefix <= 32 {
                let p = c.prefix as u8;
                let base = mask4_exec(#[verifier::truncate] (read_be(&c.ip, 0, 4) as u32), p);
                proof {
                    assert(c.ip@.subrange(0, 4) =~= c.ip@);
                    lemma_mask4(v4_of(c.ip@), v4_of(c.ip@), p);
                }
                self.insert4(base, p);
            } else if len == 16 && c.prefix <= 128 {
                let p = c.prefix as u8;
                let v6 = V6::normalize_new(&c.ip, p);
                proof {
                    lemma_mask6(v6_of(c.ip@), v6_of(c.ip@), p);
                }
                self.insert6(v6, p);
            }
            proof {
                let pre = geoip.cidr@.subrange(0, k as int);
                let post = geoip.cidr@.subrange(0, k + 1);
                assert(post.drop_last() =~= pre);
                assert(post.last() == geoip.cidr@[k as int]);
                let x4 = if c.ip@.len() == 4 && c.prefix <= 32 {
                    seq![(mask4(v4_of(c.ip@), c.prefix as u8), c.prefix as u8)]
                } else {
                    Seq::<(u32, u8)>::empty()
                };
                let x6 = if c.ip@.len() == 16 && c.prefix <= 128 {
                    seq![(mask6(v6_of(c.ip@), c.prefix as u8), c.prefix as u8)]
                } else {
                    Seq::<(V6, u8)>::empty()
                };
                assert(new_blocks4(post) == new_blocks4(pre) + x4);
                assert(new_blocks6(post) == new_blocks6(pre) + x6);
                if len != 4 || c.prefix > 32 {
                    assert(self.blocks4() =~= before.blocks4());
                }
                if len != 16 || c.prefix > 128 {
                    assert(self.blocks6() =~= before.blocks6());
                }
                lemma_multiset_step(old(self).blocks4().to_multiset(), before.blocks4(), self.blocks4(), new_blocks4(pre), x4);
                lemma_multiset_step(old(self).blocks6().to_multiset(), before.blocks6(), self.blocks6(), new_blocks6(pre), x6);
                assert forall|b: u32, q: u8| #[trigger] self.has4(b, q) <==> (old(self).has4(b, q)
                    || exists|j: int| 0 <= j < k + 1 && #[trigger] entry4(geoip.cidr@, j, b, q)) by {
                    if entry4(geoip.cidr@, k as int, b, q) {
                        assert(self.has4(b, q));
                    }
                    if exists|j: int| 0 <= j < k + 1 && #[trigger] entry4(geoip.cidr@, j, b, q) {
                        let j = choose|j: int| 0 <= j < k + 1 && #[trigger] entry4(geoip.cidr@, j, b, q);
                        if j < k {
                            assert(before.has4(b, q));
                        }
                    }
                    if self.has4(b, q) && !before.has4(b, q) {
                        assert(entry4(geoip.cidr@, k as int, b, q));
                    }
                    if before.has4(b, q) {
                        if self.ip4 == before.ip4 {
                            assert(self.has4(b, q));
                        }
                    }
                }
                assert forall|b: V6, q: u8| #[trigger] self.has6(b, q) <==> (old(self).has6(b, q)
                    || exists|j: int| 0 <= j < k + 1 && #[trigger] entry6(geoip.cidr@, j, b, q)) by {
                    if entry6(geoip.cidr@, k as int, b, q) {
                        assert(self.has6(b, q));
                    }
                    if exists|j: int| 0 <= j < k + 1 && #[trigger] entry6(geoip.cidr@, j, b, q) {
                        let j = choose|j: int| 0 <= j < k + 1 && #[trigger] entry6(geoip.cidr@, j, b, q);
                        if j < k {
                            assert(before.has6(b, q));
                        }
                    }
                    if self.has6(b, q) && !before.has6(b, q) {
                        assert(entry6(geoip.cidr@, k as int, b, q));
                    }
                    if before.has6(b, q) {
                        if self.ip6 == before.ip6 {
                            assert(self.has6(b, q));
                        }
                    }
                }
            }
            k = k + 1;
        }
        proof {
            assert(geoip.cidr@.subrange(0, k as int) =~= geoip.cidr@);
            assert forall|base: u32, p: u8| #[trigger] self.has4(base, p) <==> (old(self).has4(base, p)
                || exists|j: int| #[trigger] entry4(geoip.cidr@, j, base, p)) by {
                if exists|j: int| #[trigger] entry4(geoip.cidr@, j, base, p) {
                    let j = choose|j: int| #[trigger] entry4(geoip.cidr@, j, base, p);
                    assert(0 <= j < k && entry4(geoip.cidr@, j, base, p));
                }
            }
            assert forall|base: V6, p: u8| #[trigger] self.has6(base, p) <==> (old(self).has6(base, p)
                || exists|j: int| #[trigger] entry6(geoip.cidr@, j, base, p)) by {
                if exists|j: int| #[trigger] entry6(geoip.cidr@, j, base, p) {
                    let j = choose|j: int| #[trigger] entry6(geoip.cidr@, j, base, p);
                    assert(0 <= j < k && entry6(geoip.cidr@, j, base, p));
                }
            }
        }
    }

    /// Whether some held block contains the address that `v` spells (4 or 16
    /// bytes, big-endian).
    pub fn match_ip(&self, v: &Vec<u8>) -> (r: bool)
        requires
            self.wf(),
            v@.len() == 4 || v@.len() == 16,
        ensures
            r == self.covers(v@),
    {
        if v.len() == 4 {
            let ip = read_be(v, 0, 4) as u32;
            proof {
                assert(v@.subrange(0, 4) =~= v@);
            }
            self.match4(ip)
        } else {
            let v6 = V6::new(v);
            self.match6(&v6)
        }
    }

    /// Inserts `base/p` at its place in the IPv4 order.
    fn insert4(&mut self, base: u32, p: u8)
        requires
            old(self).wf(),
            p <= 32,
            mask4(base, p) == base,
        ensures
            final(self).wf(),
            final(self).country_code == old(self).country_code,
            final(self).ip6 == old(self).ip6,
            final(self).prefix6 == old(self).prefix6,
            forall|b: u32, q: u8|
                #[trigger] final(self).has4(b, q) <==> (old(self).has4(b, q) || (b == base && q == p)),
            final(self).blocks4().to_multiset() == old(self).blocks4().to_multiset().insert((base, p)),
    {
        let len = self.ip4.len();
        let mut pos: usize = 0;
        while pos < len && (self.ip4[pos] < base || (self.ip4[pos] == base && self.prefix4[pos] <= p))
            invariant
                self.wf(),
                len == self.ip4@.len(),
                pos <= len,
                forall|i: int| 0 <= i < pos ==> block4_le(#[trigger] self.ip4@[i], self.prefix4@[i], base, p),
            decreases len - pos,
        {
            pos = pos + 1;
        }
        let ghost s = self.ip4@;
        let ghost t = self.prefix4@;
        let ghost bl = self.blocks4();
        self.ip4.insert(pos, base);
        self.prefix4.insert(pos, p);
        proof {
            assert(self.blocks4() =~= bl.insert(pos as int, (base, p)));
            vstd::seq_lib::to_multiset_insert(bl, pos as int, (base, p));
            assert forall|i: int| pos <= i < len implies !block4_le(#[trigger] s[i], t[i], base, p) by {
                if i > pos {
                    assert(block4_le(s[pos as int], t[pos as int], s[i], t[i]));
                }
            }
            assert forall|i: int, j: int| 0 <= i < j < self.ip4@.len() implies block4_le(
                #[trigger] self.ip4@[i],
                self.prefix4@[i],
                #[trigger] self.ip4@[j],
                self.prefix4@[j],
            ) by {
                if j < pos {
                } else if j == pos {
                } else if i < pos {
                    assert(block4_le(s[i], t[i], base, p));
                    assert(!block4_le(s[j - 1], t[j - 1], base, p));
                } else if i == pos {
                    assert(!block4_le(s[j - 1], t[j - 1], base, p));
                } else {
                    assert(block4_le(s[i - 1], t[i - 1], s[j - 1], t[j - 1]));
                }
            }
            assert forall|i: int| 0 <= i < self.ip4@.len() implies #[trigger] self.prefix4@[i] <= 32
                && mask4(self.ip4@[i], self.prefix4@[i]) == self.ip4@[i] by {
                if i < pos {
                } else if i > pos {
                    assert(self.ip4@[i] == s[i - 1]);
                }
            }
            assert forall|b: u32, q: u8| #[trigger] self.has4(b, q) <==> (old(self).has4(b, q) || (b
                == base && q == p)) by {
                if self.has4(b, q) {
                    let i = choose|i: int|
                        0 <= i < self.ip4@.len() && #[trigger] self.ip4@[i] == b && self.prefix4@[i] == q;
                    if i < pos {
                        assert(s[i] == b && t[i] == q);
                    } else if i > pos {
                        assert(s[i - 1] == b && t[i - 1] == q);
                    }
                }
                if old(self).has4(b, q) {
                    let i = choose|i: int| 0 <= i < s.len() && #[trigger] s[i] == b && t[i] == q;
                    if i < pos {
                        assert(self.ip4@[i] == b);
                    } else {
                        assert(self.ip4@[i + 1] == b);
                    }
                }
                if b == base && q == p {
                    assert(self.ip4@[pos as int] == b);
                }
            }
        }
    }

    /// Inserts `base/p` at its place in the IPv6 order.
    fn insert6(&mut self, base: V6, p: u8)
        requires
            old(self).wf(),
            p <= 128,
            mask6(base, p) == base,
        ensures
            final(self).wf(),
            final(self).country_code == old(self).country_code,
            final(self).ip4 == old(self).ip4,
            final(self).prefix4 == old(self).prefix4,
            forall|b: V6, q: u8|
                #[trigger] final(self).has6(b, q) <==> (old(self).has6(b, q) || (b == base && q == p)),
            final(self).blocks6().to_multiset() == old(self).blocks6().to_multiset().insert((base, p)),
    {
        let len = self.ip6.len();
        let mut pos: usize = 0;
        while pos < len && ((self.ip6[pos].le(&base) && self.ip6[pos] != base) || (self.ip6[pos]
            == base && self.prefix6[pos] <= p))
            invariant
                self.wf(),
                len == self.ip6@.len(),
                pos <= len,
                forall|i: int| 0 <= i < pos ==> block6_le(#[trigger] self.ip6@[i], self.prefix6@[i], base, p),
            decreases len - pos,
        {
            pos = pos + 1;
        }
        let ghost s = self.ip6@;
        let ghost t = self.prefix6@;
        let ghost bl = self.blocks6();
        self.ip6.insert(pos, base);
        self.prefix6.insert(pos, p);
        proof {
            assert(self.blocks6() =~= bl.insert(pos as int, (base, p)));
            vstd::seq_lib::to_multiset_insert(bl, pos as int, (base, p));
            assert forall|i: int| pos <= i < len implies !block6_le(#[trigger] s[i], t[i], base, p) by {
                if i > pos {
                    assert(block6_le(s[pos as int], t[pos as int], s[i], t[i]));
                }
            }
            assert forall|i: int, j: int| 0 <= i < j < self.ip6@.len() implies block6_le(
                #[trigger] self.ip6@[i],
                self.prefix6@[i],
                #[trigger] self.ip6@[j],
                self.prefix6@[j],
            ) by {
                if j < pos {
                } else if j == pos {
                } else if i < pos {
                    assert(block6_le(s[i], t[i], base, p));
                    assert(!block6_le(s[j - 1], t[j - 1], base, p));
                } else if i == pos {
                    assert(!block6_le(s[j - 1], t[j - 1], base, p));
                } else {
                    assert(block6_le(s[i - 1], t[i - 1], s[j - 1], t[j - 1]));
                }
            }
            assert forall|i: int| 0 <= i < self.ip6@.len() implies #[trigger] self.prefix6@[i] <= 128
                && mask6(self.ip6@[i], self.prefix6@[i]) == self.ip6@[i] by {
                if i < pos {
                } else if i > pos {
                    assert(self.ip6@[i] == s[i - 1]);
                }
            }
            assert forall|b: V6, q: u8| #[trigger] self.has6(b, q) <==> (old(self).has6(b, q) || (b
                == base && q == p)) by {
                if self.has6(b, q) {
                    let i = choose|i: int|
                        0 <= i < self.ip6@.len() && #[trigger] self.ip6@[i] == b && self.prefix6@[i] == q;
                    if i < pos {
                        assert(s[i] == b && t[i] == q);
                    } else if i > pos {
                        assert(s[i - 1] == b && t[i - 1] == q);
                    }
                }
                if old(self).has6(b, q) {
                    let i = choose|i: int| 0 <= i < s.len() && #[trigger] s[i] == b && t[i] == q;
                    if i < pos {
                        assert(self.ip6@[i] == b);
                    } else {
                        assert(self.ip6@[i + 1] == b);
                    }
                }
                if b == base && q == p {
                    assert(self.ip6@[pos as int] == b);
                }
            }
        }
    }

    /// Whether the block `base/p` is held, by binary search in block order.
    fn find4(&self, base: u32, p: u8) -> (r: bool)
        requires
            self.wf(),
        ensures
            r == self.has4(base, p),
    {
        let mut l: usize = 0;
        let mut r: usize = self.ip4.len();
        while l < r
            invariant
                self.wf(),
                0 <= l <= r <= self.ip4@.len(),
                forall|i: int| 0 <= i < l ==> block4_le(#[trigger] self.ip4@[i], self.prefix4@[i], base, p)
                    && !(self.ip4@[i] == base && self.prefix4@[i] == p),
                forall|i: int| r <= i < self.ip4@.len() ==> block4_le(base, p, #[trigger] self.ip4@[i], self.prefix4@[i])
                    && !(self.ip4@[i] == base && self.prefix4@[i] == p),
            decreases r - l,
        {
            let x = l + (r - l) / 2;
            let b = self.ip4[x];
            let q = self.prefix4[x];
            if b == base && q == p {
                return true;
            }
            if b < base || (b == base && q < p) {
                proof {
                    assert forall|i: int| 0 <= i <= x implies block4_le(#[trigger] self.ip4@[i], self.prefix4@[i], base, p)
                        && !(self.ip4@[i] == base && self.prefix4@[i] == p) by {
                        if i < x {
                            assert(block4_le(self.ip4@[i], self.prefix4@[i], b, q));
                        }
                    }
                }
                l = x + 1;
            } else {
                proof {
                    assert forall|i: int| x <= i < self.ip4@.len() implies block4_le(base, p, #[trigger] self.ip4@[i], self.prefix4@[i])
                        && !(self.ip4@[i] == base && self.prefix4@[i] == p) by {
                        if i > x {
                            assert(block4_le(b, q, self.ip4@[i], self.prefix4@[i]));
                        }
                    }
                }
                r = x;
            }
        }
        false
    }

    /// Whether the IPv6 block `base/p` is held, by binary search in block order.
    fn find6(&self, base: V6, p: u8) -> (r: bool)
        requires
            self.wf(),
        ensures
            r == self.has6(base, p),
    {
        let mut l: usize = 0;
        let mut r: usize = self.ip6.len();
        while l < r
            invariant
                self.wf(),
                0 <= l <= r <= self.ip6@.len(),
                forall|i: int| 0 <= i < l ==> block6_le(#[trigger] self.ip6@[i], self.prefix6@[i], base, p)
                    && !(self.ip6@[i] == base && self.prefix6@[i] == p),
                forall|i: int| r <= i < self.ip6@.len() ==> block6_le(base, p, #[trigger] self.ip6@[i], self.prefix6@[i])
                    && !(self.ip6@[i] == base && self.prefix6@[i] == p),
            decreases r - l,
        {
            let x = l + (r - l) / 2;
            let b = self.ip6[x];
            let q = self.prefix6[x];
            if b == base && q == p {
                return true;
            }
            if (b.le(&base) && b != base) || (b == base && q < p) {
                proof {
                    assert forall|i: int| 0 <= i <= x implies block6_le(#[trigger] self.ip6@[i], self.prefix6@[i], base, p)
                        && !(self.ip6@[i] == base && self.prefix6@[i] == p) by {
                        if i < x {
                            assert(block6_le(self.ip6@[i], self.prefix6@[i], b, q));
                        }
                    }
                }
                l = x + 1;
            } else {
                proof {
                    assert forall|i: int| x <= i < self.ip6@.len() implies block6_le(base, p, #[trigger] self.ip6@[i], self.prefix6@[i])
                        && !(self.ip6@[i] == base && self.prefix6@[i] == p) by {
                        if i > x {
                            assert(block6_le(b, q, self.ip6@[i], self.prefix6@[i]));
                        }
                    }
                }
                r = x;
            }
        }
        false
    }

    /// Whether some IPv4 block contains `ip`. The binary search answers at
    /// once where it finds a block; where it does not, which happens only
    /// when a block starts inside an earlier one, each prefix length is
    /// looked up in turn.
    fn match4(&self, ip: u32) -> (r: bool)
        requires
            self.wf(),
        ensures
            r == self.covers4(ip),
    {
        if self.search4(ip) {
            return true;
        }
        let mut p: u8 = 0;
        loop
            invariant
                self.wf(),
                p <= 32,
                forall|q: u8| q < p ==> !#[trigger] self.has4(mask4(ip, q), q),
            decreases 32 - p,
        {
            if self.find4(mask4_exec(ip, p), p) {
                proof {
                    let i = choose|i: int| 0 <= i < self.ip4@.len() && #[trigger] self.ip4@[i] == mask4(ip, p) && self.prefix4@[i] == p;
                    assert(mask4(ip, self.prefix4@[i]) == self.ip4@[i]);
                }
                return true;
            }
            if p == 32 {
                proof {
                    if self.covers4(ip) {
                        let i = choose|i: int| 0 <= i < self.ip4@.len() && mask4(ip, self.prefix4@[i]) == #[trigger] self.ip4@[i];
                        let q = self.prefix4@[i];
                        assert(self.has4(mask4(ip, q), q));
                    }
                }
                return false;
            }
            p = p + 1;
        }
    }

    /// Whether some IPv6 block contains `ip`, as `match4` does.
    fn match6(&self, ip: &V6) -> (r: bool)
        requires
            self.wf(),
        ensures
            r == self.covers6(*ip),
    {
        if self.search6(ip) {
            return true;
        }
        let mut p: u8 = 0;
        loop
            invariant
                self.wf(),
                p <= 128,
                forall|q: u8| q < p ==> !#[trigger] self.has6(mask6(*ip, q), q),
            decreases 128 - p,
        {
            if self.find6(V6::normalize6(ip, p), p) {
                proof {
                    let i = choose|i: int| 0 <= i < self.ip6@.len() && #[trigger] self.ip6@[i] == mask6(*ip, p) && self.prefix6@[i] == p;
                    assert(mask6(*ip, self.prefix6@[i]) == self.ip6@[i]);
                }
                return true;
            }
            if p == 128 {
                proof {
                    if self.covers6(*ip) {
                        let i = choose|i: int| 0 <= i < self.ip6@.len() && mask6(*ip, self.prefix6@[i]) == #[trigger] self.ip6@[i];
                        let q = self.prefix6@[i];
                        assert(self.has6(mask6(*ip, q), q));
                    }
                }
                return false;
            }
            p = p + 1;
        }
    }

    /// The binary search over the bases; it ends on the greatest base not
    /// above `ip`.
    fn search4(&self, ip: u32) -> (r: bool)
        requires
            self.wf(),
        ensures
            r ==> self.covers4(ip),
            !self.nested4() ==> r == self.covers4(ip),
    {
        let len = self.ip4.len();
        if len == 0 {
            return false;
        }
        if ip < self.ip4[0] {
            proof {
                if self.covers4(ip) {
                    let j = choose|j: int|
                        0 <= j < self.ip4@.len() && mask4(ip, self.prefix4@[j])
                            == #[trigger] self.ip4@[j];
                    lemma_mask4(ip, ip, self.prefix4@[j]);
                    if j > 0 {
                        assert(block4_le(self.ip4@[0], self.prefix4@[0], self.ip4@[j], self.prefix4@[j]));
                    }
                }
            }
            return false;
        }
        let mut r: usize = len;
        let mut l: usize = 0;
        while l < r
            invariant
                self.wf(),
                len == self.ip4@.len(),
                0 <= l <= r <= len,
                forall|i: int| 0 <= i < l ==> #[trigger] self.ip4@[i] <= ip,
                forall|i: int| r <= i < len ==> ip < #[trigger] self.ip4@[i],
                self.ip4@[0] <= ip,
            decreases r - l,
        {
            let x = l + (r - l) / 2;
            if ip < self.ip4[x] {
                proof {
                    assert forall|i: int| x <= i < len implies ip < #[trigger] self.ip4@[i] by {
                        if i > x {
                            assert(block4_le(self.ip4@[x as int], self.prefix4@[x as int], self.ip4@[i], self.prefix4@[i]));
                        }
                    }
                }
                r = x;
                continue ;
            }
            let nip = mask4_exec(ip, self.prefix4[x]);
            if nip == self.ip4[x] {
                return true;
            }
            proof {
                assert forall|i: int| 0 <= i <= x implies #[trigger] self.ip4@[i] <= ip by {
                    if i < x {
                        assert(block4_le(self.ip4@[i], self.prefix4@[i], self.ip4@[x as int], self.prefix4@[x as int]));
                    }
                }
            }
            l = x + 1;
        }
        proof {
            if self.covers4(ip) && !self.nested4() {
                let j = choose|j: int|
                    0 <= j < self.ip4@.len() && mask4(ip, self.prefix4@[j]) == #[trigger] self.ip4@[j];
                let pj = self.prefix4@[j];
                lemma_mask4(ip, ip, pj);
                let k = l - 1;
                if j < k {
                    assert(block4_le(self.ip4@[j], pj, self.ip4@[k], self.prefix4@[k]));
                    lemma_mask4(self.ip4@[j], self.ip4@[k], pj);
                    lemma_mask4(self.ip4@[k], ip, pj);
                    assert(mask4(self.ip4@[k], pj) == self.ip4@[j]);
                    assert(self.nested4());
                }
            }
        }
        if l == 0 {
            return false;
        }
        let nip = mask4_exec(ip, self.prefix4[l - 1]);
        nip == self.ip4[l - 1]
    }

    /// The binary search over the IPv6 bases.
    fn search6(&self, ip: &V6) -> (r: bool)
        requires
            self.wf(),
        ensures
            r ==> self.covers6(*ip),
            !self.nested6() ==> r == self.covers6(*ip),
    {
        let len = self.ip6.len();
        if len == 0 {
            return false;
        }
        if !self.ip6[0].le(ip) {
            proof {
                if self.covers6(*ip) {
                    let j = choose|j: int|
                        0 <= j < self.ip6@.len() && mask6(*ip, self.prefix6@[j])
                            == #[trigger] self.ip6@[j];
                    lemma_mask6(*ip, *ip, self.prefix6@[j]);
                    if j > 0 {
                        assert(block6_le(self.ip6@[0], self.prefix6@[0], self.ip6@[j], self.prefix6@[j]));
                    }
                }
            }
            return false;
        }
        let mut r: usize = len;
        let mut l: usize = 0;
        while l < r
            invariant
                self.wf(),
                len == self.ip6@.len(),
                0 <= l <= r <= len,
                forall|i: int| 0 <= i < l ==> v6_le(#[trigger] self.ip6@[i], *ip),
                forall|i: int| r <= i < len ==> !v6_le(#[trigger] self.ip6@[i], *ip),
                v6_le(self.ip6@[0], *ip),
            decreases r - l,
        {
            let x = l + (r - l) / 2;
            if !self.ip6[x].le(ip) {
                proof {
                    assert forall|i: int| x <= i < len implies !v6_le(#[trigger] self.ip6@[i], *ip) by {
                        if i > x {
                            assert(block6_le(self.ip6@[x as int], self.prefix6@[x as int], self.ip6@[i], self.prefix6@[i]));
                        }
                    }
                }
                r = x;
                continue ;
            }
            let nip = V6::normalize6(ip, self.prefix6[x]);
            if nip == self.ip6[x] {
                return true;
            }
            proof {
                assert forall|i: int| 0 <= i <= x implies v6_le(#[trigger] self.ip6@[i], *ip) by {
                    if i < x {
                        assert(block6_le(self.ip6@[i], self.prefix6@[i], self.ip6@[x as int], self.prefix6@[x as int]));
                    }
                }
            }
            l = x + 1;
        }
        proof {
            if self.covers6(*ip) && !self.nested6() {
                let j = choose|j: int|
                    0 <= j < self.ip6@.len() && mask6(*ip, self.prefix6@[j]) == #[trigger] self.ip6@[j];
                let pj = self.prefix6@[j];
                lemma_mask6(*ip, *ip, pj);
                let k = l - 1;
                if j < k {
                    assert(block6_le(self.ip6@[j], pj, self.ip6@[k], self.prefix6@[k]));
                    lemma_mask6(self.ip6@[j], self.ip6@[k], pj);
                    lemma_mask6(self.ip6@[k], *ip, pj);
                    assert(mask6(self.ip6@[k], pj) == self.ip6@[j]);
                    assert(self.nested6());
                }
            }
        }
        if l == 0 {
            return false;
        }
        let nip = V6::normalize6(ip, self.prefix6[l - 1]);
        nip == self.ip6[l - 1]
    }
}

/// The bits of a masked address: those before `p` of the address, then
/// zeros.
proof fn lemma_mask4_bits(x: u32, p: u8)
    requires
        p <= 32,
    ensures
        forall|i: int| 0 <= i < 32 ==> #[trigger] mask4(x, p).bit(i) == (i < p && x.bit(i)),
{
    assert forall|i: int| 0 <= i < 32 implies #[trigger] mask4(x, p).bit(i) == (i < p && x.bit(i)) by {
        let s2 = (31 - i) as u32;
        if p == 0 {
            assert((0u32 >> s2) % 2 == 0) by (bit_vector);
        } else if p < 32 {
            let s1 = (32 - p) as u32;
            assert(s1 < 32 && s2 < 32 ==> (((x >> s1) << s1) >> s2) % 2 == if 31 - s2 < 32 - s1 {
                (x >> s2) % 2
            } else {
                0
            }) by (bit_vector);
        }
    }
}

/// A matcher and a trie that hold the same IPv4 blocks, all of one prefix
/// length `plen` with their bits from `plen` on clear, give the same
/// membership answer for every address, provided no node of the trie
/// branches at or past `plen`.
pub proof fn law_uniform_blocks_same_answers(m: GeoIPMatcher, t: LPCTrie<u32>, plen: u8, q: u32)
    requires
        m.wf(),
        t.wf(),
        plen <= 32,
        branches_within(t.trie, plen as int),
        forall|b: u32, p: u8| #[trigger] m.has4(b, p) ==> p == plen,
        forall|k: u32, p: u8, v: Seq<char>| #[trigger] t.holds(k, p, v) ==> p == plen && zero_from(k, plen as int),
        forall|b: u32| #[trigger] m.has4(b, plen) == t.has_key(b),
    ensures
        m.covers4(q) == lookup(t.trie, q),
{
    lemma_mask4_bits(q, plen);
    if m.covers4(q) {
        let i = choose|i: int| 0 <= i < m.ip4@.len() && mask4(q, m.prefix4@[i]) == #[trigger] m.ip4@[i];
        let b = m.ip4@[i];
        assert(m.has4(b, m.prefix4@[i]));
        assert(m.has4(b, plen));
        assert(t.has_key(b));
        let (p, v) = choose|p: u8, v: Seq<char>| #[trigger] t.holds(b, p, v);
        assert(prefix_match(b, p as int, q));
        law_get_inside_block(t, plen as int, b, p, v, q);
    }
    if lookup(t.trie, q) {
        law_get_inside_stored_block(t, q);
        let (k, p, v) = choose|k: u32, p: u8, v: Seq<char>| #[trigger] t.holds(k, p, v) && prefix_match(k, p as int, q);
        assert(p == plen && zero_from(k, plen as int));
        let mq = mask4(q, plen);
        assert forall|i: int| 0 <= i < 32 implies #[trigger] mq.bit(i) == k.bit(i) by {
            if i < plen {
                assert(k.bit(i) == q.bit(i));
            }
        }
        u32::lemma_bits_determine(mq, k);
        assert(t.has_key(k));
        assert(m.has4(k, plen));
        let i = choose|i: int| 0 <= i < m.ip4@.len() && #[trigger] m.ip4@[i] == k && m.prefix4@[i] == plen;
        assert(mask4(q, m.prefix4@[i]) == m.ip4@[i]);
    }
}

} // verus!
