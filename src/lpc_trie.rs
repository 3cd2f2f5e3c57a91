use vstd::prelude::*;
use crate::bit_vec::{BitVec, pow2, agree, prefix_match};

verus! {

/// The widest branching an internal node may grow to: `2^MAX_BITS` slots,
/// the most that the `u32` slot counters can count.
pub const MAX_BITS: u32 = 31;

/// Percentage of used slots under which a node halves its branching.
pub const HALVE_THRESHOLD: u64 = 25;

/// Percentage of used and full slots from which a node doubles its
/// branching.
pub const INFLATE_THRESHOLD: u64 = 50;

/// A stored entry: a key masked to its prefix length, and its value.
pub struct Leaf<T> {
    pub key: T,
    pub prefix: u8,
    pub value: String,
}

/// A node that branches on the `bits` key bits from position `pos` on; slot
/// `i` holds the keys whose bits there spell `i`.
pub struct InternalNode<T> {
    pub key: T,
    pub pos: u32,
    pub bits: u32,
    pub full_children: u32,
    pub empty_children: u32,
    pub child: Vec<TrieNode<T>>,
}

/// A slot of the trie.
pub enum TrieNode<T> {
    Internal(Box<InternalNode<T>>),
    Leaf(Box<Leaf<T>>),
    Empty,
}

/// The subtree holds the entry `(k, p, v)`.
pub open spec fn has_entry<T: BitVec>(n: TrieNode<T>, k: T, p: u8, v: Seq<char>) -> bool
    decreases n,
{
    match n {
        TrieNode::Empty => false,
        TrieNode::Leaf(l) => l.key == k && l.prefix == p && l.value@ == v,
        TrieNode::Internal(b) => seq_has(b.child@, k, p, v),
    }
}

/// Some slot of `s` holds the entry `(k, p, v)`.
pub open spec fn seq_has<T: BitVec>(s: Seq<TrieNode<T>>, k: T, p: u8, v: Seq<char>) -> bool
    decreases s,
{
    if s.len() == 0 {
        false
    } else {
        seq_has(s.subrange(0, s.len() - 1), k, p, v) || has_entry(s[s.len() - 1], k, p, v)
    }
}

/// `seq_has` is: some slot holds the entry.
proof fn lemma_seq_has<T: BitVec>(s: Seq<TrieNode<T>>, k: T, p: u8, v: Seq<char>)
    ensures
        seq_has(s, k, p, v) == exists|i: int| 0 <= i < s.len() && #[trigger] has_entry(s[i], k, p, v),
    decreases s.len(),
{
    if s.len() > 0 {
        let d = s.subrange(0, s.len() - 1);
        lemma_seq_has(d, k, p, v);
        assert(seq_has(s, k, p, v) == (seq_has(d, k, p, v) || has_entry(s[s.len() - 1], k, p, v)));
        if exists|i: int| 0 <= i < s.len() && #[trigger] has_entry(s[i], k, p, v) {
            let i = choose|i: int| 0 <= i < s.len() && #[trigger] has_entry(s[i], k, p, v);
            if i < s.len() - 1 {
                assert(d[i] == s[i]);
            }
        }
        if exists|i: int| 0 <= i < d.len() && #[trigger] has_entry(d[i], k, p, v) {
            let i = choose|i: int| 0 <= i < d.len() && #[trigger] has_entry(d[i], k, p, v);
            assert(d[i] == s[i]);
        }
    }
}

/// Some slot of the node holds the entry `(k, p, v)`.
pub open spec fn node_has<T: BitVec>(b: InternalNode<T>, k: T, p: u8, v: Seq<char>) -> bool {
    seq_has(b.child@, k, p, v)
}

/// The key that a leaf or internal node carries.
pub open spec fn node_key<T>(n: TrieNode<T>) -> T {
    match n {
        TrieNode::Internal(b) => b.key,
        TrieNode::Leaf(l) => l.key,
        TrieNode::Empty => arbitrary(),
    }
}

/// The entry that a lookup of `q` ends on: the branching bits of `q` pick
/// the slot at each internal node, down to a leaf or an empty slot.
pub open spec fn reach<T: BitVec>(n: TrieNode<T>, q: T) -> Option<(T, u8, Seq<char>)>
    decreases n,
{
    match n {
        TrieNode::Empty => None,
        TrieNode::Leaf(l) => Some((l.key, l.prefix, l.value@)),
        TrieNode::Internal(b) => {
            let i = q.slice_at(b.pos as int, b.bits as nat);
            if i < b.child@.len() {
                reach(b.child@[i as int], q)
            } else {
                None
            }
        },
    }
}

/// The lookup of `q` ends on an entry whose block contains `q`.
pub open spec fn lookup<T: BitVec>(n: TrieNode<T>, q: T) -> bool {
    match reach(n, q) {
        Some(e) => prefix_match(e.0, e.1 as int, q),
        None => false,
    }
}

/// The value that a lookup of `q` answers: that of the entry it ends on when
/// its block contains `q`, else the empty string.
pub open spec fn lookup_value<T: BitVec>(n: TrieNode<T>, q: T) -> Seq<char> {
    match reach(n, q) {
        Some(e) => if prefix_match(e.0, e.1 as int, q) {
            e.2
        } else {
            Seq::empty()
        },
        None => Seq::empty(),
    }
}

/// The number of empty slots.
pub open spec fn num_empty<T>(s: Seq<TrieNode<T>>) -> nat
    decreases s.len(),
{
    if s.len() == 0 {
        0
    } else {
        num_empty(s.drop_last()) + if s.last() is Empty {
            1nat
        } else {
            0nat
        }
    }
}

/// The slot holds an internal node that branches right at `end`.
pub open spec fn is_full_at<T>(c: TrieNode<T>, end: int) -> bool {
    match c {
        TrieNode::Internal(b) => b.pos == end,
        _ => false,
    }
}

/// The number of slots that hold an internal node branching right at `end`.
pub open spec fn num_full<T>(s: Seq<TrieNode<T>>, end: int) -> nat
    decreases s.len(),
{
    if s.len() == 0 {
        0
    } else {
        num_full(s.drop_last(), end) + if is_full_at(s.last(), end) {
            1nat
        } else {
            0nat
        }
    }
}

/// A subtree in good order: leaves carry a prefix length within the width;
/// each internal node keeps its invariant, holds at least two children,
/// holds its own key, and is neither due to inflate nor to halve.
pub open spec fn wf_node<T: BitVec>(n: TrieNode<T>) -> bool
    decreases n, 2int,
{
    match n {
        TrieNode::Empty => true,
        TrieNode::Leaf(l) => l.prefix <= T::width(),
        TrieNode::Internal(b) => {
            &&& b.inv()
            &&& b.used() >= 2
            &&& b.key_held()
            &&& !b.inflate_due()
            &&& !b.halve_due()
        },
    }
}

impl<T: BitVec> InternalNode<T> {
    /// First position past the branching bits.
    pub open spec fn end(&self) -> int {
        self.pos + self.bits
    }

    /// Slots that are not empty.
    pub open spec fn used(&self) -> int {
        self.child@.len() - self.empty_children
    }

    pub open spec fn shape_ok(&self) -> bool {
        &&& 1 <= self.bits <= MAX_BITS
        &&& self.pos + self.bits <= T::width()
        &&& self.child@.len() == pow2(self.bits as nat)
    }

    /// The two counters agree with the slots.
    pub open spec fn counts_ok(&self) -> bool {
        &&& self.empty_children == num_empty(self.child@)
        &&& self.full_children == num_full(self.child@, self.end())
    }

    /// Slot `i` holds a subtree in good order whose internal root branches
    /// at or past `end`, and whose keys spell `i` at the branching bits and
    /// share the node's key up to `pos`.
    pub open spec fn child_ok(&self, i: int) -> bool
        decreases *self, 0int,
    {
        if 0 <= i < self.child@.len() {
            let c = self.child@[i];
            &&& wf_node(c)
            &&& (match c {
                TrieNode::Internal(cb) => cb.pos >= self.end(),
                _ => true,
            })
            &&& forall|k: T, p: u8, v: Seq<char>|
                #[trigger] has_entry(c, k, p, v) ==> k.slice_at(self.pos as int, self.bits as nat)
                    == i && agree(k, self.key, 0, self.pos as int)
        } else {
            false
        }
    }

    pub open spec fn inv(&self) -> bool
        decreases *self, 1int,
    {
        &&& self.shape_ok()
        &&& self.counts_ok()
        &&& forall|i: int|
            #![trigger self.child@[i]]
            0 <= i < self.child@.len() ==> self.child_ok(i)
    }

    /// The node's key is one of the keys below it.
    pub open spec fn key_held(&self) -> bool {
        exists|p: u8, v: Seq<char>| #[trigger] node_has(*self, self.key, p, v)
    }

    /// Dense enough to double the branching: full plus used children reach
    /// the inflate threshold, and one more bit still lies within the key and
    /// within what the slot counters can count.
    pub open spec fn inflate_due(&self) -> bool {
        &&& self.pos + self.bits < T::width()
        &&& self.bits < MAX_BITS
        &&& 50 * (self.full_children + self.used()) >= INFLATE_THRESHOLD * self.child@.len()
    }

    /// Sparse enough to halve the branching: used children fall below the
    /// halve threshold.
    pub open spec fn halve_due(&self) -> bool {
        &&& self.bits > 1
        &&& 100 * self.used() < HALVE_THRESHOLD * self.child@.len()
    }
}

proof fn lemma_counts_update<T>(s: Seq<TrieNode<T>>, i: int, x: TrieNode<T>, end: int)
    requires
        0 <= i < s.len(),
    ensures
        num_empty(s.update(i, x)) + (if s[i] is Empty {
            1int
        } else {
            0int
        }) == num_empty(s) + (if x is Empty {
            1int
        } else {
            0int
        }),
        num_full(s.update(i, x), end) + (if is_full_at(s[i], end) {
            1int
        } else {
            0int
        }) == num_full(s, end) + (if is_full_at(x, end) {
            1int
        } else {
            0int
        }),
    decreases s.len(),
{
    let t = s.update(i, x);
    if i < s.len() - 1 {
        assert(t.drop_last() =~= s.drop_last().update(i, x));
        lemma_counts_update(s.drop_last(), i, x, end);
    } else {
        assert(t.drop_last() =~= s.drop_last());
    }
}

/// Full slots are not empty, and no count exceeds the slots.
proof fn lemma_counts_bound<T>(s: Seq<TrieNode<T>>, end: int)
    ensures
        num_empty(s) + num_full(s, end) <= s.len(),
    decreases s.len(),
{
    if s.len() > 0 {
        lemma_counts_bound(s.drop_last(), end);
    }
}

/// With every slot empty, no slot holds anything.
proof fn lemma_all_empty<T>(s: Seq<TrieNode<T>>)
    requires
        num_empty(s) == s.len(),
    ensures
        forall|i: int| 0 <= i < s.len() ==> #[trigger] s[i] is Empty,
    decreases s.len(),
{
    if s.len() > 0 {
        lemma_counts_bound(s.drop_last(), 0);
        lemma_all_empty(s.drop_last());
        assert forall|i: int| 0 <= i < s.len() implies #[trigger] s[i] is Empty by {
            if i < s.len() - 1 {
                assert(s[i] == s.drop_last()[i]);
            }
        }
    }
}

/// Two occupied slots leave at most `len - 2` empty ones.
proof fn lemma_two_used<T>(s: Seq<TrieNode<T>>, i: int, j: int)
    requires
        0 <= i < s.len(),
        0 <= j < s.len(),
        i != j,
        !(s[i] is Empty),
        !(s[j] is Empty),
    ensures
        num_empty(s) + 2 <= s.len(),
    decreases s.len(),
{
    let d = s.drop_last();
    lemma_counts_bound(d, 0);
    if i < s.len() - 1 && j < s.len() - 1 {
        assert(d[i] == s[i] && d[j] == s[j]);
        lemma_two_used(d, i, j);
    } else if i < s.len() - 1 {
        assert(d[i] == s[i]);
        lemma_one_used(d, i);
    } else {
        assert(d[j] == s[j]);
        lemma_one_used(d, j);
    }
}

proof fn lemma_one_used<T>(s: Seq<TrieNode<T>>, i: int)
    requires
        0 <= i < s.len(),
        !(s[i] is Empty),
    ensures
        num_empty(s) + 1 <= s.len(),
    decreases s.len(),
{
    let d = s.drop_last();
    lemma_counts_bound(d, 0);
    if i < s.len() - 1 {
        assert(d[i] == s[i]);
        lemma_one_used(d, i);
    }
}

/// A run of empty slots.
pub open spec fn empties<T>(n: nat) -> Seq<TrieNode<T>> {
    Seq::new(n, |i: int| TrieNode::<T>::Empty)
}

proof fn lemma_empties<T>(n: nat, end: int)
    ensures
        num_empty(empties::<T>(n)) == n,
        num_full(empties::<T>(n), end) == 0,
    decreases n,
{
    if n > 0 {
        assert(empties::<T>(n).drop_last() =~= empties::<T>((n - 1) as nat));
        lemma_empties::<T>((n - 1) as nat, end);
    }
}

/// `2^bits`, for a branching width the trie allows.
fn slot_count(bits: u32) -> (r: usize)
    requires
        bits <= MAX_BITS,
    ensures
        r == pow2(bits as nat),
{
    let mut r: usize = 1;
    let mut i: u32 = 0;
    while i < bits
        invariant
            i <= bits <= MAX_BITS,
            r == pow2(i as nat),
            r <= 0x8000_0000,
        decreases bits - i,
    {
        proof {
            lemma_pow2_le(i as nat + 1, MAX_BITS as nat);
        }
        r = r * 2;
        i = i + 1;
    }
    r
}

proof fn lemma_pow2_mono(a: nat, b: nat)
    requires
        a <= b,
    ensures
        pow2(a) <= pow2(b),
    decreases b,
{
    if a < b {
        lemma_pow2_mono(a, (b - 1) as nat);
    }
}

proof fn lemma_pow2_le(a: nat, b: nat)
    requires
        a <= b,
        b <= MAX_BITS,
    ensures
        pow2(a) <= pow2(b),
        pow2(b) <= 0x8000_0000,
{
    lemma_pow2_mono(a, b);
    lemma_pow2_mono(b, MAX_BITS as nat);
    reveal_with_fuel(pow2, 32);
}

impl<T: BitVec> InternalNode<T> {
    /// A node with `2^bits` empty slots.
    pub fn new(key: T, pos: u32, bits: u32) -> (r: InternalNode<T>)
        requires
            1 <= bits <= MAX_BITS,
        ensures
            r.key == key,
            r.pos == pos,
            r.bits == bits,
            r.child@ == empties::<T>(pow2(bits as nat)),
            r.empty_children == pow2(bits as nat),
            r.full_children == 0,
            r.counts_ok(),
            pos + bits <= T::width() ==> r.inv(),
            r.used() == 0,
    {
        let n = slot_count(bits);
        let mut child: Vec<TrieNode<T>> = Vec::new();
        let mut i: usize = 0;
        while i < n
            invariant
                i <= n,
                child@ == empties::<T>(i as nat),
            decreases n - i,
        {
            child.push(TrieNode::Empty);
            i = i + 1;
            proof {
                assert(child@ =~= empties::<T>(i as nat));
            }
        }
        proof {
            lemma_pow2_le(bits as nat, MAX_BITS as nat);
            lemma_empties::<T>(n as nat, pos + bits);
        }
        let r = InternalNode {
            key,
            pos,
            bits,
            full_children: 0,
            empty_children: n as u32,
            child,
        };
        proof {
            assert forall|i: int| 0 <= i < r.child@.len() implies #[trigger] r.child_ok(i) by {
                assert(r.child@[i] is Empty);
            }
        }
        r
    }

    /// Slot `idx`, to change in place; the counters are left as they are.
    pub fn get_mut_child(&mut self, idx: usize) -> (r: &mut TrieNode<T>)
        requires
            idx < old(self).child@.len(),
        ensures
            *r == old(self).child@[idx as int],
            final(self).child@ == old(self).child@.update(idx as int, *final(r)),
            final(self).key == old(self).key,
            final(self).pos == old(self).pos,
            final(self).bits == old(self).bits,
            final(self).full_children == old(self).full_children,
            final(self).empty_children == old(self).empty_children,
    {
        &mut self.child[idx]
    }

    pub fn get_child(&self, idx: usize) -> (r: &TrieNode<T>)
        requires
            idx < self.child@.len(),
        ensures
            *r == self.child@[idx as int],
    {
        &self.child[idx]
    }

    /// Whether `child` is an internal node that branches right where this
    /// node's bits end.
    fn full(&self, child: &TrieNode<T>) -> (r: bool)
        requires
            self.pos + self.bits <= u32::MAX,
        ensures
            r == is_full_at(*child, self.end()),
    {
        match child {
            TrieNode::Internal(v) => v.pos == self.pos + self.bits,
            _ => false,
        }
    }

    /// Stores `n` in slot `idx` and hands back what was there, keeping both
    /// counters right.
    pub fn put_child(&mut self, idx: usize, n: &mut TrieNode<T>)
        requires
            old(self).shape_ok(),
            old(self).counts_ok(),
            idx < old(self).child@.len(),
        ensures
            final(self).key == old(self).key,
            final(self).pos == old(self).pos,
            final(self).bits == old(self).bits,
            final(self).child@ == old(self).child@.update(idx as int, *old(n)),
            *final(n) == old(self).child@[idx as int],
            final(self).shape_ok(),
            final(self).counts_ok(),
    {
        proof {
            lemma_counts_update(self.child@, idx as int, *n, self.end());
            lemma_counts_bound(self.child@, self.end());
            lemma_counts_bound(self.child@.update(idx as int, *n), self.end());
            lemma_pow2_le(self.bits as nat, MAX_BITS as nat);
            T::lemma_width();
        }
        let child_none = self.child[idx].is_none();
        if n.is_none() && !child_none {
            self.empty_children = self.empty_children + 1;
        } else if !n.is_none() && child_none {
            self.empty_children = self.empty_children - 1;
        }
        let was_full = self.full(&self.child[idx]);
        let is_full = self.full(n);
        if was_full && !is_full {
            self.full_children = self.full_children - 1;
        } else if !was_full && is_full {
            self.full_children = self.full_children + 1;
        }
        self.child.set_and_swap(idx, n);
    }
}

/// What an internal node in good order says of one of its slots.
proof fn lemma_child<T: BitVec>(b: InternalNode<T>, i: int)
    requires
        b.inv(),
        0 <= i < b.child@.len(),
    ensures
        b.child_ok(i),
        wf_node(b.child@[i]),
        match b.child@[i] {
            TrieNode::Internal(cb) => cb.pos >= b.end(),
            _ => true,
        },
        forall|k: T, p: u8, v: Seq<char>|
            #[trigger] has_entry(b.child@[i], k, p, v) ==> k.slice_at(b.pos as int, b.bits as nat)
                == i && agree(k, b.key, 0, b.pos as int),
{
    assert(b.child_ok(i)) by {
        let c = b.child@[i];
    }
}

/// Replacing slot `j` by `x` trades the entries of the old slot for those
/// of `x`.
proof fn lemma_seq_has_update<T: BitVec>(s: Seq<TrieNode<T>>, j: int, x: TrieNode<T>)
    requires
        0 <= j < s.len(),
    ensures
        forall|k: T, p: u8, v: Seq<char>|
            #![trigger seq_has(s.update(j, x), k, p, v)]
            #![trigger seq_has(s, k, p, v)]
            seq_has(s.update(j, x), k, p, v) || has_entry(s[j], k, p, v) <==> seq_has(s, k, p, v)
                || has_entry(x, k, p, v),
{
    let t = s.update(j, x);
    assert(t.len() == s.len());
    assert forall|i: int| 0 <= i < s.len() && i != j implies t[i] == s[i] by {}
    assert forall|k: T, p: u8, v: Seq<char>|
        seq_has(t, k, p, v) || has_entry(s[j], k, p, v) <==> seq_has(s, k, p, v) || has_entry(
            x,
            k,
            p,
            v,
        ) by {
        lemma_seq_has(t, k, p, v);
        lemma_seq_has(s, k, p, v);
        if seq_has(t, k, p, v) {
            let i = choose|i: int| 0 <= i < t.len() && #[trigger] has_entry(t[i], k, p, v);
            if i != j {
                assert(t[i] == s[i]);
                assert(has_entry(s[i], k, p, v));
            }
        }
        if seq_has(s, k, p, v) {
            let i = choose|i: int| 0 <= i < s.len() && #[trigger] has_entry(s[i], k, p, v);
            if i != j {
                assert(t[i] == s[i]);
                assert(has_entry(t[i], k, p, v));
            }
        }
        if has_entry(x, k, p, v) {
            assert(has_entry(t[j], k, p, v));
        }
        if has_entry(s[j], k, p, v) {
            assert(seq_has(s, k, p, v));
        }
    }
}

/// A run of empty slots holds nothing.
proof fn lemma_seq_has_empty<T: BitVec>(s: Seq<TrieNode<T>>)
    requires
        forall|i: int| 0 <= i < s.len() ==> #[trigger] s[i] is Empty,
    ensures
        forall|k: T, p: u8, v: Seq<char>| !#[trigger] seq_has(s, k, p, v),
{
    assert forall|k: T, p: u8, v: Seq<char>| !#[trigger] seq_has(s, k, p, v) by {
        lemma_seq_has(s, k, p, v);
        if seq_has(s, k, p, v) {
            let i = choose|i: int| 0 <= i < s.len() && #[trigger] has_entry(s[i], k, p, v);
            assert(s[i] is Empty);
        }
    }
}

/// Whether slot `j` is in order depends on that slot and on the node's key,
/// position and width alone.
proof fn lemma_child_ok_same<T: BitVec>(a: InternalNode<T>, b: InternalNode<T>, j: int)
    requires
        0 <= j < a.child@.len(),
        a.child@.len() == b.child@.len(),
        a.child@[j] == b.child@[j],
        a.key == b.key,
        a.pos == b.pos,
        a.bits == b.bits,
    ensures
        a.child_ok(j) == b.child_ok(j),
{
}

/// A subtree in good order that is not empty holds an entry under its own
/// key.
proof fn lemma_key_present<T: BitVec>(n: TrieNode<T>) -> (pv: (u8, Seq<char>))
    requires
        wf_node(n),
        !(n is Empty),
    ensures
        has_entry(n, node_key(n), pv.0, pv.1),
{
    match n {
        TrieNode::Leaf(l) => (l.prefix, l.value@),
        TrieNode::Internal(b) => {
            let (p, v) = choose|p: u8, v: Seq<char>| #[trigger] node_has(*b, b.key, p, v);
            (p, v)
        },
        TrieNode::Empty => (0, Seq::empty()),
    }
}

/// The first bit of a field and the rest of it.
proof fn lemma_slice_split<T: BitVec>(k: T, o: int, n: nat)
    requires
        n >= 1,
    ensures
        k.slice_at(o, n) == (if k.bit(o) {
            pow2((n - 1) as nat)
        } else {
            0
        }) + k.slice_at(o + 1, (n - 1) as nat),
    decreases n,
{
    T::lemma_slice_at(k, o, n);
    T::lemma_slice_at(k, o, (n - 1) as nat);
    T::lemma_slice_at(k, o + 1, (n - 1) as nat);
    if n > 1 {
        lemma_slice_split(k, o, (n - 1) as nat);
        T::lemma_slice_at(k, o + 1, (n - 2) as nat);
    }
}

/// Equal fields have equal bits.
proof fn lemma_slice_agree<T: BitVec>(x: T, y: T, o: int, n: nat)
    requires
        x.slice_at(o, n) == y.slice_at(o, n),
    ensures
        agree(x, y, o, o + n),
    decreases n,
{
    T::lemma_slice_at(x, o, n);
    T::lemma_slice_at(y, o, n);
    if n > 0 {
        lemma_slice_agree(x, y, o, (n - 1) as nat);
    }
}

/// Every entry below an internal node shares its key up to its position; a
/// leaf's one entry has the leaf's key.
proof fn lemma_entries_agree<T: BitVec>(n: TrieNode<T>)
    requires
        wf_node(n),
    ensures
        forall|k: T, p: u8, v: Seq<char>|
            #[trigger] has_entry(n, k, p, v) ==> match n {
                TrieNode::Internal(b) => agree(k, b.key, 0, b.pos as int),
                TrieNode::Leaf(l) => k == l.key,
                TrieNode::Empty => false,
            },
{
    if let TrieNode::Internal(b) = n {
        assert forall|k: T, p: u8, v: Seq<char>| #[trigger] has_entry(n, k, p, v) implies agree(
            k,
            b.key,
            0,
            b.pos as int,
        ) by {
            lemma_seq_has(b.child@, k, p, v);
            let i = choose|i: int| 0 <= i < b.child@.len() && #[trigger] has_entry(b.child@[i], k, p, v);
            lemma_child(*b, i);
        }
    }
}

/// Some slot is used when not all are empty.
proof fn lemma_used_exists<T>(s: Seq<TrieNode<T>>) -> (i: int)
    requires
        num_empty(s) < s.len(),
    ensures
        0 <= i < s.len(),
        !(s[i] is Empty),
    decreases s.len(),
{
    if !(s.last() is Empty) {
        (s.len() - 1) as int
    } else {
        let i = lemma_used_exists(s.drop_last());
        assert(s[i] == s.drop_last()[i]);
        i
    }
}

/// The bit at `o` as a one-bit field.
proof fn lemma_slice_one<T: BitVec>(k: T, o: int)
    ensures
        k.slice_at(o, 1) == if k.bit(o) {
            1nat
        } else {
            0nat
        },
{
    T::lemma_slice_at(k, o, 1);
    T::lemma_slice_at(k, o, 0);
}

/// The `n` bits from `o` on spell a number below `2^n`.
pub proof fn lemma_slice_bound<T: BitVec>(k: T, o: int, n: nat)
    ensures
        k.slice_at(o, n) < pow2(n),
    decreases n,
{
    T::lemma_slice_at(k, o, n);
    if n > 0 {
        lemma_slice_bound(k, o, (n - 1) as nat);
    }
}

/// An index over keys of type `T`: each entry is a key masked to its prefix
/// length, with a value.
pub struct LPCTrie<T> {
    pub trie: TrieNode<T>,
    pub size: u64,
}

impl<T: BitVec> LPCTrie<T> {
    /// The tree is in good order, the count is the number of distinct stored
    /// keys, and it is zero exactly when the tree is empty.
    pub open spec fn wf(&self) -> bool {
        &&& wf_node(self.trie)
        &&& self.keys().finite()
        &&& self.size == self.keys().len()
        &&& (self.size == 0) == (self.trie is Empty)
    }

    /// The distinct stored keys.
    pub open spec fn keys(&self) -> Set<T> {
        Set::new(|k: T| self.has_key(k))
    }

    /// The entry `(k, p, v)` is stored.
    pub open spec fn holds(&self, k: T, p: u8, v: Seq<char>) -> bool {
        has_entry(self.trie, k, p, v)
    }

    /// Some entry with key `k` is stored.
    pub open spec fn has_key(&self, k: T) -> bool {
        exists|p: u8, v: Seq<char>| #[trigger] self.holds(k, p, v)
    }

    pub fn new() -> (r: LPCTrie<T>)
        ensures
            r.wf(),
            r.size == 0,
            forall|k: T, p: u8, v: Seq<char>| !#[trigger] r.holds(k, p, v),
    {
        let r = LPCTrie { trie: TrieNode::Empty, size: 0 };
        proof {
            assert(r.keys() =~= Set::empty());
        }
        r
    }

    /// Drops every entry.
    pub fn clear(&mut self)
        ensures
            final(self).wf(),
            final(self).size == 0,
            forall|k: T, p: u8, v: Seq<char>| !#[trigger] final(self).holds(k, p, v),
            forall|q: T| !lookup(#[trigger] final(self).trie, q),
    {
        self.trie = TrieNode::Empty;
        self.size = 0;
        proof {
            assert(self.keys() =~= Set::empty());
        }
    }

    /// No entry is stored.
    pub fn empty(&self) -> (r: bool)
        requires
            self.wf(),
        ensures
            r == (self.size == 0),
            r ==> forall|k: T, p: u8, v: Seq<char>| !#[trigger] self.holds(k, p, v),
    {
        self.size == 0
    }

    /// The number of distinct stored keys.
    pub fn size(&self) -> (r: u64)
        requires
            self.wf(),
        ensures
            r == self.size,
            r == self.keys().len(),
    {
        self.size
    }

    /// Whether an entry with exactly the key `key` is stored.
    pub fn contains_key(&self, key: T) -> (r: bool)
        requires
            self.wf(),
        ensures
            r == self.has_key(key),
    {
        let mut t: &TrieNode<T> = &self.trie;
        loop
            invariant
                wf_node(*t),
                reach(*t, key) == reach(self.trie, key),
                self.wf(),
            decreases *t,
        {
            match t {
                TrieNode::Internal(n) => {
                    proof {
                        lemma_slice_bound(key, n.pos as int, n.bits as nat);
                        lemma_pow2_le(n.bits as nat, MAX_BITS as nat);
                        lemma_child(**n, key.slice_at(n.pos as int, n.bits as nat) as int);
                    }
                    let idx = key.extract_bits(n.pos, n.bits).safe_to_usize();
                    t = n.get_child(idx);
                },
                TrieNode::Leaf(l) => {
                    let r = l.key.same(&key);
                    proof {
                        lemma_reach_stored(self.trie, key);
                        if self.has_key(key) {
                            let (p, v) = choose|p: u8, v: Seq<char>| #[trigger] self.holds(key, p, v);
                            lemma_reach_own_key(self.trie, key, p, v);
                        }
                        if r {
                            assert(self.holds(key, l.prefix, l.value@));
                        }
                    }
                    return r;
                },
                TrieNode::Empty => {
                    proof {
                        if self.has_key(key) {
                            let (p, v) = choose|p: u8, v: Seq<char>| #[trigger] self.holds(key, p, v);
                            lemma_reach_own_key(self.trie, key, p, v);
                        }
                    }
                    return false;
                },
            }
        }
    }

    /// Whether the entry that the lookup of `key` ends on has a block that
    /// contains `key`.
    pub fn get(&self, key: T) -> (r: bool)
        requires
            self.wf(),
        ensures
            r == lookup(self.trie, key),
    {
        let mut t: &TrieNode<T> = &self.trie;
        loop
            invariant
                wf_node(*t),
                reach(*t, key) == reach(self.trie, key),
            decreases *t,
        {
            match t {
                TrieNode::Internal(n) => {
                    proof {
                        lemma_slice_bound(key, n.pos as int, n.bits as nat);
                        lemma_pow2_le(n.bits as nat, MAX_BITS as nat);
                        lemma_child(**n, key.slice_at(n.pos as int, n.bits as nat) as int);
                    }
                    let idx = key.extract_bits(n.pos, n.bits).safe_to_usize();
                    t = n.get_child(idx);
                },
                TrieNode::Leaf(l) => {
                    return l.key.sub_equal(0, l.prefix as u32, &key);
                },
                TrieNode::Empty => {
                    return false;
                },
            }
        }
    }

    /// The value of the entry that the lookup of `key` ends on when its block
    /// contains `key`; the empty string otherwise.
    pub fn get_with_value(&self, key: T) -> (r: &str)
        requires
            self.wf(),
        ensures
            r@ == lookup_value(self.trie, key),
    {
        let mut t: &TrieNode<T> = &self.trie;
        loop
            invariant
                wf_node(*t),
                reach(*t, key) == reach(self.trie, key),
            decreases *t,
        {
            match t {
                TrieNode::Internal(n) => {
                    proof {
                        lemma_slice_bound(key, n.pos as int, n.bits as nat);
                        lemma_pow2_le(n.bits as nat, MAX_BITS as nat);
                        lemma_child(**n, key.slice_at(n.pos as int, n.bits as nat) as int);
                    }
                    let idx = key.extract_bits(n.pos, n.bits).safe_to_usize();
                    t = n.get_child(idx);
                },
                TrieNode::Leaf(l) => {
                    if l.key.sub_equal(0, l.prefix as u32, &key) {
                        return l.value.as_str();
                    } else {
                        proof {
                            reveal_strlit("");
                        }
                        return "";
                    }
                },
                TrieNode::Empty => {
                    proof {
                        reveal_strlit("");
                    }
                    return "";
                },
            }
        }
    }
}

impl<T: BitVec> InternalNode<T> {
    /// Takes as key the key of the last used slot, if any.
    fn refresh_key(&mut self)
        ensures
            final(self).child == old(self).child,
            final(self).pos == old(self).pos,
            final(self).bits == old(self).bits,
            final(self).full_children == old(self).full_children,
            final(self).empty_children == old(self).empty_children,
            (exists|i: int|
                0 <= i < final(self).child@.len() && !(#[trigger] final(self).child@[i] is Empty)
                    && final(self).key == node_key(final(self).child@[i])) || ((forall|i: int|
                0 <= i < final(self).child@.len() ==> #[trigger] final(self).child@[i] is Empty)
                && final(self).key == old(self).key),
    {
        let len = self.child.len();
        let mut i: usize = 0;
        while i < len
            invariant
                len == self.child@.len(),
                i <= len,
                self.child == old(self).child,
                self.pos == old(self).pos,
                self.bits == old(self).bits,
                self.full_children == old(self).full_children,
                self.empty_children == old(self).empty_children,
                (exists|j: int|
                    0 <= j < i && !(#[trigger] self.child@[j] is Empty) && self.key == node_key(
                        self.child@[j],
                    )) || ((forall|j: int| 0 <= j < i ==> #[trigger] self.child@[j] is Empty)
                    && self.key == old(self).key),
            decreases len - i,
        {
            if self.child[i].is_some() {
                self.key = self.child[i].key();
            }
            i = i + 1;
        }
    }

    /// Hands out the one used slot of a node that has exactly one.
    fn take_only_child(self) -> (r: TrieNode<T>)
        requires
            self.inv(),
            self.empty_children + 1 == self.child@.len(),
        ensures
            wf_node(r),
            forall|k: T, p: u8, v: Seq<char>| #[trigger] has_entry(r, k, p, v) == node_has(self, k, p, v),
            match r {
                TrieNode::Internal(rb) => rb.pos >= self.end(),
                _ => true,
            },
            forall|i: int| 0 <= i < self.child@.len() && !(#[trigger] self.child@[i] is Empty) ==> r == self.child@[i],
    {
        let mut node = self;
        let ghost j0 = lemma_used_exists(node.child@);
        let len = node.child.len();
        let mut i: usize = 0;
        while node.child[i].is_none()
            invariant
                len == node.child@.len(),
                node == self,
                self.inv(),
                i <= j0 < node.child@.len(),
                !(node.child@[j0] is Empty),
            decreases j0 - i,
        {
            i = i + 1;
        }
        proof {
            lemma_child(self, i as int);
            assert forall|j: int| 0 <= j < self.child@.len() && j != i implies #[trigger] self.child@[j] is Empty by {
                if !(self.child@[j] is Empty) {
                    lemma_two_used(self.child@, i as int, j);
                }
            }
            assert forall|k: T, p: u8, v: Seq<char>| #[trigger] has_entry(self.child@[i as int], k, p, v) == node_has(self, k, p, v) by {
                lemma_seq_has(self.child@, k, p, v);
                if node_has(self, k, p, v) {
                    let j = choose|j: int| 0 <= j < self.child@.len() && #[trigger] has_entry(self.child@[j], k, p, v);
                    if j != i {
                        assert(self.child@[j] is Empty);
                    }
                }
            }
        }
        let mut c = TrieNode::Empty;
        node.child.set_and_swap(i, &mut c);
        c
    }

    /// Restores the balance of a node whose slots are in order: an empty node
    /// goes, a lone child takes its place, and otherwise the branching widens
    /// while inflation is due and then narrows while halving is due.
    fn resize(self) -> (r: TrieNode<T>)
        requires
            self.inv(),
            self.used() >= 1 ==> self.key_held(),
        ensures
            wf_node(r),
            forall|k: T, p: u8, v: Seq<char>| #[trigger] has_entry(r, k, p, v) == node_has(self, k, p, v),
            match r {
                TrieNode::Internal(rb) => rb.pos >= self.pos,
                _ => true,
            },
            self.used() == 0 ==> r is Empty,
            self.used() == 1 ==> forall|i: int|
                0 <= i < self.child@.len() && !(#[trigger] self.child@[i] is Empty) ==> r == self.child@[i],
            self.used() >= 2 && !self.inflate_due() && !self.halve_due() ==> r == TrieNode::Internal(Box::new(self)),
        decreases T::width() - self.pos, 3int,
    {
        let mut node = self;
        proof {
            lemma_counts_bound(node.child@, node.end());
            lemma_pow2_le(node.bits as nat, MAX_BITS as nat);
        }
        if node.empty_children as usize == node.child.len() {
            proof {
                lemma_all_empty(node.child@);
                lemma_seq_has_empty(node.child@);
            }
            return TrieNode::Empty;
        }
        if node.empty_children as usize == node.child.len() - 1 {
            return node.take_only_child();
        }
        let width = T::width_u32();
        while node.pos + node.bits < width && node.bits < MAX_BITS && 50 * (node.full_children as u64
            + node.child.len() as u64 - node.empty_children as u64) >= INFLATE_THRESHOLD
            * node.child.len() as u64
            invariant
                node.inv(),
                width == T::width(),
                node.pos == self.pos,
                node.key == self.key,
                self.used() >= 2,
                node.empty_children + node.full_children <= node.child@.len() <= 0x8000_0000,
                forall|k: T, p: u8, v: Seq<char>| #[trigger] node_has(node, k, p, v) == node_has(self, k, p, v),
                !self.inflate_due() ==> node == self,
            decreases MAX_BITS - node.bits,
        {
            node.inflate();
            proof {
                lemma_counts_bound(node.child@, node.end());
                lemma_pow2_le(node.bits as nat, MAX_BITS as nat);
            }
        }
        while node.bits > 1 && 100 * (node.child.len() as u64 - node.empty_children as u64)
            < HALVE_THRESHOLD * node.child.len() as u64
            invariant
                node.inv(),
                node.pos == self.pos,
                node.key == self.key,
                self.used() >= 2,
                !node.inflate_due(),
                node.empty_children + node.full_children <= node.child@.len() <= 0x8000_0000,
                forall|k: T, p: u8, v: Seq<char>| #[trigger] node_has(node, k, p, v) == node_has(self, k, p, v),
                !self.inflate_due() && !self.halve_due() ==> node == self,
            decreases node.bits,
        {
            node.halve();
            proof {
                lemma_counts_bound(node.child@, node.end());
                lemma_pow2_le(node.bits as nat, MAX_BITS as nat);
            }
        }
        if node.empty_children as usize == node.child.len() {
            proof {
                lemma_all_empty(node.child@);
                lemma_seq_has_empty(node.child@);
                assert forall|k: T, p: u8, v: Seq<char>| #[trigger] has_entry(TrieNode::Empty, k, p, v) == node_has(self, k, p, v) by {
                    assert(node_has(node, k, p, v) == node_has(self, k, p, v));
                }
            }
            return TrieNode::Empty;
        }
        if node.empty_children as usize == node.child.len() - 1 {
            let r = node.take_only_child();
            proof {
                assert forall|k: T, p: u8, v: Seq<char>| #[trigger] has_entry(r, k, p, v) == node_has(self, k, p, v) by {
                    assert(node_has(node, k, p, v) == node_has(self, k, p, v));
                }
            }
            return r;
        }
        proof {
            let (p, v) = choose|p: u8, v: Seq<char>| #[trigger] node_has(self, self.key, p, v);
            assert(node_has(node, node.key, p, v));
        }
        let ghost g = node;
        let r = TrieNode::Internal(Box::new(node));
        proof {
            assert forall|k: T, p: u8, v: Seq<char>| #[trigger] has_entry(r, k, p, v) == node_has(self, k, p, v) by {
                assert(node_has(g, k, p, v) == node_has(self, k, p, v));
            }
        }
        return r;
    }

    /// Doubles the branching: each old slot spreads over two new ones by the
    /// next key bit, and a child that branched right there gives up its top
    /// branching bit.
    fn inflate(&mut self)
        requires
            old(self).inv(),
            old(self).pos + old(self).bits < T::width(),
            old(self).bits < MAX_BITS,
        ensures
            final(self).inv(),
            final(self).key == old(self).key,
            final(self).pos == old(self).pos,
            final(self).bits == old(self).bits + 1,
            forall|k: T, p: u8, v: Seq<char>| #[trigger] node_has(*final(self), k, p, v) == node_has(*old(self), k, p, v),
            forall|i: int|
                0 <= i < old(self).child@.len() ==> inflated_pair(
                    final(self).child@[2 * i],
                    final(self).child@[2 * i + 1],
                    #[trigger] old(self).child@[i],
                    old(self).end(),
                ),
        decreases T::width() - old(self).pos, 2int,
    {
        let ghost orig = *self;
        proof {
            T::lemma_width();
        }
        let mut old_child: Vec<TrieNode<T>> = Vec::new();
        std::mem::swap(&mut self.child, &mut old_child);
        let mut fresh = InternalNode::new(self.key, self.pos, self.bits + 1);
        let old_len = old_child.len();
        proof {
            assert(pow2((orig.bits + 1) as nat) == 2 * pow2(orig.bits as nat));
            lemma_seq_has_empty(fresh.child@);
        }
        let mut idx: usize = 0;
        while idx < old_len
            invariant
                orig.inv(),
                orig.pos + orig.bits <= T::width(),
                self.pos == orig.pos,
                orig == *old(self),
                old_len == orig.child@.len(),
                old_child@.len() == old_len,
                fresh.key == orig.key,
                fresh.pos == orig.pos,
                fresh.bits == orig.bits + 1,
                fresh.shape_ok(),
                fresh.counts_ok(),
                fresh.child@.len() == 2 * old_len,
                idx <= old_len,
                forall|i: int| idx <= i < old_len ==> #[trigger] old_child@[i] == orig.child@[i],
                forall|i: int| 0 <= i < idx ==> #[trigger] old_child@[i] is Empty,
                forall|j: int| #![trigger fresh.child@[j]] 0 <= j < 2 * idx ==> fresh.child_ok(j),
                forall|j: int| 2 * idx <= j < 2 * old_len ==> #[trigger] fresh.child@[j] is Empty,
                forall|i: int|
                    0 <= i < idx ==> inflated_pair(fresh.child@[2 * i], fresh.child@[2 * i + 1], #[trigger] orig.child@[i], orig.end()),
                forall|k: T, p: u8, v: Seq<char>|
                    #![trigger seq_has(orig.child@, k, p, v)]
                    (seq_has(fresh.child@, k, p, v) || seq_has(old_child@, k, p, v)) == seq_has(orig.child@, k, p, v),
            decreases old_len - idx,
        {
            let mut node = TrieNode::Empty;
            let ghost before_old = old_child@;
            let ghost before = fresh;
            old_child.set_and_swap(idx, &mut node);
            proof {
                lemma_seq_has_update(before_old, idx as int, TrieNode::Empty);
                lemma_child(orig, idx as int);
                assert(node == orig.child@[idx as int]);
            }
            fresh.inflate_slot(idx, node);
            proof {
                assert forall|j: int| #![trigger fresh.child@[j]] 0 <= j < 2 * idx + 2 implies fresh.child_ok(j) by {
                    if j < 2 * idx {
                        lemma_child_ok_same(before, fresh, j);
                    }
                }
                assert forall|i: int| 0 <= i < idx + 1 implies inflated_pair(fresh.child@[2 * i], fresh.child@[2 * i + 1], #[trigger] orig.child@[i], orig.end()) by {
                    if i < idx {
                        assert(fresh.child@[2 * i] == before.child@[2 * i]);
                        assert(fresh.child@[2 * i + 1] == before.child@[2 * i + 1]);
                    }
                }
                assert forall|k: T, p: u8, v: Seq<char>|
                    #![trigger seq_has(orig.child@, k, p, v)]
                    (seq_has(fresh.child@, k, p, v) || seq_has(old_child@, k, p, v)) == seq_has(orig.child@, k, p, v) by {
                    assert(seq_has(before_old.update(idx as int, TrieNode::Empty), k, p, v) == seq_has(old_child@, k, p, v)) by {
                        assert(before_old.update(idx as int, TrieNode::Empty) =~= old_child@);
                    }
                }
            }
            idx = idx + 1;
        }
        proof {
            lemma_seq_has_empty(old_child@);
            assert forall|j: int| #![trigger fresh.child@[j]] 0 <= j < fresh.child@.len() implies fresh.child_ok(j) by {}
            assert forall|k: T, p: u8, v: Seq<char>| #[trigger] node_has(fresh, k, p, v) == node_has(orig, k, p, v) by {
                assert((seq_has(fresh.child@, k, p, v) || seq_has(old_child@, k, p, v)) == seq_has(orig.child@, k, p, v));
            }
        }
        *self = fresh;
    }

    /// Stores what old slot `idx` held into slots `2 idx` and `2 idx + 1` of
    /// a node one bit wider than the one it came from.
    fn inflate_slot(&mut self, idx: usize, node: TrieNode<T>)
        requires
            old(self).shape_ok(),
            old(self).counts_ok(),
            old(self).bits >= 2,
            2 * idx + 1 < old(self).child@.len(),
            old(self).child@[2 * idx as int] is Empty,
            old(self).child@[2 * idx + 1] is Empty,
            wf_node(node),
            match node {
                TrieNode::Internal(nb) => nb.pos >= old(self).end() - 1,
                _ => true,
            },
            forall|k: T, p: u8, v: Seq<char>|
                #[trigger] has_entry(node, k, p, v) ==> k.slice_at(old(self).pos as int, (old(self).bits - 1) as nat)
                    == idx && agree(k, old(self).key, 0, old(self).pos as int),
        ensures
            final(self).key == old(self).key,
            final(self).pos == old(self).pos,
            final(self).bits == old(self).bits,
            final(self).shape_ok(),
            final(self).counts_ok(),
            final(self).child@.len() == old(self).child@.len(),
            forall|j: int| 0 <= j < old(self).child@.len() && j != 2 * idx && j != 2 * idx + 1
                ==> #[trigger] final(self).child@[j] == old(self).child@[j],
            final(self).child_ok(2 * idx as int),
            final(self).child_ok(2 * idx + 1),
            forall|k: T, p: u8, v: Seq<char>|
                #[trigger] seq_has(final(self).child@, k, p, v) == (seq_has(old(self).child@, k, p, v) || has_entry(node, k, p, v)),
            inflated_pair(final(self).child@[2 * idx as int], final(self).child@[2 * idx + 1], node, old(self).end() - 1),
        decreases T::width() - old(self).pos, 1int,
    {
        proof {
            T::lemma_width();
            lemma_entries_agree(node);
            lemma_pow2_le(self.bits as nat, MAX_BITS as nat);
        }
        let end = self.pos + self.bits - 1;
        let kind: u8 = match &node {
            TrieNode::Empty => 0,
            TrieNode::Leaf(_) => 1,
            TrieNode::Internal(n) => if n.pos > end {
                1
            } else if n.bits == 1 {
                2
            } else {
                3
            },
        };
        let ghost s0 = self.child@;
        if kind == 0 {
            proof {
                assert forall|k: T, p: u8, v: Seq<char>| #[trigger] seq_has(self.child@, k, p, v) == (seq_has(s0, k, p, v) || has_entry(node, k, p, v)) by {}
            }
            return;
        }
        if kind == 1 {
            let mut node = node;
            let ghost n0 = node;
            let nk = node.key();
            let b = nk.extract_bits(end, 1);
            proof {
                lemma_slice_one(nk, end as int);
                assert forall|k: T, p: u8, v: Seq<char>| #[trigger] has_entry(n0, k, p, v) implies k.bit(end as int) == nk.bit(end as int) && k.slice_at(self.pos as int, self.bits as nat) == 2 * idx + (if nk.bit(end as int) { 1int } else { 0int }) by {
                    T::lemma_slice_at(k, self.pos as int, self.bits as nat);
                }
            }
            let j = if b.is_empty() { 2 * idx } else { 2 * idx + 1 };
            self.put_child(j, &mut node);
            proof {
                lemma_seq_has_update(s0, j as int, n0);
                assert(self.child@ =~= s0.update(j as int, n0));
            }
            return;
        }
        let ghost n0 = node;
        proof {
            reveal_with_fuel(pow2, 2);
        }
        match node {
            TrieNode::Internal(mut n) => {
                proof {
                    lemma_child(*n, 0);
                    lemma_child(*n, 1);
                }
                if n.bits == 1 {
                    let mut a = TrieNode::Empty;
                    n.child.set_and_swap(0, &mut a);
                    let mut b = TrieNode::Empty;
                    n.child.set_and_swap(1, &mut b);
                    proof {
                        assert forall|k: T, p: u8, v: Seq<char>| has_entry(a, k, p, v) || has_entry(b, k, p, v) ==> has_entry(n0, k, p, v) by {
                            lemma_seq_has(n0->Internal_0.child@, k, p, v);
                        }
                        assert forall|k: T, p: u8, v: Seq<char>| #[trigger] has_entry(a, k, p, v) implies k.slice_at(self.pos as int, self.bits as nat) == 2 * idx by {
                            T::lemma_slice_at(k, self.pos as int, self.bits as nat);
                            lemma_slice_one(k, end as int);
                        }
                        assert forall|k: T, p: u8, v: Seq<char>| #[trigger] has_entry(b, k, p, v) implies k.slice_at(self.pos as int, self.bits as nat) == 2 * idx + 1 by {
                            T::lemma_slice_at(k, self.pos as int, self.bits as nat);
                            lemma_slice_one(k, end as int);
                        }
                    }
                    let ghost s1 = self.child@;
                    self.put_child(2 * idx, &mut a);
                    let ghost s2 = self.child@;
                    self.put_child(2 * idx + 1, &mut b);
                    proof {
                        lemma_seq_has_update(s0, 2 * idx as int, n0->Internal_0.child@[0]);
                        lemma_seq_has_update(s2, 2 * idx + 1, n0->Internal_0.child@[1]);
                        assert forall|k: T, p: u8, v: Seq<char>| #[trigger] seq_has(self.child@, k, p, v) == (seq_has(s0, k, p, v) || has_entry(n0, k, p, v)) by {
                            lemma_seq_has(n0->Internal_0.child@, k, p, v);
                            assert(s2 =~= s0.update(2 * idx as int, n0->Internal_0.child@[0]));
                            assert(self.child@ =~= s2.update(2 * idx + 1, n0->Internal_0.child@[1]));
                        }
                    }
                } else {
                    self.inflate_split(idx, n);
                }
            },
            _ => {},
        }
    }
}

/// What inflating makes of old slot `o`, where the old branching ended at
/// `end`, in new slots `c0` and `c1`: a child that branches right at `end`
/// gives its two slots, or, when wider, its entries split by the bit at
/// `end`; any other child moves whole to the slot that its bit at `end`
/// picks.
pub open spec fn inflated_pair<T: BitVec>(c0: TrieNode<T>, c1: TrieNode<T>, o: TrieNode<T>, end: int) -> bool {
    match o {
        TrieNode::Empty => c0 is Empty && c1 is Empty,
        TrieNode::Internal(b) => if b.pos == end {
            if b.bits == 1 {
                c0 == b.child@[0] && c1 == b.child@[1]
            } else {
                forall|k: T, p: u8, v: Seq<char>|
                    #![trigger has_entry(c0, k, p, v)]
                    #![trigger has_entry(c1, k, p, v)]
                    #![trigger has_entry(o, k, p, v)]
                    has_entry(c0, k, p, v) == (has_entry(o, k, p, v) && !k.bit(end)) && has_entry(c1, k, p, v)
                        == (has_entry(o, k, p, v) && k.bit(end))
            }
        } else if b.key.bit(end) {
            c0 is Empty && c1 == o
        } else {
            c0 == o && c1 is Empty
        },
        TrieNode::Leaf(l) => if l.key.bit(end) {
            c0 is Empty && c1 == o
        } else {
            c0 == o && c1 is Empty
        },
    }
}

/// What halving makes of the pair of slots `l` and `r`: nothing from two
/// empty slots, the one used slot as it is, or a node holding the entries of
/// both.
pub open spec fn halved_slot<T: BitVec>(c: TrieNode<T>, l: TrieNode<T>, r: TrieNode<T>) -> bool {
    if l is Empty && r is Empty {
        c is Empty
    } else if l is Empty {
        c == r
    } else if r is Empty {
        c == l
    } else {
        forall|k: T, p: u8, v: Seq<char>|
            #[trigger] has_entry(c, k, p, v) == (has_entry(l, k, p, v) || has_entry(r, k, p, v))
    }
}

/// A half of a node split on its top branching bit is in order: its slots
/// are those of the node whose top bit is `top`.
proof fn lemma_half_ok<T: BitVec>(nn: InternalNode<T>, h: InternalNode<T>, off: int, top: bool)
    requires
        nn.inv(),
        nn.bits >= 2,
        h.pos == nn.pos + 1,
        h.bits == nn.bits - 1,
        h.shape_ok(),
        h.counts_ok(),
        off == if top {
            pow2((nn.bits - 1) as nat) as int
        } else {
            0int
        },
        forall|i: int| 0 <= i < h.child@.len() ==> #[trigger] h.child@[i] == nn.child@[i + off],
        (exists|i: int|
            0 <= i < h.child@.len() && !(#[trigger] h.child@[i] is Empty) && h.key == node_key(
                h.child@[i],
            )) || (forall|i: int| 0 <= i < h.child@.len() ==> #[trigger] h.child@[i] is Empty),
    ensures
        h.inv(),
        h.used() >= 1 ==> h.key_held(),
        forall|k: T, p: u8, v: Seq<char>|
            #[trigger] node_has(h, k, p, v) ==> k.bit(nn.pos as int) == top && agree(k, nn.key, 0, nn.pos as int),
        forall|k: T, p: u8, v: Seq<char>|
            #[trigger] node_has(h, k, p, v) == exists|i: int|
                0 <= i < h.child@.len() && #[trigger] has_entry(nn.child@[i + off], k, p, v),
{
    let half = pow2((nn.bits - 1) as nat) as int;
    assert(pow2(nn.bits as nat) == 2 * half);
    // what an entry of slot `i` of the half says of its bits
    assert forall|i: int, k: T, p: u8, v: Seq<char>|
        0 <= i < h.child@.len() && #[trigger] has_entry(h.child@[i], k, p, v) implies k.bit(nn.pos as int) == top
            && k.slice_at(h.pos as int, h.bits as nat) == i && agree(k, nn.key, 0, nn.pos as int) by {
        lemma_child(nn, i + off);
        lemma_slice_split(k, nn.pos as int, nn.bits as nat);
        lemma_slice_bound(k, nn.pos as int + 1, (nn.bits - 1) as nat);
    }
    if exists|i: int| 0 <= i < h.child@.len() && !(#[trigger] h.child@[i] is Empty) && h.key == node_key(h.child@[i]) {
        let i0 = choose|i: int| 0 <= i < h.child@.len() && !(#[trigger] h.child@[i] is Empty) && h.key == node_key(h.child@[i]);
        lemma_child(nn, i0 + off);
        let (p0, v0) = lemma_key_present(h.child@[i0]);
        assert(has_entry(h.child@[i0], h.key, p0, v0));
        assert forall|i: int| #![trigger h.child@[i]] 0 <= i < h.child@.len() implies h.child_ok(i) by {
            lemma_child(nn, i + off);
            assert forall|k: T, p: u8, v: Seq<char>| #[trigger] has_entry(h.child@[i], k, p, v) implies agree(k, h.key, 0, h.pos as int) by {
                assert forall|j: int| 0 <= j < h.pos implies #[trigger] k.bit(j) == h.key.bit(j) by {
                    if j < nn.pos {
                        assert(k.bit(j) == nn.key.bit(j));
                        assert(h.key.bit(j) == nn.key.bit(j));
                    }
                }
            }
        }
        lemma_seq_has(h.child@, h.key, p0, v0);
        assert(node_has(h, h.key, p0, v0));
    } else {
        assert forall|i: int| #![trigger h.child@[i]] 0 <= i < h.child@.len() implies h.child_ok(i) by {
            lemma_child(nn, i + off);
            assert(h.child@[i] is Empty);
        }
        if h.used() >= 1 {
            let i = lemma_used_exists(h.child@);
            assert(h.child@[i] is Empty);
        }
    }
    assert forall|k: T, p: u8, v: Seq<char>|
        #[trigger] node_has(h, k, p, v) == exists|i: int|
            0 <= i < h.child@.len() && #[trigger] has_entry(nn.child@[i + off], k, p, v) by {
        lemma_seq_has(h.child@, k, p, v);
        if node_has(h, k, p, v) {
            let i = choose|i: int| 0 <= i < h.child@.len() && #[trigger] has_entry(h.child@[i], k, p, v);
            assert(has_entry(nn.child@[i + off], k, p, v));
        }
        if exists|i: int| 0 <= i < h.child@.len() && #[trigger] has_entry(nn.child@[i + off], k, p, v) {
            let i = choose|i: int| 0 <= i < h.child@.len() && #[trigger] has_entry(nn.child@[i + off], k, p, v);
            assert(has_entry(h.child@[i], k, p, v));
        }
    }
    assert forall|k: T, p: u8, v: Seq<char>| #[trigger] node_has(h, k, p, v) implies k.bit(nn.pos as int) == top
        && agree(k, nn.key, 0, nn.pos as int) by {
        lemma_seq_has(h.child@, k, p, v);
        let i = choose|i: int| 0 <= i < h.child@.len() && #[trigger] has_entry(h.child@[i], k, p, v);
    }
}

impl<T: BitVec> InternalNode<T> {
    /// Splits the child `n`, which branches right at the old end of this
    /// node, on its top branching bit into two narrower nodes, and stores
    /// them into slots `2 idx` and `2 idx + 1`.
    fn inflate_split(&mut self, idx: usize, n: Box<InternalNode<T>>)
        requires
            old(self).shape_ok(),
            old(self).counts_ok(),
            old(self).bits >= 2,
            2 * idx + 1 < old(self).child@.len(),
            old(self).child@[2 * idx as int] is Empty,
            old(self).child@[2 * idx + 1] is Empty,
            wf_node(TrieNode::Internal(n)),
            n.pos == old(self).end() - 1,
            n.bits >= 2,
            forall|k: T, p: u8, v: Seq<char>|
                #[trigger] has_entry(TrieNode::Internal(n), k, p, v) ==> k.slice_at(old(self).pos as int, (old(self).bits - 1) as nat)
                    == idx && agree(k, old(self).key, 0, old(self).pos as int),
        ensures
            final(self).key == old(self).key,
            final(self).pos == old(self).pos,
            final(self).bits == old(self).bits,
            final(self).shape_ok(),
            final(self).counts_ok(),
            final(self).child@.len() == old(self).child@.len(),
            forall|j: int| 0 <= j < old(self).child@.len() && j != 2 * idx && j != 2 * idx + 1
                ==> #[trigger] final(self).child@[j] == old(self).child@[j],
            final(self).child_ok(2 * idx as int),
            final(self).child_ok(2 * idx + 1),
            forall|k: T, p: u8, v: Seq<char>|
                #[trigger] seq_has(final(self).child@, k, p, v) == (seq_has(old(self).child@, k, p, v) || has_entry(TrieNode::Internal(n), k, p, v)),
            forall|k: T, p: u8, v: Seq<char>|
                #[trigger] has_entry(final(self).child@[2 * idx as int], k, p, v) == (has_entry(TrieNode::Internal(n), k, p, v)
                    && !k.bit(n.pos as int)),
            forall|k: T, p: u8, v: Seq<char>|
                #[trigger] has_entry(final(self).child@[2 * idx + 1], k, p, v) == (has_entry(TrieNode::Internal(n), k, p, v)
                    && k.bit(n.pos as int)),
        decreases T::width() - old(self).pos, 0int,
    {
        let ghost nn = *n;
        let ghost s0 = self.child@;
        proof {
            T::lemma_width();
            lemma_pow2_le(self.bits as nat, MAX_BITS as nat);
            lemma_pow2_le((n.bits - 1) as nat, MAX_BITS as nat);
        }
        let mut n = n;
        let nb = n.bits;
        let half = slot_count(nb - 1);
        proof {
            assert(pow2(nb as nat) == 2 * pow2((nb - 1) as nat));
        }
        let mut left = InternalNode::new(T::empty(), n.pos + 1, nb - 1);
        let mut right = InternalNode::new(T::empty(), n.pos + 1, nb - 1);
        let mut j: usize = 0;
        while j < half
            invariant
                n.pos == nn.pos,
                n.bits == nn.bits,
                n.key == nn.key,
                nb == nn.bits,
                half == pow2((nb - 1) as nat),
                half <= 0x8000_0000,
                n.child@.len() == 2 * half,
                nn.child@.len() == 2 * half,
                left.pos == nn.pos + 1,
                left.bits == nb - 1,
                right.pos == nn.pos + 1,
                right.bits == nb - 1,
                left.shape_ok(),
                left.counts_ok(),
                right.shape_ok(),
                right.counts_ok(),
                j <= half,
                forall|i: int| 0 <= i < j ==> #[trigger] left.child@[i] == nn.child@[i],
                forall|i: int| 0 <= i < j ==> #[trigger] right.child@[i] == nn.child@[i + half],
                forall|i: int| j <= i < half ==> #[trigger] left.child@[i] is Empty,
                forall|i: int| j <= i < half ==> #[trigger] right.child@[i] is Empty,
                forall|i: int| j <= i < half ==> #[trigger] n.child@[i] == nn.child@[i],
                forall|i: int| j <= i < half ==> #[trigger] n.child@[i + half] == nn.child@[i + half],
            decreases half - j,
        {
            let mut a = TrieNode::Empty;
            n.child.set_and_swap(j, &mut a);
            left.put_child(j, &mut a);
            let mut b = TrieNode::Empty;
            n.child.set_and_swap(j + half, &mut b);
            right.put_child(j, &mut b);
            j = j + 1;
        }
        left.refresh_key();
        right.refresh_key();
        proof {
            assert(wf_node(TrieNode::Internal(Box::new(nn))));
            lemma_half_ok(nn, left, 0, false);
            lemma_half_ok(nn, right, half as int, true);
            assert forall|k: T, p: u8, v: Seq<char>| #[trigger] has_entry(TrieNode::Internal(Box::new(nn)), k, p, v) == (node_has(left, k, p, v) || node_has(right, k, p, v)) by {
                lemma_seq_has(nn.child@, k, p, v);
                if seq_has(nn.child@, k, p, v) {
                    let i = choose|i: int| 0 <= i < nn.child@.len() && #[trigger] has_entry(nn.child@[i], k, p, v);
                    if i < half {
                        assert(has_entry(nn.child@[i + 0], k, p, v));
                    } else {
                        assert(has_entry(nn.child@[(i - half) + half], k, p, v));
                    }
                }
            }
        }
        let ghost lh = left;
        let ghost rh = right;
        let mut l = left.resize();
        let mut r = right.resize();
        proof {
            assert forall|k: T, p: u8, v: Seq<char>| #[trigger] has_entry(l, k, p, v) implies k.slice_at(self.pos as int, self.bits as nat) == 2 * idx && agree(k, self.key, 0, self.pos as int) by {
                T::lemma_slice_at(k, self.pos as int, self.bits as nat);
                assert(has_entry(TrieNode::Internal(Box::new(nn)), k, p, v));
            }
            assert forall|k: T, p: u8, v: Seq<char>| #[trigger] has_entry(r, k, p, v) implies k.slice_at(self.pos as int, self.bits as nat) == 2 * idx + 1 && agree(k, self.key, 0, self.pos as int) by {
                T::lemma_slice_at(k, self.pos as int, self.bits as nat);
                assert(has_entry(TrieNode::Internal(Box::new(nn)), k, p, v));
            }
        }
        let ghost l0 = l;
        let ghost r0 = r;
        self.put_child(2 * idx, &mut l);
        let ghost s1 = self.child@;
        self.put_child(2 * idx + 1, &mut r);
        proof {
            lemma_seq_has_update(s0, 2 * idx as int, l0);
            lemma_seq_has_update(s1, 2 * idx + 1, r0);
            assert(s1 =~= s0.update(2 * idx as int, l0));
            assert(self.child@ =~= s1.update(2 * idx + 1, r0));
        }
    }

    /// Halves the branching: each pair of slots folds into one, and a pair
    /// with both slots used becomes a node that branches on the dropped bit.
    fn halve(&mut self)
        requires
            old(self).inv(),
            old(self).bits > 1,
        ensures
            final(self).inv(),
            final(self).key == old(self).key,
            final(self).pos == old(self).pos,
            final(self).bits == old(self).bits - 1,
            final(self).used() <= old(self).used(),
            forall|j: int|
                0 <= j < final(self).child@.len() ==> halved_slot(
                    #[trigger] final(self).child@[j],
                    old(self).child@[2 * j],
                    old(self).child@[2 * j + 1],
                ),
            forall|k: T, p: u8, v: Seq<char>| #[trigger] node_has(*final(self), k, p, v) == node_has(*old(self), k, p, v),
        decreases T::width() - old(self).pos, 2int,
    {
        let ghost orig = *self;
        proof {
            T::lemma_width();
            assert(pow2(orig.bits as nat) == 2 * pow2((orig.bits - 1) as nat));
        }
        let mut old_child: Vec<TrieNode<T>> = Vec::new();
        std::mem::swap(&mut self.child, &mut old_child);
        let mut fresh = InternalNode::new(self.key, self.pos, self.bits - 1);
        let new_len = fresh.child.len();
        proof {
            lemma_pow2_le(fresh.bits as nat, MAX_BITS as nat);
            lemma_seq_has_empty(fresh.child@);
            lemma_empties::<T>(new_len as nat, 0);
        }
        let mut k: usize = 0;
        while k < new_len
            invariant
                orig.inv(),
                orig.pos + orig.bits <= T::width(),
                self.pos == orig.pos,
                orig == *old(self),
                new_len <= 0x8000_0000,
                orig.bits > 1,
                old_child@.len() == 2 * new_len,
                orig.child@.len() == 2 * new_len,
                fresh.key == orig.key,
                fresh.pos == orig.pos,
                fresh.bits == orig.bits - 1,
                fresh.shape_ok(),
                fresh.counts_ok(),
                fresh.child@.len() == new_len,
                k <= new_len,
                forall|i: int| 2 * k <= i < 2 * new_len ==> #[trigger] old_child@[i] == orig.child@[i],
                forall|j: int| #![trigger fresh.child@[j]] 0 <= j < k ==> fresh.child_ok(j),
                forall|j: int| k <= j < new_len ==> #[trigger] fresh.child@[j] is Empty,
                forall|kk: T, p: u8, v: Seq<char>|
                    #![trigger seq_has(orig.child@, kk, p, v)]
                    (seq_has(fresh.child@, kk, p, v) || seq_has(old_child@, kk, p, v)) == seq_has(orig.child@, kk, p, v),
                (new_len - fresh.empty_children) + (2 * new_len - num_empty(old_child@)) <= 2 * new_len - orig.empty_children,
                forall|i: int| 0 <= i < 2 * k ==> #[trigger] old_child@[i] is Empty,
                forall|j: int|
                    0 <= j < k ==> halved_slot(#[trigger] fresh.child@[j], orig.child@[2 * j], orig.child@[2 * j + 1]),
            decreases new_len - k,
        {
            let ghost o0 = old_child@;
            let mut left = TrieNode::Empty;
            old_child.set_and_swap(2 * k, &mut left);
            let ghost o1 = old_child@;
            let mut right = TrieNode::Empty;
            old_child.set_and_swap(2 * k + 1, &mut right);
            proof {
                lemma_seq_has_update(o0, 2 * k as int, TrieNode::Empty);
                lemma_seq_has_update(o1, 2 * k + 1, TrieNode::Empty);
                assert(o1 =~= o0.update(2 * k as int, TrieNode::Empty));
                assert(old_child@ =~= o1.update(2 * k + 1, TrieNode::Empty));
                lemma_counts_update(o0, 2 * k as int, TrieNode::Empty, 0);
                lemma_counts_update(o1, 2 * k + 1, TrieNode::Empty, 0);
                lemma_child(orig, 2 * k as int);
                lemma_child(orig, 2 * k + 1);
            }
            let ghost before = fresh;
            fresh.halve_slot(k, left, right);
            proof {
                assert forall|j: int| #![trigger fresh.child@[j]] 0 <= j < k + 1 implies fresh.child_ok(j) by {
                    if j < k {
                        lemma_child_ok_same(before, fresh, j);
                    }
                }
            }
            k = k + 1;
        }
        proof {
            lemma_seq_has_empty(old_child@);
            lemma_counts_bound(old_child@, 0);
            assert forall|j: int| #![trigger fresh.child@[j]] 0 <= j < fresh.child@.len() implies fresh.child_ok(j) by {}
            assert forall|kk: T, p: u8, v: Seq<char>| #[trigger] node_has(fresh, kk, p, v) == node_has(orig, kk, p, v) by {
                assert((seq_has(fresh.child@, kk, p, v) || seq_has(old_child@, kk, p, v)) == seq_has(orig.child@, kk, p, v));
            }
        }
        *self = fresh;
    }

    /// Stores the pair that old slots `2 k` and `2 k + 1` held into slot `k`
    /// of a node one bit narrower.
    fn halve_slot(&mut self, k: usize, left: TrieNode<T>, right: TrieNode<T>)
        requires
            old(self).shape_ok(),
            old(self).counts_ok(),
            k < old(self).child@.len(),
            old(self).child@[k as int] is Empty,
            old(self).pos + old(self).bits + 1 <= T::width(),
            wf_node(left),
            wf_node(right),
            match left {
                TrieNode::Internal(b) => b.pos >= old(self).end() + 1,
                _ => true,
            },
            match right {
                TrieNode::Internal(b) => b.pos >= old(self).end() + 1,
                _ => true,
            },
            forall|kk: T, p: u8, v: Seq<char>|
                #[trigger] has_entry(left, kk, p, v) ==> kk.slice_at(old(self).pos as int, (old(self).bits + 1) as nat)
                    == 2 * k && agree(kk, old(self).key, 0, old(self).pos as int),
            forall|kk: T, p: u8, v: Seq<char>|
                #[trigger] has_entry(right, kk, p, v) ==> kk.slice_at(old(self).pos as int, (old(self).bits + 1) as nat)
                    == 2 * k + 1 && agree(kk, old(self).key, 0, old(self).pos as int),
        ensures
            final(self).key == old(self).key,
            final(self).pos == old(self).pos,
            final(self).bits == old(self).bits,
            final(self).shape_ok(),
            final(self).counts_ok(),
            final(self).child@.len() == old(self).child@.len(),
            forall|j: int| 0 <= j < old(self).child@.len() && j != k
                ==> #[trigger] final(self).child@[j] == old(self).child@[j],
            final(self).child_ok(k as int),
            forall|kk: T, p: u8, v: Seq<char>|
                #[trigger] seq_has(final(self).child@, kk, p, v) == (seq_has(old(self).child@, kk, p, v)
                    || has_entry(left, kk, p, v) || has_entry(right, kk, p, v)),
            final(self).empty_children + (if left is Empty && right is Empty {
                0int
            } else {
                1int
            }) >= old(self).empty_children,
            halved_slot(final(self).child@[k as int], left, right),
        decreases T::width() - old(self).pos, 1int,
    {
        let ghost s0 = self.child@;
        proof {
            T::lemma_width();
            assert forall|kk: T, p: u8, v: Seq<char>| #[trigger] has_entry(left, kk, p, v) implies kk.slice_at(self.pos as int, self.bits as nat) == k && !kk.bit(self.end()) by {
                T::lemma_slice_at(kk, self.pos as int, (self.bits + 1) as nat);
            }
            assert forall|kk: T, p: u8, v: Seq<char>| #[trigger] has_entry(right, kk, p, v) implies kk.slice_at(self.pos as int, self.bits as nat) == k && kk.bit(self.end()) by {
                T::lemma_slice_at(kk, self.pos as int, (self.bits + 1) as nat);
            }
            lemma_counts_update(s0, k as int, left, self.end());
            lemma_counts_update(s0, k as int, right, self.end());
        }
        if left.is_none() && right.is_none() {
            proof {
                assert forall|kk: T, p: u8, v: Seq<char>| #[trigger] seq_has(self.child@, kk, p, v) == (seq_has(s0, kk, p, v)
                    || has_entry(left, kk, p, v) || has_entry(right, kk, p, v)) by {}
            }
            return;
        }
        if left.is_none() || right.is_none() {
            let mut c = if left.is_none() { right } else { left };
            let ghost c0 = c;
            self.put_child(k, &mut c);
            proof {
                lemma_seq_has_update(s0, k as int, c0);
                assert(self.child@ =~= s0.update(k as int, c0));
            }
            return;
        }
        let mut left = left;
        let mut right = right;
        let ghost l0 = left;
        let ghost r0 = right;
        let lk = left.key();
        let mut binary = InternalNode::new(lk, self.pos + self.bits, 1);
        proof {
            reveal_with_fuel(pow2, 2);
        }
        binary.put_child(0, &mut left);
        binary.put_child(1, &mut right);
        proof {
            let (p0, v0) = lemma_key_present(l0);
            lemma_slice_one(lk, self.end());
            assert forall|kk: T, p: u8, v: Seq<char>|
                #![trigger has_entry(l0, kk, p, v)]
                #![trigger has_entry(r0, kk, p, v)]
                has_entry(l0, kk, p, v) || has_entry(r0, kk, p, v) implies agree(kk, lk, 0, self.end()) by {
                lemma_slice_agree(kk, lk, self.pos as int, self.bits as nat);
                assert forall|j: int| 0 <= j < self.end() implies #[trigger] kk.bit(j) == lk.bit(j) by {
                    if j < self.pos {
                        assert(kk.bit(j) == self.key.bit(j));
                        assert(lk.bit(j) == self.key.bit(j));
                    }
                }
            }
            assert(binary.child@[0] == l0);
            assert(binary.child@[1] == r0);
            assert forall|i: int| #![trigger binary.child@[i]] 0 <= i < binary.child@.len() implies binary.child_ok(i) by {
                assert forall|kk: T, p: u8, v: Seq<char>| #[trigger] has_entry(binary.child@[i], kk, p, v) implies kk.slice_at(binary.pos as int, binary.bits as nat) == i
                    && agree(kk, binary.key, 0, binary.pos as int) by {
                    lemma_slice_one(kk, self.end());
                    if i == 0 {
                        assert(has_entry(l0, kk, p, v));
                    } else {
                        assert(has_entry(r0, kk, p, v));
                    }
                }
            }
            lemma_seq_has(binary.child@, lk, p0, v0);
            assert(has_entry(binary.child@[0], lk, p0, v0));
            assert(node_has(binary, lk, p0, v0));
            assert forall|kk: T, p: u8, v: Seq<char>| #[trigger] node_has(binary, kk, p, v) == (has_entry(l0, kk, p, v) || has_entry(r0, kk, p, v)) by {
                lemma_seq_has(binary.child@, kk, p, v);
                if node_has(binary, kk, p, v) {
                    let i = choose|i: int| 0 <= i < binary.child@.len() && #[trigger] has_entry(binary.child@[i], kk, p, v);
                    assert(i == 0 || i == 1);
                }
                if has_entry(r0, kk, p, v) {
                    assert(has_entry(binary.child@[1], kk, p, v));
                }
            }
        }
        let mut r = binary.resize();
        let ghost rr = r;
        proof {
            lemma_counts_update(s0, k as int, rr, self.end());
        }
        self.put_child(k, &mut r);
        proof {
            lemma_seq_has_update(s0, k as int, rr);
            assert(self.child@ =~= s0.update(k as int, rr));
        }
    }
}

/// A node whose key differs from `key` somewhere in `[pos, limit)`, where
/// `limit` is its branching position (the width for a leaf).
pub open spec fn diverges<T: BitVec>(n: TrieNode<T>, key: T, pos: int) -> bool {
    exists|i: int| pos <= i < branch_limit(n) && #[trigger] key.bit(i) != node_key(n).bit(i)
}

/// Where a node branches; the width for a leaf.
pub open spec fn branch_limit<T: BitVec>(n: TrieNode<T>) -> int {
    match n {
        TrieNode::Internal(b) => b.pos as int,
        _ => T::width() as int,
    }
}

/// What `put(key, prefix, value)` does: with an entry under `key` already
/// there, nothing changes, the tree included; otherwise the entry is added and the count grows
/// by one.
pub open spec fn put_result<T: BitVec>(old: LPCTrie<T>, new: LPCTrie<T>, key: T, prefix: u8, value: Seq<char>) -> bool {
    if old.has_key(key) {
        &&& new.size == old.size
        &&& new.trie == old.trie
        &&& forall|k: T, p: u8, v: Seq<char>| #[trigger] new.holds(k, p, v) == old.holds(k, p, v)
    } else {
        &&& new.size == old.size + 1
        &&& forall|k: T, p: u8, v: Seq<char>|
            #[trigger] new.holds(k, p, v) == (old.holds(k, p, v) || (k == key && p == prefix && v == value))
    }
}

/// Putting the same entry twice counts it once and leaves the trie as one
/// put left it.
pub proof fn law_put_twice<T: BitVec>(t0: LPCTrie<T>, t1: LPCTrie<T>, t2: LPCTrie<T>, key: T, prefix: u8, value: Seq<char>)
    requires
        put_result(t0, t1, key, prefix, value),
        put_result(t1, t2, key, prefix, value),
    ensures
        t1.size == t0.size + if t0.has_key(key) {
            0int
        } else {
            1int
        },
        t2.size == t1.size,
        t2 == t1,
        forall|k: T, p: u8, v: Seq<char>| #[trigger] t2.holds(k, p, v) == t1.holds(k, p, v),
{
    if t0.has_key(key) {
        let (p, v) = choose|p: u8, v: Seq<char>| #[trigger] t0.holds(key, p, v);
        assert(t1.holds(key, p, v));
    } else {
        assert(t1.holds(key, prefix, value));
    }
    assert(t1.has_key(key));
}

/// The lookup of a stored key ends on an entry with that key.
proof fn lemma_reach_own_key<T: BitVec>(n: TrieNode<T>, k: T, p: u8, v: Seq<char>)
    requires
        wf_node(n),
        has_entry(n, k, p, v),
    ensures
        reach(n, k) is Some,
        (reach(n, k)->0).0 == k,
    decreases n,
{
    if let TrieNode::Internal(b) = n {
        lemma_seq_has(b.child@, k, p, v);
        let i = choose|i: int| 0 <= i < b.child@.len() && #[trigger] has_entry(b.child@[i], k, p, v);
        lemma_child(*b, i);
        lemma_reach_own_key(b.child@[i], k, p, v);
    }
}

/// The entry a lookup ends on is stored.
proof fn lemma_reach_stored<T: BitVec>(n: TrieNode<T>, q: T)
    requires
        wf_node(n),
        reach(n, q) is Some,
    ensures
        has_entry(n, (reach(n, q)->0).0, (reach(n, q)->0).1, (reach(n, q)->0).2),
    decreases n,
{
    if let TrieNode::Internal(b) = n {
        let i = q.slice_at(b.pos as int, b.bits as nat) as int;
        lemma_child(*b, i);
        lemma_reach_stored(b.child@[i], q);
        let e = reach(n, q)->0;
        lemma_seq_has(b.child@, e.0, e.1, e.2);
    }
}

/// Every internal node below `n` branches on bits before position `p`.
pub open spec fn branches_within<T: BitVec>(n: TrieNode<T>, p: int) -> bool
    decreases n,
{
    match n {
        TrieNode::Internal(b) => node_within(*b, p),
        _ => true,
    }
}

/// The node and every internal node below it branch on bits before `p`.
pub open spec fn node_within<T: BitVec>(b: InternalNode<T>, p: int) -> bool
    decreases b,
{
    &&& b.pos + b.bits <= p
    &&& forall|i: int|
        #![trigger b.child@[i]]
        0 <= i < b.child@.len() ==> branches_within(b.child@[i], p)
}

/// Every bit of `k` from position `p` on is clear.
pub open spec fn zero_from<T: BitVec>(k: T, p: int) -> bool {
    forall|i: int| p <= i ==> !#[trigger] k.bit(i)
}

/// Equal bits make equal fields.
proof fn lemma_agree_slice<T: BitVec>(x: T, y: T, o: int, n: nat)
    requires
        agree(x, y, o, o + n),
    ensures
        x.slice_at(o, n) == y.slice_at(o, n),
    decreases n,
{
    T::lemma_slice_at(x, o, n);
    T::lemma_slice_at(y, o, n);
    if n > 0 {
        lemma_agree_slice(x, y, o, (n - 1) as nat);
    }
}

/// A key inside the block of a stored entry is led to that entry when no
/// node branches at or past the block's prefix length.
proof fn lemma_reach_block<T: BitVec>(n: TrieNode<T>, bound: int, k: T, p: u8, v: Seq<char>, q: T)
    requires
        wf_node(n),
        branches_within(n, bound),
        bound <= p,
        has_entry(n, k, p, v),
        agree(k, q, 0, p as int),
    ensures
        reach(n, q) == Some((k, p, v)),
    decreases n,
{
    if let TrieNode::Internal(b) = n {
        lemma_seq_has(b.child@, k, p, v);
        let i = choose|i: int| 0 <= i < b.child@.len() && #[trigger] has_entry(b.child@[i], k, p, v);
        lemma_child(*b, i);
        lemma_agree_slice(k, q, b.pos as int, b.bits as nat);
        assert(branches_within(b.child@[i], bound));
        lemma_reach_block(b.child@[i], bound, k, p, v, q);
    }
}

/// `get` finds every key inside the block of a stored entry, as long as no
/// node of the trie branches at or past `bound`, and `bound` is within the
/// entry's prefix length.
pub proof fn law_get_inside_block<T: BitVec>(t: LPCTrie<T>, bound: int, k: T, p: u8, v: Seq<char>, q: T)
    requires
        t.wf(),
        branches_within(t.trie, bound),
        bound <= p,
        t.holds(k, p, v),
        prefix_match(k, p as int, q),
    ensures
        lookup(t.trie, q),
{
    lemma_reach_block(t.trie, bound, k, p, v, q);
}

/// Every stored key is found by `get`.
pub proof fn law_get_stored_key<T: BitVec>(t: LPCTrie<T>, k: T, p: u8, v: Seq<char>)
    requires
        t.wf(),
        t.holds(k, p, v),
    ensures
        lookup(t.trie, k),
{
    lemma_reach_own_key(t.trie, k, p, v);
}

/// `get` answers true only for a key inside the block of some stored entry:
/// a key outside every stored block is not found.
pub proof fn law_get_inside_stored_block<T: BitVec>(t: LPCTrie<T>, q: T)
    requires
        t.wf(),
        lookup(t.trie, q),
    ensures
        exists|k: T, p: u8, v: Seq<char>| #[trigger] t.holds(k, p, v) && prefix_match(k, p as int, q),
{
    lemma_reach_stored(t.trie, q);
    let e = reach(t.trie, q)->0;
    assert(t.holds(e.0, e.1, e.2));
}

impl<T: BitVec> LPCTrie<T> {
    /// Puts `node` and a new leaf for `key` under a new node that branches on
    /// the first bit where they differ.
    fn join(node: TrieNode<T>, key: T, prefix: u8, value: String, pos: u32) -> (r: TrieNode<T>)
        requires
            wf_node(node),
            !(node is Empty),
            prefix <= T::width(),
            pos <= T::width(),
            match node {
                TrieNode::Internal(b) => b.pos >= pos,
                _ => true,
            },
            forall|k: T, p: u8, v: Seq<char>| #[trigger] has_entry(node, k, p, v) ==> agree(k, key, 0, pos as int),
            diverges(node, key, pos as int),
        ensures
            wf_node(r),
            forall|k: T, p: u8, v: Seq<char>|
                #[trigger] has_entry(r, k, p, v) == (has_entry(node, k, p, v) || (k == key && p == prefix && v == value@)),
            match r {
                TrieNode::Internal(b) => b.pos >= pos,
                _ => true,
            },
            !(r is Empty),
    {
        proof {
            T::lemma_width();
            lemma_entries_agree(node);
        }
        let nk = node.key();
        let m = key.mismatch(pos, &nk);
        let ghost lim = branch_limit(node);
        proof {
            let i = choose|i: int| pos <= i < lim && #[trigger] key.bit(i) != nk.bit(i);
            assert(m <= i);
            let (p0, v0) = lemma_key_present(node);
            assert(agree(nk, key, 0, pos as int));
            lemma_slice_one(key, m as int);
            lemma_slice_one(nk, m as int);
        }
        let mut inode = InternalNode::new(nk, m, 1);
        let mut leaf = TrieNode::Leaf(Box::new(Leaf { key, prefix, value }));
        let mut node = node;
        let ghost n0 = node;
        let ghost l0 = leaf;
        proof {
            reveal_with_fuel(pow2, 2);
        }
        let bit = key.extract_bits(m, 1);
        if bit.is_empty() {
            inode.put_child(0, &mut leaf);
            inode.put_child(1, &mut node);
        } else {
            inode.put_child(0, &mut node);
            inode.put_child(1, &mut leaf);
        }
        proof {
            let (p0, v0) = lemma_key_present(n0);
            assert forall|k: T, p: u8, v: Seq<char>| #[trigger] has_entry(n0, k, p, v) implies k.bit(m as int) == nk.bit(m as int) && agree(k, nk, 0, m as int) by {}
            assert forall|i: int| #![trigger inode.child@[i]] 0 <= i < inode.child@.len() implies inode.child_ok(i) by {
                assert forall|k: T, p: u8, v: Seq<char>| #[trigger] has_entry(inode.child@[i], k, p, v) implies k.slice_at(m as int, 1) == i && agree(k, nk, 0, m as int) by {
                    lemma_slice_one(k, m as int);
                    if has_entry(n0, k, p, v) {
                    } else {
                        assert(has_entry(l0, k, p, v));
                        assert(k == key);
                    }
                }
            }
            assert forall|k: T, p: u8, v: Seq<char>| #[trigger] node_has(inode, k, p, v) == (has_entry(n0, k, p, v) || has_entry(l0, k, p, v)) by {
                lemma_seq_has(inode.child@, k, p, v);
                if node_has(inode, k, p, v) {
                    let i = choose|i: int| 0 <= i < inode.child@.len() && #[trigger] has_entry(inode.child@[i], k, p, v);
                    assert(i == 0 || i == 1);
                }
                if has_entry(n0, k, p, v) || has_entry(l0, k, p, v) {
                    assert(has_entry(inode.child@[0], k, p, v) || has_entry(inode.child@[1], k, p, v));
                }
            }
            assert(node_has(inode, nk, p0, v0));
            assert(has_entry(l0, key, prefix, value@));
        }
        let r = inode.resize();
        proof {
            assert(has_entry(r, key, prefix, value@));
        }
        r
    }

    /// Inserts below `trie`, whose entries share the first `pos` bits of
    /// `key`; reports whether an entry with that key was already there, in
    /// which case nothing changes.
    fn insert_impl(trie: TrieNode<T>, key: T, prefix: u8, value: String, pos: u32) -> (r: (TrieNode<T>, bool))
        requires
            wf_node(trie),
            prefix <= T::width(),
            pos <= T::width(),
            match trie {
                TrieNode::Internal(b) => b.pos >= pos,
                _ => true,
            },
            forall|k: T, p: u8, v: Seq<char>| #[trigger] has_entry(trie, k, p, v) ==> agree(k, key, 0, pos as int),
        ensures
            wf_node(r.0),
            r.1 == exists|p: u8, v: Seq<char>| #[trigger] has_entry(trie, key, p, v),
            forall|k: T, p: u8, v: Seq<char>|
                #[trigger] has_entry(r.0, k, p, v) == (has_entry(trie, k, p, v) || (!r.1 && k == key && p == prefix && v == value@)),
            match r.0 {
                TrieNode::Internal(b) => b.pos >= pos,
                _ => true,
            },
            !(r.0 is Empty),
        decreases trie,
    {
        proof {
            T::lemma_width();
            lemma_entries_agree(trie);
        }
        let ghost t0 = trie;
        match trie {
            TrieNode::Internal(mut inode) => {
                let ghost b0 = *inode;
                if inode.key.sub_equal(pos, inode.pos - pos, &key) {
                    proof {
                        let (p0, v0) = choose|p: u8, v: Seq<char>| #[trigger] node_has(b0, b0.key, p, v);
                        assert(has_entry(t0, b0.key, p0, v0));
                        lemma_slice_bound(key, inode.pos as int, inode.bits as nat);
                        lemma_pow2_le(inode.bits as nat, MAX_BITS as nat);
                    }
                    let idx = key.extract_bits(inode.pos, inode.bits).safe_to_usize();
                    proof {
                        lemma_child(b0, idx as int);
                    }
                    let mut c = TrieNode::Empty;
                    inode.put_child(idx, &mut c);
                    let ghost c0 = c;
                    proof {
                        assert(c0 == b0.child@[idx as int]);
                        assert forall|k: T, p: u8, v: Seq<char>| #[trigger] has_entry(c0, k, p, v) implies agree(k, key, 0, inode.pos + inode.bits) by {
                            lemma_slice_agree(k, key, inode.pos as int, inode.bits as nat);
                            assert forall|j: int| 0 <= j < inode.pos + inode.bits implies #[trigger] k.bit(j) == key.bit(j) by {
                                if j < pos {
                                    assert(b0.key.bit(j) == key.bit(j));
                                    assert(k.bit(j) == b0.key.bit(j));
                                } else if j < inode.pos {
                                    assert(k.bit(j) == b0.key.bit(j));
                                }
                            }
                        }
                    }
                    let (mut n, found) = Self::insert_impl(c, key, prefix, value, inode.pos + inode.bits);
                    let ghost n0 = n;
                    let ghost b1 = *inode;
                    inode.put_child(idx, &mut n);
                    proof {
                        assert(inode.child@ =~= b0.child@.update(idx as int, n0));
                        assert forall|i: int| #![trigger inode.child@[i]] 0 <= i < inode.child@.len() implies inode.child_ok(i) by {
                            if i != idx {
                                lemma_child(b0, i);
                                lemma_child_ok_same(b0, *inode, i);
                            } else {
                                assert forall|k: T, p: u8, v: Seq<char>| #[trigger] has_entry(n0, k, p, v) implies k.slice_at(inode.pos as int, inode.bits as nat) == i && agree(k, inode.key, 0, inode.pos as int) by {
                                    if !has_entry(c0, k, p, v) {
                                        assert(k == key);
                                        assert forall|j: int| 0 <= j < inode.pos implies #[trigger] k.bit(j) == inode.key.bit(j) by {
                                            if j < pos {
                                                let (p0, v0) = choose|p: u8, v: Seq<char>| #[trigger] node_has(b0, b0.key, p, v);
                                                assert(has_entry(t0, b0.key, p0, v0));
                                            }
                                        }
                                    }
                                }
                            }
                        }
                        lemma_seq_has_update(b0.child@, idx as int, n0);
                        assert forall|k: T, p: u8, v: Seq<char>| #[trigger] node_has(*inode, k, p, v) == (has_entry(t0, k, p, v) || (!found && k == key && p == prefix && v == value@)) by {
                            lemma_seq_has(b0.child@, k, p, v);
                            lemma_seq_has(inode.child@, k, p, v);
                            assert(inode.child@[idx as int] == n0);
                            if has_entry(c0, k, p, v) {
                                assert(has_entry(b0.child@[idx as int], k, p, v));
                                assert(has_entry(n0, k, p, v));
                            }
                            if has_entry(n0, k, p, v) {
                                assert(has_entry(inode.child@[idx as int], k, p, v));
                            }
                        }
                        assert(found == exists|p: u8, v: Seq<char>| #[trigger] has_entry(t0, key, p, v)) by {
                            if exists|p: u8, v: Seq<char>| #[trigger] has_entry(t0, key, p, v) {
                                let (p1, v1) = choose|p: u8, v: Seq<char>| #[trigger] has_entry(t0, key, p, v);
                                lemma_seq_has(b0.child@, key, p1, v1);
                                let j = choose|j: int| 0 <= j < b0.child@.len() && #[trigger] has_entry(b0.child@[j], key, p1, v1);
                                lemma_child(b0, j);
                                assert(has_entry(c0, key, p1, v1));
                            }
                            if found {
                                let (p1, v1) = choose|p: u8, v: Seq<char>| #[trigger] has_entry(c0, key, p, v);
                                lemma_seq_has(b0.child@, key, p1, v1);
                                assert(has_entry(t0, key, p1, v1));
                            }
                        }
                        let (p0, v0) = choose|p: u8, v: Seq<char>| #[trigger] node_has(b0, b0.key, p, v);
                        assert(node_has(*inode, inode.key, p0, v0));
                    }
                    let ghost b2 = *inode;
                    let r = (*inode).resize();
                    proof {
                        assert(found == exists|p: u8, v: Seq<char>| #[trigger] has_entry(t0, key, p, v));
                        let (p0, v0) = choose|p: u8, v: Seq<char>| #[trigger] node_has(b0, b0.key, p, v);
                        assert(has_entry(t0, b0.key, p0, v0));
                        assert(node_has(b2, b0.key, p0, v0));
                        assert(has_entry(r, b0.key, p0, v0));
                    }
                    (r, found)
                } else {
                    proof {
                        assert(diverges(t0, key, pos as int));
                        assert forall|p: u8, v: Seq<char>| !#[trigger] has_entry(t0, key, p, v) by {
                            if has_entry(t0, key, p, v) {
                                let i = choose|i: int| pos <= i < b0.pos && #[trigger] key.bit(i) != b0.key.bit(i);
                                assert(agree(key, b0.key, 0, b0.pos as int));
                            }
                        }
                    }
                    proof {
                        let (p0, v0) = lemma_key_present(t0);
                        assert(has_entry(t0, b0.key, p0, v0));
                    }
                    (Self::join(TrieNode::Internal(inode), key, prefix, value, pos), false)
                }
            },
            TrieNode::Leaf(l) => {
                if l.key.same(&key) {
                    proof {
                        assert(has_entry(t0, key, l.prefix, l.value@));
                    }
                    (TrieNode::Leaf(l), true)
                } else {
                    proof {
                        assert(has_entry(t0, l.key, l.prefix, l.value@));
                        if !diverges(t0, key, pos as int) {
                            assert forall|i: int| 0 <= i < T::width() implies #[trigger] key.bit(i) == l.key.bit(i) by {
                                if i >= pos {
                                    assert(!(key.bit(i) != node_key(t0).bit(i)));
                                }
                            }
                            T::lemma_bits_determine(key, l.key);
                        }
                        assert(!exists|p: u8, v: Seq<char>| #[trigger] has_entry(t0, key, p, v));
                    }
                    proof {
                        assert(has_entry(t0, l.key, l.prefix, l.value@));
                    }
                    (Self::join(TrieNode::Leaf(l), key, prefix, value, pos), false)
                }
            },
            TrieNode::Empty => {
                (TrieNode::Leaf(Box::new(Leaf { key, prefix, value })), false)
            },
        }
    }

    /// Adds the entry `key/prefix` with `value`, unless an entry with the
    /// same key is already there; the count grows by one exactly when the
    /// entry is added.
    pub fn put(&mut self, key: T, prefix: u8, value: String)
        requires
            old(self).wf(),
            prefix <= T::width(),
            old(self).size < u64::MAX,
        ensures
            final(self).wf(),
            put_result(*old(self), *final(self), key, prefix, value@),
    {
        if self.contains_key(key) {
            return;
        }
        let mut trie = TrieNode::Empty;
        std::mem::swap(&mut self.trie, &mut trie);
        let ghost t0 = trie;
        let (t, found) = Self::insert_impl(trie, key, prefix, value, 0);
        self.trie = t;
        if !found {
            self.size = self.size + 1;
        }
        proof {
            assert(t0 == old(self).trie);
            if found {
                let (p, v) = choose|p: u8, v: Seq<char>| #[trigger] has_entry(t0, key, p, v);
                assert(old(self).holds(key, p, v));
            }
            if old(self).has_key(key) {
                let (p, v) = choose|p: u8, v: Seq<char>| #[trigger] old(self).holds(key, p, v);
                assert(has_entry(t0, key, p, v));
            }
            assert(found == old(self).has_key(key));
            if found {
                assert(self.keys() =~= old(self).keys()) by {
                    assert forall|k: T| #[trigger] self.has_key(k) == old(self).has_key(k) by {
                        if self.has_key(k) {
                            let (p, v) = choose|p: u8, v: Seq<char>| #[trigger] self.holds(k, p, v);
                            assert(old(self).holds(k, p, v));
                        }
                        if old(self).has_key(k) {
                            let (p, v) = choose|p: u8, v: Seq<char>| #[trigger] old(self).holds(k, p, v);
                            assert(self.holds(k, p, v));
                        }
                    }
                }
            } else {
                assert(self.keys() =~= old(self).keys().insert(key)) by {
                    assert forall|k: T| #[trigger] self.has_key(k) == (old(self).has_key(k) || k == key) by {
                        if self.has_key(k) {
                            let (p, v) = choose|p: u8, v: Seq<char>| #[trigger] self.holds(k, p, v);
                            assert(old(self).holds(k, p, v) || k == key);
                        }
                        if old(self).has_key(k) {
                            let (p, v) = choose|p: u8, v: Seq<char>| #[trigger] old(self).holds(k, p, v);
                            assert(self.holds(k, p, v));
                        }
                        if k == key {
                            assert(self.holds(key, prefix, value@));
                        }
                    }
                }
                assert(!old(self).keys().contains(key));
            }
        }
    }
}

impl<T: BitVec> TrieNode<T> {
    pub fn is_none(&self) -> (r: bool)
        ensures
            r == (*self is Empty),
    {
        match self {
            TrieNode::Empty => true,
            _ => false,
        }
    }

    pub fn is_some(&self) -> (r: bool)
        ensures
            r == !(*self is Empty),
    {
        !self.is_none()
    }

    /// The key of a leaf or internal node; zero for an empty slot.
    pub fn key(&self) -> (r: T)
        ensures
            match *self {
                TrieNode::Internal(b) => r == b.key,
                TrieNode::Leaf(l) => r == l.key,
                TrieNode::Empty => r.value() == 0,
            },
    {
        match self {
            TrieNode::Internal(n) => n.key,
            TrieNode::Leaf(l) => l.key,
            TrieNode::Empty => T::empty(),
        }
    }
}

} // verus!
