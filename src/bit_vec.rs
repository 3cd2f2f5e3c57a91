use vstd::prelude::*;
use vstd::string::StringSliceAdditionalSpecFns;

verus! {

/// `2^n`.
pub open spec fn pow2(n: nat) -> nat
    decreases n,
{
    if n == 0 {
        1
    } else {
        2 * pow2((n - 1) as nat)
    }
}

/// Bits `[lo, hi)` of `a` and `b` coincide (bit 0 is the most significant).
pub open spec fn agree<K: BitVec>(a: K, b: K, lo: int, hi: int) -> bool {
    forall|i: int|
        #![trigger a.bit(i)]
        #![trigger b.bit(i)]
        lo <= i < hi ==> a.bit(i) == b.bit(i)
}

/// `k` agrees with `q` on its first `p` bits: `q` lies in the block `k/p`.
pub open spec fn prefix_match<K: BitVec>(k: K, p: int, q: K) -> bool {
    agree(k, q, 0, p)
}

/// Position of the most significant set bit, counted from bit 0 (the top);
/// the width when no bit is set.
pub trait MSB: BitVec {
    fn msb(&self) -> (r: u32)
        ensures
            r <= Self::width(),
            forall|i: int| 0 <= i < r ==> !#[trigger] self.bit(i),
            r < Self::width() ==> self.bit(r as int),
    ;
}

/// A fixed-width unsigned bit vector addressed from the most significant bit.
pub trait BitVec: Sized + Copy {
    /// Number of bits.
    spec fn width() -> nat;

    /// Bit `i`, where bit 0 is the most significant; false outside the width.
    spec fn bit(&self, i: int) -> bool;

    /// The unsigned number held.
    spec fn value(&self) -> nat;

    /// The number spelled by the `n` bits that start at position `o`, most
    /// significant first; positions past the width read as zero.
    spec fn slice_at(&self, o: int, n: nat) -> nat;

    proof fn lemma_slice_at(k: Self, o: int, n: nat)
        ensures
            k.slice_at(o, 0) == 0,
            n > 0 ==> k.slice_at(o, n) == 2 * k.slice_at(o, (n - 1) as nat) + if k.bit(o + n - 1) {
                1nat
            } else {
                0nat
            },
    ;

    proof fn lemma_width()
        ensures
            Self::width() == 32 || Self::width() == 64 || Self::width() == 128,
    ;

    /// Two values with the same bits are the same value.
    proof fn lemma_bits_determine(a: Self, b: Self)
        requires
            forall|i: int| 0 <= i < Self::width() ==> #[trigger] a.bit(i) == b.bit(i),
        ensures
            a == b,
    ;

    /// The number of bits.
    fn width_u32() -> (r: u32)
        ensures
            r == Self::width(),
    ;

    /// The all-zero value.
    fn empty() -> (r: Self)
        ensures
            r.value() == 0,
    ;

    /// The `bits` bits from `offset` on are the same in `self` and `other`;
    /// true when `bits` is zero or `offset` is past the width.
    fn sub_equal(&self, offset: u32, bits: u32, other: &Self) -> (r: bool)
        ensures
            r == forall|i: int|
                offset <= i < offset + bits ==> #[trigger] self.bit(i) == other.bit(i),
    ;

    /// The `bits` bits from `offset` on, as a number.
    fn extract_bits(&self, offset: u32, bits: u32) -> (r: Self)
        requires
            bits <= Self::width(),
        ensures
            r.value() == self.slice_at(offset as int, bits as nat),
    ;

    /// The first position at or after `offset` where `self` and `other`
    /// differ; the width when there is none.
    fn mismatch(&self, offset: u32, other: &Self) -> (r: u32)
        ensures
            r <= Self::width(),
            offset < Self::width() ==> offset <= r,
            forall|i: int| offset <= i < r ==> #[trigger] self.bit(i) == other.bit(i),
            r < Self::width() ==> self.bit(r as int) != other.bit(r as int),
    ;

    fn safe_to_usize(&self) -> (r: usize)
        requires
            self.value() <= usize::MAX,
        ensures
            r == self.value(),
    ;

    /// Reads `'1'` bytes as set bits, from the top.
    fn from_bit_str(s: &str) -> (r: Self)
        ensures
            forall|i: int|
                0 <= i < Self::width() ==> #[trigger] r.bit(i) == (i < s.spec_bytes().len()
                    && s.spec_bytes()[i] == 49u8),
    ;

    fn is_empty(&self) -> (r: bool)
        ensures
            r == (self.value() == 0),
    ;

    /// Equality of values.
    fn same(&self, other: &Self) -> (r: bool)
        ensures
            r == (*self == *other),
    ;
}

impl BitVec for u32 {
    open spec fn width() -> nat {
        32
    }

    fn width_u32() -> (r: u32) {
        32
    }

    open spec fn bit(&self, i: int) -> bool {
        0 <= i < 32 && (*self >> ((31 - i) as u32)) % 2 == 1
    }

    open spec fn value(&self) -> nat {
        *self as nat
    }

    open spec fn slice_at(&self, o: int, n: nat) -> nat
        decreases n,
    {
        if n == 0 {
            0
        } else {
            2 * self.slice_at(o, (n - 1) as nat) + if self.bit(o + n - 1) {
                1nat
            } else {
                0nat
            }
        }
    }

    proof fn lemma_slice_at(k: Self, o: int, n: nat) {
    }

    proof fn lemma_width() {
    }

    proof fn lemma_bits_determine(a: Self, b: Self) {
        let x = a ^ b;
        if x != 0 {
            vstd::std_specs::bits::axiom_u32_leading_zeros(x);
            let r = vstd::std_specs::bits::u32_leading_zeros(x);
            let s = (31 - r) as u32;
            assert(((a ^ b) >> s) & 1u32 != 0u32 ==> (a >> s) % 2 != (b >> s) % 2)
                by (bit_vector);
            assert((a >> s) % 2 == 1 || (a >> s) % 2 == 0);
            assert(a.bit(r as int) != b.bit(r as int));
        } else {
            assert(a ^ b == 0u32 ==> a == b) by (bit_vector);
        }
    }

    fn empty() -> (r: Self) {
        0
    }

    fn sub_equal(&self, offset: u32, bits: u32, other: &Self) -> (r: bool) {
        if bits == 0 || offset >= 32 {
            return true;
        }
        let m = self.mismatch(offset, other);
        m as u64 >= offset as u64 + bits as u64 || m == 32
    }

    fn extract_bits(&self, offset: u32, bits: u32) -> (r: Self) {
        if bits == 0 {
            return 0;
        }
        if offset >= 32 {
            proof {
                lemma_slice_past_u32(*self, offset as int, bits as nat);
            }
            return 0;
        }
        let r = (*self << offset) >> (32 - bits);
        proof {
            lemma_extract_u32(*self, offset, bits);
        }
        r
    }

    fn mismatch(&self, offset: u32, other: &Self) -> (r: u32) {
        if offset >= 32 {
            return 32;
        }
        let a = *self;
        let b = *other;
        let x = ((a ^ b) << offset) >> offset;
        let r = x.msb();
        proof {
            assert forall|i: int| 0 <= i < 32 implies #[trigger] x.bit(i) == (i >= offset && a.bit(i)
                != b.bit(i)) by {
                let s = (31 - i) as u32;
                assert(s < 32 && offset < 32 ==> ((((((a ^ b) << offset) >> offset) >> s) % 2 == 1)
                    <==> (s + offset < 32 && (a >> s) % 2 != (b >> s) % 2))) by (bit_vector);
            }
            assert forall|i: int| offset <= i < r implies #[trigger] a.bit(i) == b.bit(i) by {
                assert(!x.bit(i));
            }
            if r < 32 {
                assert(x.bit(r as int));
            }
        }
        r
    }

    fn safe_to_usize(&self) -> (r: usize) {
        *self as usize
    }

    fn from_bit_str(s: &str) -> (r: Self) {
        let bytes = s.as_bytes();
        let mut data: u32 = 0;
        let mut i: usize = 0;
        proof {
            assert forall|j: int| 0 <= j < 32 implies !#[trigger] data.bit(j) by {
                lemma_bits_u32(0, (31 - j) as u32);
            }
        }
        while i < bytes.len() && i < 32
            invariant
                bytes@ == s.spec_bytes(),
                i <= 32,
                i <= bytes@.len(),
                forall|j: int|
                    0 <= j < 32 ==> #[trigger] data.bit(j) == (j < i && bytes@[j] == 49u8),
            decreases 32 - i,
        {
            if bytes[i] == 49u8 {
                let old_data = data;
                data = data | (1u32 << (31 - i as u32));
                proof {
                    let t = (31 - i) as u32;
                    assert forall|j: int| 0 <= j < 32 implies #[trigger] data.bit(j) == (old_data.bit(j)
                        || j == i) by {
                        let s = (31 - j) as u32;
                        assert(t < 32 && s < 32 ==> ((((old_data | (1u32 << t)) >> s) % 2 == 1)
                            <==> (((old_data >> s) % 2 == 1) || s == t))) by (bit_vector);
                    }
                }
            }
            i = i + 1;
        }
        data
    }

    fn is_empty(&self) -> (r: bool) {
        *self == 0
    }

    fn same(&self, other: &Self) -> (r: bool) {
        *self == *other
    }
}

impl MSB for u32 {
    fn msb(&self) -> (r: u32) {
        let x = *self;
        let r = x.leading_zeros();
        proof {
            vstd::std_specs::bits::axiom_u32_leading_zeros(x);
            assert forall|i: int| 0 <= i < r implies !#[trigger] x.bit(i) by {
                let j = (31 - i) as u32;
                assert((x >> j) & 1u32 == 0u32);
                lemma_bits_u32(x >> j, 0);
            }
            if r < 32 {
                lemma_bits_u32(x >> (31 - r) as u32, 0);
            }
        }
        r
    }
}

/// Low-bit and shift facts used by the proofs below.
proof fn lemma_bits_u32(y: u32, s: u32)
    by (bit_vector)
    ensures
        (y & 1u32 != 0u32) == (y % 2 == 1),
        0u32 >> s == 0u32,
{
}

/// One more bit at the bottom of an extracted field.
proof fn lemma_extract_step_u32(x: u32, o: u32, n: u32)
    by (bit_vector)
    requires
        o < 32,
        2 <= n <= 32,
    ensures
        ((x << o) >> (32 - n) as u32) / 2 == (x << o) >> (33 - n) as u32,
        o + n <= 32 ==> ((x << o) >> (32 - n) as u32) % 2 == (x >> (32 - o - n) as u32) % 2,
        o + n > 32 ==> ((x << o) >> (32 - n) as u32) % 2 == 0,
{
}

/// `(x << o) >> (32 - n)` spells the `n` bits of `x` from `o` on.
proof fn lemma_extract_u32(x: u32, o: u32, n: u32)
    requires
        o < 32,
        1 <= n <= 32,
    ensures
        ((x << o) >> (32 - n) as u32) as nat == x.slice_at(o as int, n as nat),
    decreases n,
{
    if n == 1 {
        assert(o < 32 ==> (x << o) >> 31u32 == (x >> (31u32 - o) as u32) % 2) by (bit_vector);
        assert(x.slice_at(o as int, 0) == 0);
    } else {
        lemma_extract_u32(x, o, (n - 1) as u32);
        lemma_extract_step_u32(x, o, n);
        let y2 = (x << o) >> (32 - n) as u32;
        assert(y2 == 2 * (y2 / 2) + y2 % 2);
        assert((x << o) >> (32 - (n - 1) as u32) as u32 == (x << o) >> (33 - n) as u32);
    }
}

/// Past the width every slice is zero.
proof fn lemma_slice_past_u32(x: u32, o: int, n: nat)
    requires
        o >= 32,
    ensures
        x.slice_at(o, n) == 0,
    decreases n,
{
    if n > 0 {
        lemma_slice_past_u32(x, o, (n - 1) as nat);
    }
}


impl BitVec for u64 {
    open spec fn width() -> nat {
        64
    }

    fn width_u32() -> (r: u32) {
        64
    }

    open spec fn bit(&self, i: int) -> bool {
        0 <= i < 64 && (*self >> ((63 - i) as u64)) % 2 == 1
    }

    open spec fn value(&self) -> nat {
        *self as nat
    }

    open spec fn slice_at(&self, o: int, n: nat) -> nat
        decreases n,
    {
        if n == 0 {
            0
        } else {
            2 * self.slice_at(o, (n - 1) as nat) + if self.bit(o + n - 1) {
                1nat
            } else {
                0nat
            }
        }
    }

    proof fn lemma_slice_at(k: Self, o: int, n: nat) {
    }

    proof fn lemma_width() {
    }

    proof fn lemma_bits_determine(a: Self, b: Self) {
        let x = a ^ b;
        if x != 0 {
            vstd::std_specs::bits::axiom_u64_leading_zeros(x);
            let r = vstd::std_specs::bits::u64_leading_zeros(x);
            let s = (63 - r) as u64;
            assert(((a ^ b) >> s) & 1u64 != 0u64 ==> (a >> s) % 2 != (b >> s) % 2)
                by (bit_vector);
            assert((a >> s) % 2 == 1 || (a >> s) % 2 == 0);
            assert(a.bit(r as int) != b.bit(r as int));
        } else {
            assert(a ^ b == 0u64 ==> a == b) by (bit_vector);
        }
    }

    fn empty() -> (r: Self) {
        0
    }

    fn sub_equal(&self, offset: u32, bits: u32, other: &Self) -> (r: bool) {
        if bits == 0 || offset >= 64 {
            return true;
        }
        let m = self.mismatch(offset, other);
        m as u64 >= offset as u64 + bits as u64 || m == 64
    }

    fn extract_bits(&self, offset: u32, bits: u32) -> (r: Self) {
        if bits == 0 {
            return 0;
        }
        if offset >= 64 {
            proof {
                lemma_slice_past_u64(*self, offset as int, bits as nat);
            }
            return 0;
        }
        let r = (*self << (offset as u64)) >> (64 - bits as u64);
        proof {
            lemma_extract_u64(*self, offset as u64, bits as u64);
        }
        r
    }

    fn mismatch(&self, offset: u32, other: &Self) -> (r: u32) {
        if offset >= 64 {
            return 64;
        }
        let a = *self;
        let b = *other;
        let o = offset as u64;
        let x = ((a ^ b) << o) >> o;
        let r = x.msb();
        proof {
            assert forall|i: int| 0 <= i < 64 implies #[trigger] x.bit(i) == (i >= offset && a.bit(i)
                != b.bit(i)) by {
                let s = (63 - i) as u64;
                assert(s < 64 && o < 64 ==> ((((((a ^ b) << o) >> o) >> s) % 2 == 1)
                    <==> (s + o < 64 && (a >> s) % 2 != (b >> s) % 2))) by (bit_vector);
            }
            assert forall|i: int| offset <= i < r implies #[trigger] a.bit(i) == b.bit(i) by {
                assert(!x.bit(i));
            }
            if r < 64 {
                assert(x.bit(r as int));
            }
        }
        r
    }

    fn safe_to_usize(&self) -> (r: usize) {
        *self as usize
    }

    fn from_bit_str(s: &str) -> (r: Self) {
        let bytes = s.as_bytes();
        let mut data: u64 = 0;
        let mut i: usize = 0;
        proof {
            assert forall|j: int| 0 <= j < 64 implies !#[trigger] data.bit(j) by {
                lemma_bits_u64(0, (63 - j) as u64);
            }
        }
        while i < bytes.len() && i < 64
            invariant
                bytes@ == s.spec_bytes(),
                i <= 64,
                i <= bytes@.len(),
                forall|j: int|
                    0 <= j < 64 ==> #[trigger] data.bit(j) == (j < i && bytes@[j] == 49u8),
            decreases 64 - i,
        {
            if bytes[i] == 49u8 {
                let old_data = data;
                data = data | (1u64 << (63 - i as u64));
                proof {
                    let t = (63 - i) as u64;
                    assert forall|j: int| 0 <= j < 64 implies #[trigger] data.bit(j) == (old_data.bit(j)
                        || j == i) by {
                        let s = (63 - j) as u64;
                        assert(t < 64 && s < 64 ==> ((((old_data | (1u64 << t)) >> s) % 2 == 1)
                            <==> (((old_data >> s) % 2 == 1) || s == t))) by (bit_vector);
                    }
                }
            }
            i = i + 1;
        }
        data
    }

    fn is_empty(&self) -> (r: bool) {
        *self == 0
    }

    fn same(&self, other: &Self) -> (r: bool) {
        *self == *other
    }
}

impl MSB for u64 {
    fn msb(&self) -> (r: u32) {
        let x = *self;
        let r = x.leading_zeros();
        proof {
            vstd::std_specs::bits::axiom_u64_leading_zeros(x);
            assert forall|i: int| 0 <= i < r implies !#[trigger] x.bit(i) by {
                let j = (63 - i) as u64;
                assert((x >> j) & 1u64 == 0u64);
                lemma_bits_u64(x >> j, 0);
            }
            if r < 64 {
                lemma_bits_u64(x >> (63 - r) as u64, 0);
            }
        }
        r
    }
}

/// Low-bit and shift facts used by the proofs below.
proof fn lemma_bits_u64(y: u64, s: u64)
    by (bit_vector)
    ensures
        (y & 1u64 != 0u64) == (y % 2 == 1),
        0u64 >> s == 0u64,
{
}

/// One more bit at the bottom of an extracted field.
proof fn lemma_extract_step_u64(x: u64, o: u64, n: u64)
    by (bit_vector)
    requires
        o < 64,
        2 <= n <= 64,
    ensures
        ((x << o) >> (64 - n) as u64) / 2 == (x << o) >> (65 - n) as u64,
        o + n <= 64 ==> ((x << o) >> (64 - n) as u64) % 2 == (x >> (64 - o - n) as u64) % 2,
        o + n > 64 ==> ((x << o) >> (64 - n) as u64) % 2 == 0,
{
}

/// `(x << o) >> (64 - n)` spells the `n` bits of `x` from `o` on.
proof fn lemma_extract_u64(x: u64, o: u64, n: u64)
    requires
        o < 64,
        1 <= n <= 64,
    ensures
        ((x << o) >> (64 - n) as u64) as nat == x.slice_at(o as int, n as nat),
    decreases n,
{
    if n == 1 {
        assert(o < 64 ==> (x << o) >> 63u64 == (x >> (63u64 - o) as u64) % 2) by (bit_vector);
        assert(x.slice_at(o as int, 0) == 0);
    } else {
        lemma_extract_u64(x, o, (n - 1) as u64);
        lemma_extract_step_u64(x, o, n);
        let y2 = (x << o) >> (64 - n) as u64;
        assert(y2 == 2 * (y2 / 2) + y2 % 2);
        assert((x << o) >> (64 - (n - 1) as u64) as u64 == (x << o) >> (65 - n) as u64);
    }
}

/// Past the width every slice is zero.
proof fn lemma_slice_past_u64(x: u64, o: int, n: nat)
    requires
        o >= 64,
    ensures
        x.slice_at(o, n) == 0,
    decreases n,
{
    if n > 0 {
        lemma_slice_past_u64(x, o, (n - 1) as nat);
    }
}


impl BitVec for u128 {
    open spec fn width() -> nat {
        128
    }

    fn width_u32() -> (r: u32) {
        128
    }

    open spec fn bit(&self, i: int) -> bool {
        0 <= i < 128 && (*self >> ((127 - i) as u128)) % 2 == 1
    }

    open spec fn value(&self) -> nat {
        *self as nat
    }

    open spec fn slice_at(&self, o: int, n: nat) -> nat
        decreases n,
    {
        if n == 0 {
            0
        } else {
            2 * self.slice_at(o, (n - 1) as nat) + if self.bit(o + n - 1) {
                1nat
            } else {
                0nat
            }
        }
    }

    proof fn lemma_slice_at(k: Self, o: int, n: nat) {
    }

    proof fn lemma_width() {
    }

    proof fn lemma_bits_determine(a: Self, b: Self) {
        let x = a ^ b;
        assert forall|i: int| 0 <= i < 128 implies !#[trigger] x.bit(i) by {
            let s = (127 - i) as u128;
            assert(s < 128 ==> (((a ^ b) >> s) % 2 == 1 <==> (a >> s) % 2 != (b >> s) % 2))
                by (bit_vector);
            assert(a.bit(i) == b.bit(i));
        }
        lemma_zero_bits_u128(x, 128);
        assert((a ^ b) >> 0u128 == 0u128 ==> a == b) by (bit_vector);
    }

    fn empty() -> (r: Self) {
        0
    }

    fn sub_equal(&self, offset: u32, bits: u32, other: &Self) -> (r: bool) {
        if bits == 0 || offset >= 128 {
            return true;
        }
        let m = self.mismatch(offset, other);
        m as u64 >= offset as u64 + bits as u64 || m == 128
    }

    fn extract_bits(&self, offset: u32, bits: u32) -> (r: Self) {
        if bits == 0 {
            return 0;
        }
        if offset >= 128 {
            proof {
                lemma_slice_past_u128(*self, offset as int, bits as nat);
            }
            return 0;
        }
        let r = (*self << (offset as u128)) >> (128 - bits as u128);
        proof {
            lemma_extract_u128(*self, offset as u128, bits as u128);
        }
        r
    }

    fn mismatch(&self, offset: u32, other: &Self) -> (r: u32) {
        if offset >= 128 {
            return 128;
        }
        let a = *self;
        let b = *other;
        let o = offset as u128;
        let x = ((a ^ b) << o) >> o;
        let r = x.msb();
        proof {
            assert forall|i: int| 0 <= i < 128 implies #[trigger] x.bit(i) == (i >= offset && a.bit(i)
                != b.bit(i)) by {
                let s = (127 - i) as u128;
                assert(s < 128 && o < 128 ==> ((((((a ^ b) << o) >> o) >> s) % 2 == 1)
                    <==> (s + o < 128 && (a >> s) % 2 != (b >> s) % 2))) by (bit_vector);
            }
            assert forall|i: int| offset <= i < r implies #[trigger] a.bit(i) == b.bit(i) by {
                assert(!x.bit(i));
            }
            if r < 128 {
                assert(x.bit(r as int));
            }
        }
        r
    }

    fn safe_to_usize(&self) -> (r: usize) {
        *self as usize
    }

    fn from_bit_str(s: &str) -> (r: Self) {
        let bytes = s.as_bytes();
        let mut data: u128 = 0;
        let mut i: usize = 0;
        proof {
            assert forall|j: int| 0 <= j < 128 implies !#[trigger] data.bit(j) by {
                lemma_bits_u128(0, (127 - j) as u128);
            }
        }
        while i < bytes.len() && i < 128
            invariant
                bytes@ == s.spec_bytes(),
                i <= 128,
                i <= bytes@.len(),
                forall|j: int|
                    0 <= j < 128 ==> #[trigger] data.bit(j) == (j < i && bytes@[j] == 49u8),
            decreases 128 - i,
        {
            if bytes[i] == 49u8 {
                let old_data = data;
                data = data | (1u128 << (127 - i as u128));
                proof {
                    let t = (127 - i) as u128;
                    assert forall|j: int| 0 <= j < 128 implies #[trigger] data.bit(j) == (old_data.bit(j)
                        || j == i) by {
                        let s = (127 - j) as u128;
                        assert(t < 128 && s < 128 ==> ((((old_data | (1u128 << t)) >> s) % 2 == 1)
                            <==> (((old_data >> s) % 2 == 1) || s == t))) by (bit_vector);
                    }
                }
            }
            i = i + 1;
        }
        data
    }

    fn is_empty(&self) -> (r: bool) {
        *self == 0
    }

    fn same(&self, other: &Self) -> (r: bool) {
        *self == *other
    }
}

impl MSB for u128 {
    fn msb(&self) -> (r: u32) {
        let x = *self;
        let mut n: u32 = 0;
        while n < 128 && (x >> (127 - n as u128)) % 2 == 0
            invariant
                n <= 128,
                forall|i: int| 0 <= i < n ==> !#[trigger] x.bit(i),
            decreases 128 - n,
        {
            n = n + 1;
        }
        n
    }
}

/// A value whose first `n` bits are clear has nothing left above the bottom
/// `128 - n` bits.
proof fn lemma_zero_bits_u128(x: u128, n: u128)
    requires
        1 <= n <= 128,
        forall|i: int| 0 <= i < n ==> !#[trigger] x.bit(i),
    ensures
        x >> (128 - n) as u128 == 0u128,
    decreases n,
{
    assert(!x.bit(n - 1));
    if n == 1 {
        assert((x >> 127u128) % 2 == 0 ==> x >> 127u128 == 0u128) by (bit_vector);
    } else {
        lemma_zero_bits_u128(x, (n - 1) as u128);
        assert(2 <= n <= 128 && x >> (129 - n) as u128 == 0u128 && (x >> (128 - n) as u128) % 2
            == 0 ==> x >> (128 - n) as u128 == 0u128) by (bit_vector);
    }
}

/// Low-bit and shift facts used by the proofs below.
proof fn lemma_bits_u128(y: u128, s: u128)
    by (bit_vector)
    ensures
        0u128 >> s == 0u128,
{
}

/// One more bit at the bottom of an extracted field.
proof fn lemma_extract_step_u128(x: u128, o: u128, n: u128)
    requires
        o < 128,
        2 <= n <= 128,
    ensures
        ((x << o) >> (128 - n) as u128) / 2 == (x << o) >> (129 - n) as u128,
        o + n <= 128 ==> ((x << o) >> (128 - n) as u128) % 2 == (x >> (128 - o - n) as u128) % 2,
        o + n > 128 ==> ((x << o) >> (128 - n) as u128) % 2 == 0,
{
    let y = (x << o) >> (128 - n) as u128;
    assert(y / 2 == y >> 1u128 && y % 2 == y & 1u128) by (bit_vector);
    assert(o < 128 && 2 <= n <= 128 ==> ((x << o) >> (128 - n) as u128) >> 1u128 == (x << o) >> (129
        - n) as u128) by (bit_vector);
    if o + n <= 128 {
        let s = (128 - o - n) as u128;
        assert(x >> s & 1u128 == (x >> s) % 2) by (bit_vector);
        assert(o < 128 && 2 <= n <= 128 && o + n <= 128 ==> ((x << o) >> (128 - n) as u128) & 1u128
            == (x >> (128 - o - n) as u128) & 1u128) by (bit_vector);
    } else {
        assert(o < 128 && 2 <= n <= 128 && o + n > 128 ==> ((x << o) >> (128 - n) as u128) & 1u128
            == 0u128) by (bit_vector);
    }
}

/// `(x << o) >> (128 - n)` spells the `n` bits of `x` from `o` on.
proof fn lemma_extract_u128(x: u128, o: u128, n: u128)
    requires
        o < 128,
        1 <= n <= 128,
    ensures
        ((x << o) >> (128 - n) as u128) as nat == x.slice_at(o as int, n as nat),
    decreases n,
{
    if n == 1 {
        assert(o < 128 ==> (x << o) >> 127u128 == (x >> (127u128 - o) as u128) % 2) by (bit_vector);
        assert(x.slice_at(o as int, 0) == 0);
    } else {
        lemma_extract_u128(x, o, (n - 1) as u128);
        lemma_extract_step_u128(x, o, n);
        let y2 = (x << o) >> (128 - n) as u128;
        assert(y2 == 2 * (y2 / 2) + y2 % 2);
        assert((x << o) >> (128 - (n - 1) as u128) as u128 == (x << o) >> (129 - n) as u128);
    }
}

/// Past the width every slice is zero.
proof fn lemma_slice_past_u128(x: u128, o: int, n: nat)
    requires
        o >= 128,
    ensures
        x.slice_at(o, n) == 0,
    decreases n,
{
    if n > 0 {
        lemma_slice_past_u128(x, o, (n - 1) as nat);
    }
}

} // verus!
