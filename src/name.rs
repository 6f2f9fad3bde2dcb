//! XOR names and section prefixes.

use vstd::prelude::*;

verus! {

/// Number of bytes in a name.
pub const NAME_LEN: usize = 32;

/// Number of bits in a name.
pub const NAME_BITS: usize = 256;

/// Bit `i` of a name, most significant bit of the first byte first.
pub open spec fn name_bit(name: Seq<u8>, i: int) -> bool {
    0 <= i && i / 8 < name.len() && (name[i / 8] >> ((7 - i % 8) as u8)) & 1u8 == 1u8
}

/// Bit `i` of `name`.
pub fn bit(name: &Vec<u8>, i: usize) -> (r: bool)
    ensures
        r == name_bit(name@, i as int),
{
    if i / 8 < name.len() {
        let sh: u8 = (7 - i % 8) as u8;
        (name[i / 8] >> sh) & 1u8 == 1u8
    } else {
        false
    }
}

/// A prefix of the name space: a sequence of at most `NAME_BITS` bits.
#[derive(Clone, Debug)]
pub struct Prefix {
    pub bits: Vec<bool>,
}

/// `name` starts with the bits of `p`.
pub open spec fn prefix_matches(p: Seq<bool>, name: Seq<u8>) -> bool {
    forall|i: int| 0 <= i < p.len() ==> #[trigger] p[i] == name_bit(name, i)
}

/// `q` starts with `p`.
pub open spec fn bits_start_with(q: Seq<bool>, p: Seq<bool>) -> bool {
    p.len() <= q.len() && forall|i: int| 0 <= i < p.len() ==> #[trigger] q[i] == p[i]
}

/// `q` is a strict extension of `p`.
pub open spec fn prefix_extends(q: Seq<bool>, p: Seq<bool>) -> bool {
    p.len() < q.len() && bits_start_with(q, p)
}

/// The two prefixes are siblings: same parent, last bit different.
pub open spec fn prefix_siblings(p: Seq<bool>, q: Seq<bool>) -> bool {
    &&& p.len() == q.len()
    &&& p.len() >= 1
    &&& p.drop_last() == q.drop_last()
    &&& p.last() != q.last()
}

impl Prefix {
    pub open spec fn view(&self) -> Seq<bool> {
        self.bits@
    }

    pub open spec fn wf(&self) -> bool {
        self.bits@.len() <= NAME_BITS
    }

    /// The empty prefix, which matches every name.
    pub fn root() -> (r: Prefix)
        ensures
            r@ == Seq::<bool>::empty(),
            r.wf(),
    {
        Prefix { bits: Vec::new() }
    }

    /// Number of bits in the prefix.
    pub fn bit_count(&self) -> (r: usize)
        ensures
            r == self@.len(),
    {
        self.bits.len()
    }

    /// Whether `name` falls under this prefix.
    pub fn matches(&self, name: &Vec<u8>) -> (r: bool)
        ensures
            r == prefix_matches(self@, name@),
    {
        let mut i: usize = 0;
        while i < self.bits.len()
            invariant
                i <= self@.len(),
                forall|j: int| 0 <= j < i ==> #[trigger] self@[j] == name_bit(name@, j),
            decreases self@.len() - i,
        {
            if self.bits[i] != bit(name, i) {
                return false;
            }
            i += 1;
        }
        true
    }

    /// The prefix with `b` appended; a prefix of full length is returned unchanged.
    pub fn pushed(&self, b: bool) -> (r: Prefix)
        requires
            self.wf(),
        ensures
            r.wf(),
            self@.len() < NAME_BITS ==> r@ == self@.push(b),
            self@.len() >= NAME_BITS ==> r@ == self@,
    {
        let mut bits = self.copy_bits();
        if bits.len() < NAME_BITS {
            bits.push(b);
        }
        Prefix { bits }
    }

    /// A copy of the bits.
    pub fn copy_bits(&self) -> (r: Vec<bool>)
        ensures
            r@ == self@,
    {
        let mut r: Vec<bool> = Vec::new();
        let mut i: usize = 0;
        while i < self.bits.len()
            invariant
                i <= self@.len(),
                r@ == self@.subrange(0, i as int),
            decreases self@.len() - i,
        {
            r.push(self.bits[i]);
            i += 1;
            assert(r@ =~= self@.subrange(0, i as int));
        }
        assert(r@ =~= self@);
        r
    }

    /// A copy of the prefix.
    pub fn duplicate(&self) -> (r: Prefix)
        ensures
            r@ == self@,
    {
        Prefix { bits: self.copy_bits() }
    }

    /// The two prefixes hold the same bits.
    pub fn same_as(&self, other: &Prefix) -> (r: bool)
        ensures
            r == (self@ == other@),
    {
        if self.bits.len() != other.bits.len() {
            return false;
        }
        let mut i: usize = 0;
        while i < self.bits.len()
            invariant
                i <= self@.len(),
                self@.len() == other@.len(),
                forall|j: int| 0 <= j < i ==> #[trigger] self@[j] == other@[j],
            decreases self@.len() - i,
        {
            if self.bits[i] != other.bits[i] {
                return false;
            }
            i += 1;
        }
        assert(self@ =~= other@);
        true
    }

    /// Whether this prefix strictly extends `other`.
    pub fn is_extension_of(&self, other: &Prefix) -> (r: bool)
        ensures
            r == prefix_extends(self@, other@),
    {
        if other.bits.len() >= self.bits.len() {
            return false;
        }
        let mut i: usize = 0;
        while i < other.bits.len()
            invariant
                i <= other@.len(),
                other@.len() < self@.len(),
                forall|j: int| 0 <= j < i ==> #[trigger] self@[j] == other@[j],
            decreases other@.len() - i,
        {
            if self.bits[i] != other.bits[i] {
                return false;
            }
            i += 1;
        }
        true
    }
}

/// Byte `j` of a name, zero past its end.
pub open spec fn byte_at(s: Seq<u8>, j: int) -> u8 {
    if 0 <= j < s.len() {
        s[j]
    } else {
        0u8
    }
}

/// Byte `j` of the XOR distance between `a` and `t`.
pub open spec fn dist_byte(a: Seq<u8>, t: Seq<u8>, j: int) -> u8 {
    byte_at(a, j) ^ byte_at(t, j)
}

/// `a` and `b` are at the same distance from `t` in the bytes before `j`.
pub open spec fn dist_agree_below(a: Seq<u8>, b: Seq<u8>, t: Seq<u8>, j: int) -> bool {
    forall|k: int| 0 <= k < j ==> #[trigger] dist_byte(a, t, k) == dist_byte(b, t, k)
}

/// `a` is strictly closer to `t` than `b` is, in XOR distance over `NAME_LEN` bytes.
pub open spec fn closer(a: Seq<u8>, b: Seq<u8>, t: Seq<u8>) -> bool {
    exists|j: int|
        0 <= j < NAME_LEN && dist_agree_below(a, b, t, j) && #[trigger] dist_byte(a, t, j)
            < dist_byte(b, t, j)
}

/// The first `NAME_LEN` bytes of both names agree.
pub open spec fn same_name(a: Seq<u8>, b: Seq<u8>) -> bool {
    forall|k: int| 0 <= k < NAME_LEN ==> #[trigger] byte_at(a, k) == byte_at(b, k)
}

proof fn lemma_xor_cancel(x: u8, y: u8, t: u8)
    requires
        x ^ t == y ^ t,
    ensures
        x == y,
{
    assert(x ^ t == y ^ t ==> x == y) by (bit_vector);
}

/// Closeness to a fixed target is irreflexive and asymmetric.
pub proof fn lemma_closer_asymmetric(a: Seq<u8>, b: Seq<u8>, t: Seq<u8>)
    ensures
        !(closer(a, b, t) && closer(b, a, t)),
{
    if closer(a, b, t) && closer(b, a, t) {
        let i = choose|j: int|
            0 <= j < NAME_LEN && dist_agree_below(a, b, t, j) && #[trigger] dist_byte(a, t, j)
                < dist_byte(b, t, j);
        let k = choose|j: int|
            0 <= j < NAME_LEN && dist_agree_below(b, a, t, j) && #[trigger] dist_byte(b, t, j)
                < dist_byte(a, t, j);
        if i < k {
            assert(dist_byte(b, t, i) == dist_byte(a, t, i));
        } else if k < i {
            assert(dist_byte(a, t, k) == dist_byte(b, t, k));
        }
    }
}

/// Closeness to a fixed target is transitive.
pub proof fn lemma_closer_transitive(a: Seq<u8>, b: Seq<u8>, c: Seq<u8>, t: Seq<u8>)
    requires
        closer(a, b, t),
        closer(b, c, t),
    ensures
        closer(a, c, t),
{
    let i = choose|j: int|
        0 <= j < NAME_LEN && dist_agree_below(a, b, t, j) && #[trigger] dist_byte(a, t, j)
            < dist_byte(b, t, j);
    let k = choose|j: int|
        0 <= j < NAME_LEN && dist_agree_below(b, c, t, j) && #[trigger] dist_byte(b, t, j)
            < dist_byte(c, t, j);
    let m = if i < k { i } else { k };
    assert(dist_agree_below(a, c, t, m)) by {
        assert forall|q: int| 0 <= q < m implies #[trigger] dist_byte(a, t, q) == dist_byte(c, t, q) by {
            assert(dist_byte(a, t, q) == dist_byte(b, t, q));
            assert(dist_byte(b, t, q) == dist_byte(c, t, q));
        }
    }
    if i < k {
        assert(dist_byte(b, t, i) == dist_byte(c, t, i));
    } else if k < i {
        assert(dist_byte(a, t, k) == dist_byte(b, t, k));
    }
    assert(dist_byte(a, t, m) < dist_byte(c, t, m));
}

/// Compares the XOR distances of `a` and `b` to `t`: -1 when `a` is closer,
/// 1 when `b` is closer, 0 when the names agree.
pub fn cmp_distance(t: &Vec<u8>, a: &Vec<u8>, b: &Vec<u8>) -> (r: i8)
    ensures
        r == -1 <==> closer(a@, b@, t@),
        r == 1 <==> closer(b@, a@, t@),
        r == 0 <==> same_name(a@, b@),
        r == -1 || r == 0 || r == 1,
{
    let mut j: usize = 0;
    while j < NAME_LEN
        invariant
            j <= NAME_LEN,
            dist_agree_below(a@, b@, t@, j as int),
        decreases NAME_LEN - j,
    {
        let xa: u8 = if j < a.len() { a[j] } else { 0u8 };
        let xb: u8 = if j < b.len() { b[j] } else { 0u8 };
        let xt: u8 = if j < t.len() { t[j] } else { 0u8 };
        let da = xa ^ xt;
        let db = xb ^ xt;
        assert(da == dist_byte(a@, t@, j as int));
        assert(db == dist_byte(b@, t@, j as int));
        if da != db {
            proof {
                lemma_closer_asymmetric(a@, b@, t@);
                assert(dist_byte(a@, t@, j as int) != dist_byte(b@, t@, j as int));
                assert(!same_name(a@, b@)) by {
                    if same_name(a@, b@) {
                        assert(byte_at(a@, j as int) == byte_at(b@, j as int));
                    }
                }
                if da < db {
                    assert(closer(a@, b@, t@));
                } else {
                    assert(dist_agree_below(b@, a@, t@, j as int));
                    assert(closer(b@, a@, t@));
                }
            }
            if da < db {
                return -1;
            } else {
                return 1;
            }
        }
        j += 1;
    }
    proof {
        assert forall|k: int| 0 <= k < NAME_LEN implies #[trigger] byte_at(a@, k) == byte_at(b@, k) by {
            assert(dist_byte(a@, t@, k) == dist_byte(b@, t@, k));
            lemma_xor_cancel(byte_at(a@, k), byte_at(b@, k), byte_at(t@, k));
        }
        if closer(a@, b@, t@) {
            let i = choose|q: int|
                0 <= q < NAME_LEN && dist_agree_below(a@, b@, t@, q) && #[trigger] dist_byte(
                    a@,
                    t@,
                    q,
                ) < dist_byte(b@, t@, q);
            assert(dist_byte(a@, t@, i) == dist_byte(b@, t@, i));
        }
        if closer(b@, a@, t@) {
            let i = choose|q: int|
                0 <= q < NAME_LEN && dist_agree_below(b@, a@, t@, q) && #[trigger] dist_byte(
                    b@,
                    t@,
                    q,
                ) < dist_byte(a@, t@, q);
            assert(dist_byte(a@, t@, i) == dist_byte(b@, t@, i));
        }
    }
    0
}

/// Bit `i` of a prefix, false past its end.
pub open spec fn pbit(bits: Seq<bool>, i: int) -> bool {
    0 <= i < bits.len() && bits[i]
}

/// The first `k` bits of byte `j` of a prefix's name, as a number.
pub open spec fn bits_byte(bits: Seq<bool>, j: int, k: nat) -> nat
    decreases k,
{
    if k == 0 {
        0
    } else {
        2 * bits_byte(bits, j, (k - 1) as nat) + if pbit(bits, 8 * j + k - 1) { 1nat } else { 0nat }
    }
}

pub open spec fn pow2(k: nat) -> nat
    decreases k,
{
    if k == 0 {
        1
    } else {
        2 * pow2((k - 1) as nat)
    }
}

proof fn lemma_bits_byte_bound(bits: Seq<bool>, j: int, k: nat)
    ensures
        bits_byte(bits, j, k) < pow2(k),
    decreases k,
{
    if k > 0 {
        lemma_bits_byte_bound(bits, j, (k - 1) as nat);
    }
}

/// The name of a prefix: its bits followed by zeros, over `NAME_LEN` bytes.
pub open spec fn prefix_name(bits: Seq<bool>) -> Seq<u8> {
    Seq::new(NAME_LEN as nat, |j: int| bits_byte(bits, j, 8) as u8)
}

impl Prefix {
    /// The name of the prefix: its bits followed by zeros.
    pub fn name(&self) -> (r: Vec<u8>)
        ensures
            r@ == prefix_name(self@),
    {
        let mut out: Vec<u8> = Vec::new();
        let mut j: usize = 0;
        while j < NAME_LEN
            invariant
                j <= NAME_LEN,
                out@.len() == j,
                forall|q: int| 0 <= q < j ==> #[trigger] out@[q] == bits_byte(self@, q, 8) as u8,
            decreases NAME_LEN - j,
        {
            let mut b: u32 = 0;
            let mut k: usize = 0;
            while k < 8
                invariant
                    k <= 8,
                    j < NAME_LEN,
                    b == bits_byte(self@, j as int, k as nat),
                decreases 8 - k,
            {
                proof {
                    lemma_bits_byte_bound(self@, j as int, k as nat);
                    assert(pow2(k as nat) <= 128) by {
                        reveal_with_fuel(pow2, 9);
                    }
                }
                let i = 8 * j + k;
                let x: u32 = if i < self.bits.len() && self.bits[i] { 1 } else { 0 };
                b = 2 * b + x;
                k += 1;
            }
            proof {
                lemma_bits_byte_bound(self@, j as int, 8);
                assert(pow2(8) == 256) by {
                    reveal_with_fuel(pow2, 9);
                }
            }
            out.push(b as u8);
            j += 1;
        }
        assert(out@ =~= prefix_name(self@));
        out
    }
}

} // verus!
