//! Unsigned 256-bit integers, held as four 64-bit words.

use vstd::prelude::*;

verus! {

/// 2^64.
pub open spec fn base() -> nat {
    0x1_0000_0000_0000_0000nat
}

/// 2^256, the first value a `U256` cannot hold.
pub open spec fn modulus() -> nat {
    0x1_0000_0000_0000_0000_0000_0000_0000_0000_0000_0000_0000_0000_0000_0000_0000_0000nat
}

/// The number that four words stand for, least significant word first.
pub open spec fn words_value(w0: u64, w1: u64, w2: u64, w3: u64) -> nat {
    (w0 as nat) + (w1 as nat) * 0x1_0000_0000_0000_0000nat
        + (w2 as nat) * 0x1_0000_0000_0000_0000_0000_0000_0000_0000nat
        + (w3 as nat) * 0x1_0000_0000_0000_0000_0000_0000_0000_0000_0000_0000_0000_0000nat
}

/// A 256-bit unsigned integer. `w0` is the least significant word.
#[derive(Clone, Copy, Debug, PartialEq, Eq, Hash, Structural)]
pub struct U256 {
    pub w0: u64,
    pub w1: u64,
    pub w2: u64,
    pub w3: u64,
}

impl View for U256 {
    type V = nat;

    open spec fn view(&self) -> nat {
        words_value(self.w0, self.w1, self.w2, self.w3)
    }
}

/// A number splits in one way into a low part below `b` and a multiple of `b`.
proof fn lemma_split_unique(x0: int, xr: int, y0: int, yr: int, b: int)
    requires
        0 <= x0 < b,
        0 <= y0 < b,
        x0 + b * xr == y0 + b * yr,
    ensures
        x0 == y0,
        xr == yr,
{
    assert(xr == yr) by (nonlinear_arith)
        requires
            0 <= x0 < b,
            0 <= y0 < b,
            x0 + b * xr == y0 + b * yr,
    ;
}

/// Two values with the same number are the same value.
pub proof fn lemma_view_injective(a: U256, b: U256)
    requires
        a@ == b@,
    ensures
        a == b,
{
    let k = 0x1_0000_0000_0000_0000int;
    let a2 = a.w2 as int + k * (a.w3 as int);
    let b2 = b.w2 as int + k * (b.w3 as int);
    let a1 = a.w1 as int + k * a2;
    let b1 = b.w1 as int + k * b2;
    assert(a@ == a.w0 as int + k * a1);
    assert(b@ == b.w0 as int + k * b1);
    lemma_split_unique(a.w0 as int, a1, b.w0 as int, b1, k);
    lemma_split_unique(a.w1 as int, a2, b.w1 as int, b2, k);
    lemma_split_unique(a.w2 as int, a.w3 as int, b.w2 as int, b.w3 as int, k);
}

/// Word `i` of the number `n`, counted from the least significant one.
pub open spec fn word(n: nat, i: nat) -> u64
    decreases i,
{
    if i == 0 {
        (n % base()) as u64
    } else {
        word(n / base(), (i - 1) as nat)
    }
}

impl U256 {
    /// The four words are the words of the number.
    pub proof fn lemma_words(self)
        ensures
            self.w0 == word(self@, 0),
            self.w1 == word(self@, 1),
            self.w2 == word(self@, 2),
            self.w3 == word(self@, 3),
    {
        let k = base() as int;
        let a2 = self.w2 as int + k * (self.w3 as int);
        let a1 = self.w1 as int + k * a2;
        assert(self@ == self.w0 as int + k * a1);
        vstd::arithmetic::div_mod::lemma_fundamental_div_mod_converse(
            self@ as int,
            k,
            a1,
            self.w0 as int,
        );
        vstd::arithmetic::div_mod::lemma_fundamental_div_mod_converse(a1, k, a2, self.w1 as int);
        vstd::arithmetic::div_mod::lemma_fundamental_div_mod_converse(
            a2,
            k,
            self.w3 as int,
            self.w2 as int,
        );
        vstd::arithmetic::div_mod::lemma_fundamental_div_mod_converse(
            self.w3 as int,
            k,
            0,
            self.w3 as int,
        );
        reveal_with_fuel(word, 4);
    }

    /// The words of a number below 2^256 stand for the number.
    #[verifier::rlimit(30)]
    pub proof fn lemma_words_value(n: nat)
        requires
            n < modulus(),
        ensures
            words_value(word(n, 0), word(n, 1), word(n, 2), word(n, 3)) == n,
    {
        let k = base() as int;
        let n1 = n as int / k;
        let n2 = n1 / k;
        let n3 = n2 / k;
        vstd::arithmetic::div_mod::lemma_fundamental_div_mod(n as int, k);
        vstd::arithmetic::div_mod::lemma_fundamental_div_mod(n1, k);
        vstd::arithmetic::div_mod::lemma_fundamental_div_mod(n2, k);
        vstd::arithmetic::div_mod::lemma_fundamental_div_mod(n3, k);
        reveal_with_fuel(word, 4);
        assert(n3 < k) by {
            assert(n1 < k * k * k) by (nonlinear_arith)
                requires
                    n < k * (k * k * k),
                    n1 == n as int / k,
                    k > 0,
            ;
            assert(n2 < k * k) by (nonlinear_arith)
                requires
                    n1 < k * (k * k),
                    n2 == n1 / k,
                    k > 0,
            ;
            assert(n3 < k) by (nonlinear_arith)
                requires
                    n2 < k * k,
                    n3 == n2 / k,
                    k > 0,
            ;
        }
        assert(n3 % k == n3) by {
            vstd::arithmetic::div_mod::lemma_small_mod(n3 as nat, k as nat);
        }
        assert(n as int == (n as int % k) + k * ((n1 % k) + k * ((n2 % k) + k * n3)));
        assert(k * ((n1 % k) + k * ((n2 % k) + k * n3)) == (n1 % k) * k + (n2 % k) * (k * k) + n3
            * (k * k * k)) by (nonlinear_arith);
    }

    /// Every value is below 2^256.
    pub proof fn lemma_bounded(self)
        ensures
            self@ < modulus(),
    {
    }

    pub fn zero() -> (r: U256)
        ensures
            r@ == 0,
    {
        U256 { w0: 0, w1: 0, w2: 0, w3: 0 }
    }

    /// The largest value, 2^256 - 1.
    pub fn max_value() -> (r: U256)
        ensures
            r@ == modulus() - 1,
    {
        U256 { w0: u64::MAX, w1: u64::MAX, w2: u64::MAX, w3: u64::MAX }
    }

    pub fn from_u64(v: u64) -> (r: U256)
        ensures
            r@ == v,
    {
        U256 { w0: v, w1: 0, w2: 0, w3: 0 }
    }

    /// Builds a value from its words, least significant first.
    pub fn from_words(words: [u64; 4]) -> (r: U256)
        ensures
            r@ == words_value(words[0], words[1], words[2], words[3]),
    {
        U256 { w0: words[0], w1: words[1], w2: words[2], w3: words[3] }
    }

    pub fn is_zero(&self) -> (r: bool)
        ensures
            r == (self@ == 0),
    {
        self.w0 == 0 && self.w1 == 0 && self.w2 == 0 && self.w3 == 0
    }

    /// `self <= other`, as numbers.
    pub fn le(&self, other: &U256) -> (r: bool)
        ensures
            r == (self@ <= other@),
    {
        if self.w3 != other.w3 {
            self.w3 < other.w3
        } else if self.w2 != other.w2 {
            self.w2 < other.w2
        } else if self.w1 != other.w1 {
            self.w1 < other.w1
        } else {
            self.w0 <= other.w0
        }
    }

    /// `self < other`, as numbers.
    pub fn lt(&self, other: &U256) -> (r: bool)
        ensures
            r == (self@ < other@),
    {
        !other.le(self)
    }

    /// The smaller of the two.
    pub fn min(self, other: U256) -> (r: U256)
        ensures
            r@ == if self@ <= other@ { self@ } else { other@ },
    {
        if self.le(&other) {
            self
        } else {
            other
        }
    }

    /// `self` brought into `[low, high]`.
    pub fn clamp(self, low: U256, high: U256) -> (r: U256)
        requires
            low@ <= high@,
        ensures
            r@ == clamp_value(self@, low@, high@),
    {
        if self.lt(&low) {
            low
        } else if high.lt(&self) {
            high
        } else {
            self
        }
    }
}

impl U256 {
    /// `self * m`: the low 256 bits, and what was carried out of them.
    #[verifier::rlimit(30)]
    pub fn overflowing_mul_u64(self, m: u64) -> (r: (U256, u64))
        ensures
            r.0@ + (r.1 as nat) * modulus() == self@ * (m as nat),
    {
        let (l0, c0) = mul_step(self.w0, m, 0);
        let (l1, c1) = mul_step(self.w1, m, c0);
        let (l2, c2) = mul_step(self.w2, m, c1);
        let (l3, c3) = mul_step(self.w3, m, c2);
        let out = U256 { w0: l0, w1: l1, w2: l2, w3: l3 };
        proof {
            let (a0, a1, a2, a3) = (self.w0 as int, self.w1 as int, self.w2 as int, self.w3 as int);
            let k = m as int;
            let v = self@ as int;
            assert(v * k == a0 * k + (a1 * k) * 0x1_0000_0000_0000_0000 + (a2 * k)
                * 0x1_0000_0000_0000_0000_0000_0000_0000_0000 + (a3 * k)
                * 0x1_0000_0000_0000_0000_0000_0000_0000_0000_0000_0000_0000_0000)
                by (nonlinear_arith)
                requires
                    v == a0 + a1 * 0x1_0000_0000_0000_0000 + a2
                        * 0x1_0000_0000_0000_0000_0000_0000_0000_0000 + a3
                        * 0x1_0000_0000_0000_0000_0000_0000_0000_0000_0000_0000_0000_0000,
            ;
            assert(self@ * (m as nat) == v * k) by (nonlinear_arith)
                requires
                    v == self@,
                    k == m,
            ;
        }
        (out, c3)
    }

    /// `self + a`: the low 256 bits, and whether a bit was carried out of them.
    pub fn overflowing_add_u64(self, a: u64) -> (r: (U256, bool))
        ensures
            r.0@ + (if r.1 { modulus() } else { 0 }) == self@ + (a as nat),
    {
        let (l0, c0) = add_step(self.w0, a);
        let (l1, c1) = add_step(self.w1, c0);
        let (l2, c2) = add_step(self.w2, c1);
        let (l3, c3) = add_step(self.w3, c2);
        (U256 { w0: l0, w1: l1, w2: l2, w3: l3 }, c3 != 0)
    }

    /// Quotient and remainder of `self` by `d`.
    #[verifier::rlimit(30)]
    pub fn div_rem_u64(self, d: u64) -> (r: (U256, u64))
        requires
            d > 0,
        ensures
            r.0@ == self@ / (d as nat),
            r.1 == self@ % (d as nat),
    {
        let (q3, r3) = div_step(0, self.w3, d);
        let (q2, r2) = div_step(r3, self.w2, d);
        let (q1, r1) = div_step(r2, self.w1, d);
        let (q0, r0) = div_step(r1, self.w0, d);
        let out = U256 { w0: q0, w1: q1, w2: q2, w3: q3 };
        proof {
            let b = base() as int;
            let k = d as int;
            let (a0, a1, a2, a3) = (q0 as int, q1 as int, q2 as int, q3 as int);
            assert((a0 + a1 * b + a2 * (b * b) + a3 * (b * b * b)) * k == a0 * k + (a1 * k) * b + (a2
                * k) * (b * b) + (a3 * k) * (b * b * b)) by (nonlinear_arith);
            assert((a3 * k + r3 as int) * (b * b * b) == (a3 * k) * (b * b * b) + (r3 as int) * b
                * (b * b)) by (nonlinear_arith);
            assert((a2 * k + r2 as int) * (b * b) == (a2 * k) * (b * b) + (r2 as int) * b * b)
                by (nonlinear_arith);
            assert((a1 * k + r1 as int) * b == (a1 * k) * b + (r1 as int) * b)
                by (nonlinear_arith);
            assert(((r3 as int) * b + self.w2 as int) * (b * b) == (r3 as int) * b * (b * b) + (
            self.w2 as int) * (b * b)) by (nonlinear_arith);
            assert(((r2 as int) * b + self.w1 as int) * b == (r2 as int) * b * b + (
            self.w1 as int) * b) by (nonlinear_arith);
            assert(b * b == 0x1_0000_0000_0000_0000_0000_0000_0000_0000int);
            assert(b * b * b == 0x1_0000_0000_0000_0000_0000_0000_0000_0000_0000_0000_0000_0000int);
            assert(self@ as int == (out@ as int) * k + r0 as int);
            vstd::arithmetic::div_mod::lemma_fundamental_div_mod_converse(
                self@ as int,
                k,
                out@ as int,
                r0 as int,
            );
        }
        (out, r0)
    }

    /// `self / d`.
    pub fn div_u64(self, d: u64) -> (r: U256)
        requires
            d > 0,
        ensures
            r@ == self@ / (d as nat),
    {
        self.div_rem_u64(d).0
    }

    /// `self * m`, or `None` where that does not fit in 256 bits.
    pub fn checked_mul_u64(self, m: u64) -> (r: Option<U256>)
        ensures
            match r {
                Some(p) => p@ == self@ * (m as nat),
                None => self@ * (m as nat) >= modulus(),
            },
    {
        let (low, carry) = self.overflowing_mul_u64(m);
        if carry == 0 {
            Some(low)
        } else {
            proof {
                low.lemma_bounded();
                assert((carry as nat) * modulus() >= modulus()) by (nonlinear_arith)
                    requires
                        carry >= 1,
                ;
            }
            None
        }
    }
}

/// One word of a multiplication: `a * m + carry` split at 2^64.
fn mul_step(a: u64, m: u64, carry: u64) -> (r: (u64, u64))
    ensures
        (r.0 as int) + (r.1 as int) * (base() as int) == (a as int) * (m as int) + (carry as int),
{
    assert((a as int) * (m as int) <= 0xffff_ffff_ffff_ffff * 0xffff_ffff_ffff_ffff)
        by (nonlinear_arith)
        requires
            0 <= a <= 0xffff_ffff_ffff_ffff,
            0 <= m <= 0xffff_ffff_ffff_ffff,
    ;
    assert((a as int) * (m as int) >= 0) by (nonlinear_arith)
        requires
            0 <= a,
            0 <= m,
    ;
    let t: u128 = (a as u128) * (m as u128) + (carry as u128);
    let low: u64 = (t % 0x1_0000_0000_0000_0000u128) as u64;
    let high: u64 = (t / 0x1_0000_0000_0000_0000u128) as u64;
    (low, high)
}

/// One word of an addition: `a + carry` split at 2^64.
fn add_step(a: u64, carry: u64) -> (r: (u64, u64))
    ensures
        (r.0 as int) + (r.1 as int) * (base() as int) == (a as int) + (carry as int),
        r.1 <= 1,
{
    let t: u128 = (a as u128) + (carry as u128);
    let low: u64 = (t % 0x1_0000_0000_0000_0000u128) as u64;
    let high: u64 = (t / 0x1_0000_0000_0000_0000u128) as u64;
    (low, high)
}

/// One word of a division: `rem * 2^64 + a` divided by `d`.
fn div_step(rem: u64, a: u64, d: u64) -> (r: (u64, u64))
    requires
        rem < d,
    ensures
        (r.0 as int) * (d as int) + (r.1 as int) == (rem as int) * (base() as int) + (a as int),
        r.1 < d,
{
    assert((rem as int) * 0x1_0000_0000_0000_0000 + (a as int) < (d as int)
        * 0x1_0000_0000_0000_0000) by (nonlinear_arith)
        requires
            0 <= rem < d,
            0 <= a < 0x1_0000_0000_0000_0000,
    ;
    assert((d as int) * 0x1_0000_0000_0000_0000 <= 0xffff_ffff_ffff_ffff
        * 0x1_0000_0000_0000_0000) by (nonlinear_arith)
        requires
            d <= 0xffff_ffff_ffff_ffff,
    ;
    assert((rem as int) * 0x1_0000_0000_0000_0000 >= 0) by (nonlinear_arith)
        requires
            rem >= 0,
    ;
    let t: u128 = (rem as u128) * 0x1_0000_0000_0000_0000u128 + (a as u128);
    let q: u128 = t / (d as u128);
    let r: u128 = t % (d as u128);
    proof {
        vstd::arithmetic::div_mod::lemma_fundamental_div_mod(t as int, d as int);
        assert((q as int) < 0x1_0000_0000_0000_0000) by (nonlinear_arith)
            requires
                (t as int) == (d as int) * (q as int) + (r as int),
                (t as int) < (d as int) * 0x1_0000_0000_0000_0000,
                0 <= r,
                d > 0,
        ;
        assert((d as int) * (q as int) == (q as int) * (d as int)) by (nonlinear_arith);
    }
    (q as u64, r as u64)
}

/// `v` brought into `[low, high]`.
pub open spec fn clamp_value(v: nat, low: nat, high: nat) -> nat {
    if v < low {
        low
    } else if v > high {
        high
    } else {
        v
    }
}

/// The number that bytes stand for, least significant byte first.
pub open spec fn le_value(bytes: Seq<u8>) -> nat
    decreases bytes.len(),
{
    if bytes.len() == 0 {
        0
    } else {
        (bytes[0] as nat) + 256 * le_value(bytes.drop_first())
    }
}

/// 256^n.
pub open spec fn pow256(n: nat) -> nat
    decreases n,
{
    if n == 0 {
        1
    } else {
        256 * pow256((n - 1) as nat)
    }
}

pub proof fn lemma_pow256_grows(a: nat, b: nat)
    requires
        a <= b,
    ensures
        0 < pow256(a) <= pow256(b),
    decreases b,
{
    if b == 0 {
    } else if a == b {
        lemma_pow256_grows((a - 1) as nat, (b - 1) as nat);
    } else {
        lemma_pow256_grows(a, (b - 1) as nat);
    }
}

pub proof fn lemma_pow256_32()
    ensures
        pow256(32) == modulus(),
{
    reveal_with_fuel(pow256, 33);
}

/// Bytes of length `n` stand for a number below 256^n.
pub proof fn lemma_le_value_bound(bytes: Seq<u8>)
    ensures
        le_value(bytes) < pow256(bytes.len()),
    decreases bytes.len(),
{
    if bytes.len() > 0 {
        lemma_le_value_bound(bytes.drop_first());
    }
}

/// One more byte at the significant end adds that byte times 256^len.
pub proof fn lemma_le_value_push(bytes: Seq<u8>, b: u8)
    ensures
        le_value(bytes.push(b)) == le_value(bytes) + (b as nat) * pow256(bytes.len()),
    decreases bytes.len(),
{
    let longer = bytes.push(b);
    if bytes.len() == 0 {
        assert(longer.drop_first() =~= Seq::<u8>::empty());
        assert(le_value(longer.drop_first()) == 0);
        assert(longer[0] == b);
        assert(pow256(0) == 1);
        assert((b as nat) * 1 == b as nat);
    } else {
        lemma_le_value_push(bytes.drop_first(), b);
        assert(longer.drop_first() =~= bytes.drop_first().push(b));
        assert(longer[0] == bytes[0]);
        let rest = le_value(bytes.drop_first());
        let p = pow256((bytes.len() - 1) as nat);
        assert(pow256(bytes.len()) == 256 * p);
        assert(256 * (rest + (b as nat) * p) == 256 * rest + (b as nat) * (256 * p))
            by (nonlinear_arith);
    }
}

/// Byte strings of one length that stand for one number are equal.
pub proof fn lemma_le_value_injective(a: Seq<u8>, b: Seq<u8>)
    requires
        a.len() == b.len(),
        le_value(a) == le_value(b),
    ensures
        a == b,
    decreases a.len(),
{
    if a.len() > 0 {
        lemma_le_value_injective(a.drop_first(), b.drop_first());
        assert(a =~= seq![a[0]] + a.drop_first());
        assert(b =~= seq![b[0]] + b.drop_first());
    } else {
        assert(a =~= b);
    }
}

impl U256 {
    /// Reads a number from at most 32 bytes, least significant byte first.
    #[verifier::rlimit(30)]
    pub fn from_little_endian(bytes: &[u8]) -> (r: U256)
        requires
            bytes.len() <= 32,
        ensures
            r@ == le_value(bytes@),
    {
        let len: usize = bytes.len();
        let mut acc = U256::zero();
        let mut i: usize = len;
        assert(bytes@.subrange(len as int, len as int) =~= Seq::<u8>::empty());
        while i > 0
            invariant
                i <= len,
                len == bytes.len(),
                len <= 32,
                acc@ == le_value(bytes@.subrange(i as int, len as int)),
            decreases i,
        {
            i = i - 1;
            let (shifted, carry) = acc.overflowing_mul_u64(256);
            let (sum, over) = shifted.overflowing_add_u64(bytes[i] as u64);
            proof {
                let tail = bytes@.subrange(i + 1, len as int);
                let whole = bytes@.subrange(i as int, len as int);
                assert(whole.drop_first() =~= tail);
                lemma_le_value_bound(whole);
                lemma_pow256_grows(whole.len(), 32);
                lemma_pow256_32();
                assert(carry == 0) by (nonlinear_arith)
                    requires
                        shifted@ + (carry as nat) * modulus() < modulus(),
                ;
            }
            acc = sum;
        }
        assert(bytes@.subrange(0, len as int) =~= bytes@);
        acc
    }

    /// The 32 bytes of the number, least significant byte first.
    #[verifier::rlimit(30)]
    pub fn to_little_endian(&self) -> (r: [u8; 32])
        ensures
            le_value(r@) == self@,
    {
        let mut out = [0u8; 32];
        let mut cur = *self;
        let mut i: usize = 0;
        assert(out@.subrange(0, 0) =~= Seq::<u8>::empty());
        assert(cur@ * pow256(0) == cur@) by {
            assert(pow256(0) == 1);
        }
        while i < 32
            invariant
                i <= 32,
                le_value(out@.subrange(0, i as int)) + cur@ * pow256(i as nat) == self@,
            decreases 32 - i,
        {
            let ghost before = out@.subrange(0, i as int);
            let ghost old_cur = cur@;
            let (q, r) = cur.div_rem_u64(256);
            out[i] = r as u8;
            cur = q;
            proof {
                assert(out@.subrange(0, i + 1) =~= before.push(r as u8));
                lemma_le_value_push(before, r as u8);
                let p = pow256(i as nat);
                assert(old_cur == 256 * (old_cur / 256) + old_cur % 256) by {
                    vstd::arithmetic::div_mod::lemma_fundamental_div_mod(old_cur as int, 256);
                }
                assert(old_cur * p == (old_cur / 256) * (256 * p) + (old_cur % 256) * p)
                    by (nonlinear_arith)
                    requires
                        old_cur == 256 * (old_cur / 256) + old_cur % 256,
                ;
            }
            i = i + 1;
        }
        proof {
            assert(out@.subrange(0, 32) =~= out@);
            lemma_pow256_32();
            self.lemma_bounded();
            assert(cur@ == 0) by (nonlinear_arith)
                requires
                    cur@ * modulus() < modulus(),
            ;
        }
        out
    }
}

/// Whether `b` is one of the ASCII digits `0` to `9`.
pub open spec fn is_digit(b: u8) -> bool {
    48 <= b <= 57
}

pub open spec fn all_digits(text: Seq<u8>) -> bool {
    forall|i: int| 0 <= i < text.len() ==> is_digit(#[trigger] text[i])
}

/// The number that decimal digits stand for; the empty text stands for 0.
pub open spec fn decimal_value(text: Seq<u8>) -> nat
    decreases text.len(),
{
    if text.len() == 0 {
        0
    } else {
        decimal_value(text.drop_last()) * 10 + ((text.last() - 48) as nat)
    }
}

/// The decimal digits of `n`, without leading zeros.
pub open spec fn decimal_text(n: nat) -> Seq<u8>
    decreases n,
{
    if n < 10 {
        seq![(48 + n) as u8]
    } else {
        decimal_text(n / 10).push((48 + n % 10) as u8)
    }
}

/// The digits of `n` from the least significant one.
spec fn digits_from_low(n: nat) -> Seq<u8>
    decreases n,
{
    if n < 10 {
        seq![(48 + n) as u8]
    } else {
        seq![(48 + n % 10) as u8] + digits_from_low(n / 10)
    }
}

proof fn lemma_digits_from_low(n: nat)
    ensures
        decimal_text(n) == digits_from_low(n).reverse(),
    decreases n,
{
    if n < 10 {
        assert(seq![(48 + n) as u8].reverse() =~= seq![(48 + n) as u8]);
    } else {
        lemma_digits_from_low(n / 10);
        let d = (48 + n % 10) as u8;
        let rest = digits_from_low(n / 10);
        assert((seq![d] + rest).reverse() =~= rest.reverse().push(d));
    }
}

/// Reading the digits of `n` gives `n` back.
pub proof fn lemma_decimal_round_trip(n: nat)
    ensures
        all_digits(decimal_text(n)),
        decimal_text(n).len() > 0,
        decimal_value(decimal_text(n)) == n,
    decreases n,
{
    if n < 10 {
        let t = decimal_text(n);
        assert(t.drop_last() =~= Seq::<u8>::empty());
        assert(decimal_value(t.drop_last()) == 0);
    } else {
        lemma_decimal_round_trip(n / 10);
        let t = decimal_text(n);
        assert(t.drop_last() =~= decimal_text(n / 10));
    }
}

/// A prefix of digits stands for no more than the whole.
pub proof fn lemma_decimal_prefix(text: Seq<u8>, k: int)
    requires
        0 <= k <= text.len(),
        all_digits(text),
    ensures
        decimal_value(text.subrange(0, k)) <= decimal_value(text),
    decreases text.len() - k,
{
    if k == text.len() {
        assert(text.subrange(0, k) =~= text);
    } else {
        lemma_decimal_prefix(text.drop_last(), k);
        assert(text.drop_last().subrange(0, k) =~= text.subrange(0, k));
        assert(is_digit(text[text.len() - 1]));
    }
}

/// Why a text is not the decimal form of a `U256`.
#[derive(Clone, Copy, Debug, PartialEq, Eq, Structural)]
pub enum DecimalError {
    /// Some byte is not an ASCII digit.
    InvalidCharacter,
    /// The digits stand for 2^256 or more.
    Overflow,
}

impl U256 {
    /// The decimal digits of the number, as ASCII bytes.
    #[verifier::rlimit(30)]
    pub fn to_decimal(&self) -> (r: Vec<u8>)
        ensures
            r@ == decimal_text(self@),
    {
        let mut low_first: Vec<u8> = Vec::new();
        let mut cur = *self;
        let mut done = false;
        while !done
            invariant
                digits_from_low(self@) == low_first@ + (if done {
                    Seq::<u8>::empty()
                } else {
                    digits_from_low(cur@)
                }),
                !done ==> low_first@.len() <= self@ - cur@,
            decreases (if done { 0 } else { cur@ + 1 }),
        {
            let (q, r) = cur.div_rem_u64(10);
            let ghost before = low_first@;
            low_first.push(48 + r as u8);
            proof {
                if cur@ < 10 {
                    assert(before + digits_from_low(cur@) =~= low_first@ + Seq::<u8>::empty());
                } else {
                    assert(before + digits_from_low(cur@) =~= low_first@ + digits_from_low(q@));
                }
            }
            if q.is_zero() {
                done = true;
            } else {
                cur = q;
            }
        }
        proof {
            assert(low_first@ + Seq::<u8>::empty() =~= low_first@);
            lemma_digits_from_low(self@);
        }
        let n: usize = low_first.len();
        let mut out: Vec<u8> = Vec::new();
        let mut j: usize = 0;
        while j < n
            invariant
                j <= n,
                n == low_first.len(),
                out@ == low_first@.reverse().subrange(0, j as int),
            decreases n - j,
        {
            out.push(low_first[n - 1 - j]);
            assert(out@ =~= low_first@.reverse().subrange(0, j + 1));
            j = j + 1;
        }
        assert(out@ =~= low_first@.reverse());
        out
    }

    /// Reads decimal digits. The empty text reads as zero.
    #[verifier::rlimit(30)]
    pub fn from_decimal(text: &[u8]) -> (r: Result<U256, DecimalError>)
        ensures
            match r {
                Ok(v) => all_digits(text@) && v@ == decimal_value(text@),
                Err(DecimalError::InvalidCharacter) => !all_digits(text@),
                Err(DecimalError::Overflow) => all_digits(text@) && decimal_value(text@)
                    >= modulus(),
            },
    {
        let len: usize = text.len();
        let mut k: usize = 0;
        while k < len
            invariant
                k <= len,
                len == text.len(),
                forall|i: int| 0 <= i < k ==> is_digit(#[trigger] text@[i]),
            decreases len - k,
        {
            if text[k] < 48 || text[k] > 57 {
                return Err(DecimalError::InvalidCharacter);
            }
            k = k + 1;
        }
        let mut acc = U256::zero();
        let mut i: usize = 0;
        assert(text@.subrange(0, 0) =~= Seq::<u8>::empty());
        while i < len
            invariant
                i <= len,
                len == text.len(),
                all_digits(text@),
                acc@ == decimal_value(text@.subrange(0, i as int)),
            decreases len - i,
        {
            let digit: u64 = (text[i] - 48) as u64;
            proof {
                assert(text@.subrange(0, i + 1).drop_last() =~= text@.subrange(0, i as int));
                lemma_decimal_prefix(text@, i + 1);
            }
            let (scaled, carry) = acc.overflowing_mul_u64(10);
            if carry != 0 {
                proof {
                    assert((carry as nat) * modulus() >= modulus()) by (nonlinear_arith)
                        requires
                            carry >= 1,
                    ;
                }
                return Err(DecimalError::Overflow);
            }
            let (sum, over) = scaled.overflowing_add_u64(digit);
            if over {
                return Err(DecimalError::Overflow);
            }
            acc = sum;
            i = i + 1;
        }
        assert(text@.subrange(0, len as int) =~= text@);
        Ok(acc)
    }
}

/// The ASCII character of a digit below 16: `0` to `9`, then `a` to `f`.
pub open spec fn digit_byte(d: nat) -> u8 {
    if d < 10 {
        (48 + d) as u8
    } else {
        (87 + d) as u8
    }
}

/// The hexadecimal digits of `n`, in lower case and without leading zeros.
pub open spec fn hex_text(n: nat) -> Seq<u8>
    decreases n,
{
    if n < 16 {
        seq![digit_byte(n)]
    } else {
        hex_text(n / 16).push(digit_byte(n % 16))
    }
}

/// The hexadecimal digits of `n` from the least significant one.
spec fn hex_from_low(n: nat) -> Seq<u8>
    decreases n,
{
    if n < 16 {
        seq![digit_byte(n)]
    } else {
        seq![digit_byte(n % 16)] + hex_from_low(n / 16)
    }
}

proof fn lemma_hex_from_low(n: nat)
    ensures
        hex_text(n) == hex_from_low(n).reverse(),
    decreases n,
{
    if n < 16 {
        assert(seq![digit_byte(n)].reverse() =~= seq![digit_byte(n)]);
    } else {
        lemma_hex_from_low(n / 16);
        let d = digit_byte(n % 16);
        let rest = hex_from_low(n / 16);
        assert((seq![d] + rest).reverse() =~= rest.reverse().push(d));
    }
}

/// The characters of ASCII bytes.
pub open spec fn ascii_chars(text: Seq<u8>) -> Seq<char> {
    text.map_values(|b: u8| b as char)
}

/// Appends the character of one decimal or hexadecimal digit.
#[verifier::rlimit(30)]
fn push_digit(text: &mut String, digit: u8)
    requires
        48 <= digit <= 57 || 97 <= digit <= 102,
    ensures
        final(text)@ == old(text)@.push(digit as char),
{
    proof {
        reveal_strlit("0");
        reveal_strlit("1");
        reveal_strlit("2");
        reveal_strlit("3");
        reveal_strlit("4");
        reveal_strlit("5");
        reveal_strlit("6");
        reveal_strlit("7");
        reveal_strlit("8");
        reveal_strlit("9");
        reveal_strlit("a");
        reveal_strlit("b");
        reveal_strlit("c");
        reveal_strlit("d");
        reveal_strlit("e");
        reveal_strlit("f");
    }
    let piece: &str = if digit == 48 {
        "0"
    } else if digit == 49 {
        "1"
    } else if digit == 50 {
        "2"
    } else if digit == 51 {
        "3"
    } else if digit == 52 {
        "4"
    } else if digit == 53 {
        "5"
    } else if digit == 54 {
        "6"
    } else if digit == 55 {
        "7"
    } else if digit == 56 {
        "8"
    } else if digit == 57 {
        "9"
    } else if digit == 97 {
        "a"
    } else if digit == 98 {
        "b"
    } else if digit == 99 {
        "c"
    } else if digit == 100 {
        "d"
    } else if digit == 101 {
        "e"
    } else {
        "f"
    };
    assert(piece@ =~= seq![digit as char]);
    text.append(piece);
    assert(text@ =~= old(text)@.push(digit as char));
}

/// The text of digits.
fn digits_to_string(digits: &Vec<u8>) -> (r: String)
    requires
        forall|i: int|
            0 <= i < digits@.len() ==> 48 <= (#[trigger] digits@[i]) <= 57 || 97 <= digits@[i]
                <= 102,
    ensures
        r@ == ascii_chars(digits@),
{
    let mut text = String::new();
    let mut i: usize = 0;
    while i < digits.len()
        invariant
            i <= digits.len(),
            forall|i: int|
                0 <= i < digits@.len() ==> 48 <= (#[trigger] digits@[i]) <= 57 || 97 <= digits@[i]
                    <= 102,
            text@ == ascii_chars(digits@.subrange(0, i as int)),
        decreases digits.len() - i,
    {
        push_digit(&mut text, digits[i]);
        i = i + 1;
        assert(text@ =~= ascii_chars(digits@.subrange(0, i as int)));
    }
    assert(digits@.subrange(0, digits.len() as int) =~= digits@);
    text
}

proof fn lemma_hex_digits(n: nat)
    ensures
        hex_text(n).len() > 0,
        forall|i: int|
            0 <= i < hex_text(n).len() ==> 48 <= (#[trigger] hex_text(n)[i]) <= 57 || 97
                <= hex_text(n)[i] <= 102,
    decreases n,
{
    if n >= 16 {
        lemma_hex_digits(n / 16);
    }
}

impl U256 {
    /// The hexadecimal digits of the number, in lower case, as ASCII bytes.
    #[verifier::rlimit(30)]
    pub fn to_hex(&self) -> (r: Vec<u8>)
        ensures
            r@ == hex_text(self@),
    {
        let mut low_first: Vec<u8> = Vec::new();
        let mut cur = *self;
        let mut done = false;
        while !done
            invariant
                hex_from_low(self@) == low_first@ + (if done {
                    Seq::<u8>::empty()
                } else {
                    hex_from_low(cur@)
                }),
            decreases (if done { 0 } else { cur@ + 1 }),
        {
            let (q, r) = cur.div_rem_u64(16);
            let ghost before = low_first@;
            let digit: u8 = if r < 10 {
                48 + r as u8
            } else {
                87 + r as u8
            };
            low_first.push(digit);
            proof {
                if cur@ < 16 {
                    assert(before + hex_from_low(cur@) =~= low_first@ + Seq::<u8>::empty());
                } else {
                    assert(before + hex_from_low(cur@) =~= low_first@ + hex_from_low(q@));
                }
            }
            if q.is_zero() {
                done = true;
            } else {
                cur = q;
            }
        }
        proof {
            assert(low_first@ + Seq::<u8>::empty() =~= low_first@);
            lemma_hex_from_low(self@);
        }
        let n: usize = low_first.len();
        let mut out: Vec<u8> = Vec::new();
        let mut j: usize = 0;
        while j < n
            invariant
                j <= n,
                n == low_first.len(),
                out@ == low_first@.reverse().subrange(0, j as int),
            decreases n - j,
        {
            out.push(low_first[n - 1 - j]);
            assert(out@ =~= low_first@.reverse().subrange(0, j + 1));
            j = j + 1;
        }
        assert(out@ =~= low_first@.reverse());
        out
    }

    /// The decimal digits of the number, as a text.
    pub fn to_string(&self) -> (r: String)
        ensures
            r@ == ascii_chars(decimal_text(self@)),
    {
        let digits = self.to_decimal();
        proof {
            lemma_decimal_round_trip(self@);
        }
        digits_to_string(&digits)
    }

    /// The hexadecimal digits of the number, in lower case, as a text.
    #[verifier::rlimit(30)]
    pub fn to_hex_string(&self) -> (r: String)
        ensures
            r@ == ascii_chars(hex_text(self@)),
    {
        let digits = self.to_hex();
        proof {
            lemma_hex_digits(self@);
        }
        digits_to_string(&digits)
    }
}

} // verus!
