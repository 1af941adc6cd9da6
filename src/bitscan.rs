//! The bit-scan engine: the position of the lowest set bit of a magnitude,
//! read a byte at a time through a table of trailing-zero counts, with an
//! adaptive probe for very wide values.

use vstd::prelude::*;
use vstd::arithmetic::div_mod::{
    lemma_div_denominator,
    lemma_div_is_strictly_smaller,
    lemma_fundamental_div_mod,
    lemma_fundamental_div_mod_converse,
    lemma_mod_mod,
    lemma_small_mod,
};
use vstd::arithmetic::power2::{lemma2_to64, lemma2_to64_rest, lemma_pow2_adds, lemma_pow2_pos, lemma_pow2_unfold, pow2};
use vstd::bits::lemma_u128_shr_is_div;
use vstd::math::abs;

verus! {

/// Values at or above this many significant bits are scanned with the
/// adaptive probe instead of byte by byte. What `bit_scan` scans after its
/// first byte has at most 120 bits, so from there the byte scan always runs;
/// `TrailingZeroTable::scan_adaptive` is public with the same exact contract
/// as `TrailingZeroTable::scan_bytes`.
pub const ADAPTIVE_SCAN_BITS: u32 = 300;

/// The number of trailing zero bits of a non-zero value (zero for zero).
pub open spec fn trailing_zeros(v: nat) -> nat
    decreases v,
{
    if v == 0 || v % 2 == 1 {
        0
    } else {
        1 + trailing_zeros(v / 2)
    }
}

/// The number of significant bits of `v`: zero for zero.
pub open spec fn bit_length(v: nat) -> nat
    decreases v,
{
    if v == 0 {
        0
    } else {
        1 + bit_length(v / 2)
    }
}

/// The trailing-zero count of one byte, counting all eight bits of a zero byte.
pub open spec fn byte_trailing_zeros(b: nat) -> nat {
    if b == 0 {
        8
    } else {
        trailing_zeros(b)
    }
}

/// `|x >> k|`, where the shift rounds towards negative infinity.
pub open spec fn shifted_magnitude(x: int, k: nat) -> nat {
    abs(x / (pow2(k) as int))
}

/// What `bit_scan` returns: `None` when nothing is left of `|x >> k|`, else
/// the position, counted from bit zero, of its lowest set bit plus `k`.
pub open spec fn bit_scan_spec(x: int, k: nat) -> Option<nat> {
    let v = shifted_magnitude(x, k);
    if v == 0 {
        None
    } else {
        Some(k + trailing_zeros(v))
    }
}

/// Stripping `p` zero bits from the bottom of a value moves its lowest set
/// bit down by `p`.
pub proof fn lemma_trailing_zeros_shift(v: nat, p: nat)
    requires
        v != 0,
        v % pow2(p) == 0,
    ensures
        trailing_zeros(v) == p + trailing_zeros(v / pow2(p)),
        v / pow2(p) != 0,
    decreases p,
{
    lemma_pow2_pos(p);
    if p == 0 {
        pow2_values();
    } else {
        let h = pow2((p - 1) as nat);
        lemma_pow2_unfold(p);
        lemma_pow2_pos((p - 1) as nat);
        lemma_fundamental_div_mod(v as int, pow2(p) as int);
        let k = v / pow2(p);
        assert(v == k * (2 * h)) by (nonlinear_arith)
            requires
                v == pow2(p) * k + v % pow2(p),
                v % pow2(p) == 0,
                pow2(p) == 2 * h;
        assert(v == 2 * (k * h) + 0) by (nonlinear_arith)
            requires
                v == k * (2 * h);
        lemma_fundamental_div_mod_converse(v as int, 2, (k * h) as int, 0);
        lemma_fundamental_div_mod_converse((v / 2) as int, h as int, k as int, 0);
        lemma_trailing_zeros_shift(v / 2, (p - 1) as nat);
        lemma_div_denominator(v as int, 2, h as int);
    }
}

/// A value that is non-zero modulo `2^p` has its lowest set bit among its
/// low `p` bits, where it is the lowest set bit of `v mod 2^p`.
pub proof fn lemma_trailing_zeros_low_bits(v: nat, p: nat)
    requires
        v % pow2(p) != 0,
    ensures
        trailing_zeros(v) == trailing_zeros(v % pow2(p)),
        trailing_zeros(v) < p,
    decreases p,
{
    lemma_pow2_pos(p);
    if p == 0 {
        pow2_values();
    } else {
        let h = pow2((p - 1) as nat);
        lemma_pow2_unfold(p);
        lemma_pow2_pos((p - 1) as nat);
        let m = v % pow2(p);
        // m and v agree modulo 2, since 2 divides 2^p.
        lemma_mod_mod(v as int, 2, h as int);
        if v % 2 == 0 {
            lemma_fundamental_div_mod(v as int, pow2(p) as int);
            lemma_fundamental_div_mod(v as int, 2);
            lemma_fundamental_div_mod((v / 2) as int, h as int);
            let q = v / pow2(p);
            // v = 2h q + m and v = 2 (v / 2), so v / 2 = h q + m / 2 with m / 2 < h.
            assert(m % 2 == 0);
            lemma_fundamental_div_mod(m as int, 2);
            assert((v / 2) as int == h * q + m / 2) by (nonlinear_arith)
                requires
                    v == pow2(p) * q + m,
                    pow2(p) == 2 * h,
                    v == 2 * (v / 2) + v % 2,
                    v % 2 == 0,
                    m == 2 * (m / 2) + m % 2,
                    m % 2 == 0;
            assert(m / 2 < h) by (nonlinear_arith)
                requires
                    m < pow2(p),
                    pow2(p) == 2 * h,
                    m == 2 * (m / 2);
            lemma_fundamental_div_mod_converse((v / 2) as int, h as int, q as int, (m / 2) as int);
            assert(m / 2 != 0);
            lemma_trailing_zeros_low_bits(v / 2, (p - 1) as nat);
        }
    }
}

/// A value below `2^k` has at most `k` significant bits.
pub proof fn lemma_bit_length_bound(v: nat, k: nat)
    requires
        v < pow2(k),
    ensures
        bit_length(v) <= k,
    decreases k,
{
    if v != 0 {
        if k == 0 {
            pow2_values();
        } else {
            lemma_pow2_unfold(k);
            lemma_bit_length_bound(v / 2, (k - 1) as nat);
        }
    }
}

/// Stripping exactly the trailing zeros leaves an odd value.
pub proof fn lemma_trailing_zeros_below(v: nat, s: nat)
    requires
        v != 0,
        s == trailing_zeros(v),
    ensures
        v % pow2(s) == 0,
        (v / pow2(s)) % 2 == 1,
    decreases v,
{
    lemma_pow2_pos(s);
    if v % 2 == 1 {
        pow2_values();
        assert(v / 1 == v);
    } else {
        lemma_trailing_zeros_below(v / 2, trailing_zeros(v / 2));
        let h = pow2((s - 1) as nat);
        lemma_pow2_unfold(s);
        lemma_pow2_pos((s - 1) as nat);
        lemma_fundamental_div_mod(v as int, 2);
        lemma_fundamental_div_mod((v / 2) as int, h as int);
        let q = (v / 2) / h;
        assert(v == (2 * h) * q + 0) by (nonlinear_arith)
            requires
                v == 2 * (v / 2) + v % 2,
                v % 2 == 0,
                v / 2 == h * q + (v / 2) % h,
                (v / 2) % h == 0;
        lemma_fundamental_div_mod_converse(v as int, (2 * h) as int, q as int, 0);
        lemma_div_denominator(v as int, 2, h as int);
    }
}

/// Scanning from bit zero finds the trailing-zero count of `|x|`, and
/// shifting `|x|` right by it leaves an odd value; only zero has no set bit.
pub proof fn lemma_bit_scan_from_zero(x: int)
    ensures
        x == 0 <==> bit_scan_spec(x, 0) is None,
        x != 0 ==> bit_scan_spec(x, 0) == Some(trailing_zeros(abs(x))),
        x != 0 ==> (abs(x) / pow2(trailing_zeros(abs(x)))) % 2 == 1,
        x != 0 ==> abs(x) % pow2(trailing_zeros(abs(x))) == 0,
{
    pow2_values();
    lemma_fundamental_div_mod_converse(x, 1, x, 0);
    if x != 0 {
        lemma_trailing_zeros_below(abs(x), trailing_zeros(abs(x)));
    }
}

/// `1 << p` on `u128` is `2^p`.
pub proof fn lemma_u128_one_shl(p: u32)
    requires
        p < 128,
    ensures
        (1u128 << p) == pow2(p as nat),
        pow2(p as nat) > 0,
    decreases p,
{
    lemma_pow2_pos(p as nat);
    if p == 0 {
        assert(1u128 << 0u32 == 1u128) by (bit_vector);
        pow2_values();
    } else {
        lemma_u128_one_shl((p - 1) as u32);
        assert((1u128 << p) == 2 * (1u128 << ((p - 1) as u32))) by (bit_vector)
            requires
                1 <= p < 128,
        ;
        lemma_pow2_unfold(p as nat);
    }
}

/// A table of the trailing-zero count of every byte value, built once and
/// then only read.
pub struct TrailingZeroTable {
    counts: Vec<u32>,
}

impl TrailingZeroTable {
    /// Every entry holds the trailing-zero count of its index.
    pub closed spec fn wf(&self) -> bool {
        &&& self.counts@.len() == 256
        &&& forall|i: int| 0 <= i < 256 ==> #[trigger] self.counts@[i] as nat == byte_trailing_zeros(i as nat)
    }

    /// The trailing-zero count of one byte.
    pub fn of_byte(&self, b: u8) -> (r: u32)
        requires
            self.wf(),
        ensures
            r == byte_trailing_zeros(b as nat),
    {
        self.counts[b as usize]
    }

    /// The trailing-zero count of a non-zero value, read from its lowest
    /// non-zero byte.
    fn count_trailing_zeros(&self, v: u128) -> (r: u32)
        requires
            self.wf(),
            v != 0,
        ensures
            r == trailing_zeros(v as nat),
            r < 128,
    {
        let low: u128 = v % 256;
        if low != 0 {
            proof {
                pow2_values();
                lemma_trailing_zeros_low_bits(v as nat, 8);
            }
            return self.of_byte(low as u8);
        }
        proof {
            pow2_values();
            lemma_trailing_zeros_shift(v as nat, 8);
            assert(v >> 8u128 == v / 256) by (bit_vector);
        }
        let rest: u128 = v >> 8u128;
        let bits = significant_bits(rest);
        let t = if bits < ADAPTIVE_SCAN_BITS {
            self.scan_bytes(rest)
        } else {
            self.scan_adaptive(rest)
        };
        proof {
            trailing_zeros_below_width(v);
        }
        8 + t
    }

    /// Linear strategy: strip zero bytes one at a time.
    pub fn scan_bytes(&self, v: u128) -> (r: u32)
        requires
            self.wf(),
            v != 0,
        ensures
            r == trailing_zeros(v as nat),
    {
        let mut x: u128 = v;
        let mut t: u32 = 0;
        proof {
            pow2_values();
            trailing_zeros_below_width(v);
        }
        while x % 256 == 0
            invariant
                x != 0,
                t + trailing_zeros(x as nat) == trailing_zeros(v as nat),
                trailing_zeros(v as nat) < 128,
                pow2(8) == 256,
            decreases x,
        {
            proof {
                lemma_trailing_zeros_shift(x as nat, 8);
                assert(x >> 8u128 == x / 256) by (bit_vector);
            }
            x = x >> 8u128;
            t = t + 8;
        }
        proof {
            lemma_trailing_zeros_low_bits(x as nat, 8);
        }
        t + self.of_byte((x % 256) as u8)
    }

    /// Adaptive strategy: probe with a window of half the bit length,
    /// halving it until the window holds only zeros, then strip the window.
    pub fn scan_adaptive(&self, v: u128) -> (r: u32)
        requires
            self.wf(),
            v != 0,
        ensures
            r == trailing_zeros(v as nat),
    {
        let bits = significant_bits(v);
        let mut p: u32 = if bits >= 4 { bits / 2 } else { 1 };
        let mut x: u128 = v;
        let mut t: u32 = 0;
        proof {
            pow2_values();
            trailing_zeros_below_width(v);
        }
        while x % 256 == 0
            invariant
                x != 0,
                1 <= p <= 64,
                t + trailing_zeros(x as nat) == trailing_zeros(v as nat),
                trailing_zeros(v as nat) < 128,
                pow2(8) == 256,
            decreases x,
        {
            proof {
                lemma_u128_one_shl(p);
            }
            while x % (1u128 << p) != 0
                invariant
                    x != 0,
                    x % 256 == 0,
                    1 <= p <= 64,
                    pow2(8) == 256,
                    (1u128 << p) == pow2(p as nat),
                    pow2(p as nat) > 0,
                decreases p,
            {
                proof {
                    if p <= 8 {
                        low_window_of_zero_byte(x as nat, p as nat);
                        lemma_u128_one_shl(p);
                    }
                }
                p = p / 2;
                proof {
                    lemma_u128_one_shl(p);
                }
            }
            proof {
                lemma_u128_one_shl(p);
                lemma_trailing_zeros_shift(x as nat, p as nat);
                lemma_u128_shr_is_div(x, p as u128);
                lemma_pow2_unfold(p as nat);
                lemma_pow2_pos((p - 1) as nat);
                lemma_div_is_strictly_smaller(x as int, pow2(p as nat) as int);
            }
            x = x >> (p as u128);
            t = t + p;
        }
        proof {
            lemma_trailing_zeros_low_bits(x as nat, 8);
        }
        t + self.of_byte((x % 256) as u8)
    }

    /// `bit_scan` against this table.
    pub fn bit_scan(&self, x: i128, from_bit: u32) -> (r: Option<u32>)
        requires
            self.wf(),
            x == 0 || shifted_magnitude(x as int, from_bit as nat) != 0,
        ensures
            r is None <==> x == 0,
            r matches Some(p) ==> bit_scan_spec(x as int, from_bit as nat) == Some(p as nat),
            r is None ==> bit_scan_spec(x as int, from_bit as nat) is None,
    {
        let v = shifted_abs(x, from_bit);
        proof {
            lemma_pow2_pos(from_bit as nat);
            lemma_small_div(0, pow2(from_bit as nat) as int);
        }
        if v == 0 {
            return None;
        }
        let t = self.count_trailing_zeros(v);
        proof {
            if from_bit >= 128 {
                assert(v == 1);
                assert(trailing_zeros(1) == 0);
            }
        }
        Some(from_bit + t)
    }
}

/// For a byte whose bits are all zero, every window of at most eight low
/// bits is zero too.
proof fn low_window_of_zero_byte(x: nat, p: nat)
    requires
        x % 256 == 0,
        p <= 8,
    ensures
        x % pow2(p) == 0,
{
    lemma_pow2_pos(p);
    lemma_pow2_adds(p, (8 - p) as nat);
    pow2_values();
    lemma_pow2_pos((8 - p) as nat);
    lemma_mod_mod(x as int, pow2(p) as int, pow2((8 - p) as nat) as int);
    lemma_small_mod(0, pow2(p));
}

/// The powers of two that the scans rely on.
pub proof fn pow2_values()
    ensures
        pow2(0) == 1,
        pow2(8) == 256,
        pow2(127) == 0x8000_0000_0000_0000_0000_0000_0000_0000,
        pow2(128) == 0x1_0000_0000_0000_0000_0000_0000_0000_0000,
{
    lemma2_to64();
    lemma2_to64_rest();
    lemma_pow2_adds(64, 63);
    lemma_pow2_adds(64, 64);
}

/// A non-zero `u128` has fewer than 128 trailing zeros.
pub proof fn trailing_zeros_below_width(v: u128)
    requires
        v != 0,
    ensures
        trailing_zeros(v as nat) < 128,
{
    pow2_values();
    lemma_small_mod(v as nat, pow2(128));
    lemma_trailing_zeros_low_bits(v as nat, 128);
}

/// The number of significant bits of `v`.
pub fn significant_bits(v: u128) -> (r: u32)
    ensures
        r == bit_length(v as nat),
        r <= 128,
{
    let mut w: u128 = v;
    let mut n: u32 = 0;
    proof {
        pow2_values();
        lemma_bit_length_bound(v as nat, 128);
    }
    while w > 0
        invariant
            n + bit_length(w as nat) == bit_length(v as nat),
            bit_length(v as nat) <= 128,
        decreases w,
    {
        w = w / 2;
        n = n + 1;
    }
    n
}

/// `|x >> k|` for the shift that rounds towards negative infinity.
fn shifted_abs(x: i128, k: u32) -> (v: u128)
    ensures
        v == shifted_magnitude(x as int, k as nat),
        k >= 128 ==> v <= 1,
{
    proof {
        lemma_pow2_pos(k as nat);
        pow2_values();
        if k >= 128 {
            vstd::arithmetic::power2::lemma_pow2_strictly_increases(127, k as nat);
        }
    }
    if x >= 0 {
        let a = x as u128;
        if k >= 128 {
            proof {
                lemma_small_div(x as int, pow2(k as nat) as int);
            }
            0
        } else {
            proof {
                lemma_u128_shr_is_div(a, k as u128);
            }
            a >> (k as u128)
        }
    } else {
        // x = -(m + 1) with m >= 0, and floor(-(m + 1) / d) = -(m / d) - 1.
        let m: u128 = (-(x + 1)) as u128;
        proof {
            lemma_negative_floor_div(m as int, pow2(k as nat) as int);
        }
        if k >= 128 {
            proof {
                lemma_small_div(m as int, pow2(k as nat) as int);
            }
            1
        } else {
            proof {
                lemma_u128_shr_is_div(m, k as u128);
                assert(m >> (k as u128) < 0xffff_ffff_ffff_ffff_ffff_ffff_ffff_ffffu128) by (bit_vector)
                    requires
                        m < 0x8000_0000_0000_0000_0000_0000_0000_0000u128,
                ;
            }
            (m >> (k as u128)) + 1
        }
    }
}

proof fn lemma_small_div(x: int, d: int)
    requires
        0 <= x < d,
    ensures
        x / d == 0,
{
    lemma_fundamental_div_mod_converse(x, d, 0, x);
}

/// `floor(-(m + 1) / d) == -(m / d) - 1` for `m >= 0`, `d > 0`.
proof fn lemma_negative_floor_div(m: int, d: int)
    requires
        m >= 0,
        d > 0,
    ensures
        (-(m + 1)) / d == -(m / d) - 1,
{
    lemma_fundamental_div_mod(m, d);
    let q = m / d;
    let r = m % d;
    assert(-(m + 1) == d * (-q - 1) + (d - r - 1)) by (nonlinear_arith)
        requires
            m == d * q + r,
    ;
    lemma_fundamental_div_mod_converse(-(m + 1), d, -q - 1, d - r - 1);
}

/// Builds the byte trailing-zero table.
pub fn create_small_trailing() -> (r: TrailingZeroTable)
    ensures
        r.wf(),
{
    let mut counts: Vec<u32> = Vec::new();
    let mut i: u32 = 0;
    while i < 256
        invariant
            i <= 256,
            counts@.len() == i,
            forall|j: int| 0 <= j < i ==> #[trigger] counts@[j] as nat == byte_trailing_zeros(j as nat),
        decreases 256 - i,
    {
        let mut val: u32 = 0;
        let mut num: u32 = i;
        while num % 2 == 0 && val < 8
            invariant
                i < 256,
                val <= 8,
                i == 0 ==> num == 0,
                i != 0 ==> num != 0 && val + trailing_zeros(num as nat) == trailing_zeros(i as nat),
            decreases 8 - val,
        {
            num = num / 2;
            val = val + 1;
        }
        proof {
            if i != 0 {
                pow2_values();
                lemma_small_mod(i as nat, 256);
                lemma_trailing_zeros_low_bits(i as nat, 8);
            }
        }
        counts.push(val);
        i = i + 1;
    }
    TrailingZeroTable { counts }
}

/// The position of the lowest set bit of `|x >> from_bit|`, counted from bit
/// zero of `x`; `None` exactly when `x` is zero. A non-zero `x` must keep a
/// set bit after the shift.
pub fn bit_scan1(x: i128, from_bit: u32) -> (r: Option<u32>)
    requires
        x == 0 || shifted_magnitude(x as int, from_bit as nat) != 0,
    ensures
        r is None <==> x == 0,
        r matches Some(p) ==> bit_scan_spec(x as int, from_bit as nat) == Some(p as nat),
        r is None ==> bit_scan_spec(x as int, from_bit as nat) is None,
{
    let table = create_small_trailing();
    table.bit_scan(x, from_bit)
}

} // verus!
