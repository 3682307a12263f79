//! The GDS-II 8-byte real number format ("excess-64"): a sign bit, a 7-bit
//! base-16 exponent biased by 64, and a 56-bit mantissa, denoting the value
//! `sign * mantissa / 2^56 * 16^(exponent - 64)`. An all-zero pattern denotes
//! exactly zero.
//!
//! The codec here works on IEEE-754 double-precision values through their raw
//! bit patterns, so that every step is integer arithmetic: a double is
//! `sign * m * 2^(e2 - 1075)` with `m` carrying 53 significant bits, and the
//! conversion aligns `m` to a multiple-of-4 power of two. A double whose
//! exponent fits the excess-64 range converts without any loss, which the
//! round-trip lemma at the end states.

use vstd::prelude::*;

verus! {

use vstd::arithmetic::div_mod::lemma_fundamental_div_mod;
use vstd::arithmetic::div_mod::lemma_mod_bound;
use vstd::arithmetic::div_mod::lemma_div_is_ordered;

/// A decoded excess-64 real: `sign * mant / 2^56 * 16^(exp - 64)`.
#[derive(Debug, Clone, Copy, PartialEq, Eq, Structural)]
pub struct Real8 {
    /// Sign: true for negative.
    pub neg: bool,
    /// Base-16 exponent biased by 64, in `0 ..= 127`.
    pub exp: u8,
    /// 56-bit mantissa, below `2^56`.
    pub mant: u64,
}

/// `2^n`.
pub open spec fn pow2_of(n: nat) -> int
    decreases n,
{
    if n == 0 {
        1
    } else {
        2 * pow2_of((n - 1) as nat)
    }
}

/// `2^t` for the small alignment shifts (0 to 3 binary digits).
pub open spec fn pow2_small(t: int) -> int {
    if t <= 0 {
        1
    } else if t == 1 {
        2
    } else if t == 2 {
        4
    } else {
        8
    }
}

/// The number of binary digits of `m`.
pub open spec fn bit_len(m: nat) -> nat
    decreases m,
{
    if m == 0 {
        0
    } else {
        1 + bit_len(m / 2)
    }
}

/// `pow2_of` at the concrete exponents the codec uses.
pub proof fn lemma_pow2_vals()
    ensures
        pow2_of(52) == 0x10_0000_0000_0000,
        pow2_of(53) == 0x20_0000_0000_0000,
        pow2_of(54) == 0x40_0000_0000_0000,
        pow2_of(55) == 0x80_0000_0000_0000,
        pow2_of(56) == 0x100_0000_0000_0000,
        pow2_of(63) == 0x8000_0000_0000_0000,
        pow2_of(64) == 0x1_0000_0000_0000_0000,
{
    reveal_with_fuel(pow2_of, 65);
}

/// Powers of two are positive.
pub proof fn lemma_pow2_pos(n: nat)
    ensures
        pow2_of(n) >= 1,
    decreases n,
{
    if n > 0 {
        lemma_pow2_pos((n - 1) as nat);
    }
}

/// `pow2_of` is monotone.
pub proof fn lemma_pow2_mono(a: nat, b: nat)
    requires
        a <= b,
    ensures
        pow2_of(a) <= pow2_of(b),
    decreases b,
{
    lemma_pow2_pos(a);
    if a < b {
        lemma_pow2_mono(a, (b - 1) as nat);
    }
}

/// `2^a * 2^b == 2^(a + b)`.
pub proof fn lemma_pow2_mul(a: nat, b: nat)
    ensures
        pow2_of(a) * pow2_of(b) == pow2_of(a + b),
    decreases a,
{
    if a == 0 {
    } else {
        lemma_pow2_mul((a - 1) as nat, b);
        assert(pow2_of(a) * pow2_of(b) == 2 * (pow2_of((a - 1) as nat) * pow2_of(b)))
            by (nonlinear_arith)
            requires
                pow2_of(a) == 2 * pow2_of((a - 1) as nat),
        ;
    }
}

/// Every number is below `2^bit_len`.
pub proof fn lemma_bit_len_upper(m: nat)
    ensures
        m < pow2_of(bit_len(m)),
    decreases m,
{
    if m == 0 {
    } else {
        lemma_bit_len_upper(m / 2);
        assert(m <= 2 * (m / 2) + 1);
    }
}

/// A positive number reaches `2^(bit_len - 1)`.
pub proof fn lemma_bit_len_lower(m: nat)
    requires
        m > 0,
    ensures
        bit_len(m) >= 1,
        m >= pow2_of((bit_len(m) - 1) as nat),
    decreases m,
{
    if m == 1 {
        reveal_with_fuel(bit_len, 3);
    } else {
        lemma_bit_len_lower(m / 2);
        assert(m >= 2 * (m / 2));
    }
}

/// If `m < 2^k` then `bit_len(m) <= k`.
pub proof fn lemma_bit_len_below(m: nat, k: nat)
    requires
        m < pow2_of(k),
    ensures
        bit_len(m) <= k,
    decreases k,
{
    if k == 0 {
        lemma_pow2_pos(0);
    } else if m > 0 {
        lemma_bit_len_below(m / 2, (k - 1) as nat);
    }
}

/// `bit_len(m) == k` exactly when `2^(k-1) <= m < 2^k`.
pub proof fn lemma_bit_len_range(m: nat, k: nat)
    requires
        k >= 1,
        pow2_of((k - 1) as nat) <= m,
        m < pow2_of(k),
    ensures
        bit_len(m) == k,
    decreases k,
{
    if k == 1 {
        assert(m == 1);
        reveal_with_fuel(bit_len, 3);
    } else {
        lemma_bit_len_range(m / 2, (k - 1) as nat);
    }
}

impl Real8 {
    /// The two field-width bounds of the format.
    pub open spec fn wf(self) -> bool {
        self.exp <= 127 && self.mant < 0x100_0000_0000_0000
    }

    /// The value zero (the all-zero byte pattern).
    pub fn zero() -> (r: Self)
        ensures
            r == (Real8 { neg: false, exp: 0, mant: 0 }),
            r.wf(),
    {
        Self { neg: false, exp: 0, mant: 0 }
    }

    /// The value one: mantissa `2^52`, exponent 65 (`16^1`).
    pub fn one() -> (r: Self)
        ensures
            r == (Real8 { neg: false, exp: 65, mant: 0x10_0000_0000_0000 }),
            r.wf(),
    {
        Self { neg: false, exp: 65, mant: 0x10_0000_0000_0000 }
    }

    /// The eight bytes of the record payload: sign and exponent packed into
    /// the first byte, then the mantissa big-endian.
    pub fn to_bytes(&self) -> (r: [u8; 8])
        requires
            self.wf(),
        ensures
            r@ == bytes_of_real8(*self),
    {
        let sign_bit: u8 = if self.neg {
            128
        } else {
            0
        };
        let b0: u8 = sign_bit + self.exp;
        let m = self.mant;
        let r: [u8; 8] = [
            b0,
            ((m / 0x1_0000_0000_0000) % 256) as u8,
            ((m / 0x100_0000_0000) % 256) as u8,
            ((m / 0x1_0000_0000) % 256) as u8,
            ((m / 0x100_0000) % 256) as u8,
            ((m / 0x1_0000) % 256) as u8,
            ((m / 0x100) % 256) as u8,
            (m % 256) as u8,
        ];
        proof {
            assert(r@ =~= bytes_of_real8(*self));
        }
        r
    }

    /// Reads a real from eight payload bytes.
    pub fn from_bytes(bytes: &[u8]) -> (r: Self)
        requires
            bytes@.len() == 8,
        ensures
            r == real8_of_bytes(bytes@),
            r.wf(),
    {
        let neg: bool = bytes[0] >= 128;
        let exp: u8 = bytes[0] % 128;
        let mut m: u64 = 0;
        let mut idx: usize = 1;
        while idx < 8
            invariant
                1 <= idx <= 8,
                bytes@.len() == 8,
                m == mant_prefix(bytes@, idx as int),
                m < pow256((idx - 1) as nat),
            decreases 8 - idx,
        {
            proof {
                reveal_with_fuel(pow256, 9);
                assert(m * 256 + bytes@[idx as int] < pow256(idx as nat)) by (nonlinear_arith)
                    requires
                        m < pow256((idx - 1) as nat),
                        bytes@[idx as int] < 256,
                        pow256((idx - 1) as nat) * 256 == pow256(idx as nat),
                ;
            }
            m = m * 256 + bytes[idx] as u64;
            idx = idx + 1;
        }
        proof {
            reveal_with_fuel(pow256, 9);
        }
        Self { neg, exp, mant: m }
    }
}

/// `256^n`.
pub open spec fn pow256(n: nat) -> int
    decreases n,
{
    if n == 0 {
        1
    } else {
        256 * pow256((n - 1) as nat)
    }
}

/// The first `k - 1` mantissa bytes of a payload read as a big-endian number.
pub open spec fn mant_prefix(bytes: Seq<u8>, k: int) -> int
    decreases k,
{
    if k <= 1 {
        0
    } else {
        mant_prefix(bytes, k - 1) * 256 + bytes[k - 1]
    }
}

/// The structure a wellformed real packs into eight bytes.
pub open spec fn bytes_of_real8(r: Real8) -> Seq<u8> {
    seq![
        ((if r.neg { 128int } else { 0int }) + r.exp) as u8,
        ((r.mant / 0x1_0000_0000_0000) % 256) as u8,
        ((r.mant / 0x100_0000_0000) % 256) as u8,
        ((r.mant / 0x1_0000_0000) % 256) as u8,
        ((r.mant / 0x100_0000) % 256) as u8,
        ((r.mant / 0x1_0000) % 256) as u8,
        ((r.mant / 0x100) % 256) as u8,
        (r.mant % 256) as u8,
    ]
}

/// The real encoded by eight payload bytes.
pub open spec fn real8_of_bytes(bytes: Seq<u8>) -> Real8 {
    Real8 {
        neg: bytes[0] >= 128,
        exp: (bytes[0] % 128) as u8,
        mant: mant_prefix(bytes, 8) as u64,
    }
}

/// Packing a wellformed real into bytes and reading it back is the identity.
pub proof fn lemma_real8_bytes_roundtrip(r: Real8)
    requires
        r.wf(),
    ensures
        real8_of_bytes(bytes_of_real8(r)) == r,
{
    let b = bytes_of_real8(r);
    let m: int = r.mant as int;
    let m1: int = m / 256;
    let m2: int = m1 / 256;
    let m3: int = m2 / 256;
    let m4: int = m3 / 256;
    let m5: int = m4 / 256;
    let m6: int = m5 / 256;
    lemma_quot_chain(m);
    lemma_fundamental_div_mod(m, 256);
    lemma_fundamental_div_mod(m1, 256);
    lemma_fundamental_div_mod(m2, 256);
    lemma_fundamental_div_mod(m3, 256);
    lemma_fundamental_div_mod(m4, 256);
    lemma_fundamental_div_mod(m5, 256);
    lemma_mod_bound(m, 256);
    lemma_mod_bound(m1, 256);
    lemma_mod_bound(m2, 256);
    lemma_mod_bound(m3, 256);
    lemma_mod_bound(m4, 256);
    lemma_mod_bound(m5, 256);
    lemma_div_is_ordered(m, 0xFF_FFFF_FFFF_FFFF, 0x1_0000_0000_0000);
    assert(0xFF_FFFF_FFFF_FFFFint / 0x1_0000_0000_0000 == 255);
    assert(m6 == m / 0x1_0000_0000_0000 && m6 < 256 && m6 >= 0);
    assert(mant_prefix(b, 8) == ((((((b[1] * 256 + b[2]) * 256 + b[3]) * 256 + b[4]) * 256 + b[5])
        * 256 + b[6]) * 256 + b[7])) by {
        reveal_with_fuel(mant_prefix, 9);
    }
    assert(b[1] == m6 % 256 && m6 % 256 == m6);
    assert(b[2] == m5 % 256);
    assert(b[3] == m4 % 256);
    assert(b[4] == m3 % 256);
    assert(b[5] == m2 % 256);
    assert(b[6] == m1 % 256);
    assert(b[7] == m % 256);
    assert(mant_prefix(b, 8) == m);
}

/// The nested byte quotients of a 56-bit number agree with division by the
/// corresponding powers of 256.
proof fn lemma_quot_chain(m: int)
    requires
        0 <= m,
    ensures
        m / 256 / 256 == m / 0x1_0000,
        m / 0x1_0000 / 256 == m / 0x100_0000,
        m / 0x100_0000 / 256 == m / 0x1_0000_0000,
        m / 0x1_0000_0000 / 256 == m / 0x100_0000_0000,
        m / 0x100_0000_0000 / 256 == m / 0x1_0000_0000_0000,
        m / 0x1_0000_0000_0000 / 256 == m / 0x100_0000_0000_0000,
{
    vstd::arithmetic::div_mod::lemma_div_denominator(m, 256, 256);
    vstd::arithmetic::div_mod::lemma_div_denominator(m, 0x1_0000, 256);
    vstd::arithmetic::div_mod::lemma_div_denominator(m, 0x100_0000, 256);
    vstd::arithmetic::div_mod::lemma_div_denominator(m, 0x1_0000_0000, 256);
    vstd::arithmetic::div_mod::lemma_div_denominator(m, 0x100_0000_0000, 256);
    vstd::arithmetic::div_mod::lemma_div_denominator(m, 0x1_0000_0000_0000, 256);
}

/// The excess-64 real denoted by an IEEE-754 double bit pattern, with the
/// saturation a bounded exponent field forces: magnitudes at or above
/// `16^63` stick to the largest finite real, magnitudes below the format's
/// smallest step fall to zero, and digits shifted past the mantissa's low
/// end are truncated.
#[verifier::opaque]
pub open spec fn real8_of_f64_bits(bits: u64) -> Real8 {
    let neg = bits >= 0x8000_0000_0000_0000u64;
    let e2 = (bits / 0x10_0000_0000_0000) % 0x800;
    let frac = bits % 0x10_0000_0000_0000;
    if e2 == 0 && frac == 0 {
        Real8 { neg: false, exp: 0, mant: 0 }
    } else {
        let eff_e2: int = if e2 == 0 {
            1
        } else {
            e2 as int
        };
        let m: int = if e2 == 0 {
            frac as int
        } else {
            frac + 0x10_0000_0000_0000
        };
        let q: int = (eff_e2 + 313) / 4 - 269;
        let t: int = (eff_e2 + 313) % 4;
        let mant0: int = m * pow2_small(t);
        if q > 127 {
            Real8 { neg, exp: 127, mant: 0xFF_FFFF_FFFF_FFFF }
        } else if q >= 0 {
            Real8 { neg, exp: q as u8, mant: mant0 as u64 }
        } else if 4 * (-q) >= 64 {
            Real8 { neg, exp: 0, mant: 0 }
        } else {
            Real8 { neg, exp: 0, mant: (mant0 / pow2_of((4 * (-q)) as nat)) as u64 }
        }
    }
}

/// The IEEE-754 double bit pattern denoted by a wellformed excess-64 real:
/// the 56-bit mantissa is normalised to 53 significant bits, rounding to
/// nearest (ties to even) when binary digits must be dropped. Every
/// wellformed real fits the double's exponent range.
#[verifier::opaque]
pub open spec fn f64_bits_of_real8(r: Real8) -> u64 {
    let sign: int = if r.neg {
        0x8000_0000_0000_0000
    } else {
        0
    };
    if r.mant == 0 {
        sign as u64
    } else {
        let b: int = bit_len(r.mant as nat) as int;
        if b <= 53 {
            let m2: int = r.mant * pow2_of((53 - b) as nat);
            let e2: int = 4 * r.exp + 710 + b;
            (sign + e2 * 0x10_0000_0000_0000 + (m2 - 0x10_0000_0000_0000)) as u64
        } else {
            let f: int = pow2_small(b - 53);
            let keep: int = r.mant as int / f;
            let rem: int = r.mant as int % f;
            let half: int = f / 2;
            let rounded: int = if rem > half || (rem == half && keep % 2 == 1) {
                keep + 1
            } else {
                keep
            };
            let e2: int = 4 * r.exp + 710 + b;
            if rounded == 0x20_0000_0000_0000 {
                (sign + (e2 + 1) * 0x10_0000_0000_0000) as u64
            } else {
                (sign + e2 * 0x10_0000_0000_0000 + (rounded - 0x10_0000_0000_0000)) as u64
            }
        }
    }
}

/// Converts an IEEE-754 double, given as its raw bits, to the excess-64
/// format. Infinities and NaN (exponent field all ones) are excluded.
pub fn real8_from_f64_bits(bits: u64) -> (r: Real8)
    requires
        (bits / 0x10_0000_0000_0000) % 0x800 != 0x7FF,
    ensures
        r == real8_of_f64_bits(bits),
        r.wf(),
{
    proof {
        reveal(real8_of_f64_bits);
    }
    let neg: bool = bits >= 0x8000_0000_0000_0000;
    let e2: u64 = (bits / 0x10_0000_0000_0000) % 0x800;
    let frac: u64 = bits % 0x10_0000_0000_0000;
    proof {
        lemma_mod_bound(bits as int / 0x10_0000_0000_0000, 0x800);
        lemma_mod_bound(bits as int, 0x10_0000_0000_0000);
    }
    if e2 == 0 && frac == 0 {
        return Real8 { neg: false, exp: 0, mant: 0 };
    }
    let eff_e2: u64 = if e2 == 0 {
        1
    } else {
        e2
    };
    let m: u64 = if e2 == 0 {
        frac
    } else {
        frac + 0x10_0000_0000_0000
    };
    let qb: u64 = (eff_e2 + 313) / 4;
    let t: u64 = (eff_e2 + 313) % 4;
    proof {
        lemma_mod_bound(eff_e2 + 313, 4);
        lemma_fundamental_div_mod(eff_e2 + 313, 4);
        lemma_div_is_ordered(314, eff_e2 + 313, 4);
        lemma_div_is_ordered(eff_e2 + 313, 2360, 4);
    }
    let f: u64 = if t == 0 {
        1
    } else if t == 1 {
        2
    } else if t == 2 {
        4
    } else {
        8
    };
    proof {
        assert(m * f < 0x100_0000_0000_0000 && m * f == m as int * pow2_small(t as int))
            by (nonlinear_arith)
            requires
                m < 0x20_0000_0000_0000,
                f == pow2_small(t as int),
                f <= 8,
        ;
    }
    let mant0: u64 = m * f;
    if qb > 269 + 127 {
        Real8 { neg, exp: 127, mant: 0xFF_FFFF_FFFF_FFFF }
    } else if qb >= 269 {
        Real8 { neg, exp: (qb - 269) as u8, mant: mant0 }
    } else if 4 * (269 - qb) >= 64 {
        Real8 { neg, exp: 0, mant: 0 }
    } else {
        let sh: u64 = 4 * (269 - qb);
        let mut divisor: u64 = 1;
        let mut k: u64 = 0;
        proof {
            lemma_pow2_mono(0, sh as nat);
        }
        while k < sh
            invariant
                0 <= k <= sh < 64,
                divisor == pow2_of(k as nat),
                divisor <= pow2_of(sh as nat),
            decreases sh - k,
        {
            proof {
                lemma_pow2_mono((k + 1) as nat, sh as nat);
                lemma_pow2_mono(sh as nat, 63);
                lemma_pow2_vals();
            }
            divisor = divisor * 2;
            k = k + 1;
        }
        proof {
            lemma_pow2_pos(sh as nat);
        }
        Real8 { neg, exp: 0, mant: mant0 / divisor }
    }
}

/// Converts a wellformed excess-64 real to the bits of the nearest
/// IEEE-754 double (ties to even).
pub fn real8_to_f64_bits(r: Real8) -> (bits: u64)
    requires
        r.wf(),
    ensures
        bits == f64_bits_of_real8(r),
{
    proof {
        reveal(f64_bits_of_real8);
    }
    let sign: u64 = if r.neg {
        0x8000_0000_0000_0000
    } else {
        0
    };
    if r.mant == 0 {
        return sign;
    }
    let b: u64 = bit_length(r.mant);
    proof {
        lemma_pow2_vals();
        lemma_bit_len_below(r.mant as nat, 56);
        lemma_bit_len_lower(r.mant as nat);
        lemma_bit_len_upper(r.mant as nat);
    }
    if b <= 53 {
        let ghost bl: nat = bit_len(r.mant as nat);
        let mut m2: u64 = r.mant;
        let mut k: u64 = b;
        while k < 53
            invariant
                b <= k <= 53,
                b == bl,
                bl == bit_len(r.mant as nat),
                1 <= b,
                m2 == r.mant * pow2_of((k - b) as nat),
                pow2_of((k - 1) as nat) <= m2 < pow2_of(k as nat),
            decreases 53 - k,
        {
            proof {
                lemma_pow2_mono((k + 1) as nat, 53);
                lemma_pow2_vals();
                assert(m2 * 2 == r.mant * pow2_of((k + 1 - b) as nat)) by (nonlinear_arith)
                    requires
                        m2 == r.mant * pow2_of((k - b) as nat),
                        pow2_of((k + 1 - b) as nat) == 2 * pow2_of((k - b) as nat),
                ;
            }
            m2 = m2 * 2;
            k = k + 1;
        }
        proof {
            lemma_pow2_vals();
        }
        let e2: u64 = 4 * (r.exp as u64) + 710 + b;
        sign + e2 * 0x10_0000_0000_0000 + (m2 - 0x10_0000_0000_0000)
    } else {
        let f: u64 = if b == 54 {
            2
        } else if b == 55 {
            4
        } else {
            8
        };
        proof {
            lemma_pow2_vals();
            assert(f == pow2_small(b as int - 53));
            assert(r.mant / f < 0x20_0000_0000_0000) by (nonlinear_arith)
                requires
                    r.mant < pow2_of(bit_len(r.mant as nat)),
                    b == bit_len(r.mant as nat),
                    54 <= b <= 56,
                    f == pow2_small(b as int - 53),
                    pow2_of(54) == 2 * 0x20_0000_0000_0000,
                    pow2_of(55) == 4 * 0x20_0000_0000_0000,
                    pow2_of(56) == 8 * 0x20_0000_0000_0000,
            ;
        }
        let keep: u64 = r.mant / f;
        let rem: u64 = r.mant % f;
        let half: u64 = f / 2;
        let rounded: u64 = if rem > half || (rem == half && keep % 2 == 1) {
            keep + 1
        } else {
            keep
        };
        let e2: u64 = 4 * (r.exp as u64) + 710 + b;
        if rounded == 0x20_0000_0000_0000 {
            sign + (e2 + 1) * 0x10_0000_0000_0000
        } else {
            proof {
                lemma_mod_bound(r.mant as int, f as int);
                assert(keep >= 0x10_0000_0000_0000) by (nonlinear_arith)
                    requires
                        r.mant >= pow2_of((b - 1) as nat),
                        b == bit_len(r.mant as nat),
                        54 <= b <= 56,
                        f == pow2_small(b as int - 53),
                        keep == r.mant / f,
                        pow2_of(53) == 2 * 0x10_0000_0000_0000,
                        pow2_of(54) == 4 * 0x10_0000_0000_0000,
                        pow2_of(55) == 8 * 0x10_0000_0000_0000,
                ;
            }
            sign + e2 * 0x10_0000_0000_0000 + (rounded - 0x10_0000_0000_0000)
        }
    }
}

/// The number of binary digits of a `u64`.
pub fn bit_length(m: u64) -> (r: u64)
    ensures
        r == bit_len(m as nat),
        r <= 64,
{
    proof {
        lemma_pow2_vals();
        lemma_bit_len_below(m as nat, 64);
    }
    let mut x: u64 = m;
    let mut r: u64 = 0;
    while x > 0
        invariant
            bit_len(m as nat) == r + bit_len(x as nat),
            bit_len(m as nat) <= 64,
        decreases x,
    {
        x = x / 2;
        r = r + 1;
    }
    r
}

/// Round-trip exactness: a double whose magnitude lies in the band the
/// excess-64 format represents exactly (binary exponent field between 763
/// and 1274) converts to a real and back to the identical bit pattern, and
/// zero round-trips as well. Smaller magnitudes lose truncated digits and
/// larger ones saturate, so the band is the strongest identity available.
pub proof fn lemma_real8_f64_roundtrip(bits: u64)
    requires
        bits == 0 || 763 <= (bits / 0x10_0000_0000_0000) % 0x800 <= 1274,
    ensures
        f64_bits_of_real8(real8_of_f64_bits(bits)) == bits,
{
    reveal(real8_of_f64_bits);
    reveal(f64_bits_of_real8);
    lemma_pow2_vals();
    if bits == 0 {
        assert(real8_of_f64_bits(0) == (Real8 { neg: false, exp: 0, mant: 0 }));
    } else {
        let neg = bits >= 0x8000_0000_0000_0000u64;
        let e2: int = ((bits / 0x10_0000_0000_0000) % 0x800) as int;
        let frac: int = (bits % 0x10_0000_0000_0000) as int;
        lemma_mod_bound(bits as int, 0x10_0000_0000_0000);
        let m: int = frac + 0x10_0000_0000_0000;
        let q: int = (e2 + 313) / 4 - 269;
        let t: int = (e2 + 313) % 4;
        lemma_mod_bound(e2 + 313, 4);
        lemma_fundamental_div_mod(e2 + 313, 4);
        lemma_div_is_ordered(1076, e2 + 313, 4);
        lemma_div_is_ordered(e2 + 313, 1587, 4);
        assert(269 <= (e2 + 313) / 4 <= 396) by {
            assert(1076int / 4 == 269 && 1587int / 4 == 396);
        }
        let r = real8_of_f64_bits(bits);
        assert(r.neg == neg && r.exp == q && r.mant == m * pow2_small(t));
        assert(0x10_0000_0000_0000 <= m < 0x20_0000_0000_0000);
        lemma_bit_len_shift(m as nat, t as nat);
        assert(bit_len(r.mant as nat) == 53 + t);
        let b: int = bit_len(r.mant as nat) as int;
        let sign: int = if neg {
            0x8000_0000_0000_0000
        } else {
            0
        };
        assert(4 * q + 710 + b == e2);
        if t == 0 {
            assert(r.mant == m * 1 == m);
            assert(pow2_of((53 - b) as nat) == 1);
            assert(f64_bits_of_real8(r) == (sign + e2 * 0x10_0000_0000_0000 + (m * 1
                - 0x10_0000_0000_0000)) as u64);
            lemma_recompose(bits, neg, e2, frac);
        } else {
            let f: int = pow2_small(t);
            assert(b > 53);
            assert(r.mant as int / f == m && r.mant as int % f == 0) by (nonlinear_arith)
                requires
                    r.mant == m * f,
                    f >= 2,
                    m >= 0,
            ;
            assert(f64_bits_of_real8(r) == (sign + e2 * 0x10_0000_0000_0000 + (m
                - 0x10_0000_0000_0000)) as u64);
            lemma_recompose(bits, neg, e2, frac);
        }
    }
}

/// Shifting a 53-digit number left by `t` gives `53 + t` binary digits.
proof fn lemma_bit_len_shift(m: nat, t: nat)
    requires
        0x10_0000_0000_0000 <= m < 0x20_0000_0000_0000,
        t <= 3,
    ensures
        bit_len((m * pow2_small(t as int)) as nat) == 53 + t,
{
    lemma_pow2_vals();
    let p: int = pow2_small(t as int);
    assert(pow2_of(52 + t) == pow2_of(52) * p && pow2_of(53 + t) == pow2_of(53) * p) by {
        lemma_pow2_mul(52, t);
        lemma_pow2_mul(53, t);
        assert(pow2_of(t) == p) by {
            reveal_with_fuel(pow2_of, 4);
        }
    }
    assert(pow2_of(52 + t) <= m * p && m * p < pow2_of(53 + t)) by (nonlinear_arith)
        requires
            pow2_of(52) <= m < pow2_of(53),
            p >= 1,
            pow2_of(52 + t) == pow2_of(52) * p,
            pow2_of(53 + t) == pow2_of(53) * p,
    ;
    lemma_bit_len_range((m * p) as nat, 53 + t);
}

/// Splitting a double's bits into sign, exponent and fraction and putting
/// them back together restores the bits.
proof fn lemma_recompose(bits: u64, neg: bool, e2: int, frac: int)
    requires
        neg == (bits >= 0x8000_0000_0000_0000u64),
        e2 == (bits / 0x10_0000_0000_0000) % 0x800,
        frac == bits % 0x10_0000_0000_0000,
        e2 < 0x7FF,
    ensures
        ((if neg {
            0x8000_0000_0000_0000int
        } else {
            0int
        }) + e2 * 0x10_0000_0000_0000 + frac) as u64 == bits,
{
    assert(((if neg {
        0x8000_0000_0000_0000int
    } else {
        0int
    }) + e2 * 0x10_0000_0000_0000 + frac) == bits) by (nonlinear_arith)
        requires
            neg == (bits >= 0x8000_0000_0000_0000u64),
            e2 == (bits / 0x10_0000_0000_0000) % 0x800,
            frac == bits % 0x10_0000_0000_0000,
            bits < 0x1_0000_0000_0000_0000,
    ;
}

} // verus!
