//! Scalar modular-arithmetic primitives over the prime field Z_Q.
//!
//! Each function is a pure, total computation whose numeric contract is
//! range-based: callers must respect the documented input magnitudes, and in
//! exchange the result is congruent to the mathematical value modulo Q and
//! lies in the stated range.

use vstd::prelude::*;
use vstd::arithmetic::div_mod::lemma_fundamental_div_mod;
use vstd::arithmetic::div_mod::lemma_mod_multiples_basic;
use vstd::arithmetic::div_mod::lemma_mod_add_multiples_vanish;
use vstd::arithmetic::div_mod::lemma_mod_multiples_vanish;
use vstd::arithmetic::div_mod::lemma_small_mod;

verus! {

/// `a` and `b` represent the same residue class modulo Q.
pub open spec fn cong(a: int, b: int) -> bool {
    (a - b) % (crate::params::Q as int) == 0
}

/// Montgomery reduction with R = 2^16: given a double-width value `x`,
/// returns `r` with `r * R ≡ x (mod Q)` and `|r * R - x| <= Q * 2^15`.
///
/// In particular, when `|x| < Q * 2^15` the result is bounded by `|r| < Q`.
/// The computation uses the fixed inverse 62209 = Q^-1 mod 2^16 and two
/// multiply-subtract steps; there is no division by Q.
pub fn mont_reduce(x: i32) -> (r: i16)
    requires
        -0x4000_0000 <= x <= 0x4000_0000,
    ensures
        cong(r as int * 65536, x as int),
        x - 109084672 <= r as int * 65536 <= x + 109084672,
{
    let m: i16 = ((((x as u16) as u32) * 62209) as u16) as i16;
    let d: i32 = x - (m as i32) * 3329;
    assert(((d >> 16) as i16) as i32 * 65536 == d) by (bit_vector)
        requires
            -1182826496 <= d <= 1182826496,
            m == ((((x as u16) as u32) * 62209) as u16) as i16,
            d == x - (m as i32) * 3329,
    ;
    let r: i16 = (d >> 16) as i16;
    proof {
        assert(r as int * 65536 == d as int);
        lemma_mod_multiples_basic(-(m as int), crate::params::Q as int);
        assert(r as int * 65536 - x as int == (-(m as int)) * 3329);
    }
    r
}

/// Multiplying a congruence by 2^16 can be cancelled: 2^16 is invertible
/// modulo Q, with inverse 169 (2^16 * 169 = Q * 3327 + 1).
pub proof fn lemma_cancel_pow16(b: int)
    requires
        (b * 65536) % 3329 == 0,
    ensures
        b % 3329 == 0,
{
    lemma_fundamental_div_mod(b * 65536, 3329);
    let k = (b * 65536) / 3329;
    assert(b * 65536 == 3329 * k);
    assert(b * 11075584 == 562601 * k);
    assert(b == 3329 * (169 * k - 3327 * b));
    lemma_mod_multiples_basic(169 * k - 3327 * b, 3329);
    assert((3329 * (169 * k - 3327 * b)) % 3329 == 0);
}

/// A congruence survives scaling by any factor.
pub proof fn lemma_cong_scale(a: int, b: int, c: int)
    requires
        cong(a, b),
    ensures
        cong(a * c, b * c),
{
    lemma_fundamental_div_mod(a - b, 3329);
    let j = (a - b) / 3329;
    assert((a - b) * c == 3329 * (j * c)) by (nonlinear_arith)
        requires
            a - b == 3329 * j,
    ;
    assert(a * c - b * c == 3329 * (j * c)) by (nonlinear_arith)
        requires
            (a - b) * c == 3329 * (j * c),
    ;
    lemma_mod_multiples_basic(j * c, 3329);
}

/// Congruences add.
pub proof fn lemma_cong_add(a: int, b: int, x: int, y: int)
    requires
        cong(a, b),
        cong(x, y),
    ensures
        cong(a + x, b + y),
{
    lemma_fundamental_div_mod(a - b, 3329);
    lemma_fundamental_div_mod(x - y, 3329);
    assert((a + x) - (b + y) == 3329 * ((a - b) / 3329 + (x - y) / 3329));
    lemma_mod_multiples_basic((a - b) / 3329 + (x - y) / 3329, 3329);
}

/// Congruence is transitive.
pub proof fn lemma_cong_trans(a: int, b: int, c: int)
    requires
        cong(a, b),
        cong(b, c),
    ensures
        cong(a, c),
{
    lemma_fundamental_div_mod(a - b, 3329);
    lemma_fundamental_div_mod(b - c, 3329);
    assert(a - c == 3329 * ((a - b) / 3329 + (b - c) / 3329));
    lemma_mod_multiples_basic((a - b) / 3329 + (b - c) / 3329, 3329);
}

/// Conversion into Montgomery domain: returns `r ≡ x * 2^16 (mod Q)` with
/// `|r| < Q`, via `mont_reduce(x * 1353)` where 1353 = (2^16)^2 mod Q.
pub fn to_mont(x: i16) -> (r: i16)
    ensures
        cong(r as int, 65536 * x as int),
        -3329 < r < 3329,
{
    let r = mont_reduce((x as i32) * 1353);
    proof {
        // r * 65536 ≡ x * 1353 and 1353 ≡ 65536^2 (mod Q), so cancelling one
        // factor of 65536 leaves r ≡ x * 65536 (mod Q).
        assert((r as int * 65536 - x as int * 1353) % 3329 == 0);
        let b = r as int - 65536 * x as int;
        assert(b * 65536 == (r as int * 65536 - x as int * 1353) - 3329 * (1290167 * x as int));
        lemma_mod_multiples_basic(1290167 * x as int, 3329);
        lemma_mod_multiples_vanish(-(1290167 * x as int), b * 65536, 3329);
        assert((b * 65536) % 3329 == 0);
        lemma_cancel_pow16(b);
    }
    r
}

/// Barrett reduction: maps any 16-bit signed `x` to a representative
/// `r ≡ x (mod Q)` with `0 <= r <= Q`, using the fixed-point reciprocal
/// 20159 / 2^26 of 1/Q instead of a division.
pub fn barrett_reduce(x: i16) -> (r: i16)
    ensures
        0 <= r <= 3329,
        cong(r as int, x as int),
{
    let v: i32 = (x as i32) * 20159;
    assert(-10 <= v >> 26 <= 10) by (bit_vector)
        requires
            -660602880 <= v <= 660602880,
    ;
    let s: i32 = v >> 26;
    assert(0 <= x as i32 - ((v >> 26) * 3329) <= 3329) by (bit_vector)
        requires
            v == (x as i32) * 20159,
    ;
    let r32: i32 = (x as i32) - s * 3329;
    let r: i16 = r32 as i16;
    proof {
        lemma_mod_multiples_basic(-(s as int), crate::params::Q as int);
        assert(r as int - x as int == (-(s as int)) * 3329);
    }
    r
}

/// Canonical reduction of a value already in `[-Q, 2Q)`: a branchless
/// conditional addition of Q (folding a negative residue up), then the
/// branchless conditional subtraction of Q, both driven by the sign bit.
/// Returns the canonical representative `x mod Q` in `[0, Q)`.
pub fn csubq(x: i16) -> (r: i16)
    requires
        -3329 <= x < 6658,
    ensures
        r as int == (x as int) % 3329,
{
    let m0: i16 = (x >> 15) & 3329;
    assert(m0 == (if x < 0 { 3329i16 } else { 0i16 })) by (bit_vector)
        requires
            m0 == (x >> 15) & 3329,
    ;
    let x1: i16 = x + m0;
    let y: i16 = x1 - 3329;
    let m1: i16 = (y >> 15) & 3329;
    assert(m1 == (if y < 0 { 3329i16 } else { 0i16 })) by (bit_vector)
        requires
            m1 == (y >> 15) & 3329,
    ;
    let r: i16 = y + m1;
    proof {
        if x < 0 {
            lemma_mod_add_multiples_vanish(x as int, 3329);
            lemma_small_mod((x + 3329) as nat, 3329);
        } else if x < 3329 {
            lemma_small_mod(x as nat, 3329);
        } else {
            lemma_mod_multiples_vanish(1, x as int - 3329, 3329);
            lemma_small_mod((x - 3329) as nat, 3329);
        }
    }
    r
}

} // verus!
