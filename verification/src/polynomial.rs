//! The ring element type and its coefficientwise operations, pointwise
//! (NTT-domain) multiplication, and the byte-level codecs.

use vstd::prelude::*;
use vstd::arithmetic::div_mod::lemma_mod_equivalence;
use vstd::arithmetic::power2::{pow2, lemma2_to64};
use crate::field::{barrett_reduce, cong, csubq, mont_reduce, to_mont};
use crate::field::{lemma_cong_add, lemma_cong_scale, lemma_cong_trans};
use crate::params::{N, ZETA, lemma_zeta_bounded};

verus! {

/// What `pack` stores in the three bytes of group `g`: the two 12-bit
/// coefficients `c[2g]`, `c[2g+1]` laid out least-significant bits first.
pub open spec fn pack_group_ok(c: Seq<i16>, b: Seq<u8>, g: int) -> bool {
    let t0 = c[2 * g] as int;
    let t1 = c[2 * g + 1] as int;
    &&& b[3 * g] as int == t0 % 256
    &&& b[3 * g + 1] as int == t0 / 256 + (t1 % 16) * 16
    &&& b[3 * g + 2] as int == t1 / 16
}

/// What `unpack` reads back out of the three bytes of group `g`.
pub open spec fn unpack_group_ok(b: Seq<u8>, c: Seq<i16>, g: int) -> bool {
    &&& c[2 * g] as int == b[3 * g] + (b[3 * g + 1] as int % 16) * 256
    &&& c[2 * g + 1] as int == b[3 * g + 1] as int / 16 + b[3 * g + 2] * 16
}

/// The plaintext bit a canonical coefficient encodes: 1 exactly on the wide
/// band {833, ..., 2496} around Q/2, 0 elsewhere.
pub open spec fn msg_bit(c: i16) -> int {
    if 833 <= c <= 2496 {
        1
    } else {
        0
    }
}

/// The byte `compress_msg` emits for the eight coefficients of group `i`.
pub open spec fn msg_byte(c: Seq<i16>, i: int) -> int {
    msg_bit(c[8 * i]) + 2 * msg_bit(c[8 * i + 1]) + 4 * msg_bit(c[8 * i + 2]) + 8 * msg_bit(
        c[8 * i + 3],
    ) + 16 * msg_bit(c[8 * i + 4]) + 32 * msg_bit(c[8 * i + 5]) + 64 * msg_bit(c[8 * i + 6]) + 128
        * msg_bit(c[8 * i + 7])
}

/// The coefficient `decompress_msg` produces from bit `j` of byte `b`:
/// (Q + 1) / 2 for a set bit, 0 for a clear one.
pub open spec fn msg_coeff(b: u8, j: int) -> i16 {
    if (b >> (j as u8)) & 1 == 1 {
        1665
    } else {
        0
    }
}

/// The value relation `mul_hat` establishes on coefficient block `blk`
/// (indices 4*blk .. 4*blk+4): each output pair is the degree-1 product of
/// the input pairs over the quotient ring Z_Q[x]/(x^2 -+ zeta^(2*brv(blk)+1)),
/// carrying one Montgomery factor 2^-16 per scalar product.
pub open spec fn basemul_ok(a: Seq<i16>, b: Seq<i16>, r: Seq<i16>, blk: int) -> bool {
    let z = ZETA[64 + blk] as int;
    let a0 = a[4 * blk] as int;
    let a1 = a[4 * blk + 1] as int;
    let a2 = a[4 * blk + 2] as int;
    let a3 = a[4 * blk + 3] as int;
    let b0 = b[4 * blk] as int;
    let b1 = b[4 * blk + 1] as int;
    let b2 = b[4 * blk + 2] as int;
    let b3 = b[4 * blk + 3] as int;
    &&& cong(r[4 * blk] as int * (65536 * 65536), (a0 * b0) * 65536 + z * (a1 * b1))
    &&& cong(r[4 * blk + 1] as int * 65536, a0 * b1 + a1 * b0)
    &&& cong(r[4 * blk + 2] as int * (65536 * 65536), (a2 * b2) * 65536 - z * (a3 * b3))
    &&& cong(r[4 * blk + 3] as int * 65536, a2 * b3 + a3 * b2)
}

/// All eight scalar products of block `blk` respect the bound |x| < Q * 2^15
/// under which a Montgomery reduction returns a representative below Q.
pub open spec fn basemul_in_bound(a: Seq<i16>, b: Seq<i16>, blk: int) -> bool {
    let a0 = a[4 * blk] as int;
    let a1 = a[4 * blk + 1] as int;
    let a2 = a[4 * blk + 2] as int;
    let a3 = a[4 * blk + 3] as int;
    let b0 = b[4 * blk] as int;
    let b1 = b[4 * blk + 1] as int;
    let b2 = b[4 * blk + 2] as int;
    let b3 = b[4 * blk + 3] as int;
    &&& -109084672 < a0 * b0 && a0 * b0 < 109084672
    &&& -109084672 < a1 * b1 && a1 * b1 < 109084672
    &&& -109084672 < a0 * b1 && a0 * b1 < 109084672
    &&& -109084672 < a1 * b0 && a1 * b0 < 109084672
    &&& -109084672 < a2 * b2 && a2 * b2 < 109084672
    &&& -109084672 < a3 * b3 && a3 * b3 < 109084672
    &&& -109084672 < a2 * b3 && a2 * b3 < 109084672
    &&& -109084672 < a3 * b2 && a3 * b2 < 109084672
}

/// The four output coefficients of block `blk` lie strictly within 2Q: each
/// is the sum of two Montgomery reductions of magnitude below Q.
pub open spec fn block_within_2q(r: Seq<i16>, blk: int) -> bool {
    &&& -6658 < r[4 * blk] && r[4 * blk] < 6658
    &&& -6658 < r[4 * blk + 1] && r[4 * blk + 1] < 6658
    &&& -6658 < r[4 * blk + 2] && r[4 * blk + 2] < 6658
    &&& -6658 < r[4 * blk + 3] && r[4 * blk + 3] < 6658
}

/// The d-bit quantization of a canonical coefficient:
/// round(c * 2^d / Q) mod 2^d, in integer fixed point.
pub open spec fn compress_spec(c: int, d: int) -> int {
    ((c * pow2(d as nat) + 1664) / 3329) % (pow2(d as nat) as int)
}

/// The reconstruction of a d-bit quantized value: round(y * Q / 2^d).
pub open spec fn decompress_spec(y: int, d: int) -> int {
    (y * 3329 + pow2((d - 1) as nat)) / (pow2(d as nat) as int)
}

/// Byte layout of `compress(4)`: two 4-bit values per byte, low bits first.
pub open spec fn cmp4_ok(c: Seq<i16>, b: Seq<u8>, g: int) -> bool {
    let y0 = compress_spec(c[2 * g] as int, 4);
    let y1 = compress_spec(c[2 * g + 1] as int, 4);
    b[g] as int == y0 + y1 * 16
}

/// Byte layout of `compress(5)`: eight 5-bit values per five bytes.
pub open spec fn cmp5_ok(c: Seq<i16>, b: Seq<u8>, g: int) -> bool {
    let y0 = compress_spec(c[8 * g] as int, 5);
    let y1 = compress_spec(c[8 * g + 1] as int, 5);
    let y2 = compress_spec(c[8 * g + 2] as int, 5);
    let y3 = compress_spec(c[8 * g + 3] as int, 5);
    let y4 = compress_spec(c[8 * g + 4] as int, 5);
    let y5 = compress_spec(c[8 * g + 5] as int, 5);
    let y6 = compress_spec(c[8 * g + 6] as int, 5);
    let y7 = compress_spec(c[8 * g + 7] as int, 5);
    &&& b[5 * g] as int == y0 + (y1 % 8) * 32
    &&& b[5 * g + 1] as int == y1 / 8 + y2 * 4 + (y3 % 2) * 128
    &&& b[5 * g + 2] as int == y3 / 2 + (y4 % 16) * 16
    &&& b[5 * g + 3] as int == y4 / 16 + y5 * 2 + (y6 % 4) * 64
    &&& b[5 * g + 4] as int == y6 / 4 + y7 * 8
}

/// Byte layout of `compress(10)`: four 10-bit values per five bytes.
pub open spec fn cmp10_ok(c: Seq<i16>, b: Seq<u8>, g: int) -> bool {
    let y0 = compress_spec(c[4 * g] as int, 10);
    let y1 = compress_spec(c[4 * g + 1] as int, 10);
    let y2 = compress_spec(c[4 * g + 2] as int, 10);
    let y3 = compress_spec(c[4 * g + 3] as int, 10);
    &&& b[5 * g] as int == y0 % 256
    &&& b[5 * g + 1] as int == y0 / 256 + (y1 % 64) * 4
    &&& b[5 * g + 2] as int == y1 / 64 + (y2 % 16) * 16
    &&& b[5 * g + 3] as int == y2 / 16 + (y3 % 4) * 64
    &&& b[5 * g + 4] as int == y3 / 4
}

/// Byte layout of `compress(11)`: eight 11-bit values per eleven bytes.
pub open spec fn cmp11_ok(c: Seq<i16>, b: Seq<u8>, g: int) -> bool {
    let y0 = compress_spec(c[8 * g] as int, 11);
    let y1 = compress_spec(c[8 * g + 1] as int, 11);
    let y2 = compress_spec(c[8 * g + 2] as int, 11);
    let y3 = compress_spec(c[8 * g + 3] as int, 11);
    let y4 = compress_spec(c[8 * g + 4] as int, 11);
    let y5 = compress_spec(c[8 * g + 5] as int, 11);
    let y6 = compress_spec(c[8 * g + 6] as int, 11);
    let y7 = compress_spec(c[8 * g + 7] as int, 11);
    &&& b[11 * g] as int == y0 % 256
    &&& b[11 * g + 1] as int == y0 / 256 + (y1 % 32) * 8
    &&& b[11 * g + 2] as int == y1 / 32 + (y2 % 4) * 64
    &&& b[11 * g + 3] as int == (y2 / 4) % 256
    &&& b[11 * g + 4] as int == y2 / 1024 + (y3 % 128) * 2
    &&& b[11 * g + 5] as int == y3 / 128 + (y4 % 16) * 16
    &&& b[11 * g + 6] as int == y4 / 16 + (y5 % 2) * 128
    &&& b[11 * g + 7] as int == (y5 / 2) % 256
    &&& b[11 * g + 8] as int == y5 / 512 + (y6 % 64) * 4
    &&& b[11 * g + 9] as int == y6 / 64 + (y7 % 8) * 32
    &&& b[11 * g + 10] as int == y7 / 8
}

/// Coefficients produced by `decompress(4)` from byte `g`.
pub open spec fn dec4_ok(b: Seq<u8>, c: Seq<i16>, g: int) -> bool {
    &&& c[2 * g] as int == decompress_spec(b[g] as int % 16, 4)
    &&& c[2 * g + 1] as int == decompress_spec(b[g] as int / 16, 4)
}

/// Coefficients produced by `decompress(5)` from byte group `g`.
pub open spec fn dec5_ok(b: Seq<u8>, c: Seq<i16>, g: int) -> bool {
    let b0 = b[5 * g] as int;
    let b1 = b[5 * g + 1] as int;
    let b2 = b[5 * g + 2] as int;
    let b3 = b[5 * g + 3] as int;
    let b4 = b[5 * g + 4] as int;
    &&& c[8 * g] as int == decompress_spec(b0 % 32, 5)
    &&& c[8 * g + 1] as int == decompress_spec(b0 / 32 + (b1 % 4) * 8, 5)
    &&& c[8 * g + 2] as int == decompress_spec((b1 / 4) % 32, 5)
    &&& c[8 * g + 3] as int == decompress_spec(b1 / 128 + (b2 % 16) * 2, 5)
    &&& c[8 * g + 4] as int == decompress_spec(b2 / 16 + (b3 % 2) * 16, 5)
    &&& c[8 * g + 5] as int == decompress_spec((b3 / 2) % 32, 5)
    &&& c[8 * g + 6] as int == decompress_spec(b3 / 64 + (b4 % 8) * 4, 5)
    &&& c[8 * g + 7] as int == decompress_spec(b4 / 8, 5)
}

/// Coefficients produced by `decompress(10)` from byte group `g`.
pub open spec fn dec10_ok(b: Seq<u8>, c: Seq<i16>, g: int) -> bool {
    let b0 = b[5 * g] as int;
    let b1 = b[5 * g + 1] as int;
    let b2 = b[5 * g + 2] as int;
    let b3 = b[5 * g + 3] as int;
    let b4 = b[5 * g + 4] as int;
    &&& c[4 * g] as int == decompress_spec(b0 + (b1 % 4) * 256, 10)
    &&& c[4 * g + 1] as int == decompress_spec(b1 / 4 + (b2 % 16) * 64, 10)
    &&& c[4 * g + 2] as int == decompress_spec(b2 / 16 + (b3 % 64) * 16, 10)
    &&& c[4 * g + 3] as int == decompress_spec(b3 / 64 + b4 * 4, 10)
}

/// Coefficients produced by `decompress(11)` from byte group `g`.
pub open spec fn dec11_ok(b: Seq<u8>, c: Seq<i16>, g: int) -> bool {
    let b0 = b[11 * g] as int;
    let b1 = b[11 * g + 1] as int;
    let b2 = b[11 * g + 2] as int;
    let b3 = b[11 * g + 3] as int;
    let b4 = b[11 * g + 4] as int;
    let b5 = b[11 * g + 5] as int;
    let b6 = b[11 * g + 6] as int;
    let b7 = b[11 * g + 7] as int;
    let b8 = b[11 * g + 8] as int;
    let b9 = b[11 * g + 9] as int;
    let b10 = b[11 * g + 10] as int;
    &&& c[8 * g] as int == decompress_spec(b0 + (b1 % 8) * 256, 11)
    &&& c[8 * g + 1] as int == decompress_spec(b1 / 8 + (b2 % 64) * 32, 11)
    &&& c[8 * g + 2] as int == decompress_spec(b2 / 64 + b3 * 4 + (b4 % 2) * 1024, 11)
    &&& c[8 * g + 3] as int == decompress_spec(b4 / 2 + (b5 % 16) * 128, 11)
    &&& c[8 * g + 4] as int == decompress_spec(b5 / 16 + (b6 % 128) * 16, 11)
    &&& c[8 * g + 5] as int == decompress_spec(b6 / 128 + b7 * 2 + (b8 % 4) * 512, 11)
    &&& c[8 * g + 6] as int == decompress_spec(b8 / 4 + (b9 % 32) * 64, 11)
    &&& c[8 * g + 7] as int == decompress_spec(b9 / 32 + b10 * 8, 11)
}

/// A ring element: 256 signed coefficients. Whether a value is in normal,
/// Montgomery or NTT domain is a calling convention, not a stored tag.
#[derive(Clone, Copy)]
pub struct Poly {
    pub coeffs: [i16; N],
}

impl Poly {
    /// The zero element.
    pub fn new() -> (p: Poly)
        ensures
            forall|i: int| 0 <= i < 256 ==> #[trigger] p.coeffs@[i] == 0,
    {
        Poly { coeffs: [0i16; N] }
    }

    /// Coefficientwise sum; no reduction is applied, so the caller must
    /// guarantee that every sum stays representable.
    pub fn add(&mut self, other: &Poly)
        requires
            forall|i: int| 0 <= i < 256 ==>
                i16::MIN <= #[trigger] old(self).coeffs@[i] + other.coeffs@[i] <= i16::MAX,
        ensures
            forall|i: int| 0 <= i < 256 ==>
                #[trigger] final(self).coeffs@[i] == old(self).coeffs@[i] + other.coeffs@[i],
    {
        let mut i: usize = 0;
        while i < 256
            invariant
                i <= 256,
                forall|j: int| 0 <= j < 256 ==>
                    i16::MIN <= #[trigger] old(self).coeffs@[j] + other.coeffs@[j] <= i16::MAX,
                forall|j: int| 0 <= j < i ==>
                    #[trigger] self.coeffs@[j] == old(self).coeffs@[j] + other.coeffs@[j],
                forall|j: int| i <= j < 256 ==> #[trigger] self.coeffs@[j] == old(self).coeffs@[j],
            decreases 256 - i,
        {
            let c = self.coeffs[i] + other.coeffs[i];
            self.coeffs[i] = c;
            i += 1;
        }
    }

    /// Coefficientwise difference; same representability contract as `add`.
    pub fn sub(&mut self, other: &Poly)
        requires
            forall|i: int| 0 <= i < 256 ==>
                i16::MIN <= #[trigger] old(self).coeffs@[i] - other.coeffs@[i] <= i16::MAX,
        ensures
            forall|i: int| 0 <= i < 256 ==>
                #[trigger] final(self).coeffs@[i] == old(self).coeffs@[i] - other.coeffs@[i],
    {
        let mut i: usize = 0;
        while i < 256
            invariant
                i <= 256,
                forall|j: int| 0 <= j < 256 ==>
                    i16::MIN <= #[trigger] old(self).coeffs@[j] - other.coeffs@[j] <= i16::MAX,
                forall|j: int| 0 <= j < i ==>
                    #[trigger] self.coeffs@[j] == old(self).coeffs@[j] - other.coeffs@[j],
                forall|j: int| i <= j < 256 ==> #[trigger] self.coeffs@[j] == old(self).coeffs@[j],
            decreases 256 - i,
        {
            let c = self.coeffs[i] - other.coeffs[i];
            self.coeffs[i] = c;
            i += 1;
        }
    }

    /// Barrett-reduces every coefficient to `[0, Q]`, preserving residues.
    pub fn barrett_reduce(&mut self)
        ensures
            forall|i: int| 0 <= i < 256 ==> 0 <= #[trigger] final(self).coeffs@[i] <= 3329,
            forall|i: int| 0 <= i < 256 ==>
                cong(#[trigger] final(self).coeffs@[i] as int, old(self).coeffs@[i] as int),
    {
        let mut i: usize = 0;
        while i < 256
            invariant
                i <= 256,
                forall|j: int| 0 <= j < i ==> 0 <= #[trigger] self.coeffs@[j] <= 3329,
                forall|j: int| 0 <= j < i ==>
                    cong(#[trigger] self.coeffs@[j] as int, old(self).coeffs@[j] as int),
                forall|j: int| i <= j < 256 ==> #[trigger] self.coeffs@[j] == old(self).coeffs@[j],
            decreases 256 - i,
        {
            let c = barrett_reduce(self.coeffs[i]);
            self.coeffs[i] = c;
            i += 1;
        }
    }

    /// Reduces every coefficient to its canonical representative in `[0, Q)`.
    /// Required before any serialization.
    pub fn normalize(&mut self)
        ensures
            forall|i: int| 0 <= i < 256 ==>
                #[trigger] final(self).coeffs@[i] as int == (old(self).coeffs@[i] as int) % 3329,
            forall|i: int| 0 <= i < 256 ==> 0 <= #[trigger] final(self).coeffs@[i] < 3329,
    {
        let mut i: usize = 0;
        while i < 256
            invariant
                i <= 256,
                forall|j: int| 0 <= j < i ==>
                    #[trigger] self.coeffs@[j] as int == (old(self).coeffs@[j] as int) % 3329,
                forall|j: int| 0 <= j < i ==> 0 <= #[trigger] self.coeffs@[j] < 3329,
                forall|j: int| i <= j < 256 ==> #[trigger] self.coeffs@[j] == old(self).coeffs@[j],
            decreases 256 - i,
        {
            let b = barrett_reduce(self.coeffs[i]);
            let c = csubq(b);
            proof {
                lemma_mod_equivalence(b as int, old(self).coeffs@[i as int] as int, 3329);
            }
            self.coeffs[i] = c;
            i += 1;
        }
    }

    /// Converts every coefficient into Montgomery domain
    /// (`c[i] -> c[i] * 2^16 mod Q`, as a representative of magnitude below Q).
    pub fn mont(&mut self)
        ensures
            forall|i: int| 0 <= i < 256 ==>
                cong(#[trigger] final(self).coeffs@[i] as int, 65536 * old(self).coeffs@[i] as int),
            forall|i: int| 0 <= i < 256 ==> -3329 < #[trigger] final(self).coeffs@[i] < 3329,
    {
        let mut i: usize = 0;
        while i < 256
            invariant
                i <= 256,
                forall|j: int| 0 <= j < i ==>
                    cong(#[trigger] self.coeffs@[j] as int, 65536 * old(self).coeffs@[j] as int),
                forall|j: int| 0 <= j < i ==> -3329 < #[trigger] self.coeffs@[j] < 3329,
                forall|j: int| i <= j < 256 ==> #[trigger] self.coeffs@[j] == old(self).coeffs@[j],
            decreases 256 - i,
        {
            let c = to_mont(self.coeffs[i]);
            self.coeffs[i] = c;
            i += 1;
        }
    }

    /// Pointwise multiplication of two NTT-domain elements, in place: each
    /// disjoint coefficient pair is a degree-1 polynomial over a quadratic
    /// quotient ring Z_Q[x]/(x^2 -+ zeta), multiplied with four Montgomery
    /// products and the matching twiddle. Inputs must carry the transform's
    /// output bound; the result is not yet Barrett-reduced, but wherever a
    /// block's scalar products all stay below the Montgomery bound Q * 2^15,
    /// its outputs are each a sum of two reductions below Q and so lie
    /// strictly within 2Q.
    pub fn mul_hat(&mut self, other: &Poly)
        requires
            forall|i: int| 0 <= i < 256 ==> -21000 <= #[trigger] old(self).coeffs@[i] <= 21000,
            forall|i: int| 0 <= i < 256 ==> -21000 <= #[trigger] other.coeffs@[i] <= 21000,
        ensures
            forall|i: int| 0 <= i < 256 ==> -17000 <= #[trigger] final(self).coeffs@[i] <= 17000,
            forall|blk: int| 0 <= blk < 64 ==> #[trigger] basemul_ok(
                old(self).coeffs@,
                other.coeffs@,
                final(self).coeffs@,
                blk,
            ),
            forall|blk: int| 0 <= blk < 64 ==> (#[trigger] basemul_in_bound(
                old(self).coeffs@,
                other.coeffs@,
                blk,
            ) ==> block_within_2q(final(self).coeffs@, blk)),
    {
        proof {
            lemma_zeta_bounded();
        }
        let mut k: usize = 64;
        let mut i: usize = 0;
        while i < 256
            invariant
                i <= 256,
                i % 4 == 0,
                64 <= k,
                4 * (k - 64) == i,
                forall|j: int| 0 <= j < 256 ==> -21000 <= #[trigger] other.coeffs@[j] <= 21000,
                forall|j: int| 0 <= j < i ==> -17000 <= #[trigger] self.coeffs@[j] <= 17000,
                forall|blk: int| 0 <= blk < i / 4 ==> #[trigger] basemul_ok(
                    old(self).coeffs@,
                    other.coeffs@,
                    self.coeffs@,
                    blk,
                ),
                forall|blk: int| 0 <= blk < i / 4 ==> (#[trigger] basemul_in_bound(
                    old(self).coeffs@,
                    other.coeffs@,
                    blk,
                ) ==> block_within_2q(self.coeffs@, blk)),
                forall|j: int| i <= j < 256 ==> #[trigger] self.coeffs@[j] == old(self).coeffs@[j],
                forall|j: int| 0 <= j < 256 ==> -21000 <= #[trigger] old(self).coeffs@[j] <= 21000,
            decreases 256 - i,
        {
            proof {
                lemma_zeta_bounded();
            }
            let zeta: i16 = ZETA[k];
            let a0 = self.coeffs[i];
            let a1 = self.coeffs[i + 1];
            let a2 = self.coeffs[i + 2];
            let a3 = self.coeffs[i + 3];
            let b0 = other.coeffs[i];
            let b1 = other.coeffs[i + 1];
            let b2 = other.coeffs[i + 2];
            let b3 = other.coeffs[i + 3];

            let m1 = mont_mul(a1, b1);
            let t0 = mont_mul(zeta, m1);
            let u0 = mont_mul(a0, b0);
            let p0 = t0 + u0;
            let v0 = mont_mul(a0, b1);
            let v1 = mont_mul(a1, b0);
            let p1 = v0 + v1;

            let m3 = mont_mul(a3, b3);
            let t2 = mont_mul(zeta, m3);
            let u2 = mont_mul(a2, b2);
            let p2 = -t2 + u2;
            let w0 = mont_mul(a2, b3);
            let w1 = mont_mul(a3, b2);
            let p3 = w0 + w1;

            let ghost self0 = self.coeffs@;
            self.coeffs[i] = p0;
            self.coeffs[i + 1] = p1;
            self.coeffs[i + 2] = p2;
            self.coeffs[i + 3] = p3;
            proof {
                let z = zeta as int;
                let rr = 65536int;
                let a0i = a0 as int;
                let a1i = a1 as int;
                let a2i = a2 as int;
                let a3i = a3 as int;
                let b0i = b0 as int;
                let b1i = b1 as int;
                let b2i = b2 as int;
                let b3i = b3 as int;
                // p0 * R^2 ≡ a0*b0 * R + z * (a1*b1)
                lemma_cong_scale(t0 as int * rr, z * (m1 as int), rr);
                lemma_cong_scale(m1 as int * rr, a1i * b1i, z);
                assert((z * (m1 as int)) * rr == (m1 as int * rr) * z) by (nonlinear_arith);
                assert((a1i * b1i) * z == z * (a1i * b1i)) by (nonlinear_arith);
                lemma_cong_trans(
                    (t0 as int * rr) * rr,
                    (m1 as int * rr) * z,
                    z * (a1i * b1i),
                );
                lemma_cong_scale(u0 as int * rr, a0i * b0i, rr);
                lemma_cong_add(
                    (u0 as int * rr) * rr,
                    (a0i * b0i) * rr,
                    (t0 as int * rr) * rr,
                    z * (a1i * b1i),
                );
                assert(p0 as int * (rr * rr) == (u0 as int * rr) * rr + (t0 as int * rr) * rr);
                // p1 * R ≡ a0*b1 + a1*b0
                lemma_cong_add(v0 as int * rr, a0i * b1i, v1 as int * rr, a1i * b0i);
                assert(p1 as int * rr == v0 as int * rr + v1 as int * rr);
                // p2 * R^2 ≡ a2*b2 * R - z * (a3*b3)
                lemma_cong_scale(t2 as int * rr, z * (m3 as int), rr);
                lemma_cong_scale(m3 as int * rr, a3i * b3i, z);
                assert((z * (m3 as int)) * rr == (m3 as int * rr) * z) by (nonlinear_arith);
                assert((a3i * b3i) * z == z * (a3i * b3i)) by (nonlinear_arith);
                lemma_cong_trans(
                    (t2 as int * rr) * rr,
                    (m3 as int * rr) * z,
                    z * (a3i * b3i),
                );
                lemma_cong_scale((t2 as int * rr) * rr, z * (a3i * b3i), -1);
                lemma_cong_scale(u2 as int * rr, a2i * b2i, rr);
                lemma_cong_add(
                    (u2 as int * rr) * rr,
                    (a2i * b2i) * rr,
                    ((t2 as int * rr) * rr) * -1,
                    (z * (a3i * b3i)) * -1,
                );
                assert(p2 as int * (rr * rr) == (u2 as int * rr) * rr + ((t2 as int * rr) * rr)
                    * -1);
                assert((a2i * b2i) * rr + (z * (a3i * b3i)) * -1 == (a2i * b2i) * rr - z * (a3i
                    * b3i));
                // p3 * R ≡ a2*b3 + a3*b2
                lemma_cong_add(w0 as int * rr, a2i * b3i, w1 as int * rr, a3i * b2i);
                assert(p3 as int * rr == w0 as int * rr + w1 as int * rr);
                assert(basemul_ok(old(self).coeffs@, other.coeffs@, self.coeffs@, i as int / 4));
                assert forall|blk: int| 0 <= blk < i / 4 implies #[trigger] basemul_ok(
                    old(self).coeffs@,
                    other.coeffs@,
                    self.coeffs@,
                    blk,
                ) by {
                    assert(basemul_ok(old(self).coeffs@, other.coeffs@, self0, blk));
                }
                if basemul_in_bound(old(self).coeffs@, other.coeffs@, i as int / 4) {
                    // Every product is within the Montgomery bound, so every
                    // reduction lands below Q and each sum stays within 2Q.
                    assert(-3329 < m1 < 3329);
                    assert(-3329 < m3 < 3329);
                    assert(-109084672 < (zeta as int) * (m1 as int) && (zeta as int) * (
                    m1 as int) < 109084672) by (nonlinear_arith)
                        requires
                            -1664 <= zeta as int <= 1664,
                            -3329 < m1 as int && (m1 as int) < 3329,
                    ;
                    assert(-109084672 < (zeta as int) * (m3 as int) && (zeta as int) * (
                    m3 as int) < 109084672) by (nonlinear_arith)
                        requires
                            -1664 <= zeta as int <= 1664,
                            -3329 < m3 as int && (m3 as int) < 3329,
                    ;
                    assert(block_within_2q(self.coeffs@, i as int / 4));
                }
                assert forall|blk: int| 0 <= blk < i / 4 + 1 implies (#[trigger] basemul_in_bound(
                    old(self).coeffs@,
                    other.coeffs@,
                    blk,
                ) ==> block_within_2q(self.coeffs@, blk)) by {
                    if blk < i / 4 && basemul_in_bound(old(self).coeffs@, other.coeffs@, blk) {
                        assert(block_within_2q(self0, blk));
                    }
                }
            }
            k += 1;
            i += 4;
        }
    }

    /// Lossless serialization of a canonical-range element (coefficients in
    /// [0, 4096)) into 384 bytes, two 12-bit coefficients per three bytes.
    pub fn pack(&self, buf: &mut Vec<u8>)
        requires
            old(buf).len() == 384,
            forall|i: int| 0 <= i < 256 ==> 0 <= #[trigger] self.coeffs@[i] < 4096,
        ensures
            final(buf).len() == 384,
            forall|g: int| 0 <= g < 128 ==> #[trigger] pack_group_ok(self.coeffs@, final(buf)@, g),
    {
        let mut g: usize = 0;
        while g < 128
            invariant
                g <= 128,
                buf.len() == 384,
                forall|i: int| 0 <= i < 256 ==> 0 <= #[trigger] self.coeffs@[i] < 4096,
                forall|gg: int| 0 <= gg < g ==> #[trigger] pack_group_ok(self.coeffs@, buf@, gg),
            decreases 128 - g,
        {
            let ghost buf0 = buf@;
            let t0: u16 = self.coeffs[2 * g] as u16;
            let t1: u16 = self.coeffs[2 * g + 1] as u16;
            buf[3 * g] = (t0 % 256) as u8;
            buf[3 * g + 1] = (t0 / 256 + (t1 % 16) * 16) as u8;
            buf[3 * g + 2] = (t1 / 16) as u8;
            proof {
                assert(pack_group_ok(self.coeffs@, buf@, g as int));
                assert forall|gg: int| 0 <= gg < g implies #[trigger] pack_group_ok(
                    self.coeffs@,
                    buf@,
                    gg,
                ) by {
                    assert(pack_group_ok(self.coeffs@, buf0, gg));
                }
            }
            g += 1;
        }
    }

    /// Lossless deserialization: the inverse of `pack`. Every produced
    /// coefficient lies in [0, 4096).
    pub fn unpack(&mut self, buf: &Vec<u8>)
        requires
            buf.len() == 384,
        ensures
            forall|g: int| 0 <= g < 128 ==> #[trigger] unpack_group_ok(buf@, final(self).coeffs@, g),
            forall|i: int| 0 <= i < 256 ==> 0 <= #[trigger] final(self).coeffs@[i] < 4096,
    {
        let mut g: usize = 0;
        while g < 128
            invariant
                g <= 128,
                buf.len() == 384,
                forall|gg: int| 0 <= gg < g ==> #[trigger] unpack_group_ok(buf@, self.coeffs@, gg),
                forall|i: int| 0 <= i < 2 * g ==> 0 <= #[trigger] self.coeffs@[i] < 4096,
            decreases 128 - g,
        {
            let b0: u16 = buf[3 * g] as u16;
            let b1: u16 = buf[3 * g + 1] as u16;
            let b2: u16 = buf[3 * g + 2] as u16;
            let ghost c0 = self.coeffs@;
            self.coeffs[2 * g] = (b0 + (b1 % 16) * 256) as i16;
            self.coeffs[2 * g + 1] = (b1 / 16 + b2 * 16) as i16;
            proof {
                assert(unpack_group_ok(buf@, self.coeffs@, g as int));
                assert forall|gg: int| 0 <= gg < g implies #[trigger] unpack_group_ok(
                    buf@,
                    self.coeffs@,
                    gg,
                ) by {
                    assert(unpack_group_ok(buf@, c0, gg));
                }
            }
            g += 1;
        }
    }

    /// Encodes one plaintext bit per coefficient: bit `j` of output byte `i`
    /// is 1 exactly when coefficient `8i + j` lies in the band around Q/2.
    pub fn compress_msg(&self, buf: &mut Vec<u8>)
        requires
            old(buf).len() == 32,
            forall|i: int| 0 <= i < 256 ==> 0 <= #[trigger] self.coeffs@[i] < 3329,
        ensures
            final(buf).len() == 32,
            forall|i: int| 0 <= i < 32 ==> #[trigger] final(buf)@[i] as int == msg_byte(
                self.coeffs@,
                i,
            ),
    {
        let mut i: usize = 0;
        while i < 32
            invariant
                i <= 32,
                buf.len() == 32,
                forall|j: int| 0 <= j < 256 ==> 0 <= #[trigger] self.coeffs@[j] < 3329,
                forall|ii: int| 0 <= ii < i ==> #[trigger] buf@[ii] as int == msg_byte(
                    self.coeffs@,
                    ii,
                ),
            decreases 32 - i,
        {
            let x0 = msg_bit_of(self.coeffs[8 * i]);
            let x1 = msg_bit_of(self.coeffs[8 * i + 1]);
            let x2 = msg_bit_of(self.coeffs[8 * i + 2]);
            let x3 = msg_bit_of(self.coeffs[8 * i + 3]);
            let x4 = msg_bit_of(self.coeffs[8 * i + 4]);
            let x5 = msg_bit_of(self.coeffs[8 * i + 5]);
            let x6 = msg_bit_of(self.coeffs[8 * i + 6]);
            let x7 = msg_bit_of(self.coeffs[8 * i + 7]);
            buf[i] = x0 + 2 * x1 + 4 * x2 + 8 * x3 + 16 * x4 + 32 * x5 + 64 * x6 + 128 * x7;
            i += 1;
        }
    }

    /// Decodes one plaintext bit per coefficient: coefficient `idx` becomes
    /// (Q + 1) / 2 when bit `idx % 8` of byte `idx / 8` is set, else 0.
    pub fn decompress_msg(&mut self, buf: &Vec<u8>)
        requires
            buf.len() == 32,
        ensures
            forall|idx: int| 0 <= idx < 256 ==> #[trigger] final(self).coeffs@[idx] == msg_coeff(
                buf@[idx / 8],
                idx % 8,
            ),
    {
        let mut idx: usize = 0;
        while idx < 256
            invariant
                idx <= 256,
                buf.len() == 32,
                forall|d: int| 0 <= d < idx ==> #[trigger] self.coeffs@[d] == msg_coeff(
                    buf@[d / 8],
                    d % 8,
                ),
            decreases 256 - idx,
        {
            let b: u8 = buf[idx / 8];
            let jj: u8 = (idx % 8) as u8;
            let v: i16 = if ((b >> jj) & 1) == 1 {
                1665
            } else {
                0
            };
            self.coeffs[idx] = v;
            idx += 1;
        }
    }

    /// Lossy serialization: quantizes every canonical coefficient to `d`
    /// bits and packs the values least-significant bits first into
    /// `32 * d` bytes. Only `d` in {4, 5, 10, 11} is a supported security
    /// parameter; other widths are excluded by contract.
    pub fn compress(&self, buf: &mut Vec<u8>, d: i32)
        requires
            d == 4 || d == 5 || d == 10 || d == 11,
            old(buf).len() == 32 * d,
            forall|i: int| 0 <= i < 256 ==> 0 <= #[trigger] self.coeffs@[i] < 3329,
        ensures
            final(buf).len() == 32 * d,
            d == 4 ==> forall|g: int| 0 <= g < 128 ==> #[trigger] cmp4_ok(
                self.coeffs@,
                final(buf)@,
                g,
            ),
            d == 5 ==> forall|g: int| 0 <= g < 32 ==> #[trigger] cmp5_ok(
                self.coeffs@,
                final(buf)@,
                g,
            ),
            d == 10 ==> forall|g: int| 0 <= g < 64 ==> #[trigger] cmp10_ok(
                self.coeffs@,
                final(buf)@,
                g,
            ),
            d == 11 ==> forall|g: int| 0 <= g < 32 ==> #[trigger] cmp11_ok(
                self.coeffs@,
                final(buf)@,
                g,
            ),
    {
        if d == 4 {
            let mut g: usize = 0;
            while g < 128
                invariant
                    g <= 128,
                    buf.len() == 128,
                    forall|i: int| 0 <= i < 256 ==> 0 <= #[trigger] self.coeffs@[i] < 3329,
                    forall|gg: int| 0 <= gg < g ==> #[trigger] cmp4_ok(self.coeffs@, buf@, gg),
                decreases 128 - g,
            {
                proof {
                    lemma2_to64();
                }
                let ghost buf0 = buf@;
                let y0 = compress_coeff(self.coeffs[2 * g], 4);
                let y1 = compress_coeff(self.coeffs[2 * g + 1], 4);
                buf[g] = (y0 + y1 * 16) as u8;
                proof {
                    assert(cmp4_ok(self.coeffs@, buf@, g as int));
                    assert forall|gg: int| 0 <= gg < g implies #[trigger] cmp4_ok(
                        self.coeffs@,
                        buf@,
                        gg,
                    ) by {
                        assert(cmp4_ok(self.coeffs@, buf0, gg));
                    }
                }
                g += 1;
            }
        } else if d == 5 {
            let mut g: usize = 0;
            while g < 32
                invariant
                    g <= 32,
                    buf.len() == 160,
                    forall|i: int| 0 <= i < 256 ==> 0 <= #[trigger] self.coeffs@[i] < 3329,
                    forall|gg: int| 0 <= gg < g ==> #[trigger] cmp5_ok(self.coeffs@, buf@, gg),
                decreases 32 - g,
            {
                proof {
                    lemma2_to64();
                }
                let ghost buf0 = buf@;
                let y0 = compress_coeff(self.coeffs[8 * g], 5);
                let y1 = compress_coeff(self.coeffs[8 * g + 1], 5);
                let y2 = compress_coeff(self.coeffs[8 * g + 2], 5);
                let y3 = compress_coeff(self.coeffs[8 * g + 3], 5);
                let y4 = compress_coeff(self.coeffs[8 * g + 4], 5);
                let y5 = compress_coeff(self.coeffs[8 * g + 5], 5);
                let y6 = compress_coeff(self.coeffs[8 * g + 6], 5);
                let y7 = compress_coeff(self.coeffs[8 * g + 7], 5);
                buf[5 * g] = (y0 + (y1 % 8) * 32) as u8;
                buf[5 * g + 1] = (y1 / 8 + y2 * 4 + (y3 % 2) * 128) as u8;
                buf[5 * g + 2] = (y3 / 2 + (y4 % 16) * 16) as u8;
                buf[5 * g + 3] = (y4 / 16 + y5 * 2 + (y6 % 4) * 64) as u8;
                buf[5 * g + 4] = (y6 / 4 + y7 * 8) as u8;
                proof {
                    assert(cmp5_ok(self.coeffs@, buf@, g as int));
                    assert forall|gg: int| 0 <= gg < g implies #[trigger] cmp5_ok(
                        self.coeffs@,
                        buf@,
                        gg,
                    ) by {
                        assert(cmp5_ok(self.coeffs@, buf0, gg));
                    }
                }
                g += 1;
            }
        } else if d == 10 {
            let mut g: usize = 0;
            while g < 64
                invariant
                    g <= 64,
                    buf.len() == 320,
                    forall|i: int| 0 <= i < 256 ==> 0 <= #[trigger] self.coeffs@[i] < 3329,
                    forall|gg: int| 0 <= gg < g ==> #[trigger] cmp10_ok(self.coeffs@, buf@, gg),
                decreases 64 - g,
            {
                proof {
                    lemma2_to64();
                }
                let ghost buf0 = buf@;
                let y0 = compress_coeff(self.coeffs[4 * g], 10);
                let y1 = compress_coeff(self.coeffs[4 * g + 1], 10);
                let y2 = compress_coeff(self.coeffs[4 * g + 2], 10);
                let y3 = compress_coeff(self.coeffs[4 * g + 3], 10);
                buf[5 * g] = (y0 % 256) as u8;
                buf[5 * g + 1] = (y0 / 256 + (y1 % 64) * 4) as u8;
                buf[5 * g + 2] = (y1 / 64 + (y2 % 16) * 16) as u8;
                buf[5 * g + 3] = (y2 / 16 + (y3 % 4) * 64) as u8;
                buf[5 * g + 4] = (y3 / 4) as u8;
                proof {
                    assert(cmp10_ok(self.coeffs@, buf@, g as int));
                    assert forall|gg: int| 0 <= gg < g implies #[trigger] cmp10_ok(
                        self.coeffs@,
                        buf@,
                        gg,
                    ) by {
                        assert(cmp10_ok(self.coeffs@, buf0, gg));
                    }
                }
                g += 1;
            }
        } else {
            let mut g: usize = 0;
            while g < 32
                invariant
                    g <= 32,
                    buf.len() == 352,
                    forall|i: int| 0 <= i < 256 ==> 0 <= #[trigger] self.coeffs@[i] < 3329,
                    forall|gg: int| 0 <= gg < g ==> #[trigger] cmp11_ok(self.coeffs@, buf@, gg),
                decreases 32 - g,
            {
                proof {
                    lemma2_to64();
                }
                let ghost buf0 = buf@;
                let y0 = compress_coeff(self.coeffs[8 * g], 11);
                let y1 = compress_coeff(self.coeffs[8 * g + 1], 11);
                let y2 = compress_coeff(self.coeffs[8 * g + 2], 11);
                let y3 = compress_coeff(self.coeffs[8 * g + 3], 11);
                let y4 = compress_coeff(self.coeffs[8 * g + 4], 11);
                let y5 = compress_coeff(self.coeffs[8 * g + 5], 11);
                let y6 = compress_coeff(self.coeffs[8 * g + 6], 11);
                let y7 = compress_coeff(self.coeffs[8 * g + 7], 11);
                buf[11 * g] = (y0 % 256) as u8;
                buf[11 * g + 1] = (y0 / 256 + (y1 % 32) * 8) as u8;
                buf[11 * g + 2] = (y1 / 32 + (y2 % 4) * 64) as u8;
                buf[11 * g + 3] = ((y2 / 4) % 256) as u8;
                buf[11 * g + 4] = (y2 / 1024 + (y3 % 128) * 2) as u8;
                buf[11 * g + 5] = (y3 / 128 + (y4 % 16) * 16) as u8;
                buf[11 * g + 6] = (y4 / 16 + (y5 % 2) * 128) as u8;
                buf[11 * g + 7] = ((y5 / 2) % 256) as u8;
                buf[11 * g + 8] = (y5 / 512 + (y6 % 64) * 4) as u8;
                buf[11 * g + 9] = (y6 / 64 + (y7 % 8) * 32) as u8;
                buf[11 * g + 10] = (y7 / 8) as u8;
                proof {
                    assert(cmp11_ok(self.coeffs@, buf@, g as int));
                    assert forall|gg: int| 0 <= gg < g implies #[trigger] cmp11_ok(
                        self.coeffs@,
                        buf@,
                        gg,
                    ) by {
                        assert(cmp11_ok(self.coeffs@, buf0, gg));
                    }
                }
                g += 1;
            }
        }
    }

    /// Lossy deserialization: unpacks `d`-bit values from the buffer and
    /// reconstructs a canonical-range coefficient from each. The supported
    /// widths are the same as for `compress`.
    pub fn decompress(&mut self, buf: &Vec<u8>, d: i16)
        requires
            d == 4 || d == 5 || d == 10 || d == 11,
            buf.len() == 32 * d,
        ensures
            forall|i: int| 0 <= i < 256 ==> 0 <= #[trigger] final(self).coeffs@[i] < 3329,
            d == 4 ==> forall|g: int| 0 <= g < 128 ==> #[trigger] dec4_ok(
                buf@,
                final(self).coeffs@,
                g,
            ),
            d == 5 ==> forall|g: int| 0 <= g < 32 ==> #[trigger] dec5_ok(
                buf@,
                final(self).coeffs@,
                g,
            ),
            d == 10 ==> forall|g: int| 0 <= g < 64 ==> #[trigger] dec10_ok(
                buf@,
                final(self).coeffs@,
                g,
            ),
            d == 11 ==> forall|g: int| 0 <= g < 32 ==> #[trigger] dec11_ok(
                buf@,
                final(self).coeffs@,
                g,
            ),
    {
        if d == 4 {
            let mut g: usize = 0;
            while g < 128
                invariant
                    g <= 128,
                    buf.len() == 128,
                    forall|gg: int| 0 <= gg < g ==> #[trigger] dec4_ok(buf@, self.coeffs@, gg),
                    forall|i: int| 0 <= i < 2 * g ==> 0 <= #[trigger] self.coeffs@[i] < 3329,
                decreases 128 - g,
            {
                proof {
                    lemma2_to64();
                }
                let ghost c0s = self.coeffs@;
                let b: u8 = buf[g];
                let c0 = decompress_coeff((b % 16) as u16, 4);
                let c1 = decompress_coeff((b / 16) as u16, 4);
                self.coeffs[2 * g] = c0;
                self.coeffs[2 * g + 1] = c1;
                proof {
                    assert(dec4_ok(buf@, self.coeffs@, g as int));
                    assert forall|gg: int| 0 <= gg < g implies #[trigger] dec4_ok(
                        buf@,
                        self.coeffs@,
                        gg,
                    ) by {
                        assert(dec4_ok(buf@, c0s, gg));
                    }
                }
                g += 1;
            }
        } else if d == 5 {
            let mut g: usize = 0;
            while g < 32
                invariant
                    g <= 32,
                    buf.len() == 160,
                    forall|gg: int| 0 <= gg < g ==> #[trigger] dec5_ok(buf@, self.coeffs@, gg),
                    forall|i: int| 0 <= i < 8 * g ==> 0 <= #[trigger] self.coeffs@[i] < 3329,
                decreases 32 - g,
            {
                proof {
                    lemma2_to64();
                }
                let ghost c0s = self.coeffs@;
                let b0: u16 = buf[5 * g] as u16;
                let b1: u16 = buf[5 * g + 1] as u16;
                let b2: u16 = buf[5 * g + 2] as u16;
                let b3: u16 = buf[5 * g + 3] as u16;
                let b4: u16 = buf[5 * g + 4] as u16;
                self.coeffs[8 * g] = decompress_coeff(b0 % 32, 5);
                self.coeffs[8 * g + 1] = decompress_coeff(b0 / 32 + (b1 % 4) * 8, 5);
                self.coeffs[8 * g + 2] = decompress_coeff((b1 / 4) % 32, 5);
                self.coeffs[8 * g + 3] = decompress_coeff(b1 / 128 + (b2 % 16) * 2, 5);
                self.coeffs[8 * g + 4] = decompress_coeff(b2 / 16 + (b3 % 2) * 16, 5);
                self.coeffs[8 * g + 5] = decompress_coeff((b3 / 2) % 32, 5);
                self.coeffs[8 * g + 6] = decompress_coeff(b3 / 64 + (b4 % 8) * 4, 5);
                self.coeffs[8 * g + 7] = decompress_coeff(b4 / 8, 5);
                proof {
                    assert(dec5_ok(buf@, self.coeffs@, g as int));
                    assert forall|gg: int| 0 <= gg < g implies #[trigger] dec5_ok(
                        buf@,
                        self.coeffs@,
                        gg,
                    ) by {
                        assert(dec5_ok(buf@, c0s, gg));
                    }
                }
                g += 1;
            }
        } else if d == 10 {
            let mut g: usize = 0;
            while g < 64
                invariant
                    g <= 64,
                    buf.len() == 320,
                    forall|gg: int| 0 <= gg < g ==> #[trigger] dec10_ok(buf@, self.coeffs@, gg),
                    forall|i: int| 0 <= i < 4 * g ==> 0 <= #[trigger] self.coeffs@[i] < 3329,
                decreases 64 - g,
            {
                proof {
                    lemma2_to64();
                }
                let ghost c0s = self.coeffs@;
                let b0: u16 = buf[5 * g] as u16;
                let b1: u16 = buf[5 * g + 1] as u16;
                let b2: u16 = buf[5 * g + 2] as u16;
                let b3: u16 = buf[5 * g + 3] as u16;
                let b4: u16 = buf[5 * g + 4] as u16;
                self.coeffs[4 * g] = decompress_coeff(b0 + (b1 % 4) * 256, 10);
                self.coeffs[4 * g + 1] = decompress_coeff(b1 / 4 + (b2 % 16) * 64, 10);
                self.coeffs[4 * g + 2] = decompress_coeff(b2 / 16 + (b3 % 64) * 16, 10);
                self.coeffs[4 * g + 3] = decompress_coeff(b3 / 64 + b4 * 4, 10);
                proof {
                    assert(dec10_ok(buf@, self.coeffs@, g as int));
                    assert forall|gg: int| 0 <= gg < g implies #[trigger] dec10_ok(
                        buf@,
                        self.coeffs@,
                        gg,
                    ) by {
                        assert(dec10_ok(buf@, c0s, gg));
                    }
                }
                g += 1;
            }
        } else {
            let mut g: usize = 0;
            while g < 32
                invariant
                    g <= 32,
                    buf.len() == 352,
                    forall|gg: int| 0 <= gg < g ==> #[trigger] dec11_ok(buf@, self.coeffs@, gg),
                    forall|i: int| 0 <= i < 8 * g ==> 0 <= #[trigger] self.coeffs@[i] < 3329,
                decreases 32 - g,
            {
                proof {
                    lemma2_to64();
                }
                let ghost c0s = self.coeffs@;
                let b0: u16 = buf[11 * g] as u16;
                let b1: u16 = buf[11 * g + 1] as u16;
                let b2: u16 = buf[11 * g + 2] as u16;
                let b3: u16 = buf[11 * g + 3] as u16;
                let b4: u16 = buf[11 * g + 4] as u16;
                let b5: u16 = buf[11 * g + 5] as u16;
                let b6: u16 = buf[11 * g + 6] as u16;
                let b7: u16 = buf[11 * g + 7] as u16;
                let b8: u16 = buf[11 * g + 8] as u16;
                let b9: u16 = buf[11 * g + 9] as u16;
                let b10: u16 = buf[11 * g + 10] as u16;
                self.coeffs[8 * g] = decompress_coeff(b0 + (b1 % 8) * 256, 11);
                self.coeffs[8 * g + 1] = decompress_coeff(b1 / 8 + (b2 % 64) * 32, 11);
                self.coeffs[8 * g + 2] = decompress_coeff(b2 / 64 + b3 * 4 + (b4 % 2) * 1024, 11);
                self.coeffs[8 * g + 3] = decompress_coeff(b4 / 2 + (b5 % 16) * 128, 11);
                self.coeffs[8 * g + 4] = decompress_coeff(b5 / 16 + (b6 % 128) * 16, 11);
                self.coeffs[8 * g + 5] = decompress_coeff(b6 / 128 + b7 * 2 + (b8 % 4) * 512, 11);
                self.coeffs[8 * g + 6] = decompress_coeff(b8 / 4 + (b9 % 32) * 64, 11);
                self.coeffs[8 * g + 7] = decompress_coeff(b9 / 32 + b10 * 8, 11);
                proof {
                    assert(dec11_ok(buf@, self.coeffs@, g as int));
                    assert forall|gg: int| 0 <= gg < g implies #[trigger] dec11_ok(
                        buf@,
                        self.coeffs@,
                        gg,
                    ) by {
                        assert(dec11_ok(buf@, c0s, gg));
                    }
                }
                g += 1;
            }
        }
    }
}

/// Quantizes one canonical coefficient to `d` bits:
/// `((c * 2^d + Q/2) / Q) mod 2^d`, computed in 32-bit integers.
fn compress_coeff(c: i16, d: i32) -> (y: u16)
    requires
        0 <= c < 3329,
        d == 4 || d == 5 || d == 10 || d == 11,
    ensures
        y as int == compress_spec(c as int, d as int),
        (y as int) < pow2(d as nat),
{
    let two_d: u32 = if d == 4 {
        16
    } else if d == 5 {
        32
    } else if d == 10 {
        1024
    } else {
        2048
    };
    proof {
        lemma2_to64();
    }
    let y32: u32 = ((c as u32) * two_d + 1664) / 3329 % two_d;
    y32 as u16
}

/// Reconstructs a coefficient from its `d`-bit quantization:
/// `(y * Q + 2^(d-1)) / 2^d`, always landing in the canonical range.
fn decompress_coeff(y: u16, d: i32) -> (c: i16)
    requires
        d == 4 || d == 5 || d == 10 || d == 11,
        (y as int) < pow2(d as nat),
    ensures
        c as int == decompress_spec(y as int, d as int),
        0 <= c < 3329,
{
    let two_d: u32 = if d == 4 {
        16
    } else if d == 5 {
        32
    } else if d == 10 {
        1024
    } else {
        2048
    };
    proof {
        lemma2_to64();
    }
    let c32: u32 = ((y as u32) * 3329 + two_d / 2) / two_d;
    c32 as i16
}

/// Montgomery product of two bounded scalars: the building block of
/// `mul_hat`, with `r * 2^16 ≡ a * b (mod Q)`.
fn mont_mul(a: i16, b: i16) -> (r: i16)
    requires
        -21000 <= a <= 21000,
        -21000 <= b <= 21000,
    ensures
        cong(r as int * 65536, a as int * b as int),
        -8393 <= r <= 8393,
        -109084672 < (a as int) * (b as int) && (a as int) * (b as int) < 109084672 ==> -3329 < r
            && r < 3329,
{
    proof {
        assert(-441000000 <= (a as int) * (b as int) <= 441000000) by (nonlinear_arith)
            requires
                -21000 <= a as int <= 21000,
                -21000 <= b as int <= 21000,
        ;
    }
    mont_reduce((a as i32) * (b as i32))
}

/// The branchless band test behind `compress_msg`: returns `msg_bit(c)`,
/// deciding membership of {833, ..., 2496} through sign bits alone.
fn msg_bit_of(c: i16) -> (r: u8)
    requires
        0 <= c < 3329,
    ensures
        r as int == msg_bit(c),
        r <= 1,
{
    let x1: i32 = 1664 - (c as i32);
    let x2: i32 = (x1 >> 15) ^ x1;
    assert(0 <= x2 && x2 <= 1664) by (bit_vector)
        requires
            x2 == (x1 >> 15) ^ x1,
            -1665 <= x1 && x1 <= 1664,
    ;
    let x3: i32 = x2 - 832;
    assert((x3 >> 15) & 1 == (if 833 <= c && c <= 2496 {
        1i32
    } else {
        0i32
    })) by (bit_vector)
        requires
            0 <= c && c < 3329,
            x1 == 1664 - (c as i32),
            x2 == (x1 >> 15) ^ x1,
            x3 == x2 - 832,
    ;
    ((x3 >> 15) & 1) as u8
}

} // verus!
