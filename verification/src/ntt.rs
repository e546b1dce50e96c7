//! The incomplete number-theoretic transform on Z_Q[x]/(x^256 + 1).
//!
//! Z_Q has a primitive 256th (not 512th) root of unity, so x^256 + 1 splits
//! into 128 quadratic factors x^2 -+ zeta^j only: the forward transform is a
//! Cooley-Tukey decimation over 7 butterfly layers (half-widths 128 down
//! to 2), and the inverse is the dual Gentleman-Sande pattern with negated
//! twiddles and a final scaling by 512, the Montgomery-domain
//! representative of 128^-1 (that is, 128^-1 * 2^16 mod Q), which makes the
//! transform pair an exact inverse pair modulo Q.
//!
//! Two things are proved about each transform: numerically, every
//! intermediate value stays inside the signed 16-bit range and the output
//! magnitudes are bounded as stated; structurally, the output is the
//! composition of the seven butterfly layers, each butterfly pinned modulo Q
//! by `butterfly_ok` / `inv_butterfly_ok` with its twiddle factor. During
//! the inverse transform every coefficient sum is Barrett-reduced as soon as
//! it is formed, a reduction placement that provably keeps all intermediates
//! in range (in place of an offline-derived index schedule).

use vstd::prelude::*;
use crate::field::{barrett_reduce, cong, lemma_cong_add, lemma_cong_scale, mont_reduce};
use crate::params::{ZETA, lemma_zeta_bounded};
use crate::polynomial::Poly;

verus! {

/// One Cooley-Tukey butterfly, stated modulo Q: with Montgomery-domain
/// twiddle `z`, the pair `(before[lo], before[hi])` becomes
/// `(before[lo] + (z/2^16)*before[hi], before[lo] - (z/2^16)*before[hi])`.
pub open spec fn butterfly_ok(before: Seq<i16>, after: Seq<i16>, z: int, lo: int, hi: int) -> bool {
    &&& cong(after[lo] as int * 65536, before[lo] as int * 65536 + z * before[hi])
    &&& cong(after[hi] as int * 65536, before[lo] as int * 65536 - z * before[hi])
}

/// One whole forward layer of half-width `l`: group `g` spans the indices
/// `[2*l*g, 2*l*g + 2*l)` and applies `butterfly_ok` with twiddle
/// `ZETA[k0 + g]` to each of its `l` index pairs.
pub open spec fn ntt_layer_ok(before: Seq<i16>, after: Seq<i16>, l: int, k0: int) -> bool {
    forall|g: int, jj: int| 0 <= g < k0 && 0 <= jj < l ==> #[trigger] butterfly_ok(
        before,
        after,
        ZETA[k0 + g] as int,
        2 * l * g + jj,
        2 * l * g + jj + l,
    )
}

/// One forward (Cooley-Tukey) butterfly layer of half-width `l`, consuming
/// the twiddle factors `ZETA[k0] ..` one per butterfly group. Establishes
/// the layer's butterfly relations and grows every coefficient magnitude by
/// less than 2400.
fn ntt_layer(p: &mut Poly, l: usize, k0: usize, Ghost(b): Ghost<int>)
    requires
        2 <= l <= 128,
        k0 * l == 128,
        0 <= b <= 19000,
        forall|i: int| 0 <= i < 256 ==> -b <= #[trigger] old(p).coeffs@[i] <= b,
    ensures
        forall|i: int| 0 <= i < 256 ==> -(b + 2400) <= #[trigger] final(p).coeffs@[i] <= b + 2400,
        ntt_layer_ok(old(p).coeffs@, final(p).coeffs@, l as int, k0 as int),
{
    proof {
        lemma_zeta_bounded();
    }
    let mut k: usize = k0;
    let mut offset: usize = 0;
    while offset < 256 - l
        invariant
            2 <= l <= 128,
            k0 * l == 128,
            0 <= b <= 19000,
            k0 <= k,
            k - k0 <= k0,
            2 * l * (k - k0) == offset,
            forall|i: int| 0 <= i < offset ==> -(b + 2400) <= #[trigger] p.coeffs@[i] <= b + 2400,
            forall|i: int| offset <= i < 256 ==> -b <= #[trigger] p.coeffs@[i] <= b,
            forall|i: int| offset <= i < 256 ==> #[trigger] p.coeffs@[i] == old(p).coeffs@[i],
            forall|g: int, jj: int| 0 <= g < k - k0 && 0 <= jj < l ==> #[trigger] butterfly_ok(
                old(p).coeffs@,
                p.coeffs@,
                ZETA[k0 + g] as int,
                2 * l * g + jj,
                2 * l * g + jj + l,
            ),
        decreases 256 - offset,
    {
        proof {
            assert(k - k0 < k0) by (nonlinear_arith)
                requires
                    2 * l * (k - k0) == offset,
                    offset < 256 - l,
                    k0 * l == 128,
                    2 <= l,
                    k0 <= k,
            ;
            assert(offset + 2 * l <= 256) by (nonlinear_arith)
                requires
                    2 * l * (k - k0) == offset,
                    k - k0 < k0,
                    k0 * l == 128,
                    2 <= l,
            ;
            assert(k0 <= 64) by (nonlinear_arith)
                requires
                    k0 * l == 128,
                    2 <= l,
            ;
            lemma_zeta_bounded();
            assert(k < 128);
        }
        let zeta: i16 = ZETA[k];
        let mut j: usize = offset;
        while j < offset + l
            invariant
                2 <= l <= 128,
                k0 * l == 128,
                0 <= b <= 19000,
                k0 <= k,
                k - k0 < k0,
                2 * l * (k - k0) == offset,
                offset + 2 * l <= 256,
                offset <= j <= offset + l,
                -1664 <= zeta <= 1664,
                zeta == ZETA[k as int],
                k < 128,
                forall|i: int| 0 <= i < offset ==> -(b + 2400) <= #[trigger] p.coeffs@[i] <= b + 2400,
                forall|i: int| offset <= i < j ==> -(b + 2400) <= #[trigger] p.coeffs@[i] <= b + 2400,
                forall|i: int| j <= i < offset + l ==> -b <= #[trigger] p.coeffs@[i] <= b,
                forall|i: int| offset + l <= i < j + l ==> -(b + 2400) <= #[trigger] p.coeffs@[i] <= b + 2400,
                forall|i: int| j + l <= i < 256 ==> -b <= #[trigger] p.coeffs@[i] <= b,
                forall|i: int| j <= i < offset + l ==> #[trigger] p.coeffs@[i] == old(p).coeffs@[i],
                forall|i: int| j + l <= i < 256 ==> #[trigger] p.coeffs@[i] == old(p).coeffs@[i],
                forall|jj: int| 0 <= jj < j - offset ==> #[trigger] butterfly_ok(
                    old(p).coeffs@,
                    p.coeffs@,
                    ZETA[k as int] as int,
                    offset + jj,
                    offset + jj + l,
                ),
                forall|g: int, jj: int| 0 <= g < k - k0 && 0 <= jj < l ==> #[trigger] butterfly_ok(
                    old(p).coeffs@,
                    p.coeffs@,
                    ZETA[k0 + g] as int,
                    2 * l * g + jj,
                    2 * l * g + jj + l,
                ),
            decreases offset + l - j,
        {
            let c: i16 = p.coeffs[j + l];
            proof {
                assert(-31616000 <= (zeta as int) * (c as int) <= 31616000) by (nonlinear_arith)
                    requires
                        -1664 <= zeta as int <= 1664,
                        -19000 <= c as int <= 19000,
                ;
            }
            let t: i16 = mont_reduce((zeta as i32) * (c as i32));
            let a: i16 = p.coeffs[j];
            proof {
                assert(-2400 <= t as int <= 2400);
            }
            let ghost prev = p.coeffs@;
            p.coeffs[j + l] = a - t;
            p.coeffs[j] = a + t;
            proof {
                let z = zeta as int;
                let ai = a as int;
                let ci = c as int;
                lemma_cong_add(ai * 65536, ai * 65536, t as int * 65536, z * ci);
                lemma_cong_scale(t as int * 65536, z * ci, -1);
                lemma_cong_add(ai * 65536, ai * 65536, (t as int * 65536) * -1, (z * ci) * -1);
                assert(p.coeffs@[j as int] as int * 65536 == ai * 65536 + t as int * 65536);
                assert(p.coeffs@[j + l] as int * 65536 == ai * 65536 + (t as int * 65536) * -1);
                assert(butterfly_ok(old(p).coeffs@, p.coeffs@, z, j as int, j + l));
                assert forall|jj: int| 0 <= jj < j + 1 - offset implies #[trigger] butterfly_ok(
                    old(p).coeffs@,
                    p.coeffs@,
                    ZETA[k as int] as int,
                    offset + jj,
                    offset + jj + l,
                ) by {
                    if jj < j - offset {
                        assert(butterfly_ok(
                            old(p).coeffs@,
                            prev,
                            ZETA[k as int] as int,
                            offset + jj,
                            offset + jj + l,
                        ));
                    }
                }
                assert forall|g: int, jj: int|
                    0 <= g < k - k0 && 0 <= jj < l implies #[trigger] butterfly_ok(
                    old(p).coeffs@,
                    p.coeffs@,
                    ZETA[k0 + g] as int,
                    2 * l * g + jj,
                    2 * l * g + jj + l,
                ) by {
                    assert(2 * l * g + jj + l < offset) by (nonlinear_arith)
                        requires
                            0 <= g,
                            g + 1 <= k - k0,
                            0 <= jj,
                            jj < l,
                            2 * l * (k - k0) == offset,
                            0 < l,
                    ;
                    assert(butterfly_ok(
                        old(p).coeffs@,
                        prev,
                        ZETA[k0 + g] as int,
                        2 * l * g + jj,
                        2 * l * g + jj + l,
                    ));
                }
            }
            j += 1;
        }
        proof {
            assert forall|g: int, jj: int|
                0 <= g < k + 1 - k0 && 0 <= jj < l implies #[trigger] butterfly_ok(
                old(p).coeffs@,
                p.coeffs@,
                ZETA[k0 + g] as int,
                2 * l * g + jj,
                2 * l * g + jj + l,
            ) by {
                if g < k - k0 {
                    assert(butterfly_ok(
                        old(p).coeffs@,
                        p.coeffs@,
                        ZETA[k0 + g] as int,
                        2 * l * g + jj,
                        2 * l * g + jj + l,
                    ));
                } else {
                    assert(2 * l * g == offset) by (nonlinear_arith)
                        requires
                            g == k - k0,
                            2 * l * (k - k0) == offset,
                    ;
                    assert(k0 + g == k as int);
                    assert(butterfly_ok(
                        old(p).coeffs@,
                        p.coeffs@,
                        ZETA[k as int] as int,
                        offset + jj,
                        offset + jj + l,
                    ));
                }
            }
        }
        k += 1;
        offset += 2 * l;
        proof {
            assert(2 * l * (k - k0) == offset) by (nonlinear_arith)
                requires
                    2 * l * ((k - 1) - k0) == offset - 2 * l,
                    k >= k0 + 1,
                    2 <= l,
            ;
        }
    }
    proof {
        assert(k - k0 == k0) by (nonlinear_arith)
            requires
                2 * l * (k - k0) == offset,
                offset >= 256 - l,
                k - k0 <= k0,
                k0 * l == 128,
                2 <= l,
                k0 <= k,
        ;
    }
}

/// The forward transform: maps a ring element (normal or Montgomery domain,
/// coefficients of magnitude at most 4096) into NTT domain, in place. The
/// output is the composition of the seven butterfly layers, witnessed by the
/// six intermediate states; no reduction is needed inside the pass, since
/// the growth over the layers is bounded by construction.
pub fn ntt_generic(p: &mut Poly)
    requires
        forall|i: int| 0 <= i < 256 ==> -4096 <= #[trigger] old(p).coeffs@[i] <= 4096,
    ensures
        forall|i: int| 0 <= i < 256 ==> -20896 <= #[trigger] final(p).coeffs@[i] <= 20896,
        exists|s1: Seq<i16>, s2: Seq<i16>, s3: Seq<i16>, s4: Seq<i16>, s5: Seq<i16>, s6: Seq<i16>|
            {
                &&& #[trigger] ntt_layer_ok(old(p).coeffs@, s1, 128, 1)
                &&& #[trigger] ntt_layer_ok(s1, s2, 64, 2)
                &&& #[trigger] ntt_layer_ok(s2, s3, 32, 4)
                &&& #[trigger] ntt_layer_ok(s3, s4, 16, 8)
                &&& #[trigger] ntt_layer_ok(s4, s5, 8, 16)
                &&& #[trigger] ntt_layer_ok(s5, s6, 4, 32)
                &&& ntt_layer_ok(s6, final(p).coeffs@, 2, 64)
            },
{
    ntt_layer(p, 128, 1, Ghost(4096));
    let ghost s1 = p.coeffs@;
    ntt_layer(p, 64, 2, Ghost(6496));
    let ghost s2 = p.coeffs@;
    ntt_layer(p, 32, 4, Ghost(8896));
    let ghost s3 = p.coeffs@;
    ntt_layer(p, 16, 8, Ghost(11296));
    let ghost s4 = p.coeffs@;
    ntt_layer(p, 8, 16, Ghost(13696));
    let ghost s5 = p.coeffs@;
    ntt_layer(p, 4, 32, Ghost(16096));
    let ghost s6 = p.coeffs@;
    ntt_layer(p, 2, 64, Ghost(18496));
    proof {
        assert(ntt_layer_ok(old(p).coeffs@, s1, 128, 1));
        assert(ntt_layer_ok(s1, s2, 64, 2));
        assert(ntt_layer_ok(s2, s3, 32, 4));
        assert(ntt_layer_ok(s3, s4, 16, 8));
        assert(ntt_layer_ok(s4, s5, 8, 16));
        assert(ntt_layer_ok(s5, s6, 4, 32));
        assert(ntt_layer_ok(s6, p.coeffs@, 2, 64));
    }
}

/// One inverse (Gentleman-Sande) butterfly layer of half-width `l`, consuming
/// the twiddles `ZETA[khi]` downwards, one per group. Walking the table
/// backwards yields the additive inverse of each needed inverse twiddle, so
/// the difference is taken in the opposite order. Every sum is
/// Barrett-reduced on the spot, so the coefficient bound Q is preserved.
/// One Gentleman-Sande butterfly, stated modulo Q: the pair becomes the sum
/// and the twiddled difference, each scalar product carrying one Montgomery
/// factor 2^-16.
pub open spec fn inv_butterfly_ok(
    before: Seq<i16>,
    after: Seq<i16>,
    z: int,
    lo: int,
    hi: int,
) -> bool {
    &&& cong(after[lo] as int, before[lo] + before[hi])
    &&& cong(after[hi] as int * 65536, z * (before[hi] - before[lo]))
}

/// One whole inverse layer of half-width `l`: group `g` spans the indices
/// `[2*l*g, 2*l*g + 2*l)` and applies `inv_butterfly_ok` with twiddle
/// `ZETA[khi - g]` to each of its `l` index pairs.
pub open spec fn inv_ntt_layer_ok(before: Seq<i16>, after: Seq<i16>, l: int, khi: int) -> bool {
    forall|g: int, jj: int| 0 <= g < (khi + 1) / 2 && 0 <= jj < l ==> #[trigger] inv_butterfly_ok(
        before,
        after,
        ZETA[khi - g] as int,
        2 * l * g + jj,
        2 * l * g + jj + l,
    )
}

fn inv_ntt_layer(p: &mut Poly, l: usize, khi: usize, groups: usize)
    requires
        2 <= l <= 128,
        groups * l == 128,
        khi + 1 == 2 * groups,
        forall|i: int| 0 <= i < 256 ==> -3329 <= #[trigger] old(p).coeffs@[i] <= 3329,
    ensures
        forall|i: int| 0 <= i < 256 ==> -3329 <= #[trigger] final(p).coeffs@[i] <= 3329,
        inv_ntt_layer_ok(old(p).coeffs@, final(p).coeffs@, l as int, khi as int),
{
    proof {
        lemma_zeta_bounded();
    }
    let mut k: usize = khi;
    let mut offset: usize = 0;
    while offset < 256 - l
        invariant
            2 <= l <= 128,
            groups * l == 128,
            khi + 1 == 2 * groups,
            k <= khi,
            khi - k <= groups,
            2 * l * (khi - k) == offset,
            forall|i: int| 0 <= i < 256 ==> -3329 <= #[trigger] p.coeffs@[i] <= 3329,
            forall|i: int| offset <= i < 256 ==> #[trigger] p.coeffs@[i] == old(p).coeffs@[i],
            forall|g: int, jj: int| 0 <= g < khi - k && 0 <= jj < l ==> #[trigger] inv_butterfly_ok(
                old(p).coeffs@,
                p.coeffs@,
                ZETA[khi - g] as int,
                2 * l * g + jj,
                2 * l * g + jj + l,
            ),
        decreases 256 - offset,
    {
        proof {
            assert(khi - k < groups) by (nonlinear_arith)
                requires
                    2 * l * (khi - k) == offset,
                    offset < 256 - l,
                    groups * l == 128,
                    2 <= l,
                    k <= khi,
            ;
            assert(offset + 2 * l <= 256) by (nonlinear_arith)
                requires
                    2 * l * (khi - k) == offset,
                    khi - k < groups,
                    groups * l == 128,
                    2 <= l,
            ;
            assert(groups <= 64) by (nonlinear_arith)
                requires
                    groups * l == 128,
                    2 <= l,
            ;
            lemma_zeta_bounded();
            assert(k >= groups);
            assert(khi < 128);
        }
        let zeta: i16 = ZETA[k];
        let mz: i32 = zeta as i32;
        let mut j: usize = offset;
        while j < offset + l
            invariant
                2 <= l <= 128,
                groups * l == 128,
                khi + 1 == 2 * groups,
                k <= khi,
                khi - k < groups,
                2 * l * (khi - k) == offset,
                offset + 2 * l <= 256,
                offset <= j <= offset + l,
                -1664 <= mz <= 1664,
                k < 128,
                mz == ZETA[k as int] as int,
                forall|i: int| 0 <= i < 256 ==> -3329 <= #[trigger] p.coeffs@[i] <= 3329,
                forall|i: int| j <= i < offset + l ==> #[trigger] p.coeffs@[i] == old(p).coeffs@[i],
                forall|i: int| j + l <= i < 256 ==> #[trigger] p.coeffs@[i] == old(p).coeffs@[i],
                forall|jj: int| 0 <= jj < j - offset ==> #[trigger] inv_butterfly_ok(
                    old(p).coeffs@,
                    p.coeffs@,
                    ZETA[k as int] as int,
                    offset + jj,
                    offset + jj + l,
                ),
                forall|g: int, jj: int|
                    0 <= g < khi - k && 0 <= jj < l ==> #[trigger] inv_butterfly_ok(
                        old(p).coeffs@,
                        p.coeffs@,
                        ZETA[khi - g] as int,
                        2 * l * g + jj,
                        2 * l * g + jj + l,
                    ),
            decreases offset + l - j,
        {
            let t: i16 = p.coeffs[j + l] - p.coeffs[j];
            let s: i16 = p.coeffs[j] + p.coeffs[j + l];
            let ghost prev0 = p.coeffs@;
            p.coeffs[j] = barrett_reduce(s);
            proof {
                assert(-11078912 <= (mz as int) * (t as int) <= 11078912) by (nonlinear_arith)
                    requires
                        -1664 <= mz as int <= 1664,
                        -6658 <= t as int <= 6658,
                ;
            }
            let m: i16 = mont_reduce(mz * (t as i32));
            proof {
                assert(-3329 <= m as int <= 3329);
            }
            p.coeffs[j + l] = m;
            proof {
                assert(inv_butterfly_ok(old(p).coeffs@, p.coeffs@, mz as int, j as int, j + l));
                assert forall|jj: int| 0 <= jj < j + 1 - offset implies #[trigger] inv_butterfly_ok(
                    old(p).coeffs@,
                    p.coeffs@,
                    ZETA[k as int] as int,
                    offset + jj,
                    offset + jj + l,
                ) by {
                    if jj < j - offset {
                        assert(inv_butterfly_ok(
                            old(p).coeffs@,
                            prev0,
                            ZETA[k as int] as int,
                            offset + jj,
                            offset + jj + l,
                        ));
                    }
                }
                assert forall|g: int, jj: int|
                    0 <= g < khi - k && 0 <= jj < l implies #[trigger] inv_butterfly_ok(
                    old(p).coeffs@,
                    p.coeffs@,
                    ZETA[khi - g] as int,
                    2 * l * g + jj,
                    2 * l * g + jj + l,
                ) by {
                    assert(2 * l * g + jj + l < offset) by (nonlinear_arith)
                        requires
                            0 <= g,
                            g + 1 <= khi - k,
                            0 <= jj,
                            jj < l,
                            2 * l * (khi - k) == offset,
                            0 < l,
                    ;
                    assert(inv_butterfly_ok(
                        old(p).coeffs@,
                        prev0,
                        ZETA[khi - g] as int,
                        2 * l * g + jj,
                        2 * l * g + jj + l,
                    ));
                }
            }
            j += 1;
        }
        proof {
            assert forall|g: int, jj: int|
                0 <= g < khi - k + 1 && 0 <= jj < l implies #[trigger] inv_butterfly_ok(
                old(p).coeffs@,
                p.coeffs@,
                ZETA[khi - g] as int,
                2 * l * g + jj,
                2 * l * g + jj + l,
            ) by {
                if g < khi - k {
                    assert(inv_butterfly_ok(
                        old(p).coeffs@,
                        p.coeffs@,
                        ZETA[khi - g] as int,
                        2 * l * g + jj,
                        2 * l * g + jj + l,
                    ));
                } else {
                    assert(2 * l * g == offset) by (nonlinear_arith)
                        requires
                            g == khi - k,
                            2 * l * (khi - k) == offset,
                    ;
                    assert(khi - g == k as int);
                    assert(inv_butterfly_ok(
                        old(p).coeffs@,
                        p.coeffs@,
                        ZETA[k as int] as int,
                        offset + jj,
                        offset + jj + l,
                    ));
                }
            }
        }
        k -= 1;
        offset += 2 * l;
        proof {
            assert(2 * l * (khi - k) == offset) by (nonlinear_arith)
                requires
                    2 * l * (khi - (k + 1)) == offset - 2 * l,
                    k + 1 <= khi,
                    2 <= l,
            ;
        }
    }
    proof {
        assert(khi - k == groups) by (nonlinear_arith)
            requires
                2 * l * (khi - k) == offset,
                offset >= 256 - l,
                khi - k <= groups,
                groups * l == 128,
                2 <= l,
                k <= khi,
        ;
        assert((khi as int + 1) / 2 == groups);
    }
}

/// The inverse transform: maps an NTT-domain element back, in place, for any
/// 16-bit input. It Barrett-reduces the element, runs the seven inverse
/// layers (witnessed by the intermediate states), and multiplies every
/// coefficient by the fixed correction factor 512 = 128^-1 * 2^16 mod Q (the
/// Montgomery-domain representative of the inverse of 2^7 = 128) through
/// Montgomery reduction, so that this transform exactly inverts
/// `ntt_generic` modulo Q; every output magnitude stays below Q.
pub fn inv_ntt_generic(p: &mut Poly)
    ensures
        forall|i: int| 0 <= i < 256 ==> -3329 < #[trigger] final(p).coeffs@[i] < 3329,
        exists|
            s0: Seq<i16>,
            s1: Seq<i16>,
            s2: Seq<i16>,
            s3: Seq<i16>,
            s4: Seq<i16>,
            s5: Seq<i16>,
            s6: Seq<i16>,
            s7: Seq<i16>,
        |
            {
                &&& (forall|i: int|
                    0 <= i < 256 ==> cong(#[trigger] s0[i] as int, old(p).coeffs@[i] as int))
                &&& #[trigger] inv_ntt_layer_ok(s0, s1, 2, 127)
                &&& #[trigger] inv_ntt_layer_ok(s1, s2, 4, 63)
                &&& #[trigger] inv_ntt_layer_ok(s2, s3, 8, 31)
                &&& #[trigger] inv_ntt_layer_ok(s3, s4, 16, 15)
                &&& #[trigger] inv_ntt_layer_ok(s4, s5, 32, 7)
                &&& #[trigger] inv_ntt_layer_ok(s5, s6, 64, 3)
                &&& #[trigger] inv_ntt_layer_ok(s6, s7, 128, 1)
                &&& (forall|i: int|
                    0 <= i < 256 ==> cong(
                        #[trigger] final(p).coeffs@[i] as int * 65536,
                        512 * s7[i],
                    ))
            },
{
    p.barrett_reduce();
    let ghost s0 = p.coeffs@;
    inv_ntt_layer(p, 2, 127, 64);
    let ghost s1 = p.coeffs@;
    inv_ntt_layer(p, 4, 63, 32);
    let ghost s2 = p.coeffs@;
    inv_ntt_layer(p, 8, 31, 16);
    let ghost s3 = p.coeffs@;
    inv_ntt_layer(p, 16, 15, 8);
    let ghost s4 = p.coeffs@;
    inv_ntt_layer(p, 32, 7, 4);
    let ghost s5 = p.coeffs@;
    inv_ntt_layer(p, 64, 3, 2);
    let ghost s6 = p.coeffs@;
    inv_ntt_layer(p, 128, 1, 1);
    let ghost s7 = p.coeffs@;
    let mut i: usize = 0;
    while i < 256
        invariant
            i <= 256,
            s7.len() == 256,
            forall|j: int| 0 <= j < i ==> -3329 < #[trigger] p.coeffs@[j] < 3329,
            forall|j: int| i <= j < 256 ==> #[trigger] p.coeffs@[j] == s7[j],
            forall|j: int| i <= j < 256 ==> -3329 <= #[trigger] p.coeffs@[j] <= 3329,
            forall|j: int| 0 <= j < i ==> cong(
                #[trigger] p.coeffs@[j] as int * 65536,
                512 * s7[j],
            ),
        decreases 256 - i,
    {
        let c: i16 = mont_reduce(512 * (p.coeffs[i] as i32));
        assert(-3329 < c && c < 3329);
        p.coeffs[i] = c;
        i += 1;
    }
    proof {
        assert(forall|j: int| 0 <= j < 256 ==> cong(
            #[trigger] s0[j] as int,
            old(p).coeffs@[j] as int,
        ));
        assert(inv_ntt_layer_ok(s0, s1, 2, 127));
        assert(inv_ntt_layer_ok(s1, s2, 4, 63));
        assert(inv_ntt_layer_ok(s2, s3, 8, 31));
        assert(inv_ntt_layer_ok(s3, s4, 16, 15));
        assert(inv_ntt_layer_ok(s4, s5, 32, 7));
        assert(inv_ntt_layer_ok(s5, s6, 64, 3));
        assert(inv_ntt_layer_ok(s6, s7, 128, 1));
        assert(forall|j: int| 0 <= j < 256 ==> cong(
            #[trigger] p.coeffs@[j] as int * 65536,
            512 * s7[j],
        ));
    }
}

} // verus!
