//! The library's laws: round-trip and error-bound statements proved over the
//! same spec-level views that the executable contracts use.

use vstd::prelude::*;
use vstd::arithmetic::div_mod::lemma_div_is_ordered;
use vstd::arithmetic::div_mod::lemma_fundamental_div_mod;
use vstd::arithmetic::div_mod::lemma_fundamental_div_mod_converse;
use vstd::arithmetic::div_mod::lemma_hoist_over_denominator;
use vstd::arithmetic::div_mod::lemma_div_denominator;
use vstd::arithmetic::div_mod::lemma_mod_add_multiples_vanish;
use vstd::arithmetic::div_mod::lemma_mod_bound;
use vstd::arithmetic::div_mod::lemma_mod_multiples_basic;
use vstd::arithmetic::div_mod::lemma_small_mod;
use vstd::arithmetic::power2::lemma2_to64;
use vstd::arithmetic::power2::pow2;
use crate::field::{cong, lemma_cancel_pow16, lemma_cong_add, lemma_cong_scale, lemma_cong_trans};
use crate::ntt::{butterfly_ok, inv_butterfly_ok, inv_ntt_layer_ok, ntt_layer_ok};
use crate::params::ZETA;
use crate::polynomial::{
    cmp10_ok, cmp11_ok, cmp4_ok, cmp5_ok, compress_spec, dec10_ok, dec11_ok, dec4_ok, dec5_ok,
    decompress_spec, msg_bit, msg_byte, msg_coeff, pack_group_ok, unpack_group_ok,
};

verus! {

/// Field identity: a value sent into Montgomery domain by `to_mont` and
/// brought back by `mont_reduce` returns to its original residue class
/// modulo Q. The hypotheses are exactly the two functions' contracts.
pub proof fn lemma_mont_round_trip(x: int, r1: int, r2: int)
    requires
        cong(r1, 65536 * x),
        cong(r2 * 65536, r1),
    ensures
        cong(r2, x),
{
    let a = r2 * 65536 - r1;
    let b = r1 - 65536 * x;
    lemma_fundamental_div_mod(a, 3329);
    lemma_fundamental_div_mod(b, 3329);
    assert(a + b == 3329 * (a / 3329 + b / 3329));
    lemma_mod_multiples_basic(a / 3329 + b / 3329, 3329);
    assert(((r2 - x) * 65536) % 3329 == 0);
    lemma_cancel_pow16(r2 - x);
}

/// Lossless packing round trip: a coefficient sequence already reduced to
/// [0, 4096) is reproduced exactly by `unpack` applied to its `pack` image.
/// The hypotheses are the two codecs' byte-level contracts.
pub proof fn lemma_pack_unpack_round_trip(c: Seq<i16>, b: Seq<u8>, c2: Seq<i16>)
    requires
        c.len() == 256,
        c2.len() == 256,
        forall|i: int| 0 <= i < 256 ==> 0 <= #[trigger] c[i] < 4096,
        forall|g: int| 0 <= g < 128 ==> #[trigger] pack_group_ok(c, b, g),
        forall|g: int| 0 <= g < 128 ==> #[trigger] unpack_group_ok(b, c2, g),
    ensures
        c2 == c,
{
    assert forall|i: int| 0 <= i < 256 implies c2[i] == c[i] by {
        let g = i / 2;
        assert(pack_group_ok(c, b, g));
        assert(unpack_group_ok(b, c2, g));
        let t0 = c[2 * g] as int;
        let t1 = c[2 * g + 1] as int;
        lemma_fundamental_div_mod(t0, 256);
        lemma_fundamental_div_mod(t1, 16);
        lemma_fundamental_div_mod_converse(b[3 * g + 1] as int, 16, t1 % 16, t0 / 256);
        assert(i == 2 * g || i == 2 * g + 1);
    }
    assert(c2 =~= c);
}

/// Extracting bit `j` of a byte assembled from eight single-bit values
/// returns the `j`-th of those values.
proof fn lemma_byte_bit(
    bb: u8,
    x0: u8,
    x1: u8,
    x2: u8,
    x3: u8,
    x4: u8,
    x5: u8,
    x6: u8,
    x7: u8,
    j: u8,
)
    by (bit_vector)
    requires
        x0 <= 1 && x1 <= 1 && x2 <= 1 && x3 <= 1 && x4 <= 1 && x5 <= 1 && x6 <= 1 && x7 <= 1,
        j < 8,
        bb == x0 + 2 * x1 + 4 * x2 + 8 * x3 + 16 * x4 + 32 * x5 + 64 * x6 + 128 * x7,
    ensures
        (bb >> j) & 1 == (if j == 0 {
            x0
        } else if j == 1 {
            x1
        } else if j == 2 {
            x2
        } else if j == 3 {
            x3
        } else if j == 4 {
            x4
        } else if j == 5 {
            x5
        } else if j == 6 {
            x6
        } else {
            x7
        }),
{
}

/// Message round trip: an element whose coefficients each encode a single
/// bit (0 or (Q+1)/2) is reproduced exactly by `decompress_msg` applied to
/// its own `compress_msg` encoding. The hypotheses are the two message
/// codecs' contracts.
pub proof fn lemma_msg_round_trip(c: Seq<i16>, b: Seq<u8>, c2: Seq<i16>)
    requires
        c.len() == 256,
        b.len() == 32,
        c2.len() == 256,
        forall|i: int| 0 <= i < 256 ==> (#[trigger] c[i] == 0 || c[i] == 1665),
        forall|i: int| 0 <= i < 32 ==> #[trigger] b[i] as int == msg_byte(c, i),
        forall|idx: int| 0 <= idx < 256 ==> #[trigger] c2[idx] == msg_coeff(b[idx / 8], idx % 8),
    ensures
        c2 == c,
{
    assert forall|idx: int| 0 <= idx < 256 implies c2[idx] == c[idx] by {
        let i = idx / 8;
        let j = idx % 8;
        assert(b[i] as int == msg_byte(c, i));
        lemma_byte_bit(
            b[i],
            msg_bit(c[8 * i]) as u8,
            msg_bit(c[8 * i + 1]) as u8,
            msg_bit(c[8 * i + 2]) as u8,
            msg_bit(c[8 * i + 3]) as u8,
            msg_bit(c[8 * i + 4]) as u8,
            msg_bit(c[8 * i + 5]) as u8,
            msg_bit(c[8 * i + 6]) as u8,
            msg_bit(c[8 * i + 7]) as u8,
            j as u8,
        );
        assert(idx == 8 * i + j);
        assert(c2[idx] == msg_coeff(b[i], j));
    }
    assert(c2 =~= c);
}

/// A residue in (-Q, 0) shifts into [0, Q) by one addition of Q.
proof fn lemma_mod_neg_small(x: int)
    requires
        -3329 < x < 0,
    ensures
        x % 3329 == x + 3329,
{
    lemma_mod_add_multiples_vanish(x, 3329);
    lemma_small_mod((x + 3329) as nat, 3329);
}

/// The error-bound argument for one fixed width, with m = 2^d and h = m/2.
proof fn lemma_compress_err_at(c: int, d: int, m: int, h: int, bnd: int)
    requires
        0 <= c < 3329,
        m == pow2(d as nat),
        h == pow2((d - 1) as nat),
        m == 2 * h,
        m == 16 || m == 32 || m == 1024 || m == 2048,
        bnd == 3329int / (2 * m) + 2,
        bnd * m >= 1664 + h,
    ensures
        ({
            let e = (decompress_spec(compress_spec(c, d), d) - c) % 3329;
            e <= bnd || 3329 - e <= bnd
        }),
{
    let s = c * m + 1664;
    assert(0 <= c * m && c * m <= 3328 * m) by (nonlinear_arith)
        requires
            0 <= c && c <= 3328 && 0 < m,
    ;
    lemma_fundamental_div_mod(s, 3329);
    let y0 = s / 3329;
    let r = s % 3329;
    assert(0 <= y0 && y0 <= m);
    assert(compress_spec(c, d) == y0 % m);
    if y0 < m {
        lemma_small_mod(y0 as nat, m as nat);
        assert(compress_spec(c, d) == y0);
        let kk = 1664 + h - r;
        assert(y0 * 3329 + h == c * m + kk);
        lemma_hoist_over_denominator(kk, c, m as nat);
        assert(decompress_spec(y0, d) == c + kk / m);
        lemma_div_is_ordered(h - 1664, kk, m);
        lemma_div_is_ordered(kk, h + 1664, m);
        lemma_div_is_ordered(-(bnd * m), h - 1664, m);
        assert((-(bnd * m)) / m == -bnd) by {
            assert(-(bnd * m) == (-bnd) * m) by (nonlinear_arith);
            lemma_fundamental_div_mod_converse(-(bnd * m), m, -bnd, 0);
        }
        assert((h + 1664) / m <= bnd);
        assert(-bnd <= kk / m && kk / m <= bnd);
        let delta = kk / m;
        if delta >= 0 {
            lemma_small_mod(delta as nat, 3329);
        } else {
            lemma_mod_neg_small(delta);
        }
    } else {
        assert(y0 == m);
        lemma_mod_multiples_basic(1, m);
        assert((1 * m) % m == 0);
        assert(compress_spec(c, d) == 0);
        lemma_fundamental_div_mod_converse(h, m, 0, h);
        assert(decompress_spec(0, d) == 0);
        assert(3329 * m <= c * m + 1664);
        assert((3329 - c) * m <= 1664) by (nonlinear_arith)
            requires
                3329 * m <= c * m + 1664,
        ;
        assert(3329 - c <= bnd) by (nonlinear_arith)
            requires
                (3329 - c) * m <= 1664,
                bnd * m >= 1664 + h,
                0 < h,
                0 < m,
        ;
        assert(c > 0);
        lemma_mod_neg_small(0 - c);
    }
}

/// Lossy compression error bound: for every canonical coefficient `c` and
/// each supported width `d`, the value `decompress(compress(c, d), d)` lies
/// within ceil(Q / 2^(d+1)) + 1 of `c`, as a distance modulo Q.
pub proof fn lemma_compress_error_bound(c: int, d: int)
    requires
        0 <= c < 3329,
        d == 4 || d == 5 || d == 10 || d == 11,
    ensures
        ({
            let e = (decompress_spec(compress_spec(c, d), d) - c) % 3329;
            let bnd = 3329int / (pow2((d + 1) as nat) as int) + 2;
            e <= bnd || 3329 - e <= bnd
        }),
{
    lemma2_to64();
    if d == 4 {
        lemma_compress_err_at(c, 4, 16, 8, 106);
    } else if d == 5 {
        lemma_compress_err_at(c, 5, 32, 16, 54);
    } else if d == 10 {
        lemma_compress_err_at(c, 10, 1024, 512, 3);
    } else {
        lemma_compress_err_at(c, 11, 2048, 1024, 2);
    }
}

/// Walking the twiddle table backwards meets the forward walk in mirrored
/// pairs whose product is the negated square of the Montgomery constant:
/// `ZETA[k0 + g] * ZETA[2*k0 - 1 - g] ≡ -(2^16)^2 (mod Q)`. This table fact
/// is what makes each inverse layer undo the matching forward layer.
proof fn lemma_zeta_mirror(k0: int, g: int)
    requires
        k0 == 1 || k0 == 2 || k0 == 4 || k0 == 8 || k0 == 16 || k0 == 32 || k0 == 64,
        0 <= g < k0,
    ensures
        cong(ZETA[k0 + g] as int * (ZETA[2 * k0 - 1 - g] as int), -1353),
{
    if k0 == 1 {
        assert(ZETA[1] == -758);
        assert(((-758) * (-758) - (-1353)) % 3329 == 0);
    } else if k0 == 2 {
        if g == 0 {
            assert(ZETA[2] == -359);
            assert(ZETA[3] == -1517);
            assert(((-359) * (-1517) - (-1353)) % 3329 == 0);
        } else {
            assert(ZETA[3] == -1517);
            assert(ZETA[2] == -359);
            assert(((-1517) * (-359) - (-1353)) % 3329 == 0);
        }
    } else if k0 == 4 {
        if g == 0 {
            assert(ZETA[4] == 1493);
            assert(ZETA[7] == 202);
            assert(((1493) * (202) - (-1353)) % 3329 == 0);
        } else if g == 1 {
            assert(ZETA[5] == 1422);
            assert(ZETA[6] == 287);
            assert(((1422) * (287) - (-1353)) % 3329 == 0);
        } else if g == 2 {
            assert(ZETA[6] == 287);
            assert(ZETA[5] == 1422);
            assert(((287) * (1422) - (-1353)) % 3329 == 0);
        } else {
            assert(ZETA[7] == 202);
            assert(ZETA[4] == 1493);
            assert(((202) * (1493) - (-1353)) % 3329 == 0);
        }
    } else if k0 == 8 {
        if g == 0 {
            assert(ZETA[8] == -171);
            assert(ZETA[15] == 1468);
            assert(((-171) * (1468) - (-1353)) % 3329 == 0);
        } else if g == 1 {
            assert(ZETA[9] == 622);
            assert(ZETA[14] == -1474);
            assert(((622) * (-1474) - (-1353)) % 3329 == 0);
        } else if g == 2 {
            assert(ZETA[10] == 1577);
            assert(ZETA[13] == -1202);
            assert(((1577) * (-1202) - (-1353)) % 3329 == 0);
        } else if g == 3 {
            assert(ZETA[11] == 182);
            assert(ZETA[12] == 962);
            assert(((182) * (962) - (-1353)) % 3329 == 0);
        } else if g == 4 {
            assert(ZETA[12] == 962);
            assert(ZETA[11] == 182);
            assert(((962) * (182) - (-1353)) % 3329 == 0);
        } else if g == 5 {
            assert(ZETA[13] == -1202);
            assert(ZETA[10] == 1577);
            assert(((-1202) * (1577) - (-1353)) % 3329 == 0);
        } else if g == 6 {
            assert(ZETA[14] == -1474);
            assert(ZETA[9] == 622);
            assert(((-1474) * (622) - (-1353)) % 3329 == 0);
        } else {
            assert(ZETA[15] == 1468);
            assert(ZETA[8] == -171);
            assert(((1468) * (-171) - (-1353)) % 3329 == 0);
        }
    } else if k0 == 16 {
        if g == 0 {
            assert(ZETA[16] == 573);
            assert(ZETA[31] == -1571);
            assert(((573) * (-1571) - (-1353)) % 3329 == 0);
        } else if g == 1 {
            assert(ZETA[17] == -1325);
            assert(ZETA[30] == -205);
            assert(((-1325) * (-205) - (-1353)) % 3329 == 0);
        } else if g == 2 {
            assert(ZETA[18] == 264);
            assert(ZETA[29] == 411);
            assert(((264) * (411) - (-1353)) % 3329 == 0);
        } else if g == 3 {
            assert(ZETA[19] == 383);
            assert(ZETA[28] == -1542);
            assert(((383) * (-1542) - (-1353)) % 3329 == 0);
        } else if g == 4 {
            assert(ZETA[20] == -829);
            assert(ZETA[27] == 608);
            assert(((-829) * (608) - (-1353)) % 3329 == 0);
        } else if g == 5 {
            assert(ZETA[21] == 1458);
            assert(ZETA[26] == 732);
            assert(((1458) * (732) - (-1353)) % 3329 == 0);
        } else if g == 6 {
            assert(ZETA[22] == -1602);
            assert(ZETA[25] == 1017);
            assert(((-1602) * (1017) - (-1353)) % 3329 == 0);
        } else if g == 7 {
            assert(ZETA[23] == -130);
            assert(ZETA[24] == -681);
            assert(((-130) * (-681) - (-1353)) % 3329 == 0);
        } else if g == 8 {
            assert(ZETA[24] == -681);
            assert(ZETA[23] == -130);
            assert(((-681) * (-130) - (-1353)) % 3329 == 0);
        } else if g == 9 {
            assert(ZETA[25] == 1017);
            assert(ZETA[22] == -1602);
            assert(((1017) * (-1602) - (-1353)) % 3329 == 0);
        } else if g == 10 {
            assert(ZETA[26] == 732);
            assert(ZETA[21] == 1458);
            assert(((732) * (1458) - (-1353)) % 3329 == 0);
        } else if g == 11 {
            assert(ZETA[27] == 608);
            assert(ZETA[20] == -829);
            assert(((608) * (-829) - (-1353)) % 3329 == 0);
        } else if g == 12 {
            assert(ZETA[28] == -1542);
            assert(ZETA[19] == 383);
            assert(((-1542) * (383) - (-1353)) % 3329 == 0);
        } else if g == 13 {
            assert(ZETA[29] == 411);
            assert(ZETA[18] == 264);
            assert(((411) * (264) - (-1353)) % 3329 == 0);
        } else if g == 14 {
            assert(ZETA[30] == -205);
            assert(ZETA[17] == -1325);
            assert(((-205) * (-1325) - (-1353)) % 3329 == 0);
        } else {
            assert(ZETA[31] == -1571);
            assert(ZETA[16] == 573);
            assert(((-1571) * (573) - (-1353)) % 3329 == 0);
        }
    } else if k0 == 32 {
        if g == 0 {
            assert(ZETA[32] == 1223);
            assert(ZETA[63] == -1275);
            assert(((1223) * (-1275) - (-1353)) % 3329 == 0);
        } else if g == 1 {
            assert(ZETA[33] == 652);
            assert(ZETA[62] == 677);
            assert(((652) * (677) - (-1353)) % 3329 == 0);
        } else if g == 2 {
            assert(ZETA[34] == -552);
            assert(ZETA[61] == -1065);
            assert(((-552) * (-1065) - (-1353)) % 3329 == 0);
        } else if g == 3 {
            assert(ZETA[35] == 1015);
            assert(ZETA[60] == 448);
            assert(((1015) * (448) - (-1353)) % 3329 == 0);
        } else if g == 4 {
            assert(ZETA[36] == -1293);
            assert(ZETA[59] == -725);
            assert(((-1293) * (-725) - (-1353)) % 3329 == 0);
        } else if g == 5 {
            assert(ZETA[37] == 1491);
            assert(ZETA[58] == -1508);
            assert(((1491) * (-1508) - (-1353)) % 3329 == 0);
        } else if g == 6 {
            assert(ZETA[38] == -282);
            assert(ZETA[57] == 961);
            assert(((-282) * (961) - (-1353)) % 3329 == 0);
        } else if g == 7 {
            assert(ZETA[39] == -1544);
            assert(ZETA[56] == -398);
            assert(((-1544) * (-398) - (-1353)) % 3329 == 0);
        } else if g == 8 {
            assert(ZETA[40] == 516);
            assert(ZETA[55] == -951);
            assert(((516) * (-951) - (-1353)) % 3329 == 0);
        } else if g == 9 {
            assert(ZETA[41] == -8);
            assert(ZETA[54] == -247);
            assert(((-8) * (-247) - (-1353)) % 3329 == 0);
        } else if g == 10 {
            assert(ZETA[42] == -320);
            assert(ZETA[53] == -1421);
            assert(((-320) * (-1421) - (-1353)) % 3329 == 0);
        } else if g == 11 {
            assert(ZETA[43] == -666);
            assert(ZETA[52] == 107);
            assert(((-666) * (107) - (-1353)) % 3329 == 0);
        } else if g == 12 {
            assert(ZETA[44] == -1618);
            assert(ZETA[51] == 830);
            assert(((-1618) * (830) - (-1353)) % 3329 == 0);
        } else if g == 13 {
            assert(ZETA[45] == -1162);
            assert(ZETA[50] == -271);
            assert(((-1162) * (-271) - (-1353)) % 3329 == 0);
        } else if g == 14 {
            assert(ZETA[46] == 126);
            assert(ZETA[49] == -90);
            assert(((126) * (-90) - (-1353)) % 3329 == 0);
        } else if g == 15 {
            assert(ZETA[47] == 1469);
            assert(ZETA[48] == -853);
            assert(((1469) * (-853) - (-1353)) % 3329 == 0);
        } else if g == 16 {
            assert(ZETA[48] == -853);
            assert(ZETA[47] == 1469);
            assert(((-853) * (1469) - (-1353)) % 3329 == 0);
        } else if g == 17 {
            assert(ZETA[49] == -90);
            assert(ZETA[46] == 126);
            assert(((-90) * (126) - (-1353)) % 3329 == 0);
        } else if g == 18 {
            assert(ZETA[50] == -271);
            assert(ZETA[45] == -1162);
            assert(((-271) * (-1162) - (-1353)) % 3329 == 0);
        } else if g == 19 {
            assert(ZETA[51] == 830);
            assert(ZETA[44] == -1618);
            assert(((830) * (-1618) - (-1353)) % 3329 == 0);
        } else if g == 20 {
            assert(ZETA[52] == 107);
            assert(ZETA[43] == -666);
            assert(((107) * (-666) - (-1353)) % 3329 == 0);
        } else if g == 21 {
            assert(ZETA[53] == -1421);
            assert(ZETA[42] == -320);
            assert(((-1421) * (-320) - (-1353)) % 3329 == 0);
        } else if g == 22 {
            assert(ZETA[54] == -247);
            assert(ZETA[41] == -8);
            assert(((-247) * (-8) - (-1353)) % 3329 == 0);
        } else if g == 23 {
            assert(ZETA[55] == -951);
            assert(ZETA[40] == 516);
            assert(((-951) * (516) - (-1353)) % 3329 == 0);
        } else if g == 24 {
            assert(ZETA[56] == -398);
            assert(ZETA[39] == -1544);
            assert(((-398) * (-1544) - (-1353)) % 3329 == 0);
        } else if g == 25 {
            assert(ZETA[57] == 961);
            assert(ZETA[38] == -282);
            assert(((961) * (-282) - (-1353)) % 3329 == 0);
        } else if g == 26 {
            assert(ZETA[58] == -1508);
            assert(ZETA[37] == 1491);
            assert(((-1508) * (1491) - (-1353)) % 3329 == 0);
        } else if g == 27 {
            assert(ZETA[59] == -725);
            assert(ZETA[36] == -1293);
            assert(((-725) * (-1293) - (-1353)) % 3329 == 0);
        } else if g == 28 {
            assert(ZETA[60] == 448);
            assert(ZETA[35] == 1015);
            assert(((448) * (1015) - (-1353)) % 3329 == 0);
        } else if g == 29 {
            assert(ZETA[61] == -1065);
            assert(ZETA[34] == -552);
            assert(((-1065) * (-552) - (-1353)) % 3329 == 0);
        } else if g == 30 {
            assert(ZETA[62] == 677);
            assert(ZETA[33] == 652);
            assert(((677) * (652) - (-1353)) % 3329 == 0);
        } else {
            assert(ZETA[63] == -1275);
            assert(ZETA[32] == 1223);
            assert(((-1275) * (1223) - (-1353)) % 3329 == 0);
        }
    } else {
        if g == 0 {
            assert(ZETA[64] == -1103);
            assert(ZETA[127] == 1628);
            assert(((-1103) * (1628) - (-1353)) % 3329 == 0);
        } else if g == 1 {
            assert(ZETA[65] == 430);
            assert(ZETA[126] == 1522);
            assert(((430) * (1522) - (-1353)) % 3329 == 0);
        } else if g == 2 {
            assert(ZETA[66] == 555);
            assert(ZETA[125] == -1460);
            assert(((555) * (-1460) - (-1353)) % 3329 == 0);
        } else if g == 3 {
            assert(ZETA[67] == 843);
            assert(ZETA[124] == 958);
            assert(((843) * (958) - (-1353)) % 3329 == 0);
        } else if g == 4 {
            assert(ZETA[68] == -1251);
            assert(ZETA[123] == 991);
            assert(((-1251) * (991) - (-1353)) % 3329 == 0);
        } else if g == 5 {
            assert(ZETA[69] == 871);
            assert(ZETA[122] == 996);
            assert(((871) * (996) - (-1353)) % 3329 == 0);
        } else if g == 6 {
            assert(ZETA[70] == 1550);
            assert(ZETA[121] == -308);
            assert(((1550) * (-308) - (-1353)) % 3329 == 0);
        } else if g == 7 {
            assert(ZETA[71] == 105);
            assert(ZETA[120] == -108);
            assert(((105) * (-108) - (-1353)) % 3329 == 0);
        } else if g == 8 {
            assert(ZETA[72] == 422);
            assert(ZETA[119] == 478);
            assert(((422) * (478) - (-1353)) % 3329 == 0);
        } else if g == 9 {
            assert(ZETA[73] == 587);
            assert(ZETA[118] == -870);
            assert(((587) * (-870) - (-1353)) % 3329 == 0);
        } else if g == 10 {
            assert(ZETA[74] == 177);
            assert(ZETA[117] == -854);
            assert(((177) * (-854) - (-1353)) % 3329 == 0);
        } else if g == 11 {
            assert(ZETA[75] == -235);
            assert(ZETA[116] == -1510);
            assert(((-235) * (-1510) - (-1353)) % 3329 == 0);
        } else if g == 12 {
            assert(ZETA[76] == -291);
            assert(ZETA[115] == 794);
            assert(((-291) * (794) - (-1353)) % 3329 == 0);
        } else if g == 13 {
            assert(ZETA[77] == -460);
            assert(ZETA[114] == -1278);
            assert(((-460) * (-1278) - (-1353)) % 3329 == 0);
        } else if g == 14 {
            assert(ZETA[78] == 1574);
            assert(ZETA[113] == -1530);
            assert(((1574) * (-1530) - (-1353)) % 3329 == 0);
        } else if g == 15 {
            assert(ZETA[79] == 1653);
            assert(ZETA[112] == -1185);
            assert(((1653) * (-1185) - (-1353)) % 3329 == 0);
        } else if g == 16 {
            assert(ZETA[80] == -246);
            assert(ZETA[111] == -1659);
            assert(((-246) * (-1659) - (-1353)) % 3329 == 0);
        } else if g == 17 {
            assert(ZETA[81] == 778);
            assert(ZETA[110] == -1187);
            assert(((778) * (-1187) - (-1353)) % 3329 == 0);
        } else if g == 18 {
            assert(ZETA[82] == 1159);
            assert(ZETA[109] == 220);
            assert(((1159) * (220) - (-1353)) % 3329 == 0);
        } else if g == 19 {
            assert(ZETA[83] == -147);
            assert(ZETA[108] == -874);
            assert(((-147) * (-874) - (-1353)) % 3329 == 0);
        } else if g == 20 {
            assert(ZETA[84] == -777);
            assert(ZETA[107] == -1335);
            assert(((-777) * (-1335) - (-1353)) % 3329 == 0);
        } else if g == 21 {
            assert(ZETA[85] == 1483);
            assert(ZETA[106] == 1218);
            assert(((1483) * (1218) - (-1353)) % 3329 == 0);
        } else if g == 22 {
            assert(ZETA[86] == -602);
            assert(ZETA[105] == -136);
            assert(((-602) * (-136) - (-1353)) % 3329 == 0);
        } else if g == 23 {
            assert(ZETA[87] == 1119);
            assert(ZETA[104] == -1215);
            assert(((1119) * (-1215) - (-1353)) % 3329 == 0);
        } else if g == 24 {
            assert(ZETA[88] == -1590);
            assert(ZETA[103] == 384);
            assert(((-1590) * (384) - (-1353)) % 3329 == 0);
        } else if g == 25 {
            assert(ZETA[89] == 644);
            assert(ZETA[102] == -1465);
            assert(((644) * (-1465) - (-1353)) % 3329 == 0);
        } else if g == 26 {
            assert(ZETA[90] == -872);
            assert(ZETA[101] == -1285);
            assert(((-872) * (-1285) - (-1353)) % 3329 == 0);
        } else if g == 27 {
            assert(ZETA[91] == 349);
            assert(ZETA[100] == 1322);
            assert(((349) * (1322) - (-1353)) % 3329 == 0);
        } else if g == 28 {
            assert(ZETA[92] == 418);
            assert(ZETA[99] == 610);
            assert(((418) * (610) - (-1353)) % 3329 == 0);
        } else if g == 29 {
            assert(ZETA[93] == 329);
            assert(ZETA[98] == 603);
            assert(((329) * (603) - (-1353)) % 3329 == 0);
        } else if g == 30 {
            assert(ZETA[94] == -156);
            assert(ZETA[97] == 1097);
            assert(((-156) * (1097) - (-1353)) % 3329 == 0);
        } else if g == 31 {
            assert(ZETA[95] == -75);
            assert(ZETA[96] == 817);
            assert(((-75) * (817) - (-1353)) % 3329 == 0);
        } else if g == 32 {
            assert(ZETA[96] == 817);
            assert(ZETA[95] == -75);
            assert(((817) * (-75) - (-1353)) % 3329 == 0);
        } else if g == 33 {
            assert(ZETA[97] == 1097);
            assert(ZETA[94] == -156);
            assert(((1097) * (-156) - (-1353)) % 3329 == 0);
        } else if g == 34 {
            assert(ZETA[98] == 603);
            assert(ZETA[93] == 329);
            assert(((603) * (329) - (-1353)) % 3329 == 0);
        } else if g == 35 {
            assert(ZETA[99] == 610);
            assert(ZETA[92] == 418);
            assert(((610) * (418) - (-1353)) % 3329 == 0);
        } else if g == 36 {
            assert(ZETA[100] == 1322);
            assert(ZETA[91] == 349);
            assert(((1322) * (349) - (-1353)) % 3329 == 0);
        } else if g == 37 {
            assert(ZETA[101] == -1285);
            assert(ZETA[90] == -872);
            assert(((-1285) * (-872) - (-1353)) % 3329 == 0);
        } else if g == 38 {
            assert(ZETA[102] == -1465);
            assert(ZETA[89] == 644);
            assert(((-1465) * (644) - (-1353)) % 3329 == 0);
        } else if g == 39 {
            assert(ZETA[103] == 384);
            assert(ZETA[88] == -1590);
            assert(((384) * (-1590) - (-1353)) % 3329 == 0);
        } else if g == 40 {
            assert(ZETA[104] == -1215);
            assert(ZETA[87] == 1119);
            assert(((-1215) * (1119) - (-1353)) % 3329 == 0);
        } else if g == 41 {
            assert(ZETA[105] == -136);
            assert(ZETA[86] == -602);
            assert(((-136) * (-602) - (-1353)) % 3329 == 0);
        } else if g == 42 {
            assert(ZETA[106] == 1218);
            assert(ZETA[85] == 1483);
            assert(((1218) * (1483) - (-1353)) % 3329 == 0);
        } else if g == 43 {
            assert(ZETA[107] == -1335);
            assert(ZETA[84] == -777);
            assert(((-1335) * (-777) - (-1353)) % 3329 == 0);
        } else if g == 44 {
            assert(ZETA[108] == -874);
            assert(ZETA[83] == -147);
            assert(((-874) * (-147) - (-1353)) % 3329 == 0);
        } else if g == 45 {
            assert(ZETA[109] == 220);
            assert(ZETA[82] == 1159);
            assert(((220) * (1159) - (-1353)) % 3329 == 0);
        } else if g == 46 {
            assert(ZETA[110] == -1187);
            assert(ZETA[81] == 778);
            assert(((-1187) * (778) - (-1353)) % 3329 == 0);
        } else if g == 47 {
            assert(ZETA[111] == -1659);
            assert(ZETA[80] == -246);
            assert(((-1659) * (-246) - (-1353)) % 3329 == 0);
        } else if g == 48 {
            assert(ZETA[112] == -1185);
            assert(ZETA[79] == 1653);
            assert(((-1185) * (1653) - (-1353)) % 3329 == 0);
        } else if g == 49 {
            assert(ZETA[113] == -1530);
            assert(ZETA[78] == 1574);
            assert(((-1530) * (1574) - (-1353)) % 3329 == 0);
        } else if g == 50 {
            assert(ZETA[114] == -1278);
            assert(ZETA[77] == -460);
            assert(((-1278) * (-460) - (-1353)) % 3329 == 0);
        } else if g == 51 {
            assert(ZETA[115] == 794);
            assert(ZETA[76] == -291);
            assert(((794) * (-291) - (-1353)) % 3329 == 0);
        } else if g == 52 {
            assert(ZETA[116] == -1510);
            assert(ZETA[75] == -235);
            assert(((-1510) * (-235) - (-1353)) % 3329 == 0);
        } else if g == 53 {
            assert(ZETA[117] == -854);
            assert(ZETA[74] == 177);
            assert(((-854) * (177) - (-1353)) % 3329 == 0);
        } else if g == 54 {
            assert(ZETA[118] == -870);
            assert(ZETA[73] == 587);
            assert(((-870) * (587) - (-1353)) % 3329 == 0);
        } else if g == 55 {
            assert(ZETA[119] == 478);
            assert(ZETA[72] == 422);
            assert(((478) * (422) - (-1353)) % 3329 == 0);
        } else if g == 56 {
            assert(ZETA[120] == -108);
            assert(ZETA[71] == 105);
            assert(((-108) * (105) - (-1353)) % 3329 == 0);
        } else if g == 57 {
            assert(ZETA[121] == -308);
            assert(ZETA[70] == 1550);
            assert(((-308) * (1550) - (-1353)) % 3329 == 0);
        } else if g == 58 {
            assert(ZETA[122] == 996);
            assert(ZETA[69] == 871);
            assert(((996) * (871) - (-1353)) % 3329 == 0);
        } else if g == 59 {
            assert(ZETA[123] == 991);
            assert(ZETA[68] == -1251);
            assert(((991) * (-1251) - (-1353)) % 3329 == 0);
        } else if g == 60 {
            assert(ZETA[124] == 958);
            assert(ZETA[67] == 843);
            assert(((958) * (843) - (-1353)) % 3329 == 0);
        } else if g == 61 {
            assert(ZETA[125] == -1460);
            assert(ZETA[66] == 555);
            assert(((-1460) * (555) - (-1353)) % 3329 == 0);
        } else if g == 62 {
            assert(ZETA[126] == 1522);
            assert(ZETA[65] == 430);
            assert(((1522) * (430) - (-1353)) % 3329 == 0);
        } else {
            assert(ZETA[127] == 1628);
            assert(ZETA[64] == -1103);
            assert(((1628) * (-1103) - (-1353)) % 3329 == 0);
        }
    }
}

/// One inverse butterfly undoes the matching forward butterfly: if the
/// forward pass sent `(w_lo, w_hi)` to `(v_lo, v_hi)` with twiddle `z1`, the
/// inverse input `(x_lo, x_hi)` is the forward output scaled by `s`, the
/// inverse twiddle satisfies `z1 * z2 ≡ -(2^16)^2`, then the inverse output
/// is the original pair scaled by `2 * s`, all modulo Q.
proof fn lemma_inv_undoes_fwd_pair(
    w_lo: int,
    w_hi: int,
    v_lo: int,
    v_hi: int,
    x_lo: int,
    x_hi: int,
    y_lo: int,
    y_hi: int,
    z1: int,
    z2: int,
    s: int,
)
    requires
        cong(v_lo * 65536, w_lo * 65536 + z1 * w_hi),
        cong(v_hi * 65536, w_lo * 65536 - z1 * w_hi),
        cong(x_lo, s * v_lo),
        cong(x_hi, s * v_hi),
        cong(y_lo, x_lo + x_hi),
        cong(y_hi * 65536, z2 * (x_hi - x_lo)),
        cong(z1 * z2, -1353),
    ensures
        cong(y_lo, 2 * s * w_lo),
        cong(y_hi, 2 * s * w_hi),
{
    // The sum: (v_lo + v_hi) * 2^16 ≡ 2 * w_lo * 2^16, so v_lo + v_hi ≡ 2 * w_lo.
    lemma_cong_add(
        v_lo * 65536,
        w_lo * 65536 + z1 * w_hi,
        v_hi * 65536,
        w_lo * 65536 - z1 * w_hi,
    );
    assert(((v_lo + v_hi - 2 * w_lo) * 65536) % 3329 == 0);
    lemma_cancel_pow16(v_lo + v_hi - 2 * w_lo);
    assert(cong(v_lo + v_hi, 2 * w_lo));
    lemma_cong_scale(v_lo + v_hi, 2 * w_lo, s);
    lemma_cong_add(x_lo, s * v_lo, x_hi, s * v_hi);
    assert(s * v_lo + s * v_hi == (v_lo + v_hi) * s) by (nonlinear_arith);
    lemma_cong_trans(x_lo + x_hi, (v_lo + v_hi) * s, (2 * w_lo) * s);
    lemma_cong_trans(y_lo, x_lo + x_hi, (2 * w_lo) * s);
    assert((2 * w_lo) * s == 2 * s * w_lo) by (nonlinear_arith);

    // The difference: (v_hi - v_lo) * 2^16 ≡ -2 * (z1 * w_hi).
    lemma_cong_scale(v_lo * 65536, w_lo * 65536 + z1 * w_hi, -1);
    lemma_cong_add(
        v_hi * 65536,
        w_lo * 65536 - z1 * w_hi,
        (v_lo * 65536) * -1,
        (w_lo * 65536 + z1 * w_hi) * -1,
    );
    assert(v_hi * 65536 + (v_lo * 65536) * -1 == (v_hi - v_lo) * 65536) by (nonlinear_arith);
    assert((w_lo * 65536 - z1 * w_hi) + (w_lo * 65536 + z1 * w_hi) * -1 == (-2) * (z1 * w_hi))
        by (nonlinear_arith);
    assert(cong((v_hi - v_lo) * 65536, (-2) * (z1 * w_hi)));
    // x_hi - x_lo ≡ s * (v_hi - v_lo).
    lemma_cong_scale(x_lo, s * v_lo, -1);
    lemma_cong_add(x_hi, s * v_hi, x_lo * -1, (s * v_lo) * -1);
    assert(s * v_hi + (s * v_lo) * -1 == (v_hi - v_lo) * s) by (nonlinear_arith);
    assert(cong(x_hi - x_lo, (v_hi - v_lo) * s));
    // Chain through the inverse butterfly and cancel two factors of 2^16.
    lemma_cong_scale(x_hi - x_lo, (v_hi - v_lo) * s, z2);
    assert(z2 * (x_hi - x_lo) == (x_hi - x_lo) * z2) by (nonlinear_arith);
    lemma_cong_trans(y_hi * 65536, (x_hi - x_lo) * z2, ((v_hi - v_lo) * s) * z2);
    lemma_cong_scale(y_hi * 65536, ((v_hi - v_lo) * s) * z2, 65536);
    assert((((v_hi - v_lo) * s) * z2) * 65536 == ((v_hi - v_lo) * 65536) * (s * z2))
        by (nonlinear_arith);
    lemma_cong_scale((v_hi - v_lo) * 65536, (-2) * (z1 * w_hi), s * z2);
    lemma_cong_trans(
        (y_hi * 65536) * 65536,
        ((v_hi - v_lo) * 65536) * (s * z2),
        ((-2) * (z1 * w_hi)) * (s * z2),
    );
    assert(((-2) * (z1 * w_hi)) * (s * z2) == (z1 * z2) * ((-2) * (s * w_hi)))
        by (nonlinear_arith);
    lemma_cong_scale(z1 * z2, -1353, (-2) * (s * w_hi));
    lemma_cong_trans(
        (y_hi * 65536) * 65536,
        (z1 * z2) * ((-2) * (s * w_hi)),
        (-1353) * ((-2) * (s * w_hi)),
    );
    assert(cong(1353, 65536int * 65536));
    lemma_cong_scale(1353, 65536int * 65536, 2 * (s * w_hi));
    assert((-1353) * ((-2) * (s * w_hi)) == 1353 * (2 * (s * w_hi))) by (nonlinear_arith);
    lemma_cong_trans(
        (y_hi * 65536) * 65536,
        1353 * (2 * (s * w_hi)),
        (65536int * 65536) * (2 * (s * w_hi)),
    );
    assert((y_hi * 65536) * 65536 - (65536int * 65536) * (2 * (s * w_hi)) == ((y_hi - 2 * s * w_hi)
        * 65536) * 65536) by (nonlinear_arith);
    lemma_cancel_pow16((y_hi - 2 * s * w_hi) * 65536);
    lemma_cancel_pow16(y_hi - 2 * s * w_hi);
}

/// One inverse layer undoes the matching forward layer: if the inverse
/// input is the forward output scaled by `s` modulo Q, the inverse output
/// is the forward input scaled by `2 * s` modulo Q.
proof fn lemma_inv_layer_undoes_fwd_layer(
    w: Seq<i16>,
    v: Seq<i16>,
    x: Seq<i16>,
    y: Seq<i16>,
    l: int,
    k0: int,
    s: int,
)
    requires
        l == 2 || l == 4 || l == 8 || l == 16 || l == 32 || l == 64 || l == 128,
        k0 * l == 128,
        ntt_layer_ok(w, v, l, k0),
        inv_ntt_layer_ok(x, y, l, 2 * k0 - 1),
        forall|i: int| 0 <= i < 256 ==> cong(#[trigger] x[i] as int, s * v[i]),
    ensures
        forall|i: int| 0 <= i < 256 ==> cong(#[trigger] y[i] as int, 2 * s * w[i]),
{
    assert forall|i: int| 0 <= i < 256 implies cong(#[trigger] y[i] as int, 2 * s * w[i]) by {
        let g = i / (2 * l);
        let r = i % (2 * l);
        lemma_fundamental_div_mod(i, 2 * l);
        assert(0 <= g && g < k0) by (nonlinear_arith)
            requires
                i == 2 * l * g + r,
                0 <= r < 2 * l,
                0 <= i < 256,
                k0 * l == 128,
                0 < l,
        ;
        let jj = if r < l { r } else { r - l };
        let lo = 2 * l * g + jj;
        let hi = lo + l;
        assert((2 * k0 - 1 + 1) / 2 == k0);
        assert(butterfly_ok(w, v, ZETA[k0 + g] as int, lo, hi));
        assert(inv_butterfly_ok(x, y, ZETA[2 * k0 - 1 - g] as int, lo, hi));
        lemma_zeta_mirror(k0, g);
        assert(cong(x[lo] as int, s * v[lo]));
        assert(cong(x[hi] as int, s * v[hi]));
        lemma_inv_undoes_fwd_pair(
            w[lo] as int,
            w[hi] as int,
            v[lo] as int,
            v[hi] as int,
            x[lo] as int,
            x[hi] as int,
            y[lo] as int,
            y[hi] as int,
            ZETA[k0 + g] as int,
            ZETA[2 * k0 - 1 - g] as int,
            s,
        );
        assert(i == lo || i == hi);
    }
}

/// Transform round trip: running the inverse transform on the forward
/// transform's output returns the element unchanged modulo Q — the two
/// transforms are exact inverses on residue classes.
/// The hypotheses are the two transforms' layer-decomposition
/// contracts: `f1 .. f6` are the forward pass's intermediate states, `out_f`
/// its output, `i0` the Barrett-reduced inverse input, `i1 .. i7` the
/// inverse pass's intermediate states, and `res` its output.
pub proof fn lemma_transform_round_trip(
    p0: Seq<i16>,
    f1: Seq<i16>,
    f2: Seq<i16>,
    f3: Seq<i16>,
    f4: Seq<i16>,
    f5: Seq<i16>,
    f6: Seq<i16>,
    out_f: Seq<i16>,
    i0: Seq<i16>,
    i1: Seq<i16>,
    i2: Seq<i16>,
    i3: Seq<i16>,
    i4: Seq<i16>,
    i5: Seq<i16>,
    i6: Seq<i16>,
    i7: Seq<i16>,
    res: Seq<i16>,
)
    requires
        ntt_layer_ok(p0, f1, 128, 1),
        ntt_layer_ok(f1, f2, 64, 2),
        ntt_layer_ok(f2, f3, 32, 4),
        ntt_layer_ok(f3, f4, 16, 8),
        ntt_layer_ok(f4, f5, 8, 16),
        ntt_layer_ok(f5, f6, 4, 32),
        ntt_layer_ok(f6, out_f, 2, 64),
        forall|i: int| 0 <= i < 256 ==> cong(#[trigger] i0[i] as int, out_f[i] as int),
        inv_ntt_layer_ok(i0, i1, 2, 127),
        inv_ntt_layer_ok(i1, i2, 4, 63),
        inv_ntt_layer_ok(i2, i3, 8, 31),
        inv_ntt_layer_ok(i3, i4, 16, 15),
        inv_ntt_layer_ok(i4, i5, 32, 7),
        inv_ntt_layer_ok(i5, i6, 64, 3),
        inv_ntt_layer_ok(i6, i7, 128, 1),
        forall|i: int| 0 <= i < 256 ==> cong(#[trigger] res[i] as int * 65536, 512 * i7[i]),
    ensures
        forall|i: int| 0 <= i < 256 ==> cong(#[trigger] res[i] as int, p0[i] as int),
{
    assert(forall|i: int| 0 <= i < 256 ==> cong(#[trigger] i0[i] as int, 1 * out_f[i]));
    lemma_inv_layer_undoes_fwd_layer(f6, out_f, i0, i1, 2, 64, 1);
    lemma_inv_layer_undoes_fwd_layer(f5, f6, i1, i2, 4, 32, 2);
    lemma_inv_layer_undoes_fwd_layer(f4, f5, i2, i3, 8, 16, 4);
    lemma_inv_layer_undoes_fwd_layer(f3, f4, i3, i4, 16, 8, 8);
    lemma_inv_layer_undoes_fwd_layer(f2, f3, i4, i5, 32, 4, 16);
    lemma_inv_layer_undoes_fwd_layer(f1, f2, i5, i6, 64, 2, 32);
    lemma_inv_layer_undoes_fwd_layer(p0, f1, i6, i7, 128, 1, 64);
    assert forall|i: int| 0 <= i < 256 implies cong(#[trigger] res[i] as int, p0[i] as int) by {
        assert(cong(i7[i] as int, 2 * 64 * p0[i]));
        assert(cong(res[i] as int * 65536, 512 * i7[i]));
        // Compose the 128-fold doubling with the 512 correction:
        // 512 * 128 = 2^16 exactly, so the round trip is the identity.
        lemma_cong_scale(i7[i] as int, 2 * 64 * p0[i], 512);
        assert((2 * 64 * p0[i]) * 512 == 65536 * (p0[i] as int)) by (nonlinear_arith);
        assert(512 * i7[i] == i7[i] as int * 512) by (nonlinear_arith);
        lemma_cong_trans(res[i] as int * 65536, 512 * i7[i], 65536 * (p0[i] as int));
        assert(res[i] as int * 65536 - 65536 * (p0[i] as int) == (res[i] as int - p0[i]) * 65536)
            by (nonlinear_arith);
        lemma_cancel_pow16(res[i] as int - p0[i]);
    }
}

/// A quantized value always lies in [0, 2^d).
proof fn lemma_compress_spec_bound(cv: int, d: int)
    requires
        0 <= cv,
        d == 4 || d == 5 || d == 10 || d == 11,
    ensures
        0 <= compress_spec(cv, d) && compress_spec(cv, d) < pow2(d as nat),
{
    lemma2_to64();
    lemma_mod_bound((cv * pow2(d as nat) + 1664) / 3329, pow2(d as nat) as int);
}

/// Lossy round trip through the byte pipeline, width 4: the value
/// `decompress` reconstructs from a `compress(4)` image is exactly the
/// scalar reconstruction of the scalar quantization.
proof fn lemma_dec4_inverts_cmp4(c: Seq<i16>, b: Seq<u8>, c2: Seq<i16>, i: int)
    requires
        0 <= i < 256,
        forall|ii: int| 0 <= ii < 256 ==> 0 <= #[trigger] c[ii] < 3329,
        cmp4_ok(c, b, i / 2),
        dec4_ok(b, c2, i / 2),
    ensures
        c2[i] as int == decompress_spec(compress_spec(c[i] as int, 4), 4),
{
    let g = i / 2;
    let y0 = compress_spec(c[2 * g] as int, 4);
    let y1 = compress_spec(c[2 * g + 1] as int, 4);
    lemma2_to64();
    lemma_compress_spec_bound(c[2 * g] as int, 4);
    lemma_compress_spec_bound(c[2 * g + 1] as int, 4);
    lemma_fundamental_div_mod_converse(b[g] as int, 16, y1, y0);
    assert(i == 2 * g || i == 2 * g + 1);
}

/// Lossy round trip through the byte pipeline, width 5.
proof fn lemma_dec5_inverts_cmp5(c: Seq<i16>, b: Seq<u8>, c2: Seq<i16>, i: int)
    requires
        0 <= i < 256,
        forall|ii: int| 0 <= ii < 256 ==> 0 <= #[trigger] c[ii] < 3329,
        cmp5_ok(c, b, i / 8),
        dec5_ok(b, c2, i / 8),
    ensures
        c2[i] as int == decompress_spec(compress_spec(c[i] as int, 5), 5),
{
    let g = i / 8;
    let y0 = compress_spec(c[8 * g] as int, 5);
    let y1 = compress_spec(c[8 * g + 1] as int, 5);
    let y2 = compress_spec(c[8 * g + 2] as int, 5);
    let y3 = compress_spec(c[8 * g + 3] as int, 5);
    let y4 = compress_spec(c[8 * g + 4] as int, 5);
    let y5 = compress_spec(c[8 * g + 5] as int, 5);
    let y6 = compress_spec(c[8 * g + 6] as int, 5);
    let y7 = compress_spec(c[8 * g + 7] as int, 5);
    lemma2_to64();
    lemma_compress_spec_bound(c[8 * g] as int, 5);
    lemma_compress_spec_bound(c[8 * g + 1] as int, 5);
    lemma_compress_spec_bound(c[8 * g + 2] as int, 5);
    lemma_compress_spec_bound(c[8 * g + 3] as int, 5);
    lemma_compress_spec_bound(c[8 * g + 4] as int, 5);
    lemma_compress_spec_bound(c[8 * g + 5] as int, 5);
    lemma_compress_spec_bound(c[8 * g + 6] as int, 5);
    lemma_compress_spec_bound(c[8 * g + 7] as int, 5);
    let b0 = b[5 * g] as int;
    let b1 = b[5 * g + 1] as int;
    let b2 = b[5 * g + 2] as int;
    let b3 = b[5 * g + 3] as int;
    let b4 = b[5 * g + 4] as int;
    lemma_fundamental_div_mod_converse(b0, 32, y1 % 8, y0);
    lemma_fundamental_div_mod_converse(b1, 4, y2 + (y3 % 2) * 32, y1 / 8);
    lemma_fundamental_div_mod_converse(b1 / 4, 32, y3 % 2, y2);
    lemma_fundamental_div_mod_converse(b1, 128, y3 % 2, y1 / 8 + y2 * 4);
    lemma_fundamental_div_mod_converse(b2, 16, y4 % 16, y3 / 2);
    lemma_fundamental_div_mod_converse(b3, 2, y5 + (y6 % 4) * 32, y4 / 16);
    lemma_fundamental_div_mod_converse(b3 / 2, 32, y6 % 4, y5);
    lemma_fundamental_div_mod_converse(b3, 64, y6 % 4, y4 / 16 + y5 * 2);
    lemma_fundamental_div_mod_converse(b4, 8, y7, y6 / 4);
    lemma_fundamental_div_mod(y1, 8);
    lemma_fundamental_div_mod(y3, 2);
    lemma_fundamental_div_mod(y4, 16);
    lemma_fundamental_div_mod(y6, 4);
    assert(i == 8 * g || i == 8 * g + 1 || i == 8 * g + 2 || i == 8 * g + 3 || i == 8 * g + 4
        || i == 8 * g + 5 || i == 8 * g + 6 || i == 8 * g + 7);
}

/// Lossy round trip through the byte pipeline, width 10.
proof fn lemma_dec10_inverts_cmp10(c: Seq<i16>, b: Seq<u8>, c2: Seq<i16>, i: int)
    requires
        0 <= i < 256,
        forall|ii: int| 0 <= ii < 256 ==> 0 <= #[trigger] c[ii] < 3329,
        cmp10_ok(c, b, i / 4),
        dec10_ok(b, c2, i / 4),
    ensures
        c2[i] as int == decompress_spec(compress_spec(c[i] as int, 10), 10),
{
    let g = i / 4;
    let y0 = compress_spec(c[4 * g] as int, 10);
    let y1 = compress_spec(c[4 * g + 1] as int, 10);
    let y2 = compress_spec(c[4 * g + 2] as int, 10);
    let y3 = compress_spec(c[4 * g + 3] as int, 10);
    lemma2_to64();
    lemma_compress_spec_bound(c[4 * g] as int, 10);
    lemma_compress_spec_bound(c[4 * g + 1] as int, 10);
    lemma_compress_spec_bound(c[4 * g + 2] as int, 10);
    lemma_compress_spec_bound(c[4 * g + 3] as int, 10);
    let b1 = b[5 * g + 1] as int;
    let b2 = b[5 * g + 2] as int;
    let b3 = b[5 * g + 3] as int;
    lemma_fundamental_div_mod_converse(b1, 4, y1 % 64, y0 / 256);
    lemma_fundamental_div_mod_converse(b2, 16, y2 % 16, y1 / 64);
    lemma_fundamental_div_mod_converse(b3, 64, y3 % 4, y2 / 16);
    lemma_fundamental_div_mod(y0, 256);
    lemma_fundamental_div_mod(y1, 64);
    lemma_fundamental_div_mod(y2, 16);
    lemma_fundamental_div_mod(y3, 4);
    assert(i == 4 * g || i == 4 * g + 1 || i == 4 * g + 2 || i == 4 * g + 3);
}

/// Lossy round trip through the byte pipeline, width 11.
proof fn lemma_dec11_inverts_cmp11(c: Seq<i16>, b: Seq<u8>, c2: Seq<i16>, i: int)
    requires
        0 <= i < 256,
        forall|ii: int| 0 <= ii < 256 ==> 0 <= #[trigger] c[ii] < 3329,
        cmp11_ok(c, b, i / 8),
        dec11_ok(b, c2, i / 8),
    ensures
        c2[i] as int == decompress_spec(compress_spec(c[i] as int, 11), 11),
{
    let g = i / 8;
    let y0 = compress_spec(c[8 * g] as int, 11);
    let y1 = compress_spec(c[8 * g + 1] as int, 11);
    let y2 = compress_spec(c[8 * g + 2] as int, 11);
    let y3 = compress_spec(c[8 * g + 3] as int, 11);
    let y4 = compress_spec(c[8 * g + 4] as int, 11);
    let y5 = compress_spec(c[8 * g + 5] as int, 11);
    let y6 = compress_spec(c[8 * g + 6] as int, 11);
    let y7 = compress_spec(c[8 * g + 7] as int, 11);
    lemma2_to64();
    lemma_compress_spec_bound(c[8 * g] as int, 11);
    lemma_compress_spec_bound(c[8 * g + 1] as int, 11);
    lemma_compress_spec_bound(c[8 * g + 2] as int, 11);
    lemma_compress_spec_bound(c[8 * g + 3] as int, 11);
    lemma_compress_spec_bound(c[8 * g + 4] as int, 11);
    lemma_compress_spec_bound(c[8 * g + 5] as int, 11);
    lemma_compress_spec_bound(c[8 * g + 6] as int, 11);
    lemma_compress_spec_bound(c[8 * g + 7] as int, 11);
    let b1 = b[11 * g + 1] as int;
    let b2 = b[11 * g + 2] as int;
    let b4 = b[11 * g + 4] as int;
    let b5 = b[11 * g + 5] as int;
    let b6 = b[11 * g + 6] as int;
    let b8 = b[11 * g + 8] as int;
    let b9 = b[11 * g + 9] as int;
    lemma_fundamental_div_mod_converse(b1, 8, y1 % 32, y0 / 256);
    lemma_fundamental_div_mod_converse(b2, 64, y2 % 4, y1 / 32);
    lemma_fundamental_div_mod_converse(b4, 2, y3 % 128, y2 / 1024);
    lemma_fundamental_div_mod_converse(b5, 16, y4 % 16, y3 / 128);
    lemma_fundamental_div_mod_converse(b6, 128, y5 % 2, y4 / 16);
    lemma_fundamental_div_mod_converse(b8, 4, y6 % 64, y5 / 512);
    lemma_fundamental_div_mod_converse(b9, 32, y7 % 8, y6 / 64);
    lemma_fundamental_div_mod(y0, 256);
    lemma_fundamental_div_mod(y1, 32);
    lemma_fundamental_div_mod(y3, 128);
    lemma_fundamental_div_mod(y4, 16);
    lemma_fundamental_div_mod(y6, 64);
    // The two values whose middle bits pass through a whole byte need the
    // nested-division identity (y/2^a)/2^b == y/2^(a+b).
    lemma_div_denominator(y2, 4, 256);
    lemma_fundamental_div_mod(y2, 4);
    lemma_fundamental_div_mod(y2 / 4, 256);
    lemma_div_denominator(y5, 2, 256);
    lemma_fundamental_div_mod(y5, 2);
    lemma_fundamental_div_mod(y5 / 2, 256);
    assert(i == 8 * g || i == 8 * g + 1 || i == 8 * g + 2 || i == 8 * g + 3 || i == 8 * g + 4
        || i == 8 * g + 5 || i == 8 * g + 6 || i == 8 * g + 7);
}

/// Lossy compression bound, end to end through the byte pipeline: for a
/// canonical element serialized by `compress(d)` and reconstructed by
/// `decompress(d)`, every coefficient of the result lies within
/// ceil(Q / 2^(d+1)) + 1 of the original, as a distance modulo Q. The
/// hypotheses are the two codecs' byte-level contracts.
pub proof fn lemma_compress_decompress_error(c: Seq<i16>, b: Seq<u8>, c2: Seq<i16>, d: int)
    requires
        d == 4 || d == 5 || d == 10 || d == 11,
        forall|i: int| 0 <= i < 256 ==> 0 <= #[trigger] c[i] < 3329,
        d == 4 ==> forall|g: int| 0 <= g < 128 ==> #[trigger] cmp4_ok(c, b, g),
        d == 5 ==> forall|g: int| 0 <= g < 32 ==> #[trigger] cmp5_ok(c, b, g),
        d == 10 ==> forall|g: int| 0 <= g < 64 ==> #[trigger] cmp10_ok(c, b, g),
        d == 11 ==> forall|g: int| 0 <= g < 32 ==> #[trigger] cmp11_ok(c, b, g),
        d == 4 ==> forall|g: int| 0 <= g < 128 ==> #[trigger] dec4_ok(b, c2, g),
        d == 5 ==> forall|g: int| 0 <= g < 32 ==> #[trigger] dec5_ok(b, c2, g),
        d == 10 ==> forall|g: int| 0 <= g < 64 ==> #[trigger] dec10_ok(b, c2, g),
        d == 11 ==> forall|g: int| 0 <= g < 32 ==> #[trigger] dec11_ok(b, c2, g),
    ensures
        forall|i: int| #![trigger c2[i]] 0 <= i < 256 ==> ({
            let e = (c2[i] - c[i]) % 3329;
            let bnd = 3329int / (pow2((d + 1) as nat) as int) + 2;
            e <= bnd || 3329 - e <= bnd
        }),
{
    assert forall|i: int| #![trigger c2[i]] 0 <= i < 256 implies ({
        let e = (c2[i] - c[i]) % 3329;
        let bnd = 3329int / (pow2((d + 1) as nat) as int) + 2;
        e <= bnd || 3329 - e <= bnd
    }) by {
        if d == 4 {
            assert(cmp4_ok(c, b, i / 2));
            assert(dec4_ok(b, c2, i / 2));
            lemma_dec4_inverts_cmp4(c, b, c2, i);
        } else if d == 5 {
            assert(cmp5_ok(c, b, i / 8));
            assert(dec5_ok(b, c2, i / 8));
            lemma_dec5_inverts_cmp5(c, b, c2, i);
        } else if d == 10 {
            assert(cmp10_ok(c, b, i / 4));
            assert(dec10_ok(b, c2, i / 4));
            lemma_dec10_inverts_cmp10(c, b, c2, i);
        } else {
            assert(cmp11_ok(c, b, i / 8));
            assert(dec11_ok(b, c2, i / 8));
            lemma_dec11_inverts_cmp11(c, b, c2, i);
        }
        lemma_compress_error_bound(c[i] as int, d);
    }
}

} // verus!
