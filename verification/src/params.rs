//! Fixed parameters of the ring R = Z_Q[x]/(x^N + 1) and the precomputed
//! twiddle-factor table consumed by the transform and by pointwise
//! multiplication.
//!
//! The table holds the 128 powers of the primitive 256th root of unity
//! zeta = 17, in 7-bit bit-reversed order, pre-scaled into Montgomery domain
//! (each entry is 17^brv7(k) * 2^16 mod Q, as the centered representative).

use vstd::prelude::*;

verus! {

/// The prime modulus of the coefficient field.
pub const Q: i16 = 3329;

/// The number of coefficients of a ring element.
pub const N: usize = 256;

/// Montgomery-domain twiddle factors, bit-reversed order.
pub const ZETA: [i16; 128] = [
    -1044, -758, -359, -1517, 1493, 1422, 287, 202,
    -171, 622, 1577, 182, 962, -1202, -1474, 1468,
    573, -1325, 264, 383, -829, 1458, -1602, -130,
    -681, 1017, 732, 608, -1542, 411, -205, -1571,
    1223, 652, -552, 1015, -1293, 1491, -282, -1544,
    516, -8, -320, -666, -1618, -1162, 126, 1469,
    -853, -90, -271, 830, 107, -1421, -247, -951,
    -398, 961, -1508, -725, 448, -1065, 677, -1275,
    -1103, 430, 555, 843, -1251, 871, 1550, 105,
    422, 587, 177, -235, -291, -460, 1574, 1653,
    -246, 778, 1159, -147, -777, 1483, -602, 1119,
    -1590, 644, -872, 349, 418, 329, -156, -75,
    817, 1097, 603, 610, 1322, -1285, -1465, 384,
    -1215, -136, 1218, -1335, -874, 220, -1187, -1659,
    -1185, -1530, -1278, 794, -1510, -854, -870, 478,
    -108, -308, 996, 991, 958, -1460, 1522, 1628,
];

/// Every twiddle factor is a centered representative: its magnitude stays
/// below (Q - 1) / 2, which bounds every product fed to Montgomery reduction.
pub proof fn lemma_zeta_bounded()
    ensures
        forall|k: int| 0 <= k < 128 ==> -1664 <= #[trigger] ZETA[k] <= 1664,
{
}

} // verus!
