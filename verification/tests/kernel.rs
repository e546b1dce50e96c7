use kyber_kernel::field::{barrett_reduce, csubq, mont_reduce, to_mont};
use kyber_kernel::ntt::{inv_ntt_generic, ntt_generic};
use kyber_kernel::params::{N, Q};
use kyber_kernel::polynomial::Poly;

const QI: i32 = 3329;

/// Deterministic pseudo-random coefficient stream for the tests.
fn lcg(state: &mut u64) -> u64 {
    *state = state.wrapping_mul(6364136223846793005).wrapping_add(1442695040888963407);
    *state >> 33
}

fn random_poly(seed: u64) -> Poly {
    let mut s = seed;
    let mut p = Poly::new();
    for i in 0..N {
        p.coeffs[i] = (lcg(&mut s) % 3329) as i16;
    }
    p
}

#[test]
fn mont_reduce_concrete() {
    // mont_reduce(x) * 2^16 ≡ x (mod Q); spot-check exact outputs.
    assert_eq!(mont_reduce(0), 0);
    // 2^16 * 1 reduces to 1: feed x = 2^16 -> r with r*2^16 ≡ 2^16, so r ≡ 1.
    let r = mont_reduce(65536);
    assert_eq!(((r as i32 * 65536 - 65536) % QI + QI) % QI, 0);
}

#[test]
fn mont_identity_exhaustive() {
    // montgomery_reduce(to_montgomery(x)) ≡ x (mod Q) for every i16 x.
    for x in i16::MIN..=i16::MAX {
        let r1 = to_mont(x);
        let r2 = mont_reduce(r1 as i32);
        assert_eq!(((r2 as i32 - x as i32) % QI + QI) % QI, 0, "x = {}", x);
        assert!(r2 > -3329 && r2 < 3329);
    }
}

#[test]
fn to_mont_concrete() {
    // to_mont(1) must be ≡ 2^16 ≡ 2285 (mod Q).
    let r = to_mont(1);
    assert_eq!(((r as i32 - 2285) % QI + QI) % QI, 0);
}

#[test]
fn barrett_reduce_exhaustive() {
    for x in i16::MIN..=i16::MAX {
        let r = barrett_reduce(x);
        assert!(0 <= r && r <= 3329, "x = {}", x);
        assert_eq!(((r as i32 - x as i32) % QI + QI) % QI, 0, "x = {}", x);
    }
}

#[test]
fn barrett_reduce_concrete() {
    assert_eq!(barrett_reduce(0), 0);
    assert_eq!(barrett_reduce(3329), 0);
    assert_eq!(barrett_reduce(3330), 1);
    assert_eq!(barrett_reduce(-1), 3328);
}

#[test]
fn csubq_exhaustive() {
    // csubq maps any input in [-Q, 2Q) to [0, Q), preserving the residue.
    for x in -3329i16..6658 {
        let r = csubq(x);
        assert!(0 <= r && r < 3329);
        assert_eq!(r as i32, (x as i32 % QI + QI) % QI);
    }
}

#[test]
fn add_sub_elementwise() {
    let a = random_poly(7);
    let b = random_poly(8);
    let mut c = a;
    c.add(&b);
    for i in 0..N {
        assert_eq!(c.coeffs[i], a.coeffs[i] + b.coeffs[i]);
    }
    c.sub(&b);
    for i in 0..N {
        assert_eq!(c.coeffs[i], a.coeffs[i]);
    }
}

#[test]
fn normalize_canonicalizes() {
    let mut p = Poly::new();
    for i in 0..N {
        p.coeffs[i] = (i as i16) - 128;
    }
    let q = p;
    p.normalize();
    for i in 0..N {
        assert!(0 <= p.coeffs[i] && p.coeffs[i] < 3329);
        assert_eq!(p.coeffs[i] as i32, (q.coeffs[i] as i32 % QI + QI) % QI);
    }
}

/// The transform round trip is the identity modulo Q: the inverse transform
/// of the forward transform returns the element unchanged after
/// normalization.
fn check_ntt_round_trip(p: &Poly) {
    let mut t = *p;
    ntt_generic(&mut t);
    inv_ntt_generic(&mut t);
    t.normalize();
    let mut m = *p;
    m.normalize();
    for i in 0..N {
        assert_eq!(t.coeffs[i], m.coeffs[i], "index {}", i);
    }
}

#[test]
fn ntt_round_trip_edge_cases() {
    check_ntt_round_trip(&Poly::new());
    let mut p = Poly::new();
    for i in 0..N {
        p.coeffs[i] = 3328;
    }
    check_ntt_round_trip(&p);
    for k in [0usize, 1, 127, 128, 255] {
        let mut s = Poly::new();
        s.coeffs[k] = 1;
        check_ntt_round_trip(&s);
        s.coeffs[k] = 3328;
        check_ntt_round_trip(&s);
    }
}

#[test]
fn ntt_round_trip_random() {
    for seed in 1..6u64 {
        check_ntt_round_trip(&random_poly(seed));
    }
}

/// O(N^2) negacyclic schoolbook product modulo (x^N + 1, Q).
fn schoolbook(a: &Poly, b: &Poly) -> [i16; 256] {
    let mut acc = [0i64; 256];
    for i in 0..N {
        for j in 0..N {
            let prod = a.coeffs[i] as i64 * b.coeffs[j] as i64;
            let k = (i + j) % N;
            if i + j >= N {
                acc[k] -= prod;
            } else {
                acc[k] += prod;
            }
        }
    }
    let mut out = [0i16; 256];
    for k in 0..N {
        out[k] = (((acc[k] % QI as i64) + QI as i64) % QI as i64) as i16;
    }
    out
}

#[test]
fn multiplication_matches_schoolbook() {
    // to_montgomery (one operand) -> transform -> pointwise multiply ->
    // inverse-transform -> normalize: the single Montgomery reduction inside
    // each pointwise product consumes exactly the one factor 2^16 that
    // `mont` introduced, so the pipeline equals the schoolbook product.
    for seed in 1..4u64 {
        let p = random_poly(seed);
        let r = random_poly(seed + 100);
        let expect = schoolbook(&p, &r);
        let mut ph = p;
        let mut rh = r;
        ph.mont();
        ntt_generic(&mut ph);
        ntt_generic(&mut rh);
        ph.mul_hat(&rh);
        inv_ntt_generic(&mut ph);
        ph.normalize();
        for k in 0..N {
            assert_eq!(ph.coeffs[k], expect[k], "seed {} index {}", seed, k);
        }
    }
}

#[test]
fn multiplication_both_operands_montgomery() {
    // With the Montgomery conversion applied to both operands, each
    // pointwise product still strips only one factor 2^16, so the pipeline
    // yields the schoolbook product scaled by 2^16 -- `mont` of the product.
    let p = random_poly(7);
    let r = random_poly(207);
    let sb = schoolbook(&p, &r);
    let mut expect = Poly::new();
    expect.coeffs = sb;
    expect.mont();
    expect.normalize();
    let mut ph = p;
    let mut rh = r;
    ph.mont();
    rh.mont();
    ntt_generic(&mut ph);
    ntt_generic(&mut rh);
    ph.mul_hat(&rh);
    inv_ntt_generic(&mut ph);
    ph.normalize();
    for k in 0..N {
        assert_eq!(ph.coeffs[k], expect.coeffs[k], "index {}", k);
    }
}

#[test]
fn multiplication_by_one() {
    let p = random_poly(42);
    let mut one = Poly::new();
    one.coeffs[0] = 1;
    let expect = schoolbook(&p, &one);
    for k in 0..N {
        assert_eq!(expect[k], p.coeffs[k]);
    }
    let mut ph = p;
    let mut oh = one;
    oh.mont();
    ntt_generic(&mut ph);
    ntt_generic(&mut oh);
    ph.mul_hat(&oh);
    inv_ntt_generic(&mut ph);
    ph.normalize();
    for k in 0..N {
        assert_eq!(ph.coeffs[k], p.coeffs[k]);
    }
}

#[test]
fn mul_hat_bounded_for_canonical_operands() {
    // For canonical operands every scalar product is below Q * 2^15, so
    // every output coefficient lies strictly within 2Q.
    let a = random_poly(3);
    let b = random_poly(4);
    let mut c = a;
    c.mul_hat(&b);
    for i in 0..N {
        assert!(-6658 < c.coeffs[i] && c.coeffs[i] < 6658, "index {}", i);
    }
}

#[test]
fn ntt_handles_unpacked_range() {
    // The forward transform admits any coefficients up to 4096 in magnitude,
    // the full range `unpack` can produce.
    let mut p = Poly::new();
    for i in 0..N {
        p.coeffs[i] = 4095;
    }
    ntt_generic(&mut p);
    for i in 0..N {
        assert!(p.coeffs[i].abs() <= 20896);
    }
}
