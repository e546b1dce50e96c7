use kyber_kernel::params::N;
use kyber_kernel::polynomial::Poly;

const QI: i32 = 3329;

fn lcg(state: &mut u64) -> u64 {
    *state = state.wrapping_mul(6364136223846793005).wrapping_add(1442695040888963407);
    *state >> 33
}

#[test]
fn pack_zero_is_zero_bytes() {
    // With Q = 3329 and N = 256, packing the all-zero element yields a
    // 384-byte all-zero buffer.
    let p = Poly::new();
    let mut buf = vec![0xAAu8; 384];
    p.pack(&mut buf);
    assert_eq!(buf.len(), 384);
    assert!(buf.iter().all(|&b| b == 0));
}

#[test]
fn pack_unpack_round_trip_random() {
    for seed in 1..6u64 {
        let mut s = seed;
        let mut p = Poly::new();
        for i in 0..N {
            p.coeffs[i] = (lcg(&mut s) % 4096) as i16;
        }
        let mut buf = vec![0u8; 384];
        p.pack(&mut buf);
        let mut q = Poly::new();
        q.unpack(&buf);
        for i in 0..N {
            assert_eq!(q.coeffs[i], p.coeffs[i], "seed {} index {}", seed, i);
        }
    }
}

#[test]
fn pack_concrete_bytes() {
    // coefficients 1 and 2 pack into bytes 0x01, 0x20, 0x00.
    let mut p = Poly::new();
    p.coeffs[0] = 1;
    p.coeffs[1] = 2;
    let mut buf = vec![0u8; 384];
    p.pack(&mut buf);
    assert_eq!(buf[0], 0x01);
    assert_eq!(buf[1], 0x20);
    assert_eq!(buf[2], 0x00);
}

#[test]
fn compress_zero_is_zero() {
    // compress(0, 4) == 0 and decompress(0, 4) == 0.
    let p = Poly::new();
    let mut buf = vec![0xFFu8; 128];
    p.compress(&mut buf, 4);
    assert!(buf.iter().all(|&b| b == 0));
    let mut q = Poly::new();
    q.coeffs[0] = 17;
    q.decompress(&vec![0u8; 128], 4);
    assert!(q.coeffs.iter().all(|&c| c == 0));
}

#[test]
fn compress_concrete_value() {
    // compress(1665, 4) = floor((1665 * 16 + 1664) / 3329) mod 16 = 8,
    // so every byte packs the pair (8, 8) as 0x88.
    let mut p = Poly::new();
    for i in 0..N {
        p.coeffs[i] = 1665;
    }
    let mut buf = vec![0u8; 128];
    p.compress(&mut buf, 4);
    assert!(buf.iter().all(|&b| b == 0x88));
}

fn reference_compress(c: i32, d: u32) -> i32 {
    ((c * (1 << d) + 1664) / QI) % (1 << d)
}

fn reference_decompress(y: i32, d: u32) -> i32 {
    (y * QI + (1 << (d - 1))) / (1 << d)
}

#[test]
fn compression_error_bound_exhaustive() {
    // For every canonical coefficient and each supported width, the
    // reconstruction lands within ceil(Q / 2^(d+1)) + 1 of the original,
    // measured modulo Q.
    for &d in &[4u32, 5, 10, 11] {
        let bound = (QI + (1 << (d + 1)) - 1) / (1 << (d + 1)) + 1;
        for c in 0..QI {
            let c2 = reference_decompress(reference_compress(c, d), d);
            let e = ((c2 - c) % QI + QI) % QI;
            assert!(e <= bound || QI - e <= bound, "d {} c {} err {}", d, c, e);
        }
    }
}

#[test]
fn compress_decompress_matches_reference() {
    // The byte pipeline reproduces the scalar formulas exactly for every
    // supported width.
    for &(d, bytes) in &[(4i32, 128usize), (5, 160), (10, 320), (11, 352)] {
        let mut s = 99u64;
        let mut p = Poly::new();
        for i in 0..N {
            p.coeffs[i] = (lcg(&mut s) % 3329) as i16;
        }
        let mut buf = vec![0u8; bytes];
        p.compress(&mut buf, d);
        let mut q = Poly::new();
        q.decompress(&buf, d as i16);
        for i in 0..N {
            let expect = reference_decompress(
                reference_compress(p.coeffs[i] as i32, d as u32),
                d as u32,
            );
            assert_eq!(q.coeffs[i] as i32, expect, "d {} index {}", d, i);
        }
    }
}

#[test]
fn decompress_concrete_value() {
    // decompress(512, 10) = floor((512 * 3329 + 512) / 1024) = 1665 exactly.
    let mut buf = vec![0u8; 320];
    // value 512 in the low 10 bits of the first group: bytes 0x00, 0x02.
    buf[0] = 0x00;
    buf[1] = 0x02;
    let mut p = Poly::new();
    p.decompress(&buf, 10);
    assert_eq!(p.coeffs[0], 1665);
    assert_eq!(p.coeffs[1], 0);
}

#[test]
fn compress_decompress_error_through_poly() {
    // The worst-case reconstruction error measured through the byte pipeline
    // stays within ceil(Q / 2^(d+1)) + 1 for each supported width.
    for &(d, bytes) in &[(4i32, 128usize), (5, 160), (10, 320), (11, 352)] {
        let bound = (QI + (1 << (d + 1)) - 1) / (1 << (d + 1)) + 1;
        let mut s = 31u64;
        let mut p = Poly::new();
        for i in 0..N {
            p.coeffs[i] = (lcg(&mut s) % 3329) as i16;
        }
        let mut buf = vec![0u8; bytes];
        p.compress(&mut buf, d);
        let mut q = Poly::new();
        q.decompress(&buf, d as i16);
        for i in 0..N {
            let e = ((q.coeffs[i] as i32 - p.coeffs[i] as i32) % QI + QI) % QI;
            assert!(e <= bound || QI - e <= bound, "d {} index {}", d, i);
        }
    }
}

#[test]
fn msg_round_trip_all_byte_patterns() {
    // decompress_message then compress_message reproduces every 32-byte
    // message exactly.
    let mut s = 5u64;
    for _ in 0..16 {
        let msg: Vec<u8> = (0..32).map(|_| lcg(&mut s) as u8).collect();
        let mut p = Poly::new();
        p.decompress_msg(&msg);
        for i in 0..N {
            assert!(p.coeffs[i] == 0 || p.coeffs[i] == 1665);
        }
        let mut out = vec![0u8; 32];
        p.compress_msg(&mut out);
        assert_eq!(out, msg);
    }
}

#[test]
fn msg_round_trip_poly_side() {
    // A ring element whose coefficients each encode one bit is reproduced
    // by decoding its own encoding.
    let mut s = 11u64;
    let mut p = Poly::new();
    for i in 0..N {
        p.coeffs[i] = if lcg(&mut s) & 1 == 1 { 1665 } else { 0 };
    }
    let mut buf = vec![0u8; 32];
    p.compress_msg(&mut buf);
    let mut q = Poly::new();
    q.decompress_msg(&buf);
    for i in 0..N {
        assert_eq!(q.coeffs[i], p.coeffs[i]);
    }
}

#[test]
fn msg_band_edges() {
    // The encoder's decision band is exactly {833, ..., 2496}.
    let mut p = Poly::new();
    p.coeffs[0] = 832;
    p.coeffs[1] = 833;
    p.coeffs[2] = 2496;
    p.coeffs[3] = 2497;
    let mut buf = vec![0u8; 32];
    p.compress_msg(&mut buf);
    assert_eq!(buf[0] & 0b1111, 0b0110);
}
