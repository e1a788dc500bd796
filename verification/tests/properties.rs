// Property checks: determinism, the 48-bit masking invariant, output ranges,
// bounded-draw correctness, byte-fill accounting, and re-seeding.

use javarandom::JavaRandom;

#[test]
fn same_seed_same_sequence() {
    let mut a = JavaRandom::with_seed(987654321);
    let mut b = JavaRandom::with_seed(987654321);
    for _ in 0..100 {
        assert_eq!(a.next_int(), b.next_int());
    }
    for _ in 0..50 {
        assert_eq!(a.next_long(), b.next_long());
        assert_eq!(a.next_boolean(), b.next_boolean());
        assert_eq!(a.next_int_with_bound(97), b.next_int_with_bound(97));
        assert_eq!(a.next_float_numerator(), b.next_float_numerator());
        assert_eq!(a.next_double_numerator(), b.next_double_numerator());
    }
    let mut buf_a: Vec<u8> = vec![0; 13];
    let mut buf_b: Vec<u8> = vec![1; 13];
    a.next_bytes(&mut buf_a);
    b.next_bytes(&mut buf_b);
    assert_eq!(buf_a, buf_b);
}

#[test]
fn seed_stays_masked_to_48_bits() {
    let mask: i64 = (1i64 << 48) - 1;
    let seeds: [i64; 6] = [0, -1, 42, i64::MAX, i64::MIN, 123456789];
    for &s in seeds.iter() {
        let mut r = JavaRandom::with_seed(s);
        let v = r.seed();
        assert!(0 <= v && v <= mask);
        assert_eq!(v & mask, v);
        for _ in 0..10 {
            r.next_int();
            let v = r.seed();
            assert!(0 <= v && v <= mask);
            assert_eq!(v & mask, v);
        }
        r.next_long();
        assert_eq!(r.seed() & mask, r.seed());
        r.next_boolean();
        assert_eq!(r.seed() & mask, r.seed());
        r.next_int_with_bound(1000);
        assert_eq!(r.seed() & mask, r.seed());
    }
    let mut r = JavaRandom::new();
    let v = r.seed();
    assert!(0 <= v && v <= mask);
    r.next_int();
    assert!(0 <= r.seed() && r.seed() <= mask);
}

#[test]
fn floats_lie_in_unit_interval() {
    let seeds: [i64; 5] = [0, 1, -7, 99999, i64::MAX];
    for &s in seeds.iter() {
        let mut r = JavaRandom::with_seed(s);
        for _ in 0..2000 {
            let f = r.next_float_numerator() as f32 / (1u32 << 24) as f32;
            assert!(0.0 <= f && f < 1.0);
        }
    }
}

#[test]
fn doubles_lie_in_unit_interval() {
    let seeds: [i64; 5] = [0, 1, -7, 99999, i64::MIN];
    for &s in seeds.iter() {
        let mut r = JavaRandom::with_seed(s);
        for _ in 0..2000 {
            let d = r.next_double_numerator() as f64 / (1u64 << 53) as f64;
            assert!(0.0 <= d && d < 1.0);
        }
    }
}

#[test]
fn bounded_draws_stay_in_range() {
    let bounds: [u32; 8] = [1, 2, 4, 1024, 10, 37, 1000, 2147483647];
    for &b in bounds.iter() {
        let mut r = JavaRandom::with_seed(31337);
        for _ in 0..2000 {
            let v = r.next_int_with_bound(b);
            assert!(0 <= v && v < b as i32);
        }
    }
}

#[test]
fn bounded_draws_roughly_uniform() {
    // 10000 draws with bound 10 from a fixed seed: every residue appears
    // close to the expected 1000 times.
    let mut r = JavaRandom::with_seed(12345);
    let mut counts = [0usize; 10];
    for _ in 0..10000 {
        counts[r.next_int_with_bound(10) as usize] += 1;
    }
    for &c in counts.iter() {
        assert!(800 <= c && c <= 1200);
    }
}

#[test]
fn byte_fill_matches_manual_unrolling() {
    // next_bytes must consume exactly ceil(len / 4) unbounded draws and peel
    // each draw low byte first, shifting arithmetically by 8 between bytes.
    for len in [0usize, 1, 3, 4, 5, 8, 11, 17] {
        let mut filler = JavaRandom::with_seed(2024);
        let mut buf: Vec<u8> = vec![0; len];
        filler.next_bytes(&mut buf);

        let mut manual = JavaRandom::with_seed(2024);
        let mut expected: Vec<u8> = Vec::new();
        while expected.len() < len {
            let mut rnd = manual.next_int();
            let mut n = (len - expected.len()).min(4);
            while n > 0 {
                expected.push(rnd as u8);
                rnd >>= 8;
                n -= 1;
            }
        }
        assert_eq!(buf, expected);
        // Both generators must now hold the same register: the fill used
        // exactly as many draws as the manual unrolling.
        assert_eq!(filler.seed(), manual.seed());
    }
}

#[test]
fn set_seed_equals_fresh_construction() {
    let mut r = JavaRandom::with_seed(1);
    r.next_int();
    r.next_long();
    r.set_seed(555);
    let mut fresh = JavaRandom::with_seed(555);
    for _ in 0..20 {
        assert_eq!(r.next_int(), fresh.next_int());
    }
    // Re-seeding with the accessor's output continues the same sequence.
    let mut a = JavaRandom::with_seed(90210);
    a.next_int();
    let snapshot = a.seed();
    let upcoming: Vec<i32> = (0..5).map(|_| a.next_int()).collect();
    let mut b = JavaRandom::with_seed(0);
    b.set_seed(snapshot ^ 0x5DEECE66D);
    let replayed: Vec<i32> = (0..5).map(|_| b.next_int()).collect();
    assert_eq!(upcoming, replayed);
}

#[test]
fn fresh_generators_differ_by_seed() {
    let mut a = JavaRandom::with_seed(1);
    let mut b = JavaRandom::with_seed(2);
    assert_ne!(a.next_int(), b.next_int());
}
