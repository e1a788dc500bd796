// Known-vector checks: seeding with fixed literals must reproduce the exact
// outputs of the reference 48-bit linear congruential generator.

use javarandom::JavaRandom;

#[test]
fn ints_from_seed_zero() {
    let mut r = JavaRandom::with_seed(0);
    let expected: [i32; 10] = [
        -1155484576, -723955400, 1033096058, -1690734402, -1557280266, 1327362106, -1930858313,
        502539523, -1728529858, -938301587,
    ];
    for &e in expected.iter() {
        assert_eq!(r.next_int(), e);
    }
}

#[test]
fn ints_from_seed_forty_two() {
    let mut r = JavaRandom::with_seed(42);
    let expected: [i32; 6] =
        [-1170105035, 234785527, -1360544799, 205897768, 1325939940, -248792245];
    for &e in expected.iter() {
        assert_eq!(r.next_int(), e);
    }
}

#[test]
fn ints_from_negative_seed() {
    let mut r = JavaRandom::with_seed(-1);
    let expected: [i32; 5] = [1155099827, 1887904451, 52699159, -1941176418, -1451336087];
    for &e in expected.iter() {
        assert_eq!(r.next_int(), e);
    }
}

#[test]
fn ints_from_large_seed() {
    let mut r = JavaRandom::with_seed(123456789);
    let expected: [i32; 5] = [-1442945365, -1016548095, 1962592967, 1094656688, 1677212580];
    for &e in expected.iter() {
        assert_eq!(r.next_int(), e);
    }
}

#[test]
fn longs_from_seed_zero() {
    let mut r = JavaRandom::with_seed(0);
    let expected: [i64; 5] = [
        -4962768465676381896,
        4437113781045784766,
        -6688467811848818630,
        -8292973307042192125,
        -7423979211207825555,
    ];
    for &e in expected.iter() {
        assert_eq!(r.next_long(), e);
    }
}

#[test]
fn longs_from_seed_forty_two() {
    let mut r = JavaRandom::with_seed(42);
    let expected: [i64; 4] = [
        -5025562857975149833,
        -5843495416241995736,
        5694868678511409995,
        5111195811822994797,
    ];
    for &e in expected.iter() {
        assert_eq!(r.next_long(), e);
    }
}

#[test]
fn booleans_from_seed_zero() {
    let mut r = JavaRandom::with_seed(0);
    let expected: [bool; 10] =
        [true, true, false, true, true, false, true, false, true, true];
    for &e in expected.iter() {
        assert_eq!(r.next_boolean(), e);
    }
}

#[test]
fn booleans_from_seed_forty_two() {
    let mut r = JavaRandom::with_seed(42);
    let expected: [bool; 8] = [true, false, true, false, false, true, false, true];
    for &e in expected.iter() {
        assert_eq!(r.next_boolean(), e);
    }
}

#[test]
fn float_numerators_from_seed_zero() {
    let mut r = JavaRandom::with_seed(0);
    let expected: [i32; 5] = [12263604, 13949265, 4035531, 10172784, 10694089];
    for &e in expected.iter() {
        assert_eq!(r.next_float_numerator(), e);
    }
}

#[test]
fn double_numerators_from_seed_zero() {
    let mut r = JavaRandom::with_seed(0);
    let expected: [i64; 4] =
        [6583972509698697, 2166559423974277, 5741345758572417, 4957895782277416];
    for &e in expected.iter() {
        assert_eq!(r.next_double_numerator(), e);
    }
}

#[test]
fn floats_from_seed_zero_match_reference() {
    // The reference float is the 24-bit numerator divided by 2^24; both the
    // numerator and the quotient are exactly representable in an f32.
    let mut r = JavaRandom::with_seed(0);
    let expected: [i32; 5] = [12263604, 13949265, 4035531, 10172784, 10694089];
    for &e in expected.iter() {
        let f = r.next_float_numerator() as f32 / (1u32 << 24) as f32;
        assert_eq!(f, e as f32 / 16777216.0f32);
    }
}

#[test]
fn doubles_from_seed_zero_match_reference() {
    let mut r = JavaRandom::with_seed(0);
    let expected: [i64; 4] =
        [6583972509698697, 2166559423974277, 5741345758572417, 4957895782277416];
    for &e in expected.iter() {
        let d = r.next_double_numerator() as f64 / (1u64 << 53) as f64;
        assert_eq!(d, e as f64 / 9007199254740992.0f64);
    }
}

#[test]
fn bounded_draws_power_of_two() {
    let mut r = JavaRandom::with_seed(0);
    let expected: [i32; 6] = [748, 851, 246, 620, 652, 316];
    for &e in expected.iter() {
        assert_eq!(r.next_int_with_bound(1024), e);
    }
    let mut r = JavaRandom::with_seed(0);
    let expected2: [i32; 8] = [1, 1, 0, 1, 1, 0, 1, 0];
    for &e in expected2.iter() {
        assert_eq!(r.next_int_with_bound(2), e);
    }
    let mut r = JavaRandom::with_seed(0);
    let expected4: [i32; 8] = [2, 3, 0, 2, 2, 1, 2, 0];
    for &e in expected4.iter() {
        assert_eq!(r.next_int_with_bound(4), e);
    }
}

#[test]
fn bounded_draw_of_one_is_zero() {
    let mut r = JavaRandom::with_seed(0);
    for _ in 0..4 {
        assert_eq!(r.next_int_with_bound(1), 0);
    }
}

#[test]
fn bounded_draws_general() {
    let mut r = JavaRandom::with_seed(0);
    let expected10: [i32; 10] = [0, 8, 9, 7, 5, 3, 1, 1, 9, 4];
    for &e in expected10.iter() {
        assert_eq!(r.next_int_with_bound(10), e);
    }
    let mut r = JavaRandom::with_seed(0);
    let expected37: [i32; 8] = [6, 19, 20, 15, 25, 28, 25, 23];
    for &e in expected37.iter() {
        assert_eq!(r.next_int_with_bound(37), e);
    }
    let mut r = JavaRandom::with_seed(7);
    let expected1000: [i32; 8] = [236, 164, 485, 44, 380, 254, 968, 649];
    for &e in expected1000.iter() {
        assert_eq!(r.next_int_with_bound(1000), e);
    }
}

#[test]
fn bounded_draw_takes_rejection_path() {
    // For this bound the first 31-bit read from seed 0 fails the acceptance
    // test, so the reference algorithm redraws before returning.
    let mut r = JavaRandom::with_seed(0);
    assert_eq!(r.next_int_with_bound(1431655765), 516548029);
}

#[test]
fn bytes_from_seed_zero() {
    let mut r = JavaRandom::with_seed(0);
    let mut buf: Vec<u8> = vec![0; 11];
    r.next_bytes(&mut buf);
    assert_eq!(buf, vec![96, 180, 32, 187, 56, 81, 217, 212, 122, 203, 147]);

    let mut r = JavaRandom::with_seed(0);
    let mut buf: Vec<u8> = vec![0xFF; 8];
    r.next_bytes(&mut buf);
    assert_eq!(buf, vec![96, 180, 32, 187, 56, 81, 217, 212]);
}

#[test]
fn seed_accessor_returns_scrambled_state() {
    // with_seed(s).seed() equals (s XOR 0x5DEECE66D) AND (2^48 - 1), which is
    // generally not s itself.
    assert_eq!(JavaRandom::with_seed(0).seed(), 0x5DEECE66D);
    assert_ne!(JavaRandom::with_seed(0).seed(), 0);
    assert_eq!(JavaRandom::with_seed(-1).seed(), 0xFFFA21131992);
    assert_eq!(JavaRandom::with_seed(42).seed(), (42 ^ 0x5DEECE66D) & ((1i64 << 48) - 1));
    // The register after one unbounded draw from seed 0.
    let mut r = JavaRandom::with_seed(0);
    r.next_int();
    assert_eq!(r.seed(), 0xBB20B4600A74);
}
