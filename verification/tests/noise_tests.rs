use vai::fixed::{fx_add, fx_div, fx_mul, isqrt};
use rand::SeedableRng;
use vai::{infinite_map, rand_index, FX_HALF, FX_ONE};

#[test]
fn infinite_map_zero_at_edges_and_center() {
    assert_eq!(infinite_map(0), 0);
    assert_eq!(infinite_map(FX_ONE), 0);
    assert_eq!(infinite_map(FX_HALF), 0);
    assert_eq!(infinite_map(-5), 0);
    assert_eq!(infinite_map(FX_ONE + 7), 0);
}

#[test]
fn infinite_map_known_value() {
    // u = 3/4: 0.5 * 0.25 / sqrt(0.25 - 0.0625) = 0.28867513...
    let u = 3i64 << 30;
    assert_eq!(infinite_map(u), 1239850262);
    let real = 1239850262f64 / 4294967296f64;
    assert!((real - 0.2886751345948129).abs() < 1e-9);
}

#[test]
fn infinite_map_antisymmetric() {
    let samples = [1i64, 1000, 1 << 20, 1 << 30, FX_HALF - 1, FX_HALF + 3, FX_ONE - 1];
    for &u in samples.iter() {
        assert_eq!(infinite_map(FX_ONE - u), -infinite_map(u));
    }
}

#[test]
fn infinite_map_strictly_increasing() {
    let samples = [1i64, 2, 1000, 1 << 20, FX_HALF - 1, FX_HALF, FX_HALF + 1, 3 << 30, FX_ONE - 2, FX_ONE - 1];
    let mut prev = infinite_map(samples[0]);
    for &u in samples.iter().skip(1) {
        let cur = infinite_map(u);
        assert!(cur > prev, "map must strictly increase inside the domain");
        prev = cur;
    }
}

#[test]
fn infinite_map_diverges_near_edges() {
    // one step inside the domain edge the magnitude is huge
    assert_eq!(infinite_map(FX_ONE - 1), 70369817903103);
    assert_eq!(infinite_map(1), -70369817903103);
}

#[test]
fn fixed_point_multiply_exact() {
    assert_eq!(fx_mul(FX_ONE, FX_ONE), FX_ONE);
    assert_eq!(fx_mul(3 << 32, 1 << 31), 6442450944); // 3 * 0.5 = 1.5
    assert_eq!(fx_mul(-(3 << 32) - 1, 1 << 31), -6442450944); // truncates toward zero
    assert_eq!(fx_mul(-1, 1 << 31), 0);
    assert_eq!(fx_mul(0, i64::MIN), 0);
}

#[test]
fn fixed_point_add_saturates() {
    assert_eq!(fx_add(1, 2), 3);
    assert_eq!(fx_add(i64::MAX, 1), i64::MAX);
    assert_eq!(fx_add(i64::MIN, -1), i64::MIN);
    assert_eq!(fx_add(i64::MAX, i64::MIN), -1);
}

#[test]
fn fixed_point_divide_truncates() {
    assert_eq!(fx_div(-7 << 32, 2), -15032385536);
    assert_eq!(fx_div(7 << 32, 2), 15032385536);
    assert_eq!(fx_div(1, 3), 0);
    assert_eq!(fx_div(-1, 3), 0);
}

#[test]
fn integer_square_root_exact() {
    assert_eq!(isqrt(0), 0);
    assert_eq!(isqrt(15), 3);
    assert_eq!(isqrt(16), 4);
    assert_eq!(isqrt(u64::MAX), 4294967295);
}

#[test]
fn random_index_stays_below_length() {
    let mut rng = rand::rngs::StdRng::seed_from_u64(42);
    for len in [1usize, 2, 3, 17, 1000] {
        for _ in 0..200 {
            let i = rand_index(&mut rng, len);
            assert!(i < len);
        }
    }
}
