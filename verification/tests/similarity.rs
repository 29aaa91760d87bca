use pg_wodekit::similarity::{ratio, reaches, Similarity, INFINITY, ONE, SIGN};

fn number(x: f64) -> Similarity {
    Similarity { bits: x.to_bits() }
}

#[test]
fn constants() {
    assert_eq!(f64::from_bits(ONE), 1.0);
    assert_eq!(f64::from_bits(INFINITY), f64::INFINITY);
    assert_eq!((-0.0f64).to_bits(), SIGN);
}

#[test]
fn ratios_of_small_counts() {
    for whole in 1..300usize {
        for part in 0..=whole {
            let want = part as f64 / whole as f64;
            assert_eq!(ratio(part, whole).bits, want.to_bits());
        }
    }
    assert_eq!(ratio(0, 0).bits, 0);
}

#[test]
fn ratios_of_great_counts() {
    let mut x: u64 = 88172645463325252;
    for _ in 0..200_000 {
        x ^= x << 13;
        x ^= x >> 7;
        x ^= x << 17;
        let whole = (x >> (x % 60)) as usize;
        if whole > 0 {
            let part = (x.rotate_left(29) as usize) % whole;
            let want = part as f64 / whole as f64;
            assert_eq!(ratio(part, whole).bits, want.to_bits());
        }
    }
    for (part, whole) in [
        (1, usize::MAX),
        (usize::MAX, usize::MAX),
        (usize::MAX - 1, usize::MAX),
        ((1 << 53) + 1, (1 << 53) + 3),
        ((1 << 54) + 2, (1 << 54) + 6),
        (1 << 53, (1 << 53) + 1),
    ] {
        let want = part as f64 / whole as f64;
        assert_eq!(ratio(part, whole).bits, want.to_bits());
    }
}

#[test]
fn more_matches_are_more_similar() {
    for part in 0..99usize {
        assert!(ratio(part, 99).bits < ratio(part + 1, 99).bits);
    }
    assert_eq!(ratio(99, 99).bits, ONE);
    // Neighbours of a great whole may round alike, but never the wrong way.
    let whole = usize::MAX;
    assert_eq!(ratio(whole - 1, whole).bits, ratio(whole - 2, whole).bits);
    assert!(ratio(whole / 2, whole).bits <= ratio(whole / 2 + 1, whole).bits);
}

#[test]
fn reaching_is_the_order_of_numbers() {
    let thresholds = [
        0.0,
        -0.0,
        f64::MIN_POSITIVE,
        0.25,
        0.4,
        0.5,
        1.0,
        1.0 + f64::EPSILON,
        2.0,
        -1.0,
        -1e-300,
        f64::INFINITY,
        f64::NEG_INFINITY,
        f64::NAN,
        -f64::NAN,
    ];
    for a in [0.0, 0.25, 0.4, 1.0 / 3.0, 0.5, 0.75, 1.0] {
        for t in thresholds {
            assert_eq!(reaches(number(a), number(t)), a >= t);
        }
    }
}
