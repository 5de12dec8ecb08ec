use gnrng_id::{gnrng, Gnrng};

fn next_f64(rng: &mut Gnrng) -> f64 {
    rng.next_u32() as f64 / 4294967296.0
}

fn next_batch_f64(rng: &mut Gnrng, count: usize) -> Vec<f64> {
    rng.next_u32_batch(count)
        .into_iter()
        .map(|w| w as f64 / 4294967296.0)
        .collect()
}

#[test]
fn test_gnrng_deterministic() {
    let mut rng1 = Gnrng::new("test");
    let mut rng2 = Gnrng::new("test");
    for _ in 0..10 {
        assert_eq!(next_f64(&mut rng1), next_f64(&mut rng2));
    }
}

#[test]
fn test_gnrng_different_seeds() {
    let mut rng1 = Gnrng::new("seed1");
    let mut rng2 = Gnrng::new("seed2");
    let mut different_count = 0;
    for _ in 0..10 {
        if next_f64(&mut rng1) != next_f64(&mut rng2) {
            different_count += 1;
        }
    }
    assert!(different_count > 0);
}

#[test]
fn test_batch_operations() {
    let mut rng = Gnrng::new("test");
    let batch = next_batch_f64(&mut rng, 100);
    assert_eq!(batch.len(), 100);
    let range_batch = rng.next_range_batch(1, 10, 50);
    assert_eq!(range_batch.len(), 50);
    for value in range_batch {
        assert!((1..10).contains(&value));
    }
}

#[test]
fn test_range_generation() {
    let mut rng = Gnrng::new("test");
    for _ in 0..100 {
        let value = rng.next_range(1, 10);
        assert!((1..10).contains(&value));
    }
}

#[test]
fn test_typescript_compatibility() {
    let mut rng = Gnrng::new("test-seed");
    let value = next_f64(&mut rng);
    assert!((0.0..1.0).contains(&value));
    let mut rng1 = Gnrng::new("same-seed");
    let mut rng2 = Gnrng::new("same-seed");
    for _ in 0..5 {
        assert_eq!(next_f64(&mut rng1), next_f64(&mut rng2));
    }
}

#[test]
fn first_draws_for_test_seed() {
    let mut rng = Gnrng::new("test");
    assert_eq!(rng.next_u32(), 3595630394);
    assert_eq!(rng.next_u32(), 579583198);
    assert_eq!(rng.next_u32(), 2252497989);
}

#[test]
fn empty_seed_stays_at_zero() {
    let mut rng = Gnrng::new("");
    assert_eq!(rng.next_u32_batch(3), vec![0, 0, 0]);
}

#[test]
fn function_form_matches_constructor() {
    let mut a = gnrng("test");
    let mut b = Gnrng::new("test");
    assert_eq!(a.next_u32_batch(20), b.next_u32_batch(20));
}

#[test]
fn several_seed_pairs_differ() {
    let pairs = [("seed1", "seed2"), ("a", "b"), ("test", "tesu"), ("", "x")];
    for (s1, s2) in pairs {
        let d1 = Gnrng::new(s1).next_u32_batch(10);
        let d2 = Gnrng::new(s2).next_u32_batch(10);
        assert_ne!(d1, d2);
    }
}

#[test]
fn ranged_draws_exact() {
    let mut rng = Gnrng::new("test");
    let values: Vec<i32> = (0..5).map(|_| rng.next_range(1, 10)).collect();
    assert_eq!(values, vec![3, 2, 4, 4, 6]);
}

#[test]
fn degenerate_range_returns_min_without_drawing() {
    let mut rng = Gnrng::new("test");
    assert_eq!(rng.next_range(5, 5), 5);
    assert_eq!(rng.next_range(10, 5), 10);
    assert_eq!(rng.next_u32(), 3595630394);
}

#[test]
fn degenerate_range_batch_repeats_min() {
    let mut rng = Gnrng::new("test");
    assert_eq!(rng.next_range_batch(7, 7, 4), vec![7, 7, 7, 7]);
    assert_eq!(rng.next_range_batch(9, -3, 2), vec![9, 9]);
    assert_eq!(rng.next_range_batch(9, -3, 0), Vec::<i32>::new());
    assert_eq!(rng.next_u32(), 3595630394);
}

#[test]
fn full_i32_span_does_not_overflow() {
    let mut rng = Gnrng::new("x");
    let values = rng.next_range_batch(i32::MIN, i32::MAX, 3);
    assert_eq!(values, vec![1977504746, -479085571, -871127539]);
}

#[test]
fn negative_range_stays_inside() {
    let mut rng = Gnrng::new("neg");
    for v in rng.next_range_batch(-20, -10, 200) {
        assert!((-20..-10).contains(&v));
    }
}

#[test]
fn batch_equals_scalar_draws() {
    let mut a = Gnrng::new("batch");
    let mut b = Gnrng::new("batch");
    let batch = a.next_u32_batch(25);
    let scalar: Vec<u32> = (0..25).map(|_| b.next_u32()).collect();
    assert_eq!(batch, scalar);
    assert_eq!(a.next_u32(), b.next_u32());

    let mut c = Gnrng::new("batch");
    let mut d = Gnrng::new("batch");
    let ranged = c.next_range_batch(-4, 17, 25);
    let ranged_scalar: Vec<i32> = (0..25).map(|_| d.next_range(-4, 17)).collect();
    assert_eq!(ranged, ranged_scalar);
}

#[test]
fn float_batch_equals_scalar_floats() {
    let mut a = Gnrng::new("floats");
    let mut b = Gnrng::new("floats");
    let batch = next_batch_f64(&mut a, 30);
    let scalar: Vec<f64> = (0..30).map(|_| next_f64(&mut b)).collect();
    assert_eq!(batch, scalar);
}
