use mamrot::rng::RandomSource;
use rand::rngs::{SmallRng, StdRng};
use rand::SeedableRng;
use std::collections::HashSet;

fn exercise<R: RandomSource>(rng: &mut R) {
    let mut a = HashSet::new();
    let mut b = HashSet::new();
    let mut c = HashSet::new();
    let mut d = HashSet::new();
    let mut picks = HashSet::new();
    let items = [10u8, 20, 30];
    for _ in 0..200 {
        let x = rng.range_u64_inclusive(5, 9);
        assert!((5..=9).contains(&x));
        a.insert(x);
        let y = rng.range_i32(-3, 3);
        assert!((-3..3).contains(&y));
        b.insert(y);
        let z = rng.range_usize(2, 6);
        assert!((2..6).contains(&z));
        c.insert(z);
        let w = rng.range_usize_inclusive(1, 4);
        assert!((1..=4).contains(&w));
        d.insert(w);
        assert!(!rng.ratio(0, 10));
        assert!(rng.ratio(10, 10));
        picks.insert(*rng.pick(&items).unwrap());
    }
    assert_eq!(a.len(), 5);
    assert_eq!(b.len(), 6);
    assert_eq!(c.len(), 4);
    assert_eq!(d.len(), 4);
    assert_eq!(picks.len(), 3);
    let empty: [u8; 0] = [];
    assert!(rng.pick(&empty).is_none());
}

#[test]
fn std_rng_draws_cover_their_ranges() {
    exercise(&mut StdRng::seed_from_u64(1));
}

#[test]
fn small_rng_draws_cover_their_ranges() {
    exercise(&mut SmallRng::seed_from_u64(1));
}

#[test]
fn ratio_is_sometimes_true() {
    let mut rng = StdRng::seed_from_u64(2);
    let hits = (0..1000).filter(|_| rng.ratio(3, 10)).count();
    assert!(hits > 200 && hits < 400);
}
