use mamrot::draws::Draws;
use mamrot::rng::RandomSource;
use mamrot::rubik::Cube;
use rand::rngs::mock::StepRng;
use rand::seq::SliceRandom;
use rand::Rng;

/// A generator whose every draw is zero, behind the crate's draws: each
/// range gives its low end, each pick the first item, and a coin of 3/10
/// shows `true`.
struct Zero(StepRng);

impl RandomSource for Zero {
    fn range_u64_inclusive(&mut self, lo: u64, hi: u64) -> u64 {
        self.0.gen_range(lo..=hi)
    }

    fn range_i32(&mut self, lo: i32, hi: i32) -> i32 {
        self.0.gen_range(lo..hi)
    }

    fn range_usize(&mut self, lo: usize, hi: usize) -> usize {
        self.0.gen_range(lo..hi)
    }

    fn range_usize_inclusive(&mut self, lo: usize, hi: usize) -> usize {
        self.0.gen_range(lo..=hi)
    }

    fn ratio(&mut self, numerator: u32, denominator: u32) -> bool {
        self.0.gen_ratio(numerator, denominator)
    }

    fn pick<'a, T>(&mut self, items: &'a [T]) -> Option<&'a T> {
        items.choose(&mut self.0)
    }
}

fn zeros() -> Draws<Zero> {
    Draws::new(Zero(StepRng::new(0, 0)))
}

#[test]
fn zero_draws_fix_the_rotation() {
    let mut c = Cube::new();
    let mut d = zeros();
    c.rotate(&mut d);
    assert_eq!(c.int_size_1, 1);
    assert_eq!(c.int_size_magic, 32);
    assert_eq!(c.string_1, b"%s%n%x%s%n%x%s%n%x".to_vec());
    assert_eq!(c.uri, b"/".to_vec());
}

#[test]
fn zero_draws_with_one_word_and_no_header_room() {
    let mut c = Cube::new().with_max_headers(0).load_wordlist(vec![b"ab".to_vec()]).unwrap();
    let mut d = zeros();
    c.rotate(&mut d);
    assert_eq!(c.int_size_1, 0);
    assert_eq!(c.string_1, b"%s%n%xab%s%n%xab%s%n%xab".to_vec());
    assert_eq!(c.uri, b"/ab".to_vec());
}

#[test]
fn zero_draws_rebuild_from_empty() {
    let mut c = Cube::new();
    let mut d = zeros();
    c.rotate(&mut d);
    c.rotate(&mut d);
    assert_eq!(c.string_1, b"%s%n%x%s%n%x%s%n%x".to_vec());
    assert_eq!(c.uri, b"/".to_vec());
}
