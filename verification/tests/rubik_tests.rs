use mamrot::draws::Draws;
use mamrot::rubik::{Cube, ListError, STRING_CAP, URI_CAP};
use rand::rngs::{SmallRng, StdRng};
use rand::SeedableRng;

const MAGIC_NUMBERS: [u64; 11] = [32, 64, 128, 256, 512, 1024, 2048, 4096, 8192, 32767, 65535];

fn words(list: &[&str]) -> Vec<Vec<u8>> {
    list.iter().map(|w| w.as_bytes().to_vec()).collect()
}

fn loaded_cube() -> Cube {
    Cube::new()
        .load_headers(words(&["X-A", "X-B"]))
        .unwrap()
        .load_wordlist(words(&["admin", "login", "api"]))
        .unwrap()
        .with_max_headers(3)
}

#[test]
fn new_cube_is_fresh() {
    let cube = Cube::new();
    assert_eq!(cube.int_size_1, 0);
    assert_eq!(cube.int_size_magic, 0);
    assert!(cube.string_1.is_empty());
    assert!(cube.uri.is_empty());
    assert!(cube.headers.is_empty());
    assert!(cube.wordlist.is_empty());
    assert_eq!(cube.max_headers_count, 10);
    let methods: Vec<&[u8]> = cube.methods.iter().map(|m| m.as_slice()).collect();
    assert_eq!(
        methods,
        vec![
            b"GET".as_slice(),
            b"POST".as_slice(),
            b"PUT".as_slice(),
            b"HEAD".as_slice(),
            b"OPTIONS".as_slice(),
            b"TRACE".as_slice(),
            b"CONNECT".as_slice()
        ]
    );
}

#[test]
fn default_matches_new() {
    let a = Cube::default();
    let b = Cube::new();
    assert_eq!(a.methods, b.methods);
    assert_eq!(a.max_headers_count, b.max_headers_count);
}

#[test]
fn with_max_headers_sets_only_the_limit() {
    let cube = Cube::new().with_max_headers(2);
    assert_eq!(cube.max_headers_count, 2);
    assert_eq!(cube.methods.len(), 7);
}

#[test]
fn empty_lists_are_refused() {
    assert_eq!(Cube::new().load_headers(vec![]).unwrap_err(), ListError::Empty);
    assert_eq!(Cube::new().load_wordlist(vec![]).unwrap_err(), ListError::Empty);
}

#[test]
fn loaded_lists_are_kept() {
    let cube = loaded_cube();
    assert_eq!(cube.headers.len(), 2);
    assert_eq!(cube.wordlist[2], b"api".to_vec());
    assert_eq!(cube.max_headers_count, 3);
}

#[test]
fn rotation_stays_within_bounds() {
    let mut cube = loaded_cube();
    let mut rng = Draws::new(StdRng::seed_from_u64(7));
    for _ in 0..300 {
        cube.rotate(&mut rng);
        assert!(cube.int_size_1 >= 1 && cube.int_size_1 <= 3);
        assert!(MAGIC_NUMBERS.contains(&cube.int_size_magic));
        assert!(cube.string_1.len() <= STRING_CAP);
        assert!(!cube.uri.is_empty() && cube.uri.len() <= URI_CAP);
        assert_eq!(cube.uri[0], b'/');
    }
    assert_eq!(cube.headers.len(), 2);
    assert_eq!(cube.wordlist.len(), 3);
}

#[test]
fn rotation_without_header_room_gives_no_headers() {
    let mut cube = loaded_cube().with_max_headers(0);
    let mut rng = Draws::new(SmallRng::seed_from_u64(11));
    for _ in 0..50 {
        cube.rotate(&mut rng);
        assert_eq!(cube.int_size_1, 0);
    }
}

#[test]
fn rotation_without_words_still_builds_uris() {
    let mut cube = Cube::new();
    let mut rng = Draws::new(StdRng::seed_from_u64(3));
    for _ in 0..200 {
        cube.rotate(&mut rng);
        assert_eq!(cube.uri[0], b'/');
        assert!(cube.uri.len() <= URI_CAP);
        assert!(cube.string_1.len() <= STRING_CAP);
        assert!(cube.int_size_1 >= 1 && cube.int_size_1 <= 10);
    }
}

#[test]
fn same_seed_same_rotation() {
    let mut a = loaded_cube();
    let mut b = loaded_cube();
    let mut ra = Draws::new(StdRng::seed_from_u64(99));
    let mut rb = Draws::new(StdRng::seed_from_u64(99));
    for _ in 0..20 {
        a.rotate(&mut ra);
        b.rotate(&mut rb);
        assert_eq!(a.string_1, b.string_1);
        assert_eq!(a.uri, b.uri);
        assert_eq!(a.int_size_1, b.int_size_1);
    }
}

#[test]
fn rotation_varies() {
    let mut cube = loaded_cube();
    let mut rng = Draws::new(StdRng::seed_from_u64(5));
    let mut uris = std::collections::HashSet::new();
    let mut magics = std::collections::HashSet::new();
    for _ in 0..100 {
        cube.rotate(&mut rng);
        uris.insert(cube.uri.clone());
        magics.insert(cube.int_size_magic);
    }
    assert!(uris.len() > 10);
    assert!(magics.len() > 3);
}

#[test]
fn lists_survive_a_run_of_calls() {
    let mut cube = Cube::new().with_max_headers(2);
    let mut rng = Draws::new(StdRng::seed_from_u64(12));
    cube.rotate(&mut rng);
    cube = cube.load_headers(words(&["X-A"])).unwrap();
    cube.rotate(&mut rng);
    cube = cube.load_wordlist(words(&["w"])).unwrap().with_max_headers(5);
    for _ in 0..10 {
        cube.rotate(&mut rng);
    }
    assert_eq!(cube.methods.len(), 7);
    assert_eq!(cube.methods[0], b"GET".to_vec());
    assert_eq!(cube.methods[6], b"CONNECT".to_vec());
    assert_eq!(cube.headers.len(), 1);
    assert_eq!(cube.wordlist.len(), 1);
}
