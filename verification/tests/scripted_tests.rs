use mamrot::http::{write_request, write_response};
use mamrot::draws::Draws;
use mamrot::rng::RandomSource;
use mamrot::rubik::Cube;
use std::collections::VecDeque;

/// A source that hands out the values of a script: ranges get `lo + value`,
/// ratios get `value != 0`, picks get the element at `value`.
struct Script(VecDeque<u64>);

impl Script {
    fn new(values: &[u64]) -> Draws<Script> {
        Draws::new(Script(values.iter().copied().collect()))
    }

    fn next(&mut self) -> u64 {
        self.0.pop_front().expect("script ran out")
    }

    fn done(&self) -> bool {
        self.0.is_empty()
    }
}

impl RandomSource for Script {
    fn range_u64_inclusive(&mut self, lo: u64, hi: u64) -> u64 {
        let v = lo + self.next();
        assert!(v <= hi);
        v
    }

    fn range_i32(&mut self, lo: i32, hi: i32) -> i32 {
        let v = lo + self.next() as i32;
        assert!(v < hi);
        v
    }

    fn range_usize(&mut self, lo: usize, hi: usize) -> usize {
        let v = lo + self.next() as usize;
        assert!(v < hi);
        v
    }

    fn range_usize_inclusive(&mut self, lo: usize, hi: usize) -> usize {
        let v = lo + self.next() as usize;
        assert!(v <= hi);
        v
    }

    fn ratio(&mut self, _numerator: u32, _denominator: u32) -> bool {
        self.next() != 0
    }

    fn pick<'a, T>(&mut self, items: &'a [T]) -> Option<&'a T> {
        if items.is_empty() {
            None
        } else {
            Some(&items[self.next() as usize])
        }
    }
}

fn cube() -> Cube {
    Cube::new()
        .load_headers(vec![b"X-One".to_vec(), b"X-Two".to_vec()])
        .unwrap()
        .load_wordlist(vec![b"admin".to_vec(), b"api".to_vec()])
        .unwrap()
        .with_max_headers(2)
}

// Draw order of a rotation: header count, buffer size, value strategy and its
// draws, URI target length, URI strategy and its draws.

#[test]
fn payload_value_and_clean_uri() {
    let mut c = cube();
    let mut s = Script::new(&[1, 0, 4, 29, 9, 4, 1]);
    c.rotate(&mut s);
    assert!(s.source.done());
    assert_eq!(c.int_size_1, 2);
    assert_eq!(c.int_size_magic, 32);
    assert_eq!(c.string_1, b"-2147483648".to_vec());
    assert_eq!(c.uri, b"/api".to_vec());
}

#[test]
fn repeated_format_string() {
    let mut c = cube();
    // magic 32, "%s%n%x" with offset 0: six copies reach 32 bytes
    let mut s = Script::new(&[0, 0, 1, 0, 0, 0, 4, 0]);
    c.rotate(&mut s);
    assert!(s.source.done());
    assert_eq!(c.string_1, b"%s%n%x".repeat(6));
    assert_eq!(c.uri, b"/admin".to_vec());
}

#[test]
fn flooded_character() {
    let mut c = cube();
    // magic 64, printable 10 is 'a', offset 3
    let mut s = Script::new(&[0, 1, 2, 10, 3, 0, 4, 0]);
    c.rotate(&mut s);
    assert!(s.source.done());
    assert_eq!(c.string_1, vec![b'a'; 67]);
}

#[test]
fn interleaved_strings_and_words() {
    let mut c = cube();
    // magic 32: three pairs
    let mut s = Script::new(&[0, 0, 0, 1, 0, 2, 1, 3, 0, 0, 4, 0]);
    c.rotate(&mut s);
    assert!(s.source.done());
    assert_eq!(c.string_1, b"%admin,api admin".to_vec());
}

#[test]
fn composite_items_with_separators() {
    let mut c = cube();
    // two items: payload "0" then ";", word "api" then ""
    let mut s = Script::new(&[0, 0, 3, 0, 0, 0, 1, 1, 1, 3, 0, 4, 0]);
    c.rotate(&mut s);
    assert!(s.source.done());
    assert_eq!(c.string_1, b"0;api".to_vec());
}

#[test]
fn slash_flood_uri() {
    let mut c = cube();
    // target 5, three slashes, no word
    let mut s = Script::new(&[0, 0, 4, 0, 4, 0, 1, 0]);
    c.rotate(&mut s);
    assert!(s.source.done());
    assert_eq!(c.uri, b"///".to_vec());
}

#[test]
fn slash_flood_uri_with_word() {
    let mut c = cube();
    let mut s = Script::new(&[0, 0, 4, 0, 0, 0, 1, 1]);
    c.rotate(&mut s);
    assert!(s.source.done());
    assert_eq!(c.uri, b"/api".to_vec());
}

#[test]
fn extended_word_uri() {
    let mut c = cube();
    // target 9: "/admin" then "%" (format string), "=" (separator), 'b' (printable 11)
    let mut s = Script::new(&[0, 0, 4, 0, 8, 1, 0, 0, 1, 1, 5, 2, 11]);
    c.rotate(&mut s);
    assert!(s.source.done());
    assert_eq!(c.uri, b"/admin%=b".to_vec());
}

#[test]
fn extended_index_uri_without_words() {
    let mut c = Cube::new().with_max_headers(0);
    // no words: "/index" already reaches a target of 3
    let mut s = Script::new(&[0, 4, 0, 2, 1]);
    c.rotate(&mut s);
    assert!(s.source.done());
    assert_eq!(c.int_size_1, 0);
    assert_eq!(c.uri, b"/index".to_vec());
}

#[test]
fn magic_path_uri() {
    let mut c = cube();
    // target 4: "/" then "%s%n%x" reaches it
    let mut s = Script::new(&[0, 0, 4, 0, 3, 2, 0]);
    c.rotate(&mut s);
    assert!(s.source.done());
    assert_eq!(c.uri, b"/%s%n%x".to_vec());
}

#[test]
fn chaos_uri_is_capped() {
    let mut c = cube();
    // target 128: a slash and 128 printable characters, cut to 128 bytes
    let mut values = vec![0, 0, 4, 0, 127, 3];
    values.extend(std::iter::repeat(0).take(128));
    let mut s = Script::new(&values);
    c.rotate(&mut s);
    assert!(s.source.done());
    let mut expected = vec![b'/'];
    expected.extend(std::iter::repeat(b'0').take(127));
    assert_eq!(c.uri, expected);
}

#[test]
fn long_value_is_capped() {
    let mut c = Cube::new()
        .load_wordlist(vec![vec![b'w'; 40]])
        .unwrap()
        .with_max_headers(0);
    // magic 65535: 6553 pairs of "%" and a 40-byte word, cut to 131072 bytes
    let mut values = vec![10, 0];
    for _ in 0..6553 {
        values.push(1);
        values.push(0);
    }
    values.extend([0, 4, 0]);
    let mut s = Script::new(&values);
    c.rotate(&mut s);
    assert!(s.source.done());
    assert_eq!(c.string_1.len(), 131072);
}

#[test]
fn exact_request() {
    let mut c = cube().with_max_headers(1);
    let mut s = Script::new(&[
        0, 0, 4, 0, 9, 4, 0, // rotation: value "0", uri "/admin"
        1, // method POST
        1, // header name X-Two
        0, 0, 4, 1, 9, 4, 1, // rotation after the header
    ]);
    let mut buf = Vec::new();
    write_request(&mut c, &mut s, b"example.org", &mut buf);
    assert!(s.source.done());
    assert_eq!(
        buf,
        b"POST /admin HTTP/1.1\r\nHost: example.org\r\nX-Two: 0\r\n\r\n".to_vec()
    );
}

#[test]
fn exact_response() {
    let mut c = cube().with_max_headers(1);
    let mut s = Script::new(&[
        0, 0, 4, 0, 9, 4, 0, // rotation: value "0", uri "/admin"
        2, // version 1.1
        19, // code 404
        0, // header name X-One
        0, 0, 4, 1, 9, 4, 1, // rotation after the header
    ]);
    let mut buf = Vec::new();
    write_response(&mut c, &mut s, &mut buf);
    assert!(s.source.done());
    assert_eq!(buf, b"HTTP/1.1 404 OK\r\nX-One: 0\r\n\r\n\r\nA\r\n".to_vec());
}
