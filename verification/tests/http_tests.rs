use mamrot::draws::Draws;
use mamrot::http::{status_code, write_batch, write_request, write_response};
use mamrot::rubik::Cube;
use rand::rngs::{SmallRng, StdRng};
use rand::SeedableRng;

fn cube(headers: &[&str], max: u64) -> Cube {
    let c = Cube::new()
        .load_wordlist(vec![b"admin".to_vec(), b"index.php".to_vec()])
        .unwrap()
        .with_max_headers(max);
    if headers.is_empty() {
        c
    } else {
        c.load_headers(headers.iter().map(|h| h.as_bytes().to_vec()).collect()).unwrap()
    }
}

fn chars(s: &str) -> Vec<char> {
    s.chars().collect()
}

fn find(hay: &[u8], needle: &[u8]) -> Option<usize> {
    hay.windows(needle.len()).position(|w| w == needle)
}

#[test]
fn request_has_request_line_host_and_end() {
    let mut c = cube(&["X-Test"], 2);
    let mut rng = Draws::new(StdRng::seed_from_u64(1));
    let mut buf = Vec::new();
    write_request(&mut c, &mut rng, b"example.org", &mut buf);
    let methods: [&[u8]; 7] = [b"GET ", b"POST ", b"PUT ", b"HEAD ", b"OPTIONS ", b"TRACE ", b"CONNECT "];
    assert!(methods.iter().any(|m| buf.starts_with(m)));
    let space = buf.iter().position(|&b| b == b' ').unwrap();
    assert_eq!(buf[space + 1], b'/');
    assert!(find(&buf, b" HTTP/1.1\r\nHost: example.org\r\n").is_some());
    assert!(buf.ends_with(b"\r\n\r\n"));
}

#[test]
fn request_headers_use_the_loaded_names() {
    let mut c = cube(&["X-Test"], 3);
    let mut rng = Draws::new(StdRng::seed_from_u64(2));
    let mut buf = Vec::new();
    write_request(&mut c, &mut rng, b"h", &mut buf);
    let head_end = find(&buf, b"Host: h\r\n").unwrap() + b"Host: h\r\n".len();
    let headers = &buf[head_end..];
    assert!(headers.starts_with(b"X-Test: "));
    let count = find_all(headers, b"X-Test: ");
    assert!(count >= 1 && count <= 3);
}

fn find_all(hay: &[u8], needle: &[u8]) -> usize {
    hay.windows(needle.len()).filter(|w| *w == needle).count()
}

#[test]
fn request_without_header_room_has_no_headers() {
    let mut c = cube(&[], 0);
    let mut rng = Draws::new(StdRng::seed_from_u64(3));
    let mut buf = Vec::new();
    write_request(&mut c, &mut rng, b"h", &mut buf);
    assert!(buf.ends_with(b"Host: h\r\n\r\n"));
}

#[test]
fn batch_holds_that_many_requests() {
    let mut c = cube(&[], 0);
    let mut rng = Draws::new(StdRng::seed_from_u64(4));
    let mut buf = Vec::new();
    write_batch(&mut c, &mut rng, b"h", 4, &mut buf);
    assert_eq!(find_all(&buf, b"Host: h\r\n\r\n"), 4);
    let mut empty = Vec::new();
    write_batch(&mut c, &mut rng, b"h", 0, &mut empty);
    assert!(empty.is_empty());
}

#[test]
fn response_has_status_line_and_body() {
    let mut c = cube(&["Server"], 2);
    let mut rng = Draws::new(SmallRng::seed_from_u64(5));
    let mut buf = Vec::new();
    write_response(&mut c, &mut rng, &mut buf);
    assert!(buf.starts_with(b"HTTP/"));
    let line_end = find(&buf, b"\r\n").unwrap();
    assert!(buf[..line_end].ends_with(b" OK"));
    assert!(buf.ends_with(b"\r\n\r\nA\r\n"));
    assert!(find(&buf, b"Server: ").is_some());
}

#[test]
fn response_falls_back_to_x_fuzz() {
    let mut c = cube(&[], 4);
    let mut rng = Draws::new(SmallRng::seed_from_u64(6));
    let mut buf = Vec::new();
    write_response(&mut c, &mut rng, &mut buf);
    assert!(find(&buf, b"\r\nX-Fuzz: ").is_some());
}

#[test]
fn status_code_of_http_lines() {
    assert_eq!(status_code(&chars("HTTP/1.1 200 OK\r\n")), Some(chars("200")));
    assert_eq!(status_code(&chars("HTTP/1.0   404\n")), Some(chars("404")));
    assert_eq!(status_code(&chars("HTTP/1.1 \u{a0}503 Busy")), Some(chars("503")));
    assert_eq!(status_code(&chars("HTTP/1.1 ")), None);
    assert_eq!(status_code(&chars("HTTP/1.1 \r\n")), None);
    assert_eq!(status_code(&chars("HTTP/2 200 OK")), None);
    assert_eq!(status_code(&chars("Content-Length: 5")), None);
    assert_eq!(status_code(&chars("")), None);
}

#[test]
fn request_line_carries_the_rotated_uri() {
    let mut c = cube(&[], 0);
    let mut rng = Draws::new(StdRng::seed_from_u64(8));
    for _ in 0..20 {
        let mut buf = Vec::new();
        write_request(&mut c, &mut rng, b"h", &mut buf);
        let space = buf.iter().position(|&b| b == b' ').unwrap();
        let method = &buf[..space];
        assert!(c.methods.iter().any(|m| m.as_slice() == method));
        let mut expected = method.to_vec();
        expected.push(b' ');
        expected.extend_from_slice(&c.uri);
        expected.extend_from_slice(b" HTTP/1.1\r\nHost: h\r\n\r\n");
        assert_eq!(buf, expected);
    }
}

#[test]
fn same_draws_same_request_and_response() {
    let mut a = cube(&["X-A", "X-B"], 3);
    let mut b = cube(&["X-A", "X-B"], 3);
    let mut ra = Draws::new(StdRng::seed_from_u64(21));
    let mut rb = Draws::new(StdRng::seed_from_u64(21));
    for _ in 0..10 {
        let mut ba = Vec::new();
        let mut bb = Vec::new();
        write_request(&mut a, &mut ra, b"h", &mut ba);
        write_request(&mut b, &mut rb, b"h", &mut bb);
        assert_eq!(ba, bb);
        assert_eq!(a.string_1, b.string_1);
        let mut sa = Vec::new();
        let mut sb = Vec::new();
        write_response(&mut a, &mut ra, &mut sa);
        write_response(&mut b, &mut rb, &mut sb);
        assert_eq!(sa, sb);
    }
}
