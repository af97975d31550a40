//! Fuzzed HTTP messages: the requests of the client, the responses of the
//! server, and the status code that the client reads back.
use vstd::prelude::*;
use vstd::string::StringSliceAdditionalSpecFns;
use crate::bytes::{append, concat, lemma_concat_push, starts_with};
use crate::draws::{byte_lists, extends, lemma_no_draw_yet, lemma_since, lemma_since_append, lemma_since_push, since, Draw, Draws};
use crate::rng::RandomSource;
use crate::rotation::{
    completes, lemma_header_count_kept, lemma_rotations_prefix_free, rotation, start, Config, Turn,
};
use crate::rubik::{
    config_of, header_count_outcome, holds_turn, rotated_by, lemma_uri_outcome_shape, slash, string_outcome, uri_outcome,
    Cube,
};
use crate::tables::{magic_number_values, text_bytes};

verus! {

broadcast use vstd::string::group_string_axioms;

/// The HTTP versions that responses claim.
pub open spec fn http_version_texts() -> Seq<&'static str> {
    seq!["0.9", "1.0", "1.1", "2.0", "3.0"]
}

pub fn http_versions() -> (r: [&'static str; 5])
    ensures
        r@ == http_version_texts(),
{
    ["0.9", "1.0", "1.1", "2.0", "3.0"]
}

/// The status codes that responses carry.
pub open spec fn http_code_texts() -> Seq<&'static str> {
    seq![
        "100", "101", "200", "201", "202", "203", "204", "205", "206", "300", "301", "302", "303",
        "304", "305", "307", "400", "401", "403", "404", "405", "406", "407", "408", "409", "410",
        "411", "412", "413", "414", "416", "500", "501", "502", "503", "504", "505",
    ]
}

pub fn http_codes() -> (r: [&'static str; 37])
    ensures
        r@ == http_code_texts(),
{
    [
        "100", "101", "200", "201", "202", "203", "204", "205", "206", "300", "301", "302", "303",
        "304", "305", "307", "400", "401", "403", "404", "405", "406", "407", "408", "409", "410",
        "411", "412", "413", "414", "416", "500", "501", "502", "503", "504", "505",
    ]
}

pub open spec fn crlf() -> Seq<u8> {
    "\r\n".spec_bytes()
}

/// A slash to put in front of a URI that begins with neither `/` nor `http`.
pub open spec fn target_prefix(uri: Seq<u8>) -> Seq<u8> {
    if starts_with(uri, slash()) || starts_with(uri, "http".spec_bytes()) {
        Seq::<u8>::empty()
    } else {
        slash()
    }
}

/// The request line and the `Host` header.
pub open spec fn request_head(method: Seq<u8>, uri: Seq<u8>, host: Seq<u8>) -> Seq<u8> {
    method + " ".spec_bytes() + target_prefix(uri) + uri + " HTTP/1.1\r\nHost: ".spec_bytes() + host
        + crlf()
}

/// One header line.
pub open spec fn header_line(name: Seq<u8>, value: Seq<u8>) -> Seq<u8> {
    name + ": ".spec_bytes() + value + crlf()
}

/// A header line whose name comes from `names` and whose value is one that
/// `rotate` may leave.
pub open spec fn is_fuzz_header(names: Seq<Seq<u8>>, words: Seq<Seq<u8>>, line: Seq<u8>) -> bool {
    exists|name: Seq<u8>, magic: u64, value: Seq<u8>|
        #![trigger header_line(name, value), string_outcome(magic, words, value)]
        names.contains(name) && magic_number_values().contains(magic) && string_outcome(
            magic,
            words,
            value,
        ) && line == header_line(name, value)
}

/// Where the parts of a fuzzed request come from.
pub struct RequestSources {
    pub methods: Seq<Seq<u8>>,
    pub names: Seq<Seq<u8>>,
    pub words: Seq<Seq<u8>>,
    pub max_headers: u64,
}

/// The sources that `cube` offers.
pub open spec fn sources_of(cube: Cube) -> RequestSources {
    RequestSources {
        methods: byte_lists(cube.methods@),
        names: byte_lists(cube.headers@),
        words: cube.words(),
        max_headers: cube.max_headers_count,
    }
}

pub open spec fn request_from(
    src: RequestSources,
    host: Seq<u8>,
    method: Seq<u8>,
    uri: Seq<u8>,
    lines: Seq<Seq<u8>>,
    req: Seq<u8>,
) -> bool {
    &&& src.methods.contains(method)
    &&& uri_outcome(src.words, uri)
    &&& header_count_outcome(src.max_headers, lines.len() as int)
    &&& forall|i: int| 0 <= i < lines.len() ==> is_fuzz_header(src.names, src.words, #[trigger] lines[i])
    &&& req == request_head(method, uri, host) + concat(lines) + crlf()
}

/// A request that the client may send to `host`.
pub open spec fn is_request(src: RequestSources, host: Seq<u8>, req: Seq<u8>) -> bool {
    exists|method: Seq<u8>, uri: Seq<u8>, lines: Seq<Seq<u8>>| #[trigger]
        request_from(src, host, method, uri, lines, req)
}

/// Whether `s` begins with `prefix`.
pub fn has_prefix(s: &[u8], prefix: &[u8]) -> (r: bool)
    ensures
        r == starts_with(s@, prefix@),
{
    if prefix.len() > s.len() {
        return false;
    }
    let mut i: usize = 0;
    while i < prefix.len()
        invariant
            prefix@.len() <= s@.len(),
            i <= prefix@.len(),
            forall|k: int| 0 <= k < i ==> s@[k] == prefix@[k],
        decreases prefix@.len() - i,
    {
        if s[i] != prefix[i] {
            assert(s@.take(prefix@.len() as int)[i as int] != prefix@[i as int]);
            return false;
        }
        i = i + 1;
    }
    assert(s@.take(prefix@.len() as int) =~= prefix@);
    true
}

/// Appends the header line of `name`, with the current value of `cube`.
fn write_header_line(cube: &Cube, name: &[u8], buf: &mut Vec<u8>)
    ensures
        final(buf)@ == old(buf)@ + header_line(name@, cube.string_1@),
{
    append(buf, name);
    append(buf, ": ".as_bytes());
    append(buf, cube.string_1.as_slice());
    append(buf, "\r\n".as_bytes());
    assert(final(buf)@ =~= old(buf)@ + header_line(name@, cube.string_1@));
}

/// What a rotation for messages built from `src` depends on besides its draws.
pub open spec fn config_from(src: RequestSources) -> Config {
    Config { words: src.words, max: src.max_headers as int }
}

/// The draw of a header name from `names`; there is none when there is no
/// name to draw.
pub open spec fn name_draw(names: Seq<Seq<u8>>, name: Seq<u8>) -> Seq<Draw> {
    if names.len() > 0 {
        seq![Draw::Pick { items: names, item: name }]
    } else {
        seq![]
    }
}

/// The draws behind the header lines: for each line the draw of its name,
/// then the rotation that gives the value of the next line.
pub open spec fn header_draws(names: Seq<Seq<u8>>, chosen: Seq<Seq<u8>>, segs: Seq<Seq<Draw>>) -> Seq<Draw>
    decreases chosen.len(),
{
    if chosen.len() == 0 || segs.len() == 0 {
        seq![]
    } else {
        header_draws(names, chosen.drop_last(), segs.drop_last()) + name_draw(names, chosen.last())
            + segs.last()
    }
}

/// Header line `k`: the name `chosen[k]` with the value of rotation `k`.
pub open spec fn drawn_lines(cfg: Config, chosen: Seq<Seq<u8>>, segs: Seq<Seq<Draw>>) -> Seq<Seq<u8>> {
    Seq::new(chosen.len(), |k: int| header_line(chosen[k], rotation(cfg, segs[k]).string))
}

/// Whether `segs` are whole rotations, one more than the header lines, and
/// the first of them asked for as many lines as there are.
pub open spec fn rotations_for(cfg: Config, chosen: Seq<Seq<u8>>, segs: Seq<Seq<Draw>>) -> bool {
    &&& segs.len() == chosen.len() + 1
    &&& forall|k: int| 0 <= k < segs.len() ==> completes(cfg, #[trigger] segs[k])
    &&& chosen.len() == rotation(cfg, segs[0]).header_count
}

/// The request that the draws `ds` build: a rotation, the draw of the
/// method, then for each header line the draw of its name and a rotation.
/// The request line carries the URI of the first rotation; header line `k`
/// carries the value of rotation `k`.
pub open spec fn request_drawn(
    src: RequestSources,
    host: Seq<u8>,
    segs: Seq<Seq<Draw>>,
    method: Seq<u8>,
    chosen: Seq<Seq<u8>>,
    ds: Seq<Draw>,
    req: Seq<u8>,
) -> bool {
    let cfg = config_from(src);
    &&& rotations_for(cfg, chosen, segs)
    &&& ds == segs[0] + seq![Draw::Pick { items: src.methods, item: method }] + header_draws(
        src.names,
        chosen,
        segs.skip(1),
    )
    &&& req == request_head(method, rotation(cfg, segs[0]).uri, host) + concat(drawn_lines(cfg, chosen, segs))
        + crlf()
}

/// `req` is the request that the draws `ds` build, and `last` the turn of
/// its last rotation.
pub open spec fn request_by(src: RequestSources, host: Seq<u8>, ds: Seq<Draw>, req: Seq<u8>, last: Turn) -> bool {
    exists|segs: Seq<Seq<Draw>>, method: Seq<u8>, chosen: Seq<Seq<u8>>|
        #[trigger] request_drawn(src, host, segs, method, chosen, ds, req) && last == rotation(
            config_from(src),
            segs.last(),
        )
}

/// One more header line adds its name draw and its rotation.
pub proof fn lemma_header_draws_push(
    names: Seq<Seq<u8>>,
    chosen: Seq<Seq<u8>>,
    segs: Seq<Seq<Draw>>,
    name: Seq<u8>,
    seg: Seq<Draw>,
)
    requires
        chosen.len() == segs.len(),
    ensures
        header_draws(names, chosen.push(name), segs.push(seg)) == header_draws(names, chosen, segs)
            + name_draw(names, name) + seg,
{
    assert(chosen.push(name).drop_last() =~= chosen);
    assert(segs.push(seg).drop_last() =~= segs);
}

/// One more header line, with the value of the rotation that came before it.
pub proof fn lemma_drawn_lines_push(
    cfg: Config,
    chosen: Seq<Seq<u8>>,
    segs: Seq<Seq<Draw>>,
    name: Seq<u8>,
    seg: Seq<Draw>,
)
    requires
        segs.len() == chosen.len() + 1,
    ensures
        drawn_lines(cfg, chosen.push(name), segs.push(seg)) == drawn_lines(cfg, chosen, segs).push(
            header_line(name, rotation(cfg, segs.last()).string),
        ),
{
    assert(drawn_lines(cfg, chosen.push(name), segs.push(seg)) =~= drawn_lines(cfg, chosen, segs).push(
        header_line(name, rotation(cfg, segs.last()).string),
    ));
}

/// Turns `cube` and appends one fuzzed request for `host` to `buf`.
pub fn write_request<R: RandomSource>(cube: &mut Cube, draws: &mut Draws<R>, host: &[u8], buf: &mut Vec<u8>)
    requires
        old(cube).methods@.len() > 0,
        old(cube).headers@.len() > 0 || old(cube).max_headers_count == 0,
    ensures
        sources_of(*final(cube)) == sources_of(*old(cube)),
        final(cube).headers == old(cube).headers,
        final(cube).methods == old(cube).methods,
        final(cube).wordlist == old(cube).wordlist,
        final(cube).max_headers_count == old(cube).max_headers_count,
        final(cube).is_rotated(),
        exists|req: Seq<u8>|
            #[trigger] is_request(sources_of(*old(cube)), host@, req) && final(buf)@ == old(buf)@ + req,
        extends(old(draws).made(), final(draws).made()),
        exists|req: Seq<u8>, last: Turn|
            #[trigger] request_by(sources_of(*old(cube)), host@, since(old(draws).made(), final(draws).made()), req, last)
                && final(buf)@ == old(buf)@ + req && holds_turn(last, *final(cube)),
{
    let ghost src = sources_of(*cube);
    let ghost cfg = config_from(src);
    let ghost at_start = *cube;
    let ghost start = buf@;
    let ghost d0 = draws.made();
    cube.rotate(draws);
    let ghost seg0 = since(d0, draws.made());
    let ghost d1 = draws.made();
    let method = draws.pick_list(cube.methods.as_slice());
    let ghost mpick = Draw::Pick { items: src.methods, item: method@ };
    proof {
        lemma_since_push(d0, d1, mpick);
    }
    append(buf, method);
    append(buf, " ".as_bytes());
    let ghost mut prefix: Seq<u8> = seq![];
    if !has_prefix(cube.uri.as_slice(), "/".as_bytes()) && !has_prefix(
        cube.uri.as_slice(),
        "http".as_bytes(),
    ) {
        buf.push(47u8);
        proof {
            prefix = slash();
        }
    }
    proof {
        reveal_strlit("/");
        assert(vstd::string::is_ascii("/"));
        assert("/".spec_bytes() =~= slash());
        assert(prefix == target_prefix(cube.uri@));
    }
    let ghost uri = cube.uri@;
    append(buf, cube.uri.as_slice());
    append(buf, " HTTP/1.1\r\nHost: ".as_bytes());
    append(buf, host);
    append(buf, "\r\n".as_bytes());
    let ghost head = request_head(method@, uri, host@);
    assert(buf@ =~= start + head);
    let count = cube.int_size_1;
    let ghost mut lines: Seq<Seq<u8>> = seq![];
    let ghost mut segs: Seq<Seq<Draw>> = seq![seg0];
    let ghost mut chosen: Seq<Seq<u8>> = seq![];
    proof {
        assert(segs.skip(1) =~= Seq::<Seq<Draw>>::empty());
        assert(since(d0, draws.made()) =~= segs[0] + seq![mpick] + header_draws(src.names, chosen, segs.skip(1)));
        assert(drawn_lines(cfg, chosen, segs) =~= Seq::<Seq<u8>>::empty());
    }
    let mut i: u64 = 0;
    while i < count
        invariant
            i <= count,
            header_count_outcome(src.max_headers, count as int),
            sources_of(*cube) == src,
            cfg == config_from(src),
            cube.headers == at_start.headers,
            cube.methods == at_start.methods,
            cube.wordlist == at_start.wordlist,
            cube.max_headers_count == at_start.max_headers_count,
            cube.methods@.len() > 0,
            cube.headers@.len() > 0 || cube.max_headers_count == 0,
            cube.max_headers_count == src.max_headers,
            cube.is_rotated(),
            lines.len() == i,
            forall|k: int| 0 <= k < lines.len() ==> is_fuzz_header(src.names, src.words, #[trigger] lines[k]),
            buf@ == start + head + concat(lines),
            lines == drawn_lines(cfg, chosen, segs),
            segs.len() == i + 1,
            chosen.len() == i,
            segs[0] == seg0,
            count == rotation(cfg, seg0).header_count,
            head == request_head(method@, rotation(cfg, seg0).uri, host@),
            forall|k: int| 0 <= k < segs.len() ==> completes(cfg, #[trigger] segs[k]),
            holds_turn(rotation(cfg, segs.last()), *cube),
            extends(d0, draws.made()),
            since(d0, draws.made()) == segs[0] + seq![mpick] + header_draws(src.names, chosen, segs.skip(1)),
        decreases count - i,
    {
        let ghost dn = draws.made();
        let name = draws.pick_list(cube.headers.as_slice());
        let ghost value = cube.string_1@;
        let ghost magic = cube.int_size_magic;
        write_header_line(cube, name, buf);
        let ghost dr = draws.made();
        cube.rotate(draws);
        proof {
            let seg = since(dr, draws.made());
            let prev = segs;
            let line = header_line(name@, value);
            assert(is_fuzz_header(src.names, src.words, line));
            lemma_concat_push(lines, line);
            lemma_drawn_lines_push(cfg, chosen, segs, name@, seg);
            lemma_header_draws_push(src.names, chosen, segs.skip(1), name@, seg);
            assert(segs.push(seg).skip(1) =~= segs.skip(1).push(seg));
            lemma_since(dr, draws.made());
            lemma_since_push(d0, dn, Draw::Pick { items: src.names, item: name@ });
            lemma_since_append(d0, dr, seg);
            assert(name_draw(src.names, name@) =~= seq![Draw::Pick { items: src.names, item: name@ }]);
            assert(since(d0, dn).push(Draw::Pick { items: src.names, item: name@ }) + seg
                =~= since(d0, dn) + name_draw(src.names, name@) + seg);
            lines = lines.push(line);
            segs = segs.push(seg);
            chosen = chosen.push(name@);
            assert(buf@ =~= start + head + concat(lines));
            assert(forall|k: int| 0 <= k < prev.len() ==> segs[k] == prev[k]);
            assert(completes(cfg, seg));
        }
        i = i + 1;
    }
    append(buf, "\r\n".as_bytes());
    proof {
        let req = head + concat(lines) + crlf();
        assert(buf@ =~= start + req);
        assert(request_from(src, host@, method@, uri, lines, req));
        assert(is_request(src, host@, req));
        assert(request_drawn(src, host@, segs, method@, chosen, since(d0, draws.made()), req));
        assert(request_by(src, host@, since(d0, draws.made()), req, rotation(cfg, segs.last())));
    }
}


/// The draws behind the header lines, read from the first line on.
pub proof fn lemma_header_draws_front(names: Seq<Seq<u8>>, chosen: Seq<Seq<u8>>, segs: Seq<Seq<Draw>>)
    requires
        chosen.len() == segs.len(),
        chosen.len() > 0,
    ensures
        header_draws(names, chosen, segs) == name_draw(names, chosen[0]) + segs[0] + header_draws(
            names,
            chosen.skip(1),
            segs.skip(1),
        ),
    decreases chosen.len(),
{
    if chosen.len() == 1 {
        assert(chosen.skip(1).len() == 0);
        assert(header_draws(names, chosen.drop_last(), segs.drop_last()) == Seq::<Draw>::empty());
        assert(name_draw(names, chosen[0]) + segs[0] + header_draws(names, chosen.skip(1), segs.skip(1))
            =~= name_draw(names, chosen[0]) + segs[0]);
        assert(Seq::<Draw>::empty() + name_draw(names, chosen.last()) + segs.last() =~= name_draw(names, chosen[0])
            + segs[0]);
    } else {
        let c = chosen.drop_last();
        let s = segs.drop_last();
        lemma_header_draws_front(names, c, s);
        assert(chosen.skip(1).drop_last() =~= c.skip(1));
        assert(segs.skip(1).drop_last() =~= s.skip(1));
        assert(chosen.skip(1).last() == chosen.last());
        assert(segs.skip(1).last() == segs.last());
        assert(header_draws(names, chosen, segs) =~= name_draw(names, chosen[0]) + segs[0] + header_draws(
            names,
            chosen.skip(1),
            segs.skip(1),
        ));
    }
}

/// The draws behind header lines give back the names and the rotations of
/// the lines, and what follows them.
#[verifier::spinoff_prover]
#[verifier::rlimit(60)]
pub proof fn lemma_headers_unique(
    cfg: Config,
    names: Seq<Seq<u8>>,
    c1: Seq<Seq<u8>>,
    s1: Seq<Seq<Draw>>,
    t1: Seq<Draw>,
    c2: Seq<Seq<u8>>,
    s2: Seq<Seq<Draw>>,
    t2: Seq<Draw>,
)
    requires
        c1.len() == s1.len(),
        c2.len() == s2.len(),
        c1.len() == c2.len(),
        forall|k: int| 0 <= k < s1.len() ==> completes(cfg, #[trigger] s1[k]),
        forall|k: int| 0 <= k < s2.len() ==> completes(cfg, #[trigger] s2[k]),
        names.len() > 0 || c1 == c2,
        header_draws(names, c1, s1) + t1 == header_draws(names, c2, s2) + t2,
    ensures
        c1 == c2,
        s1 == s2,
        t1 == t2,
    decreases c1.len(),
{
    if c1.len() == 0 {
        assert(c1 =~= c2);
        assert(s1 =~= s2);
        assert(header_draws(names, c1, s1) + t1 =~= t1);
        assert(header_draws(names, c2, s2) + t2 =~= t2);
    } else {
        lemma_header_draws_front(names, c1, s1);
        lemma_header_draws_front(names, c2, s2);
        let r1 = header_draws(names, c1.skip(1), s1.skip(1)) + t1;
        let r2 = header_draws(names, c2.skip(1), s2.skip(1)) + t2;
        let n1 = name_draw(names, c1[0]);
        let n2 = name_draw(names, c2[0]);
        assert(n1 + (s1[0] + r1) =~= header_draws(names, c1, s1) + t1);
        assert(n2 + (s2[0] + r2) =~= header_draws(names, c2, s2) + t2);
        if names.len() > 0 {
            assert((n1 + (s1[0] + r1))[0] == (n2 + (s2[0] + r2))[0]);
            assert(c1[0] == c2[0]);
        }
        assert(n1 == n2);
        assert(s1[0] + r1 =~= (n1 + (s1[0] + r1)).skip(n1.len() as int));
        assert(s2[0] + r2 =~= (n2 + (s2[0] + r2)).skip(n2.len() as int));
        lemma_rotations_prefix_free(cfg, s1[0], s2[0], r1, r2);
        assert(names.len() > 0 || c1.skip(1) == c2.skip(1));
        lemma_headers_unique(cfg, names, c1.skip(1), s1.skip(1), t1, c2.skip(1), s2.skip(1), t2);
        assert(c1 =~= c2) by {
            assert forall|k: int| 0 <= k < c1.len() implies c1[k] == c2[k] by {
                if k > 0 {
                    assert(c1.skip(1)[k - 1] == c2.skip(1)[k - 1]);
                }
            }
        }
        assert(s1 =~= s2) by {
            assert forall|k: int| 0 <= k < s1.len() implies s1[k] == s2[k] by {
                if k > 0 {
                    assert(s1.skip(1)[k - 1] == s2.skip(1)[k - 1]);
                }
            }
        }
    }
}

/// Replaying a request: the same sources, host and draws give the same
/// request, and leave the cube at the same last rotation.
#[verifier::spinoff_prover]
#[verifier::rlimit(60)]
pub proof fn lemma_request_replays(
    src: RequestSources,
    host: Seq<u8>,
    ds: Seq<Draw>,
    req1: Seq<u8>,
    last1: Turn,
    req2: Seq<u8>,
    last2: Turn,
)
    requires
        src.names.len() > 0 || src.max_headers == 0,
        request_by(src, host, ds, req1, last1),
        request_by(src, host, ds, req2, last2),
    ensures
        req1 == req2,
        last1 == last2,
{
    let cfg = config_from(src);
    let (segs1, m1, c1) = choose|segs: Seq<Seq<Draw>>, method: Seq<u8>, chosen: Seq<Seq<u8>>|
        #[trigger] request_drawn(src, host, segs, method, chosen, ds, req1) && last1 == rotation(cfg, segs.last());
    let (segs2, m2, c2) = choose|segs: Seq<Seq<Draw>>, method: Seq<u8>, chosen: Seq<Seq<u8>>|
        #[trigger] request_drawn(src, host, segs, method, chosen, ds, req2) && last2 == rotation(cfg, segs.last());
    let h1 = header_draws(src.names, c1, segs1.skip(1));
    let h2 = header_draws(src.names, c2, segs2.skip(1));
    let p1 = Draw::Pick { items: src.methods, item: m1 };
    let p2 = Draw::Pick { items: src.methods, item: m2 };
    assert(segs1[0] + (seq![p1] + h1) =~= ds);
    assert(segs2[0] + (seq![p2] + h2) =~= ds);
    assert(completes(cfg, segs1[0]) && completes(cfg, segs2[0]));
    lemma_rotations_prefix_free(cfg, segs1[0], segs2[0], seq![p1] + h1, seq![p2] + h2);
    assert((seq![p1] + h1)[0] == (seq![p2] + h2)[0]);
    assert(m1 == m2);
    assert(h1 + Seq::<Draw>::empty() =~= (seq![p1] + h1).skip(1));
    assert(h2 + Seq::<Draw>::empty() =~= (seq![p2] + h2).skip(1));
    if src.names.len() == 0 {
        lemma_header_count_kept(cfg, start(cfg), segs1[0]);
        assert(c1 =~= c2);
    }
    assert forall|k: int| 0 <= k < segs1.skip(1).len() implies completes(cfg, #[trigger] segs1.skip(1)[k]) by {
        assert(completes(cfg, segs1[k + 1]));
    }
    assert forall|k: int| 0 <= k < segs2.skip(1).len() implies completes(cfg, #[trigger] segs2.skip(1)[k]) by {
        assert(completes(cfg, segs2[k + 1]));
    }
    lemma_headers_unique(
        cfg,
        src.names,
        c1,
        segs1.skip(1),
        Seq::<Draw>::empty(),
        c2,
        segs2.skip(1),
        Seq::<Draw>::empty(),
    );
    assert(segs1 =~= segs2) by {
        assert forall|k: int| 0 <= k < segs1.len() implies segs1[k] == segs2[k] by {
            if k > 0 {
                assert(segs1.skip(1)[k - 1] == segs2.skip(1)[k - 1]);
            }
        }
    }
}

pub open spec fn batch_from(src: RequestSources, host: Seq<u8>, n: nat, reqs: Seq<Seq<u8>>, out: Seq<u8>) -> bool {
    &&& reqs.len() == n
    &&& forall|i: int| 0 <= i < reqs.len() ==> is_request(src, host, #[trigger] reqs[i])
    &&& out == concat(reqs)
}

/// The draws of several stretches, first to last.
pub open spec fn joined(dss: Seq<Seq<Draw>>) -> Seq<Draw>
    decreases dss.len(),
{
    if dss.len() == 0 {
        seq![]
    } else {
        joined(dss.drop_last()) + dss.last()
    }
}

/// Request `i` is the one that the draws `dss[i]` build, and `lasts[i]` is
/// the turn of its last rotation.
pub open spec fn batch_by(
    src: RequestSources,
    host: Seq<u8>,
    dss: Seq<Seq<Draw>>,
    reqs: Seq<Seq<u8>>,
    lasts: Seq<Turn>,
) -> bool {
    &&& dss.len() == reqs.len()
    &&& lasts.len() == reqs.len()
    &&& forall|i: int| 0 <= i < reqs.len() ==> #[trigger] request_by(src, host, dss[i], reqs[i], lasts[i])
}

/// One more request in a batch.
pub proof fn lemma_batch_push(
    src: RequestSources,
    host: Seq<u8>,
    dss: Seq<Seq<Draw>>,
    reqs: Seq<Seq<u8>>,
    lasts: Seq<Turn>,
    ds: Seq<Draw>,
    req: Seq<u8>,
    last: Turn,
)
    requires
        batch_by(src, host, dss, reqs, lasts),
        request_by(src, host, ds, req, last),
    ensures
        batch_by(src, host, dss.push(ds), reqs.push(req), lasts.push(last)),
        joined(dss.push(ds)) == joined(dss) + ds,
{
    assert(dss.push(ds).drop_last() =~= dss);
    assert forall|k: int| 0 <= k < reqs.len() + 1 implies #[trigger] request_by(
        src,
        host,
        dss.push(ds)[k],
        reqs.push(req)[k],
        lasts.push(last)[k],
    ) by {
        if k < reqs.len() {
            assert(request_by(src, host, dss[k], reqs[k], lasts[k]));
        }
    }
}

/// Turns `cube` and appends `batch_size` fuzzed requests for `host` to `buf`.
#[verifier::rlimit(60)]
pub fn write_batch<R: RandomSource>(
    cube: &mut Cube,
    draws: &mut Draws<R>,
    host: &[u8],
    batch_size: usize,
    buf: &mut Vec<u8>,
)
    requires
        old(cube).methods@.len() > 0,
        old(cube).headers@.len() > 0 || old(cube).max_headers_count == 0,
    ensures
        final(cube).headers == old(cube).headers,
        final(cube).methods == old(cube).methods,
        final(cube).wordlist == old(cube).wordlist,
        final(cube).max_headers_count == old(cube).max_headers_count,
        batch_size > 0 ==> final(cube).is_rotated(),
        exists|reqs: Seq<Seq<u8>>, out: Seq<u8>|
            #[trigger] batch_from(sources_of(*old(cube)), host@, batch_size as nat, reqs, out)
                && final(buf)@ == old(buf)@ + out,
        extends(old(draws).made(), final(draws).made()),
        exists|dss: Seq<Seq<Draw>>, reqs: Seq<Seq<u8>>, lasts: Seq<Turn>|
            #[trigger] batch_by(sources_of(*old(cube)), host@, dss, reqs, lasts) && reqs.len() == batch_size
                && since(old(draws).made(), final(draws).made()) == joined(dss) && final(buf)@ == old(buf)@
                + concat(reqs) && (batch_size > 0 ==> holds_turn(lasts.last(), *final(cube))),
{
    let ghost src = sources_of(*cube);
    let ghost at_start = *cube;
    let ghost start = buf@;
    let ghost d0 = draws.made();
    let ghost mut reqs: Seq<Seq<u8>> = seq![];
    let ghost mut dss: Seq<Seq<Draw>> = seq![];
    let ghost mut lasts: Seq<Turn> = seq![];
    proof {
        lemma_no_draw_yet(d0);
    }
    let mut i: usize = 0;
    while i < batch_size
        invariant
            i <= batch_size,
            sources_of(*cube) == src,
            cube.headers == at_start.headers,
            cube.methods == at_start.methods,
            cube.wordlist == at_start.wordlist,
            cube.max_headers_count == at_start.max_headers_count,
            cube.methods@.len() > 0,
            cube.headers@.len() > 0 || cube.max_headers_count == 0,
            reqs.len() == i,
            i > 0 ==> cube.is_rotated(),
            forall|k: int| 0 <= k < reqs.len() ==> is_request(src, host@, #[trigger] reqs[k]),
            buf@ == start + concat(reqs),
            batch_by(src, host@, dss, reqs, lasts),
            extends(d0, draws.made()),
            since(d0, draws.made()) == joined(dss),
            i > 0 ==> holds_turn(lasts.last(), *cube),
        decreases batch_size - i,
    {
        let ghost before = buf@;
        let ghost dm = draws.made();
        write_request(cube, draws, host, buf);
        proof {
            let req = choose|req: Seq<u8>| #[trigger] is_request(src, host@, req) && buf@ == before + req;
            let (req2, last) = choose|req2: Seq<u8>, last: Turn|
                #[trigger] request_by(src, host@, since(dm, draws.made()), req2, last) && buf@ == before + req2
                    && holds_turn(last, *cube);
            assert(req =~= buf@.skip(before.len() as int));
            assert(req2 =~= buf@.skip(before.len() as int));
            let ds = since(dm, draws.made());
            lemma_since(dm, draws.made());
            lemma_since_append(d0, dm, ds);
            lemma_batch_push(src, host@, dss, reqs, lasts, ds, req, last);
            lemma_concat_push(reqs, req);
            reqs = reqs.push(req);
            dss = dss.push(ds);
            lasts = lasts.push(last);
            assert(buf@ =~= start + concat(reqs));
        }
        i = i + 1;
    }
    proof {
        assert(batch_from(src, host@, batch_size as nat, reqs, concat(reqs)));
    }
}

/// The URI of every request follows the method directly: a URI that
/// `rotate` leaves already begins with a slash.
pub proof fn lemma_no_added_slash(words: Seq<Seq<u8>>, uri: Seq<u8>)
    requires
        uri_outcome(words, uri),
    ensures
        target_prefix(uri) == Seq::<u8>::empty(),
{
    lemma_uri_outcome_shape(words, uri);
    assert(uri.take(1) =~= slash());
}

/// The header name of a response when there is no header name to draw.
pub open spec fn fallback_header() -> Seq<u8> {
    "X-Fuzz".spec_bytes()
}

/// A response header line: a drawn name (or the fallback name) and a value
/// that `rotate` may leave.
pub open spec fn is_response_header(names: Seq<Seq<u8>>, words: Seq<Seq<u8>>, line: Seq<u8>) -> bool {
    exists|name: Seq<u8>, magic: u64, value: Seq<u8>|
        #![trigger header_line(name, value), string_outcome(magic, words, value)]
        (if names.len() > 0 { names.contains(name) } else { name == fallback_header() })
            && magic_number_values().contains(magic) && string_outcome(magic, words, value) && line
            == header_line(name, value)
}

/// The status line of a response.
pub open spec fn status_line(version: Seq<u8>, code: Seq<u8>) -> Seq<u8> {
    "HTTP/".spec_bytes() + version + " ".spec_bytes() + code + " OK\r\n".spec_bytes()
}

/// What follows the header lines of a response.
pub open spec fn response_tail() -> Seq<u8> {
    "\r\n\r\n".spec_bytes() + "A\r\n".spec_bytes()
}

pub open spec fn response_from(
    src: RequestSources,
    version: Seq<u8>,
    code: Seq<u8>,
    lines: Seq<Seq<u8>>,
    resp: Seq<u8>,
) -> bool {
    &&& text_bytes(http_version_texts()).contains(version)
    &&& text_bytes(http_code_texts()).contains(code)
    &&& header_count_outcome(src.max_headers, lines.len() as int)
    &&& forall|i: int| 0 <= i < lines.len() ==> is_response_header(src.names, src.words, #[trigger] lines[i])
    &&& resp == status_line(version, code) + concat(lines) + response_tail()
}

/// A response that the server may send.
pub open spec fn is_response(src: RequestSources, resp: Seq<u8>) -> bool {
    exists|version: Seq<u8>, code: Seq<u8>, lines: Seq<Seq<u8>>| #[trigger]
        response_from(src, version, code, lines, resp)
}

/// The response that the draws `ds` build: a rotation, the draws of the
/// version and of the status code, then for each header line the draw of its
/// name (none when there is no name to draw: the name is then the fallback)
/// and a rotation. Header line `k` carries the value of rotation `k`.
pub open spec fn response_drawn(
    src: RequestSources,
    segs: Seq<Seq<Draw>>,
    version: Seq<u8>,
    code: Seq<u8>,
    chosen: Seq<Seq<u8>>,
    ds: Seq<Draw>,
    resp: Seq<u8>,
) -> bool {
    let cfg = config_from(src);
    &&& rotations_for(cfg, chosen, segs)
    &&& src.names.len() == 0 ==> forall|k: int| 0 <= k < chosen.len() ==> #[trigger] chosen[k] == fallback_header()
    &&& ds == segs[0] + seq![
        Draw::Pick { items: text_bytes(http_version_texts()), item: version },
        Draw::Pick { items: text_bytes(http_code_texts()), item: code },
    ] + header_draws(src.names, chosen, segs.skip(1))
    &&& resp == status_line(version, code) + concat(drawn_lines(cfg, chosen, segs)) + response_tail()
}

/// `resp` is the response that the draws `ds` build, and `last` the turn of
/// its last rotation.
pub open spec fn response_by(src: RequestSources, ds: Seq<Draw>, resp: Seq<u8>, last: Turn) -> bool {
    exists|segs: Seq<Seq<Draw>>, version: Seq<u8>, code: Seq<u8>, chosen: Seq<Seq<u8>>|
        #[trigger] response_drawn(src, segs, version, code, chosen, ds, resp) && last == rotation(
            config_from(src),
            segs.last(),
        )
}

/// Replaying a response: the same sources and draws give the same response,
/// and leave the cube at the same last rotation.
#[verifier::spinoff_prover]
#[verifier::rlimit(60)]
pub proof fn lemma_response_replays(
    src: RequestSources,
    ds: Seq<Draw>,
    resp1: Seq<u8>,
    last1: Turn,
    resp2: Seq<u8>,
    last2: Turn,
)
    requires
        response_by(src, ds, resp1, last1),
        response_by(src, ds, resp2, last2),
    ensures
        resp1 == resp2,
        last1 == last2,
{
    let cfg = config_from(src);
    let (segs1, v1, k1, c1) = choose|segs: Seq<Seq<Draw>>, version: Seq<u8>, code: Seq<u8>, chosen: Seq<Seq<u8>>|
        #[trigger] response_drawn(src, segs, version, code, chosen, ds, resp1) && last1 == rotation(cfg, segs.last());
    let (segs2, v2, k2, c2) = choose|segs: Seq<Seq<Draw>>, version: Seq<u8>, code: Seq<u8>, chosen: Seq<Seq<u8>>|
        #[trigger] response_drawn(src, segs, version, code, chosen, ds, resp2) && last2 == rotation(cfg, segs.last());
    let h1 = header_draws(src.names, c1, segs1.skip(1));
    let h2 = header_draws(src.names, c2, segs2.skip(1));
    let p1 = seq![
        Draw::Pick { items: text_bytes(http_version_texts()), item: v1 },
        Draw::Pick { items: text_bytes(http_code_texts()), item: k1 },
    ];
    let p2 = seq![
        Draw::Pick { items: text_bytes(http_version_texts()), item: v2 },
        Draw::Pick { items: text_bytes(http_code_texts()), item: k2 },
    ];
    assert(segs1[0] + (p1 + h1) =~= ds);
    assert(segs2[0] + (p2 + h2) =~= ds);
    assert(completes(cfg, segs1[0]) && completes(cfg, segs2[0]));
    lemma_rotations_prefix_free(cfg, segs1[0], segs2[0], p1 + h1, p2 + h2);
    assert((p1 + h1)[0] == (p2 + h2)[0]);
    assert((p1 + h1)[1] == (p2 + h2)[1]);
    assert(v1 == v2 && k1 == k2);
    assert(h1 + Seq::<Draw>::empty() =~= (p1 + h1).skip(2));
    assert(h2 + Seq::<Draw>::empty() =~= (p2 + h2).skip(2));
    if src.names.len() == 0 {
        assert(c1 =~= c2) by {
            assert forall|k: int| 0 <= k < c1.len() implies c1[k] == c2[k] by {
                assert(c1[k] == fallback_header());
                assert(c2[k] == fallback_header());
            }
        }
    }
    assert forall|k: int| 0 <= k < segs1.skip(1).len() implies completes(cfg, #[trigger] segs1.skip(1)[k]) by {
        assert(completes(cfg, segs1[k + 1]));
    }
    assert forall|k: int| 0 <= k < segs2.skip(1).len() implies completes(cfg, #[trigger] segs2.skip(1)[k]) by {
        assert(completes(cfg, segs2[k + 1]));
    }
    lemma_headers_unique(
        cfg,
        src.names,
        c1,
        segs1.skip(1),
        Seq::<Draw>::empty(),
        c2,
        segs2.skip(1),
        Seq::<Draw>::empty(),
    );
    assert(segs1 =~= segs2) by {
        assert forall|k: int| 0 <= k < segs1.len() implies segs1[k] == segs2[k] by {
            if k > 0 {
                assert(segs1.skip(1)[k - 1] == segs2.skip(1)[k - 1]);
            }
        }
    }
}

/// Turns `cube` and appends one fuzzed response to `buf`.
pub fn write_response<R: RandomSource>(cube: &mut Cube, draws: &mut Draws<R>, buf: &mut Vec<u8>)
    ensures
        final(cube).headers == old(cube).headers,
        final(cube).methods == old(cube).methods,
        final(cube).wordlist == old(cube).wordlist,
        final(cube).max_headers_count == old(cube).max_headers_count,
        final(cube).is_rotated(),
        exists|resp: Seq<u8>| #[trigger] is_response(sources_of(*old(cube)), resp) && final(buf)@ == old(buf)@ + resp,
        extends(old(draws).made(), final(draws).made()),
        exists|resp: Seq<u8>, last: Turn|
            #[trigger] response_by(sources_of(*old(cube)), since(old(draws).made(), final(draws).made()), resp, last)
                && final(buf)@ == old(buf)@ + resp && holds_turn(last, *final(cube)),
{
    let ghost src = sources_of(*cube);
    let ghost cfg = config_from(src);
    let ghost at_start = *cube;
    let ghost start = buf@;
    let ghost d0 = draws.made();
    cube.rotate(draws);
    let ghost seg0 = since(d0, draws.made());
    let versions = http_versions();
    let codes = http_codes();
    let ghost d1 = draws.made();
    let version = draws.pick_text(&versions);
    let ghost d2 = draws.made();
    let code = draws.pick_text(&codes);
    let ghost vpick = Draw::Pick { items: text_bytes(http_version_texts()), item: version@ };
    let ghost cpick = Draw::Pick { items: text_bytes(http_code_texts()), item: code@ };
    proof {
        lemma_since_push(d0, d1, vpick);
        lemma_since_push(d0, d2, cpick);
        assert(seg0.push(vpick).push(cpick) =~= seg0 + seq![vpick, cpick]);
    }
    append(buf, "HTTP/".as_bytes());
    append(buf, version);
    append(buf, " ".as_bytes());
    append(buf, code);
    append(buf, " OK\r\n".as_bytes());
    let ghost head = status_line(version@, code@);
    assert(buf@ =~= start + head);
    let count = cube.int_size_1;
    let ghost mut lines: Seq<Seq<u8>> = seq![];
    let ghost mut segs: Seq<Seq<Draw>> = seq![seg0];
    let ghost mut chosen: Seq<Seq<u8>> = seq![];
    proof {
        assert(segs.skip(1) =~= Seq::<Seq<Draw>>::empty());
        assert(drawn_lines(cfg, chosen, segs) =~= Seq::<Seq<u8>>::empty());
    }
    let mut i: u64 = 0;
    while i < count
        invariant
            i <= count,
            header_count_outcome(src.max_headers, count as int),
            sources_of(*cube) == src,
            cfg == config_from(src),
            cube.headers == at_start.headers,
            cube.methods == at_start.methods,
            cube.wordlist == at_start.wordlist,
            cube.max_headers_count == at_start.max_headers_count,
            cube.is_rotated(),
            lines.len() == i,
            forall|k: int| 0 <= k < lines.len() ==> is_response_header(src.names, src.words, #[trigger] lines[k]),
            buf@ == start + head + concat(lines),
            lines == drawn_lines(cfg, chosen, segs),
            segs.len() == i + 1,
            chosen.len() == i,
            segs[0] == seg0,
            count == rotation(cfg, seg0).header_count,
            src.names.len() == 0 ==> forall|k: int| 0 <= k < chosen.len() ==> #[trigger] chosen[k] == fallback_header(),
            forall|k: int| 0 <= k < segs.len() ==> completes(cfg, #[trigger] segs[k]),
            holds_turn(rotation(cfg, segs.last()), *cube),
            extends(d0, draws.made()),
            since(d0, draws.made()) == segs[0] + seq![vpick, cpick] + header_draws(src.names, chosen, segs.skip(1)),
        decreases count - i,
    {
        let ghost value = cube.string_1@;
        let ghost magic = cube.int_size_magic;
        let ghost dn = draws.made();
        let ghost mut name_bytes: Seq<u8> = seq![];
        if cube.headers.len() > 0 {
            let n = draws.pick_list(cube.headers.as_slice());
            write_header_line(cube, n, buf);
            proof {
                name_bytes = n@;
                lemma_since_push(d0, dn, Draw::Pick { items: src.names, item: n@ });
                assert(name_draw(src.names, n@) =~= seq![Draw::Pick { items: src.names, item: n@ }]);
                assert(since(d0, dn).push(Draw::Pick { items: src.names, item: n@ }) =~= since(d0, dn)
                    + name_draw(src.names, n@));
            }
        } else {
            write_header_line(cube, "X-Fuzz".as_bytes(), buf);
            proof {
                name_bytes = fallback_header();
                assert(since(d0, dn) + name_draw(src.names, name_bytes) =~= since(d0, dn));
            }
        }
        let ghost dr = draws.made();
        cube.rotate(draws);
        proof {
            let seg = since(dr, draws.made());
            let prev = segs;
            let prev_chosen = chosen;
            let line = header_line(name_bytes, value);
            assert(is_response_header(src.names, src.words, line));
            lemma_concat_push(lines, line);
            lemma_drawn_lines_push(cfg, chosen, segs, name_bytes, seg);
            lemma_header_draws_push(src.names, chosen, segs.skip(1), name_bytes, seg);
            assert(segs.push(seg).skip(1) =~= segs.skip(1).push(seg));
            lemma_since(dr, draws.made());
            lemma_since_append(d0, dr, seg);
            lines = lines.push(line);
            segs = segs.push(seg);
            chosen = chosen.push(name_bytes);
            assert(buf@ =~= start + head + concat(lines));
            assert(forall|k: int| 0 <= k < prev.len() ==> segs[k] == prev[k]);
            assert(forall|k: int| 0 <= k < prev_chosen.len() ==> chosen[k] == prev_chosen[k]);
            assert(completes(cfg, seg));
        }
        i = i + 1;
    }
    append(buf, "\r\n\r\n".as_bytes());
    append(buf, "A\r\n".as_bytes());
    proof {
        let resp = head + concat(lines) + response_tail();
        assert(buf@ =~= start + resp);
        assert(response_from(src, version@, code@, lines, resp));
        assert(is_response(src, resp));
        assert(response_drawn(src, segs, version@, code@, chosen, since(d0, draws.made()), resp));
        assert(response_by(src, since(d0, draws.made()), resp, rotation(cfg, segs.last())));
    }
}

/// Whether `c` is white space, as `char::is_whitespace` has it (the Unicode
/// `White_Space` property).
pub open spec fn is_white_space(c: char) -> bool {
    ||| '\t' <= c <= '\r'
    ||| c == ' '
    ||| c == '\u{85}'
    ||| c == '\u{a0}'
    ||| c == '\u{1680}'
    ||| '\u{2000}' <= c <= '\u{200a}'
    ||| c == '\u{2028}'
    ||| c == '\u{2029}'
    ||| c == '\u{202f}'
    ||| c == '\u{205f}'
    ||| c == '\u{3000}'
}

pub fn white_space(c: char) -> (r: bool)
    ensures
        r == is_white_space(c),
{
    ('\t' <= c && c <= '\r') || c == ' ' || c == '\u{85}' || c == '\u{a0}' || c == '\u{1680}' || (
    '\u{2000}' <= c && c <= '\u{200a}') || c == '\u{2028}' || c == '\u{2029}' || c == '\u{202f}'
        || c == '\u{205f}' || c == '\u{3000}'
}

/// The first position at or after `i` that holds no white space.
pub open spec fn skip_white(s: Seq<char>, i: int) -> int
    decreases s.len() - i,
{
    if i < 0 || i >= s.len() || !is_white_space(s[i]) {
        i
    } else {
        skip_white(s, i + 1)
    }
}

/// The first position at or after `i` that holds white space.
pub open spec fn word_end(s: Seq<char>, i: int) -> int
    decreases s.len() - i,
{
    if i < 0 || i >= s.len() || is_white_space(s[i]) {
        i
    } else {
        word_end(s, i + 1)
    }
}

/// The start of an HTTP/1.x status line.
pub open spec fn status_prefix(minor: char) -> Seq<char> {
    seq!['H', 'T', 'T', 'P', '/', '1', '.', minor, ' ']
}

/// The status code of a response line: the second whitespace-separated
/// word of a line that starts with `HTTP/1.1 ` or `HTTP/1.0 `.
pub open spec fn status_code_of(line: Seq<char>) -> Option<Seq<char>> {
    if line.len() >= 9 && (line.take(9) == status_prefix('1') || line.take(9) == status_prefix('0')) {
        let start = skip_white(line, 9);
        if start < line.len() {
            Some(line.subrange(start, word_end(line, start)))
        } else {
            None
        }
    } else {
        None
    }
}

/// The status code of a response line, if it is an HTTP/1.x status line
/// with a code.
pub fn status_code(line: &[char]) -> (r: Option<Vec<char>>)
    ensures
        match r {
            Some(code) => status_code_of(line@) == Some(code@),
            None => status_code_of(line@).is_none(),
        },
{
    let n = line.len();
    if n < 9 {
        return None;
    }
    let is_status = line[0] == 'H' && line[1] == 'T' && line[2] == 'T' && line[3] == 'P' && line[4]
        == '/' && line[5] == '1' && line[6] == '.' && (line[7] == '1' || line[7] == '0') && line[8]
        == ' ';
    proof {
        let t = line@.take(9);
        if is_status {
            assert(t =~= status_prefix(line@[7]));
        } else {
            if t == status_prefix('1') {
                assert(t[7] == '1');
            }
            if t == status_prefix('0') {
                assert(t[7] == '0');
            }
        }
    }
    if !is_status {
        return None;
    }
    let mut start: usize = 9;
    while start < n && white_space(line[start])
        invariant
            9 <= start <= n,
            n == line@.len(),
            skip_white(line@, start as int) == skip_white(line@, 9),
        decreases n - start,
    {
        start = start + 1;
    }
    if start >= n {
        return None;
    }
    let mut end: usize = start;
    let mut code: Vec<char> = Vec::new();
    while end < n && !white_space(line[end])
        invariant
            start <= end <= n,
            n == line@.len(),
            word_end(line@, end as int) == word_end(line@, start as int),
            code@ == line@.subrange(start as int, end as int),
        decreases n - end,
    {
        code.push(line[end]);
        end = end + 1;
        proof {
            assert(code@ =~= line@.subrange(start as int, end as int));
        }
    }
    Some(code)
}

/// Whether `cubes[k + 1]` is what `rotate` leaves of `cubes[k]` when it
/// makes the draws `segs[k]`.
pub open spec fn rotates_to(cubes: Seq<Cube>, segs: Seq<Seq<Draw>>, k: int) -> bool {
    rotated_by(cubes[k], segs[k], cubes[k + 1])
}

/// Cubes that rotate one into the next keep the words and the header limit.
pub proof fn lemma_rotations_keep_config(cubes: Seq<Cube>, segs: Seq<Seq<Draw>>, k: int)
    requires
        cubes.len() == segs.len() + 1,
        forall|i: int| 0 <= i < segs.len() ==> #[trigger] rotates_to(cubes, segs, i),
        0 <= k < cubes.len(),
    ensures
        config_of(cubes[k]) == config_of(cubes[0]),
    decreases k,
{
    if k > 0 {
        lemma_rotations_keep_config(cubes, segs, k - 1);
        assert(rotates_to(cubes, segs, k - 1));
    }
}

/// Each header line of a request carries the value that `rotate` leaves
/// right before it: when the rotations of a request take `cubes[0]` to
/// `cubes[1]`, `cubes[1]` to `cubes[2]`, and so on, the request line carries
/// the URI of `cubes[1]` and header line `k` the value of `cubes[k + 1]`.
pub proof fn lemma_request_lines_follow_rotations(
    src: RequestSources,
    host: Seq<u8>,
    segs: Seq<Seq<Draw>>,
    method: Seq<u8>,
    chosen: Seq<Seq<u8>>,
    ds: Seq<Draw>,
    req: Seq<u8>,
    cubes: Seq<Cube>,
)
    requires
        request_drawn(src, host, segs, method, chosen, ds, req),
        cubes.len() == segs.len() + 1,
        config_of(cubes[0]) == config_from(src),
        forall|i: int| 0 <= i < segs.len() ==> #[trigger] rotates_to(cubes, segs, i),
    ensures
        req == request_head(method, cubes[1].uri@, host) + concat(
            Seq::new(chosen.len(), |k: int| header_line(chosen[k], cubes[k + 1].string_1@)),
        ) + crlf(),
{
    let cfg = config_from(src);
    assert forall|k: int| 0 <= k < segs.len() implies rotation(cfg, segs[k]).string == cubes[k + 1].string_1@
        && rotation(cfg, segs[k]).uri == cubes[k + 1].uri@ by {
        lemma_rotations_keep_config(cubes, segs, k);
        assert(rotates_to(cubes, segs, k));
    }
    assert(drawn_lines(cfg, chosen, segs) =~= Seq::new(
        chosen.len(),
        |k: int| header_line(chosen[k], cubes[k + 1].string_1@),
    ));
}

/// Each header line of a response carries the value that `rotate` leaves
/// right before it: header line `k` carries the value of `cubes[k + 1]`.
pub proof fn lemma_response_lines_follow_rotations(
    src: RequestSources,
    segs: Seq<Seq<Draw>>,
    version: Seq<u8>,
    code: Seq<u8>,
    chosen: Seq<Seq<u8>>,
    ds: Seq<Draw>,
    resp: Seq<u8>,
    cubes: Seq<Cube>,
)
    requires
        response_drawn(src, segs, version, code, chosen, ds, resp),
        cubes.len() == segs.len() + 1,
        config_of(cubes[0]) == config_from(src),
        forall|i: int| 0 <= i < segs.len() ==> #[trigger] rotates_to(cubes, segs, i),
    ensures
        resp == status_line(version, code) + concat(
            Seq::new(chosen.len(), |k: int| header_line(chosen[k], cubes[k + 1].string_1@)),
        ) + response_tail(),
{
    let cfg = config_from(src);
    assert forall|k: int| 0 <= k < segs.len() implies rotation(cfg, segs[k]).string == cubes[k + 1].string_1@ by {
        lemma_rotations_keep_config(cubes, segs, k);
        assert(rotates_to(cubes, segs, k));
    }
    assert(drawn_lines(cfg, chosen, segs) =~= Seq::new(
        chosen.len(),
        |k: int| header_line(chosen[k], cubes[k + 1].string_1@),
    ));
}

/// White space from `i` up to `k`, and none at `k`, is skipped to `k`.
pub proof fn lemma_skip_white_to(s: Seq<char>, i: int, k: int)
    requires
        0 <= i <= k <= s.len(),
        forall|j: int| i <= j < k ==> #[trigger] is_white_space(s[j]),
        k == s.len() || !is_white_space(s[k]),
    ensures
        skip_white(s, i) == k,
    decreases k - i,
{
    if i < k {
        lemma_skip_white_to(s, i + 1, k);
    }
}

/// A word from `i` up to `k`, followed by white space or the end, ends at
/// `k`.
pub proof fn lemma_word_end_at(s: Seq<char>, i: int, k: int)
    requires
        0 <= i <= k <= s.len(),
        forall|j: int| i <= j < k ==> !#[trigger] is_white_space(s[j]),
        k == s.len() || is_white_space(s[k]),
    ensures
        word_end(s, i) == k,
    decreases k - i,
{
    if i < k {
        lemma_word_end_at(s, i + 1, k);
    }
}

/// The code of an HTTP/1.0 or HTTP/1.1 status line is its second word:
/// after `HTTP/1.x `, any white space, then a word with no white space, the
/// word is the code, whether the line ends right after it or goes on with
/// white space and more.
pub proof fn lemma_status_code_is_second_word(minor: char, gap: Seq<char>, code: Seq<char>, rest: Seq<char>)
    requires
        minor == '0' || minor == '1',
        forall|j: int| 0 <= j < gap.len() ==> #[trigger] is_white_space(gap[j]),
        code.len() > 0,
        forall|j: int| 0 <= j < code.len() ==> !#[trigger] is_white_space(code[j]),
        rest.len() == 0 || is_white_space(rest[0]),
    ensures
        status_code_of(status_prefix(minor) + gap + code + rest) == Some(code),
{
    let line = status_prefix(minor) + gap + code + rest;
    let a: int = 9 + gap.len() as int;
    let b: int = a + code.len() as int;
    assert(line.take(9) =~= status_prefix(minor));
    assert forall|j: int| 9 <= j < a implies #[trigger] is_white_space(line[j]) by {
        assert(line[j] == gap[j - 9]);
    }
    assert(line[a] == code[0]);
    lemma_skip_white_to(line, 9, a);
    assert forall|j: int| a <= j < b implies !#[trigger] is_white_space(line[j]) by {
        assert(line[j] == code[j - a]);
    }
    if rest.len() > 0 {
        assert(line[b] == rest[0]);
    }
    lemma_word_end_at(line, a, b);
    assert(line.subrange(a, b) =~= code);
}

} // verus!
