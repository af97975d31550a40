//! The cube: the fuzzing state that every request and response draws from,
//! and `rotate`, which turns it to a fresh random state.
use std::sync::Arc;
use vstd::prelude::*;
use vstd::string::StringSliceAdditionalSpecFns;
use crate::bytes::{append, cap, capped, concat, lemma_concat_push, push_repeated, repeated};
use crate::draws::{byte_lists, extends, lemma_no_draw_yet, lemma_since, since, Draw, Draws};
use crate::rng::RandomSource;
use crate::rotation::{
    after_pair, after_separator, chaos_after, extend_after, grow, lemma_chain, lemma_draw_step, lemma_run_after_done,
    lemma_run_concat, magic_after,
    pair_count, rotation, run, start, string_done, string_strategy, uri_done, uri_strategy, Config, Phase,
    Turn,
};
use crate::tables::{
    is_magic_payload, is_magic_string, is_printable, is_separator, magic_number_values, magic_numbers,
    magic_payloads, magic_strings, nginx_methods, nginx_method_texts, printables, separators,
    text_bytes, lemma_magic_string_len,
};

verus! {

broadcast use vstd::string::group_string_axioms;

/// The longest value that `rotate` leaves in `string_1`.
pub const STRING_CAP: usize = 131072;

/// The longest URI that `rotate` leaves in `uri`.
pub const URI_CAP: usize = 128;

/// The number of draws after which the URI growing loop gives up; no run
/// comes near it.
pub const URI_DRAW_LIMIT: u64 = 0xffff_ffff_ffff_ffff;

/// The state that the fuzzer draws requests and responses from.
#[derive(Debug, Clone)]
pub struct Cube {
    /// How many headers the next request carries.
    pub int_size_1: u64,
    pub _int_size_2: u64,
    pub _int_size_3: u64,
    pub _int_size_4: u64,
    pub _int_size_5: u64,
    /// The buffer size that the last rotation aimed at.
    pub int_size_magic: u64,
    /// The current header value.
    pub string_1: Vec<u8>,
    /// The current request target.
    pub uri: Vec<u8>,
    /// Header names.
    pub headers: Arc<Vec<Vec<u8>>>,
    /// Words that payloads and URIs are built from.
    pub wordlist: Arc<Vec<Vec<u8>>>,
    /// Request methods.
    pub methods: Arc<Vec<Vec<u8>>>,
    /// The most headers that a request carries.
    pub max_headers_count: u64,
}

/// Why a list could not be loaded.
#[derive(Debug, PartialEq, Eq, Structural)]
pub enum ListError {
    /// The list holds no entry.
    Empty,
}

/// A word of `words`, or nothing when there is no word.
pub open spec fn word_or_nothing(words: Seq<Seq<u8>>, w: Seq<u8>) -> bool {
    if words.len() == 0 {
        w == Seq::<u8>::empty()
    } else {
        words.contains(w)
    }
}

/// The header count that a rotation may leave for a given maximum.
pub open spec fn header_count_outcome(max: u64, n: int) -> bool {
    if max > 0 {
        1 <= n <= max
    } else {
        n == 0
    }
}

/// What a rotation of `cube` depends on besides its draws.
pub open spec fn config_of(cube: Cube) -> Config {
    Config { words: cube.words(), max: cube.max_headers_count as int }
}

/// Whether `cube` holds what the turn `t` built.
pub open spec fn holds_turn(t: Turn, cube: Cube) -> bool {
    &&& cube.int_size_1 == t.header_count
    &&& cube.int_size_magic == t.magic
    &&& cube.string_1@ == t.string
    &&& cube.uri@ == t.uri
}

/// Whether the draws `ds` turn `before` into `after`: they are the draws of
/// one whole rotation, `after` holds what it built, and the lists and the
/// limit are those of `before`.
pub open spec fn rotated_by(before: Cube, ds: Seq<Draw>, after: Cube) -> bool {
    let t = rotation(config_of(before), ds);
    &&& t.phase is Done
    &&& holds_turn(t, after)
    &&& after.headers == before.headers
    &&& after.wordlist == before.wordlist
    &&& after.methods == before.methods
    &&& after.max_headers_count == before.max_headers_count
    &&& after._int_size_2 == before._int_size_2
    &&& after._int_size_3 == before._int_size_3
    &&& after._int_size_4 == before._int_size_4
    &&& after._int_size_5 == before._int_size_5
}

// ---------------------------------------------------------------------------
// What `rotate` may leave in `string_1`.
pub open spec fn is_interleaved_part(words: Seq<Seq<u8>>, p: Seq<u8>) -> bool {
    exists|m: Seq<u8>, w: Seq<u8>|
        #![trigger is_magic_string(m), word_or_nothing(words, w)]
        is_magic_string(m) && word_or_nothing(words, w) && p == m + w
}

pub open spec fn interleaved_from(magic: u64, words: Seq<Seq<u8>>, parts: Seq<Seq<u8>>, raw: Seq<u8>) -> bool {
    &&& parts.len() == pair_count(magic as int)
    &&& forall|i: int| 0 <= i < parts.len() ==> is_interleaved_part(words, #[trigger] parts[i])
    &&& raw == concat(parts)
}

/// Format strings, each followed by a word when there are words.
pub open spec fn interleaved(magic: u64, words: Seq<Seq<u8>>, raw: Seq<u8>) -> bool {
    exists|parts: Seq<Seq<u8>>| #[trigger] interleaved_from(magic, words, parts, raw)
}

pub open spec fn repetition_from(magic: u64, m: Seq<u8>, offset: u64, k: nat, raw: Seq<u8>) -> bool {
    &&& is_magic_string(m)
    &&& offset <= 32
    &&& raw == repeated(m, k)
    &&& raw.len() >= magic + offset
    &&& k > 0 ==> repeated(m, (k - 1) as nat).len() < magic + offset
}

/// One format string repeated until the value reaches the buffer size plus
/// a small offset.
pub open spec fn repetition(magic: u64, raw: Seq<u8>) -> bool {
    exists|m: Seq<u8>, offset: u64, k: nat| #[trigger] repetition_from(magic, m, offset, k, raw)
}

pub open spec fn flood_from(magic: u64, c: u8, offset: u64, raw: Seq<u8>) -> bool {
    &&& is_printable(c)
    &&& offset <= 32
    &&& raw == Seq::new((magic + offset) as nat, |_i: int| c)
}

/// One printable character, as many times as the buffer size plus a small
/// offset.
pub open spec fn flood(magic: u64, raw: Seq<u8>) -> bool {
    exists|c: u8, offset: u64| #[trigger] flood_from(magic, c, offset, raw)
}

pub open spec fn is_composite_item(words: Seq<Seq<u8>>, x: Seq<u8>) -> bool {
    is_magic_payload(x) || word_or_nothing(words, x) || is_magic_string(x)
}

pub open spec fn is_composite_part(words: Seq<Seq<u8>>, p: Seq<u8>) -> bool {
    exists|x: Seq<u8>, sep: Seq<u8>|
        #![trigger is_composite_item(words, x), is_separator(sep)]
        is_composite_item(words, x) && is_separator(sep) && p == x + sep
}

pub open spec fn composite_from(words: Seq<Seq<u8>>, parts: Seq<Seq<u8>>, raw: Seq<u8>) -> bool {
    &&& 2 <= parts.len() < 20
    &&& forall|i: int| 0 <= i < parts.len() ==> is_composite_part(words, #[trigger] parts[i])
    &&& raw == concat(parts)
}

/// Between two and nineteen items (payloads, words, format strings), each
/// followed by a separator.
pub open spec fn composite(words: Seq<Seq<u8>>, raw: Seq<u8>) -> bool {
    exists|parts: Seq<Seq<u8>>| #[trigger] composite_from(words, parts, raw)
}

/// A value that one of the five strategies builds, before the cap.
pub open spec fn raw_string_outcome(magic: u64, words: Seq<Seq<u8>>, raw: Seq<u8>) -> bool {
    ||| interleaved(magic, words, raw)
    ||| repetition(magic, raw)
    ||| flood(magic, raw)
    ||| composite(words, raw)
    ||| is_magic_payload(raw)
}

/// A header value that `rotate` may leave for the buffer size `magic`.
pub open spec fn string_outcome(magic: u64, words: Seq<Seq<u8>>, s: Seq<u8>) -> bool {
    exists|raw: Seq<u8>| #[trigger] raw_string_outcome(magic, words, raw) && s == capped(raw, STRING_CAP as nat)
}

// ---------------------------------------------------------------------------
// What `rotate` may leave in `uri`.
pub open spec fn slash() -> Seq<u8> {
    seq![47u8]
}

pub open spec fn index_word() -> Seq<u8> {
    "index".spec_bytes()
}

pub open spec fn slashes_from(words: Seq<Seq<u8>>, target: nat, count: nat, tail: Seq<u8>, raw: Seq<u8>) -> bool {
    &&& if target >= 2 { 2 <= count <= target } else { count == 1 }
    &&& tail == Seq::<u8>::empty() || (words.len() > 0 && words.contains(tail))
    &&& raw == Seq::new(count, |_i: int| 47u8) + tail
}

/// Slashes, maybe followed by a word.
pub open spec fn slashes(words: Seq<Seq<u8>>, target: nat, raw: Seq<u8>) -> bool {
    exists|count: nat, tail: Seq<u8>| #[trigger] slashes_from(words, target, count, tail, raw)
}

pub open spec fn is_uri_piece(p: Seq<u8>) -> bool {
    ||| is_magic_string(p)
    ||| is_separator(p)
    ||| p.len() == 1 && is_printable(p[0])
}

/// `parts`, appended to `head`, were drawn until the length reached `target`.
pub open spec fn grown_to(head: Seq<u8>, parts: Seq<Seq<u8>>, target: nat) -> bool {
    &&& (head + concat(parts)).len() >= target || parts.len() == URI_DRAW_LIMIT
    &&& parts.len() > 0 ==> (head + concat(parts.drop_last())).len() < target
}

pub open spec fn extended_word_from(
    words: Seq<Seq<u8>>,
    target: nat,
    word: Seq<u8>,
    parts: Seq<Seq<u8>>,
    raw: Seq<u8>,
) -> bool {
    &&& if words.len() == 0 { word == index_word() } else { words.contains(word) }
    &&& forall|i: int| 0 <= i < parts.len() ==> is_uri_piece(#[trigger] parts[i])
    &&& grown_to(slash() + word, parts, target)
    &&& raw == slash() + word + concat(parts)
}

/// A slash and a word (or `index`), then format strings, separators and
/// printable characters until the target length is reached.
pub open spec fn extended_word(words: Seq<Seq<u8>>, target: nat, raw: Seq<u8>) -> bool {
    exists|word: Seq<u8>, parts: Seq<Seq<u8>>| #[trigger] extended_word_from(words, target, word, parts, raw)
}

pub open spec fn magic_path_from(target: nat, parts: Seq<Seq<u8>>, raw: Seq<u8>) -> bool {
    &&& forall|i: int| 0 <= i < parts.len() ==> is_magic_string(#[trigger] parts[i])
    &&& (slash() + concat(parts)).len() >= target
    &&& parts.len() > 0 ==> (slash() + concat(parts.drop_last())).len() < target
    &&& raw == slash() + concat(parts)
}

/// A slash, then format strings until the target length is reached.
pub open spec fn magic_path(target: nat, raw: Seq<u8>) -> bool {
    exists|parts: Seq<Seq<u8>>| #[trigger] magic_path_from(target, parts, raw)
}

pub open spec fn chaos_from(target: nat, chars: Seq<u8>, raw: Seq<u8>) -> bool {
    &&& chars.len() == target
    &&& forall|i: int| 0 <= i < chars.len() ==> is_printable(#[trigger] chars[i])
    &&& raw == slash() + chars
}

/// A slash, then as many printable characters as the target length.
pub open spec fn chaos(target: nat, raw: Seq<u8>) -> bool {
    exists|chars: Seq<u8>| #[trigger] chaos_from(target, chars, raw)
}

/// A slash, then a word when there are words.
pub open spec fn clean(words: Seq<Seq<u8>>, raw: Seq<u8>) -> bool {
    exists|w: Seq<u8>| #[trigger] word_or_nothing(words, w) && raw == slash() + w
}

/// A URI that one of the five strategies builds for `target`, before the cap.
pub open spec fn raw_uri_outcome(words: Seq<Seq<u8>>, target: nat, raw: Seq<u8>) -> bool {
    ||| slashes(words, target, raw)
    ||| extended_word(words, target, raw)
    ||| magic_path(target, raw)
    ||| chaos(target, raw)
    ||| clean(words, raw)
}

/// A URI that `rotate` may leave.
pub open spec fn uri_outcome(words: Seq<Seq<u8>>, u: Seq<u8>) -> bool {
    exists|target: nat, raw: Seq<u8>|
        1 <= target <= URI_CAP && #[trigger] raw_uri_outcome(words, target, raw) && u == capped(
            raw,
            URI_CAP as nat,
        )
}

// ---------------------------------------------------------------------------
// The strategies of `rotate`.
/// Strategy 1: format strings interleaved with words.
fn fill_interleaved<R: RandomSource>(
    buf: &mut Vec<u8>,
    magic: u64,
    words: &[Vec<u8>],
    draws: &mut Draws<R>,
    Ghost(cfg): Ghost<Config>,
    Ghost(ts): Ghost<Turn>,
)
    requires
        old(buf)@.len() == 0,
        magic <= 65535,
        cfg.words == byte_lists(words@),
        ts.magic == magic,
        ts.string == old(buf)@,
    ensures
        interleaved(magic, byte_lists(words@), final(buf)@),
        extends(old(draws).made(), final(draws).made()),
        run(cfg, string_strategy(ts, 0), since(old(draws).made(), final(draws).made()))
            == string_done(Turn { string: final(buf)@, ..ts }),
{
    let ghost ws = byte_lists(words@);
    let ghost d0 = draws.made();
    let ghost t0 = string_strategy(ts, 0);
    let tenth: usize = (magic / 10) as usize;
    let iterations: usize = if tenth > 1 { tenth } else { 1 };
    let strings = magic_strings();
    let ghost mut parts: Seq<Seq<u8>> = seq![];
    let mut i: usize = 0;
    proof {
        lemma_no_draw_yet(d0);
    }
    while i < iterations
        invariant
            i <= iterations,
            iterations == pair_count(magic as int),
            strings@ == crate::tables::magic_string_texts(),
            ws == byte_lists(words@),
            cfg.words == ws,
            t0 == string_strategy(ts, 0),
            ts.magic == magic,
            parts.len() == i,
            forall|k: int| 0 <= k < parts.len() ==> is_interleaved_part(ws, #[trigger] parts[k]),
            buf@ == concat(parts),
            extends(d0, draws.made()),
            run(cfg, t0, since(d0, draws.made())) == after_pair(Turn { string: buf@, ..ts }, iterations - i),
        decreases iterations - i,
    {
        let ghost before = draws.made();
        let m = draws.pick_text(&strings);
        proof {
            lemma_draw_step(cfg, t0, d0, before, draws.made().last());
            assert(before.push(draws.made().last()) == draws.made());
        }
        append(buf, m);
        let ghost mut w: Seq<u8> = seq![];
        if words.len() > 0 {
            let ghost mid = draws.made();
            let word = draws.pick_list(words);
            proof {
                lemma_draw_step(cfg, t0, d0, mid, draws.made().last());
                assert(mid.push(draws.made().last()) == draws.made());
            }
            append(buf, word);
            proof {
                w = word@;
            }
        }
        proof {
            assert(is_magic_string(m@));
            assert(word_or_nothing(ws, w));
            let p = m@ + w;
            assert(is_interleaved_part(ws, p));
            lemma_concat_push(parts, p);
            parts = parts.push(p);
            assert(buf@ =~= concat(parts));
        }
        i = i + 1;
    }
    proof {
        assert(interleaved_from(magic, ws, parts, buf@));
    }
}

/// Strategy 2: one format string, repeated.
fn fill_repetition<R: RandomSource>(
    buf: &mut Vec<u8>,
    magic: u64,
    draws: &mut Draws<R>,
    Ghost(cfg): Ghost<Config>,
    Ghost(ts): Ghost<Turn>,
)
    requires
        old(buf)@.len() == 0,
        magic <= 65535,
        ts.magic == magic,
        ts.string == old(buf)@,
    ensures
        repetition(magic, final(buf)@),
        extends(old(draws).made(), final(draws).made()),
        run(cfg, string_strategy(ts, 1), since(old(draws).made(), final(draws).made()))
            == string_done(Turn { string: final(buf)@, ..ts }),
{
    let ghost d0 = draws.made();
    let ghost t0 = string_strategy(ts, 1);
    proof {
        lemma_no_draw_yet(d0);
    }
    let strings = magic_strings();
    let m = draws.pick_text(&strings);
    proof {
        lemma_draw_step(cfg, t0, d0, d0, draws.made().last());
        assert(d0.push(draws.made().last()) == draws.made());
        lemma_magic_string_len(m@);
    }
    let ghost d1 = draws.made();
    let offset = draws.range_u64_inclusive(0, 32);
    proof {
        lemma_draw_step(cfg, t0, d0, d1, draws.made().last());
        assert(d1.push(draws.made().last()) == draws.made());
    }
    let target_len: usize = (magic + offset) as usize;
    let ghost mut k: nat = 0;
    assert(buf@ =~= repeated(m@, 0));
    while buf.len() < target_len
        invariant
            1 <= m@.len() <= 6,
            target_len == magic + offset,
            buf@ == repeated(m@, k),
            k > 0 ==> repeated(m@, (k - 1) as nat).len() < target_len,
            k <= buf@.len(),
            grow(m@, buf@, target_len as int) == grow(m@, ts.string, target_len as int),
        decreases target_len - k,
    {
        append(buf, m);
        proof {
            k = k + 1;
        }
    }
    proof {
        assert(repetition_from(magic, m@, offset, k, buf@));
        assert(grow(m@, buf@, target_len as int) == buf@);
    }
}

/// Strategy 3: one printable character, repeated.
fn fill_flood<R: RandomSource>(
    buf: &mut Vec<u8>,
    magic: u64,
    draws: &mut Draws<R>,
    Ghost(cfg): Ghost<Config>,
    Ghost(ts): Ghost<Turn>,
)
    requires
        old(buf)@.len() == 0,
        magic <= 65535,
        ts.magic == magic,
        ts.string == old(buf)@,
    ensures
        flood(magic, final(buf)@),
        extends(old(draws).made(), final(draws).made()),
        run(cfg, string_strategy(ts, 2), since(old(draws).made(), final(draws).made()))
            == string_done(Turn { string: final(buf)@, ..ts }),
{
    let ghost d0 = draws.made();
    let ghost t0 = string_strategy(ts, 2);
    proof {
        lemma_no_draw_yet(d0);
    }
    let chars = printables();
    let idx = draws.range_usize(0, chars.len());
    proof {
        lemma_draw_step(cfg, t0, d0, d0, draws.made().last());
        assert(d0.push(draws.made().last()) == draws.made());
    }
    let c = chars[idx];
    let ghost d1 = draws.made();
    let offset = draws.range_u64_inclusive(0, 32);
    proof {
        lemma_draw_step(cfg, t0, d0, d1, draws.made().last());
        assert(d1.push(draws.made().last()) == draws.made());
    }
    let target_len: usize = (magic + offset) as usize;
    push_repeated(buf, c, target_len);
    proof {
        assert(chars@[idx as int] == c);
        assert(is_printable(c));
        assert(buf@ =~= Seq::new((magic + offset) as nat, |_i: int| c));
        assert(flood_from(magic, c, offset, buf@));
    }
}

/// Strategy 4: payloads, words and format strings, each with a separator.
fn fill_composite<R: RandomSource>(
    buf: &mut Vec<u8>,
    words: &[Vec<u8>],
    draws: &mut Draws<R>,
    Ghost(cfg): Ghost<Config>,
    Ghost(ts): Ghost<Turn>,
)
    requires
        old(buf)@.len() == 0,
        cfg.words == byte_lists(words@),
        ts.string == old(buf)@,
    ensures
        composite(byte_lists(words@), final(buf)@),
        extends(old(draws).made(), final(draws).made()),
        run(cfg, string_strategy(ts, 3), since(old(draws).made(), final(draws).made()))
            == string_done(Turn { string: final(buf)@, ..ts }),
{
    let ghost ws = byte_lists(words@);
    let ghost d0 = draws.made();
    let ghost t0 = string_strategy(ts, 3);
    proof {
        lemma_no_draw_yet(d0);
    }
    let payloads = magic_payloads();
    let strings = magic_strings();
    let seps = separators();
    let components = draws.range_i32(2, 20);
    proof {
        lemma_draw_step(cfg, t0, d0, d0, draws.made().last());
        assert(d0.push(draws.made().last()) == draws.made());
    }
    let ghost mut parts: Seq<Seq<u8>> = seq![];
    let mut i: i32 = 0;
    while i < components
        invariant
            0 <= i <= components < 20,
            2 <= components,
            payloads@ == crate::tables::magic_payload_texts(),
            strings@ == crate::tables::magic_string_texts(),
            seps@ == crate::tables::separator_texts(),
            ws == byte_lists(words@),
            cfg.words == ws,
            t0 == string_strategy(ts, 3),
            parts.len() == i,
            forall|k: int| 0 <= k < parts.len() ==> is_composite_part(ws, #[trigger] parts[k]),
            buf@ == concat(parts),
            extends(d0, draws.made()),
            run(cfg, t0, since(d0, draws.made())) == after_separator(Turn { string: buf@, ..ts }, components - i),
        decreases components - i,
    {
        let ghost mut x: Seq<u8> = seq![];
        let ghost dk = draws.made();
        let kind = draws.range_i32(0, 3);
        proof {
            lemma_draw_step(cfg, t0, d0, dk, draws.made().last());
            assert(dk.push(draws.made().last()) == draws.made());
        }
        let ghost di = draws.made();
        if kind == 0 {
            let p = draws.pick_text(&payloads);
            append(buf, p);
            proof {
                x = p@;
                lemma_draw_step(cfg, t0, d0, di, draws.made().last());
                assert(di.push(draws.made().last()) == draws.made());
            }
        } else if kind == 1 {
            if words.len() > 0 {
                let w = draws.pick_list(words);
                append(buf, w);
                proof {
                    x = w@;
                    lemma_draw_step(cfg, t0, d0, di, draws.made().last());
                    assert(di.push(draws.made().last()) == draws.made());
                }
            }
        } else {
            let m = draws.pick_text(&strings);
            append(buf, m);
            proof {
                x = m@;
                lemma_draw_step(cfg, t0, d0, di, draws.made().last());
                assert(di.push(draws.made().last()) == draws.made());
            }
        }
        let ghost ds = draws.made();
        let sep = draws.pick_text(&seps);
        proof {
            lemma_draw_step(cfg, t0, d0, ds, draws.made().last());
            assert(ds.push(draws.made().last()) == draws.made());
        }
        append(buf, sep);
        proof {
            assert(is_composite_item(ws, x));
            assert(is_separator(sep@));
            let p = x + sep@;
            assert(is_composite_part(ws, p));
            lemma_concat_push(parts, p);
            parts = parts.push(p);
            assert(buf@ =~= concat(parts));
        }
        i = i + 1;
    }
    proof {
        assert(composite_from(ws, parts, buf@));
    }
}

/// Strategy 5: one integer edge case.
fn fill_payload<R: RandomSource>(
    buf: &mut Vec<u8>,
    draws: &mut Draws<R>,
    Ghost(cfg): Ghost<Config>,
    Ghost(ts): Ghost<Turn>,
)
    requires
        old(buf)@.len() == 0,
        ts.string == old(buf)@,
    ensures
        is_magic_payload(final(buf)@),
        extends(old(draws).made(), final(draws).made()),
        run(cfg, string_strategy(ts, 4), since(old(draws).made(), final(draws).made()))
            == string_done(Turn { string: final(buf)@, ..ts }),
{
    let ghost d0 = draws.made();
    let ghost t0 = string_strategy(ts, 4);
    proof {
        lemma_no_draw_yet(d0);
    }
    let payloads = magic_payloads();
    let p = draws.pick_text(&payloads);
    proof {
        lemma_draw_step(cfg, t0, d0, d0, draws.made().last());
        assert(d0.push(draws.made().last()) == draws.made());
    }
    append(buf, p);
    assert(buf@ =~= p@);
}

/// URI strategy 1: slashes, maybe followed by a word.
fn fill_uri_slashes<R: RandomSource>(
    buf: &mut Vec<u8>,
    words: &[Vec<u8>],
    target: usize,
    draws: &mut Draws<R>,
    Ghost(cfg): Ghost<Config>,
    Ghost(ts): Ghost<Turn>,
)
    requires
        old(buf)@.len() == 0,
        1 <= target <= URI_CAP,
        cfg.words == byte_lists(words@),
        ts.target == target,
    ensures
        slashes(byte_lists(words@), target as nat, final(buf)@),
        extends(old(draws).made(), final(draws).made()),
        run(cfg, uri_strategy(cfg, ts, 0), since(old(draws).made(), final(draws).made()))
            == uri_done(Turn { uri: final(buf)@, ..ts }),
{
    let ghost d0 = draws.made();
    let ghost t0 = uri_strategy(cfg, ts, 0);
    proof {
        lemma_no_draw_yet(d0);
    }
    let count: usize = if target >= 2 {
        let drawn = draws.range_usize_inclusive(2, target);
        proof {
            lemma_draw_step(cfg, t0, d0, d0, draws.made().last());
            assert(d0.push(draws.made().last()) == draws.made());
        }
        if drawn < URI_CAP {
            drawn
        } else {
            URI_CAP
        }
    } else {
        1
    };
    push_repeated(buf, 47u8, count);
    proof {
        assert(buf@ =~= Seq::new(count as nat, |_i: int| 47u8));
        if target < 2 {
            assert(buf@ =~= slash());
        }
        assert(run(cfg, t0, since(d0, draws.made())) == Turn { phase: Phase::SlashFlag, uri: buf@, ..ts });
    }
    let ghost mut tail: Seq<u8> = seq![];
    let ghost d1 = draws.made();
    let with_word = draws.ratio(3, 10);
    proof {
        lemma_draw_step(cfg, t0, d0, d1, draws.made().last());
        assert(d1.push(draws.made().last()) == draws.made());
    }
    if with_word && words.len() > 0 {
        let ghost d2 = draws.made();
        let w = draws.pick_list(words);
        proof {
            lemma_draw_step(cfg, t0, d0, d2, draws.made().last());
            assert(d2.push(draws.made().last()) == draws.made());
        }
        append(buf, w);
        proof {
            tail = w@;
        }
    }
    proof {
        assert(buf@ =~= Seq::new(count as nat, |_i: int| 47u8) + tail);
        assert(slashes_from(byte_lists(words@), target as nat, count as nat, tail, buf@));
    }
}

/// URI strategy 2: a slash and a word, then pieces up to the target length.
fn fill_uri_extended<R: RandomSource>(
    buf: &mut Vec<u8>,
    words: &[Vec<u8>],
    target: usize,
    draws: &mut Draws<R>,
    Ghost(cfg): Ghost<Config>,
    Ghost(ts): Ghost<Turn>,
)
    requires
        old(buf)@.len() == 0,
        1 <= target <= URI_CAP,
        cfg.words == byte_lists(words@),
        ts.target == target,
    ensures
        extended_word(byte_lists(words@), target as nat, final(buf)@),
        extends(old(draws).made(), final(draws).made()),
        run(cfg, uri_strategy(cfg, ts, 1), since(old(draws).made(), final(draws).made()))
            == uri_done(Turn { uri: final(buf)@, ..ts }),
{
    let ghost ws = byte_lists(words@);
    let ghost d0 = draws.made();
    let ghost t0 = uri_strategy(cfg, ts, 1);
    proof {
        lemma_no_draw_yet(d0);
    }
    buf.push(47u8);
    let ghost mut word: Seq<u8> = seq![];
    if words.len() > 0 {
        let w = draws.pick_list(words);
        proof {
            lemma_draw_step(cfg, t0, d0, d0, draws.made().last());
            assert(d0.push(draws.made().last()) == draws.made());
            assert(buf@ =~= slash());
        }
        append(buf, w);
        proof {
            word = w@;
        }
    } else {
        let index = "index".as_bytes();
        append(buf, index);
        proof {
            word = index@;
        }
    }
    let ghost head = buf@;
    assert(head =~= slash() + word);
    assert(run(cfg, t0, since(d0, draws.made())) == extend_after(Turn { uri: buf@, ..ts }, 0));
    let chars = printables();
    let strings = magic_strings();
    let seps = separators();
    let ghost mut parts: Seq<Seq<u8>> = seq![];
    assert(head + concat(parts) =~= head);
    let mut pieces: u64 = 0;
    while buf.len() < target && pieces < URI_DRAW_LIMIT
        invariant
            chars@ == crate::tables::printable_text().spec_bytes(),
            chars@.len() == 100,
            strings@ == crate::tables::magic_string_texts(),
            seps@ == crate::tables::separator_texts(),
            t0 == uri_strategy(cfg, ts, 1),
            ts.target == target,
            parts.len() == pieces,
            forall|k: int| 0 <= k < parts.len() ==> is_uri_piece(#[trigger] parts[k]),
            buf@ == head + concat(parts),
            parts.len() > 0 ==> (head + concat(parts.drop_last())).len() < target,
            extends(d0, draws.made()),
            run(cfg, t0, since(d0, draws.made())) == extend_after(Turn { uri: buf@, ..ts }, pieces as int),
        decreases URI_DRAW_LIMIT - pieces,
    {
        let ghost before = parts;
        let ghost mut piece: Seq<u8> = seq![];
        let ghost dk = draws.made();
        let kind = draws.range_i32(0, 3);
        proof {
            lemma_draw_step(cfg, t0, d0, dk, draws.made().last());
            assert(dk.push(draws.made().last()) == draws.made());
        }
        let ghost dp = draws.made();
        if kind == 0 {
            let m = draws.pick_text(&strings);
            append(buf, m);
            proof {
                piece = m@;
            }
        } else if kind == 1 {
            let sep = draws.pick_text(&seps);
            append(buf, sep);
            proof {
                piece = sep@;
            }
        } else {
            let idx = draws.range_usize(0, chars.len());
            let c = chars[idx];
            buf.push(c);
            proof {
                piece = seq![c];
                assert(chars@[idx as int] == c);
                assert(is_printable(c));
            }
        }
        proof {
            lemma_draw_step(cfg, t0, d0, dp, draws.made().last());
            assert(dp.push(draws.made().last()) == draws.made());
            assert(is_uri_piece(piece));
            lemma_concat_push(parts, piece);
            parts = parts.push(piece);
            assert(parts.drop_last() =~= before);
            assert(buf@ =~= head + concat(parts));
        }
        pieces = pieces + 1;
    }
    proof {
        assert(buf@ =~= slash() + word + concat(parts));
        assert(extended_word_from(ws, target as nat, word, parts, buf@));
    }
}

/// URI strategy 3: a slash, then format strings up to the target length.
fn fill_uri_magic<R: RandomSource>(
    buf: &mut Vec<u8>,
    target: usize,
    draws: &mut Draws<R>,
    Ghost(cfg): Ghost<Config>,
    Ghost(ts): Ghost<Turn>,
)
    requires
        old(buf)@.len() == 0,
        1 <= target <= URI_CAP,
        ts.target == target,
    ensures
        magic_path(target as nat, final(buf)@),
        extends(old(draws).made(), final(draws).made()),
        run(cfg, uri_strategy(cfg, ts, 2), since(old(draws).made(), final(draws).made()))
            == uri_done(Turn { uri: final(buf)@, ..ts }),
{
    let ghost d0 = draws.made();
    let ghost t0 = uri_strategy(cfg, ts, 2);
    proof {
        lemma_no_draw_yet(d0);
    }
    buf.push(47u8);
    let strings = magic_strings();
    let ghost mut parts: Seq<Seq<u8>> = seq![];
    assert(buf@ =~= slash() + concat(parts));
    while buf.len() < target
        invariant
            strings@ == crate::tables::magic_string_texts(),
            t0 == uri_strategy(cfg, ts, 2),
            ts.target == target,
            forall|k: int| 0 <= k < parts.len() ==> is_magic_string(#[trigger] parts[k]),
            buf@ == slash() + concat(parts),
            parts.len() > 0 ==> (slash() + concat(parts.drop_last())).len() < target,
            parts.len() <= buf@.len(),
            extends(d0, draws.made()),
            run(cfg, t0, since(d0, draws.made())) == magic_after(Turn { uri: buf@, ..ts }),
        decreases target - parts.len(),
    {
        let ghost before = parts;
        let ghost dm = draws.made();
        let m = draws.pick_text(&strings);
        proof {
            lemma_draw_step(cfg, t0, d0, dm, draws.made().last());
            assert(dm.push(draws.made().last()) == draws.made());
            lemma_magic_string_len(m@);
        }
        append(buf, m);
        proof {
            lemma_concat_push(parts, m@);
            parts = parts.push(m@);
            assert(parts.drop_last() =~= before);
            assert(buf@ =~= slash() + concat(parts));
        }
    }
    proof {
        assert(magic_path_from(target as nat, parts, buf@));
    }
}

/// URI strategy 4: a slash, then printable characters.
fn fill_uri_chaos<R: RandomSource>(
    buf: &mut Vec<u8>,
    target: usize,
    draws: &mut Draws<R>,
    Ghost(cfg): Ghost<Config>,
    Ghost(ts): Ghost<Turn>,
)
    requires
        old(buf)@.len() == 0,
        1 <= target <= URI_CAP,
        ts.target == target,
    ensures
        chaos(target as nat, final(buf)@),
        extends(old(draws).made(), final(draws).made()),
        run(cfg, uri_strategy(cfg, ts, 3), since(old(draws).made(), final(draws).made()))
            == uri_done(Turn { uri: final(buf)@, ..ts }),
{
    let ghost d0 = draws.made();
    let ghost t0 = uri_strategy(cfg, ts, 3);
    proof {
        lemma_no_draw_yet(d0);
    }
    buf.push(47u8);
    assert(buf@ =~= slash());
    let chars = printables();
    let ghost mut drawn: Seq<u8> = seq![];
    let mut i: usize = 0;
    while i < target
        invariant
            i <= target,
            chars@ == crate::tables::printable_text().spec_bytes(),
            chars@.len() == 100,
            t0 == uri_strategy(cfg, ts, 3),
            ts.target == target,
            drawn.len() == i,
            forall|k: int| 0 <= k < drawn.len() ==> is_printable(#[trigger] drawn[k]),
            buf@ == slash() + drawn,
            extends(d0, draws.made()),
            run(cfg, t0, since(d0, draws.made())) == chaos_after(Turn { uri: buf@, ..ts }, target - i),
        decreases target - i,
    {
        let ghost dc = draws.made();
        let idx = draws.range_usize(0, chars.len());
        proof {
            lemma_draw_step(cfg, t0, d0, dc, draws.made().last());
            assert(dc.push(draws.made().last()) == draws.made());
        }
        let c = chars[idx];
        buf.push(c);
        proof {
            assert(chars@[idx as int] == c);
            drawn = drawn.push(c);
            assert(buf@ =~= slash() + drawn);
        }
        i = i + 1;
    }
    proof {
        assert(chaos_from(target as nat, drawn, buf@));
    }
}

/// URI strategy 5: a slash, then a word when there are words.
fn fill_uri_clean<R: RandomSource>(
    buf: &mut Vec<u8>,
    words: &[Vec<u8>],
    draws: &mut Draws<R>,
    Ghost(cfg): Ghost<Config>,
    Ghost(ts): Ghost<Turn>,
)
    requires
        old(buf)@.len() == 0,
        cfg.words == byte_lists(words@),
    ensures
        clean(byte_lists(words@), final(buf)@),
        extends(old(draws).made(), final(draws).made()),
        run(cfg, uri_strategy(cfg, ts, 4), since(old(draws).made(), final(draws).made()))
            == uri_done(Turn { uri: final(buf)@, ..ts }),
{
    let ghost d0 = draws.made();
    let ghost t0 = uri_strategy(cfg, ts, 4);
    proof {
        lemma_no_draw_yet(d0);
    }
    buf.push(47u8);
    assert(buf@ =~= slash());
    let ghost mut w: Seq<u8> = seq![];
    if words.len() > 0 {
        let word = draws.pick_list(words);
        proof {
            lemma_draw_step(cfg, t0, d0, d0, draws.made().last());
            assert(d0.push(draws.made().last()) == draws.made());
        }
        append(buf, word);
        proof {
            w = word@;
        }
    }
    proof {
        assert(buf@ =~= slash() + w);
        assert(word_or_nothing(byte_lists(words@), w));
    }
}

/// Draws a header value for the buffer size `magic`.
fn fill_string<R: RandomSource>(
    buf: &mut Vec<u8>,
    magic: u64,
    words: &[Vec<u8>],
    draws: &mut Draws<R>,
    Ghost(cfg): Ghost<Config>,
    Ghost(ts): Ghost<Turn>,
)
    requires
        old(buf)@.len() == 0,
        magic <= 65535,
        cfg.words == byte_lists(words@),
        (ts.phase is Strategy),
        ts.magic == magic,
        ts.string == old(buf)@,
    ensures
        string_outcome(magic, byte_lists(words@), final(buf)@),
        extends(old(draws).made(), final(draws).made()),
        run(cfg, ts, since(old(draws).made(), final(draws).made()))
            == (Turn { phase: Phase::UriTarget, string: final(buf)@, uri: seq![], ..ts }),
{
    let ghost ws = byte_lists(words@);
    let ghost d0 = draws.made();
    proof {
        lemma_no_draw_yet(d0);
    }
    let strategy = draws.range_i32(0, 5);
    proof {
        lemma_draw_step(cfg, ts, d0, d0, draws.made().last());
        assert(d0.push(draws.made().last()) == draws.made());
    }
    let ghost d1 = draws.made();
    if strategy == 0 {
        fill_interleaved(buf, magic, words, draws, Ghost(cfg), Ghost(ts));
    } else if strategy == 1 {
        fill_repetition(buf, magic, draws, Ghost(cfg), Ghost(ts));
    } else if strategy == 2 {
        fill_flood(buf, magic, draws, Ghost(cfg), Ghost(ts));
    } else if strategy == 3 {
        fill_composite(buf, words, draws, Ghost(cfg), Ghost(ts));
    } else if strategy == 4 {
        fill_payload(buf, draws, Ghost(cfg), Ghost(ts));
    }
    proof {
        lemma_chain(cfg, ts, d0, d1, draws.made());
    }
    let ghost raw = buf@;
    assert(raw_string_outcome(magic, ws, raw));
    assert(run(cfg, ts, since(d0, draws.made())) == string_done(Turn { string: raw, ..ts }));
    cap(buf, STRING_CAP);
}

/// Whether `after` is `before` with the URI `u` built and the rotation done.
spec fn uri_built(before: Turn, after: Turn, u: Seq<u8>) -> bool {
    &&& after.phase is Done
    &&& after.uri == u
    &&& after.header_count == before.header_count
    &&& after.magic == before.magic
    &&& after.string == before.string
}

/// Draws a URI.
fn fill_uri<R: RandomSource>(
    buf: &mut Vec<u8>,
    words: &[Vec<u8>],
    draws: &mut Draws<R>,
    Ghost(cfg): Ghost<Config>,
    Ghost(tu): Ghost<Turn>,
)
    requires
        old(buf)@.len() == 0,
        cfg.words == byte_lists(words@),
        (tu.phase is UriTarget),
        tu.uri == old(buf)@,
    ensures
        uri_outcome(byte_lists(words@), final(buf)@),
        extends(old(draws).made(), final(draws).made()),
        uri_built(tu, run(cfg, tu, since(old(draws).made(), final(draws).made())), final(buf)@),
{
    let ghost ws = byte_lists(words@);
    let ghost d0 = draws.made();
    proof {
        lemma_no_draw_yet(d0);
    }
    let target = draws.range_usize_inclusive(1, URI_CAP);
    proof {
        lemma_draw_step(cfg, tu, d0, d0, draws.made().last());
        assert(d0.push(draws.made().last()) == draws.made());
    }
    let ghost ts = Turn { phase: Phase::UriStrategy, target: target as int, uri: seq![], ..tu };
    let ghost d1 = draws.made();
    let strategy = draws.range_i32(0, 5);
    proof {
        lemma_draw_step(cfg, tu, d0, d1, draws.made().last());
        assert(d1.push(draws.made().last()) == draws.made());
    }
    let ghost d2 = draws.made();
    if strategy == 0 {
        fill_uri_slashes(buf, words, target, draws, Ghost(cfg), Ghost(ts));
    } else if strategy == 1 {
        fill_uri_extended(buf, words, target, draws, Ghost(cfg), Ghost(ts));
    } else if strategy == 2 {
        fill_uri_magic(buf, target, draws, Ghost(cfg), Ghost(ts));
    } else if strategy == 3 {
        fill_uri_chaos(buf, target, draws, Ghost(cfg), Ghost(ts));
    } else if strategy == 4 {
        fill_uri_clean(buf, words, draws, Ghost(cfg), Ghost(ts));
    }
    proof {
        lemma_chain(cfg, tu, d0, d2, draws.made());
    }
    let ghost raw = buf@;
    assert(raw_uri_outcome(ws, target as nat, raw));
    assert(run(cfg, tu, since(d0, draws.made())) == uri_done(Turn { uri: raw, ..ts }));
    proof {
        lemma_raw_uri_starts_with_slash(ws, target as nat, raw);
    }
    cap(buf, URI_CAP);
    if buf.len() == 0 {
        buf.push(47u8);
    }
}

/// Every URI that a strategy builds begins with a slash.
pub proof fn lemma_raw_uri_starts_with_slash(words: Seq<Seq<u8>>, target: nat, raw: Seq<u8>)
    requires
        raw_uri_outcome(words, target, raw),
    ensures
        raw.len() >= 1,
        raw[0] == 47u8,
{
    if slashes(words, target, raw) {
        let (count, tail) = choose|count: nat, tail: Seq<u8>| #[trigger] slashes_from(words, target, count, tail, raw);
        assert(raw[0] == Seq::new(count, |_i: int| 47u8)[0]);
    } else if extended_word(words, target, raw) {
        let (word, parts) = choose|word: Seq<u8>, parts: Seq<Seq<u8>>| #[trigger] extended_word_from(words, target, word, parts, raw);
        assert(raw[0] == (slash() + word)[0]);
    } else if magic_path(target, raw) {
        let parts = choose|parts: Seq<Seq<u8>>| #[trigger] magic_path_from(target, parts, raw);
        assert(raw[0] == slash()[0]);
    } else if chaos(target, raw) {
        let chars = choose|chars: Seq<u8>| #[trigger] chaos_from(target, chars, raw);
        assert(raw[0] == slash()[0]);
    } else {
        let w = choose|w: Seq<u8>| #[trigger] word_or_nothing(words, w) && raw == slash() + w;
        assert(raw[0] == slash()[0]);
    }
}

impl Cube {
    /// The words, as byte strings.
    pub open spec fn words(&self) -> Seq<Seq<u8>> {
        byte_lists(self.wordlist@)
    }

    /// Whether `self` holds a state that `rotate` may leave.
    pub open spec fn is_rotated(&self) -> bool {
        &&& header_count_outcome(self.max_headers_count, self.int_size_1 as int)
        &&& magic_number_values().contains(self.int_size_magic)
        &&& string_outcome(self.int_size_magic, self.words(), self.string_1@)
        &&& uri_outcome(self.words(), self.uri@)
    }

    /// Whether `self` is the cube that `new` builds.
    pub open spec fn is_fresh(&self) -> bool {
        &&& self.int_size_1 == 0
        &&& self._int_size_2 == 0
        &&& self._int_size_3 == 0
        &&& self._int_size_4 == 0
        &&& self._int_size_5 == 0
        &&& self.int_size_magic == 0
        &&& self.string_1@.len() == 0
        &&& self.uri@.len() == 0
        &&& self.headers@.len() == 0
        &&& self.wordlist@.len() == 0
        &&& self.methods@.len() == 7
        &&& byte_lists(self.methods@) == text_bytes(nginx_method_texts())
        &&& self.max_headers_count == 10
    }

    /// A cube with no headers and no words, the Nginx methods and room for
    /// ten headers.
    pub fn new() -> (cube: Cube)
        ensures
            cube.is_fresh(),
    {
        let names = nginx_methods();
        let mut methods: Vec<Vec<u8>> = Vec::new();
        let mut i: usize = 0;
        while i < names.len()
            invariant
                i <= names@.len(),
                names@ == nginx_method_texts(),
                byte_lists(methods@) == text_bytes(names@.take(i as int)),
            decreases names@.len() - i,
        {
            let ghost before = methods@;
            let name = names[i];
            let mut method: Vec<u8> = Vec::new();
            append(&mut method, name.as_bytes());
            assert(method@ =~= name.spec_bytes());
            methods.push(method);
            proof {
                assert(names@.take(i + 1) =~= names@.take(i as int).push(name));
                assert(text_bytes(names@.take(i + 1)) =~= text_bytes(names@.take(i as int)).push(name.spec_bytes()));
                assert(byte_lists(methods@) =~= byte_lists(before).push(method@));
            }
            i = i + 1;
        }
        proof {
            assert(names@.take(i as int) =~= names@);
        }
        Cube {
            int_size_1: 0,
            _int_size_2: 0,
            _int_size_3: 0,
            _int_size_4: 0,
            _int_size_5: 0,
            int_size_magic: 0,
            string_1: Vec::with_capacity(4096),
            uri: Vec::with_capacity(128),
            headers: Arc::new(Vec::new()),
            wordlist: Arc::new(Vec::new()),
            methods: Arc::new(methods),
            max_headers_count: 10,
        }
    }

    /// The same cube, with room for `count` headers.
    pub fn with_max_headers(self, count: u64) -> (cube: Cube)
        ensures
            cube == (Cube { max_headers_count: count, ..self }),
    {
        let mut cube = self;
        cube.max_headers_count = count;
        cube
    }

    /// Turns the cube to a fresh random state: a header count, a buffer size,
    /// a header value and a URI.
    pub fn rotate<R: RandomSource>(&mut self, draws: &mut Draws<R>)
        ensures
            extends(old(draws).made(), final(draws).made()),
            rotated_by(*old(self), since(old(draws).made(), final(draws).made()), *final(self)),
            header_count_outcome(old(self).max_headers_count, final(self).int_size_1 as int),
            magic_number_values().contains(final(self).int_size_magic),
            string_outcome(final(self).int_size_magic, old(self).words(), final(self).string_1@),
            uri_outcome(old(self).words(), final(self).uri@),
            final(self).is_rotated(),
    {
        let ghost cfg = config_of(*self);
        let ghost d0 = draws.made();
        let ghost t0 = start(cfg);
        proof {
            lemma_no_draw_yet(d0);
        }
        if self.max_headers_count > 0 {
            self.int_size_1 = draws.range_u64_inclusive(1, self.max_headers_count);
            proof {
                lemma_draw_step(cfg, t0, d0, d0, draws.made().last());
                assert(d0.push(draws.made().last()) == draws.made());
            }
        } else {
            self.int_size_1 = 0;
        }
        let ghost tm = run(cfg, t0, since(d0, draws.made()));
        assert(tm == Turn { phase: Phase::Magic, header_count: self.int_size_1 as int, ..t0 });
        let numbers = magic_numbers();
        let ghost d1 = draws.made();
        self.int_size_magic = draws.pick_number(&numbers);
        proof {
            lemma_draw_step(cfg, t0, d0, d1, draws.made().last());
            assert(d1.push(draws.made().last()) == draws.made());
        }
        let ghost ts = run(cfg, t0, since(d0, draws.made()));
        assert(ts == Turn { phase: Phase::Strategy, magic: self.int_size_magic as int, string: seq![], ..tm });
        self.string_1.clear();
        let ghost d2 = draws.made();
        fill_string(&mut self.string_1, self.int_size_magic, self.wordlist.as_slice(), draws, Ghost(cfg), Ghost(ts));
        proof {
            lemma_chain(cfg, t0, d0, d2, draws.made());
        }
        let ghost tu = run(cfg, t0, since(d0, draws.made()));
        self.uri.clear();
        let ghost d3 = draws.made();
        fill_uri(&mut self.uri, self.wordlist.as_slice(), draws, Ghost(cfg), Ghost(tu));
        proof {
            lemma_chain(cfg, t0, d0, d3, draws.made());
        }
    }

    /// The same cube, with `lines` as its header names; refused when there
    /// is no line.
    pub fn load_headers(self, lines: Vec<Vec<u8>>) -> (r: Result<Cube, ListError>)
        ensures
            match r {
                Ok(cube) => lines@.len() > 0 && cube.headers@ == lines@ && cube == (Cube {
                    headers: cube.headers,
                    ..self
                }),
                Err(e) => lines@.len() == 0 && e == ListError::Empty,
            },
    {
        if lines.len() == 0 {
            return Err(ListError::Empty);
        }
        let mut cube = self;
        cube.headers = Arc::new(lines);
        Ok(cube)
    }

    /// The same cube, with `lines` as its words; refused when there is no
    /// line.
    pub fn load_wordlist(self, lines: Vec<Vec<u8>>) -> (r: Result<Cube, ListError>)
        ensures
            match r {
                Ok(cube) => lines@.len() > 0 && cube.wordlist@ == lines@ && cube == (Cube {
                    wordlist: cube.wordlist,
                    ..self
                }),
                Err(e) => lines@.len() == 0 && e == ListError::Empty,
            },
    {
        if lines.len() == 0 {
            return Err(ListError::Empty);
        }
        let mut cube = self;
        cube.wordlist = Arc::new(lines);
        Ok(cube)
    }
}

impl Default for Cube {
    fn default() -> (cube: Cube)
        ensures
            cube.is_fresh(),
    {
        Cube::new()
    }
}

/// A header value that `rotate` leaves is never longer than the cap.
pub proof fn lemma_string_outcome_capped(magic: u64, words: Seq<Seq<u8>>, s: Seq<u8>)
    requires
        string_outcome(magic, words, s),
    ensures
        s.len() <= STRING_CAP,
{
    let raw = choose|raw: Seq<u8>| #[trigger] raw_string_outcome(magic, words, raw) && s == capped(raw, STRING_CAP as nat);
}

/// A URI that `rotate` leaves begins with a slash and holds between one and
/// `URI_CAP` bytes.
pub proof fn lemma_uri_outcome_shape(words: Seq<Seq<u8>>, u: Seq<u8>)
    requires
        uri_outcome(words, u),
    ensures
        1 <= u.len() <= URI_CAP,
        u[0] == 47u8,
{
    let (target, raw) = choose|target: nat, raw: Seq<u8>|
        1 <= target <= URI_CAP && #[trigger] raw_uri_outcome(words, target, raw) && u == capped(
            raw,
            URI_CAP as nat,
        );
    lemma_raw_uri_starts_with_slash(words, target, raw);
}

/// Replaying a rotation: two cubes with the same words and header limit,
/// rotated by draws of which one run begins the other (as when the same
/// seed hands out the same values), consumed the same draws and hold the
/// same header count, buffer size, header value and URI.
pub proof fn lemma_rotation_replays(a1: Cube, a2: Cube, ds1: Seq<Draw>, ds2: Seq<Draw>, b1: Cube, b2: Cube)
    requires
        config_of(a1) == config_of(a2),
        rotated_by(a1, ds1, b1),
        rotated_by(a2, ds2, b2),
        extends(ds1, ds2),
    ensures
        ds1 == ds2,
        b1.int_size_1 == b2.int_size_1,
        b1.int_size_magic == b2.int_size_magic,
        b1.string_1@ == b2.string_1@,
        b1.uri@ == b2.uri@,
{
    let cfg = config_of(a1);
    lemma_since(ds1, ds2);
    let rest = since(ds1, ds2);
    if rest.len() > 0 {
        lemma_run_concat(cfg, start(cfg), ds1, rest);
        lemma_run_after_done(cfg, rotation(cfg, ds1), rest);
        assert(false);
    }
    assert(ds2 =~= ds1);
}

/// Whether `after` is what one call of the cube's builders or of `rotate`
/// leaves of `before`, as their contracts state it.
pub open spec fn one_call(before: Cube, after: Cube) -> bool {
    ||| after == (Cube { max_headers_count: after.max_headers_count, ..before })
    ||| (after.headers@.len() > 0 && after == (Cube { headers: after.headers, ..before }))
    ||| (after.wordlist@.len() > 0 && after == (Cube { wordlist: after.wordlist, ..before }))
    ||| exists|ds: Seq<Draw>| #[trigger] rotated_by(before, ds, after)
}

/// Whether the call after `cubes[i]` leads to `cubes[i + 1]`.
pub open spec fn call_at(cubes: Seq<Cube>, i: int) -> bool {
    one_call(cubes[i], cubes[i + 1])
}

/// Across any run of calls from a new cube: the methods stay the Nginx
/// methods, and a header list or word list, once loaded, stays non-empty.
pub proof fn lemma_lists_kept(cubes: Seq<Cube>)
    requires
        cubes.len() > 0,
        cubes[0].is_fresh(),
        forall|i: int| 0 <= i < cubes.len() - 1 ==> #[trigger] call_at(cubes, i),
    ensures
        forall|j: int| 0 <= j < cubes.len() ==> #[trigger] byte_lists(cubes[j].methods@) == text_bytes(
            nginx_method_texts(),
        ),
        forall|i: int, j: int|
            0 <= i <= j < cubes.len() && #[trigger] cubes[i].headers@.len() > 0 ==> #[trigger] cubes[j].headers@.len() > 0,
        forall|i: int, j: int|
            0 <= i <= j < cubes.len() && #[trigger] cubes[i].wordlist@.len() > 0 ==> #[trigger] cubes[j].wordlist@.len()
                > 0,
    decreases cubes.len(),
{
    if cubes.len() > 1 {
        let prev = cubes.drop_last();
        assert forall|i: int| 0 <= i < prev.len() - 1 implies #[trigger] call_at(prev, i) by {
            assert(call_at(cubes, i));
        }
        lemma_lists_kept(prev);
        let n = cubes.len() - 1;
        assert(call_at(cubes, n - 1));
        let a = cubes[n - 1];
        let b = cubes[n];
        assert(b.methods == a.methods && (a.headers@.len() > 0 ==> b.headers@.len() > 0) && (a.wordlist@.len()
            > 0 ==> b.wordlist@.len() > 0));
        assert forall|j: int| 0 <= j < cubes.len() implies #[trigger] byte_lists(cubes[j].methods@) == text_bytes(
            nginx_method_texts(),
        ) by {
            if j < n {
                assert(prev[j] == cubes[j]);
            } else {
                assert(prev[n - 1] == a);
                assert(byte_lists(prev[n - 1].methods@) == text_bytes(nginx_method_texts()));
            }
        }
        assert forall|i: int, j: int|
            0 <= i <= j < cubes.len() && #[trigger] cubes[i].headers@.len() > 0 implies #[trigger] cubes[j].headers@.len()
                > 0 by {
            if j < n {
                assert(prev[i] == cubes[i] && prev[j] == cubes[j]);
            } else if i < n {
                assert(prev[i] == cubes[i] && prev[n - 1] == cubes[n - 1]);
            }
        }
        assert forall|i: int, j: int|
            0 <= i <= j < cubes.len() && #[trigger] cubes[i].wordlist@.len() > 0 implies #[trigger] cubes[j].wordlist@.len()
                > 0 by {
            if j < n {
                assert(prev[i] == cubes[i] && prev[j] == cubes[j]);
            } else if i < n {
                assert(prev[i] == cubes[i] && prev[n - 1] == cubes[n - 1]);
            }
        }
    }
}

} // verus!
