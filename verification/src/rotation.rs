//! What a rotation of the cube builds from the draws it makes.
//!
//! A rotation is read as an automaton over its draws: each draw moves the
//! turn from one phase to the next, and a rotation is complete when the
//! turn reaches `Done`. A draw that does not fit the phase (another range,
//! another list) sends the turn to `Overrun`, from which nothing returns.
use vstd::prelude::*;
use vstd::string::StringSliceAdditionalSpecFns;
use crate::bytes::capped;
use crate::draws::{extends, lemma_since, since, Draw, IntCall};
use crate::rubik::{index_word, slash, STRING_CAP, URI_CAP, URI_DRAW_LIMIT};
use crate::tables::{
    magic_number_values, magic_payload_texts, magic_string_texts, printable_text, separator_texts,
    text_bytes,
};

verus! {

/// What a rotation depends on besides its draws.
pub struct Config {
    /// The words of the cube.
    pub words: Seq<Seq<u8>>,
    /// The most headers that a request carries.
    pub max: int,
}

/// Where a rotation stands.
pub enum Phase {
    HeaderCount,
    Magic,
    Strategy,
    Interleave { left: int, word_next: bool },
    RepeatPiece,
    RepeatOffset { piece: Seq<u8> },
    FloodChar,
    FloodOffset { c: u8 },
    CompositeCount,
    CompositeKind { left: int },
    CompositeItem { left: int, from: Seq<Seq<u8>> },
    CompositeSep { left: int },
    Payload,
    UriTarget,
    UriStrategy,
    SlashCount,
    SlashFlag,
    SlashWord,
    ExtendWord,
    ExtendKind { n: int },
    ExtendPiece { n: int, from: Seq<Seq<u8>> },
    ExtendChar { n: int },
    MagicPath,
    Chaos { left: int },
    CleanWord,
    Done,
    Overrun,
}

/// A rotation under way: its phase and what it has built so far.
pub struct Turn {
    pub phase: Phase,
    pub header_count: int,
    pub magic: int,
    pub string: Seq<u8>,
    pub target: int,
    pub uri: Seq<u8>,
}

pub open spec fn string_table() -> Seq<Seq<u8>> {
    text_bytes(magic_string_texts())
}

pub open spec fn separator_table() -> Seq<Seq<u8>> {
    text_bytes(separator_texts())
}

pub open spec fn payload_table() -> Seq<Seq<u8>> {
    text_bytes(magic_payload_texts())
}

pub open spec fn printable_bytes() -> Seq<u8> {
    printable_text().spec_bytes()
}

/// The value of an integer draw of `lo..=hi` made by `call`.
pub open spec fn int_drawn(d: Draw, call: IntCall, lo: int, hi: int) -> Option<int> {
    match d {
        Draw::Int { call: c, lo: a, hi: b, value } => if c == call && a == lo && b == hi {
            Some(value)
        } else {
            None
        },
        _ => None,
    }
}

/// The byte string of a pick from `items`.
pub open spec fn picked(d: Draw, items: Seq<Seq<u8>>) -> Option<Seq<u8>> {
    match d {
        Draw::Pick { items: from, item } => if from == items { Some(item) } else { None },
        _ => None,
    }
}

/// The number of a pick from `items`.
pub open spec fn number_picked(d: Draw, items: Seq<u64>) -> Option<u64> {
    match d {
        Draw::Number { numbers: from, number } => if from == items { Some(number) } else { None },
        _ => None,
    }
}

/// The outcome of a coin of `num / den`.
pub open spec fn coin(d: Draw, num: int, den: int) -> Option<bool> {
    match d {
        Draw::Ratio { num: a, den: b, shown } => if a == num && b == den { Some(shown) } else { None },
        _ => None,
    }
}

/// `piece` appended to `cur` until it holds at least `target` bytes.
pub open spec fn grow(piece: Seq<u8>, cur: Seq<u8>, target: int) -> Seq<u8>
    decreases (if cur.len() < target { target - cur.len() } else { 0 }),
{
    if piece.len() == 0 || cur.len() >= target {
        cur
    } else {
        grow(piece, cur + piece, target)
    }
}

pub open spec fn in_phase(t: Turn, p: Phase) -> Turn {
    Turn { phase: p, ..t }
}

pub open spec fn overrun(t: Turn) -> Turn {
    in_phase(t, Phase::Overrun)
}

/// The header value is built: it is capped and the URI comes next.
pub open spec fn string_done(t: Turn) -> Turn {
    Turn { phase: Phase::UriTarget, string: capped(t.string, STRING_CAP as nat), uri: seq![], ..t }
}

/// The URI is built: it is capped, and an empty URI becomes a slash.
pub open spec fn uri_done(t: Turn) -> Turn {
    let u = capped(t.uri, URI_CAP as nat);
    Turn { phase: Phase::Done, uri: if u.len() == 0 { slash() } else { u }, ..t }
}

pub open spec fn after_pair(t: Turn, left: int) -> Turn {
    if left > 0 {
        in_phase(t, Phase::Interleave { left, word_next: false })
    } else {
        string_done(t)
    }
}

pub open spec fn after_separator(t: Turn, left: int) -> Turn {
    if left > 0 {
        in_phase(t, Phase::CompositeKind { left })
    } else {
        string_done(t)
    }
}

pub open spec fn extend_after(t: Turn, n: int) -> Turn {
    if t.uri.len() < t.target && n < URI_DRAW_LIMIT {
        in_phase(t, Phase::ExtendKind { n })
    } else {
        uri_done(t)
    }
}

pub open spec fn magic_after(t: Turn) -> Turn {
    if t.uri.len() < t.target {
        in_phase(t, Phase::MagicPath)
    } else {
        uri_done(t)
    }
}

pub open spec fn chaos_after(t: Turn, left: int) -> Turn {
    if left > 0 {
        in_phase(t, Phase::Chaos { left })
    } else {
        uri_done(t)
    }
}

/// The number of format string and word pairs for the buffer size `magic`.
pub open spec fn pair_count(magic: int) -> int {
    if magic / 10 >= 1 {
        magic / 10
    } else {
        1
    }
}

/// The first phase of the header value, by strategy.
pub open spec fn string_strategy(t: Turn, s: int) -> Turn {
    if s == 0 {
        in_phase(t, Phase::Interleave { left: pair_count(t.magic), word_next: false })
    } else if s == 1 {
        in_phase(t, Phase::RepeatPiece)
    } else if s == 2 {
        in_phase(t, Phase::FloodChar)
    } else if s == 3 {
        in_phase(t, Phase::CompositeCount)
    } else if s == 4 {
        in_phase(t, Phase::Payload)
    } else {
        string_done(t)
    }
}

/// The first phase of the URI, by strategy.
pub open spec fn uri_strategy(cfg: Config, t: Turn, s: int) -> Turn {
    if s == 0 {
        if t.target >= 2 {
            in_phase(t, Phase::SlashCount)
        } else {
            Turn { phase: Phase::SlashFlag, uri: slash(), ..t }
        }
    } else if s == 1 {
        if cfg.words.len() > 0 {
            Turn { phase: Phase::ExtendWord, uri: slash(), ..t }
        } else {
            extend_after(Turn { uri: slash() + index_word(), ..t }, 0)
        }
    } else if s == 2 {
        magic_after(Turn { uri: slash(), ..t })
    } else if s == 3 {
        chaos_after(Turn { uri: slash(), ..t }, t.target)
    } else if s == 4 {
        if cfg.words.len() > 0 {
            Turn { phase: Phase::CleanWord, uri: slash(), ..t }
        } else {
            uri_done(Turn { uri: slash(), ..t })
        }
    } else {
        uri_done(t)
    }
}

/// One step of a rotation: the turn after the draw `d`.
pub open spec fn step(cfg: Config, t: Turn, d: Draw) -> Turn {
    match t.phase {
        Phase::HeaderCount => match int_drawn(d, IntCall::U64Inclusive, 1, cfg.max) {
            Some(v) => Turn { phase: Phase::Magic, header_count: v, ..t },
            None => overrun(t),
        },
        Phase::Magic => match number_picked(d, magic_number_values()) {
            Some(m) => Turn { phase: Phase::Strategy, magic: m as int, string: seq![], ..t },
            None => overrun(t),
        },
        Phase::Strategy => match int_drawn(d, IntCall::I32, 0, 4) {
            Some(s) => string_strategy(t, s),
            None => overrun(t),
        },
        Phase::Interleave { left, word_next } => if !word_next {
            match picked(d, string_table()) {
                Some(m) => {
                    let t2 = Turn { string: t.string + m, ..t };
                    if cfg.words.len() > 0 {
                        in_phase(t2, Phase::Interleave { left, word_next: true })
                    } else {
                        after_pair(t2, left - 1)
                    }
                },
                None => overrun(t),
            }
        } else {
            match picked(d, cfg.words) {
                Some(w) => after_pair(Turn { string: t.string + w, ..t }, left - 1),
                None => overrun(t),
            }
        },
        Phase::RepeatPiece => match picked(d, string_table()) {
            Some(p) => in_phase(t, Phase::RepeatOffset { piece: p }),
            None => overrun(t),
        },
        Phase::RepeatOffset { piece } => match int_drawn(d, IntCall::U64Inclusive, 0, 32) {
            Some(o) => string_done(Turn { string: grow(piece, t.string, t.magic + o), ..t }),
            None => overrun(t),
        },
        Phase::FloodChar => match int_drawn(d, IntCall::Usize, 0, 99) {
            Some(i) => in_phase(t, Phase::FloodOffset { c: printable_bytes()[i] }),
            None => overrun(t),
        },
        Phase::FloodOffset { c } => match int_drawn(d, IntCall::U64Inclusive, 0, 32) {
            Some(o) => string_done(Turn { string: Seq::new((t.magic + o) as nat, |_i: int| c), ..t }),
            None => overrun(t),
        },
        Phase::CompositeCount => match int_drawn(d, IntCall::I32, 2, 19) {
            Some(n) => in_phase(t, Phase::CompositeKind { left: n }),
            None => overrun(t),
        },
        Phase::CompositeKind { left } => match int_drawn(d, IntCall::I32, 0, 2) {
            Some(k) => if k == 0 {
                in_phase(t, Phase::CompositeItem { left, from: payload_table() })
            } else if k == 1 {
                if cfg.words.len() > 0 {
                    in_phase(t, Phase::CompositeItem { left, from: cfg.words })
                } else {
                    in_phase(t, Phase::CompositeSep { left })
                }
            } else {
                in_phase(t, Phase::CompositeItem { left, from: string_table() })
            },
            None => overrun(t),
        },
        Phase::CompositeItem { left, from } => match picked(d, from) {
            Some(x) => Turn { phase: Phase::CompositeSep { left }, string: t.string + x, ..t },
            None => overrun(t),
        },
        Phase::CompositeSep { left } => match picked(d, separator_table()) {
            Some(s) => after_separator(Turn { string: t.string + s, ..t }, left - 1),
            None => overrun(t),
        },
        Phase::Payload => match picked(d, payload_table()) {
            Some(p) => string_done(Turn { string: t.string + p, ..t }),
            None => overrun(t),
        },
        Phase::UriTarget => match int_drawn(d, IntCall::UsizeInclusive, 1, URI_CAP as int) {
            Some(u) => Turn { phase: Phase::UriStrategy, target: u, uri: seq![], ..t },
            None => overrun(t),
        },
        Phase::UriStrategy => match int_drawn(d, IntCall::I32, 0, 4) {
            Some(s) => uri_strategy(cfg, t, s),
            None => overrun(t),
        },
        Phase::SlashCount => match int_drawn(d, IntCall::UsizeInclusive, 2, t.target) {
            Some(n) => Turn {
                phase: Phase::SlashFlag,
                uri: Seq::new((if n < URI_CAP { n } else { URI_CAP as int }) as nat, |_i: int| 47u8),
                ..t
            },
            None => overrun(t),
        },
        Phase::SlashFlag => match coin(d, 3, 10) {
            Some(b) => if b && cfg.words.len() > 0 {
                in_phase(t, Phase::SlashWord)
            } else {
                uri_done(t)
            },
            None => overrun(t),
        },
        Phase::SlashWord => match picked(d, cfg.words) {
            Some(w) => uri_done(Turn { uri: t.uri + w, ..t }),
            None => overrun(t),
        },
        Phase::ExtendWord => match picked(d, cfg.words) {
            Some(w) => extend_after(Turn { uri: t.uri + w, ..t }, 0),
            None => overrun(t),
        },
        Phase::ExtendKind { n } => match int_drawn(d, IntCall::I32, 0, 2) {
            Some(k) => if k == 0 {
                in_phase(t, Phase::ExtendPiece { n, from: string_table() })
            } else if k == 1 {
                in_phase(t, Phase::ExtendPiece { n, from: separator_table() })
            } else {
                in_phase(t, Phase::ExtendChar { n })
            },
            None => overrun(t),
        },
        Phase::ExtendPiece { n, from } => match picked(d, from) {
            Some(p) => extend_after(Turn { uri: t.uri + p, ..t }, n + 1),
            None => overrun(t),
        },
        Phase::ExtendChar { n } => match int_drawn(d, IntCall::Usize, 0, 99) {
            Some(i) => extend_after(Turn { uri: t.uri.push(printable_bytes()[i]), ..t }, n + 1),
            None => overrun(t),
        },
        Phase::MagicPath => match picked(d, string_table()) {
            Some(m) => magic_after(Turn { uri: t.uri + m, ..t }),
            None => overrun(t),
        },
        Phase::Chaos { left } => match int_drawn(d, IntCall::Usize, 0, 99) {
            Some(i) => chaos_after(Turn { uri: t.uri.push(printable_bytes()[i]), ..t }, left - 1),
            None => overrun(t),
        },
        Phase::CleanWord => match picked(d, cfg.words) {
            Some(w) => uri_done(Turn { uri: t.uri + w, ..t }),
            None => overrun(t),
        },
        Phase::Done => overrun(t),
        Phase::Overrun => overrun(t),
    }
}

/// The turn after the draws `ds`, first to last, starting from `t`.
pub open spec fn run(cfg: Config, t: Turn, ds: Seq<Draw>) -> Turn
    decreases ds.len(),
{
    if ds.len() == 0 {
        t
    } else {
        step(cfg, run(cfg, t, ds.drop_last()), ds.last())
    }
}

/// The turn before the first draw of a rotation.
pub open spec fn start(cfg: Config) -> Turn {
    Turn {
        phase: if cfg.max > 0 { Phase::HeaderCount } else { Phase::Magic },
        header_count: 0,
        magic: 0,
        string: seq![],
        target: 0,
        uri: seq![],
    }
}

/// The turn that the draws `ds` lead a rotation to.
pub open spec fn rotation(cfg: Config, ds: Seq<Draw>) -> Turn {
    run(cfg, start(cfg), ds)
}

/// Whether `ds` are the draws of one whole rotation.
pub open spec fn completes(cfg: Config, ds: Seq<Draw>) -> bool {
    rotation(cfg, ds).phase is Done
}

/// One more draw is one more step.
pub proof fn lemma_run_push(cfg: Config, t: Turn, ds: Seq<Draw>, d: Draw)
    ensures
        run(cfg, t, ds.push(d)) == step(cfg, run(cfg, t, ds), d),
{
    assert(ds.push(d).drop_last() =~= ds);
}

/// Running two stretches of draws one after the other is running both.
pub proof fn lemma_run_concat(cfg: Config, t: Turn, a: Seq<Draw>, b: Seq<Draw>)
    ensures
        run(cfg, t, a + b) == run(cfg, run(cfg, t, a), b),
    decreases b.len(),
{
    if b.len() == 0 {
        assert(a + b =~= a);
    } else {
        lemma_run_concat(cfg, t, a, b.drop_last());
        assert((a + b).drop_last() =~= a + b.drop_last());
        assert((a + b).last() == b.last());
    }
}

/// No draw leads a finished rotation anywhere but to `Overrun`, and
/// `Overrun` is never left.
pub proof fn lemma_run_after_done(cfg: Config, t: Turn, ds: Seq<Draw>)
    requires
        t.phase is Done || t.phase is Overrun,
        ds.len() > 0,
    ensures
        run(cfg, t, ds).phase is Overrun,
    decreases ds.len(),
{
    if ds.len() > 1 {
        lemma_run_after_done(cfg, t, ds.drop_last());
    } else {
        assert(ds.drop_last().len() == 0);
        assert(run(cfg, t, ds.drop_last()) == t);
    }
    assert(run(cfg, t, ds) == step(cfg, run(cfg, t, ds.drop_last()), ds.last()));
}

/// One more draw in the log is one more step of what follows `base`.
pub proof fn lemma_draw_step(cfg: Config, t: Turn, base: Seq<Draw>, cur: Seq<Draw>, d: Draw)
    requires
        extends(base, cur),
    ensures
        extends(base, cur.push(d)),
        run(cfg, t, since(base, cur.push(d))) == step(cfg, run(cfg, t, since(base, cur)), d),
{
    assert(cur.push(d).take(base.len() as int) =~= cur.take(base.len() as int));
    assert(since(base, cur.push(d)) =~= since(base, cur).push(d));
    lemma_run_push(cfg, t, since(base, cur), d);
}

/// Draws that follow `b`, which follows `a`, run on from where `b` left off.
pub proof fn lemma_chain(cfg: Config, t: Turn, a: Seq<Draw>, b: Seq<Draw>, c: Seq<Draw>)
    requires
        extends(a, b),
        extends(b, c),
    ensures
        extends(a, c),
        run(cfg, t, since(a, c)) == run(cfg, run(cfg, t, since(a, b)), since(b, c)),
{
    assert(c.take(a.len() as int) =~= c.take(b.len() as int).take(a.len() as int));
    assert(since(a, c) =~= since(a, b) + since(b, c));
    lemma_run_concat(cfg, t, since(a, b), since(b, c));
}

/// A rotation that does not start by drawing the header count never draws
/// it: the count stays what it was.
pub proof fn lemma_header_count_kept(cfg: Config, t: Turn, ds: Seq<Draw>)
    requires
        !(t.phase is HeaderCount),
    ensures
        run(cfg, t, ds).header_count == t.header_count,
        !(run(cfg, t, ds).phase is HeaderCount),
    decreases ds.len(),
{
    if ds.len() > 0 {
        lemma_header_count_kept(cfg, t, ds.drop_last());
    }
}

/// Whole rotations are prefix-free: when one stream of draws begins with
/// the draws of two whole rotations, they are the same draws.
pub proof fn lemma_rotations_prefix_free(cfg: Config, a: Seq<Draw>, b: Seq<Draw>, x: Seq<Draw>, y: Seq<Draw>)
    requires
        completes(cfg, a),
        completes(cfg, b),
        a + x == b + y,
    ensures
        a == b,
        x == y,
{
    if a.len() <= b.len() {
        assert(b.take(a.len() as int) =~= a) by {
            assert forall|i: int| 0 <= i < a.len() implies b[i] == a[i] by {
                assert((a + x)[i] == a[i]);
                assert((b + y)[i] == b[i]);
                assert((a + x)[i] == (b + y)[i]);
            }
        }
        lemma_since(a, b);
        let rest = since(a, b);
        if rest.len() > 0 {
            lemma_run_concat(cfg, start(cfg), a, rest);
            lemma_run_after_done(cfg, rotation(cfg, a), rest);
            assert(false);
        }
        assert(b =~= a);
    } else {
        assert(a.take(b.len() as int) =~= b) by {
            assert forall|i: int| 0 <= i < b.len() implies a[i] == b[i] by {
                assert((a + x)[i] == a[i]);
                assert((b + y)[i] == b[i]);
                assert((a + x)[i] == (b + y)[i]);
            }
        }
        lemma_since(b, a);
        let rest = since(b, a);
        lemma_run_concat(cfg, start(cfg), b, rest);
        lemma_run_after_done(cfg, rotation(cfg, b), rest);
        assert(false);
    }
    assert(x =~= (a + x).skip(a.len() as int));
    assert(y =~= (b + y).skip(b.len() as int));
}

/// The integer draw of a composite component's kind.
pub open spec fn kind_draw(k: int) -> Draw {
    Draw::Int { call: IntCall::I32, lo: 0, hi: 2, value: k }
}

/// A composite component is one item and one separator. Its kind draw
/// decides where the item comes from: kind 0 appends an integer payload,
/// kind 1 a word (nothing when there is no word), kind 2 a format string;
/// the separator drawn after it is appended next.
pub proof fn lemma_composite_component(cfg: Config, t: Turn, left: int, x: Seq<u8>, sep: Seq<u8>)
    requires
        t.phase == (Phase::CompositeKind { left }),
    ensures
        step(cfg, step(cfg, t, kind_draw(0)), Draw::Pick { items: text_bytes(magic_payload_texts()), item: x })
            == (Turn { phase: Phase::CompositeSep { left }, string: t.string + x, ..t }),
        step(cfg, step(cfg, t, kind_draw(2)), Draw::Pick { items: text_bytes(magic_string_texts()), item: x })
            == (Turn { phase: Phase::CompositeSep { left }, string: t.string + x, ..t }),
        cfg.words.len() > 0 ==> step(cfg, step(cfg, t, kind_draw(1)), Draw::Pick { items: cfg.words, item: x })
            == (Turn { phase: Phase::CompositeSep { left }, string: t.string + x, ..t }),
        cfg.words.len() == 0 ==> step(cfg, t, kind_draw(1)) == (Turn { phase: Phase::CompositeSep { left }, ..t }),
        left > 1 ==> step(
            cfg,
            Turn { phase: Phase::CompositeSep { left }, ..t },
            Draw::Pick { items: text_bytes(separator_texts()), item: sep },
        ) == (Turn { phase: Phase::CompositeKind { left: left - 1 }, string: t.string + sep, ..t }),
        left == 1 ==> step(
            cfg,
            Turn { phase: Phase::CompositeSep { left }, ..t },
            Draw::Pick { items: text_bytes(separator_texts()), item: sep },
        ).string == capped(t.string + sep, STRING_CAP as nat),
{
}

} // verus!
