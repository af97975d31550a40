//! A random source that keeps, as ghost state, a log of every draw it has
//! handed out: the range or the list it was asked for and the value it gave.
//! The generators state what they build as a function of that log.
use vstd::prelude::*;
use crate::rng::RandomSource;
use crate::tables::{lemma_text_bytes_contains, text_bytes};

verus! {

/// The call that drew an integer: its integer type, and whether its range
/// included its upper end.
pub enum IntCall {
    /// A `u64` of `lo..=hi`.
    U64Inclusive,
    /// An `i32` of `lo..hi`.
    I32,
    /// A `usize` of `lo..hi`.
    Usize,
    /// A `usize` of `lo..=hi`.
    UsizeInclusive,
}

/// One draw: what was asked for and what came back.
pub enum Draw {
    /// An integer of `lo..=hi`, drawn by `call`.
    Int { call: IntCall, lo: int, hi: int, value: int },
    /// A coin that shows `true` with probability `num / den`.
    Ratio { num: int, den: int, shown: bool },
    /// One number of `items`.
    Number { numbers: Seq<u64>, number: u64 },
    /// One byte string of `items`.
    Pick { items: Seq<Seq<u8>>, item: Seq<u8> },
}

/// The byte strings held in `v`.
pub open spec fn byte_lists(v: Seq<Vec<u8>>) -> Seq<Seq<u8>> {
    v.map_values(|w: Vec<u8>| w@)
}

/// Whether `made` begins with `before`.
pub open spec fn extends(before: Seq<Draw>, made: Seq<Draw>) -> bool {
    before.len() <= made.len() && made.take(before.len() as int) == before
}

/// The draws of `made` that follow `before`.
pub open spec fn since(before: Seq<Draw>, made: Seq<Draw>) -> Seq<Draw> {
    made.skip(before.len() as int)
}

/// What follows a prefix, appended to it, gives the whole log back.
pub proof fn lemma_since(before: Seq<Draw>, made: Seq<Draw>)
    requires
        extends(before, made),
    ensures
        made == before + since(before, made),
{
    assert(made =~= before + since(before, made));
}

/// A log follows itself, with no draw since.
pub proof fn lemma_no_draw_yet(made: Seq<Draw>)
    ensures
        extends(made, made),
        since(made, made) == Seq::<Draw>::empty(),
{
    assert(made.take(made.len() as int) =~= made);
    assert(since(made, made) =~= Seq::<Draw>::empty());
}

/// Draws appended to a log that follows `before` still follow it.
pub proof fn lemma_since_append(before: Seq<Draw>, made: Seq<Draw>, more: Seq<Draw>)
    requires
        extends(before, made),
    ensures
        extends(before, made + more),
        since(before, made + more) == since(before, made) + more,
{
    assert((made + more).take(before.len() as int) =~= made.take(before.len() as int));
    assert(since(before, made + more) =~= since(before, made) + more);
}

/// One more draw, appended to a log that follows `before`.
pub proof fn lemma_since_push(before: Seq<Draw>, made: Seq<Draw>, d: Draw)
    requires
        extends(before, made),
    ensures
        extends(before, made.push(d)),
        since(before, made.push(d)) == since(before, made).push(d),
{
    assert(made.push(d) =~= made + seq![d]);
    lemma_since_append(before, made, seq![d]);
    assert(since(before, made) + seq![d] =~= since(before, made).push(d));
}

/// A random source with the log of its draws.
pub struct Draws<R> {
    /// The generator that the values come from.
    pub source: R,
    made: Ghost<Seq<Draw>>,
}

impl<R: RandomSource> Draws<R> {
    /// Every draw handed out so far, first to last.
    pub closed spec fn made(&self) -> Seq<Draw> {
        self.made@
    }

    /// A log over `source`, with no draw yet.
    pub fn new(source: R) -> (d: Draws<R>)
        ensures
            d.made() == Seq::<Draw>::empty(),
    {
        Draws { source, made: Ghost(Seq::empty()) }
    }

    /// A value of `lo..=hi`.
    pub fn range_u64_inclusive(&mut self, lo: u64, hi: u64) -> (r: u64)
        requires
            lo <= hi,
        ensures
            lo <= r <= hi,
            final(self).made() == old(self).made().push(Draw::Int { call: IntCall::U64Inclusive, lo: lo as int, hi: hi as int, value: r as int }),
    {
        let r = self.source.range_u64_inclusive(lo, hi);
        self.made = Ghost(self.made@.push(Draw::Int { call: IntCall::U64Inclusive, lo: lo as int, hi: hi as int, value: r as int }));
        r
    }

    /// A value of `lo..hi`.
    pub fn range_i32(&mut self, lo: i32, hi: i32) -> (r: i32)
        requires
            lo < hi,
        ensures
            lo <= r < hi,
            final(self).made() == old(self).made().push(Draw::Int { call: IntCall::I32, lo: lo as int, hi: hi - 1, value: r as int }),
    {
        let r = self.source.range_i32(lo, hi);
        self.made = Ghost(self.made@.push(Draw::Int { call: IntCall::I32, lo: lo as int, hi: hi - 1, value: r as int }));
        r
    }

    /// A value of `lo..hi`.
    pub fn range_usize(&mut self, lo: usize, hi: usize) -> (r: usize)
        requires
            lo < hi,
        ensures
            lo <= r < hi,
            final(self).made() == old(self).made().push(Draw::Int { call: IntCall::Usize, lo: lo as int, hi: hi - 1, value: r as int }),
    {
        let r = self.source.range_usize(lo, hi);
        self.made = Ghost(self.made@.push(Draw::Int { call: IntCall::Usize, lo: lo as int, hi: hi - 1, value: r as int }));
        r
    }

    /// A value of `lo..=hi`.
    pub fn range_usize_inclusive(&mut self, lo: usize, hi: usize) -> (r: usize)
        requires
            lo <= hi,
        ensures
            lo <= r <= hi,
            final(self).made() == old(self).made().push(Draw::Int { call: IntCall::UsizeInclusive, lo: lo as int, hi: hi as int, value: r as int }),
    {
        let r = self.source.range_usize_inclusive(lo, hi);
        self.made = Ghost(self.made@.push(Draw::Int { call: IntCall::UsizeInclusive, lo: lo as int, hi: hi as int, value: r as int }));
        r
    }

    /// `true` with probability `numerator / denominator`.
    pub fn ratio(&mut self, numerator: u32, denominator: u32) -> (r: bool)
        requires
            0 < denominator,
            numerator <= denominator,
        ensures
            numerator == 0 ==> !r,
            numerator == denominator ==> r,
            final(self).made() == old(self).made().push(
                Draw::Ratio { num: numerator as int, den: denominator as int, shown: r },
            ),
    {
        let r = self.source.ratio(numerator, denominator);
        self.made = Ghost(self.made@.push(Draw::Ratio { num: numerator as int, den: denominator as int, shown: r }));
        r
    }

    /// One number of `items`.
    pub fn pick_number(&mut self, items: &[u64]) -> (r: u64)
        requires
            items@.len() > 0,
        ensures
            items@.contains(r),
            final(self).made() == old(self).made().push(Draw::Number { numbers: items@, number: r }),
    {
        match self.source.pick(items) {
            Some(x) => {
                let r = *x;
                self.made = Ghost(self.made@.push(Draw::Number { numbers: items@, number: r }));
                r
            },
            None => vstd::pervasive::unreached(),
        }
    }

    /// One text of `texts`, as bytes.
    pub fn pick_text(&mut self, texts: &[&'static str]) -> (r: &'static [u8])
        requires
            texts@.len() > 0,
        ensures
            text_bytes(texts@).contains(r@),
            final(self).made() == old(self).made().push(Draw::Pick { items: text_bytes(texts@), item: r@ }),
    {
        match self.source.pick(texts) {
            Some(t) => {
                proof {
                    lemma_text_bytes_contains(texts@, *t);
                }
                let r = t.as_bytes();
                self.made = Ghost(self.made@.push(Draw::Pick { items: text_bytes(texts@), item: r@ }));
                r
            },
            None => vstd::pervasive::unreached(),
        }
    }

    /// One byte string of `items`.
    pub fn pick_list<'a>(&mut self, items: &'a [Vec<u8>]) -> (r: &'a [u8])
        requires
            items@.len() > 0,
        ensures
            byte_lists(items@).contains(r@),
            final(self).made() == old(self).made().push(Draw::Pick { items: byte_lists(items@), item: r@ }),
    {
        match self.source.pick(items) {
            Some(w) => {
                proof {
                    let i = choose|i: int| 0 <= i < items@.len() && items@[i] == *w;
                    assert(byte_lists(items@)[i] == w@);
                }
                let r = w.as_slice();
                self.made = Ghost(self.made@.push(Draw::Pick { items: byte_lists(items@), item: r@ }));
                r
            },
            None => vstd::pervasive::unreached(),
        }
    }
}

} // verus!
