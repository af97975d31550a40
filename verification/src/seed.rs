//! The seed log: a ring of eight-byte little-endian slots, one per logged
//! seed, and how seeds are read back from it.
use vstd::prelude::*;

verus! {

/// The width of one slot of the ring.
pub const SLOT_BYTES: usize = 8;

/// Why no seeds could be read back.
#[derive(Debug, PartialEq, Eq, Structural)]
pub enum SeedError {
    /// Every slot is zero or the log holds no whole slot.
    NoSeeds,
}

/// The little-endian bytes of `seed`.
pub open spec fn le_bytes(seed: u64) -> Seq<u8> {
    seq![
        seed as u8,
        (seed >> 8u64) as u8,
        (seed >> 16u64) as u8,
        (seed >> 24u64) as u8,
        (seed >> 32u64) as u8,
        (seed >> 40u64) as u8,
        (seed >> 48u64) as u8,
        (seed >> 56u64) as u8,
    ]
}

/// The number whose little-endian bytes are `b[0..8]`.
pub open spec fn le_value(b: Seq<u8>) -> u64 {
    (b[0] as u64) | ((b[1] as u64) << 8u64) | ((b[2] as u64) << 16u64) | ((b[3] as u64) << 24u64) | ((
    b[4] as u64) << 32u64) | ((b[5] as u64) << 40u64) | ((b[6] as u64) << 48u64) | ((b[7] as u64)
        << 56u64)
}

/// The seeds held in the whole slots of a log, zero or not.
pub open spec fn slots(log: Seq<u8>) -> Seq<u64> {
    Seq::new(log.len() / 8, |i: int| le_value(log.subrange(8 * i, 8 * i + 8)))
}

/// The seeds of `values` that are not zero, in order.
pub open spec fn nonzero(values: Seq<u64>) -> Seq<u64>
    decreases values.len(),
{
    if values.len() == 0 {
        seq![]
    } else if values.last() == 0 {
        nonzero(values.drop_last())
    } else {
        nonzero(values.drop_last()).push(values.last())
    }
}

/// The seeds that a log gives back.
pub open spec fn stored_seeds(log: Seq<u8>) -> Seq<u64> {
    nonzero(slots(log))
}

/// A log whose slots hold `values`.
pub open spec fn ring_image(values: Seq<u64>) -> Seq<u8> {
    Seq::new(8 * values.len(), |k: int| le_bytes(values[k / 8])[k % 8])
}

/// `log` with `bytes` written at `offset`.
pub open spec fn written_at(log: Seq<u8>, offset: int, bytes: Seq<u8>) -> Seq<u8> {
    log.take(offset) + bytes + log.skip(offset + bytes.len())
}

/// The slot that the `counter`-th logged seed lands in.
pub open spec fn slot_of(counter: nat, buffer_size: nat) -> nat {
    counter % buffer_size
}

/// Reading a number back from its little-endian bytes gives the number.
pub proof fn lemma_le_roundtrip(seed: u64)
    ensures
        le_value(le_bytes(seed)) == seed,
{
    let b0 = seed as u8;
    let b1 = (seed >> 8u64) as u8;
    let b2 = (seed >> 16u64) as u8;
    let b3 = (seed >> 24u64) as u8;
    let b4 = (seed >> 32u64) as u8;
    let b5 = (seed >> 40u64) as u8;
    let b6 = (seed >> 48u64) as u8;
    let b7 = (seed >> 56u64) as u8;
    assert((b0 as u64) | ((b1 as u64) << 8u64) | ((b2 as u64) << 16u64) | ((b3 as u64) << 24u64) | ((
    b4 as u64) << 32u64) | ((b5 as u64) << 40u64) | ((b6 as u64) << 48u64) | ((b7 as u64) << 56u64)
        == seed) by (bit_vector)
        requires
            b0 == seed as u8,
            b1 == (seed >> 8u64) as u8,
            b2 == (seed >> 16u64) as u8,
            b3 == (seed >> 24u64) as u8,
            b4 == (seed >> 32u64) as u8,
            b5 == (seed >> 40u64) as u8,
            b6 == (seed >> 48u64) as u8,
            b7 == (seed >> 56u64) as u8,
    ;
}

/// The slots of a ring image are the values it was built from.
pub proof fn lemma_slots_of_ring_image(values: Seq<u64>)
    ensures
        slots(ring_image(values)) == values,
{
    let image = ring_image(values);
    assert forall|i: int| 0 <= i < values.len() implies #[trigger] slots(image)[i] == values[i] by {
        assert(image.subrange(8 * i, 8 * i + 8) =~= le_bytes(values[i]));
        lemma_le_roundtrip(values[i]);
    }
    assert(slots(image) =~= values);
}

/// Writing the bytes of `seed` at slot `j` of a ring image gives the image
/// of the values with slot `j` replaced.
pub proof fn lemma_write_slot(values: Seq<u64>, j: int, seed: u64)
    requires
        0 <= j < values.len(),
    ensures
        written_at(ring_image(values), 8 * j, le_bytes(seed)) == ring_image(values.update(j, seed)),
{
    let lhs = written_at(ring_image(values), 8 * j, le_bytes(seed));
    let rhs = ring_image(values.update(j, seed));
    assert(lhs.len() == rhs.len());
    assert forall|k: int| 0 <= k < lhs.len() implies lhs[k] == rhs[k] by {
        if k < 8 * j {
            assert(k / 8 < j);
        } else if k < 8 * j + 8 {
            assert(k / 8 == j);
            assert(k % 8 == k - 8 * j);
        } else {
            assert(k / 8 > j);
        }
    }
    assert(lhs =~= rhs);
}

/// What a read gives back of a write: in a log of `buffer_size` slots that
/// holds `values`, logging `seed` as the `counter`-th seed and reading the
/// log back gives the non-zero values with that slot replaced by `seed`.
pub proof fn lemma_log_then_load(values: Seq<u64>, buffer_size: nat, counter: nat, seed: u64)
    requires
        buffer_size > 0,
        values.len() == buffer_size,
    ensures
        stored_seeds(
            written_at(
                ring_image(values),
                8 * slot_of(counter, buffer_size) as int,
                le_bytes(seed),
            ),
        ) == nonzero(values.update(slot_of(counter, buffer_size) as int, seed)),
{
    let j = slot_of(counter, buffer_size) as int;
    lemma_write_slot(values, j, seed);
    lemma_slots_of_ring_image(values.update(j, seed));
}

/// The slots of a new log of `n` slots after the seeds `xs` were logged,
/// first to last.
pub open spec fn ring_after(n: nat, xs: Seq<u64>) -> Seq<u64>
    decreases xs.len(),
{
    if xs.len() == 0 {
        Seq::new(n, |_i: int| 0u64)
    } else {
        ring_after(n, xs.drop_last()).update(slot_of((xs.len() - 1) as nat, n) as int, xs.last())
    }
}

/// The bytes of a new log of `n` slots after the seeds `xs` were logged,
/// first to last: a new log holds `log_size` zero bytes, and each seed is
/// written as `seed_bytes` at `slot_offset` of its counter.
pub open spec fn log_after(n: nat, xs: Seq<u64>) -> Seq<u8>
    decreases xs.len(),
{
    if xs.len() == 0 {
        Seq::new(8 * n, |_k: int| 0u8)
    } else {
        written_at(log_after(n, xs.drop_last()), 8 * slot_of((xs.len() - 1) as nat, n) as int, le_bytes(xs.last()))
    }
}

/// Whether `m` is the last of the first `k` counters that land in slot `j`.
pub open spec fn last_in_slot(k: nat, n: nat, j: int, m: int) -> bool {
    &&& 0 <= m < k
    &&& m % (n as int) == j
    &&& forall|m2: int| m < m2 < k ==> #[trigger] (m2 % (n as int)) != j
}

proof fn lemma_mod_at_most(m: int, n: int)
    requires
        0 <= m,
        0 < n,
    ensures
        m % n <= m,
{
    assert(m % n <= m) by (nonlinear_arith)
        requires
            0 <= m,
            0 < n,
    {
        vstd::arithmetic::div_mod::lemma_fundamental_div_mod(m, n);
        assert(m / n >= 0);
        assert(n * (m / n) >= 0);
    }
}

/// The ring after `k` logs: each slot holds the last seed logged to it, and
/// a slot that no seed has reached yet holds zero; the log holds exactly the
/// bytes of those slots.
pub proof fn lemma_ring_after(n: nat, xs: Seq<u64>)
    requires
        n > 0,
    ensures
        ring_after(n, xs).len() == n,
        log_after(n, xs) == ring_image(ring_after(n, xs)),
        forall|j: int| 0 <= j < n && j >= xs.len() ==> #[trigger] ring_after(n, xs)[j] == 0,
        forall|j: int, m: int| 0 <= j < n && #[trigger] last_in_slot(xs.len(), n, j, m) ==> ring_after(n, xs)[j]
            == xs[m],
    decreases xs.len(),
{
    if xs.len() == 0 {
        let zeros = Seq::new(n, |_i: int| 0u64);
        assert((0u64 as u8) == 0u8 && ((0u64 >> 8u64) as u8) == 0u8 && ((0u64 >> 16u64) as u8) == 0u8 && ((
        0u64 >> 24u64) as u8) == 0u8 && ((0u64 >> 32u64) as u8) == 0u8 && ((0u64 >> 40u64) as u8) == 0u8
            && ((0u64 >> 48u64) as u8) == 0u8 && ((0u64 >> 56u64) as u8) == 0u8) by (bit_vector);
        assert forall|k: int| 0 <= k < 8 * n implies #[trigger] ring_image(zeros)[k] == 0u8 by {
            assert(zeros[k / 8] == 0u64);
            assert(0 <= k % 8 < 8);
        }
        assert(log_after(n, xs) =~= ring_image(zeros));
    } else {
        let prev = xs.drop_last();
        let k = xs.len() - 1;
        lemma_ring_after(n, prev);
        let s = slot_of(k as nat, n) as int;
        assert(0 <= s < n);
        lemma_write_slot(ring_after(n, prev), s, xs.last());
        lemma_mod_at_most(k, n as int);
        assert forall|j: int| 0 <= j < n && j >= xs.len() implies #[trigger] ring_after(n, xs)[j] == 0 by {
            assert(j != s);
        }
        assert forall|j: int, m: int| 0 <= j < n && #[trigger] last_in_slot(xs.len(), n, j, m) implies ring_after(
            n,
            xs,
        )[j] == xs[m] by {
            if m == k {
                assert(j == s);
            } else {
                assert(k % (n as int) != j);
                assert(j != s);
                assert(last_in_slot(prev.len(), n, j, m));
                assert(prev[m] == xs[m]);
            }
        }
    }
}

/// The seeds of a log come back in logging order when no more seeds were
/// logged than the ring has slots and none of them is zero.
pub proof fn lemma_logged_seeds_come_back(n: nat, xs: Seq<u64>)
    requires
        0 < xs.len() <= n,
        forall|i: int| 0 <= i < xs.len() ==> #[trigger] xs[i] != 0,
    ensures
        stored_seeds(log_after(n, xs)) == xs,
{
    lemma_ring_after(n, xs);
    let ring = ring_after(n, xs);
    let zeros = Seq::new((n - xs.len()) as nat, |_i: int| 0u64);
    assert forall|j: int| 0 <= j < n implies #[trigger] ring[j] == (xs + zeros)[j] by {
        if j < xs.len() {
            vstd::arithmetic::div_mod::lemma_small_mod(j as nat, n);
            assert(last_in_slot(xs.len(), n, j, j)) by {
                assert forall|m2: int| j < m2 < xs.len() implies #[trigger] (m2 % (n as int)) != j by {
                    vstd::arithmetic::div_mod::lemma_small_mod(m2 as nat, n);
                }
            }
        }
    }
    assert(ring =~= xs + zeros);
    lemma_slots_of_ring_image(ring);
    lemma_nonzero_append(xs, zeros);
    lemma_nonzero_zeros(zeros);
    lemma_nonzero_all(xs);
    assert(nonzero(xs) + nonzero(zeros) =~= xs);
}

/// Once the ring has wrapped, the log gives back exactly the last seed of
/// each slot, in slot order, when none of the seeds is zero.
pub proof fn lemma_wrapped_seeds_come_back(n: nat, xs: Seq<u64>)
    requires
        0 < n < xs.len(),
        forall|i: int| 0 <= i < xs.len() ==> #[trigger] xs[i] != 0,
    ensures
        stored_seeds(log_after(n, xs)).len() == n,
        forall|j: int, m: int| 0 <= j < n && #[trigger] last_in_slot(xs.len(), n, j, m) ==> stored_seeds(
            log_after(n, xs),
        )[j] == xs[m],
{
    lemma_ring_after(n, xs);
    let ring = ring_after(n, xs);
    assert forall|j: int| 0 <= j < ring.len() implies #[trigger] ring[j] != 0 by {
        lemma_last_counter(xs.len(), n, j);
        let m = last_counter(xs.len(), n, j);
        assert(last_in_slot(xs.len(), n, j, m));
    }
    lemma_slots_of_ring_image(ring);
    lemma_nonzero_all(ring);
}

/// The last of the first `k` counters that land in slot `j < k`.
spec fn last_counter(k: nat, n: nat, j: int) -> int
    decreases k,
{
    if k == 0 {
        0
    } else if (k - 1) % (n as int) == j {
        k - 1
    } else {
        last_counter((k - 1) as nat, n, j)
    }
}

proof fn lemma_last_counter(k: nat, n: nat, j: int)
    requires
        0 <= j < n,
        j < k,
    ensures
        last_in_slot(k, n, j, last_counter(k, n, j)),
    decreases k,
{
    if (k - 1) % (n as int) != j {
        if j == k - 1 {
            vstd::arithmetic::div_mod::lemma_small_mod(j as nat, n);
        }
        lemma_last_counter((k - 1) as nat, n, j);
    }
}

/// Keeping the non-zero values of two stretches keeps those of each.
pub proof fn lemma_nonzero_append(a: Seq<u64>, b: Seq<u64>)
    ensures
        nonzero(a + b) == nonzero(a) + nonzero(b),
    decreases b.len(),
{
    if b.len() == 0 {
        assert(a + b =~= a);
        assert(nonzero(a) + nonzero(b) =~= nonzero(a));
    } else {
        lemma_nonzero_append(a, b.drop_last());
        assert((a + b).drop_last() =~= a + b.drop_last());
        if b.last() != 0 {
            assert(nonzero(a) + nonzero(b) =~= (nonzero(a) + nonzero(b.drop_last())).push(b.last()));
        }
    }
}

/// Zeros keep nothing.
pub proof fn lemma_nonzero_zeros(z: Seq<u64>)
    requires
        forall|i: int| 0 <= i < z.len() ==> #[trigger] z[i] == 0,
    ensures
        nonzero(z) == Seq::<u64>::empty(),
    decreases z.len(),
{
    if z.len() > 0 {
        lemma_nonzero_zeros(z.drop_last());
    }
}

/// Values none of which is zero are all kept.
pub proof fn lemma_nonzero_all(v: Seq<u64>)
    requires
        forall|i: int| 0 <= i < v.len() ==> #[trigger] v[i] != 0,
    ensures
        nonzero(v) == v,
    decreases v.len(),
{
    if v.len() > 0 {
        lemma_nonzero_all(v.drop_last());
        assert(v.drop_last().push(v.last()) =~= v);
    }
}

/// One slot of zero bytes.
pub open spec fn zero_slot() -> Seq<u8> {
    Seq::new(8, |_k: int| 0u8)
}

/// Eight zero bytes inserted at a slot boundary change nothing that a log
/// gives back.
pub proof fn lemma_zero_slot_changes_nothing(log: Seq<u8>, p: int)
    requires
        0 <= p <= log.len() / 8,
    ensures
        stored_seeds(log.take(8 * p) + zero_slot() + log.skip(8 * p)) == stored_seeds(log),
{
    let zero8 = zero_slot();
    let log2 = log.take(8 * p) + zero8 + log.skip(8 * p);
    let s = slots(log);
    let s2 = slots(log2);
    assert(log2.len() / 8 == log.len() / 8 + 1);
    let expected = s.take(p) + seq![0u64] + s.skip(p);
    assert forall|q: int| 0 <= q < s2.len() implies #[trigger] s2[q] == expected[q] by {
        if q < p {
            assert(log2.subrange(8 * q, 8 * q + 8) =~= log.subrange(8 * q, 8 * q + 8));
        } else if q == p {
            assert(log2.subrange(8 * q, 8 * q + 8) =~= zero8);
            assert((0u8 as u64) | ((0u8 as u64) << 8u64) | ((0u8 as u64) << 16u64) | ((0u8 as u64) << 24u64) | ((
            0u8 as u64) << 32u64) | ((0u8 as u64) << 40u64) | ((0u8 as u64) << 48u64) | ((0u8 as u64) << 56u64)
                == 0u64) by (bit_vector);
        } else {
            assert(log2.subrange(8 * q, 8 * q + 8) =~= log.subrange(8 * (q - 1), 8 * (q - 1) + 8));
        }
    }
    assert(s2 =~= expected);
    lemma_nonzero_append(s.take(p) + seq![0u64], s.skip(p));
    lemma_nonzero_append(s.take(p), seq![0u64]);
    lemma_nonzero_append(s.take(p), s.skip(p));
    assert(seq![0u64].drop_last() =~= Seq::<u64>::empty());
    assert(nonzero(seq![0u64]) == nonzero(Seq::<u64>::empty()));
    assert(nonzero(s.take(p) + seq![0u64]) =~= nonzero(s.take(p)));
    assert(s.take(p) + s.skip(p) =~= s);
    assert(nonzero(expected) == nonzero(s));
    assert(stored_seeds(log2) == nonzero(s2));
}

/// Bytes appended to a log that do not complete another slot change
/// nothing that the log gives back.
pub proof fn lemma_trailing_bytes_change_nothing(log: Seq<u8>, tail: Seq<u8>)
    requires
        (log + tail).len() / 8 == log.len() / 8,
    ensures
        stored_seeds(log + tail) == stored_seeds(log),
{
    let log2 = log + tail;
    assert forall|q: int| 0 <= q < log.len() / 8 implies #[trigger] slots(log2)[q] == slots(log)[q] by {
        assert(log2.subrange(8 * q, 8 * q + 8) =~= log.subrange(8 * q, 8 * q + 8));
    }
    assert(slots(log2) =~= slots(log));
}

/// The little-endian bytes of `seed`, as `u64::to_le_bytes` gives them.
pub fn seed_bytes(seed: u64) -> (r: [u8; 8])
    ensures
        r@ == le_bytes(seed),
{
    let r = [
        (seed & 0xff) as u8,
        ((seed >> 8) & 0xff) as u8,
        ((seed >> 16) & 0xff) as u8,
        ((seed >> 24) & 0xff) as u8,
        ((seed >> 32) & 0xff) as u8,
        ((seed >> 40) & 0xff) as u8,
        ((seed >> 48) & 0xff) as u8,
        ((seed >> 56) & 0xff) as u8,
    ];
    assert((seed & 0xff) as u8 == seed as u8) by (bit_vector);
    assert(((seed >> 8) & 0xff) as u8 == (seed >> 8u64) as u8) by (bit_vector);
    assert(((seed >> 16) & 0xff) as u8 == (seed >> 16u64) as u8) by (bit_vector);
    assert(((seed >> 24) & 0xff) as u8 == (seed >> 24u64) as u8) by (bit_vector);
    assert(((seed >> 32) & 0xff) as u8 == (seed >> 32u64) as u8) by (bit_vector);
    assert(((seed >> 40) & 0xff) as u8 == (seed >> 40u64) as u8) by (bit_vector);
    assert(((seed >> 48) & 0xff) as u8 == (seed >> 48u64) as u8) by (bit_vector);
    assert(((seed >> 56) & 0xff) as u8 == (seed >> 56u64) as u8) by (bit_vector);
    assert(r@ =~= le_bytes(seed));
    r
}

/// The number whose little-endian bytes are `log[at..at + 8]`, as
/// `u64::from_le_bytes` reads it.
pub fn read_slot(log: &[u8], at: usize) -> (r: u64)
    requires
        at + 8 <= log@.len(),
    ensures
        r == le_value(log@.subrange(at as int, at + 8)),
{
    (log[at] as u64) | ((log[at + 1] as u64) << 8u64) | ((log[at + 2] as u64) << 16u64) | ((log[at
        + 3] as u64) << 24u64) | ((log[at + 4] as u64) << 32u64) | ((log[at + 5] as u64) << 40u64) | ((
    log[at + 6] as u64) << 48u64) | ((log[at + 7] as u64) << 56u64)
}

/// The size of a log of `buffer_size` slots, in bytes.
pub fn log_size(buffer_size: usize) -> (r: u64)
    requires
        buffer_size * 8 <= usize::MAX,
    ensures
        r == buffer_size * 8,
{
    (buffer_size * 8) as u64
}

/// Where the `counter`-th logged seed is written in a log of `buffer_size`
/// slots.
pub fn slot_offset(counter: usize, buffer_size: usize) -> (r: u64)
    requires
        buffer_size > 0,
        buffer_size * 8 <= usize::MAX,
    ensures
        r == 8 * slot_of(counter as nat, buffer_size as nat),
{
    let idx = counter % buffer_size;
    (idx * 8) as u64
}

/// All the non-zero seeds of a log, in slot order; a trailing part shorter
/// than a slot is ignored. Refused when there is none.
pub fn load_seeds(log: &[u8]) -> (r: Result<Vec<u64>, SeedError>)
    ensures
        match r {
            Ok(seeds) => seeds@ == stored_seeds(log@) && seeds@.len() > 0,
            Err(e) => e == SeedError::NoSeeds && stored_seeds(log@).len() == 0,
        },
{
    let mut seeds: Vec<u64> = Vec::new();
    let len = log.len();
    let count = len / 8;
    let mut i: usize = 0;
    while i < count
        invariant
            len == log@.len(),
            count == len / 8,
            i <= count,
            seeds@ == nonzero(slots(log@).take(i as int)),
        decreases count - i,
    {
        assert(i * 8 + 8 <= log@.len()) by (nonlinear_arith)
            requires
                i < count,
                count == len / 8,
                len == log@.len(),
        ;
        let seed = read_slot(log, i * 8);
        proof {
            let s = slots(log@);
            assert(s[i as int] == seed);
            assert(s.take(i + 1).drop_last() =~= s.take(i as int));
        }
        if seed != 0 {
            seeds.push(seed);
        }
        i = i + 1;
    }
    proof {
        assert(slots(log@).take(i as int) =~= slots(log@));
    }
    if seeds.len() == 0 {
        return Err(SeedError::NoSeeds);
    }
    Ok(seeds)
}

/// The seed that the `index`-th replayed batch uses: the list, looped.
pub fn replay_seed(seeds: &[u64], index: usize) -> (r: u64)
    requires
        seeds@.len() > 0,
    ensures
        r == seeds@[index as int % seeds@.len() as int],
{
    seeds[index % seeds.len()]
}

} // verus!
