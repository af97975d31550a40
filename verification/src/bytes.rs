//! Byte strings: the mathematical operations that the contracts speak of,
//! and the few executable steps that build byte buffers.
use vstd::prelude::*;

verus! {

/// The concatenation of `parts`, first to last.
pub open spec fn concat(parts: Seq<Seq<u8>>) -> Seq<u8>
    decreases parts.len(),
{
    if parts.len() == 0 {
        seq![]
    } else {
        concat(parts.drop_last()) + parts.last()
    }
}

/// `piece` written `n` times in a row.
pub open spec fn repeated(piece: Seq<u8>, n: nat) -> Seq<u8>
    decreases n,
{
    if n == 0 {
        seq![]
    } else {
        repeated(piece, (n - 1) as nat) + piece
    }
}

/// `s` cut to at most `limit` bytes.
pub open spec fn capped(s: Seq<u8>, limit: nat) -> Seq<u8> {
    if s.len() > limit {
        s.take(limit as int)
    } else {
        s
    }
}

/// Whether the byte string `s` begins with `prefix`.
pub open spec fn starts_with(s: Seq<u8>, prefix: Seq<u8>) -> bool {
    prefix.len() <= s.len() && s.take(prefix.len() as int) == prefix
}

/// Appending one more part extends the concatenation by that part.
pub proof fn lemma_concat_push(parts: Seq<Seq<u8>>, p: Seq<u8>)
    ensures
        concat(parts.push(p)) == concat(parts) + p,
{
    assert(parts.push(p).drop_last() =~= parts);
}

/// Appends `bytes` to `buf`.
pub fn append(buf: &mut Vec<u8>, bytes: &[u8])
    ensures
        final(buf)@ == old(buf)@ + bytes@,
{
    let mut i: usize = 0;
    while i < bytes.len()
        invariant
            i <= bytes@.len(),
            buf@ == old(buf)@ + bytes@.take(i as int),
        decreases bytes@.len() - i,
    {
        buf.push(bytes[i]);
        i = i + 1;
        assert(bytes@.take(i as int) =~= bytes@.take(i - 1) + seq![bytes@[i - 1]]);
    }
    assert(bytes@.take(i as int) =~= bytes@);
}

/// Appends `count` copies of `byte` to `buf`.
pub fn push_repeated(buf: &mut Vec<u8>, byte: u8, count: usize)
    ensures
        final(buf)@ == old(buf)@ + Seq::new(count as nat, |_i: int| byte),
{
    let mut i: usize = 0;
    while i < count
        invariant
            i <= count,
            buf@ == old(buf)@ + Seq::new(i as nat, |_i: int| byte),
        decreases count - i,
    {
        buf.push(byte);
        i = i + 1;
        assert(Seq::new(i as nat, |_i: int| byte) =~= Seq::new((i - 1) as nat, |_i: int| byte).push(byte));
    }
}

/// Cuts `buf` to at most `limit` bytes.
pub fn cap(buf: &mut Vec<u8>, limit: usize)
    ensures
        final(buf)@ == capped(old(buf)@, limit as nat),
{
    if buf.len() > limit {
        buf.truncate(limit);
    }
}

/// Whether `a` and `b` hold the same bytes.
pub fn same_bytes(a: &[u8], b: &[u8]) -> (r: bool)
    ensures
        r == (a@ == b@),
{
    if a.len() != b.len() {
        return false;
    }
    let mut i: usize = 0;
    while i < a.len()
        invariant
            a@.len() == b@.len(),
            i <= a@.len(),
            forall|k: int| 0 <= k < i ==> a@[k] == b@[k],
        decreases a@.len() - i,
    {
        if a[i] != b[i] {
            return false;
        }
        i = i + 1;
    }
    assert(a@ =~= b@);
    true
}

/// A copy of `bytes`.
pub fn copy_bytes(bytes: &[u8]) -> (r: Vec<u8>)
    ensures
        r@ == bytes@,
{
    let mut r: Vec<u8> = Vec::new();
    append(&mut r, bytes);
    assert(r@ =~= bytes@);
    r
}

} // verus!
