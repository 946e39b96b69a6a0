//! Reading and writing integers and runs of bytes.
use vstd::prelude::*;
use vstd::slice::slice_subrange;

verus! {

/// The big-endian 16-bit number at `i`.
#[verifier::opaque]
pub open spec fn be16(s: Seq<u8>, i: int) -> int {
    s[i] * 0x100 + s[i + 1]
}

/// The big-endian 32-bit number at `i`.
#[verifier::opaque]
pub open spec fn be32(s: Seq<u8>, i: int) -> int {
    s[i] * 0x100_0000 + s[i + 1] * 0x1_0000 + s[i + 2] * 0x100 + s[i + 3]
}

/// The big-endian 64-bit number at `i`.
#[verifier::opaque]
pub open spec fn be64(s: Seq<u8>, i: int) -> int {
    be32(s, i) * 0x1_0000_0000 + be32(s, i + 4)
}

/// The little-endian 32-bit number at `i`.
#[verifier::opaque]
pub open spec fn le32(s: Seq<u8>, i: int) -> int {
    s[i] + s[i + 1] * 0x100 + s[i + 2] * 0x1_0000 + s[i + 3] * 0x100_0000
}

/// The low 32 bits of `n`, most significant byte first.
#[verifier::opaque]
pub open spec fn be32_bytes(n: int) -> Seq<u8> {
    seq![
        (n / 0x100_0000 % 0x100) as u8,
        (n / 0x1_0000 % 0x100) as u8,
        (n / 0x100 % 0x100) as u8,
        (n % 0x100) as u8,
    ]
}

/// The low 64 bits of `n`, most significant byte first.
#[verifier::opaque]
pub open spec fn be64_bytes(n: int) -> Seq<u8> {
    be32_bytes(n / 0x1_0000_0000 % 0x1_0000_0000) + be32_bytes(n % 0x1_0000_0000)
}

/// The low 32 bits of `n`, least significant byte first.
#[verifier::opaque]
pub open spec fn le32_bytes(n: int) -> Seq<u8> {
    seq![
        (n % 0x100) as u8,
        (n / 0x100 % 0x100) as u8,
        (n / 0x1_0000 % 0x100) as u8,
        (n / 0x100_0000 % 0x100) as u8,
    ]
}

/// Reads the big-endian 16-bit number at `at`.
pub fn read_be16(data: &[u8], at: usize) -> (n: u16)
    requires
        at + 2 <= data.len(),
    ensures
        n == be16(data@, at as int),
{
    proof {
        reveal(be16);
    }
    data[at] as u16 * 0x100 + data[at + 1] as u16
}

/// Reads the big-endian 32-bit number at `at`.
pub fn read_be32(data: &[u8], at: usize) -> (n: u32)
    requires
        at + 4 <= data.len(),
    ensures
        n == be32(data@, at as int),
{
    proof {
        reveal(be32);
    }
    data[at] as u32 * 0x100_0000 + data[at + 1] as u32 * 0x1_0000 + data[at + 2] as u32 * 0x100
        + data[at + 3] as u32
}

/// Reads the big-endian 64-bit number at `at`.
pub fn read_be64(data: &[u8], at: usize) -> (n: u64)
    requires
        at + 8 <= data.len(),
    ensures
        n == be64(data@, at as int),
{
    proof {
        reveal(be64);
    }
    read_be32(data, at) as u64 * 0x1_0000_0000 + read_be32(data, at + 4) as u64
}

/// Reads the little-endian 32-bit number at `at`.
pub fn read_le32(data: &[u8], at: usize) -> (n: u32)
    requires
        at + 4 <= data.len(),
    ensures
        n == le32(data@, at as int),
{
    proof {
        reveal(le32);
    }
    data[at] as u32 + data[at + 1] as u32 * 0x100 + data[at + 2] as u32 * 0x1_0000
        + data[at + 3] as u32 * 0x100_0000
}

/// Appends `n`, most significant byte first.
pub fn push_be32(out: &mut Vec<u8>, n: u32)
    ensures
        final(out)@ == old(out)@ + be32_bytes(n as int),
{
    proof {
        reveal(be32_bytes);
    }
    out.push((n / 0x100_0000 % 0x100) as u8);
    out.push((n / 0x1_0000 % 0x100) as u8);
    out.push((n / 0x100 % 0x100) as u8);
    out.push((n % 0x100) as u8);
}

/// Appends the low 64 bits of `n`, most significant byte first.
pub fn push_be64(out: &mut Vec<u8>, n: u128)
    ensures
        final(out)@ == old(out)@ + be64_bytes(n as int),
{
    let high = (n / 0x1_0000_0000 % 0x1_0000_0000) as u32;
    push_be32(out, high);
    push_be32(out, (n % 0x1_0000_0000) as u32);
    proof {
        reveal(be64_bytes);
        assert(out@ =~= old(out)@ + be64_bytes(n as int));
    }
}

/// Appends the low 32 bits of `n`, least significant byte first.
pub fn push_le32(out: &mut Vec<u8>, n: u128)
    ensures
        final(out)@ == old(out)@ + le32_bytes(n as int),
{
    proof {
        reveal(le32_bytes);
    }
    out.push((n % 0x100) as u8);
    out.push((n / 0x100 % 0x100) as u8);
    out.push((n / 0x1_0000 % 0x100) as u8);
    out.push((n / 0x100_0000 % 0x100) as u8);
}

/// Appends `data[from..to]`.
pub fn push_range(out: &mut Vec<u8>, data: &[u8], from: usize, to: usize)
    requires
        from <= to <= data.len(),
    ensures
        final(out)@ == old(out)@ + data@.subrange(from as int, to as int),
{
    out.extend_from_slice(slice_subrange(data, from, to));
    assert(out@ =~= old(out)@ + data@.subrange(from as int, to as int));
}

/// Appends all of `data`.
pub fn push_all(out: &mut Vec<u8>, data: &[u8])
    ensures
        final(out)@ == old(out)@ + data@,
{
    out.extend_from_slice(data);
    assert(out@ =~= old(out)@ + data@);
}

/// Whether `data`, from `at` on, begins with `prefix`.
pub fn starts_with(data: &[u8], at: usize, prefix: &[u8]) -> (yes: bool)
    requires
        at <= data.len(),
    ensures
        yes == prefix@.is_prefix_of(data@.skip(at as int)),
{
    if prefix.len() > data.len() - at {
        return false;
    }
    let mut i: usize = 0;
    while i < prefix.len()
        invariant
            at <= data.len(),
            prefix.len() <= data.len() - at,
            i <= prefix.len(),
            forall|k: int| 0 <= k < i ==> prefix[k] == data[at + k],
        decreases prefix.len() - i,
    {
        if data[at + i] != prefix[i] {
            assert(data@.skip(at as int)[i as int] == data[at + i]);
            assert(data@.skip(at as int).subrange(0, prefix@.len() as int)[i as int] != prefix[
                i as int]);
            return false;
        }
        i = i + 1;
    }
    assert(prefix@ =~= data@.skip(at as int).subrange(0, prefix@.len() as int));
    true
}

/// The number depends on its four bytes alone.
pub proof fn be32_same(s: Seq<u8>, i: int, t: Seq<u8>, j: int)
    requires
        s[i] == t[j],
        s[i + 1] == t[j + 1],
        s[i + 2] == t[j + 2],
        s[i + 3] == t[j + 3],
    ensures
        be32(s, i) == be32(t, j),
{
    reveal(be32);
}

/// The number depends on its eight bytes alone.
pub proof fn be64_same(s: Seq<u8>, i: int, t: Seq<u8>, j: int)
    requires
        forall|k: int| 0 <= k < 8 ==> #[trigger] s[i + k] == t[j + k],
    ensures
        be64(s, i) == be64(t, j),
{
    reveal(be64);
    assert(s[i + 0] == t[j + 0]);
    be32_same(s, i, t, j);
    assert(s[i + 4] == t[j + 4] && s[i + 5] == t[j + 5]);
    assert(s[i + 6] == t[j + 6] && s[i + 7] == t[j + 7]);
    be32_same(s, i + 4, t, j + 4);
}

/// The number depends on its four bytes alone.
pub proof fn le32_same(s: Seq<u8>, i: int, t: Seq<u8>, j: int)
    requires
        s[i] == t[j],
        s[i + 1] == t[j + 1],
        s[i + 2] == t[j + 2],
        s[i + 3] == t[j + 3],
    ensures
        le32(s, i) == le32(t, j),
{
    reveal(le32);
}

/// Four bytes hold a 32-bit number.
pub proof fn be32_range(s: Seq<u8>, i: int)
    ensures
        0 <= be32(s, i) < 0x1_0000_0000,
{
    reveal(be32);
}

/// Four bytes hold a 32-bit number.
pub proof fn le32_range(s: Seq<u8>, i: int)
    ensures
        0 <= le32(s, i) < 0x1_0000_0000,
{
    reveal(le32);
}

/// What was written most significant byte first reads back.
pub proof fn be32_round_trip(n: int)
    requires
        0 <= n < 0x1_0000_0000,
    ensures
        be32_bytes(n).len() == 4,
        be32(be32_bytes(n), 0) == n,
{
    reveal(be32);
    reveal(be32_bytes);
}

/// What was written in 64 bits, most significant byte first, reads back.
pub proof fn be64_round_trip(n: int)
    requires
        0 <= n < 0x1_0000_0000_0000_0000,
    ensures
        be64_bytes(n).len() == 8,
        be64(be64_bytes(n), 0) == n,
{
    reveal(be64);
    reveal(be64_bytes);
    let high = n / 0x1_0000_0000 % 0x1_0000_0000;
    let low = n % 0x1_0000_0000;
    let s = be64_bytes(n);
    be32_round_trip(high);
    be32_round_trip(low);
    be32_same(s, 0, be32_bytes(high), 0);
    be32_same(s, 4, be32_bytes(low), 0);
}

/// Four bytes are those of the number that they hold.
pub proof fn be32_from_bytes(s: Seq<u8>, i: int)
    requires
        0 <= i,
        i + 4 <= s.len(),
    ensures
        be32_bytes(be32(s, i)) == s.subrange(i, i + 4),
{
    let n = be32(s, i);
    assert(n == s[i] * 0x100_0000 + s[i + 1] * 0x1_0000 + s[i + 2] * 0x100 + s[i + 3]) by {
        reveal(be32);
    }
    assert(n / 0x100_0000 == s[i]);
    assert(n / 0x1_0000 == s[i] * 0x100 + s[i + 1]);
    assert(n / 0x100 == s[i] * 0x1_0000 + s[i + 1] * 0x100 + s[i + 2]);
    assert(n / 0x100_0000 % 0x100 == s[i]);
    assert(n / 0x1_0000 % 0x100 == s[i + 1]);
    assert(n / 0x100 % 0x100 == s[i + 2]);
    assert(n % 0x100 == s[i + 3]);
    assert(be32_bytes(n) =~= s.subrange(i, i + 4)) by {
        reveal(be32_bytes);
    }
}

/// What was written least significant byte first reads back.
pub proof fn le32_round_trip(n: int)
    requires
        0 <= n < 0x1_0000_0000,
    ensures
        le32_bytes(n).len() == 4,
        le32(le32_bytes(n), 0) == n,
{
    reveal(le32);
    reveal(le32_bytes);
}

/// Big-endian numbers have their bytes in the order of their worth, most significant first, and
/// little-endian ones the other way round; both read and written.
pub proof fn bytes_count_by_their_place(a: u8, b: u8, c: u8, d: u8)
    ensures
        be16(seq![a, b], 0) == a * 0x100 + b,
        be32(seq![a, b, c, d], 0) == ((a * 0x100 + b) * 0x100 + c) * 0x100 + d,
        le32(seq![d, c, b, a], 0) == ((a * 0x100 + b) * 0x100 + c) * 0x100 + d,
        be32_bytes(((a * 0x100 + b) * 0x100 + c) * 0x100 + d) == seq![a, b, c, d],
        le32_bytes(((a * 0x100 + b) * 0x100 + c) * 0x100 + d) == seq![d, c, b, a],
{
    reveal(be16);
    reveal(be32);
    reveal(le32);
    let n = ((a * 0x100 + b) * 0x100 + c) * 0x100 + d;
    let s = seq![a, b, c, d];
    be32_from_bytes(s, 0);
    assert(s.subrange(0, 4) =~= s);
    assert(be32_bytes(n) == s);
    assert(le32_bytes(n) =~= seq![d, c, b, a]) by {
        reveal(le32_bytes);
        reveal(be32_bytes);
        assert(s[0] == a && s[1] == b && s[2] == c && s[3] == d);
    }
}

/// A 64-bit number is made of two of 32 bits, the more significant first; both read and written.
pub proof fn halves_count_by_their_place(high: Seq<u8>, low: Seq<u8>, n: int)
    requires
        high.len() == 4,
        low.len() == 4,
        0 <= n < 0x1_0000_0000_0000_0000,
    ensures
        be64(high + low, 0) == be32(high, 0) * 0x1_0000_0000 + be32(low, 0),
        be64_bytes(n) == be32_bytes(n / 0x1_0000_0000) + be32_bytes(n % 0x1_0000_0000),
{
    reveal(be64);
    reveal(be64_bytes);
    be32_same(high + low, 0, high, 0);
    be32_same(high + low, 4, low, 0);
}

/// Four bytes are these letters if and only if they hold their number.
pub proof fn be32_spells(s: Seq<u8>, i: int, a: u8, b: u8, c: u8, d: u8)
    requires
        0 <= i,
        i + 4 <= s.len(),
    ensures
        be32(s, i) == a * 0x100_0000 + b * 0x1_0000 + c * 0x100 + d <==> s.subrange(i, i + 4)
            == seq![a, b, c, d],
{
    reveal(be32);
    let code = s.subrange(i, i + 4);
    if code == seq![a, b, c, d] {
        assert(code[0] == a && code[1] == b && code[2] == c && code[3] == d);
    }
    if be32(s, i) == a * 0x100_0000 + b * 0x1_0000 + c * 0x100 + d {
        assert(code =~= seq![a, b, c, d]);
    }
}

/// `done` put in front of what `r` holds; an error stays.
pub open spec fn prepend<T, E>(done: Seq<T>, r: Result<Seq<T>, E>) -> Result<Seq<T>, E> {
    match r {
        Ok(rest) => Ok(done + rest),
        Err(e) => Err(e),
    }
}

} // verus!
