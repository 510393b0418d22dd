//! Byte-level helpers: big-endian 64-bit integers, the unit of all framing
//! here, and copying of byte ranges.

use vstd::prelude::*;

verus! {

/// The eight bytes of `n`, most significant first.
pub open spec fn be64(n: u64) -> Seq<u8> {
    let q1 = n / 256;
    let q2 = q1 / 256;
    let q3 = q2 / 256;
    let q4 = q3 / 256;
    let q5 = q4 / 256;
    let q6 = q5 / 256;
    let q7 = q6 / 256;
    seq![
        q7 as u8,
        (q6 % 256) as u8,
        (q5 % 256) as u8,
        (q4 % 256) as u8,
        (q3 % 256) as u8,
        (q2 % 256) as u8,
        (q1 % 256) as u8,
        (n % 256) as u8,
    ]
}

/// The number that the first eight bytes of `b` stand for, most significant
/// byte first.
pub open spec fn be64_value(b: Seq<u8>) -> int
    recommends
        b.len() >= 8,
{
    ((((((b[0] * 256 + b[1]) * 256 + b[2]) * 256 + b[3]) * 256 + b[4]) * 256 + b[5]) * 256
        + b[6]) * 256 + b[7]
}

/// Decoding an encoded integer gives the integer back.
pub proof fn lemma_be64_value_of_be64(n: u64)
    ensures
        be64(n).len() == 8,
        be64_value(be64(n)) == n,
{
    let q1 = n / 256;
    let q2 = q1 / 256;
    let q3 = q2 / 256;
    let q4 = q3 / 256;
    let q5 = q4 / 256;
    let q6 = q5 / 256;
    let q7 = q6 / 256;
    assert(q7 < 256);
    let b = be64(n);
    assert(b[0] * 256 + b[1] == q6);
    assert(q6 * 256 + b[2] == q5);
    assert(q5 * 256 + b[3] == q4);
    assert(q4 * 256 + b[4] == q3);
    assert(q3 * 256 + b[5] == q2);
    assert(q2 * 256 + b[6] == q1);
    assert(q1 * 256 + b[7] == n);
}

/// Eight bytes always stand for a 64-bit integer, and encoding that integer
/// gives the same eight bytes: no two byte strings stand for one number.
pub proof fn lemma_be64_of_be64_value(b: Seq<u8>)
    requires
        b.len() == 8,
    ensures
        0 <= be64_value(b) <= u64::MAX,
        be64(be64_value(b) as u64) == b,
{
    let v6 = b[0] * 256 + b[1];
    let v5 = v6 * 256 + b[2];
    let v4 = v5 * 256 + b[3];
    let v3 = v4 * 256 + b[4];
    let v2 = v3 * 256 + b[5];
    let v1 = v2 * 256 + b[6];
    let n = v1 * 256 + b[7];
    assert(n == be64_value(b));
    assert(0 <= n <= u64::MAX);
    assert(n / 256 == v1 && n % 256 == b[7]);
    assert(v1 / 256 == v2 && v1 % 256 == b[6]);
    assert(v2 / 256 == v3 && v2 % 256 == b[5]);
    assert(v3 / 256 == v4 && v3 % 256 == b[4]);
    assert(v4 / 256 == v5 && v4 % 256 == b[3]);
    assert(v5 / 256 == v6 && v5 % 256 == b[2]);
    assert(v6 / 256 == b[0] && v6 % 256 == b[1]);
    assert(be64(n as u64) =~= b);
}

/// Appends the big-endian encoding of `n` to `buf`.
pub fn put_be64(buf: &mut Vec<u8>, n: u64)
    ensures
        final(buf)@ == old(buf)@ + be64(n),
{
    let q1: u64 = n / 256;
    let q2: u64 = q1 / 256;
    let q3: u64 = q2 / 256;
    let q4: u64 = q3 / 256;
    let q5: u64 = q4 / 256;
    let q6: u64 = q5 / 256;
    let q7: u64 = q6 / 256;
    buf.push(q7 as u8);
    buf.push((q6 % 256) as u8);
    buf.push((q5 % 256) as u8);
    buf.push((q4 % 256) as u8);
    buf.push((q3 % 256) as u8);
    buf.push((q2 % 256) as u8);
    buf.push((q1 % 256) as u8);
    buf.push((n % 256) as u8);
    assert(buf@ =~= old(buf)@ + be64(n));
}

/// Reads the big-endian integer that starts at `pos`.
pub fn get_be64(data: &[u8], pos: usize) -> (n: u64)
    requires
        pos + 8 <= data@.len(),
    ensures
        n == be64_value(data@.subrange(pos as int, pos + 8)),
{
    let v6: u64 = (data[pos] as u64) * 256 + (data[pos + 1] as u64);
    let v5: u64 = v6 * 256 + (data[pos + 2] as u64);
    let v4: u64 = v5 * 256 + (data[pos + 3] as u64);
    let v3: u64 = v4 * 256 + (data[pos + 4] as u64);
    let v2: u64 = v3 * 256 + (data[pos + 5] as u64);
    let v1: u64 = v2 * 256 + (data[pos + 6] as u64);
    v1 * 256 + (data[pos + 7] as u64)
}

/// Appends all of `src` to `buf`.
pub fn append_bytes(buf: &mut Vec<u8>, src: &[u8])
    ensures
        final(buf)@ == old(buf)@ + src@,
{
    let mut i: usize = 0;
    while i < src.len()
        invariant
            i <= src@.len(),
            buf@ == old(buf)@ + src@.take(i as int),
        decreases src@.len() - i,
    {
        buf.push(src[i]);
        proof {
            assert(src@.take(i + 1) =~= src@.take(i as int).push(src@[i as int]));
        }
        i += 1;
    }
    proof {
        assert(src@.take(src@.len() as int) =~= src@);
    }
}

/// A copy of the bytes of `data` from `from` up to, not including, `to`.
pub fn copy_range(data: &[u8], from: usize, to: usize) -> (out: Vec<u8>)
    requires
        from <= to <= data@.len(),
    ensures
        out@ == data@.subrange(from as int, to as int),
{
    let mut out: Vec<u8> = Vec::new();
    let mut i: usize = from;
    while i < to
        invariant
            from <= i <= to <= data@.len(),
            out@ == data@.subrange(from as int, i as int),
        decreases to - i,
    {
        out.push(data[i]);
        proof {
            assert(data@.subrange(from as int, i + 1) =~= data@.subrange(from as int, i as int).push(
                data@[i as int],
            ));
        }
        i += 1;
    }
    out
}

} // verus!
