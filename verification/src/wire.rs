//! Byte-level primitives shared by the result codec and by request
//! canonicalization: little-endian 64-bit integers and length-prefixed
//! byte blobs, each with an exact parsing specification.

use vstd::prelude::*;

verus! {

/// The eight little-endian bytes of a 64-bit integer.
pub open spec fn u64_le(x: u64) -> Seq<u8> {
    seq![
        (x & 0xff) as u8,
        ((x >> 8) & 0xff) as u8,
        ((x >> 16) & 0xff) as u8,
        ((x >> 24) & 0xff) as u8,
        ((x >> 32) & 0xff) as u8,
        ((x >> 40) & 0xff) as u8,
        ((x >> 48) & 0xff) as u8,
        ((x >> 56) & 0xff) as u8,
    ]
}

/// The value of the first eight bytes of `b`, read little-endian.
pub open spec fn le_val(b: Seq<u8>) -> u64 {
    (b[0] as u64) | ((b[1] as u64) << 8) | ((b[2] as u64) << 16) | ((b[3] as u64) << 24)
        | ((b[4] as u64) << 32) | ((b[5] as u64) << 40) | ((b[6] as u64) << 48) | ((b[7] as u64)
        << 56)
}

/// A byte blob prefixed by its length.
pub open spec fn blob(b: Seq<u8>) -> Seq<u8> {
    u64_le(b.len() as u64) + b
}

/// Parse a little-endian 64-bit integer from the front of `b`; `None` when
/// `b` is too short.
pub open spec fn parse_u64(b: Seq<u8>) -> Option<(u64, Seq<u8>)> {
    if b.len() >= 8 {
        Some((le_val(b.take(8)), b.skip(8)))
    } else {
        None
    }
}

/// Parse a length-prefixed blob from the front of `b`; `None` when `b` is
/// truncated.
pub open spec fn parse_blob(b: Seq<u8>) -> Option<(Seq<u8>, Seq<u8>)> {
    match parse_u64(b) {
        None => None,
        Some((n, rest)) => if rest.len() >= n {
            Some((rest.take(n as int), rest.skip(n as int)))
        } else {
            None
        },
    }
}

/// Each byte extracted by `u64_le` is below 256.
proof fn lemma_mask_byte(x: u64)
    ensures
        x & 0xff < 256,
        (x >> 8) & 0xff < 256,
        (x >> 16) & 0xff < 256,
        (x >> 24) & 0xff < 256,
        (x >> 32) & 0xff < 256,
        (x >> 40) & 0xff < 256,
        (x >> 48) & 0xff < 256,
        (x >> 56) & 0xff < 256,
{
    assert(x & 0xff < 256 && (x >> 8) & 0xff < 256 && (x >> 16) & 0xff < 256 && (x >> 24) & 0xff
        < 256 && (x >> 32) & 0xff < 256 && (x >> 40) & 0xff < 256 && (x >> 48) & 0xff < 256 && (x
        >> 56) & 0xff < 256) by (bit_vector);
}

/// Reading back the little-endian bytes of `x` yields `x`.
pub proof fn lemma_u64_le_val(x: u64)
    ensures
        le_val(u64_le(x)) == x,
{
    assert(((x & 0xff) as u8 as u64) | ((((x >> 8) & 0xff) as u8 as u64) << 8) | ((((x >> 16)
        & 0xff) as u8 as u64) << 16) | ((((x >> 24) & 0xff) as u8 as u64) << 24) | ((((x >> 32)
        & 0xff) as u8 as u64) << 32) | ((((x >> 40) & 0xff) as u8 as u64) << 40) | ((((x >> 48)
        & 0xff) as u8 as u64) << 48) | ((((x >> 56) & 0xff) as u8 as u64) << 56) == x)
        by (bit_vector);
}

/// The little-endian value of a byte string depends only on its first
/// eight bytes.
pub proof fn lemma_le_val_take(b: Seq<u8>)
    requires
        b.len() >= 8,
    ensures
        le_val(b.take(8)) == le_val(b),
{
    assert(forall|k: int| 0 <= k < 8 ==> b.take(8)[k] == b[k]);
}

/// An encoded integer at the front of a byte string parses back to itself,
/// leaving the tail.
pub proof fn lemma_parse_u64_prefix(x: u64, tail: Seq<u8>)
    ensures
        parse_u64(u64_le(x) + tail) == Some((x, tail)),
{
    lemma_u64_le_val(x);
    assert((u64_le(x) + tail).take(8) =~= u64_le(x));
    assert((u64_le(x) + tail).skip(8) =~= tail);
}

/// An encoded blob at the front of a byte string parses back to itself,
/// leaving the tail.
pub proof fn lemma_parse_blob_prefix(v: Seq<u8>, tail: Seq<u8>)
    requires
        v.len() <= u64::MAX,
    ensures
        parse_blob(blob(v) + tail) == Some((v, tail)),
{
    lemma_parse_u64_prefix(v.len() as u64, v + tail);
    assert(blob(v) + tail =~= u64_le(v.len() as u64) + (v + tail));
    assert((v + tail).take(v.len() as int) =~= v);
    assert((v + tail).skip(v.len() as int) =~= tail);
}

/// Append the little-endian bytes of `x` to `out`.
pub fn push_u64_le(out: &mut Vec<u8>, x: u64)
    ensures
        final(out)@ == old(out)@ + u64_le(x),
{
    proof {
        lemma_mask_byte(x);
    }
    out.push((x & 0xff) as u8);
    out.push(((x >> 8) & 0xff) as u8);
    out.push(((x >> 16) & 0xff) as u8);
    out.push(((x >> 24) & 0xff) as u8);
    out.push(((x >> 32) & 0xff) as u8);
    out.push(((x >> 40) & 0xff) as u8);
    out.push(((x >> 48) & 0xff) as u8);
    out.push(((x >> 56) & 0xff) as u8);
    proof {
        assert(out@ =~= old(out)@ + u64_le(x));
    }
}

/// Append the bytes of `data` to `out`.
pub fn push_bytes(out: &mut Vec<u8>, data: &Vec<u8>)
    ensures
        final(out)@ == old(out)@ + data@,
{
    let mut i: usize = 0;
    while i < data.len()
        invariant
            i <= data.len(),
            out@ == old(out)@ + data@.take(i as int),
        decreases data.len() - i,
    {
        out.push(data[i]);
        proof {
            assert(old(out)@ + data@.take(i as int) + seq![data@[i as int]] =~= old(out)@
                + data@.take(i + 1));
        }
        i = i + 1;
    }
    proof {
        assert(out@ =~= old(out)@ + data@);
    }
}

/// Append a length-prefixed blob holding `data` to `out`.
pub fn push_blob(out: &mut Vec<u8>, data: &Vec<u8>)
    ensures
        final(out)@ == old(out)@ + blob(data@),
{
    push_u64_le(out, data.len() as u64);
    push_bytes(out, data);
    proof {
        assert(out@ =~= old(out)@ + blob(data@));
    }
}

/// Byte-string equality.
pub fn bytes_eq(a: &Vec<u8>, b: &Vec<u8>) -> (r: bool)
    ensures
        r == (a@ == b@),
{
    if a.len() != b.len() {
        return false;
    }
    let mut i: usize = 0;
    while i < a.len()
        invariant
            i <= a@.len(),
            a@.len() == b@.len(),
            forall|k: int| 0 <= k < i ==> a@[k] == b@[k],
        decreases a@.len() - i,
    {
        if a[i] != b[i] {
            return false;
        }
        i = i + 1;
    }
    proof {
        assert(a@ =~= b@);
    }
    true
}

/// Read a little-endian 64-bit integer at `pos`.
pub fn read_u64_le(b: &Vec<u8>, pos: usize) -> (r: u64)
    requires
        pos + 8 <= b@.len(),
    ensures
        r == le_val(b@.skip(pos as int)),
{
    let len = b.len();
    proof {
        assert(pos + 8 <= len);
    }
    let r = (b[pos] as u64) | ((b[pos + 1] as u64) << 8) | ((b[pos + 2] as u64) << 16) | ((b[pos
        + 3] as u64) << 24) | ((b[pos + 4] as u64) << 32) | ((b[pos + 5] as u64) << 40) | ((b[pos
        + 6] as u64) << 48) | ((b[pos + 7] as u64) << 56);
    proof {
        assert(forall|k: int| 0 <= k < 8 ==> b@.skip(pos as int)[k] == b@[pos + k]);
    }
    r
}

/// Read a length-prefixed blob at `pos`; `None` when the bytes are
/// truncated.  On success returns the blob's contents and the position just
/// past it.
pub fn read_blob(b: &Vec<u8>, pos: usize) -> (r: Option<(Vec<u8>, usize)>)
    requires
        pos <= b@.len(),
    ensures
        match r {
            Some(p) => {
                &&& pos <= p.1 <= b@.len()
                &&& parse_blob(b@.skip(pos as int)) == Some((p.0@, b@.skip(p.1 as int)))
            },
            None => parse_blob(b@.skip(pos as int)) is None,
        },
{
    if b.len() - pos < 8 {
        return None;
    }
    let n = read_u64_le(b, pos);
    proof {
        assert(b@.skip(pos as int).take(8) =~= b@.skip(pos as int).take(8));
        assert(le_val(b@.skip(pos as int).take(8)) == le_val(b@.skip(pos as int))) by {
            assert(forall|k: int| 0 <= k < 8 ==> b@.skip(pos as int).take(8)[k] == b@.skip(
                pos as int,
            )[k]);
        }
    }
    let remaining = b.len() - pos - 8;
    if n > remaining as u64 {
        proof {
            let rest = b@.skip(pos as int).skip(8);
            assert(rest.len() == remaining);
        }
        return None;
    }
    let count = n as usize;
    let start = pos + 8;
    let blen = b.len();
    let mut v: Vec<u8> = Vec::new();
    let mut i: usize = 0;
    while i < count
        invariant
            i <= count,
            start + count <= blen,
            blen == b@.len(),
            v@ == b@.subrange(start as int, start as int + i as int),
        decreases count - i,
    {
        v.push(b[start + i]);
        proof {
            assert(v@ =~= b@.subrange(start as int, start as int + i as int + 1));
        }
        i = i + 1;
    }
    proof {
        let rest = b@.skip(pos as int).skip(8);
        assert(rest =~= b@.skip(pos as int + 8));
        assert(rest.take(n as int) =~= b@.subrange(start as int, start as int + n as int));
        assert(rest.skip(n as int) =~= b@.skip(pos as int + 8 + n as int));
        assert(v@ == b@.subrange(start as int, start as int + count as int));
    }
    Some((v, start + count))
}

} // verus!
