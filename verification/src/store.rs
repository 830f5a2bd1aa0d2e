//! Random access to the zlib streams concatenated in `store0`. Each record's
//! extent holds exactly one stream; reading refuses to run into the next one.

use flate2::read::ZlibDecoder;
use std::io::Read;
use vstd::prelude::*;

verus! {

/// What decoding the zlib stream at the start of `stream` gives when exactly
/// `len` bytes are read from it and then one more read of a single byte is
/// attempted: the `len` bytes and the count that the extra read returned, or
/// `None` when either read fails.
pub uninterp spec fn zlib_inflate_probe(stream: Seq<u8>, len: u32) -> Option<(Seq<u8>, usize)>;

/// Inflates the zlib stream at the start of `extent` with flate2's
/// `read::ZlibDecoder`: `read_exact` into a buffer of `len` bytes, then one
/// `read` into a one-byte buffer. The contract names the outcome
/// `zlib_inflate_probe(extent, len)`, a function of the bytes and the length
/// alone, and states what std's `Read` documents: a filled buffer has `len`
/// bytes, and a read into a one-byte buffer returns at most 1.
#[verifier::external_body]
fn inflate_and_probe(extent: &[u8], len: u32) -> (r: Option<(Vec<u8>, usize)>)
    ensures
        match r {
            Some((out, more)) => {
                &&& zlib_inflate_probe(extent@, len) == Some((out@, more))
                &&& out@.len() == len
                &&& more <= 1
            },
            None => zlib_inflate_probe(extent@, len) is None,
        },
{
    let mut dec = ZlibDecoder::new(extent);
    let mut out = vec![0u8; len as usize];
    dec.read_exact(&mut out).ok()?;
    let mut extra = [0u8; 1];
    let more = dec.read(&mut extra).ok()?;
    Some((out, more))
}

/// The payload of an extent, given what inflating it gave: the bytes when
/// the stream ended right after them, `None` otherwise.
pub open spec fn spec_accept_stream(probe: Option<(Seq<u8>, usize)>) -> Option<Seq<u8>> {
    match probe {
        Some((out, more)) => if more == 0 {
            Some(out)
        } else {
            None
        },
        None => None,
    }
}

/// The bytes of `o`, if any.
pub open spec fn bytes_of(o: Option<Vec<u8>>) -> Option<Seq<u8>> {
    match o {
        Some(v) => Some(v@),
        None => None,
    }
}

/// Keeps the inflated bytes only when the stream ended exactly after them:
/// a further byte would mean it inflated past the declared size (or ran
/// into a following stream).
pub fn accept_stream(probe: Option<(Vec<u8>, usize)>) -> (r: Option<Vec<u8>>)
    ensures
        bytes_of(r) == spec_accept_stream(
            match probe {
                Some((out, more)) => Some((out@, more)),
                None => None,
            },
        ),
{
    match probe {
        Some((out, more)) => if more == 0 {
            Some(out)
        } else {
            None
        },
        None => None,
    }
}

/// The payload of the extent `store0[offset .. offset + csize]` inflated to
/// exactly `usize_len` bytes, or `None` when the extent does not lie inside
/// `store0` or does not inflate to exactly that many bytes.
pub open spec fn spec_read_extent(store0: Seq<u8>, offset: u64, csize: u32, usize_len: u32) -> Option<
    Seq<u8>,
> {
    if offset + csize <= store0.len() {
        spec_accept_stream(
            zlib_inflate_probe(store0.subrange(offset as int, offset + csize), usize_len),
        )
    } else {
        None
    }
}

/// Reading an extent looks only at the extent's own bytes: an extent
/// reaching past the end of `store0` gives `None`, and two stores whose
/// bytes agree on `offset .. offset + csize` give the same result.
pub proof fn lemma_extent_reads_only_its_bytes(
    s1: Seq<u8>,
    s2: Seq<u8>,
    offset: u64,
    csize: u32,
    usize_len: u32,
)
    ensures
        offset + csize > s1.len() ==> spec_read_extent(s1, offset, csize, usize_len) is None,
        offset + csize <= s1.len() && offset + csize <= s2.len() && (forall|i: int|
            offset <= i < offset + csize ==> s1[i] == s2[i]) ==> spec_read_extent(
            s1,
            offset,
            csize,
            usize_len,
        ) == spec_read_extent(s2, offset, csize, usize_len),
{
    if offset + csize <= s1.len() && offset + csize <= s2.len() && (forall|i: int|
        offset <= i < offset + csize ==> s1[i] == s2[i]) {
        assert(s1.subrange(offset as int, offset + csize) =~= s2.subrange(
            offset as int,
            offset + csize,
        ));
    }
}

/// Inflate the single zlib stream at `store0[offset .. offset + csize]`, which
/// must decompress to exactly `usize_len` bytes. Returns `None` on any
/// bounds/inflate/size failure (the caller skips such a record).
pub fn read_extent(store0: &[u8], offset: u64, csize: u32, usize_len: u32) -> (r: Option<Vec<u8>>)
    ensures
        bytes_of(r) == spec_read_extent(store0@, offset, csize, usize_len),
        r matches Some(p) ==> p@.len() == usize_len,
{
    if offset > store0.len() as u64 {
        return None;
    }
    let start = offset as usize;
    if store0.len() - start < csize as usize {
        return None;
    }
    let end = start + csize as usize;
    let extent = &store0[start..end];
    let probe = inflate_and_probe(extent, usize_len);
    accept_stream(probe)
}

} // verus!
