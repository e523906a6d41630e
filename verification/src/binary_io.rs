//! Binary framing primitives.
//!
//! Every persistent structure of the store — WAL records, SSTable data
//! entries, index entries, meta and trailer records — is written as a
//! *frame*: a little-endian 64-bit payload length followed by that many
//! payload bytes.  One fixed-width 4-byte little-endian integer appears
//! per SSTable file, as the anchor that locates the trailer frame.
//!
//! Reading distinguishes a *clean end of input* (the cursor stands exactly
//! at the end of the buffer when a length prefix is expected) from a
//! truncated frame (fewer bytes remain than the frame claims); the WAL
//! iterator stops on the former and fails on the latter.

use vstd::prelude::*;

verus! {

use vstd::bytes::{
    spec_u64_to_le_bytes, spec_u64_from_le_bytes, u64_to_le_bytes, u64_from_le_bytes,
    lemma_auto_spec_u64_to_from_le_bytes, spec_u32_to_le_bytes, spec_u32_from_le_bytes,
    u32_to_le_bytes, u32_from_le_bytes,
};
use vstd::slice::{slice_subrange, slice_to_vec};

/// Number of bytes in a frame's length prefix.
pub const FRAME_TAG_SIZE: usize = 8;

/// Number of bytes in the fixed trailer anchor at the end of an SSTable.
pub const LENGTH_TAG_SIZE: usize = 4;

/// How reading binary data can fail.
#[derive(Debug, PartialEq, Eq, Structural, Clone, Copy)]
pub enum Error {
    /// The cursor stood exactly at the end of the input where a length
    /// prefix was expected: a clean end of the stream.
    EndOfInput,
    /// The input ended in the middle of a length prefix or of a payload.
    Truncated,
    /// A frame was read but its payload does not decode as the expected
    /// record.
    SerializationError,
}

/// The bytes of one frame: little-endian 64-bit payload length, then the
/// payload itself.
pub open spec fn frame(payload: Seq<u8>) -> Seq<u8> {
    spec_u64_to_le_bytes(payload.len() as u64) + payload
}

/// Parse one frame at position `pos` of `bytes`: the payload and the
/// position just past the frame, or `None` if fewer than 8 bytes remain
/// or the payload runs past the end of the input.
pub open spec fn parse_frame(bytes: Seq<u8>, pos: int) -> Option<(Seq<u8>, int)> {
    if 0 <= pos && pos + 8 <= bytes.len() {
        let n = spec_u64_from_le_bytes(bytes.subrange(pos, pos + 8)) as int;
        if pos + 8 + n <= bytes.len() {
            Some((bytes.subrange(pos + 8, pos + 8 + n), pos + 8 + n))
        } else {
            None
        }
    } else {
        None
    }
}

/// Every frame is 8 bytes longer than its payload.
pub proof fn lemma_frame_len_auto()
    ensures
        forall|p: Seq<u8>| (#[trigger] frame(p)).len() == 8 + p.len(),
{
    lemma_auto_spec_u64_to_from_le_bytes();
    assert forall|p: Seq<u8>| (#[trigger] frame(p)).len() == 8 + p.len() by {
        assert(spec_u64_to_le_bytes(p.len() as u64).len() == 8);
    }
}

/// A frame parses back to exactly the payload it was built from, wherever
/// it stands in a larger buffer.
pub proof fn lemma_parse_frame_frame(prefix: Seq<u8>, payload: Seq<u8>, suffix: Seq<u8>)
    requires
        payload.len() <= u64::MAX,
    ensures
        parse_frame(prefix + frame(payload) + suffix, prefix.len() as int) == Some(
            (payload, prefix.len() + 8 + payload.len() as int),
        ),
{
    lemma_auto_spec_u64_to_from_le_bytes();
    let whole = prefix + frame(payload) + suffix;
    let pos = prefix.len() as int;
    assert(spec_u64_to_le_bytes(payload.len() as u64).len() == 8);
    assert(whole.subrange(pos, pos + 8) =~= spec_u64_to_le_bytes(payload.len() as u64));
    assert(spec_u64_from_le_bytes(whole.subrange(pos, pos + 8)) == payload.len() as u64);
    assert(whole.subrange(pos + 8, pos + 8 + payload.len() as int) =~= payload);
}

/// Append one frame holding `data` to `out`; report the number of bytes
/// written (the payload length plus the 8-byte length prefix).
pub fn write_frame(out: &mut Vec<u8>, data: &[u8]) -> (n: usize)
    requires
        old(out)@.len() + 8 + data@.len() <= usize::MAX,
    ensures
        final(out)@ == old(out)@ + frame(data@),
        n == 8 + data@.len(),
{
    let mut tag = u64_to_le_bytes(data.len() as u64);
    out.append(&mut tag);
    out.extend_from_slice(data);
    assert(final(out)@ == old(out)@ + frame(data@));
    FRAME_TAG_SIZE + data.len()
}

/// Read one frame at position `pos` of `bytes`: the payload and the
/// position just past the frame.  `EndOfInput` exactly when the cursor
/// stands at the end of the buffer; `Truncated` when bytes remain but not
/// as many as the frame needs.
pub fn read_frame(bytes: &[u8], pos: usize) -> (r: Result<(Vec<u8>, usize), Error>)
    requires
        pos <= bytes@.len(),
    ensures
        match parse_frame(bytes@, pos as int) {
            Some(pr) => r matches Ok(p) && p.0@ == pr.0 && p.1 as int == pr.1,
            None => r matches Err(e) && e == (if pos == bytes@.len() {
                Error::EndOfInput
            } else {
                Error::Truncated
            }),
        },
{
    if pos == bytes.len() {
        return Err(Error::EndOfInput);
    }
    if bytes.len() - pos < 8 {
        return Err(Error::Truncated);
    }
    let tag = slice_subrange(bytes, pos, pos + 8);
    let n = u64_from_le_bytes(tag);
    if n > (bytes.len() - pos - 8) as u64 {
        return Err(Error::Truncated);
    }
    let len = n as usize;
    let payload = slice_to_vec(slice_subrange(bytes, pos + 8, pos + 8 + len));
    Ok((payload, pos + 8 + len))
}

/// Append the fixed 4-byte little-endian size `d` to `out`; used once per
/// SSTable as the trailer anchor.
pub fn write_data_size(out: &mut Vec<u8>, d: u32) -> (n: usize)
    requires
        old(out)@.len() + 4 <= usize::MAX,
    ensures
        final(out)@ == old(out)@ + spec_u32_to_le_bytes(d),
        n == 4,
{
    let mut tag = u32_to_le_bytes(d);
    out.append(&mut tag);
    4
}

/// Read the fixed 4-byte little-endian size at position `pos` of `bytes`.
pub fn read_data_size(bytes: &[u8], pos: usize) -> (r: Result<u32, Error>)
    requires
        pos <= bytes@.len(),
    ensures
        if pos + 4 <= bytes@.len() {
            r matches Ok(d) && d == spec_u32_from_le_bytes(bytes@.subrange(pos as int, pos + 4))
        } else {
            r matches Err(e) && e == (if pos == bytes@.len() {
                Error::EndOfInput
            } else {
                Error::Truncated
            })
        },
{
    if pos == bytes.len() {
        return Err(Error::EndOfInput);
    }
    if bytes.len() - pos < 4 {
        return Err(Error::Truncated);
    }
    let tag = slice_subrange(bytes, pos, pos + 4);
    Ok(u32_from_le_bytes(tag))
}

} // verus!
