//! The record codec: a 12-byte header (little-endian CRC-32 of the payload,
//! then little-endian payload length) followed by the payload.

use vstd::bytes::*;
use vstd::prelude::*;
use vstd::slice::*;

use crate::checksum::{checksum, crc32};

verus! {

/// Bytes of a record's header: a 4-byte checksum, then an 8-byte payload length.
pub const HEADER_LEN: u64 = 12;

/// The largest payload a record may carry: ten times the compaction threshold.
pub const MAX_PAYLOAD: u64 = 10_485_760;

/// Why no record could be read at an offset.
#[derive(Clone, Copy, Debug, PartialEq, Eq, Structural)]
pub enum ReadError {
    /// The offset is at or past the end of the source: there is no record here.
    EndOfLog,
    /// The source ends inside the header or inside the payload.
    Truncated,
    /// The header declares a payload above [`MAX_PAYLOAD`].
    Oversize,
}

/// The header of a record: checksum, then payload length, both little-endian.
pub open spec fn header_bytes(crc: u32, len: u64) -> Seq<u8> {
    spec_u32_to_le_bytes(crc) + spec_u64_to_le_bytes(len)
}

/// A whole record as it lies in a log: header, then payload.
pub open spec fn record_bytes(crc: u32, payload: Seq<u8>) -> Seq<u8> {
    header_bytes(crc, payload.len() as u64) + payload
}

/// The checksum field of the header that starts at `off`.
pub open spec fn stored_crc(src: Seq<u8>, off: int) -> u32 {
    spec_u32_from_le_bytes(src.subrange(off, off + 4))
}

/// The length field of the header that starts at `off`.
pub open spec fn stored_len(src: Seq<u8>, off: int) -> u64 {
    spec_u64_from_le_bytes(src.subrange(off + 4, off + 12))
}

/// What a positional read at `off` finds: the stored checksum and the payload,
/// or the reason why no whole record lies there. The checksum is not compared.
pub open spec fn read_at_spec(src: Seq<u8>, off: int) -> Result<(u32, Seq<u8>), ReadError> {
    if off < 0 || off >= src.len() {
        Err(ReadError::EndOfLog)
    } else if off + 12 > src.len() {
        Err(ReadError::Truncated)
    } else if stored_len(src, off) > MAX_PAYLOAD {
        Err(ReadError::Oversize)
    } else if off + 12 + stored_len(src, off) > src.len() {
        Err(ReadError::Truncated)
    } else {
        Ok((stored_crc(src, off), src.subrange(off + 12, off + 12 + stored_len(src, off))))
    }
}

/// Appends `src` to `dst`.
pub fn extend(dst: &mut Vec<u8>, src: &[u8])
    ensures
        final(dst)@ == old(dst)@ + src@,
{
    let mut i: usize = 0;
    while i < src.len()
        invariant
            i <= src@.len(),
            dst@ == old(dst)@ + src@.subrange(0, i as int),
        decreases src@.len() - i,
    {
        dst.push(src[i]);
        i += 1;
    }
}

/// Lays out a record from a checksum and a payload.
pub fn frame(crc: u32, payload: &[u8]) -> (bytes: Vec<u8>)
    ensures
        bytes@ == record_bytes(crc, payload@),
{
    let mut bytes: Vec<u8> = u32_to_le_bytes(crc);
    let len: u64 = payload.len() as u64;
    let len_bytes: Vec<u8> = u64_to_le_bytes(len);
    extend(&mut bytes, len_bytes.as_slice());
    extend(&mut bytes, payload);
    bytes
}

/// Appends to `sink` the record that carries `payload`, with the payload's
/// checksum in its header, and returns the record's length.
pub fn write(sink: &mut Vec<u8>, payload: &[u8]) -> (len: u64)
    requires
        payload@.len() <= MAX_PAYLOAD,
    ensures
        final(sink)@ == old(sink)@ + record_bytes(crc32(payload@), payload@),
        len == HEADER_LEN + payload@.len(),
{
    let crc: u32 = checksum(payload);
    let bytes: Vec<u8> = frame(crc, payload);
    proof {
        lemma_record_len(crc, payload@);
    }
    extend(sink, bytes.as_slice());
    HEADER_LEN + payload.len() as u64
}

/// Reads the record that starts at `offset` in `source`: its stored checksum
/// and its payload. The checksum is not compared with the payload.
pub fn read_at(source: &[u8], offset: u64) -> (r: Result<(u32, Vec<u8>), ReadError>)
    ensures
        match r {
            Ok((crc, payload)) => read_at_spec(source@, offset as int) == Ok::<
                (u32, Seq<u8>),
                ReadError,
            >((crc, payload@)),
            Err(e) => read_at_spec(source@, offset as int) == Err::<(u32, Seq<u8>), ReadError>(e),
        },
{
    let total: u64 = source.len() as u64;
    if offset >= total {
        return Err(ReadError::EndOfLog);
    }
    let rest: u64 = total - offset;
    if rest < HEADER_LEN {
        return Err(ReadError::Truncated);
    }
    let start: usize = offset as usize;
    let crc: u32 = u32_from_le_bytes(slice_subrange(source, start, start + 4));
    let len: u64 = u64_from_le_bytes(slice_subrange(source, start + 4, start + 12));
    if len > MAX_PAYLOAD {
        return Err(ReadError::Oversize);
    }
    if rest - HEADER_LEN < len {
        return Err(ReadError::Truncated);
    }
    let begin: usize = start + 12;
    let end: usize = begin + len as usize;
    let payload: Vec<u8> = slice_to_vec(slice_subrange(source, begin, end));
    Ok((crc, payload))
}

/// A record is twelve bytes longer than its payload.
pub proof fn lemma_record_len(crc: u32, payload: Seq<u8>)
    ensures
        record_bytes(crc, payload).len() == 12 + payload.len(),
        header_bytes(crc, payload.len() as u64).len() == 12,
{
    lemma_auto_spec_u32_to_from_le_bytes();
    lemma_auto_spec_u64_to_from_le_bytes();
}

/// A record written at the end of `before` is read back at that offset,
/// whatever follows it.
pub proof fn lemma_read_back(before: Seq<u8>, crc: u32, payload: Seq<u8>, after: Seq<u8>)
    requires
        payload.len() <= MAX_PAYLOAD,
    ensures
        read_at_spec(before + record_bytes(crc, payload) + after, before.len() as int) == Ok::<
            (u32, Seq<u8>),
            ReadError,
        >((crc, payload)),
{
    lemma_auto_spec_u32_to_from_le_bytes();
    lemma_auto_spec_u64_to_from_le_bytes();
    let src = before + record_bytes(crc, payload) + after;
    let off = before.len() as int;
    let len = payload.len() as u64;
    assert(src.subrange(off, off + 4) =~= spec_u32_to_le_bytes(crc));
    assert(src.subrange(off + 4, off + 12) =~= spec_u64_to_le_bytes(len));
    assert(src.subrange(off + 12, off + 12 + len) =~= payload);
}

/// A whole record is read alike from any source that goes on after it.
pub proof fn lemma_read_extends(data: Seq<u8>, more: Seq<u8>, off: int)
    requires
        read_at_spec(data, off) is Ok,
    ensures
        read_at_spec(data + more, off) == read_at_spec(data, off),
{
    let longer = data + more;
    let len = stored_len(data, off) as int;
    assert(longer.subrange(off, off + 4) =~= data.subrange(off, off + 4));
    assert(longer.subrange(off + 4, off + 12) =~= data.subrange(off + 4, off + 12));
    assert(longer.subrange(off + 12, off + 12 + len) =~= data.subrange(off + 12, off + 12 + len));
}

/// A whole record is read alike from a source cut off behind it.
pub proof fn lemma_read_within(data: Seq<u8>, n: int, off: int)
    requires
        read_at_spec(data, off) is Ok,
        off + 12 + read_at_spec(data, off).unwrap().1.len() <= n <= data.len(),
    ensures
        read_at_spec(data.take(n), off) == read_at_spec(data, off),
{
    let cut = data.take(n);
    let len = stored_len(data, off) as int;
    assert(cut.subrange(off, off + 4) =~= data.subrange(off, off + 4));
    assert(cut.subrange(off + 4, off + 12) =~= data.subrange(off + 4, off + 12));
    assert(cut.subrange(off + 12, off + 12 + len) =~= data.subrange(off + 12, off + 12 + len));
}

} // verus!
