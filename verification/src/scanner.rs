//! The recovery scan: the records of a segment in order, up to the first
//! place where no sound record lies.

use vstd::prelude::*;

use crate::checksum::{crc32, verify};
use crate::command::{decoding, Command, CommandView};
use crate::record::{lemma_read_extends, read_at, read_at_spec, ReadError, HEADER_LEN};

verus! {

/// One record that a scan met: the command it carries, the offset of its
/// header, and its whole length.
#[derive(Debug)]
pub struct ScanEntry {
    pub command: Command,
    pub pos: u64,
    pub len: u64,
}

/// A scanned record as contracts see it.
pub struct EntryView {
    pub command: CommandView,
    pub pos: int,
    pub len: int,
}

impl View for ScanEntry {
    type V = EntryView;

    open spec fn view(&self) -> EntryView {
        EntryView { command: self.command@, pos: self.pos as int, len: self.len as int }
    }
}

/// Why a scan went no further.
#[derive(Clone, Copy, Debug, PartialEq, Eq, Structural)]
pub enum ScanEnd {
    /// The last record ends where the source ends.
    Complete,
    /// The source ends inside a record: a torn tail.
    TornTail,
    /// A whole record lies there, but its header is impossible, its checksum
    /// does not match, or its payload is no command.
    BadRecord,
}

/// What a scan found: the records from the start up to the first place
/// where no sound record lies, that place, and what is wrong there.
#[derive(Debug)]
pub struct Scan {
    pub entries: Vec<ScanEntry>,
    pub stop: u64,
    pub end: ScanEnd,
}

/// The sound record that starts at `off`, if one does: its command and its
/// whole length. Sound means whole, within the cap, with a matching
/// checksum and a payload that is a command.
pub open spec fn parse_at(src: Seq<u8>, off: int) -> Option<(CommandView, int)> {
    match read_at_spec(src, off) {
        Ok((crc, payload)) => if crc == crc32(payload) {
            match decoding(payload) {
                Some(command) => Some((command, 12 + payload.len() as int)),
                None => None,
            }
        } else {
            None
        },
        Err(_) => None,
    }
}

/// The records that a scan from `off` meets, in order.
pub open spec fn scan_from(src: Seq<u8>, off: int) -> Seq<EntryView>
    decreases src.len() - off,
{
    if 0 <= off < src.len() {
        match parse_at(src, off) {
            Some((command, len)) => seq![EntryView { command, pos: off, len }] + scan_from(
                src,
                off + len,
            ),
            None => Seq::empty(),
        }
    } else {
        Seq::empty()
    }
}

/// The place where a scan from `off` stops.
pub open spec fn scan_stop(src: Seq<u8>, off: int) -> int
    decreases src.len() - off,
{
    if 0 <= off < src.len() {
        match parse_at(src, off) {
            Some((command, len)) => scan_stop(src, off + len),
            None => off,
        }
    } else {
        off
    }
}

/// What is wrong at the place where a scan stopped.
pub open spec fn end_at(src: Seq<u8>, stop: int) -> ScanEnd {
    match read_at_spec(src, stop) {
        Err(ReadError::EndOfLog) => ScanEnd::Complete,
        Err(ReadError::Truncated) => ScanEnd::TornTail,
        _ => ScanEnd::BadRecord,
    }
}

/// The views of a list of scanned records.
pub open spec fn views(entries: Seq<ScanEntry>) -> Seq<EntryView> {
    Seq::new(entries.len(), |i: int| entries[i]@)
}

/// Reads the record at `offset` and checks it: the command it carries and
/// its whole length, or `None` where no sound record lies there.
pub fn parse(source: &[u8], offset: u64) -> (r: Option<(Command, u64)>)
    ensures
        match r {
            Some((command, len)) => parse_at(source@, offset as int) == Some(
                (command@, len as int),
            ),
            None => parse_at(source@, offset as int) is None,
        },
{
    match read_at(source, offset) {
        Ok((crc, payload)) => {
            if !verify(crc, payload.as_slice()) {
                return None;
            }
            match Command::decode(payload.as_slice()) {
                Ok(command) => Some((command, HEADER_LEN + payload.len() as u64)),
                Err(_) => None,
            }
        },
        Err(_) => None,
    }
}

/// Tells what is wrong at `offset`, where a scan stopped.
pub fn classify(source: &[u8], offset: u64) -> (end: ScanEnd)
    ensures
        end == end_at(source@, offset as int),
{
    match read_at(source, offset) {
        Err(ReadError::EndOfLog) => ScanEnd::Complete,
        Err(ReadError::Truncated) => ScanEnd::TornTail,
        _ => ScanEnd::BadRecord,
    }
}

/// Walks a segment from its start, record by record, up to the first place
/// where no sound record lies.
pub fn scan(source: &[u8]) -> (found: Scan)
    ensures
        views(found.entries@) == scan_from(source@, 0),
        found.stop == scan_stop(source@, 0),
        found.end == end_at(source@, found.stop as int),
        found.stop <= source@.len(),
{
    let mut entries: Vec<ScanEntry> = Vec::new();
    let mut offset: u64 = 0;
    let total: u64 = source.len() as u64;
    assert(views(entries@) =~= Seq::<EntryView>::empty());
    let mut done: bool = false;
    while !done && offset < total
        invariant
            total == source@.len(),
            offset <= total,
            scan_from(source@, 0) == views(entries@) + scan_from(source@, offset as int),
            scan_stop(source@, 0) == scan_stop(source@, offset as int),
            done ==> parse_at(source@, offset as int) is None,
        decreases total - offset + if done { 0int } else { 1int },
    {
        match parse(source, offset) {
            Some((command, len)) => {
                let ghost before = views(entries@);
                let ghost entry = EntryView { command: command@, pos: offset as int, len: len as int };
                entries.push(ScanEntry { command, pos: offset, len });
                proof {
                    assert(views(entries@) =~= before.push(entry));
                    assert(before + (seq![entry] + scan_from(source@, offset + len)) =~= before.push(
                        entry,
                    ) + scan_from(source@, offset + len));
                }
                offset = offset + len;
            },
            None => {
                done = true;
            },
        }
    }
    proof {
        assert(scan_from(source@, offset as int) =~= Seq::<EntryView>::empty());
        assert(scan_from(source@, 0) =~= views(entries@));
    }
    let end: ScanEnd = classify(source, offset);
    Scan { entries, stop: offset, end }
}

/// Where a scan stops, either the source has ended or no sound record lies.
pub proof fn lemma_scan_stop(data: Seq<u8>, off: int)
    requires
        0 <= off,
    ensures
        off <= scan_stop(data, off),
        scan_stop(data, off) >= data.len() || parse_at(data, scan_stop(data, off)) is None,
        scan_from(data, scan_stop(data, off)) == Seq::<EntryView>::empty(),
        scan_stop(data, scan_stop(data, off)) == scan_stop(data, off),
    decreases data.len() - off,
{
    if off < data.len() {
        match parse_at(data, off) {
            Some((command, len)) => {
                lemma_scan_stop(data, off + len);
            },
            None => {},
        }
    }
}

/// Every record that a scan meets is the sound record at its offset, lies
/// within the source, and starts no earlier than the scan did.
pub proof fn lemma_scan_entries(data: Seq<u8>, off: int, i: int)
    requires
        0 <= off,
        0 <= i < scan_from(data, off).len(),
    ensures
        off <= scan_from(data, off)[i].pos,
        scan_from(data, off)[i].len >= 12,
        scan_from(data, off)[i].pos + scan_from(data, off)[i].len <= data.len(),
        parse_at(data, scan_from(data, off)[i].pos) == Some(
            (scan_from(data, off)[i].command, scan_from(data, off)[i].len),
        ),
        i > 0 ==> scan_from(data, off)[i].pos >= off + scan_from(data, off)[0].len,
    decreases data.len() - off,
{
    if off < data.len() {
        match parse_at(data, off) {
            Some((command, len)) => {
                if i > 0 {
                    lemma_scan_entries(data, off + len, i - 1);
                }
            },
            None => {},
        }
    }
}

/// A scan of a source that goes on meets first what the scan of the shorter
/// source met, then goes on from where that scan stopped.
pub proof fn lemma_scan_extends(data: Seq<u8>, more: Seq<u8>, off: int)
    requires
        0 <= off,
    ensures
        scan_from(data + more, off) == scan_from(data, off) + scan_from(
            data + more,
            scan_stop(data, off),
        ),
        scan_stop(data + more, off) == scan_stop(data + more, scan_stop(data, off)),
    decreases data.len() - off,
{
    let longer = data + more;
    if off < data.len() {
        match parse_at(data, off) {
            Some((command, len)) => {
                lemma_read_extends(data, more, off);
                lemma_scan_extends(data, more, off + len);
                let first = seq![EntryView { command, pos: off, len }];
                assert(first + (scan_from(data, off + len) + scan_from(
                    longer,
                    scan_stop(data, off + len),
                )) =~= (first + scan_from(data, off + len)) + scan_from(
                    longer,
                    scan_stop(data, off + len),
                ));
            },
            None => {
                assert(scan_from(data, off) + scan_from(longer, off) =~= scan_from(longer, off));
            },
        }
    } else {
        assert(scan_from(data, off) + scan_from(longer, off) =~= scan_from(longer, off));
    }
}

} // verus!
