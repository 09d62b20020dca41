//! The store as contracts see it: its state, its files, and what each
//! operation makes of them.

use vstd::prelude::*;

use crate::checksum::crc32;
use crate::command::{decoding, written, CommandView};
use crate::error::KvError;
use crate::index::{without, CommandPos};
use crate::record::{read_at_spec, record_bytes, HEADER_LEN};
use crate::scanner::{parse_at, scan_from, scan_stop, EntryView};
use crate::segment::content;

verus! {

/// Bytes of dead records above which a write sets off a compaction.
pub const COMPACTION_THRESHOLD: u64 = 1_048_576;

/// One past the highest generation number.
pub open spec fn generations() -> nat {
    0x1_0000_0000_0000_0000
}

/// The state of a store as contracts see it.
pub struct Model {
    /// From each live key to the record that last set it.
    pub index: Map<Seq<char>, CommandPos>,
    /// The live keys in the order in which a compaction copies them.
    pub order: Seq<Seq<char>>,
    /// The generation of the segment that takes the appends.
    pub active: u64,
    /// The count of bytes in records that the index no longer refers to.
    pub uncompacted: u64,
}

/// The files of a directory: from generation to content.
pub type Files = Map<u64, Seq<u8>>;

/// The counter of dead bytes after `by` more: it stops at its highest value.
pub open spec fn bump(counter: u64, by: int) -> u64 {
    if counter + by > u64::MAX {
        u64::MAX
    } else {
        (counter + by) as u64
    }
}

/// The length of the record that `key` is bound to, nothing if it is not bound.
pub open spec fn displaced(index: Map<Seq<char>, CommandPos>, key: Seq<char>) -> int {
    if index.contains_key(key) {
        index[key].len as int
    } else {
        0
    }
}

/// The state without any key, appending to generation `active`.
pub open spec fn blank(active: u64) -> Model {
    Model {
        index: Map::<Seq<char>, CommandPos>::empty(),
        order: Seq::<Seq<char>>::empty(),
        active,
        uncompacted: 0,
    }
}

/// The state after `key` is bound to the record at `at`: the record that it
/// was bound to before is dead.
pub open spec fn bind(m: Model, key: Seq<char>, at: CommandPos) -> Model {
    Model {
        index: m.index.insert(key, at),
        order: if m.index.contains_key(key) {
            m.order
        } else {
            m.order.push(key)
        },
        active: m.active,
        uncompacted: bump(m.uncompacted, displaced(m.index, key)),
    }
}

/// The state after a tombstone of `tomb` bytes unbinds `key`: the record
/// that the key was bound to is dead, and so is the tombstone.
pub open spec fn unbind(m: Model, key: Seq<char>, tomb: int) -> Model {
    Model {
        index: m.index.remove(key),
        order: without(m.order, key),
        active: m.active,
        uncompacted: bump(m.uncompacted, displaced(m.index, key) + tomb),
    }
}

/// The state after one scanned record of generation `file_num` is replayed.
pub open spec fn step(m: Model, file_num: u64, e: EntryView) -> Model {
    match e.command {
        CommandView::Put { key, .. } => bind(
            m,
            key,
            CommandPos { file_num, pos: e.pos as u64, len: e.len as u64 },
        ),
        CommandView::Remove { key } => unbind(m, key, e.len),
    }
}

/// The state after the records of one segment are replayed in order.
pub open spec fn replay_entries(m: Model, file_num: u64, entries: Seq<EntryView>) -> Model
    decreases entries.len(),
{
    if entries.len() == 0 {
        m
    } else {
        step(replay_entries(m, file_num, entries.drop_last()), file_num, entries.last())
    }
}

/// The state after every generation below `bound` is replayed, lowest first.
pub open spec fn replay_below(files: Files, bound: nat) -> Model
    decreases bound,
{
    if bound == 0 {
        blank(0)
    } else {
        let g = (bound - 1) as u64;
        let before = replay_below(files, (bound - 1) as nat);
        if files.contains_key(g) {
            replay_entries(before, g, scan_from(files[g], 0))
        } else {
            before
        }
    }
}

/// What recovery makes of a directory: index, walk and dead bytes.
pub open spec fn recovered(files: Files) -> Model {
    replay_below(files, generations())
}

/// The payload of the record that lies at `at`, checked against its stored
/// checksum and length: `Io` where the segment is missing, `Corruption`
/// where the record is not whole, not of the length that `at` gives, or does
/// not match its checksum.
pub open spec fn stored_at(files: Files, at: CommandPos) -> Result<Seq<u8>, KvError> {
    if !files.contains_key(at.file_num) {
        Err(KvError::Io)
    } else {
        match read_at_spec(files[at.file_num], at.pos as int) {
            Ok((crc, payload)) => if HEADER_LEN + payload.len() == at.len && crc == crc32(
                payload,
            ) {
                Ok(payload)
            } else {
                Err(KvError::Corruption)
            },
            Err(_) => Err(KvError::Corruption),
        }
    }
}

/// The command of the record that lies at `at`: `Codec` where the payload
/// is sound but is no command.
pub open spec fn record_at(files: Files, at: CommandPos) -> Result<CommandView, KvError> {
    match stored_at(files, at) {
        Ok(payload) => match decoding(payload) {
            Some(command) => Ok(command),
            None => Err(KvError::Codec),
        },
        Err(e) => Err(e),
    }
}

/// What a read of `key` gives: nothing for a key that the index does not
/// hold, else the value of the record that the index points at, nothing
/// again if that record is a tombstone.
pub open spec fn lookup(index: Map<Seq<char>, CommandPos>, files: Files, key: Seq<char>) -> Result<
    Option<Seq<char>>,
    KvError,
> {
    if !index.contains_key(key) {
        Ok(None)
    } else {
        match record_at(files, index[key]) {
            Ok(command) => Ok(command.value()),
            Err(e) => Err(e),
        }
    }
}

/// The record that carries `payload`, with the payload's checksum.
pub open spec fn sealed(payload: Seq<u8>) -> Seq<u8> {
    record_bytes(crc32(payload), payload)
}

/// The files after `bytes` are appended to generation `file_num`, which
/// starts empty if it was not there.
pub open spec fn appended(files: Files, file_num: u64, bytes: Seq<u8>) -> Files {
    files.insert(file_num, content(files, file_num) + bytes)
}

/// Where a record with `payload` lies once it is appended to `file_num`.
pub open spec fn next_pos(files: Files, file_num: u64, payload: Seq<u8>) -> CommandPos {
    CommandPos {
        file_num,
        pos: content(files, file_num).len() as u64,
        len: (HEADER_LEN + payload.len()) as u64,
    }
}

/// The files after the record of a command is appended to `file_num`, or
/// the files as they are where the command has no payload to write.
pub open spec fn after_write(files: Files, file_num: u64, command: CommandView) -> Files {
    match written(command) {
        Some(payload) => appended(files, file_num, sealed(payload)),
        None => files,
    }
}

/// Tells whether some file has a generation above `active`.
pub open spec fn crowded(files: Files, active: u64) -> bool {
    exists|g: u64| #[trigger] files.contains_key(g) && g > active
}

/// The sum of the lengths of the records that the keys of `order` are bound to.
pub open spec fn span(index: Map<Seq<char>, CommandPos>, order: Seq<Seq<char>>) -> int
    decreases order.len(),
{
    if order.len() == 0 {
        0
    } else {
        span(index, order.drop_last()) + index[order.last()].len
    }
}

/// The content of a compaction segment: the records of the keys of `order`,
/// each verified and copied in turn; or the error of the first record that
/// cannot be copied.
pub open spec fn migrated(
    files: Files,
    index: Map<Seq<char>, CommandPos>,
    order: Seq<Seq<char>>,
) -> Result<Seq<u8>, KvError>
    decreases order.len(),
{
    if order.len() == 0 {
        Ok(Seq::<u8>::empty())
    } else {
        match migrated(files, index, order.drop_last()) {
            Ok(bytes) => match stored_at(files, index[order.last()]) {
                Ok(payload) => Ok(bytes + sealed(payload)),
                Err(e) => Err(e),
            },
            Err(e) => Err(e),
        }
    }
}

/// The index after the keys of `order` are pointed at their copies in
/// generation `file_num`, which lie there back to back.
pub open spec fn relocated(
    index: Map<Seq<char>, CommandPos>,
    order: Seq<Seq<char>>,
    file_num: u64,
) -> Map<Seq<char>, CommandPos>
    decreases order.len(),
{
    if order.len() == 0 {
        index
    } else {
        relocated(index, order.drop_last(), file_num).insert(
            order.last(),
            CommandPos {
                file_num,
                pos: span(index, order.drop_last()) as u64,
                len: index[order.last()].len,
            },
        )
    }
}

/// What a compaction makes of a state and its files. It fails with `Io`
/// where no two fresh generations can be had above the active one, and with
/// the error of the first live record that cannot be copied. Else the live
/// records lie back to back in the generation after the active one, the
/// generation after that is empty and takes the appends, every older
/// segment is gone, and no byte is dead.
pub open spec fn compacted(m: Model, files: Files) -> Result<(Model, Files), KvError> {
    if crowded(files, m.active) || m.active > u64::MAX - 2 {
        Err(KvError::Io)
    } else {
        match migrated(files, m.index, m.order) {
            Ok(bytes) => Ok(
                (
                    Model {
                        index: relocated(m.index, m.order, (m.active + 1) as u64),
                        order: m.order,
                        active: (m.active + 2) as u64,
                        uncompacted: 0,
                    },
                    Map::<u64, Seq<u8>>::empty().insert((m.active + 1) as u64, bytes).insert(
                        (m.active + 2) as u64,
                        Seq::<u8>::empty(),
                    ),
                ),
            ),
            Err(e) => Err(e),
        }
    }
}

/// A write ends with a compaction if more than the threshold is dead. A
/// compaction that fails leaves everything as the write made it, and its
/// error is the write's result.
pub open spec fn settle(m: Model, files: Files) -> (Model, Files, Result<(), KvError>) {
    if m.uncompacted > COMPACTION_THRESHOLD {
        match compacted(m, files) {
            Ok((m2, files2)) => (m2, files2, Ok(())),
            Err(e) => (m, files, Err(e)),
        }
    } else {
        (m, files, Ok(()))
    }
}

/// What `set` makes of a state and its files, and what it returns.
pub open spec fn set_outcome(m: Model, files: Files, key: Seq<char>, value: Seq<char>) -> (
    Model,
    Files,
    Result<(), KvError>,
) {
    match written(CommandView::Put { key, value }) {
        Some(payload) => settle(
            bind(m, key, next_pos(files, m.active, payload)),
            appended(files, m.active, sealed(payload)),
        ),
        None => (m, files, Err(KvError::Codec)),
    }
}

/// What `remove` makes of a state and its files, and what it returns.
pub open spec fn remove_outcome(m: Model, files: Files, key: Seq<char>) -> (
    Model,
    Files,
    Result<(), KvError>,
) {
    if !m.index.contains_key(key) {
        (m, files, Err(KvError::KeyNotFound))
    } else {
        match written(CommandView::Remove { key }) {
            Some(payload) => settle(
                unbind(m, key, HEADER_LEN + payload.len()),
                appended(files, m.active, sealed(payload)),
            ),
            None => (m, files, Err(KvError::Codec)),
        }
    }
}

/// Tells whether `g` is the highest generation among the files.
pub open spec fn top_of(files: Files, g: u64) -> bool {
    files.contains_key(g) && forall|h: u64| #[trigger] files.contains_key(h) ==> h <= g
}

/// Tells whether a scan of the segment reaches its end: it is a run of
/// sound records and nothing else.
pub open spec fn clean(data: Seq<u8>) -> bool {
    scan_stop(data, 0) == data.len()
}

/// How `open` leaves things: the state is what recovery makes of the files
/// found; appends go to the highest generation if that segment is clean, and
/// else to a fresh empty segment one generation above it (generation 0 in
/// an empty directory).
pub open spec fn opened(files: Files, m: Model, after: Files) -> bool {
    &&& m.index == recovered(files).index
    &&& m.order == recovered(files).order
    &&& m.uncompacted == recovered(files).uncompacted
    &&& if files.contains_key(m.active) {
        top_of(files, m.active) && clean(files[m.active]) && after == files
    } else {
        &&& after == files.insert(m.active, Seq::<u8>::empty())
        &&& if m.active == 0 {
            files == Map::<u64, Seq<u8>>::empty()
        } else {
            top_of(files, (m.active - 1) as u64) && !clean(files[(m.active - 1) as u64])
        }
    }
}

/// The walk meets every key of the index, and each only once.
pub open spec fn walkable(m: Model) -> bool {
    &&& m.order.no_duplicates()
    &&& forall|k: Seq<char>| m.order.contains(k) <==> m.index.contains_key(k)
}

/// No file is longer than an offset can tell.
pub open spec fn valid_files(files: Files) -> bool {
    forall|g: u64| #[trigger] files.contains_key(g) ==> files[g].len() <= u64::MAX
}

/// The state is what recovery would make of the files, no file lies above
/// the active generation, and the active segment is clean: whatever is
/// appended to it next will be found again.
pub open spec fn tracks(m: Model, files: Files) -> bool {
    &&& m.index == recovered(files).index
    &&& m.order == recovered(files).order
    &&& m.uncompacted == recovered(files).uncompacted
    &&& forall|g: u64| #[trigger] files.contains_key(g) ==> g <= m.active
    &&& clean(content(files, m.active))
    &&& valid_files(files)
}

/// The record at `at` is a sound record that sets `key`.
pub open spec fn sets_key(files: Files, key: Seq<char>, at: CommandPos) -> bool {
    &&& files.contains_key(at.file_num)
    &&& parse_at(files[at.file_num], at.pos as int) is Some
    &&& parse_at(files[at.file_num], at.pos as int).unwrap().0 is Put
    &&& parse_at(files[at.file_num], at.pos as int).unwrap().0.key() == key
    &&& parse_at(files[at.file_num], at.pos as int).unwrap().1 == at.len
}

/// Every entry of the index points at a sound record that sets its key.
pub open spec fn sound(index: Map<Seq<char>, CommandPos>, files: Files) -> bool {
    forall|k: Seq<char>| #[trigger] index.contains_key(k) ==> sets_key(files, k, index[k])
}

/// The checksum tells two payloads apart.
pub open spec fn told_apart(a: Seq<u8>, b: Seq<u8>) -> bool {
    crc32(a) != crc32(b)
}

/// The place in generation `file_num` of the copy of the `j`-th key's record.
pub open spec fn copy_of(
    index: Map<Seq<char>, CommandPos>,
    order: Seq<Seq<char>>,
    file_num: u64,
    j: int,
) -> CommandPos {
    CommandPos { file_num, pos: span(index, order.take(j)) as u64, len: index[order[j]].len }
}

} // verus!
