//! The store: open, read, write, remove and compact.

use vstd::prelude::*;

use crate::checksum::{crc32, verify};
use crate::command::{encode, written, Command, CommandView};
use crate::error::KvError;
use crate::index::{CommandPos, Index};
use crate::lemmas::{lemma_dir_valid, lemma_migrated_fails, lemma_relocated_frame, lemma_skip};
use crate::model::{
    appended, bind, blank, clean, compacted, copy_of, crowded, generations, lookup, migrated,
    next_pos, opened, record_at, relocated, remove_outcome, replay_below, replay_entries, sealed,
    set_outcome, span, step, stored_at, top_of, tracks, unbind, walkable, Files, Model,
    COMPACTION_THRESHOLD,
};
use crate::record::{lemma_record_len, HEADER_LEN};
use crate::scanner::{views, Scan, ScanEntry};
use crate::segment::{LogDir, Segment};

verus! {

/// The store: the index over a directory of log segments, the generation
/// that takes the appends, and the count of dead bytes. The directory
/// itself is the caller's, and goes into every call.
pub struct BitCaskPlus {
    map: Index,
    cur_gen: u64,
    uncompacted: u64,
}

impl View for BitCaskPlus {
    type V = Model;

    closed spec fn view(&self) -> Model {
        Model {
            index: self.map@,
            order: self.map.order(),
            active: self.cur_gen,
            uncompacted: self.uncompacted,
        }
    }
}

/// Reads the payload of the record at `at` and checks it against the stored
/// checksum and length.
pub fn read_payload(dir: &LogDir, at: CommandPos) -> (r: Result<Vec<u8>, KvError>)
    requires
        dir.wf(),
    ensures
        match r {
            Ok(payload) => stored_at(dir@, at) == Ok::<Seq<u8>, KvError>(payload@),
            Err(e) => stored_at(dir@, at) == Err::<Seq<u8>, KvError>(e),
        },
{
    let segment: &Segment = match dir.segment(at.file_num) {
        Some(segment) => segment,
        None => {
            return Err(KvError::Io);
        },
    };
    match segment.read_record(at.pos) {
        Ok((crc, payload)) => {
            if HEADER_LEN + payload.len() as u64 == at.len && verify(crc, payload.as_slice()) {
                Ok(payload)
            } else {
                Err(KvError::Corruption)
            }
        },
        Err(_) => Err(KvError::Corruption),
    }
}

/// Reads the command of the record at `at`, checksum verified.
pub fn read_command(dir: &LogDir, at: CommandPos) -> (r: Result<Command, KvError>)
    requires
        dir.wf(),
    ensures
        match r {
            Ok(command) => record_at(dir@, at) == Ok::<_, KvError>(command@),
            Err(e) => record_at(dir@, at) == Err::<CommandView, KvError>(e),
        },
{
    let payload: Vec<u8> = read_payload(dir, at)?;
    Command::decode(payload.as_slice())
}

/// Verifies the record at `at` and appends a copy of it to `out`.
pub fn migrate_entry(dir: &LogDir, at: CommandPos, out: &mut Vec<u8>) -> (r: Result<(), KvError>)
    requires
        dir.wf(),
    ensures
        match r {
            Ok(()) => stored_at(dir@, at) is Ok && final(out)@ == old(out)@ + sealed(
                stored_at(dir@, at).unwrap(),
            ),
            Err(e) => stored_at(dir@, at) == Err::<Seq<u8>, KvError>(e) && final(out)@ == old(
                out,
            )@,
        },
{
    let payload: Vec<u8> = read_payload(dir, at)?;
    crate::record::write(out, payload.as_slice());
    Ok(())
}

/// The list is a snapshot of the index: the keys of `order`, each with its place.
pub open spec fn snapshot_of(
    entries: Seq<(String, CommandPos)>,
    index: Map<Seq<char>, CommandPos>,
    order: Seq<Seq<char>>,
) -> bool {
    &&& entries.len() == order.len()
    &&& forall|j: int|
        0 <= j < entries.len() ==> (#[trigger] entries[j]).0@ == order[j] && index.contains_key(
            order[j],
        ) && entries[j].1 == index[order[j]]
}

/// The list holds the places of the copies of the first keys of `order`,
/// whose records all lie in generations below `file_num`.
pub open spec fn copies_of(
    moved: Seq<CommandPos>,
    index: Map<Seq<char>, CommandPos>,
    order: Seq<Seq<char>>,
    file_num: u64,
) -> bool {
    forall|j: int|
        0 <= j < moved.len() ==> (#[trigger] moved[j]) == copy_of(index, order, file_num, j)
            && index[order[j]].file_num < file_num
}

impl BitCaskPlus {
    /// The store's own invariant.
    pub closed spec fn wf(&self) -> bool {
        self.map.wf()
    }

    /// The walk of a store meets every key of its index, and each only once.
    pub proof fn lemma_walkable(&self)
        requires
            self.wf(),
        ensures
            walkable(self@),
    {
        self.map.lemma_order();
    }

    /// A store without keys that appends to generation 0.
    pub fn new() -> (store: BitCaskPlus)
        ensures
            store.wf(),
            store@ == blank(0),
    {
        BitCaskPlus { map: Index::new(), cur_gen: 0, uncompacted: 0 }
    }

    /// The generation of the segment that takes the appends.
    pub fn active(&self) -> (g: u64)
        ensures
            g == self@.active,
    {
        self.cur_gen
    }

    /// The count of bytes in records that the index no longer refers to.
    pub fn uncompacted(&self) -> (n: u64)
        ensures
            n == self@.uncompacted,
    {
        self.uncompacted
    }

    /// The place of the record that last set `key`, if the key is live.
    pub fn locate(&self, key: &str) -> (at: Option<CommandPos>)
        ensures
            at == self@.index.get(key@),
    {
        self.map.get(key)
    }

    /// Reads the value of `key`: looks the key up in the index, reads the
    /// record it points at from the directory, verifies its checksum and
    /// decodes it.
    pub fn get(&self, dir: &LogDir, key: &str) -> (r: Result<Option<String>, KvError>)
        requires
            dir.wf(),
        ensures
            match r {
                Ok(Some(value)) => lookup(self@.index, dir@, key@) == Ok::<_, KvError>(
                    Some(value@),
                ),
                Ok(None) => lookup(self@.index, dir@, key@) == Ok::<Option<Seq<char>>, KvError>(
                    None,
                ),
                Err(e) => lookup(self@.index, dir@, key@) == Err::<Option<Seq<char>>, KvError>(e),
            },
    {
        let at: CommandPos = match self.map.get(key) {
            Some(at) => at,
            None => {
                return Ok(None);
            },
        };
        match read_command(dir, at) {
            Ok(Command::Put { value, .. }) => Ok(Some(value)),
            Ok(Command::Remove { .. }) => Ok(None),
            Err(e) => Err(e),
        }
    }

    /// Replays the scanned records of one segment, in order.
    fn replay(&mut self, file_num: u64, entries: &Vec<ScanEntry>)
        requires
            old(self).wf(),
        ensures
            final(self).wf(),
            final(self)@ == replay_entries(old(self)@, file_num, views(entries@)),
    {
        let mut i: usize = 0;
        while i < entries.len()
            invariant
                self.wf(),
                i <= entries@.len(),
                self@ == replay_entries(old(self)@, file_num, views(entries@).take(i as int)),
            decreases entries@.len() - i,
        {
            let entry: &ScanEntry = &entries[i];
            let ghost before = self@;
            proof {
                let upto = views(entries@).take(i + 1);
                assert(upto.drop_last() =~= views(entries@).take(i as int));
                assert(upto.last() == entry@);
            }
            match &entry.command {
                Command::Put { key, .. } => {
                    let at = CommandPos { file_num, pos: entry.pos, len: entry.len };
                    let previous: Option<CommandPos> = self.map.insert(key.clone(), at);
                    if let Some(dead) = previous {
                        self.uncompacted = self.uncompacted.saturating_add(dead.len);
                    }
                    assert(self@ == bind(before, key@, at));
                },
                Command::Remove { key } => {
                    let previous: Option<CommandPos> = self.map.remove(key.as_str());
                    if let Some(dead) = previous {
                        self.uncompacted = self.uncompacted.saturating_add(dead.len);
                    }
                    self.uncompacted = self.uncompacted.saturating_add(entry.len);
                    assert(self@ == unbind(before, key@, entry.len as int));
                },
            }
            assert(self@ == step(before, file_num, entry@));
            i += 1;
        }
        assert(views(entries@).take(i as int) =~= views(entries@));
    }

    /// Opens the store over a directory: replays every segment, lowest
    /// generation first and each from its start, to rebuild the index, and
    /// settles where the appends go.
    pub fn open(dir: &mut LogDir) -> (r: Result<BitCaskPlus, KvError>)
        requires
            old(dir).wf(),
        ensures
            final(dir).wf(),
            match r {
                Ok(store) => store.wf() && opened(old(dir)@, store@, final(dir)@) && tracks(
                    store@,
                    final(dir)@,
                ),
                Err(e) => e == KvError::Io && final(dir)@ == old(dir)@ && top_of(
                    old(dir)@,
                    u64::MAX,
                ) && !clean(old(dir)@[u64::MAX]),
            },
    {
        let nums: Vec<u64> = dir.file_nums();
        let mut store = BitCaskPlus::new();
        let mut last_clean: bool = true;
        let mut i: usize = 0;
        let ghost mut bound: nat = 0;
        while i < nums.len()
            invariant
                dir.wf(),
                dir@ == old(dir)@,
                store.wf(),
                i <= nums@.len(),
                forall|g: u64| nums@.contains(g) <==> dir@.contains_key(g),
                forall|a: int, b: int| 0 <= a < b < nums@.len() ==> nums@[a] < nums@[b],
                bound <= generations(),
                i == 0 ==> bound == 0,
                i > 0 ==> bound == nums@[i - 1] + 1 && last_clean == clean(dir@[nums@[i - 1]]),
                store@ == replay_below(dir@, bound),
            decreases nums@.len() - i,
        {
            let g: u64 = nums[i];
            assert(nums@.contains(g));
            if let Some(segment) = dir.segment(g) {
                let found: Scan = segment.scan();
                last_clean = found.stop == segment.data.len() as u64;
                proof {
                    assert forall|h: u64| bound <= h < g implies !dir@.contains_key(h) by {
                        if dir@.contains_key(h) {
                            assert(nums@.contains(h));
                            let j = choose|j: int| 0 <= j < nums@.len() && nums@[j] == h;
                            if j < i {
                                if j < i - 1 {
                                    assert(nums@[j] < nums@[i - 1]);
                                }
                            } else if j > i {
                                assert(nums@[i as int] < nums@[j]);
                            }
                        }
                    }
                    lemma_skip(dir@, bound, g as nat);
                    bound = (g + 1) as nat;
                }
                store.replay(g, &found.entries);
            }
            i += 1;
        }
        proof {
            assert forall|h: u64| bound <= h < generations() implies !dir@.contains_key(h) by {
                if dir@.contains_key(h) {
                    assert(nums@.contains(h));
                    let j = choose|j: int| 0 <= j < nums@.len() && nums@[j] == h;
                    if j < i - 1 {
                        assert(nums@[j] < nums@[i - 1]);
                    }
                }
            }
            lemma_skip(dir@, bound, generations());
        }
        match dir.last_file_num() {
            None => {
                dir.create(0, Vec::new());
                store.cur_gen = 0;
            },
            Some(g) => {
                proof {
                    assert(nums@.contains(g));
                    let j = choose|j: int| 0 <= j < nums@.len() && nums@[j] == g;
                    if j < i - 1 {
                        assert(nums@[j] < nums@[i - 1]);
                        assert(dir@.contains_key(nums@[i - 1])) by {
                            assert(nums@.contains(nums@[i - 1]));
                        }
                    }
                }
                if last_clean {
                    store.cur_gen = g;
                } else {
                    if g == u64::MAX {
                        return Err(KvError::Io);
                    }
                    dir.create(g + 1, Vec::new());
                    store.cur_gen = g + 1;
                }
            },
        }
        proof {
            lemma_dir_valid(dir);
            crate::laws::law_open_tracks(old(dir)@, store@, dir@);
        }
        Ok(store)
    }

    /// Serializes a command and appends its record to the active segment.
    fn write_data(&self, dir: &mut LogDir, command: &Command) -> (r: Result<
        CommandPos,
        KvError,
    >)
        requires
            old(dir).wf(),
        ensures
            final(dir).wf(),
            match r {
                Ok(at) => written(command@) is Some && at == next_pos(
                    old(dir)@,
                    self@.active,
                    written(command@).unwrap(),
                ) && final(dir)@ == appended(
                    old(dir)@,
                    self@.active,
                    sealed(written(command@).unwrap()),
                ),
                Err(e) => e == KvError::Codec && written(command@) is None && final(dir)@ == old(
                    dir,
                )@,
            },
    {
        let (payload, crc, len) = encode(command)?;
        let pos: u64 = dir.append_record(self.cur_gen, crc, payload.as_slice());
        Ok(CommandPos { file_num: self.cur_gen, pos, len: HEADER_LEN + len })
    }

    /// Ends a write: compacts if more than the threshold is dead.
    fn settle(&mut self, dir: &mut LogDir) -> (r: Result<(), KvError>)
        requires
            old(self).wf(),
            old(dir).wf(),
        ensures
            final(self).wf(),
            final(dir).wf(),
            (final(self)@, final(dir)@, r) == crate::model::settle(old(self)@, old(dir)@),
    {
        if self.uncompacted > COMPACTION_THRESHOLD {
            let r = self.compaction(dir);
            proof {
                if r is Ok {
                    assert(r->Ok_0 == ());
                }
            }
            return r;
        }
        Ok(())
    }

    /// Binds `key` to `val`: appends the record to the active segment, points
    /// the index at it, counts the record that it displaces as dead, and
    /// compacts if more than the threshold is dead.
    pub fn set(&mut self, dir: &mut LogDir, key: String, val: String) -> (r: Result<(), KvError>)
        requires
            old(self).wf(),
            old(dir).wf(),
        ensures
            final(self).wf(),
            final(dir).wf(),
            (final(self)@, final(dir)@, r) == set_outcome(old(self)@, old(dir)@, key@, val@),
            r is Ok ==> lookup(final(self)@.index, final(dir)@, key@) == Ok::<
                Option<Seq<char>>,
                KvError,
            >(Some(val@)),
            forall|other: Seq<char>|
                other != key@ && lookup(old(self)@.index, old(dir)@, other) is Ok ==> lookup(
                    final(self)@.index,
                    final(dir)@,
                    other,
                ) == lookup(old(self)@.index, old(dir)@, other),
            tracks(old(self)@, old(dir)@) ==> tracks(final(self)@, final(dir)@),
    {
        proof {
            self.lemma_walkable();
            lemma_dir_valid(dir);
        }
        let command = Command::Put { key: key.clone(), value: val };
        let at: CommandPos = match self.write_data(dir, &command) {
            Ok(at) => at,
            Err(e) => {
                return Err(e);
            },
        };
        proof {
            lemma_dir_valid(dir);
        }
        let previous: Option<CommandPos> = self.map.insert(key, at);
        if let Some(dead) = previous {
            self.uncompacted = self.uncompacted.saturating_add(dead.len);
        }
        assert(self@ == bind(old(self)@, key@, at));
        let r = self.settle(dir);
        proof {
            lemma_dir_valid(dir);
            if r is Ok {
                crate::laws::law_set_then_get(old(self)@, old(dir)@, key@, val@);
            }
            assert forall|other: Seq<char>|
                other != key@ && lookup(old(self)@.index, old(dir)@, other) is Ok implies lookup(
                self@.index,
                dir@,
                other,
            ) == lookup(old(self)@.index, old(dir)@, other) by {
                crate::laws::law_set_keeps_others(old(self)@, old(dir)@, key@, val@, other);
            }
            if tracks(old(self)@, old(dir)@) {
                crate::laws::law_set_tracks(old(self)@, old(dir)@, key@, val@);
            }
        }
        r
    }

    /// Unbinds `key`: fails with `KeyNotFound`, and writes nothing, if the
    /// key is not live; else appends a tombstone, drops the key from the
    /// index, counts its record and the tombstone as dead, and compacts if
    /// more than the threshold is dead.
    pub fn remove(&mut self, dir: &mut LogDir, key: &str) -> (r: Result<(), KvError>)
        requires
            old(self).wf(),
            old(dir).wf(),
        ensures
            final(self).wf(),
            final(dir).wf(),
            (final(self)@, final(dir)@, r) == remove_outcome(old(self)@, old(dir)@, key@),
            r is Ok ==> lookup(final(self)@.index, final(dir)@, key@) == Ok::<
                Option<Seq<char>>,
                KvError,
            >(None),
            forall|other: Seq<char>|
                other != key@ && lookup(old(self)@.index, old(dir)@, other) is Ok ==> lookup(
                    final(self)@.index,
                    final(dir)@,
                    other,
                ) == lookup(old(self)@.index, old(dir)@, other),
            tracks(old(self)@, old(dir)@) ==> tracks(final(self)@, final(dir)@),
    {
        proof {
            self.lemma_walkable();
            lemma_dir_valid(dir);
        }
        if !self.map.contains_key(key) {
            return Err(KvError::KeyNotFound);
        }
        let command = Command::Remove { key: key.to_owned() };
        let at: CommandPos = match self.write_data(dir, &command) {
            Ok(at) => at,
            Err(e) => {
                return Err(e);
            },
        };
        proof {
            lemma_dir_valid(dir);
        }
        let previous: Option<CommandPos> = self.map.remove(key);
        if let Some(dead) = previous {
            self.uncompacted = self.uncompacted.saturating_add(dead.len);
        }
        self.uncompacted = self.uncompacted.saturating_add(at.len);
        assert(self@ == unbind(old(self)@, key@, at.len as int));
        let r = self.settle(dir);
        proof {
            lemma_dir_valid(dir);
            if r is Ok {
                crate::laws::law_remove_then_get(old(self)@, old(dir)@, key@);
            }
            assert forall|other: Seq<char>|
                other != key@ && lookup(old(self)@.index, old(dir)@, other) is Ok implies lookup(
                self@.index,
                dir@,
                other,
            ) == lookup(old(self)@.index, old(dir)@, other) by {
                crate::laws::law_remove_keeps_others(old(self)@, old(dir)@, key@, other);
            }
            if tracks(old(self)@, old(dir)@) {
                crate::laws::law_remove_tracks(old(self)@, old(dir)@, key@);
            }
        }
        r
    }

    /// Rewrites the live records into a fresh segment: verifies and copies
    /// the record of each live key, then puts the copy and a fresh empty
    /// active segment in place of every older segment and points the index
    /// at the copies. A failure before that leaves store and directory as
    /// they were.
    pub fn compaction(&mut self, dir: &mut LogDir) -> (r: Result<(), KvError>)
        requires
            old(self).wf(),
            old(dir).wf(),
        ensures
            final(self).wf(),
            final(dir).wf(),
            match r {
                Ok(()) => compacted(old(self)@, old(dir)@) == Ok::<(Model, Files), KvError>(
                    (final(self)@, final(dir)@),
                ),
                Err(e) => compacted(old(self)@, old(dir)@) == Err::<(Model, Files), KvError>(e)
                    && final(self)@ == old(self)@ && final(dir)@ == old(dir)@,
            },
            forall|key: Seq<char>|
                lookup(final(self)@.index, final(dir)@, key) == lookup(
                    old(self)@.index,
                    old(dir)@,
                    key,
                ),
            tracks(old(self)@, old(dir)@) ==> tracks(final(self)@, final(dir)@),
    {
        let r = self.compact(dir);
        proof {
            if r is Ok {
                old(self).lemma_walkable();
                lemma_dir_valid(dir);
                assert forall|key: Seq<char>|
                    lookup(self@.index, dir@, key) == lookup(old(self)@.index, old(dir)@, key) by {
                    crate::laws::law_compaction_keeps_values(old(self)@, old(dir)@, key);
                }
                if tracks(old(self)@, old(dir)@) {
                    crate::laws::law_compaction_tracks(old(self)@, old(dir)@);
                }
            }
        }
        r
    }

    /// Makes the copy and puts it in place, as `compaction` says.
    fn compact(&mut self, dir: &mut LogDir) -> (r: Result<(), KvError>)
        requires
            old(self).wf(),
            old(dir).wf(),
        ensures
            final(self).wf(),
            final(dir).wf(),
            match r {
                Ok(()) => compacted(old(self)@, old(dir)@) == Ok::<(Model, Files), KvError>(
                    (final(self)@, final(dir)@),
                ),
                Err(e) => compacted(old(self)@, old(dir)@) == Err::<(Model, Files), KvError>(e)
                    && final(self)@ == old(self)@ && final(dir)@ == old(dir)@,
            },
    {
        let ghost index = self@.index;
        let ghost order = self@.order;
        let ghost files = dir@;
        match dir.last_file_num() {
            Some(top) => {
                if top > self.cur_gen {
                    assert(crowded(files, self.cur_gen));
                    return Err(KvError::Io);
                }
            },
            None => {},
        }
        assert(!crowded(files, self.cur_gen));
        if self.cur_gen > u64::MAX - 2 {
            return Err(KvError::Io);
        }
        let compaction_gen: u64 = self.cur_gen + 1;
        let new_gen: u64 = self.cur_gen + 2;
        let entries: Vec<(String, CommandPos)> = self.map.entries();
        let mut out: Vec<u8> = Vec::new();
        let mut moved: Vec<CommandPos> = Vec::new();
        let mut i: usize = 0;
        assert(order.take(0) =~= Seq::<Seq<char>>::empty());
        assert(snapshot_of(entries@, index, order));
        while i < entries.len()
            invariant
                self.wf(),
                self@ == old(self)@,
                index == old(self)@.index,
                order == old(self)@.order,
                files == old(dir)@,
                dir.wf(),
                dir@ == files,
                !crowded(files, self.cur_gen),
                self.cur_gen <= u64::MAX - 2,
                compaction_gen == self.cur_gen + 1,
                i <= entries@.len(),
                snapshot_of(entries@, index, order),
                migrated(files, index, order.take(i as int)) == Ok::<Seq<u8>, KvError>(out@),
                out@.len() == span(index, order.take(i as int)),
                moved@.len() == i,
                copies_of(moved@, index, order, compaction_gen),
            decreases entries@.len() - i,
        {
            let at: CommandPos = entries[i].1;
            let new_pos: u64 = out.len() as u64;
            proof {
                assert(order.take(i + 1).drop_last() =~= order.take(i as int));
                assert(order.take(i + 1).last() == order[i as int]);
                assert(entries@[i as int].1 == index[order[i as int]]);
            }
            match migrate_entry(dir, at, &mut out) {
                Ok(()) => {
                    proof {
                        let payload = stored_at(files, at).unwrap();
                        lemma_record_len(crc32(payload), payload);
                        assert(files.contains_key(at.file_num));
                    }
                },
                Err(e) => {
                    proof {
                        lemma_migrated_fails(files, index, order, i + 1);
                    }
                    return Err(e);
                },
            }
            let ghost before = moved@;
            let copy = CommandPos { file_num: compaction_gen, pos: new_pos, len: at.len };
            moved.push(copy);
            proof {
                assert(copy == copy_of(index, order, compaction_gen, i as int));
                assert forall|j: int| 0 <= j < moved@.len() implies (#[trigger] moved@[j])
                    == copy_of(index, order, compaction_gen, j) && index[order[j]].file_num
                    < compaction_gen by {
                    if j < i {
                        assert(moved@[j] == before[j]);
                    }
                }
            }
            i += 1;
        }
        assert(order.take(i as int) =~= order);
        dir.remove_below(compaction_gen);
        assert(dir@ =~= Map::<u64, Seq<u8>>::empty()) by {
            assert forall|g: u64| !(#[trigger] dir@.contains_key(g)) by {
                if dir@.contains_key(g) {
                    assert(files.contains_key(g));
                }
            }
        }
        dir.create(compaction_gen, out);
        dir.create(new_gen, Vec::new());
        self.publish(&entries, &moved, compaction_gen);
        self.cur_gen = new_gen;
        self.uncompacted = 0;
        Ok(())
    }

    /// Points the index at the copies that a compaction made: each key of
    /// the snapshot whose record still lies in an older generation.
    fn publish(
        &mut self,
        entries: &Vec<(String, CommandPos)>,
        moved: &Vec<CommandPos>,
        compaction_gen: u64,
    )
        requires
            old(self).wf(),
            snapshot_of(entries@, old(self)@.index, old(self)@.order),
            moved@.len() == entries@.len(),
            copies_of(moved@, old(self)@.index, old(self)@.order, compaction_gen),
        ensures
            final(self).wf(),
            final(self)@ == (Model {
                index: relocated(old(self)@.index, old(self)@.order, compaction_gen),
                ..old(self)@
            }),
    {
        let ghost index = self@.index;
        let ghost order = self@.order;
        let mut k: usize = 0;
        proof {
            self.map.lemma_order();
            assert(order.take(0) =~= Seq::<Seq<char>>::empty());
        }
        while k < entries.len()
            invariant
                self.map.wf(),
                self.map.order() == order,
                self.cur_gen == old(self).cur_gen,
                self.uncompacted == old(self).uncompacted,
                order == old(self)@.order,
                order.no_duplicates(),
                k <= entries@.len(),
                moved@.len() == entries@.len(),
                snapshot_of(entries@, index, order),
                copies_of(moved@, index, order, compaction_gen),
                self.map@ == relocated(index, order.take(k as int), compaction_gen),
            decreases entries@.len() - k,
        {
            let key: String = entries[k].0.clone();
            proof {
                let upto = order.take(k as int);
                assert(order.take(k + 1).drop_last() =~= upto);
                assert(order.take(k + 1).last() == order[k as int]);
                assert forall|j: int| 0 <= j < upto.len() implies index.contains_key(
                    #[trigger] upto[j],
                ) by {
                    assert(upto[j] == order[j]);
                    assert(entries@[j].0@ == order[j]);
                }
                lemma_relocated_frame(index, upto, compaction_gen, order[k as int]);
                assert(!upto.contains(order[k as int])) by {
                    if upto.contains(order[k as int]) {
                        let j = choose|j: int| 0 <= j < upto.len() && upto[j] == order[k as int];
                        assert(order[j] == order[k as int]);
                    }
                }
                assert(entries@[k as int].0@ == order[k as int]);
                assert(moved@[k as int] == copy_of(index, order, compaction_gen, k as int));
            }
            let done: bool = self.map.relocate(key, moved[k], compaction_gen);
            assert(done);
            k += 1;
        }
        assert(order.take(k as int) =~= order);
    }
}

} // verus!
