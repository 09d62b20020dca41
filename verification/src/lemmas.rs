//! Lemmas about scanning, replay and compaction that the laws and the
//! store's own proofs rest on.

use vstd::prelude::*;

use crate::checksum::crc32;
use crate::command::{decoding, CommandView};
use crate::error::KvError;
use crate::index::{without, CommandPos};
use crate::laws::{law_compaction_keeps_values, law_compaction_tracks};
use crate::model::{
    appended, bind, blank, clean, compacted, copy_of, generations, lookup, migrated, next_pos,
    record_at, recovered, relocated, replay_below, replay_entries, sealed, sets_key, settle, sound,
    span, step, stored_at, tracks, unbind, valid_files, walkable, Files, Model,
    COMPACTION_THRESHOLD,
};
use crate::record::{lemma_read_back, lemma_read_extends, lemma_record_len, MAX_PAYLOAD};
use crate::scanner::{
    lemma_scan_entries, lemma_scan_extends, parse_at, scan_from, scan_stop, EntryView,
};
use crate::segment::{content, LogDir};

verus! {

/// Generations from `from` up to `to` that hold no file change nothing.
pub proof fn lemma_skip(files: Files, from: nat, to: nat)
    requires
        from <= to <= generations(),
        forall|g: u64| from <= g < to ==> !files.contains_key(g),
    ensures
        replay_below(files, to) == replay_below(files, from),
    decreases to,
{
    if from < to {
        lemma_skip(files, from, (to - 1) as nat);
    }
}

/// No file of a directory is longer than an offset can tell.
pub proof fn lemma_dir_valid(dir: &LogDir)
    requires
        dir.wf(),
    ensures
        valid_files(dir@),
{
    dir.lemma_sizes();
}

/// Keys outside `order` keep their places, and no key comes or goes.
pub proof fn lemma_relocated_frame(
    index: Map<Seq<char>, CommandPos>,
    order: Seq<Seq<char>>,
    file_num: u64,
    key: Seq<char>,
)
    requires
        forall|i: int| 0 <= i < order.len() ==> index.contains_key(#[trigger] order[i]),
    ensures
        relocated(index, order, file_num).contains_key(key) == index.contains_key(key),
        !order.contains(key) ==> relocated(index, order, file_num)[key] == index[key],
    decreases order.len(),
{
    if order.len() > 0 {
        let front = order.drop_last();
        assert forall|i: int| 0 <= i < front.len() implies index.contains_key(
            #[trigger] front[i],
        ) by {
            assert(front[i] == order[i]);
        }
        lemma_relocated_frame(index, front, file_num, key);
        assert(index.contains_key(order[order.len() - 1]));
        if !order.contains(key) {
            assert(order.last() != key);
            assert(!front.contains(key)) by {
                if front.contains(key) {
                    let i = choose|i: int| 0 <= i < front.len() && front[i] == key;
                    assert(order[i] == key);
                }
            }
        }
    }
}

/// A copy that fails on the first `n` keys fails on all of them alike.
pub proof fn lemma_migrated_fails(
    files: Files,
    index: Map<Seq<char>, CommandPos>,
    order: Seq<Seq<char>>,
    n: int,
)
    requires
        0 <= n <= order.len(),
        migrated(files, index, order.take(n)) is Err,
    ensures
        migrated(files, index, order) == migrated(files, index, order.take(n)),
    decreases order.len(),
{
    if n < order.len() {
        assert(order.drop_last().take(n) =~= order.take(n));
        lemma_migrated_fails(files, index, order.drop_last(), n);
    } else {
        assert(order.take(n) =~= order);
    }
}

/// Binding a key keeps the walk in step with the index.
pub proof fn lemma_bind_walkable(m: Model, key: Seq<char>, at: CommandPos)
    requires
        walkable(m),
    ensures
        walkable(bind(m, key, at)),
{
    let after = bind(m, key, at);
    if !m.index.contains_key(key) {
        assert forall|i: int, j: int|
            0 <= i < after.order.len() && 0 <= j < after.order.len() && i != j implies after.order[i]
            != after.order[j] by {
            if i == m.order.len() {
                assert(m.order.contains(m.order[j]));
            }
            if j == m.order.len() {
                assert(m.order.contains(m.order[i]));
            }
        }
        assert forall|k: Seq<char>| after.order.contains(k) <==> after.index.contains_key(k) by {
            if after.order.contains(k) {
                let i = choose|i: int| 0 <= i < after.order.len() && after.order[i] == k;
                if i < m.order.len() {
                    assert(m.order.contains(k));
                }
            }
            if after.index.contains_key(k) {
                if k == key {
                    assert(after.order[m.order.len() as int] == k);
                } else {
                    assert(m.index.contains_key(k));
                    assert(m.order.contains(k));
                    let i = choose|i: int| 0 <= i < m.order.len() && m.order[i] == k;
                    assert(after.order[i] == k);
                }
            }
        }
    }
}

/// Unbinding a key keeps the walk in step with the index.
pub proof fn lemma_unbind_walkable(m: Model, key: Seq<char>, tomb: int)
    requires
        walkable(m),
    ensures
        walkable(unbind(m, key, tomb)),
{
    let after = unbind(m, key, tomb);
    if m.order.contains(key) {
        let p = m.order.index_of(key);
        let n = m.order.len() as int;
        assert(after.order.len() == n - 1);
        assert forall|i: int| 0 <= i < n - 1 implies #[trigger] after.order[i] == (if i == p {
            m.order[n - 1]
        } else {
            m.order[i]
        }) by {}
        assert forall|i: int, j: int|
            0 <= i < after.order.len() && 0 <= j < after.order.len() && i != j implies after.order[i]
            != after.order[j] by {}
        assert forall|k: Seq<char>| after.order.contains(k) <==> after.index.contains_key(k) by {
            if after.order.contains(k) {
                let i = choose|i: int| 0 <= i < after.order.len() && after.order[i] == k;
                if i == p {
                    assert(m.order.contains(m.order[n - 1]));
                } else {
                    assert(m.order.contains(m.order[i]));
                }
            }
            if after.index.contains_key(k) {
                assert(m.index.contains_key(k));
                assert(m.order.contains(k));
                let i = choose|i: int| 0 <= i < n && m.order[i] == k;
                if i == n - 1 {
                    assert(after.order[p] == k);
                } else {
                    assert(after.order[i] == k);
                }
            }
        }
    } else {
        assert(after.index =~= m.index);
    }
}

/// Files that agree below `bound` are replayed alike below it.
pub proof fn lemma_replay_agree(f1: Files, f2: Files, bound: nat)
    requires
        bound <= generations(),
        forall|g: u64| g < bound ==> f1.contains_key(g) == f2.contains_key(g),
        forall|g: u64| g < bound && f1.contains_key(g) ==> f1[g] == f2[g],
    ensures
        replay_below(f1, bound) == replay_below(f2, bound),
    decreases bound,
{
    if bound > 0 {
        lemma_replay_agree(f1, f2, (bound - 1) as nat);
    }
}

/// Where no file lies above `g`, recovery ends with generation `g`.
pub proof fn lemma_recovered_top(files: Files, g: u64)
    requires
        forall|h: u64| #[trigger] files.contains_key(h) ==> h <= g,
    ensures
        recovered(files) == replay_entries(
            replay_below(files, g as nat),
            g,
            scan_from(content(files, g), 0),
        ),
{
    lemma_skip(files, (g + 1) as nat, generations());
    assert(replay_below(files, (g + 1) as nat) == if files.contains_key(g) {
        replay_entries(replay_below(files, g as nat), g, scan_from(files[g], 0))
    } else {
        replay_below(files, g as nat)
    });
}

/// A sound record appended to a clean segment is the one record more that
/// the scan of the segment finds, and the segment is clean again.
pub proof fn lemma_scan_append(data: Seq<u8>, payload: Seq<u8>, command: CommandView)
    requires
        clean(data),
        decoding(payload) == Some(command),
        payload.len() <= MAX_PAYLOAD,
    ensures
        scan_from(data + sealed(payload), 0) == scan_from(data, 0).push(
            EntryView { command, pos: data.len() as int, len: 12 + payload.len() as int },
        ),
        clean(data + sealed(payload)),
{
    let record = sealed(payload);
    let longer = data + record;
    let at = data.len() as int;
    lemma_record_len(crc32(payload), payload);
    lemma_scan_extends(data, record, 0);
    lemma_read_back(data, crc32(payload), payload, Seq::<u8>::empty());
    assert(data + record + Seq::<u8>::empty() =~= longer);
    assert(parse_at(longer, at) == Some((command, 12 + payload.len() as int)));
    let entry = EntryView { command, pos: at, len: 12 + payload.len() as int };
    assert(scan_from(longer, at + entry.len) =~= Seq::<EntryView>::empty());
    assert(scan_from(longer, at) =~= seq![entry]);
    assert(scan_from(data, 0) + seq![entry] =~= scan_from(data, 0).push(entry));
    assert(scan_stop(longer, at) == scan_stop(longer, at + entry.len));
}

/// What recovery makes of the files after a sound record is appended to the
/// clean top segment is what it made before, with that record replayed.
pub proof fn lemma_recovered_append(files: Files, g: u64, payload: Seq<u8>, command: CommandView)
    requires
        forall|h: u64| #[trigger] files.contains_key(h) ==> h <= g,
        clean(content(files, g)),
        decoding(payload) == Some(command),
        payload.len() <= MAX_PAYLOAD,
    ensures
        recovered(appended(files, g, sealed(payload))) == step(
            recovered(files),
            g,
            EntryView { command, pos: content(files, g).len() as int, len: 12 + payload.len() as int },
        ),
        clean(content(appended(files, g, sealed(payload)), g)),
{
    let after = appended(files, g, sealed(payload));
    let data = content(files, g);
    lemma_scan_append(data, payload, command);
    lemma_recovered_top(files, g);
    lemma_recovered_top(after, g);
    lemma_replay_agree(files, after, g as nat);
    let entry = EntryView { command, pos: data.len() as int, len: 12 + payload.len() as int };
    assert(scan_from(data, 0).push(entry).drop_last() =~= scan_from(data, 0));
}

/// Replaying records that are sound in the files keeps the index sound.
pub proof fn lemma_replay_entries_sound(m: Model, g: u64, entries: Seq<EntryView>, files: Files)
    requires
        sound(m.index, files),
        files.contains_key(g),
        files[g].len() <= u64::MAX,
        forall|i: int|
            0 <= i < entries.len() ==> 0 <= (#[trigger] entries[i]).pos && entries[i].pos
                + entries[i].len <= files[g].len() && parse_at(files[g], entries[i].pos) == Some(
                (entries[i].command, entries[i].len),
            ),
    ensures
        sound(replay_entries(m, g, entries).index, files),
    decreases entries.len(),
{
    if entries.len() > 0 {
        let front = entries.drop_last();
        let last = entries.last();
        assert forall|i: int| 0 <= i < front.len() implies 0 <= (#[trigger] front[i]).pos
            && front[i].pos + front[i].len <= files[g].len() && parse_at(files[g], front[i].pos)
            == Some((front[i].command, front[i].len)) by {
            assert(front[i] == entries[i]);
        }
        lemma_replay_entries_sound(m, g, front, files);
        let before = replay_entries(m, g, front);
        let after = step(before, g, last);
        assert(last == entries[entries.len() - 1]);
        assert forall|k: Seq<char>| #[trigger] after.index.contains_key(k) implies sets_key(
            files,
            k,
            after.index[k],
        ) by {
            match last.command {
                CommandView::Put { key, value } => {
                    if k != key {
                        assert(before.index.contains_key(k));
                    }
                },
                CommandView::Remove { key } => {
                    assert(before.index.contains_key(k));
                },
            }
        }
    }
}

/// The index that recovery makes is sound.
pub proof fn lemma_replay_below_sound(files: Files, bound: nat)
    requires
        bound <= generations(),
        valid_files(files),
    ensures
        sound(replay_below(files, bound).index, files),
    decreases bound,
{
    if bound > 0 {
        let g = (bound - 1) as u64;
        lemma_replay_below_sound(files, (bound - 1) as nat);
        if files.contains_key(g) {
            let entries = scan_from(files[g], 0);
            assert forall|i: int| 0 <= i < entries.len() implies 0 <= (#[trigger] entries[i]).pos
                && entries[i].pos + entries[i].len <= files[g].len() && parse_at(
                files[g],
                entries[i].pos,
            ) == Some((entries[i].command, entries[i].len)) by {
                lemma_scan_entries(files[g], 0, i);
            }
            lemma_replay_entries_sound(
                replay_below(files, (bound - 1) as nat),
                g,
                entries,
                files,
            );
        }
    }
}

/// A copy is as long as the records it was made of.
pub proof fn lemma_migrated_len(
    files: Files,
    index: Map<Seq<char>, CommandPos>,
    order: Seq<Seq<char>>,
)
    requires
        migrated(files, index, order) is Ok,
    ensures
        migrated(files, index, order).unwrap().len() == span(index, order),
    decreases order.len(),
{
    if order.len() > 0 {
        lemma_migrated_len(files, index, order.drop_last());
        let payload = stored_at(files, index[order.last()]).unwrap();
        lemma_record_len(crc32(payload), payload);
    }
}

/// In a copy, the record of the `j`-th key follows the copy of the keys
/// before it: the copy starts with those, then that record.
pub proof fn lemma_migrated_parts(
    files: Files,
    index: Map<Seq<char>, CommandPos>,
    order: Seq<Seq<char>>,
    j: int,
)
    requires
        migrated(files, index, order) is Ok,
        0 <= j < order.len(),
    ensures
        migrated(files, index, order.take(j)) is Ok,
        stored_at(files, index[order[j]]) is Ok,
        ({
            let whole = migrated(files, index, order).unwrap();
            let before = migrated(files, index, order.take(j)).unwrap();
            let record = sealed(stored_at(files, index[order[j]]).unwrap());
            &&& before.len() + record.len() <= whole.len()
            &&& whole.take((before.len() + record.len()) as int) == before + record
        }),
    decreases order.len(),
{
    let front = order.drop_last();
    let whole = migrated(files, index, order).unwrap();
    let most = migrated(files, index, front).unwrap();
    if j == order.len() - 1 {
        assert(order.take(j) =~= front);
        assert(whole.take(whole.len() as int) =~= whole);
    } else {
        lemma_migrated_parts(files, index, front, j);
        assert(front.take(j) =~= order.take(j));
        let before = migrated(files, index, order.take(j)).unwrap();
        let record = sealed(stored_at(files, index[order[j]]).unwrap());
        let n = before.len() + record.len();
        assert(whole.take(n as int) =~= most.take(n as int));
    }
}

/// The copy of the `j`-th key's record reads as that record did.
pub proof fn lemma_copy_reads(
    files: Files,
    index: Map<Seq<char>, CommandPos>,
    order: Seq<Seq<char>>,
    after: Files,
    file_num: u64,
    j: int,
)
    requires
        migrated(files, index, order) is Ok,
        0 <= j < order.len(),
        after.contains_key(file_num),
        after[file_num] == migrated(files, index, order).unwrap(),
        after[file_num].len() <= u64::MAX,
    ensures
        stored_at(after, copy_of(index, order, file_num, j)) == stored_at(
            files,
            index[order[j]],
        ),
{
    lemma_migrated_parts(files, index, order, j);
    lemma_migrated_len(files, index, order.take(j));
    let whole = migrated(files, index, order).unwrap();
    let before = migrated(files, index, order.take(j)).unwrap();
    let payload = stored_at(files, index[order[j]]).unwrap();
    let record = sealed(payload);
    let rest = whole.skip((before.len() + record.len()) as int);
    assert(before + record + rest =~= whole) by {
        assert(whole.take((before.len() + record.len()) as int) + rest =~= whole);
    }
    lemma_read_back(before, crc32(payload), payload, rest);
    lemma_record_len(crc32(payload), payload);
}

/// After the keys of a walk without repeats are pointed at their copies,
/// the `j`-th key is bound to the place of its copy.
pub proof fn lemma_relocated_at(
    index: Map<Seq<char>, CommandPos>,
    order: Seq<Seq<char>>,
    file_num: u64,
    j: int,
)
    requires
        order.no_duplicates(),
        0 <= j < order.len(),
    ensures
        relocated(index, order, file_num).contains_key(order[j]),
        relocated(index, order, file_num)[order[j]] == copy_of(index, order, file_num, j),
    decreases order.len(),
{
    let front = order.drop_last();
    if j == order.len() - 1 {
        assert(order.take(j) =~= front);
    } else {
        assert(front.take(j) =~= order.take(j));
        assert(front[j] == order[j]);
        lemma_relocated_at(index, front, file_num, j);
        assert(order[j] != order[order.len() - 1]);
    }
}

/// Two copies of the same keys are the same where each key's record reads
/// alike in both sources.
pub proof fn lemma_migrated_same(
    f1: Files,
    i1: Map<Seq<char>, CommandPos>,
    f2: Files,
    i2: Map<Seq<char>, CommandPos>,
    order: Seq<Seq<char>>,
)
    requires
        forall|j: int|
            0 <= j < order.len() ==> stored_at(f1, i1[#[trigger] order[j]]) == stored_at(
                f2,
                i2[order[j]],
            ),
    ensures
        migrated(f1, i1, order) == migrated(f2, i2, order),
    decreases order.len(),
{
    if order.len() > 0 {
        let front = order.drop_last();
        assert forall|j: int| 0 <= j < front.len() implies stored_at(
            f1,
            i1[#[trigger] front[j]],
        ) == stored_at(f2, i2[front[j]]) by {
            assert(front[j] == order[j]);
        }
        lemma_migrated_same(f1, i1, f2, i2, front);
        assert(order.last() == order[order.len() - 1]);
    }
}

/// A record appended to a segment is read back at the place it was given.
pub proof fn lemma_append_reads_back(files: Files, g: u64, payload: Seq<u8>, command: CommandView)
    requires
        decoding(payload) == Some(command),
        payload.len() <= MAX_PAYLOAD,
        content(files, g).len() <= u64::MAX,
    ensures
        record_at(appended(files, g, sealed(payload)), next_pos(files, g, payload)) == Ok::<
            CommandView,
            KvError,
        >(command),
{
    let data = content(files, g);
    lemma_read_back(data, crc32(payload), payload, Seq::<u8>::empty());
    assert(data + sealed(payload) + Seq::<u8>::empty() =~= data + sealed(payload));
}

/// A record that is read whole is read alike after an append to any segment.
pub proof fn lemma_append_keeps(files: Files, g: u64, bytes: Seq<u8>, at: CommandPos)
    requires
        stored_at(files, at) is Ok,
    ensures
        stored_at(appended(files, g, bytes), at) == stored_at(files, at),
{
    if at.file_num == g {
        lemma_read_extends(files[g], bytes, at.pos as int);
    }
}

/// The compaction that may end a write changes no read.
pub proof fn lemma_settle_keeps(m: Model, files: Files, key: Seq<char>)
    requires
        walkable(m),
        valid_files(settle(m, files).1),
    ensures
        settle(m, files).0.index.contains_key(key) == m.index.contains_key(key),
        lookup(settle(m, files).0.index, settle(m, files).1, key) == lookup(m.index, files, key),
{
    if m.uncompacted > COMPACTION_THRESHOLD && compacted(m, files) is Ok {
        law_compaction_keeps_values(m, files, key);
    }
}

/// Replaying records keeps the walk in step with the index.
pub proof fn lemma_replay_entries_walkable(m: Model, g: u64, entries: Seq<EntryView>)
    requires
        walkable(m),
    ensures
        walkable(replay_entries(m, g, entries)),
    decreases entries.len(),
{
    if entries.len() > 0 {
        lemma_replay_entries_walkable(m, g, entries.drop_last());
        let before = replay_entries(m, g, entries.drop_last());
        let e = entries.last();
        match e.command {
            CommandView::Put { key, value } => {
                lemma_bind_walkable(
                    before,
                    key,
                    CommandPos { file_num: g, pos: e.pos as u64, len: e.len as u64 },
                );
            },
            CommandView::Remove { key } => {
                lemma_unbind_walkable(before, key, e.len);
            },
        }
    }
}

/// In what recovery makes, the walk is in step with the index.
pub proof fn lemma_replay_below_walkable(files: Files, bound: nat)
    ensures
        walkable(replay_below(files, bound)),
    decreases bound,
{
    if bound > 0 {
        lemma_replay_below_walkable(files, (bound - 1) as nat);
        let g = (bound - 1) as u64;
        if files.contains_key(g) {
            lemma_replay_entries_walkable(
                replay_below(files, (bound - 1) as nat),
                g,
                scan_from(files[g], 0),
            );
        }
    }
}

/// A state that tracks its files has a sound index and a walk in step with it.
pub proof fn lemma_tracks_sound(m: Model, files: Files)
    requires
        tracks(m, files),
    ensures
        sound(m.index, files),
        walkable(m),
{
    lemma_replay_below_sound(files, generations());
    lemma_replay_below_walkable(files, generations());
}

/// A sound entry reads as a command that sets its key.
pub proof fn lemma_sound_reads(files: Files, key: Seq<char>, at: CommandPos)
    requires
        sets_key(files, key, at),
    ensures
        stored_at(files, at) is Ok,
        stored_at(files, at).unwrap().len() <= MAX_PAYLOAD,
        decoding(stored_at(files, at).unwrap()) is Some,
        decoding(stored_at(files, at).unwrap()).unwrap() is Put,
        decoding(stored_at(files, at).unwrap()).unwrap().key() == key,
        at.len == 12 + stored_at(files, at).unwrap().len(),
{
}

/// Replaying the copy of the first `n` keys of a walk, as the only segment
/// of generation `file_num`, binds just these keys, each to the place of its
/// copy, in the order of the walk, and counts nothing as dead. The copy is
/// a clean segment.
pub proof fn lemma_replay_copy(
    files: Files,
    index: Map<Seq<char>, CommandPos>,
    order: Seq<Seq<char>>,
    file_num: u64,
    n: int,
)
    requires
        sound(index, files),
        order.no_duplicates(),
        forall|i: int| 0 <= i < order.len() ==> index.contains_key(#[trigger] order[i]),
        migrated(files, index, order) is Ok,
        migrated(files, index, order).unwrap().len() <= u64::MAX,
        0 <= n <= order.len(),
    ensures
        migrated(files, index, order.take(n)) is Ok,
        clean(migrated(files, index, order.take(n)).unwrap()),
        ({
            let copy = migrated(files, index, order.take(n)).unwrap();
            let made = replay_entries(blank(0), file_num, scan_from(copy, 0));
            &&& made.order == order.take(n)
            &&& made.uncompacted == 0
            &&& made.active == 0
            &&& forall|k: Seq<char>| made.index.contains_key(k) <==> order.take(n).contains(k)
            &&& forall|j: int|
                0 <= j < n ==> made.index[#[trigger] order[j]] == copy_of(
                    index,
                    order,
                    file_num,
                    j,
                )
        }),
    decreases n,
{
    if n == 0 {
        assert(order.take(0) =~= Seq::<Seq<char>>::empty());
        let made = replay_entries(blank(0), file_num, scan_from(Seq::<u8>::empty(), 0));
        assert(made.order =~= order.take(0));
    } else {
        lemma_replay_copy(files, index, order, file_num, n - 1);
        lemma_migrated_parts(files, index, order, n - 1);
        lemma_migrated_len(files, index, order.take(n - 1));
        lemma_migrated_len(files, index, order);
        let key = order[n - 1];
        let at = index[key];
        assert(index.contains_key(key));
        assert(sets_key(files, key, at));
        lemma_sound_reads(files, key, at);
        let payload = stored_at(files, at).unwrap();
        let command = decoding(payload).unwrap();
        let before = migrated(files, index, order.take(n - 1)).unwrap();
        assert(order.take(n).drop_last() =~= order.take(n - 1));
        assert(order.take(n).last() == key);
        let copy = migrated(files, index, order.take(n)).unwrap();
        assert(copy == before + sealed(payload));
        lemma_scan_append(before, payload, command);
        lemma_record_len(crc32(payload), payload);
        let entry = EntryView { command, pos: before.len() as int, len: 12 + payload.len() as int };
        let entries = scan_from(copy, 0);
        assert(entries.drop_last() =~= scan_from(before, 0));
        assert(entries.last() == entry);
        let was = replay_entries(blank(0), file_num, scan_from(before, 0));
        let made = replay_entries(blank(0), file_num, entries);
        assert(made == step(was, file_num, entry));
        let front = order.take(n - 1);
        let upto = order.take(n);
        assert(!front.contains(key)) by {
            if front.contains(key) {
                let i = choose|i: int| 0 <= i < front.len() && front[i] == key;
                assert(order[i] == order[n - 1]);
            }
        }
        assert(!was.index.contains_key(key));
        assert(made.order =~= order.take(n));
        assert(before.len() + sealed(payload).len() <= migrated(files, index, order).unwrap().len());
        assert forall|k: Seq<char>| made.index.contains_key(k) <==> order.take(n).contains(k) by {
            if made.index.contains_key(k) {
                if k == key {
                    assert(order.take(n)[n - 1] == key);
                } else {
                    assert(was.index.contains_key(k));
                    assert(front.contains(k));
                    let i = choose|i: int| 0 <= i < front.len() && front[i] == k;
                    assert(upto[i] == k);
                }
            }
            if upto.contains(k) {
                let i = choose|i: int| 0 <= i < upto.len() && upto[i] == k;
                if i < n - 1 {
                    assert(front[i] == k);
                    assert(front.contains(k));
                }
            }
        }
        assert forall|j: int| 0 <= j < n implies made.index[#[trigger] order[j]] == copy_of(
            index,
            order,
            file_num,
            j,
        ) by {
            if j < n - 1 {
                assert(order[j] != order[n - 1]);
            }
        }
    }
}

/// The compaction that may end a write keeps the state in step with the files.
pub proof fn lemma_settle_tracks(m: Model, files: Files)
    requires
        tracks(m, files),
        valid_files(settle(m, files).1),
    ensures
        tracks(settle(m, files).0, settle(m, files).1),
{
    if m.uncompacted > COMPACTION_THRESHOLD && compacted(m, files) is Ok {
        law_compaction_tracks(m, files);
    }
}

/// An empty segment above every other changes nothing of what recovery makes.
pub proof fn lemma_recovered_fresh(files: Files, g: u64)
    requires
        forall|h: u64| #[trigger] files.contains_key(h) ==> h < g,
    ensures
        recovered(files.insert(g, Seq::<u8>::empty())) == recovered(files),
{
    let after = files.insert(g, Seq::<u8>::empty());
    lemma_recovered_top(after, g);
    lemma_replay_agree(files, after, g as nat);
    lemma_skip(files, g as nat, generations());
}

/// Where every key of a walk is bound to a sound record, the copy succeeds.
pub proof fn lemma_migrated_succeeds(
    files: Files,
    index: Map<Seq<char>, CommandPos>,
    order: Seq<Seq<char>>,
)
    requires
        sound(index, files),
        forall|i: int| 0 <= i < order.len() ==> index.contains_key(#[trigger] order[i]),
    ensures
        migrated(files, index, order) is Ok,
    decreases order.len(),
{
    if order.len() > 0 {
        let front = order.drop_last();
        assert forall|i: int| 0 <= i < front.len() implies index.contains_key(
            #[trigger] front[i],
        ) by {
            assert(front[i] == order[i]);
        }
        lemma_migrated_succeeds(files, index, front);
        let key = order[order.len() - 1];
        assert(index.contains_key(key));
        lemma_sound_reads(files, key, index[key]);
    }
}

} // verus!
