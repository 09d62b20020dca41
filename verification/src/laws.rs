//! What holds of the store whatever the keys, values and files: each law
//! is stated over the model that the contracts of the store speak of.

use vstd::prelude::*;

use crate::checksum::crc32;
use crate::command::{written, CommandView};
use crate::error::KvError;
use crate::index::CommandPos;
use crate::lemmas::{
    lemma_migrated_succeeds, lemma_sound_reads,
    lemma_append_keeps, lemma_append_reads_back, lemma_bind_walkable, lemma_copy_reads,
    lemma_migrated_same, lemma_recovered_append, lemma_recovered_fresh, lemma_recovered_top,
    lemma_relocated_at, lemma_relocated_frame, lemma_replay_agree, lemma_replay_copy,
    lemma_settle_keeps, lemma_settle_tracks, lemma_skip, lemma_tracks_sound, lemma_unbind_walkable,
};
use crate::model::{
    after_write, appended, bind, blank, clean, compacted, crowded, generations, lookup, migrated,
    next_pos, opened, recovered, remove_outcome, replay_below, replay_entries, sealed, set_outcome,
    sets_key, stored_at, told_apart, tracks, unbind, valid_files, walkable, Files, Model,
};
use crate::record::{lemma_read_within, lemma_record_len, MAX_PAYLOAD};
use crate::scanner::{
    lemma_scan_entries, lemma_scan_extends, lemma_scan_stop, parse_at, scan_from, scan_stop,
    EntryView,
};
use crate::segment::content;

verus! {

/// Every key of the index is read after a compaction as it was read before.
pub proof fn law_compaction_keeps_values(m: Model, files: Files, key: Seq<char>)
    requires
        walkable(m),
        compacted(m, files) is Ok,
        valid_files(compacted(m, files).unwrap().1),
    ensures
        compacted(m, files).unwrap().0.index.contains_key(key) == m.index.contains_key(key),
        lookup(compacted(m, files).unwrap().0.index, compacted(m, files).unwrap().1, key)
            == lookup(m.index, files, key),
{
    let (m2, f2) = compacted(m, files).unwrap();
    let c = (m.active + 1) as u64;
    assert forall|i: int| 0 <= i < m.order.len() implies m.index.contains_key(
        #[trigger] m.order[i],
    ) by {
        assert(m.order.contains(m.order[i]));
    }
    lemma_relocated_frame(m.index, m.order, c, key);
    if m.index.contains_key(key) {
        assert(m.order.contains(key));
        let j = choose|j: int| 0 <= j < m.order.len() && m.order[j] == key;
        lemma_relocated_at(m.index, m.order, c, j);
        assert(f2.contains_key(c));
        lemma_copy_reads(files, m.index, m.order, f2, c, j);
    }
}

/// A second compaction right after a first succeeds, and its segment holds
/// the same live records as that of the first, byte for byte.
pub proof fn law_compaction_twice(m: Model, files: Files)
    requires
        walkable(m),
        compacted(m, files) is Ok,
        valid_files(compacted(m, files).unwrap().1),
        m.active + 4 <= u64::MAX,
    ensures
        ({
            let (m1, f1) = compacted(m, files).unwrap();
            &&& compacted(m1, f1) is Ok
            &&& compacted(m1, f1).unwrap().1[(m1.active + 1) as u64] == f1[(m.active + 1) as u64]
            &&& compacted(m1, f1).unwrap().0.order == m1.order
        }),
{
    let (m1, f1) = compacted(m, files).unwrap();
    let c = (m.active + 1) as u64;
    assert forall|i: int| 0 <= i < m.order.len() implies m.index.contains_key(
        #[trigger] m.order[i],
    ) by {
        assert(m.order.contains(m.order[i]));
    }
    assert forall|j: int| 0 <= j < m.order.len() implies stored_at(
        f1,
        m1.index[#[trigger] m.order[j]],
    ) == stored_at(files, m.index[m.order[j]]) by {
        lemma_relocated_at(m.index, m.order, c, j);
        assert(f1.contains_key(c));
        lemma_copy_reads(files, m.index, m.order, f1, c, j);
    }
    lemma_migrated_same(f1, m1.index, files, m.index, m.order);
    assert(!crowded(f1, m1.active)) by {
        assert forall|g: u64| #[trigger] f1.contains_key(g) implies g <= m1.active by {}
    }
}

/// After `set` returns success, a read of the key gives the value set.
pub proof fn law_set_then_get(m: Model, files: Files, key: Seq<char>, value: Seq<char>)
    requires
        walkable(m),
        valid_files(files),
        valid_files(set_outcome(m, files, key, value).1),
        set_outcome(m, files, key, value).2 is Ok,
    ensures
        lookup(
            set_outcome(m, files, key, value).0.index,
            set_outcome(m, files, key, value).1,
            key,
        ) == Ok::<Option<Seq<char>>, KvError>(Some(value)),
{
    let command = CommandView::Put { key, value };
    let payload = written(command).unwrap();
    let mid = bind(m, key, next_pos(files, m.active, payload));
    let mid_files = appended(files, m.active, sealed(payload));
    lemma_append_reads_back(files, m.active, payload, command);
    lemma_bind_walkable(m, key, next_pos(files, m.active, payload));
    lemma_settle_keeps(mid, mid_files, key);
}

/// A `set` of one key, however it ends, changes no successful read of
/// another key.
pub proof fn law_set_keeps_others(
    m: Model,
    files: Files,
    key: Seq<char>,
    value: Seq<char>,
    other: Seq<char>,
)
    requires
        walkable(m),
        valid_files(set_outcome(m, files, key, value).1),
        other != key,
        lookup(m.index, files, other) is Ok,
    ensures
        lookup(
            set_outcome(m, files, key, value).0.index,
            set_outcome(m, files, key, value).1,
            other,
        ) == lookup(m.index, files, other),
{
    let command = CommandView::Put { key, value };
    if written(command) is Some {
        let payload = written(command).unwrap();
        let mid = bind(m, key, next_pos(files, m.active, payload));
        let mid_files = appended(files, m.active, sealed(payload));
        if m.index.contains_key(other) {
            lemma_append_keeps(files, m.active, sealed(payload), m.index[other]);
        }
        lemma_bind_walkable(m, key, next_pos(files, m.active, payload));
        lemma_settle_keeps(mid, mid_files, other);
    }
}

/// After `remove` returns success, a read of the key gives nothing.
pub proof fn law_remove_then_get(m: Model, files: Files, key: Seq<char>)
    requires
        walkable(m),
        valid_files(remove_outcome(m, files, key).1),
        remove_outcome(m, files, key).2 is Ok,
    ensures
        lookup(remove_outcome(m, files, key).0.index, remove_outcome(m, files, key).1, key)
            == Ok::<Option<Seq<char>>, KvError>(None),
{
    let command = CommandView::Remove { key };
    let payload = written(command).unwrap();
    let tomb = 12 + payload.len() as int;
    let mid = unbind(m, key, tomb);
    let mid_files = appended(files, m.active, sealed(payload));
    lemma_unbind_walkable(m, key, tomb);
    lemma_settle_keeps(mid, mid_files, key);
}

/// A `remove` of one key, however it ends, changes no successful read of
/// another key.
pub proof fn law_remove_keeps_others(m: Model, files: Files, key: Seq<char>, other: Seq<char>)
    requires
        walkable(m),
        valid_files(remove_outcome(m, files, key).1),
        other != key,
        lookup(m.index, files, other) is Ok,
    ensures
        lookup(remove_outcome(m, files, key).0.index, remove_outcome(m, files, key).1, other)
            == lookup(m.index, files, other),
{
    let command = CommandView::Remove { key };
    if m.index.contains_key(key) && written(command) is Some {
        let payload = written(command).unwrap();
        let tomb = 12 + payload.len() as int;
        let mid = unbind(m, key, tomb);
        let mid_files = appended(files, m.active, sealed(payload));
        if m.index.contains_key(other) {
            lemma_append_keeps(files, m.active, sealed(payload), m.index[other]);
        }
        lemma_unbind_walkable(m, key, tomb);
        lemma_settle_keeps(mid, mid_files, other);
    }
}

/// A state that tracks its files still does after a compaction.
pub proof fn law_compaction_tracks(m: Model, files: Files)
    requires
        tracks(m, files),
        compacted(m, files) is Ok,
        valid_files(compacted(m, files).unwrap().1),
    ensures
        tracks(compacted(m, files).unwrap().0, compacted(m, files).unwrap().1),
{
    let (m2, f2) = compacted(m, files).unwrap();
    let c = (m.active + 1) as u64;
    let top = (m.active + 2) as u64;
    let copy = migrated(files, m.index, m.order).unwrap();
    lemma_tracks_sound(m, files);
    assert forall|i: int| 0 <= i < m.order.len() implies m.index.contains_key(
        #[trigger] m.order[i],
    ) by {
        assert(m.order.contains(m.order[i]));
    }
    assert(f2.contains_key(c) && f2[c] == copy);
    lemma_replay_copy(files, m.index, m.order, c, m.order.len() as int);
    assert(m.order.take(m.order.len() as int) =~= m.order);
    let made = replay_entries(blank(0), c, scan_from(copy, 0));
    assert(recovered(f2) == made) by {
        lemma_recovered_top(f2, top);
        assert(content(f2, top) =~= Seq::<u8>::empty());
        lemma_skip(f2, 0, c as nat);
        assert(replay_below(f2, top as nat) == replay_entries(
            replay_below(f2, c as nat),
            c,
            scan_from(f2[c], 0),
        ));
    }
    assert(made.index =~= m2.index) by {
        assert forall|k: Seq<char>| made.index.contains_key(k) == m2.index.contains_key(k) by {
            lemma_relocated_frame(m.index, m.order, c, k);
        }
        assert forall|k: Seq<char>| made.index.contains_key(k) implies made.index[k]
            == m2.index[k] by {
            assert(m.order.contains(k));
            let j = choose|j: int| 0 <= j < m.order.len() && m.order[j] == k;
            lemma_relocated_at(m.index, m.order, c, j);
        }
    }
    assert(content(f2, m2.active) =~= Seq::<u8>::empty());
}

/// A state that tracks its files still does after a `set`, however it ends.
pub proof fn law_set_tracks(m: Model, files: Files, key: Seq<char>, value: Seq<char>)
    requires
        tracks(m, files),
        valid_files(after_write(files, m.active, CommandView::Put { key, value })),
        valid_files(set_outcome(m, files, key, value).1),
    ensures
        tracks(set_outcome(m, files, key, value).0, set_outcome(m, files, key, value).1),
{
    let command = CommandView::Put { key, value };
    if written(command) is Some {
        let payload = written(command).unwrap();
        let mid = bind(m, key, next_pos(files, m.active, payload));
        let mid_files = appended(files, m.active, sealed(payload));
        lemma_recovered_append(files, m.active, payload, command);
        assert(recovered(mid_files).index == mid.index);
        assert(recovered(mid_files).order == mid.order);
        assert(tracks(mid, mid_files));
        lemma_settle_tracks(mid, mid_files);
    }
}

/// A state that tracks its files still does after a `remove`, however it ends.
pub proof fn law_remove_tracks(m: Model, files: Files, key: Seq<char>)
    requires
        tracks(m, files),
        valid_files(after_write(files, m.active, CommandView::Remove { key })),
        valid_files(remove_outcome(m, files, key).1),
    ensures
        tracks(remove_outcome(m, files, key).0, remove_outcome(m, files, key).1),
{
    let command = CommandView::Remove { key };
    if m.index.contains_key(key) && written(command) is Some {
        let payload = written(command).unwrap();
        let mid = unbind(m, key, 12 + payload.len() as int);
        let mid_files = appended(files, m.active, sealed(payload));
        lemma_recovered_append(files, m.active, payload, command);
        assert(tracks(mid, mid_files));
        lemma_settle_tracks(mid, mid_files);
    }
}

/// A fresh store tracks an empty directory.
pub proof fn law_new_tracks()
    ensures
        tracks(blank(0), Map::<u64, Seq<u8>>::empty()),
{
    let files = Map::<u64, Seq<u8>>::empty();
    lemma_skip(files, 0, generations());
}

/// The state that `open` hands out tracks the directory as `open` left it.
pub proof fn law_open_tracks(files: Files, m: Model, after: Files)
    requires
        opened(files, m, after),
        valid_files(after),
    ensures
        tracks(m, after),
{
    if !files.contains_key(m.active) {
        if m.active == 0 {
            assert forall|h: u64| #[trigger] files.contains_key(h) implies h < m.active by {}
        } else {
            assert forall|h: u64| #[trigger] files.contains_key(h) implies h < m.active by {}
        }
        lemma_recovered_fresh(files, m.active);
        assert(content(after, m.active) =~= Seq::<u8>::empty());
    }
}

/// Where a state tracks its files, opening these files again
/// gives the same index and the same walk, and every key reads as it did.
pub proof fn law_reopen(m: Model, files: Files, again: Model, after: Files, key: Seq<char>)
    requires
        tracks(m, files),
        opened(files, again, after),
    ensures
        again.index == m.index,
        again.order == m.order,
        lookup(again.index, after, key) == lookup(m.index, files, key),
{
    lemma_tracks_sound(m, files);
    if m.index.contains_key(key) {
        assert(sets_key(files, key, m.index[key]));
    }
}

/// Where one byte of a live record's payload is changed on disk, and the
/// checksum tells the changed payload from the one written, a read of the
/// key fails with `Corruption`.
pub proof fn law_changed_payload_is_corruption(
    index: Map<Seq<char>, CommandPos>,
    files: Files,
    key: Seq<char>,
    i: int,
    byte: u8,
)
    requires
        index.contains_key(key),
        stored_at(files, index[key]) is Ok,
        index[key].pos + 12 <= i < index[key].pos + index[key].len,
        told_apart(
            stored_at(files, index[key]).unwrap().update(i - index[key].pos - 12, byte),
            stored_at(files, index[key]).unwrap(),
        ),
    ensures
        lookup(
            index,
            files.insert(index[key].file_num, files[index[key].file_num].update(i, byte)),
            key,
        ) == Err::<Option<Seq<char>>, KvError>(KvError::Corruption),
{
    let at = index[key];
    let data = files[at.file_num];
    let changed = data.update(i, byte);
    let off = at.pos as int;
    let payload = stored_at(files, at).unwrap();
    let len = payload.len() as int;
    assert(changed.subrange(off, off + 4) =~= data.subrange(off, off + 4));
    assert(changed.subrange(off + 4, off + 12) =~= data.subrange(off + 4, off + 12));
    assert(changed.subrange(off + 12, off + 12 + len) =~= payload.update(i - off - 12, byte));
}

/// Where the last record of the top segment is
/// torn, with any number of its bytes kept short of all of them, recovery
/// makes of the files what it made before that record was written.
pub proof fn law_torn_tail(files: Files, g: u64, payload: Seq<u8>, kept: int)
    requires
        forall|h: u64| #[trigger] files.contains_key(h) ==> h <= g,
        clean(content(files, g)),
        payload.len() <= MAX_PAYLOAD,
        0 <= kept < 12 + payload.len(),
    ensures
        recovered(files.insert(g, content(files, g) + sealed(payload).take(kept))) == recovered(
            files,
        ),
{
    let data = content(files, g);
    let record = sealed(payload);
    let part = record.take(kept);
    let torn = data + part;
    let after = files.insert(g, torn);
    let off = data.len() as int;
    lemma_record_len(crc32(payload), payload);
    vstd::bytes::lemma_auto_spec_u32_to_from_le_bytes();
    vstd::bytes::lemma_auto_spec_u64_to_from_le_bytes();
    lemma_scan_extends(data, part, 0);
    if kept >= 12 {
        assert(torn.subrange(off + 4, off + 12) =~= vstd::bytes::spec_u64_to_le_bytes(
            payload.len() as u64,
        ));
    }
    assert(parse_at(torn, off) is None);
    assert(scan_from(torn, off) =~= Seq::<EntryView>::empty());
    assert(scan_from(data, 0) + Seq::<EntryView>::empty() =~= scan_from(data, 0));
    lemma_recovered_top(files, g);
    lemma_recovered_top(after, g);
    lemma_replay_agree(files, after, g as nat);
}

/// Where a state tracks its files, every entry of the index points at a
/// record that sets its key and matches its checksum: a read of a live key
/// gives a value.
pub proof fn law_tracked_reads_succeed(m: Model, files: Files, key: Seq<char>)
    requires
        tracks(m, files),
    ensures
        m.index.contains_key(key) ==> sets_key(files, key, m.index[key]),
        lookup(m.index, files, key) is Ok,
        (lookup(m.index, files, key).unwrap() is Some) == m.index.contains_key(key),
{
    lemma_tracks_sound(m, files);
    if m.index.contains_key(key) {
        lemma_sound_reads(files, key, m.index[key]);
    }
}

/// Where a state tracks its files, a compaction succeeds as long as two
/// generations are left above the active one.
pub proof fn law_compaction_succeeds(m: Model, files: Files)
    requires
        tracks(m, files),
        m.active + 2 <= u64::MAX,
    ensures
        compacted(m, files) is Ok,
{
    lemma_tracks_sound(m, files);
    assert forall|i: int| 0 <= i < m.order.len() implies m.index.contains_key(
        #[trigger] m.order[i],
    ) by {
        assert(m.order.contains(m.order[i]));
    }
    lemma_migrated_succeeds(files, m.index, m.order);
    assert(!crowded(files, m.active));
}

/// Where a state tracks its files and two generations are left above the
/// active one, `set` succeeds whenever the command has a payload to write.
pub proof fn law_set_succeeds(m: Model, files: Files, key: Seq<char>, value: Seq<char>)
    requires
        tracks(m, files),
        m.active + 2 <= u64::MAX,
        valid_files(after_write(files, m.active, CommandView::Put { key, value })),
    ensures
        (set_outcome(m, files, key, value).2 is Ok) == (written(CommandView::Put { key, value })
            is Some),
{
    let command = CommandView::Put { key, value };
    if written(command) is Some {
        let payload = written(command).unwrap();
        let mid = bind(m, key, next_pos(files, m.active, payload));
        let mid_files = appended(files, m.active, sealed(payload));
        lemma_recovered_append(files, m.active, payload, command);
        assert(tracks(mid, mid_files));
        law_compaction_succeeds(mid, mid_files);
    }
}

/// Where a state tracks its files and two generations are left above the
/// active one, `remove` of a live key succeeds whenever the tombstone has a
/// payload to write.
pub proof fn law_remove_succeeds(m: Model, files: Files, key: Seq<char>)
    requires
        tracks(m, files),
        m.active + 2 <= u64::MAX,
        m.index.contains_key(key),
        valid_files(after_write(files, m.active, CommandView::Remove { key })),
    ensures
        (remove_outcome(m, files, key).2 is Ok) == (written(CommandView::Remove { key })
            is Some),
{
    let command = CommandView::Remove { key };
    if written(command) is Some {
        let payload = written(command).unwrap();
        let mid = unbind(m, key, 12 + payload.len() as int);
        let mid_files = appended(files, m.active, sealed(payload));
        lemma_recovered_append(files, m.active, payload, command);
        assert(tracks(mid, mid_files));
        law_compaction_succeeds(mid, mid_files);
    }
}

/// A scan of a segment that is cut off at any place finds a leading part of
/// what the scan of the whole segment finds, and in it every record that
/// lies wholly before the cut.
pub proof fn law_truncation(data: Seq<u8>, n: int)
    requires
        0 <= n <= data.len(),
    ensures
        scan_from(data.take(n), 0).len() <= scan_from(data, 0).len(),
        forall|i: int|
            0 <= i < scan_from(data.take(n), 0).len() ==> scan_from(data.take(n), 0)[i]
                == scan_from(data, 0)[i],
        forall|i: int|
            0 <= i < scan_from(data, 0).len() && scan_from(data, 0)[i].pos + scan_from(
                data,
                0,
            )[i].len <= n ==> i < scan_from(data.take(n), 0).len(),
{
    let cut = data.take(n);
    let rest = data.skip(n);
    assert(cut + rest =~= data);
    lemma_scan_extends(cut, rest, 0);
    lemma_scan_stop(cut, 0);
    let stop = scan_stop(cut, 0);
    let kept = scan_from(cut, 0);
    let tail = scan_from(data, stop);
    let all = scan_from(data, 0);
    assert(all == kept + tail);
    assert forall|i: int| 0 <= i < all.len() && all[i].pos + all[i].len <= n implies i
        < kept.len() by {
        if i >= kept.len() {
            let j = i - kept.len();
            assert(all[i] == tail[j]);
            lemma_scan_entries(data, stop, j);
            lemma_scan_entries(data, stop, 0);
            let first = tail[0];
            assert(first.pos == stop);
            if stop < n && first.pos + first.len <= n {
                lemma_read_within(data, n, stop);
                assert(parse_at(cut, stop) is Some);
            }
        }
    }
}

} // verus!
