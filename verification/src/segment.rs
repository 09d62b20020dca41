//! Segments and the directory that holds them.

use vstd::prelude::*;

use crate::record::{extend, frame, read_at, read_at_spec, record_bytes, ReadError};
use crate::scanner::{end_at, scan, scan_from, scan_stop, views, Scan};

verus! {

/// One append-only log file: its generation number and its content.
#[derive(Debug)]
pub struct Segment {
    pub file_num: u64,
    pub data: Vec<u8>,
}

/// The directory of a store: its segments, ordered by generation. It stands
/// for what is on disk, and the caller owns it.
#[derive(Debug)]
pub struct LogDir {
    segments: Vec<Segment>,
}

/// Generations strictly ascend along the sequence.
pub open spec fn ascending(segs: Seq<Segment>) -> bool {
    forall|i: int, j: int| 0 <= i < j < segs.len() ==> (#[trigger] segs[i]).file_num < (
    #[trigger] segs[j]).file_num
}

/// Tells whether `i` is where generation `g` lies in `segs`.
pub open spec fn lies_at(segs: Seq<Segment>, g: u64, i: int) -> bool {
    0 <= i < segs.len() && segs[i].file_num == g
}

/// The files that a sequence of segments holds: from generation to content.
pub open spec fn files_of(segs: Seq<Segment>) -> Map<u64, Seq<u8>> {
    Map::new(
        |g: u64| exists|i: int| lies_at(segs, g, i),
        |g: u64| segs[choose|i: int| lies_at(segs, g, i)].data@,
    )
}

/// In an ascending sequence each segment is the file of its generation.
pub proof fn lemma_files_of(segs: Seq<Segment>)
    requires
        ascending(segs),
    ensures
        forall|i: int|
            0 <= i < segs.len() ==> files_of(segs).contains_key((#[trigger] segs[i]).file_num)
                && files_of(segs)[segs[i].file_num] == segs[i].data@,
        forall|g: u64| #[trigger]
            files_of(segs).contains_key(g) ==> exists|i: int| lies_at(segs, g, i),
{
    assert forall|i: int| 0 <= i < segs.len() implies files_of(segs).contains_key(
        (#[trigger] segs[i]).file_num,
    ) && files_of(segs)[segs[i].file_num] == segs[i].data@ by {
        let g = segs[i].file_num;
        assert(lies_at(segs, g, i));
        let j = choose|j: int| lies_at(segs, g, j);
        assert(lies_at(segs, g, j));
        assert(i == j) by {
            if i < j {
                assert(segs[i].file_num < segs[j].file_num);
            }
            if j < i {
                assert(segs[j].file_num < segs[i].file_num);
            }
        }
    }
}

impl Segment {
    /// An empty segment of the given generation.
    pub fn new(file_num: u64) -> (seg: Segment)
        ensures
            seg.file_num == file_num,
            seg.data@ == Seq::<u8>::empty(),
    {
        Segment { file_num, data: Vec::new() }
    }

    /// Appends the record of a payload, with the checksum given, and returns
    /// the offset at which the record starts.
    pub fn append_record(&mut self, crc: u32, payload: &[u8]) -> (offset: u64)
        ensures
            final(self).file_num == old(self).file_num,
            final(self).data@ == old(self).data@ + record_bytes(crc, payload@),
            offset == old(self).data@.len(),
    {
        let offset: u64 = self.data.len() as u64;
        let record: Vec<u8> = frame(crc, payload);
        extend(&mut self.data, record.as_slice());
        offset
    }

    /// Reads the record that starts at `offset`: its stored checksum and its
    /// payload, not compared with each other.
    pub fn read_record(&self, offset: u64) -> (r: Result<(u32, Vec<u8>), ReadError>)
        ensures
            match r {
                Ok((crc, payload)) => read_at_spec(self.data@, offset as int) == Ok::<
                    (u32, Seq<u8>),
                    ReadError,
                >((crc, payload@)),
                Err(e) => read_at_spec(self.data@, offset as int) == Err::<
                    (u32, Seq<u8>),
                    ReadError,
                >(e),
            },
    {
        read_at(self.data.as_slice(), offset)
    }

    /// Walks the segment from its start, record by record, up to the first
    /// place where no sound record lies.
    pub fn scan(&self) -> (found: Scan)
        ensures
            views(found.entries@) == scan_from(self.data@, 0),
            found.stop == scan_stop(self.data@, 0),
            found.end == end_at(self.data@, found.stop as int),
            found.stop <= self.data@.len(),
    {
        scan(self.data.as_slice())
    }
}

impl View for LogDir {
    type V = Map<u64, Seq<u8>>;

    closed spec fn view(&self) -> Map<u64, Seq<u8>> {
        files_of(self.segments@)
    }
}

impl LogDir {
    /// The directory's own invariant: no generation occurs twice, and the
    /// segments stand in the order of their generations.
    pub closed spec fn wf(&self) -> bool {
        ascending(self.segments@)
    }

    /// No segment is longer than an offset can tell.
    pub proof fn lemma_sizes(&self)
        requires
            self.wf(),
        ensures
            forall|g: u64| #[trigger] self@.contains_key(g) ==> self@[g].len() <= u64::MAX,
    {
        lemma_files_of(self.segments@);
        assert forall|g: u64| #[trigger] self@.contains_key(g) implies self@[g].len()
            <= u64::MAX by {
            let i = choose|i: int| lies_at(self.segments@, g, i);
            assert(lies_at(self.segments@, g, i));
            assert(self@[self.segments@[i].file_num] == self.segments@[i].data@);
            assert(self.segments@[i].data@.len() == self.segments@[i].data.len());
        }
    }

    /// An empty directory.
    pub fn new() -> (dir: LogDir)
        ensures
            dir.wf(),
            dir@ == Map::<u64, Seq<u8>>::empty(),
    {
        let dir = LogDir { segments: Vec::new() };
        assert(dir@ =~= Map::<u64, Seq<u8>>::empty());
        dir
    }

    /// The number of segments.
    pub fn count(&self) -> (n: usize)
        requires
            self.wf(),
        ensures
            n == self@.dom().len(),
            self@.dom().finite(),
    {
        proof {
            lemma_dom_len(self.segments@);
        }
        self.segments.len()
    }

    /// The first place whose generation is not below `file_num`.
    fn place(&self, file_num: u64) -> (i: usize)
        requires
            self.wf(),
        ensures
            i <= self.segments@.len(),
            forall|j: int| 0 <= j < i ==> (#[trigger] self.segments@[j]).file_num < file_num,
            forall|j: int|
                i <= j < self.segments@.len() ==> (#[trigger] self.segments@[j]).file_num
                    >= file_num,
    {
        let mut i: usize = 0;
        while i < self.segments.len() && self.segments[i].file_num < file_num
            invariant
                self.wf(),
                i <= self.segments@.len(),
                forall|j: int| 0 <= j < i ==> (#[trigger] self.segments@[j]).file_num < file_num,
            decreases self.segments@.len() - i,
        {
            i += 1;
        }
        assert forall|j: int| i <= j < self.segments@.len() implies (
        #[trigger] self.segments@[j]).file_num >= file_num by {
            if i < j {
                assert(self.segments@[i as int].file_num < self.segments@[j].file_num);
            }
        }
        i
    }

    /// Tells whether the directory holds the segment of a generation.
    pub fn contains(&self, file_num: u64) -> (found: bool)
        requires
            self.wf(),
        ensures
            found == self@.contains_key(file_num),
    {
        let i: usize = self.place(file_num);
        proof {
            lemma_files_of(self.segments@);
        }
        if i < self.segments.len() && self.segments[i].file_num == file_num {
            true
        } else {
            assert(!self@.contains_key(file_num)) by {
                if self@.contains_key(file_num) {
                    let j = choose|j: int| lies_at(self.segments@, file_num, j);
                    assert(lies_at(self.segments@, file_num, j));
                    assert(self.segments@[j].file_num == file_num);
                }
            }
            false
        }
    }

    /// The segment of a generation, if the directory holds it.
    pub fn segment(&self, file_num: u64) -> (found: Option<&Segment>)
        requires
            self.wf(),
        ensures
            match found {
                Some(seg) => seg.file_num == file_num && self@.contains_key(file_num)
                    && seg.data@ == self@[file_num],
                None => !self@.contains_key(file_num),
            },
    {
        let i: usize = self.place(file_num);
        proof {
            lemma_files_of(self.segments@);
        }
        if i < self.segments.len() && self.segments[i].file_num == file_num {
            Some(&self.segments[i])
        } else {
            assert(!self@.contains_key(file_num)) by {
                if self@.contains_key(file_num) {
                    let j = choose|j: int| lies_at(self.segments@, file_num, j);
                    assert(lies_at(self.segments@, file_num, j));
                    assert(self.segments@[j].file_num == file_num);
                }
            }
            None
        }
    }

    /// Puts a segment into the directory, in place of the one of the same
    /// generation if there is one.
    pub fn create(&mut self, file_num: u64, data: Vec<u8>)
        requires
            old(self).wf(),
        ensures
            final(self).wf(),
            final(self)@ == old(self)@.insert(file_num, data@),
    {
        let i: usize = self.place(file_num);
        let ghost before = self.segments@;
        let seg = Segment { file_num, data };
        if i < self.segments.len() && self.segments[i].file_num == file_num {
            proof {
                lemma_removed(before, i as int);
                let without = before.remove(i as int);
                lemma_inserted(without, i as int, seg);
                assert(without.insert(i as int, seg) =~= before.update(i as int, seg));
                assert(files_of(before).remove(file_num).insert(file_num, seg.data@) =~= files_of(
                    before,
                ).insert(file_num, seg.data@));
            }
            self.segments.set(i, seg);
        } else {
            proof {
                lemma_inserted(before, i as int, seg);
            }
            self.segments.insert(i, seg);
        }
    }

    /// Takes the segment of a generation out of the directory and hands out
    /// its content, if the directory holds it.
    pub fn take(&mut self, file_num: u64) -> (data: Option<Vec<u8>>)
        requires
            old(self).wf(),
        ensures
            final(self).wf(),
            final(self)@ == old(self)@.remove(file_num),
            match data {
                Some(bytes) => old(self)@.contains_key(file_num) && bytes@ == old(self)@[file_num],
                None => !old(self)@.contains_key(file_num),
            },
    {
        let i: usize = self.place(file_num);
        proof {
            lemma_files_of(self.segments@);
        }
        if i < self.segments.len() && self.segments[i].file_num == file_num {
            proof {
                lemma_removed(self.segments@, i as int);
            }
            let seg: Segment = self.segments.remove(i);
            Some(seg.data)
        } else {
            assert(!self@.contains_key(file_num)) by {
                if self@.contains_key(file_num) {
                    let j = choose|j: int| lies_at(self.segments@, file_num, j);
                    assert(lies_at(self.segments@, file_num, j));
                    assert(self.segments@[j].file_num == file_num);
                }
            }
            assert(self@ =~= old(self)@.remove(file_num));
            None
        }
    }

    /// Appends the record of a payload, with the checksum given, to the
    /// segment of a generation, which is created empty first if the
    /// directory does not hold it; returns the offset of the record.
    pub fn append_record(&mut self, file_num: u64, crc: u32, payload: &[u8]) -> (offset: u64)
        requires
            old(self).wf(),
        ensures
            final(self).wf(),
            final(self)@ == old(self)@.insert(
                file_num,
                content(old(self)@, file_num) + record_bytes(crc, payload@),
            ),
            offset == content(old(self)@, file_num).len(),
    {
        let data: Vec<u8> = match self.take(file_num) {
            Some(data) => data,
            None => Vec::new(),
        };
        let mut seg = Segment { file_num, data };
        let offset: u64 = seg.append_record(crc, payload);
        self.create(file_num, seg.data);
        assert(final(self)@ =~= old(self)@.insert(
            file_num,
            content(old(self)@, file_num) + record_bytes(crc, payload@),
        ));
        offset
    }

    /// Drops every segment whose generation is below `bound`.
    pub fn remove_below(&mut self, bound: u64)
        requires
            old(self).wf(),
        ensures
            final(self).wf(),
            final(self)@ == old(self)@.restrict(Set::new(|g: u64| g >= bound)),
    {
        let n: usize = self.place(bound);
        let mut kept: Vec<Segment> = self.segments.split_off(n);
        proof {
            let before = old(self).segments@;
            let after = kept@;
            assert(after =~= before.subrange(n as int, before.len() as int));
            assert forall|i: int, j: int| 0 <= i < j < after.len() implies (
            #[trigger] after[i]).file_num < (#[trigger] after[j]).file_num by {
                assert(before[n + i].file_num < before[n + j].file_num);
            }
            lemma_files_of(before);
            lemma_files_of(after);
            let want = files_of(before).restrict(Set::new(|g: u64| g >= bound));
            assert forall|g: u64| #[trigger]
                files_of(after).contains_key(g) <==> want.contains_key(g) by {
                if files_of(after).contains_key(g) {
                    let j = choose|j: int| lies_at(after, g, j);
                    assert(lies_at(after, g, j));
                    assert(lies_at(before, g, n + j));
                    assert(before[n + j].file_num >= bound);
                }
                if want.contains_key(g) {
                    let j = choose|j: int| lies_at(before, g, j);
                    assert(lies_at(before, g, j));
                    assert(j >= n) by {
                        if j < n {
                            assert(before[j].file_num < bound);
                        }
                    }
                    assert(lies_at(after, g, j - n));
                }
            }
            assert forall|g: u64| #[trigger]
                files_of(after).contains_key(g) implies files_of(after)[g] == want[g] by {
                let j = choose|j: int| lies_at(after, g, j);
                assert(lies_at(after, g, j));
                assert(files_of(after)[after[j].file_num] == after[j].data@);
                assert(lies_at(before, g, n + j));
                assert(files_of(before)[before[n + j].file_num] == before[n + j].data@);
            }
            assert(files_of(after) =~= want);
        }
        self.segments = kept;
    }

    /// The generations of the directory's segments, in ascending order.
    pub fn file_nums(&self) -> (nums: Vec<u64>)
        requires
            self.wf(),
        ensures
            forall|g: u64| nums@.contains(g) <==> self@.contains_key(g),
            forall|i: int, j: int| 0 <= i < j < nums@.len() ==> nums@[i] < nums@[j],
    {
        let mut nums: Vec<u64> = Vec::new();
        let mut i: usize = 0;
        while i < self.segments.len()
            invariant
                self.wf(),
                i <= self.segments@.len(),
                nums@.len() == i,
                forall|j: int| 0 <= j < i ==> nums@[j] == (#[trigger] self.segments@[j]).file_num,
            decreases self.segments@.len() - i,
        {
            nums.push(self.segments[i].file_num);
            i += 1;
        }
        proof {
            let segs = self.segments@;
            lemma_files_of(segs);
            assert forall|g: u64| nums@.contains(g) <==> self@.contains_key(g) by {
                if nums@.contains(g) {
                    let j = choose|j: int| 0 <= j < nums@.len() && nums@[j] == g;
                    assert(segs[j].file_num == g);
                }
                if self@.contains_key(g) {
                    let j = choose|j: int| lies_at(segs, g, j);
                    assert(lies_at(segs, g, j));
                    assert(nums@[j] == g);
                }
            }
            assert forall|i: int, j: int| 0 <= i < j < nums@.len() implies nums@[i] < nums@[j] by {
                assert(segs[i].file_num < segs[j].file_num);
            }
        }
        nums
    }

    /// The highest generation in the directory, if it holds any segment.
    pub fn last_file_num(&self) -> (last: Option<u64>)
        requires
            self.wf(),
        ensures
            match last {
                Some(g) => self@.contains_key(g) && forall|h: u64| #[trigger]
                    self@.contains_key(h) ==> h <= g,
                None => self@ == Map::<u64, Seq<u8>>::empty(),
            },
    {
        let n: usize = self.segments.len();
        proof {
            lemma_files_of(self.segments@);
        }
        if n == 0 {
            assert(self@ =~= Map::<u64, Seq<u8>>::empty()) by {
                assert forall|g: u64| !(#[trigger] self@.contains_key(g)) by {
                    if self@.contains_key(g) {
                        let j = choose|j: int| lies_at(self.segments@, g, j);
                        assert(lies_at(self.segments@, g, j));
                    }
                }
            }
            None
        } else {
            let g: u64 = self.segments[n - 1].file_num;
            assert forall|h: u64| #[trigger] self@.contains_key(h) implies h <= g by {
                let j = choose|j: int| lies_at(self.segments@, h, j);
                assert(lies_at(self.segments@, h, j));
                if j < n - 1 {
                    assert(self.segments@[j].file_num < self.segments@[n - 1].file_num);
                }
            }
            Some(g)
        }
    }
}

/// The content of a generation's file, empty where there is no such file.
pub open spec fn content(files: Map<u64, Seq<u8>>, file_num: u64) -> Seq<u8> {
    if files.contains_key(file_num) {
        files[file_num]
    } else {
        Seq::<u8>::empty()
    }
}

/// Putting a segment into an ascending sequence, between the lower and the
/// higher generations, adds its file.
pub proof fn lemma_inserted(before: Seq<Segment>, i: int, seg: Segment)
    requires
        ascending(before),
        0 <= i <= before.len(),
        forall|j: int| 0 <= j < i ==> (#[trigger] before[j]).file_num < seg.file_num,
        forall|j: int| i <= j < before.len() ==> (#[trigger] before[j]).file_num > seg.file_num,
    ensures
        ascending(before.insert(i, seg)),
        files_of(before.insert(i, seg)) == files_of(before).insert(seg.file_num, seg.data@),
{
    let after = before.insert(i, seg);
    assert forall|a: int, b: int| 0 <= a < b < after.len() implies (#[trigger] after[a]).file_num
        < (#[trigger] after[b]).file_num by {
        if a != i && b != i {
            let a0 = if a < i { a } else { a - 1 };
            let b0 = if b < i { b } else { b - 1 };
            assert(before[a0].file_num < before[b0].file_num);
        } else if a == i {
            assert(before[b - 1].file_num > seg.file_num);
        } else {
            assert(before[a].file_num < seg.file_num);
        }
    }
    lemma_files_of(before);
    lemma_files_of(after);
    let want = files_of(before).insert(seg.file_num, seg.data@);
    assert forall|g: u64| #[trigger] files_of(after).contains_key(g) <==> want.contains_key(g) by {
        if files_of(after).contains_key(g) {
            let j = choose|j: int| lies_at(after, g, j);
            assert(lies_at(after, g, j));
            if j < i {
                assert(lies_at(before, g, j));
            } else if j > i {
                assert(lies_at(before, g, j - 1));
            }
        }
        if g == seg.file_num {
            assert(lies_at(after, g, i));
        } else if files_of(before).contains_key(g) {
            let j = choose|j: int| lies_at(before, g, j);
            assert(lies_at(before, g, j));
            if j < i {
                assert(lies_at(after, g, j));
            } else {
                assert(lies_at(after, g, j + 1));
            }
        }
    }
    assert forall|g: u64| #[trigger] files_of(after).contains_key(g) implies files_of(after)[g]
        == want[g] by {
        let j = choose|j: int| lies_at(after, g, j);
        assert(lies_at(after, g, j));
        assert(files_of(after)[after[j].file_num] == after[j].data@);
        if j < i {
            assert(lies_at(before, g, j));
            assert(files_of(before)[before[j].file_num] == before[j].data@);
        } else if j > i {
            assert(lies_at(before, g, j - 1));
            assert(files_of(before)[before[j - 1].file_num] == before[j - 1].data@);
        }
    }
    assert(files_of(after) =~= want);
}

/// Taking one segment out of an ascending sequence takes its file away.
pub proof fn lemma_removed(before: Seq<Segment>, i: int)
    requires
        ascending(before),
        0 <= i < before.len(),
    ensures
        ascending(before.remove(i)),
        files_of(before.remove(i)) == files_of(before).remove(before[i].file_num),
{
    let after = before.remove(i);
    let gone = before[i].file_num;
    assert forall|a: int, b: int| 0 <= a < b < after.len() implies (#[trigger] after[a]).file_num
        < (#[trigger] after[b]).file_num by {
        let a0 = if a < i { a } else { a + 1 };
        let b0 = if b < i { b } else { b + 1 };
        assert(before[a0].file_num < before[b0].file_num);
    }
    lemma_files_of(before);
    lemma_files_of(after);
    let want = files_of(before).remove(gone);
    assert forall|g: u64| #[trigger] files_of(after).contains_key(g) <==> want.contains_key(g) by {
        if files_of(after).contains_key(g) {
            let j = choose|j: int| lies_at(after, g, j);
            assert(lies_at(after, g, j));
            let j0 = if j < i { j } else { j + 1 };
            assert(lies_at(before, g, j0));
            if j0 < i {
                assert(before[j0].file_num < before[i].file_num);
            } else {
                assert(before[i].file_num < before[j0].file_num);
            }
        }
        if want.contains_key(g) {
            let j = choose|j: int| lies_at(before, g, j);
            assert(lies_at(before, g, j));
            if j < i {
                assert(lies_at(after, g, j));
            } else {
                assert(lies_at(after, g, j - 1));
            }
        }
    }
    assert forall|g: u64| #[trigger] files_of(after).contains_key(g) implies files_of(after)[g]
        == want[g] by {
        let j = choose|j: int| lies_at(after, g, j);
        assert(lies_at(after, g, j));
        assert(files_of(after)[after[j].file_num] == after[j].data@);
        let j0 = if j < i { j } else { j + 1 };
        assert(lies_at(before, g, j0));
        assert(files_of(before)[before[j0].file_num] == before[j0].data@);
    }
    assert(files_of(after) =~= want);
}

/// An ascending sequence holds as many files as it has segments.
pub proof fn lemma_dom_len(segs: Seq<Segment>)
    requires
        ascending(segs),
    ensures
        files_of(segs).dom().finite(),
        files_of(segs).dom().len() == segs.len(),
    decreases segs.len(),
{
    if segs.len() == 0 {
        assert(files_of(segs).dom() =~= Set::<u64>::empty());
    } else {
        let front = segs.drop_last();
        let last = segs.last();
        assert forall|i: int, j: int| 0 <= i < j < front.len() implies (#[trigger] front[i]).file_num
            < (#[trigger] front[j]).file_num by {
            assert(segs[i].file_num < segs[j].file_num);
        }
        lemma_dom_len(front);
        lemma_files_of(segs);
        lemma_files_of(front);
        assert(files_of(segs).dom() =~= files_of(front).dom().insert(last.file_num)) by {
            assert forall|g: u64|
                files_of(segs).dom().contains(g) <==> #[trigger] files_of(front).dom().insert(
                    last.file_num,
                ).contains(g) by {
                if files_of(segs).contains_key(g) {
                    let j = choose|j: int| lies_at(segs, g, j);
                    assert(lies_at(segs, g, j));
                    if j < front.len() {
                        assert(lies_at(front, g, j));
                    }
                }
                if files_of(front).contains_key(g) {
                    let j = choose|j: int| lies_at(front, g, j);
                    assert(lies_at(front, g, j));
                    assert(lies_at(segs, g, j));
                }
                if g == last.file_num {
                    assert(lies_at(segs, g, segs.len() - 1));
                }
            }
        }
        assert(!files_of(front).dom().contains(last.file_num)) by {
            if files_of(front).contains_key(last.file_num) {
                let j = choose|j: int| lies_at(front, last.file_num, j);
                assert(lies_at(front, last.file_num, j));
                assert(segs[j].file_num < segs[segs.len() - 1].file_num);
            }
        }
    }
}

} // verus!
