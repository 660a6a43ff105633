//! Per-file byte offsets for incremental tail reads, with rotation detection,
//! and the classification of directory events into paths worth reading.

use vstd::prelude::*;

verus! {

/// Whether a path (as bytes) carries the log-file extension: it ends in
/// `.log` and the component before the dot is non-empty, so a file named
/// exactly `.log` (no extension, hidden file) does not qualify.
pub open spec fn has_log_ext(p: Seq<u8>) -> bool {
    &&& p.len() >= 5
    &&& p[p.len() - 4] == '.' as u8
    &&& p[p.len() - 3] == 'l' as u8
    &&& p[p.len() - 2] == 'o' as u8
    &&& p[p.len() - 1] == 'g' as u8
    &&& p[p.len() - 5] != '/' as u8
}

/// Executable check for `has_log_ext`.
pub fn is_log_path(path: &[u8]) -> (r: bool)
    ensures
        r == has_log_ext(path@),
{
    let n = path.len();
    if n < 5 {
        return false;
    }
    path[n - 4] == '.' as u8 && path[n - 3] == 'l' as u8 && path[n - 2] == 'o' as u8 && path[n - 1]
        == 'g' as u8 && path[n - 5] != '/' as u8
}

/// The stored offset of a file, with "never seen" standing for zero.
pub open spec fn stored_or_zero(stored: Option<u64>) -> u64 {
    match stored {
        Some(o) => o,
        None => 0,
    }
}

/// Where the next incremental read of a file starts, given its stored offset
/// and its current length: from the offset, unless the file shrank below the
/// offset (rotation/truncation), in which case from byte zero.
pub open spec fn read_start(stored: Option<u64>, current_len: u64) -> u64 {
    if current_len < stored_or_zero(stored) {
        0
    } else {
        stored_or_zero(stored)
    }
}

/// The mapping from a file's path to the last byte position consumed.
pub struct OffsetTable {
    pub entries: Vec<(Vec<u8>, u64)>,
}

impl OffsetTable {
    /// No path occurs twice in the table.
    pub open spec fn wf(self) -> bool {
        forall|i: int, j: int|
            0 <= i < j < self.entries@.len() ==> self.entries@[i].0@ != self.entries@[j].0@
    }

    /// Whether some entry tracks the given path.
    pub open spec fn has_path(self, path: Seq<u8>) -> bool {
        exists|i: int| 0 <= i < self.entries@.len() && self.entries@[i].0@ == path
    }

    /// The stored offset of a path, if the path is tracked.
    pub open spec fn offset_of(self, path: Seq<u8>) -> Option<u64> {
        if self.has_path(path) {
            let i = choose|i: int|
                0 <= i < self.entries@.len() && self.entries@[i].0@ == path;
            Some(self.entries@[i].1)
        } else {
            None
        }
    }

    /// An empty table: no path is tracked.
    pub fn new() -> (r: OffsetTable)
        ensures
            r.wf(),
            forall|q: Seq<u8>| r.offset_of(q) is None,
    {
        let r = OffsetTable { entries: Vec::new() };
        assert(forall|q: Seq<u8>| !r.has_path(q));
        r
    }

    /// Index of the entry for `path`, if any.
    fn find(&self, path: &[u8]) -> (r: Option<usize>)
        requires
            self.wf(),
        ensures
            match r {
                Some(i) => 0 <= i < self.entries@.len() && self.entries@[i as int].0@ == path@
                    && self.offset_of(path@) == Some(self.entries@[i as int].1),
                None => !self.has_path(path@),
            },
    {
        let mut i: usize = 0;
        while i < self.entries.len()
            invariant
                self.wf(),
                0 <= i <= self.entries@.len(),
                forall|j: int| 0 <= j < i ==> self.entries@[j].0@ != path@,
            decreases self.entries@.len() - i,
        {
            if crate::text::bytes_eq(self.entries[i].0.as_slice(), path) {
                proof {
                    let k = choose|k: int|
                        0 <= k < self.entries@.len() && self.entries@[k].0@ == path@;
                    assert(self.entries@[i as int].0@ == path@);
                    assert(k == i as int);
                }
                return Some(i);
            }
            i = i + 1;
        }
        assert(!self.has_path(path@));
        None
    }

    /// The stored offset of `path`, or `None` if the path is not yet tracked.
    pub fn get_offset(&self, path: &[u8]) -> (r: Option<u64>)
        requires
            self.wf(),
        ensures
            r == self.offset_of(path@),
    {
        match self.find(path) {
            Some(i) => Some(self.entries[i].1),
            None => None,
        }
    }

    /// Record `off` as the consumed position of `path`; every other path keeps
    /// its offset.
    pub fn set_offset(&mut self, path: &[u8], off: u64)
        requires
            old(self).wf(),
        ensures
            final(self).wf(),
            final(self).offset_of(path@) == Some(off),
            forall|q: Seq<u8>| q != path@ ==> final(self).offset_of(q) == old(self).offset_of(q),
    {
        match self.find(path) {
            Some(i) => {
                let key = vstd::slice::slice_to_vec(self.entries[i].0.as_slice());
                self.entries[i] = (key, off);
                proof {
                    assert(forall|j: int|
                        0 <= j < self.entries@.len() && j != i ==> self.entries@[j]
                            == old(self).entries@[j]);
                    assert(self.entries@[i as int].0@ == path@);
                    self.lemma_lookup(path@, i as int);
                    assert forall|q: Seq<u8>| q != path@ implies self.offset_of(q) == old(
                        self,
                    ).offset_of(q) by {
                        assert forall|j: int|
                            0 <= j < old(self).entries@.len() && old(self).entries@[j].0@
                                == q implies exists|k: int|
                            0 <= k < self.entries@.len() && self.entries@[k] == old(
                            self,
                        ).entries@[j] by {
                            assert(old(self).entries@[j].0@ != path@);
                            assert(self.entries@[j] == old(self).entries@[j]);
                        }
                        assert forall|j: int|
                            0 <= j < self.entries@.len() && self.entries@[j].0@ == q implies exists|
                            k: int,
                        |
                            0 <= k < old(self).entries@.len() && old(self).entries@[k]
                                == self.entries@[j] by {
                            assert(j != i as int);
                            assert(old(self).entries@[j] == self.entries@[j]);
                        }
                        old(self).lemma_other_unchanged(*self, q);
                    }
                }
            },
            None => {
                let key = vstd::slice::slice_to_vec(path);
                self.entries.push((key, off));
                proof {
                    let n = old(self).entries@.len();
                    assert(self.entries@ =~= old(self).entries@.push((self.entries@[n as int].0,
                    off)));
                    assert(self.entries@[n as int].0@ == path@);
                    assert(self.wf());
                    self.lemma_lookup(path@, n as int);
                    assert forall|q: Seq<u8>| q != path@ implies self.offset_of(q) == old(
                        self,
                    ).offset_of(q) by {
                        assert forall|j: int|
                            0 <= j < old(self).entries@.len() && old(self).entries@[j].0@
                                == q implies exists|k: int|
                            0 <= k < self.entries@.len() && self.entries@[k] == old(
                            self,
                        ).entries@[j] by {
                            assert(self.entries@[j] == old(self).entries@[j]);
                        }
                        assert forall|j: int|
                            0 <= j < self.entries@.len() && self.entries@[j].0@ == q implies exists|
                            k: int,
                        |
                            0 <= k < old(self).entries@.len() && old(self).entries@[k]
                                == self.entries@[j] by {
                            assert(j != n as int);
                            assert(old(self).entries@[j] == self.entries@[j]);
                        }
                        old(self).lemma_other_unchanged(*self, q);
                    }
                }
            },
        }
    }

    /// With unique paths, the offset read through `offset_of` is the one at any
    /// index whose entry matches the path.
    proof fn lemma_lookup(self, path: Seq<u8>, i: int)
        requires
            self.wf(),
            0 <= i < self.entries@.len(),
            self.entries@[i].0@ == path,
        ensures
            self.offset_of(path) == Some(self.entries@[i].1),
    {
        assert(self.has_path(path));
        let k = choose|k: int| 0 <= k < self.entries@.len() && self.entries@[k].0@ == path;
        assert(k == i);
    }

    /// If two well-formed tables agree on every entry for paths other than the
    /// one that changed, their lookups agree there.
    proof fn lemma_other_unchanged(self, other: OffsetTable, q: Seq<u8>)
        requires
            self.wf(),
            other.wf(),
            forall|j: int|
                0 <= j < self.entries@.len() && self.entries@[j].0@ == q ==> exists|k: int|
                    0 <= k < other.entries@.len() && other.entries@[k] == self.entries@[j],
            forall|j: int|
                0 <= j < other.entries@.len() && other.entries@[j].0@ == q ==> exists|k: int|
                    0 <= k < self.entries@.len() && self.entries@[k] == other.entries@[j],
        ensures
            self.offset_of(q) == other.offset_of(q),
    {
        if self.has_path(q) {
            let i = choose|i: int| 0 <= i < self.entries@.len() && self.entries@[i].0@ == q;
            let k = choose|k: int|
                0 <= k < other.entries@.len() && other.entries@[k] == self.entries@[i];
            other.lemma_lookup(q, k);
            self.lemma_lookup(q, i);
        } else if other.has_path(q) {
            let i = choose|i: int| 0 <= i < other.entries@.len() && other.entries@[i].0@ == q;
            let k = choose|k: int|
                0 <= k < self.entries@.len() && self.entries@[k] == other.entries@[i];
            assert(self.has_path(q));
        }
    }

    /// Begin an incremental read of `path` whose current length is
    /// `current_len`: resolve the rotation rule, store the effective start as
    /// the new offset, and return it.
    pub fn begin_read(&mut self, path: &[u8], current_len: u64) -> (start: u64)
        requires
            old(self).wf(),
        ensures
            final(self).wf(),
            start == read_start(old(self).offset_of(path@), current_len),
            start <= current_len,
            final(self).offset_of(path@) == Some(start),
            forall|q: Seq<u8>| q != path@ ==> final(self).offset_of(q) == old(self).offset_of(q),
    {
        let stored = match self.get_offset(path) {
            Some(o) => o,
            None => 0,
        };
        let start = if current_len < stored {
            0
        } else {
            stored
        };
        self.set_offset(path, start);
        start
    }

    /// Finish a read pass over `path`: the consumed position becomes
    /// `new_len`, the file length the pass covered.
    pub fn commit_read(&mut self, path: &[u8], new_len: u64)
        requires
            old(self).wf(),
        ensures
            final(self).wf(),
            final(self).offset_of(path@) == Some(new_len),
            forall|q: Seq<u8>| q != path@ ==> final(self).offset_of(q) == old(self).offset_of(q),
    {
        self.set_offset(path, new_len);
    }

    /// A newly created file starts at offset zero.
    pub fn note_created(&mut self, path: &[u8])
        requires
            old(self).wf(),
        ensures
            final(self).wf(),
            final(self).offset_of(path@) == Some(0u64),
            forall|q: Seq<u8>| q != path@ ==> final(self).offset_of(q) == old(self).offset_of(q),
    {
        self.set_offset(path, 0);
    }
}

/// Re-reading a file whose length still equals the stored offset starts at
/// that very offset, so the region left to read is empty: no record is
/// delivered twice.
pub proof fn lemma_idempotent_reread(stored: u64)
    ensures
        read_start(Some(stored), stored) == stored,
{
}

/// A file whose length shrank below the stored offset (rotation or
/// truncation) is re-read from byte zero.
pub proof fn lemma_rotation_resets(stored: u64, current_len: u64)
    requires
        current_len < stored,
    ensures
        read_start(Some(stored), current_len) == 0,
{
}

/// Absent rotation (the file did not shrink), the offset never moves
/// backwards: the read starts at the stored offset and the commit moves it
/// forward to the current length.
pub proof fn lemma_offset_monotone(stored: Option<u64>, current_len: u64)
    requires
        stored_or_zero(stored) <= current_len,
    ensures
        read_start(stored, current_len) == stored_or_zero(stored),
        read_start(stored, current_len) <= current_len,
{
}

/// Where the i-th read of an append run starts: the first read resolves the
/// initially stored offset, every later one the offset the previous read
/// committed (its observed length).
pub open spec fn run_start(init: u64, lens: Seq<u64>, i: int) -> u64 {
    if i == 0 {
        read_start(Some(init), lens[0])
    } else {
        read_start(Some(lens[i - 1]), lens[i])
    }
}

/// Observed lengths never shrink along the run.
pub open spec fn append_only(init: u64, lens: Seq<u64>) -> bool {
    &&& init <= lens[0]
    &&& forall|i: int| 0 < i < lens.len() ==> lens[i - 1] <= #[trigger] lens[i]
}

proof fn lemma_lens_chain(lens: Seq<u64>, i: int, j: int)
    requires
        forall|x: int| 0 < x < lens.len() ==> lens[x - 1] <= #[trigger] lens[x],
        0 <= i <= j < lens.len(),
    ensures
        lens[i] <= lens[j],
    decreases j - i,
{
    if i < j {
        lemma_lens_chain(lens, i, j - 1);
    }
}

/// Across any run of append reads of one file — each observed length at
/// least the previous one — every read starts exactly at the previous
/// committed offset, the committed offsets never decrease, and the byte
/// ranges read are pairwise disjoint: no byte, hence no line, is delivered
/// twice.
pub proof fn lemma_append_run_no_redelivery(init: u64, lens: Seq<u64>)
    requires
        lens.len() > 0,
        append_only(init, lens),
    ensures
        run_start(init, lens, 0) == init,
        forall|i: int| 0 < i < lens.len() ==> run_start(init, lens, i) == lens[i - 1],
        forall|i: int| 0 <= i < lens.len() ==> run_start(init, lens, i) <= #[trigger] lens[i],
        forall|i: int, j: int|
            0 <= i < j < lens.len() ==> #[trigger] lens[i] <= #[trigger] run_start(init, lens, j),
{
    assert forall|i: int, j: int| 0 <= i < j < lens.len() implies #[trigger] lens[i]
        <= #[trigger] run_start(init, lens, j) by {
        lemma_lens_chain(lens, i, j - 1);
    }
}

/// The kind of a directory event, as far as the tailer cares.
pub enum EventClass {
    Created,
    Modified,
    Other,
}

/// Only creations and modifications trigger a read.
pub open spec fn event_is_actionable(k: EventClass) -> bool {
    match k {
        EventClass::Created => true,
        EventClass::Modified => true,
        EventClass::Other => false,
    }
}

/// The sub-sequence of paths that carry the log extension, in order.
pub open spec fn log_paths_of(paths: Seq<Seq<u8>>) -> Seq<Seq<u8>>
    decreases paths.len(),
{
    if paths.len() == 0 {
        Seq::empty()
    } else {
        log_paths_of(paths.drop_last()) + if has_log_ext(paths.last()) {
            seq![paths.last()]
        } else {
            Seq::empty()
        }
    }
}

/// The paths an event asks the tailer to read: none unless the event is a
/// creation or a modification, and then exactly its log-extension paths.
pub open spec fn actionable_paths_spec(k: EventClass, paths: Seq<Seq<u8>>) -> Seq<Seq<u8>> {
    if event_is_actionable(k) {
        log_paths_of(paths)
    } else {
        Seq::empty()
    }
}

/// Decide which of an event's paths to read, per `actionable_paths_spec`.
pub fn actionable_paths(kind: &EventClass, paths: &Vec<Vec<u8>>) -> (r: Vec<Vec<u8>>)
    ensures
        r.deep_view() == actionable_paths_spec(*kind, paths.deep_view()),
{
    let actionable = match kind {
        EventClass::Created => true,
        EventClass::Modified => true,
        EventClass::Other => false,
    };
    let mut out: Vec<Vec<u8>> = Vec::new();
    if !actionable {
        assert(out.deep_view() =~= actionable_paths_spec(*kind, paths.deep_view()));
        return out;
    }
    let ghost all = paths.deep_view();
    let mut i: usize = 0;
    while i < paths.len()
        invariant
            0 <= i <= paths.len(),
            all == paths.deep_view(),
            all.len() == paths@.len(),
            forall|j: int| 0 <= j < paths@.len() ==> all[j] == paths@[j]@,
            out.deep_view() == log_paths_of(all.take(i as int)),
        decreases paths.len() - i,
    {
        proof {
            assert(all.take(i + 1 as int).drop_last() =~= all.take(i as int));
            assert(all.take(i + 1 as int).last() == all[i as int]);
        }
        if is_log_path(paths[i].as_slice()) {
            let p = vstd::slice::slice_to_vec(paths[i].as_slice());
            out.push(p);
            assert(out.deep_view() =~= log_paths_of(all.take(i + 1 as int)));
        } else {
            assert(out.deep_view() =~= log_paths_of(all.take(i + 1 as int)));
        }
        i = i + 1;
    }
    proof {
        assert(all.take(paths@.len() as int) =~= all);
    }
    out
}

} // verus!
