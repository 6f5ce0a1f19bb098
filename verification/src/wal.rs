//! The write-ahead log: a buffered writer over a rolling sequence of
//! append-only segment files.
//!
//! The log directory is modelled as the sequence of segment files it holds,
//! each a pair of segment id and file bytes, in creation order.  The active
//! segment is held apart from the directory; it joins the directory when the
//! log rotates.  Every segment file opens with the four header bytes
//! `ch1\n`; everything after them is framed records.

use vstd::prelude::*;

use crate::codec::{encode_entry, entry_len, frames_bytes, lemma_frames_bytes_concat, replay_frames,
    EntryModel, WalEntry};
use crate::names::{segment_file_name, segment_name};
use crate::ChipmunkError;

verus! {

/// Ceiling, in bytes, of a segment before the log is rotated.
pub const WAL_MAX_SEGMENT_SIZE_BYTES: u64 = 67108864;

/// Default size of the in-memory append buffer.
pub const DEFAULT_BUFFER_SIZE: usize = 8192;

/// The four bytes every segment file begins with: `ch1` and a newline.
pub open spec fn wal_header() -> Seq<u8> {
    seq![99u8, 104u8, 49u8, 10u8]
}

/// Keep the files whose ids are not in the closed list `c`.
pub open spec fn keep_pred(c: Seq<u64>) -> spec_fn((u64, Seq<u8>)) -> bool {
    |f: (u64, Seq<u8>)| !c.contains(f.0)
}

/// The segment files of a log directory, in creation order.
#[derive(Debug)]
pub struct LogDirectory {
    pub files: Vec<(u64, Vec<u8>)>,
}

/// Total bytes of a file sequence.
pub open spec fn files_size(s: Seq<(u64, Seq<u8>)>) -> int
    decreases s.len(),
{
    if s.len() == 0 {
        0
    } else {
        files_size(s.drop_last()) + s.last().1.len()
    }
}

impl LogDirectory {
    /// The files as mathematical values: id and bytes, in order.
    pub open spec fn file_seq(self) -> Seq<(u64, Seq<u8>)> {
        self.files@.map_values(|f: (u64, Vec<u8>)| (f.0, f.1@))
    }

    /// A file for segment `id` exists.
    pub open spec fn has_segment(self, id: u64) -> bool {
        exists|i: int| 0 <= i < self.file_seq().len() && (#[trigger] self.file_seq()[i]).0 == id
    }

    /// No two files share a segment id.
    pub open spec fn ids_unique(self) -> bool {
        forall|i: int, j: int|
            0 <= i < self.file_seq().len() && 0 <= j < self.file_seq().len() && i != j ==> (
            #[trigger] self.file_seq()[i]).0 != (#[trigger] self.file_seq()[j]).0
    }

    /// Total bytes held by the directory.
    pub open spec fn total_size(self) -> int {
        files_size(self.file_seq())
    }

    /// An empty directory.
    pub fn new() -> (r: LogDirectory)
        ensures
            r.file_seq() == Seq::<(u64, Seq<u8>)>::empty(),
            r.ids_unique(),
    {
        let r = LogDirectory { files: Vec::new() };
        proof {
            assert(r.file_seq() =~= Seq::<(u64, Seq<u8>)>::empty());
        }
        r
    }

    /// Whether a file for segment `id` exists.
    pub fn contains_segment(&self, id: u64) -> (r: bool)
        ensures
            r == self.has_segment(id),
    {
        let ghost s = self.file_seq();
        let n = self.files.len();
        let mut i: usize = 0;
        while i < n
            invariant
                n == s.len(),
                i <= n,
                self.file_seq() == s,
                forall|j: int| 0 <= j < i ==> (#[trigger] s[j]).0 != id,
            decreases n - i,
        {
            if self.files[i].0 == id {
                proof {
                    assert((#[trigger] self.file_seq()[i as int]).0 == id);
                }
                return true;
            }
            i = i + 1;
        }
        false
    }

    /// Number of files in the directory.
    pub fn file_count(&self) -> (r: usize)
        ensures
            r == self.file_seq().len(),
    {
        self.files.len()
    }

    /// Segment id of the file at `i`.
    pub fn file_id_at(&self, i: usize) -> (r: u64)
        requires
            i < self.file_seq().len(),
        ensures
            r == self.file_seq()[i as int].0,
    {
        self.files[i].0
    }

    /// Bytes of the file at `i`.
    pub fn file_data_at(&self, i: usize) -> (r: &Vec<u8>)
        requires
            i < self.file_seq().len(),
        ensures
            r@ == self.file_seq()[i as int].1,
    {
        &self.files[i].1
    }

    /// Add a file, as when picking up what an earlier run left on disk.
    /// Rejected when a file with that id already exists.
    pub fn put_file(&mut self, id: u64, data: Vec<u8>) -> (ok: bool)
        ensures
            ok == !old(self).has_segment(id),
            ok ==> final(self).file_seq() == old(self).file_seq().push((id, data@)),
            !ok ==> *final(self) == *old(self),
            old(self).ids_unique() ==> final(self).ids_unique(),
    {
        if self.contains_segment(id) {
            return false;
        }
        let ghost s = self.file_seq();
        self.files.push((id, data));
        proof {
            let s2 = self.file_seq();
            assert(s2 =~= s.push((id, data@)));
            if old(self).ids_unique() {
                assert forall|i: int, j: int|
                    0 <= i < s2.len() && 0 <= j < s2.len() && i != j implies (
                #[trigger] s2[i]).0 != (#[trigger] s2[j]).0 by {
                    if i < s.len() && j < s.len() {
                    } else if j == s.len() {
                        assert(s2[i] == s[i]);
                    } else {
                        assert(s2[j] == s[j]);
                    }
                }
            }
        }
        true
    }

    /// Total bytes held by the directory.
    pub fn size_on_disk(&self) -> (r: u64)
        requires
            self.total_size() <= u64::MAX,
        ensures
            r == self.total_size(),
    {
        let ghost s = self.file_seq();
        let n = self.files.len();
        let mut total: u64 = 0;
        let mut i: usize = 0;
        while i < n
            invariant
                n == s.len(),
                i <= n,
                self.file_seq() == s,
                total == files_size(s.take(i as int)),
                files_size(s) <= u64::MAX,
            decreases n - i,
        {
            proof {
                let t = s.take(i as int + 1);
                assert(t.drop_last() =~= s.take(i as int));
                assert(t.last() == s[i as int]);
                // The running total plus the current file stays in bounds.
                lemma_files_size_split(s, i as int + 1);
                lemma_files_size_nonneg(s.skip(i as int + 1));
                lemma_files_size_nonneg(s.take(i as int));
            }
            let len = self.files[i].1.len();
            total = total + (len as u64);
            i = i + 1;
        }
        proof {
            assert(s.take(n as int) =~= s);
        }
        total
    }
}

/// File sizes never add up to a negative number.
pub(crate) proof fn lemma_files_size_nonneg(s: Seq<(u64, Seq<u8>)>)
    ensures
        files_size(s) >= 0,
    decreases s.len(),
{
    if s.len() > 0 {
        lemma_files_size_nonneg(s.drop_last());
    }
}

/// Splitting a file sequence splits its size.
pub(crate) proof fn lemma_files_size_split(s: Seq<(u64, Seq<u8>)>, k: int)
    requires
        0 <= k <= s.len(),
    ensures
        files_size(s.take(k)) + files_size(s.skip(k)) == files_size(s),
    decreases s.len(),
{
    if k == s.len() {
        assert(s.take(k) =~= s);
        assert(s.skip(k) =~= Seq::<(u64, Seq<u8>)>::empty());
    } else {
        lemma_files_size_split(s.drop_last(), k);
        assert(s.drop_last().take(k) =~= s.take(k));
        assert(s.skip(k).drop_last() =~= s.drop_last().skip(k));
        assert(s.skip(k).len() > 0);
        assert(s.skip(k).last() == s.last());
    }
}

/// Everything after the first newline of a file: what follows its header
/// line.  Nothing when no newline occurs.
pub open spec fn strip_header(b: Seq<u8>) -> Seq<u8>
    decreases b.len(),
{
    if b.len() == 0 {
        Seq::empty()
    } else if b[0] == 10 {
        b.skip(1)
    } else {
        strip_header(b.skip(1))
    }
}

/// The records one segment file contributes to a restore: the frames after
/// its header line, read greedily.
pub open spec fn file_entries(b: Seq<u8>) -> Seq<EntryModel> {
    replay_frames(strip_header(b))
}

/// All records a directory contributes to a restore, file by file in
/// directory order.
pub open spec fn restored_entries(files: Seq<(u64, Seq<u8>)>) -> Seq<EntryModel>
    decreases files.len(),
{
    if files.len() == 0 {
        Seq::empty()
    } else {
        restored_entries(files.drop_last()) + file_entries(files.last().1)
    }
}

/// Splitting a directory splits what it restores.
proof fn lemma_restored_split(files: Seq<(u64, Seq<u8>)>, k: int)
    requires
        0 <= k <= files.len(),
    ensures
        restored_entries(files) == restored_entries(files.take(k)) + restored_entries(
            files.skip(k),
        ),
    decreases files.len(),
{
    if k == files.len() {
        assert(files.take(k) =~= files);
        assert(files.skip(k) =~= Seq::<(u64, Seq<u8>)>::empty());
        assert(restored_entries(files) =~= restored_entries(files.take(k)) + restored_entries(
            files.skip(k),
        ));
    } else {
        lemma_restored_split(files.drop_last(), k);
        assert(files.drop_last().take(k) =~= files.take(k));
        assert(files.skip(k).drop_last() =~= files.drop_last().skip(k));
        assert(files.skip(k).len() > 0);
        assert(files.skip(k).last() == files.last());
        assert(restored_entries(files) =~= restored_entries(files.take(k)) + restored_entries(
            files.skip(k),
        ));
    }
}

/// Peeling the first file off the front of a restore.
proof fn lemma_restored_head(files: Seq<(u64, Seq<u8>)>)
    requires
        files.len() > 0,
    ensures
        restored_entries(files) == file_entries(files[0].1) + restored_entries(files.skip(1)),
    decreases files.len(),
{
    if files.len() == 1 {
        assert(files.drop_last() =~= Seq::<(u64, Seq<u8>)>::empty());
        assert(files.skip(1) =~= Seq::<(u64, Seq<u8>)>::empty());
        assert(restored_entries(files) =~= file_entries(files[0].1) + restored_entries(
            files.skip(1),
        ));
    } else {
        lemma_restored_head(files.drop_last());
        assert(files.skip(1).drop_last() =~= files.drop_last().skip(1));
        assert(files.drop_last()[0] == files[0]);
        assert(files.skip(1).last() == files.last());
        assert(restored_entries(files) =~= file_entries(files[0].1) + restored_entries(
            files.skip(1),
        ));
    }
}

/// Every record a restore yields came out of a replay, so all of them fit
/// the frame format.
pub proof fn lemma_restored_wf(files: Seq<(u64, Seq<u8>)>)
    ensures
        crate::codec::frames_wf(restored_entries(files)),
    decreases files.len(),
{
    if files.len() > 0 {
        lemma_restored_wf(files.drop_last());
        crate::codec::lemma_replay_frames_wf(strip_header(files.last().1));
        let a = restored_entries(files.drop_last());
        let b = file_entries(files.last().1);
        let r = restored_entries(files);
        assert(r == a + b);
        assert forall|i: int| 0 <= i < r.len() implies crate::codec::entry_wf(
            #[trigger] r[i],
        ) by {
            if i < a.len() {
                assert(r[i] == a[i]);
            } else {
                assert(r[i] == b[i - a.len()]);
            }
        }
    }
}

/// Index just past the first newline of `data`, or its length when no
/// newline occurs: where the header line ends.
fn header_end(data: &Vec<u8>) -> (h: usize)
    ensures
        h <= data@.len(),
        data@.subrange(h as int, data@.len() as int) == strip_header(data@),
{
    let n = data.len();
    proof {
        assert(data@.skip(0) =~= data@);
    }
    let mut i: usize = 0;
    while i < n
        invariant
            i <= n,
            n == data@.len(),
            strip_header(data@) == strip_header(data@.skip(i as int)),
        decreases n - i,
    {
        if data[i] == 10 {
            proof {
                assert(data@.skip(i as int)[0] == 10);
                assert(data@.skip(i as int).skip(1) =~= data@.subrange(
                    i as int + 1,
                    n as int,
                ));
            }
            return i + 1;
        }
        proof {
            assert(data@.skip(i as int)[0] != 10);
            assert(data@.skip(i as int).skip(1) =~= data@.skip(i as int + 1));
        }
        i = i + 1;
    }
    proof {
        assert(data@.skip(n as int) =~= Seq::<u8>::empty());
        assert(data@.subrange(n as int, n as int) =~= Seq::<u8>::empty());
    }
    n
}

/// The active, append-only segment file: its id and its bytes.
#[derive(Debug)]
pub struct Segment {
    pub id: u64,
    pub data: Vec<u8>,
}

impl Segment {
    /// Open a fresh segment file with exclusive-create semantics: the id
    /// must not already have a file in the directory, so a crashed restart
    /// that mis-identifies the next id cannot silently overwrite a segment.
    pub fn try_new(id: u64, dir: &LogDirectory) -> (r: Result<Segment, ChipmunkError>)
        ensures
            r is Ok <==> !dir.has_segment(id),
            r is Ok ==> r.unwrap().id == id && r.unwrap().data@ == wal_header(),
            r is Err ==> r.unwrap_err() == ChipmunkError::SegmentOpen,
    {
        if dir.contains_segment(id) {
            return Err(ChipmunkError::SegmentOpen);
        }
        let mut data: Vec<u8> = Vec::new();
        data.push(99);
        data.push(104);
        data.push(49);
        data.push(10);
        proof {
            assert(data@ =~= wal_header());
        }
        Ok(Segment { id, data })
    }

    /// Sync the segment to durable storage.  The in-memory model has no
    /// distinct durable state, so nothing observable changes; the embedding
    /// program performs the real fsync when it mirrors the bytes out.
    pub fn flush(&mut self) -> (r: Result<(), ChipmunkError>)
        ensures
            *final(self) == *old(self),
            r is Ok,
    {
        Ok(())
    }

    /// The segment's id.
    pub fn id(&self) -> (r: u64)
        ensures
            r == self.id,
    {
        self.id
    }
}

/// The write-ahead log.
#[derive(Debug)]
pub struct Wal {
    /// Closed and pre-existing segment files.  The active segment is not
    /// among them until the log rotates.
    pub log_directory: LogDirectory,
    /// Bytes appended to the active segment since it was opened, buffered
    /// bytes included.
    pub current_size: u64,
    /// Segment size that callers use as their rotation threshold.
    pub max_size: u64,
    /// Appended frames not yet written through to the segment.
    pub buffer: Vec<u8>,
    /// The buffer is written through once it reaches this many bytes.
    pub buffer_size: usize,
    /// Ids of segments rotated out in this run and not yet deleted.
    pub closed_segments: Vec<u64>,
    /// The active segment.
    pub segment: Segment,
}

impl Wal {
    /// Bytes of the active segment file past its header.
    pub open spec fn flushed_payload(self) -> Seq<u8> {
        self.segment.data@.skip(4)
    }

    /// All bytes appended to the active segment: written through or still
    /// buffered.
    pub open spec fn payload(self) -> Seq<u8> {
        self.flushed_payload() + self.buffer@
    }

    /// Well-formed log state.
    pub open spec fn wf(self) -> bool {
        &&& self.segment.data@.len() >= 4
        &&& self.segment.data@.take(4) == wal_header()
        &&& self.current_size == self.payload().len()
        &&& self.buffer@.len() <= self.buffer_size
        &&& self.log_directory.ids_unique()
        &&& !self.log_directory.has_segment(self.segment.id)
        &&& forall|i: int|
            0 <= i < self.closed_segments@.len() ==> self.log_directory.has_segment(
                #[trigger] self.closed_segments@[i],
            )
        &&& forall|i: int, j: int|
            0 <= i < self.closed_segments@.len() && 0 <= j < self.closed_segments@.len() && i != j
                ==> self.closed_segments@[i] != self.closed_segments@[j]
    }

    /// Open a log over `directory` with a fresh active segment `id`.  Fails
    /// with `SegmentOpen`, leaving no new file, exactly when a file for `id`
    /// already exists.
    pub fn new(id: u64, directory: LogDirectory, max_size: u64, buffer_size: Option<usize>) -> (r:
        Result<Wal, ChipmunkError>)
        requires
            directory.ids_unique(),
        ensures
            r is Ok <==> !directory.has_segment(id),
            r is Err ==> r.unwrap_err() == ChipmunkError::SegmentOpen,
            r is Ok ==> {
                let w = r.unwrap();
                &&& w.wf()
                &&& w.segment.id == id
                &&& w.current_size == 0
                &&& w.payload() == Seq::<u8>::empty()
                &&& w.buffer@ == Seq::<u8>::empty()
                &&& w.closed_segments@ == Seq::<u64>::empty()
                &&& w.log_directory == directory
                &&& w.max_size == max_size
                &&& w.buffer_size == match buffer_size {
                    Some(n) => n,
                    None => DEFAULT_BUFFER_SIZE,
                }
            },
    {
        let buffer_size = match buffer_size {
            Some(n) => n,
            None => DEFAULT_BUFFER_SIZE,
        };
        let segment = match Segment::try_new(id, &directory) {
            Ok(s) => s,
            Err(e) => {
                return Err(e);
            },
        };
        let w = Wal {
            log_directory: directory,
            current_size: 0,
            max_size,
            buffer: Vec::new(),
            buffer_size,
            closed_segments: Vec::new(),
            segment,
        };
        proof {
            assert(w.segment.data@.take(4) =~= wal_header());
            assert(w.flushed_payload() =~= Seq::<u8>::empty());
            assert(w.payload() =~= Seq::<u8>::empty());
        }
        Ok(w)
    }

    /// Write the buffer through to the segment file when it has reached the
    /// configured size, or unconditionally when forced.
    fn maybe_flush_buffer(&mut self, force: bool)
        requires
            old(self).segment.data@.len() >= 4,
        ensures
            ({
                let fire = old(self).buffer@.len() >= old(self).buffer_size || force;
                if fire {
                    final(self).segment.data@ == old(self).segment.data@ + old(self).buffer@
                        && final(self).buffer@ == Seq::<u8>::empty()
                } else {
                    *final(self) == *old(self)
                }
            }),
            final(self).segment.id == old(self).segment.id,
            final(self).log_directory == old(self).log_directory,
            final(self).closed_segments == old(self).closed_segments,
            final(self).current_size == old(self).current_size,
            final(self).max_size == old(self).max_size,
            final(self).buffer_size == old(self).buffer_size,
            final(self).payload() == old(self).payload(),
    {
        if self.buffer.len() >= self.buffer_size || force {
            self.segment.data.extend_from_slice(self.buffer.as_slice());
            self.buffer.clear();
            proof {
                assert(self.flushed_payload() =~= old(self).flushed_payload() + old(self).buffer@);
                assert(self.payload() =~= old(self).payload());
            }
        } else {
            proof {
                assert(self.payload() =~= old(self).payload());
            }
        }
    }

    /// Write any buffered bytes through to the active segment.
    pub fn flush_buffer(&mut self) -> (r: Result<(), ChipmunkError>)
        requires
            old(self).wf(),
        ensures
            r is Ok,
            final(self).wf(),
            final(self).buffer@ == Seq::<u8>::empty(),
            final(self).segment.data@ == old(self).segment.data@ + old(self).buffer@,
            final(self).payload() == old(self).payload(),
            final(self).current_size == old(self).current_size,
            final(self).segment.id == old(self).segment.id,
            final(self).log_directory == old(self).log_directory,
            final(self).closed_segments == old(self).closed_segments,
            final(self).max_size == old(self).max_size,
            final(self).buffer_size == old(self).buffer_size,
    {
        self.maybe_flush_buffer(true);
        proof {
            assert(final(self).segment.data@.take(4) =~= old(self).segment.data@.take(4));
        }
        Ok(())
    }

    /// Append one record: frame it into the buffer, grow `size()` by the
    /// frame length, and write the buffer through exactly when it has
    /// reached the configured size.  Returns the number of bytes the frame
    /// occupies.
    pub fn append(&mut self, entry: WalEntry) -> (r: Result<u64, ChipmunkError>)
        requires
            old(self).wf(),
            old(self).current_size + entry_len(entry@) <= u64::MAX,
        ensures
            r == Ok::<u64, ChipmunkError>(entry_len(entry@) as u64),
            final(self).wf(),
            final(self).payload() == old(self).payload() + encode_entry(entry@),
            final(self).current_size == old(self).current_size + entry_len(entry@),
            // The flush policy: the buffered frames, this one included, go
            // through to the segment file exactly when they have reached
            // the buffer size; otherwise the file is untouched.
            if (old(self).buffer@ + encode_entry(entry@)).len() >= old(self).buffer_size {
                final(self).buffer@ == Seq::<u8>::empty()
                    && final(self).segment.data@ == old(self).segment.data@ + (old(self).buffer@
                    + encode_entry(entry@))
            } else {
                final(self).buffer@ == old(self).buffer@ + encode_entry(entry@)
                    && final(self).segment.data@ == old(self).segment.data@
            },
            final(self).segment.id == old(self).segment.id,
            final(self).log_directory == old(self).log_directory,
            final(self).closed_segments == old(self).closed_segments,
            final(self).max_size == old(self).max_size,
            final(self).buffer_size == old(self).buffer_size,
    {
        let frame = entry.as_bytes();
        assert(frame@.len() == entry_len(entry@));
        let flen = frame.len();
        self.buffer.extend_from_slice(frame.as_slice());
        self.current_size = self.current_size + (flen as u64);
        let ghost mid = *self;
        proof {
            assert(mid.payload() =~= old(self).payload() + encode_entry(entry@));
        }
        self.maybe_flush_buffer(false);
        proof {
            assert(self.segment.data@.take(4) =~= old(self).segment.data@.take(4));
        }
        Ok(flen as u64)
    }

    /// Rotate the log: write everything through, sync the active segment,
    /// close it into the directory and the closed list, and open a fresh
    /// segment with the next id.  Fails with `SegmentOpen`, changing
    /// nothing, exactly when a file for the next id already exists.
    pub fn rotate(&mut self) -> (r: Result<(), ChipmunkError>)
        requires
            old(self).wf(),
            old(self).segment.id < u64::MAX,
        ensures
            r is Ok <==> !old(self).log_directory.has_segment((old(self).segment.id + 1) as u64),
            r is Err ==> *final(self) == *old(self) && r.unwrap_err() == ChipmunkError::SegmentOpen,
            r is Ok ==> {
                &&& final(self).wf()
                &&& final(self).segment.id == old(self).segment.id + 1
                &&& final(self).current_size == 0
                &&& final(self).payload() == Seq::<u8>::empty()
                &&& final(self).buffer@ == Seq::<u8>::empty()
                &&& final(self).closed_segments@ == old(self).closed_segments@.push(
                    old(self).segment.id,
                )
                &&& final(self).log_directory.file_seq() == old(
                    self,
                ).log_directory.file_seq().push(
                    (old(self).segment.id, old(self).segment.data@ + old(self).buffer@),
                )
                &&& final(self).max_size == old(self).max_size
                &&& final(self).buffer_size == old(self).buffer_size
            },
    {
        let next = self.segment.id + 1;
        if self.log_directory.contains_segment(next) {
            return Err(ChipmunkError::SegmentOpen);
        }
        self.maybe_flush_buffer(true);
        match self.segment.flush() {
            Ok(()) => {},
            Err(_) => {
                return vstd::pervasive::unreached();
            },
        }
        let old_id = self.segment.id;
        let closed_data = self.segment.data.clone();
        let new_segment = match Segment::try_new(next, &self.log_directory) {
            Ok(s) => s,
            Err(_) => {
                return vstd::pervasive::unreached();
            },
        };
        self.segment = new_segment;
        let ghost dir0 = self.log_directory.file_seq();
        self.log_directory.files.push((old_id, closed_data));
        self.closed_segments.push(old_id);
        self.current_size = 0;
        proof {
            let dir2 = self.log_directory.file_seq();
            assert(dir2 =~= dir0.push((old_id, old(self).segment.data@ + old(self).buffer@)));
            assert(self.segment.data@.take(4) =~= wal_header());
            assert(self.flushed_payload() =~= Seq::<u8>::empty());
            assert(self.payload() =~= Seq::<u8>::empty());
            // The directory keeps its ids unique: the closed id was not in it.
            assert forall|i: int, j: int|
                0 <= i < dir2.len() && 0 <= j < dir2.len() && i != j implies (
            #[trigger] dir2[i]).0 != (#[trigger] dir2[j]).0 by {
                if i < dir0.len() && j < dir0.len() {
                } else if j == dir0.len() {
                    assert(dir2[i] == dir0[i]);
                } else {
                    assert(dir2[j] == dir0[j]);
                }
            }
            // The new active segment has no file yet.
            assert(!self.log_directory.has_segment(self.segment.id)) by {
                if self.log_directory.has_segment(self.segment.id) {
                    let i = choose|i: int|
                        0 <= i < dir2.len() && (#[trigger] dir2[i]).0 == self.segment.id;
                    if i < dir0.len() {
                        assert(dir0[i].0 == self.segment.id);
                    }
                }
            }
            // Closed segments all have files, the closed id included.
            assert forall|i: int|
                0 <= i < self.closed_segments@.len() implies self.log_directory.has_segment(
                #[trigger] self.closed_segments@[i],
            ) by {
                if i < old(self).closed_segments@.len() {
                    let k = choose|k: int|
                        0 <= k < dir0.len() && (#[trigger] dir0[k]).0 == self.closed_segments@[i];
                    assert(dir2[k].0 == self.closed_segments@[i]);
                } else {
                    assert(dir2[dir0.len() as int].0 == old_id);
                }
            }
            // And the closed list stays duplicate-free: the closed id had no
            // file before, while every older closed id did.
            assert forall|i: int, j: int|
                0 <= i < self.closed_segments@.len() && 0 <= j < self.closed_segments@.len() && i
                    != j implies self.closed_segments@[i] != self.closed_segments@[j] by {
                let c0 = old(self).closed_segments@;
                if i < c0.len() && j < c0.len() {
                } else if j == c0.len() {
                    assert(old(self).log_directory.has_segment(c0[i]));
                } else if i == c0.len() {
                    assert(old(self).log_directory.has_segment(c0[j]));
                }
            }
        }
        Ok(())
    }

    /// Read back the framed records of the active segment file, header
    /// skipped.  Only written-through bytes are on file; buffered frames are
    /// not seen.
    pub fn lines(&self) -> (r: Result<Vec<WalEntry>, ChipmunkError>)
        requires
            self.wf(),
        ensures
            r is Ok,
            crate::codec::entry_models(r.unwrap()@) == crate::codec::replay_frames(
                self.flushed_payload(),
            ),
    {
        let out = WalEntry::decode_all(&self.segment.data, 4);
        proof {
            assert(self.segment.data@.subrange(4, self.segment.data@.len() as int)
                =~= self.flushed_payload());
        }
        Ok(out)
    }

    /// Rebuild the log from the segment files in its directory: walk the
    /// files in directory order, skip each file's header line, decode the
    /// frames that follow, and append every decoded record through the
    /// normal append path into the active segment.  A damaged or truncated
    /// tail stops that one file and loses nothing else.  Ends by writing the
    /// buffer through.
    pub fn restore(&mut self) -> (r: Result<(), ChipmunkError>)
        requires
            old(self).wf(),
            old(self).current_size == 0,
            frames_bytes(restored_entries(old(self).log_directory.file_seq())).len() <= u64::MAX,
        ensures
            r is Ok,
            final(self).wf(),
            final(self).payload() == frames_bytes(
                restored_entries(old(self).log_directory.file_seq()),
            ),
            final(self).flushed_payload() == final(self).payload(),
            final(self).buffer@ == Seq::<u8>::empty(),
            final(self).current_size == frames_bytes(
                restored_entries(old(self).log_directory.file_seq()),
            ).len(),
            final(self).segment.id == old(self).segment.id,
            final(self).log_directory == old(self).log_directory,
            final(self).closed_segments == old(self).closed_segments,
            final(self).max_size == old(self).max_size,
            final(self).buffer_size == old(self).buffer_size,
    {
        let ghost dirs = old(self).log_directory.file_seq();
        let ghost total = restored_entries(dirs);
        proof {
            assert(old(self).payload() =~= Seq::<u8>::empty()) by {
                assert(old(self).payload().len() == 0);
            }
            assert(restored_entries(dirs.take(0)) =~= Seq::<EntryModel>::empty()) by {
                assert(dirs.take(0) =~= Seq::<(u64, Seq<u8>)>::empty());
            }
            assert(frames_bytes(Seq::<EntryModel>::empty()) =~= Seq::<u8>::empty());
        }
        let nf = self.log_directory.file_count();
        let mut fi: usize = 0;
        while fi < nf
            invariant
                nf == dirs.len(),
                fi <= nf,
                self.wf(),
                self.log_directory == old(self).log_directory,
                self.log_directory.file_seq() == dirs,
                self.closed_segments == old(self).closed_segments,
                self.segment.id == old(self).segment.id,
                self.max_size == old(self).max_size,
                self.buffer_size == old(self).buffer_size,
                total == restored_entries(dirs),
                frames_bytes(total).len() <= u64::MAX,
                self.payload() == frames_bytes(restored_entries(dirs.take(fi as int))),
            decreases nf - fi,
        {
            let entries = {
                let data = self.log_directory.file_data_at(fi);
                let h = header_end(data);
                WalEntry::decode_all(data, h)
            };
            let ghost done = restored_entries(dirs.take(fi as int));
            let ghost f = crate::codec::entry_models(entries@);
            proof {
                let data = dirs[fi as int].1;
                assert(f == file_entries(data));
                // The records seen so far and still to come are all of the
                // total, so each append stays within the size bound.
                lemma_restored_split(dirs, fi as int);
                lemma_restored_head(dirs.skip(fi as int));
                assert(dirs.skip(fi as int)[0] == dirs[fi as int]);
                assert(dirs.skip(fi as int).skip(1) =~= dirs.skip(fi as int + 1));
                assert(total == done + (f + restored_entries(dirs.skip(fi as int + 1))));
            }
            let ghost rest = restored_entries(dirs.skip(fi as int + 1));
            let n = entries.len();
            let mut k: usize = 0;
            while k < n
                invariant
                    n == f.len(),
                    n == entries@.len(),
                    crate::codec::entry_models(entries@) == f,
                    k <= n,
                    self.wf(),
                    self.log_directory == old(self).log_directory,
                    self.closed_segments == old(self).closed_segments,
                    self.segment.id == old(self).segment.id,
                    self.max_size == old(self).max_size,
                    self.buffer_size == old(self).buffer_size,
                    total == done + (f + rest),
                    frames_bytes(total).len() <= u64::MAX,
                    self.payload() == frames_bytes(done + f.take(k as int)),
                decreases n - k,
            {
                let entry = entries[k].clone();
                proof {
                    assert(entry@ == f[k as int]);
                    // Everything framed so far plus this frame fits the
                    // total byte count.
                    lemma_frames_bytes_concat(done, f + rest);
                    lemma_frames_bytes_concat(f, rest);
                    lemma_frames_bytes_concat(done, f.take(k as int));
                    assert(f.take(k as int) + f.skip(k as int) =~= f);
                    lemma_frames_bytes_concat(f.take(k as int), f.skip(k as int));
                    assert(f.skip(k as int)[0] == f[k as int]);
                    assert(f.skip(k as int).skip(1) =~= f.skip(k as int + 1));
                    assert(frames_bytes(f.skip(k as int)) == encode_entry(f[k as int])
                        + frames_bytes(f.skip(k as int + 1)));
                    assert(encode_entry(f[k as int]).len() == entry_len(f[k as int]));
                    assert(self.current_size + entry_len(entry@) <= u64::MAX);
                }
                match self.append(entry) {
                    Ok(_) => {},
                    Err(_) => {
                        return vstd::pervasive::unreached();
                    },
                }
                proof {
                    let t = f.take(k as int + 1);
                    assert(done + t =~= (done + f.take(k as int)).push(f[k as int]));
                    lemma_frames_bytes_concat(done + f.take(k as int), seq![f[k as int]]);
                    assert((done + f.take(k as int)) + seq![f[k as int]] =~= done + t);
                    assert(seq![f[k as int]].skip(1) =~= Seq::<EntryModel>::empty());
                    assert(frames_bytes(seq![f[k as int]]) == encode_entry(f[k as int])
                        + frames_bytes(Seq::<EntryModel>::empty()));
                    assert(encode_entry(f[k as int]) + Seq::<u8>::empty() =~= encode_entry(
                        f[k as int],
                    ));
                    assert(self.payload() == frames_bytes(done + t));
                }
                k = k + 1;
            }
            proof {
                let t = dirs.take(fi as int + 1);
                assert(t.drop_last() =~= dirs.take(fi as int));
                assert(t.last() == dirs[fi as int]);
                assert(f.take(n as int) =~= f);
                assert(restored_entries(t) == done + f);
            }
            fi = fi + 1;
        }
        proof {
            assert(dirs.take(nf as int) =~= dirs);
        }
        match self.flush_buffer() {
            Ok(()) => {},
            Err(_) => {
                return vstd::pervasive::unreached();
            },
        }
        proof {
            assert(self.flushed_payload() =~= self.payload());
        }
        Ok(())
    }

    /// Close the log for good: write the buffer through and hand back the
    /// directory with the active segment's file in it, as a graceful
    /// shutdown leaves it on disk.
    pub fn close(self) -> (r: LogDirectory)
        requires
            self.wf(),
        ensures
            r.ids_unique(),
            r.file_seq() == self.log_directory.file_seq().push(
                (self.segment.id, self.segment.data@ + self.buffer@),
            ),
    {
        let ghost w0 = self;
        let mut w = self;
        w.maybe_flush_buffer(true);
        let ghost dir0 = w.log_directory.file_seq();
        let id = w.segment.id;
        let Wal { mut log_directory, segment, .. } = w;
        log_directory.files.push((id, segment.data));
        proof {
            let s2 = log_directory.file_seq();
            assert(s2 =~= dir0.push((id, w0.segment.data@ + w0.buffer@)));
            assert forall|a: int, b: int|
                0 <= a < s2.len() && 0 <= b < s2.len() && a != b implies (#[trigger] s2[a]).0 != (
            #[trigger] s2[b]).0 by {
                if a < dir0.len() && b < dir0.len() {
                } else if b == dir0.len() {
                    assert(s2[a] == dir0[a]);
                } else {
                    assert(s2[b] == dir0[b]);
                }
            }
        }
        log_directory
    }

    /// Bytes appended to the active segment so far.
    pub fn size(&self) -> (r: u64)
        ensures
            r == self.current_size,
    {
        self.current_size
    }

    /// Id of the active segment.
    pub fn id(&self) -> (r: u64)
        ensures
            r == self.segment.id,
    {
        self.segment.id
    }

    /// File name of the active segment: `<id>.wal`.
    pub fn path(&self) -> (r: Vec<u8>)
        ensures
            r@ == segment_file_name(self.segment.id),
    {
        segment_name(self.segment.id)
    }

    /// The ids of all closed, not yet deleted segments, oldest first.
    pub fn closed_segments(&self) -> (r: Vec<u64>)
        ensures
            r@ == self.closed_segments@,
    {
        self.closed_segments.clone()
    }

    /// Forget the closed segments without touching their files.
    pub fn clear_segments(&mut self)
        requires
            old(self).wf(),
        ensures
            final(self).wf(),
            final(self).closed_segments@ == Seq::<u64>::empty(),
            final(self).log_directory == old(self).log_directory,
            final(self).segment == old(self).segment,
            final(self).buffer == old(self).buffer,
            final(self).current_size == old(self).current_size,
            final(self).max_size == old(self).max_size,
            final(self).buffer_size == old(self).buffer_size,
    {
        self.closed_segments.clear();
    }

    /// Delete the file of every closed segment and forget the list.
    /// Returns how many files were removed.  The caller is responsible for
    /// having captured their contents in a flushed table first.
    pub fn remove_closed_segments(&mut self) -> (r: Result<u64, ChipmunkError>)
        requires
            old(self).wf(),
        ensures
            r == Ok::<u64, ChipmunkError>(old(self).closed_segments@.len() as u64),
            final(self).wf(),
            final(self).closed_segments@ == Seq::<u64>::empty(),
            final(self).log_directory.file_seq() == old(self).log_directory.file_seq().filter(
                keep_pred(old(self).closed_segments@),
            ),
            forall|id: u64|
                final(self).log_directory.has_segment(id) == (old(self).log_directory.has_segment(
                    id,
                ) && !old(self).closed_segments@.contains(id)),
            final(self).segment == old(self).segment,
            final(self).buffer == old(self).buffer,
            final(self).current_size == old(self).current_size,
            final(self).max_size == old(self).max_size,
            final(self).buffer_size == old(self).buffer_size,
    {
        let ghost s = old(self).log_directory.file_seq();
        let ghost c = old(self).closed_segments@;
        let mut kept: Vec<(u64, Vec<u8>)> = Vec::new();
        proof {
            reveal(Seq::filter);
            assert(kept@.map_values(|f: (u64, Vec<u8>)| (f.0, f.1@)) =~= s.take(0).filter(
                keep_pred(c),
            ));
        }
        let n = self.log_directory.files.len();
        let mut i: usize = 0;
        while i < n
            invariant
                n == s.len(),
                i <= n,
                self.log_directory.file_seq() == s,
                self.closed_segments@ == c,
                old(self).wf(),
                kept@.map_values(|f: (u64, Vec<u8>)| (f.0, f.1@)) == s.take(i as int).filter(
                    keep_pred(c),
                ),
            decreases n - i,
        {
            let ghost t = s.take(i as int + 1);
            let ghost kept0 = kept@;
            proof {
                assert(t.drop_last() =~= s.take(i as int));
                assert(t.last() == s[i as int]);
            }
            let id = self.log_directory.files[i].0;
            if !contains_u64(&self.closed_segments, id) {
                let data = self.log_directory.files[i].1.clone();
                kept.push((id, data));
                proof {
                    reveal(Seq::filter);
                    assert(keep_pred(c)(s[i as int]));
                    assert(kept@.map_values(|f: (u64, Vec<u8>)| (f.0, f.1@)) =~= t.filter(
                        keep_pred(c),
                    ));
                }
            } else {
                proof {
                    reveal(Seq::filter);
                    assert(!keep_pred(c)(s[i as int]));
                    assert(kept@.map_values(|f: (u64, Vec<u8>)| (f.0, f.1@)) =~= t.filter(
                        keep_pred(c),
                    ));
                }
            }
            i = i + 1;
        }
        proof {
            assert(s.take(n as int) =~= s);
        }
        let removed = self.closed_segments.len() as u64;
        self.log_directory.files = kept;
        self.closed_segments.clear();
        proof {
            let s2 = self.log_directory.file_seq();
            let pred = keep_pred(c);
            assert(s2 == s.filter(pred));
            #[allow(deprecated)]
            s.filter_lemma(pred);
            // Ids stay unique: the kept files are a subsequence of the
            // original files, whose ids were pairwise distinct.
            assert forall|a: int, b: int|
                0 <= a < s2.len() && 0 <= b < s2.len() && a != b implies (#[trigger] s2[a]).0 != (
            #[trigger] s2[b]).0 by {
                lemma_filter_no_dup(s, pred, a, b);
            }
            // A file survives exactly when its id was not closed.
            assert forall|id: u64|
                self.log_directory.has_segment(id) == (old(self).log_directory.has_segment(id)
                    && !c.contains(id)) by {
                if self.log_directory.has_segment(id) {
                    let a = choose|a: int| 0 <= a < s2.len() && (#[trigger] s2[a]).0 == id;
                    lemma_filter_source(s, pred, a);
                    let j = choose|j: int| 0 <= j < s.len() && #[trigger] s[j] == s2[a];
                    assert(pred(s2[a]));
                    assert((#[trigger] s[j]).0 == id);
                }
                if old(self).log_directory.has_segment(id) && !c.contains(id) {
                    let j = choose|j: int| 0 <= j < s.len() && (#[trigger] s[j]).0 == id;
                    assert(pred(s[j]));
                    assert(s2.contains(s[j]));
                    let a = choose|a: int| 0 <= a < s2.len() && #[trigger] s2[a] == s[j];
                    assert((#[trigger] s2[a]).0 == id);
                }
            }
            assert(!self.log_directory.has_segment(self.segment.id));
        }
        Ok(removed)
    }
}

/// A sequence whose elements pairwise differ filters to one whose elements
/// pairwise differ, so no element appears at two positions.
pub(crate) proof fn lemma_filter_no_dup(
    s: Seq<(u64, Seq<u8>)>,
    pred: spec_fn((u64, Seq<u8>)) -> bool,
    a: int,
    b: int,
)
    requires
        forall|i: int, j: int|
            0 <= i < s.len() && 0 <= j < s.len() && i != j ==> (#[trigger] s[i]).0 != (
            #[trigger] s[j]).0,
        0 <= a < s.filter(pred).len(),
        0 <= b < s.filter(pred).len(),
        a != b,
    ensures
        s.filter(pred)[a].0 != s.filter(pred)[b].0,
    decreases s.len(),
{
    reveal(Seq::filter);
    if s.len() > 0 {
        let fs = s.filter(pred);
        let rest = s.drop_last().filter(pred);
        if pred(s.last()) {
            assert(fs == rest.push(s.last()));
            if a < rest.len() && b < rest.len() {
                lemma_filter_no_dup(s.drop_last(), pred, a, b);
            } else {
                // One of the two is the last element of s; the other comes
                // from the front of s, where its id differs.
                let x = if a < rest.len() {
                    a
                } else {
                    b
                };
                assert(fs[x] == rest[x]);
                lemma_filter_source(s.drop_last(), pred, x);
                let j = choose|j: int|
                    0 <= j < s.drop_last().len() && #[trigger] s.drop_last()[j] == rest[x];
                assert(s[j] == rest[x]);
                assert(s[j].0 != s.last().0);
            }
        } else {
            assert(fs == rest);
            lemma_filter_no_dup(s.drop_last(), pred, a, b);
        }
    }
}

/// Every element of a filtered sequence stands somewhere in its source.
pub(crate) proof fn lemma_filter_source(s: Seq<(u64, Seq<u8>)>, pred: spec_fn((u64, Seq<u8>)) -> bool, a: int)
    requires
        0 <= a < s.filter(pred).len(),
    ensures
        exists|j: int| 0 <= j < s.len() && #[trigger] s[j] == s.filter(pred)[a],
    decreases s.len(),
{
    reveal(Seq::filter);
    if s.len() > 0 {
        let fs = s.filter(pred);
        let rest = s.drop_last().filter(pred);
        if pred(s.last()) && a == rest.len() {
            assert(s[s.len() - 1] == fs[a]);
        } else {
            lemma_filter_source(s.drop_last(), pred, a);
            let j = choose|j: int|
                0 <= j < s.drop_last().len() && #[trigger] s.drop_last()[j] == rest[a];
            assert(s[j] == fs[a]);
        }
    }
}

/// Whether a vector of ids holds `x`.
fn contains_u64(v: &Vec<u64>, x: u64) -> (r: bool)
    ensures
        r == v@.contains(x),
{
    let n = v.len();
    let mut i: usize = 0;
    while i < n
        invariant
            n == v@.len(),
            i <= n,
            forall|j: int| 0 <= j < i ==> v@[j] != x,
        decreases n - i,
    {
        if v[i] == x {
            return true;
        }
        i = i + 1;
    }
    false
}

} // verus!
