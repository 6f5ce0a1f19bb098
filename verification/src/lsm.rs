//! The LSM coordinator: the single entry point for user operations.
//!
//! A write goes to the write-ahead log first, then to the membership filter
//! and the memtable; full logs rotate, full memtables flush into immutable
//! level-one tables, and piled-up levels compact into level-two files.  A
//! read consults the filter, then the memtable, then the level-one tables
//! newest to oldest, then the level-two files newest to oldest; the first
//! level with any record of the key answers, and a tombstone answers "not
//! found".

use vstd::prelude::*;
use vstd::map::*;

use crate::bloom::{bloom_bits, bloom_check, bloom_insert, bloom_keys, bloom_new};
use crate::codec::{encode_entry, entry_len, replay_frames, EntryModel, WalEntry};
use crate::config::{MemtableConfig, WalConfig};
use crate::memtable::Memtable;
use crate::store::FileStore;
use crate::tree::{encode_entries, entries_map, opt_model, replay_map, Tree};
use crate::wal::{wal_header, LogDirectory, Wal};
use crate::ChipmunkError;

verus! {

/// How many compacted files may pile up before a write triggers another
/// compaction cycle.
pub const L2_COMPACTION_THRESHOLD: usize = 3;

/// Number of bits the membership filter is sized for.
pub const BLOOM_BITS: usize = 10000;

/// Number of hash probes per key in the membership filter.
pub const BLOOM_HASHES: usize = 2;

/// The map a stored table file denotes: its frames replayed in order.
pub open spec fn table_view(b: Seq<u8>) -> Map<Seq<u8>, Option<Seq<u8>>> {
    replay_map(replay_frames(b))
}

/// A level holds a live value for `k`.
pub open spec fn live_in(m: Map<Seq<u8>, Option<Seq<u8>>>, k: Seq<u8>) -> bool {
    m.dom().contains(k) && m[k] is Some
}

/// Search levels newest to oldest: the first level with any record of `k`
/// answers, live value or tombstone; a key no level records is absent.
pub open spec fn lookup_in(levels: Seq<Map<Seq<u8>, Option<Seq<u8>>>>, k: Seq<u8>) -> Option<
    Option<Seq<u8>>,
>
    decreases levels.len(),
{
    if levels.len() == 0 {
        None
    } else if levels[0].dom().contains(k) {
        Some(levels[0][k])
    } else {
        lookup_in(levels.skip(1), k)
    }
}

/// When the search answers a live value, some level holds that value live.
pub proof fn lemma_lookup_live(levels: Seq<Map<Seq<u8>, Option<Seq<u8>>>>, k: Seq<u8>)
    requires
        lookup_in(levels, k) is Some,
        lookup_in(levels, k).unwrap() is Some,
    ensures
        exists|i: int|
            0 <= i < levels.len() && live_in(#[trigger] levels[i], k) && levels[i][k] == lookup_in(
                levels,
                k,
            ).unwrap(),
    decreases levels.len(),
{
    if levels[0].dom().contains(k) {
        assert(live_in(levels[0], k));
    } else {
        lemma_lookup_live(levels.skip(1), k);
        let i = choose|i: int|
            0 <= i < levels.skip(1).len() && live_in(#[trigger] levels.skip(1)[i], k)
                && levels.skip(1)[i][k] == lookup_in(levels.skip(1), k).unwrap();
        assert(levels[i + 1] == levels.skip(1)[i]);
        assert(live_in(levels[i + 1], k));
    }
}

/// All levels folded into one map, newest record winning, tombstones kept.
pub open spec fn merged(ts: Seq<Map<Seq<u8>, Option<Seq<u8>>>>) -> Map<Seq<u8>, Option<Seq<u8>>> {
    Map::new(|k: Seq<u8>| lookup_in(ts, k) is Some, |k: Seq<u8>| lookup_in(ts, k).unwrap())
}

/// Folding one more, newer level onto a merge lets the new level win.
pub proof fn lemma_merged_cons(m: Map<Seq<u8>, Option<Seq<u8>>>, rest: Seq<
    Map<Seq<u8>, Option<Seq<u8>>>,
>)
    ensures
        merged(seq![m] + rest) == merged(rest).union_prefer_right(m),
{
    let ts = seq![m] + rest;
    assert(ts[0] == m);
    assert(ts.skip(1) =~= rest);
    assert_maps_equal!(
        merged(ts),
        merged(rest).union_prefer_right(m),
        k => {
        }
    );
}

/// Searching a concatenation of levels searches the newer run first.
pub proof fn lemma_lookup_concat(
    a: Seq<Map<Seq<u8>, Option<Seq<u8>>>>,
    b: Seq<Map<Seq<u8>, Option<Seq<u8>>>>,
    k: Seq<u8>,
)
    ensures
        lookup_in(a + b, k) == if lookup_in(a, k) is Some {
            lookup_in(a, k)
        } else {
            lookup_in(b, k)
        },
    decreases a.len(),
{
    if a.len() == 0 {
        assert(a + b =~= b);
    } else {
        assert((a + b)[0] == a[0]);
        if !a[0].dom().contains(k) {
            assert((a + b).skip(1) =~= a.skip(1) + b);
            lemma_lookup_concat(a.skip(1), b, k);
        }
    }
}

/// The storage engine.
pub struct Lsm {
    /// The write-ahead log that makes every operation durable first.
    pub wal: Wal,
    /// The configuration the log was set up from.
    pub wal_config: WalConfig,
    /// The active in-memory index.
    pub memtable: Memtable,
    /// The configuration the memtable was set up from.
    pub memtable_config: MemtableConfig,
    /// Ids of the flushed level-one tables, oldest first.
    pub sstables: Vec<u64>,
    /// The level-one table files on disk.
    pub sstable_store: FileStore,
    /// Next compacted-file id to hand out.
    pub l2_id: u64,
    /// Ids of the compacted level-two files, oldest first.
    pub l2_files: Vec<u64>,
    /// The level-two files on disk.
    pub l2_store: FileStore,
    /// The approximate membership filter over keys ever inserted.
    pub bloom: bloomfx::BloomFilter<Vec<u8>>,
}

impl Lsm {
    /// The level-one tables, newest first, as the maps they denote.
    pub open spec fn l1_tables(self) -> Seq<Map<Seq<u8>, Option<Seq<u8>>>> {
        Seq::new(
            self.sstables@.len(),
            |i: int|
                table_view(
                    self.sstable_store.file_map()[self.sstables@[self.sstables@.len() - 1 - i]],
                ),
        )
    }

    /// The level-two files, newest first, as the maps they denote.
    pub open spec fn l2_tables(self) -> Seq<Map<Seq<u8>, Option<Seq<u8>>>> {
        Seq::new(
            self.l2_files@.len(),
            |i: int|
                table_view(self.l2_store.file_map()[self.l2_files@[self.l2_files@.len() - 1 - i]]),
        )
    }

    /// Every level of the engine, newest first: the memtable, then level
    /// one, then level two.
    pub open spec fn levels(self) -> Seq<Map<Seq<u8>, Option<Seq<u8>>>> {
        seq![self.memtable.tree@] + self.l1_tables() + self.l2_tables()
    }

    /// What a read of `k` is owed: the newest record decides, and a
    /// tombstone reads as absent.
    pub open spec fn resolved(self, k: Seq<u8>) -> Option<Seq<u8>> {
        match lookup_in(self.levels(), k) {
            Some(v) => v,
            None => None,
        }
    }

    /// Every key that is live somewhere passed through the filter, so a
    /// negative filter answer proves the key absent.
    pub open spec fn covered(self) -> bool {
        &&& forall|k: Seq<u8>|
            #[trigger] live_in(self.memtable.tree@, k) ==> bloom_keys(self.bloom).contains(k)
        &&& forall|i: int, k: Seq<u8>|
            0 <= i < self.l1_tables().len() && #[trigger] live_in(self.l1_tables()[i], k)
                ==> bloom_keys(self.bloom).contains(k)
        &&& forall|i: int, k: Seq<u8>|
            0 <= i < self.l2_tables().len() && #[trigger] live_in(self.l2_tables()[i], k)
                ==> bloom_keys(self.bloom).contains(k)
    }

    /// A write of this many more bytes fills the log to its rotation
    /// threshold.
    pub open spec fn wal_rotation_due(self, extra: int) -> bool {
        self.wal.current_size + extra >= self.wal_config.max_size
    }

    /// A value of this many more bytes grows the memtable past its rotation
    /// threshold.
    pub open spec fn memtable_rotation_due(self, extra: int) -> bool {
        self.memtable.approximate_size + extra > self.memtable_config.max_size
    }

    /// Enough compacted files have piled up for a write to trigger another
    /// compaction cycle.
    pub open spec fn compaction_due(self) -> bool {
        self.l2_files@.len() > L2_COMPACTION_THRESHOLD
    }

    /// Well-formed engine state.
    pub open spec fn wf(self) -> bool {
        &&& self.wal.wf()
        &&& self.memtable.wf()
        &&& bloom_bits(self.bloom) > 0
        &&& self.sstable_store.ids_unique()
        &&& self.l2_store.ids_unique()
        &&& forall|i: int|
            0 <= i < self.sstables@.len() ==> self.sstable_store.has_file(
                #[trigger] self.sstables@[i],
            )
        &&& forall|i: int, j: int|
            0 <= i < self.sstables@.len() && 0 <= j < self.sstables@.len() && i != j
                ==> self.sstables@[i] != self.sstables@[j]
        &&& forall|i: int|
            0 <= i < self.sstable_store.file_seq().len() ==> (
            #[trigger] self.sstable_store.file_seq()[i]).0 < self.memtable.id
        &&& forall|i: int|
            0 <= i < self.l2_files@.len() ==> self.l2_store.has_file(#[trigger] self.l2_files@[i])
        &&& forall|i: int, j: int|
            0 <= i < self.l2_files@.len() && 0 <= j < self.l2_files@.len() && i != j
                ==> self.l2_files@[i] != self.l2_files@[j]
        &&& forall|i: int|
            0 <= i < self.l2_store.file_seq().len() ==> (
            #[trigger] self.l2_store.file_seq()[i]).0 < self.l2_id
        &&& self.covered()
    }

    /// Build a fresh engine over `directory`.  Fails with `SegmentOpen`
    /// exactly when a segment file for the configured starting id already
    /// exists, as after a crashed restart that mis-identifies the next id.
    pub fn new(wal_config: WalConfig, memtable_config: MemtableConfig, directory: LogDirectory)
        -> (r: Result<Lsm, ChipmunkError>)
        requires
            directory.ids_unique(),
        ensures
            r is Ok <==> !directory.has_segment(wal_config.id),
            r is Err ==> (r matches Err(e) && e == ChipmunkError::SegmentOpen),
            r is Ok ==> {
                let l = r.unwrap();
                &&& l.wf()
                &&& l.memtable.id == memtable_config.id
                &&& l.memtable.tree@ == Map::<Seq<u8>, Option<Seq<u8>>>::empty()
                &&& l.memtable.approximate_size == 0
                &&& l.sstables@ == Seq::<u64>::empty()
                &&& l.l2_files@ == Seq::<u64>::empty()
                &&& l.l2_id == 0
                &&& l.wal.segment.id == wal_config.id
                &&& l.wal.current_size == 0
                &&& l.wal.payload() == Seq::<u8>::empty()
                &&& l.wal.closed_segments@ == Seq::<u64>::empty()
                &&& l.wal.log_directory == directory
                &&& l.wal.max_size == wal_config.max_size
                &&& bloom_keys(l.bloom) == Set::<Seq<u8>>::empty()
                &&& l.wal_config == wal_config
                &&& l.memtable_config == memtable_config
                &&& l.memtable.max_size == memtable_config.max_size
                &&& l.sstable_store.file_seq() == Seq::<(u64, Seq<u8>)>::empty()
                &&& l.l2_store.file_seq() == Seq::<(u64, Seq<u8>)>::empty()
                &&& forall|k: Seq<u8>| l.resolved(k) is None
            },
    {
        let wal = match Wal::new(
            wal_config.id,
            directory,
            wal_config.max_size,
            wal_config.buffer_size,
        ) {
            Ok(w) => w,
            Err(e) => {
                return Err(e);
            },
        };
        let memtable = Memtable::new(memtable_config.id, memtable_config.max_size);
        let l = Lsm {
            wal,
            memtable,
            sstables: Vec::new(),
            sstable_store: FileStore::new(),
            l2_id: 0,
            l2_files: Vec::new(),
            l2_store: FileStore::new(),
            bloom: bloom_new(BLOOM_BITS, BLOOM_HASHES),
            wal_config,
            memtable_config,
        };
        proof {
            assert(l.l1_tables() =~= Seq::<Map<Seq<u8>, Option<Seq<u8>>>>::empty());
            assert(l.l2_tables() =~= Seq::<Map<Seq<u8>, Option<Seq<u8>>>>::empty());
            assert forall|k: Seq<u8>| l.resolved(k) is None by {
                assert(!l.memtable.tree@.dom().contains(k));
                assert(l.levels()[0] == l.memtable.tree@);
                assert(l.levels().skip(1) =~= Seq::<Map<Seq<u8>, Option<Seq<u8>>>>::empty());
                assert(lookup_in(Seq::<Map<Seq<u8>, Option<Seq<u8>>>>::empty(), k) is None);
            }
        }
        Ok(l)
    }

    /// Id of the active memtable.
    pub fn memtable_id(&self) -> (r: u64)
        ensures
            r == self.memtable.id,
    {
        self.memtable.id()
    }

    /// Bytes appended to the active WAL segment so far.
    pub fn wal_size(&self) -> (r: u64)
        ensures
            r == self.wal.current_size,
    {
        self.wal.size()
    }

    /// Id of the active WAL segment.
    pub fn wal_id(&self) -> (r: u64)
        ensures
            r == self.wal.segment.id,
    {
        self.wal.id()
    }

    /// Ids of the closed, not yet deleted WAL segments.
    pub fn closed_segments(&self) -> (r: Vec<u64>)
        ensures
            r@ == self.wal.closed_segments@,
    {
        self.wal.closed_segments()
    }

    /// Whether a file for WAL segment `id` exists: the active segment's
    /// own file or one in the log directory.
    pub fn segment_file_exists(&self, id: u64) -> (r: bool)
        ensures
            r == (id == self.wal.segment.id || self.wal.log_directory.has_segment(id)),
    {
        self.wal.id() == id || self.wal.log_directory.contains_segment(id)
    }

    /// Ids of the level-one tables, oldest first.
    pub fn l1_ids(&self) -> (r: Vec<u64>)
        ensures
            r@ == self.sstables@,
    {
        self.sstables.clone()
    }

    /// Number of compacted level-two files.
    pub fn l2_count(&self) -> (r: usize)
        ensures
            r == self.l2_files@.len(),
    {
        self.l2_files.len()
    }

    /// The configured working directory.
    pub fn working_directory(&self) -> (r: &String)
        ensures
            r@ == self.wal_config.log_directory@,
    {
        &self.wal_config.log_directory
    }

    /// Total bytes of every file of the store: segment files, the active
    /// segment included, level-one tables and level-two files.
    pub fn disk_size(&self) -> (r: u64)
        requires
            self.wal.log_directory.total_size() + self.wal.segment.data@.len()
                + self.sstable_store.total_size() + self.l2_store.total_size() <= u64::MAX,
            self.wal.wf(),
        ensures
            r == self.wal.log_directory.total_size() + self.wal.segment.data@.len()
                + self.sstable_store.total_size() + self.l2_store.total_size(),
    {
        proof {
            crate::wal::lemma_files_size_nonneg(self.wal.log_directory.file_seq());
            crate::wal::lemma_files_size_nonneg(self.sstable_store.file_seq());
            crate::wal::lemma_files_size_nonneg(self.l2_store.file_seq());
        }
        let a = self.wal.log_directory.size_on_disk();
        let b = self.wal.segment.data.len() as u64;
        let c = self.sstable_store.size_on_disk();
        let d = self.l2_store.size_on_disk();
        a + b + c + d
    }

    /// Ask the membership filter about a key.  A key that was inserted
    /// always answers `true`; a key never inserted may, rarely, answer
    /// `true` as well, which only costs the reader a wasted lookup.
    pub fn check(&self, key: Vec<u8>) -> (r: bool)
        requires
            self.wf(),
        ensures
            bloom_keys(self.bloom).contains(key@) ==> r,
    {
        bloom_check(&self.bloom, key)
    }

    /// Read the newest record of `key`: the filter first for a fast
    /// negative, then the memtable, then the level-one tables newest to
    /// oldest, then the level-two files newest to oldest.  The first level
    /// with any record answers; a tombstone answers "not found".
    pub fn get(&self, key: Vec<u8>) -> (r: Option<Vec<u8>>)
        requires
            self.wf(),
        ensures
            match r {
                Some(v) => self.resolved(key@) == Some(v@),
                None => self.resolved(key@) is None,
            },
    {
        let ghost lv = self.levels();
        if !bloom_check(&self.bloom, key.clone()) {
            // The filter answers for every key that is live anywhere, so a
            // negative is definitive.
            proof {
                if self.resolved(key@) is Some {
                    lemma_lookup_live(lv, key@);
                    let i = choose|i: int|
                        0 <= i < lv.len() && live_in(#[trigger] lv[i], key@) && lv[i][key@]
                            == lookup_in(lv, key@).unwrap();
                    let n1 = self.l1_tables().len() as int;
                    if i == 0 {
                        assert(live_in(self.memtable.tree@, key@));
                    } else if i < 1 + n1 {
                        assert(lv[i] == self.l1_tables()[i - 1]);
                        assert(live_in(self.l1_tables()[i - 1], key@));
                    } else {
                        assert(lv[i] == self.l2_tables()[i - 1 - n1]);
                        assert(live_in(self.l2_tables()[i - 1 - n1], key@));
                    }
                    assert(bloom_keys(self.bloom).contains(key@));
                    assert(false);
                }
            }
            return None;
        }
        match self.memtable.lookup(&key) {
            Some(v) => {
                proof {
                    assert(lv[0] == self.memtable.tree@);
                    assert(lookup_in(lv, key@) == Some(self.memtable.tree@[key@]));
                }
                return v;
            },
            None => {},
        }
        proof {
            assert(!lv[0].dom().contains(key@));
        }
        let n1 = self.sstables.len();
        let mut p: usize = 0;
        while p < n1
            invariant
                self.wf(),
                lv == self.levels(),
                n1 == self.sstables@.len(),
                p <= n1,
                lookup_in(lv, key@) == lookup_in(lv.skip(1 + p as int), key@),
            decreases n1 - p,
        {
            let id = self.sstables[n1 - 1 - p];
            let data = match self.sstable_store.get_file(id) {
                Some(d) => d,
                None => {
                    proof {
                        assert(self.sstable_store.has_file(id));
                        let j = choose|j: int|
                            0 <= j < self.sstable_store.file_seq().len() && (
                            #[trigger] self.sstable_store.file_seq()[j]).0 == id;
                    }
                    return vstd::pervasive::unreached();
                },
            };
            let t = Tree::load(data);
            proof {
                assert(self.l1_tables()[p as int] == table_view(
                    self.sstable_store.file_map()[id],
                ));
                assert(t@ == self.l1_tables()[p as int]);
                assert(lv.skip(1 + p as int)[0] == lv[1 + p as int]);
                assert(lv[1 + p as int] == self.l1_tables()[p as int]);
            }
            match t.lookup(&key) {
                Some(found) => {
                    proof {
                        assert(lookup_in(lv.skip(1 + p as int), key@) == Some(t@[key@]));
                    }
                    return found;
                },
                None => {
                    proof {
                        assert(lv.skip(1 + p as int).skip(1) =~= lv.skip(2 + p as int));
                    }
                },
            }
            p = p + 1;
        }
        let n2 = self.l2_files.len();
        let mut q: usize = 0;
        while q < n2
            invariant
                self.wf(),
                lv == self.levels(),
                n1 == self.sstables@.len(),
                n2 == self.l2_files@.len(),
                q <= n2,
                lookup_in(lv, key@) == lookup_in(lv.skip(1 + n1 as int + q as int), key@),
            decreases n2 - q,
        {
            let id = self.l2_files[n2 - 1 - q];
            let data = match self.l2_store.get_file(id) {
                Some(d) => d,
                None => {
                    proof {
                        assert(self.l2_store.has_file(id));
                        let j = choose|j: int|
                            0 <= j < self.l2_store.file_seq().len() && (
                            #[trigger] self.l2_store.file_seq()[j]).0 == id;
                    }
                    return vstd::pervasive::unreached();
                },
            };
            let t = Tree::load(data);
            proof {
                assert(self.l2_tables()[q as int] == table_view(self.l2_store.file_map()[id]));
                assert(t@ == self.l2_tables()[q as int]);
                assert(lv.skip(1 + n1 as int + q as int)[0] == lv[1 + n1 as int + q as int]);
                assert(lv[1 + n1 as int + q as int] == self.l2_tables()[q as int]);
            }
            match t.lookup(&key) {
                Some(found) => {
                    proof {
                        assert(lookup_in(lv.skip(1 + n1 as int + q as int), key@) == Some(
                            t@[key@],
                        ));
                    }
                    return found;
                },
                None => {
                    proof {
                        assert(lv.skip(1 + n1 as int + q as int).skip(1) =~= lv.skip(
                            2 + n1 as int + q as int,
                        ));
                    }
                },
            }
            q = q + 1;
        }
        proof {
            assert(lv.skip(1 + n1 as int + n2 as int) =~= Seq::<
                Map<Seq<u8>, Option<Seq<u8>>>,
            >::empty());
            assert(lookup_in(Seq::<Map<Seq<u8>, Option<Seq<u8>>>>::empty(), key@) is None);
        }
        None
    }

    /// Record a tombstone for `key`: append a deletion to the WAL, then
    /// shadow the key in the memtable.  Until a later insertion of the same
    /// key, a read of it answers "not found"; no other key changes.  The
    /// filter is left alone — a deleted key may still probe as present,
    /// which only costs an extra miss.
    pub fn delete(&mut self, key: Vec<u8>) -> (r: Result<(), ChipmunkError>)
        requires
            old(self).wf(),
            old(self).wal.current_size + 10 + key@.len() <= u64::MAX,
        ensures
            r is Ok,
            final(self).wf(),
            final(self).resolved(key@) is None,
            forall|j: Seq<u8>| j != key@ ==> final(self).resolved(j) == old(self).resolved(j),
            final(self).memtable.tree@ == old(self).memtable.tree@.insert(key@, None),
            final(self).wal.current_size == old(self).wal.current_size + 10 + key@.len(),
            final(self).wal.payload() == old(self).wal.payload() + encode_entry(
                (EntryModel::Delete { key: key@ }),
            ),
            final(self).wal.segment.id == old(self).wal.segment.id,
            final(self).wal.log_directory == old(self).wal.log_directory,
            final(self).wal.closed_segments == old(self).wal.closed_segments,
            final(self).memtable.id == old(self).memtable.id,
            final(self).memtable.approximate_size == old(self).memtable.approximate_size,
            final(self).sstables == old(self).sstables,
            final(self).sstable_store == old(self).sstable_store,
            final(self).l2_id == old(self).l2_id,
            final(self).l2_files == old(self).l2_files,
            final(self).l2_store == old(self).l2_store,
            bloom_keys(final(self).bloom) == bloom_keys(old(self).bloom),
            final(self).wal_config == old(self).wal_config,
            final(self).memtable_config == old(self).memtable_config,
    {
        let entry = WalEntry::Delete { key: key.clone() };
        match self.wal.append(entry) {
            Ok(_) => {},
            Err(_) => {
                return vstd::pervasive::unreached();
            },
        }
        self.memtable.delete(key);
        proof {
            self.lemma_levels_after_memtable_change(*old(self));
            let lv = self.levels();
            let lv0 = old(self).levels();
            assert(lv[0].dom().contains(key@) && lv[0][key@] is None);
            assert forall|j: Seq<u8>| j != key@ implies final(self).resolved(j) == old(
                self,
            ).resolved(j) by {
                assert(lv.skip(1) =~= lv0.skip(1));
                if lv0[0].dom().contains(j) {
                    assert(lv[0][j] == lv0[0][j]);
                }
            }
            assert forall|k: Seq<u8>| #[trigger] live_in(self.memtable.tree@, k) implies
                bloom_keys(self.bloom).contains(k) by {
                assert(k != key@);
                assert(live_in(old(self).memtable.tree@, k));
            }
        }
        Ok(())
    }

    /// The levels after an operation that only touched the memtable: the
    /// table levels are the same maps.
    proof fn lemma_levels_after_memtable_change(self, prev: Lsm)
        requires
            self.sstables == prev.sstables,
            self.sstable_store == prev.sstable_store,
            self.l2_files == prev.l2_files,
            self.l2_store == prev.l2_store,
        ensures
            self.l1_tables() == prev.l1_tables(),
            self.l2_tables() == prev.l2_tables(),
            self.levels() == seq![self.memtable.tree@] + prev.l1_tables() + prev.l2_tables(),
            self.levels().skip(1) == prev.levels().skip(1),
            self.levels()[0] == self.memtable.tree@,
            prev.levels()[0] == prev.memtable.tree@,
    {
        assert(self.l1_tables() =~= prev.l1_tables());
        assert(self.l2_tables() =~= prev.l2_tables());
        assert(self.levels() =~= seq![self.memtable.tree@] + prev.l1_tables() + prev.l2_tables());
        assert(self.levels().skip(1) =~= prev.levels().skip(1));
    }

    /// Rotate the memtable: record its id in the level-one list and flush
    /// its tree into an immutable table under that id.  Afterwards the
    /// active memtable is empty and its id is strictly greater than before,
    /// and every read still answers exactly what it answered before: the
    /// entries only moved down one level, tombstones included.
    pub fn rotate_memtable(&mut self)
        requires
            old(self).wf(),
            old(self).memtable.id < u64::MAX,
        ensures
            final(self).wf(),
            final(self).memtable.id == old(self).memtable.id + 1,
            final(self).memtable.tree@ == Map::<Seq<u8>, Option<Seq<u8>>>::empty(),
            final(self).memtable.tree.entry_seq() == Seq::<(Seq<u8>, Option<Seq<u8>>)>::empty(),
            final(self).memtable.approximate_size == 0,
            final(self).memtable.max_size == old(self).memtable.max_size,
            final(self).sstables@ == old(self).sstables@.push(old(self).memtable.id),
            final(self).sstable_store.file_seq() == old(self).sstable_store.file_seq().push(
                (old(self).memtable.id, encode_entries(old(self).memtable.tree.entry_seq())),
            ),
            forall|k: Seq<u8>| final(self).resolved(k) == old(self).resolved(k),
            final(self).wal == old(self).wal,
            final(self).l2_id == old(self).l2_id,
            final(self).l2_files == old(self).l2_files,
            final(self).l2_store == old(self).l2_store,
            bloom_keys(final(self).bloom) == bloom_keys(old(self).bloom),
            final(self).wal_config == old(self).wal_config,
            final(self).memtable_config == old(self).memtable_config,
    {
        let ghost prev = *old(self);
        let mem_id = self.memtable.id();
        self.sstables.push(mem_id);
        let (id, data) = self.memtable.flush();
        proof {
            assert(!self.sstable_store.has_file(id)) by {
                if self.sstable_store.has_file(id) {
                    let j = choose|j: int|
                        0 <= j < self.sstable_store.file_seq().len() && (
                        #[trigger] self.sstable_store.file_seq()[j]).0 == id;
                }
            }
        }
        let ok = self.sstable_store.put_file(id, data);
        assert(ok);
        proof {
            let s = prev.memtable.tree.entry_seq();
            crate::tree::lemma_tree_entries_wf(prev.memtable.tree);
            crate::tree::lemma_replay_of_encode(s);
            crate::tree::lemma_replay_map_of_sorted(s);
            assert(table_view(encode_entries(s)) == prev.memtable.tree@);
            // The new store maps the fresh id to the flushed table and every
            // old id to what it mapped before.
            let st2 = self.sstable_store;
            let st1 = prev.sstable_store;
            let n1 = st1.file_seq().len() as int;
            st2.lemma_file_map_at(n1);
            assert(st2.file_map()[id] == encode_entries(s));
            assert forall|j: int| 0 <= j < n1 implies #[trigger] st2.file_map()[st1.file_seq()[j].0]
                == st1.file_map()[st1.file_seq()[j].0] by {
                assert(st2.file_seq()[j] == st1.file_seq()[j]);
                st2.lemma_file_map_at(j);
                st1.lemma_file_map_at(j);
            }
            // The level-one stack gained the old memtable on top.
            assert(self.l1_tables() =~= seq![prev.memtable.tree@] + prev.l1_tables()) by {
                assert forall|i: int| 0 <= i < self.l1_tables().len() implies self.l1_tables()[i]
                    == (seq![prev.memtable.tree@] + prev.l1_tables())[i] by {
                    if i == 0 {
                        assert(self.sstables@[self.sstables@.len() - 1] == id);
                    } else {
                        let a = self.sstables@.len() - 1 - i;
                        assert(self.sstables@[a] == prev.sstables@[a]);
                        assert(prev.sstable_store.has_file(prev.sstables@[a]));
                        let j = choose|j: int|
                            0 <= j < st1.file_seq().len() && (#[trigger] st1.file_seq()[j]).0
                                == prev.sstables@[a];
                        assert(st2.file_map()[st1.file_seq()[j].0] == st1.file_map()[st1.file_seq()[
                            j].0]);
                    }
                }
            }
            assert(self.l2_tables() =~= prev.l2_tables());
            // Reads are unchanged: the memtable level is now empty and what
            // it held sits right below.
            assert forall|k: Seq<u8>| self.resolved(k) == prev.resolved(k) by {
                let lv = self.levels();
                let lv0 = prev.levels();
                assert(!self.memtable.tree@.dom().contains(k));
                assert(lv.skip(1) =~= lv0);
                assert(lookup_in(lv, k) == lookup_in(lv0, k));
            }
            // Every live key of the new table level was live in the old
            // memtable, so the filter still covers everything.
            assert forall|i: int, k: Seq<u8>|
                0 <= i < self.l1_tables().len() && #[trigger] live_in(self.l1_tables()[i], k)
                    implies bloom_keys(self.bloom).contains(k) by {
                if i == 0 {
                    assert(live_in(prev.memtable.tree@, k));
                } else {
                    assert(self.l1_tables()[i] == prev.l1_tables()[i - 1]);
                    assert(live_in(prev.l1_tables()[i - 1], k));
                }
            }
            assert forall|i: int, k: Seq<u8>|
                0 <= i < self.l2_tables().len() && #[trigger] live_in(self.l2_tables()[i], k)
                    implies bloom_keys(self.bloom).contains(k) by {
                assert(live_in(prev.l2_tables()[i], k));
            }
            // Fresh-id bookkeeping: every stored id stays below the new
            // memtable id.
            assert forall|i: int|
                0 <= i < self.sstable_store.file_seq().len() implies (
            #[trigger] self.sstable_store.file_seq()[i]).0 < self.memtable.id by {
                if i < n1 {
                    assert(self.sstable_store.file_seq()[i] == st1.file_seq()[i]);
                }
            }
            assert forall|i: int|
                0 <= i < self.sstables@.len() implies self.sstable_store.has_file(
                #[trigger] self.sstables@[i],
            ) by {
                if i < prev.sstables@.len() {
                    assert(prev.sstable_store.has_file(prev.sstables@[i]));
                    let j = choose|j: int|
                        0 <= j < st1.file_seq().len() && (#[trigger] st1.file_seq()[j]).0
                            == prev.sstables@[i];
                    assert(st2.file_seq()[j].0 == self.sstables@[i]);
                } else {
                    assert(st2.file_seq()[n1].0 == id);
                }
            }
        }
    }

    /// Insert a key/value pair: append an insertion to the WAL first, then
    /// rotate the log if it is full, record the key in the filter, upsert
    /// the memtable, rotate a full memtable out into a table (deleting the
    /// WAL segments it made durable), and run a compaction cycle when the
    /// level-two files have piled up.  Afterwards a read of the key answers
    /// this value, and every other readable key keeps its value.  Fails
    /// with `SegmentOpen`, exactly when a due log rotation finds a file
    /// with the next id in the way.  On that failure the pair is in the log
    /// but not yet applied in memory — a caller that wants the write fully
    /// applied after an error must retry it, and a restart replays it from
    /// the log anyway.
    #[verifier::spinoff_prover]
    #[verifier::rlimit(100)]
    pub fn insert(&mut self, key: Vec<u8>, value: Vec<u8>) -> (r: Result<(), ChipmunkError>)
        requires
            old(self).wf(),
            old(self).wal.current_size + 18 + key@.len() + value@.len() <= u64::MAX,
            old(self).memtable.approximate_size + value@.len() <= u64::MAX,
            old(self).wal.segment.id < u64::MAX,
            old(self).memtable.id < u64::MAX,
            old(self).l2_id < u64::MAX,
        ensures
            final(self).wf(),
            final(self).wal_config == old(self).wal_config,
            final(self).memtable_config == old(self).memtable_config,
            final(self).wal.max_size == old(self).wal.max_size,
            final(self).wal.buffer_size == old(self).wal.buffer_size,
            final(self).memtable.max_size == old(self).memtable.max_size,
            r is Err ==> {
                &&& r matches Err(e) && e == ChipmunkError::SegmentOpen
                &&& old(self).wal_rotation_due((18 + key@.len() + value@.len()) as int)
                &&& old(self).wal.log_directory.has_segment((old(self).wal.segment.id + 1) as u64)
                &&& forall|j: Seq<u8>| final(self).resolved(j) == old(self).resolved(j)
                &&& final(self).wal.payload() == old(self).wal.payload() + encode_entry(
                    (EntryModel::Put { key: key@, value: value@ }),
                )
                &&& final(self).wal.current_size == old(self).wal.current_size + 18 + key@.len()
                    + value@.len()
                &&& final(self).wal.segment.id == old(self).wal.segment.id
                &&& final(self).wal.log_directory == old(self).wal.log_directory
                &&& final(self).wal.closed_segments == old(self).wal.closed_segments
                &&& final(self).memtable == old(self).memtable
                &&& final(self).sstables == old(self).sstables
                &&& final(self).sstable_store == old(self).sstable_store
                &&& final(self).l2_id == old(self).l2_id
                &&& final(self).l2_files == old(self).l2_files
                &&& final(self).l2_store == old(self).l2_store
                &&& bloom_keys(final(self).bloom) == bloom_keys(old(self).bloom)
            },
            r is Ok ==> {
                let compact = old(self).compaction_due();
                &&& final(self).resolved(key@) == Some(value@)
                &&& forall|j: Seq<u8>|
                    j != key@ && old(self).resolved(j) is Some ==> final(self).resolved(j) == old(
                        self,
                    ).resolved(j)
                &&& (!compact ==> forall|j: Seq<u8>|
                    j != key@ ==> final(self).resolved(j) == old(self).resolved(j))
                &&& bloom_keys(final(self).bloom) == bloom_keys(old(self).bloom).insert(key@)
            },
            // The record reached the log: either it sits in the active
            // segment, or the segment it went to was rotated out whole.
            r is Ok ==> {
                let elen = 18 + key@.len() + value@.len();
                let rot_wal = old(self).wal_rotation_due(elen as int);
                let frame = encode_entry((EntryModel::Put { key: key@, value: value@ }));
                &&& !rot_wal ==> final(self).wal.payload() == old(self).wal.payload() + frame
                    && final(self).wal.segment.id == old(self).wal.segment.id
                &&& rot_wal ==> final(self).wal.payload() == Seq::<u8>::empty() && final(self).wal.segment.id == old(self).wal.segment.id + 1
                &&& final(self).wal.current_size == (if rot_wal {
                    0int
                } else {
                    old(self).wal.current_size + elen
                })
            },
            // Where the closed segment file went: closed into the directory
            // on a log rotation, and deleted again when a triggered memtable
            // rotation captured it in a flushed table.
            r is Ok ==> {
                let elen = 18 + key@.len() + value@.len();
                let rot_wal = old(self).wal_rotation_due(elen as int);
                let rot_mem = old(self).memtable_rotation_due(value@.len() as int);
                let frame = encode_entry((EntryModel::Put { key: key@, value: value@ }));
                let closed_file = ((old(self).wal.segment.id), crate::wal::wal_header() + (old(
                    self,
                ).wal.payload() + frame));
                &&& (!rot_wal && !rot_mem) ==> final(self).wal.log_directory == old(
                    self,
                ).wal.log_directory && final(self).wal.closed_segments == old(
                    self,
                ).wal.closed_segments
                &&& (rot_wal && !rot_mem) ==> final(self).wal.log_directory.file_seq() == old(
                    self,
                ).wal.log_directory.file_seq().push(closed_file) && final(self).wal.closed_segments@ == old(self).wal.closed_segments@.push(
                    old(self).wal.segment.id,
                )
                &&& rot_mem ==> final(self).wal.closed_segments@ == Seq::<u64>::empty() && final(self).wal.log_directory.file_seq() == (if rot_wal {
                    old(self).wal.log_directory.file_seq().push(closed_file)
                } else {
                    old(self).wal.log_directory.file_seq()
                }).filter(
                    crate::wal::keep_pred(
                        if rot_wal {
                            old(self).wal.closed_segments@.push(old(self).wal.segment.id)
                        } else {
                            old(self).wal.closed_segments@
                        },
                    ),
                )
            },
            // The memtable afterwards: grown by this pair, or rotated out
            // and fresh.
            r is Ok ==> {
                let rot_mem = old(self).memtable_rotation_due(value@.len() as int);
                &&& final(self).memtable.id == old(self).memtable.id + (if rot_mem {
                    1int
                } else {
                    0int
                })
                &&& final(self).memtable.approximate_size == (if rot_mem {
                    0int
                } else {
                    old(self).memtable.approximate_size + value@.len()
                })
                &&& final(self).memtable.tree@ == (if rot_mem {
                    Map::<Seq<u8>, Option<Seq<u8>>>::empty()
                } else {
                    old(self).memtable.tree@.insert(key@, Some(value@))
                })
            },
            // The table levels afterwards.
            r is Ok ==> {
                let rot_mem = old(self).memtable_rotation_due(value@.len() as int);
                let compact = old(self).compaction_due();
                &&& final(self).sstables@ == (if compact {
                    Seq::<u64>::empty()
                } else if rot_mem {
                    old(self).sstables@.push(old(self).memtable.id)
                } else {
                    old(self).sstables@
                })
                &&& (!rot_mem && !compact) ==> final(self).sstable_store == old(
                    self,
                ).sstable_store
                &&& compact ==> forall|id: u64|
                    final(self).sstable_store.has_file(id) == (old(self).sstable_store.has_file(
                        id,
                    ) && !old(self).sstables@.contains(id) && !(rot_mem && id == old(
                        self,
                    ).memtable.id))
                &&& final(self).l2_id == old(self).l2_id + (if compact {
                    1int
                } else {
                    0int
                })
                &&& final(self).l2_files@ == (if compact {
                    old(self).l2_files@.push(old(self).l2_id)
                } else {
                    old(self).l2_files@
                })
                &&& !compact ==> final(self).l2_store == old(self).l2_store
            },
    {
        let ghost o = *old(self);
        let ghost frame = encode_entry((EntryModel::Put { key: key@, value: value@ }));
        let ghost elen: int = (18 + key@.len() + value@.len()) as int;
        let ghost rot_wal = o.wal_rotation_due(elen);
        let entry = WalEntry::Put { key: key.clone(), value: value.clone() };
        assert(entry@ == (EntryModel::Put { key: key@, value: value@ }));
        match self.wal.append(entry) {
            Ok(_) => {},
            Err(_) => {
                return vstd::pervasive::unreached();
            },
        }
        let ghost pa = *self;
        proof {
            // The just-appended segment bytes, header and all, are what a
            // rotation would close into the directory.
            assert(pa.wal.segment.data@ + pa.wal.buffer@ =~= wal_header() + pa.wal.payload());
        }
        if self.wal.size() >= self.wal_config.max_size {
            match self.wal.rotate() {
                Ok(()) => {},
                Err(e) => {
                    proof {
                        self.lemma_levels_after_memtable_change(o);
                        assert forall|j: Seq<u8>| self.resolved(j) == o.resolved(j) by {
                            assert(self.levels() =~= o.levels());
                        }
                    }
                    return Err(e);
                },
            }
        }
        let ghost s1 = *self;
        proof {
            s1.lemma_levels_after_memtable_change(o);
            assert(s1.levels() =~= o.levels());
            if rot_wal {
                assert(s1.wal.payload() == Seq::<u8>::empty());
                assert(s1.wal.segment.id == o.wal.segment.id + 1);
                assert(s1.wal.current_size == 0);
                assert(s1.wal.log_directory.file_seq() == o.wal.log_directory.file_seq().push(
                    ((o.wal.segment.id), wal_header() + (o.wal.payload() + frame)),
                ));
                assert(s1.wal.closed_segments@ == o.wal.closed_segments@.push(o.wal.segment.id));
            } else {
                assert(s1.wal.payload() == o.wal.payload() + frame);
                assert(s1.wal.segment.id == o.wal.segment.id);
                assert(s1.wal.current_size == o.wal.current_size + elen);
                assert(s1.wal.log_directory == o.wal.log_directory);
                assert(s1.wal.closed_segments == o.wal.closed_segments);
            }
        }
        bloom_insert(&mut self.bloom, key.clone());
        self.memtable.insert(key, value);
        let ghost s3 = *self;
        let ghost rot_mem = o.memtable_rotation_due(value@.len() as int);
        proof {
            s3.lemma_levels_after_memtable_change(s1);
            let lv = s3.levels();
            let lv0 = s1.levels();
            assert(lv[0].dom().contains(key@) && lv[0][key@] == Some(value@));
            assert(s3.resolved(key@) == Some(value@));
            assert forall|j: Seq<u8>| j != key@ implies s3.resolved(j) == o.resolved(j) by {
                assert(lv.skip(1) =~= lv0.skip(1));
                if lv0[0].dom().contains(j) {
                    assert(lv[0][j] == lv0[0][j]);
                }
                assert(s1.resolved(j) == o.resolved(j));
            }
            // The filter covers the fresh key and everything it covered.
            assert forall|k: Seq<u8>| #[trigger] live_in(s3.memtable.tree@, k) implies bloom_keys(
                s3.bloom,
            ).contains(k) by {
                if k != key@ {
                    assert(live_in(s1.memtable.tree@, k));
                }
            }
            assert forall|i: int, k: Seq<u8>|
                0 <= i < s3.l1_tables().len() && #[trigger] live_in(s3.l1_tables()[i], k) implies
                bloom_keys(s3.bloom).contains(k) by {
                assert(live_in(s1.l1_tables()[i], k));
            }
            assert forall|i: int, k: Seq<u8>|
                0 <= i < s3.l2_tables().len() && #[trigger] live_in(s3.l2_tables()[i], k) implies
                bloom_keys(s3.bloom).contains(k) by {
                assert(live_in(s1.l2_tables()[i], k));
            }
            assert(s3.wf());
            assert(s3.wal == s1.wal);
            assert(s3.memtable.approximate_size == o.memtable.approximate_size + value@.len());
        }
        if self.memtable.size() > self.memtable_config.max_size {
            self.rotate_memtable();
            match self.remove_closed_segments() {
                Ok(_) => {},
                Err(_) => {
                    return vstd::pervasive::unreached();
                },
            }
        }
        let ghost s4 = *self;
        proof {
            assert(forall|j: Seq<u8>| s4.resolved(j) == s3.resolved(j));
            assert(s4.l2_files@ == o.l2_files@);
            if rot_mem {
                assert(s4.memtable.id == o.memtable.id + 1);
                assert(s4.memtable.approximate_size == 0);
                assert(s4.memtable.tree@ == Map::<Seq<u8>, Option<Seq<u8>>>::empty());
                assert(s4.sstables@ == o.sstables@.push(o.memtable.id));
                assert(s4.wal.closed_segments@ == Seq::<u64>::empty());
                assert(s4.wal.log_directory.file_seq() == s1.wal.log_directory.file_seq().filter(
                    crate::wal::keep_pred(s1.wal.closed_segments@),
                ));
                assert(s4.wal.payload() == s1.wal.payload());
                assert(s4.wal.segment.id == s1.wal.segment.id);
                assert(s4.wal.current_size == s1.wal.current_size);
            } else {
                assert(s4 == s3);
                assert(s4.memtable.tree@ == o.memtable.tree@.insert(key@, Some(value@)));
            }
        }
        let ghost compact = o.compaction_due();
        if self.l2_files.len() > L2_COMPACTION_THRESHOLD {
            self.force_compaction();
        }
        proof {
            assert(self.resolved(key@) == Some(value@)) by {
                assert(s4.resolved(key@) == Some(value@));
            }
            assert forall|j: Seq<u8>|
                j != key@ && o.resolved(j) is Some implies self.resolved(j) == o.resolved(j) by {
                assert(s4.resolved(j) == o.resolved(j));
            }
            if compact {
                assert(self.sstables@ == Seq::<u64>::empty());
                assert(self.l2_files@ == o.l2_files@.push(o.l2_id));
                assert(self.l2_id == o.l2_id + 1);
                assert(self.wal == s4.wal);
                assert(self.memtable == s4.memtable);
                // Which table files survive: those the compaction did not
                // consume, which excludes the one a memtable rotation wrote.
                assert forall|id: u64|
                    self.sstable_store.has_file(id) == (o.sstable_store.has_file(id)
                        && !o.sstables@.contains(id) && !(rot_mem && id == o.memtable.id)) by {
                    if rot_mem {
                        let st1 = o.sstable_store.file_seq();
                        let st4 = s4.sstable_store.file_seq();
                        assert(st4 == st1.push((o.memtable.id, st4.last().1)));
                        assert(s4.sstable_store.has_file(id) == (o.sstable_store.has_file(id)
                            || id == o.memtable.id)) by {
                            if s4.sstable_store.has_file(id) {
                                let w = choose|w: int|
                                    0 <= w < st4.len() && (#[trigger] st4[w]).0 == id;
                                if w < st1.len() {
                                    assert(st1[w].0 == id);
                                }
                            }
                            if o.sstable_store.has_file(id) {
                                let w = choose|w: int|
                                    0 <= w < st1.len() && (#[trigger] st1[w]).0 == id;
                                assert(st4[w].0 == id);
                            }
                            if id == o.memtable.id {
                                assert(st4[st1.len() as int].0 == id);
                            }
                        }
                        assert(s4.sstables@.contains(id) == (o.sstables@.contains(id) || id
                            == o.memtable.id)) by {
                            if o.sstables@.contains(id) {
                                let w = choose|w: int|
                                    0 <= w < o.sstables@.len() && o.sstables@[w] == id;
                                assert(s4.sstables@[w] == id);
                            }
                            if id == o.memtable.id {
                                assert(s4.sstables@[o.sstables@.len() as int] == id);
                            }
                            if s4.sstables@.contains(id) {
                                let w = choose|w: int|
                                    0 <= w < s4.sstables@.len() && s4.sstables@[w] == id;
                                if w < o.sstables@.len() {
                                    assert(o.sstables@[w] == id);
                                }
                            }
                        }
                    }
                }
            } else {
                assert(*self == s4);
            }
        }
        Ok(())
    }

    /// Recover the engine from the segment files on disk.  The WAL replays
    /// every surviving record into its active segment; the records are then
    /// applied to the memtable in the order they were read, and the filter
    /// learns every key the replay left live.  Restore is not a merge: it
    /// requires an engine that has absorbed nothing yet.
    #[verifier::rlimit(100)]
    pub fn restore(&mut self) -> (r: Result<(), ChipmunkError>)
        requires
            old(self).wf(),
            old(self).wal.current_size == 0,
            old(self).memtable.tree.entry_seq().len() == 0,
            old(self).memtable.approximate_size == 0,
            crate::codec::frames_bytes(
                crate::wal::restored_entries(old(self).wal.log_directory.file_seq()),
            ).len() <= u64::MAX,
        ensures
            r is Ok,
            final(self).wf(),
            final(self).memtable.tree@ == replay_map(
                crate::wal::restored_entries(old(self).wal.log_directory.file_seq()),
            ),
            final(self).wal.current_size == crate::codec::frames_bytes(
                crate::wal::restored_entries(old(self).wal.log_directory.file_seq()),
            ).len(),
            final(self).wal.log_directory == old(self).wal.log_directory,
            final(self).wal.segment.id == old(self).wal.segment.id,
            final(self).memtable.id == old(self).memtable.id,
            final(self).sstables == old(self).sstables,
            final(self).sstable_store == old(self).sstable_store,
            final(self).l2_id == old(self).l2_id,
            final(self).l2_files == old(self).l2_files,
            final(self).l2_store == old(self).l2_store,
            // The filter is rebuilt exactly: what it held before, plus
            // every key the replay left live.
            bloom_keys(final(self).bloom) == bloom_keys(old(self).bloom).union(
                Set::new(
                    |k: Seq<u8>|
                        live_in(
                            replay_map(
                                crate::wal::restored_entries(
                                    old(self).wal.log_directory.file_seq(),
                                ),
                            ),
                            k,
                        ),
                ),
            ),
    {
        let ghost f = crate::wal::restored_entries(old(self).wal.log_directory.file_seq());
        match self.wal.restore() {
            Ok(()) => {},
            Err(_) => {
                return vstd::pervasive::unreached();
            },
        }
        let entries = match self.wal.lines() {
            Ok(v) => v,
            Err(_) => {
                return vstd::pervasive::unreached();
            },
        };
        proof {
            crate::wal::lemma_restored_wf(old(self).wal.log_directory.file_seq());
            crate::tree::lemma_replay_of_frames(f);
            assert(crate::codec::entry_models(entries@) == f);
            assert(self.memtable.tree@ == replay_map(f.take(0))) by {
                assert(f.take(0) =~= Seq::<EntryModel>::empty());
            }
        }
        let ghost mid = *self;
        let n = entries.len();
        let mut i: usize = 0;
        while i < n
            invariant
                n == f.len(),
                n == entries@.len(),
                crate::codec::entry_models(entries@) == f,
                crate::codec::frames_wf(f),
                i <= n,
                self.memtable.wf(),
                self.memtable.tree@ == replay_map(f.take(i as int)),
                self.memtable.id == mid.memtable.id,
                self.memtable.max_size == mid.memtable.max_size,
                self.memtable.approximate_size <= crate::codec::frames_bytes(
                    f.take(i as int),
                ).len(),
                crate::codec::frames_bytes(f).len() <= u64::MAX,
                self.wal == mid.wal,
                self.sstables == mid.sstables,
                self.sstable_store == mid.sstable_store,
                self.l2_id == mid.l2_id,
                self.l2_files == mid.l2_files,
                self.l2_store == mid.l2_store,
                self.bloom == mid.bloom,
                self.wal_config == mid.wal_config,
                self.memtable_config == mid.memtable_config,
            decreases n - i,
        {
            proof {
                assert(entries@[i as int]@ == f[i as int]);
                // The values folded so far plus this one stay within the
                // replayed byte count.
                crate::codec::lemma_frames_bytes_concat(f.take(i as int), f.skip(i as int));
                assert(f.take(i as int) + f.skip(i as int) =~= f);
                assert(f.skip(i as int)[0] == f[i as int]);
                assert(f.skip(i as int).skip(1) =~= f.skip(i as int + 1));
                assert(crate::codec::frames_bytes(f.skip(i as int)) == encode_entry(f[i as int])
                    + crate::codec::frames_bytes(f.skip(i as int + 1)));
                assert(encode_entry(f[i as int]).len() == entry_len(f[i as int]));
                let t1 = f.take(i as int + 1);
                assert(t1.drop_last() =~= f.take(i as int));
                assert(t1.last() == f[i as int]);
                crate::codec::lemma_frames_bytes_concat(t1, f.skip(i as int + 1));
                assert(t1 + f.skip(i as int + 1) =~= f);
            }
            match &entries[i] {
                WalEntry::Put { key, value } => {
                    self.memtable.insert(key.clone(), value.clone());
                },
                WalEntry::Delete { key } => {
                    self.memtable.delete(key.clone());
                },
            }
            i = i + 1;
        }
        proof {
            assert(f.take(n as int) =~= f);
        }
        // Rebuild the filter from what the replay left live.
        let ghost pre_bloom = self.bloom;
        let ghost after_replay = *self;
        let ghost tseq = self.memtable.tree.entry_seq();
        let m = self.memtable.tree.len();
        let mut b: usize = 0;
        while b < m
            invariant
                m == tseq.len(),
                b <= m,
                self.memtable == after_replay.memtable,
                self.memtable.tree.entry_seq() == tseq,
                self.wal == after_replay.wal,
                self.sstables == after_replay.sstables,
                self.sstable_store == after_replay.sstable_store,
                self.l2_id == after_replay.l2_id,
                self.l2_files == after_replay.l2_files,
                self.l2_store == after_replay.l2_store,
                self.wal_config == after_replay.wal_config,
                self.memtable_config == after_replay.memtable_config,
                bloom_bits(self.bloom) > 0,
                bloom_keys(self.bloom) == bloom_keys(pre_bloom).union(
                    Set::new(
                        |k: Seq<u8>|
                            exists|a: int|
                                0 <= a < b && (#[trigger] tseq[a]).0 == k && tseq[a].1 is Some,
                    ),
                ),
            decreases m - b,
        {
            let ghost before = bloom_keys(self.bloom);
            let ghost sb = Set::new(
                |j: Seq<u8>|
                    exists|a: int| 0 <= a < b && (#[trigger] tseq[a]).0 == j && tseq[a].1 is Some,
            );
            let ghost sb1 = Set::new(
                |j: Seq<u8>|
                    exists|a: int|
                        0 <= a < b + 1 && (#[trigger] tseq[a]).0 == j && tseq[a].1 is Some,
            );
            proof {
                assert forall|j: Seq<u8>| #[trigger] sb.contains(j) implies sb1.contains(j) by {
                    let a = choose|a: int|
                        0 <= a < b && (#[trigger] tseq[a]).0 == j && tseq[a].1 is Some;
                    assert(0 <= a < b + 1 && (#[trigger] tseq[a]).0 == j && tseq[a].1 is Some);
                }
            }
            let is_live = match self.memtable.tree.value_at(b) {
                Some(_) => true,
                None => false,
            };
            if is_live {
                let k = self.memtable.tree.key_at(b).clone();
                bloom_insert(&mut self.bloom, k);
                proof {
                    assert forall|j: Seq<u8>| #[trigger] sb1.contains(j) implies sb.contains(j)
                        || j == tseq[b as int].0 by {
                        let a = choose|a: int|
                            0 <= a < b + 1 && (#[trigger] tseq[a]).0 == j && tseq[a].1 is Some;
                        if a < b {
                            assert(sb.contains(j));
                        }
                    }
                    assert(sb1.contains(tseq[b as int].0)) by {
                        let a = b as int;
                        assert(0 <= a < b + 1 && (#[trigger] tseq[a]).0 == tseq[a].0
                            && tseq[a].1 is Some);
                    }
                    assert(bloom_keys(self.bloom) =~= bloom_keys(pre_bloom).union(sb1));
                }
            } else {
                proof {
                    assert forall|j: Seq<u8>| #[trigger] sb1.contains(j) implies sb.contains(
                        j,
                    ) by {
                        let a = choose|a: int|
                            0 <= a < b + 1 && (#[trigger] tseq[a]).0 == j && tseq[a].1 is Some;
                        assert(a < b);
                        assert(sb.contains(j));
                    }
                    assert(bloom_keys(self.bloom) =~= bloom_keys(pre_bloom).union(sb1));
                }
            }
            b = b + 1;
        }
        proof {
            // The keys gathered by the loop are exactly the live keys of
            // the restored memtable.
            assert(Set::new(
                |k: Seq<u8>|
                    exists|a: int| 0 <= a < m && (#[trigger] tseq[a]).0 == k && tseq[a].1 is Some,
            ) =~= Set::new(|k: Seq<u8>| live_in(self.memtable.tree@, k))) by {
                assert forall|k: Seq<u8>|
                    (exists|a: int|
                        0 <= a < m && (#[trigger] tseq[a]).0 == k && tseq[a].1 is Some) == live_in(
                    self.memtable.tree@, k) by {
                    if exists|a: int|
                        0 <= a < m && (#[trigger] tseq[a]).0 == k && tseq[a].1 is Some {
                        let a = choose|a: int|
                            0 <= a < m && (#[trigger] tseq[a]).0 == k && tseq[a].1 is Some;
                        crate::tree::lemma_entries_map_at(tseq, a);
                    }
                    if live_in(self.memtable.tree@, k) {
                        let a = choose|a: int| 0 <= a < tseq.len() && (#[trigger] tseq[a]).0 == k;
                        crate::tree::lemma_entries_map_at(tseq, a);
                    }
                }
            }
            assert(bloom_keys(self.bloom) =~= bloom_keys(old(self).bloom).union(
                Set::new(
                    |k: Seq<u8>|
                        live_in(
                            replay_map(
                                crate::wal::restored_entries(
                                    old(self).wal.log_directory.file_seq(),
                                ),
                            ),
                            k,
                        ),
                ),
            )) by {
                assert(Set::new(
                    |k: Seq<u8>|
                        live_in(
                            replay_map(
                                crate::wal::restored_entries(
                                    old(self).wal.log_directory.file_seq(),
                                ),
                            ),
                            k,
                        ),
                ) =~= Set::new(|k: Seq<u8>| live_in(self.memtable.tree@, k)));
            }
            // Every live key of the restored memtable is covered, and the
            // untouched table levels stay covered because the filter only
            // grew.
            assert forall|k: Seq<u8>| #[trigger] live_in(self.memtable.tree@, k) implies
                bloom_keys(self.bloom).contains(k) by {
                let a = choose|a: int| 0 <= a < tseq.len() && (#[trigger] tseq[a]).0 == k;
                crate::tree::lemma_entries_map_at(tseq, a);
            }
            assert(self.l1_tables() =~= old(self).l1_tables());
            assert(self.l2_tables() =~= old(self).l2_tables());
            assert forall|i2: int, k: Seq<u8>|
                0 <= i2 < self.l1_tables().len() && #[trigger] live_in(self.l1_tables()[i2], k)
                    implies bloom_keys(self.bloom).contains(k) by {
                assert(live_in(old(self).l1_tables()[i2], k));
            }
            assert forall|i2: int, k: Seq<u8>|
                0 <= i2 < self.l2_tables().len() && #[trigger] live_in(self.l2_tables()[i2], k)
                    implies bloom_keys(self.bloom).contains(k) by {
                assert(live_in(old(self).l2_tables()[i2], k));
            }
        }
        Ok(())
    }

    /// Shut the engine down gracefully: write the WAL buffer through,
    /// leave the active segment's file in the log directory, and hand the
    /// on-disk state back — the segment files, the level-one tables and
    /// the level-two files.
    pub fn shutdown(self) -> (r: (LogDirectory, FileStore, FileStore))
        requires
            self.wf(),
        ensures
            r.0.ids_unique(),
            r.0.file_seq() == self.wal.log_directory.file_seq().push(
                (self.wal.segment.id, self.wal.segment.data@ + self.wal.buffer@),
            ),
            r.1 == self.sstable_store,
            r.2 == self.l2_store,
    {
        let Lsm { wal, sstable_store, l2_store, .. } = self;
        (wal.close(), sstable_store, l2_store)
    }

    /// A full compaction cycle: fold every level-one table into one map,
    /// newest record winning, write the keys whose newest record is live
    /// into a single fresh level-two file, drop the keys whose newest
    /// record is a tombstone, delete the consumed table files and clear the
    /// level-one list.  Compaction is monotone: every key readable before
    /// stays readable with the same value.
    pub fn force_compaction(&mut self)
        requires
            old(self).wf(),
            old(self).l2_id < u64::MAX,
        ensures
            final(self).wf(),
            final(self).sstables@ == Seq::<u64>::empty(),
            final(self).l2_files@ == old(self).l2_files@.push(old(self).l2_id),
            final(self).l2_id == old(self).l2_id + 1,
            final(self).memtable == old(self).memtable,
            final(self).wal == old(self).wal,
            final(self).wal_config == old(self).wal_config,
            final(self).memtable_config == old(self).memtable_config,
            bloom_keys(final(self).bloom) == bloom_keys(old(self).bloom),
            forall|id: u64|
                final(self).sstable_store.has_file(id) == (old(self).sstable_store.has_file(id)
                    && !old(self).sstables@.contains(id)),
            forall|k: Seq<u8>|
                (#[trigger] final(self).l2_tables()[0].dom().contains(k)) <==> (lookup_in(
                    old(self).l1_tables(),
                    k,
                ) is Some && lookup_in(old(self).l1_tables(), k).unwrap() is Some),
            forall|k: Seq<u8>|
                (#[trigger] final(self).l2_tables()[0].dom().contains(k))
                    ==> final(self).l2_tables()[0][k] == lookup_in(
                    old(self).l1_tables(),
                    k,
                ).unwrap(),
            forall|k: Seq<u8>|
                old(self).resolved(k) is Some ==> #[trigger] final(self).resolved(k)
                    == old(self).resolved(k),
    {
        let ghost prev = *old(self);
        let ghost nf = prev.l1_tables();
        // Fold every table into one tree, oldest first, so that the newest
        // record of each key wins; tombstones are kept at this stage.
        let mut acc = Tree::new();
        let n1 = self.sstables.len();
        proof {
            assert(nf.skip(n1 as int) =~= Seq::<Map<Seq<u8>, Option<Seq<u8>>>>::empty());
            assert_maps_equal!(
                acc@,
                merged(nf.skip(n1 as int)),
                k => {
                    assert(lookup_in(nf.skip(n1 as int), k) is None);
                }
            );
        }
        let mut p: usize = 0;
        while p < n1
            invariant
                prev.wf(),
                *self == prev,
                n1 == prev.sstables@.len(),
                nf == prev.l1_tables(),
                p <= n1,
                acc.wf(),
                acc@ == merged(nf.skip(n1 as int - p as int)),
            decreases n1 - p,
        {
            let id = self.sstables[p];
            let data = match self.sstable_store.get_file(id) {
                Some(d) => d,
                None => {
                    proof {
                        assert(self.sstable_store.has_file(id));
                        let w = choose|w: int|
                            0 <= w < self.sstable_store.file_seq().len() && (
                            #[trigger] self.sstable_store.file_seq()[w]).0 == id;
                    }
                    return vstd::pervasive::unreached();
                },
            };
            let t = Tree::load(data);
            proof {
                assert(nf[n1 as int - 1 - p as int] == table_view(
                    prev.sstable_store.file_map()[id],
                ));
                assert(t@ == nf[n1 as int - 1 - p as int]);
            }
            let ghost acc0 = acc@;
            let ghost tseq = t.entry_seq();
            let m = t.len();
            proof {
                assert(tseq.take(0) =~= Seq::<(Seq<u8>, Option<Seq<u8>>)>::empty());
                assert_maps_equal!(
                    entries_map(tseq.take(0)),
                    Map::<Seq<u8>, Option<Seq<u8>>>::empty(),
                    k => {
                    }
                );
                assert(acc0.union_prefer_right(entries_map(tseq.take(0))) =~= acc0);
            }
            let mut j: usize = 0;
            while j < m
                invariant
                    t.wf(),
                    tseq == t.entry_seq(),
                    m == tseq.len(),
                    j <= m,
                    acc.wf(),
                    acc@ == acc0.union_prefer_right(entries_map(tseq.take(j as int))),
                decreases m - j,
            {
                let key = t.key_at(j).clone();
                let value = match t.value_at(j) {
                    Some(v) => Some(v.clone()),
                    None => None,
                };
                proof {
                    assert(key@ == tseq[j as int].0);
                    assert(opt_model(value) == tseq[j as int].1);
                }
                acc.insert(key, value);
                proof {
                    crate::tree::lemma_entries_map_take_step(tseq, j as int);
                    assert(acc@ =~= acc0.union_prefer_right(
                        entries_map(tseq.take(j as int + 1)),
                    ));
                }
                j = j + 1;
            }
            proof {
                assert(tseq.take(m as int) =~= tseq);
                assert(entries_map(tseq) == t@);
                let restn = nf.skip(n1 as int - p as int);
                lemma_merged_cons(t@, restn);
                assert(seq![t@] + restn =~= nf.skip(n1 as int - p as int - 1));
                assert(acc@ == merged(nf.skip(n1 as int - p as int - 1)));
            }
            p = p + 1;
        }
        proof {
            assert(nf.skip(0) =~= nf);
        }
        // The consumed tables go away; their content lives on in the merge.
        self.sstable_store.remove_files(&self.sstables);
        self.sstables.clear();
        // Keep the live keys only, in ascending key order.
        let ghost accseq = acc.entry_seq();
        let ghost accmap = acc@;
        let mut live = Tree::new();
        let an = acc.len();
        let mut j2: usize = 0;
        while j2 < an
            invariant
                acc.wf(),
                accseq == acc.entry_seq(),
                accmap == acc@,
                an == accseq.len(),
                j2 <= an,
                live.wf(),
                forall|a: int|
                    0 <= a < live.entry_seq().len() ==> exists|b: int|
                        0 <= b < j2 && #[trigger] live.entry_seq()[a] == accseq[b],
                forall|k: Seq<u8>|
                    #[trigger] live@.dom().contains(k) ==> accmap.dom().contains(k) && accmap[k]
                        is Some && live@[k] == accmap[k],
                forall|b: int|
                    0 <= b < j2 && (#[trigger] accseq[b]).1 is Some ==> live@.dom().contains(
                        accseq[b].0,
                    ),
            decreases an - j2,
        {
            let ghost live0 = live;
            let is_live = match acc.value_at(j2) {
                Some(_) => true,
                None => false,
            };
            if is_live {
                let value = match acc.value_at(j2) {
                    Some(v) => v.clone(),
                    None => vstd::pervasive::unreached(),
                };
                let key = acc.key_at(j2).clone();
                proof {
                    assert forall|a: int| 0 <= a < live.entry_seq().len() implies crate::keys::lex_lt(
                        (#[trigger] live.entry_seq()[a]).0,
                        key@,
                    ) by {
                        let b = choose|b: int|
                            0 <= b < j2 && #[trigger] live.entry_seq()[a] == accseq[b];
                        assert(crate::keys::lex_lt(accseq[b].0, accseq[j2 as int].0));
                    }
                    crate::tree::lemma_entries_map_at(accseq, j2 as int);
                }
                live.insert(key, Some(value));
                proof {
                    assert(live.entry_seq() == live0.entry_seq().push(
                        (accseq[j2 as int].0, accseq[j2 as int].1),
                    ));
                    assert forall|a: int| 0 <= a < live.entry_seq().len() implies exists|b: int|
                        0 <= b < j2 + 1 && #[trigger] live.entry_seq()[a] == accseq[b] by {
                        if a < live0.entry_seq().len() {
                            assert(live.entry_seq()[a] == live0.entry_seq()[a]);
                            let b = choose|b: int|
                                0 <= b < j2 && #[trigger] live0.entry_seq()[a] == accseq[b];
                            assert(live.entry_seq()[a] == accseq[b]);
                        } else {
                            assert(live.entry_seq()[a] == accseq[j2 as int]);
                        }
                    }
                }
            }
            j2 = j2 + 1;
        }
        proof {
            // Everything live in the merge made it into the new table.
            assert forall|k: Seq<u8>|
                accmap.dom().contains(k) && accmap[k] is Some implies live@.dom().contains(
                k,
            ) by {
                let b = choose|b: int|
                    0 <= b < accseq.len() && (#[trigger] accseq[b]).0 == k;
                crate::tree::lemma_entries_map_at(accseq, b);
            }
        }
        // Allocate the next level-two id and write the compacted file.
        let id2 = self.l2_id;
        self.l2_id = id2 + 1;
        let data2 = live.encode();
        proof {
            assert(!self.l2_store.has_file(id2)) by {
                if self.l2_store.has_file(id2) {
                    let w = choose|w: int|
                        0 <= w < self.l2_store.file_seq().len() && (
                        #[trigger] self.l2_store.file_seq()[w]).0 == id2;
                }
            }
        }
        let ok = self.l2_store.put_file(id2, data2);
        assert(ok);
        self.l2_files.push(id2);
        proof {
            crate::tree::lemma_tree_entries_wf(live);
            crate::tree::lemma_replay_of_encode(live.entry_seq());
            crate::tree::lemma_replay_map_of_sorted(live.entry_seq());
            assert(table_view(encode_entries(live.entry_seq())) == live@);
            let st2 = self.l2_store;
            let st1 = prev.l2_store;
            let o1 = st1.file_seq().len() as int;
            st2.lemma_file_map_at(o1);
            assert(st2.file_map()[id2] == encode_entries(live.entry_seq()));
            assert forall|w: int| 0 <= w < o1 implies #[trigger] st2.file_map()[st1.file_seq()[w].0]
                == st1.file_map()[st1.file_seq()[w].0] by {
                assert(st2.file_seq()[w] == st1.file_seq()[w]);
                st2.lemma_file_map_at(w);
                st1.lemma_file_map_at(w);
            }
            assert(self.l2_tables() =~= seq![live@] + prev.l2_tables()) by {
                assert forall|i: int| 0 <= i < self.l2_tables().len() implies self.l2_tables()[i]
                    == (seq![live@] + prev.l2_tables())[i] by {
                    if i == 0 {
                        assert(self.l2_files@[self.l2_files@.len() - 1] == id2);
                    } else {
                        let a = self.l2_files@.len() - 1 - i;
                        assert(self.l2_files@[a] == prev.l2_files@[a]);
                        assert(prev.l2_store.has_file(prev.l2_files@[a]));
                        let w = choose|w: int|
                            0 <= w < st1.file_seq().len() && (#[trigger] st1.file_seq()[w]).0
                                == prev.l2_files@[a];
                        assert(st2.file_map()[st1.file_seq()[w].0] == st1.file_map()[st1.file_seq()[
                            w].0]);
                    }
                }
            }
            assert(self.l1_tables() =~= Seq::<Map<Seq<u8>, Option<Seq<u8>>>>::empty());
            // The new file's announced characterization.
            assert(self.l2_tables()[0] == live@);
            // Reads are preserved for every key that was readable.
            assert forall|k: Seq<u8>| prev.resolved(k) is Some implies self.resolved(k)
                == prev.resolved(k) by {
                let oldlv = prev.levels();
                let newlv = self.levels();
                assert(oldlv[0] == prev.memtable.tree@);
                assert(newlv[0] == prev.memtable.tree@);
                if !prev.memtable.tree@.dom().contains(k) {
                    assert(oldlv.skip(1) =~= nf + prev.l2_tables());
                    assert(newlv.skip(1) =~= seq![live@] + prev.l2_tables());
                    lemma_lookup_concat(nf, prev.l2_tables(), k);
                    lemma_lookup_concat(seq![live@], prev.l2_tables(), k);
                    assert(seq![live@].skip(1) =~= Seq::<Map<Seq<u8>, Option<Seq<u8>>>>::empty());
                    assert(lookup_in(Seq::<Map<Seq<u8>, Option<Seq<u8>>>>::empty(), k) is None);
                    if lookup_in(nf, k) is Some {
                        if lookup_in(nf, k).unwrap() is Some {
                            assert(accmap.dom().contains(k) && accmap[k] == lookup_in(
                                nf,
                                k,
                            ).unwrap());
                            assert(live@.dom().contains(k));
                        } else {
                            // The newest record was a tombstone: the old read
                            // was "not found", so nothing is owed here.
                            assert(prev.resolved(k) is None);
                        }
                    } else {
                        assert(!accmap.dom().contains(k));
                        assert(!live@.dom().contains(k));
                    }
                }
            }
            // The filter still covers every live key: the new file only
            // holds keys that were live in some level-one table.
            assert forall|i: int, k: Seq<u8>|
                0 <= i < self.l2_tables().len() && #[trigger] live_in(self.l2_tables()[i], k)
                    implies bloom_keys(self.bloom).contains(k) by {
                if i == 0 {
                    assert(accmap.dom().contains(k) && accmap[k] is Some);
                    lemma_lookup_live(nf, k);
                    let w = choose|w: int|
                        0 <= w < nf.len() && live_in(#[trigger] nf[w], k) && nf[w][k] == lookup_in(
                            nf,
                            k,
                        ).unwrap();
                    assert(live_in(prev.l1_tables()[w], k));
                } else {
                    assert(self.l2_tables()[i] == prev.l2_tables()[i - 1]);
                    assert(live_in(prev.l2_tables()[i - 1], k));
                }
            }
            // Remaining bookkeeping for well-formedness.
            assert forall|i: int|
                0 <= i < self.sstable_store.file_seq().len() implies (
            #[trigger] self.sstable_store.file_seq()[i]).0 < self.memtable.id by {
                crate::wal::lemma_filter_source(
                    prev.sstable_store.file_seq(),
                    crate::wal::keep_pred(prev.sstables@),
                    i,
                );
                let w = choose|w: int|
                    0 <= w < prev.sstable_store.file_seq().len()
                        && #[trigger] prev.sstable_store.file_seq()[w]
                        == self.sstable_store.file_seq()[i];
            }
            assert forall|i: int|
                0 <= i < self.l2_files@.len() implies self.l2_store.has_file(
                #[trigger] self.l2_files@[i],
            ) by {
                if i < prev.l2_files@.len() {
                    assert(prev.l2_store.has_file(prev.l2_files@[i]));
                    let w = choose|w: int|
                        0 <= w < st1.file_seq().len() && (#[trigger] st1.file_seq()[w]).0
                            == prev.l2_files@[i];
                    assert(st2.file_seq()[w].0 == self.l2_files@[i]);
                } else {
                    assert(st2.file_seq()[o1].0 == id2);
                }
            }
            assert forall|i: int|
                0 <= i < self.l2_store.file_seq().len() implies (
            #[trigger] self.l2_store.file_seq()[i]).0 < self.l2_id by {
                if i < o1 {
                    assert(self.l2_store.file_seq()[i] == st1.file_seq()[i]);
                }
            }
        }
    }

    /// Delete the file of every closed WAL segment and forget the list.
    /// Safe only once the data in those segments has been captured by a
    /// flushed table, which is the caller's contract.  Afterwards no file
    /// for a previously closed id exists and the closed list is empty; no
    /// read changes.
    pub fn remove_closed_segments(&mut self) -> (r: Result<(), ChipmunkError>)
        requires
            old(self).wf(),
        ensures
            r is Ok,
            final(self).wf(),
            final(self).wal.closed_segments@ == Seq::<u64>::empty(),
            final(self).wal.log_directory.file_seq() == old(
                self,
            ).wal.log_directory.file_seq().filter(
                crate::wal::keep_pred(old(self).wal.closed_segments@),
            ),
            forall|id: u64|
                final(self).wal.log_directory.has_segment(id) == (
                old(self).wal.log_directory.has_segment(id) && !old(
                    self,
                ).wal.closed_segments@.contains(id)),
            forall|k: Seq<u8>| final(self).resolved(k) == old(self).resolved(k),
            final(self).wal.segment == old(self).wal.segment,
            final(self).wal.current_size == old(self).wal.current_size,
            final(self).wal.buffer == old(self).wal.buffer,
            final(self).wal.max_size == old(self).wal.max_size,
            final(self).wal.buffer_size == old(self).wal.buffer_size,
            final(self).memtable == old(self).memtable,
            final(self).sstables == old(self).sstables,
            final(self).sstable_store == old(self).sstable_store,
            final(self).l2_id == old(self).l2_id,
            final(self).l2_files == old(self).l2_files,
            final(self).l2_store == old(self).l2_store,
            bloom_keys(final(self).bloom) == bloom_keys(old(self).bloom),
            final(self).wal_config == old(self).wal_config,
            final(self).memtable_config == old(self).memtable_config,
    {
        match self.wal.remove_closed_segments() {
            Ok(_) => {},
            Err(_) => {
                return vstd::pervasive::unreached();
            },
        }
        proof {
            self.lemma_levels_after_memtable_change(*old(self));
            assert forall|k: Seq<u8>| self.resolved(k) == old(self).resolved(k) by {
                assert(self.levels() =~= old(self).levels());
            }
        }
        Ok(())
    }

    /// Rotate the WAL by hand.  Succeeds, leaving a fresh active segment
    /// with the next id and the previous id closed, exactly when no file
    /// for the next id is in the way.  No read changes either way.
    pub fn rotate_wal(&mut self) -> (r: Result<(), ChipmunkError>)
        requires
            old(self).wf(),
            old(self).wal.segment.id < u64::MAX,
        ensures
            r is Ok <==> !old(self).wal.log_directory.has_segment(
                (old(self).wal.segment.id + 1) as u64,
            ),
            r is Err ==> *final(self) == *old(self) && r.unwrap_err()
                == ChipmunkError::SegmentOpen,
            r is Ok ==> {
                &&& final(self).wf()
                &&& final(self).wal.segment.id == old(self).wal.segment.id + 1
                &&& final(self).wal.current_size == 0
                &&& final(self).wal.closed_segments@ == old(self).wal.closed_segments@.push(
                    old(self).wal.segment.id,
                )
            },
            forall|k: Seq<u8>| final(self).resolved(k) == old(self).resolved(k),
            final(self).memtable == old(self).memtable,
            final(self).sstables == old(self).sstables,
            final(self).sstable_store == old(self).sstable_store,
            final(self).l2_files == old(self).l2_files,
            final(self).l2_store == old(self).l2_store,
            final(self).l2_id == old(self).l2_id,
            bloom_keys(final(self).bloom) == bloom_keys(old(self).bloom),
    {
        let r = self.wal.rotate();
        proof {
            self.lemma_levels_after_memtable_change(*old(self));
            assert forall|k: Seq<u8>| self.resolved(k) == old(self).resolved(k) by {
                assert(self.levels() =~= old(self).levels());
            }
        }
        r
    }
}

} // verus!
