//! A store of immutable table files, each named by a 64-bit id.
//!
//! The coordinator keeps one store for the flushed tables and one for the
//! compacted files.  A store is the model of the files of one kind in the
//! working directory: a sequence of id/bytes pairs in creation order, with
//! no id appearing twice.

use vstd::prelude::*;

use crate::wal::{keep_pred, lemma_filter_no_dup, lemma_filter_source};

verus! {

/// Table files on disk, in creation order.
#[derive(Debug)]
pub struct FileStore {
    pub files: Vec<(u64, Vec<u8>)>,
}

impl FileStore {
    /// The files as mathematical values: id and bytes, in order.
    pub open spec fn file_seq(self) -> Seq<(u64, Seq<u8>)> {
        self.files@.map_values(|f: (u64, Vec<u8>)| (f.0, f.1@))
    }

    /// A file named `id` exists.
    pub open spec fn has_file(self, id: u64) -> bool {
        exists|i: int| 0 <= i < self.file_seq().len() && (#[trigger] self.file_seq()[i]).0 == id
    }

    /// No two files share an id.
    pub open spec fn ids_unique(self) -> bool {
        forall|i: int, j: int|
            0 <= i < self.file_seq().len() && 0 <= j < self.file_seq().len() && i != j ==> (
            #[trigger] self.file_seq()[i]).0 != (#[trigger] self.file_seq()[j]).0
    }

    /// The finite map from file id to file bytes.
    pub open spec fn file_map(self) -> Map<u64, Seq<u8>> {
        Map::new(
            |id: u64|
                exists|i: int|
                    0 <= i < self.file_seq().len() && (#[trigger] self.file_seq()[i]).0 == id,
            |id: u64|
                self.file_seq()[choose|i: int|
                    0 <= i < self.file_seq().len() && (#[trigger] self.file_seq()[i]).0 == id].1,
        )
    }

    /// Total bytes held by the store.
    pub open spec fn total_size(self) -> int {
        crate::wal::files_size(self.file_seq())
    }

    /// An empty store.
    pub fn new() -> (r: FileStore)
        ensures
            r.file_seq() == Seq::<(u64, Seq<u8>)>::empty(),
            r.ids_unique(),
            r.file_map() == Map::<u64, Seq<u8>>::empty(),
    {
        let r = FileStore { files: Vec::new() };
        proof {
            assert(r.file_seq() =~= Seq::<(u64, Seq<u8>)>::empty());
            assert(r.file_map() =~= Map::<u64, Seq<u8>>::empty());
        }
        r
    }

    /// In a store with unique ids, each file's bytes are what the map gives
    /// for its id.
    pub proof fn lemma_file_map_at(self, i: int)
        requires
            self.ids_unique(),
            0 <= i < self.file_seq().len(),
        ensures
            self.file_map().dom().contains(self.file_seq()[i].0),
            self.file_map()[self.file_seq()[i].0] == self.file_seq()[i].1,
    {
        let s = self.file_seq();
        let id = s[i].0;
        assert(exists|j: int| 0 <= j < s.len() && (#[trigger] s[j]).0 == id);
        let j = choose|j: int| 0 <= j < s.len() && (#[trigger] s[j]).0 == id;
        assert(j == i);
    }

    /// Number of files in the store.
    pub fn file_count(&self) -> (r: usize)
        ensures
            r == self.file_seq().len(),
    {
        self.files.len()
    }

    /// Id of the file at `i`.
    pub fn file_id_at(&self, i: usize) -> (r: u64)
        requires
            i < self.file_seq().len(),
        ensures
            r == self.file_seq()[i as int].0,
    {
        self.files[i].0
    }

    /// Bytes of the file at `i`.
    pub fn file_data_at(&self, i: usize) -> (r: &Vec<u8>)
        requires
            i < self.file_seq().len(),
        ensures
            r@ == self.file_seq()[i as int].1,
    {
        &self.files[i].1
    }

    /// The bytes of the file named `id`, when one exists.
    pub fn get_file(&self, id: u64) -> (r: Option<&Vec<u8>>)
        requires
            self.ids_unique(),
        ensures
            match r {
                Some(data) => self.file_map().dom().contains(id) && data@ == self.file_map()[id],
                None => !self.file_map().dom().contains(id),
            },
    {
        let ghost s = self.file_seq();
        let n = self.files.len();
        let mut i: usize = 0;
        while i < n
            invariant
                n == s.len(),
                i <= n,
                self.file_seq() == s,
                self.ids_unique(),
                forall|j: int| 0 <= j < i ==> (#[trigger] s[j]).0 != id,
            decreases n - i,
        {
            if self.files[i].0 == id {
                proof {
                    self.lemma_file_map_at(i as int);
                }
                return Some(&self.files[i].1);
            }
            i = i + 1;
        }
        proof {
            if self.file_map().dom().contains(id) {
                let j = choose|j: int| 0 <= j < s.len() && (#[trigger] s[j]).0 == id;
            }
        }
        None
    }

    /// Write a fresh file.  Rejected when a file with that id already
    /// exists: table files are immutable once written.
    pub fn put_file(&mut self, id: u64, data: Vec<u8>) -> (ok: bool)
        ensures
            ok == !old(self).has_file(id),
            ok ==> final(self).file_seq() == old(self).file_seq().push((id, data@)),
            !ok ==> *final(self) == *old(self),
            old(self).ids_unique() ==> final(self).ids_unique(),
    {
        let ghost s = self.file_seq();
        let n = self.files.len();
        let mut i: usize = 0;
        while i < n
            invariant
                n == s.len(),
                i <= n,
                self.file_seq() == s,
                forall|j: int| 0 <= j < i ==> (#[trigger] s[j]).0 != id,
            decreases n - i,
        {
            if self.files[i].0 == id {
                proof {
                    assert((#[trigger] self.file_seq()[i as int]).0 == id);
                }
                return false;
            }
            i = i + 1;
        }
        self.files.push((id, data));
        proof {
            let s2 = self.file_seq();
            assert(s2 =~= s.push((id, data@)));
            if old(self).ids_unique() {
                assert forall|a: int, b: int|
                    0 <= a < s2.len() && 0 <= b < s2.len() && a != b implies (
                #[trigger] s2[a]).0 != (#[trigger] s2[b]).0 by {
                    if a < s.len() && b < s.len() {
                    } else if b == s.len() {
                        assert(s2[a] == s[a]);
                    } else {
                        assert(s2[b] == s[b]);
                    }
                }
            }
        }
        true
    }

    /// Delete every file whose id is in `ids`.
    pub fn remove_files(&mut self, ids: &Vec<u64>)
        requires
            old(self).ids_unique(),
        ensures
            final(self).ids_unique(),
            final(self).file_seq() == old(self).file_seq().filter(keep_pred(ids@)),
            forall|id: u64|
                final(self).has_file(id) == (old(self).has_file(id) && !ids@.contains(id)),
    {
        let ghost s = old(self).file_seq();
        let ghost c = ids@;
        let mut kept: Vec<(u64, Vec<u8>)> = Vec::new();
        proof {
            reveal(Seq::filter);
            assert(kept@.map_values(|f: (u64, Vec<u8>)| (f.0, f.1@)) =~= s.take(0).filter(
                keep_pred(c),
            ));
        }
        let n = self.files.len();
        let mut i: usize = 0;
        while i < n
            invariant
                n == s.len(),
                i <= n,
                self.file_seq() == s,
                ids@ == c,
                kept@.map_values(|f: (u64, Vec<u8>)| (f.0, f.1@)) == s.take(i as int).filter(
                    keep_pred(c),
                ),
            decreases n - i,
        {
            let ghost t = s.take(i as int + 1);
            proof {
                assert(t.drop_last() =~= s.take(i as int));
                assert(t.last() == s[i as int]);
            }
            let id = self.files[i].0;
            if !contains_id(ids, id) {
                let data = self.files[i].1.clone();
                kept.push((id, data));
                proof {
                    reveal(Seq::filter);
                    assert(keep_pred(c)(s[i as int]));
                    assert(kept@.map_values(|f: (u64, Vec<u8>)| (f.0, f.1@)) =~= t.filter(
                        keep_pred(c),
                    ));
                }
            } else {
                proof {
                    reveal(Seq::filter);
                    assert(!keep_pred(c)(s[i as int]));
                    assert(kept@.map_values(|f: (u64, Vec<u8>)| (f.0, f.1@)) =~= t.filter(
                        keep_pred(c),
                    ));
                }
            }
            i = i + 1;
        }
        proof {
            assert(s.take(n as int) =~= s);
        }
        self.files = kept;
        proof {
            let s2 = self.file_seq();
            let pred = keep_pred(c);
            assert(s2 == s.filter(pred));
            #[allow(deprecated)]
            s.filter_lemma(pred);
            assert forall|a: int, b: int|
                0 <= a < s2.len() && 0 <= b < s2.len() && a != b implies (#[trigger] s2[a]).0 != (
            #[trigger] s2[b]).0 by {
                lemma_filter_no_dup(s, pred, a, b);
            }
            assert forall|id: u64|
                self.has_file(id) == (old(self).has_file(id) && !c.contains(id)) by {
                if self.has_file(id) {
                    let a = choose|a: int| 0 <= a < s2.len() && (#[trigger] s2[a]).0 == id;
                    lemma_filter_source(s, pred, a);
                    let j = choose|j: int| 0 <= j < s.len() && #[trigger] s[j] == s2[a];
                    assert(pred(s2[a]));
                    assert((#[trigger] s[j]).0 == id);
                }
                if old(self).has_file(id) && !c.contains(id) {
                    let j = choose|j: int| 0 <= j < s.len() && (#[trigger] s[j]).0 == id;
                    assert(pred(s[j]));
                    assert(s2.contains(s[j]));
                    let a = choose|a: int| 0 <= a < s2.len() && #[trigger] s2[a] == s[j];
                    assert((#[trigger] s2[a]).0 == id);
                }
            }
        }
    }

    /// Total bytes held by the store.
    pub fn size_on_disk(&self) -> (r: u64)
        requires
            self.total_size() <= u64::MAX,
        ensures
            r == self.total_size(),
    {
        let ghost s = self.file_seq();
        let n = self.files.len();
        let mut total: u64 = 0;
        let mut i: usize = 0;
        while i < n
            invariant
                n == s.len(),
                i <= n,
                self.file_seq() == s,
                total == crate::wal::files_size(s.take(i as int)),
                crate::wal::files_size(s) <= u64::MAX,
            decreases n - i,
        {
            proof {
                let t = s.take(i as int + 1);
                assert(t.drop_last() =~= s.take(i as int));
                assert(t.last() == s[i as int]);
                crate::wal::lemma_files_size_split(s, i as int + 1);
                crate::wal::lemma_files_size_nonneg(s.skip(i as int + 1));
                crate::wal::lemma_files_size_nonneg(s.take(i as int));
            }
            let len = self.files[i].1.len();
            total = total + (len as u64);
            i = i + 1;
        }
        proof {
            assert(s.take(n as int) =~= s);
        }
        total
    }
}

/// Whether a vector of ids holds `x`.
fn contains_id(v: &Vec<u64>, x: u64) -> (r: bool)
    ensures
        r == v@.contains(x),
{
    let n = v.len();
    let mut i: usize = 0;
    while i < n
        invariant
            n == v@.len(),
            i <= n,
            forall|j: int| 0 <= j < i ==> v@[j] != x,
        decreases n - i,
    {
        if v[i] == x {
            return true;
        }
        i = i + 1;
    }
    false
}

} // verus!
