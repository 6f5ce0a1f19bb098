//! The in-memory write buffer of the store.
//!
//! A memtable absorbs writes into an ordered tree of key to optional value,
//! where an absent value is a tombstone.  When it grows past its configured
//! size it is flushed: the tree is serialized into an immutable sorted table,
//! the memtable empties, and its id advances by one.

use vstd::prelude::*;

use crate::tree::{encode_entries, opt_model, Tree};

verus! {

/// Default ceiling, in bytes of accumulated values, before a memtable is
/// rotated out.
pub const MEMTABLE_MAX_SIZE_BYTES: u64 = 1048576;

/// The in-memory ordered index of the store.
#[derive(Debug)]
pub struct Memtable {
    /// Advances by one on every flush; orders tables by recency.
    pub id: u64,
    /// The ordered entries, tombstones included.
    pub tree: Tree,
    /// Bytes of values accumulated since the last flush.  An approximation
    /// by choice: keys are not counted.
    pub approximate_size: u64,
    /// Size threshold the owner consults to decide on rotation.
    pub max_size: u64,
}

impl Memtable {
    /// Well-formed: the tree keeps its keys strictly sorted.
    pub open spec fn wf(self) -> bool {
        self.tree.wf()
    }

    /// A fresh, empty memtable.
    pub fn new(id: u64, max_size: u64) -> (r: Memtable)
        ensures
            r.wf(),
            r.id == id,
            r.max_size == max_size,
            r.approximate_size == 0,
            r.tree.entry_seq() == Seq::<(Seq<u8>, Option<Seq<u8>>)>::empty(),
            r.tree@ == Map::<Seq<u8>, Option<Seq<u8>>>::empty(),
    {
        Memtable { id, tree: Tree::new(), approximate_size: 0, max_size }
    }

    /// Put a key/value pair into the memtable and account for its size.
    pub fn insert(&mut self, key: Vec<u8>, value: Vec<u8>)
        requires
            old(self).wf(),
            old(self).approximate_size + value@.len() <= u64::MAX,
        ensures
            final(self).wf(),
            final(self).tree@ == old(self).tree@.insert(key@, Some(value@)),
            final(self).approximate_size == old(self).approximate_size + value@.len(),
            final(self).id == old(self).id,
            final(self).max_size == old(self).max_size,
            old(self).tree@.dom().contains(key@) ==> final(self).tree.entry_seq().len() == old(
                self,
            ).tree.entry_seq().len(),
            !old(self).tree@.dom().contains(key@) ==> final(self).tree.entry_seq().len() == old(
                self,
            ).tree.entry_seq().len() + 1,
    {
        self.approximate_size = self.approximate_size + (value.len() as u64);
        self.tree.insert(key, Some(value));
    }

    /// Get the live value for a key: a tombstone and an absent key both read
    /// as not found here.
    pub fn get(&self, key: &Vec<u8>) -> (r: Option<Vec<u8>>)
        requires
            self.wf(),
        ensures
            match r {
                Some(v) => self.tree@.dom().contains(key@) && self.tree@[key@] == Some(v@),
                None => !self.tree@.dom().contains(key@) || self.tree@[key@] is None,
            },
    {
        match self.tree.lookup(key) {
            Some(Some(v)) => Some(v),
            Some(None) => None,
            None => None,
        }
    }

    /// Look a key up without collapsing the tombstone case: a live value, a
    /// tombstone, or no record at all.  The read path of the store needs the
    /// three-way answer.
    pub fn lookup(&self, key: &Vec<u8>) -> (r: Option<Option<Vec<u8>>>)
        requires
            self.wf(),
        ensures
            match r {
                Some(v) => self.tree@.dom().contains(key@) && self.tree@[key@] == opt_model(v),
                None => !self.tree@.dom().contains(key@),
            },
    {
        self.tree.lookup(key)
    }

    /// Record a tombstone for a key.  The size accounting is unchanged: the
    /// value being shadowed may not even live here.
    pub fn delete(&mut self, key: Vec<u8>)
        requires
            old(self).wf(),
        ensures
            final(self).wf(),
            final(self).tree@ == old(self).tree@.insert(key@, None),
            final(self).approximate_size == old(self).approximate_size,
            final(self).id == old(self).id,
            final(self).max_size == old(self).max_size,
            old(self).tree@.dom().contains(key@) ==> final(self).tree.entry_seq().len() == old(
                self,
            ).tree.entry_seq().len(),
            !old(self).tree@.dom().contains(key@) ==> final(self).tree.entry_seq().len() == old(
                self,
            ).tree.entry_seq().len() + 1,
    {
        self.tree.insert(key, None);
    }

    /// Flush: serialize the tree into an immutable sorted table, hand the
    /// table back together with the id it is to be stored under, empty the
    /// memtable, and advance its id by one.
    ///
    /// Nothing is lost: every entry present before the call, tombstones
    /// included, is in the returned table.
    pub fn flush(&mut self) -> (r: (u64, Vec<u8>))
        requires
            old(self).wf(),
            old(self).id < u64::MAX,
        ensures
            final(self).wf(),
            r.0 == old(self).id,
            r.1@ == encode_entries(old(self).tree.entry_seq()),
            final(self).id == old(self).id + 1,
            final(self).approximate_size == 0,
            final(self).tree.entry_seq() == Seq::<(Seq<u8>, Option<Seq<u8>>)>::empty(),
            final(self).tree@ == Map::<Seq<u8>, Option<Seq<u8>>>::empty(),
            final(self).max_size == old(self).max_size,
    {
        let data = self.tree.encode();
        let id = self.id;
        self.tree.clear();
        self.approximate_size = 0;
        self.id = id + 1;
        (id, data)
    }

    /// Deserialize a table that `flush` wrote back into its tree.
    pub fn load(bytes: &Vec<u8>) -> (r: Tree)
        ensures
            r.wf(),
            r@ == crate::tree::replay_map(crate::codec::replay_frames(bytes@)),
            crate::tree::entries_sorted(
                crate::tree::frames_pairs(crate::codec::replay_frames(bytes@)),
            ) ==> r.entry_seq() == crate::tree::frames_pairs(
                crate::codec::replay_frames(bytes@),
            ),
    {
        Tree::load(bytes)
    }

    /// Id of the memtable; higher means more recent.
    pub fn id(&self) -> (r: u64)
        ensures
            r == self.id,
    {
        self.id
    }

    /// Accumulated bytes of values since the last flush.
    pub fn size(&self) -> (r: u64)
        ensures
            r == self.approximate_size,
    {
        self.approximate_size
    }

    /// The configured rotation threshold.
    pub fn max_size(&self) -> (r: u64)
        ensures
            r == self.max_size,
    {
        self.max_size
    }

    /// Number of keys recorded, tombstones included.
    pub fn len(&self) -> (r: u64)
        ensures
            r == self.tree.entry_seq().len(),
    {
        self.tree.len() as u64
    }
}

} // verus!
