//! The ordered map at the heart of the store.
//!
//! A `Tree` maps byte-string keys to optional byte-string values, kept as an
//! association vector whose keys are strictly increasing in lexicographic
//! order.  A present value is a live entry; an absent one is a tombstone.
//! The same shape serves the in-memory memtable, the on-disk tables it is
//! flushed to, and the output of compaction.

use vstd::prelude::*;
use vstd::map::*;

use crate::codec::{encode_entry, entry_wf, entry_len, parse_entry, replay_frames, EntryModel,
    WalEntry, lemma_parse_encode_prefix};
use crate::keys::{key_cmp, lex_lt, KeyOrder, lemma_lex_lt_trans, lemma_lex_lt_irrefl};

verus! {

/// The mathematical value of an optional byte vector.
pub open spec fn opt_model(v: Option<Vec<u8>>) -> Option<Seq<u8>> {
    match v {
        Some(b) => Some(b@),
        None => None,
    }
}

/// The mathematical value of one stored entry.
pub open spec fn pair_model(e: (Vec<u8>, Option<Vec<u8>>)) -> (Seq<u8>, Option<Seq<u8>>) {
    (e.0@, opt_model(e.1))
}

/// Keys strictly increase along the sequence.
pub open spec fn entries_sorted(s: Seq<(Seq<u8>, Option<Seq<u8>>)>) -> bool {
    forall|i: int, j: int|
        0 <= i < j < s.len() ==> lex_lt(#[trigger] s[i].0, #[trigger] s[j].0)
}

/// The finite map an entry sequence denotes.  For the sorted sequences the
/// store works with, each key occurs at most once.
pub open spec fn entries_map(s: Seq<(Seq<u8>, Option<Seq<u8>>)>) -> Map<
    Seq<u8>,
    Option<Seq<u8>>,
> {
    Map::new(
        |k: Seq<u8>| exists|i: int| 0 <= i < s.len() && (#[trigger] s[i]).0 == k,
        |k: Seq<u8>| s[choose|i: int| 0 <= i < s.len() && (#[trigger] s[i]).0 == k].1,
    )
}

/// In a sorted sequence no key occurs twice.
pub proof fn lemma_sorted_keys_unique(s: Seq<(Seq<u8>, Option<Seq<u8>>)>)
    requires
        entries_sorted(s),
    ensures
        forall|i: int, j: int|
            0 <= i < s.len() && 0 <= j < s.len() && i != j ==> (#[trigger] s[i]).0 != (
            #[trigger] s[j]).0,
{
    assert forall|i: int, j: int|
        0 <= i < s.len() && 0 <= j < s.len() && i != j implies (#[trigger] s[i]).0 != (
    #[trigger] s[j]).0 by {
        if i < j {
            assert(lex_lt(s[i].0, s[j].0));
        } else {
            assert(lex_lt(s[j].0, s[i].0));
        }
        lemma_lex_lt_irrefl(s[i].0);
    }
}

/// In a sorted sequence, the value of every entry is what the denoted map
/// gives for its key.
pub proof fn lemma_entries_map_at(s: Seq<(Seq<u8>, Option<Seq<u8>>)>, i: int)
    requires
        entries_sorted(s),
        0 <= i < s.len(),
    ensures
        entries_map(s).dom().contains(s[i].0),
        entries_map(s)[s[i].0] == s[i].1,
{
    lemma_sorted_keys_unique(s);
    let k = s[i].0;
    assert(exists|j: int| 0 <= j < s.len() && (#[trigger] s[j]).0 == k);
    let j = choose|j: int| 0 <= j < s.len() && (#[trigger] s[j]).0 == k;
    assert(j == i);
}

/// The record a stored entry is framed as: live entries as insertions,
/// tombstones as deletions.
pub open spec fn pair_entry(p: (Seq<u8>, Option<Seq<u8>>)) -> EntryModel {
    match p.1 {
        Some(v) => EntryModel::Put { key: p.0, value: v },
        None => EntryModel::Delete { key: p.0 },
    }
}

/// The stored entry a record denotes: the inverse of `pair_entry`.
pub open spec fn frame_pair(e: EntryModel) -> (Seq<u8>, Option<Seq<u8>>) {
    match e {
        EntryModel::Put { key, value } => (key, Some(value)),
        EntryModel::Delete { key } => (key, None),
    }
}

/// The records of a sequence of stored entries.
pub open spec fn pairs_frames(s: Seq<(Seq<u8>, Option<Seq<u8>>)>) -> Seq<EntryModel> {
    s.map_values(|p: (Seq<u8>, Option<Seq<u8>>)| pair_entry(p))
}

/// The stored entries of a sequence of records.
pub open spec fn frames_pairs(s: Seq<EntryModel>) -> Seq<(Seq<u8>, Option<Seq<u8>>)> {
    s.map_values(|e: EntryModel| frame_pair(e))
}

/// The on-disk table format: the frames of the entries, one after another,
/// in storage order.  A table written from a well-formed tree therefore
/// carries its keys in ascending lexicographic order.
pub open spec fn encode_entries(s: Seq<(Seq<u8>, Option<Seq<u8>>)>) -> Seq<u8>
    decreases s.len(),
{
    if s.len() == 0 {
        Seq::empty()
    } else {
        encode_entry(pair_entry(s[0])) + encode_entries(s.skip(1))
    }
}

/// A frame can only carry lengths that fit in its 64-bit length fields.
pub open spec fn entries_len_wf(s: Seq<(Seq<u8>, Option<Seq<u8>>)>) -> bool {
    forall|i: int| 0 <= i < s.len() ==> entry_wf(pair_entry(#[trigger] s[i]))
}

/// The table bytes grow one frame at a time at the back.
pub proof fn lemma_encode_entries_snoc(s: Seq<(Seq<u8>, Option<Seq<u8>>)>)
    requires
        s.len() > 0,
    ensures
        encode_entries(s) == encode_entries(s.drop_last()) + encode_entry(pair_entry(s.last())),
    decreases s.len(),
{
    if s.len() == 1 {
        assert(s.skip(1) =~= Seq::<(Seq<u8>, Option<Seq<u8>>)>::empty());
        assert(s.drop_last() =~= Seq::<(Seq<u8>, Option<Seq<u8>>)>::empty());
        assert(encode_entries(s) =~= encode_entries(s.drop_last()) + encode_entry(
            pair_entry(s.last()),
        ));
    } else {
        lemma_encode_entries_snoc(s.skip(1));
        assert(s.skip(1).drop_last() =~= s.drop_last().skip(1));
        assert(s.skip(1).last() == s.last());
        assert(s.drop_last()[0] == s[0]);
        assert(encode_entries(s) =~= encode_entries(s.drop_last()) + encode_entry(
            pair_entry(s.last()),
        ));
    }
}

/// The map that replaying a sequence of records into an empty tree yields:
/// later records win.
pub open spec fn replay_map(s: Seq<EntryModel>) -> Map<Seq<u8>, Option<Seq<u8>>>
    decreases s.len(),
{
    if s.len() == 0 {
        Map::empty()
    } else {
        let p = frame_pair(s.last());
        replay_map(s.drop_last()).insert(p.0, p.1)
    }
}

/// Skipping a whole leading summand of a concatenation leaves the other.
proof fn lemma_add_skip(x: Seq<u8>, y: Seq<u8>)
    ensures
        (x + y).skip(x.len() as int) == y,
{
    assert((x + y).skip(x.len() as int) =~= y);
}

/// A frame occupies as many bytes as the record says it does.
proof fn lemma_encode_entry_len(e: EntryModel)
    requires
        entry_wf(e),
    ensures
        encode_entry(e).len() == entry_len(e),
{
}

/// Reading a table back gives exactly the frames it was written from.
#[verifier::spinoff_prover]
#[verifier::rlimit(100)]
pub proof fn lemma_replay_of_encode(s: Seq<(Seq<u8>, Option<Seq<u8>>)>)
    requires
        entries_len_wf(s),
    ensures
        replay_frames(encode_entries(s)) == pairs_frames(s),
    decreases s.len(),
{
    if s.len() == 0 {
        assert(replay_frames(encode_entries(s)) =~= pairs_frames(s));
    } else {
        let e = pair_entry(s[0]);
        let b = encode_entries(s);
        lemma_parse_encode_prefix(e, encode_entries(s.skip(1)));
        crate::codec::lemma_replay_frames_unfold(b);
        lemma_encode_entry_len(e);
        lemma_add_skip(encode_entry(e), encode_entries(s.skip(1)));
        assert(entries_len_wf(s.skip(1)));
        lemma_replay_of_encode(s.skip(1));
        assert(replay_frames(b) == seq![e] + pairs_frames(s.skip(1)));
        assert(pairs_frames(s) =~= seq![e] + pairs_frames(s.skip(1)));
    }
}

/// Framing records one after another writes the same bytes as encoding the
/// entries they denote.
proof fn lemma_frames_bytes_is_encode_entries(s: Seq<EntryModel>)
    ensures
        crate::codec::frames_bytes(s) == encode_entries(frames_pairs(s)),
    decreases s.len(),
{
    if s.len() == 0 {
        assert(crate::codec::frames_bytes(s) =~= encode_entries(frames_pairs(s)));
    } else {
        lemma_frames_bytes_is_encode_entries(s.skip(1));
        assert(frames_pairs(s).skip(1) =~= frames_pairs(s.skip(1)));
        assert(pair_entry(frames_pairs(s)[0]) == s[0]);
        assert(crate::codec::frames_bytes(s) =~= encode_entries(frames_pairs(s)));
    }
}

/// Replaying the framed bytes of records yields the records.
pub proof fn lemma_replay_of_frames(s: Seq<EntryModel>)
    requires
        crate::codec::frames_wf(s),
    ensures
        replay_frames(crate::codec::frames_bytes(s)) == s,
{
    let ps = frames_pairs(s);
    assert(entries_len_wf(ps)) by {
        assert forall|i: int| 0 <= i < ps.len() implies entry_wf(pair_entry(#[trigger] ps[i])) by {
            assert(entry_wf(s[i]));
            assert(pair_entry(ps[i]) == s[i]);
        }
    }
    lemma_frames_bytes_is_encode_entries(s);
    lemma_replay_of_encode(ps);
    assert(pairs_frames(ps) =~= s);
}

/// Extending a sorted prefix by its next entry extends the denoted map by
/// that entry's binding.
pub proof fn lemma_entries_map_take_step(s: Seq<(Seq<u8>, Option<Seq<u8>>)>, j: int)
    requires
        entries_sorted(s),
        0 <= j < s.len(),
    ensures
        entries_map(s.take(j + 1)) == entries_map(s.take(j)).insert(s[j].0, s[j].1),
{
    let t = s.take(j);
    let t1 = s.take(j + 1);
    assert(t1 =~= t.push(s[j]));
    assert(entries_sorted(t1)) by {
        assert(forall|a: int| 0 <= a < t1.len() ==> t1[a] == s[a]);
    }
    assert(entries_sorted(t)) by {
        assert(forall|a: int| 0 <= a < t.len() ==> t[a] == s[a]);
    }
    lemma_sorted_keys_unique(t1);
    assert_maps_equal!(
        entries_map(t1),
        entries_map(t).insert(s[j].0, s[j].1),
        k => {
            if entries_map(t1).dom().contains(k) {
                let a = choose|a: int| 0 <= a < t1.len() && (#[trigger] t1[a]).0 == k;
                lemma_entries_map_at(t1, a);
                if k == s[j].0 {
                    assert((#[trigger] t1[j]).0 == k);
                    assert(a == j);
                } else {
                    assert(a < j);
                    assert(t[a] == t1[a]);
                    lemma_entries_map_at(t, a);
                }
            }
            if entries_map(t).insert(s[j].0, s[j].1).dom().contains(k) {
                if k == s[j].0 {
                    assert(t1[j].0 == k);
                } else {
                    let a = choose|a: int| 0 <= a < t.len() && (#[trigger] t[a]).0 == k;
                    assert(t1[a].0 == k);
                }
            }
        }
    );
}

/// Entries held in vectors always fit the frame format's length fields.
pub proof fn lemma_tree_entries_wf(t: Tree)
    ensures
        entries_len_wf(t.entry_seq()),
{
    broadcast use vstd::std_specs::vec::axiom_spec_len;

    assert forall|i: int| 0 <= i < t.entry_seq().len() implies entry_wf(
        pair_entry(#[trigger] t.entry_seq()[i]),
    ) by {
        let e = t.entries@[i];
        assert(vstd::std_specs::vec::spec_vec_len(&e.0) == e.0@.len());
        match e.1 {
            Some(v) => {
                assert(vstd::std_specs::vec::spec_vec_len(&v) == v@.len());
            },
            None => {},
        }
    }
}

/// Replaying the frames of a sorted entry sequence denotes the same map as
/// the sequence itself: with unique keys, later-wins folding never has to
/// choose.
pub proof fn lemma_replay_map_of_sorted(s: Seq<(Seq<u8>, Option<Seq<u8>>)>)
    requires
        entries_sorted(s),
    ensures
        replay_map(pairs_frames(s)) == entries_map(s),
    decreases s.len(),
{
    if s.len() == 0 {
        assert(pairs_frames(s) =~= Seq::<EntryModel>::empty());
        assert(replay_map(pairs_frames(s)) =~= entries_map(s));
    } else {
        let d = s.drop_last();
        assert(entries_sorted(d)) by {
            assert(forall|i: int| 0 <= i < d.len() ==> d[i] == s[i]);
        }
        lemma_replay_map_of_sorted(d);
        lemma_sorted_keys_unique(s);
        let pf = pairs_frames(s);
        assert(pf.drop_last() =~= pairs_frames(d));
        assert(pf.last() == pair_entry(s.last()));
        assert(frame_pair(pf.last()) == s.last());
        assert(replay_map(pf) == entries_map(d).insert(s.last().0, s.last().1));
        assert_maps_equal!(
            entries_map(s),
            entries_map(d).insert(s.last().0, s.last().1),
            k => {
                if entries_map(s).dom().contains(k) {
                    let j = choose|j: int| 0 <= j < s.len() && (#[trigger] s[j]).0 == k;
                    lemma_entries_map_at(s, j);
                    if k == s.last().0 {
                        assert(j == s.len() - 1);
                    } else {
                        assert(j < s.len() - 1);
                        assert(d[j] == s[j]);
                        lemma_entries_map_at(d, j);
                    }
                }
                if entries_map(d).insert(s.last().0, s.last().1).dom().contains(k) {
                    if k == s.last().0 {
                        assert(s[s.len() - 1].0 == k);
                    } else {
                        let j = choose|j: int| 0 <= j < d.len() && (#[trigger] d[j]).0 == k;
                        assert(s[j].0 == k);
                    }
                }
            }
        );
    }
}

/// Round trip of a whole table: the entries written out are read back
/// unchanged — tombstones preserved, order preserved.
pub proof fn lemma_table_round_trip(s: Seq<(Seq<u8>, Option<Seq<u8>>)>)
    requires
        entries_len_wf(s),
    ensures
        replay_frames(encode_entries(s)) == pairs_frames(s),
        frames_pairs(pairs_frames(s)) == s,
        entries_sorted(s) ==> entries_sorted(frames_pairs(pairs_frames(s))),
{
    lemma_replay_of_encode(s);
    assert(frames_pairs(pairs_frames(s)) =~= s);
}

/// Loading a flushed table reproduces the flushed tree exactly: the bytes
/// that `encode` writes for a sorted entry sequence replay to frames that
/// denote the same entries, still sorted, tombstones included.
pub proof fn lemma_load_of_flush(s: Seq<(Seq<u8>, Option<Seq<u8>>)>)
    requires
        entries_sorted(s),
        entries_len_wf(s),
    ensures
        frames_pairs(replay_frames(encode_entries(s))) == s,
        entries_sorted(frames_pairs(replay_frames(encode_entries(s)))),
        replay_map(replay_frames(encode_entries(s))) == entries_map(s),
{
    lemma_table_round_trip(s);
    lemma_replay_map_of_sorted(s);
}

/// The ordered in-memory map from keys to optional values.
#[derive(Debug)]
pub struct Tree {
    pub entries: Vec<(Vec<u8>, Option<Vec<u8>>)>,
}

impl View for Tree {
    type V = Map<Seq<u8>, Option<Seq<u8>>>;

    open spec fn view(&self) -> Map<Seq<u8>, Option<Seq<u8>>> {
        entries_map(self.entry_seq())
    }
}

impl Tree {
    /// The entries of the tree, in storage order, as mathematical values.
    pub open spec fn entry_seq(self) -> Seq<(Seq<u8>, Option<Seq<u8>>)> {
        self.entries@.map_values(|e: (Vec<u8>, Option<Vec<u8>>)| pair_model(e))
    }

    /// Well-formed: keys strictly increase.
    pub open spec fn wf(self) -> bool {
        entries_sorted(self.entry_seq())
    }

    /// An empty tree.
    pub fn new() -> (r: Tree)
        ensures
            r.wf(),
            r.entry_seq() == Seq::<(Seq<u8>, Option<Seq<u8>>)>::empty(),
            r@ == Map::<Seq<u8>, Option<Seq<u8>>>::empty(),
    {
        let r = Tree { entries: Vec::new() };
        proof {
            assert(r.entry_seq() =~= Seq::<(Seq<u8>, Option<Seq<u8>>)>::empty());
            assert(r@ =~= Map::<Seq<u8>, Option<Seq<u8>>>::empty());
        }
        r
    }

    /// Number of entries, tombstones included.
    pub fn len(&self) -> (r: usize)
        ensures
            r == self.entry_seq().len(),
    {
        self.entries.len()
    }

    /// Drop every entry.
    pub fn clear(&mut self)
        ensures
            final(self).wf(),
            final(self).entry_seq() == Seq::<(Seq<u8>, Option<Seq<u8>>)>::empty(),
            final(self)@ == Map::<Seq<u8>, Option<Seq<u8>>>::empty(),
    {
        self.entries.clear();
        proof {
            assert(self.entry_seq() =~= Seq::<(Seq<u8>, Option<Seq<u8>>)>::empty());
            assert(self@ =~= Map::<Seq<u8>, Option<Seq<u8>>>::empty());
        }
    }

    /// Key of the entry at `i`.
    pub fn key_at(&self, i: usize) -> (r: &Vec<u8>)
        requires
            i < self.entry_seq().len(),
        ensures
            r@ == self.entry_seq()[i as int].0,
    {
        &self.entries[i].0
    }

    /// Value of the entry at `i`: a live value or a tombstone.
    pub fn value_at(&self, i: usize) -> (r: &Option<Vec<u8>>)
        requires
            i < self.entry_seq().len(),
        ensures
            opt_model(*r) == self.entry_seq()[i as int].1,
    {
        &self.entries[i].1
    }

    /// Upsert: map `key` to `value`, where a tombstone is an absent value.
    ///
    /// The denoted map gains exactly this binding.  When the key comes after
    /// every stored key the entry lands at the end, which is what lets a
    /// table loaded in ascending key order reproduce its storage order.
    pub fn insert(&mut self, key: Vec<u8>, value: Option<Vec<u8>>)
        requires
            old(self).wf(),
        ensures
            final(self).wf(),
            final(self)@ == old(self)@.insert(key@, opt_model(value)),
            (forall|i: int|
                0 <= i < old(self).entry_seq().len() ==> lex_lt(
                    (#[trigger] old(self).entry_seq()[i]).0,
                    key@,
                )) ==> final(self).entry_seq() == old(self).entry_seq().push(
                (key@, opt_model(value)),
            ),
            old(self)@.dom().contains(key@) ==> final(self).entry_seq().len() == old(
                self,
            ).entry_seq().len(),
            !old(self)@.dom().contains(key@) ==> final(self).entry_seq().len() == old(
                self,
            ).entry_seq().len() + 1,
    {
        let ghost s = old(self).entry_seq();
        proof {
            lemma_sorted_keys_unique(s);
        }
        let n = self.entries.len();
        let mut i: usize = 0;
        while i < n
            invariant
                n == s.len(),
                i <= n,
                old(self).entry_seq() == s,
                self.entry_seq() == s,
                entries_sorted(s),
                forall|j: int| 0 <= j < i ==> lex_lt((#[trigger] s[j]).0, key@),
            decreases n - i,
        {
            let ord = key_cmp(&self.entries[i].0, &key);
            match ord {
                KeyOrder::Less => {
                    i = i + 1;
                },
                KeyOrder::Equal => {
                    self.entries[i] = (key, value);
                    proof {
                        let v = opt_model(value);
                        let s2 = self.entry_seq();
                        assert(s2 =~= s.update(i as int, (key@, v)));
                        assert(s[i as int].0 == key@);
                        assert(forall|j: int| 0 <= j < s.len() ==> (#[trigger] s2[j]).0 == s[j].0);
                        assert forall|a: int, b: int| 0 <= a < b < s2.len() implies lex_lt(
                            (#[trigger] s2[a]).0,
                            (#[trigger] s2[b]).0,
                        ) by {
                            assert(lex_lt(s[a].0, s[b].0));
                        }
                        lemma_sorted_keys_unique(s2);
                        lemma_entries_map_at(s, i as int);
                        let m2 = entries_map(s2);
                        let m1 = entries_map(s).insert(key@, v);
                        assert forall|k: Seq<u8>| m2.dom().contains(k) implies m1.dom().contains(
                            k,
                        ) by {
                            let j = choose|j: int|
                                0 <= j < s2.len() && (#[trigger] s2[j]).0 == k;
                            if k != key@ {
                                assert(s[j].0 == k);
                            }
                        }
                        assert forall|k: Seq<u8>| m1.dom().contains(k) implies m2.dom().contains(
                            k,
                        ) by {
                            if k == key@ {
                                assert(s2[i as int].0 == k);
                            } else {
                                let j = choose|j: int|
                                    0 <= j < s.len() && (#[trigger] s[j]).0 == k;
                                assert(s2[j].0 == k);
                            }
                        }
                        assert forall|k: Seq<u8>| m2.dom().contains(k) implies #[trigger] m2[k]
                            == m1[k] by {
                            let j = choose|j: int|
                                0 <= j < s2.len() && (#[trigger] s2[j]).0 == k;
                            lemma_entries_map_at(s2, j);
                            if k == key@ {
                                assert(s2[i as int].0 == key@);
                                assert(j == i as int);
                            } else {
                                assert(j != i as int);
                                assert(s[j].0 == k);
                                lemma_entries_map_at(s, j);
                            }
                        }
                        assert(m2 =~= m1);
                        lemma_lex_lt_irrefl(key@);
                    }
                    return ;
                },
                KeyOrder::Greater => {
                    self.entries.insert(i, (key, value));
                    proof {
                        let v = opt_model(value);
                        let s2 = self.entry_seq();
                        assert(s2 =~= s.insert(i as int, (key@, v)));
                        s.insert_ensures(i as int, (key@, v));
                        assert(forall|j: int| 0 <= j < i ==> #[trigger] s2[j] == s[j]);
                        assert(s2[i as int] == (key@, v));
                        assert(forall|j: int| i <= j < s.len() ==> #[trigger] s2[j + 1] == s[j]);
                        assert(lex_lt(key@, s[i as int].0));
                        assert forall|a: int, b: int| 0 <= a < b < s2.len() implies lex_lt(
                            (#[trigger] s2[a]).0,
                            (#[trigger] s2[b]).0,
                        ) by {
                            if b < i {
                                assert(s2[a] == s[a] && s2[b] == s[b]);
                            } else if b == i {
                                assert(s2[a] == s[a]);
                                assert(lex_lt(s[a].0, key@));
                            } else {
                                assert(s2[b] == s[b - 1]);
                                if a < i {
                                    if a == b - 1 {
                                        assert(lex_lt(s[a].0, key@));
                                        assert(false);
                                    }
                                    assert(lex_lt(s[a].0, s[b - 1].0));
                                } else if a == i {
                                    if b - 1 == i {
                                        assert(lex_lt(key@, s[i as int].0));
                                    } else {
                                        assert(lex_lt(s[i as int].0, s[b - 1].0));
                                        lemma_lex_lt_trans(key@, s[i as int].0, s[b - 1].0);
                                    }
                                } else {
                                    assert(s2[a] == s[a - 1]);
                                    assert(lex_lt(s[a - 1].0, s[b - 1].0));
                                }
                            }
                        }
                        lemma_sorted_keys_unique(s2);
                        assert(!entries_map(s).dom().contains(key@)) by {
                            if entries_map(s).dom().contains(key@) {
                                let j = choose|j: int|
                                    0 <= j < s.len() && (#[trigger] s[j]).0 == key@;
                                lemma_lex_lt_irrefl(key@);
                                if j < i {
                                    assert(lex_lt(s[j].0, key@));
                                } else if j == i {
                                } else {
                                    assert(lex_lt(s[i as int].0, s[j].0));
                                    lemma_lex_lt_trans(key@, s[i as int].0, s[j].0);
                                }
                            }
                        }
                        let m2 = entries_map(s2);
                        let m1 = entries_map(s).insert(key@, v);
                        assert forall|k: Seq<u8>| m2.dom().contains(k) implies m1.dom().contains(
                            k,
                        ) by {
                            let j = choose|j: int|
                                0 <= j < s2.len() && (#[trigger] s2[j]).0 == k;
                            if k != key@ {
                                assert(j != i);
                                if j < i {
                                    assert(s[j].0 == k);
                                } else {
                                    assert(s2[(j - 1) + 1] == s[j - 1]);
                                    assert(s[j - 1].0 == k);
                                }
                            }
                        }
                        assert forall|k: Seq<u8>| m1.dom().contains(k) implies m2.dom().contains(
                            k,
                        ) by {
                            if k == key@ {
                                assert(s2[i as int].0 == k);
                            } else {
                                let j = choose|j: int|
                                    0 <= j < s.len() && (#[trigger] s[j]).0 == k;
                                if j < i {
                                    assert(s2[j].0 == k);
                                } else {
                                    assert(s2[j + 1] == s[j]);
                                    assert(s2[j + 1].0 == k);
                                }
                            }
                        }
                        assert forall|k: Seq<u8>| m2.dom().contains(k) implies #[trigger] m2[k]
                            == m1[k] by {
                            let j = choose|j: int|
                                0 <= j < s2.len() && (#[trigger] s2[j]).0 == k;
                            lemma_entries_map_at(s2, j);
                            if k == key@ {
                                assert(s2[i as int].0 == key@);
                                assert(j == i as int);
                            } else {
                                assert(j != i as int);
                                if j < i {
                                    assert(s[j].0 == k && s2[j].1 == s[j].1);
                                    lemma_entries_map_at(s, j);
                                } else {
                                    assert(s2[(j - 1) + 1] == s[j - 1]);
                                    lemma_entries_map_at(s, j - 1);
                                }
                            }
                        }
                        assert(m2 =~= m1);
                        // The push clause is vacuous: entry i is not less than the key.
                        if forall|j: int| 0 <= j < s.len() ==> lex_lt((#[trigger] s[j]).0, key@) {
                            assert(lex_lt(s[i as int].0, key@));
                            lemma_lex_lt_trans(key@, s[i as int].0, key@);
                            lemma_lex_lt_irrefl(key@);
                        }
                    }
                    return ;
                },
            }
        }
        // Every stored key is strictly less: append at the end.
        self.entries.push((key, value));
        proof {
            let v = opt_model(value);
            let s2 = self.entry_seq();
            assert(s2 =~= s.push((key@, v)));
            assert forall|a: int, b: int| 0 <= a < b < s2.len() implies lex_lt(
                (#[trigger] s2[a]).0,
                (#[trigger] s2[b]).0,
            ) by {
                if b == s.len() {
                    assert(lex_lt(s[a].0, key@));
                } else {
                    assert(lex_lt(s[a].0, s[b].0));
                }
            }
            lemma_sorted_keys_unique(s2);
            assert(!entries_map(s).dom().contains(key@)) by {
                if entries_map(s).dom().contains(key@) {
                    let j = choose|j: int| 0 <= j < s.len() && (#[trigger] s[j]).0 == key@;
                    assert(lex_lt(s[j].0, key@));
                    lemma_lex_lt_irrefl(key@);
                }
            }
            let m2 = entries_map(s2);
            let m1 = entries_map(s).insert(key@, v);
            assert forall|k: Seq<u8>| m2.dom().contains(k) implies m1.dom().contains(k) by {
                let j = choose|j: int| 0 <= j < s2.len() && (#[trigger] s2[j]).0 == k;
                if k != key@ {
                    assert(j < s.len());
                    assert(s[j].0 == k);
                }
            }
            assert forall|k: Seq<u8>| m1.dom().contains(k) implies m2.dom().contains(k) by {
                if k == key@ {
                    assert(s2[s.len() as int].0 == k);
                } else {
                    let j = choose|j: int| 0 <= j < s.len() && (#[trigger] s[j]).0 == k;
                    assert(s2[j].0 == k);
                }
            }
            assert forall|k: Seq<u8>| m2.dom().contains(k) implies #[trigger] m2[k] == m1[k] by {
                let j = choose|j: int| 0 <= j < s2.len() && (#[trigger] s2[j]).0 == k;
                lemma_entries_map_at(s2, j);
                if k == key@ {
                    assert(s2[s.len() as int].0 == key@);
                    assert(j == s.len() as int);
                } else {
                    assert(j < s.len());
                    assert(s[j].0 == k);
                    lemma_entries_map_at(s, j);
                }
            }
            assert(m2 =~= m1);
        }
    }


    /// Look a key up: a live value, a tombstone, or nothing at all.  The
    /// three-way distinction is what the read path of the store is built on.
    pub fn lookup(&self, key: &Vec<u8>) -> (r: Option<Option<Vec<u8>>>)
        requires
            self.wf(),
        ensures
            match r {
                Some(v) => self@.dom().contains(key@) && self@[key@] == opt_model(v),
                None => !self@.dom().contains(key@),
            },
    {
        let ghost s = self.entry_seq();
        let n = self.entries.len();
        let mut i: usize = 0;
        while i < n
            invariant
                n == s.len(),
                i <= n,
                self.entry_seq() == s,
                entries_sorted(s),
                forall|j: int| 0 <= j < i ==> (#[trigger] s[j]).0 != key@,
            decreases n - i,
        {
            let ord = key_cmp(&self.entries[i].0, key);
            if matches!(ord, KeyOrder::Equal) {
                proof {
                    lemma_entries_map_at(s, i as int);
                }
                let v = match &self.entries[i].1 {
                    Some(b) => Some(b.clone()),
                    None => None,
                };
                return Some(v);
            }
            i = i + 1;
        }
        proof {
            if self@.dom().contains(key@) {
                let j = choose|j: int| 0 <= j < s.len() && (#[trigger] s[j]).0 == key@;
            }
        }
        None
    }

    /// Serialize the tree into the on-disk table format: one frame per
    /// entry, in storage order, tombstones included.
    pub fn encode(&self) -> (r: Vec<u8>)
        ensures
            r@ == encode_entries(self.entry_seq()),
    {
        let ghost s = self.entry_seq();
        let mut out: Vec<u8> = Vec::new();
        let n = self.entries.len();
        let mut i: usize = 0;
        while i < n
            invariant
                n == s.len(),
                i <= n,
                self.entry_seq() == s,
                out@ == encode_entries(s.take(i as int)),
            decreases n - i,
        {
            let entry = match &self.entries[i].1 {
                Some(v) => WalEntry::Put { key: self.entries[i].0.clone(), value: v.clone() },
                None => WalEntry::Delete { key: self.entries[i].0.clone() },
            };
            assert(entry@ == pair_entry(s[i as int]));
            let frame = entry.as_bytes();
            out.extend_from_slice(frame.as_slice());
            proof {
                let t = s.take(i as int + 1);
                assert(t.drop_last() =~= s.take(i as int));
                assert(t.last() == s[i as int]);
                lemma_encode_entries_snoc(t);
            }
            i = i + 1;
        }
        proof {
            assert(s.take(n as int) =~= s);
        }
        out
    }

    /// Deserialize a table: replay its frames, in order, into a fresh tree.
    ///
    /// On the bytes that `encode` wrote — frames with strictly ascending
    /// keys — this reproduces the encoded entries exactly.  Damaged bytes at
    /// the tail are ignored, and duplicate keys resolve to the latest frame.
    pub fn load(bytes: &Vec<u8>) -> (r: Tree)
        ensures
            r.wf(),
            r@ == replay_map(replay_frames(bytes@)),
            entries_sorted(frames_pairs(replay_frames(bytes@))) ==> r.entry_seq()
                == frames_pairs(replay_frames(bytes@)),
    {
        let entries = WalEntry::decode_all(bytes, 0);
        let ghost f = replay_frames(bytes@);
        proof {
            assert(bytes@.subrange(0, bytes@.len() as int) =~= bytes@);
        }
        let mut t = Tree::new();
        let n = entries.len();
        let mut i: usize = 0;
        while i < n
            invariant
                n == f.len(),
                i <= n,
                crate::codec::entry_models(entries@) == f,
                n == entries@.len(),
                t.wf(),
                t@ == replay_map(f.take(i as int)),
                entries_sorted(frames_pairs(f.take(i as int))) ==> t.entry_seq() == frames_pairs(
                    f.take(i as int),
                ),
            decreases n - i,
        {
            let ghost prev = t;
            assert(entries@[i as int]@ == f[i as int]);
            match &entries[i] {
                WalEntry::Put { key, value } => {
                    t.insert(key.clone(), Some(value.clone()));
                },
                WalEntry::Delete { key } => {
                    t.insert(key.clone(), None);
                },
            }
            proof {
                let ft = f.take(i as int + 1);
                assert(ft.drop_last() =~= f.take(i as int));
                assert(ft.last() == f[i as int]);
                assert(t@ == replay_map(ft));
                if entries_sorted(frames_pairs(ft)) {
                    assert(frames_pairs(ft).drop_last() =~= frames_pairs(f.take(i as int)));
                    assert forall|a: int, b: int|
                        0 <= a < b < frames_pairs(f.take(i as int)).len() implies lex_lt(
                        (#[trigger] frames_pairs(f.take(i as int))[a]).0,
                        (#[trigger] frames_pairs(f.take(i as int))[b]).0,
                    ) by {
                        assert(frames_pairs(ft)[a] == frames_pairs(f.take(i as int))[a]);
                        assert(frames_pairs(ft)[b] == frames_pairs(f.take(i as int))[b]);
                        assert(lex_lt(frames_pairs(ft)[a].0, frames_pairs(ft)[b].0));
                    }
                    assert(prev.entry_seq() == frames_pairs(f.take(i as int)));
                    assert forall|j: int| 0 <= j < prev.entry_seq().len() implies lex_lt(
                        (#[trigger] prev.entry_seq()[j]).0,
                        frame_pair(f[i as int]).0,
                    ) by {
                        assert(frames_pairs(ft)[j] == prev.entry_seq()[j]);
                        assert(frames_pairs(ft)[i as int] == frame_pair(f[i as int]));
                        assert(lex_lt(frames_pairs(ft)[j].0, frames_pairs(ft)[i as int].0));
                    }
                    assert(t.entry_seq() == prev.entry_seq().push(frame_pair(f[i as int])));
                    assert(t.entry_seq() =~= frames_pairs(ft));
                }
            }
            i = i + 1;
        }
        proof {
            assert(f.take(n as int) =~= f);
        }
        t
    }
}

} // verus!
