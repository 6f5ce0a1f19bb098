//! The decision logic of the request surface.
//!
//! The HTTP plumbing itself lives outside the library; what is verified
//! here is what each verb decides: how a posted body splits into key and
//! value, and which status and body each outcome earns.  Statuses follow
//! the surface's contract: 200 with the value on a hit, 404 on a miss or
//! tombstone, 204 for an applied write, 400 for a malformed body, 500 when
//! the engine fails.

use vstd::prelude::*;

use crate::codec::copy_range;
use crate::lsm::Lsm;

verus! {

/// Position of the first `=` byte, where a posted body splits.
pub open spec fn split_index(b: Seq<u8>) -> Option<int>
    decreases b.len(),
{
    if b.len() == 0 {
        None
    } else if b[0] == 61 {
        Some(0int)
    } else {
        match split_index(b.skip(1)) {
            Some(i) => Some(i + 1),
            None => None,
        }
    }
}

/// A split position is a real position: in range and holding the `=`.
pub proof fn lemma_split_index_range(b: Seq<u8>)
    ensures
        split_index(b) is Some ==> 0 <= split_index(b).unwrap() < b.len() && b[split_index(
            b,
        ).unwrap()] == 61,
    decreases b.len(),
{
    if b.len() > 0 && b[0] != 61 {
        lemma_split_index_range(b.skip(1));
    }
}

/// The reply body of a malformed post.
pub open spec fn malformed_post_message() -> Seq<u8> {
    seq![77u8, 117u8, 115u8, 116u8, 32u8, 112u8, 114u8, 111u8, 118u8, 105u8, 100u8, 101u8, 32u8, 107u8, 101u8, 121u8, 61u8, 118u8, 97u8, 108u8, 117u8, 101u8, 32u8, 102u8, 111u8, 114u8, 109u8, 97u8, 116u8]
}

/// Build the reply body of a malformed post.
pub fn malformed_post_reply() -> (out: Vec<u8>)
    ensures
        out@ == malformed_post_message(),
{
    let mut out: Vec<u8> = Vec::new();
    out.push(77);
    out.push(117);
    out.push(115);
    out.push(116);
    out.push(32);
    out.push(112);
    out.push(114);
    out.push(111);
    out.push(118);
    out.push(105);
    out.push(100);
    out.push(101);
    out.push(32);
    out.push(107);
    out.push(101);
    out.push(121);
    out.push(61);
    out.push(118);
    out.push(97);
    out.push(108);
    out.push(117);
    out.push(101);
    out.push(32);
    out.push(102);
    out.push(111);
    out.push(114);
    out.push(109);
    out.push(97);
    out.push(116);
    proof {
        assert(out@ =~= malformed_post_message());
    }
    out
}

/// Split a posted body at its first `=`: the key before it, the value
/// after it.  A body with no `=` is malformed.
pub fn parse_kv(body: &Vec<u8>) -> (r: Option<(Vec<u8>, Vec<u8>)>)
    ensures
        match r {
            Some(kv) => {
                &&& split_index(body@) is Some
                &&& kv.0@ == body@.take(split_index(body@).unwrap())
                &&& kv.1@ == body@.skip(split_index(body@).unwrap() + 1)
            },
            None => split_index(body@) is None,
        },
{
    let n = body.len();
    proof {
        assert(body@.skip(0) =~= body@);
    }
    let mut i: usize = 0;
    while i < n
        invariant
            i <= n,
            n == body@.len(),
            split_index(body@) == match split_index(body@.skip(i as int)) {
                Some(j) => Some(j + i),
                None => None,
            },
            forall|j: int| 0 <= j < i ==> body@[j] != 61,
        decreases n - i,
    {
        if body[i] == 61 {
            proof {
                assert(body@.skip(i as int)[0] == 61);
                assert(split_index(body@) == Some(i as int));
            }
            let key = copy_range(body, 0, i);
            let value = copy_range(body, i + 1, n - i - 1);
            proof {
                assert(key@ =~= body@.take(i as int));
                assert(value@ =~= body@.skip(i as int + 1));
            }
            return Some((key, value));
        }
        proof {
            assert(body@.skip(i as int)[0] != 61);
            assert(body@.skip(i as int).skip(1) =~= body@.skip(i as int + 1));
        }
        i = i + 1;
    }
    proof {
        assert(body@.skip(n as int) =~= Seq::<u8>::empty());
    }
    None
}

/// Decide a post: split the body at its first `=`, insert the pair, and
/// earn 204; a body with no `=` earns 400 and the malformed-body message
/// and leaves the store untouched.  500 is earned exactly when the insert
/// fails, which happens only when a due WAL rotation finds a segment file
/// with the next id in the way; in every other state 204 is owed.
pub fn handle_post(store: &mut Lsm, body: &Vec<u8>) -> (r: (u16, Vec<u8>))
    requires
        old(store).wf(),
        old(store).wal.current_size + 18 + body@.len() <= u64::MAX,
        old(store).memtable.approximate_size + body@.len() <= u64::MAX,
        old(store).wal.segment.id < u64::MAX,
        old(store).memtable.id < u64::MAX,
        old(store).l2_id < u64::MAX,
    ensures
        final(store).wf(),
        split_index(body@) is None ==> r.0 == 400 && r.1@ == malformed_post_message()
            && *final(store) == *old(store),
        split_index(body@) is Some ==> {
            let i = split_index(body@).unwrap();
            let elen = 17 + body@.len();
            &&& (r.0 == 204 || r.0 == 500)
            &&& r.0 == 500 ==> old(store).wal_rotation_due(elen as int) && old(
                store,
            ).wal.log_directory.has_segment((old(store).wal.segment.id + 1) as u64) && (forall|
                j: Seq<u8>,
            |
                final(store).resolved(j) == old(store).resolved(j)) && final(store).wal.current_size == old(store).wal.current_size + elen
            &&& (!old(store).wal_rotation_due(elen as int) || !old(
                store,
            ).wal.log_directory.has_segment((old(store).wal.segment.id + 1) as u64)) ==> r.0 == 204
            &&& r.0 == 204 ==> final(store).resolved(body@.take(i)) == Some(body@.skip(i + 1))
            &&& r.0 == 204 ==> forall|j: Seq<u8>|
                j != body@.take(i) && old(store).resolved(j) is Some ==> final(store).resolved(j)
                    == old(store).resolved(j)
            &&& r.0 == 204 ==> final(store).wal.current_size == (if old(store).wal_rotation_due(
                elen as int,
            ) {
                0int
            } else {
                old(store).wal.current_size + elen
            })
            &&& r.1@ == Seq::<u8>::empty()
        },
{
    match parse_kv(body) {
        Some(kv) => {
            let (key, value) = kv;
            proof {
                lemma_split_index_range(body@);
                assert(key@.len() + value@.len() + 1 == body@.len());
            }
            match store.insert(key, value) {
                Ok(()) => (204, Vec::new()),
                Err(_) => (500, Vec::new()),
            }
        },
        None => (400, malformed_post_reply()),
    }
}

/// Decide a read: 200 with the value bytes on a hit, 404 with an empty
/// body on a miss or tombstone.
pub fn handle_get(store: &Lsm, key: Vec<u8>) -> (r: (u16, Vec<u8>))
    requires
        store.wf(),
    ensures
        store.resolved(key@) is Some ==> r.0 == 200 && Some(r.1@) == store.resolved(key@),
        store.resolved(key@) is None ==> r.0 == 404 && r.1@ == Seq::<u8>::empty(),
{
    match store.get(key) {
        Some(v) => (200, v),
        None => (404, Vec::new()),
    }
}

/// Decide a deletion: record the tombstone and earn 204.
pub fn handle_delete(store: &mut Lsm, key: Vec<u8>) -> (r: u16)
    requires
        old(store).wf(),
        old(store).wal.current_size + 10 + key@.len() <= u64::MAX,
    ensures
        final(store).wf(),
        r == 204,
        final(store).resolved(key@) is None,
        forall|j: Seq<u8>| j != key@ ==> final(store).resolved(j) == old(store).resolved(j),
{
    match store.delete(key) {
        Ok(()) => 204,
        Err(_) => vstd::pervasive::unreached(),
    }
}

} // verus!
