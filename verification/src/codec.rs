//! Binary framing of write-ahead-log records.
//!
//! A record is either an insertion of a key/value pair or a deletion of a
//! key.  On disk it is framed as: a one-byte marker, the key length as an
//! 8-byte big-endian integer, the key bytes, for insertions the value length
//! and value bytes in the same shape, and a final newline terminator.

use vstd::prelude::*;

use crate::keys::bytes_eq;

verus! {

/// Marker byte that opens an insertion frame.
pub const WAL_INSERT_MARKER: u8 = 0;

/// Marker byte that opens a deletion frame.
pub const WAL_DELETE_MARKER: u8 = 1;

/// Terminator byte that closes every frame.
pub const WAL_FRAME_TERMINATOR: u8 = 10;

/// The big-endian bytes of a 64-bit integer, most significant first.
pub open spec fn be64(n: u64) -> Seq<u8> {
    seq![
        ((n >> 56) & 0xff) as u8,
        ((n >> 48) & 0xff) as u8,
        ((n >> 40) & 0xff) as u8,
        ((n >> 32) & 0xff) as u8,
        ((n >> 24) & 0xff) as u8,
        ((n >> 16) & 0xff) as u8,
        ((n >> 8) & 0xff) as u8,
        (n & 0xff) as u8,
    ]
}

/// The 64-bit integer denoted by 8 big-endian bytes.
pub open spec fn be64_val(b: Seq<u8>) -> u64
    recommends
        b.len() == 8,
{
    (((b[0] as u64) << 56) | ((b[1] as u64) << 48) | ((b[2] as u64) << 40) | ((b[3] as u64) << 32)
        | ((b[4] as u64) << 24) | ((b[5] as u64) << 16) | ((b[6] as u64) << 8) | (b[7] as u64)) as u64
}

/// Reading back the big-endian bytes of an integer yields the integer.
pub proof fn lemma_be64_round_trip(n: u64)
    ensures
        be64_val(be64(n)) == n,
{
    let b = be64(n);
    assert(((((((n >> 56) & 0xff) as u8) as u64) << 56)
        | (((((n >> 48) & 0xff) as u8) as u64) << 48)
        | (((((n >> 40) & 0xff) as u8) as u64) << 40)
        | (((((n >> 32) & 0xff) as u8) as u64) << 32)
        | (((((n >> 24) & 0xff) as u8) as u64) << 24)
        | (((((n >> 16) & 0xff) as u8) as u64) << 16)
        | (((((n >> 8) & 0xff) as u8) as u64) << 8)
        | (((n & 0xff) as u8) as u64)) == n) by (bit_vector);
}

/// Writing out the integer denoted by 8 bytes yields the same 8 bytes.
pub proof fn lemma_be64_val_inverse(s: Seq<u8>)
    requires
        s.len() == 8,
    ensures
        be64(be64_val(s)) == s,
{
    let b0 = s[0];
    let b1 = s[1];
    let b2 = s[2];
    let b3 = s[3];
    let b4 = s[4];
    let b5 = s[5];
    let b6 = s[6];
    let b7 = s[7];
    let n = be64_val(s);
    assert(n == (((b0 as u64) << 56) | ((b1 as u64) << 48) | ((b2 as u64) << 40)
        | ((b3 as u64) << 32) | ((b4 as u64) << 24) | ((b5 as u64) << 16) | ((b6 as u64) << 8)
        | (b7 as u64)) as u64);
    assert({
        let m = (((b0 as u64) << 56) | ((b1 as u64) << 48) | ((b2 as u64) << 40)
            | ((b3 as u64) << 32) | ((b4 as u64) << 24) | ((b5 as u64) << 16)
            | ((b6 as u64) << 8) | (b7 as u64)) as u64;
        &&& ((m >> 56) & 0xff) as u8 == b0
        &&& ((m >> 48) & 0xff) as u8 == b1
        &&& ((m >> 40) & 0xff) as u8 == b2
        &&& ((m >> 32) & 0xff) as u8 == b3
        &&& ((m >> 24) & 0xff) as u8 == b4
        &&& ((m >> 16) & 0xff) as u8 == b5
        &&& ((m >> 8) & 0xff) as u8 == b6
        &&& (m & 0xff) as u8 == b7
    }) by (bit_vector);
    assert(be64(n) =~= s);
}

/// Append the big-endian bytes of `n` to `buf`.
fn push_be64(buf: &mut Vec<u8>, n: u64)
    ensures
        final(buf)@ == old(buf)@ + be64(n),
{
    buf.push(((n >> 56) & 0xff) as u8);
    buf.push(((n >> 48) & 0xff) as u8);
    buf.push(((n >> 40) & 0xff) as u8);
    buf.push(((n >> 32) & 0xff) as u8);
    buf.push(((n >> 24) & 0xff) as u8);
    buf.push(((n >> 16) & 0xff) as u8);
    buf.push(((n >> 8) & 0xff) as u8);
    buf.push((n & 0xff) as u8);
    assert(buf@ =~= old(buf)@ + be64(n));
}

/// Read a big-endian 64-bit integer at `start`.
fn read_be64(buf: &Vec<u8>, start: usize) -> (n: u64)
    requires
        start + 8 <= buf.len(),
    ensures
        n == be64_val(buf@.subrange(start as int, start as int + 8)),
{
    let n = ((buf[start] as u64) << 56) | ((buf[start + 1] as u64) << 48)
        | ((buf[start + 2] as u64) << 40) | ((buf[start + 3] as u64) << 32)
        | ((buf[start + 4] as u64) << 24) | ((buf[start + 5] as u64) << 16)
        | ((buf[start + 6] as u64) << 8) | (buf[start + 7] as u64);
    proof {
        let s = buf@.subrange(start as int, start as int + 8);
        assert(s[0] == buf@[start as int]);
        assert(s[1] == buf@[start as int + 1]);
        assert(s[2] == buf@[start as int + 2]);
        assert(s[3] == buf@[start as int + 3]);
        assert(s[4] == buf@[start as int + 4]);
        assert(s[5] == buf@[start as int + 5]);
        assert(s[6] == buf@[start as int + 6]);
        assert(s[7] == buf@[start as int + 7]);
    }
    n
}

/// A logical write-ahead-log record: insert a key/value pair or delete a key.
#[derive(Debug)]
pub enum WalEntry {
    Put { key: Vec<u8>, value: Vec<u8> },
    Delete { key: Vec<u8> },
}

/// The mathematical shape of a record: byte sequences instead of vectors.
pub enum EntryModel {
    Put { key: Seq<u8>, value: Seq<u8> },
    Delete { key: Seq<u8> },
}

impl View for WalEntry {
    type V = EntryModel;

    open spec fn view(&self) -> EntryModel {
        match self {
            WalEntry::Put { key, value } => EntryModel::Put { key: key@, value: value@ },
            WalEntry::Delete { key } => EntryModel::Delete { key: key@ },
        }
    }
}

impl Clone for WalEntry {
    fn clone(&self) -> (r: Self)
        ensures
            r@ == self@,
    {
        match self {
            WalEntry::Put { key, value } => WalEntry::Put { key: key.clone(), value: value.clone() },
            WalEntry::Delete { key } => WalEntry::Delete { key: key.clone() },
        }
    }
}

impl PartialEq for WalEntry {
    fn eq(&self, other: &Self) -> (r: bool) {
        match (self, other) {
            (WalEntry::Put { key: k1, value: v1 }, WalEntry::Put { key: k2, value: v2 }) => {
                bytes_eq(k1, k2) && bytes_eq(v1, v2)
            },
            (WalEntry::Delete { key: k1 }, WalEntry::Delete { key: k2 }) => bytes_eq(k1, k2),
            _ => false,
        }
    }
}

impl vstd::std_specs::cmp::PartialEqSpecImpl for WalEntry {
    open spec fn obeys_eq_spec() -> bool {
        true
    }

    open spec fn eq_spec(&self, other: &Self) -> bool {
        self@ == other@
    }
}

impl Eq for WalEntry {}

/// Keys and values carry their length as a 64-bit field, so a frame can only
/// hold what fits in one.
pub open spec fn entry_wf(e: EntryModel) -> bool {
    match e {
        EntryModel::Put { key, value } => key.len() <= u64::MAX && value.len() <= u64::MAX,
        EntryModel::Delete { key } => key.len() <= u64::MAX,
    }
}

/// Total length in bytes of the frame of `e`.
pub open spec fn entry_len(e: EntryModel) -> int {
    match e {
        EntryModel::Put { key, value } => 18 + key.len() as int + value.len() as int,
        EntryModel::Delete { key } => 10 + key.len() as int,
    }
}

/// The frame of a record: marker, big-endian lengths, bytes, terminator.
pub open spec fn encode_entry(e: EntryModel) -> Seq<u8> {
    match e {
        EntryModel::Put { key, value } => seq![WAL_INSERT_MARKER] + be64(key.len() as u64) + key
            + be64(value.len() as u64) + value + seq![WAL_FRAME_TERMINATOR],
        EntryModel::Delete { key } => seq![WAL_DELETE_MARKER] + be64(key.len() as u64) + key
            + seq![WAL_FRAME_TERMINATOR],
    }
}

/// Parse one frame at the front of `b`: the record and the number of bytes
/// the frame occupies, or nothing when no complete well-formed frame starts
/// at the front.
pub open spec fn parse_entry(b: Seq<u8>) -> Option<(EntryModel, int)> {
    if b.len() < 1 {
        None
    } else if b[0] == WAL_INSERT_MARKER {
        if b.len() < 9 {
            None
        } else {
            let klen = be64_val(b.subrange(1, 9)) as int;
            if b.len() < 17 + klen {
                None
            } else {
                let key = b.subrange(9, 9 + klen);
                let vlen = be64_val(b.subrange(9 + klen, 17 + klen)) as int;
                if b.len() < 18 + klen + vlen {
                    None
                } else {
                    let value = b.subrange(17 + klen, 17 + klen + vlen);
                    if b[17 + klen + vlen] != WAL_FRAME_TERMINATOR {
                        None
                    } else {
                        Some((EntryModel::Put { key, value }, 18 + klen + vlen))
                    }
                }
            }
        }
    } else if b[0] == WAL_DELETE_MARKER {
        if b.len() < 9 {
            None
        } else {
            let klen = be64_val(b.subrange(1, 9)) as int;
            if b.len() < 10 + klen {
                None
            } else {
                let key = b.subrange(9, 9 + klen);
                if b[9 + klen] != WAL_FRAME_TERMINATOR {
                    None
                } else {
                    Some((EntryModel::Delete { key }, 10 + klen))
                }
            }
        }
    } else {
        None
    }
}

/// A frame parses back to the record it was made from, also when more bytes
/// follow it; parsing consumes exactly the frame.
pub proof fn lemma_parse_encode_prefix(e: EntryModel, rest: Seq<u8>)
    requires
        entry_wf(e),
    ensures
        parse_entry(encode_entry(e) + rest) == Some((e, entry_len(e))),
{
    let b = encode_entry(e) + rest;
    match e {
        EntryModel::Put { key, value } => {
            let klen = key.len() as int;
            let vlen = value.len() as int;
            lemma_be64_round_trip(key.len() as u64);
            lemma_be64_round_trip(value.len() as u64);
            assert(b[0] == WAL_INSERT_MARKER);
            assert(b.subrange(1, 9) =~= be64(key.len() as u64));
            assert(be64_val(b.subrange(1, 9)) as int == klen);
            assert(b.subrange(9, 9 + klen) =~= key);
            assert(b.subrange(9 + klen, 17 + klen) =~= be64(value.len() as u64));
            assert(be64_val(b.subrange(9 + klen, 17 + klen)) as int == vlen);
            assert(b.subrange(17 + klen, 17 + klen + vlen) =~= value);
            assert(b[17 + klen + vlen] == WAL_FRAME_TERMINATOR);
        },
        EntryModel::Delete { key } => {
            let klen = key.len() as int;
            lemma_be64_round_trip(key.len() as u64);
            assert(b[0] == WAL_DELETE_MARKER);
            assert(b.subrange(1, 9) =~= be64(key.len() as u64));
            assert(be64_val(b.subrange(1, 9)) as int == klen);
            assert(b.subrange(9, 9 + klen) =~= key);
            assert(b[9 + klen] == WAL_FRAME_TERMINATOR);
        },
    }
}

/// Decoding inverts encoding: the round trip over a single frame.
pub proof fn lemma_decode_encode_round_trip(e: EntryModel)
    requires
        entry_wf(e),
    ensures
        parse_entry(encode_entry(e)) == Some((e, entry_len(e))),
{
    lemma_parse_encode_prefix(e, Seq::empty());
    assert(encode_entry(e) + Seq::<u8>::empty() =~= encode_entry(e));
}

/// Encoding inverts decoding: a byte sequence that parses as a frame begins
/// with exactly the frame of the parsed record.
pub proof fn lemma_encode_parse(b: Seq<u8>, e: EntryModel, n: int)
    requires
        parse_entry(b) == Some((e, n)),
    ensures
        entry_wf(e),
        entry_len(e) == n,
        0 < n <= b.len(),
        encode_entry(e) =~= b.subrange(0, n),
{
    match e {
        EntryModel::Put { key, value } => {
            let klen = be64_val(b.subrange(1, 9)) as int;
            let vlen = be64_val(b.subrange(9 + klen, 17 + klen)) as int;
            assert(key == b.subrange(9, 9 + klen));
            assert(value == b.subrange(17 + klen, 17 + klen + vlen));
            lemma_be64_val_inverse(b.subrange(1, 9));
            assert(key.len() as u64 == be64_val(b.subrange(1, 9)));
            assert(be64(key.len() as u64) == b.subrange(1, 9));
            lemma_be64_val_inverse(b.subrange(9 + klen, 17 + klen));
            assert(value.len() as u64 == be64_val(b.subrange(9 + klen, 17 + klen)));
            assert(be64(value.len() as u64) == b.subrange(9 + klen, 17 + klen));
        },
        EntryModel::Delete { key } => {
            let klen = be64_val(b.subrange(1, 9)) as int;
            assert(key == b.subrange(9, 9 + klen));
            lemma_be64_val_inverse(b.subrange(1, 9));
            assert(key.len() as u64 == be64_val(b.subrange(1, 9)));
            assert(be64(key.len() as u64) == b.subrange(1, 9));
        },
    }
}

impl WalEntry {
    /// The key the record is about.
    pub open spec fn key_model(self) -> Seq<u8> {
        match self@ {
            EntryModel::Put { key, value } => key,
            EntryModel::Delete { key } => key,
        }
    }

    /// Serialize the record into its frame.
    pub fn as_bytes(&self) -> (r: Vec<u8>)
        ensures
            r@ == encode_entry(self@),
    {
        let mut buf: Vec<u8> = Vec::new();
        match self {
            WalEntry::Put { key, value } => {
                buf.push(WAL_INSERT_MARKER);
                push_be64(&mut buf, key.len() as u64);
                buf.extend_from_slice(key.as_slice());
                push_be64(&mut buf, value.len() as u64);
                buf.extend_from_slice(value.as_slice());
                buf.push(WAL_FRAME_TERMINATOR);
                assert(buf@ =~= encode_entry(self@));
            },
            WalEntry::Delete { key } => {
                buf.push(WAL_DELETE_MARKER);
                push_be64(&mut buf, key.len() as u64);
                buf.extend_from_slice(key.as_slice());
                buf.push(WAL_FRAME_TERMINATOR);
                assert(buf@ =~= encode_entry(self@));
            },
        }
        buf
    }

    /// Deserialize one record from a buffer that begins with a complete
    /// well-formed frame, as steady-state readers of committed frames do.
    pub fn from_bytes(bytes: &Vec<u8>) -> (r: WalEntry)
        requires
            parse_entry(bytes@) is Some,
        ensures
            r@ == parse_entry(bytes@).unwrap().0,
    {
        let decoded = Self::decode_at(bytes, 0);
        proof {
            assert(bytes@.subrange(0, bytes@.len() as int) =~= bytes@);
        }
        match decoded {
            Some((entry, _)) => entry,
            None => vstd::pervasive::unreached(),
        }
    }

    /// Try to decode one frame starting at `start`; on success also return
    /// the offset just past the frame.  Returns nothing exactly when no
    /// complete well-formed frame starts there.
    pub fn decode_at(buf: &Vec<u8>, start: usize) -> (r: Option<(WalEntry, usize)>)
        requires
            start <= buf@.len(),
        ensures
            match r {
                Some((entry, next)) => {
                    &&& parse_entry(buf@.subrange(start as int, buf@.len() as int))
                        == Some((entry@, next - start))
                    &&& start < next <= buf@.len()
                },
                None => parse_entry(buf@.subrange(start as int, buf@.len() as int)) is None,
            },
    {
        let n = buf.len();
        let ghost tail = buf@.subrange(start as int, buf@.len() as int);
        if n - start < 1 {
            return None;
        }
        let marker = buf[start];
        assert(tail[0] == marker);
        if marker == WAL_INSERT_MARKER {
            if n - start < 9 {
                return None;
            }
            let klen64 = read_be64(buf, start + 1);
            proof {
                assert(buf@.subrange(start as int + 1, start as int + 9)
                    =~= tail.subrange(1, 9));
            }
            let rem = n - start - 9;
            if rem < 8 || klen64 > (rem - 8) as u64 {
                return None;
            }
            let klen = klen64 as usize;
            let key = copy_range(buf, start + 9, klen);
            let vlen64 = read_be64(buf, start + 9 + klen);
            proof {
                assert(buf@.subrange(start as int + 9 + klen as int, start as int + 17 + klen as int)
                    =~= tail.subrange(9 + klen as int, 17 + klen as int));
            }
            let rem2 = rem - 8 - klen;
            if vlen64 > rem2 as u64 || (rem2 as u64 - vlen64) < 1 {
                return None;
            }
            let vlen = vlen64 as usize;
            let value = copy_range(buf, start + 17 + klen, vlen);
            if buf[start + 17 + klen + vlen] != WAL_FRAME_TERMINATOR {
                return None;
            }
            proof {
                assert(key@ =~= tail.subrange(9, 9 + klen as int));
                assert(value@ =~= tail.subrange(17 + klen as int, 17 + klen as int + vlen as int));
                assert(tail[17 + klen as int + vlen as int] == WAL_FRAME_TERMINATOR);
            }
            Some((WalEntry::Put { key, value }, start + 18 + klen + vlen))
        } else if marker == WAL_DELETE_MARKER {
            if n - start < 9 {
                return None;
            }
            let klen64 = read_be64(buf, start + 1);
            proof {
                assert(buf@.subrange(start as int + 1, start as int + 9)
                    =~= tail.subrange(1, 9));
            }
            let rem = n - start - 9;
            if rem < 1 || klen64 > (rem - 1) as u64 {
                return None;
            }
            let klen = klen64 as usize;
            let key = copy_range(buf, start + 9, klen);
            if buf[start + 9 + klen] != WAL_FRAME_TERMINATOR {
                return None;
            }
            proof {
                assert(key@ =~= tail.subrange(9, 9 + klen as int));
                assert(tail[9 + klen as int] == WAL_FRAME_TERMINATOR);
            }
            Some((WalEntry::Delete { key }, start + 10 + klen))
        } else {
            None
        }
    }
}

/// The records framed one after another at the front of `b`, reading
/// greedily until the bytes stop parsing.  A truncated or damaged tail is
/// ignored, which is what tolerates a partial write at the end of a segment.
pub open spec fn replay_frames(b: Seq<u8>) -> Seq<EntryModel>
    decreases b.len(),
{
    match parse_entry(b) {
        None => Seq::empty(),
        Some((e, n)) => if 0 < n <= b.len() {
            seq![e] + replay_frames(b.skip(n))
        } else {
            Seq::empty()
        },
    }
}

/// A parsed frame always has a positive length within the buffer, so the
/// guard inside `replay_frames` never cuts a replay short.
pub proof fn lemma_replay_frames_unfold(b: Seq<u8>)
    requires
        parse_entry(b) is Some,
    ensures
        replay_frames(b) == seq![parse_entry(b).unwrap().0] + replay_frames(
            b.skip(parse_entry(b).unwrap().1),
        ),
{
    let (e, n) = parse_entry(b).unwrap();
    lemma_encode_parse(b, e, n);
}

/// The models of a sequence of records.
pub open spec fn entry_models(s: Seq<WalEntry>) -> Seq<EntryModel> {
    s.map_values(|e: WalEntry| e@)
}

/// The bytes of a sequence of records, framed one after another.
pub open spec fn frames_bytes(s: Seq<EntryModel>) -> Seq<u8>
    decreases s.len(),
{
    if s.len() == 0 {
        Seq::empty()
    } else {
        encode_entry(s[0]) + frames_bytes(s.skip(1))
    }
}

/// Record lengths that fit the frame format's 64-bit length fields.
pub open spec fn frames_wf(s: Seq<EntryModel>) -> bool {
    forall|i: int| 0 <= i < s.len() ==> entry_wf(#[trigger] s[i])
}

/// Framing a concatenation frames the parts one after the other.
pub proof fn lemma_frames_bytes_concat(a: Seq<EntryModel>, b: Seq<EntryModel>)
    ensures
        frames_bytes(a + b) == frames_bytes(a) + frames_bytes(b),
    decreases a.len(),
{
    if a.len() == 0 {
        assert(a + b =~= b);
        assert(frames_bytes(a) + frames_bytes(b) =~= frames_bytes(b));
    } else {
        lemma_frames_bytes_concat(a.skip(1), b);
        assert((a + b).skip(1) =~= a.skip(1) + b);
        assert((a + b)[0] == a[0]);
        assert(a + b =~= a + b);
        assert(frames_bytes(a + b) =~= frames_bytes(a) + frames_bytes(b));
    }
}

/// Every record a replay yields fits the frame format.
pub proof fn lemma_replay_frames_wf(b: Seq<u8>)
    ensures
        frames_wf(replay_frames(b)),
    decreases b.len(),
{
    match parse_entry(b) {
        None => {},
        Some((e, n)) => {
            lemma_encode_parse(b, e, n);
            lemma_replay_frames_wf(b.skip(n));
            let r = replay_frames(b);
            assert(r == seq![e] + replay_frames(b.skip(n)));
            assert forall|i: int| 0 <= i < r.len() implies entry_wf(#[trigger] r[i]) by {
                if i > 0 {
                    assert(r[i] == replay_frames(b.skip(n))[i - 1]);
                }
            }
        },
    }
}

impl WalEntry {
    /// Decode every record framed from `start` on, stopping cleanly at the
    /// end of the stream or at a damaged tail.
    pub fn decode_all(buf: &Vec<u8>, start: usize) -> (r: Vec<WalEntry>)
        requires
            start <= buf.len(),
        ensures
            entry_models(r@) == replay_frames(buf@.subrange(start as int, buf@.len() as int)),
    {
        let mut out: Vec<WalEntry> = Vec::new();
        let mut pos: usize = start;
        loop
            invariant
                start <= pos <= buf@.len(),
                entry_models(out@) + replay_frames(buf@.subrange(pos as int, buf@.len() as int))
                    == replay_frames(buf@.subrange(start as int, buf@.len() as int)),
            ensures
                entry_models(out@) == replay_frames(
                    buf@.subrange(start as int, buf@.len() as int),
                ),
            decreases buf@.len() - pos,
        {
            let ghost tail = buf@.subrange(pos as int, buf@.len() as int);
            match WalEntry::decode_at(buf, pos) {
                Some((entry, next)) => {
                    proof {
                        lemma_replay_frames_unfold(tail);
                        assert(tail.skip(next - pos) =~= buf@.subrange(
                            next as int,
                            buf@.len() as int,
                        ));
                        assert(entry_models(out@.push(entry)) =~= entry_models(out@)
                            + seq![entry@]);
                        assert(entry_models(out@) + (seq![entry@] + replay_frames(
                            buf@.subrange(next as int, buf@.len() as int),
                        )) =~= entry_models(out@.push(entry)) + replay_frames(
                            buf@.subrange(next as int, buf@.len() as int),
                        ));
                    }
                    out.push(entry);
                    pos = next;
                },
                None => {
                    proof {
                        assert(replay_frames(tail) =~= Seq::<EntryModel>::empty());
                        assert(entry_models(out@) + Seq::<EntryModel>::empty()
                            =~= entry_models(out@));
                    }
                    break;
                },
            }
        }
        out
    }
}

/// Copy `len` bytes of `buf` starting at `start` into a fresh vector.
pub(crate) fn copy_range(buf: &Vec<u8>, start: usize, len: usize) -> (r: Vec<u8>)
    requires
        start + len <= buf.len(),
    ensures
        r@ == buf@.subrange(start as int, start as int + len as int),
{
    let mut r: Vec<u8> = Vec::new();
    let mut i: usize = 0;
    while i < len
        invariant
            i <= len,
            start + len <= buf.len(),
            r@ == buf@.subrange(start as int, start as int + i as int),
        decreases len - i,
    {
        r.push(buf[start + i]);
        proof {
            assert(r@ =~= buf@.subrange(start as int, start as int + i as int + 1));
        }
        i = i + 1;
    }
    r
}

} // verus!
