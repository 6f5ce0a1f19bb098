//! File names of the store, as byte strings.
//!
//! A WAL segment lives in `<id>.wal`, a flushed memtable in
//! `sstable-<memtable-id>`, a compacted file in `l2-<l2-id>`, each id written
//! in decimal.

use vstd::prelude::*;

verus! {

/// The decimal digits of `n`, most significant first, no leading zeroes.
pub open spec fn dec_digits(n: u64) -> Seq<u8>
    decreases n,
{
    if n < 10 {
        seq![(48 + n) as u8]
    } else {
        dec_digits(n / 10) + seq![(48 + (n % 10)) as u8]
    }
}

/// Append the decimal digits of `n` to `out`.
pub fn push_dec(n: u64, out: &mut Vec<u8>)
    ensures
        final(out)@ == old(out)@ + dec_digits(n),
    decreases n,
{
    if n < 10 {
        out.push((48 + n) as u8);
        assert(out@ =~= old(out)@ + dec_digits(n));
    } else {
        push_dec(n / 10, out);
        out.push((48 + (n % 10)) as u8);
        assert(out@ =~= old(out)@ + dec_digits(n));
    }
}

/// The name of a WAL segment file: `<id>.wal`.
pub open spec fn segment_file_name(id: u64) -> Seq<u8> {
    dec_digits(id) + seq![46u8, 119u8, 97u8, 108u8]
}

/// The name of a flushed table file: `sstable-<id>`.
pub open spec fn sstable_file_name(id: u64) -> Seq<u8> {
    seq![115u8, 115u8, 116u8, 97u8, 98u8, 108u8, 101u8, 45u8] + dec_digits(id)
}

/// The name of a compacted file: `l2-<id>`.
pub open spec fn l2_file_name(id: u64) -> Seq<u8> {
    seq![108u8, 50u8, 45u8] + dec_digits(id)
}

/// Build the `<id>.wal` segment file name.
pub fn segment_name(id: u64) -> (r: Vec<u8>)
    ensures
        r@ == segment_file_name(id),
{
    let mut out: Vec<u8> = Vec::new();
    push_dec(id, &mut out);
    out.push(46);
    out.push(119);
    out.push(97);
    out.push(108);
    assert(out@ =~= segment_file_name(id));
    out
}

/// Build the `sstable-<id>` table file name.
pub fn sstable_name(id: u64) -> (r: Vec<u8>)
    ensures
        r@ == sstable_file_name(id),
{
    let mut out: Vec<u8> = Vec::new();
    out.push(115);
    out.push(115);
    out.push(116);
    out.push(97);
    out.push(98);
    out.push(108);
    out.push(101);
    out.push(45);
    push_dec(id, &mut out);
    assert(out@ =~= sstable_file_name(id));
    out
}

/// Build the `l2-<id>` compacted file name.
pub fn l2_name(id: u64) -> (r: Vec<u8>)
    ensures
        r@ == l2_file_name(id),
{
    let mut out: Vec<u8> = Vec::new();
    out.push(108);
    out.push(50);
    out.push(45);
    push_dec(id, &mut out);
    assert(out@ =~= l2_file_name(id));
    out
}

} // verus!
