//! Byte-string keys: equality and lexicographic order.
//!
//! Keys and values of the store are opaque byte strings.  Keys are compared
//! lexicographically; the on-disk tables keep their entries in that order.

use vstd::prelude::*;

verus! {

/// `a` comes strictly before `b` in lexicographic order, comparing from
/// position `i` on (the first `i` bytes are assumed equal by the caller).
pub open spec fn lex_lt_from(a: Seq<u8>, b: Seq<u8>, i: int) -> bool
    decreases a.len() - i,
{
    if i >= b.len() {
        false
    } else if i >= a.len() {
        true
    } else if a[i] < b[i] {
        true
    } else if a[i] > b[i] {
        false
    } else {
        lex_lt_from(a, b, i + 1)
    }
}

/// `a` comes strictly before `b` in lexicographic order.
pub open spec fn lex_lt(a: Seq<u8>, b: Seq<u8>) -> bool {
    lex_lt_from(a, b, 0)
}

/// Outcome of a three-way key comparison.
#[derive(Clone, Copy, Debug, PartialEq, Eq, Structural)]
pub enum KeyOrder {
    Less,
    Equal,
    Greater,
}

/// Lexicographic order is transitive from any common position.
proof fn lemma_lex_lt_from_trans(a: Seq<u8>, b: Seq<u8>, c: Seq<u8>, i: int)
    requires
        0 <= i,
        lex_lt_from(a, b, i),
        lex_lt_from(b, c, i),
    ensures
        lex_lt_from(a, c, i),
    decreases a.len() + b.len() + c.len() - 3 * i,
{
    if i >= c.len() {
        // lex_lt_from(b, c, i) would be false
        assert(false);
    } else if i >= a.len() {
    } else {
        // i < a.len(), i < c.len(); from lex_lt_from(a, b, i): i < b.len()
        if a[i] < b[i] {
            if b[i] < c[i] {
            } else if b[i] > c[i] {
                assert(false);
            } else {
            }
        } else if a[i] > b[i] {
            assert(false);
        } else {
            if b[i] < c[i] {
            } else if b[i] > c[i] {
                assert(false);
            } else {
                lemma_lex_lt_from_trans(a, b, c, i + 1);
            }
        }
    }
}

/// Lexicographic order is transitive.
pub proof fn lemma_lex_lt_trans(a: Seq<u8>, b: Seq<u8>, c: Seq<u8>)
    requires
        lex_lt(a, b),
        lex_lt(b, c),
    ensures
        lex_lt(a, c),
{
    lemma_lex_lt_from_trans(a, b, c, 0);
}

/// Strict lexicographic order is irreflexive.
pub proof fn lemma_lex_lt_irrefl(a: Seq<u8>)
    ensures
        !lex_lt(a, a),
{
    lemma_lex_lt_from_irrefl(a, 0);
}

proof fn lemma_lex_lt_from_irrefl(a: Seq<u8>, i: int)
    requires
        0 <= i,
    ensures
        !lex_lt_from(a, a, i),
    decreases a.len() - i,
{
    if i < a.len() {
        lemma_lex_lt_from_irrefl(a, i + 1);
    }
}

/// Byte-string equality.
pub fn bytes_eq(a: &Vec<u8>, b: &Vec<u8>) -> (r: bool)
    ensures
        r == (a@ == b@),
{
    if a.len() != b.len() {
        return false;
    }
    let n = a.len();
    let mut i: usize = 0;
    while i < n
        invariant
            n == a@.len() == b@.len(),
            i <= n,
            forall|j: int| 0 <= j < i ==> a@[j] == b@[j],
        decreases n - i,
    {
        if a[i] != b[i] {
            return false;
        }
        i = i + 1;
    }
    proof {
        assert(a@ =~= b@);
    }
    true
}

/// Three-way lexicographic comparison of two byte strings.
pub fn key_cmp(a: &Vec<u8>, b: &Vec<u8>) -> (r: KeyOrder)
    ensures
        (r == KeyOrder::Less) == lex_lt(a@, b@),
        (r == KeyOrder::Equal) == (a@ == b@),
        (r == KeyOrder::Greater) == lex_lt(b@, a@),
{
    let alen = a.len();
    let blen = b.len();
    let mut i: usize = 0;
    while i < alen && i < blen
        invariant
            alen == a@.len(),
            blen == b@.len(),
            i <= alen,
            i <= blen,
            forall|j: int| 0 <= j < i ==> a@[j] == b@[j],
            lex_lt(a@, b@) == lex_lt_from(a@, b@, i as int),
            lex_lt(b@, a@) == lex_lt_from(b@, a@, i as int),
        decreases alen - i,
    {
        let x = a[i];
        let y = b[i];
        if x < y {
            return KeyOrder::Less;
        }
        if x > y {
            return KeyOrder::Greater;
        }
        i = i + 1;
    }
    if alen < blen {
        KeyOrder::Less
    } else if alen > blen {
        KeyOrder::Greater
    } else {
        proof {
            assert(a@ =~= b@);
            lemma_lex_lt_irrefl(a@);
        }
        KeyOrder::Equal
    }
}

} // verus!
