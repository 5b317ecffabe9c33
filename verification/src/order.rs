//! Byte-wise (unsigned) lexicographic order on keys.
//!
//! Keys are opaque byte sequences ordered lexicographically; `"key10"` sorts
//! before `"key2"`.  `lex_lt` is the specification-level order, `lex_cmp` the
//! executable three-way comparison, and the lemmas establish that `lex_lt`
//! is a strict total order.

use vstd::prelude::*;

verus! {

/// Result of a three-way key comparison.
#[derive(Clone, Copy, PartialEq, Eq, Structural, Debug)]
pub enum KeyCmp {
    Lt,
    Eq,
    Gt,
}

/// `a` comes strictly before `b` in byte-wise lexicographic order.
pub open spec fn lex_lt(a: Seq<u8>, b: Seq<u8>) -> bool
    decreases a.len(),
{
    if b.len() == 0 {
        false
    } else if a.len() == 0 {
        true
    } else if a[0] < b[0] {
        true
    } else if a[0] > b[0] {
        false
    } else {
        lex_lt(a.skip(1), b.skip(1))
    }
}

/// If `a` and `b` agree strictly before position `i` and `a[i] < b[i]`,
/// then `a` sorts before `b`.
pub proof fn lemma_lex_lt_from_index(a: Seq<u8>, b: Seq<u8>, i: int)
    requires
        0 <= i < a.len(),
        i < b.len(),
        forall|j: int| 0 <= j < i ==> a[j] == b[j],
        a[i] < b[i],
    ensures
        lex_lt(a, b),
    decreases i,
{
    if i > 0 {
        lemma_lex_lt_from_index(a.skip(1), b.skip(1), i - 1);
    }
}

/// A strict prefix sorts before the longer sequence.
pub proof fn lemma_lex_lt_from_prefix(a: Seq<u8>, b: Seq<u8>)
    requires
        a.len() < b.len(),
        forall|j: int| 0 <= j < a.len() ==> a[j] == b[j],
    ensures
        lex_lt(a, b),
    decreases a.len(),
{
    if a.len() > 0 {
        lemma_lex_lt_from_prefix(a.skip(1), b.skip(1));
    }
}

/// Exactly one of `lex_lt(a, b)`, `a == b`, `lex_lt(b, a)` holds.
pub proof fn lemma_lex_trichotomy(a: Seq<u8>, b: Seq<u8>)
    ensures
        lex_lt(a, b) || lex_lt(b, a) || a == b,
        lex_lt(a, b) ==> !lex_lt(b, a),
        lex_lt(a, b) ==> a != b,
        lex_lt(b, a) ==> a != b,
    decreases a.len(),
{
    if a.len() > 0 && b.len() > 0 && a[0] == b[0] {
        lemma_lex_trichotomy(a.skip(1), b.skip(1));
        if a.skip(1) == b.skip(1) {
            assert forall|i: int| 0 <= i < a.len() implies a[i] == b[i] by {
                if i > 0 {
                    assert(a.skip(1)[i - 1] == b.skip(1)[i - 1]);
                }
            }
            assert(a =~= b);
        }
        if a == b {
            assert(a.skip(1) =~= b.skip(1));
        }
    }
}

/// The order is transitive.
pub proof fn lemma_lex_transitive(a: Seq<u8>, b: Seq<u8>, c: Seq<u8>)
    requires
        lex_lt(a, b),
        lex_lt(b, c),
    ensures
        lex_lt(a, c),
    decreases a.len(),
{
    if a.len() > 0 && b.len() > 0 && c.len() > 0 && a[0] == b[0] && b[0] == c[0] {
        lemma_lex_transitive(a.skip(1), b.skip(1), c.skip(1));
    }
}

/// Three-way comparison of two byte strings under the lexicographic order.
pub fn lex_cmp(a: &[u8], b: &[u8]) -> (r: KeyCmp)
    ensures
        r == KeyCmp::Lt <==> lex_lt(a@, b@),
        r == KeyCmp::Gt <==> lex_lt(b@, a@),
        r == KeyCmp::Eq <==> a@ == b@,
{
    proof {
        lemma_lex_trichotomy(a@, b@);
    }
    let a_len = a.len();
    let b_len = b.len();
    let n = if a_len < b_len {
        a_len
    } else {
        b_len
    };
    let mut i: usize = 0;
    while i < n
        invariant
            0 <= i <= n,
            n <= a@.len(),
            n <= b@.len(),
            n == a@.len() || n == b@.len(),
            forall|j: int| 0 <= j < i ==> a@[j] == b@[j],
        decreases n - i,
    {
        let x = a[i];
        let y = b[i];
        if x < y {
            proof {
                lemma_lex_lt_from_index(a@, b@, i as int);
                lemma_lex_trichotomy(a@, b@);
            }
            return KeyCmp::Lt;
        }
        if x > y {
            proof {
                lemma_lex_lt_from_index(b@, a@, i as int);
                lemma_lex_trichotomy(a@, b@);
            }
            return KeyCmp::Gt;
        }
        i = i + 1;
    }
    if a_len < b_len {
        proof {
            lemma_lex_lt_from_prefix(a@, b@);
            lemma_lex_trichotomy(a@, b@);
        }
        KeyCmp::Lt
    } else if a_len > b_len {
        proof {
            lemma_lex_lt_from_prefix(b@, a@);
            lemma_lex_trichotomy(a@, b@);
        }
        KeyCmp::Gt
    } else {
        proof {
            assert(a@ =~= b@);
            lemma_lex_trichotomy(a@, b@);
        }
        KeyCmp::Eq
    }
}

/// Byte-string equality.
pub fn bytes_eq(a: &[u8], b: &[u8]) -> (r: bool)
    ensures
        r <==> a@ == b@,
{
    match lex_cmp(a, b) {
        KeyCmp::Eq => true,
        _ => {
            proof {
                lemma_lex_trichotomy(a@, b@);
            }
            false
        },
    }
}

} // verus!
