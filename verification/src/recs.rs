//! Sorted key-value record lists.
//!
//! Both the memtable and the records of an SST are lists of `(key, value)`
//! pairs whose keys are strictly increasing in the byte-wise lexicographic
//! order.  `assoc` is the specification-level lookup; `find` is the
//! executable binary search over such a list, and `map_insert` the ordered
//! insert-or-overwrite used by the memtable.

use vstd::prelude::*;

use crate::order::{lex_cmp, lex_lt, KeyCmp};
use crate::order::{lemma_lex_transitive, lemma_lex_trichotomy};

verus! {

/// The mathematical image of a record list: each key and value as a byte
/// sequence.
pub open spec fn recs_view(rs: Seq<(Vec<u8>, Vec<u8>)>) -> Seq<(Seq<u8>, Seq<u8>)> {
    Seq::new(rs.len(), |i: int| (rs[i].0@, rs[i].1@))
}

/// Keys are strictly increasing.
pub open spec fn keys_sorted(rs: Seq<(Seq<u8>, Seq<u8>)>) -> bool {
    forall|i: int, j: int| 0 <= i < j < rs.len() ==> lex_lt(rs[i].0, rs[j].0)
}

/// Every record fits the SST format's length fields: a key of at most
/// 65 535 bytes and a value of at most 4 294 967 295 bytes.
pub open spec fn recs_fit(rs: Seq<(Seq<u8>, Seq<u8>)>) -> bool {
    forall|i: int|
        0 <= i < rs.len() ==> {
            &&& (#[trigger] rs[i]).0.len() <= 0xFFFF
            &&& rs[i].1.len() <= 0xFFFFFFFF
        }
}

/// Every record fits the SST format and carries a nonempty key and value,
/// as the data model asks.
pub open spec fn recs_bounded(rs: Seq<(Seq<u8>, Seq<u8>)>) -> bool {
    forall|i: int|
        0 <= i < rs.len() ==> {
            &&& 1 <= (#[trigger] rs[i]).0.len() <= 0xFFFF
            &&& 1 <= rs[i].1.len() <= 0xFFFFFFFF
        }
}

/// `recs_bounded` implies `recs_fit`.
pub proof fn lemma_bounded_fit(rs: Seq<(Seq<u8>, Seq<u8>)>)
    requires
        recs_bounded(rs),
    ensures
        recs_fit(rs),
{
}

/// Some record carries the key `q`.
pub open spec fn has_key(rs: Seq<(Seq<u8>, Seq<u8>)>, q: Seq<u8>) -> bool {
    exists|i: int| 0 <= i < rs.len() && rs[i].0 == q
}

/// The value of the first record carrying the key `q`, if any.
pub open spec fn assoc(rs: Seq<(Seq<u8>, Seq<u8>)>, q: Seq<u8>) -> Option<Seq<u8>>
    decreases rs.len(),
{
    if rs.len() == 0 {
        None
    } else if rs[0].0 == q {
        Some(rs[0].1)
    } else {
        assoc(rs.skip(1), q)
    }
}

/// A strictly sorted list stays strictly sorted when its head is dropped.
pub proof fn lemma_sorted_skip1(rs: Seq<(Seq<u8>, Seq<u8>)>)
    requires
        keys_sorted(rs),
        rs.len() > 0,
    ensures
        keys_sorted(rs.skip(1)),
{
    assert forall|i: int, j: int| 0 <= i < j < rs.skip(1).len() implies lex_lt(
        rs.skip(1)[i].0,
        rs.skip(1)[j].0,
    ) by {
        assert(rs.skip(1)[i] == rs[i + 1]);
        assert(rs.skip(1)[j] == rs[j + 1]);
    }
}

/// `assoc` returns `None` exactly when no record carries the key.
pub proof fn lemma_assoc_none(rs: Seq<(Seq<u8>, Seq<u8>)>, q: Seq<u8>)
    ensures
        assoc(rs, q) is None <==> !has_key(rs, q),
    decreases rs.len(),
{
    if rs.len() > 0 {
        lemma_assoc_none(rs.skip(1), q);
        if rs[0].0 != q {
            if has_key(rs, q) {
                let i = choose|i: int| 0 <= i < rs.len() && rs[i].0 == q;
                assert(rs.skip(1)[i - 1] == rs[i]);
                assert(has_key(rs.skip(1), q));
            }
            if has_key(rs.skip(1), q) {
                let i = choose|i: int| 0 <= i < rs.skip(1).len() && rs.skip(1)[i].0 == q;
                assert(rs.skip(1)[i] == rs[i + 1]);
                assert(has_key(rs, q));
            }
        }
    }
}

/// If record `i` of a sorted list carries the key `q`, `assoc` returns its
/// value.
pub proof fn lemma_assoc_found(rs: Seq<(Seq<u8>, Seq<u8>)>, q: Seq<u8>, i: int)
    requires
        keys_sorted(rs),
        0 <= i < rs.len(),
        rs[i].0 == q,
    ensures
        assoc(rs, q) == Some(rs[i].1),
    decreases rs.len(),
{
    if i == 0 {
    } else {
        lemma_lex_trichotomy(rs[0].0, rs[i].0);
        lemma_sorted_skip1(rs);
        assert(rs.skip(1)[i - 1] == rs[i]);
        lemma_assoc_found(rs.skip(1), q, i - 1);
    }
}

/// Binary search: the position of the key `k` in a sorted record list.
pub fn find(entries: &Vec<(Vec<u8>, Vec<u8>)>, k: &[u8]) -> (r: Option<usize>)
    requires
        keys_sorted(recs_view(entries@)),
    ensures
        match r {
            Some(i) => i < entries@.len() && entries@[i as int].0@ == k@,
            None => !has_key(recs_view(entries@), k@),
        },
{
    let ghost rs = recs_view(entries@);
    let mut start: usize = 0;
    let mut end: usize = entries.len();
    while start < end
        invariant
            0 <= start <= end <= entries@.len(),
            rs == recs_view(entries@),
            keys_sorted(rs),
            forall|i: int| 0 <= i < rs.len() && (#[trigger] rs[i]).0 == k@ ==> start <= i < end,
        decreases end - start,
    {
        let mid = start + (end - start) / 2;
        let pair: &(Vec<u8>, Vec<u8>) = &entries[mid];
        match lex_cmp(k, pair.0.as_slice()) {
            KeyCmp::Lt => {
                proof {
                    assert forall|i: int|
                        0 <= i < rs.len() && (#[trigger] rs[i]).0 == k@ implies i < mid by {
                        if i >= mid {
                            if i > mid {
                                assert(lex_lt(rs[mid as int].0, rs[i].0));
                            }
                            lemma_lex_trichotomy(k@, rs[mid as int].0);
                            if i > mid {
                                lemma_lex_transitive(rs[i].0, k@, rs[i].0);
                            }
                        }
                    }
                }
                end = mid;
            },
            KeyCmp::Gt => {
                proof {
                    assert forall|i: int|
                        0 <= i < rs.len() && (#[trigger] rs[i]).0 == k@ implies i > mid by {
                        if i <= mid {
                            if i < mid {
                                assert(lex_lt(rs[i].0, rs[mid as int].0));
                            }
                            lemma_lex_trichotomy(rs[mid as int].0, k@);
                            if i < mid {
                                lemma_lex_transitive(rs[i].0, rs[mid as int].0, rs[i].0);
                            }
                        }
                    }
                }
                start = mid + 1;
            },
            KeyCmp::Eq => {
                return Some(mid);
            },
        }
    }
    None
}

/// Insert a pair into a sorted record list, overwriting the value if the key
/// is already present.
pub fn map_insert(entries: &mut Vec<(Vec<u8>, Vec<u8>)>, k: Vec<u8>, v: Vec<u8>) -> (replaced:
    bool)
    requires
        keys_sorted(recs_view(old(entries)@)),
    ensures
        keys_sorted(recs_view(final(entries)@)),
        replaced == has_key(recs_view(old(entries)@), k@),
        forall|q: Seq<u8>| #[trigger]
            assoc(recs_view(final(entries)@), q) == if q == k@ {
                Some(v@)
            } else {
                assoc(recs_view(old(entries)@), q)
            },
        final(entries)@.len() == old(entries)@.len() + if replaced {
            0int
        } else {
            1int
        },
        forall|i: int|
            0 <= i < final(entries)@.len() ==> {
                let r = #[trigger] recs_view(final(entries)@)[i];
                (r.0 == k@ && r.1 == v@) || has_key_value(recs_view(old(entries)@), r.0, r.1)
            },
{
    let ghost rs0 = recs_view(entries@);
    let mut start: usize = 0;
    let mut end: usize = entries.len();
    while start < end
        invariant
            0 <= start <= end <= entries@.len(),
            entries@ == old(entries)@,
            rs0 == recs_view(entries@),
            keys_sorted(rs0),
            forall|i: int| 0 <= i < start ==> lex_lt((#[trigger] rs0[i]).0, k@),
            forall|i: int| end <= i < rs0.len() ==> lex_lt(k@, (#[trigger] rs0[i]).0),
        decreases end - start,
    {
        let mid = start + (end - start) / 2;
        let pair: &(Vec<u8>, Vec<u8>) = &entries[mid];
        match lex_cmp(k.as_slice(), pair.0.as_slice()) {
            KeyCmp::Lt => {
                proof {
                    assert forall|i: int| mid <= i < rs0.len() implies lex_lt(
                        k@,
                        (#[trigger] rs0[i]).0,
                    ) by {
                        if i > mid {
                            lemma_lex_transitive(k@, rs0[mid as int].0, rs0[i].0);
                        }
                    }
                }
                end = mid;
            },
            KeyCmp::Gt => {
                proof {
                    assert forall|i: int| 0 <= i <= mid implies lex_lt(
                        (#[trigger] rs0[i]).0,
                        k@,
                    ) by {
                        if i < mid {
                            lemma_lex_transitive(rs0[i].0, rs0[mid as int].0, k@);
                        }
                    }
                }
                start = mid + 1;
            },
            KeyCmp::Eq => {
                let ghost kq = k@;
                let ghost vq = v@;
                entries[mid] = (k, v);
                proof {
                    let rs1 = recs_view(entries@);
                    assert(rs0[mid as int].0 == kq);
                    assert(rs1 =~= rs0.update(mid as int, (kq, vq)));
                    assert forall|i: int, j: int| 0 <= i < j < rs1.len() implies lex_lt(
                        rs1[i].0,
                        rs1[j].0,
                    ) by {
                        assert(rs1[i].0 == rs0[i].0);
                        assert(rs1[j].0 == rs0[j].0);
                    }
                    assert(has_key(rs0, kq));
                    assert forall|q: Seq<u8>| #[trigger]
                        assoc(rs1, q) == if q == kq {
                            Some(vq)
                        } else {
                            assoc(rs0, q)
                        } by {
                        lemma_insert_pointwise(rs0, rs1, q, mid as int, kq, vq);
                    }
                    assert forall|i: int| 0 <= i < rs1.len() implies {
                        let r = #[trigger] rs1[i];
                        (r.0 == kq && r.1 == vq) || has_key_value(rs0, r.0, r.1)
                    } by {
                        if i != mid {
                            assert(rs0[i] == rs1[i]);
                        }
                    }
                }
                return true;
            },
        }
    }
    let ghost kq = k@;
    let ghost vq = v@;
    proof {
        if has_key(rs0, kq) {
            let i = choose|i: int| 0 <= i < rs0.len() && rs0[i].0 == kq;
            lemma_lex_trichotomy(rs0[i].0, kq);
        }
    }
    entries.insert(start, (k, v));
    proof {
        let rs1 = recs_view(entries@);
        assert(rs1 =~= rs0.take(start as int) + seq![(kq, vq)] + rs0.skip(start as int));
        assert forall|i: int, j: int| 0 <= i < j < rs1.len() implies lex_lt(
            rs1[i].0,
            rs1[j].0,
        ) by {
            lemma_insert_sorted_pair(rs0, rs1, start as int, kq, i, j);
        }
        assert forall|q: Seq<u8>| #[trigger]
            assoc(rs1, q) == if q == kq {
                Some(vq)
            } else {
                assoc(rs0, q)
            } by {
            lemma_insert_new_pointwise(rs0, rs1, q, start as int, kq, vq);
        }
        assert forall|i: int| 0 <= i < rs1.len() implies {
            let r = #[trigger] rs1[i];
            (r.0 == kq && r.1 == vq) || has_key_value(rs0, r.0, r.1)
        } by {
            if i < start {
                assert(rs0[i] == rs1[i]);
            } else if i > start {
                assert(rs0[i - 1] == rs1[i]);
            }
        }
    }
    false
}

/// Some record carries exactly this key and value.
pub open spec fn has_key_value(rs: Seq<(Seq<u8>, Seq<u8>)>, q: Seq<u8>, v: Seq<u8>) -> bool {
    exists|i: int| 0 <= i < rs.len() && rs[i] == (q, v)
}

/// The record `r` occurs in the list.
pub open spec fn has_rec(rs: Seq<(Seq<u8>, Seq<u8>)>, r: (Seq<u8>, Seq<u8>)) -> bool {
    exists|i: int| 0 <= i < rs.len() && rs[i] == r
}

/// In a sorted list, a key below the first key is absent.
pub proof fn lemma_assoc_below(rs: Seq<(Seq<u8>, Seq<u8>)>, q: Seq<u8>)
    requires
        keys_sorted(rs),
        rs.len() > 0,
        lex_lt(q, rs[0].0),
    ensures
        assoc(rs, q) is None,
{
    assert forall|i: int| 0 <= i < rs.len() implies (#[trigger] rs[i]).0 != q by {
        if i > 0 {
            lemma_lex_transitive(q, rs[0].0, rs[i].0);
        }
        lemma_lex_trichotomy(q, rs[i].0);
    }
    lemma_assoc_none(rs, q);
}

/// The raw lookup across a catalog of record lists, newest (the last) first.
pub open spec fn catalog_assoc(cat: Seq<Seq<(Seq<u8>, Seq<u8>)>>, q: Seq<u8>) -> Option<Seq<u8>>
    decreases cat.len(),
{
    if cat.len() == 0 {
        None
    } else {
        match assoc(cat.last(), q) {
            Some(v) => Some(v),
            None => catalog_assoc(cat.drop_last(), q),
        }
    }
}

/// The newest table that stores a key decides the catalog lookup: if table
/// `j` stores `v` for `k` and no newer table stores `k`, the lookup yields
/// `v`, whatever the older tables hold.
pub proof fn lemma_catalog_newest_wins(
    cat: Seq<Seq<(Seq<u8>, Seq<u8>)>>,
    k: Seq<u8>,
    j: int,
    v: Seq<u8>,
)
    requires
        0 <= j < cat.len(),
        assoc(cat[j], k) == Some(v),
        forall|m: int| j < m < cat.len() ==> assoc(#[trigger] cat[m], k) is None,
    ensures
        catalog_assoc(cat, k) == Some(v),
    decreases cat.len(),
{
    if j == cat.len() - 1 {
    } else {
        assert(cat.drop_last()[j] == cat[j]);
        assert forall|m: int| j < m < cat.drop_last().len() implies assoc(
            #[trigger] cat.drop_last()[m],
            k,
        ) is None by {
            assert(cat.drop_last()[m] == cat[m]);
        }
        lemma_catalog_newest_wins(cat.drop_last(), k, j, v);
    }
}

/// A catalog lookup over a concatenation consults the newer half first.
pub proof fn lemma_catalog_concat(
    a: Seq<Seq<(Seq<u8>, Seq<u8>)>>,
    b: Seq<Seq<(Seq<u8>, Seq<u8>)>>,
    q: Seq<u8>,
)
    ensures
        catalog_assoc(a + b, q) == match catalog_assoc(b, q) {
            Some(v) => Some(v),
            None => catalog_assoc(a, q),
        },
    decreases b.len(),
{
    if b.len() == 0 {
        assert(a + b =~= a);
    } else {
        lemma_catalog_concat(a, b.drop_last(), q);
        assert((a + b).last() == b.last());
        assert((a + b).drop_last() =~= a + b.drop_last());
    }
}

/// Two sorted runs concatenate to a sorted run when the first ends below
/// the second.
pub proof fn lemma_sorted_concat(a: Seq<(Seq<u8>, Seq<u8>)>, b: Seq<(Seq<u8>, Seq<u8>)>)
    requires
        keys_sorted(a),
        keys_sorted(b),
        a.len() > 0 && b.len() > 0 ==> lex_lt(a.last().0, b[0].0),
    ensures
        keys_sorted(a + b),
{
    let c = a + b;
    assert forall|i: int, j: int| 0 <= i < j < c.len() implies lex_lt(c[i].0, c[j].0) by {
        if i < a.len() && j < a.len() {
            assert(c[i] == a[i] && c[j] == a[j]);
        } else if i >= a.len() {
            assert(c[i] == b[i - a.len()] && c[j] == b[j - a.len()]);
        } else {
            assert(c[i] == a[i] && c[j] == b[j - a.len()]);
            if i < a.len() - 1 {
                assert(lex_lt(a[i].0, a.last().0));
            }
            if j > a.len() {
                assert(lex_lt(b[0].0, b[j - a.len()].0));
                lemma_lex_transitive(a.last().0, b[0].0, b[j - a.len()].0);
            }
            if i < a.len() - 1 {
                lemma_lex_transitive(a[i].0, a.last().0, c[j].0);
            }
        }
    }
}

/// In a list whose adjacent keys increase, any earlier key is below any
/// later one.
pub proof fn lemma_lt_span(rs: Seq<(Seq<u8>, Seq<u8>)>, i: int, j: int)
    requires
        forall|m: int| 0 <= m < rs.len() - 1 ==> lex_lt((#[trigger] rs[m]).0, rs[m + 1].0),
        0 <= i < j < rs.len(),
    ensures
        lex_lt(rs[i].0, rs[j].0),
    decreases j - i,
{
    if j == i + 1 {
    } else {
        lemma_lt_span(rs, i, j - 1);
        lemma_lex_transitive(rs[i].0, rs[j - 1].0, rs[j].0);
    }
}

/// A list whose adjacent keys increase is sorted.
pub proof fn lemma_adjacent_sorted(rs: Seq<(Seq<u8>, Seq<u8>)>)
    requires
        forall|m: int| 0 <= m < rs.len() - 1 ==> lex_lt((#[trigger] rs[m]).0, rs[m + 1].0),
    ensures
        keys_sorted(rs),
{
    assert forall|i: int, j: int| 0 <= i < j < rs.len() implies lex_lt(rs[i].0, rs[j].0) by {
        lemma_lt_span(rs, i, j);
    }
}

proof fn lemma_insert_pointwise(
    rs0: Seq<(Seq<u8>, Seq<u8>)>,
    rs1: Seq<(Seq<u8>, Seq<u8>)>,
    q: Seq<u8>,
    m: int,
    kq: Seq<u8>,
    vq: Seq<u8>,
)
    requires
        keys_sorted(rs0),
        0 <= m < rs0.len(),
        rs0[m].0 == kq,
        rs1 == rs0.update(m, (kq, vq)),
    ensures
        assoc(rs1, q) == if q == kq {
            Some(vq)
        } else {
            assoc(rs0, q)
        },
{
    assert(keys_sorted(rs1));
    if q == kq {
        lemma_assoc_found(rs1, q, m);
    } else {
        lemma_assoc_none(rs0, q);
        lemma_assoc_none(rs1, q);
        if has_key(rs0, q) {
            let i = choose|i: int| 0 <= i < rs0.len() && rs0[i].0 == q;
            assert(i != m);
            assert(rs1[i] == rs0[i]);
            lemma_assoc_found(rs0, q, i);
            lemma_assoc_found(rs1, q, i);
        } else {
            assert forall|i: int| 0 <= i < rs1.len() implies (#[trigger] rs1[i]).0 != q by {
                if i != m {
                    assert(rs1[i] == rs0[i]);
                }
            }
            assert(!has_key(rs1, q));
        }
    }
}

proof fn lemma_insert_sorted_pair(
    rs0: Seq<(Seq<u8>, Seq<u8>)>,
    rs1: Seq<(Seq<u8>, Seq<u8>)>,
    p: int,
    kq: Seq<u8>,
    i: int,
    j: int,
)
    requires
        keys_sorted(rs0),
        0 <= p <= rs0.len(),
        forall|i: int| 0 <= i < p ==> lex_lt((#[trigger] rs0[i]).0, kq),
        forall|i: int| p <= i < rs0.len() ==> lex_lt(kq, (#[trigger] rs0[i]).0),
        rs1.len() == rs0.len() + 1,
        forall|i: int| 0 <= i < p ==> #[trigger] rs1[i] == rs0[i],
        rs1[p] == (kq, Seq::<u8>::empty()) || rs1[p].0 == kq,
        forall|i: int| p < i < rs1.len() ==> #[trigger] rs1[i] == rs0[i - 1],
        0 <= i < j < rs1.len(),
    ensures
        lex_lt(rs1[i].0, rs1[j].0),
{
    if i < p && j < p {
    } else if i < p && j == p {
    } else if i < p && j > p {
        lemma_lex_transitive(rs1[i].0, kq, rs1[j].0);
    } else if i == p {
    } else {
    }
}

proof fn lemma_insert_new_pointwise(
    rs0: Seq<(Seq<u8>, Seq<u8>)>,
    rs1: Seq<(Seq<u8>, Seq<u8>)>,
    q: Seq<u8>,
    p: int,
    kq: Seq<u8>,
    vq: Seq<u8>,
)
    requires
        keys_sorted(rs0),
        keys_sorted(rs1),
        !has_key(rs0, kq),
        0 <= p <= rs0.len(),
        rs1.len() == rs0.len() + 1,
        forall|i: int| 0 <= i < p ==> #[trigger] rs1[i] == rs0[i],
        rs1[p] == (kq, vq),
        forall|i: int| p < i < rs1.len() ==> #[trigger] rs1[i] == rs0[i - 1],
    ensures
        assoc(rs1, q) == if q == kq {
            Some(vq)
        } else {
            assoc(rs0, q)
        },
{
    if q == kq {
        lemma_assoc_found(rs1, q, p);
    } else {
        lemma_assoc_none(rs0, q);
        lemma_assoc_none(rs1, q);
        if has_key(rs0, q) {
            let i = choose|i: int| 0 <= i < rs0.len() && rs0[i].0 == q;
            if i < p {
                lemma_assoc_found(rs0, q, i);
                lemma_assoc_found(rs1, q, i);
            } else {
                assert(rs1[i + 1] == rs0[i]);
                lemma_assoc_found(rs0, q, i);
                lemma_assoc_found(rs1, q, i + 1);
            }
        } else {
            assert forall|i: int| 0 <= i < rs1.len() implies (#[trigger] rs1[i]).0 != q by {
                if i < p {
                    assert(rs1[i] == rs0[i]);
                } else if i > p {
                    assert(rs1[i] == rs0[i - 1]);
                }
            }
            assert(!has_key(rs1, q));
        }
    }
}

} // verus!
