//! Compaction: merging SSTs while newer entries win.
//!
//! `merge_two` merges an older and a newer table into one sorted run,
//! keeping the newer value — tombstone included — where a key occurs in
//! both.  `merge_sstables` merges a catalog's adjacent pairs left to right;
//! `sstable_compaction` repeats that until at most one table remains; and
//! `compaction` collapses a whole catalog into a single table, dropping
//! tombstones, which is sound only there because no older table survives
//! beneath the result.

use vstd::prelude::*;

use crate::order::{lex_cmp, lex_lt, lemma_lex_transitive, lemma_lex_trichotomy, KeyCmp};
use crate::recs::{
    assoc, catalog_assoc, has_rec, keys_sorted, lemma_assoc_below, lemma_sorted_skip1,
};
use crate::sstable::{all_wf, create_sstable, live_of, sst_views, SSTable};

verus! {

/// The merge of an older and a newer sorted run: ascending by key, the
/// newer run's record winning on equal keys.
pub open spec fn spec_merge(
    o: Seq<(Seq<u8>, Seq<u8>)>,
    n: Seq<(Seq<u8>, Seq<u8>)>,
) -> Seq<(Seq<u8>, Seq<u8>)>
    decreases o.len() + n.len(),
{
    if o.len() == 0 {
        n
    } else if n.len() == 0 {
        o
    } else if lex_lt(o[0].0, n[0].0) {
        seq![o[0]] + spec_merge(o.skip(1), n)
    } else if lex_lt(n[0].0, o[0].0) {
        seq![n[0]] + spec_merge(o, n.skip(1))
    } else {
        seq![n[0]] + spec_merge(o.skip(1), n.skip(1))
    }
}

/// The merge of two sorted runs is sorted, and every merged record comes
/// from one of the inputs.
pub proof fn lemma_merge_sorted(o: Seq<(Seq<u8>, Seq<u8>)>, n: Seq<(Seq<u8>, Seq<u8>)>)
    requires
        keys_sorted(o),
        keys_sorted(n),
    ensures
        keys_sorted(spec_merge(o, n)),
        forall|j: int|
            0 <= j < spec_merge(o, n).len() ==> has_rec(o, #[trigger] spec_merge(o, n)[j])
                || has_rec(n, spec_merge(o, n)[j]),
    decreases o.len() + n.len(),
{
    let m = spec_merge(o, n);
    if o.len() == 0 {
        assert forall|j: int| 0 <= j < m.len() implies has_rec(o, #[trigger] m[j]) || has_rec(
            n,
            m[j],
        ) by {
            assert(n[j] == m[j]);
        }
    } else if n.len() == 0 {
        assert forall|j: int| 0 <= j < m.len() implies has_rec(o, #[trigger] m[j]) || has_rec(
            n,
            m[j],
        ) by {
            assert(o[j] == m[j]);
        }
    } else {
        lemma_sorted_skip1(o);
        lemma_sorted_skip1(n);
        lemma_lex_trichotomy(o[0].0, n[0].0);
        lemma_lex_trichotomy(o[0].0, o[0].0);
        lemma_lex_trichotomy(n[0].0, n[0].0);
        if lex_lt(o[0].0, n[0].0) {
            lemma_merge_sorted(o.skip(1), n);
            let m1 = spec_merge(o.skip(1), n);
            lemma_merge_head(o, n, m1, o[0], o.skip(1), n);
        } else if lex_lt(n[0].0, o[0].0) {
            lemma_merge_sorted(o, n.skip(1));
            let m1 = spec_merge(o, n.skip(1));
            lemma_merge_head(o, n, m1, n[0], o, n.skip(1));
        } else {
            lemma_merge_sorted(o.skip(1), n.skip(1));
            let m1 = spec_merge(o.skip(1), n.skip(1));
            lemma_merge_head(o, n, m1, n[0], o.skip(1), n.skip(1));
        }
    }
}

/// Helper for `lemma_merge_sorted`: with the head record chosen and the
/// tails merged, the whole merge is sorted and drawn from the inputs.
proof fn lemma_merge_head(
    o: Seq<(Seq<u8>, Seq<u8>)>,
    n: Seq<(Seq<u8>, Seq<u8>)>,
    m1: Seq<(Seq<u8>, Seq<u8>)>,
    head: (Seq<u8>, Seq<u8>),
    ro: Seq<(Seq<u8>, Seq<u8>)>,
    rn: Seq<(Seq<u8>, Seq<u8>)>,
)
    requires
        keys_sorted(o),
        keys_sorted(n),
        o.len() > 0,
        n.len() > 0,
        spec_merge(o, n) == seq![head] + m1,
        head == o[0] || head == n[0],
        !lex_lt(o[0].0, head.0),
        !lex_lt(n[0].0, head.0),
        keys_sorted(m1),
        ro == o || ro == o.skip(1),
        rn == n || rn == n.skip(1),
        ro == o ==> lex_lt(head.0, o[0].0),
        rn == n ==> lex_lt(head.0, n[0].0),
        forall|j: int|
            0 <= j < m1.len() ==> has_rec(ro, #[trigger] m1[j]) || has_rec(rn, m1[j]),
    ensures
        keys_sorted(spec_merge(o, n)),
        forall|j: int|
            0 <= j < spec_merge(o, n).len() ==> has_rec(o, #[trigger] spec_merge(o, n)[j])
                || has_rec(n, spec_merge(o, n)[j]),
{
    let m = spec_merge(o, n);
    assert forall|j: int| 0 <= j < m.len() implies has_rec(o, #[trigger] m[j]) || has_rec(
        n,
        m[j],
    ) by {
        if j == 0 {
            assert(m[0] == head);
            if head == o[0] {
                assert(has_rec(o, m[0]));
            } else {
                assert(has_rec(n, m[0]));
            }
        } else {
            assert(m[j] == m1[j - 1]);
            lemma_rec_lift(o, ro, m1[j - 1]);
            lemma_rec_lift(n, rn, m1[j - 1]);
        }
    }
    assert forall|i: int, j: int| 0 <= i < j < m.len() implies lex_lt(m[i].0, m[j].0) by {
        if i == 0 {
            assert(m[j] == m1[j - 1]);
            lemma_head_below(o, n, head, ro, rn, m1[j - 1]);
        } else {
            assert(m[i] == m1[i - 1]);
            assert(m[j] == m1[j - 1]);
        }
    }
}

/// A record of a tail is a record of the whole list.
proof fn lemma_rec_lift(
    full: Seq<(Seq<u8>, Seq<u8>)>,
    part: Seq<(Seq<u8>, Seq<u8>)>,
    r: (Seq<u8>, Seq<u8>),
)
    requires
        part == full || (full.len() > 0 && part == full.skip(1)),
    ensures
        has_rec(part, r) ==> has_rec(full, r),
{
    if has_rec(part, r) && part != full {
        let i = choose|i: int| 0 <= i < part.len() && part[i] == r;
        assert(full[i + 1] == r);
    }
}

/// The head chosen by the merge lies strictly below every record that the
/// merged tails drew from.
proof fn lemma_head_below(
    o: Seq<(Seq<u8>, Seq<u8>)>,
    n: Seq<(Seq<u8>, Seq<u8>)>,
    head: (Seq<u8>, Seq<u8>),
    ro: Seq<(Seq<u8>, Seq<u8>)>,
    rn: Seq<(Seq<u8>, Seq<u8>)>,
    r: (Seq<u8>, Seq<u8>),
)
    requires
        keys_sorted(o),
        keys_sorted(n),
        o.len() > 0,
        n.len() > 0,
        head == o[0] || head == n[0],
        !lex_lt(o[0].0, head.0),
        !lex_lt(n[0].0, head.0),
        ro == o || ro == o.skip(1),
        rn == n || rn == n.skip(1),
        ro == o ==> lex_lt(head.0, o[0].0),
        rn == n ==> lex_lt(head.0, n[0].0),
        has_rec(ro, r) || has_rec(rn, r),
    ensures
        lex_lt(head.0, r.0),
{
    if has_rec(ro, r) {
        if ro == o {
            let i = choose|i: int| 0 <= i < o.len() && o[i] == r;
            if i > 0 {
                assert(lex_lt(o[0].0, o[i].0));
                lemma_lex_transitive(head.0, o[0].0, r.0);
            }
        } else {
            let i = choose|i: int| 0 <= i < ro.len() && ro[i] == r;
            assert(o[i + 1] == r);
            assert(lex_lt(o[0].0, o[i + 1].0));
            if head != o[0] {
                lemma_lex_trichotomy(head.0, o[0].0);
                if lex_lt(head.0, o[0].0) {
                    lemma_lex_transitive(head.0, o[0].0, r.0);
                }
            }
        }
    } else {
        if rn == n {
            let i = choose|i: int| 0 <= i < n.len() && n[i] == r;
            if i > 0 {
                assert(lex_lt(n[0].0, n[i].0));
                lemma_lex_transitive(head.0, n[0].0, r.0);
            }
        } else {
            let i = choose|i: int| 0 <= i < rn.len() && rn[i] == r;
            assert(n[i + 1] == r);
            assert(lex_lt(n[0].0, n[i + 1].0));
            if head != n[0] {
                lemma_lex_trichotomy(head.0, n[0].0);
                if lex_lt(head.0, n[0].0) {
                    lemma_lex_transitive(head.0, n[0].0, r.0);
                }
            }
        }
    }
}

/// Newer wins: where a key is stored in an older and a newer run, the
/// merge keeps the newer record, so the key reads as the newer value — or
/// as absent where that record is a tombstone.
pub proof fn lemma_newer_wins(
    o: Seq<(Seq<u8>, Seq<u8>)>,
    n: Seq<(Seq<u8>, Seq<u8>)>,
    k: Seq<u8>,
    v1: Seq<u8>,
    v2: Seq<u8>,
)
    requires
        keys_sorted(o),
        keys_sorted(n),
        assoc(o, k) == Some(v1),
        assoc(n, k) == Some(v2),
    ensures
        live_of(assoc(spec_merge(o, n), k)) == if v2 == crate::sstable::spec_tombstone() {
            None::<Seq<u8>>
        } else {
            Some(v2)
        },
{
    lemma_merge_assoc(o, n, k);
}

/// Append a cloned record to a table's run, for the merge below.
fn push_pair(t: &mut SSTable, k: &[u8], v: &[u8])
    ensures
        final(t)@ == old(t)@.push((k@, v@)),
        final(t).level == old(t).level,
        final(t).id == old(t).id,
{
    let kk = vstd::slice::slice_to_vec(k);
    let vv = vstd::slice::slice_to_vec(v);
    t.records.push((kk, vv));
    proof {
        assert(t@ =~= old(t)@.push((k@, v@)));
    }
}

/// Merge an older and a newer table into `merged_sstable`, walking both by
/// record position; on equal keys the newer record is staged, tombstone
/// included.
pub fn merge_two(sstable_old: &SSTable, sstable_new: &SSTable, merged_sstable: &mut SSTable)
    requires
        sstable_old.wf(),
        sstable_new.wf(),
        old(merged_sstable).wf(),
        old(merged_sstable)@.len() == 0,
    ensures
        final(merged_sstable).wf(),
        final(merged_sstable)@ == spec_merge(sstable_old@, sstable_new@),
        final(merged_sstable).level == old(merged_sstable).level,
        final(merged_sstable).id == old(merged_sstable).id,
        forall|q: Seq<u8>| #[trigger]
            assoc(final(merged_sstable)@, q) == match assoc(sstable_new@, q) {
                Some(v) => Some(v),
                None => assoc(sstable_old@, q),
            },
{
    let ghost ov = sstable_old@;
    let ghost nv = sstable_new@;
    let o_end = sstable_old.records.len();
    let n_end = sstable_new.records.len();
    let mut i: usize = 0;
    let mut j: usize = 0;
    proof {
        assert(ov.skip(0) =~= ov);
        assert(nv.skip(0) =~= nv);
        assert(merged_sstable@ + spec_merge(ov, nv) =~= spec_merge(ov, nv));
    }
    while i < o_end && j < n_end
        invariant
            0 <= i <= o_end,
            0 <= j <= n_end,
            o_end == sstable_old.records@.len(),
            n_end == sstable_new.records@.len(),
            ov == sstable_old@,
            nv == sstable_new@,
            sstable_old.wf(),
            sstable_new.wf(),
            merged_sstable@ + spec_merge(ov.skip(i as int), nv.skip(j as int)) == spec_merge(
                ov,
                nv,
            ),
            merged_sstable.level == old(merged_sstable).level,
            merged_sstable.id == old(merged_sstable).id,
        decreases o_end - i + n_end - j,
    {
        let ghost mv = merged_sstable@;
        let op: &(Vec<u8>, Vec<u8>) = &sstable_old.records[i];
        let np: &(Vec<u8>, Vec<u8>) = &sstable_new.records[j];
        proof {
            assert(ov[i as int] == (sstable_old.records@[i as int].0@,
                sstable_old.records@[i as int].1@));
            assert(nv[j as int] == (sstable_new.records@[j as int].0@,
                sstable_new.records@[j as int].1@));
            assert(ov.skip(i as int)[0] == ov[i as int]);
            assert(nv.skip(j as int)[0] == nv[j as int]);
            assert(ov.skip(i as int).skip(1) =~= ov.skip(i + 1));
            assert(nv.skip(j as int).skip(1) =~= nv.skip(j + 1));
        }
        match lex_cmp(op.0.as_slice(), np.0.as_slice()) {
            KeyCmp::Lt => {
                proof {
                    assert(spec_merge(ov.skip(i as int), nv.skip(j as int)) == seq![
                        ov[i as int],
                    ] + spec_merge(ov.skip(i + 1), nv.skip(j as int)));
                }
                push_pair(merged_sstable, op.0.as_slice(), op.1.as_slice());
                proof {
                    assert(merged_sstable@ + spec_merge(ov.skip(i + 1), nv.skip(j as int)) =~= mv
                        + (seq![ov[i as int]] + spec_merge(ov.skip(i + 1), nv.skip(j as int))));
                }
                i = i + 1;
            },
            KeyCmp::Gt => {
                proof {
                    assert(spec_merge(ov.skip(i as int), nv.skip(j as int)) == seq![
                        nv[j as int],
                    ] + spec_merge(ov.skip(i as int), nv.skip(j + 1)));
                }
                push_pair(merged_sstable, np.0.as_slice(), np.1.as_slice());
                proof {
                    assert(merged_sstable@ + spec_merge(ov.skip(i as int), nv.skip(j + 1)) =~= mv
                        + (seq![nv[j as int]] + spec_merge(ov.skip(i as int), nv.skip(j + 1))));
                }
                j = j + 1;
            },
            KeyCmp::Eq => {
                proof {
                    crate::order::lemma_lex_trichotomy(ov[i as int].0, nv[j as int].0);
                    assert(spec_merge(ov.skip(i as int), nv.skip(j as int)) == seq![
                        nv[j as int],
                    ] + spec_merge(ov.skip(i + 1), nv.skip(j + 1)));
                }
                push_pair(merged_sstable, np.0.as_slice(), np.1.as_slice());
                proof {
                    assert(merged_sstable@ + spec_merge(ov.skip(i + 1), nv.skip(j + 1)) =~= mv + (
                    seq![nv[j as int]] + spec_merge(ov.skip(i + 1), nv.skip(j + 1))));
                }
                i = i + 1;
                j = j + 1;
            },
        }
    }
    while i < o_end
        invariant
            0 <= i <= o_end,
            i < o_end ==> j == n_end,
            j <= n_end,
            o_end == sstable_old.records@.len(),
            n_end == sstable_new.records@.len(),
            ov == sstable_old@,
            nv == sstable_new@,
            sstable_old.wf(),
            merged_sstable@ + spec_merge(ov.skip(i as int), nv.skip(j as int)) == spec_merge(
                ov,
                nv,
            ),
            merged_sstable.level == old(merged_sstable).level,
            merged_sstable.id == old(merged_sstable).id,
        decreases o_end - i,
    {
        let ghost mv = merged_sstable@;
        let op: &(Vec<u8>, Vec<u8>) = &sstable_old.records[i];
        proof {
            assert(ov[i as int] == (sstable_old.records@[i as int].0@,
                sstable_old.records@[i as int].1@));
            assert(nv.skip(j as int) =~= Seq::<(Seq<u8>, Seq<u8>)>::empty());
            assert(ov.skip(i as int)[0] == ov[i as int]);
            assert(ov.skip(i as int).skip(1) =~= ov.skip(i + 1));
            assert(spec_merge(ov.skip(i as int), nv.skip(j as int)) == ov.skip(i as int));
            assert(spec_merge(ov.skip(i + 1), nv.skip(j as int)) == ov.skip(i + 1));
            assert(ov.skip(i as int) =~= seq![ov[i as int]] + ov.skip(i + 1));
        }
        push_pair(merged_sstable, op.0.as_slice(), op.1.as_slice());
        proof {
            assert(merged_sstable@ + ov.skip(i + 1) =~= mv + (seq![ov[i as int]] + ov.skip(
                i + 1,
            )));
        }
        i = i + 1;
    }
    while j < n_end
        invariant
            0 <= j <= n_end,
            i == o_end,
            o_end == sstable_old.records@.len(),
            n_end == sstable_new.records@.len(),
            ov == sstable_old@,
            nv == sstable_new@,
            sstable_new.wf(),
            merged_sstable@ + spec_merge(ov.skip(i as int), nv.skip(j as int)) == spec_merge(
                ov,
                nv,
            ),
            merged_sstable.level == old(merged_sstable).level,
            merged_sstable.id == old(merged_sstable).id,
        decreases n_end - j,
    {
        let ghost mv = merged_sstable@;
        let np: &(Vec<u8>, Vec<u8>) = &sstable_new.records[j];
        proof {
            assert(nv[j as int] == (sstable_new.records@[j as int].0@,
                sstable_new.records@[j as int].1@));
            assert(ov.skip(i as int) =~= Seq::<(Seq<u8>, Seq<u8>)>::empty());
            assert(spec_merge(ov.skip(i as int), nv.skip(j as int)) == nv.skip(j as int));
            assert(spec_merge(ov.skip(i as int), nv.skip(j + 1)) == nv.skip(j + 1));
            assert(nv.skip(j as int)[0] == nv[j as int]);
            assert(nv.skip(j as int) =~= seq![nv[j as int]] + nv.skip(j + 1));
        }
        push_pair(merged_sstable, np.0.as_slice(), np.1.as_slice());
        proof {
            assert(merged_sstable@ + nv.skip(j + 1) =~= mv + (seq![nv[j as int]] + nv.skip(
                j + 1,
            )));
        }
        j = j + 1;
    }
    proof {
        assert(ov.skip(i as int) =~= Seq::<(Seq<u8>, Seq<u8>)>::empty());
        assert(nv.skip(j as int) =~= Seq::<(Seq<u8>, Seq<u8>)>::empty());
        assert(spec_merge(ov.skip(i as int), nv.skip(j as int)) =~= Seq::<(
            Seq<u8>,
            Seq<u8>,
        )>::empty());
        assert(merged_sstable@ =~= merged_sstable@ + spec_merge(
            ov.skip(i as int),
            nv.skip(j as int),
        ));
        lemma_merge_sorted(ov, nv);
        let m = spec_merge(ov, nv);
        assert forall|t: int| 0 <= t < m.len() implies {
            &&& 1 <= (#[trigger] m[t]).0.len() <= 0xFFFF
            &&& 1 <= m[t].1.len() <= 0xFFFFFFFF
        } by {
            if has_rec(ov, m[t]) {
                let w = choose|w: int| 0 <= w < ov.len() && ov[w] == m[t];
                assert(1 <= ov[w].0.len() <= 0xFFFF);
            } else {
                let w = choose|w: int| 0 <= w < nv.len() && nv[w] == m[t];
                assert(1 <= nv[w].0.len() <= 0xFFFF);
            }
        }
        assert forall|q: Seq<u8>| #[trigger]
            assoc(merged_sstable@, q) == match assoc(nv, q) {
                Some(v) => Some(v),
                None => assoc(ov, q),
            } by {
            lemma_merge_assoc(ov, nv, q);
        }
    }
}

/// Looking a key up in the merge consults the newer run first: its record
/// wins wherever it has one.
pub proof fn lemma_merge_assoc(
    o: Seq<(Seq<u8>, Seq<u8>)>,
    n: Seq<(Seq<u8>, Seq<u8>)>,
    q: Seq<u8>,
)
    requires
        keys_sorted(o),
        keys_sorted(n),
    ensures
        assoc(spec_merge(o, n), q) == match assoc(n, q) {
            Some(v) => Some(v),
            None => assoc(o, q),
        },
    decreases o.len() + n.len(),
{
    let m = spec_merge(o, n);
    if o.len() == 0 {
    } else if n.len() == 0 {
    } else {
        lemma_sorted_skip1(o);
        lemma_sorted_skip1(n);
        if lex_lt(o[0].0, n[0].0) {
            let m1 = spec_merge(o.skip(1), n);
            if q == o[0].0 {
                assert(m[0] == o[0]);
                lemma_assoc_below(n, q);
            } else {
                assert(m.skip(1) =~= m1);
                lemma_merge_assoc(o.skip(1), n, q);
            }
        } else if lex_lt(n[0].0, o[0].0) {
            let m1 = spec_merge(o, n.skip(1));
            if q == n[0].0 {
                assert(m[0] == n[0]);
            } else {
                assert(m.skip(1) =~= m1);
                lemma_merge_assoc(o, n.skip(1), q);
            }
        } else {
            lemma_lex_trichotomy(o[0].0, n[0].0);
            let m1 = spec_merge(o.skip(1), n.skip(1));
            if q == n[0].0 {
                assert(m[0] == n[0]);
            } else {
                assert(m.skip(1) =~= m1);
                lemma_merge_assoc(o.skip(1), n.skip(1), q);
            }
        }
    }
}

/// The level of the table that merging a level-`a` and a level-`b` table
/// produces: one above the larger, saturating at the type's top.
pub open spec fn merged_level(a: u16, b: u16) -> u16 {
    let m = if a < b {
        b
    } else {
        a
    };
    if m == u16::MAX {
        u16::MAX
    } else {
        (m + 1) as u16
    }
}

/// Merge a catalog's adjacent pairs left to right; a trailing single table
/// passes through unchanged.  Every key still resolves to the same record,
/// because each pair is merged newer-wins in catalog order; each merged
/// table sits one level above the deeper of its inputs.
pub fn merge_sstables(sstables: Vec<SSTable>) -> (r: Vec<SSTable>)
    requires
        all_wf(sstables@),
    ensures
        all_wf(r@),
        r@.len() == (sstables@.len() + 1) / 2,
        forall|q: Seq<u8>| #[trigger]
            catalog_assoc(sst_views(r@), q) == catalog_assoc(sst_views(sstables@), q),
        forall|i: int|
            0 <= i < sstables@.len() / 2 ==> (#[trigger] r@[i])@ == spec_merge(
                sstables@[2 * i]@,
                sstables@[2 * i + 1]@,
            ),
        forall|i: int|
            0 <= i < sstables@.len() / 2 ==> (#[trigger] r@[i]).level == merged_level(
                sstables@[2 * i].level,
                sstables@[2 * i + 1].level,
            ),
        sstables@.len() % 2 == 1 ==> r@.last() == sstables@.last(),
{
    let ghost orig = sstables@;
    let mut rest = sstables;
    let mut merged_sstables: Vec<SSTable> = Vec::new();
    let mut k: usize = 0;
    proof {
        assert(rest@ =~= orig.skip(0));
        assert(sst_views(merged_sstables@) =~= Seq::<Seq<(Seq<u8>, Seq<u8>)>>::empty());
        assert(sst_views(orig.take(0)) =~= Seq::<Seq<(Seq<u8>, Seq<u8>)>>::empty());
    }
    let total = rest.len();
    proof {
        assert(orig.len() == total as int);
    }
    while rest.len() >= 2
        invariant
            0 <= k <= orig.len(),
            orig.len() <= usize::MAX,
            k % 2 == 0,
            rest@ == orig.skip(k as int),
            all_wf(orig),
            all_wf(merged_sstables@),
            merged_sstables@.len() == k / 2,
            forall|q: Seq<u8>| #[trigger]
                catalog_assoc(sst_views(merged_sstables@), q) == catalog_assoc(
                    sst_views(orig.take(k as int)),
                    q,
                ),
            forall|i: int|
                0 <= i < merged_sstables@.len() ==> (#[trigger] merged_sstables@[i])@
                    == spec_merge(orig[2 * i]@, orig[2 * i + 1]@),
            forall|i: int|
                0 <= i < merged_sstables@.len() ==> (#[trigger] merged_sstables@[i]).level
                    == merged_level(orig[2 * i].level, orig[2 * i + 1].level),
        decreases rest@.len(),
    {
        let ghost out0 = merged_sstables@;
        proof {
            assert(orig.skip(k as int).len() == orig.len() - k);
        }
        let sstable_old = rest.remove(0);
        let sstable_new = rest.remove(0);
        proof {
            assert(sstable_old == orig[k as int]);
            assert(orig.skip(k as int).remove(0) =~= orig.skip(k + 1));
            assert(sstable_new == orig[k + 1]);
            assert(orig.skip(k + 1).remove(0) =~= orig.skip(k + 2));
            assert(orig[k as int].wf());
            assert(orig[k + 1].wf());
        }
        let la = sstable_old.get_level();
        let lb = sstable_new.get_level();
        let lvl = if la < lb {
            lb
        } else {
            la
        };
        let mut merged = create_sstable(lvl);
        merge_two(&sstable_old, &sstable_new, &mut merged);
        let ghost mv = merged@;
        merged_sstables.push(merged);
        proof {
            let outv0 = sst_views(out0);
            let outv1 = sst_views(merged_sstables@);
            assert(merged_sstables@.len() == out0.len() + 1);
            assert(outv1.last() == mv);
            assert(outv1.drop_last() =~= outv0);
            let tv2 = sst_views(orig.take(k + 2));
            let tv1 = sst_views(orig.take(k + 1));
            let tv0 = sst_views(orig.take(k as int));
            assert(tv2.len() == k + 2);
            assert(tv2.last() == sstable_new@);
            assert(tv2.drop_last() =~= tv1);
            assert(tv1.last() == sstable_old@);
            assert(tv1.drop_last() =~= tv0);
            assert forall|q: Seq<u8>| #[trigger]
                catalog_assoc(outv1, q) == catalog_assoc(tv2, q) by {
                assert(assoc(mv, q) == match assoc(sstable_new@, q) {
                    Some(v) => Some(v),
                    None => assoc(sstable_old@, q),
                });
                assert(catalog_assoc(outv1, q) == match assoc(mv, q) {
                    Some(v) => Some(v),
                    None => catalog_assoc(outv0, q),
                });
                assert(catalog_assoc(tv2, q) == match assoc(sstable_new@, q) {
                    Some(v) => Some(v),
                    None => catalog_assoc(tv1, q),
                });
                assert(catalog_assoc(tv1, q) == match assoc(sstable_old@, q) {
                    Some(v) => Some(v),
                    None => catalog_assoc(tv0, q),
                });
                assert(catalog_assoc(outv0, q) == catalog_assoc(tv0, q));
            }
        }
        k = k + 2;
    }
    if rest.len() == 1 {
        let ghost out0 = merged_sstables@;
        let tail = rest.remove(0);
        proof {
            assert(tail == orig[k as int]);
            assert(orig[k as int].wf());
        }
        merged_sstables.push(tail);
        proof {
            let outv0 = sst_views(out0);
            let outv1 = sst_views(merged_sstables@);
            assert(outv1.last() == tail@);
            assert(outv1.drop_last() =~= outv0);
            let tv1 = sst_views(orig.take(k + 1));
            let tv0 = sst_views(orig.take(k as int));
            assert(tv1.last() == tail@);
            assert(tv1.drop_last() =~= tv0);
            assert(orig.take(k + 1) =~= orig);
            assert forall|q: Seq<u8>| #[trigger]
                catalog_assoc(outv1, q) == catalog_assoc(sst_views(orig), q) by {
                assert(catalog_assoc(outv0, q) == catalog_assoc(tv0, q));
            }
        }
    } else {
        proof {
            assert(orig.take(k as int) =~= orig);
        }
    }
    merged_sstables
}

/// Merge pairwise, repeatedly, until at most one table remains.  With
/// fewer than two tables there is nothing to merge and the catalog comes
/// back unchanged.
pub fn sstable_compaction(sstables: Vec<SSTable>) -> (r: Vec<SSTable>)
    requires
        all_wf(sstables@),
    ensures
        all_wf(r@),
        r@.len() == if sstables@.len() == 0 {
            0int
        } else {
            1int
        },
        sstables@.len() <= 1 ==> r == sstables,
        forall|q: Seq<u8>| #[trigger]
            catalog_assoc(sst_views(r@), q) == catalog_assoc(sst_views(sstables@), q),
{
    let ghost orig = sstables@;
    let ghost orig_vec = sstables;
    let mut tables = sstables;
    while tables.len() > 1
        invariant
            all_wf(tables@),
            (tables@.len() == 0) == (orig.len() == 0),
            orig_vec@ == orig,
            orig.len() <= 1 ==> tables == orig_vec,
            forall|q: Seq<u8>| #[trigger]
                catalog_assoc(sst_views(tables@), q) == catalog_assoc(sst_views(orig), q),
        decreases tables@.len(),
    {
        let ghost prev = tables@;
        tables = merge_sstables(tables);
        proof {
            assert forall|q: Seq<u8>| #[trigger]
                catalog_assoc(sst_views(tables@), q) == catalog_assoc(sst_views(orig), q) by {
                assert(catalog_assoc(sst_views(tables@), q) == catalog_assoc(
                    sst_views(prev),
                    q,
                ));
            }
        }
    }
    tables
}

/// Collapse a whole catalog into one table.
///
/// Newer entries win, and tombstones are then dropped: nothing older than
/// the result survives, so they mask nothing any more.
pub fn compaction(sstables: &Vec<SSTable>) -> (r: SSTable)
    requires
        all_wf(sstables@),
    ensures
        r.wf(),
        forall|q: Seq<u8>| #[trigger]
            assoc(r@, q) == live_of(catalog_assoc(sst_views(sstables@), q)),
{
    let n = sstables.len();
    let mut acc = create_sstable(0);
    let mut max_level: u16 = 0;
    proof {
        assert(acc@ =~= Seq::<(Seq<u8>, Seq<u8>)>::empty());
        assert(sst_views(sstables@).take(0) =~= Seq::<Seq<(Seq<u8>, Seq<u8>)>>::empty());
        assert forall|q: Seq<u8>| #[trigger]
            assoc(acc@, q) == catalog_assoc(sst_views(sstables@).take(0), q) by {
            assert(assoc(acc@, q) is None);
        }
    }
    let mut idx: usize = 0;
    while idx < n
        invariant
            0 <= idx <= n,
            n == sstables@.len(),
            all_wf(sstables@),
            acc.wf(),
            forall|q: Seq<u8>| #[trigger]
                assoc(acc@, q) == catalog_assoc(sst_views(sstables@).take(idx as int), q),
        decreases n - idx,
    {
        let t: &SSTable = &sstables[idx];
        proof {
            assert(sstables@[idx as int].wf());
        }
        let mut merged = create_sstable(0);
        merge_two(&acc, t, &mut merged);
        proof {
            let cv = sst_views(sstables@);
            assert(cv.take(idx + 1).last() == t@);
            assert(cv.take(idx + 1).drop_last() =~= cv.take(idx as int));
            assert forall|q: Seq<u8>| #[trigger]
                assoc(merged@, q) == catalog_assoc(cv.take(idx + 1), q) by {
                assert(assoc(merged@, q) == match assoc(t@, q) {
                    Some(v) => Some(v),
                    None => assoc(acc@, q),
                });
            }
        }
        acc = merged;
        let tl = t.get_level();
        if max_level < tl {
            max_level = tl;
        }
        idx = idx + 1;
    }
    proof {
        assert(sst_views(sstables@).take(n as int) =~= sst_views(sstables@));
    }
    let live = acc.as_hashmap();
    let mut result = create_sstable(max_level);
    result.write(&live);
    proof {
        assert(result@ =~= crate::recs::recs_view(live@));
        assert forall|q: Seq<u8>| #[trigger]
            assoc(result@, q) == live_of(catalog_assoc(sst_views(sstables@), q)) by {
            assert(assoc(crate::recs::recs_view(live@), q) == live_of(assoc(acc@, q)));
        }
    }
    result
}

} // verus!
