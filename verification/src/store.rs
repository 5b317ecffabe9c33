//! The LSM engine: an ordered in-memory buffer (the memtable) in front of
//! an ordered catalog of SSTs.
//!
//! `set` and `delete` write to the memtable; once the running byte count
//! exceeds the budget, the memtable is flushed as a new SST at the catalog
//! tail and, past a catalog threshold, compaction merges the tables.
//! `get` consults the memtable first and then the catalog newest to oldest,
//! a tombstone masking every older value of its key.
//!
//! The observable content of the store is `store_get`: all contracts are
//! stated against it, and flush and compaction preserve it.

use vstd::prelude::*;

use crate::compact::sstable_compaction;
use crate::recs::{
    assoc, catalog_assoc, find, has_key_value, keys_sorted, lemma_catalog_concat, map_insert,
    recs_bounded, recs_view,
};
use crate::sstable::{
    all_wf, create_sstable, is_tombstone, live_of, spec_tombstone, sst_views, tombstone, SSTable,
};
use crate::RkvError;

verus! {

/// A persistent ordered key-value store organized as an LSM tree.
pub struct KVStore {
    /// The in-memory buffer: records sorted by key, tombstones included.
    pub memtable: Vec<(Vec<u8>, Vec<u8>)>,
    /// The running byte count of keys and values accepted since the last
    /// flush.
    pub mem_size: u64,
    /// The memtable byte budget: a count above it triggers a flush.
    pub max_bytes: u64,
    /// The SST catalog, oldest first; the most recent flush is at the tail.
    pub sstables: Vec<SSTable>,
}

impl KVStore {
    /// The memtable's mathematical image.
    pub open spec fn mem_view(&self) -> Seq<(Seq<u8>, Seq<u8>)> {
        recs_view(self.memtable@)
    }

    /// The catalog's mathematical image, oldest first.
    pub open spec fn cat_view(&self) -> Seq<Seq<(Seq<u8>, Seq<u8>)>> {
        sst_views(self.sstables@)
    }

    /// The record stored for a key: the memtable's if it has one, else the
    /// newest catalog record, tombstones included.
    pub open spec fn store_raw(&self, q: Seq<u8>) -> Option<Seq<u8>> {
        match assoc(self.mem_view(), q) {
            Some(v) => Some(v),
            None => catalog_assoc(self.cat_view(), q),
        }
    }

    /// The observable value of a key: the stored record with tombstones
    /// reported as absence.
    pub open spec fn store_get(&self, q: Seq<u8>) -> Option<Seq<u8>> {
        live_of(self.store_raw(q))
    }

    /// The memtable is sorted and within the format's bounds, and every
    /// catalog table is well formed.
    pub open spec fn wf(&self) -> bool {
        &&& keys_sorted(self.mem_view())
        &&& recs_bounded(self.mem_view())
        &&& all_wf(self.sstables@)
    }

    /// An empty store with the given memtable byte budget.
    pub fn new(max_bytes: u64) -> (r: KVStore)
        ensures
            r.wf(),
            r.max_bytes == max_bytes,
            r.mem_size == 0,
            r.memtable@.len() == 0,
            r.sstables@.len() == 0,
            forall|q: Seq<u8>| #[trigger] r.store_get(q) is None,
    {
        let r = KVStore { memtable: Vec::new(), mem_size: 0, max_bytes, sstables: Vec::new() };
        proof {
            assert forall|q: Seq<u8>| #[trigger] r.store_get(q) is None by {
                assert(r.mem_view() =~= Seq::<(Seq<u8>, Seq<u8>)>::empty());
                assert(r.cat_view() =~= Seq::<Seq<(Seq<u8>, Seq<u8>)>>::empty());
            }
        }
        r
    }

    /// A store rebuilt around an existing catalog, as after a restart: the
    /// memtable starts empty and every lookup is answered by the catalog.
    pub fn restore(max_bytes: u64, sstables: Vec<SSTable>) -> (r: KVStore)
        requires
            all_wf(sstables@),
        ensures
            r.wf(),
            r.max_bytes == max_bytes,
            r.mem_size == 0,
            r.memtable@.len() == 0,
            r.sstables == sstables,
            forall|q: Seq<u8>| #[trigger]
                r.store_get(q) == live_of(catalog_assoc(sst_views(sstables@), q)),
    {
        let r = KVStore { memtable: Vec::new(), mem_size: 0, max_bytes, sstables };
        proof {
            assert(r.mem_view() =~= Seq::<(Seq<u8>, Seq<u8>)>::empty());
        }
        r
    }

    /// How many SSTs the catalog holds.
    pub fn get_sstables_count(&self) -> (r: usize)
        ensures
            r == self.sstables@.len(),
    {
        self.sstables.len()
    }

    /// The current memtable byte count.
    pub fn size(&self) -> (r: u64)
        ensures
            r == self.mem_size,
    {
        self.mem_size
    }

    /// The catalog table at position `i`, oldest first.
    pub fn sstable_at(&self, i: usize) -> (r: &SSTable)
        requires
            i < self.sstables@.len(),
        ensures
            r == &self.sstables@[i as int],
    {
        &self.sstables[i]
    }

    /// Search the catalog newest to oldest and stop at the first table that
    /// stores the key; a tombstone there masks everything older.
    fn search_catalog(&self, k: &[u8]) -> (r: Option<Vec<u8>>)
        requires
            self.wf(),
        ensures
            match r {
                Some(v) => live_of(catalog_assoc(self.cat_view(), k@)) == Some(v@),
                None => live_of(catalog_assoc(self.cat_view(), k@)) is None,
            },
    {
        let mut idx = self.sstables.len();
        proof {
            assert(self.cat_view().take(idx as int) =~= self.cat_view());
        }
        while idx > 0
            invariant
                0 <= idx <= self.sstables@.len(),
                self.wf(),
                catalog_assoc(self.cat_view(), k@) == catalog_assoc(
                    self.cat_view().take(idx as int),
                    k@,
                ),
            decreases idx,
        {
            let t: &SSTable = &self.sstables[idx - 1];
            proof {
                assert(self.sstables@[idx - 1].wf());
                assert(self.cat_view().take(idx as int).last() == t@);
                assert(self.cat_view().take(idx as int).drop_last() =~= self.cat_view().take(
                    idx - 1,
                ));
            }
            match t.search_raw(k) {
                Some(v) => {
                    if is_tombstone(v.as_slice()) {
                        return None;
                    }
                    return Some(v);
                },
                None => {},
            }
            idx = idx - 1;
        }
        proof {
            assert(self.cat_view().take(0) =~= Seq::<Seq<(Seq<u8>, Seq<u8>)>>::empty());
        }
        None
    }

    /// Drain the memtable into a fresh level-1 SST at the catalog tail and
    /// reset the byte count; past one table, compact.  Every lookup is
    /// preserved.  An empty memtable flushes to nothing.
    fn flush_memtable(&mut self)
        requires
            old(self).wf(),
        ensures
            final(self).wf(),
            final(self).memtable@.len() == 0,
            final(self).mem_size == 0,
            final(self).max_bytes == old(self).max_bytes,
            final(self).sstables@.len() == if old(self).memtable@.len() == 0 {
                old(self).sstables@.len() as int
            } else {
                1int
            },
            old(self).memtable@.len() == 0 ==> final(self).sstables == old(self).sstables,
            old(self).memtable@.len() > 0 && old(self).sstables@.len() == 0
                ==> final(self).sstables@[0].level == 1,
            forall|q: Seq<u8>| #[trigger] final(self).store_get(q) == old(self).store_get(q),
    {
        if self.memtable.is_empty() {
            self.mem_size = 0;
            proof {
                assert forall|q: Seq<u8>| #[trigger]
                    self.store_get(q) == old(self).store_get(q) by {}
            }
            return;
        }
        let ghost mv = self.mem_view();
        let ghost cv0 = self.cat_view();
        let mut sstable = create_sstable(0);
        sstable.write(&self.memtable);
        let ghost sv = sstable@;
        proof {
            assert(sv =~= mv);
        }
        self.sstables.push(sstable);
        self.memtable = Vec::new();
        self.mem_size = 0;
        proof {
            assert(self.mem_view() =~= Seq::<(Seq<u8>, Seq<u8>)>::empty());
            assert(self.cat_view() =~= cv0 + seq![sv]);
            assert forall|q: Seq<u8>| #[trigger]
                catalog_assoc(self.cat_view(), q) == old(self).store_raw(q) by {
                lemma_catalog_concat(cv0, seq![sv], q);
                let single = seq![sv];
                assert(single.last() == sv);
                assert(single.drop_last() =~= Seq::<Seq<(Seq<u8>, Seq<u8>)>>::empty());
                assert(catalog_assoc(Seq::<Seq<(Seq<u8>, Seq<u8>)>>::empty(), q) is None);
                assert(catalog_assoc(single, q) == match assoc(mv, q) {
                    Some(v) => Some(v),
                    None => None,
                });
            }
        }
        let ghost mid = *self;
        if self.sstables.len() > 1 {
            let mut tables: Vec<SSTable> = Vec::new();
            core::mem::swap(&mut tables, &mut self.sstables);
            let compacted = sstable_compaction(tables);
            self.sstables = compacted;
            proof {
                assert forall|q: Seq<u8>| #[trigger]
                    self.store_get(q) == old(self).store_get(q) by {
                    assert(catalog_assoc(self.cat_view(), q) == catalog_assoc(
                        mid.cat_view(),
                        q,
                    ));
                }
            }
        } else {
            proof {
                assert forall|q: Seq<u8>| #[trigger]
                    self.store_get(q) == old(self).store_get(q) by {}
            }
        }
    }

    /// Store a value for a key.
    ///
    /// The pair's bytes join the running count; if the count then exceeds
    /// the budget the memtable is flushed first and the count starts over
    /// at zero.  A pair larger than the whole budget is rejected and the
    /// store is left unchanged.  Setting the tombstone sentinel as the
    /// value is indistinguishable from `delete`.
    pub fn set(&mut self, k: &[u8], v: &[u8]) -> (r: Result<(), RkvError>)
        requires
            old(self).wf(),
            1 <= k@.len() <= 0xFFFF,
            1 <= v@.len() <= 0xFFFFFFFF,
        ensures
            final(self).wf(),
            final(self).max_bytes == old(self).max_bytes,
            r is Err <==> k@.len() + v@.len() > old(self).max_bytes,
            match r {
                Ok(u) => {
                    &&& forall|q: Seq<u8>| #[trigger]
                        final(self).store_get(q) == if q == k@ {
                            live_of(Some(v@))
                        } else {
                            old(self).store_get(q)
                        }
                    &&& final(self).mem_size == if old(self).mem_size + k@.len() + v@.len()
                        <= old(self).max_bytes {
                        old(self).mem_size + k@.len() + v@.len()
                    } else {
                        0int
                    }
                    &&& old(self).mem_size + k@.len() + v@.len() <= old(self).max_bytes
                        ==> final(self).sstables == old(self).sstables
                    &&& old(self).mem_size + k@.len() + v@.len() > old(self).max_bytes
                        ==> recs_view(final(self).memtable@) == seq![(k@, v@)]
                    &&& old(self).mem_size + k@.len() + v@.len() > old(self).max_bytes && old(
                        self,
                    ).memtable@.len() > 0 ==> final(self).sstables@.len() == 1
                    &&& old(self).mem_size + k@.len() + v@.len() > old(self).max_bytes && old(
                        self,
                    ).memtable@.len() == 0 ==> final(self).sstables == old(self).sstables
                },
                Err(e) => {
                    &&& e == RkvError::PairLargerThanBudget
                    &&& *final(self) == *old(self)
                },
            },
    {
        let pair_len = k.len() as u64 + v.len() as u64;
        if pair_len > self.max_bytes {
            return Err(RkvError::PairLargerThanBudget);
        }
        match self.mem_size.checked_add(pair_len) {
            Some(s) if s <= self.max_bytes => {
                self.mem_size = s;
            },
            _ => {
                self.flush_memtable();
            },
        }
        let ghost mid = *self;
        let kk = vstd::slice::slice_to_vec(k);
        let vv = vstd::slice::slice_to_vec(v);
        map_insert(&mut self.memtable, kk, vv);
        proof {
            self.lemma_insert_effect(mid, k@, v@);
            if old(self).mem_size + k@.len() + v@.len() > old(self).max_bytes {
                // The memtable was flushed empty, so the insert left it
                // holding exactly the new pair.
                assert(mid.memtable@.len() == 0);
                assert(recs_view(self.memtable@).len() == 1);
                assert(recs_view(self.memtable@)[0] == (k@, v@));
                assert(recs_view(self.memtable@) =~= seq![(k@, v@)]);
            }
        }
        Ok(())
    }

    /// Record a deletion: a tombstone for the key goes to the memtable and
    /// masks every older value.  Deleting an absent key is not an error.
    /// Where the catalog still stores the key, the key's bytes join the
    /// running count for the tombstone's eventual flush.
    pub fn delete(&mut self, k: &[u8])
        requires
            old(self).wf(),
            1 <= k@.len() <= 0xFFFF,
        ensures
            final(self).wf(),
            final(self).max_bytes == old(self).max_bytes,
            final(self).sstables == old(self).sstables,
            forall|q: Seq<u8>| #[trigger]
                final(self).store_get(q) == if q == k@ {
                    None::<Seq<u8>>
                } else {
                    old(self).store_get(q)
                },
            final(self).mem_size == if live_of(
                catalog_assoc(old(self).cat_view(), k@),
            ) is Some {
                if old(self).mem_size + k@.len() > u64::MAX {
                    u64::MAX as int
                } else {
                    old(self).mem_size + k@.len()
                }
            } else {
                old(self).mem_size as int
            },
    {
        let found = self.search_catalog(k);
        if found.is_some() {
            self.mem_size = self.mem_size.saturating_add(k.len() as u64);
        }
        let ghost mid = *self;
        let kk = vstd::slice::slice_to_vec(k);
        let t = tombstone();
        map_insert(&mut self.memtable, kk, t);
        proof {
            self.lemma_insert_effect(mid, k@, spec_tombstone());
        }
    }

    /// The live value of a key: the memtable's record if it has one, else
    /// the newest catalog record, with a tombstone reported as absence.
    pub fn get(&self, k: &[u8]) -> (r: Option<Vec<u8>>)
        requires
            self.wf(),
        ensures
            match r {
                Some(v) => self.store_get(k@) == Some(v@),
                None => self.store_get(k@) is None,
            },
    {
        match find(&self.memtable, k) {
            Some(i) => {
                proof {
                    crate::recs::lemma_assoc_found(self.mem_view(), k@, i as int);
                }
                let pair: &(Vec<u8>, Vec<u8>) = &self.memtable[i];
                if is_tombstone(pair.1.as_slice()) {
                    None
                } else {
                    Some(vstd::slice::slice_to_vec(pair.1.as_slice()))
                }
            },
            None => {
                proof {
                    crate::recs::lemma_assoc_none(self.mem_view(), k@);
                }
                self.search_catalog(k)
            },
        }
    }

    /// Merge the catalog down to a single table.  Every lookup is
    /// preserved; with fewer than two tables this is a no-op.
    pub fn compaction(&mut self)
        requires
            old(self).wf(),
        ensures
            final(self).wf(),
            final(self).memtable == old(self).memtable,
            final(self).mem_size == old(self).mem_size,
            final(self).max_bytes == old(self).max_bytes,
            final(self).sstables@.len() == if old(self).sstables@.len() == 0 {
                0int
            } else {
                1int
            },
            old(self).sstables@.len() <= 1 ==> final(self).sstables == old(self).sstables,
            forall|q: Seq<u8>| #[trigger] final(self).store_get(q) == old(self).store_get(q),
    {
        let mut tables: Vec<SSTable> = Vec::new();
        core::mem::swap(&mut tables, &mut self.sstables);
        let compacted = sstable_compaction(tables);
        self.sstables = compacted;
        proof {
            assert forall|q: Seq<u8>| #[trigger]
                final(self).store_get(q) == old(self).store_get(q) by {
                assert(catalog_assoc(self.cat_view(), q) == catalog_assoc(
                    old(self).cat_view(),
                    q,
                ));
            }
        }
    }

    /// What one memtable insert does to the observable store: the inserted
    /// key now reads as the inserted value (absence for the tombstone), and
    /// every other key is untouched.
    proof fn lemma_insert_effect(&self, pre: KVStore, k: Seq<u8>, v: Seq<u8>)
        requires
            keys_sorted(self.mem_view()),
            1 <= k.len() <= 0xFFFF,
            1 <= v.len() <= 0xFFFFFFFF,
            pre.wf(),
            self.sstables == pre.sstables,
            forall|q: Seq<u8>| #[trigger]
                assoc(self.mem_view(), q) == if q == k {
                    Some(v)
                } else {
                    assoc(pre.mem_view(), q)
                },
            forall|i: int|
                0 <= i < self.mem_view().len() ==> {
                    let r = #[trigger] self.mem_view()[i];
                    (r.0 == k && r.1 == v) || has_key_value(pre.mem_view(), r.0, r.1)
                },
        ensures
            self.wf(),
            forall|q: Seq<u8>| #[trigger]
                self.store_get(q) == if q == k {
                    live_of(Some(v))
                } else {
                    pre.store_get(q)
                },
    {
        assert forall|i: int| 0 <= i < self.mem_view().len() implies {
            &&& 1 <= (#[trigger] self.mem_view()[i]).0.len() <= 0xFFFF
            &&& 1 <= self.mem_view()[i].1.len() <= 0xFFFFFFFF
        } by {
            let r = self.mem_view()[i];
            if !(r.0 == k && r.1 == v) {
                let w = choose|w: int|
                    0 <= w < pre.mem_view().len() && pre.mem_view()[w] == (r.0, r.1);
                assert(1 <= pre.mem_view()[w].0.len() <= 0xFFFF);
            }
        }
    }
}

/// After `set(k, v)` with no intervening write to `k`, `get(k)` returns
/// `Some(v)`: the round-trip law, stated over `set`'s effect on the
/// observable store.
pub proof fn lemma_set_then_get(s0: KVStore, s1: KVStore, k: Seq<u8>, v: Seq<u8>)
    requires
        v != spec_tombstone(),
        forall|q: Seq<u8>| #[trigger]
            s1.store_get(q) == if q == k {
                live_of(Some(v))
            } else {
                s0.store_get(q)
            },
    ensures
        s1.store_get(k) == Some(v),
{
}

/// After `set(k, v1); set(k, v2)`, `get(k)` returns `Some(v2)`: the
/// overwrite law.
pub proof fn lemma_overwrite(
    s0: KVStore,
    s1: KVStore,
    s2: KVStore,
    k: Seq<u8>,
    v1: Seq<u8>,
    v2: Seq<u8>,
)
    requires
        v2 != spec_tombstone(),
        forall|q: Seq<u8>| #[trigger]
            s1.store_get(q) == if q == k {
                live_of(Some(v1))
            } else {
                s0.store_get(q)
            },
        forall|q: Seq<u8>| #[trigger]
            s2.store_get(q) == if q == k {
                live_of(Some(v2))
            } else {
                s1.store_get(q)
            },
    ensures
        s2.store_get(k) == Some(v2),
{
}

/// After `set(k, v); delete(k)`, `get(k)` returns `None`, and it still
/// does after any further step — a flush or a compaction — that preserves
/// every lookup: the delete-masks law.
pub proof fn lemma_delete_masks(
    s0: KVStore,
    s1: KVStore,
    s2: KVStore,
    s3: KVStore,
    k: Seq<u8>,
    v: Seq<u8>,
)
    requires
        forall|q: Seq<u8>| #[trigger]
            s1.store_get(q) == if q == k {
                live_of(Some(v))
            } else {
                s0.store_get(q)
            },
        forall|q: Seq<u8>| #[trigger]
            s2.store_get(q) == if q == k {
                None::<Seq<u8>>
            } else {
                s1.store_get(q)
            },
        forall|q: Seq<u8>| #[trigger] s3.store_get(q) == s2.store_get(q),
    ensures
        s3.store_get(k) is None,
{
}

/// Newer wins across the catalog: where a key is stored in an older and a
/// newer SST, nothing newer stores it, and the memtable does not hold it,
/// `get` yields the newer table's value — absence for a tombstone.  Since
/// `compaction` preserves every lookup, the same value is read after
/// compacting.
pub proof fn lemma_newer_wins_across_catalog(
    s: KVStore,
    k: Seq<u8>,
    i: int,
    j: int,
    v1: Seq<u8>,
    v2: Seq<u8>,
)
    requires
        s.wf(),
        assoc(s.mem_view(), k) is None,
        0 <= i < j < s.cat_view().len(),
        assoc(s.cat_view()[i], k) == Some(v1),
        assoc(s.cat_view()[j], k) == Some(v2),
        forall|m: int| j < m < s.cat_view().len() ==> assoc(#[trigger] s.cat_view()[m], k) is None,
    ensures
        s.store_get(k) == live_of(Some(v2)),
{
    crate::recs::lemma_catalog_newest_wins(s.cat_view(), k, j, v2);
}

/// Restart preserves flushed data: a store whose catalog was decoded back
/// from the file images of another's — as `from_files` does on startup —
/// answers every lookup alike, provided everything was flushed (the
/// memtables are empty).
pub proof fn lemma_restart_preserves(s: KVStore, r: KVStore, q: Seq<u8>)
    requires
        s.wf(),
        s.memtable@.len() == 0,
        r.memtable@.len() == 0,
        r.sstables@.len() == s.sstables@.len(),
        forall|i: int|
            0 <= i < r.sstables@.len() ==> Some((#[trigger] r.sstables@[i])@)
                == crate::codec::spec_parse(
                crate::codec::spec_enc_records(s.sstables@[i]@),
            ),
    ensures
        r.store_get(q) == s.store_get(q),
{
    assert forall|i: int| 0 <= i < r.sstables@.len() implies (#[trigger] r.sstables@[i])@
        == s.sstables@[i]@ by {
        assert(s.sstables@[i].wf());
        crate::codec::lemma_parse_encode(s.sstables@[i]@);
    }
    assert(r.cat_view() =~= s.cat_view());
    assert(r.mem_view() =~= s.mem_view());
}

} // verus!
