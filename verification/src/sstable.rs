//! Sorted string tables.
//!
//! An SST is an immutable run of records with strictly increasing keys.  On
//! disk it is a pair of sibling files — a data file of length-prefixed
//! records and an index file of `u64` offsets — whose images `file_images`
//! produces and `from_files` validates and decodes.  A deletion is stored as
//! the tombstone sentinel `~tombstone~` in place of a value.

use vstd::prelude::*;

use crate::codec::{
    encode_table, parse_records, spec_enc_index, spec_enc_records, spec_parse,
};
use crate::order::{bytes_eq, lex_cmp, lex_lt, KeyCmp};
use crate::recs::{
    assoc, find, has_key, keys_sorted, lemma_adjacent_sorted, lemma_assoc_found,
    lemma_assoc_none, lemma_bounded_fit, lemma_sorted_concat, recs_bounded, recs_fit, recs_view,
};
use crate::RkvError;

verus! {

/// The tombstone sentinel: the ASCII bytes of `~tombstone~`.  A record
/// whose value equals it marks its key as deleted.
pub open spec fn spec_tombstone() -> Seq<u8> {
    seq![
        0x7eu8,
        0x74u8,
        0x6fu8,
        0x6du8,
        0x62u8,
        0x73u8,
        0x74u8,
        0x6fu8,
        0x6eu8,
        0x65u8,
        0x7eu8,
    ]
}

/// The tombstone sentinel as a byte vector.
pub fn tombstone() -> (r: Vec<u8>)
    ensures
        r@ == spec_tombstone(),
{
    let mut t: Vec<u8> = Vec::new();
    t.push(0x7e);
    t.push(0x74);
    t.push(0x6f);
    t.push(0x6d);
    t.push(0x62);
    t.push(0x73);
    t.push(0x74);
    t.push(0x6f);
    t.push(0x6e);
    t.push(0x65);
    t.push(0x7e);
    proof {
        assert(t@ =~= spec_tombstone());
    }
    t
}

/// Whether a value is the tombstone sentinel.
pub fn is_tombstone(v: &[u8]) -> (r: bool)
    ensures
        r <==> v@ == spec_tombstone(),
{
    let t = tombstone();
    bytes_eq(v, t.as_slice())
}

/// A raw lookup result with the tombstone mapped to absence.
pub open spec fn live_of(o: Option<Seq<u8>>) -> Option<Seq<u8>> {
    match o {
        Some(v) => if v == spec_tombstone() {
            None
        } else {
            Some(v)
        },
        None => None,
    }
}

/// The records of a list that do not carry a tombstone, in order.
pub open spec fn live_recs(rs: Seq<(Seq<u8>, Seq<u8>)>) -> Seq<(Seq<u8>, Seq<u8>)>
    decreases rs.len(),
{
    if rs.len() == 0 {
        Seq::empty()
    } else if rs[0].1 == spec_tombstone() {
        live_recs(rs.skip(1))
    } else {
        seq![rs[0]] + live_recs(rs.skip(1))
    }
}

/// Appending one record appends its live part.
pub proof fn lemma_live_snoc(rs: Seq<(Seq<u8>, Seq<u8>)>, x: (Seq<u8>, Seq<u8>))
    ensures
        live_recs(rs.push(x)) == if x.1 == spec_tombstone() {
            live_recs(rs)
        } else {
            live_recs(rs) + seq![x]
        },
    decreases rs.len(),
{
    if rs.len() == 0 {
        assert(rs.push(x)[0] == x);
        assert(rs.push(x).skip(1) =~= Seq::<(Seq<u8>, Seq<u8>)>::empty());
        assert(live_recs(rs.push(x).skip(1)) =~= Seq::<(Seq<u8>, Seq<u8>)>::empty());
        if x.1 == spec_tombstone() {
            assert(live_recs(rs.push(x)) =~= live_recs(rs));
        } else {
            assert(live_recs(rs.push(x)) =~= seq![x] + live_recs(rs.push(x).skip(1)));
            assert(live_recs(rs.push(x)) =~= live_recs(rs) + seq![x]);
        }
    } else {
        lemma_live_snoc(rs.skip(1), x);
        assert(rs.push(x)[0] == rs[0]);
        assert(rs.push(x).skip(1) =~= rs.skip(1).push(x));
        if x.1 == spec_tombstone() {
        } else if rs[0].1 == spec_tombstone() {
        } else {
            assert(seq![rs[0]] + (live_recs(rs.skip(1)) + seq![x]) =~= (seq![rs[0]] + live_recs(
                rs.skip(1),
            )) + seq![x]);
        }
    }
}

/// Every live record is a record of the list it was drawn from.
pub proof fn lemma_live_elem(rs: Seq<(Seq<u8>, Seq<u8>)>)
    ensures
        forall|j: int|
            0 <= j < live_recs(rs).len() ==> exists|i: int|
                0 <= i < rs.len() && rs[i] == #[trigger] live_recs(rs)[j],
        live_recs(rs).len() <= rs.len(),
    decreases rs.len(),
{
    if rs.len() > 0 {
        lemma_live_elem(rs.skip(1));
        assert forall|j: int| 0 <= j < live_recs(rs).len() implies exists|i: int|
            0 <= i < rs.len() && rs[i] == #[trigger] live_recs(rs)[j] by {
            if rs[0].1 == spec_tombstone() {
                let i = choose|i: int|
                    0 <= i < rs.skip(1).len() && rs.skip(1)[i] == live_recs(rs.skip(1))[j];
                assert(rs[i + 1] == live_recs(rs)[j]);
            } else {
                if j == 0 {
                    assert(rs[0] == live_recs(rs)[0]);
                } else {
                    let lj = live_recs(rs)[j];
                    assert(lj == live_recs(rs.skip(1))[j - 1]);
                    let i = choose|i: int|
                        0 <= i < rs.skip(1).len() && rs.skip(1)[i] == live_recs(rs.skip(1))[j
                            - 1];
                    assert(rs[i + 1] == lj);
                }
            }
        }
    }
}

/// Dropping tombstones keeps the keys sorted and the records within the
/// format's bounds.
pub proof fn lemma_live_sorted(rs: Seq<(Seq<u8>, Seq<u8>)>)
    requires
        keys_sorted(rs),
    ensures
        keys_sorted(live_recs(rs)),
        recs_bounded(rs) ==> recs_bounded(live_recs(rs)),
    decreases rs.len(),
{
    lemma_live_elem(rs);
    if rs.len() > 0 {
        crate::recs::lemma_sorted_skip1(rs);
        lemma_live_sorted(rs.skip(1));
        lemma_live_elem(rs.skip(1));
        if rs[0].1 == spec_tombstone() {
        } else {
            let lv = live_recs(rs);
            assert forall|i: int, j: int| 0 <= i < j < lv.len() implies lex_lt(
                lv[i].0,
                lv[j].0,
            ) by {
                if i == 0 {
                    assert(lv[j] == live_recs(rs.skip(1))[j - 1]);
                    let m = choose|m: int|
                        0 <= m < rs.skip(1).len() && rs.skip(1)[m] == live_recs(rs.skip(1))[j
                            - 1];
                    assert(rs[m + 1] == lv[j]);
                    assert(lex_lt(rs[0].0, rs[m + 1].0));
                } else {
                    assert(lv[i] == live_recs(rs.skip(1))[i - 1]);
                    assert(lv[j] == live_recs(rs.skip(1))[j - 1]);
                }
            }
        }
    }
    if recs_bounded(rs) {
        assert forall|j: int| 0 <= j < live_recs(rs).len() implies {
            &&& 1 <= (#[trigger] live_recs(rs)[j]).0.len() <= 0xFFFF
            &&& 1 <= live_recs(rs)[j].1.len() <= 0xFFFFFFFF
        } by {
            let i = choose|i: int| 0 <= i < rs.len() && rs[i] == live_recs(rs)[j];
            assert(1 <= rs[i].0.len() <= 0xFFFF);
        }
    }
}

/// Looking a key up among the live records is the raw lookup with the
/// tombstone mapped to absence.
pub proof fn lemma_live_assoc(rs: Seq<(Seq<u8>, Seq<u8>)>, q: Seq<u8>)
    requires
        keys_sorted(rs),
    ensures
        assoc(live_recs(rs), q) == live_of(assoc(rs, q)),
    decreases rs.len(),
{
    if rs.len() > 0 {
        crate::recs::lemma_sorted_skip1(rs);
        lemma_live_assoc(rs.skip(1), q);
        if rs[0].0 == q {
            if rs[0].1 == spec_tombstone() {
                // q is not among the later keys, so not among their live part.
                lemma_assoc_none(rs.skip(1), q);
                lemma_assoc_none(live_recs(rs.skip(1)), q);
                if has_key(rs.skip(1), q) {
                    let i = choose|i: int|
                        0 <= i < rs.skip(1).len() && rs.skip(1)[i].0 == q;
                    assert(rs.skip(1)[i] == rs[i + 1]);
                    assert(lex_lt(rs[0].0, rs[i + 1].0));
                    crate::order::lemma_lex_trichotomy(rs[0].0, rs[i + 1].0);
                }
            } else {
                assert(live_recs(rs)[0] == rs[0]);
            }
        } else {
            if rs[0].1 == spec_tombstone() {
            } else {
                assert(live_recs(rs)[0] == rs[0]);
                assert((seq![rs[0]] + live_recs(rs.skip(1))).skip(1) =~= live_recs(rs.skip(1)));
            }
        }
    }
}

/// Relies on `uuid::Uuid::new_v4` and the hyphenated rendering of its
/// `Display` implementation: a freshly generated random identifier, 36
/// characters long.  Nothing further is assumed of it; in particular two
/// calls may or may not collide.
#[verifier::external_body]
fn fresh_uuid() -> (r: String)
    ensures
        r@.len() == 36,
{
    uuid::Uuid::new_v4().to_string()
}

/// An immutable sorted string table held as its decoded records, together
/// with the level tag and the identifier under which its files are named.
pub struct SSTable {
    /// How many pairwise merges produced this table; initial flushes are
    /// level 1.
    pub level: u16,
    /// The unique identifier used in the table's filename.
    pub id: String,
    /// The records, with strictly increasing keys.
    pub records: Vec<(Vec<u8>, Vec<u8>)>,
}

impl View for SSTable {
    type V = Seq<(Seq<u8>, Seq<u8>)>;

    open spec fn view(&self) -> Seq<(Seq<u8>, Seq<u8>)> {
        recs_view(self.records@)
    }
}

impl SSTable {
    /// Keys strictly increase and every record fits the format.
    pub open spec fn wf(&self) -> bool {
        &&& keys_sorted(self@)
        &&& recs_bounded(self@)
    }

    /// An empty table at the given level, named by the given identifier.
    pub fn new(level: u16, id: String) -> (r: SSTable)
        ensures
            r.wf(),
            r@ == Seq::<(Seq<u8>, Seq<u8>)>::empty(),
            r.level == level,
            r.id == id,
    {
        let t = SSTable { level, id, records: Vec::new() };
        proof {
            assert(t@ =~= Seq::<(Seq<u8>, Seq<u8>)>::empty());
        }
        t
    }

    /// The table's level tag.
    pub fn get_level(&self) -> (r: u16)
        ensures
            r == self.level,
    {
        self.level
    }

    /// The identifier used in the table's filename.
    pub fn get_id(&self) -> (r: &String)
        ensures
            r == &self.id,
    {
        &self.id
    }

    /// Append records whose keys all lie above the table's current keys.
    ///
    /// The caller supplies an ordered run, as the memtable and the merge
    /// do; the table stays well formed.
    pub fn write(&mut self, pairs: &Vec<(Vec<u8>, Vec<u8>)>)
        requires
            old(self).wf(),
            keys_sorted(recs_view(pairs@)),
            recs_bounded(recs_view(pairs@)),
            old(self)@.len() > 0 && pairs@.len() > 0 ==> lex_lt(
                old(self)@.last().0,
                recs_view(pairs@)[0].0,
            ),
        ensures
            final(self).wf(),
            final(self)@ == old(self)@ + recs_view(pairs@),
            final(self).level == old(self).level,
            final(self).id == old(self).id,
    {
        let ghost pv = recs_view(pairs@);
        let n = pairs.len();
        proof {
            assert(self@ =~= old(self)@ + pv.take(0));
        }
        let mut i: usize = 0;
        while i < n
            invariant
                0 <= i <= n,
                n == pairs@.len(),
                pv == recs_view(pairs@),
                self@ == old(self)@ + pv.take(i as int),
                self.level == old(self).level,
                self.id == old(self).id,
            decreases n - i,
        {
            let ghost pre = self.records@;
            proof {
                assert(recs_view(pre) == old(self)@ + pv.take(i as int));
                assert(pre.len() == old(self)@.len() + i);
            }
            let pair: &(Vec<u8>, Vec<u8>) = &pairs[i];
            let k = vstd::slice::slice_to_vec(pair.0.as_slice());
            let v = vstd::slice::slice_to_vec(pair.1.as_slice());
            self.records.push((k, v));
            proof {
                let cur = recs_view(self.records@);
                let want = old(self)@ + pv.take(i + 1);
                assert(cur.len() == want.len());
                assert forall|j: int| 0 <= j < cur.len() implies cur[j] == want[j] by {
                    if j < pre.len() {
                        assert(self.records@[j] == pre[j]);
                        assert(cur[j] == recs_view(pre)[j]);
                    } else {
                        assert(self.records@[j] == (k, v));
                        assert(cur[j] == (k@, v@));
                        assert(want[j] == pv[i as int]);
                        assert(pv[i as int] == (pairs@[i as int].0@, pairs@[i as int].1@));
                    }
                }
                assert(self@ =~= old(self)@ + pv.take(i + 1));
            }
            i = i + 1;
        }
        proof {
            assert(pv.take(n as int) =~= pv);
            lemma_sorted_concat(old(self)@, pv);
            let c = old(self)@ + pv;
            assert forall|i: int| 0 <= i < c.len() implies {
                &&& 1 <= (#[trigger] c[i]).0.len() <= 0xFFFF
                &&& 1 <= c[i].1.len() <= 0xFFFFFFFF
            } by {
                if i < old(self)@.len() {
                    assert(c[i] == old(self)@[i]);
                } else {
                    assert(c[i] == pv[i - old(self)@.len()]);
                }
            }
        }
    }

    /// The raw lookup: the value stored for `key`, tombstone included.
    pub fn search_raw(&self, key: &[u8]) -> (r: Option<Vec<u8>>)
        requires
            self.wf(),
        ensures
            match r {
                Some(v) => assoc(self@, key@) == Some(v@),
                None => assoc(self@, key@) is None,
            },
    {
        match find(&self.records, key) {
            Some(i) => {
                proof {
                    lemma_assoc_found(self@, key@, i as int);
                }
                let pair: &(Vec<u8>, Vec<u8>) = &self.records[i];
                Some(vstd::slice::slice_to_vec(pair.1.as_slice()))
            },
            None => {
                proof {
                    lemma_assoc_none(self@, key@);
                }
                None
            },
        }
    }

    /// Binary search for the live value of `key`: `None` for an absent key
    /// and for a tombstone.
    pub fn search(&self, key: &[u8]) -> (r: Option<Vec<u8>>)
        requires
            self.wf(),
        ensures
            match r {
                Some(v) => live_of(assoc(self@, key@)) == Some(v@),
                None => live_of(assoc(self@, key@)) is None,
            },
    {
        match self.search_raw(key) {
            Some(v) => {
                if is_tombstone(v.as_slice()) {
                    None
                } else {
                    Some(v)
                }
            },
            None => None,
        }
    }

    /// Walk the records front to back for the live value of `key`.
    ///
    /// Same result as `search`; the linear walk needs no index.
    pub fn scan(&self, key: &[u8]) -> (r: Option<Vec<u8>>)
        requires
            self.wf(),
        ensures
            match r {
                Some(v) => live_of(assoc(self@, key@)) == Some(v@),
                None => live_of(assoc(self@, key@)) is None,
            },
    {
        let n = self.records.len();
        let mut i: usize = 0;
        while i < n
            invariant
                0 <= i <= n,
                n == self.records@.len(),
                self.wf(),
                forall|j: int| 0 <= j < i ==> (#[trigger] self@[j]).0 != key@,
            decreases n - i,
        {
            let pair: &(Vec<u8>, Vec<u8>) = &self.records[i];
            if bytes_eq(key, pair.0.as_slice()) {
                proof {
                    lemma_assoc_found(self@, key@, i as int);
                }
                if is_tombstone(pair.1.as_slice()) {
                    return None;
                }
                return Some(vstd::slice::slice_to_vec(pair.1.as_slice()));
            }
            i = i + 1;
        }
        proof {
            lemma_assoc_none(self@, key@);
        }
        None
    }

    /// The live records of the table: every record that is not a
    /// tombstone, still in key order.
    pub fn as_hashmap(&self) -> (r: Vec<(Vec<u8>, Vec<u8>)>)
        requires
            self.wf(),
        ensures
            recs_view(r@) == live_recs(self@),
            keys_sorted(recs_view(r@)),
            recs_bounded(recs_view(r@)),
            forall|q: Seq<u8>| #[trigger]
                assoc(recs_view(r@), q) == live_of(assoc(self@, q)),
    {
        let n = self.records.len();
        let mut out: Vec<(Vec<u8>, Vec<u8>)> = Vec::new();
        proof {
            assert(self@.take(0) =~= Seq::<(Seq<u8>, Seq<u8>)>::empty());
            assert(recs_view(out@) =~= live_recs(self@.take(0)));
        }
        let mut i: usize = 0;
        while i < n
            invariant
                0 <= i <= n,
                n == self.records@.len(),
                self.wf(),
                recs_view(out@) == live_recs(self@.take(i as int)),
            decreases n - i,
        {
            proof {
                lemma_live_snoc(self@.take(i as int), self@[i as int]);
                assert(self@.take(i + 1) =~= self@.take(i as int).push(self@[i as int]));
            }
            let pair: &(Vec<u8>, Vec<u8>) = &self.records[i];
            if !is_tombstone(pair.1.as_slice()) {
                let k = vstd::slice::slice_to_vec(pair.0.as_slice());
                let v = vstd::slice::slice_to_vec(pair.1.as_slice());
                out.push((k, v));
                proof {
                    assert(recs_view(out@) =~= live_recs(self@.take(i as int)) + seq![
                        self@[i as int],
                    ]);
                }
            }
            i = i + 1;
        }
        proof {
            assert(self@.take(n as int) =~= self@);
            lemma_live_sorted(self@);
            assert forall|q: Seq<u8>| #[trigger]
                assoc(recs_view(out@), q) == live_of(assoc(self@, q)) by {
                lemma_live_assoc(self@, q);
            }
        }
        out
    }

    /// The table's two file images: the data file and the index file.
    pub fn file_images(&self) -> (r: (Vec<u8>, Vec<u8>))
        requires
            self.wf(),
        ensures
            r.0@ == spec_enc_records(self@),
            r.1@ == spec_enc_index(self@),
    {
        proof {
            lemma_bounded_fit(self@);
        }
        encode_table(&self.records)
    }

    /// Decode and validate a table from its two file images.
    ///
    /// Succeeds exactly on the images of a well-formed table: the data
    /// image parses, its keys strictly increase, keys and values are
    /// nonempty, and the index image holds the records' offsets.
    pub fn from_files(level: u16, id: String, data: &[u8], index: &[u8]) -> (r: Result<
        SSTable,
        RkvError,
    >)
        ensures
            match r {
                Ok(s) => {
                    &&& spec_parse(data@) == Some(s@)
                    &&& s.wf()
                    &&& index@ == spec_enc_index(s@)
                    &&& s.level == level
                    &&& s.id == id
                },
                Err(e) => {
                    &&& match spec_parse(data@) {
                        Some(rs) => !(keys_sorted(rs) && recs_bounded(rs) && index@
                            == spec_enc_index(rs)),
                        None => true,
                    }
                    &&& e == RkvError::Corrupt
                },
            },
    {
        let records = match parse_records(data) {
            Ok(rs) => rs,
            Err(e) => {
                return Err(e);
            },
        };
        let ghost rv = recs_view(records@);
        let n = records.len();
        let mut i: usize = 0;
        while i < n
            invariant
                0 <= i <= n,
                n == records@.len(),
                rv == recs_view(records@),
                spec_parse(data@) == Some(rv),
                recs_fit(rv),
                forall|m: int| 0 <= m < i ==> 1 <= (#[trigger] rv[m]).0.len(),
                forall|m: int| 0 <= m < i ==> 1 <= (#[trigger] rv[m]).1.len(),
                forall|m: int| 0 <= m < i && m < n - 1 ==> lex_lt(
                    (#[trigger] rv[m]).0,
                    rv[m + 1].0,
                ),
            decreases n - i,
        {
            let pair: &(Vec<u8>, Vec<u8>) = &records[i];
            proof {
                assert(rv[i as int] == (records@[i as int].0@, records@[i as int].1@));
            }
            if pair.0.len() == 0 || pair.1.len() == 0 {
                proof {
                    assert(!recs_bounded(rv));
                }
                return Err(RkvError::Corrupt);
            }
            if i + 1 < n {
                let next: &(Vec<u8>, Vec<u8>) = &records[i + 1];
                proof {
                    assert(rv[i + 1] == (records@[i + 1].0@, records@[i + 1].1@));
                }
                match lex_cmp(pair.0.as_slice(), next.0.as_slice()) {
                    KeyCmp::Lt => {},
                    _ => {
                        proof {
                            crate::order::lemma_lex_trichotomy(rv[i as int].0, rv[i + 1].0);
                            assert(!lex_lt(rv[i as int].0, rv[i + 1].0));
                            assert(!keys_sorted(rv));
                        }
                        return Err(RkvError::Corrupt);
                    },
                }
            }
            i = i + 1;
        }
        proof {
            lemma_adjacent_sorted(rv);
            assert(recs_bounded(rv));
        }
        let images = encode_table(&records);
        if !bytes_eq(images.1.as_slice(), index) {
            return Err(RkvError::Corrupt);
        }
        Ok(SSTable { level, id, records })
    }
}

/// Within any single SST the keys strictly increase: for records `i < j`
/// the key at `i` sorts below the key at `j` byte-wise.
pub proof fn lemma_sst_key_order(t: SSTable, i: int, j: int)
    requires
        t.wf(),
        0 <= i < j < t@.len(),
    ensures
        lex_lt(t@[i].0, t@[j].0),
{
}

/// The catalog's mathematical image: each table as its record list, oldest
/// first.
pub open spec fn sst_views(ts: Seq<SSTable>) -> Seq<Seq<(Seq<u8>, Seq<u8>)>> {
    Seq::new(ts.len(), |i: int| ts[i]@)
}

/// Every table of the catalog is well formed.
pub open spec fn all_wf(ts: Seq<SSTable>) -> bool {
    forall|i: int| 0 <= i < ts.len() ==> (#[trigger] ts[i]).wf()
}

/// A fresh empty table one level above the given one, under a new unique
/// identifier.
pub fn create_sstable(level: u16) -> (r: SSTable)
    ensures
        r.wf(),
        r@ == Seq::<(Seq<u8>, Seq<u8>)>::empty(),
        r.level == if level == u16::MAX {
            u16::MAX
        } else {
            (level + 1) as u16
        },
        r.id@.len() == 36,
{
    let this_level = if level == u16::MAX {
        u16::MAX
    } else {
        level + 1
    };
    let id = fresh_uuid();
    SSTable::new(this_level, id)
}

} // verus!
