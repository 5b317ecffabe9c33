//! Binary codec for the SST file format.
//!
//! A data file is a sequence of records, each
//! `u16 key_len | key | u32 val_len | value` (little endian); the sibling
//! index file is a dense array of `u64` absolute byte offsets into the data
//! file, one per record.  `spec_enc_records` and `spec_enc_index` are the
//! mathematical images of the two files; `spec_parse` is the inverse of
//! `spec_enc_records` and is computed by `parse_records`.

use vstd::prelude::*;

use vstd::bytes::{
    lemma_auto_spec_u16_to_from_le_bytes, lemma_auto_spec_u32_to_from_le_bytes,
    spec_u16_to_le_bytes, spec_u16_from_le_bytes, spec_u32_to_le_bytes, spec_u32_from_le_bytes,
    spec_u64_to_le_bytes, u16_from_le_bytes, u16_to_le_bytes, u32_from_le_bytes, u32_to_le_bytes,
    u64_to_le_bytes,
};
use vstd::slice::{slice_subrange, slice_to_vec};

use crate::recs::{recs_fit, recs_view};
use crate::RkvError;

verus! {

/// The encoding of one record.
pub open spec fn spec_enc_record(k: Seq<u8>, v: Seq<u8>) -> Seq<u8> {
    spec_u16_to_le_bytes(k.len() as u16) + k + spec_u32_to_le_bytes(v.len() as u32) + v
}

/// The number of bytes one record occupies.
pub open spec fn spec_rec_len(r: (Seq<u8>, Seq<u8>)) -> int {
    6 + r.0.len() as int + r.1.len() as int
}

/// The encoding of a record list: the image of a data file.
pub open spec fn spec_enc_records(rs: Seq<(Seq<u8>, Seq<u8>)>) -> Seq<u8>
    decreases rs.len(),
{
    if rs.len() == 0 {
        Seq::empty()
    } else {
        spec_enc_record(rs[0].0, rs[0].1) + spec_enc_records(rs.skip(1))
    }
}

/// The index entries of a record list laid out from byte offset `off`.
pub open spec fn spec_enc_index_from(rs: Seq<(Seq<u8>, Seq<u8>)>, off: int) -> Seq<u8>
    decreases rs.len(),
{
    if rs.len() == 0 {
        Seq::empty()
    } else {
        spec_u64_to_le_bytes(off as u64) + spec_enc_index_from(rs.skip(1), off + spec_rec_len(rs[0]))
    }
}

/// The image of an index file: one `u64` offset per record.
pub open spec fn spec_enc_index(rs: Seq<(Seq<u8>, Seq<u8>)>) -> Seq<u8> {
    spec_enc_index_from(rs, 0)
}

/// Record lists bounded as `recs_bounded` asks encode record by record;
/// the length of each record's encoding is its `spec_rec_len`.
pub proof fn lemma_enc_record_len(k: Seq<u8>, v: Seq<u8>)
    requires
        k.len() <= 0xFFFF,
        v.len() <= 0xFFFFFFFF,
    ensures
        spec_enc_record(k, v).len() == 6 + k.len() + v.len(),
{
    lemma_auto_spec_u16_to_from_le_bytes();
    lemma_auto_spec_u32_to_from_le_bytes();
}

/// The data file of `n` records is the data file of the first `n - 1`
/// followed by the encoding of the last.
pub proof fn lemma_enc_records_snoc(rs: Seq<(Seq<u8>, Seq<u8>)>)
    requires
        rs.len() > 0,
    ensures
        spec_enc_records(rs) == spec_enc_records(rs.drop_last()) + spec_enc_record(
            rs.last().0,
            rs.last().1,
        ),
    decreases rs.len(),
{
    if rs.len() == 1 {
        assert(rs.drop_last() =~= Seq::empty());
        assert(rs.skip(1) =~= Seq::<(Seq<u8>, Seq<u8>)>::empty());
        assert(spec_enc_records(rs) =~= spec_enc_records(rs.drop_last()) + spec_enc_record(
            rs.last().0,
            rs.last().1,
        ));
    } else {
        lemma_enc_records_snoc(rs.skip(1));
        assert(rs.skip(1).drop_last() =~= rs.drop_last().skip(1));
        assert(rs.skip(1).last() == rs.last());
        assert(rs.drop_last()[0] == rs[0]);
        assert(spec_enc_records(rs) =~= spec_enc_records(rs.drop_last()) + spec_enc_record(
            rs.last().0,
            rs.last().1,
        ));
    }
}

/// The index file of `n` records is the index file of the first `n - 1`
/// followed by one offset entry: the length of the data file of the first
/// `n - 1` records.
pub proof fn lemma_enc_index_snoc(rs: Seq<(Seq<u8>, Seq<u8>)>, off: int)
    requires
        rs.len() > 0,
    ensures
        spec_enc_index_from(rs, off) == spec_enc_index_from(rs.drop_last(), off)
            + spec_u64_to_le_bytes(
            (off + spec_enc_records_len_sum(rs.drop_last())) as u64,
        ),
    decreases rs.len(),
{
    vstd::bytes::lemma_auto_spec_u64_to_from_le_bytes();
    if rs.len() == 1 {
        assert(rs.drop_last() =~= Seq::<(Seq<u8>, Seq<u8>)>::empty());
        assert(rs.skip(1) =~= Seq::<(Seq<u8>, Seq<u8>)>::empty());
        assert(spec_enc_records_len_sum(rs.drop_last()) == 0);
        assert(spec_enc_index_from(rs.skip(1), off + spec_rec_len(rs[0]))
            == Seq::<u8>::empty());
        assert(spec_enc_index_from(rs.drop_last(), off) == Seq::<u8>::empty());
        assert(spec_enc_index_from(rs, off) =~= spec_u64_to_le_bytes(off as u64));
        assert((off + spec_enc_records_len_sum(rs.drop_last())) as u64 == off as u64);
        assert(spec_enc_index_from(rs.drop_last(), off) + spec_u64_to_le_bytes(
            (off + spec_enc_records_len_sum(rs.drop_last())) as u64,
        ) =~= spec_u64_to_le_bytes(off as u64));
    } else {
        lemma_enc_index_snoc(rs.skip(1), off + spec_rec_len(rs[0]));
        assert(rs.skip(1).drop_last() =~= rs.drop_last().skip(1));
        assert(rs.skip(1).last() == rs.last());
        assert(rs.drop_last()[0] == rs[0]);
        assert(spec_enc_records_len_sum(rs.drop_last()) == spec_rec_len(rs[0])
            + spec_enc_records_len_sum(rs.drop_last().skip(1)));
        assert(spec_enc_index_from(rs, off) =~= spec_enc_index_from(rs.drop_last(), off)
            + spec_u64_to_le_bytes((off + spec_enc_records_len_sum(rs.drop_last())) as u64));
    }
}

/// The sum of the records' lengths, as the offsets count them.
pub open spec fn spec_enc_records_len_sum(rs: Seq<(Seq<u8>, Seq<u8>)>) -> int
    decreases rs.len(),
{
    if rs.len() == 0 {
        0
    } else {
        spec_rec_len(rs[0]) + spec_enc_records_len_sum(rs.skip(1))
    }
}

/// For a record list that fits the format the data file's length is that
/// sum.
pub proof fn lemma_enc_records_len(rs: Seq<(Seq<u8>, Seq<u8>)>)
    requires
        recs_fit(rs),
    ensures
        spec_enc_records(rs).len() == spec_enc_records_len_sum(rs),
    decreases rs.len(),
{
    if rs.len() > 0 {
        assert(recs_fit(rs.skip(1))) by {
            assert(forall|i: int|
                0 <= i < rs.skip(1).len() ==> rs.skip(1)[i] == rs[i + 1]);
        }
        lemma_enc_records_len(rs.skip(1));
        lemma_enc_record_len(rs[0].0, rs[0].1);
    }
}

/// The index file holds exactly eight bytes per record.
pub proof fn lemma_enc_index_len(rs: Seq<(Seq<u8>, Seq<u8>)>, off: int)
    ensures
        spec_enc_index_from(rs, off).len() == 8 * rs.len(),
    decreases rs.len(),
{
    if rs.len() > 0 {
        lemma_enc_index_len(rs.skip(1), off + spec_rec_len(rs[0]));
        vstd::bytes::lemma_auto_spec_u64_to_from_le_bytes();
    }
}

proof fn lemma_index_entry_from(rs: Seq<(Seq<u8>, Seq<u8>)>, off: int, i: int)
    requires
        0 <= i < rs.len(),
    ensures
        spec_enc_index_from(rs, off).subrange(8 * i, 8 * i + 8) == spec_u64_to_le_bytes(
            (off + spec_enc_records_len_sum(rs.take(i))) as u64,
        ),
    decreases i,
{
    vstd::bytes::lemma_auto_spec_u64_to_from_le_bytes();
    lemma_enc_index_len(rs, off);
    lemma_enc_index_len(rs.skip(1), off + spec_rec_len(rs[0]));
    if i == 0 {
        assert(rs.take(0) =~= Seq::empty());
        assert(spec_enc_records_len_sum(rs.take(0)) == 0);
        assert(spec_enc_index_from(rs, off).subrange(0, 8) =~= spec_u64_to_le_bytes(
            off as u64,
        ));
    } else {
        lemma_index_entry_from(rs.skip(1), off + spec_rec_len(rs[0]), i - 1);
        assert(spec_enc_index_from(rs, off).subrange(8 * i, 8 * i + 8) =~= spec_enc_index_from(
            rs.skip(1),
            off + spec_rec_len(rs[0]),
        ).subrange(8 * (i - 1), 8 * (i - 1) + 8));
        assert(rs.take(i)[0] == rs[0]);
        assert(rs.take(i).skip(1) =~= rs.skip(1).take(i - 1));
        assert(spec_enc_records_len_sum(rs.take(i)) == spec_rec_len(rs[0])
            + spec_enc_records_len_sum(rs.skip(1).take(i - 1)));
    }
}

/// Index entry `i` holds the byte offset of record `i` in the data file:
/// the length of the encoding of the records before it.
pub proof fn lemma_index_entry(rs: Seq<(Seq<u8>, Seq<u8>)>, i: int)
    requires
        recs_fit(rs),
        0 <= i < rs.len(),
    ensures
        spec_enc_index(rs).subrange(8 * i, 8 * i + 8) == spec_u64_to_le_bytes(
            spec_enc_records(rs.take(i)).len() as u64,
        ),
{
    lemma_index_entry_from(rs, 0, i);
    assert(recs_fit(rs.take(i))) by {
        assert(forall|j: int| 0 <= j < rs.take(i).len() ==> rs.take(i)[j] == rs[j]);
    }
    lemma_enc_records_len(rs.take(i));
}

/// Append a key, prefixed by its length as a little-endian `u16`.
pub fn set_key(buf: &mut Vec<u8>, key_len: usize, key: &[u8]) -> (r: usize)
    requires
        key_len == key@.len(),
        key@.len() <= 0xFFFF,
    ensures
        final(buf)@ == old(buf)@ + spec_u16_to_le_bytes(key@.len() as u16) + key@,
        r == final(buf)@.len(),
{
    let len_bytes = u16_to_le_bytes(key_len as u16);
    buf.extend_from_slice(len_bytes.as_slice());
    buf.extend_from_slice(key);
    proof {
        assert(buf@ =~= old(buf)@ + spec_u16_to_le_bytes(key@.len() as u16) + key@);
    }
    buf.len()
}

/// Append a value, prefixed by its length as a little-endian `u32`.
pub fn set_value(buf: &mut Vec<u8>, value_len: usize, value: &[u8]) -> (r: usize)
    requires
        value_len == value@.len(),
        value@.len() <= 0xFFFFFFFF,
    ensures
        final(buf)@ == old(buf)@ + spec_u32_to_le_bytes(value@.len() as u32) + value@,
        r == final(buf)@.len(),
{
    let len_bytes = u32_to_le_bytes(value_len as u32);
    buf.extend_from_slice(len_bytes.as_slice());
    buf.extend_from_slice(value);
    proof {
        assert(buf@ =~= old(buf)@ + spec_u32_to_le_bytes(value@.len() as u32) + value@);
    }
    buf.len()
}

/// Append one offset entry, a little-endian `u64`, to an index image.
pub fn set_index(index_buf: &mut Vec<u8>, index: u64)
    ensures
        final(index_buf)@ == old(index_buf)@ + spec_u64_to_le_bytes(index),
{
    let entry = u64_to_le_bytes(index);
    index_buf.extend_from_slice(entry.as_slice());
    proof {
        assert(index_buf@ =~= old(index_buf)@ + spec_u64_to_le_bytes(index));
    }
}

/// Encode a record list as the pair of file images: the data file and its
/// sibling index file.
pub fn encode_table(rs: &Vec<(Vec<u8>, Vec<u8>)>) -> (r: (Vec<u8>, Vec<u8>))
    requires
        recs_fit(recs_view(rs@)),
    ensures
        r.0@ == spec_enc_records(recs_view(rs@)),
        r.1@ == spec_enc_index(recs_view(rs@)),
{
    let ghost rv = recs_view(rs@);
    let mut data: Vec<u8> = Vec::new();
    let mut index: Vec<u8> = Vec::new();
    let n = rs.len();
    proof {
        assert(rv.take(0) =~= Seq::empty());
        assert(data@ =~= spec_enc_records(rv.take(0)));
        assert(index@ =~= spec_enc_index_from(rv.take(0), 0));
    }
    let mut i: usize = 0;
    while i < n
        invariant
            0 <= i <= n,
            n == rs@.len(),
            rv == recs_view(rs@),
            recs_fit(rv),
            data@ == spec_enc_records(rv.take(i as int)),
            index@ == spec_enc_index_from(rv.take(i as int), 0),
        decreases n - i,
    {
        let ghost pre = rv.take(i as int);
        proof {
            assert(recs_fit(pre)) by {
                assert(forall|j: int| 0 <= j < pre.len() ==> pre[j] == rv[j]);
            }
            lemma_enc_records_len(pre);
            lemma_enc_records_snoc(rv.take(i + 1));
            lemma_enc_index_snoc(rv.take(i + 1), 0);
            assert(rv.take(i + 1).drop_last() =~= pre);
            assert(rv.take(i + 1).last() == rv[i as int]);
        }
        let seek_pos = data.len() as u64;
        set_index(&mut index, seek_pos);
        let pair: &(Vec<u8>, Vec<u8>) = &rs[i];
        set_key(&mut data, pair.0.len(), pair.0.as_slice());
        set_value(&mut data, pair.1.len(), pair.1.as_slice());
        proof {
            assert(data@ =~= spec_enc_records(pre) + spec_enc_record(
                rv[i as int].0,
                rv[i as int].1,
            ));
        }
        i = i + 1;
    }
    proof {
        assert(rv.take(n as int) =~= rv);
    }
    (data, index)
}

/// The mathematical parse of a data file image: the record list it encodes,
/// or `None` where a length field overruns the image or a record is
/// truncated.
pub open spec fn spec_parse(bytes: Seq<u8>) -> Option<Seq<(Seq<u8>, Seq<u8>)>>
    decreases bytes.len(),
{
    if bytes.len() == 0 {
        Some(Seq::empty())
    } else if bytes.len() < 2 {
        None
    } else {
        let klen = spec_u16_from_le_bytes(bytes.subrange(0, 2)) as int;
        if bytes.len() - 2 < klen {
            None
        } else {
            let k = bytes.subrange(2, 2 + klen);
            if bytes.len() - 2 - klen < 4 {
                None
            } else {
                let vlen = spec_u32_from_le_bytes(bytes.subrange(2 + klen, 6 + klen)) as int;
                if bytes.len() - 6 - klen < vlen {
                    None
                } else {
                    let v = bytes.subrange(6 + klen, 6 + klen + vlen);
                    match spec_parse(bytes.skip(6 + klen + vlen)) {
                        None => None,
                        Some(rest) => Some(seq![(k, v)] + rest),
                    }
                }
            }
        }
    }
}

/// Decoding inverts encoding: parsing the data file written for a record
/// list that fits the format yields that record list back.
pub proof fn lemma_parse_encode(rs: Seq<(Seq<u8>, Seq<u8>)>)
    requires
        recs_fit(rs),
    ensures
        spec_parse(spec_enc_records(rs)) == Some(rs),
    decreases rs.len(),
{
    lemma_auto_spec_u16_to_from_le_bytes();
    lemma_auto_spec_u32_to_from_le_bytes();
    if rs.len() == 0 {
        assert(spec_enc_records(rs) =~= Seq::<u8>::empty());
        assert(spec_parse(spec_enc_records(rs)) == Some(Seq::<(Seq<u8>, Seq<u8>)>::empty()));
        assert(rs =~= Seq::<(Seq<u8>, Seq<u8>)>::empty());
    } else {
        let k = rs[0].0;
        let v = rs[0].1;
        let bytes = spec_enc_records(rs);
        let tail = spec_enc_records(rs.skip(1));
        lemma_enc_record_len(k, v);
        assert(recs_fit(rs.skip(1))) by {
            assert(forall|i: int|
                0 <= i < rs.skip(1).len() ==> rs.skip(1)[i] == rs[i + 1]);
        }
        lemma_parse_encode(rs.skip(1));
        let klen = k.len() as int;
        let vlen = v.len() as int;
        assert(bytes.len() == 6 + klen + vlen + tail.len());
        assert(bytes.subrange(0, 2) =~= spec_u16_to_le_bytes(k.len() as u16));
        assert(spec_u16_from_le_bytes(bytes.subrange(0, 2)) as int == klen);
        assert(bytes.subrange(2, 2 + klen) =~= k);
        assert(bytes.subrange(2 + klen, 6 + klen) =~= spec_u32_to_le_bytes(v.len() as u32));
        assert(spec_u32_from_le_bytes(bytes.subrange(2 + klen, 6 + klen)) as int == vlen);
        assert(bytes.subrange(6 + klen, 6 + klen + vlen) =~= v);
        assert(bytes.skip(6 + klen + vlen) =~= tail);
        assert(spec_parse(bytes) == Some(seq![(k, v)] + rs.skip(1)));
        assert(seq![(k, v)] + rs.skip(1) =~= rs);
    }
}

/// `spec_parse(o)` with a parsed prefix put back in front.
pub open spec fn opt_prepend(
    pre: Seq<(Seq<u8>, Seq<u8>)>,
    o: Option<Seq<(Seq<u8>, Seq<u8>)>>,
) -> Option<Seq<(Seq<u8>, Seq<u8>)>> {
    match o {
        Some(rest) => Some(pre + rest),
        None => None,
    }
}

/// Decode a whole data file image into its record list.
pub fn parse_records(data: &[u8]) -> (r: Result<Vec<(Vec<u8>, Vec<u8>)>, RkvError>)
    ensures
        match r {
            Ok(out) => {
                &&& spec_parse(data@) == Some(recs_view(out@))
                &&& recs_fit(recs_view(out@))
            },
            Err(e) => {
                &&& spec_parse(data@) is None
                &&& e == RkvError::Corrupt
            },
        },
{
    let mut out: Vec<(Vec<u8>, Vec<u8>)> = Vec::new();
    let n = data.len();
    let mut i: usize = 0;
    proof {
        assert(data@.skip(0) =~= data@);
        assert(recs_view(out@) =~= Seq::<(Seq<u8>, Seq<u8>)>::empty());
    }
    while i < n
        invariant
            0 <= i <= n,
            n == data@.len(),
            spec_parse(data@) == opt_prepend(recs_view(out@), spec_parse(data@.skip(i as int))),
            recs_fit(recs_view(out@)),
        decreases n - i,
    {
        let ghost sk = data@.skip(i as int);
        let ghost out0 = recs_view(out@);
        let rem = n - i;
        if rem < 2 {
            return Err(RkvError::Corrupt);
        }
        let klen = u16_from_le_bytes(slice_subrange(data, i, i + 2)) as usize;
        proof {
            assert(sk.subrange(0, 2) =~= data@.subrange(i as int, i + 2));
            assert(spec_u16_from_le_bytes(sk.subrange(0, 2)) as int == klen);
        }
        if rem - 2 < klen {
            return Err(RkvError::Corrupt);
        }
        let k = slice_to_vec(slice_subrange(data, i + 2, i + 2 + klen));
        proof {
            assert(sk.subrange(2, 2 + klen) =~= data@.subrange(i + 2, i + 2 + klen));
        }
        if rem - 2 - klen < 4 {
            return Err(RkvError::Corrupt);
        }
        let vlen = u32_from_le_bytes(slice_subrange(data, i + 2 + klen, i + 6 + klen)) as usize;
        proof {
            assert(sk.subrange(2 + klen, 6 + klen) =~= data@.subrange(
                i + 2 + klen,
                i + 6 + klen,
            ));
            assert(spec_u32_from_le_bytes(sk.subrange(2 + klen, 6 + klen)) as int == vlen);
        }
        if rem - 6 - klen < vlen {
            return Err(RkvError::Corrupt);
        }
        let v = slice_to_vec(slice_subrange(data, i + 6 + klen, i + 6 + klen + vlen));
        proof {
            assert(sk.subrange(6 + klen, 6 + klen + vlen) =~= data@.subrange(
                i + 6 + klen,
                i + 6 + klen + vlen,
            ));
            assert(sk.skip(6 + klen + vlen) =~= data@.skip(i + 6 + klen + vlen));
            assert(spec_parse(sk) == opt_prepend(
                seq![(k@, v@)],
                spec_parse(data@.skip(i + 6 + klen + vlen)),
            ));
        }
        out.push((k, v));
        proof {
            assert(recs_view(out@) =~= out0 + seq![(k@, v@)]);
            match spec_parse(data@.skip(i + 6 + klen + vlen)) {
                Some(rest) => {
                    assert(out0 + (seq![(k@, v@)] + rest) =~= (out0 + seq![(k@, v@)]) + rest);
                },
                None => {},
            }
        }
        i = i + 6 + klen + vlen;
    }
    proof {
        assert(data@.skip(i as int) =~= Seq::<u8>::empty());
        assert(recs_view(out@) + Seq::<(Seq<u8>, Seq<u8>)>::empty() =~= recs_view(out@));
    }
    Ok(out)
}

/// Read the record at position `pos` of an SST through its index image:
/// the offset entry locates the record in the data image.
pub fn key_value_at(pos: usize, index: &[u8], data: &[u8]) -> (r: Result<
    (Vec<u8>, Vec<u8>),
    RkvError,
>)
    ensures
        match r {
            Ok(p) => spec_parse(data@) matches Some(rs) && index@ == spec_enc_index(rs) && pos
                < rs.len() && rs[pos as int] == (p.0@, p.1@),
            Err(e) => {
                &&& !(spec_parse(data@) matches Some(rs) && index@ == spec_enc_index(rs) && pos
                    < rs.len())
                &&& e == RkvError::Corrupt
            },
        },
{
    let rs = match parse_records(data) {
        Ok(rs) => rs,
        Err(e) => {
            return Err(e);
        },
    };
    let images = encode_table(&rs);
    if !crate::order::bytes_eq(images.1.as_slice(), index) {
        return Err(RkvError::Corrupt);
    }
    if pos >= rs.len() {
        return Err(RkvError::Corrupt);
    }
    let pair: &(Vec<u8>, Vec<u8>) = &rs[pos];
    let k = slice_to_vec(pair.0.as_slice());
    let v = slice_to_vec(pair.1.as_slice());
    Ok((k, v))
}

} // verus!
