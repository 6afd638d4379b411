//! Stored records and the `.idb` database file format.
//!
//! ```text
//! [MAGIC "IDB2"][record count: u32]
//! per record:
//!   [id length: u16][id bytes]
//!   [text length: u32][text bytes]
//!   [vector dims: u32][f32 bit patterns: u32 x dims]
//!   [timestamp: u64]
//!   [tag count: u16][[tag length: u16][tag bytes] x count]
//! ```
//! Files written before tags existed start with "IDB1" and have no tag block.
use vstd::prelude::*;
use crate::le::{le_bytes, pow256, lemma_le_bytes_len, lemma_le_value_bound, push_le, lemma_pow_values};
use crate::codec::{
    FormatError, sp_uint, sp_text, sp_words, prepend, utf8_of, words_bytes, read_uint, read_text,
    read_words, push_str_bytes, utf8_len, push_words, lemma_split, lemma_text_roundtrip,
    lemma_uint_roundtrip, lemma_words_roundtrip, lemma_words_bytes_len,
};

verus! {

/// Largest text field a database file may hold, in bytes.
pub const MAX_TEXT_BYTES: usize = 10485760;
/// Largest vector a database file may hold.
pub const MAX_VECTOR_DIM: usize = 16384;
/// Most tags one record may carry in a database file.
pub const MAX_TAG_COUNT: usize = 1024;
/// Largest tag a database file may hold, in bytes.
pub const MAX_TAG_BYTES: usize = 4096;
/// Most records a database file may hold.
pub const MAX_RECORDS: usize = 10000000;

/// One stored record. Vector components are `f32` bit patterns.
#[derive(Debug, Clone, PartialEq, Eq)]
pub struct IntentRecord {
    pub id: String,
    pub text: String,
    pub vector: Vec<u32>,
    pub timestamp: u64,
    pub tags: Vec<String>,
}

/// A record as read from a file: id, text, vector, timestamp, tags.
pub type RecordRead = (Seq<char>, Seq<char>, Seq<u32>, nat, Seq<Seq<char>>);

/// The tags of a record as texts.
pub open spec fn tags_of(r: IntentRecord) -> Seq<Seq<char>> {
    r.tags@.map_values(|t: String| t@)
}

/// What a record reads back as.
pub open spec fn record_read(r: IntentRecord) -> RecordRead {
    (r.id@, r.text@, r.vector@, r.timestamp as nat, tags_of(r))
}

/// The first four bytes of a database file with tags.
pub open spec fn db_magic_v2() -> Seq<u8> {
    seq![0x49u8, 0x44u8, 0x42u8, 0x32u8]
}

/// The first four bytes of a database file without tags.
pub open spec fn db_magic_v1() -> Seq<u8> {
    seq![0x49u8, 0x44u8, 0x42u8, 0x31u8]
}

/// Reading `k` tags.
pub open spec fn sp_tags(b: Seq<u8>, pos: int, k: nat) -> Result<(Seq<Seq<char>>, int), FormatError>
    decreases k,
{
    if k == 0 {
        Ok((Seq::empty(), pos))
    } else {
        match sp_uint(b, pos, 2) {
            Err(e) => Err(e),
            Ok((tl, p1)) => if tl > MAX_TAG_BYTES {
                Err(FormatError::TagTooLarge(tl as u64))
            } else {
                match sp_text(b, p1, tl) {
                    Err(e) => Err(e),
                    Ok((t, p2)) => prepend(seq![t], sp_tags(b, p2, (k - 1) as nat)),
                }
            },
        }
    }
}

/// Reading one record.
pub open spec fn sp_record(b: Seq<u8>, pos: int, has_tags: bool) -> Result<(RecordRead, int), FormatError> {
    match sp_uint(b, pos, 2) {
        Err(e) => Err(e),
        Ok((idl, p1)) => match sp_text(b, p1, idl) {
            Err(e) => Err(e),
            Ok((id, p2)) => match sp_uint(b, p2, 4) {
                Err(e) => Err(e),
                Ok((tl, p3)) => if tl > MAX_TEXT_BYTES {
                    Err(FormatError::TextTooLarge(tl as u64))
                } else {
                    match sp_text(b, p3, tl) {
                        Err(e) => Err(e),
                        Ok((text, p4)) => match sp_uint(b, p4, 4) {
                            Err(e) => Err(e),
                            Ok((dim, p5)) => if dim > MAX_VECTOR_DIM {
                                Err(FormatError::VectorTooLarge(dim as u64))
                            } else {
                                match sp_words(b, p5, dim) {
                                    Err(e) => Err(e),
                                    Ok((v, p6)) => match sp_uint(b, p6, 8) {
                                        Err(e) => Err(e),
                                        Ok((ts, p7)) => if !has_tags {
                                            Ok(((id, text, v, ts, Seq::empty()), p7))
                                        } else {
                                            match sp_uint(b, p7, 2) {
                                                Err(e) => Err(e),
                                                Ok((tc, p8)) => if tc > MAX_TAG_COUNT {
                                                    Err(FormatError::TooManyTags(tc as u64))
                                                } else {
                                                    match sp_tags(b, p8, tc) {
                                                        Err(e) => Err(e),
                                                        Ok((tags, p9)) => Ok(((id, text, v, ts, tags), p9)),
                                                    }
                                                },
                                            }
                                        },
                                    },
                                }
                            },
                        },
                    }
                },
            },
        },
    }
}

/// Reading `k` records.
pub open spec fn sp_records(b: Seq<u8>, pos: int, k: nat, has_tags: bool) -> Result<(Seq<RecordRead>, int), FormatError>
    decreases k,
{
    if k == 0 {
        Ok((Seq::empty(), pos))
    } else {
        match sp_record(b, pos, has_tags) {
            Err(e) => Err(e),
            Ok((r, p1)) => prepend(seq![r], sp_records(b, p1, (k - 1) as nat, has_tags)),
        }
    }
}

/// Reading a whole database file.
pub open spec fn sp_db(b: Seq<u8>) -> Result<Seq<RecordRead>, FormatError> {
    if b.len() < 4 {
        Err(FormatError::Truncated)
    } else if b.subrange(0, 4) != db_magic_v2() && b.subrange(0, 4) != db_magic_v1() {
        Err(FormatError::BadMagic)
    } else {
        match sp_uint(b, 4, 4) {
            Err(e) => Err(e),
            Ok((count, p)) => if count > MAX_RECORDS {
                Err(FormatError::TooManyRecords(count as u64))
            } else {
                match sp_records(b, p, count, b.subrange(0, 4) == db_magic_v2()) {
                    Err(e) => Err(e),
                    Ok((rs, _)) => Ok(rs),
                }
            },
        }
    }
}

/// Reads `k` tags.
fn read_tags(b: &[u8], pos: usize, k: usize) -> (r: Result<(Vec<String>, usize), FormatError>)
    ensures
        match sp_tags(b@, pos as int, k as nat) {
            Ok((v, p)) => r matches Ok((rv, rp)) && rv@.map_values(|t: String| t@) == v && rp as int == p,
            Err(e) => r == Err::<(Vec<String>, usize), FormatError>(e),
        },
{
    let ghost total = sp_tags(b@, pos as int, k as nat);
    let ghost mut acc: Seq<Seq<char>> = Seq::empty();
    let mut out: Vec<String> = Vec::new();
    let mut p = pos;
    let mut i: usize = 0;
    while i < k
        invariant
            i <= k,
            total == sp_tags(b@, pos as int, k as nat),
            total == prepend(acc, sp_tags(b@, p as int, (k - i) as nat)),
            out@.map_values(|t: String| t@) == acc,
        decreases k - i,
    {
        let (tl, p1) = match read_uint(b, p, 2) {
            Ok(x) => x,
            Err(e) => return Err(e),
        };
        if tl > MAX_TAG_BYTES as u64 {
            return Err(FormatError::TagTooLarge(tl));
        }
        let (t, p2) = match read_text(b, p1, tl as usize) {
            Ok(x) => x,
            Err(e) => return Err(e),
        };
        proof {
            let old_acc = acc;
            acc = acc.push(t@);
            match sp_tags(b@, p2 as int, (k - i - 1) as nat) {
                Err(e) => {},
                Ok((rest, pp)) => {
                    assert(old_acc + (seq![t@] + rest) =~= acc + rest);
                },
            }
        }
        let ghost before = out@;
        out.push(t);
        assert(out@.map_values(|t: String| t@) =~= before.map_values(|t: String| t@).push(t@));
        p = p2;
        i = i + 1;
    }
    assert(acc + Seq::<Seq<char>>::empty() =~= acc);
    Ok((out, p))
}

/// Reads one record.
fn read_record(b: &[u8], pos: usize, has_tags: bool) -> (r: Result<(IntentRecord, usize), FormatError>)
    ensures
        match sp_record(b@, pos as int, has_tags) {
            Ok((rr, p)) => r matches Ok((rec, rp)) && record_read(rec) == rr && rp as int == p,
            Err(e) => r == Err::<(IntentRecord, usize), FormatError>(e),
        },
{
    let (idl, p1) = match read_uint(b, pos, 2) { Ok(x) => x, Err(e) => return Err(e) };
    proof { lemma_le_value_bound(b@.subrange(pos as int, pos + 2)); lemma_pow_values(); }
    let (id, p2) = match read_text(b, p1, idl as usize) { Ok(x) => x, Err(e) => return Err(e) };
    let (tl, p3) = match read_uint(b, p2, 4) { Ok(x) => x, Err(e) => return Err(e) };
    if tl > MAX_TEXT_BYTES as u64 {
        return Err(FormatError::TextTooLarge(tl));
    }
    let (text, p4) = match read_text(b, p3, tl as usize) { Ok(x) => x, Err(e) => return Err(e) };
    let (dim, p5) = match read_uint(b, p4, 4) { Ok(x) => x, Err(e) => return Err(e) };
    if dim > MAX_VECTOR_DIM as u64 {
        return Err(FormatError::VectorTooLarge(dim));
    }
    let (vector, p6) = match read_words(b, p5, dim as usize) { Ok(x) => x, Err(e) => return Err(e) };
    let (timestamp, p7) = match read_uint(b, p6, 8) { Ok(x) => x, Err(e) => return Err(e) };
    if !has_tags {
        let rec = IntentRecord { id, text, vector, timestamp, tags: Vec::new() };
        assert(tags_of(rec) =~= Seq::<Seq<char>>::empty());
        return Ok((rec, p7));
    }
    let (tc, p8) = match read_uint(b, p7, 2) { Ok(x) => x, Err(e) => return Err(e) };
    if tc > MAX_TAG_COUNT as u64 {
        return Err(FormatError::TooManyTags(tc));
    }
    let (tags, p9) = match read_tags(b, p8, tc as usize) { Ok(x) => x, Err(e) => return Err(e) };
    let rec = IntentRecord { id, text, vector, timestamp, tags };
    Ok((rec, p9))
}

/// Reads `k` records.
fn read_records(b: &[u8], pos: usize, k: usize, has_tags: bool) -> (r: Result<Vec<IntentRecord>, FormatError>)
    ensures
        match sp_records(b@, pos as int, k as nat, has_tags) {
            Ok((v, p)) => r matches Ok(rv) && rv@.map_values(|x: IntentRecord| record_read(x)) == v,
            Err(e) => r == Err::<Vec<IntentRecord>, FormatError>(e),
        },
{
    let ghost total = sp_records(b@, pos as int, k as nat, has_tags);
    let ghost mut acc: Seq<RecordRead> = Seq::empty();
    let mut out: Vec<IntentRecord> = Vec::new();
    let mut p = pos;
    let mut i: usize = 0;
    while i < k
        invariant
            i <= k,
            total == sp_records(b@, pos as int, k as nat, has_tags),
            total == prepend(acc, sp_records(b@, p as int, (k - i) as nat, has_tags)),
            out@.map_values(|x: IntentRecord| record_read(x)) == acc,
        decreases k - i,
    {
        let (rec, p1) = match read_record(b, p, has_tags) {
            Ok(x) => x,
            Err(e) => return Err(e),
        };
        proof {
            let old_acc = acc;
            acc = acc.push(record_read(rec));
            match sp_records(b@, p1 as int, (k - i - 1) as nat, has_tags) {
                Err(e) => {},
                Ok((rest, pp)) => {
                    assert(old_acc + (seq![record_read(rec)] + rest) =~= acc + rest);
                },
            }
        }
        let ghost before = out@;
        out.push(rec);
        assert(out@.map_values(|x: IntentRecord| record_read(x)) =~= before.map_values(|x: IntentRecord| record_read(x)).push(
            record_read(rec),
        ));
        p = p1;
        i = i + 1;
    }
    assert(acc + Seq::<RecordRead>::empty() =~= acc);
    Ok(out)
}

/// Reads the records of a database file.
pub fn decode_db(b: &[u8]) -> (r: Result<Vec<IntentRecord>, FormatError>)
    ensures
        match sp_db(b@) {
            Ok(v) => r matches Ok(rv) && rv@.map_values(|x: IntentRecord| record_read(x)) == v,
            Err(e) => r == Err::<Vec<IntentRecord>, FormatError>(e),
        },
{
    if b.len() < 4 {
        return Err(FormatError::Truncated);
    }
    let is_v2 = b[0] == 0x49u8 && b[1] == 0x44u8 && b[2] == 0x42u8 && b[3] == 0x32u8;
    let is_v1 = b[0] == 0x49u8 && b[1] == 0x44u8 && b[2] == 0x42u8 && b[3] == 0x31u8;
    assert(is_v2 <==> b@.subrange(0, 4) =~= db_magic_v2());
    assert(is_v1 <==> b@.subrange(0, 4) =~= db_magic_v1());
    if !is_v2 && !is_v1 {
        return Err(FormatError::BadMagic);
    }
    let (count, p) = match read_uint(b, 4, 4) { Ok(x) => x, Err(e) => return Err(e) };
    if count > MAX_RECORDS as u64 {
        return Err(FormatError::TooManyRecords(count));
    }
    read_records(b, p, count as usize, is_v2)
}


/// Tags, one after the other, each with a 16-bit length.
pub open spec fn tags_bytes(tags: Seq<Seq<char>>) -> Seq<u8>
    decreases tags.len(),
{
    if tags.len() == 0 {
        Seq::empty()
    } else {
        le_bytes(utf8_of(tags[0]).len(), 2) + utf8_of(tags[0]) + tags_bytes(tags.drop_first())
    }
}

/// One record as stored in a file (lengths taken modulo their field widths).
pub open spec fn record_bytes(r: RecordRead) -> Seq<u8> {
    le_bytes(utf8_of(r.0).len(), 2) + utf8_of(r.0) + le_bytes(utf8_of(r.1).len(), 4) + utf8_of(r.1) + le_bytes(
        r.2.len(),
        4,
    ) + words_bytes(r.2) + le_bytes(r.3, 8) + le_bytes(r.4.len(), 2) + tags_bytes(r.4)
}

/// Records, one after the other.
pub open spec fn records_bytes(rs: Seq<RecordRead>) -> Seq<u8>
    decreases rs.len(),
{
    if rs.len() == 0 {
        Seq::empty()
    } else {
        record_bytes(rs[0]) + records_bytes(rs.drop_first())
    }
}

/// The bytes of a database file holding `rs` (the count modulo 2^32).
pub open spec fn db_bytes(rs: Seq<RecordRead>) -> Seq<u8> {
    db_magic_v2() + le_bytes(rs.len(), 4) + records_bytes(rs)
}

/// A record is within the limits the reader enforces.
pub open spec fn record_fits(r: RecordRead) -> bool {
    &&& utf8_of(r.0).len() < 0x1_0000
    &&& utf8_of(r.1).len() <= MAX_TEXT_BYTES
    &&& r.2.len() <= MAX_VECTOR_DIM
    &&& r.3 < 0x1_0000_0000_0000_0000
    &&& r.4.len() <= MAX_TAG_COUNT
    &&& forall|t: int| 0 <= t < r.4.len() ==> utf8_of(#[trigger] r.4[t]).len() <= MAX_TAG_BYTES
}

/// Writes records in the database file format.
pub fn encode_db(records: &Vec<IntentRecord>) -> (r: Vec<u8>)
    ensures
        r@ == db_bytes(records@.map_values(|x: IntentRecord| record_read(x))),
{
    let ghost rs = records@.map_values(|x: IntentRecord| record_read(x));
    let mut out: Vec<u8> = Vec::new();
    out.push(0x49u8);
    out.push(0x44u8);
    out.push(0x42u8);
    out.push(0x32u8);
    assert(out@ =~= db_magic_v2());
    push_le(&mut out, records.len() as u64, 4);
    let ghost head = out@;
    let mut i: usize = 0;
    assert(rs.skip(0) =~= rs);
    while i < records.len()
        invariant
            rs == records@.map_values(|x: IntentRecord| record_read(x)),
            i <= records@.len(),
            out@ + records_bytes(rs.skip(i as int)) == head + records_bytes(rs),
        decreases records@.len() - i,
    {
        let ghost before = out@;
        let rec = &records[i];
        push_le(&mut out, utf8_len(&rec.id) as u64, 2);
        push_str_bytes(&mut out, &rec.id);
        push_le(&mut out, utf8_len(&rec.text) as u64, 4);
        push_str_bytes(&mut out, &rec.text);
        push_le(&mut out, rec.vector.len() as u64, 4);
        push_words(&mut out, &rec.vector);
        push_le(&mut out, rec.timestamp, 8);
        push_le(&mut out, rec.tags.len() as u64, 2);
        let ghost mid = out@;
        let ghost tg = tags_of(*rec);
        let mut t: usize = 0;
        assert(tg.skip(0) =~= tg);
        while t < rec.tags.len()
            invariant
                tg == tags_of(*rec),
                t <= rec.tags@.len(),
                out@ + tags_bytes(tg.skip(t as int)) == mid + tags_bytes(tg),
            decreases rec.tags@.len() - t,
        {
            let ghost b2 = out@;
            push_le(&mut out, utf8_len(&rec.tags[t]) as u64, 2);
            push_str_bytes(&mut out, &rec.tags[t]);
            assert(tg.skip(t as int).drop_first() =~= tg.skip(t + 1));
            assert(tg.skip(t as int)[0] == rec.tags@[t as int]@);
            assert(out@ + tags_bytes(tg.skip(t + 1)) =~= b2 + tags_bytes(tg.skip(t as int)));
            t = t + 1;
        }
        assert(tg.skip(t as int) =~= Seq::<Seq<char>>::empty());
        assert(out@ =~= before + record_bytes(record_read(*rec)));
        assert(rs.skip(i as int).drop_first() =~= rs.skip(i + 1));
        assert(rs.skip(i as int)[0] == record_read(*rec));
        assert(out@ + records_bytes(rs.skip(i + 1)) =~= before + records_bytes(rs.skip(i as int)));
        i = i + 1;
    }
    assert(rs.skip(i as int) =~= Seq::<RecordRead>::empty());
    assert(out@ =~= db_bytes(rs));
    out
}


proof fn lemma_tags_roundtrip(b: Seq<u8>, pos: int, tags: Seq<Seq<char>>)
    requires
        0 <= pos,
        forall|t: int| 0 <= t < tags.len() ==> utf8_of(#[trigger] tags[t]).len() <= MAX_TAG_BYTES,
        pos + tags_bytes(tags).len() <= b.len(),
        b.subrange(pos, pos + tags_bytes(tags).len()) == tags_bytes(tags),
    ensures
        sp_tags(b, pos, tags.len()) == Ok::<(Seq<Seq<char>>, int), FormatError>((tags, pos + tags_bytes(tags).len())),
    decreases tags.len(),
{
    if tags.len() == 0 {
        assert(tags =~= Seq::<Seq<char>>::empty());
    } else {
        let t0 = utf8_of(tags[0]);
        let rest = tags.drop_first();
        lemma_le_bytes_len(t0.len(), 2);
        lemma_pow_values();
        assert(tags_bytes(tags) == le_bytes(t0.len(), 2) + t0 + tags_bytes(rest));
        lemma_split(b, pos, le_bytes(t0.len(), 2) + t0, tags_bytes(rest));
        lemma_split(b, pos, le_bytes(t0.len(), 2), t0);
        lemma_uint_roundtrip(b, pos, t0.len(), 2);
        lemma_text_roundtrip(b, pos + 2, tags[0]);
        assert forall|t: int| 0 <= t < rest.len() implies utf8_of(#[trigger] rest[t]).len() <= MAX_TAG_BYTES by {
            assert(rest[t] == tags[t + 1]);
        }
        lemma_tags_roundtrip(b, pos + 2 + t0.len(), rest);
        assert(seq![tags[0]] + rest =~= tags);
    }
}

proof fn lemma_record_roundtrip(b: Seq<u8>, pos: int, r: RecordRead)
    requires
        0 <= pos,
        record_fits(r),
        pos + record_bytes(r).len() <= b.len(),
        b.subrange(pos, pos + record_bytes(r).len()) == record_bytes(r),
    ensures
        sp_record(b, pos, true) == Ok::<(RecordRead, int), FormatError>((r, pos + record_bytes(r).len())),
{
    let id_b = utf8_of(r.0);
    let tx_b = utf8_of(r.1);
    let a0 = le_bytes(id_b.len(), 2);
    let a2 = le_bytes(tx_b.len(), 4);
    let a4 = le_bytes(r.2.len(), 4);
    let a5 = words_bytes(r.2);
    let a6 = le_bytes(r.3, 8);
    let a7 = le_bytes(r.4.len(), 2);
    let a8 = tags_bytes(r.4);
    lemma_le_bytes_len(id_b.len(), 2);
    lemma_le_bytes_len(tx_b.len(), 4);
    lemma_le_bytes_len(r.2.len(), 4);
    lemma_le_bytes_len(r.3, 8);
    lemma_le_bytes_len(r.4.len(), 2);
    lemma_words_bytes_len(r.2);
    lemma_pow_values();
    assert(record_bytes(r) == a0 + id_b + a2 + tx_b + a4 + a5 + a6 + a7 + a8);
    lemma_split(b, pos, a0 + id_b + a2 + tx_b + a4 + a5 + a6 + a7, a8);
    lemma_split(b, pos, a0 + id_b + a2 + tx_b + a4 + a5 + a6, a7);
    lemma_split(b, pos, a0 + id_b + a2 + tx_b + a4 + a5, a6);
    lemma_split(b, pos, a0 + id_b + a2 + tx_b + a4, a5);
    lemma_split(b, pos, a0 + id_b + a2 + tx_b, a4);
    lemma_split(b, pos, a0 + id_b + a2, tx_b);
    lemma_split(b, pos, a0 + id_b, a2);
    lemma_split(b, pos, a0, id_b);
    let p1 = pos + 2;
    let p2 = p1 + id_b.len();
    let p3 = p2 + 4;
    let p4 = p3 + tx_b.len();
    let p5 = p4 + 4;
    let p6 = p5 + 4 * r.2.len();
    let p7 = p6 + 8;
    let p8 = p7 + 2;
    lemma_uint_roundtrip(b, pos, id_b.len(), 2);
    lemma_text_roundtrip(b, p1, r.0);
    lemma_uint_roundtrip(b, p2, tx_b.len(), 4);
    lemma_text_roundtrip(b, p3, r.1);
    lemma_uint_roundtrip(b, p4, r.2.len(), 4);
    lemma_words_roundtrip(b, p5, r.2);
    lemma_uint_roundtrip(b, p6, r.3, 8);
    lemma_uint_roundtrip(b, p7, r.4.len(), 2);
    lemma_tags_roundtrip(b, p8, r.4);
}

proof fn lemma_records_roundtrip(b: Seq<u8>, pos: int, rs: Seq<RecordRead>)
    requires
        0 <= pos,
        forall|i: int| 0 <= i < rs.len() ==> record_fits(#[trigger] rs[i]),
        pos + records_bytes(rs).len() <= b.len(),
        b.subrange(pos, pos + records_bytes(rs).len()) == records_bytes(rs),
    ensures
        sp_records(b, pos, rs.len(), true) == Ok::<(Seq<RecordRead>, int), FormatError>((rs, pos + records_bytes(rs).len())),
    decreases rs.len(),
{
    if rs.len() == 0 {
        assert(rs =~= Seq::<RecordRead>::empty());
    } else {
        let rest = rs.drop_first();
        lemma_split(b, pos, record_bytes(rs[0]), records_bytes(rest));
        lemma_record_roundtrip(b, pos, rs[0]);
        assert forall|i: int| 0 <= i < rest.len() implies record_fits(#[trigger] rest[i]) by {
            assert(rest[i] == rs[i + 1]);
        }
        lemma_records_roundtrip(b, pos + record_bytes(rs[0]).len(), rest);
        assert(seq![rs[0]] + rest =~= rs);
    }
}

/// Writing records that stay within the reader's limits and reading the
/// file back gives the same records, in the same order.
#[verifier::rlimit(50)]
pub proof fn law_db_roundtrip(rs: Seq<RecordRead>)
    requires
        rs.len() <= MAX_RECORDS,
        forall|i: int| 0 <= i < rs.len() ==> record_fits(#[trigger] rs[i]),
    ensures
        sp_db(db_bytes(rs)) == Ok::<Seq<RecordRead>, FormatError>(rs),
{
    let b = db_bytes(rs);
    let head = db_magic_v2() + le_bytes(rs.len(), 4);
    lemma_le_bytes_len(rs.len(), 4);
    lemma_pow_values();
    assert(b == head + records_bytes(rs));
    assert(b.subrange(0, b.len() as int) =~= b);
    lemma_split(b, 0, head, records_bytes(rs));
    lemma_split(b, 0, db_magic_v2(), le_bytes(rs.len(), 4));
    assert(b.subrange(0, 4) =~= db_magic_v2());
    lemma_uint_roundtrip(b, 4, rs.len(), 4);
    lemma_records_roundtrip(b, 8, rs);
}

/// One record as stored in a version-one file, which has no tags: the id
/// and the text with their byte lengths, the vector with its length, and
/// the 8-byte timestamp.
pub open spec fn record_bytes_v1(r: RecordRead) -> Seq<u8> {
    le_bytes(utf8_of(r.0).len(), 2) + utf8_of(r.0) + le_bytes(utf8_of(r.1).len(), 4) + utf8_of(r.1) + le_bytes(
        r.2.len(),
        4,
    ) + words_bytes(r.2) + le_bytes(r.3, 8)
}

/// Version-one records, one after the other.
pub open spec fn records_bytes_v1(rs: Seq<RecordRead>) -> Seq<u8>
    decreases rs.len(),
{
    if rs.len() == 0 {
        Seq::empty()
    } else {
        record_bytes_v1(rs[0]) + records_bytes_v1(rs.drop_first())
    }
}

/// The bytes of a version-one database file holding `rs`.
pub open spec fn db_bytes_v1(rs: Seq<RecordRead>) -> Seq<u8> {
    db_magic_v1() + le_bytes(rs.len(), 4) + records_bytes_v1(rs)
}

proof fn lemma_record_roundtrip_v1(b: Seq<u8>, pos: int, r: RecordRead)
    requires
        0 <= pos,
        record_fits(r),
        r.4.len() == 0,
        pos + record_bytes_v1(r).len() <= b.len(),
        b.subrange(pos, pos + record_bytes_v1(r).len()) == record_bytes_v1(r),
    ensures
        sp_record(b, pos, false) == Ok::<(RecordRead, int), FormatError>((r, pos + record_bytes_v1(r).len())),
{
    let id_b = utf8_of(r.0);
    let tx_b = utf8_of(r.1);
    let a0 = le_bytes(id_b.len(), 2);
    let a2 = le_bytes(tx_b.len(), 4);
    let a4 = le_bytes(r.2.len(), 4);
    let a5 = words_bytes(r.2);
    let a6 = le_bytes(r.3, 8);
    lemma_le_bytes_len(id_b.len(), 2);
    lemma_le_bytes_len(tx_b.len(), 4);
    lemma_le_bytes_len(r.2.len(), 4);
    lemma_le_bytes_len(r.3, 8);
    lemma_words_bytes_len(r.2);
    lemma_pow_values();
    assert(record_bytes_v1(r) == a0 + id_b + a2 + tx_b + a4 + a5 + a6);
    lemma_split(b, pos, a0 + id_b + a2 + tx_b + a4 + a5, a6);
    lemma_split(b, pos, a0 + id_b + a2 + tx_b + a4, a5);
    lemma_split(b, pos, a0 + id_b + a2 + tx_b, a4);
    lemma_split(b, pos, a0 + id_b + a2, tx_b);
    lemma_split(b, pos, a0 + id_b, a2);
    lemma_split(b, pos, a0, id_b);
    let p1 = pos + 2;
    let p2 = p1 + id_b.len();
    let p3 = p2 + 4;
    let p4 = p3 + tx_b.len();
    let p5 = p4 + 4;
    let p6 = p5 + 4 * r.2.len();
    lemma_uint_roundtrip(b, pos, id_b.len(), 2);
    lemma_text_roundtrip(b, p1, r.0);
    lemma_uint_roundtrip(b, p2, tx_b.len(), 4);
    lemma_text_roundtrip(b, p3, r.1);
    lemma_uint_roundtrip(b, p4, r.2.len(), 4);
    lemma_words_roundtrip(b, p5, r.2);
    lemma_uint_roundtrip(b, p6, r.3, 8);
    assert(r.4 =~= Seq::<Seq<char>>::empty());
}

proof fn lemma_records_roundtrip_v1(b: Seq<u8>, pos: int, rs: Seq<RecordRead>)
    requires
        0 <= pos,
        forall|i: int| 0 <= i < rs.len() ==> record_fits(#[trigger] rs[i]) && rs[i].4.len() == 0,
        pos + records_bytes_v1(rs).len() <= b.len(),
        b.subrange(pos, pos + records_bytes_v1(rs).len()) == records_bytes_v1(rs),
    ensures
        sp_records(b, pos, rs.len(), false) == Ok::<(Seq<RecordRead>, int), FormatError>((rs, pos + records_bytes_v1(rs).len())),
    decreases rs.len(),
{
    if rs.len() == 0 {
        assert(rs =~= Seq::<RecordRead>::empty());
    } else {
        let rest = rs.drop_first();
        lemma_split(b, pos, record_bytes_v1(rs[0]), records_bytes_v1(rest));
        assert(record_fits(rs[0]) && rs[0].4.len() == 0);
        lemma_record_roundtrip_v1(b, pos, rs[0]);
        assert forall|i: int| 0 <= i < rest.len() implies record_fits(#[trigger] rest[i]) && rest[i].4.len() == 0 by {
            assert(rest[i] == rs[i + 1]);
        }
        lemma_records_roundtrip_v1(b, pos + record_bytes_v1(rs[0]).len(), rest);
        assert(seq![rs[0]] + rest =~= rs);
    }
}

/// Reading a version-one file (no tags; each record's id, text, vector and
/// 8-byte timestamp in turn) gives back the records it was made of, in
/// order, with no tags, for records within the reader's limits.
#[verifier::rlimit(50)]
pub proof fn law_db_v1_roundtrip(rs: Seq<RecordRead>)
    requires
        rs.len() <= MAX_RECORDS,
        forall|i: int| 0 <= i < rs.len() ==> record_fits(#[trigger] rs[i]) && rs[i].4.len() == 0,
    ensures
        sp_db(db_bytes_v1(rs)) == Ok::<Seq<RecordRead>, FormatError>(rs),
{
    let b = db_bytes_v1(rs);
    let head = db_magic_v1() + le_bytes(rs.len(), 4);
    lemma_le_bytes_len(rs.len(), 4);
    lemma_pow_values();
    assert(b == head + records_bytes_v1(rs));
    assert(b.subrange(0, b.len() as int) =~= b);
    lemma_split(b, 0, head, records_bytes_v1(rs));
    lemma_split(b, 0, db_magic_v1(), le_bytes(rs.len(), 4));
    assert(b.subrange(0, 4) =~= db_magic_v1());
    assert(b.subrange(0, 4) != db_magic_v2());
    lemma_uint_roundtrip(b, 4, rs.len(), 4);
    lemma_records_roundtrip_v1(b, 8, rs);
}

} // verus!
