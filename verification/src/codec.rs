//! Building blocks shared by the two binary file formats: little-endian
//! integers, length-prefixed UTF-8 text and runs of 32-bit words.
use vstd::prelude::*;
use vstd::utf8::{valid_utf8, decode_utf8, encode_utf8, encode_utf8_valid_utf8, encode_utf8_decode_utf8};
use crate::text::{decimal, push_decimal, push_all};
use crate::le::{pow256, le_bytes, le_value, lemma_le_value_bound, lemma_le_roundtrip, lemma_le_bytes_len, push_le, read_le};

verus! {

/// Why a byte string could not be read as one of the file formats.
#[derive(Debug, Clone, Copy, PartialEq, Eq)]
pub enum FormatError {
    /// The data ends before a field it announces.
    Truncated,
    /// The first four bytes are not a known magic number.
    BadMagic,
    /// The first four bytes are not those of an index file.
    NotAnIndex,
    /// A text field is not valid UTF-8.
    InvalidUtf8,
    /// The record count read is above the limit.
    TooManyRecords(u64),
    /// The byte length read for a text field is above the limit.
    TextTooLarge(u64),
    /// The component count read for a vector is above the limit.
    VectorTooLarge(u64),
    /// The tag count read for a record is above the limit.
    TooManyTags(u64),
    /// The byte length read for a tag is above the limit.
    TagTooLarge(u64),
    /// The graph read from an index file refers to nodes it does not hold.
    Malformed,
}

/// What a format error is reported as.
pub open spec fn format_error_text(e: FormatError) -> Seq<char> {
    match e {
        FormatError::Truncated => "failed to fill whole buffer"@,
        FormatError::BadMagic => "invalid file format (magic bytes mismatch)"@,
        FormatError::NotAnIndex => "invalid HNSW file format"@,
        FormatError::InvalidUtf8 => "invalid utf-8 sequence"@,
        FormatError::TooManyRecords(n) => "record count too large: "@ + decimal(n as nat),
        FormatError::TextTooLarge(n) => "text field too large: "@ + decimal(n as nat) + " bytes"@,
        FormatError::VectorTooLarge(n) => "vector dimension too large: "@ + decimal(n as nat),
        FormatError::TooManyTags(n) => "tag count too large: "@ + decimal(n as nat),
        FormatError::TagTooLarge(n) => "tag too large: "@ + decimal(n as nat) + " bytes"@,
        FormatError::Malformed => "invalid HNSW graph (a link names a missing node)"@,
    }
}

/// `head`, then `n` in decimal, then `tail`.
fn counted(head: &str, n: u64, tail: &str) -> (r: String)
    ensures
        r@ == head@ + decimal(n as nat) + tail@,
{
    let mut r = String::from_str(head);
    push_decimal(&mut r, n);
    push_all(&mut r, tail);
    r
}

impl FormatError {
    /// The message reported for the error.
    pub fn message(&self) -> (r: String)
        ensures
            r@ == format_error_text(*self),
    {
        proof {
            reveal_strlit("");
        }
        match self {
            FormatError::Truncated => String::from_str("failed to fill whole buffer"),
            FormatError::BadMagic => String::from_str("invalid file format (magic bytes mismatch)"),
            FormatError::NotAnIndex => String::from_str("invalid HNSW file format"),
            FormatError::InvalidUtf8 => String::from_str("invalid utf-8 sequence"),
            FormatError::TooManyRecords(n) => counted("record count too large: ", *n, ""),
            FormatError::TextTooLarge(n) => counted("text field too large: ", *n, " bytes"),
            FormatError::VectorTooLarge(n) => counted("vector dimension too large: ", *n, ""),
            FormatError::TooManyTags(n) => counted("tag count too large: ", *n, ""),
            FormatError::TagTooLarge(n) => counted("tag too large: ", *n, " bytes"),
            FormatError::Malformed => String::from_str("invalid HNSW graph (a link names a missing node)"),
        }
    }
}

/// Reading an `n`-byte little-endian number at `pos`.
pub open spec fn sp_uint(b: Seq<u8>, pos: int, n: nat) -> Result<(nat, int), FormatError> {
    if 0 <= pos && pos + n <= b.len() {
        Ok((le_value(b.subrange(pos, pos + n)), pos + n))
    } else {
        Err(FormatError::Truncated)
    }
}

/// Reading `len` bytes of UTF-8 text at `pos`.
pub open spec fn sp_text(b: Seq<u8>, pos: int, len: nat) -> Result<(Seq<char>, int), FormatError> {
    if 0 <= pos && pos + len <= b.len() {
        if valid_utf8(b.subrange(pos, pos + len)) {
            Ok((decode_utf8(b.subrange(pos, pos + len)), pos + len))
        } else {
            Err(FormatError::InvalidUtf8)
        }
    } else {
        Err(FormatError::Truncated)
    }
}

/// The 32-bit word stored at `pos`.
pub open spec fn word_at(b: Seq<u8>, pos: int) -> u32 {
    le_value(b.subrange(pos, pos + 4)) as u32
}

/// Reading `count` consecutive 32-bit words at `pos`.
pub open spec fn sp_words(b: Seq<u8>, pos: int, count: nat) -> Result<(Seq<u32>, int), FormatError> {
    if 0 <= pos && pos + 4 * count <= b.len() {
        Ok((Seq::new(count, |i: int| word_at(b, pos + 4 * i)), pos + 4 * count))
    } else {
        Err(FormatError::Truncated)
    }
}

/// The UTF-8 bytes of a text.
pub open spec fn utf8_of(s: Seq<char>) -> Seq<u8> {
    encode_utf8(s)
}

/// A run of 32-bit words, each little-endian.
pub open spec fn words_bytes(v: Seq<u32>) -> Seq<u8>
    decreases v.len(),
{
    if v.len() == 0 {
        Seq::empty()
    } else {
        le_bytes(v[0] as nat, 4) + words_bytes(v.drop_first())
    }
}

/// Converts bytes to a `String` with `String::from_utf8`.
///
/// The contract claims what std documents: the call succeeds exactly on
/// valid UTF-8, and the string then holds the characters the bytes encode.
#[verifier::external_body]
fn string_from_utf8(bytes: Vec<u8>) -> (r: Option<String>)
    ensures
        r is Some <==> valid_utf8(bytes@),
        r matches Some(s) ==> s@ == decode_utf8(bytes@),
{
    String::from_utf8(bytes).ok()
}

/// Reads an `n`-byte little-endian number at `pos`.
pub fn read_uint(b: &[u8], pos: usize, n: usize) -> (r: Result<(u64, usize), FormatError>)
    requires
        n <= 8,
    ensures
        match sp_uint(b@, pos as int, n as nat) {
            Ok((v, p)) => r matches Ok((rv, rp)) && rv as nat == v && rp as int == p,
            Err(e) => r == Err::<(u64, usize), FormatError>(e),
        },
{
    if pos <= b.len() && n <= b.len() - pos {
        let v = read_le(b, pos, n);
        Ok((v, pos + n))
    } else {
        Err(FormatError::Truncated)
    }
}

/// Reads `len` bytes of UTF-8 text at `pos`.
pub fn read_text(b: &[u8], pos: usize, len: usize) -> (r: Result<(String, usize), FormatError>)
    ensures
        match sp_text(b@, pos as int, len as nat) {
            Ok((s, p)) => r matches Ok((rs, rp)) && rs@ == s && rp as int == p,
            Err(e) => r == Err::<(String, usize), FormatError>(e),
        },
{
    if pos <= b.len() && len <= b.len() - pos {
        let blen = b.len();
        let mut v: Vec<u8> = Vec::new();
        let mut i: usize = 0;
        while i < len
            invariant
                blen == b@.len(),
                pos + len <= b@.len(),
                i <= len,
                v@ == b@.subrange(pos as int, pos + i),
            decreases len - i,
        {
            v.push(b[pos + i]);
            assert(v@ =~= b@.subrange(pos as int, pos + i + 1));
            i = i + 1;
        }
        match string_from_utf8(v) {
            Some(s) => Ok((s, pos + len)),
            None => Err(FormatError::InvalidUtf8),
        }
    } else {
        Err(FormatError::Truncated)
    }
}

/// Reads `count` 32-bit words at `pos`.
pub fn read_words(b: &[u8], pos: usize, count: usize) -> (r: Result<(Vec<u32>, usize), FormatError>)
    ensures
        match sp_words(b@, pos as int, count as nat) {
            Ok((v, p)) => r matches Ok((rv, rp)) && rv@ == v && rp as int == p,
            Err(e) => r == Err::<(Vec<u32>, usize), FormatError>(e),
        },
{
    if pos > b.len() || count > (b.len() - pos) / 4 {
        return Err(FormatError::Truncated);
    }
    let ghost want = Seq::new(count as nat, |i: int| word_at(b@, pos + 4 * i));
    let mut v: Vec<u32> = Vec::new();
    let mut i: usize = 0;
    let mut p: usize = pos;
    let blen = b.len();
    while i < count
        invariant
            blen == b@.len(),
            pos + 4 * count <= b@.len(),
            i <= count,
            p == pos + 4 * i,
            v@ == want.take(i as int),
            want == Seq::new(count as nat, |i: int| word_at(b@, pos + 4 * i)),
        decreases count - i,
    {
        let w = read_le(b, p, 4);
        proof {
            lemma_le_value_bound(b@.subrange(p as int, p + 4));
            reveal_with_fuel(pow256, 5);
        }
        v.push(w as u32);
        assert(v@ =~= want.take(i + 1));
        i = i + 1;
        p = p + 4;
    }
    assert(v@ =~= want);
    Ok((v, p))
}

/// Appends the UTF-8 bytes of `s`.
pub fn push_str_bytes(out: &mut Vec<u8>, s: &String)
    ensures
        final(out)@ == old(out)@ + utf8_of(s@),
{
    let bytes = s.as_str().as_bytes();
    let ghost start = out@;
    let mut i: usize = 0;
    while i < bytes.len()
        invariant
            i <= bytes@.len(),
            bytes@ == utf8_of(s@),
            out@ == start + bytes@.take(i as int),
        decreases bytes@.len() - i,
    {
        out.push(bytes[i]);
        assert(out@ =~= start + bytes@.take(i + 1));
        i = i + 1;
    }
    assert(bytes@.take(bytes@.len() as int) =~= bytes@);
}

/// The byte length of the UTF-8 encoding of `s`.
pub fn utf8_len(s: &String) -> (r: usize)
    ensures
        r == utf8_of(s@).len(),
{
    s.as_str().as_bytes().len()
}

/// Appends a run of 32-bit words.
pub fn push_words(out: &mut Vec<u8>, v: &Vec<u32>)
    ensures
        final(out)@ == old(out)@ + words_bytes(v@),
{
    let ghost start = out@;
    let mut i: usize = 0;
    assert(v@.skip(0) =~= v@);
    while i < v.len()
        invariant
            i <= v@.len(),
            out@ + words_bytes(v@.skip(i as int)) == start + words_bytes(v@),
        decreases v@.len() - i,
    {
        let ghost before = out@;
        assert(v@.skip(i as int).drop_first() =~= v@.skip(i + 1));
        assert(v@.skip(i as int)[0] == v@[i as int]);
        push_le(out, v[i] as u64, 4);
        assert(out@ + words_bytes(v@.skip(i + 1)) =~= before + words_bytes(v@.skip(i as int)));
        i = i + 1;
    }
    assert(v@.skip(i as int).len() == 0);
    assert(out@ + words_bytes(v@.skip(i as int)) =~= out@);
}

/// Reading back text that was written gives it back.
pub proof fn lemma_text_roundtrip(b: Seq<u8>, pos: int, s: Seq<char>)
    requires
        0 <= pos,
        pos + utf8_of(s).len() <= b.len(),
        b.subrange(pos, pos + utf8_of(s).len()) == utf8_of(s),
    ensures
        sp_text(b, pos, utf8_of(s).len()) == Ok::<(Seq<char>, int), FormatError>((s, pos + utf8_of(s).len())),
{
    encode_utf8_valid_utf8(s);
    encode_utf8_decode_utf8(s);
}

/// Reading back a number that was written gives it back.
pub proof fn lemma_uint_roundtrip(b: Seq<u8>, pos: int, v: nat, n: nat)
    requires
        0 <= pos,
        v < pow256(n),
        pos + n <= b.len(),
        b.subrange(pos, pos + n) == le_bytes(v, n),
    ensures
        sp_uint(b, pos, n) == Ok::<(nat, int), FormatError>((v, pos + n)),
{
    lemma_le_roundtrip(v, n);
}

/// A run of words takes four bytes per word.
pub proof fn lemma_words_bytes_len(v: Seq<u32>)
    ensures
        words_bytes(v).len() == 4 * v.len(),
    decreases v.len(),
{
    if v.len() > 0 {
        lemma_le_bytes_len(v[0] as nat, 4);
        lemma_words_bytes_len(v.drop_first());
    }
}

/// Reading back words that were written gives them back.
pub proof fn lemma_words_roundtrip(b: Seq<u8>, pos: int, v: Seq<u32>)
    requires
        0 <= pos,
        pos + 4 * v.len() <= b.len(),
        b.subrange(pos, pos + 4 * v.len()) == words_bytes(v),
    ensures
        sp_words(b, pos, v.len()) == Ok::<(Seq<u32>, int), FormatError>((v, pos + 4 * v.len())),
    decreases v.len(),
{
    if v.len() == 0 {
        assert(Seq::new(v.len(), |i: int| word_at(b, pos + 4 * i)) =~= v);
    } else {
        lemma_words_bytes_len(v);
        lemma_le_bytes_len(v[0] as nat, 4);
        lemma_words_bytes_len(v.drop_first());
        assert(b.subrange(pos, pos + 4) =~= le_bytes(v[0] as nat, 4)) by {
            assert(b.subrange(pos, pos + 4) =~= b.subrange(pos, pos + 4 * v.len()).subrange(0, 4));
        }
        reveal_with_fuel(pow256, 5);
        lemma_le_roundtrip(v[0] as nat, 4);
        assert(b.subrange(pos + 4, pos + 4 + 4 * v.drop_first().len()) =~= words_bytes(v.drop_first())) by {
            assert(b.subrange(pos + 4, pos + 4 + 4 * v.drop_first().len()) =~= b.subrange(pos, pos + 4 * v.len()).subrange(4, 4 * v.len() as int));
        }
        lemma_words_roundtrip(b, pos + 4, v.drop_first());
        let got = Seq::new(v.len(), |i: int| word_at(b, pos + 4 * i));
        let rest = Seq::new(v.drop_first().len(), |i: int| word_at(b, pos + 4 + 4 * i));
        assert(rest =~= v.drop_first());
        assert forall|i: int| 0 <= i < v.len() implies got[i] == v[i] by {
            if i == 0 {
                assert(word_at(b, pos) == v[0]);
            } else {
                assert(rest[i - 1] == v.drop_first()[i - 1]);
                assert(pos + 4 + 4 * (i - 1) == pos + 4 * i);
            }
        }
        assert(got =~= v);
    }
}

} // verus!

verus! {

/// A byte string that starts with `x + y` at `pos` has `x` there and `y` right after.
pub proof fn lemma_split(b: Seq<u8>, pos: int, x: Seq<u8>, y: Seq<u8>)
    requires
        0 <= pos,
        pos + x.len() + y.len() <= b.len(),
        b.subrange(pos, pos + x.len() + y.len()) == x + y,
    ensures
        b.subrange(pos, pos + x.len()) == x,
        b.subrange(pos + x.len(), pos + x.len() + y.len()) == y,
{
    assert(b.subrange(pos, pos + x.len()) =~= b.subrange(pos, pos + x.len() + y.len()).subrange(0, x.len() as int));
    assert(b.subrange(pos + x.len(), pos + x.len() + y.len()) =~= b.subrange(pos, pos + x.len() + y.len()).subrange(
        x.len() as int,
        (x.len() + y.len()) as int,
    ));
}

/// Reading a count-prefixed list of 32-bit words.
pub open spec fn sp_list(b: Seq<u8>, pos: int) -> Result<(Seq<u32>, int), FormatError> {
    match sp_uint(b, pos, 4) {
        Err(e) => Err(e),
        Ok((cn, p1)) => sp_words(b, p1, cn),
    }
}

/// A count-prefixed list of words.
pub open spec fn list_bytes(v: Seq<u32>) -> Seq<u8> {
    le_bytes(v.len(), 4) + words_bytes(v)
}

/// Puts the parsed items `acc` in front of what the rest of a parse gives.
pub open spec fn prepend<T>(acc: Seq<T>, r: Result<(Seq<T>, int), FormatError>) -> Result<(Seq<T>, int), FormatError> {
    match r {
        Err(e) => Err(e),
        Ok((rest, p)) => Ok((acc + rest, p)),
    }
}

/// Reads a count-prefixed list of words.
pub fn read_list(b: &[u8], pos: usize) -> (r: Result<(Vec<u32>, usize), FormatError>)
    ensures
        match sp_list(b@, pos as int) {
            Ok((v, p)) => r matches Ok((rv, rp)) && rv@ == v && rp as int == p,
            Err(e) => r == Err::<(Vec<u32>, usize), FormatError>(e),
        },
{
    let (cn, p1) = match read_uint(b, pos, 4) {
        Ok(x) => x,
        Err(e) => return Err(e),
    };
    proof {
        lemma_le_value_bound(b@.subrange(pos as int, pos + 4));
        reveal_with_fuel(pow256, 5);
    }
    read_words(b, p1, cn as usize)
}

/// Appends a count-prefixed list of words; the count is written modulo 2^32.
pub fn push_list(out: &mut Vec<u8>, v: &Vec<u32>)
    ensures
        final(out)@ == old(out)@ + list_bytes(v@),
{
    let ghost start = out@;
    push_le(out, v.len() as u64, 4);
    push_words(out, v);
    assert(out@ =~= start + list_bytes(v@));
}

/// Reading back a written neighbour list gives the list and the position after it.
pub proof fn lemma_list_roundtrip(b: Seq<u8>, pos: int, v: Seq<u32>)
    requires
        0 <= pos,
        v.len() < 0x1_0000_0000,
        pos + list_bytes(v).len() <= b.len(),
        b.subrange(pos, pos + list_bytes(v).len()) == list_bytes(v),
    ensures
        list_bytes(v).len() == 4 + 4 * v.len(),
        sp_list(b, pos) == Ok::<(Seq<u32>, int), FormatError>((v, pos + list_bytes(v).len())),
{
    lemma_le_bytes_len(v.len(), 4);
    lemma_words_bytes_len(v);
    lemma_split(b, pos, le_bytes(v.len(), 4), words_bytes(v));
    reveal_with_fuel(pow256, 5);
    lemma_uint_roundtrip(b, pos, v.len(), 4);
    lemma_words_roundtrip(b, pos + 4, v);
}

} // verus!
