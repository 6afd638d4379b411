//! Bulk import and export: reading plain-text and CSV sources into entries,
//! and writing records as CSV.
use vstd::prelude::*;
use crate::record::{IntentRecord, tags_of};
use crate::text::{
    texts_of, split_marked, split_at_marks, trimmed, trim, chars_of, string_of, join, join_strings,
    push_all, push_char, push_decimal, decimal, lowercase, to_lower,
};

verus! {

/// One record to import: its text and tags.
#[derive(Debug, Clone, PartialEq, Eq)]
pub struct ImportEntry {
    pub text: String,
    pub tags: Vec<String>,
}

/// An entry as texts.
pub open spec fn entry_view(e: ImportEntry) -> (Seq<char>, Seq<Seq<char>>) {
    (e.text@, texts_of(e.tags@))
}

/// Marks the positions of `sep` in `s`.
pub open spec fn sep_marks(s: Seq<char>, sep: char) -> Seq<bool> {
    Seq::new(s.len(), |i: int| s[i] == sep)
}

/// The pieces of `s` between occurrences of `sep`, trimmed, the empty ones
/// dropped.
pub open spec fn trimmed_pieces(s: Seq<char>, sep: char) -> Seq<Seq<char>> {
    split_marked(s, sep_marks(s, sep))
        .map_values(|p: Seq<char>| trimmed(p))
        .filter(|t: Seq<char>| t.len() > 0)
}

/// Splits `s` at each `sep`, trims the pieces and drops the empty ones.
pub fn split_trimmed(s: &str, sep: char) -> (r: Vec<String>)
    ensures
        texts_of(r@) == trimmed_pieces(s@, sep),
{
    let cs = chars_of(s);
    let mut marks: Vec<bool> = Vec::new();
    let mut i: usize = 0;
    while i < cs.len()
        invariant
            i <= cs@.len(),
            marks@ == sep_marks(cs@.take(i as int), sep),
        decreases cs@.len() - i,
    {
        marks.push(cs[i] == sep);
        assert(marks@ =~= sep_marks(cs@.take(i + 1), sep));
        i = i + 1;
    }
    assert(cs@.take(cs@.len() as int) =~= cs@);
    let pieces = split_at_marks(&cs, &marks);
    let ghost ps = pieces@.map_values(|v: Vec<char>| v@);
    let ghost trims = ps.map_values(|p: Seq<char>| trimmed(p));
    let ghost nonempty = |t: Seq<char>| t.len() > 0;
    let mut r: Vec<String> = Vec::new();
    let mut k: usize = 0;
    while k < pieces.len()
        invariant
            ps == pieces@.map_values(|v: Vec<char>| v@),
            trims == ps.map_values(|p: Seq<char>| trimmed(p)),
            nonempty == |t: Seq<char>| t.len() > 0,
            k <= pieces@.len(),
            texts_of(r@) == trims.take(k as int).filter(nonempty),
        decreases pieces@.len() - k,
    {
        proof {
            assert(trims.take(k + 1) =~= trims.take(k as int).push(trims[k as int]));
            trims.take(k as int).lemma_filter_push(trims[k as int], nonempty);
        }
        let piece = string_of(&pieces[k]);
        let t = trim(piece.as_str());
        assert(t@ == trims[k as int]);
        if t.unicode_len() > 0 {
            let ghost before = r@;
            r.push(t);
            assert(texts_of(r@) =~= texts_of(before).push(trims[k as int]));
        }
        k = k + 1;
    }
    assert(trims.take(pieces@.len() as int) =~= trims);
    r
}

/// The entries of a plain-text source: one per non-blank line, trimmed,
/// without tags.
pub open spec fn text_entries_spec(source: Seq<char>) -> Seq<(Seq<char>, Seq<Seq<char>>)> {
    trimmed_pieces(source, '\n').map_values(|t: Seq<char>| (t, Seq::<Seq<char>>::empty()))
}

/// Reads a plain-text source: each non-blank line, trimmed, is an entry.
pub fn text_entries(source: &str) -> (r: Vec<ImportEntry>)
    ensures
        r@.map_values(|e: ImportEntry| entry_view(e)) == text_entries_spec(source@),
{
    let lines = split_trimmed(source, '\n');
    let mut r: Vec<ImportEntry> = Vec::new();
    let mut k: usize = 0;
    while k < lines.len()
        invariant
            k <= lines@.len(),
            r@.map_values(|e: ImportEntry| entry_view(e))
                == texts_of(lines@).take(k as int).map_values(|t: Seq<char>| (t, Seq::<Seq<char>>::empty())),
        decreases lines@.len() - k,
    {
        let ghost before = r@;
        let text = lines[k].clone();
        let tags: Vec<String> = Vec::new();
        assert(texts_of(tags@) =~= Seq::<Seq<char>>::empty());
        let ghost e = (text@, texts_of(tags@));
        r.push(ImportEntry { text, tags });
        assert(r@.map_values(|e: ImportEntry| entry_view(e)) =~= before.map_values(|e: ImportEntry| entry_view(e)).push(e));
        assert(texts_of(lines@).take(k + 1) =~= texts_of(lines@).take(k as int).push(lines@[k as int]@));
        assert(r@.map_values(|e: ImportEntry| entry_view(e)) =~= texts_of(lines@).take(k + 1).map_values(
            |t: Seq<char>| (t, Seq::<Seq<char>>::empty()),
        ));
        k = k + 1;
    }
    assert(texts_of(lines@).take(lines@.len() as int) =~= texts_of(lines@));
    r
}

/// The rows the `csv` crate reads from `source` with its default reader
/// (first row taken as headers, so not among the rows), each as its
/// fields; or the message of the first error it reports.
pub uninterp spec fn csv_table(source: Seq<char>) -> Result<Seq<Seq<Seq<char>>>, Seq<char>>;

/// Rows as texts.
pub open spec fn rows_view(rows: Seq<Vec<String>>) -> Seq<Seq<Seq<char>>> {
    rows.map_values(|row: Vec<String>| texts_of(row@))
}

/// Reads CSV with `csv::Reader::from_reader` and its `records` iterator,
/// stopping at the first error. The contract names the outcome as a
/// function of the source; the CSV grammar is not stated.
#[verifier::external_body]
fn read_csv(source: &str) -> (r: Result<Vec<Vec<String>>, String>)
    ensures
        match r {
            Ok(rows) => csv_table(source@) == Ok::<Seq<Seq<Seq<char>>>, Seq<char>>(rows_view(rows@)),
            Err(e) => csv_table(source@) == Err::<Seq<Seq<Seq<char>>>, Seq<char>>(e@),
        },
{
    let mut rdr = csv::Reader::from_reader(source.as_bytes());
    let mut rows = Vec::new();
    for result in rdr.records() {
        match result {
            Ok(rec) => rows.push(rec.iter().map(|f| f.to_string()).collect()),
            Err(e) => return Err(e.to_string()),
        }
    }
    Ok(rows)
}

/// Field `k` of a row, empty when the row is shorter.
pub open spec fn field(row: Seq<Seq<char>>, k: int) -> Seq<char> {
    if 0 <= k < row.len() { row[k] } else { Seq::empty() }
}

/// The entries of CSV rows: the first field, trimmed, is the text (rows
/// whose text is empty are skipped), and the second field, split at commas
/// with each piece trimmed and empty ones dropped, gives the tags.
pub open spec fn csv_rows_entries(rows: Seq<Seq<Seq<char>>>) -> Seq<(Seq<char>, Seq<Seq<char>>)>
    decreases rows.len(),
{
    if rows.len() == 0 {
        Seq::empty()
    } else {
        let p = csv_rows_entries(rows.drop_last());
        let text = trimmed(field(rows.last(), 0));
        if text.len() == 0 {
            p
        } else {
            p.push((text, trimmed_pieces(field(rows.last(), 1), ',')))
        }
    }
}

/// The entries of a CSV source, or the reader's error message.
pub open spec fn csv_entries_spec(source: Seq<char>) -> Result<Seq<(Seq<char>, Seq<Seq<char>>)>, Seq<char>> {
    match csv_table(source) {
        Ok(rows) => Ok(csv_rows_entries(rows)),
        Err(e) => Err(e),
    }
}

/// Field `k` of a row, or an empty string.
fn field_of(row: &Vec<String>, k: usize) -> (r: String)
    ensures
        r@ == field(texts_of(row@), k as int),
{
    if k < row.len() {
        row[k].clone()
    } else {
        String::new()
    }
}

/// The entries of CSV rows (each row as its fields): the first field,
/// trimmed, is the text, rows with an empty text are skipped, and the
/// second field gives the comma-separated tags.
pub fn entries_of_rows(rows: &Vec<Vec<String>>) -> (r: Vec<ImportEntry>)
    ensures
        r@.map_values(|e: ImportEntry| entry_view(e)) == csv_rows_entries(rows_view(rows@)),
{
    let ghost rv = rows_view(rows@);
    let mut r: Vec<ImportEntry> = Vec::new();
    let mut k: usize = 0;
    while k < rows.len()
        invariant
            rv == rows_view(rows@),
            k <= rows@.len(),
            r@.map_values(|e: ImportEntry| entry_view(e)) == csv_rows_entries(rv.take(k as int)),
        decreases rows@.len() - k,
    {
        assert(rv.take(k + 1).drop_last() =~= rv.take(k as int));
        assert(rv.take(k + 1).last() == texts_of(rows@[k as int]@));
        let first = field_of(&rows[k], 0);
        let text = trim(first.as_str());
        if text.unicode_len() > 0 {
            let second = field_of(&rows[k], 1);
            let tags = split_trimmed(second.as_str(), ',');
            let ghost before = r@;
            let ghost e = (text@, texts_of(tags@));
            r.push(ImportEntry { text, tags });
            assert(r@.map_values(|e: ImportEntry| entry_view(e)) =~= before.map_values(|e: ImportEntry| entry_view(e)).push(e));
        }
        k = k + 1;
    }
    assert(rv.take(rows@.len() as int) =~= rv);
    r
}

/// Reads the entries of a CSV source (a header row, then text and a
/// comma-separated tag list per row).
pub fn csv_entries(source: &str) -> (r: Result<Vec<ImportEntry>, String>)
    ensures
        match r {
            Ok(es) => csv_entries_spec(source@) == Ok::<Seq<(Seq<char>, Seq<Seq<char>>)>, Seq<char>>(
                es@.map_values(|e: ImportEntry| entry_view(e)),
            ),
            Err(m) => csv_entries_spec(source@) == Err::<Seq<(Seq<char>, Seq<Seq<char>>)>, Seq<char>>(m@),
        },
{
    match read_csv(source) {
        Ok(rows) => Ok(entries_of_rows(&rows)),
        Err(e) => Err(e),
    }
}

/// `s` with every `"` doubled, as CSV quoting needs.
pub open spec fn csv_escape(s: Seq<char>) -> Seq<char>
    decreases s.len(),
{
    if s.len() == 0 {
        Seq::empty()
    } else {
        csv_escape(s.drop_last()) + if s.last() == '"' { seq!['"', '"'] } else { seq![s.last()] }
    }
}

/// Appends `s` with every `"` doubled.
fn push_escaped(out: &mut String, s: &str)
    ensures
        final(out)@ == old(out)@ + csv_escape(s@),
{
    let cs = chars_of(s);
    let ghost start = out@;
    let mut i: usize = 0;
    while i < cs.len()
        invariant
            cs@ == s@,
            i <= cs@.len(),
            out@ == start + csv_escape(cs@.take(i as int)),
        decreases cs@.len() - i,
    {
        assert(cs@.take(i + 1).drop_last() =~= cs@.take(i as int));
        let c = cs[i];
        push_char(out, c);
        if c == '"' {
            push_char(out, '"');
        }
        assert(out@ =~= start + csv_escape(cs@.take(i + 1)));
        i = i + 1;
    }
    assert(cs@.take(cs@.len() as int) =~= cs@);
}

/// One record as a CSV line: quoted id, quoted text, quoted comma-joined
/// tags (quotes doubled in text and tags) and the timestamp.
pub open spec fn csv_line(r: IntentRecord) -> Seq<char> {
    "\""@ + r.id@ + "\",\""@ + csv_escape(r.text@) + "\",\""@ + csv_escape(join(tags_of(r), ","@)) + "\","@
        + decimal(r.timestamp as nat) + "\n"@
}

/// The CSV lines of the first `n` records.
pub open spec fn csv_lines(records: Seq<IntentRecord>, n: int) -> Seq<char>
    decreases n,
{
    if n <= 0 {
        Seq::empty()
    } else {
        csv_lines(records, n - 1) + csv_line(records[n - 1])
    }
}

/// A CSV export: a header line, then one line per record.
pub open spec fn csv_document(records: Seq<IntentRecord>) -> Seq<char> {
    "id,text,tags,timestamp\n"@ + csv_lines(records, records.len() as int)
}

/// Appends the CSV line of a record.
fn push_csv_line(out: &mut String, rec: &IntentRecord)
    ensures
        final(out)@ == old(out)@ + csv_line(*rec),
{
    let ghost start = out@;
    push_all(out, "\"");
    push_all(out, rec.id.as_str());
    push_all(out, "\",\"");
    push_escaped(out, rec.text.as_str());
    push_all(out, "\",\"");
    let tags = join_strings(&rec.tags, ",");
    push_escaped(out, tags.as_str());
    push_all(out, "\",");
    push_decimal(out, rec.timestamp);
    push_all(out, "\n");
    assert(out@ =~= start + csv_line(*rec));
}

/// Writes the records as CSV (vectors left out).
pub fn export_csv(records: &Vec<IntentRecord>) -> (r: String)
    ensures
        r@ == csv_document(records@),
{
    let mut out = String::from_str("id,text,tags,timestamp\n");
    let mut k: usize = 0;
    while k < records.len()
        invariant
            k <= records@.len(),
            out@ == "id,text,tags,timestamp\n"@ + csv_lines(records@, k as int),
        decreases records@.len() - k,
    {
        push_csv_line(&mut out, &records[k]);
        k = k + 1;
    }
    out
}

/// The kinds of source an import reads.
#[derive(Debug, Clone, Copy, PartialEq, Eq)]
pub enum ImportFormat {
    Json,
    Csv,
    Text,
}

/// The format named `name` (any case): `json`, `csv`, anything else text.
pub open spec fn import_format_of(name: Seq<char>) -> ImportFormat {
    if lowercase(name) == "json"@ {
        ImportFormat::Json
    } else if lowercase(name) == "csv"@ {
        ImportFormat::Csv
    } else {
        ImportFormat::Text
    }
}

/// Picks the import format: the one given, else text for standard input,
/// else the file's extension, else text.
pub fn import_format(given: &Option<String>, from_stdin: bool, extension: &Option<String>) -> (r: ImportFormat)
    ensures
        r == import_format_of(match *given {
            Some(g) => g@,
            None => if from_stdin { "txt"@ } else {
                match *extension {
                    Some(e) => e@,
                    None => "txt"@,
                }
            },
        }),
{
    let name: String = match given {
        Some(g) => g.clone(),
        None => if from_stdin {
            String::from_str("txt")
        } else {
            match extension {
                Some(e) => e.clone(),
                None => String::from_str("txt"),
            }
        },
    };
    let lower = to_lower(name.as_str());
    if lower == String::from_str("json") {
        ImportFormat::Json
    } else if lower == String::from_str("csv") {
        ImportFormat::Csv
    } else {
        ImportFormat::Text
    }
}

/// Whether an export named `name` (any case) is CSV; anything else is JSON.
pub fn export_is_csv(name: &str) -> (r: bool)
    ensures
        r == (lowercase(name@) == "csv"@),
{
    to_lower(name) == String::from_str("csv")
}

/// `s` without trailing `/` characters.
pub open spec fn without_trailing_slashes(s: Seq<char>) -> Seq<char>
    decreases s.len(),
{
    if s.len() > 0 && s.last() == '/' {
        without_trailing_slashes(s.drop_last())
    } else {
        s
    }
}

/// A server address without trailing slashes, as `trim_end_matches('/')`
/// gives it.
pub fn base_url(url: &str) -> (r: String)
    ensures
        r@ == without_trailing_slashes(url@),
{
    let cs = chars_of(url);
    let mut j: usize = cs.len();
    assert(cs@.take(j as int) =~= cs@);
    while j > 0 && cs[j - 1] == '/'
        invariant
            j <= cs@.len(),
            without_trailing_slashes(cs@) == without_trailing_slashes(cs@.take(j as int)),
        decreases j,
    {
        assert(cs@.take(j as int).drop_last() =~= cs@.take(j - 1));
        j = j - 1;
    }
    let mut r = String::new();
    let mut i: usize = 0;
    while i < j
        invariant
            j <= cs@.len(),
            i <= j,
            r@ == cs@.take(i as int),
        decreases j - i,
    {
        push_char(&mut r, cs[i]);
        assert(r@ =~= cs@.take(i + 1));
        i = i + 1;
    }
    r
}

} // verus!
