//! Reporting: the rows of a run as a CSV document.
//!
//! The document is written by the `csv` crate into memory. Its first record
//! is a single field that marks when the document was made; one record for
//! each row follows, in the order of the rows. Records may differ in their
//! number of fields.

use crate::text::bytes_of;
use vstd::prelude::*;
use vstd::string::StringExecFns;

verus! {

/// The byte `,`, which separates the fields of a record.
pub const COMMA: u8 = 44;

/// The byte `"`, which encloses a quoted field.
pub const QUOTE: u8 = 34;

/// The byte of a carriage return.
pub const CR: u8 = 13;

/// The byte of a line feed, which ends a record.
pub const LF: u8 = 10;

/// The name of the file that takes the document, in the working directory. A
/// file of that name is overwritten.
pub const OUTPUT_FILE: &'static str = "exif_output.csv";

/// Whether a byte forces the field that holds it into quotes.
pub open spec fn is_special(b: u8) -> bool {
    b == COMMA || b == QUOTE || b == CR || b == LF
}

/// Whether a field has to be quoted: it holds a comma, a quote, a carriage
/// return or a line feed.
pub open spec fn needs_quotes(field: Seq<u8>) -> bool {
    exists|i: int| 0 <= i < field.len() && is_special(#[trigger] field[i])
}

/// The field with each quote in it doubled.
pub open spec fn double_quotes(field: Seq<u8>) -> Seq<u8>
    decreases field.len(),
{
    if field.len() == 0 {
        Seq::empty()
    } else if field.last() == QUOTE {
        double_quotes(field.drop_last()).push(QUOTE).push(QUOTE)
    } else {
        double_quotes(field.drop_last()).push(field.last())
    }
}

/// A field as it stands in a record: as it is, or, where it has to be quoted,
/// between quotes and with its own quotes doubled.
pub open spec fn csv_field(field: Seq<u8>) -> Seq<u8> {
    if needs_quotes(field) {
        seq![QUOTE] + double_quotes(field) + seq![QUOTE]
    } else {
        field
    }
}

/// The fields of a record, each as it stands in the record, with a comma
/// between one field and the next.
pub open spec fn joined_fields(fields: Seq<Seq<u8>>) -> Seq<u8>
    decreases fields.len(),
{
    if fields.len() == 0 {
        Seq::empty()
    } else if fields.len() == 1 {
        csv_field(fields[0])
    } else {
        joined_fields(fields.drop_last()) + seq![COMMA] + csv_field(fields.last())
    }
}

/// One record: its joined fields and a line feed. A record that would be an
/// empty line, having no field or one empty field, is written as two quotes.
pub open spec fn csv_record(fields: Seq<Seq<u8>>) -> Seq<u8> {
    let joined = joined_fields(fields);
    if joined.len() == 0 {
        seq![QUOTE, QUOTE, LF]
    } else {
        joined.push(LF)
    }
}

/// How often the byte `b` occurs in `bytes`.
pub open spec fn count_of(bytes: Seq<u8>, b: u8) -> nat
    decreases bytes.len(),
{
    if bytes.len() == 0 {
        0
    } else if bytes.last() == b {
        count_of(bytes.drop_last(), b) + 1
    } else {
        count_of(bytes.drop_last(), b)
    }
}

/// The record of a row of texts.
pub open spec fn row_record(row: Seq<Seq<char>>) -> Seq<u8> {
    csv_record(row.map_values(|field: Seq<char>| bytes_of(field)))
}

/// The records of the rows, one after the other.
pub open spec fn row_records(rows: Seq<Seq<Seq<char>>>) -> Seq<u8>
    decreases rows.len(),
{
    if rows.len() == 0 {
        Seq::empty()
    } else {
        row_records(rows.drop_last()) + row_record(rows.last())
    }
}

/// The single field of the first record: the marker and the time at which the
/// document was made.
pub open spec fn header_field(timestamp: Seq<char>) -> Seq<char> {
    "# csv_created_at: "@ + timestamp
}

/// The whole document: the record of the header field, then the records of the
/// rows.
pub open spec fn csv_document(timestamp: Seq<char>, rows: Seq<Seq<Seq<char>>>) -> Seq<u8> {
    row_record(seq![header_field(timestamp)]) + row_records(rows)
}

/// A CSV writer of the `csv` crate that writes into memory. It is made with
/// the crate's defaults but for `flexible`, which is switched on.
#[verifier::external_body]
pub struct CsvWriter {
    inner: csv::Writer<Vec<u8>>,
}

/// The bytes that a writer has been given so far, whether they still wait in
/// its buffer or have reached its vector.
pub uninterp spec fn csv_written(writer: CsvWriter) -> Seq<u8>;

/// Makes a writer with `csv::WriterBuilder::new`, `flexible(true)` and
/// `from_writer` on an empty vector.
///
/// Trusted: nothing has been written to the new writer.
#[verifier::external_body]
fn new_writer() -> (writer: CsvWriter)
    ensures
        csv_written(writer) == Seq::<u8>::empty(),
{
    CsvWriter { inner: csv::WriterBuilder::new().flexible(true).from_writer(Vec::new()) }
}

/// Writes one record with `csv::Writer::write_record`.
///
/// Trusted: the call succeeds and appends the record of the fields. The
/// writer quotes a field where it holds the delimiter, the quote or a line
/// break, and doubles the quotes inside; it puts the delimiter between fields
/// and a line feed at the end; where nothing was written for the record, it
/// writes two quotes before the line feed. It reports an error only where
/// records must agree in length, which `flexible` switches off, or where the
/// sink fails, which a vector never does.
#[verifier::external_body]
fn write_record(writer: &mut CsvWriter, fields: &Vec<String>) -> (written: bool)
    ensures
        written,
        csv_written(*final(writer)) == csv_written(*old(writer)) + row_record(fields.deep_view()),
{
    writer.inner.write_record(fields).is_ok()
}

/// Ends the writing with `csv::Writer::into_inner`, which flushes the buffer
/// into the vector and hands the vector out.
///
/// Trusted: the call succeeds, as a vector takes every write, and the vector
/// holds what was written.
#[verifier::external_body]
fn finish(writer: CsvWriter) -> (bytes: Option<Vec<u8>>)
    ensures
        bytes is Some,
        bytes->0@ == csv_written(writer),
{
    writer.inner.into_inner().ok()
}

/// Reads the clock with `chrono::Local::now` and formats the time with
/// `to_rfc3339`, in the local time zone.
///
/// Trusted: nothing of the result, which depends on the clock and the time
/// zone; only that the call returns. It does so where the clock of the
/// machine does not stand before the year 1970 and its time zone data can be
/// read as such.
#[verifier::external_body]
fn local_timestamp() -> String {
    chrono::Local::now().to_rfc3339()
}

/// Builds the header field for a document made at `timestamp`.
pub fn header(timestamp: &str) -> (field: String)
    ensures
        field@ == header_field(timestamp@),
{
    let mut field = String::from_str("# csv_created_at: ");
    field.append(timestamp);
    field
}

/// Renders the document for the given rows and the time at which it is made:
/// the header record, then one record for each row, in the order of the rows
/// and with as many fields as the row has.
pub fn render_csv(timestamp: &str, rows: &Vec<Vec<String>>) -> (document: Vec<u8>)
    ensures
        document@ == csv_document(timestamp@, rows.deep_view()),
{
    let mut writer = new_writer();
    let mut first: Vec<String> = Vec::new();
    first.push(header(timestamp));
    proof {
        assert(first.deep_view() =~= seq![header_field(timestamp@)]);
    }
    write_record(&mut writer, &first);
    let ghost head = row_record(seq![header_field(timestamp@)]);
    proof {
        assert(rows.deep_view().take(0) =~= Seq::<Seq<Seq<char>>>::empty());
        assert(csv_written(writer) =~= head + row_records(rows.deep_view().take(0)));
    }
    let mut i: usize = 0;
    while i < rows.len()
        invariant
            i <= rows.len(),
            csv_written(writer) == head + row_records(rows.deep_view().take(i as int)),
        decreases rows.len() - i,
    {
        write_record(&mut writer, &rows[i]);
        proof {
            let done = rows.deep_view().take(i + 1);
            assert(done.drop_last() =~= rows.deep_view().take(i as int));
            assert(done.last() == rows[i as int].deep_view());
            assert(csv_written(writer) =~= head + row_records(done));
        }
        i += 1;
    }
    proof {
        assert(rows.deep_view().take(rows.len() as int) =~= rows.deep_view());
    }
    match finish(writer) {
        Some(document) => document,
        None => vstd::pervasive::unreached(),
    }
}

/// Renders the document for the given rows, marked with the local time at
/// which it is made. Whatever the clock says, the document is that of the
/// rows under some timestamp. The clock and the time zone data of the machine
/// have to be in order: the clock must not stand before the year 1970.
pub fn to_csv(rows: &Vec<Vec<String>>) -> (document: Vec<u8>)
    ensures
        exists|timestamp: Seq<char>| document@ == csv_document(timestamp, rows.deep_view()),
{
    let timestamp = local_timestamp();
    render_csv(timestamp.as_str(), rows)
}

/// Two documents of the same rows differ in their header records only: behind
/// the header record, each holds the records of the rows and nothing else.
pub proof fn lemma_documents_differ_in_header_only(
    first: Seq<char>,
    second: Seq<char>,
    rows: Seq<Seq<Seq<char>>>,
)
    ensures
        csv_document(first, rows).skip(row_record(seq![header_field(first)]).len() as int)
            == row_records(rows),
        csv_document(second, rows).skip(row_record(seq![header_field(second)]).len() as int)
            == row_records(rows),
{
    let head_first = row_record(seq![header_field(first)]);
    let head_second = row_record(seq![header_field(second)]);
    assert((head_first + row_records(rows)).skip(head_first.len() as int) =~= row_records(rows));
    assert((head_second + row_records(rows)).skip(head_second.len() as int) =~= row_records(
        rows,
    ));
}

/// The occurrences in two byte strings add up in the two put together.
proof fn lemma_count_of_concat(a: Seq<u8>, b: Seq<u8>, byte: u8)
    ensures
        count_of(a + b, byte) == count_of(a, byte) + count_of(b, byte),
    decreases b.len(),
{
    if b.len() == 0 {
        assert(a + b =~= a);
    } else {
        assert((a + b).drop_last() =~= a + b.drop_last());
        lemma_count_of_concat(a, b.drop_last(), byte);
    }
}

/// A field that needs no quotes holds no comma.
proof fn lemma_plain_field_has_no_comma(field: Seq<u8>)
    requires
        !needs_quotes(field),
    ensures
        count_of(field, COMMA) == 0,
    decreases field.len(),
{
    if field.len() > 0 {
        assert(!is_special(field[field.len() - 1]));
        let rest = field.drop_last();
        assert forall|i: int| 0 <= i < rest.len() implies !is_special(#[trigger] rest[i]) by {
            assert(rest[i] == field[i]);
        }
        lemma_plain_field_has_no_comma(rest);
    }
}

/// Records are neither padded nor cut: where no field of a row needs quotes,
/// the fields stand in the record as they are, and the commas in the record
/// are the separators, one fewer than the fields.
pub proof fn lemma_plain_record_keeps_its_fields(fields: Seq<Seq<u8>>)
    requires
        fields.len() >= 1,
        forall|i: int| 0 <= i < fields.len() ==> !needs_quotes(#[trigger] fields[i]),
    ensures
        count_of(joined_fields(fields), COMMA) == fields.len() - 1,
        fields.len() == 1 ==> joined_fields(fields) == fields[0],
        fields.len() > 1 ==> joined_fields(fields) == joined_fields(fields.drop_last()) + seq![
            COMMA,
        ] + fields.last(),
    decreases fields.len(),
{
    if fields.len() == 1 {
        lemma_plain_field_has_no_comma(fields[0]);
    } else {
        let rest = fields.drop_last();
        assert forall|i: int| 0 <= i < rest.len() implies !needs_quotes(#[trigger] rest[i]) by {
            assert(rest[i] == fields[i]);
        }
        lemma_plain_record_keeps_its_fields(rest);
        lemma_plain_field_has_no_comma(fields.last());
        lemma_count_of_concat(joined_fields(rest) + seq![COMMA], fields.last(), COMMA);
        lemma_count_of_concat(joined_fields(rest), seq![COMMA], COMMA);
        assert(seq![COMMA].drop_last() =~= Seq::<u8>::empty());
        assert(count_of(seq![COMMA], COMMA) == 1) by {
            reveal_with_fuel(count_of, 2);
        }
    }
}

} // verus!
