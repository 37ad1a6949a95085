//! Extraction: from the contents of one image file to a row of text fields.
//!
//! The EXIF parser is the `rexif` crate. What it finds in a file is handed on
//! as an [`ExifData`] of plain texts, and everything that is built from it is
//! stated over that value.

use crate::text::{decimal, decimal_string};
use vstd::prelude::*;
use vstd::string::StringExecFns;

verus! {

/// One metadata entry of an image.
#[derive(Debug, PartialEq, Eq)]
pub struct ExifEntry {
    /// The name of the tag, as the parser shows it.
    pub tag: String,
    /// The value of the tag in its human-readable form.
    pub value: String,
}

/// The metadata that the parser found in one image.
#[derive(Debug, PartialEq, Eq)]
pub struct ExifData {
    /// The MIME type of the image, such as `image/jpeg`.
    pub mime: String,
    /// The entries, in the order in which the parser reports them.
    pub entries: Vec<ExifEntry>,
}

/// What an [`ExifEntry`] holds.
pub struct ExifEntryView {
    pub tag: Seq<char>,
    pub value: Seq<char>,
}

/// What an [`ExifData`] holds.
pub struct ExifDataView {
    pub mime: Seq<char>,
    pub entries: Seq<ExifEntryView>,
}

impl View for ExifEntry {
    type V = ExifEntryView;

    open spec fn view(&self) -> ExifEntryView {
        ExifEntryView { tag: self.tag@, value: self.value@ }
    }
}

impl View for ExifData {
    type V = ExifDataView;

    open spec fn view(&self) -> ExifDataView {
        ExifDataView { mime: self.mime@, entries: self.entries@.map_values(|e: ExifEntry| e@) }
    }
}

/// What the parser makes of the contents of a file: the metadata, or the
/// description of the error that it reports. The parser looks at nothing but
/// the contents.
pub uninterp spec fn parsed_exif(contents: Seq<u8>) -> Result<ExifDataView, Seq<char>>;

/// What a parse result holds.
pub open spec fn parsed_view(parsed: Result<ExifData, String>) -> Result<
    ExifDataView,
    Seq<char>,
> {
    match parsed {
        Ok(data) => Ok(data@),
        Err(description) => Err(description@),
    }
}

/// What the outcome of an extraction holds.
pub open spec fn outcome_view(outcome: Result<Vec<String>, String>) -> Result<
    Seq<Seq<char>>,
    Seq<char>,
> {
    match outcome {
        Ok(row) => Ok(row.deep_view()),
        Err(message) => Err(message@),
    }
}

/// The field of a row that shows one entry: the tag, a colon and a space, and
/// the value.
pub open spec fn tag_field(entry: ExifEntryView) -> Seq<char> {
    entry.tag + seq![':', ' '] + entry.value
}

/// The row of an image: its path, its MIME type, the number of its entries in
/// decimal, and one field for each entry, in the order of the entries.
pub open spec fn exif_row(path: Seq<char>, data: ExifDataView) -> Seq<Seq<char>> {
    seq![path, data.mime, decimal(data.entries.len())] + data.entries.map_values(
        |e: ExifEntryView| tag_field(e),
    )
}

/// The words that open a failure message.
pub open spec fn failure_opening() -> Seq<char> {
    "Failed to parse EXIF in "@
}

/// The message that reports a file whose metadata could not be had: the
/// opening words, the path, a colon and a space, and the description of the
/// error.
pub open spec fn failure_message(path: Seq<char>, description: Seq<char>) -> Seq<char> {
    failure_opening() + path + ": "@ + description
}

/// The outcome of extracting the file at `path` with the given contents: its
/// row where the parser succeeds, the failure message where it does not.
pub open spec fn extraction(path: Seq<char>, contents: Seq<u8>) -> Result<
    Seq<Seq<char>>,
    Seq<char>,
> {
    match parsed_exif(contents) {
        Ok(data) => Ok(exif_row(path, data)),
        Err(description) => Err(failure_message(path, description)),
    }
}

/// Parses the contents of an image file with `rexif::parse_buffer_quiet` and
/// drops the warnings that come with the result.
///
/// Trusted: the call returns, and its result is `parsed_exif` of the
/// contents. On success the result holds the MIME type and, for each entry in
/// the parser's order, the displayed tag and the field `value_more_readable`;
/// on failure it holds the displayed error. The parser reads the given bytes
/// and nothing else. It reaches into them through checked reads, and with
/// addresses of 64 bits its offsets cannot overflow; the `panic!` in its
/// source guards its own table of tags, which agrees with the tags' numbers.
#[verifier::external_body]
fn parse_exif(contents: &[u8]) -> (parsed: Result<ExifData, String>)
    ensures
        parsed_view(parsed) == parsed_exif(contents@),
{
    match rexif::parse_buffer_quiet(contents).0 {
        Ok(data) => Ok(
            ExifData {
                mime: data.mime.to_string(),
                entries: data.entries.iter().map(
                    |e| ExifEntry { tag: e.tag.to_string(), value: e.value_more_readable.to_string() },
                ).collect(),
            },
        ),
        Err(error) => Err(error.to_string()),
    }
}

/// Builds the field that shows one entry.
pub fn entry_field(entry: &ExifEntry) -> (field: String)
    ensures
        field@ == tag_field(entry@),
{
    proof {
        reveal_strlit(": ");
    }
    let mut field = entry.tag.clone();
    field.append(": ");
    field.append(entry.value.as_str());
    proof {
        assert(": "@ =~= seq![':', ' ']);
    }
    field
}

/// Builds the row of the image at `path` from its metadata. The row has three
/// fields and one more for each entry.
pub fn build_row(path: &str, data: &ExifData) -> (row: Vec<String>)
    ensures
        row.deep_view() == exif_row(path@, data@),
        row.len() == 3 + data.entries.len(),
{
    let mut row: Vec<String> = Vec::new();
    row.push(String::from_str(path));
    row.push(data.mime.clone());
    row.push(decimal_string(data.entries.len()));
    let ghost head = seq![path@, data.mime@, decimal(data.entries.len() as nat)];
    let ghost show = |e: ExifEntryView| tag_field(e);
    proof {
        assert(row.deep_view() =~= head + data@.entries.take(0).map_values(show));
    }
    let mut i: usize = 0;
    while i < data.entries.len()
        invariant
            i <= data.entries.len(),
            row.len() == 3 + i,
            head == seq![path@, data.mime@, decimal(data.entries.len() as nat)],
            show == (|e: ExifEntryView| tag_field(e)),
            row.deep_view() == head + data@.entries.take(i as int).map_values(show),
        decreases data.entries.len() - i,
    {
        let ghost before = row.deep_view();
        let field = entry_field(&data.entries[i]);
        row.push(field);
        proof {
            assert(data@.entries[i as int] == data.entries@[i as int]@);
            assert(data@.entries.take(i + 1) =~= data@.entries.take(i as int).push(
                data@.entries[i as int],
            ));
            assert(row.deep_view() =~= before.push(tag_field(data@.entries[i as int])));
            assert(row.deep_view() =~= head + data@.entries.take(i + 1).map_values(show));
        }
        i += 1;
    }
    proof {
        assert(data@.entries.take(data.entries.len() as int) =~= data@.entries);
    }
    row
}

/// Builds the message that reports the file at `path` with the parser's
/// description of what went wrong.
pub fn describe_failure(path: &str, description: &str) -> (message: String)
    ensures
        message@ == failure_message(path@, description@),
{
    let mut message = String::from_str("Failed to parse EXIF in ");
    message.append(path);
    message.append(": ");
    message.append(description);
    message
}

/// Turns what the parser made of the file at `path` into the outcome of the
/// extraction: the row of the image, or the message that reports the file.
pub fn row_or_failure(path: &str, parsed: Result<ExifData, String>) -> (outcome: Result<
    Vec<String>,
    String,
>)
    ensures
        outcome_view(outcome) == match parsed_view(parsed) {
            Ok(data) => Ok(exif_row(path@, data)),
            Err(description) => Err(failure_message(path@, description)),
        },
{
    match parsed {
        Ok(data) => Ok(build_row(path, &data)),
        Err(description) => Err(describe_failure(path, description.as_str())),
    }
}

/// Extracts the metadata of the image at `path`, whose contents are given,
/// and builds its row. A file that the parser rejects gives the message that
/// reports it, and no row.
pub fn extract_exif(path: &str, contents: &[u8]) -> (outcome: Result<Vec<String>, String>)
    ensures
        outcome_view(outcome) == extraction(path@, contents@),
{
    row_or_failure(path, parse_exif(contents))
}

/// The shape of a row: three fields, then one field for each entry, in the
/// order of the entries.
pub proof fn lemma_row_shape(path: Seq<char>, data: ExifDataView)
    ensures
        exif_row(path, data).len() == 3 + data.entries.len(),
        exif_row(path, data)[0] == path,
        exif_row(path, data)[1] == data.mime,
        exif_row(path, data)[2] == decimal(data.entries.len()),
        forall|i: int|
            0 <= i < data.entries.len() ==> #[trigger] exif_row(path, data)[3 + i] == tag_field(
                data.entries[i],
            ),
{
}

/// The failure message names the file: the path stands in it, right behind
/// its opening words.
pub proof fn lemma_failure_names_the_file(path: Seq<char>, description: Seq<char>)
    ensures
        failure_message(path, description).skip(failure_opening().len() as int).take(
            path.len() as int,
        ) == path,
{
    assert(failure_message(path, description).skip(failure_opening().len() as int).take(
        path.len() as int,
    ) =~= path);
}

/// The name of a file decides nothing but the first field: two files that hold
/// the same succeed or fail together, and where they succeed their rows agree
/// behind the path.
pub proof fn lemma_name_shows_in_first_field_only(
    path: Seq<char>,
    other: Seq<char>,
    contents: Seq<u8>,
)
    ensures
        extraction(path, contents) is Ok <==> extraction(other, contents) is Ok,
        extraction(path, contents) is Ok ==> extraction(path, contents)->Ok_0.skip(1)
            == extraction(other, contents)->Ok_0.skip(1),
{
    match parsed_exif(contents) {
        Ok(data) => {
            assert(exif_row(path, data).skip(1) =~= exif_row(other, data).skip(1));
        },
        Err(_) => {},
    }
}

} // verus!
