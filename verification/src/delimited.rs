//! Delimited text: what it looks like, and the `csv` crate that reads and
//! writes it.
use vstd::prelude::*;
use vstd::utf8::{decode_utf8, encode_utf8, valid_utf8};

use crate::text::{decimal, texts};

verus! {

/// A character that a field cannot hold without quotes.
pub open spec fn is_special(c: char, delimiter: char) -> bool {
    c == delimiter || c == '"' || c == '\r' || c == '\n'
}

/// Whether a field has to stand in quotes.
pub open spec fn needs_quotes(field: Seq<char>, delimiter: char) -> bool {
    exists|i: int| 0 <= i < field.len() && is_special(#[trigger] field[i], delimiter)
}

/// A field with every quote doubled.
pub open spec fn quotes_doubled(field: Seq<char>) -> Seq<char>
    decreases field.len(),
{
    if field.len() == 0 {
        field
    } else if field.last() == '"' {
        quotes_doubled(field.drop_last()) + seq!['"', '"']
    } else {
        quotes_doubled(field.drop_last()).push(field.last())
    }
}

/// A field as it stands in delimited text.
pub ghost struct Field {
    /// What the field holds.
    pub content: Seq<char>,
    /// Whether it stands in quotes.
    pub quoted: bool,
}

/// The text of a field.
pub open spec fn field_text(field: Field) -> Seq<char> {
    if field.quoted {
        seq!['"'] + quotes_doubled(field.content) + seq!['"']
    } else {
        field.content
    }
}

/// The text of fields with the delimiter between them.
pub open spec fn fields_text(fields: Seq<Field>, delimiter: char) -> Seq<char>
    decreases fields.len(),
{
    if fields.len() == 0 {
        Seq::empty()
    } else if fields.len() == 1 {
        field_text(fields[0])
    } else {
        fields_text(fields.drop_last(), delimiter).push(delimiter) + field_text(fields.last())
    }
}

/// A row as it stands in delimited text.
pub ghost struct Line {
    pub fields: Seq<Field>,
    pub line_end: Seq<char>,
}

/// The text of lines.
pub open spec fn lines_text(lines: Seq<Line>, delimiter: char) -> Seq<char>
    decreases lines.len(),
{
    if lines.len() == 0 {
        Seq::empty()
    } else {
        lines_text(lines.drop_last(), delimiter) + fields_text(lines.last().fields, delimiter)
            + lines.last().line_end
    }
}

/// The row that a line holds.
pub open spec fn line_row(line: Line) -> Seq<Seq<char>> {
    line.fields.map_values(|field: Field| field.content)
}

/// The rows that lines hold.
pub open spec fn line_rows(lines: Seq<Line>) -> Seq<Seq<Seq<char>>> {
    lines.map_values(|line: Line| line_row(line))
}

/// The line end that rows are written with.
pub open spec fn newline() -> Seq<char> {
    seq!['\n']
}

/// The fields that a row is written as: in quotes where they need them, or a
/// single pair of quotes where the line would otherwise be blank.
pub open spec fn written_fields(row: Seq<Seq<char>>, delimiter: char) -> Seq<Field> {
    if row.len() == 0 || row.len() == 1 && row[0].len() == 0 {
        seq![Field { content: Seq::empty(), quoted: true }]
    } else {
        row.map_values(
            |content: Seq<char>| Field { content, quoted: needs_quotes(content, delimiter) },
        )
    }
}

/// The lines that rows are written as.
pub open spec fn written_lines(rows: Seq<Seq<Seq<char>>>, delimiter: char) -> Seq<Line> {
    rows.map_values(
        |row: Seq<Seq<char>>|
            Line { fields: written_fields(row, delimiter), line_end: newline() },
    )
}

/// The text that rows are written as.
pub open spec fn csv_text(rows: Seq<Seq<Seq<char>>>, delimiter: char) -> Seq<char> {
    lines_text(written_lines(rows, delimiter), delimiter)
}

/// The line ends that are read: those that do not hold the delimiter.
pub open spec fn is_line_end(line_end: Seq<char>, delimiter: char) -> bool {
    ||| line_end == seq!['\n']
    ||| delimiter != '\r' && (line_end == seq!['\r', '\n'] || line_end == seq!['\r'])
}

/// In these fields a delimiter that also has another meaning is taken for a
/// delimiter. A carriage return at the start of a line is skipped, so with it
/// the first of several fields must not be without text. A quote at the start
/// of a field opens quotes, and after a quoted field it reopens them, so with
/// it all fields but the last must be neither empty nor quoted.
pub open spec fn told_apart(fields: Seq<Field>, delimiter: char) -> bool {
    &&& delimiter == '\r' && fields.len() > 1 ==> field_text(fields[0]).len() > 0
    &&& delimiter == '"' ==> forall|j: int|
        0 <= j < fields.len() - 1 ==> (#[trigger] fields[j]).content.len() > 0 && !fields[j].quoted
}

/// The fields of a line can be read: it has some and is not blank, fields that
/// need quotes have them, and the delimiters can be told apart.
pub open spec fn readable_fields(fields: Seq<Field>, delimiter: char) -> bool {
    &&& fields_text(fields, delimiter).len() > 0
    &&& forall|j: int|
        0 <= j < fields.len() ==> (#[trigger] fields[j]).quoted || !needs_quotes(
            fields[j].content,
            delimiter,
        )
    &&& told_apart(fields, delimiter)
}

/// The text of these lines can be read as the rows that they hold: the delimiter
/// is ASCII and no newline, every line can be read and has a line end, which the
/// last one may lack, and the text does not begin with a byte order mark, which
/// a reader skips.
pub open spec fn readable(lines: Seq<Line>, delimiter: u8) -> bool {
    let d = delimiter as char;
    lines.len() > 0 ==> {
        &&& delimiter < 0x80
        &&& d != '\n'
        &&& forall|i: int|
            0 <= i < lines.len() ==> readable_fields((#[trigger] lines[i]).fields, d) && (
            is_line_end(lines[i].line_end, d) || i == lines.len() - 1 && lines[i].line_end.len()
                == 0)
        &&& lines_text(lines, d)[0] != '\u{feff}'
    }
}

/// A row that was read, or the text of the error in its place.
pub open spec fn read_row(row: Result<Vec<String>, String>) -> Result<Seq<Seq<char>>, Seq<char>> {
    match row {
        Ok(fields) => Ok(texts(fields@)),
        Err(e) => Err(e@),
    }
}

/// The rows that were read.
pub open spec fn read_rows(rows: Seq<Result<Vec<String>, String>>) -> Seq<
    Result<Seq<Seq<char>>, Seq<char>>,
> {
    rows.map_values(|row: Result<Vec<String>, String>| read_row(row))
}

/// The first row of a text.
pub open spec fn first_row(rows: Seq<Seq<Seq<char>>>) -> Seq<Seq<char>> {
    if rows.len() == 0 {
        Seq::empty()
    } else {
        rows[0]
    }
}

/// The rows of a text below the first one.
pub open spec fn later_rows(rows: Seq<Seq<Seq<char>>>) -> Seq<Seq<Seq<char>>> {
    if rows.len() == 0 {
        rows
    } else {
        rows.drop_first()
    }
}

/// Rows that were all read without an error.
pub open spec fn all_read(rows: Seq<Seq<Seq<char>>>) -> Seq<Result<Seq<Seq<char>>, Seq<char>>> {
    rows.map_values(|row: Seq<Seq<char>>| Ok(row))
}

/// The header row and the records are the first of the rows and the rows after
/// it; where there are no rows, the header row is empty.
pub open spec fn heads(
    rows: Seq<Result<Seq<Seq<char>>, Seq<char>>>,
    headers: Result<Seq<Seq<char>>, Seq<char>>,
    records: Seq<Result<Seq<Seq<char>>, Seq<char>>>,
) -> bool {
    if rows.len() == 0 {
        headers == Ok::<Seq<Seq<char>>, Seq<char>>(Seq::empty()) && records.len() == 0
    } else {
        headers == rows[0] && records == rows.drop_first()
    }
}

/// The records that `csv::Reader::records` finds in a text without a header row.
pub uninterp spec fn csv_rows(text: Seq<char>, delimiter: u8, flexible: bool) -> Seq<
    Result<Seq<Seq<char>>, Seq<char>>,
>;

/// Reads the records of a text without a header row with `csv::Reader::records`,
/// on a reader that `csv::ReaderBuilder` sets up. The claim is that the result
/// depends on the text and the options alone; that with an ASCII delimiter and
/// rows of any length there are no errors; and that the text of readable lines
/// is read as the rows that they hold. What is read in other text is left
/// unsaid.
#[verifier::external_body]
pub(crate) fn read_plain(text: &str, delimiter: u8, flexible: bool) -> (r: Vec<
    Result<Vec<String>, String>,
>)
    ensures
        read_rows(r@) == csv_rows(text@, delimiter, flexible),
        flexible && delimiter < 0x80 ==> forall|i: int| 0 <= i < r@.len() ==> #[trigger] r@[i] is Ok,
        forall|lines: Seq<Line>|
            flexible && readable(lines, delimiter) && text@ == #[trigger] lines_text(
                lines,
                delimiter as char,
            ) ==> read_rows(r@) == all_read(line_rows(lines)),
{
    let mut builder = csv::ReaderBuilder::new();
    builder.delimiter(delimiter).has_headers(false).flexible(flexible);
    builder.from_reader(text.as_bytes()).records().map(|record| match record {
        Ok(fields) => Ok(fields.iter().map(|field| field.to_owned()).collect()),
        Err(e) => Err(e.to_string()),
    }).collect()
}

/// The header row that `csv::Reader::headers` finds in a text, and the records
/// that `csv::Reader::records` then finds below it.
pub uninterp spec fn csv_table(text: Seq<char>, delimiter: u8, flexible: bool) -> (
    Result<Seq<Seq<char>>, Seq<char>>,
    Seq<Result<Seq<Seq<char>>, Seq<char>>>,
);

/// Reads the header row of a text with `csv::Reader::headers` and then, from the
/// same reader, the records with `csv::Reader::records`. The claim is that the
/// result depends on the text and the options alone; that with an ASCII
/// delimiter and rows of any length there are no errors, and the header row and
/// the records are the first row and the later rows that are found without a
/// header row; and that the text of readable lines is read as the rows that they
/// hold.
#[verifier::external_body]
pub(crate) fn read_table(text: &str, delimiter: u8, flexible: bool) -> (r: (
    Result<Vec<String>, String>,
    Vec<Result<Vec<String>, String>>,
))
    ensures
        (read_row(r.0), read_rows(r.1@)) == csv_table(text@, delimiter, flexible),
        flexible && delimiter < 0x80 ==> r.0 is Ok,
        flexible && delimiter < 0x80 ==> forall|i: int|
            0 <= i < r.1@.len() ==> #[trigger] r.1@[i] is Ok,
        flexible && delimiter < 0x80 ==> heads(
            csv_rows(text@, delimiter, flexible),
            read_row(r.0),
            read_rows(r.1@),
        ),
        forall|lines: Seq<Line>|
            flexible && readable(lines, delimiter) && text@ == #[trigger] lines_text(
                lines,
                delimiter as char,
            ) ==> heads(all_read(line_rows(lines)), read_row(r.0), read_rows(r.1@)),
{
    let mut builder = csv::ReaderBuilder::new();
    builder.delimiter(delimiter).has_headers(true).flexible(flexible);
    let mut reader = builder.from_reader(text.as_bytes());
    let headers = match reader.headers() {
        Ok(fields) => Ok(fields.iter().map(|field| field.to_owned()).collect()),
        Err(e) => Err(e.to_string()),
    };
    let records = reader.records().map(|record| match record {
        Ok(fields) => Ok(fields.iter().map(|field| field.to_owned()).collect()),
        Err(e) => Err(e.to_string()),
    }).collect();
    (headers, records)
}

/// A `csv::Writer` that writes into memory.
#[verifier::external_body]
pub struct CsvWriter {
    inner: csv::Writer<Vec<u8>>,
}

/// The rows that a writer has taken.
pub uninterp spec fn written_rows(writer: CsvWriter) -> Seq<Seq<Seq<char>>>;

/// The delimiter that a writer was made with.
pub uninterp spec fn writer_delimiter(writer: CsvWriter) -> u8;

/// Makes a writer with `csv::WriterBuilder`. The claim is that it has taken no
/// rows yet.
#[verifier::external_body]
pub(crate) fn new_writer(delimiter: u8) -> (r: CsvWriter)
    ensures
        written_rows(r) == Seq::<Seq<Seq<char>>>::empty(),
        writer_delimiter(r) == delimiter,
{
    CsvWriter { inner: csv::WriterBuilder::new().delimiter(delimiter).from_writer(Vec::new()) }
}

/// Whether a row has as many fields as the rows before it.
pub open spec fn fits(rows: Seq<Seq<Seq<char>>>, row: Seq<Seq<char>>) -> bool {
    rows.len() > 0 ==> rows[0].len() == row.len()
}

/// What the `csv` crate says of a row with another number of fields.
pub open spec fn unequal_text(expected: nat, found: nat) -> Seq<char> {
    "CSV error: found record with "@ + decimal(found) + " fields, but the previous record has "@
        + decimal(expected) + " fields"@
}

/// Writes a row with `csv::Writer::write_record`. The claim is that a row with
/// as many fields as the first one is taken, and that any other is refused with
/// this message; writing into memory itself does not fail. A writer that has
/// refused a row keeps its fields in an unfinished line, so it is not handed
/// back.
#[verifier::external_body]
pub(crate) fn write_row(writer: CsvWriter, row: &Vec<String>) -> (r: Result<CsvWriter, String>)
    ensures
        r is Ok <==> fits(written_rows(writer), texts(row@)),
        r matches Ok(after) ==> written_rows(after) == written_rows(writer).push(texts(row@)),
        r matches Ok(after) ==> writer_delimiter(after) == writer_delimiter(writer),
        r matches Err(e) ==> e@ == unequal_text(written_rows(writer)[0].len(), row@.len()),
{
    let mut inner = writer.inner;
    match inner.write_record(row) {
        Ok(()) => Ok(CsvWriter { inner }),
        Err(e) => Err(e.to_string()),
    }
}

/// The bytes that `csv::Writer::into_inner` hands out for rows.
pub uninterp spec fn csv_bytes(rows: Seq<Seq<Seq<char>>>, delimiter: u8) -> Seq<u8>;

/// Ends writing with `csv::Writer::into_inner`. The claim is that the bytes
/// depend on the rows and the delimiter alone, and that with an ASCII delimiter
/// they are those of the delimited text of the rows, with quotes where they are
/// needed and a newline after each row; writing into memory itself does not
/// fail. What the bytes are with another delimiter is left unsaid.
#[verifier::external_body]
pub(crate) fn finish(writer: CsvWriter) -> (r: Result<Vec<u8>, String>)
    ensures
        r is Ok,
        r->Ok_0@ == csv_bytes(written_rows(writer), writer_delimiter(writer)),
        writer_delimiter(writer) < 0x80 ==> r->Ok_0@ == encode_utf8(
            csv_text(written_rows(writer), writer_delimiter(writer) as char),
        ),
{
    match writer.inner.into_inner() {
        Ok(bytes) => Ok(bytes),
        Err(e) => Err(e.to_string()),
    }
}

/// What `std::string::FromUtf8Error` says of bytes that are no UTF-8.
pub uninterp spec fn utf8_problem(bytes: Seq<u8>) -> Seq<char>;

/// Turns bytes into a string with `String::from_utf8`. The claim is that this
/// succeeds on valid UTF-8 alone and gives the characters that it encodes.
#[verifier::external_body]
pub(crate) fn utf8_string(bytes: Vec<u8>) -> (r: Result<String, String>)
    ensures
        r is Ok <==> valid_utf8(bytes@),
        r matches Ok(s) ==> s@ == decode_utf8(bytes@),
        r matches Err(e) ==> e@ == utf8_problem(bytes@),
{
    match String::from_utf8(bytes) {
        Ok(s) => Ok(s),
        Err(e) => Err(e.to_string()),
    }
}

} // verus!
