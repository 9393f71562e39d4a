//! The options of one conversion.
use vstd::prelude::*;

use crate::text::texts;

verus! {

/// The largest output, in bytes, where the configuration names no other.
pub const DEFAULT_MAX_OUTPUT_BYTES: usize = 1_048_576;

/// Which dispatch phase a transform fires on.
#[derive(Debug, Clone, Copy, PartialEq, Eq, Structural)]
pub enum Phase {
    Arguments,
    Result,
    Both,
}

impl Default for Phase {
    fn default() -> (r: Phase)
        ensures
            r == Phase::Both,
    {
        Phase::Both
    }
}

/// Which way a value is converted.
#[derive(Debug, Clone, Copy, PartialEq, Eq, Structural)]
pub enum Direction {
    /// A delimited string becomes an array of rows.
    CsvToJson,
    /// An array of rows becomes a delimited string.
    JsonToCsv,
}

/// The options that arrive with each call.
#[derive(Debug, PartialEq, Eq)]
pub struct CsvConfig {
    /// Which way to convert.
    pub direction: Direction,
    /// Reading: the first row names the columns, and rows become objects.
    /// Writing: a header row comes first (object input only).
    pub has_headers: bool,
    /// The field delimiter, one ASCII character.
    pub delimiter: char,
    /// The order of the columns when objects are written; without it, the
    /// sorted union of all their names.
    pub columns: Option<Vec<String>>,
    /// JSON Pointer (RFC 6901) to the part to convert; without it, or where it
    /// is empty, the whole value is converted.
    pub pointer: Option<String>,
    /// The phase or phases on which to convert.
    pub phase: Phase,
    /// The largest output, in bytes of its JSON text.
    pub max_output_bytes: usize,
}

/// The options as mathematical values.
pub ghost struct Settings {
    pub direction: Direction,
    pub has_headers: bool,
    pub delimiter: char,
    pub columns: Option<Seq<Seq<char>>>,
    pub pointer: Option<Seq<char>>,
    pub phase: Phase,
    pub max_output_bytes: nat,
}

/// The names in an optional list of columns.
pub open spec fn column_texts(columns: Option<Vec<String>>) -> Option<Seq<Seq<char>>> {
    match columns {
        Some(names) => Some(texts(names@)),
        None => None,
    }
}

impl View for CsvConfig {
    type V = Settings;

    open spec fn view(&self) -> Settings {
        Settings {
            direction: self.direction,
            has_headers: self.has_headers,
            delimiter: self.delimiter,
            columns: column_texts(self.columns),
            pointer: match self.pointer {
                Some(p) => Some(p@),
                None => None,
            },
            phase: self.phase,
            max_output_bytes: self.max_output_bytes as nat,
        }
    }
}

/// The default of `has_headers`.
pub fn default_true() -> (r: bool)
    ensures
        r,
{
    true
}

/// The default of `delimiter`.
pub fn default_delimiter() -> (r: char)
    ensures
        r == ',',
{
    ','
}

/// The default of `max_output_bytes`.
pub fn default_max_output_bytes() -> (r: usize)
    ensures
        r == 1_048_576,
{
    DEFAULT_MAX_OUTPUT_BYTES
}

/// The byte of an ASCII character; `None` for any other character, since a
/// delimiter is a single byte.
pub fn ascii_byte(c: char) -> (r: Option<u8>)
    ensures
        r == if (c as u32) < 0x80 {
            Some(c as u8)
        } else {
            None
        },
{
    if (c as u32) < 0x80 {
        Some(c as u8)
    } else {
        None
    }
}

} // verus!
