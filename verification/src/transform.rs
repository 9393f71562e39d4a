//! The transform: which part of a value is converted, when, and what comes of
//! it.
use vstd::prelude::*;
use vstd::utf8::encode_utf8;

use crate::config::{ascii_byte, CsvConfig, Direction, Phase, Settings};
use crate::delimited::{line_rows, lines_text, readable, Line};
use crate::document::{assign, find, json_text, outcome, write_value, Json};
use crate::reading::{csv_to_json, csv_to_json_result, reader_knows, rows_json};
use crate::round_trip::{law_rows_carry_the_value, lemma_undoes_writing, survives};
use crate::text::{decimal, decimal_text, join};
use crate::tree::{
    at, law_located_after_put, law_put_back, law_put_is_found, law_put_twice, locate, put, Step, Tree,
};
use crate::writing::{json_to_csv, json_to_csv_result};

verus! {

/// The class that a plugin belongs to.
#[derive(Debug, Clone, Copy, PartialEq, Eq, Structural)]
pub enum PluginClass {
    Transform,
}

/// What a plugin says of itself.
#[derive(Debug, PartialEq, Eq)]
pub struct PluginManifest {
    pub id: String,
    pub name: String,
    pub class: PluginClass,
    /// What the plugin needs of its host.
    pub required_capabilities: Vec<String>,
}

/// What a transform did with a value.
#[derive(Debug, PartialEq)]
pub enum TransformResult {
    /// The value to go on with.
    Modified { value: Json },
    /// The value is to stay as it is.
    Unchanged,
    /// The value cannot be transformed.
    Error { message: String },
}

/// What a transform did, as a mathematical value.
pub ghost enum Outcome {
    Modified(Tree),
    Unchanged,
    Error(Seq<char>),
}

impl View for TransformResult {
    type V = Outcome;

    open spec fn view(&self) -> Outcome {
        match self {
            TransformResult::Modified { value } => Outcome::Modified(value@),
            TransformResult::Unchanged => Outcome::Unchanged,
            TransformResult::Error { message } => Outcome::Error(message@),
        }
    }
}

/// A character as its `Debug` shows it.
pub uninterp spec fn char_debug(c: char) -> Seq<char>;

/// Shows a character with the `Debug` of `char`. The claim is that the text
/// depends on the character alone.
#[verifier::external_body]
fn show_char(c: char) -> (r: String)
    ensures
        r@ == char_debug(c),
{
    format!("{:?}", c)
}

/// A text as its `Debug` shows it.
pub uninterp spec fn str_debug(s: Seq<char>) -> Seq<char>;

/// Shows a text with the `Debug` of `str`. The claim is that the result depends
/// on the text alone.
#[verifier::external_body]
fn show_str(s: &str) -> (r: String)
    ensures
        r@ == str_debug(s@),
{
    format!("{:?}", s)
}

/// Parsed options, or what the parser said of them.
pub open spec fn parsed(config: Result<CsvConfig, String>) -> Result<Settings, Seq<char>> {
    match config {
        Ok(options) => Ok(options@),
        Err(e) => Err(e@),
    }
}

/// Whether a call in this phase is one to convert on.
pub open spec fn fires(settings: Settings, phase: Phase) -> bool {
    settings.phase == Phase::Both || settings.phase == phase
}

/// Whether the delimiter is one ASCII character.
pub open spec fn ascii_delimiter(settings: Settings) -> bool {
    (settings.delimiter as u32) < 0x80
}

/// The pointer to the part to convert; the empty one, which addresses the whole
/// value, where none is given.
pub open spec fn target_pointer(settings: Settings) -> Seq<char> {
    match settings.pointer {
        Some(pointer) => pointer,
        None => Seq::empty(),
    }
}

/// What a part of a value is converted to.
pub open spec fn converted(target: Tree, settings: Settings) -> Result<Tree, Seq<char>> {
    let delimiter = settings.delimiter as u8;
    match settings.direction {
        Direction::CsvToJson => csv_to_json_result(target, delimiter, settings.has_headers),
        Direction::JsonToCsv => json_to_csv_result(
            target,
            delimiter,
            settings.has_headers,
            settings.columns,
        ),
    }
}

/// The length of a text in bytes.
pub open spec fn byte_len(text: Seq<char>) -> nat {
    encode_utf8(text).len()
}

/// What is said of output that is too long.
pub open spec fn too_long(size: nat, limit: nat) -> Seq<char> {
    "csv output "@ + decimal(size) + " bytes exceeds max_output_bytes ("@ + decimal(limit) + ")"@
}

/// What becomes of a value once the part at a path is converted.
pub open spec fn finished(
    value: Tree,
    path: Seq<Step>,
    produced: Result<Tree, Seq<char>>,
    limit: nat,
) -> Outcome {
    match produced {
        Ok(new) => if byte_len(json_text(new)) > limit {
            Outcome::Error(too_long(byte_len(json_text(new)), limit))
        } else {
            Outcome::Modified(put(value, path, new))
        },
        Err(message) => Outcome::Error(message),
    }
}

/// What a call with these options does with a value.
pub open spec fn run_outcome(
    value: Tree,
    config: Result<Settings, Seq<char>>,
    phase: Phase,
) -> Outcome {
    match config {
        Err(e) => Outcome::Error("csv transform config: "@ + e),
        Ok(settings) => if !fires(settings, phase) {
            Outcome::Unchanged
        } else if !ascii_delimiter(settings) {
            Outcome::Error(
                "delimiter "@ + char_debug(settings.delimiter) + " must be a single ASCII byte"@,
            )
        } else {
            match locate(value, target_pointer(settings)) {
                Some(path) => finished(
                    value,
                    path,
                    converted(at(value, path)->0, settings),
                    settings.max_output_bytes,
                ),
                None => Outcome::Error(
                    "pointer "@ + str_debug(target_pointer(settings)) + " not found in value"@,
                ),
            }
        },
    }
}

/// What a call knows of the text that it reads.
pub open spec fn run_knows(value: Tree, settings: Settings) -> bool {
    settings.direction == Direction::CsvToJson ==> match locate(value, target_pointer(settings)) {
        Some(path) => at(value, path) matches Some(Tree::Str(text)) ==> reader_knows(
            text,
            settings.delimiter as u8,
            settings.has_headers,
        ),
        None => true,
    }
}

/// The options of this call read back what the options `before` wrote: the same
/// part, with the same delimiter and the same header row.
pub open spec fn reads_back(settings: Settings, before: Settings) -> bool {
    &&& before.direction == Direction::JsonToCsv
    &&& settings.direction == Direction::CsvToJson
    &&& settings.delimiter == before.delimiter
    &&& settings.has_headers == before.has_headers
    &&& target_pointer(settings) == target_pointer(before)
}

/// The part of a value that the options select survives being written and read
/// back, and is within the limit.
pub open spec fn part_survives(
    value: Tree,
    before: Settings,
    settings: Settings,
) -> bool {
    match locate(value, target_pointer(before)) {
        Some(path) => match at(value, path) {
            Some(part) => {
                &&& survives(part, before.delimiter as u8, before.has_headers, before.columns)
                &&& byte_len(json_text(part)) <= settings.max_output_bytes
            },
            None => false,
        },
        None => false,
    }
}

/// Where an earlier call turned a surviving part of an original value into
/// delimited text, this call on what came of it gives the original back.
pub open spec fn restores(value: Tree, settings: Settings, result: Outcome) -> bool {
    forall|original: Tree, before: Settings, phase: Phase|
        #[trigger] run_outcome(original, Ok(before), phase) == Outcome::Modified(value)
            && reads_back(settings, before) && part_survives(original, before, settings)
            ==> result == Outcome::Modified(original)
}

/// Where the selected part is the text of readable lines, the last of which may
/// lack its line end, the JSON of all the rows of these lines is put in its
/// place, unless that is too long.
pub open spec fn shows_lines(value: Tree, settings: Settings, result: Outcome) -> bool {
    let pointer = match settings.pointer {
        Some(text) => text,
        None => Seq::empty(),
    };
    let path = locate(value, pointer)->0;
    forall|lines: Seq<Line>|
        settings.direction == Direction::CsvToJson && locate(value, pointer) is Some && at(
            value,
            path,
        ) == Some(Tree::Str(#[trigger] lines_text(lines, settings.delimiter))) && readable(
            lines,
            settings.delimiter as u8,
        ) ==> {
            let rows = rows_json(line_rows(lines), settings.has_headers);
            let size = encode_utf8(json_text(rows)).len();
            &&& size <= settings.max_output_bytes ==> result == Outcome::Modified(
                put(value, path, rows),
            )
            &&& size > settings.max_output_bytes ==> result == Outcome::Error(
                "csv output "@ + decimal(size) + " bytes exceeds max_output_bytes ("@ + decimal(
                    settings.max_output_bytes,
                ) + ")"@,
            )
        }
}

/// A call that fires shows all the lines that it reads.
proof fn lemma_shows_lines(value: Tree, settings: Settings, phase: Phase)
    requires
        fires(settings, phase),
        ascii_delimiter(settings),
        run_knows(value, settings),
    ensures
        shows_lines(value, settings, run_outcome(value, Ok(settings), phase)),
{
    assert((settings.delimiter as u8) as char == settings.delimiter);
}

/// A call that fires restores what was written.
proof fn lemma_restores(value: Tree, settings: Settings, phase: Phase)
    requires
        fires(settings, phase),
        ascii_delimiter(settings),
        run_knows(value, settings),
    ensures
        restores(value, settings, run_outcome(value, Ok(settings), phase)),
{
    assert forall|original: Tree, before: Settings, earlier: Phase|
        #[trigger] run_outcome(original, Ok(before), earlier) == Outcome::Modified(value)
            && reads_back(settings, before) && part_survives(
            original,
            before,
            settings,
        ) implies run_outcome(value, Ok(settings), phase) == Outcome::Modified(original) by {
        let path = locate(original, target_pointer(before))->0;
        let part = at(original, path)->0;
        let delimiter = before.delimiter as u8;
        law_rows_carry_the_value(part, delimiter, before.has_headers, before.columns);
        let text = json_to_csv_result(part, delimiter, before.has_headers, before.columns)->Ok_0;
        law_put_is_found(original, path, text);
        law_located_after_put(original, target_pointer(before), text);
        law_put_twice(original, path, text, part);
        law_put_back(original, path);
        assert(at(value, path) == Some(text));
        assert(locate(value, target_pointer(settings)) == Some(path));
        lemma_undoes_writing(text, delimiter, before.has_headers);
        assert(converted(text, settings) == Ok::<Tree, Seq<char>>(part));
    }
}

/// Refuses a text that is longer than `limit` bytes.
pub fn check_size(text: &str, limit: usize) -> (r: Result<(), String>)
    ensures
        match r {
            Ok(_) => byte_len(text@) <= limit,
            Err(e) => byte_len(text@) > limit && e@ == too_long(byte_len(text@), limit as nat),
        },
        r is Ok <==> encode_utf8(text@).len() <= limit,
        r matches Err(e) ==> e@ == "csv output "@ + decimal(encode_utf8(text@).len())
            + " bytes exceeds max_output_bytes ("@ + decimal(limit as nat) + ")"@,
{
    let size: usize = text.as_bytes().len();
    if size > limit {
        let mut message = join("csv output ", decimal_text(size).as_str());
        message.append(" bytes exceeds max_output_bytes (");
        message.append(decimal_text(limit).as_str());
        message.append(")");
        return Err(message);
    }
    Ok(())
}

/// Converts the part of a value that the options select.
fn convert(target: &Json, delimiter: u8, options: &CsvConfig) -> (r: Result<Json, String>)
    requires
        delimiter == options.delimiter as u8,
    ensures
        outcome(r) == converted(target@, options@),
        options.direction == Direction::CsvToJson ==> (target@ matches Tree::Str(text)
            ==> reader_knows(text, delimiter, options.has_headers)),
{
    match options.direction {
        Direction::CsvToJson => csv_to_json(target, delimiter, options.has_headers),
        Direction::JsonToCsv => {
            let columns: Option<&[String]> = match &options.columns {
                Some(names) => Some(names.as_slice()),
                None => None,
            };
            json_to_csv(target, delimiter, options.has_headers, columns)
        },
    }
}

/// Converts between delimited text and JSON. The direction and the options come
/// with each call; an instance holds nothing but its manifest.
#[derive(Debug)]
pub struct CsvTransform {
    manifest: PluginManifest,
}

impl View for CsvTransform {
    type V = PluginManifest;

    closed spec fn view(&self) -> PluginManifest {
        self.manifest
    }
}

/// The manifest of this transform, which calls for nothing of its host.
pub open spec fn is_own_manifest(manifest: PluginManifest) -> bool {
    &&& manifest.id@ == "dev.mcpg.transform.csv"@
    &&& manifest.name@ == "CSV Transform"@
    &&& manifest.class == PluginClass::Transform
    &&& manifest.required_capabilities@.len() == 0
}

impl CsvTransform {
    #[verifier::type_invariant]
    spec fn describes_itself(self) -> bool {
        is_own_manifest(self.manifest)
    }

    /// Makes a transform. The options come with each call, so those of the host
    /// are not read.
    pub fn new(_config_json: &str) -> (r: CsvTransform)
        ensures
            is_own_manifest(r@),
            r@.id@ == "dev.mcpg.transform.csv"@,
            r@.name@ == "CSV Transform"@,
            r@.required_capabilities@.len() == 0,
    {
        CsvTransform {
            manifest: PluginManifest {
                id: "dev.mcpg.transform.csv".to_owned(),
                name: "CSV Transform".to_owned(),
                class: PluginClass::Transform,
                required_capabilities: Vec::new(),
            },
        }
    }

    /// What the transform says of itself.
    pub fn manifest(&self) -> (r: &PluginManifest)
        ensures
            *r == self@,
            is_own_manifest(*r),
            r.id@ == "dev.mcpg.transform.csv"@,
            r.name@ == "CSV Transform"@,
            r.required_capabilities@.len() == 0,
    {
        proof {
            use_type_invariant(self);
        }
        &self.manifest
    }

    /// Converts the part of a value that the options select, if they select
    /// this phase, and puts the result in its place.
    pub fn run(&self, value: &Json, config: &Result<CsvConfig, String>, phase: Phase) -> (r:
        TransformResult)
        ensures
            r@ == run_outcome(value@, parsed(*config), phase),
            config matches Ok(options) ==> (options.phase == Phase::Both || options.phase == phase)
                && (options.delimiter as u32) < 0x80 ==> run_knows(value@, options@) && restores(
                value@,
                options@,
                r@,
            ) && shows_lines(value@, options@, r@),
    {
        let options: &CsvConfig = match config {
            Ok(options) => options,
            Err(e) => {
                return TransformResult::Error { message: join("csv transform config: ", e.as_str()) };
            },
        };
        if options.phase != Phase::Both && options.phase != phase {
            return TransformResult::Unchanged;
        }
        let delimiter: u8 = match ascii_byte(options.delimiter) {
            Some(byte) => byte,
            None => {
                let mut message = join("delimiter ", show_char(options.delimiter).as_str());
                message.append(" must be a single ASCII byte");
                return TransformResult::Error { message };
            },
        };
        let pointer: &str = match &options.pointer {
            Some(pointer) => pointer.as_str(),
            None => "",
        };
        proof {
            reveal_strlit("");
            assert(pointer@ =~= target_pointer(options@));
        }
        let mut whole = value.to_value();
        let target: Json = match find(&whole, pointer) {
            Some(found) => Json::from_value(found.clone()),
            None => {
                proof {
                    lemma_restores(value@, options@, phase);
                    lemma_shows_lines(value@, options@, phase);
                }
                let mut message = join("pointer ", show_str(pointer).as_str());
                message.append(" not found in value");
                return TransformResult::Error { message };
            },
        };
        let conversion = convert(&target, delimiter, options);
        proof {
            lemma_restores(value@, options@, phase);
            lemma_shows_lines(value@, options@, phase);
        }
        let produced: Json = match conversion {
            Ok(produced) => produced,
            Err(message) => {
                return TransformResult::Error { message };
            },
        };
        let new = produced.to_value();
        match write_value(&new) {
            Ok(text) => match check_size(text.as_str(), options.max_output_bytes) {
                Ok(()) => {},
                Err(message) => {
                    return TransformResult::Error { message };
                },
            },
            Err(e) => {
                return TransformResult::Error { message: join("output encode: ", e.as_str()) };
            },
        }
        if pointer.is_empty() {
            return TransformResult::Modified { value: produced };
        }
        if assign(&mut whole, pointer, new) {
            TransformResult::Modified { value: Json::from_value(whole) }
        } else {
            let mut message = join("pointer ", show_str(pointer).as_str());
            message.append(" not assignable");
            TransformResult::Error { message }
        }
    }

    /// Transforms the arguments of a call, before it is dispatched.
    pub fn transform_arguments(&self, arguments: &Json, config: &Result<CsvConfig, String>) -> (r:
        TransformResult)
        ensures
            r@ == run_outcome(arguments@, parsed(*config), Phase::Arguments),
            config matches Ok(options) ==> (options.phase == Phase::Both || options.phase
                == Phase::Arguments) && (options.delimiter as u32) < 0x80 ==> run_knows(
                arguments@,
                options@,
            ) && restores(arguments@, options@, r@) && shows_lines(arguments@, options@, r@),
    {
        self.run(arguments, config, Phase::Arguments)
    }

    /// Transforms the result of a call, after it was dispatched.
    pub fn transform_result(&self, result: &Json, config: &Result<CsvConfig, String>) -> (r:
        TransformResult)
        ensures
            r@ == run_outcome(result@, parsed(*config), Phase::Result),
            config matches Ok(options) ==> (options.phase == Phase::Both || options.phase
                == Phase::Result) && (options.delimiter as u32) < 0x80 ==> run_knows(
                result@,
                options@,
            ) && restores(result@, options@, r@) && shows_lines(result@, options@, r@),
    {
        self.run(result, config, Phase::Result)
    }
}

} // verus!
