//! What a call of the transform does.
use vstd::prelude::*;
use vstd::utf8::encode_utf8;

use crate::config::{Direction, Phase, Settings};
use crate::delimited::{csv_rows, csv_table};
use crate::document::json_text;
use crate::laws::reading::{
    law_records_become_arrays, law_records_become_objects, law_text_is_read,
};
use crate::reading::{csv_to_json_result, row_object};
use crate::text::decimal;
use crate::transform::{char_debug, run_outcome, str_debug, Outcome};
use crate::tree::{
    at, diverge, law_located_is_there, law_put_is_found, law_put_keeps_the_shape_above,
    law_put_preserves_the_rest, locate, put, Step, Tree,
};
use crate::writing::json_to_csv_result;

verus! {

/// The phase comes first, then the delimiter, then the pointer: a call outside
/// the selected phase leaves everything as it is; a selected call with a
/// delimiter beyond ASCII is refused; and one with a pointer that addresses no
/// location is refused, whatever the other options are.
pub proof fn law_order_of_refusals(value: Tree, settings: Settings, phase: Phase)
    ensures
        ({
            let selected = settings.phase == Phase::Both || settings.phase == phase;
            let ascii = (settings.delimiter as u32) < 0x80;
            let pointer = match settings.pointer {
                Some(text) => text,
                None => Seq::empty(),
            };
            let result = run_outcome(value, Ok(settings), phase);
            &&& !selected <==> result == Outcome::Unchanged
            &&& selected && !ascii ==> result == Outcome::Error(
                "delimiter "@ + char_debug(settings.delimiter) + " must be a single ASCII byte"@,
            )
            &&& selected && ascii && locate(value, pointer) is None ==> result == Outcome::Error(
                "pointer "@ + str_debug(pointer) + " not found in value"@,
            )
        }),
{
}

/// A selected call with an ASCII delimiter replaces the part that its pointer
/// addresses by the conversion of that part. Where the part cannot be converted,
/// the message says so; where the JSON text of the conversion has more bytes
/// than the limit, the message gives both numbers.
pub proof fn law_part_is_replaced(value: Tree, settings: Settings, phase: Phase)
    requires
        settings.phase == Phase::Both || settings.phase == phase,
        (settings.delimiter as u32) < 0x80,
    ensures
        ({
            let pointer = match settings.pointer {
                Some(text) => text,
                None => Seq::empty(),
            };
            let path = locate(value, pointer)->0;
            let part = at(value, path)->0;
            let result = run_outcome(value, Ok(settings), phase);
            let delimiter = settings.delimiter as u8;
            let produced = match settings.direction {
                Direction::CsvToJson => csv_to_json_result(part, delimiter, settings.has_headers),
                Direction::JsonToCsv => json_to_csv_result(
                    part,
                    delimiter,
                    settings.has_headers,
                    settings.columns,
                ),
            };
            locate(value, pointer) is Some ==> {
                &&& at(value, path) is Some
                &&& produced matches Err(message) ==> result == Outcome::Error(message)
                &&& produced matches Ok(new) ==> {
                    let size = encode_utf8(json_text(new)).len();
                    &&& size > settings.max_output_bytes ==> result == Outcome::Error(
                        "csv output "@ + decimal(size) + " bytes exceeds max_output_bytes ("@
                            + decimal(settings.max_output_bytes) + ")"@,
                    )
                    &&& size <= settings.max_output_bytes ==> result == Outcome::Modified(
                        put(value, path, new),
                    ) && at(result->Modified_0, path) == Some(new)
                }
            }
        }),
{
    let pointer = match settings.pointer {
        Some(text) => text,
        None => Seq::empty(),
    };
    if let Some(path) = locate(value, pointer) {
        law_located_is_there(value, pointer);
        let part = at(value, path)->0;
        let delimiter = settings.delimiter as u8;
        let produced = match settings.direction {
            Direction::CsvToJson => csv_to_json_result(part, delimiter, settings.has_headers),
            Direction::JsonToCsv => json_to_csv_result(
                part,
                delimiter,
                settings.has_headers,
                settings.columns,
            ),
        };
        if let Ok(new) = produced {
            law_put_is_found(value, path, new);
        }
    }
}

/// A selected call with an ASCII delimiter modifies the value if and only if its
/// pointer, empty or not, addresses a location, the part there is converted
/// without an error, and the JSON text of what comes of it is within the limit.
pub proof fn law_modified_exactly_when(value: Tree, settings: Settings, phase: Phase)
    requires
        settings.phase == Phase::Both || settings.phase == phase,
        (settings.delimiter as u32) < 0x80,
    ensures
        ({
            let pointer = match settings.pointer {
                Some(text) => text,
                None => Seq::empty(),
            };
            let part = at(value, locate(value, pointer)->0)->0;
            let delimiter = settings.delimiter as u8;
            let produced = match settings.direction {
                Direction::CsvToJson => csv_to_json_result(part, delimiter, settings.has_headers),
                Direction::JsonToCsv => json_to_csv_result(
                    part,
                    delimiter,
                    settings.has_headers,
                    settings.columns,
                ),
            };
            run_outcome(value, Ok(settings), phase) is Modified <==> locate(value, pointer) is Some
                && produced is Ok && encode_utf8(json_text(produced->Ok_0)).len()
                <= settings.max_output_bytes
        }),
{
    law_order_of_refusals(value, settings, phase);
    law_part_is_replaced(value, settings, phase);
}

proof fn lemma_parting_paths(path: Seq<Step>, other: Seq<Step>, n: int)
    requires
        0 <= n < path.len(),
        n < other.len(),
        path.take(n) == other.take(n),
        path[n] != other[n],
    ensures
        diverge(path, other),
    decreases n,
{
    if n > 0 {
        assert(path.take(n)[0] == other.take(n)[0]);
        assert(path.drop_first().take(n - 1) =~= path.take(n).drop_first());
        assert(other.drop_first().take(n - 1) =~= other.take(n).drop_first());
        lemma_parting_paths(path.drop_first(), other.drop_first(), n - 1);
    }
}

/// A modified value differs from the one before in the addressed part alone: on a
/// path that parts from the addressed one after `n` steps the same is found as
/// before, and on the way to the addressed part objects keep their names and
/// arrays their length.
pub proof fn law_everything_else_is_kept(
    value: Tree,
    settings: Settings,
    phase: Phase,
    other: Seq<Step>,
    n: int,
)
    requires
        run_outcome(value, Ok(settings), phase) is Modified,
    ensures
        ({
            let pointer = match settings.pointer {
                Some(text) => text,
                None => Seq::empty(),
            };
            let path = locate(value, pointer)->0;
            let new = run_outcome(value, Ok(settings), phase)->Modified_0;
            &&& locate(value, pointer) is Some
            &&& at(new, path) is Some
            &&& 0 <= n < path.len() && n < other.len() && path.take(n) == other.take(n) && path[n]
                != other[n] ==> at(new, other) == at(value, other)
            &&& 0 <= n < path.len() ==> match (at(value, path.take(n)), at(new, path.take(n))) {
                (Some(Tree::Object(a)), Some(Tree::Object(b))) => a.dom() == b.dom(),
                (Some(Tree::Array(a)), Some(Tree::Array(b))) => a.len() == b.len(),
                _ => false,
            }
        }),
{
    law_order_of_refusals(value, settings, phase);
    law_part_is_replaced(value, settings, phase);
    let pointer = match settings.pointer {
        Some(text) => text,
        None => Seq::empty(),
    };
    let path = locate(value, pointer)->0;
    let new = at(run_outcome(value, Ok(settings), phase)->Modified_0, path)->0;
    if 0 <= n < path.len() {
        law_put_keeps_the_shape_above(value, path, new, n);
        if n < other.len() && path.take(n) == other.take(n) && path[n] != other[n] {
            lemma_parting_paths(path, other, n);
            law_put_preserves_the_rest(value, path, new, other);
        }
    }
}

/// A selected call that reads delimited text puts all of its records in the
/// place of the text, in order: without a header row each as the array of its
/// fields, with one each as the object that it is under the header row.
pub proof fn law_all_records_are_put_in_place(
    value: Tree,
    settings: Settings,
    phase: Phase,
    text: Seq<char>,
)
    requires
        settings.phase == Phase::Both || settings.phase == phase,
        (settings.delimiter as u32) < 0x80,
        settings.direction == Direction::CsvToJson,
    ensures
        ({
            let pointer = match settings.pointer {
                Some(text) => text,
                None => Seq::empty(),
            };
            let path = locate(value, pointer)->0;
            let delimiter = settings.delimiter as u8;
            let found = csv_rows(text, delimiter, true);
            let (headers, records) = csv_table(text, delimiter, true);
            let arrays = Tree::Array(
                Seq::new(
                    found.len(),
                    |i: int|
                        Tree::Array(
                            Seq::new(found[i]->Ok_0.len(), |j: int| Tree::Str(found[i]->Ok_0[j])),
                        ),
                ),
            );
            let objects = Tree::Array(
                Seq::new(records.len(), |i: int| row_object(headers->Ok_0, records[i]->Ok_0)),
            );
            let result = run_outcome(value, Ok(settings), phase);
            locate(value, pointer) is Some && at(value, path) == Some(Tree::Str(text)) ==> {
                &&& !settings.has_headers && (forall|i: int|
                    0 <= i < found.len() ==> #[trigger] found[i] is Ok) && encode_utf8(
                    json_text(arrays),
                ).len() <= settings.max_output_bytes ==> result == Outcome::Modified(
                    put(value, path, arrays),
                )
                &&& settings.has_headers && headers is Ok && (forall|i: int|
                    0 <= i < records.len() ==> #[trigger] records[i] is Ok) && encode_utf8(
                    json_text(objects),
                ).len() <= settings.max_output_bytes ==> result == Outcome::Modified(
                    put(value, path, objects),
                )
            }
        }),
{
    law_part_is_replaced(value, settings, phase);
    let delimiter = settings.delimiter as u8;
    let found = csv_rows(text, delimiter, true);
    let (headers, records) = csv_table(text, delimiter, true);
    law_text_is_read(text, delimiter);
    if forall|i: int| 0 <= i < found.len() ==> #[trigger] found[i] is Ok {
        law_records_become_arrays(found);
    }
    if headers is Ok && forall|i: int| 0 <= i < records.len() ==> #[trigger] records[i] is Ok {
        law_records_become_objects(headers->Ok_0, records);
    }
}

} // verus!
