//! What holds of the library as a whole.
use vstd::prelude::*;

pub mod reading;
pub mod transform;
pub mod views;
pub mod writing;

use crate::config::{Direction, Phase, Settings};
use crate::delimited::fits;
use crate::document::json_text;
use crate::reading::{collected, row_members, rows_from};
use crate::round_trip::{law_row_cells, law_row_names, lemma_last_column, string_array};
use crate::transform::{
    ascii_delimiter, byte_len, char_debug, converted, fires, run_outcome, target_pointer,
    Outcome,
};
use crate::tree::{
    at, diverge, law_located_is_there, law_put_is_found, law_put_preserves_the_rest, locate, Step, Tree,
};
use crate::writing::{
    element_row, first_non_object, json_to_csv_result, not_an_object, object_row, object_rows,
    rows_after, sorted_union, union_result,
};

verus! {

/// Options that could not be parsed give an error in every phase.
pub proof fn law_refused_options(value: Tree, problem: Seq<char>, phase: Phase)
    ensures
        run_outcome(value, Err(problem), phase) == Outcome::Error(
            "csv transform config: "@ + problem,
        ),
{
}

/// A value stays unchanged exactly in the phases that the options do not select:
/// with `Phase::Both` in none, otherwise in all but the selected one.
pub proof fn law_phase_gate(value: Tree, settings: Settings, phase: Phase)
    ensures
        run_outcome(value, Ok(settings), phase) is Unchanged <==> settings.phase != Phase::Both
            && settings.phase != phase,
{
}

/// A delimiter that is not ASCII is refused whatever the value is.
pub proof fn law_delimiter_is_ascii(value: Tree, settings: Settings, phase: Phase)
    requires
        fires(settings, phase),
        settings.delimiter as u32 >= 0x80,
    ensures
        run_outcome(value, Ok(settings), phase) == Outcome::Error(
            "delimiter "@ + char_debug(settings.delimiter) + " must be a single ASCII byte"@,
        ),
{
}

/// Without a pointer, as with the empty one, the whole value is converted.
pub proof fn law_whole_value(value: Tree, settings: Settings, phase: Phase)
    requires
        fires(settings, phase),
        ascii_delimiter(settings),
        settings.pointer is None || settings.pointer == Some(Seq::<char>::empty()),
    ensures
        run_outcome(value, Ok(settings), phase) is Modified <==> (converted(
            value,
            settings,
        ) matches Ok(new) && byte_len(json_text(new)) <= settings.max_output_bytes),
        run_outcome(value, Ok(settings), phase) matches Outcome::Modified(new) ==> converted(
            value,
            settings,
        ) == Ok::<Tree, Seq<char>>(new),
        run_outcome(value, Ok(settings), phase) == run_outcome(
            value,
            Ok(Settings { pointer: None, ..settings }),
            phase,
        ),
{
    let bare = Settings { pointer: None, ..settings };
    assert(target_pointer(settings) =~= target_pointer(bare));
    assert(locate(value, target_pointer(settings)) == Some(Seq::<Step>::empty()));
    assert(at(value, Seq::<Step>::empty()) == Some(value));
}

/// Output is never larger than the limit: what replaces the selected part is the
/// conversion of that part, and its JSON text is within `max_output_bytes`.
pub proof fn law_output_is_bounded(value: Tree, settings: Settings, phase: Phase)
    requires
        run_outcome(value, Ok(settings), phase) is Modified,
    ensures
        locate(value, target_pointer(settings)) is Some,
        converted(
            at(value, locate(value, target_pointer(settings))->0)->0,
            settings,
        ) matches Ok(new) && byte_len(json_text(new)) <= settings.max_output_bytes,
{
}

/// A conversion replaces the selected part and preserves the rest: at the
/// location that the pointer addresses stands the converted part, and on every
/// path that parts from it the same is found as before.
pub proof fn law_rest_is_preserved(
    value: Tree,
    settings: Settings,
    phase: Phase,
    other: Seq<Step>,
)
    requires
        run_outcome(value, Ok(settings), phase) is Modified,
    ensures
        ({
            let path = locate(value, target_pointer(settings))->0;
            let new = run_outcome(value, Ok(settings), phase)->Modified_0;
            &&& converted(at(value, path)->0, settings) == Ok::<Tree, Seq<char>>(at(new, path)->0)
            &&& at(new, path) is Some
            &&& diverge(path, other) ==> at(new, other) == at(value, other)
        }),
{
    let path = locate(value, target_pointer(settings))->0;
    let part = converted(at(value, path)->0, settings)->Ok_0;
    law_located_is_there(value, target_pointer(settings));
    law_put_is_found(value, path, part);
    if diverge(path, other) {
        law_put_preserves_the_rest(value, path, part, other);
    }
}

/// Both directions refuse an object where the whole value is converted.
pub proof fn law_objects_are_refused(
    members: Map<Seq<char>, Tree>,
    settings: Settings,
    phase: Phase,
)
    requires
        fires(settings, phase),
        ascii_delimiter(settings),
        target_pointer(settings).len() == 0,
    ensures
        run_outcome(Tree::Object(members), Ok(settings), phase) == Outcome::Error(
            match settings.direction {
                Direction::CsvToJson => "csv_to_json: input value must be a string"@,
                Direction::JsonToCsv => "json_to_csv: input value must be an array"@,
            },
        ),
{
    assert(at(Tree::Object(members), Seq::<Step>::empty()) == Some(Tree::Object(members)));
}

/// Cells stay strings: what delimited text becomes is an array of objects whose
/// members are strings, or of arrays whose elements are strings.
pub proof fn law_cells_stay_strings(
    headers: Result<Seq<Seq<char>>, Seq<char>>,
    records: Seq<Result<Seq<Seq<char>>, Seq<char>>>,
    has_headers: bool,
)
    ensures
        rows_from(headers, records, has_headers) matches Ok(tree) ==> {
            &&& tree is Array
            &&& forall|i: int|
                0 <= i < tree->Array_0.len() ==> match #[trigger] tree->Array_0[i] {
                    Tree::Object(members) => has_headers && forall|name: Seq<char>|
                        members.contains_key(name) ==> #[trigger] members[name] is Str,
                    Tree::Array(items) => !has_headers && string_array(
                        tree->Array_0[i],
                        items.len(),
                    ),
                    _ => false,
                }
        },
{
    if let Ok(tree) = rows_from(headers, records, has_headers) {
        let rows = collected(records)->Ok_0;
        if has_headers {
            let names = headers->Ok_0;
            assert forall|i: int| 0 <= i < tree->Array_0.len() implies match #[trigger] tree->Array_0[i] {
                Tree::Object(members) => forall|name: Seq<char>|
                    members.contains_key(name) ==> #[trigger] members[name] is Str,
                _ => false,
            } by {
                let members = row_members(names, rows[i]);
                assert(tree->Array_0[i] == Tree::Object(members));
                assert forall|name: Seq<char>|
                    members.contains_key(name) implies #[trigger] members[name] is Str by {
                    law_row_names(names, rows[i], name);
                    let column = lemma_last_column(names, name);
                    law_row_cells(names, rows[i], column);
                }
            }
        }
    }
}

/// Writing arrays does not depend on the header option or on the columns.
pub proof fn law_arrays_have_no_header(
    elements: Seq<Tree>,
    delimiter: u8,
    has_headers: bool,
    columns: Option<Seq<Seq<char>>>,
)
    requires
        elements.len() > 0,
        elements[0] is Array,
    ensures
        json_to_csv_result(Tree::Array(elements), delimiter, has_headers, columns)
            == json_to_csv_result(Tree::Array(elements), delimiter, false, None),
{
}

/// An empty array becomes an empty string under all options.
pub proof fn law_empty_array(
    delimiter: u8,
    has_headers: bool,
    columns: Option<Seq<Seq<char>>>,
)
    ensures
        json_to_csv_result(Tree::Array(Seq::empty()), delimiter, has_headers, columns) == Ok::<
            Tree,
            Seq<char>,
        >(Tree::Str(Seq::empty())),
{
}

/// Every element becomes one row, in order, after the rows that were there.
pub proof fn law_one_row_per_element(
    rows: Seq<Seq<Seq<char>>>,
    elements: Seq<Tree>,
    columns: Option<Seq<Seq<char>>>,
)
    ensures
        rows_after(rows, elements, columns) matches Ok(done) ==> {
            &&& done.len() == rows.len() + elements.len()
            &&& done.take(rows.len() as int) == rows
            &&& forall|i: int|
                0 <= i < elements.len() ==> element_row(#[trigger] elements[i], i as nat, columns)
                    == Ok::<Seq<Seq<char>>, Seq<char>>(done[rows.len() + i])
        },
    decreases elements.len(),
{
    if let Ok(done) = rows_after(rows, elements, columns) {
        if elements.len() == 0 {
            assert(done.take(rows.len() as int) =~= rows);
        } else {
            let shorter = elements.drop_last();
            law_one_row_per_element(rows, shorter, columns);
            let before = rows_after(rows, shorter, columns)->Ok_0;
            assert(done.take(rows.len() as int) =~= before.take(rows.len() as int));
            assert forall|i: int| 0 <= i < elements.len() implies element_row(
                #[trigger] elements[i],
                i as nat,
                columns,
            ) == Ok::<Seq<Seq<char>>, Seq<char>>(done[rows.len() + i]) by {
                if i < shorter.len() {
                    assert(shorter[i] == elements[i]);
                }
            }
        }
    }
}

/// All rows that are written have the length of the first one.
pub proof fn law_rows_have_one_length(
    elements: Seq<Tree>,
    has_headers: bool,
    columns: Option<Seq<Seq<char>>>,
)
    ensures
        object_rows(elements, has_headers, columns) matches Ok(rows) ==> forall|i: int|
            0 <= i < rows.len() ==> #[trigger] rows[i].len() == rows[0].len(),
        rows_after(Seq::empty(), elements, None) matches Ok(rows) ==> forall|i: int|
            0 <= i < rows.len() ==> #[trigger] rows[i].len() == rows[0].len(),
{
    if let Ok(rows) = object_rows(elements, has_headers, columns) {
        let names = match columns {
            Some(given) => given,
            None => union_result(elements)->Ok_0,
        };
        lemma_one_length(
            if has_headers {
                seq![names]
            } else {
                Seq::empty()
            },
            elements,
            Some(names),
        );
    }
    lemma_one_length(Seq::empty(), elements, None);
}

proof fn lemma_one_length(
    rows: Seq<Seq<Seq<char>>>,
    elements: Seq<Tree>,
    columns: Option<Seq<Seq<char>>>,
)
    requires
        forall|i: int| 0 <= i < rows.len() ==> #[trigger] rows[i].len() == rows[0].len(),
    ensures
        rows_after(rows, elements, columns) matches Ok(done) ==> forall|i: int|
            0 <= i < done.len() ==> #[trigger] done[i].len() == done[0].len(),
    decreases elements.len(),
{
    if elements.len() > 0 {
        lemma_one_length(rows, elements.drop_last(), columns);
    }
}

/// Objects are written exactly where every element is an object. Otherwise the
/// error names the first one that is none; columns and header make no
/// difference to this.
pub proof fn law_objects_are_written(
    elements: Seq<Tree>,
    has_headers: bool,
    columns: Option<Seq<Seq<char>>>,
)
    ensures
        match first_non_object(elements) {
            Some(i) => object_rows(elements, has_headers, columns) == Err::<
                Seq<Seq<Seq<char>>>,
                Seq<char>,
            >(not_an_object(i)),
            None => object_rows(elements, has_headers, columns) is Ok,
        },
{
    let names = match columns {
        Some(given) => given,
        None => sorted_union(elements),
    };
    lemma_objects_fit(
        if has_headers {
            seq![names]
        } else {
            Seq::empty()
        },
        elements,
        names,
    );
}

proof fn lemma_objects_fit(
    rows: Seq<Seq<Seq<char>>>,
    elements: Seq<Tree>,
    names: Seq<Seq<char>>,
)
    requires
        fits(rows, names),
    ensures
        match first_non_object(elements) {
            Some(i) => rows_after(rows, elements, Some(names)) == Err::<
                Seq<Seq<Seq<char>>>,
                Seq<char>,
            >(not_an_object(i)),
            None => rows_after(rows, elements, Some(names)) matches Ok(done) && fits(done, names),
        },
    decreases elements.len(),
{
    if elements.len() > 0 {
        lemma_objects_fit(rows, elements.drop_last(), names);
        if let Tree::Object(members) = elements.last() {
            assert(object_row(members, names).len() == names.len());
        }
    }
}

} // verus!
