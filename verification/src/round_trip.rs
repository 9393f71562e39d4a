//! What survives being written as delimited text and read back.
use vstd::prelude::*;

use crate::delimited::{
    csv_text, first_row, fits, later_rows, line_row, line_rows, readable, written_lines,
};
use crate::reading::{
    cell, csv_to_json_result, reads_lines, row_array, row_members, row_object, rows_json,
};
use crate::tree::Tree;
use crate::writing::{
    array_row, cell_text, first_non_object, is_sorted_union, json_to_csv_result, law_sorted_union,
    object_row, rows_after, some_has, sorted_union,
};

verus! {

/// An object with these names whose members are strings.
pub open spec fn string_object(tree: Tree, names: Set<Seq<char>>) -> bool {
    tree matches Tree::Object(members) && members.dom() == names && forall|name: Seq<char>|
        members.contains_key(name) ==> #[trigger] members[name] is Str
}

/// An array of this length whose elements are strings.
pub open spec fn string_array(tree: Tree, width: nat) -> bool {
    tree matches Tree::Array(items) && items.len() == width && forall|i: int|
        0 <= i < items.len() ==> #[trigger] items[i] is Str
}

/// The columns under which objects are written.
pub open spec fn header_row(elements: Seq<Tree>, columns: Option<Seq<Seq<char>>>) -> Seq<
    Seq<char>,
> {
    match columns {
        Some(names) => names,
        None => sorted_union(elements),
    }
}

/// The rows that objects are written as under a header row.
pub open spec fn table_rows(elements: Seq<Tree>, names: Seq<Seq<char>>) -> Seq<Seq<Seq<char>>> {
    seq![names] + elements.map_values(|element: Tree| object_row(element->Object_0, names))
}

/// The rows that arrays are written as.
pub open spec fn plain_rows(elements: Seq<Tree>) -> Seq<Seq<Seq<char>>> {
    elements.map_values(|element: Tree| array_row(element->Array_0))
}

/// The rows that a list of elements is written as: objects where there is a
/// header row, arrays where there is none.
pub open spec fn rows_of_elements(
    elements: Seq<Tree>,
    has_headers: bool,
    columns: Option<Seq<Seq<char>>>,
) -> Seq<Seq<Seq<char>>> {
    if elements.len() == 0 {
        Seq::empty()
    } else if has_headers {
        table_rows(elements, header_row(elements, columns))
    } else {
        plain_rows(elements)
    }
}

/// The elements are objects that share one set of names, which are the columns
/// where columns are given, and all their members are strings.
pub open spec fn uniform_objects(elements: Seq<Tree>, columns: Option<Seq<Seq<char>>>) -> bool {
    let names = elements[0]->Object_0.dom();
    &&& names.finite()
    &&& forall|i: int| 0 <= i < elements.len() ==> string_object(#[trigger] elements[i], names)
    &&& columns matches Some(listed) ==> forall|name: Seq<char>| #[trigger]
        listed.contains(name) <==> names.contains(name)
}

/// The elements are arrays of one length, and all their elements are strings.
pub open spec fn uniform_arrays(elements: Seq<Tree>) -> bool {
    forall|i: int|
        0 <= i < elements.len() ==> string_array(
            #[trigger] elements[i],
            elements[0]->Array_0.len(),
        )
}

/// The text of these rows can be read as these rows.
pub open spec fn carried(rows: Seq<Seq<Seq<char>>>, delimiter: u8) -> bool {
    &&& forall|i: int| 0 <= i < rows.len() ==> (#[trigger] rows[i]).len() > 0
    &&& readable(written_lines(rows, delimiter as char), delimiter)
}

/// The value can be written as delimited text and read back: it is an array of
/// string-valued objects with the same names (under a header row) or of string
/// arrays of the same length (without one), its rows have fields, and the lines
/// that they are written as are readable.
pub open spec fn survives(
    tree: Tree,
    delimiter: u8,
    has_headers: bool,
    columns: Option<Seq<Seq<char>>>,
) -> bool {
    tree matches Tree::Array(elements) && (elements.len() > 0 ==> if has_headers {
        uniform_objects(elements, columns)
    } else {
        uniform_arrays(elements)
    }) && carried(rows_of_elements(elements, has_headers, columns), delimiter)
}

/// Reading this value undoes writing: whatever surviving value was written as
/// it, that value is read back.
pub open spec fn undoes_writing(target: Tree, delimiter: u8, has_headers: bool) -> bool {
    forall|tree: Tree, columns: Option<Seq<Seq<char>>>|
        #[trigger] survives(tree, delimiter, has_headers, columns) && json_to_csv_result(
            tree,
            delimiter,
            has_headers,
            columns,
        ) == Ok::<Tree, Seq<char>>(target) ==> csv_to_json_result(target, delimiter, has_headers)
            == Ok::<Tree, Seq<char>>(tree)
}

/// No later column has the name of this one.
pub open spec fn last_of_its_name(headers: Seq<Seq<char>>, column: int) -> bool {
    &&& 0 <= column < headers.len()
    &&& forall|j: int| column < j < headers.len() ==> #[trigger] headers[j] != headers[column]
}

/// The object that a record becomes has exactly the column names, whatever the
/// length of the record.
pub proof fn law_row_names(headers: Seq<Seq<char>>, record: Seq<Seq<char>>, name: Seq<char>)
    ensures
        row_members(headers, record).contains_key(name) <==> headers.contains(name),
    decreases headers.len(),
{
    if headers.len() > 0 {
        let shorter = headers.drop_last();
        law_row_names(shorter, record, name);
        if headers.contains(name) {
            let i = choose|i: int| 0 <= i < headers.len() && headers[i] == name;
            if i < shorter.len() {
                assert(shorter[i] == name);
            }
        }
        if shorter.contains(name) {
            let i = choose|i: int| 0 <= i < shorter.len() && shorter[i] == name;
            assert(headers[i] == name);
        }
        assert(headers[headers.len() - 1] == headers.last());
    }
}

/// Under each name stands the cell of the last column of that name, as a
/// string; it is empty where the record is too short.
pub proof fn law_row_cells(headers: Seq<Seq<char>>, record: Seq<Seq<char>>, column: int)
    requires
        last_of_its_name(headers, column),
    ensures
        row_members(headers, record)[headers[column]] == Tree::Str(cell(record, column)),
    decreases headers.len(),
{
    let shorter = headers.drop_last();
    let n = headers.len() - 1;
    if column < n {
        assert(headers[n] != headers[column]);
        assert forall|j: int| column < j < shorter.len() implies #[trigger] shorter[j]
            != shorter[column] by {
            assert(headers[j] != headers[column]);
        }
        law_row_cells(shorter, record, column);
        assert(shorter[column] == headers[column]);
        assert(headers.last() == headers[n]);
    }
}

/// Every listed name has a last column.
pub proof fn lemma_last_column(headers: Seq<Seq<char>>, name: Seq<char>) -> (i: int)
    requires
        headers.contains(name),
    ensures
        last_of_its_name(headers, i),
        headers[i] == name,
    decreases headers.len(),
{
    let n = headers.len() - 1;
    if headers.last() == name {
        n
    } else {
        let shorter = headers.drop_last();
        let k = choose|k: int| 0 <= k < headers.len() && headers[k] == name;
        assert(shorter[k] == name);
        let i = lemma_last_column(shorter, name);
        assert forall|j: int| i < j < headers.len() implies #[trigger] headers[j] != headers[i] by {
            if j < n {
                assert(shorter[j] != shorter[i]);
            }
        }
        i
    }
}

/// A string-valued object is read back from its row.
proof fn lemma_object_row(members: Map<Seq<char>, Tree>, names: Seq<Seq<char>>)
    requires
        forall|name: Seq<char>| #[trigger] names.contains(name) <==> members.contains_key(name),
        forall|name: Seq<char>| members.contains_key(name) ==> #[trigger] members[name] is Str,
    ensures
        row_members(names, object_row(members, names)) == members,
{
    let row = object_row(members, names);
    assert forall|name: Seq<char>| members.contains_key(name) implies row_members(names, row)[name]
        == members[name] by {
        assert(names.contains(name));
        let i = lemma_last_column(names, name);
        law_row_cells(names, row, i);
        assert(row[i] == cell_text(members[name]));
    }
    assert forall|name: Seq<char>| row_members(names, row).contains_key(name)
        <==> members.contains_key(name) by {
        law_row_names(names, row, name);
        assert(names.contains(name) <==> members.contains_key(name));
    }
    assert(row_members(names, row) =~= members);
}

/// A string array is read back from its row.
proof fn lemma_array_row(items: Seq<Tree>)
    requires
        forall|i: int| 0 <= i < items.len() ==> #[trigger] items[i] is Str,
    ensures
        row_array(array_row(items)) == Tree::Array(items),
{
    assert(row_array(array_row(items))->Array_0 =~= items);
}

/// Objects are written one row each, in order.
proof fn lemma_objects_written(elements: Seq<Tree>, names: Seq<Seq<char>>)
    requires
        forall|i: int| 0 <= i < elements.len() ==> #[trigger] elements[i] is Object,
    ensures
        rows_after(seq![names], elements, Some(names)) == Ok::<Seq<Seq<Seq<char>>>, Seq<char>>(
            table_rows(elements, names),
        ),
    decreases elements.len(),
{
    if elements.len() == 0 {
        assert(table_rows(elements, names) =~= seq![names]);
    } else {
        let shorter = elements.drop_last();
        assert forall|i: int| 0 <= i < shorter.len() implies #[trigger] shorter[i] is Object by {
            assert(elements[i] is Object);
        }
        lemma_objects_written(shorter, names);
        assert(elements[elements.len() - 1] is Object);
        let row = object_row(elements.last()->Object_0, names);
        assert(fits(table_rows(shorter, names), row));
        assert(table_rows(elements, names) =~= table_rows(shorter, names).push(row));
    }
}

/// Arrays of one length are written one row each, in order.
proof fn lemma_arrays_written(elements: Seq<Tree>, width: nat)
    requires
        forall|i: int| 0 <= i < elements.len() ==> string_array(#[trigger] elements[i], width),
    ensures
        rows_after(Seq::empty(), elements, None) == Ok::<Seq<Seq<Seq<char>>>, Seq<char>>(
            plain_rows(elements),
        ),
    decreases elements.len(),
{
    if elements.len() == 0 {
        assert(plain_rows(elements) =~= Seq::<Seq<Seq<char>>>::empty());
    } else {
        let shorter = elements.drop_last();
        assert forall|i: int| 0 <= i < shorter.len() implies string_array(
            #[trigger] shorter[i],
            width,
        ) by {
            assert(string_array(elements[i], width));
        }
        lemma_arrays_written(shorter, width);
        assert(string_array(elements[elements.len() - 1], width));
        let row = array_row(elements.last()->Array_0);
        if shorter.len() > 0 {
            assert(string_array(elements[0], width));
            assert(plain_rows(shorter)[0].len() == width);
        }
        assert(fits(plain_rows(shorter), row));
        assert(plain_rows(elements) =~= plain_rows(shorter).push(row));
    }
}

/// Where every element is an object, there is no first one that is none.
proof fn lemma_all_objects(elements: Seq<Tree>)
    requires
        forall|i: int| 0 <= i < elements.len() ==> #[trigger] elements[i] is Object,
    ensures
        first_non_object(elements) is None,
    decreases elements.len(),
{
    if elements.len() > 0 {
        let shorter = elements.drop_last();
        assert forall|i: int| 0 <= i < shorter.len() implies #[trigger] shorter[i] is Object by {
            assert(elements[i] is Object);
        }
        lemma_all_objects(shorter);
        assert(elements[elements.len() - 1] is Object);
    }
}

/// Objects that share one set of names have a header row of these names.
proof fn lemma_header_row(elements: Seq<Tree>, columns: Option<Seq<Seq<char>>>)
    requires
        elements.len() > 0,
        uniform_objects(elements, columns),
    ensures
        forall|name: Seq<char>| #[trigger]
            header_row(elements, columns).contains(name) <==> elements[0]->Object_0.contains_key(
                name,
            ),
{
    if columns is None {
        let names = elements[0]->Object_0.dom();
        assert forall|i: int| 0 <= i < elements.len() implies (
        #[trigger] elements[i] matches Tree::Object(members) ==> members.dom().finite()) by {
            assert(string_object(elements[i], names));
        }
        law_sorted_union(elements);
        let header = sorted_union(elements);
        assert(is_sorted_union(header, elements));
        assert forall|name: Seq<char>| #[trigger]
            header.contains(name) <==> elements[0]->Object_0.contains_key(name) by {
            assert(header.contains(name) <==> some_has(elements, name));
            assert(string_object(elements[0], names));
            if some_has(elements, name) {
                let i = choose|i: int|
                    0 <= i < elements.len() && (
                    #[trigger] elements[i] matches Tree::Object(members) && members.contains_key(
                        name,
                    ));
                assert(string_object(elements[i], names));
            }
        }
    }
}

/// A surviving value is written as the text of its rows, and its rows are read
/// as this value.
pub proof fn law_rows_carry_the_value(
    tree: Tree,
    delimiter: u8,
    has_headers: bool,
    columns: Option<Seq<Seq<char>>>,
)
    requires
        survives(tree, delimiter, has_headers, columns),
    ensures
        ({
            let rows = rows_of_elements(tree->Array_0, has_headers, columns);
            &&& json_to_csv_result(tree, delimiter, has_headers, columns) == Ok::<Tree, Seq<char>>(
                Tree::Str(csv_text(rows, delimiter as char)),
            )
            &&& rows_json(rows, has_headers) == tree
        }),
{
    let elements = tree->Array_0;
    let rows = rows_of_elements(elements, has_headers, columns);
    if elements.len() == 0 {
        assert(written_lines(rows, delimiter as char).len() == 0);
        assert(csv_text(rows, delimiter as char) =~= Seq::<char>::empty());
        assert(rows_json(rows, has_headers)->Array_0 =~= elements);
    } else if has_headers {
        let names = header_row(elements, columns);
        let keys = elements[0]->Object_0.dom();
        assert forall|i: int| 0 <= i < elements.len() implies #[trigger] elements[i] is Object by {
            assert(string_object(elements[i], keys));
        }
        lemma_header_row(elements, columns);
        lemma_all_objects(elements);
        lemma_objects_written(elements, names);
        assert(elements[0] is Object);
        assert(first_row(rows) == names);
        let records = later_rows(rows);
        assert forall|i: int| 0 <= i < elements.len() implies row_object(names, #[trigger] records[i])
            == elements[i] by {
            assert(string_object(elements[i], keys));
            assert(records[i] == object_row(elements[i]->Object_0, names));
            lemma_object_row(elements[i]->Object_0, names);
        }
        assert(rows_json(rows, true)->Array_0 =~= elements);
    } else {
        let width = elements[0]->Array_0.len();
        lemma_arrays_written(elements, width);
        assert(string_array(elements[0], width));
        assert forall|i: int| 0 <= i < elements.len() implies row_array(#[trigger] rows[i])
            == elements[i] by {
            assert(string_array(elements[i], width));
            lemma_array_row(elements[i]->Array_0);
        }
        assert(rows_json(rows, false)->Array_0 =~= elements);
    }
}

/// The lines that rows with fields are written as hold these rows.
pub proof fn lemma_line_rows(rows: Seq<Seq<Seq<char>>>, delimiter: char)
    requires
        forall|i: int| 0 <= i < rows.len() ==> (#[trigger] rows[i]).len() > 0,
    ensures
        line_rows(written_lines(rows, delimiter)) == rows,
{
    let lines = written_lines(rows, delimiter);
    assert forall|i: int| 0 <= i < rows.len() implies line_row(#[trigger] lines[i]) == rows[i] by {
        assert(rows[i].len() > 0);
        assert(line_row(lines[i]) =~~= rows[i]);
    }
    assert(line_rows(lines) =~= rows);
}

/// A reader that reads the text of readable lines as their rows undoes writing.
pub(crate) proof fn lemma_undoes_writing(target: Tree, delimiter: u8, has_headers: bool)
    requires
        target matches Tree::Str(text) ==> reads_lines(text, delimiter, has_headers),
    ensures
        undoes_writing(target, delimiter, has_headers),
{
    assert forall|tree: Tree, columns: Option<Seq<Seq<char>>>|
        #[trigger] survives(tree, delimiter, has_headers, columns) && json_to_csv_result(
            tree,
            delimiter,
            has_headers,
            columns,
        ) == Ok::<Tree, Seq<char>>(target) implies csv_to_json_result(
        target,
        delimiter,
        has_headers,
    ) == Ok::<Tree, Seq<char>>(tree) by {
        law_rows_carry_the_value(tree, delimiter, has_headers, columns);
        let rows = rows_of_elements(tree->Array_0, has_headers, columns);
        lemma_line_rows(rows, delimiter as char);
        assert(target->Str_0 == csv_text(rows, delimiter as char));
    }
}

} // verus!
