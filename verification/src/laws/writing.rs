//! What writing delimited text does.
use vstd::prelude::*;
use vstd::utf8::{decode_utf8, valid_utf8};

use crate::delimited::{
    csv_bytes, csv_text, lines_text, unequal_text, utf8_problem, written_lines, Line,
};
use crate::document::{json_text, number_text};
use crate::laws::{law_objects_are_written, law_one_row_per_element};
use crate::text::{decimal, precedes};
use crate::tree::Tree;
use crate::writing::{
    array_row, cell_text, element_row, first_non_object, is_sorted_union, json_to_csv_result,
    lemma_sorted_union, object_row, rows_after, some_has, sorted_union, union_result,
};

verus! {

/// The text of a cell: nothing for null, a string as it is, a boolean as the
/// word for it, a number as its `Display` writes it, and an array or an object
/// as its JSON text.
pub proof fn law_cell_text(tree: Tree)
    ensures
        tree is Null ==> cell_text(tree).len() == 0,
        tree matches Tree::Str(s) ==> cell_text(tree) == s,
        tree == Tree::Bool(true) ==> cell_text(tree) == "true"@,
        tree == Tree::Bool(false) ==> cell_text(tree) == "false"@,
        tree matches Tree::Number(n) ==> cell_text(tree) == number_text(n),
        tree is Array || tree is Object ==> cell_text(tree) == json_text(tree),
{
}

/// One element on its own: with columns an object becomes the row of its cells
/// under these columns, without them an array becomes the row of its cells, and
/// anything else is refused with its position.
pub proof fn law_row_of_an_element(
    element: Tree,
    position: nat,
    columns: Option<Seq<Seq<char>>>,
)
    ensures
        columns matches Some(names) ==> element_row(element, position, columns) == match element {
            Tree::Object(members) => Ok::<Seq<Seq<char>>, Seq<char>>(
                Seq::new(
                    names.len(),
                    |j: int|
                        if members.contains_key(names[j]) {
                            cell_text(members[names[j]])
                        } else {
                            Seq::empty()
                        },
                ),
            ),
            _ => Err("json_to_csv: element "@ + decimal(position) + " is not an object"@),
        },
        columns is None ==> element_row(element, position, columns) == match element {
            Tree::Array(items) => Ok::<Seq<Seq<char>>, Seq<char>>(
                Seq::new(items.len(), |j: int| cell_text(items[j])),
            ),
            _ => Err("json_to_csv: element "@ + decimal(position) + " is not an array"@),
        },
{
    match (columns, element) {
        (Some(names), Tree::Object(members)) => {
            assert(object_row(members, names) =~= Seq::new(
                names.len(),
                |j: int|
                    if members.contains_key(names[j]) {
                        cell_text(members[names[j]])
                    } else {
                        Seq::empty()
                    },
            ));
        },
        (None, Tree::Array(items)) => {
            assert(array_row(items) =~= Seq::new(items.len(), |j: int| cell_text(items[j])));
        },
        _ => {},
    }
}

/// The derived columns of objects are the names that some object has, each once
/// and in dictionary order.
pub proof fn law_derived_columns(elements: Seq<Tree>, names: Seq<Seq<char>>)
    requires
        forall|i: int| 0 <= i < elements.len() ==> #[trigger] elements[i] is Object,
        forall|i: int, j: int|
            0 <= i < j < names.len() ==> precedes(#[trigger] names[i], #[trigger] names[j]),
        forall|name: Seq<char>| #[trigger]
            names.contains(name) <==> exists|i: int|
                0 <= i < elements.len() && (#[trigger] elements[i])->Object_0.contains_key(name),
    ensures
        union_result(elements) == Ok::<Seq<Seq<char>>, Seq<char>>(names),
{
    lemma_no_non_object(elements);
    lemma_union_of(elements, names);
}

/// There are no derived columns where an element is no object; the first such
/// element is named by its position.
pub proof fn law_no_derived_columns(elements: Seq<Tree>, position: int)
    requires
        0 <= position < elements.len(),
        forall|i: int| 0 <= i < position ==> #[trigger] elements[i] is Object,
        !(elements[position] is Object),
    ensures
        union_result(elements) == Err::<Seq<Seq<char>>, Seq<char>>(
            "json_to_csv: element "@ + decimal(position as nat) + " is not an object"@,
        ),
{
    lemma_first_of_them(elements, position);
}

proof fn lemma_union_of(elements: Seq<Tree>, names: Seq<Seq<char>>)
    requires
        forall|i: int| 0 <= i < elements.len() ==> #[trigger] elements[i] is Object,
        forall|i: int, j: int|
            0 <= i < j < names.len() ==> precedes(#[trigger] names[i], #[trigger] names[j]),
        forall|name: Seq<char>| #[trigger]
            names.contains(name) <==> exists|i: int|
                0 <= i < elements.len() && (#[trigger] elements[i])->Object_0.contains_key(name),
    ensures
        sorted_union(elements) == names,
{
    assert forall|name: Seq<char>| #[trigger]
        names.contains(name) <==> some_has(elements, name) by {
        if names.contains(name) {
            let i = choose|i: int|
                0 <= i < elements.len() && (#[trigger] elements[i])->Object_0.contains_key(name);
            assert(elements[i] is Object);
        }
        if some_has(elements, name) {
            let i = choose|i: int|
                0 <= i < elements.len() && (#[trigger] elements[i] matches Tree::Object(members)
                    && members.contains_key(name));
            assert(elements[i]->Object_0.contains_key(name));
        }
    }
    assert(is_sorted_union(names, elements));
    lemma_sorted_union(names, elements);
}

/// Nothing but an array can be written.
pub proof fn law_writing_needs_an_array(
    target: Tree,
    delimiter: u8,
    has_headers: bool,
    columns: Option<Seq<Seq<char>>>,
)
    requires
        !(target is Array),
    ensures
        json_to_csv_result(target, delimiter, has_headers, columns) == Err::<Tree, Seq<char>>(
            "json_to_csv: input value must be an array"@,
        ),
{
}

/// An array whose first element is neither an object nor an array is refused,
/// and the error names the kind of that element.
pub proof fn law_first_element_decides(
    elements: Seq<Tree>,
    delimiter: u8,
    has_headers: bool,
    columns: Option<Seq<Seq<char>>>,
)
    requires
        elements.len() > 0,
        !(elements[0] is Object),
        !(elements[0] is Array),
    ensures
        json_to_csv_result(Tree::Array(elements), delimiter, has_headers, columns) == Err::<
            Tree,
            Seq<char>,
        >(
            "json_to_csv: array elements must be objects or arrays, found "@ + match elements[0] {
                Tree::Null => "null"@,
                Tree::Bool(_) => "bool"@,
                Tree::Number(_) => "number"@,
                _ => "string"@,
            },
        ),
{
}

/// An array of objects becomes a row for each object, in order, which holds for
/// each column the cell of the member of that name, or an empty cell where there
/// is none. A row of the column names stands before them exactly where a header
/// row is asked for. The columns are the given ones, or else the names that some
/// object has, each once and in dictionary order.
pub proof fn law_objects_become_rows(
    elements: Seq<Tree>,
    delimiter: u8,
    has_headers: bool,
    columns: Option<Seq<Seq<char>>>,
    names: Seq<Seq<char>>,
)
    requires
        elements.len() > 0,
        forall|i: int| 0 <= i < elements.len() ==> #[trigger] elements[i] is Object,
        columns matches Some(given) ==> given == names,
        columns is None ==> forall|i: int, j: int|
            0 <= i < j < names.len() ==> precedes(#[trigger] names[i], #[trigger] names[j]),
        columns is None ==> forall|name: Seq<char>| #[trigger]
            names.contains(name) <==> exists|i: int|
                0 <= i < elements.len() && (#[trigger] elements[i])->Object_0.contains_key(name),
    ensures
        ({
            let first = if has_headers {
                1int
            } else {
                0int
            };
            let rows = Seq::new(
                (first + elements.len()) as nat,
                |r: int|
                    if r < first {
                        names
                    } else {
                        Seq::new(
                            names.len(),
                            |j: int|
                                if elements[r - first]->Object_0.contains_key(names[j]) {
                                    cell_text(elements[r - first]->Object_0[names[j]])
                                } else {
                                    Seq::empty()
                                },
                        )
                    },
            );
            let bytes = csv_bytes(rows, delimiter);
            json_to_csv_result(Tree::Array(elements), delimiter, has_headers, columns)
                == if delimiter < 0x80 {
                Ok::<Tree, Seq<char>>(Tree::Str(csv_text(rows, delimiter as char)))
            } else if valid_utf8(bytes) {
                Ok(Tree::Str(decode_utf8(bytes)))
            } else {
                Err("csv output not UTF-8: "@ + utf8_problem(bytes))
            }
        }),
{
    let first = if has_headers {
        1int
    } else {
        0int
    };
    let rows = Seq::new(
        (first + elements.len()) as nat,
        |r: int|
            if r < first {
                names
            } else {
                Seq::new(
                    names.len(),
                    |j: int|
                        if elements[r - first]->Object_0.contains_key(names[j]) {
                            cell_text(elements[r - first]->Object_0[names[j]])
                        } else {
                            Seq::empty()
                        },
                )
            },
    );
    assert(elements[0] is Object);
    lemma_no_non_object(elements);
    if columns is None {
        lemma_union_of(elements, names);
    }
    let before = if has_headers {
        seq![names]
    } else {
        Seq::empty()
    };
    law_objects_are_written(elements, has_headers, columns);
    law_one_row_per_element(before, elements, Some(names));
    let done = rows_after(before, elements, Some(names))->Ok_0;
    assert forall|r: int| 0 <= r < rows.len() implies rows[r] == #[trigger] done[r] by {
        if r < first {
            assert(done.take(1)[0] == names);
        } else {
            let i = r - first;
            assert(element_row(elements[i], i as nat, Some(names)) == Ok::<
                Seq<Seq<char>>,
                Seq<char>,
            >(done[before.len() + i]));
            assert(elements[i] is Object);
            assert(rows[r] =~= object_row(elements[i]->Object_0, names));
        }
    }
    assert(rows =~= done);
}

/// The header row is all that the header option changes: with it, the text is
/// that of the column names followed by the text without it.
pub proof fn law_header_row_comes_first(
    elements: Seq<Tree>,
    delimiter: u8,
    columns: Option<Seq<Seq<char>>>,
    names: Seq<Seq<char>>,
)
    requires
        delimiter < 0x80,
        elements.len() > 0,
        forall|i: int| 0 <= i < elements.len() ==> #[trigger] elements[i] is Object,
        columns matches Some(given) ==> given == names,
        columns is None ==> forall|i: int, j: int|
            0 <= i < j < names.len() ==> precedes(#[trigger] names[i], #[trigger] names[j]),
        columns is None ==> forall|name: Seq<char>| #[trigger]
            names.contains(name) <==> exists|i: int|
                0 <= i < elements.len() && (#[trigger] elements[i])->Object_0.contains_key(name),
    ensures
        ({
            let bare = json_to_csv_result(Tree::Array(elements), delimiter, false, columns);
            let headed = json_to_csv_result(Tree::Array(elements), delimiter, true, columns);
            &&& bare matches Ok(Tree::Str(_))
            &&& headed == Ok::<Tree, Seq<char>>(
                Tree::Str(csv_text(seq![names], delimiter as char) + bare->Ok_0->Str_0),
            )
        }),
{
    let d = delimiter as char;
    law_objects_become_rows(elements, delimiter, false, columns, names);
    law_objects_become_rows(elements, delimiter, true, columns, names);
    let bare = Seq::new(
        (0 + elements.len()) as nat,
        |r: int|
            if r < 0 {
                names
            } else {
                Seq::new(
                    names.len(),
                    |j: int|
                        if elements[r - 0]->Object_0.contains_key(names[j]) {
                            cell_text(elements[r - 0]->Object_0[names[j]])
                        } else {
                            Seq::empty()
                        },
                )
            },
    );
    let headed = Seq::new(
        (1 + elements.len()) as nat,
        |r: int|
            if r < 1 {
                names
            } else {
                Seq::new(
                    names.len(),
                    |j: int|
                        if elements[r - 1]->Object_0.contains_key(names[j]) {
                            cell_text(elements[r - 1]->Object_0[names[j]])
                        } else {
                            Seq::empty()
                        },
                )
            },
    );
    assert forall|r: int| 0 <= r < headed.len() implies #[trigger] headed[r] == (seq![names]
        + bare)[r] by {
        if r >= 1 {
            assert(headed[r] =~= bare[r - 1]);
        }
    }
    assert(headed =~= seq![names] + bare);
    assert(json_to_csv_result(Tree::Array(elements), delimiter, false, columns) == Ok::<
        Tree,
        Seq<char>,
    >(Tree::Str(csv_text(bare, d))));
    assert(json_to_csv_result(Tree::Array(elements), delimiter, true, columns) == Ok::<
        Tree,
        Seq<char>,
    >(Tree::Str(csv_text(headed, d))));
    law_text_of_more_rows(seq![names], bare, d);
}

/// The text of rows and more rows is the text of the one followed by the text of
/// the other.
pub proof fn law_text_of_more_rows(
    rows: Seq<Seq<Seq<char>>>,
    more: Seq<Seq<Seq<char>>>,
    delimiter: char,
)
    ensures
        csv_text(rows + more, delimiter) == csv_text(rows, delimiter) + csv_text(more, delimiter),
{
    assert(written_lines(rows + more, delimiter) =~= written_lines(rows, delimiter) + written_lines(
        more,
        delimiter,
    ));
    lemma_more_lines(written_lines(rows, delimiter), written_lines(more, delimiter), delimiter);
}

proof fn lemma_more_lines(lines: Seq<Line>, more: Seq<Line>, delimiter: char)
    ensures
        lines_text(lines + more, delimiter) == lines_text(lines, delimiter) + lines_text(
            more,
            delimiter,
        ),
    decreases more.len(),
{
    if more.len() == 0 {
        assert(lines + more =~= lines);
        assert(lines_text(lines, delimiter) + Seq::<char>::empty() =~= lines_text(lines, delimiter));
    } else {
        lemma_more_lines(lines, more.drop_last(), delimiter);
        assert((lines + more).drop_last() =~= lines + more.drop_last());
        assert((lines + more).last() == more.last());
        assert(lines_text(lines + more, delimiter) =~= lines_text(lines, delimiter) + lines_text(
            more,
            delimiter,
        ));
    }
}

proof fn lemma_no_non_object(elements: Seq<Tree>)
    requires
        forall|i: int| 0 <= i < elements.len() ==> #[trigger] elements[i] is Object,
    ensures
        first_non_object(elements) is None,
    decreases elements.len(),
{
    if elements.len() > 0 {
        let shorter = elements.drop_last();
        assert forall|i: int| 0 <= i < shorter.len() implies #[trigger] shorter[i] is Object by {
            assert(elements[i] is Object);
        }
        lemma_no_non_object(shorter);
        assert(elements[elements.len() - 1] is Object);
    }
}

proof fn lemma_first_of_them(elements: Seq<Tree>, position: int)
    requires
        0 <= position < elements.len(),
        forall|i: int| 0 <= i < position ==> #[trigger] elements[i] is Object,
        !(elements[position] is Object),
    ensures
        first_non_object(elements) == Some(position as nat),
    decreases elements.len(),
{
    let shorter = elements.drop_last();
    if position == elements.len() - 1 {
        assert forall|i: int| 0 <= i < shorter.len() implies #[trigger] shorter[i] is Object by {
            assert(elements[i] is Object);
        }
        lemma_no_non_object(shorter);
    } else {
        assert forall|i: int| 0 <= i < position implies #[trigger] shorter[i] is Object by {
            assert(elements[i] is Object);
        }
        assert(shorter[position] == elements[position]);
        lemma_first_of_them(shorter, position);
    }
}

/// Among objects, the first element that is none is named by its position.
pub proof fn law_element_that_is_no_object(
    elements: Seq<Tree>,
    delimiter: u8,
    has_headers: bool,
    columns: Option<Seq<Seq<char>>>,
    position: int,
)
    requires
        0 < position < elements.len(),
        forall|i: int| 0 <= i < position ==> #[trigger] elements[i] is Object,
        !(elements[position] is Object),
    ensures
        json_to_csv_result(Tree::Array(elements), delimiter, has_headers, columns) == Err::<
            Tree,
            Seq<char>,
        >("json_to_csv: element "@ + decimal(position as nat) + " is not an object"@),
{
    assert(elements[0] is Object);
    lemma_first_of_them(elements, position);
    law_objects_are_written(elements, has_headers, columns);
}

/// An array of arrays of one length becomes a row of cells for each of them, in
/// order, and no more.
pub proof fn law_arrays_become_rows(
    elements: Seq<Tree>,
    delimiter: u8,
    has_headers: bool,
    columns: Option<Seq<Seq<char>>>,
)
    requires
        elements.len() > 0,
        forall|i: int|
            0 <= i < elements.len() ==> (#[trigger] elements[i] matches Tree::Array(items)
                && items.len() == elements[0]->Array_0.len()),
    ensures
        ({
            let rows = Seq::new(
                elements.len(),
                |r: int|
                    Seq::new(
                        elements[r]->Array_0.len(),
                        |j: int| cell_text(elements[r]->Array_0[j]),
                    ),
            );
            let bytes = csv_bytes(rows, delimiter);
            json_to_csv_result(Tree::Array(elements), delimiter, has_headers, columns)
                == if delimiter < 0x80 {
                Ok::<Tree, Seq<char>>(Tree::Str(csv_text(rows, delimiter as char)))
            } else if valid_utf8(bytes) {
                Ok(Tree::Str(decode_utf8(bytes)))
            } else {
                Err("csv output not UTF-8: "@ + utf8_problem(bytes))
            }
        }),
{
    let rows = Seq::new(
        elements.len(),
        |r: int|
            Seq::new(elements[r]->Array_0.len(), |j: int| cell_text(elements[r]->Array_0[j])),
    );
    lemma_array_rows(elements, elements.len() as int);
    assert(elements.take(elements.len() as int) =~= elements);
    assert(elements[0] is Array);
    assert(array_rows(elements) =~= rows) by {
        assert forall|r: int| 0 <= r < rows.len() implies array_rows(elements)[r]
            == #[trigger] rows[r] by {
            assert(array_rows(elements)[r] =~= rows[r]);
        }
    }
}

spec fn array_rows(elements: Seq<Tree>) -> Seq<Seq<Seq<char>>> {
    elements.map_values(|element: Tree| array_row(element->Array_0))
}

proof fn lemma_array_rows(elements: Seq<Tree>, n: int)
    requires
        0 <= n <= elements.len(),
        forall|i: int|
            0 <= i < n ==> (#[trigger] elements[i] matches Tree::Array(items) && items.len()
                == elements[0]->Array_0.len()),
    ensures
        rows_after(Seq::empty(), elements.take(n), None) == Ok::<Seq<Seq<Seq<char>>>, Seq<char>>(
            array_rows(elements.take(n)),
        ),
    decreases n,
{
    let some = elements.take(n);
    if n == 0 {
        assert(array_rows(some) =~= Seq::<Seq<Seq<char>>>::empty());
    } else {
        lemma_array_rows(elements, n - 1);
        assert(some.drop_last() =~= elements.take(n - 1));
        assert(elements[n - 1] is Array);
        let row = array_row(elements[n - 1]->Array_0);
        if n > 1 {
            assert(elements[0] is Array);
            assert(array_rows(elements.take(n - 1))[0].len() == elements[0]->Array_0.len());
        }
        assert(array_rows(some) =~= array_rows(elements.take(n - 1)).push(row));
    }
}

proof fn lemma_error_stays(elements: Seq<Tree>, n: int, e: Seq<char>)
    requires
        0 <= n <= elements.len(),
        rows_after(Seq::empty(), elements.take(n), None) == Err::<Seq<Seq<Seq<char>>>, Seq<char>>(
            e,
        ),
    ensures
        rows_after(Seq::empty(), elements, None) == Err::<Seq<Seq<Seq<char>>>, Seq<char>>(e),
    decreases elements.len() - n,
{
    if n == elements.len() {
        assert(elements.take(n) =~= elements);
    } else {
        assert(elements.take(n + 1).drop_last() =~= elements.take(n));
        lemma_error_stays(elements, n + 1, e);
    }
}

/// Among arrays, the first element that is none is named by its position, and
/// the first of another length than the first array by the two lengths.
pub proof fn law_element_that_does_not_fit(
    elements: Seq<Tree>,
    delimiter: u8,
    has_headers: bool,
    columns: Option<Seq<Seq<char>>>,
    position: int,
)
    requires
        0 < position < elements.len(),
        forall|i: int|
            0 <= i < position ==> (#[trigger] elements[i] matches Tree::Array(items) && items.len()
                == elements[0]->Array_0.len()),
        elements[position] matches Tree::Array(items) ==> items.len() != elements[0]->Array_0.len(),
    ensures
        json_to_csv_result(Tree::Array(elements), delimiter, has_headers, columns) == Err::<
            Tree,
            Seq<char>,
        >(
            match elements[position] {
                Tree::Array(items) => "csv write row: "@ + unequal_text(
                    elements[0]->Array_0.len(),
                    items.len(),
                ),
                _ => "json_to_csv: element "@ + decimal(position as nat) + " is not an array"@,
            },
        ),
{
    assert(elements[0] is Array);
    lemma_array_rows(elements, position);
    let some = elements.take(position + 1);
    assert(some.drop_last() =~= elements.take(position));
    assert(some.last() == elements[position]);
    let done = array_rows(elements.take(position));
    assert(done[0].len() == elements[0]->Array_0.len());
    let e = match elements[position] {
        Tree::Array(items) => "csv write row: "@ + unequal_text(
            elements[0]->Array_0.len(),
            items.len(),
        ),
        _ => "json_to_csv: element "@ + decimal(position as nat) + " is not an array"@,
    };
    lemma_error_stays(elements, position + 1, e);
}

} // verus!
