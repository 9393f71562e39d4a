//! From delimited text to JSON rows.
use vstd::prelude::*;

use crate::delimited::{
    all_read, csv_rows, csv_table, first_row, heads, later_rows, line_rows, lines_text, read_plain,
    read_row, read_rows, read_table, readable, Line,
};
use crate::document::{insert_member, lemma_json_view, listed, outcome, trees, Json};
use crate::round_trip::{law_row_cells, law_row_names, lemma_undoes_writing, undoes_writing};
use crate::text::{join, texts};
use crate::tree::{member_map, names_once, Tree};

verus! {

/// The cell of a record in a column: empty where the record is too short.
pub open spec fn cell(record: Seq<Seq<char>>, column: int) -> Seq<char> {
    if 0 <= column < record.len() {
        record[column]
    } else {
        Seq::empty()
    }
}

/// The members of the object that a record becomes: each column name with its
/// cell. Where two columns have one name, the later column counts, and cells
/// beyond the last column are left out.
pub open spec fn row_members(headers: Seq<Seq<char>>, record: Seq<Seq<char>>) -> Map<
    Seq<char>,
    Tree,
>
    decreases headers.len(),
{
    if headers.len() == 0 {
        Map::empty()
    } else {
        row_members(headers.drop_last(), record).insert(
            headers.last(),
            Tree::Str(cell(record, headers.len() - 1)),
        )
    }
}

/// The object that a record becomes under a header row.
pub open spec fn row_object(headers: Seq<Seq<char>>, record: Seq<Seq<char>>) -> Tree {
    Tree::Object(row_members(headers, record))
}

/// The array that a record becomes without a header row.
pub open spec fn row_array(record: Seq<Seq<char>>) -> Tree {
    Tree::Array(record.map_values(|field: Seq<char>| Tree::Str(field)))
}

/// The records up to the first error: all of them, or that error.
pub open spec fn collected(records: Seq<Result<Seq<Seq<char>>, Seq<char>>>) -> Result<
    Seq<Seq<Seq<char>>>,
    Seq<char>,
>
    decreases records.len(),
{
    if records.len() == 0 {
        Ok(Seq::empty())
    } else {
        match collected(records.drop_last()) {
            Ok(rows) => match records.last() {
                Ok(row) => Ok(rows.push(row)),
                Err(e) => Err(e),
            },
            Err(e) => Err(e),
        }
    }
}

/// What records become under a header row.
pub open spec fn objects_from(
    headers: Seq<Seq<char>>,
    records: Seq<Result<Seq<Seq<char>>, Seq<char>>>,
) -> Result<Tree, Seq<char>> {
    match collected(records) {
        Ok(rows) => Ok(
            Tree::Array(rows.map_values(|row: Seq<Seq<char>>| row_object(headers, row))),
        ),
        Err(e) => Err("csv record: "@ + e),
    }
}

/// What records become without a header row.
pub open spec fn arrays_from(records: Seq<Result<Seq<Seq<char>>, Seq<char>>>) -> Result<
    Tree,
    Seq<char>,
> {
    match collected(records) {
        Ok(rows) => Ok(Tree::Array(rows.map_values(|row: Seq<Seq<char>>| row_array(row)))),
        Err(e) => Err("csv record: "@ + e),
    }
}

/// What delimited text becomes, given what the reader finds in it.
pub open spec fn rows_from(
    headers: Result<Seq<Seq<char>>, Seq<char>>,
    records: Seq<Result<Seq<Seq<char>>, Seq<char>>>,
    has_headers: bool,
) -> Result<Tree, Seq<char>> {
    if has_headers {
        match headers {
            Ok(names) => objects_from(names, records),
            Err(e) => Err("csv header: "@ + e),
        }
    } else {
        arrays_from(records)
    }
}

/// What `csv_to_json` makes of a value: rows of a string, and an error of
/// anything else. Rows of different lengths are accepted.
pub open spec fn csv_to_json_result(target: Tree, delimiter: u8, has_headers: bool) -> Result<
    Tree,
    Seq<char>,
> {
    match target {
        Tree::Str(text) => if has_headers {
            let (headers, records) = csv_table(text, delimiter, true);
            rows_from(headers, records, true)
        } else {
            arrays_from(csv_rows(text, delimiter, true))
        },
        _ => Err("csv_to_json: input value must be a string"@),
    }
}

/// What rows of delimited text are as JSON.
pub open spec fn rows_json(rows: Seq<Seq<Seq<char>>>, has_headers: bool) -> Tree {
    if has_headers {
        Tree::Array(
            later_rows(rows).map_values(|row: Seq<Seq<char>>| row_object(first_row(rows), row)),
        )
    } else {
        Tree::Array(rows.map_values(|row: Seq<Seq<char>>| row_array(row)))
    }
}

/// Whatever readable lines the text is the text of, it is read as the rows that
/// they hold.
pub open spec fn reads_lines(text: Seq<char>, delimiter: u8, has_headers: bool) -> bool {
    forall|lines: Seq<Line>|
        readable(lines, delimiter) && text == #[trigger] lines_text(lines, delimiter as char)
            ==> csv_to_json_result(Tree::Str(text), delimiter, has_headers) == Ok::<
            Tree,
            Seq<char>,
        >(rows_json(line_rows(lines), has_headers))
}

/// The first of the rows names the columns of the objects: each later row is an
/// object with exactly the cells of the first row as names, and under each name
/// stands its cell in the last column of that name, or an empty string where it
/// is too short.
pub open spec fn first_row_names_columns(rows: Seq<Tree>, objects: Seq<Tree>) -> bool {
    let names = rows[0]->Array_0;
    &&& objects.len() == if rows.len() == 0 {
        0
    } else {
        rows.len() - 1
    }
    &&& forall|i: int|
        0 <= i < objects.len() ==> (#[trigger] objects[i] matches Tree::Object(members) && {
            let cells = rows[i + 1]->Array_0;
            &&& forall|name: Seq<char>| #[trigger]
                members.contains_key(name) <==> names.contains(Tree::Str(name))
            &&& forall|j: int|
                0 <= j < names.len() && (forall|k: int|
                    j < k < names.len() ==> names[k] != names[j]) ==> members[(
                #[trigger] names[j])->Str_0] == if j < cells.len() {
                    cells[j]
                } else {
                    Tree::Str(Seq::empty())
                }
        })
}

/// With a header row a text becomes the objects that its rows without a header
/// row describe.
pub open spec fn header_row_is_first_row(text: Seq<char>, delimiter: u8) -> bool {
    csv_to_json_result(Tree::Str(text), delimiter, false) matches Ok(Tree::Array(rows))
        && csv_to_json_result(Tree::Str(text), delimiter, true) matches Ok(Tree::Array(objects))
        && first_row_names_columns(rows, objects)
}

/// What is known of a text once it was read: readable lines are read as their
/// rows, and with an ASCII delimiter every text is read, a header row as the
/// first of the rows.
pub open spec fn reader_knows(text: Seq<char>, delimiter: u8, has_headers: bool) -> bool {
    &&& reads_lines(text, delimiter, has_headers)
    &&& delimiter < 0x80 ==> csv_to_json_result(Tree::Str(text), delimiter, has_headers) is Ok
    &&& delimiter < 0x80 && has_headers ==> header_row_is_first_row(text, delimiter)
}

/// Records without errors are all collected.
pub proof fn lemma_collected_all(rows: Seq<Seq<Seq<char>>>)
    ensures
        collected(all_read(rows)) == Ok::<Seq<Seq<Seq<char>>>, Seq<char>>(rows),
    decreases rows.len(),
{
    let records = all_read(rows);
    if rows.len() > 0 {
        lemma_collected_all(rows.drop_last());
        assert(records.drop_last() =~= all_read(rows.drop_last()));
        assert(rows.drop_last().push(rows.last()) =~= rows);
    } else {
        assert(rows =~= Seq::<Seq<Seq<char>>>::empty());
    }
}

/// Records without errors are the rows in them.
proof fn lemma_no_errors(records: Seq<Result<Seq<Seq<char>>, Seq<char>>>) -> (rows: Seq<
    Seq<Seq<char>>,
>)
    requires
        forall|i: int| 0 <= i < records.len() ==> #[trigger] records[i] is Ok,
    ensures
        records == all_read(rows),
{
    let rows = records.map_values(|record: Result<Seq<Seq<char>>, Seq<char>>| record->Ok_0);
    assert forall|i: int| 0 <= i < records.len() implies records[i] == all_read(rows)[i] by {
        assert(records[i] is Ok);
    }
    assert(records =~= all_read(rows));
    rows
}

/// The objects of rows are named by the first of them.
pub proof fn law_first_row_names_columns(rows: Seq<Seq<Seq<char>>>)
    ensures
        first_row_names_columns(rows_json(rows, false)->Array_0, rows_json(rows, true)->Array_0),
{
    let plain = rows_json(rows, false)->Array_0;
    let objects = rows_json(rows, true)->Array_0;
    let headers = first_row(rows);
    assert forall|i: int| 0 <= i < objects.len() implies (
    #[trigger] objects[i] matches Tree::Object(members) && {
        let names = plain[0]->Array_0;
        let cells = plain[i + 1]->Array_0;
        &&& forall|name: Seq<char>| #[trigger]
            members.contains_key(name) <==> names.contains(Tree::Str(name))
        &&& forall|j: int|
            0 <= j < names.len() && (forall|k: int| j < k < names.len() ==> names[k] != names[j])
                ==> members[(#[trigger] names[j])->Str_0] == if j < cells.len() {
                cells[j]
            } else {
                Tree::Str(Seq::empty())
            }
    }) by {
        lemma_object_is_named(headers, rows[i + 1]);
        assert(objects[i] == row_object(headers, rows[i + 1]));
        assert(plain[0] == row_array(headers));
        assert(plain[i + 1] == row_array(rows[i + 1]));
    }
}

proof fn lemma_object_is_named(headers: Seq<Seq<char>>, record: Seq<Seq<char>>)
    ensures
        ({
            let members = row_members(headers, record);
            let names = row_array(headers)->Array_0;
            let cells = row_array(record)->Array_0;
            &&& forall|name: Seq<char>| #[trigger]
                members.contains_key(name) <==> names.contains(Tree::Str(name))
            &&& forall|j: int|
                0 <= j < names.len() && (forall|k: int|
                    j < k < names.len() ==> names[k] != names[j]) ==> members[(
                #[trigger] names[j])->Str_0] == if j < cells.len() {
                    cells[j]
                } else {
                    Tree::Str(Seq::empty())
                }
        }),
{
    let members = row_members(headers, record);
    let names = row_array(headers)->Array_0;
    let cells = row_array(record)->Array_0;
    assert forall|name: Seq<char>| #[trigger]
        members.contains_key(name) <==> names.contains(Tree::Str(name)) by {
        law_row_names(headers, record, name);
        if headers.contains(name) {
            let i = choose|i: int| 0 <= i < headers.len() && headers[i] == name;
            assert(names[i] == Tree::Str(name));
        }
        if names.contains(Tree::Str(name)) {
            let i = choose|i: int| 0 <= i < names.len() && names[i] == Tree::Str(name);
            assert(headers[i] == name);
        }
    }
    assert forall|j: int|
        0 <= j < names.len() && (forall|k: int|
            j < k < names.len() ==> names[k] != names[j]) implies members[(
    #[trigger] names[j])->Str_0] == if j < cells.len() {
        cells[j]
    } else {
        Tree::Str(Seq::empty())
    } by {
        assert forall|k: int| j < k < headers.len() implies #[trigger] headers[k] != headers[j] by {
            assert(names[k] != names[j]);
            assert(names[k] == Tree::Str(headers[k]));
        }
        law_row_cells(headers, record, j);
    }
}

/// Errors come first: what follows an error is not collected.
proof fn lemma_collected_error(records: Seq<Result<Seq<Seq<char>>, Seq<char>>>, n: int)
    requires
        0 <= n <= records.len(),
        collected(records.take(n)) is Err,
    ensures
        collected(records) == collected(records.take(n)),
    decreases records.len() - n,
{
    if n == records.len() {
        assert(records.take(n) =~= records);
    } else {
        assert(records.take(n + 1).drop_last() =~= records.take(n));
        lemma_collected_error(records, n + 1);
    }
}

/// The object that a record becomes under a header row.
pub fn object_of(headers: &Vec<String>, record: &Vec<String>) -> (r: Json)
    ensures
        r@ == row_object(texts(headers@), texts(record@)),
        r matches Json::Object(entries) && names_once(listed(entries@)),
{
    let ghost names = texts(headers@);
    let ghost fields = texts(record@);
    let mut entries: Vec<(String, Json)> = Vec::new();
    let mut i: usize = 0;
    assert(names.take(0) =~= Seq::<Seq<char>>::empty());
    assert(listed(entries@) =~= Seq::<(Seq<char>, Tree)>::empty());
    while i < headers.len()
        invariant
            i <= headers.len(),
            names == texts(headers@),
            fields == texts(record@),
            member_map(listed(entries@)) == row_members(names.take(i as int), fields),
            names_once(listed(entries@)),
        decreases headers.len() - i,
    {
        let field: String = if i < record.len() {
            record[i].clone()
        } else {
            String::new()
        };
        assert(field@ == cell(fields, i as int));
        insert_member(&mut entries, headers[i].clone(), Json::Str(field));
        assert(names.take(i + 1).drop_last() =~= names.take(i as int));
        i = i + 1;
    }
    assert(names.take(i as int) =~= names);
    let r = Json::Object(entries);
    proof {
        lemma_json_view(r);
    }
    r
}

/// The array that a record becomes without a header row.
pub fn array_of(record: &Vec<String>) -> (r: Json)
    ensures
        r@ == row_array(texts(record@)),
{
    let mut cells: Vec<Json> = Vec::new();
    let mut i: usize = 0;
    while i < record.len()
        invariant
            i <= record.len(),
            cells.len() == i,
            forall|k: int| 0 <= k < i ==> (#[trigger] cells@[k])@ == Tree::Str(record@[k]@),
        decreases record.len() - i,
    {
        cells.push(Json::Str(record[i].clone()));
        i = i + 1;
    }
    let r = Json::Array(cells);
    proof {
        lemma_json_view(r);
        assert(trees(cells@) =~= row_array(texts(record@))->Array_0);
    }
    r
}

/// The rows that records become, under the header row where there is one: an
/// array of one object or array per record, or the first error among the
/// header row and the records.
pub fn rows_of(
    headers: Option<Result<Vec<String>, String>>,
    records: Vec<Result<Vec<String>, String>>,
) -> (r: Result<Json, String>)
    ensures
        outcome(r) == match headers {
            Some(row) => rows_from(read_row(row), read_rows(records@), true),
            None => arrays_from(read_rows(records@)),
        },
        headers is Some ==> (r matches Ok(Json::Array(rows)) ==> forall|i: int|
            0 <= i < rows.len() ==> (#[trigger] rows@[i] matches Json::Object(entries)
                && names_once(listed(entries@)))),
{
    let names: Option<Vec<String>> = match headers {
        Some(Ok(row)) => Some(row),
        Some(Err(e)) => {
            return Err(join("csv header: ", e.as_str()));
        },
        None => None,
    };
    let ghost all = read_rows(records@);
    let ghost columns = match &names {
        Some(row) => texts(row@),
        None => Seq::empty(),
    };
    let ghost mut rows: Seq<Seq<Seq<char>>> = Seq::empty();
    let mut items: Vec<Json> = Vec::new();
    let mut i: usize = 0;
    assert(all.take(0) =~= Seq::<Result<Seq<Seq<char>>, Seq<char>>>::empty());
    while i < records.len()
        invariant
            i <= records.len(),
            all == read_rows(records@),
            items.len() == i,
            rows.len() == i,
            names matches Some(row) ==> columns == texts(row@),
            headers is Some <==> names is Some,
            headers matches Some(row) ==> row is Ok && read_row(row) == Ok::<
                Seq<Seq<char>>,
                Seq<char>,
            >(columns),
            collected(all.take(i as int)) == Ok::<Seq<Seq<Seq<char>>>, Seq<char>>(rows),
            forall|k: int|
                0 <= k < i ==> (#[trigger] items@[k])@ == if names is Some {
                    row_object(columns, rows[k])
                } else {
                    row_array(rows[k])
                },
            names is Some ==> forall|k: int|
                0 <= k < i ==> (#[trigger] items@[k] matches Json::Object(entries) && names_once(
                    listed(entries@),
                )),
        decreases records.len() - i,
    {
        assert(all.take(i + 1).drop_last() =~= all.take(i as int));
        assert(all.take(i + 1).last() == read_row(records@[i as int]));
        match &records[i] {
            Ok(record) => {
                let item = match &names {
                    Some(row) => object_of(row, record),
                    None => array_of(record),
                };
                items.push(item);
                proof {
                    rows = rows.push(texts(record@));
                }
            },
            Err(e) => {
                proof {
                    lemma_collected_error(all, i + 1);
                }
                return Err(join("csv record: ", e.as_str()));
            },
        }
        i = i + 1;
    }
    let r = Json::Array(items);
    proof {
        assert(all.take(i as int) =~= all);
        lemma_json_view(r);
        if names is Some {
            assert(trees(items@) =~= rows.map_values(
                |row: Seq<Seq<char>>| row_object(columns, row),
            ));
        } else {
            assert(trees(items@) =~= rows.map_values(|row: Seq<Seq<char>>| row_array(row)));
        }
    }
    Ok(r)
}

/// Parses a delimited string into an array of rows: objects named by the header
/// row, or arrays where there is none. Cells stay strings. What was written as
/// this string is read back, where it can be.
pub fn csv_to_json(target: &Json, delimiter: u8, has_headers: bool) -> (r: Result<Json, String>)
    ensures
        outcome(r) == csv_to_json_result(target@, delimiter, has_headers),
        target@ matches Tree::Str(text) ==> reader_knows(text, delimiter, has_headers),
        undoes_writing(target@, delimiter, has_headers),
{
    let text: &String = match target {
        Json::Str(text) => text,
        _ => {
            proof {
                lemma_undoes_writing(target@, delimiter, has_headers);
            }
            return Err("csv_to_json: input value must be a string".to_owned());
        },
    };
    if has_headers {
        let (headers, records) = read_table(text.as_str(), delimiter, true);
        proof {
            assert forall|lines: Seq<Line>|
                readable(lines, delimiter) && text@ == #[trigger] lines_text(
                    lines,
                    delimiter as char,
                ) implies csv_to_json_result(Tree::Str(text@), delimiter, true) == Ok::<
                Tree,
                Seq<char>,
            >(rows_json(line_rows(lines), true)) by {
                lemma_heads(line_rows(lines), read_row(headers), read_rows(records@));
            }
            if delimiter < 0x80 {
                let all = csv_rows(text@, delimiter, true);
                assert forall|i: int| 0 <= i < all.len() implies #[trigger] all[i] is Ok by {
                    if i > 0 {
                        assert(read_rows(records@)[i - 1] == all[i]);
                        assert(records@[i - 1] is Ok);
                    }
                }
                let rows = lemma_no_errors(all);
                lemma_collected_all(rows);
                lemma_heads(rows, read_row(headers), read_rows(records@));
                law_first_row_names_columns(rows);
            }
            lemma_undoes_writing(target@, delimiter, true);
        }
        rows_of(Some(headers), records)
    } else {
        let records = read_plain(text.as_str(), delimiter, true);
        proof {
            assert forall|lines: Seq<Line>|
                readable(lines, delimiter) && text@ == #[trigger] lines_text(
                    lines,
                    delimiter as char,
                ) implies csv_to_json_result(Tree::Str(text@), delimiter, false) == Ok::<
                Tree,
                Seq<char>,
            >(rows_json(line_rows(lines), false)) by {
                lemma_collected_all(line_rows(lines));
            }
            if delimiter < 0x80 {
                let all = read_rows(records@);
                assert forall|i: int| 0 <= i < all.len() implies #[trigger] all[i] is Ok by {
                    assert(records@[i] is Ok);
                }
                let rows = lemma_no_errors(all);
                lemma_collected_all(rows);
            }
            lemma_undoes_writing(target@, delimiter, false);
        }
        rows_of(None, records)
    }
}

/// What a header row and records become that were found in rows.
proof fn lemma_heads(
    rows: Seq<Seq<Seq<char>>>,
    headers: Result<Seq<Seq<char>>, Seq<char>>,
    records: Seq<Result<Seq<Seq<char>>, Seq<char>>>,
)
    requires
        heads(all_read(rows), headers, records),
    ensures
        rows_from(headers, records, true) == Ok::<Tree, Seq<char>>(rows_json(rows, true)),
{
    lemma_collected_all(later_rows(rows));
    assert(records =~= all_read(later_rows(rows)));
}

} // verus!
