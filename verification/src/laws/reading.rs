//! What reading delimited text does.
use vstd::prelude::*;

use crate::delimited::{all_read, csv_rows, csv_table};
use crate::reading::{
    arrays_from, collected, csv_to_json_result, lemma_collected_all, row_array, row_object, rows_from,
    rows_json,
};
use crate::round_trip::{law_row_cells, law_row_names};
use crate::tree::Tree;

verus! {

/// Nothing but a string can be read.
pub proof fn law_reading_needs_a_string(target: Tree, delimiter: u8, has_headers: bool)
    requires
        !(target is Str),
    ensures
        csv_to_json_result(target, delimiter, has_headers) == Err::<Tree, Seq<char>>(
            "csv_to_json: input value must be a string"@,
        ),
{
}

/// What is read in a string are the records that the reader finds in it, below a
/// header row exactly where one is asked for.
pub proof fn law_text_is_read(text: Seq<char>, delimiter: u8)
    ensures
        csv_to_json_result(Tree::Str(text), delimiter, false) == arrays_from(
            csv_rows(text, delimiter, true),
        ),
        csv_to_json_result(Tree::Str(text), delimiter, true) == rows_from(
            csv_table(text, delimiter, true).0,
            csv_table(text, delimiter, true).1,
            true,
        ),
{
}

/// A record becomes the array of its fields as strings, in order.
pub proof fn law_record_as_array(record: Seq<Seq<char>>)
    ensures
        row_array(record) == Tree::Array(Seq::new(record.len(), |j: int| Tree::Str(record[j]))),
{
    assert(row_array(record)->Array_0 =~= Seq::new(record.len(), |j: int| Tree::Str(record[j])));
}

/// A record becomes an object with exactly the column names. Under each stands
/// the field of the last column of that name as a string, which is empty where
/// the record is too short.
pub proof fn law_record_as_object(headers: Seq<Seq<char>>, record: Seq<Seq<char>>)
    ensures
        row_object(headers, record) is Object,
        forall|name: Seq<char>| #[trigger]
            row_object(headers, record)->Object_0.contains_key(name) <==> exists|j: int|
                0 <= j < headers.len() && #[trigger] headers[j] == name,
        forall|j: int|
            0 <= j < headers.len() && (forall|k: int|
                j < k < headers.len() ==> headers[k] != headers[j]) ==> row_object(
                headers,
                record,
            )->Object_0[#[trigger] headers[j]] == Tree::Str(
                if j < record.len() {
                    record[j]
                } else {
                    Seq::empty()
                },
            ),
{
    let members = row_object(headers, record)->Object_0;
    assert forall|name: Seq<char>| #[trigger] members.contains_key(name) <==> exists|j: int|
        0 <= j < headers.len() && #[trigger] headers[j] == name by {
        law_row_names(headers, record, name);
        if headers.contains(name) {
            let j = choose|j: int| 0 <= j < headers.len() && headers[j] == name;
            assert(headers[j] == name);
        }
    }
    assert forall|j: int|
        0 <= j < headers.len() && (forall|k: int|
            j < k < headers.len() ==> headers[k] != headers[j]) implies members[
    #[trigger] headers[j]] == Tree::Str(
        if j < record.len() {
            record[j]
        } else {
            Seq::empty()
        },
    ) by {
        law_row_cells(headers, record, j);
    }
}

proof fn lemma_all_collected(records: Seq<Result<Seq<Seq<char>>, Seq<char>>>)
    requires
        forall|i: int| 0 <= i < records.len() ==> #[trigger] records[i] is Ok,
    ensures
        collected(records) == Ok::<Seq<Seq<Seq<char>>>, Seq<char>>(
            Seq::new(records.len(), |i: int| records[i]->Ok_0),
        ),
{
    let rows = Seq::new(records.len(), |i: int| records[i]->Ok_0);
    assert forall|i: int| 0 <= i < records.len() implies records[i] == all_read(rows)[i] by {
        assert(records[i] is Ok);
    }
    assert(records =~= all_read(rows));
    lemma_collected_all(rows);
}

proof fn lemma_first_error(
    records: Seq<Result<Seq<Seq<char>>, Seq<char>>>,
    position: int,
)
    requires
        0 <= position < records.len(),
        forall|i: int| 0 <= i < position ==> #[trigger] records[i] is Ok,
        records[position] is Err,
    ensures
        collected(records) == Err::<Seq<Seq<Seq<char>>>, Seq<char>>(records[position]->Err_0),
    decreases records.len(),
{
    let shorter = records.drop_last();
    if position == records.len() - 1 {
        assert forall|i: int| 0 <= i < shorter.len() implies #[trigger] shorter[i] is Ok by {
            assert(records[i] is Ok);
        }
        lemma_all_collected(shorter);
    } else {
        assert forall|i: int| 0 <= i < position implies #[trigger] shorter[i] is Ok by {
            assert(records[i] is Ok);
        }
        assert(shorter[position] == records[position]);
        lemma_first_error(shorter, position);
    }
}

/// Without a header row every record becomes an array, in order, and none is
/// left out.
pub proof fn law_records_become_arrays(records: Seq<Result<Seq<Seq<char>>, Seq<char>>>)
    requires
        forall|i: int| 0 <= i < records.len() ==> #[trigger] records[i] is Ok,
    ensures
        arrays_from(records) == Ok::<Tree, Seq<char>>(
            Tree::Array(
                Seq::new(
                    records.len(),
                    |i: int|
                        Tree::Array(
                            Seq::new(
                                records[i]->Ok_0.len(),
                                |j: int| Tree::Str(records[i]->Ok_0[j]),
                            ),
                        ),
                ),
            ),
        ),
        forall|headers: Result<Seq<Seq<char>>, Seq<char>>| #[trigger]
            rows_from(headers, records, false) == arrays_from(records),
{
    lemma_all_collected(records);
    let expected = Seq::new(
        records.len(),
        |i: int|
            Tree::Array(
                Seq::new(records[i]->Ok_0.len(), |j: int| Tree::Str(records[i]->Ok_0[j])),
            ),
    );
    let rows = arrays_from(records)->Ok_0->Array_0;
    assert forall|i: int| 0 <= i < records.len() implies rows[i] == #[trigger] expected[i] by {
        law_record_as_array(records[i]->Ok_0);
        assert(row_array(records[i]->Ok_0)->Array_0 =~= expected[i]->Array_0);
    }
    assert(rows =~= expected);
}

/// Below a header row every record becomes the object that it is under that
/// row, in order, and none is left out.
pub proof fn law_records_become_objects(
    headers: Seq<Seq<char>>,
    records: Seq<Result<Seq<Seq<char>>, Seq<char>>>,
)
    requires
        forall|i: int| 0 <= i < records.len() ==> #[trigger] records[i] is Ok,
    ensures
        rows_from(Ok(headers), records, true) == Ok::<Tree, Seq<char>>(
            Tree::Array(
                Seq::new(records.len(), |i: int| row_object(headers, records[i]->Ok_0)),
            ),
        ),
{
    lemma_all_collected(records);
    assert(rows_from(Ok(headers), records, true)->Ok_0->Array_0 =~= Seq::new(
        records.len(),
        |i: int| row_object(headers, records[i]->Ok_0),
    ));
}

/// The first record that cannot be read is reported, with or without a header
/// row.
pub proof fn law_first_bad_record(
    headers: Seq<Seq<char>>,
    records: Seq<Result<Seq<Seq<char>>, Seq<char>>>,
    position: int,
)
    requires
        0 <= position < records.len(),
        forall|i: int| 0 <= i < position ==> #[trigger] records[i] is Ok,
        records[position] is Err,
    ensures
        arrays_from(records) == Err::<Tree, Seq<char>>(
            "csv record: "@ + records[position]->Err_0,
        ),
        rows_from(Ok(headers), records, true) == Err::<Tree, Seq<char>>(
            "csv record: "@ + records[position]->Err_0,
        ),
{
    lemma_first_error(records, position);
}

/// A header row that cannot be read is reported before any record.
pub proof fn law_bad_header_row(
    problem: Seq<char>,
    records: Seq<Result<Seq<Seq<char>>, Seq<char>>>,
)
    ensures
        rows_from(Err(problem), records, true) == Err::<Tree, Seq<char>>("csv header: "@ + problem),
{
}

/// The JSON of rows holds every row: without a header row each as the array of
/// its fields, with one each but the first as the object that it is under the
/// first.
pub proof fn law_rows_json(rows: Seq<Seq<Seq<char>>>)
    ensures
        rows_json(rows, false) == Tree::Array(
            Seq::new(
                rows.len(),
                |i: int| Tree::Array(Seq::new(rows[i].len(), |j: int| Tree::Str(rows[i][j]))),
            ),
        ),
        rows_json(rows, true) == Tree::Array(
            if rows.len() == 0 {
                Seq::empty()
            } else {
                Seq::new((rows.len() - 1) as nat, |i: int| row_object(rows[0], rows[i + 1]))
            },
        ),
{
    let plain = Seq::new(
        rows.len(),
        |i: int| Tree::Array(Seq::new(rows[i].len(), |j: int| Tree::Str(rows[i][j]))),
    );
    assert forall|i: int| 0 <= i < rows.len() implies rows_json(rows, false)->Array_0[i]
        == #[trigger] plain[i] by {
        assert(row_array(rows[i])->Array_0 =~= plain[i]->Array_0);
    }
    assert(rows_json(rows, false)->Array_0 =~= plain);
    if rows.len() == 0 {
        assert(rows_json(rows, true)->Array_0 =~= Seq::<Tree>::empty());
    } else {
        assert(rows_json(rows, true)->Array_0 =~= Seq::new(
            (rows.len() - 1) as nat,
            |i: int| row_object(rows[0], rows[i + 1]),
        ));
    }
}

} // verus!
