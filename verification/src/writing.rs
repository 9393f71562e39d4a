//! From JSON rows to delimited text.
use vstd::prelude::*;
use vstd::utf8::{decode_utf8, encode_utf8_decode_utf8, encode_utf8_valid_utf8, valid_utf8};

use crate::delimited::{
    csv_bytes, csv_text, finish, fits, new_writer, read_row, unequal_text, utf8_problem,
    utf8_string, write_row, writer_delimiter, written_rows, CsvWriter,
};
use crate::document::{
    json_text, kind_name, kind_of, lemma_json_view, listed, member, number_text, outcome, trees,
    write_number, write_value, Json,
};
use crate::text::{
    decimal, decimal_text, join, law_precedes_total, lemma_sorted_insert, lemma_sorted_list,
    lemma_sorted_unique, precedes, strictly_sorted, string_precedes, texts,
};
use crate::tree::{lemma_listed_names, member_map, Tree};

verus! {

/// The cell that a value becomes: strings verbatim, scalars in their natural
/// text, null as empty, and arrays and objects as compact JSON.
pub open spec fn cell_text(tree: Tree) -> Seq<char> {
    match tree {
        Tree::Null => Seq::empty(),
        Tree::Str(s) => s,
        Tree::Bool(b) => if b {
            "true"@
        } else {
            "false"@
        },
        Tree::Number(n) => number_text(n),
        _ => json_text(tree),
    }
}

/// Some object of the list has a member of this name.
pub open spec fn some_has(items: Seq<Tree>, name: Seq<char>) -> bool {
    exists|i: int|
        0 <= i < items.len() && (#[trigger] items[i] matches Tree::Object(members)
            && members.contains_key(name))
}

/// The list holds the names that some object has, each once and in order.
pub open spec fn is_sorted_union(names: Seq<Seq<char>>, items: Seq<Tree>) -> bool {
    &&& strictly_sorted(names)
    &&& forall|name: Seq<char>| #[trigger] names.contains(name) <==> some_has(items, name)
}

/// The names that some object of the list has, each once and in order.
pub open spec fn sorted_union(items: Seq<Tree>) -> Seq<Seq<char>> {
    choose|names: Seq<Seq<char>>| is_sorted_union(names, items)
}

/// The position of the first item that is no object.
pub open spec fn first_non_object(items: Seq<Tree>) -> Option<nat>
    decreases items.len(),
{
    if items.len() == 0 {
        None
    } else {
        match first_non_object(items.drop_last()) {
            Some(i) => Some(i),
            None => if items.last() is Object {
                None
            } else {
                Some((items.len() - 1) as nat)
            },
        }
    }
}

/// What is said of an element that is no object.
pub open spec fn not_an_object(position: nat) -> Seq<char> {
    "json_to_csv: element "@ + decimal(position) + " is not an object"@
}

/// What is said of an element that is no array.
pub open spec fn not_an_array(position: nat) -> Seq<char> {
    "json_to_csv: element "@ + decimal(position) + " is not an array"@
}

/// The columns of a list of objects, or an error where an element is none.
pub open spec fn union_result(items: Seq<Tree>) -> Result<Seq<Seq<char>>, Seq<char>> {
    match first_non_object(items) {
        Some(i) => Err(not_an_object(i)),
        None => Ok(sorted_union(items)),
    }
}

/// The row that an object becomes: for each column the cell of its member, or
/// an empty cell where it has none.
pub open spec fn object_row(
    members: Map<Seq<char>, Tree>,
    columns: Seq<Seq<char>>,
) -> Seq<Seq<char>> {
    columns.map_values(
        |name: Seq<char>|
            if members.contains_key(name) {
                cell_text(members[name])
            } else {
                Seq::empty()
            },
    )
}

/// The row that an array becomes.
pub open spec fn array_row(items: Seq<Tree>) -> Seq<Seq<char>> {
    items.map_values(|item: Tree| cell_text(item))
}

/// The row that an element becomes, or the error that it gives: with columns an
/// element has to be an object, without them an array.
pub open spec fn element_row(
    element: Tree,
    position: nat,
    columns: Option<Seq<Seq<char>>>,
) -> Result<Seq<Seq<char>>, Seq<char>> {
    match columns {
        Some(names) => match element {
            Tree::Object(members) => Ok(object_row(members, names)),
            _ => Err(not_an_object(position)),
        },
        None => match element {
            Tree::Array(items) => Ok(array_row(items)),
            _ => Err(not_an_array(position)),
        },
    }
}

/// The rows once the elements are written after `rows`, or the first error: an
/// element of another kind, or a row of another length than the first row.
pub open spec fn rows_after(
    rows: Seq<Seq<Seq<char>>>,
    elements: Seq<Tree>,
    columns: Option<Seq<Seq<char>>>,
) -> Result<Seq<Seq<Seq<char>>>, Seq<char>>
    decreases elements.len(),
{
    if elements.len() == 0 {
        Ok(rows)
    } else {
        match rows_after(rows, elements.drop_last(), columns) {
            Ok(done) => match element_row(
                elements.last(),
                (elements.len() - 1) as nat,
                columns,
            ) {
                Ok(row) => if fits(done, row) {
                    Ok(done.push(row))
                } else {
                    Err("csv write row: "@ + unequal_text(done[0].len(), row.len()))
                },
                Err(e) => Err(e),
            },
            Err(e) => Err(e),
        }
    }
}

/// The rows of an array of objects, or an error.
pub open spec fn object_rows(
    elements: Seq<Tree>,
    has_headers: bool,
    columns: Option<Seq<Seq<char>>>,
) -> Result<Seq<Seq<Seq<char>>>, Seq<char>> {
    let names = match columns {
        Some(given) => Ok(given),
        None => union_result(elements),
    };
    match names {
        Ok(names) => rows_after(
            if has_headers {
                seq![names]
            } else {
                Seq::empty()
            },
            elements,
            Some(names),
        ),
        Err(e) => Err(e),
    }
}

/// The string that bytes are, or an error where they are no UTF-8.
pub open spec fn string_of(bytes: Seq<u8>) -> Result<Tree, Seq<char>> {
    if valid_utf8(bytes) {
        Ok(Tree::Str(decode_utf8(bytes)))
    } else {
        Err("csv output not UTF-8: "@ + utf8_problem(bytes))
    }
}

/// The delimited text of rows, or the error in their place. With a delimiter
/// that is not ASCII the bytes may be no UTF-8.
pub open spec fn written(
    rows: Result<Seq<Seq<Seq<char>>>, Seq<char>>,
    delimiter: u8,
) -> Result<Tree, Seq<char>> {
    match rows {
        Ok(rows) => if delimiter < 0x80 {
            Ok(Tree::Str(csv_text(rows, delimiter as char)))
        } else {
            string_of(csv_bytes(rows, delimiter))
        },
        Err(e) => Err(e),
    }
}

/// What `json_to_csv` makes of a value: the first element of an array decides
/// whether objects or arrays are written.
pub open spec fn json_to_csv_result(
    target: Tree,
    delimiter: u8,
    has_headers: bool,
    columns: Option<Seq<Seq<char>>>,
) -> Result<Tree, Seq<char>> {
    match target {
        Tree::Array(elements) => if elements.len() == 0 {
            Ok(Tree::Str(Seq::empty()))
        } else {
            match elements[0] {
                Tree::Object(_) => written(object_rows(elements, has_headers, columns), delimiter),
                Tree::Array(_) => written(rows_after(Seq::empty(), elements, None), delimiter),
                other => Err(
                    "json_to_csv: array elements must be objects or arrays, found "@ + kind_name(
                        other,
                    ),
                ),
            }
        },
        _ => Err("json_to_csv: input value must be an array"@),
    }
}

/// There is no more than one sorted union.
pub proof fn lemma_sorted_union(names: Seq<Seq<char>>, items: Seq<Tree>)
    requires
        is_sorted_union(names, items),
    ensures
        sorted_union(items) == names,
{
    let chosen = sorted_union(items);
    assert(is_sorted_union(chosen, items));
    assert forall|name: Seq<char>| chosen.contains(name) <==> names.contains(name) by {
        assert(chosen.contains(name) <==> some_has(items, name));
        assert(names.contains(name) <==> some_has(items, name));
    }
    lemma_sorted_unique(chosen, names);
}

/// Objects with finitely many names have a sorted union of their names, and only
/// one.
pub proof fn law_sorted_union(items: Seq<Tree>)
    requires
        forall|i: int|
            0 <= i < items.len() ==> (#[trigger] items[i] matches Tree::Object(members)
                ==> members.dom().finite()),
    ensures
        is_sorted_union(sorted_union(items), items),
        forall|names: Seq<Seq<char>>| #[trigger]
            is_sorted_union(names, items) ==> names == sorted_union(items),
    decreases items.len(),
{
    let names = if items.len() == 0 {
        Seq::empty()
    } else {
        let shorter = items.drop_last();
        law_sorted_union(shorter);
        let before = sorted_union(shorter);
        let own = match items.last() {
            Tree::Object(members) => members.dom(),
            _ => Set::empty(),
        };
        let n = items.len() - 1;
        assert(items[n] == items.last());
        vstd::seq_lib::seq_to_set_is_finite(before);
        let names = lemma_sorted_list(before.to_set().union(own));
        assert forall|name: Seq<char>| #[trigger] names.contains(name) <==> some_has(items, name) by {
            assert(before.contains(name) <==> some_has(shorter, name));
            if some_has(shorter, name) {
                let i = choose|i: int|
                    0 <= i < shorter.len() && (#[trigger] shorter[i] matches Tree::Object(members)
                        && members.contains_key(name));
                assert(items[i] == shorter[i]);
            }
            if own.contains(name) {
                assert(items[n] matches Tree::Object(members) && members.contains_key(name));
            }
            if some_has(items, name) {
                let i = choose|i: int|
                    0 <= i < items.len() && (#[trigger] items[i] matches Tree::Object(members)
                        && members.contains_key(name));
                if i < n {
                    assert(shorter[i] == items[i]);
                }
            }
        }
        names
    };
    assert(is_sorted_union(names, items));
    assert forall|other: Seq<Seq<char>>| #[trigger] is_sorted_union(other, items) implies other
        == sorted_union(items) by {
        lemma_sorted_union(other, items);
    }
}

/// Renders a cell: strings verbatim, booleans and numbers in their JSON form,
/// null as empty, and arrays and objects as compact JSON.
pub fn cell_to_string(v: &Json) -> (r: String)
    ensures
        r@ == cell_text(v@),
        v@ is Null ==> r@.len() == 0,
        v@ matches Tree::Str(s) ==> r@ == s,
        v@ matches Tree::Bool(b) ==> r@ == if b {
            "true"@
        } else {
            "false"@
        },
        v@ is Bool || v@ is Number || v@ is Array || v@ is Object ==> r@ == json_text(v@),
        r@.len() == 0 <==> v@ is Null || v@ == Tree::Str(Seq::empty()),
{
    proof {
        if let Tree::Str(s) = v@ {
            assert(s.len() == 0 ==> s =~= Seq::<char>::empty());
        }
    }
    match v {
        Json::Null => String::new(),
        Json::Str(s) => s.clone(),
        Json::Number(n) => write_number(n),
        other => match write_value(&other.to_value()) {
            Ok(text) => text,
            Err(_) => String::new(),
        },
    }
}

/// Takes a name into a sorted list, unless it is there already.
fn insert_name(names: &mut Vec<String>, name: &String)
    requires
        strictly_sorted(texts(old(names)@)),
    ensures
        strictly_sorted(texts(final(names)@)),
        forall|k: Seq<char>| #[trigger]
            texts(final(names)@).contains(k) <==> texts(old(names)@).contains(k) || k == name@,
{
    let ghost before = texts(names@);
    let mut i: usize = 0;
    while i < names.len() && string_precedes(names[i].as_str(), name.as_str())
        invariant
            i <= names.len(),
            before == texts(names@),
            forall|k: int| 0 <= k < i ==> precedes(#[trigger] before[k], name@),
        decreases names.len() - i,
    {
        i = i + 1;
    }
    if i < names.len() && names[i] == *name {
        assert(before[i as int] == name@);
        assert(before.contains(name@));
        return;
    }
    names.insert(i, name.clone());
    proof {
        assert(texts(names@) =~= before.insert(i as int, name@));
        if i < before.len() {
            law_precedes_total(before[i as int], name@);
        }
        lemma_sorted_insert(before, i as int, name@);
    }
}

/// Where all earlier items are objects, an item that is none is the first such.
proof fn lemma_first_non_object(items: Seq<Tree>, n: int)
    requires
        0 <= n < items.len(),
        first_non_object(items.take(n)) is None,
        !(items[n] is Object),
    ensures
        first_non_object(items) == Some(n as nat),
    decreases items.len(),
{
    let shorter = items.drop_last();
    if n == items.len() - 1 {
        assert(shorter =~= items.take(n));
    } else {
        assert(shorter.take(n) =~= items.take(n));
        lemma_first_non_object(shorter, n);
    }
}

/// The sorted union of the names of all objects in the list; an error where an
/// element is no object.
pub fn union_keys(arr: &[Json]) -> (r: Result<Vec<String>, String>)
    ensures
        match r {
            Ok(names) => union_result(trees(arr@)) == Ok::<Seq<Seq<char>>, Seq<char>>(
                texts(names@),
            ) && is_sorted_union(texts(names@), trees(arr@)),
            Err(e) => union_result(trees(arr@)) == Err::<Seq<Seq<char>>, Seq<char>>(e@),
        },
        r is Ok <==> forall|i: int| 0 <= i < arr@.len() ==> (#[trigger] arr@[i])@ is Object,
        r matches Ok(names) ==> forall|i: int, j: int|
            0 <= i < j < names@.len() ==> precedes(
                #[trigger] texts(names@)[i],
                #[trigger] texts(names@)[j],
            ),
        r matches Ok(names) ==> forall|name: Seq<char>| #[trigger]
            texts(names@).contains(name) <==> exists|k: int|
                0 <= k < arr@.len() && ((#[trigger] arr@[k])@ matches Tree::Object(members)
                    && members.contains_key(name)),
{
    let ghost all = trees(arr@);
    let mut names: Vec<String> = Vec::new();
    let mut i: usize = 0;
    assert(all.take(0) =~= Seq::<Tree>::empty());
    while i < arr.len()
        invariant
            i <= arr.len(),
            all == trees(arr@),
            first_non_object(all.take(i as int)) is None,
            forall|k: int| 0 <= k < i ==> (#[trigger] arr@[k])@ is Object,
            is_sorted_union(texts(names@), all.take(i as int)),
        decreases arr.len() - i,
    {
        assert(all[i as int] == arr@[i as int]@);
        proof {
            lemma_json_view(arr@[i as int]);
        }
        let entries: &Vec<(String, Json)> = match &arr[i] {
            Json::Object(entries) => entries,
            _ => {
                proof {
                    lemma_first_non_object(all, i as int);
                }
                return Err(wrong_kind(i, " is not an object"));
            },
        };
        let ghost before = texts(names@);
        let ghost members = listed(entries@);
        let mut j: usize = 0;
        while j < entries.len()
            invariant
                j <= entries.len(),
                members == listed(entries@),
                strictly_sorted(texts(names@)),
                forall|name: Seq<char>| #[trigger]
                    texts(names@).contains(name) <==> before.contains(name) || exists|k: int|
                        0 <= k < j && (#[trigger] members[k]).0 == name,
            decreases entries.len() - j,
        {
            let ghost inner = texts(names@);
            insert_name(&mut names, &entries[j].0);
            proof {
                assert(members[j as int].0 == entries@[j as int].0@);
                assert forall|name: Seq<char>| #[trigger]
                    texts(names@).contains(name) <==> before.contains(name) || exists|k: int|
                        0 <= k < j + 1 && (#[trigger] members[k]).0 == name by {
                    assert(texts(names@).contains(name) <==> inner.contains(name) || name
                        == members[j as int].0);
                }
            }
            j = j + 1;
        }
        proof {
            lemma_listed_names(members);
            let now = all.take(i + 1);
            assert(now.drop_last() =~= all.take(i as int));
            assert(now.last() == Tree::Object(member_map(members)));
            assert forall|name: Seq<char>| #[trigger]
                texts(names@).contains(name) <==> some_has(now, name) by {
                assert(before.contains(name) <==> some_has(all.take(i as int), name));
                assert(member_map(members).contains_key(name) <==> exists|k: int|
                    0 <= k < members.len() && (#[trigger] members[k]).0 == name);
                if some_has(all.take(i as int), name) {
                    let k = choose|k: int|
                        0 <= k < all.take(i as int).len() && (#[trigger] all.take(
                            i as int,
                        )[k] matches Tree::Object(m) && m.contains_key(name));
                    assert(now[k] == all.take(i as int)[k]);
                }
                if member_map(members).contains_key(name) {
                    assert(now[i as int] matches Tree::Object(m) && m.contains_key(name));
                }
                if some_has(now, name) {
                    let k = choose|k: int|
                        0 <= k < now.len() && (#[trigger] now[k] matches Tree::Object(m)
                            && m.contains_key(name));
                    if k < i {
                        assert(all.take(i as int)[k] == now[k]);
                    }
                }
            }
        }
        i = i + 1;
    }
    proof {
        assert(all.take(i as int) =~= all);
        lemma_sorted_union(texts(names@), all);
        assert forall|name: Seq<char>| #[trigger]
            texts(names@).contains(name) <==> exists|k: int|
                0 <= k < arr@.len() && ((#[trigger] arr@[k])@ matches Tree::Object(members)
                    && members.contains_key(name)) by {
            assert(texts(names@).contains(name) <==> some_has(all, name));
            if some_has(all, name) {
                let k = choose|k: int|
                    0 <= k < all.len() && (#[trigger] all[k] matches Tree::Object(members)
                        && members.contains_key(name));
                assert(arr@[k]@ == all[k]);
            }
            if exists|k: int|
                0 <= k < arr@.len() && ((#[trigger] arr@[k])@ matches Tree::Object(members)
                    && members.contains_key(name)) {
                let k = choose|k: int|
                    0 <= k < arr@.len() && ((#[trigger] arr@[k])@ matches Tree::Object(members)
                        && members.contains_key(name));
                assert(all[k] == arr@[k]@);
            }
        }
    }
    Ok(names)
}

/// The names in an optional list of columns.
pub open spec fn slice_texts(columns: Option<&[String]>) -> Option<Seq<Seq<char>>> {
    match columns {
        Some(names) => Some(texts(names@)),
        None => None,
    }
}

/// The row that an object becomes.
fn object_cells(entries: &Vec<(String, Json)>, columns: &Vec<String>) -> (r: Vec<String>)
    ensures
        texts(r@) == object_row(member_map(listed(entries@)), texts(columns@)),
{
    let ghost members = member_map(listed(entries@));
    let ghost names = texts(columns@);
    let mut row: Vec<String> = Vec::new();
    let mut i: usize = 0;
    while i < columns.len()
        invariant
            i <= columns.len(),
            row.len() == i,
            members == member_map(listed(entries@)),
            names == texts(columns@),
            forall|k: int|
                0 <= k < i ==> (#[trigger] row@[k])@ == object_row(members, names)[k],
        decreases columns.len() - i,
    {
        assert(names[i as int] == columns@[i as int]@);
        row.push(
            match member(entries, &columns[i]) {
                Some(value) => cell_to_string(value),
                None => String::new(),
            },
        );
        i = i + 1;
    }
    assert(texts(row@) =~= object_row(members, names));
    row
}

/// The row that an array becomes.
fn array_cells(items: &Vec<Json>) -> (r: Vec<String>)
    ensures
        texts(r@) == array_row(trees(items@)),
{
    let mut row: Vec<String> = Vec::new();
    let mut i: usize = 0;
    while i < items.len()
        invariant
            i <= items.len(),
            row.len() == i,
            forall|k: int| 0 <= k < i ==> (#[trigger] row@[k])@ == cell_text(items@[k]@),
        decreases items.len() - i,
    {
        row.push(cell_to_string(&items[i]));
        i = i + 1;
    }
    assert(texts(row@) =~= array_row(trees(items@)));
    row
}

/// What is said of the element at `position` that is not of the kind `kind`.
fn wrong_kind(position: usize, kind: &str) -> (r: String)
    ensures
        r@ == "json_to_csv: element "@ + decimal(position as nat) + kind@,
{
    let mut message = join("json_to_csv: element ", decimal_text(position).as_str());
    message.append(kind);
    message
}

/// The row that the element at `position` becomes: with columns it has to be an
/// object, without them an array.
pub fn row_of(element: &Json, position: usize, columns: Option<&Vec<String>>) -> (r: Result<
    Vec<String>,
    String,
>)
    ensures
        read_row(r) == element_row(
            element@,
            position as nat,
            match columns {
                Some(names) => Some(texts(names@)),
                None => None,
            },
        ),
{
    proof {
        lemma_json_view(*element);
    }
    match (columns, element) {
        (Some(names), Json::Object(entries)) => Ok(object_cells(entries, names)),
        (Some(_), _) => Err(wrong_kind(position, " is not an object")),
        (None, Json::Array(items)) => Ok(array_cells(items)),
        (None, _) => Err(wrong_kind(position, " is not an array")),
    }
}

/// Once an element gave an error, the elements after it do not count.
proof fn lemma_rows_error(
    rows: Seq<Seq<Seq<char>>>,
    elements: Seq<Tree>,
    columns: Option<Seq<Seq<char>>>,
    n: int,
)
    requires
        0 <= n <= elements.len(),
        rows_after(rows, elements.take(n), columns) is Err,
    ensures
        rows_after(rows, elements, columns) == rows_after(rows, elements.take(n), columns),
    decreases elements.len() - n,
{
    if n == elements.len() {
        assert(elements.take(n) =~= elements);
    } else {
        assert(elements.take(n + 1).drop_last() =~= elements.take(n));
        lemma_rows_error(rows, elements, columns, n + 1);
    }
}

/// Writes a row for each element, up to the first error.
fn write_elements(writer: CsvWriter, arr: &[Json], columns: Option<&Vec<String>>) -> (r: Result<
    CsvWriter,
    String,
>)
    ensures
        ({
            let names = match columns {
                Some(names) => Some(texts(names@)),
                None => None,
            };
            let rows = rows_after(written_rows(writer), trees(arr@), names);
            match r {
                Ok(after) => rows == Ok::<Seq<Seq<Seq<char>>>, Seq<char>>(written_rows(after))
                    && writer_delimiter(after) == writer_delimiter(writer),
                Err(e) => rows == Err::<Seq<Seq<Seq<char>>>, Seq<char>>(e@),
            }
        }),
{
    let ghost before = written_rows(writer);
    let ghost delimiter = writer_delimiter(writer);
    let ghost elements = trees(arr@);
    let ghost names = match columns {
        Some(names) => Some(texts(names@)),
        None => None,
    };
    let mut current = writer;
    let mut i: usize = 0;
    assert(elements.take(0) =~= Seq::<Tree>::empty());
    while i < arr.len()
        invariant
            i <= arr.len(),
            elements == trees(arr@),
            names == match columns {
                Some(names) => Some(texts(names@)),
                None => None,
            },
            before == written_rows(writer),
            rows_after(before, elements.take(i as int), names) == Ok::<
                Seq<Seq<Seq<char>>>,
                Seq<char>,
            >(written_rows(current)),
            writer_delimiter(current) == delimiter,
        decreases arr.len() - i,
    {
        assert(elements.take(i + 1).drop_last() =~= elements.take(i as int));
        assert(elements.take(i + 1).last() == arr@[i as int]@);
        let row = match row_of(&arr[i], i, columns) {
            Ok(row) => row,
            Err(e) => {
                proof {
                    lemma_rows_error(before, elements, names, i + 1);
                }
                return Err(e);
            },
        };
        current = match write_row(current, &row) {
            Ok(after) => after,
            Err(e) => {
                proof {
                    lemma_rows_error(before, elements, names, i + 1);
                }
                return Err(join("csv write row: ", e.as_str()));
            },
        };
        i = i + 1;
    }
    assert(elements.take(i as int) =~= elements);
    Ok(current)
}

/// Copies a list of names.
fn copied(names: &[String]) -> (r: Vec<String>)
    ensures
        texts(r@) == texts(names@),
{
    let mut copy: Vec<String> = Vec::new();
    let mut i: usize = 0;
    while i < names.len()
        invariant
            i <= names.len(),
            copy.len() == i,
            forall|k: int| 0 <= k < i ==> (#[trigger] copy@[k])@ == names@[k]@,
        decreases names.len() - i,
    {
        copy.push(names[i].clone());
        i = i + 1;
    }
    assert(texts(copy@) =~= texts(names@));
    copy
}

/// The string that the bytes of a writer are.
pub fn text_of(bytes: Vec<u8>) -> (r: Result<Json, String>)
    ensures
        outcome(r) == string_of(bytes@),
{
    match utf8_string(bytes) {
        Ok(text) => Ok(Json::Str(text)),
        Err(e) => Err(join("csv output not UTF-8: ", e.as_str())),
    }
}

/// Serialises an array to delimited text. An array of objects becomes rows
/// under an optional header row, with the given columns or the sorted union of
/// all names; an array of arrays becomes rows alone.
pub fn json_to_csv(
    target: &Json,
    delimiter: u8,
    has_headers: bool,
    columns: Option<&[String]>,
) -> (r: Result<Json, String>)
    ensures
        outcome(r) == json_to_csv_result(target@, delimiter, has_headers, slice_texts(columns)),
{
    proof {
        lemma_json_view(*target);
    }
    let arr: &Vec<Json> = match target {
        Json::Array(arr) => arr,
        _ => {
            return Err("json_to_csv: input value must be an array".to_owned());
        },
    };
    let ghost elements = trees(arr@);
    let mut writer = new_writer(delimiter);
    if arr.len() == 0 {
        return Ok(Json::Str(String::new()));
    }
    assert(elements[0] == arr@[0]@);
    let object_mode: bool = match &arr[0] {
        Json::Object(_) => true,
        Json::Array(_) => false,
        other => {
            return Err(
                join(
                    "json_to_csv: array elements must be objects or arrays, found ",
                    kind_of(other),
                ),
            );
        },
    };
    if object_mode {
        let names: Vec<String> = match columns {
            Some(given) => copied(given),
            None => match union_keys(arr.as_slice()) {
                Ok(names) => names,
                Err(e) => {
                    return Err(e);
                },
            },
        };
        if has_headers {
            writer = match write_row(writer, &names) {
                Ok(after) => after,
                Err(e) => {
                    return Err(join("csv write header: ", e.as_str()));
                },
            };
            assert(written_rows(writer) =~= seq![texts(names@)]);
        }
        writer = match write_elements(writer, arr.as_slice(), Some(&names)) {
            Ok(after) => after,
            Err(e) => {
                return Err(e);
            },
        };
    } else {
        writer = match write_elements(writer, arr.as_slice(), None) {
            Ok(after) => after,
            Err(e) => {
                return Err(e);
            },
        };
    }
    let bytes: Vec<u8> = match finish(writer) {
        Ok(bytes) => bytes,
        Err(e) => {
            return Err(join("csv flush: ", e.as_str()));
        },
    };
    proof {
        let text = csv_text(written_rows(writer), delimiter as char);
        encode_utf8_valid_utf8(text);
        encode_utf8_decode_utf8(text);
    }
    text_of(bytes)
}

} // verus!
