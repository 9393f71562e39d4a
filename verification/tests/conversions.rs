use csv_transform::config::{ascii_byte, default_max_output_bytes};
use csv_transform::document::{insert_member, kind_of, member, Json};
use csv_transform::reading::{array_of, csv_to_json, object_of, rows_of};
use csv_transform::text::{decimal_text, join, string_precedes};
use csv_transform::transform::check_size;
use csv_transform::writing::{cell_to_string, json_to_csv, row_of, text_of, union_keys};

fn document(text: &str) -> Json {
    Json::from_value(serde_json::from_str(text).unwrap())
}

fn items(text: &str) -> Vec<Json> {
    match document(text) {
        Json::Array(items) => items,
        other => panic!("expected an array, got {other:?}"),
    }
}

fn strings(names: &[&str]) -> Vec<String> {
    names.iter().map(|name| name.to_string()).collect()
}

fn text(s: &str) -> Result<Json, String> {
    Ok(Json::Str(s.to_owned()))
}

#[test]
fn numerals_are_decimal() {
    assert_eq!(decimal_text(0), "0");
    assert_eq!(decimal_text(9), "9");
    assert_eq!(decimal_text(10), "10");
    assert_eq!(decimal_text(1_048_576), "1048576");
    assert_eq!(decimal_text(usize::MAX), usize::MAX.to_string());
    assert_eq!(join("a", "b"), "ab");
}

#[test]
fn strings_are_ordered_by_code_point() {
    assert!(string_precedes("", "a"));
    assert!(string_precedes("a", "aa"));
    assert!(string_precedes("Z", "a"));
    assert!(string_precedes("z", "é"));
    assert!(string_precedes("\u{ffff}", "\u{10000}"));
    assert!(!string_precedes("a", "a"));
    assert!(!string_precedes("b", "a"));
}

#[test]
fn delimiters_are_ascii_bytes() {
    assert_eq!(ascii_byte(','), Some(b','));
    assert_eq!(ascii_byte('\u{7f}'), Some(0x7f));
    assert_eq!(ascii_byte('\u{80}'), None);
    assert_eq!(ascii_byte('€'), None);
    assert_eq!(default_max_output_bytes(), 1_048_576);
}

#[test]
fn kinds_have_names() {
    assert_eq!(kind_of(&Json::Null), "null");
    assert_eq!(kind_of(&document("true")), "bool");
    assert_eq!(kind_of(&document("1")), "number");
    assert_eq!(kind_of(&document("\"\"")), "string");
    assert_eq!(kind_of(&document("[]")), "array");
    assert_eq!(kind_of(&document("{}")), "object");
}

#[test]
fn members_are_replaced_and_found() {
    let mut entries = Vec::new();
    insert_member(&mut entries, "a".to_owned(), Json::Bool(true));
    insert_member(&mut entries, "b".to_owned(), Json::Null);
    insert_member(&mut entries, "a".to_owned(), Json::Bool(false));
    assert_eq!(member(&entries, &"a".to_owned()), Some(&Json::Bool(false)));
    assert_eq!(member(&entries, &"b".to_owned()), Some(&Json::Null));
    assert_eq!(member(&entries, &"c".to_owned()), None);
    assert_eq!(
        Json::Object(entries).to_value(),
        document(r#"{ "a": false, "b": null }"#).to_value()
    );
}

#[test]
fn documents_survive_the_way_through_serde_json() {
    let source = r#"{"a":[null,true,-1,2.5,"x"],"b":{"c":{}},"d":[]}"#;
    let value: serde_json::Value = serde_json::from_str(source).unwrap();
    assert_eq!(Json::from_value(value.clone()).to_value(), value);
    let twice = Json::Object(vec![
        ("k".to_owned(), Json::Null),
        ("k".to_owned(), Json::Bool(true)),
    ]);
    assert_eq!(twice.to_value(), serde_json::from_str::<serde_json::Value>(r#"{"k":true}"#).unwrap());
}

#[test]
fn cells_have_natural_text() {
    assert_eq!(cell_to_string(&Json::Null), "");
    assert_eq!(cell_to_string(&document("true")), "true");
    assert_eq!(cell_to_string(&document("false")), "false");
    assert_eq!(cell_to_string(&document("-12")), "-12");
    assert_eq!(cell_to_string(&document("2.5")), "2.5");
    assert_eq!(cell_to_string(&document(r#""a \"b\"""#)), "a \"b\"");
    assert_eq!(cell_to_string(&document("[1, \"x\", null]")), "[1,\"x\",null]");
    assert_eq!(
        cell_to_string(&document(r#"{ "b": [], "a": { "c": "\n" } }"#)),
        r#"{"a":{"c":"\n"},"b":[]}"#
    );
}

#[test]
fn nested_cells_are_quoted_compact_json() {
    assert_eq!(
        json_to_csv(&document(r#"[{ "x": { "k": [1, 2] } }]"#), b',', true, None),
        text("x\n\"{\"\"k\"\":[1,2]}\"\n")
    );
}

#[test]
fn the_union_of_names_is_sorted() {
    assert_eq!(
        union_keys(&items(r#"[{ "b": 1, "é": 1 }, {}, { "a": 1, "b": 2, "B": 3 }]"#)),
        Ok(strings(&["B", "a", "b", "é"]))
    );
    assert_eq!(union_keys(&[]), Ok(vec![]));
    assert_eq!(
        union_keys(&items(r#"[{}, [], 1]"#)),
        Err("json_to_csv: element 1 is not an object".to_owned())
    );
}

#[test]
fn records_become_objects_with_the_column_names() {
    let headers = strings(&["a", "b", "a"]);
    assert_eq!(
        object_of(&headers, &strings(&["1", "2", "3", "4"])).to_value(),
        document(r#"{ "a": "3", "b": "2" }"#).to_value()
    );
    assert_eq!(
        object_of(&headers, &strings(&["1"])).to_value(),
        document(r#"{ "a": "", "b": "" }"#).to_value()
    );
    assert_eq!(
        array_of(&strings(&["1", ""])).to_value(),
        document(r#"["1", ""]"#).to_value()
    );
}

#[test]
fn the_first_error_of_the_reader_counts() {
    assert_eq!(
        rows_of(Some(Err("bad header".to_owned())), vec![Err("bad".to_owned())]),
        Err("csv header: bad header".to_owned())
    );
    assert_eq!(
        rows_of(
            Some(Ok(strings(&["a"]))),
            vec![Ok(strings(&["1"])), Err("first".to_owned()), Err("second".to_owned())]
        ),
        Err("csv record: first".to_owned())
    );
    assert_eq!(
        rows_of(None, vec![Err("bad".to_owned()), Ok(strings(&["1"]))]),
        Err("csv record: bad".to_owned())
    );
    assert_eq!(
        rows_of(None, vec![Ok(strings(&["1", "2"]))]).unwrap().to_value(),
        document(r#"[["1", "2"]]"#).to_value()
    );
}

#[test]
fn text_is_read_with_any_line_end() {
    for end in ["\n", "\r\n", "\r"] {
        let source = Json::Str(format!("a,b{end}1,\"x{end}y\"{end}"));
        let expected = Json::Array(vec![Json::Object(vec![
            ("a".to_owned(), Json::Str("1".to_owned())),
            ("b".to_owned(), Json::Str(format!("x{end}y"))),
        ])]);
        assert_eq!(csv_to_json(&source, b',', true).unwrap().to_value(), expected.to_value());
    }
}

#[test]
fn quotes_are_read_back() {
    let source = Json::Str("\"a\"\"b\",c\n\"\"\n\"\",\n".to_owned());
    assert_eq!(
        csv_to_json(&source, b',', false).unwrap().to_value(),
        document(r#"[["a\"b", "c"], [""], ["", ""]]"#).to_value()
    );
}

#[test]
fn empty_text_has_no_rows() {
    for has_headers in [true, false] {
        assert_eq!(
            csv_to_json(&Json::Str(String::new()), b',', has_headers).unwrap().to_value(),
            document("[]").to_value()
        );
    }
    assert_eq!(
        csv_to_json(&Json::Str("a,b\n".to_owned()), b',', true).unwrap().to_value(),
        document("[]").to_value()
    );
}

#[test]
fn long_records_lose_the_cells_beyond_the_columns() {
    assert_eq!(
        csv_to_json(&Json::Str("a\n1,2\n".to_owned()), b',', true).unwrap().to_value(),
        document(r#"[{ "a": "1" }]"#).to_value()
    );
}

#[test]
fn reading_needs_a_string() {
    assert_eq!(
        csv_to_json(&document("[]"), b',', true),
        Err("csv_to_json: input value must be a string".to_owned())
    );
}

#[test]
fn cells_are_quoted_where_needed() {
    let rows = document(r#"[["plain", "a,b", "a\"b", "a\nb", "a\rb", " ", ";"]]"#);
    assert_eq!(
        json_to_csv(&rows, b',', true, None),
        text("plain,\"a,b\",\"a\"\"b\",\"a\nb\",\"a\rb\", ,;\n")
    );
    assert_eq!(
        json_to_csv(&document(r#"[["a,b", ";", "é"]]"#), b';', true, None),
        text("a,b;\";\";é\n")
    );
}

#[test]
fn blank_rows_are_written_as_quotes() {
    assert_eq!(json_to_csv(&document(r#"[[""], [null]]"#), b',', true, None), text("\"\"\n\"\"\n"));
    assert_eq!(json_to_csv(&document("[[]]"), b',', true, None), text("\"\"\n"));
    assert_eq!(json_to_csv(&document("[{}]"), b',', true, None), text("\"\"\n\"\"\n"));
}

#[test]
fn arrays_ignore_headers_and_columns() {
    let rows = document(r#"[["a", 1], [true, null]]"#);
    let names = strings(&["x"]);
    for has_headers in [true, false] {
        for columns in [None, Some(names.as_slice())] {
            assert_eq!(json_to_csv(&rows, b',', has_headers, columns), text("a,1\ntrue,\n"));
        }
    }
}

#[test]
fn repeated_columns_are_repeated() {
    let names = strings(&["a", "a", "z"]);
    assert_eq!(
        json_to_csv(&document(r#"[{ "a": "1", "b": "2" }]"#), b',', true, Some(&names)),
        text("a,a,z\n1,1,\n")
    );
}

#[test]
fn the_first_element_decides_the_shape() {
    for (element, kind) in [("null", "null"), ("true", "bool"), ("1", "number"), ("\"a\"", "string")] {
        assert_eq!(
            json_to_csv(&document(&format!("[{element}, []]")), b',', true, None),
            Err(format!(
                "json_to_csv: array elements must be objects or arrays, found {kind}"
            ))
        );
    }
    assert_eq!(
        json_to_csv(&document("[[], [], {}]"), b',', true, None),
        Err("json_to_csv: element 2 is not an array".to_owned())
    );
    let names = strings(&["a"]);
    for columns in [None, Some(names.as_slice())] {
        assert_eq!(
            json_to_csv(&document(r#"[{ "a": 1 }, [], null]"#), b',', true, columns),
            Err("json_to_csv: element 1 is not an object".to_owned())
        );
    }
}

#[test]
fn rows_have_one_length() {
    assert_eq!(
        json_to_csv(&document(r#"[["a", "b"], ["c"]]"#), b',', true, None),
        Err(
            "csv write row: CSV error: found record with 1 fields, but the previous record has 2 fields"
                .to_owned()
        )
    );
}

#[test]
fn elements_become_rows() {
    let names = strings(&["b", "a", "c"]);
    assert_eq!(
        row_of(&document(r#"{ "a": "1", "b": [] }"#), 0, Some(&names)),
        Ok(strings(&["[]", "1", ""]))
    );
    assert_eq!(row_of(&document("[1, null]"), 0, None), Ok(strings(&["1", ""])));
    assert_eq!(
        row_of(&document("[]"), 12, Some(&names)),
        Err("json_to_csv: element 12 is not an object".to_owned())
    );
    assert_eq!(
        row_of(&document("{}"), 3, None),
        Err("json_to_csv: element 3 is not an array".to_owned())
    );
}

#[test]
fn a_delimiter_beyond_ascii_breaks_the_text() {
    let e = json_to_csv(&document(r#"[["a", "b"]]"#), 0xff, true, None).unwrap_err();
    assert_eq!(e, "csv output not UTF-8: invalid utf-8 sequence of 1 bytes from index 1");
}

#[test]
fn bytes_become_text_where_they_are_utf8() {
    assert_eq!(text_of(vec![0xc3, 0xa9]), text("é"));
    assert_eq!(
        text_of(vec![b'a', 0xc3]),
        Err("csv output not UTF-8: incomplete utf-8 byte sequence from index 1".to_owned())
    );
}

#[test]
fn sizes_are_checked_in_bytes() {
    assert_eq!(check_size("é", 2), Ok(()));
    assert_eq!(
        check_size("é", 1),
        Err("csv output 2 bytes exceeds max_output_bytes (1)".to_owned())
    );
    assert_eq!(check_size("", 0), Ok(()));
}

#[test]
fn a_leading_byte_order_mark_is_not_read_back() {
    let rows = document("[{ \"\u{feff}a\": \"1\" }]");
    let written = json_to_csv(&rows, b',', true, None).unwrap();
    assert_eq!(
        csv_to_json(&written, b',', true).unwrap().to_value(),
        document(r#"[{ "a": "1" }]"#).to_value()
    );
}

#[test]
fn tables_of_odd_texts_are_read_back() {
    let rows = document(
        r#"[{ "": "\"", "a b": ",\r\n" }, { "": "", "a b": " x " }, { "": "\u0000", "a b": "é" }]"#,
    );
    for delimiter in [b',', b';', b'\t', b'|', b' ', b'a', 0u8, 0x7f] {
        let written = json_to_csv(&rows, delimiter, true, None).unwrap();
        assert_eq!(
            csv_to_json(&written, delimiter, true).unwrap().to_value(),
            rows.to_value()
        );
    }
}

fn read_back(rows: &Json, delimiter: u8, has_headers: bool) -> Json {
    let written = json_to_csv(rows, delimiter, has_headers, None).unwrap();
    csv_to_json(&written, delimiter, has_headers).unwrap()
}

#[test]
fn a_carriage_return_can_delimit() {
    let rows = document(r#"[["a", "", "b\rc"], ["\r", "\n", ""]]"#);
    assert_eq!(read_back(&rows, b'\r', false).to_value(), rows.to_value());
    let single = document(r#"[{ "a": "" }, { "a": "1" }]"#);
    assert_eq!(read_back(&single, b'\r', true).to_value(), single.to_value());
    let blank_start = document(r#"[["", "b"]]"#);
    assert_eq!(
        read_back(&blank_start, b'\r', false).to_value(),
        document(r#"[["b"]]"#).to_value()
    );
}

#[test]
fn a_quote_can_delimit() {
    let rows = document(r#"[["a", "b", "x\"\ny"], ["c", "d", ""]]"#);
    assert_eq!(read_back(&rows, b'"', false).to_value(), rows.to_value());
    let single = document(r#"[{ "a\"": "" }, { "a\"": "\r" }]"#);
    assert_eq!(read_back(&single, b'"', true).to_value(), single.to_value());
    let quoted_start = document(r#"[["x\n", "b"]]"#);
    assert_ne!(read_back(&quoted_start, b'"', false).to_value(), quoted_start.to_value());
}

#[test]
fn an_empty_array_is_read_back_with_any_delimiter() {
    for delimiter in [b',', b'\n', b'\r', b'"', 0xff] {
        for has_headers in [true, false] {
            assert_eq!(
                read_back(&document("[]"), delimiter, has_headers).to_value(),
                document("[]").to_value()
            );
        }
    }
}

#[test]
fn a_newline_does_not_delimit() {
    let rows = document(r#"[["a"]]"#);
    assert_eq!(
        read_back(&rows, b'\n', false).to_value(),
        document(r#"[["a", ""]]"#).to_value()
    );
}

#[test]
fn objects_without_members_are_not_read_back() {
    assert_eq!(
        read_back(&document("[{}]"), b',', true).to_value(),
        document(r#"[{ "": "" }]"#).to_value()
    );
}

#[test]
fn quotes_without_need_and_a_missing_last_line_end_are_read() {
    let source = Json::Str("\"a\",b\r\n1,\"\"\n\"2\",x".to_owned());
    assert_eq!(
        csv_to_json(&source, b',', true).unwrap().to_value(),
        document(r#"[{ "a": "1", "b": "" }, { "a": "2", "b": "x" }]"#).to_value()
    );
    for (text, row) in [("a,", r#"[["a", ""]]"#), ("\"\"", r#"[[""]]"#), ("a", r#"[["a"]]"#)] {
        assert_eq!(
            csv_to_json(&Json::Str(text.to_owned()), b',', false).unwrap().to_value(),
            document(row).to_value()
        );
    }
}

#[test]
fn every_text_is_read_with_an_ascii_delimiter() {
    for text in ["", "\n\r\n", "\"open", "a\"b,\"c\"d\n,,\n", "é,\u{feff}\n€", "\u{0}"] {
        for has_headers in [true, false] {
            for delimiter in [b',', b'"', b'\n', b'\r', 0x7f] {
                assert!(csv_to_json(&Json::Str(text.to_owned()), delimiter, has_headers).is_ok());
            }
        }
    }
}

#[test]
fn the_header_row_is_the_first_row() {
    let text = Json::Str("a,b,a\n1,2,3,4\n\n\"5\" ,6".to_owned());
    assert_eq!(
        csv_to_json(&text, b',', false).unwrap().to_value(),
        document(r#"[["a", "b", "a"], ["1", "2", "3", "4"], ["5 ", "6"]]"#).to_value()
    );
    assert_eq!(
        csv_to_json(&text, b',', true).unwrap().to_value(),
        document(r#"[{ "a": "3", "b": "2" }, { "a": "", "b": "6" }]"#).to_value()
    );
}

#[test]
fn a_record_that_is_no_utf8_is_named_by_its_position() {
    let text = Json::Str("a\né\n".to_owned());
    let e = csv_to_json(&text, 0xc3, true).unwrap_err();
    assert_eq!(
        e,
        "csv record: CSV parse error: record 1 (line 2, field: 1, byte: 2): \
            invalid utf-8: invalid UTF-8 in field 1 near byte index 0"
    );
    let header = Json::Str("é\n".to_owned());
    let e = csv_to_json(&header, 0xc3, true).unwrap_err();
    assert!(e.starts_with("csv header: CSV parse error: record 0 "), "{e}");
}

#[test]
fn numbers_are_written_in_their_json_form() {
    for number in ["0", "-7", "18446744073709551615", "0.1", "1e100", "-2.5e-8"] {
        let json = document(number);
        assert_eq!(cell_to_string(&json), serde_json::to_string(&json.to_value()).unwrap());
    }
}
