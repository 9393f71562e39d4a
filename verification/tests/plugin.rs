use csv_transform::config::{
    default_delimiter, default_max_output_bytes, default_true, CsvConfig, Direction, Phase,
};
use csv_transform::document::Json;
use csv_transform::transform::{CsvTransform, PluginClass, TransformResult};
use serde_json::Value;

fn json(text: &str) -> Value {
    serde_json::from_str(text).unwrap()
}

fn document(text: &str) -> Json {
    Json::from_value(json(text))
}

fn string(text: &str) -> Json {
    Json::Str(text.to_owned())
}

fn options(direction: Direction) -> CsvConfig {
    CsvConfig {
        direction,
        has_headers: default_true(),
        delimiter: default_delimiter(),
        columns: None,
        pointer: None,
        phase: Phase::default(),
        max_output_bytes: default_max_output_bytes(),
    }
}

fn csv_to_json() -> CsvConfig {
    options(Direction::CsvToJson)
}

fn json_to_csv() -> CsvConfig {
    options(Direction::JsonToCsv)
}

fn columns(names: &[&str]) -> Option<Vec<String>> {
    Some(names.iter().map(|name| name.to_string()).collect())
}

fn modified(r: TransformResult) -> Value {
    match r {
        TransformResult::Modified { value } => value.to_value(),
        other => panic!("expected Modified, got {other:?}"),
    }
}

fn error_msg(r: TransformResult) -> String {
    match r {
        TransformResult::Error { message } => message,
        other => panic!("expected Error, got {other:?}"),
    }
}

#[test]
fn csv_to_json_with_headers_yields_row_objects() {
    let p = CsvTransform::new("{}");
    let input = string("name,age\r\nalice,30\r\nbob,25\r\n");
    let out = modified(p.transform_result(&input, &Ok(csv_to_json())));
    assert_eq!(
        out,
        json(r#"[{ "name": "alice", "age": "30" }, { "name": "bob", "age": "25" }]"#)
    );
}

#[test]
fn csv_to_json_headerless_yields_arrays() {
    let p = CsvTransform::new("{}");
    let cfg = CsvConfig { has_headers: false, ..csv_to_json() };
    let out = modified(p.transform_result(&string("alice,30\nbob,25\n"), &Ok(cfg)));
    assert_eq!(out, json(r#"[["alice", "30"], ["bob", "25"]]"#));
}

#[test]
fn csv_to_json_honours_custom_delimiter_and_quoting() {
    let p = CsvTransform::new("{}");
    let cfg = CsvConfig { delimiter: ';', ..csv_to_json() };
    let input = string("a;b\r\n\"x;y\";\"has,comma\"\r\n");
    let out = modified(p.transform_result(&input, &Ok(cfg)));
    assert_eq!(out, json(r#"[{ "a": "x;y", "b": "has,comma" }]"#));
}

#[test]
fn csv_to_json_ragged_row_pads_missing_cells() {
    let p = CsvTransform::new("{}");
    let out = modified(p.transform_result(&string("a,b,c\r\n1,2\r\n"), &Ok(csv_to_json())));
    assert_eq!(out, json(r#"[{ "a": "1", "b": "2", "c": "" }]"#));
}

#[test]
fn csv_to_json_rejects_non_string_input() {
    let p = CsvTransform::new("{}");
    let input = document(r#"{ "not": "a string" }"#);
    let msg = error_msg(p.transform_result(&input, &Ok(csv_to_json())));
    assert!(msg.contains("must be a string"), "{msg}");
}

#[test]
fn json_to_csv_objects_with_explicit_columns() {
    let p = CsvTransform::new("{}");
    let cfg = CsvConfig { columns: columns(&["name", "age"]), ..json_to_csv() };
    let input = document(
        r#"[{ "age": "30", "name": "alice" }, { "name": "bob", "age": "25" }]"#,
    );
    let out = modified(p.transform_result(&input, &Ok(cfg)));
    assert_eq!(out, Value::String("name,age\nalice,30\nbob,25\n".to_owned()));
}

#[test]
fn json_to_csv_objects_derive_sorted_union_columns() {
    let p = CsvTransform::new("{}");
    let input = document(
        r#"[{ "name": "alice", "age": "30" }, { "name": "bob", "city": "NYC" }]"#,
    );
    let out = modified(p.transform_result(&input, &Ok(json_to_csv())));
    assert_eq!(out, Value::String("age,city,name\n30,,alice\n,NYC,bob\n".to_owned()));
}

#[test]
fn json_to_csv_quotes_cells_with_delimiter_and_renders_scalars() {
    let p = CsvTransform::new("{}");
    let cfg = CsvConfig { columns: columns(&["s", "n", "b", "z"]), ..json_to_csv() };
    let input = document(r#"[{ "s": "has,comma", "n": 42, "b": true, "z": null }]"#);
    let out = modified(p.transform_result(&input, &Ok(cfg)));
    assert_eq!(out, Value::String("s,n,b,z\n\"has,comma\",42,true,\n".to_owned()));
}

#[test]
fn json_to_csv_arrays_without_header() {
    let p = CsvTransform::new("{}");
    let input = document(r#"[["a", "b"], ["c", "d"]]"#);
    let out = modified(p.transform_result(&input, &Ok(json_to_csv())));
    assert_eq!(out, Value::String("a,b\nc,d\n".to_owned()));
}

#[test]
fn json_to_csv_objects_can_suppress_header() {
    let p = CsvTransform::new("{}");
    let cfg = CsvConfig { columns: columns(&["x"]), has_headers: false, ..json_to_csv() };
    let input = document(r#"[{ "x": "1" }, { "x": "2" }]"#);
    let out = modified(p.transform_result(&input, &Ok(cfg)));
    assert_eq!(out, Value::String("1\n2\n".to_owned()));
}

#[test]
fn json_to_csv_empty_array_is_empty_string() {
    let p = CsvTransform::new("{}");
    let out = modified(p.transform_result(&document("[]"), &Ok(json_to_csv())));
    assert_eq!(out, Value::String(String::new()));
}

#[test]
fn json_to_csv_rejects_non_array_input() {
    let p = CsvTransform::new("{}");
    let msg = error_msg(p.transform_result(&string("nope"), &Ok(json_to_csv())));
    assert!(msg.contains("must be an array"), "{msg}");
}

#[test]
fn round_trips_objects_through_csv_and_back() {
    let p = CsvTransform::new("{}");
    let rows = json(r#"[{ "a": "1", "b": "2" }, { "a": "3", "b": "4" }]"#);
    let to_csv =
        modified(p.transform_result(&Json::from_value(rows.clone()), &Ok(json_to_csv())));
    let back = modified(p.transform_result(&Json::from_value(to_csv), &Ok(csv_to_json())));
    assert_eq!(back, rows);
}

#[test]
fn pointer_transforms_subfield_and_preserves_rest() {
    let p = CsvTransform::new("{}");
    let cfg = CsvConfig { pointer: Some("/data".to_owned()), ..csv_to_json() };
    let input = document(r#"{ "data": "a,b\r\n1,2\r\n", "meta": { "rows": 1 } }"#);
    let out = modified(p.transform_result(&input, &Ok(cfg)));
    assert_eq!(
        out,
        json(r#"{ "data": [{ "a": "1", "b": "2" }], "meta": { "rows": 1 } }"#)
    );
}

#[test]
fn pointer_not_found_is_error() {
    let p = CsvTransform::new("{}");
    let cfg = CsvConfig { pointer: Some("/missing".to_owned()), ..csv_to_json() };
    let msg = error_msg(p.transform_result(&document(r#"{ "data": "a\n1\n" }"#), &Ok(cfg)));
    assert!(msg.contains("not found"), "{msg}");
}

#[test]
fn phase_result_skips_arguments_phase() {
    let p = CsvTransform::new("{}");
    let cfg = Ok(CsvConfig { phase: Phase::Result, ..csv_to_json() });
    assert!(matches!(
        p.transform_arguments(&string("a\n1\n"), &cfg),
        TransformResult::Unchanged
    ));
    assert!(matches!(
        p.transform_result(&string("a\n1\n"), &cfg),
        TransformResult::Modified { .. }
    ));
}

#[test]
fn rejects_unknown_config_field() {
    let p = CsvTransform::new("{}");
    let problem = "unknown field `bogus`, expected one of `direction`, `has_headers`, \
        `delimiter`, `columns`, `pointer`, `phase`, `max_output_bytes`";
    let msg = error_msg(p.transform_result(&string("a\n1\n"), &Err(problem.to_owned())));
    assert!(msg.contains("config"), "{msg}");
    assert_eq!(msg, format!("csv transform config: {problem}"));
}

#[test]
fn rejects_non_ascii_delimiter() {
    let p = CsvTransform::new("{}");
    let cfg = CsvConfig { delimiter: '€', ..csv_to_json() };
    let msg = error_msg(p.transform_result(&string("a\n1\n"), &Ok(cfg)));
    assert!(msg.contains("ASCII"), "{msg}");
    assert_eq!(msg, "delimiter '€' must be a single ASCII byte");
}

#[test]
fn enforces_max_output_bytes() {
    let p = CsvTransform::new("{}");
    let cfg = CsvConfig { max_output_bytes: 4, ..csv_to_json() };
    let msg = error_msg(p.transform_result(&string("name,age\r\nalice,30\r\n"), &Ok(cfg)));
    assert!(msg.contains("max_output_bytes"), "{msg}");
    // [{"age":"30","name":"alice"}]
    assert_eq!(msg, "csv output 29 bytes exceeds max_output_bytes (4)");
}

#[test]
fn the_limit_itself_is_allowed() {
    let p = CsvTransform::new("{}");
    let input = string("name,age\r\nalice,30\r\n");
    let exact = CsvConfig { max_output_bytes: 29, ..csv_to_json() };
    assert!(matches!(p.transform_result(&input, &Ok(exact)), TransformResult::Modified { .. }));
    let less = CsvConfig { max_output_bytes: 28, ..csv_to_json() };
    assert!(matches!(p.transform_result(&input, &Ok(less)), TransformResult::Error { .. }));
}

#[test]
fn the_limit_counts_bytes_not_characters() {
    let p = CsvTransform::new("{}");
    // [["é"]] is seven characters and eight bytes long.
    let cfg = CsvConfig { has_headers: false, max_output_bytes: 7, ..csv_to_json() };
    let msg = error_msg(p.transform_result(&string("é\n"), &Ok(cfg)));
    assert_eq!(msg, "csv output 8 bytes exceeds max_output_bytes (7)");
}

#[test]
fn the_limit_bounds_the_part_and_not_the_whole() {
    let p = CsvTransform::new("{}");
    let input = document(r#"{ "part": [], "rest": "a long text beside the part" }"#);
    let cfg = CsvConfig {
        pointer: Some("/part".to_owned()),
        max_output_bytes: 2,
        ..json_to_csv()
    };
    assert_eq!(
        modified(p.transform_result(&input, &Ok(cfg))),
        json(r#"{ "part": "", "rest": "a long text beside the part" }"#)
    );
}

#[test]
fn manifest_names_the_plugin() {
    let p = CsvTransform::new("not even JSON");
    assert_eq!(p.manifest().id, "dev.mcpg.transform.csv");
    assert_eq!(p.manifest().name, "CSV Transform");
    assert_eq!(p.manifest().class, PluginClass::Transform);
    assert!(p.manifest().required_capabilities.is_empty());
}

#[test]
fn the_empty_pointer_is_no_pointer() {
    let p = CsvTransform::new("{}");
    let cfg = CsvConfig { pointer: Some(String::new()), ..csv_to_json() };
    let input = string("a\n1\n");
    assert_eq!(
        p.transform_result(&input, &Ok(cfg)),
        p.transform_result(&input, &Ok(csv_to_json()))
    );
}

#[test]
fn a_pointer_that_is_not_found_is_quoted() {
    let p = CsvTransform::new("{}");
    let cfg = CsvConfig { pointer: Some("/a\"b".to_owned()), ..csv_to_json() };
    let msg = error_msg(p.transform_result(&document("{}"), &Ok(cfg)));
    assert_eq!(msg, "pointer \"/a\\\"b\" not found in value");
    let bare = CsvConfig { pointer: Some("data".to_owned()), ..csv_to_json() };
    let msg = error_msg(p.transform_result(&document(r#"{ "data": "a\n" }"#), &Ok(bare)));
    assert_eq!(msg, "pointer \"data\" not found in value");
}

#[test]
fn pointers_unescape_names_and_index_arrays() {
    let p = CsvTransform::new("{}");
    let cfg = CsvConfig { pointer: Some("/a~1b~0c/1".to_owned()), ..csv_to_json() };
    let input = document(r#"{ "a/b~c": ["x", "h\nv\n"], "other": null }"#);
    assert_eq!(
        modified(p.transform_result(&input, &Ok(cfg))),
        json(r#"{ "a/b~c": ["x", [{ "h": "v" }]], "other": null }"#)
    );
    let leading_zero = CsvConfig { pointer: Some("/0/01".to_owned()), ..csv_to_json() };
    let msg = error_msg(p.transform_result(&document(r#"[["a", "b"]]"#), &Ok(leading_zero)));
    assert_eq!(msg, "pointer \"/0/01\" not found in value");
}

#[test]
fn both_directions_reject_an_object() {
    let p = CsvTransform::new("{}");
    let context = document(r#"{ "arguments": {}, "steps": {} }"#);
    assert_eq!(
        error_msg(p.transform_result(&context, &Ok(csv_to_json()))),
        "csv_to_json: input value must be a string"
    );
    assert_eq!(
        error_msg(p.transform_result(&context, &Ok(json_to_csv()))),
        "json_to_csv: input value must be an array"
    );
}

#[test]
fn arguments_phase_is_a_no_op_on_results() {
    let p = CsvTransform::new("{}");
    let cfg = Ok(CsvConfig { phase: Phase::Arguments, delimiter: '€', ..csv_to_json() });
    assert_eq!(p.transform_result(&string("a\n1\n"), &cfg), TransformResult::Unchanged);
    assert!(matches!(
        p.transform_arguments(&string("a\n1\n"), &cfg),
        TransformResult::Error { .. }
    ));
}

#[test]
fn a_pointed_at_table_is_restored_with_its_surroundings() {
    let p = CsvTransform::new("{}");
    let payload = json(
        r#"{ "steps": { "fetch": [{ "id": "1", "note": "a;\"b\"\nc" }] }, "n": [1, 2.5] }"#,
    );
    let pointer = Some("/steps/fetch".to_owned());
    let there = CsvConfig { pointer: pointer.clone(), delimiter: ';', ..json_to_csv() };
    let back = CsvConfig { pointer, delimiter: ';', ..csv_to_json() };
    let text = modified(p.transform_arguments(&Json::from_value(payload.clone()), &Ok(there)));
    assert_eq!(text["steps"]["fetch"], "id;note\n1;\"a;\"\"b\"\"\nc\"\n");
    assert_eq!(modified(p.transform_result(&Json::from_value(text), &Ok(back))), payload);
}

#[test]
fn string_arrays_are_restored_without_a_header() {
    let p = CsvTransform::new("{}");
    let rows = json(r#"[["", ""], ["x", "y,z"]]"#);
    let there = CsvConfig { has_headers: false, ..json_to_csv() };
    let back = CsvConfig { has_headers: false, ..csv_to_json() };
    let text = modified(p.transform_result(&Json::from_value(rows.clone()), &Ok(there)));
    assert_eq!(text, Value::String(",\nx,\"y,z\"\n".to_owned()));
    assert_eq!(modified(p.transform_result(&Json::from_value(text), &Ok(back))), rows);
}

#[test]
fn objects_with_different_names_come_back_padded() {
    let p = CsvTransform::new("{}");
    let rows = document(r#"[{ "a": "1" }, { "b": "2" }]"#);
    let text = modified(p.transform_result(&rows, &Ok(json_to_csv())));
    assert_eq!(
        modified(p.transform_result(&Json::from_value(text), &Ok(csv_to_json()))),
        json(r#"[{ "a": "1", "b": "" }, { "a": "", "b": "2" }]"#)
    );
}

#[test]
fn an_escaped_pointer_finds_its_place_again() {
    let p = CsvTransform::new("{}");
    let payload = json(r#"{ "a/b": { "~": [{ "k": "v" }] }, "a": { "b": 1 } }"#);
    let pointer = Some("/a~1b/~0".to_owned());
    let there = CsvConfig { pointer: pointer.clone(), ..json_to_csv() };
    let back = CsvConfig { pointer, ..csv_to_json() };
    let text = modified(p.transform_result(&Json::from_value(payload.clone()), &Ok(there)));
    assert_eq!(text["a/b"]["~"], "k\nv\n");
    assert_eq!(modified(p.transform_result(&Json::from_value(text), &Ok(back))), payload);
}

#[test]
fn a_tilde_without_escape_stands_for_itself() {
    let p = CsvTransform::new("{}");
    let cfg = CsvConfig { pointer: Some("/a~b~".to_owned()), ..json_to_csv() };
    assert_eq!(
        modified(p.transform_result(&document(r#"{ "a~b~": [] }"#), &Ok(cfg))),
        json(r#"{ "a~b~": "" }"#)
    );
    let missing = CsvConfig { pointer: Some("/a~0b".to_owned()), ..json_to_csv() };
    assert_eq!(
        error_msg(p.transform_result(&document(r#"{ "a~0b": [] }"#), &Ok(missing))),
        "pointer \"/a~0b\" not found in value"
    );
}

#[test]
fn the_later_of_two_members_is_pointed_at() {
    let p = CsvTransform::new("{}");
    let value = Json::Object(vec![
        ("k".to_owned(), string("a\n1\n")),
        ("k".to_owned(), Json::Array(vec![])),
    ]);
    let cfg = CsvConfig { pointer: Some("/k".to_owned()), ..json_to_csv() };
    assert_eq!(modified(p.transform_result(&value, &Ok(cfg))), json(r#"{ "k": "" }"#));
}
