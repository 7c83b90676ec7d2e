use neuxdb::error::Error;
use neuxdb::export::{
    escape_html, export_table, replace_all, to_csv, to_html, to_json, to_markdown, to_psv, to_sqlite_dump, ExportFormat,
};
use neuxdb::import::{from_csv, from_json, from_psv, import_table, lines, read_format, JsonItem, JsonScalar};
use neuxdb::table::{ColumnDef, ColumnType, TableData, TableSchema};
use neuxdb::types::Value;

fn text(s: &str) -> Value {
    Value::Text(s.to_string())
}

fn users() -> TableData {
    let schema = TableSchema::new(
        "users".to_string(),
        vec![
            ColumnDef { name: "id".to_string(), col_type: ColumnType::Int },
            ColumnDef { name: "name".to_string(), col_type: ColumnType::Text },
        ],
    );
    TableData { schema, rows: vec![vec![Value::Int(1), text("Al")], vec![Value::Int(2), text("B<o>b")]] }
}

fn as_text(b: Vec<u8>) -> String {
    String::from_utf8(b).unwrap()
}

fn text_columns(t: &TableData) -> Vec<String> {
    assert!(t.schema.columns.iter().all(|c| c.col_type == ColumnType::Text));
    t.schema.columns.iter().map(|c| c.name.clone()).collect()
}

#[test]
fn psv_export() {
    assert_eq!(as_text(to_psv(&users()).unwrap()), "id|name\n1|Al\n2|B<o>b\n");
}

#[test]
fn markdown_export() {
    assert_eq!(as_text(to_markdown(&users()).unwrap()), "| id | name |\n| --- | --- |\n| 1 | Al |\n| 2 | B<o>b |\n");
}

#[test]
fn sqlite_export() {
    let mut t = users();
    t.rows.push(vec![Value::Null, text("O'Neil")]);
    assert_eq!(
        as_text(to_sqlite_dump(&t).unwrap()),
        "CREATE TABLE \"users\" (\"id\" INTEGER, \"name\" TEXT);\nINSERT INTO \"users\" VALUES (1, 'Al');\nINSERT INTO \"users\" VALUES (2, 'B<o>b');\nINSERT INTO \"users\" VALUES (NULL, 'O''Neil');\n"
    );
}

#[test]
fn html_export() {
    assert_eq!(
        as_text(to_html(&users()).unwrap()),
        "<!DOCTYPE html>\n<html>\n<head>\n<meta charset=\"utf-8\">\n<title>users</title>\n</head>\n<body>\n<h1>users</h1>\n<table>\n<thead>\n<tr><th>id</th><th>name</th></tr>\n</thead>\n<tbody>\n<tr><td>1</td><td>Al</td></tr>\n<tr><td>2</td><td>B&lt;o&gt;b</td></tr>\n</tbody>\n</table>\n</body>\n</html>\n"
    );
}

#[test]
fn html_escaping_and_replacing() {
    assert_eq!(escape_html("a&b<'\">"), "a&amp;b&lt;&#39;&quot;&gt;");
    assert_eq!(replace_all("x{{a}}y{{a}}", "{{a}}", "-"), "x-y-");
    assert_eq!(replace_all("aaa", "aa", "b"), "ba");
}

#[test]
fn csv_export() {
    assert_eq!(as_text(to_csv(&users()).unwrap()), "id,name\n1,Al\n2,B<o>b\n");
}

#[test]
fn json_export() {
    let json = as_text(to_json(&users()).unwrap());
    assert_eq!(json, "[\n  {\n    \"id\": 1,\n    \"name\": \"Al\"\n  },\n  {\n    \"id\": 2,\n    \"name\": \"B<o>b\"\n  }\n]");
}

#[test]
fn export_in_every_format() {
    let t = users();
    assert_eq!(export_table(&t, ExportFormat::Psv, false, None).unwrap(), to_psv(&t).unwrap());
    assert_eq!(export_table(&t, ExportFormat::Markdown, false, None).unwrap(), to_markdown(&t).unwrap());
    match export_table(&t, ExportFormat::Psv, true, None) {
        Err(Error::InvalidInput(m)) => assert_eq!(m, "Passphrase required for encryption"),
        other => panic!("unexpected {:?}", other),
    }
}

#[test]
fn psv_import() {
    let t = from_psv("t", b"a|b\n1| x \n").unwrap();
    assert_eq!(t.schema.name, "t");
    assert_eq!(text_columns(&t), vec!["a".to_string(), "b".to_string()]);
    assert_eq!(t.rows, vec![vec![text("1"), text("x")]]);
}

#[test]
fn psv_import_errors() {
    match from_psv("t", b"") {
        Err(Error::InvalidInput(m)) => assert_eq!(m, "Empty PSV data"),
        other => panic!("unexpected {:?}", other),
    }
    match from_psv("t", &[0xff, 0xfe]) {
        Err(Error::InvalidInput(m)) => assert_eq!(m, "Invalid UTF-8"),
        other => panic!("unexpected {:?}", other),
    }
    match from_psv("t", b"a|b\n1\n") {
        Err(Error::InvalidInput(m)) => assert_eq!(m, "Expected 2 columns, got 1"),
        other => panic!("unexpected {:?}", other),
    }
}

#[test]
fn lines_like_str_lines() {
    let cs: Vec<char> = "a\r\nb\n\nc".chars().collect();
    let ls: Vec<String> = lines(&cs).into_iter().map(|l| l.into_iter().collect()).collect();
    assert_eq!(ls, vec!["a", "b", "", "c"]);
    let cs: Vec<char> = "x\r".chars().collect();
    let ls: Vec<String> = lines(&cs).into_iter().map(|l| l.into_iter().collect()).collect();
    assert_eq!(ls, vec!["x\r"]);
    let cs: Vec<char> = "one\n".chars().collect();
    assert_eq!(lines(&cs).len(), 1);
}

#[test]
fn psv_round_trip() {
    let t = users();
    let bytes = export_table(&t, ExportFormat::Psv, false, None).unwrap();
    let back = import_table("users", &bytes, ExportFormat::Psv, false, None).unwrap();
    assert_eq!(text_columns(&back), vec!["id".to_string(), "name".to_string()]);
    assert_eq!(back.rows, vec![vec![text("1"), text("Al")], vec![text("2"), text("B<o>b")]]);
}

#[test]
fn csv_import() {
    let t = from_csv("t", b"a,b\n1,\"x,y\"\n").unwrap();
    assert_eq!(text_columns(&t), vec!["a".to_string(), "b".to_string()]);
    assert_eq!(t.rows, vec![vec![text("1"), text("x,y")]]);
}

#[test]
fn csv_import_refuses_ragged_records() {
    match from_csv("t", b"a,b\n1\n") {
        Err(Error::Csv(_)) => {},
        other => panic!("unexpected {:?}", other),
    }
}

#[test]
fn json_import() {
    let t = from_json("t", br#"[{"b":"x","a":"y"},{"a":"z","b":"w"}]"#).unwrap();
    assert_eq!(text_columns(&t), vec!["a".to_string(), "b".to_string()]);
    assert_eq!(t.rows, vec![vec![text("y"), text("x")], vec![text("z"), text("w")]]);
}

#[test]
fn json_import_errors() {
    match from_json("t", b"[]") {
        Err(Error::InvalidInput(m)) => assert_eq!(m, "Empty JSON array"),
        other => panic!("unexpected {:?}", other),
    }
    match from_json("t", b"[1]") {
        Err(Error::InvalidInput(m)) => assert_eq!(m, "JSON must be array of objects"),
        other => panic!("unexpected {:?}", other),
    }
    match from_json("t", br#"[{"a":"x"}, 2]"#) {
        Err(Error::InvalidInput(m)) => assert_eq!(m, "JSON must be array of objects"),
        other => panic!("unexpected {:?}", other),
    }
    match from_json("t", br#"[{"a":"x","b":1.5}]"#) {
        Err(Error::TypeMismatch { column, expected, actual }) => {
            assert_eq!(column, "b");
            assert_eq!(expected, "FLOAT");
            assert_eq!(actual, "FLOAT");
        },
        other => panic!("unexpected {:?}", other),
    }
    match from_json("t", br#"[{"a":"x"},{"b":"y"}]"#) {
        Err(Error::TypeMismatch { column, expected, actual }) => {
            assert_eq!(column, "a");
            assert_eq!(expected, "TEXT");
            assert_eq!(actual, "NULL");
        },
        other => panic!("unexpected {:?}", other),
    }
    match from_json("t", br#"[{"a":1},{"a":"two"}]"#) {
        Err(Error::TypeMismatch { column, expected, actual }) => {
            assert_eq!(column, "a");
            assert_eq!(expected, "INT");
            assert_eq!(actual, "TEXT");
        },
        other => panic!("unexpected {:?}", other),
    }
    match from_json("t", b"not json") {
        Err(Error::Json(_)) => {},
        other => panic!("unexpected {:?}", other),
    }
}

#[test]
fn json_import_types_columns_by_first_object() {
    let t = from_json("t", br#"[{"id": 1, "name": "Al"}]"#).unwrap();
    assert_eq!(t.schema.name, "t");
    let cols: Vec<(String, ColumnType)> = t.schema.columns.iter().map(|c| (c.name.clone(), c.col_type)).collect();
    assert_eq!(cols, vec![("id".to_string(), ColumnType::Int), ("name".to_string(), ColumnType::Text)]);
    assert_eq!(t.rows, vec![vec![Value::Int(1), text("Al")]]);
    let t = from_json("t", br#"[{"a":true},{"a":false}]"#).unwrap();
    assert_eq!(t.schema.columns[0].col_type, ColumnType::Bool);
    assert_eq!(t.rows, vec![vec![Value::Bool(true)], vec![Value::Bool(false)]]);
    let t = import_table("t", br#"[{"id": 7}]"#, ExportFormat::Json, false, None).unwrap();
    assert_eq!(t.rows, vec![vec![Value::Int(7)]]);
}

#[test]
fn json_items_to_table() {
    let items = vec![JsonItem::Object(vec![("k".to_string(), JsonScalar::Str("v".to_string()))])];
    let t = neuxdb::import::json_table("t", &items).unwrap();
    assert_eq!(t.rows, vec![vec![text("v")]]);
    let items = vec![JsonItem::Object(vec![("k".to_string(), JsonScalar::Nested)])];
    match neuxdb::import::json_table("t", &items) {
        Err(Error::TypeMismatch { expected, actual, .. }) => {
            assert_eq!(expected, "TEXT");
            assert_eq!(actual, "NULL");
        },
        other => panic!("unexpected {:?}", other),
    }
}

#[test]
fn csv_records_to_table() {
    let headers = vec!["a".to_string()];
    let records = vec![vec!["1".to_string()]];
    let t = neuxdb::import::csv_table("t", &headers, &records, None).unwrap();
    assert_eq!(t.rows, vec![vec![text("1")]]);
    match neuxdb::import::csv_table("t", &headers, &records, Some("bad record".to_string())) {
        Err(Error::Csv(m)) => assert_eq!(m, "bad record"),
        other => panic!("unexpected {:?}", other),
    }
    let ragged = vec![vec!["1".to_string(), "2".to_string()]];
    match neuxdb::import::csv_table("t", &headers, &ragged, Some("later".to_string())) {
        Err(Error::InvalidInput(m)) => assert_eq!(m, "Expected 1 columns, got 2"),
        other => panic!("unexpected {:?}", other),
    }
}

#[test]
fn import_refusals() {
    match import_table("t", b"a\n", ExportFormat::Html, false, None) {
        Err(Error::InvalidInput(m)) => assert_eq!(m, "Unsupported import format"),
        other => panic!("unexpected {:?}", other),
    }
    match import_table("t", b"a\n", ExportFormat::Psv, true, None) {
        Err(Error::InvalidInput(m)) => assert_eq!(m, "Passphrase required for decryption"),
        other => panic!("unexpected {:?}", other),
    }
    assert!(read_format("t", b"a\n", ExportFormat::Psv).is_ok());
}

#[test]
fn export_of_a_table_with_a_short_row() {
    let schema = TableSchema::new(
        "t".to_string(),
        vec![
            ColumnDef { name: "a".to_string(), col_type: ColumnType::Int },
            ColumnDef { name: "b".to_string(), col_type: ColumnType::Text },
        ],
    );
    let t = TableData { schema, rows: vec![vec![Value::Int(1)]] };
    match export_table(&t, ExportFormat::Csv, false, None) {
        Err(Error::Csv(_)) => {},
        other => panic!("unexpected {:?}", other),
    }
    let json = as_text(export_table(&t, ExportFormat::Json, false, None).unwrap());
    assert_eq!(json, "[\n  {\n    \"a\": 1\n  }\n]");
    let md = as_text(export_table(&t, ExportFormat::Markdown, false, None).unwrap());
    assert_eq!(md, "| a | b |\n| --- | --- |\n| 1 |\n");
}
