use neuxdb::database::{validate_name, Database};
use neuxdb::error::Error;
use neuxdb::log::{trim_logs_if_needed, LogEntry};
use neuxdb::table::{value_label, ColumnDef, ColumnType, TableData, TableSchema};
use neuxdb::types::Value;

fn text(s: &str) -> Value {
    Value::Text(s.to_string())
}

fn users() -> Database {
    let mut db = Database::new();
    db.create_table("users", vec![("id", ColumnType::Int), ("name", ColumnType::Text), ("age", ColumnType::Int)])
        .unwrap();
    db.insert("users", vec![Value::Int(1), text("Alice"), Value::Int(30)]).unwrap();
    db.insert("users", vec![Value::Int(2), text("Bob"), Value::Int(25)]).unwrap();
    db
}

#[test]
fn column_type_names() {
    assert_eq!(ColumnType::Int.name(), "INT");
    assert_eq!(ColumnType::Text.name(), "TEXT");
    assert_eq!(ColumnType::Bool.name(), "BOOL");
    assert_eq!(ColumnType::Float.name(), "FLOAT");
    assert_eq!(value_label(&Value::Null), "NULL");
}

#[test]
fn column_type_validation() {
    assert!(ColumnType::Int.validate(&Value::Int(3)));
    assert!(!ColumnType::Int.validate(&text("3")));
    assert!(ColumnType::Text.validate(&text("x")));
    assert!(!ColumnType::Text.validate(&Value::Null));
    assert!(ColumnType::Bool.validate(&Value::Bool(true)));
    assert!(!ColumnType::Float.validate(&Value::Int(1)));
}

#[test]
fn validate_row_counts_and_types() {
    let schema = TableSchema::new(
        "t".to_string(),
        vec![
            ColumnDef { name: "a".to_string(), col_type: ColumnType::Int },
            ColumnDef { name: "b".to_string(), col_type: ColumnType::Text },
        ],
    );
    assert!(schema.validate_row(&[Value::Int(1), text("x")]).is_ok());
    match schema.validate_row(&[Value::Int(1)]) {
        Err(Error::InvalidInput(m)) => assert_eq!(m, "Expected 2 columns, got 1"),
        other => panic!("unexpected {:?}", other),
    }
    match schema.validate_row(&[Value::Int(1), Value::Bool(true)]) {
        Err(Error::TypeMismatch { column, expected, actual }) => {
            assert_eq!(column, "b");
            assert_eq!(expected, "TEXT");
            assert_eq!(actual, "BOOL");
        },
        other => panic!("unexpected {:?}", other),
    }
}

#[test]
fn empty_table_is_empty() {
    let schema = TableSchema::new("t".to_string(), vec![]);
    let t = TableData::new(schema);
    assert_eq!(t.rows.len(), 0);
    assert_eq!(t.schema.name, "t");
}

#[test]
fn names_are_checked() {
    assert!(validate_name("users_1", 64, "Table").is_ok());
    match validate_name("", 64, "Table") {
        Err(Error::InvalidInput(m)) => assert_eq!(m, "Table name length must be 1..64"),
        other => panic!("unexpected {:?}", other),
    }
    match validate_name("1abc", 64, "Column") {
        Err(Error::InvalidInput(m)) => assert_eq!(
            m,
            "Column '1abc' contains invalid characters. Allowed: letters, numbers, underscore, must start with letter or underscore"
        ),
        other => panic!("unexpected {:?}", other),
    }
}

#[test]
fn insert_then_select_gives_rows_back() {
    let db = users();
    let rows = db.select::<fn(&Vec<Value>) -> bool>("users", None, None).unwrap();
    assert_eq!(rows, vec![vec![Value::Int(1), text("Alice"), Value::Int(30)], vec![Value::Int(2), text("Bob"), Value::Int(25)]]);
}

#[test]
fn select_with_projection_and_filter() {
    let db = users();
    let f = |row: &Vec<Value>| row[2] == Value::Int(25);
    let rows = db.select("users", Some(vec!["name"]), Some(&f)).unwrap();
    assert_eq!(rows, vec![vec![text("Bob")]]);
}

#[test]
fn select_unknown_column_fails() {
    let db = users();
    match db.select::<fn(&Vec<Value>) -> bool>("users", Some(vec!["email"]), None) {
        Err(Error::ColumnNotFound(c)) => assert_eq!(c, "email"),
        other => panic!("unexpected {:?}", other),
    }
}

#[test]
fn table_created_empty() {
    let mut db = Database::new();
    db.create_table("t", vec![("a", ColumnType::Text)]).unwrap();
    let rows = db.select::<fn(&Vec<Value>) -> bool>("t", None, None).unwrap();
    assert!(rows.is_empty());
    assert!(db.is_dirty());
    assert_eq!(db.logs().len(), 1);
    assert_eq!(db.logs()[0].action, "CREATE TABLE");
    assert_eq!(db.logs()[0].details.as_deref(), Some("Columns: [(\"a\", Text)]"));
}

#[test]
fn insert_type_mismatch_changes_nothing() {
    let mut db = users();
    let before = db.logs().len();
    match db.insert("users", vec![text("x"), text("Carol"), Value::Int(3)]) {
        Err(Error::TypeMismatch { column, expected, actual }) => {
            assert_eq!(column, "id");
            assert_eq!(expected, "INT");
            assert_eq!(actual, "TEXT");
        },
        other => panic!("unexpected {:?}", other),
    }
    assert_eq!(db.logs().len(), before);
    assert_eq!(db.select::<fn(&Vec<Value>) -> bool>("users", None, None).unwrap().len(), 2);
}

#[test]
fn insert_into_missing_table() {
    let mut db = Database::new();
    match db.insert("nope", vec![]) {
        Err(Error::TableNotFound(n)) => assert_eq!(n, "nope"),
        other => panic!("unexpected {:?}", other),
    }
}

#[test]
fn update_sets_matching_rows() {
    let mut db = users();
    let f = |row: &Vec<Value>| row[0] == Value::Int(1);
    assert_eq!(db.update("users", &f, "age", Value::Int(31)).unwrap(), 1);
    let rows = db.select::<fn(&Vec<Value>) -> bool>("users", None, None).unwrap();
    assert_eq!(rows[0][2], Value::Int(31));
    assert_eq!(rows[1][2], Value::Int(25));
    let last = db.logs().last().unwrap();
    assert_eq!(last.action, "UPDATE");
    assert_eq!(last.details.as_deref(), Some("Set age = Int(31) on 1 rows"));
}

#[test]
fn update_errors() {
    let mut db = users();
    let f = |_row: &Vec<Value>| true;
    match db.update("users", &f, "email", Value::Int(1)) {
        Err(Error::ColumnNotFound(c)) => assert_eq!(c, "email"),
        other => panic!("unexpected {:?}", other),
    }
    match db.update("users", &f, "age", text("old")) {
        Err(Error::TypeMismatch { column, .. }) => assert_eq!(column, "age"),
        other => panic!("unexpected {:?}", other),
    }
}

#[test]
fn delete_removes_matching_rows() {
    let mut db = users();
    let f = |row: &Vec<Value>| row[0] == Value::Int(2);
    assert_eq!(db.delete("users", &f).unwrap(), 1);
    let rows = db.select::<fn(&Vec<Value>) -> bool>("users", None, None).unwrap();
    assert_eq!(rows.len(), 1);
    assert_eq!(rows[0][1], text("Alice"));
    assert_eq!(db.logs().last().unwrap().details.as_deref(), Some("Removed 1 rows"));
    let none = |_row: &Vec<Value>| false;
    let before = db.logs().len();
    assert_eq!(db.delete("users", &none).unwrap(), 0);
    assert_eq!(db.logs().len(), before);
}

#[test]
fn create_table_refusals() {
    let mut db = users();
    match db.create_table("users", vec![("a", ColumnType::Int)]) {
        Err(Error::TableExists(n)) => assert_eq!(n, "users"),
        other => panic!("unexpected {:?}", other),
    }
    match db.create_table("empty", vec![]) {
        Err(Error::InvalidInput(_)) => {},
        other => panic!("unexpected {:?}", other),
    }
    match db.create_table("bad name", vec![("a", ColumnType::Int)]) {
        Err(Error::InvalidInput(_)) => {},
        other => panic!("unexpected {:?}", other),
    }
}

#[test]
fn tables_listed_in_order_and_dropped() {
    let mut db = Database::new();
    db.create_table("zeta", vec![("a", ColumnType::Int)]).unwrap();
    db.create_table("alpha", vec![("a", ColumnType::Int)]).unwrap();
    assert_eq!(db.list_tables(), vec!["alpha".to_string(), "zeta".to_string()]);
    db.drop_table("zeta").unwrap();
    assert_eq!(db.list_tables(), vec!["alpha".to_string()]);
    match db.drop_table("zeta") {
        Err(Error::TableNotFound(n)) => assert_eq!(n, "zeta"),
        other => panic!("unexpected {:?}", other),
    }
}

#[test]
fn schema_of_table() {
    let db = users();
    let s = db.table_schema("users").unwrap();
    assert_eq!(s, vec![("id".to_string(), ColumnType::Int), ("name".to_string(), ColumnType::Text), ("age".to_string(), ColumnType::Int)]);
}

#[test]
fn commit_clears_the_change_flag() {
    let mut db = users();
    assert!(db.is_dirty());
    db.mark_committed();
    assert!(!db.is_dirty());
    assert_eq!(db.list_tables().len(), 1);
}

#[test]
fn state_round_trips_through_parts() {
    let db = users();
    let state = db.state();
    let entries: Vec<(String, TableData)> =
        state.tables.iter().map(|t| (t.schema.name.clone(), t.clone())).collect();
    let back = Database::from_parts(state.version, entries, state.logs.clone()).unwrap();
    assert_eq!(back.list_tables(), db.list_tables());
    assert!(!back.is_dirty());
    match Database::from_parts(9, vec![], vec![]) {
        Err(Error::VersionMismatch { expected, actual }) => {
            assert_eq!(expected, 1);
            assert_eq!(actual, 9);
        },
        other => panic!("unexpected {:?}", other.is_ok()),
    }
}

#[test]
fn log_keeps_the_newest_entries() {
    let mut logs: Vec<LogEntry> = (0..1005).map(|i| LogEntry::with_timestamp(i, "INSERT", "t", None)).collect();
    trim_logs_if_needed(&mut logs);
    assert_eq!(logs.len(), 1000);
    assert_eq!(logs[0].timestamp, 5);
    assert_eq!(logs[999].timestamp, 1004);
    let e = LogEntry::new("DELETE", "users", Some("x".to_string()));
    assert_eq!(e.action, "DELETE");
    assert_eq!(e.table, "users");
}

#[test]
fn database_paths_need_the_extension() {
    assert!(neuxdb::database::check_path("dir/app.ndbx").is_ok());
    match neuxdb::database::check_path("dir/app.db") {
        Err(Error::InvalidInput(m)) => assert_eq!(m, "File extension must be .ndbx"),
        other => panic!("unexpected {:?}", other),
    }
    match neuxdb::database::check_path("dir/.ndbx") {
        Err(Error::InvalidInput(m)) => assert_eq!(m, "File must have .ndbx extension"),
        other => panic!("unexpected {:?}", other),
    }
}

#[test]
fn creating_a_database_file() {
    assert!(neuxdb::database::check_create(false, "longenough").is_ok());
    match neuxdb::database::check_create(true, "longenough") {
        Err(Error::InvalidInput(m)) => assert_eq!(m, "Database file already exists"),
        other => panic!("unexpected {:?}", other),
    }
    match neuxdb::database::check_create(false, "short") {
        Err(Error::WeakPassphrase(m)) => assert_eq!(m, "Minimum length is 8"),
        other => panic!("unexpected {:?}", other),
    }
}

#[test]
fn deleting_twice_removes_nothing_more() {
    let mut db = users();
    let f = |row: &Vec<Value>| row[0] == Value::Int(2);
    assert_eq!(db.delete("users", &f).unwrap(), 1);
    let rows = db.select::<fn(&Vec<Value>) -> bool>("users", None, None).unwrap();
    let logs = db.logs().len();
    assert_eq!(db.delete("users", &f).unwrap(), 0);
    assert_eq!(db.select::<fn(&Vec<Value>) -> bool>("users", None, None).unwrap(), rows);
    assert_eq!(db.logs().len(), logs);
}

#[test]
fn created_table_has_its_schema_and_no_rows() {
    let mut db = Database::new();
    db.create_table("t", vec![("a", ColumnType::Int), ("b", ColumnType::Text)]).unwrap();
    assert_eq!(db.table_schema("t").unwrap(), vec![("a".to_string(), ColumnType::Int), ("b".to_string(), ColumnType::Text)]);
    assert!(db.list_tables().contains(&"t".to_string()));
    assert!(db.select::<fn(&Vec<Value>) -> bool>("t", None, None).unwrap().is_empty());
}

fn short_row_table() -> TableData {
    let schema = TableSchema::new(
        "t".to_string(),
        vec![
            ColumnDef { name: "a".to_string(), col_type: ColumnType::Int },
            ColumnDef { name: "b".to_string(), col_type: ColumnType::Int },
        ],
    );
    TableData { schema, rows: vec![vec![Value::Int(1)], vec![Value::Int(2), Value::Int(3)]] }
}

#[test]
fn update_answers_on_a_table_with_a_short_row() {
    let mut t = short_row_table();
    let mut logs: Vec<LogEntry> = Vec::new();
    let all = |_row: &Vec<Value>| true;
    match neuxdb::data::update(&mut t, &all, "b", Value::Text("x".to_string()), &mut logs) {
        Err(Error::TypeMismatch { column, expected, actual }) => {
            assert_eq!(column, "b");
            assert_eq!(expected, "INT");
            assert_eq!(actual, "TEXT");
        },
        other => panic!("unexpected {:?}", other),
    }
    match neuxdb::data::update(&mut t, &all, "z", Value::Int(0), &mut logs) {
        Err(Error::ColumnNotFound(c)) => assert_eq!(c, "z"),
        other => panic!("unexpected {:?}", other),
    }
    let wide = |row: &Vec<Value>| row.len() == 2;
    assert_eq!(neuxdb::data::update(&mut t, &wide, "b", Value::Int(9), &mut logs).unwrap(), 1);
    assert_eq!(t.rows, vec![vec![Value::Int(1)], vec![Value::Int(2), Value::Int(9)]]);
    assert_eq!(logs.len(), 1);
}

#[test]
fn select_projects_only_the_rows_taken() {
    let t = short_row_table();
    let wide = |row: &Vec<Value>| row.len() == 2;
    let rows = neuxdb::data::select(&t, Some(vec!["b"]), Some(&wide)).unwrap();
    assert_eq!(rows, vec![vec![Value::Int(3)]]);
    let rows = neuxdb::data::select::<fn(&Vec<Value>) -> bool>(&t, None, None).unwrap();
    assert_eq!(rows.len(), 2);
}
