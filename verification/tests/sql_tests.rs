use neuxdb::error::Error;
use neuxdb::executor::{execute, like_match};
use neuxdb::parser::{parse, tokenize};
use neuxdb::storage::{read_table_file, row_fields, row_from_fields, sanitize, write_table_file, TableStore};
use neuxdb::syntax::{Expr, Statement};
use neuxdb::types::{ColumnType, Schema, Value};

fn run(store: &mut TableStore, sql: &str) -> Result<String, Error> {
    let stmt = parse(sql)?;
    execute(stmt, store)
}

fn users() -> TableStore {
    let mut store = TableStore::new();
    run(&mut store, "CREATE TABLE users (id, name)").unwrap();
    run(&mut store, "INSERT INTO users VALUES (1, 'Alice')").unwrap();
    run(&mut store, "INSERT INTO users VALUES (2, 'Bob')").unwrap();
    store
}

#[test]
fn tokens_of_a_statement() {
    assert_eq!(
        tokenize("SELECT * FROM t WHERE a >= 'x y' AND b!=2;"),
        vec!["SELECT", "*", "FROM", "t", "WHERE", "a", ">=", "'x y'", "AND", "b", "!=", "2", ";"]
    );
    assert_eq!(tokenize("'it''s'"), vec!["'it''s'"]);
}

#[test]
fn parse_statements() {
    match parse("create table users (id, name)").unwrap() {
        Statement::CreateTable { name, columns } => {
            assert_eq!(name, "users");
            assert_eq!(columns, vec!["id".to_string(), "name".to_string()]);
        },
        other => panic!("unexpected {:?}", other),
    }
    match parse("INSERT INTO t VALUES (7, 'it''s', x)").unwrap() {
        Statement::Insert { table, values } => {
            assert_eq!(table, "t");
            assert_eq!(values, vec![Value::Int(7), Value::Text("it's".to_string()), Value::Text("x".to_string())]);
        },
        other => panic!("unexpected {:?}", other),
    }
    match parse("DELETE FROM t WHERE a = 1 OR b LIKE 'x%'").unwrap() {
        Statement::Delete { table, filter: Expr::Or(_, _) } => assert_eq!(table, "t"),
        other => panic!("unexpected {:?}", other),
    }
    match parse("SHOW TABLES").unwrap() {
        Statement::ShowTables => {},
        other => panic!("unexpected {:?}", other),
    }
}

#[test]
fn parse_errors() {
    match parse("FROB x") {
        Err(Error::Parse(m)) => assert_eq!(m, "Unknown command: frob"),
        other => panic!("unexpected {:?}", other),
    }
    match parse("") {
        Err(Error::Parse(m)) => assert_eq!(m, "Unexpected end of input"),
        other => panic!("unexpected {:?}", other),
    }
    match parse("INSERT t VALUES (1)") {
        Err(Error::Parse(m)) => assert_eq!(m, "Expected 'into', found 't'"),
        other => panic!("unexpected {:?}", other),
    }
    match parse("SELECT * FROM t WHERE a << 1") {
        Err(Error::Parse(m)) => assert_eq!(m, "Unknown operator: <<"),
        other => panic!("unexpected {:?}", other),
    }
}

#[test]
fn select_all_lists_inserted_rows() {
    let mut store = users();
    assert_eq!(run(&mut store, "SELECT * FROM users").unwrap(), "id | name\n---------\n1 | Alice\n2 | Bob\n");
}

#[test]
fn written_values_read_back_as_text() {
    let mut store = users();
    assert_eq!(run(&mut store, "SELECT name FROM users WHERE id = '1'").unwrap(), "name\n----\nAlice\n");
    assert_eq!(run(&mut store, "SELECT name FROM users WHERE id = 1").unwrap(), "name\n----\n(0 rows)\n");
}

#[test]
fn update_and_delete() {
    let mut store = users();
    assert_eq!(run(&mut store, "UPDATE users SET name = 'Al' WHERE id = '1'").unwrap(), "1 rows updated.");
    assert_eq!(run(&mut store, "DELETE FROM users WHERE name LIKE 'B%'").unwrap(), "1 rows deleted.");
    assert_eq!(run(&mut store, "SELECT * FROM users").unwrap(), "id | name\n---------\n1 | Al\n");
}

#[test]
fn show_and_drop_tables() {
    let mut store = TableStore::new();
    assert_eq!(run(&mut store, "SHOW TABLES").unwrap(), "No tables found.");
    run(&mut store, "CREATE TABLE b (x)").unwrap();
    run(&mut store, "CREATE TABLE a (x)").unwrap();
    assert_eq!(run(&mut store, "SHOW TABLES").unwrap(), "a\nb");
    assert_eq!(run(&mut store, "DROP TABLE a").unwrap(), "Table 'a' dropped.");
    assert_eq!(run(&mut store, "SHOW TABLES").unwrap(), "b");
}

#[test]
fn statement_errors() {
    let mut store = users();
    match run(&mut store, "SELECT email FROM users") {
        Err(Error::ColumnNotFound(c)) => assert_eq!(c, "email"),
        other => panic!("unexpected {:?}", other),
    }
    match run(&mut store, "INSERT INTO users VALUES (3)") {
        Err(Error::InvalidInput(m)) => assert_eq!(m, "Column count mismatch: expected 2, got 1"),
        other => panic!("unexpected {:?}", other),
    }
    match run(&mut store, "SELECT * FROM nope") {
        Err(Error::TableNotFound(n)) => assert_eq!(n, "nope"),
        other => panic!("unexpected {:?}", other),
    }
    match run(&mut store, "CREATE TABLE users (a)") {
        Err(Error::TableExists(n)) => assert_eq!(n, "users"),
        other => panic!("unexpected {:?}", other),
    }
    match run(&mut store, "USE other") {
        Err(Error::InvalidInput(m)) => assert_eq!(m, "Unsupported statement"),
        other => panic!("unexpected {:?}", other),
    }
}

#[test]
fn like_patterns() {
    assert!(like_match("Bob", "B%"));
    assert!(like_match("Bob", "_o_"));
    assert!(!like_match("Bob", "b%"));
    assert!(like_match("", "%"));
    assert!(!like_match("ab", "a"));
}

#[test]
fn table_names_are_checked() {
    assert!(sanitize("users_1").is_ok());
    match sanitize("bad-name") {
        Err(Error::InvalidInput(m)) => assert_eq!(m, "Invalid table name"),
        other => panic!("unexpected {:?}", other),
    }
    assert!(sanitize("").is_err());
}

#[test]
fn fields_of_rows() {
    let row = vec![Value::Int(-5), Value::Bool(true), Value::Null, Value::Text("x".to_string())];
    assert_eq!(row_fields(&row), vec!["-5", "true", "NULL", "x"]);
    let types = vec![ColumnType::Int, ColumnType::Text];
    let back = row_from_fields(&vec!["12".to_string(), "12".to_string(), "z".to_string()], &types);
    assert_eq!(back, vec![Value::Int(12), Value::Text("12".to_string()), Value::Text("z".to_string())]);
}

#[test]
fn loaded_tables_are_listed() {
    let mut store = TableStore::new();
    let schema = Schema { columns: vec!["n".to_string()], types: vec![ColumnType::Int] };
    store.load_table("nums".to_string(), schema, vec![vec![Value::Int(3)]]).unwrap();
    assert_eq!(store.list_tables(), vec!["nums".to_string()]);
    let (_, headers, rows) = store.read_only("nums").unwrap();
    assert_eq!(headers, vec!["n".to_string()]);
    assert_eq!(rows, vec![vec![Value::Int(3)]]);
    assert_eq!(run(&mut store, "SELECT * FROM nums WHERE n > 2").unwrap(), "n\n-\n3\n");
}

#[test]
fn table_file_read_without_schema() {
    let (schema, headers, rows) = read_table_file(b"a|b\n1|x\n", None).unwrap();
    assert_eq!(headers, vec!["a".to_string(), "b".to_string()]);
    assert_eq!(schema.columns, headers);
    assert_eq!(schema.types, vec![ColumnType::Text, ColumnType::Text]);
    assert_eq!(rows, vec![vec![Value::Text("1".to_string()), Value::Text("x".to_string())]]);
}

#[test]
fn table_file_read_under_schema() {
    let given = Schema { columns: vec!["a".to_string(), "b".to_string()], types: vec![ColumnType::Int, ColumnType::Text] };
    let (schema, _, rows) = read_table_file(b"a|b\n1|x\nz|2\n", Some(given)).unwrap();
    assert_eq!(schema.types, vec![ColumnType::Int, ColumnType::Text]);
    assert_eq!(
        rows,
        vec![
            vec![Value::Int(1), Value::Text("x".to_string())],
            vec![Value::Text("z".to_string()), Value::Text("2".to_string())],
        ]
    );
}

#[test]
fn table_file_read_refuses_ragged_records() {
    match read_table_file(b"a|b\n1\n", None) {
        Err(Error::Csv(_)) => {},
        other => panic!("unexpected {:?}", other),
    }
}

#[test]
fn table_file_write_then_read() {
    let headers = vec!["id".to_string(), "note".to_string()];
    let rows = vec![vec![Value::Int(1), Value::Text("a|b".to_string())], vec![Value::Int(-2), Value::Text("c".to_string())]];
    let bytes = write_table_file(&headers, &rows).unwrap();
    assert_eq!(String::from_utf8(bytes.clone()).unwrap(), "id|note\n1|\"a|b\"\n-2|c\n");
    let given = Schema { columns: headers.clone(), types: vec![ColumnType::Int, ColumnType::Text] };
    let (_, back_headers, back) = read_table_file(&bytes, Some(given)).unwrap();
    assert_eq!(back_headers, headers);
    assert_eq!(back, rows);
}

#[test]
fn table_file_write_refuses_ragged_rows() {
    let headers = vec!["a".to_string()];
    let rows = vec![vec![Value::Int(1), Value::Int(2)]];
    match write_table_file(&headers, &rows) {
        Err(Error::Csv(_)) => {},
        other => panic!("unexpected {:?}", other),
    }
}
