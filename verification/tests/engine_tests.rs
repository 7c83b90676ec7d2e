use neuxdb::basic::service::{execute_query, parse_condition, update_rows as basic_update};
use neuxdb::engine::compiler::{parse as parse_words, unquote};
use neuxdb::engine::service::{
    create_table, delete_rows, eval_where, format_table, insert_row, parse_assignment, script_commands, select_rows,
    update_rows, validate_value,
};
use neuxdb::engine::statement::{ComparisonOp, Statement as TokenStatement, WhereClause};
use neuxdb::engine::syntax::{split_quoted, Statement};
use neuxdb::engine::tokens::{parse as parse_tokens, parse_checked, tokenize};
use neuxdb::error::Error;
use neuxdb::storage::TableStore;
use neuxdb::types::{ColumnType, Schema, Value};

fn text(s: &str) -> Value {
    Value::Text(s.to_string())
}

fn strings(v: &[&str]) -> Vec<String> {
    v.iter().map(|s| s.to_string()).collect()
}

fn users() -> TableStore {
    let mut store = TableStore::new();
    create_table(&mut store, "users", &strings(&["id", "name"])).unwrap();
    insert_row(&mut store, "users", vec![text("1"), text("Alice")]).unwrap();
    insert_row(&mut store, "users", vec![text("2"), text("Bob")]).unwrap();
    store
}

#[test]
fn split_outside_quotes() {
    assert_eq!(split_quoted("a|'b|c'| d ", '|'), vec!["a", "'b|c'", "d"]);
    assert_eq!(split_quoted("", '|'), Vec::<String>::new());
    assert_eq!(unquote("  'x y' "), "x y");
    assert_eq!(unquote("z"), "z");
}

#[test]
fn whitespace_commands() {
    assert_eq!(
        parse_words("create table users (id, name)").unwrap(),
        Statement::CreateTable { name: "users".to_string(), columns: strings(&["id", "name"]) }
    );
    assert_eq!(
        parse_words("insert into users values (1|'Al Smith')").unwrap(),
        Statement::Insert { table: "users".to_string(), values: vec![text("1"), text("Al Smith")] }
    );
    assert_eq!(
        parse_words("select id,name from users where id='1'").unwrap(),
        Statement::Select {
            columns: strings(&["id", "name"]),
            table: "users".to_string(),
            condition: Some(("id".to_string(), text("1"))),
        }
    );
    assert_eq!(
        parse_words("delete from users where id=2 ;").unwrap(),
        Statement::Delete { table: "users".to_string(), condition: ("id".to_string(), text("2")) }
    );
    match parse_words("delete from users where id=2") {
        Err(Error::Parse(m)) => assert_eq!(m, "Syntax: DELETE FROM table WHERE col=value"),
        other => panic!("unexpected {:?}", other),
    }
}

#[test]
fn whitespace_command_errors() {
    match parse_words("") {
        Err(Error::Parse(m)) => assert_eq!(m, "Empty query"),
        other => panic!("unexpected {:?}", other),
    }
    match parse_words("drop table x") {
        Err(Error::Parse(m)) => assert_eq!(m, "Unknown command: drop"),
        other => panic!("unexpected {:?}", other),
    }
    match parse_words("update users set name=Bo where id=2") {
        Err(Error::Parse(m)) => assert_eq!(m, "Syntax: UPDATE table SET col=value WHERE col=value"),
        other => panic!("unexpected {:?}", other),
    }
    match parse_words("select * from users where id") {
        Err(Error::Parse(m)) => assert_eq!(m, "Invalid condition"),
        other => panic!("unexpected {:?}", other),
    }
}

#[test]
fn token_commands() {
    assert_eq!(tokenize("select a,b from t where x>=1"), strings(&["select", "a", ",", "b", "from", "t", "where", "x", ">=", "1"]));
    match parse_tokens("insert into t values ('a b'|2)").unwrap() {
        TokenStatement::Insert { table, values } => {
            assert_eq!(table, "t");
            assert_eq!(values, vec![text("a b"), text("2")]);
        },
        other => panic!("unexpected {:?}", other),
    }
    match parse_tokens("select a, b from t").unwrap() {
        TokenStatement::Select { columns, table, condition: None } => {
            assert_eq!(columns, strings(&["a", "b"]));
            assert_eq!(table, "t");
        },
        other => panic!("unexpected {:?}", other),
    }
    match parse_tokens("delete from t where a = 'x' and b != 2").unwrap() {
        TokenStatement::Delete { table, condition: WhereClause::And(_, _) } => assert_eq!(table, "t"),
        other => panic!("unexpected {:?}", other),
    }
    match parse_tokens("frob") {
        Err(Error::Parse(m)) => assert_eq!(m, "Unknown command: frob"),
        other => panic!("unexpected {:?}", other),
    }
    assert!(parse_checked("select a from t where a ~ 1").is_none());
    assert!(parse_checked("select a from t where a = '").is_none());
    assert!(parse_checked("select a from t where a = 'x'").unwrap().is_ok());
}

#[test]
fn token_command_errors() {
    match parse_tokens("insert t values (1)") {
        Err(Error::Parse(m)) => assert_eq!(m, "Expected 'INTO' after INSERT"),
        other => panic!("unexpected {:?}", other),
    }
    match parse_tokens("select a from t where a") {
        Err(Error::Parse(m)) => assert_eq!(m, "Missing operator in WHERE"),
        other => panic!("unexpected {:?}", other),
    }
    match parse_tokens("") {
        Err(Error::Parse(m)) => assert_eq!(m, "Empty query"),
        other => panic!("unexpected {:?}", other),
    }
}

#[test]
fn insert_then_select_all() {
    let store = users();
    let rows = select_rows(&store, "users", &strings(&["*"]), None).unwrap();
    assert_eq!(rows, vec![vec![text("1"), text("Alice")], vec![text("2"), text("Bob")]]);
    let cond = ("id".to_string(), text("2"));
    let rows = select_rows(&store, "users", &strings(&["name"]), Some(&cond)).unwrap();
    assert_eq!(rows, vec![vec![text("Bob")]]);
}

#[test]
fn engine_errors() {
    let mut store = users();
    match select_rows(&store, "users", &strings(&["email"]), None) {
        Err(Error::ColumnNotInTable(c, t)) => {
            assert_eq!(c, "email");
            assert_eq!(t, "users");
        },
        other => panic!("unexpected {:?}", other),
    }
    match insert_row(&mut store, "users", vec![text("3")]) {
        Err(Error::ValueCountMismatch { expected, actual }) => {
            assert_eq!(expected, 2);
            assert_eq!(actual, 1);
        },
        other => panic!("unexpected {:?}", other),
    }
    match select_rows(&store, "ghosts", &strings(&["*"]), None) {
        Err(Error::TableNotFound(n)) => assert_eq!(n, "ghosts"),
        other => panic!("unexpected {:?}", other),
    }
    match create_table(&mut store, "users", &strings(&["a"])) {
        Err(Error::TableExists(n)) => assert_eq!(n, "users"),
        other => panic!("unexpected {:?}", other),
    }
}

#[test]
fn update_and_delete_rows() {
    let mut store = users();
    assert_eq!(update_rows(&mut store, "users", "name", text("Bo"), &("id".to_string(), text("2"))).unwrap(), 1);
    let clause = WhereClause::Condition { column: "name".to_string(), operator: ComparisonOp::Like, value: text("A%") };
    assert_eq!(delete_rows(&mut store, "users", &clause).unwrap(), 1);
    let rows = select_rows(&store, "users", &strings(&["*"]), None).unwrap();
    assert_eq!(rows, vec![vec![text("2"), text("Bo")]]);
}

#[test]
fn where_clauses() {
    let headers = strings(&["n", "s"]);
    let row = vec![Value::Int(5), text("abc")];
    let gt = WhereClause::Condition { column: "n".to_string(), operator: ComparisonOp::Gt, value: Value::Int(3) };
    let like = WhereClause::Condition { column: "s".to_string(), operator: ComparisonOp::Like, value: text("a_c") };
    let miss = WhereClause::Condition { column: "x".to_string(), operator: ComparisonOp::Eq, value: Value::Int(3) };
    assert!(eval_where(&row, &headers, &gt));
    assert!(eval_where(&row, &headers, &like));
    assert!(!eval_where(&row, &headers, &miss));
    assert!(eval_where(&row, &headers, &WhereClause::Or(Box::new(miss), Box::new(gt))));
}

#[test]
fn typed_values() {
    let schema = Schema { columns: strings(&["n", "s"]), types: vec![ColumnType::Int, ColumnType::Text] };
    assert!(validate_value(&schema, 0, &Value::Int(1)).is_ok());
    assert!(validate_value(&schema, 0, &text("12")).is_ok());
    assert!(validate_value(&schema, 1, &Value::Bool(true)).is_ok());
    match validate_value(&schema, 0, &text("x")) {
        Err(Error::TypeMismatch { column, expected, .. }) => {
            assert_eq!(column, "n");
            assert_eq!(expected, "Int");
        },
        other => panic!("unexpected {:?}", other),
    }
}

#[test]
fn aligned_table_text() {
    let out = format_table(&strings(&["id", "name"]), &vec![vec![Value::Int(1), text("Alice")]]);
    assert_eq!(out, "id | name \n---+------\n1  | Alice\n");
    assert_eq!(format_table(&strings(&["a"]), &vec![]), "a\n-\n(no rows)\n");
}

#[test]
fn assignments() {
    let (c, v) = parse_assignment("name = 'Bo'").unwrap();
    assert_eq!(c, "name ");
    assert_eq!(v, text("Bo"));
    match parse_assignment("name") {
        Err(Error::Parse(m)) => assert_eq!(m, "Missing '=' in assignment"),
        other => panic!("unexpected {:?}", other),
    }
}

#[test]
fn script_lines() {
    let lines = strings(&["# comment", "  create table t (a)  ", "", "insert into t values (1)"]);
    let cmds = script_commands(&lines);
    assert_eq!(cmds, vec![(2, "create table t (a)".to_string()), (4, "insert into t values (1)".to_string())]);
}

#[test]
fn queries_write_their_answers() {
    let mut store = TableStore::new();
    let (out, r) = execute_query(&mut store, "create table users (id, name)");
    assert!(r.is_ok());
    assert_eq!(out, "Table 'users' created with columns: [\"id\", \"name\"]\n");
    let (out, _) = execute_query(&mut store, "insert into users values (1|Alice)");
    assert_eq!(out, "1 row inserted into 'users'\n");
    execute_query(&mut store, "insert into users values (2|'Bob')").1.unwrap();
    assert_eq!(execute_query(&mut store, "select * from users").0, "id|name\n1|Alice\n2|Bob\n");
    assert_eq!(execute_query(&mut store, "select name from users where id=2").0, "name\nBob\n");
    assert_eq!(execute_query(&mut store, "delete from users where id=1 ;").0, "1 row(s) deleted from 'users'\n");
    assert_eq!(execute_query(&mut store, "select * from users where id=9").0, "id|name\nNo rows found\n");
    assert_eq!(basic_update(&mut store, "users", "name", text("Bo"), &("id".to_string(), text("2"))).unwrap(), "1 row(s) updated in 'users'");
}

#[test]
fn query_errors() {
    let mut store = TableStore::new();
    match execute_query(&mut store, "") {
        (out, Err(Error::Parse(m))) => {
            assert_eq!(out, "");
            assert_eq!(m, "Empty query");
        },
        other => panic!("unexpected {:?}", other.1),
    }
    match execute_query(&mut store, "select * from ghosts") {
        (_, Err(Error::TableNotFound(n))) => assert_eq!(n, "ghosts"),
        other => panic!("unexpected {:?}", other.1),
    }
}

#[test]
fn conditions() {
    assert_eq!(parse_condition("  ").unwrap(), None);
    assert_eq!(parse_condition("a = 'x y'").unwrap(), Some(("a ".to_string(), text("x y"))));
    match parse_condition("a") {
        Err(Error::Parse(m)) => assert_eq!(m, "Missing '=' in condition"),
        other => panic!("unexpected {:?}", other),
    }
}

#[test]
fn commands_that_would_panic() {
    assert!(neuxdb::engine::compiler::would_panic("select * from t where a='"));
    assert!(neuxdb::engine::compiler::would_panic("create table t )x("));
    assert!(!neuxdb::engine::compiler::would_panic("select * from t where a='x'"));
    assert!(neuxdb::engine::compiler::parse_checked("insert into t values (')").is_none());
    assert!(neuxdb::basic::compiler::would_panic("insert into t values (a| ' )"));
    assert!(!neuxdb::basic::compiler::would_panic("insert into t values (a|b)"));
    assert!(!neuxdb::basic::compiler::would_panic("update t set a=' where"));
}

#[test]
fn quoting_then_unquoting() {
    for s in ["", "x y", " padded ", "it''s", "'"] {
        assert_eq!(unquote(&format!("'{}'", s)), s);
    }
    assert_eq!(unquote("  plain  "), "plain");
}

#[test]
fn splitting_text_without_quotes() {
    assert_eq!(split_quoted(" a | b |c|", '|'), vec!["a", "b", "c"]);
    assert_eq!(split_quoted("a||b", '|'), vec!["a", "", "b"]);
    assert_eq!(split_quoted("a| ", '|'), vec!["a", ""]);
}

#[test]
fn filter_on_a_short_row() {
    let headers = vec!["a".to_string(), "b".to_string()];
    let row = vec![Value::Int(1)];
    let on_a = WhereClause::Condition { column: "a".to_string(), operator: ComparisonOp::Eq, value: Value::Int(2) };
    let on_b = WhereClause::Condition { column: "b".to_string(), operator: ComparisonOp::Eq, value: Value::Int(2) };
    assert!(!eval_where(&row, &headers, &on_a));
    let missing = WhereClause::Condition { column: "z".to_string(), operator: ComparisonOp::Eq, value: Value::Int(1) };
    assert!(!eval_where(&row, &headers, &missing));
    assert!(!eval_where(&row, &headers, &WhereClause::And(Box::new(on_a), Box::new(on_b))));
}
