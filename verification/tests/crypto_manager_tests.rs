use neuxdb::crypto::{decrypt, encrypt, open_plaintext, seal, sha256_hex, unseal};
use neuxdb::error::Error;
use neuxdb::export::{export_table, ExportFormat};
use neuxdb::import::import_table;
use neuxdb::manager::{create_database, database_path, drop_database, list_databases, Session};
use neuxdb::table::{ColumnDef, ColumnType, TableData, TableSchema};
use neuxdb::text::trim_str;
use neuxdb::types::{debug_row, Value};

#[test]
fn sha256_digests() {
    assert_eq!(sha256_hex(""), "e3b0c44298fc1c149afbf4c8996fb92427ae41e4649b934ca495991b7852b855");
    assert_eq!(sha256_hex("abc"), "ba7816bf8f01cfea414140de5dae2223b00361a396177a9cb410ff61f20015ad");
}

#[test]
fn seal_then_unseal() {
    let sealed = seal("{\"a\":1}");
    assert!(sealed.starts_with("NEUXDB/1 SHA="));
    assert!(sealed.ends_with("\n{\"a\":1}"));
    assert_eq!(unseal(&sealed).unwrap(), "{\"a\":1}");
}

#[test]
fn unseal_refusals() {
    match unseal("no newline") {
        Err(Error::InvalidFormat(m)) => assert_eq!(m, "Missing header newline"),
        other => panic!("unexpected {:?}", other),
    }
    match unseal("WRONG\n{}") {
        Err(Error::InvalidFormat(m)) => assert_eq!(m, "Invalid magic header"),
        other => panic!("unexpected {:?}", other),
    }
    let tampered = seal("{}").replace("\n{}", "\n{ }");
    match unseal(&tampered) {
        Err(Error::Integrity(m)) => assert_eq!(m, "Data corrupted or tampered!"),
        other => panic!("unexpected {:?}", other),
    }
}

#[test]
fn encrypt_then_decrypt() {
    let c = encrypt("hello", "correct horse").unwrap();
    assert_ne!(c, b"hello".to_vec());
    assert_eq!(decrypt(&c, "correct horse").unwrap(), "hello");
    match decrypt(&c, "wrong horse") {
        Err(Error::InvalidPassword) => {},
        other => panic!("unexpected {:?}", other),
    }
}

#[test]
fn opening_decrypted_bytes() {
    assert_eq!(open_plaintext(seal("x").into_bytes()).unwrap(), "x");
    match open_plaintext(vec![0xff, 0xfe]) {
        Err(Error::InvalidFormat(m)) => assert_eq!(m, "Payload is not UTF-8"),
        other => panic!("unexpected {:?}", other),
    }
    match open_plaintext(b"WRONG\n{}".to_vec()) {
        Err(Error::InvalidFormat(m)) => assert_eq!(m, "Invalid magic header"),
        other => panic!("unexpected {:?}", other),
    }
    let tampered = seal("{}").replace("\n{}", "\n{ }");
    match open_plaintext(tampered.into_bytes()) {
        Err(Error::Integrity(m)) => assert_eq!(m, "Data corrupted or tampered!"),
        other => panic!("unexpected {:?}", other),
    }
}

#[test]
fn encrypted_export_imports_back() {
    let schema = TableSchema::new("t".to_string(), vec![ColumnDef { name: "a".to_string(), col_type: ColumnType::Text }]);
    let t = TableData { schema, rows: vec![vec![Value::Text("x".to_string())]] };
    let c = export_table(&t, ExportFormat::Psv, true, Some("pass phrase")).unwrap();
    let back = import_table("t", &c, ExportFormat::Psv, true, Some("pass phrase")).unwrap();
    assert_eq!(back.rows, vec![vec![Value::Text("x".to_string())]]);
}

#[test]
fn database_directories() {
    assert_eq!(database_path("data", "shop"), "data/shop");
    assert_eq!(database_path("data/", "shop"), "data/shop");
    assert_eq!(database_path("data", "/abs"), "/abs");
    assert_eq!(database_path("", "shop"), "shop");
}

#[test]
fn creating_and_dropping_databases() {
    assert!(create_database("shop", false).is_ok());
    match create_database("shop", true) {
        Err(Error::InvalidInput(m)) => assert_eq!(m, "Database 'shop' already exists"),
        other => panic!("unexpected {:?}", other),
    }
    match drop_database("data", true) {
        Err(Error::InvalidInput(m)) => assert_eq!(m, "Cannot drop root data directory"),
        other => panic!("unexpected {:?}", other),
    }
    match drop_database("shop", false) {
        Err(Error::TableNotFound(m)) => assert_eq!(m, "Database shop"),
        other => panic!("unexpected {:?}", other),
    }
    assert!(drop_database("shop", true).is_ok());
}

#[test]
fn using_a_database() {
    let mut s = Session::new("data".to_string());
    match s.use_database("data", "shop", false) {
        Err(Error::TableNotFound(m)) => assert_eq!(m, "Database shop"),
        other => panic!("unexpected {:?}", other),
    }
    assert_eq!(s.current, None);
    s.use_database("data", "shop", true).unwrap();
    assert_eq!(s.current.as_deref(), Some("shop"));
    assert_eq!(s.data_dir, "data/shop");
}

#[test]
fn databases_listed_in_order() {
    let found = vec!["zoo".to_string(), "app".to_string(), "mid".to_string(), "app".to_string()];
    assert_eq!(list_databases(found), vec!["app", "app", "mid", "zoo"]);
    assert!(list_databases(vec![]).is_empty());
}

#[test]
fn text_helpers() {
    assert_eq!(trim_str("  a b \n"), "a b");
    assert_eq!(debug_row(&[Value::Int(1), Value::Text("x".to_string()), Value::Null]), "[Int(1), Text(\"x\"), Null]");
}

#[test]
fn encrypted_export_decrypts_to_plain_export() {
    let schema = TableSchema::new("t".to_string(), vec![ColumnDef { name: "a".to_string(), col_type: ColumnType::Int }]);
    let t = TableData { schema, rows: vec![vec![Value::Int(5)]] };
    let plain = export_table(&t, ExportFormat::Csv, false, None).unwrap();
    let c = export_table(&t, ExportFormat::Csv, true, Some("pw")).unwrap();
    assert_eq!(decrypt(&c, "pw").unwrap(), String::from_utf8(plain).unwrap());
    match export_table(&t, ExportFormat::Csv, true, None) {
        Err(Error::InvalidInput(m)) => assert_eq!(m, "Passphrase required for encryption"),
        other => panic!("unexpected {:?}", other),
    }
}
