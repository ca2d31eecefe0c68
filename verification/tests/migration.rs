use caltrack::migrate::{migrate, plan, sort_defs, MigrateError, MigrationDef};
use r2d2_sqlite::rusqlite::Connection;

fn def(identity: &str, batch: &str) -> MigrationDef {
    MigrationDef { identity: identity.to_string(), batch: batch.to_string() }
}

fn ledger(conn: &Connection) -> Vec<String> {
    let mut stmt = conn
        .prepare("SELECT migration FROM sqlx_pg_migrate ORDER BY id;")
        .expect("ledger table");
    let rows = stmt
        .query_map([], |row| row.get::<usize, String>(0))
        .expect("query ledger");
    rows.collect::<Result<Vec<String>, _>>().expect("read ledger")
}

fn table_exists(conn: &Connection, name: &str) -> bool {
    let count: i64 = conn
        .query_row(
            "SELECT count(*) FROM sqlite_master WHERE type = 'table' AND name = ?1;",
            [name],
            |row| row.get(0),
        )
        .expect("query sqlite_master");
    count > 0
}

fn two_defs() -> Vec<MigrationDef> {
    vec![
        def("0001_items", "CREATE TABLE items (id INTEGER PRIMARY KEY, name TEXT, calories INTEGER);"),
        def("0002_conf", "CREATE TABLE conf (key TEXT PRIMARY KEY, value TEXT);"),
    ]
}

#[test]
fn fresh_install_applies_everything_in_order() {
    let conn = Connection::open_in_memory().expect("open db");
    migrate(&conn, two_defs()).expect("fresh install");
    assert_eq!(ledger(&conn), vec!["0001_items", "0002_conf"]);
    assert!(table_exists(&conn, "items"));
    assert!(table_exists(&conn, "conf"));
}

#[test]
fn definitions_are_sorted_by_identity_before_running() {
    let conn = Connection::open_in_memory().expect("open db");
    let mut defs = two_defs();
    defs.reverse();
    migrate(&conn, defs).expect("fresh install");
    assert_eq!(ledger(&conn), vec!["0001_items", "0002_conf"]);
}

#[test]
fn second_run_is_a_no_op() {
    let conn = Connection::open_in_memory().expect("open db");
    migrate(&conn, two_defs()).expect("first run");
    let before = ledger(&conn);
    migrate(&conn, two_defs()).expect("second run");
    assert_eq!(ledger(&conn), before);
}

#[test]
fn new_definitions_resume_after_the_ledger() {
    let conn = Connection::open_in_memory().expect("open db");
    migrate(&conn, two_defs()).expect("first run");
    let mut defs = two_defs();
    defs.push(def(
        "0003_weight",
        "CREATE TABLE weight (date TEXT PRIMARY KEY, weight REAL);",
    ));
    migrate(&conn, defs).expect("second run");
    assert_eq!(ledger(&conn), vec!["0001_items", "0002_conf", "0003_weight"]);
    assert!(table_exists(&conn, "weight"));
}

#[test]
fn renamed_definition_is_schema_drift() {
    let conn = Connection::open_in_memory().expect("open db");
    migrate(&conn, two_defs()).expect("first run");
    let defs = vec![
        def("0001_renamed", "CREATE TABLE other (id INTEGER);"),
        def("0002_conf", "CREATE TABLE conf2 (key TEXT);"),
    ];
    let r = migrate(&conn, defs);
    assert!(matches!(r, Err(MigrateError::SchemaDrift)));
    assert_eq!(ledger(&conn), vec!["0001_items", "0002_conf"]);
    assert!(!table_exists(&conn, "other"));
    assert!(!table_exists(&conn, "conf2"));
}

#[test]
fn shrunken_definition_list_is_schema_drift() {
    let conn = Connection::open_in_memory().expect("open db");
    migrate(&conn, two_defs()).expect("first run");
    let r = migrate(&conn, vec![two_defs().remove(0)]);
    assert!(matches!(r, Err(MigrateError::SchemaDrift)));
    assert_eq!(ledger(&conn), vec!["0001_items", "0002_conf"]);
}

#[test]
fn failing_batch_rolls_back_everything() {
    let conn = Connection::open_in_memory().expect("open db");
    migrate(&conn, two_defs()).expect("first run");
    let mut defs = two_defs();
    defs.push(def("0003_good", "CREATE TABLE early (id INTEGER);"));
    defs.push(def("0004_bad", "THIS IS NOT SQL;"));
    defs.push(def("0005_never", "CREATE TABLE never (id INTEGER);"));
    let r = migrate(&conn, defs);
    assert!(matches!(r, Err(MigrateError::Batch(_))));
    // Nothing from the failed run is recorded or visible: the batch before
    // the failing one was rolled back with it.
    assert_eq!(ledger(&conn), vec!["0001_items", "0002_conf"]);
    assert!(!table_exists(&conn, "early"));
    assert!(!table_exists(&conn, "never"));
}

#[test]
fn failing_batch_on_fresh_install_leaves_no_trace() {
    let conn = Connection::open_in_memory().expect("open db");
    let defs = vec![
        def("0001_good", "CREATE TABLE early (id INTEGER);"),
        def("0002_bad", "THIS IS NOT SQL;"),
    ];
    let r = migrate(&conn, defs);
    assert!(matches!(r, Err(MigrateError::Batch(_))));
    assert!(!table_exists(&conn, "early"));
    // Even the ledger table itself was rolled back.
    assert!(!table_exists(&conn, "sqlx_pg_migrate"));
}

#[test]
fn unreadable_ledger_is_a_store_read_failure() {
    let conn = Connection::open_in_memory().expect("open db");
    // A ledger table that exists but lacks the expected column is not a
    // fresh install: reading it must fail the run.
    conn.execute_batch("CREATE TABLE sqlx_pg_migrate (foo TEXT);")
        .expect("create bad ledger");
    let r = migrate(&conn, two_defs());
    assert!(matches!(r, Err(MigrateError::StoreRead(_))));
}

#[test]
fn duplicate_identity_fails_the_ledger_append() {
    let conn = Connection::open_in_memory().expect("open db");
    let defs = vec![
        def("0001_items", "CREATE TABLE items (id INTEGER PRIMARY KEY);"),
        def("0001_items", "CREATE TABLE items2 (id INTEGER PRIMARY KEY);"),
    ];
    // The ledger's identity column is unique: recording the second
    // definition fails, and the whole run rolls back.
    let r = migrate(&conn, defs);
    assert!(matches!(r, Err(MigrateError::Ledger(_))));
    assert!(!table_exists(&conn, "items"));
    assert!(!table_exists(&conn, "items2"));
}

#[test]
fn open_transaction_is_a_transaction_failure() {
    let conn = Connection::open_in_memory().expect("open db");
    conn.execute_batch("BEGIN;").expect("open a transaction");
    let r = migrate(&conn, two_defs());
    assert!(matches!(r, Err(MigrateError::Tx(_))));
}

#[test]
fn plan_accepts_exactly_the_prefixes() {
    let defs = sort_defs(two_defs());
    let empty: Vec<String> = vec![];
    assert!(matches!(plan(&defs, &empty), Ok(0)));
    assert!(matches!(plan(&defs, &vec!["0001_items".to_string()]), Ok(1)));
    assert!(matches!(
        plan(&defs, &vec!["0001_items".to_string(), "0002_conf".to_string()]),
        Ok(2)
    ));
    assert!(matches!(
        plan(&defs, &vec!["0002_conf".to_string()]),
        Err(MigrateError::SchemaDrift)
    ));
    assert!(matches!(
        plan(
            &defs,
            &vec![
                "0001_items".to_string(),
                "0002_conf".to_string(),
                "0003_more".to_string()
            ]
        ),
        Err(MigrateError::SchemaDrift)
    ));
}

#[test]
fn sort_defs_orders_by_identity() {
    let defs = vec![def("b", ""), def("a", ""), def("ab", ""), def("", "")];
    let sorted = sort_defs(defs);
    let ids: Vec<&str> = sorted.iter().map(|d| d.identity.as_str()).collect();
    assert_eq!(ids, vec!["", "a", "ab", "b"]);
}
