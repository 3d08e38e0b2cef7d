use pagedb::exec::execute_query;
use pagedb::storage::clear_csv_files;
use pagedb::storage::increment_pk_sequence;
use pagedb::storage::init_db;
use pagedb::storage::is_locked;
use pagedb::storage::lock_table;
use pagedb::storage::unlock_table;
use pagedb::storage::Database;
use pagedb::types::DbResponse;
use pagedb::types::Schema;
use pagedb::types::TableDef;

fn schema_one_table(limit: u64) -> Schema {
    Schema {
        name: "testdb".to_string(),
        tuples_limit: limit,
        structure: vec![TableDef {
            table: "T".to_string(),
            columns: vec!["id".to_string(), "name".to_string()],
        }],
    }
}

fn schema_two_tables(limit: u64) -> Schema {
    Schema {
        name: "testdb".to_string(),
        tuples_limit: limit,
        structure: vec![
            TableDef {
                table: "T1".to_string(),
                columns: vec!["id".to_string(), "name".to_string()],
            },
            TableDef {
                table: "T2".to_string(),
                columns: vec!["id".to_string(), "fk".to_string()],
            },
        ],
    }
}

fn expect_success_none(r: DbResponse) {
    match r {
        DbResponse::Success(None) => {}
        DbResponse::Success(Some(_)) => panic!("expected Success(None), got a matrix"),
        DbResponse::Error(e) => panic!("expected Success(None), got Error({})", e),
    }
}

fn expect_matrix(r: DbResponse) -> Vec<Vec<String>> {
    match r {
        DbResponse::Success(Some(m)) => m,
        DbResponse::Success(None) => panic!("expected a matrix, got Success(None)"),
        DbResponse::Error(e) => panic!("expected a matrix, got Error({})", e),
    }
}

fn expect_error(r: DbResponse) -> String {
    match r {
        DbResponse::Error(e) => e,
        _ => panic!("expected an error"),
    }
}

fn table_row_counts(db: &Database, name: &str) -> Vec<usize> {
    let t = db.tables.get(&name.to_string()).expect("table missing");
    t.pages.iter().map(|p| p.rows.len()).collect()
}

fn all_rows(db: &Database, name: &str) -> Vec<Vec<String>> {
    let t = db.tables.get(&name.to_string()).expect("table missing");
    let mut out = Vec::new();
    for p in t.pages.iter() {
        for r in p.rows.iter() {
            out.push(r.clone());
        }
    }
    out
}

#[test]
fn init_creates_fresh_tables() {
    let schema = schema_one_table(5);
    let mut db = Database::new();
    init_db(&schema, &mut db);
    let t = db.tables.get(&"T".to_string()).expect("table missing");
    assert_eq!(t.pages.len(), 1);
    assert_eq!(t.pages[0].header, vec!["id".to_string(), "name".to_string()]);
    assert_eq!(t.pages[0].rows.len(), 0);
    assert_eq!(t.pk_counter, 0);
    assert!(!t.locked);
}

#[test]
fn init_is_idempotent() {
    let schema = schema_one_table(5);
    let mut db = Database::new();
    init_db(&schema, &mut db);
    expect_success_none(execute_query(
        "INSERT INTO T VALUES ('ann'), ('bob')",
        &schema,
        &mut db,
    ));
    let before = all_rows(&db, "T");
    init_db(&schema, &mut db);
    let after = all_rows(&db, "T");
    assert_eq!(before, after);
    let t = db.tables.get(&"T".to_string()).unwrap();
    assert_eq!(t.pk_counter, 2);
    assert_eq!(t.pages[0].header, vec!["id".to_string(), "name".to_string()]);
}

#[test]
fn pk_sequence_is_gap_free() {
    let schema = schema_one_table(10);
    let mut db = Database::new();
    init_db(&schema, &mut db);
    for name in ["a", "b", "c", "d", "e"] {
        let q = format!("INSERT INTO T VALUES ('{}')", name);
        expect_success_none(execute_query(&q, &schema, &mut db));
    }
    let rows = all_rows(&db, "T");
    assert_eq!(rows.len(), 5);
    for (i, row) in rows.iter().enumerate() {
        assert_eq!(row[0], (i + 1).to_string());
    }
    let t = db.tables.get(&"T".to_string()).unwrap();
    assert_eq!(t.pk_counter, 5);
}

#[test]
fn pagination_fills_pages_in_order() {
    let schema = schema_one_table(2);
    let mut db = Database::new();
    init_db(&schema, &mut db);
    expect_success_none(execute_query(
        "INSERT INTO T VALUES ('a'), ('b'), ('c'), ('d'), ('e')",
        &schema,
        &mut db,
    ));
    assert_eq!(table_row_counts(&db, "T"), vec![2, 2, 1]);
    let t = db.tables.get(&"T".to_string()).unwrap();
    for p in t.pages.iter() {
        assert_eq!(p.header, vec!["id".to_string(), "name".to_string()]);
    }
}

#[test]
fn select_round_trips_inserted_rows() {
    let schema = schema_one_table(2);
    let mut db = Database::new();
    init_db(&schema, &mut db);
    expect_success_none(execute_query(
        "INSERT INTO T VALUES ('a'), ('b'), ('c'), ('d'), ('e')",
        &schema,
        &mut db,
    ));
    let m = expect_matrix(execute_query("SELECT T.id, T.name FROM T", &schema, &mut db));
    assert_eq!(m.len(), 5);
    let names = ["a", "b", "c", "d", "e"];
    for (i, row) in m.iter().enumerate() {
        assert_eq!(row, &vec![(i + 1).to_string(), names[i].to_string()]);
    }
}

#[test]
fn delete_removes_exactly_matching_rows() {
    let schema = schema_one_table(2);
    let mut db = Database::new();
    init_db(&schema, &mut db);
    expect_success_none(execute_query(
        "INSERT INTO T VALUES ('a'), ('b'), ('c'), ('d'), ('e')",
        &schema,
        &mut db,
    ));
    expect_success_none(execute_query(
        "DELETE FROM T WHERE T.id = '2'",
        &schema,
        &mut db,
    ));
    let rows = all_rows(&db, "T");
    assert_eq!(
        rows,
        vec![
            vec!["1".to_string(), "a".to_string()],
            vec!["3".to_string(), "c".to_string()],
            vec!["4".to_string(), "d".to_string()],
            vec!["5".to_string(), "e".to_string()],
        ]
    );
    let t = db.tables.get(&"T".to_string()).unwrap();
    for p in t.pages.iter() {
        assert_eq!(p.header, vec!["id".to_string(), "name".to_string()]);
    }
}

#[test]
fn delete_without_where_is_an_error() {
    let schema = schema_one_table(2);
    let mut db = Database::new();
    init_db(&schema, &mut db);
    expect_success_none(execute_query("INSERT INTO T VALUES ('a')", &schema, &mut db));
    let e = expect_error(execute_query("DELETE FROM T", &schema, &mut db));
    assert_eq!(e, "No WHERE clause found");
    assert_eq!(all_rows(&db, "T").len(), 1);
}

#[test]
fn join_is_the_cartesian_product() {
    let schema = schema_two_tables(10);
    let mut db = Database::new();
    init_db(&schema, &mut db);
    expect_success_none(execute_query(
        "INSERT INTO T1 VALUES ('x'), ('y')",
        &schema,
        &mut db,
    ));
    expect_success_none(execute_query(
        "INSERT INTO T2 VALUES ('1'), ('2'), ('9')",
        &schema,
        &mut db,
    ));
    let m = expect_matrix(execute_query(
        "SELECT T1.id, T2.id FROM T1, T2",
        &schema,
        &mut db,
    ));
    assert_eq!(m.len(), 6);
}

#[test]
fn join_with_where_keeps_matching_pairs_only() {
    let schema = schema_two_tables(10);
    let mut db = Database::new();
    init_db(&schema, &mut db);
    // T1 rows: (1, x), (2, y)
    expect_success_none(execute_query(
        "INSERT INTO T1 VALUES ('x'), ('y')",
        &schema,
        &mut db,
    ));
    // T2 rows: (1, 1), (2, 2), (3, 9)
    expect_success_none(execute_query(
        "INSERT INTO T2 VALUES ('1'), ('2'), ('9')",
        &schema,
        &mut db,
    ));
    // The WHERE grammar compares a field against a literal, so the
    // effective join filter names each key explicitly.
    let m = expect_matrix(execute_query(
        "SELECT T1.name, T2.fk FROM T1, T2 WHERE T1.id = '1' AND T2.fk = '1' OR T1.id = '2' AND T2.fk = '2'",
        &schema,
        &mut db,
    ));
    assert_eq!(
        m,
        vec![
            vec!["x".to_string(), "1".to_string()],
            vec!["y".to_string(), "2".to_string()],
        ]
    );
}

#[test]
fn projection_keeps_declared_order() {
    let schema = schema_one_table(10);
    let mut db = Database::new();
    init_db(&schema, &mut db);
    expect_success_none(execute_query("INSERT INTO T VALUES ('a')", &schema, &mut db));
    let m = expect_matrix(execute_query("SELECT T.name, T.id FROM T", &schema, &mut db));
    assert_eq!(m, vec![vec!["a".to_string(), "1".to_string()]]);
}

#[test]
fn unqualified_columns_are_dropped() {
    let schema = schema_one_table(10);
    let mut db = Database::new();
    init_db(&schema, &mut db);
    expect_success_none(execute_query("INSERT INTO T VALUES ('a')", &schema, &mut db));
    let m = expect_matrix(execute_query("SELECT name, T.id FROM T", &schema, &mut db));
    assert_eq!(m, vec![vec!["1".to_string()]]);
}

#[test]
fn unknown_table_errors_everywhere() {
    let schema = schema_one_table(10);
    let mut db = Database::new();
    init_db(&schema, &mut db);
    let e = expect_error(execute_query("INSERT INTO NoSuch VALUES ('a')", &schema, &mut db));
    assert_eq!(e, "No such table in DB");
    let e = expect_error(execute_query(
        "DELETE FROM NoSuch WHERE NoSuch.id = '1'",
        &schema,
        &mut db,
    ));
    assert_eq!(e, "No such table in DB");
    let e = expect_error(execute_query("SELECT NoSuch.id FROM NoSuch", &schema, &mut db));
    assert_eq!(e, "No such table in DB");
    let e = expect_error(execute_query(
        "SELECT T.id, NoSuch.id FROM T, NoSuch",
        &schema,
        &mut db,
    ));
    assert_eq!(e, "No such table in DB");
}

#[test]
fn bad_leading_keyword_is_an_error() {
    let schema = schema_one_table(10);
    let mut db = Database::new();
    init_db(&schema, &mut db);
    let e = expect_error(execute_query("UPDATE T SET x = '1'", &schema, &mut db));
    assert_eq!(e, "Bad query");
}

#[test]
fn locked_table_fails_fast() {
    let schema = schema_one_table(10);
    let mut db = Database::new();
    init_db(&schema, &mut db);
    lock_table("T", &mut db);
    assert!(is_locked("T", &db));
    let e = expect_error(execute_query("INSERT INTO T VALUES ('a')", &schema, &mut db));
    assert_eq!(e, "Table is currently locked");
    let e = expect_error(execute_query(
        "DELETE FROM T WHERE T.id = '1'",
        &schema,
        &mut db,
    ));
    assert_eq!(e, "Table is currently locked");
    let e = expect_error(execute_query("SELECT T.id FROM T", &schema, &mut db));
    assert_eq!(e, "One or more tables are currently locked");
    unlock_table("T", &mut db);
    assert!(!is_locked("T", &db));
    expect_success_none(execute_query("INSERT INTO T VALUES ('a')", &schema, &mut db));
}

#[test]
fn lock_of_missing_table_reads_unlocked() {
    let db = Database::new();
    assert!(!is_locked("T", &db));
}

#[test]
fn counter_increments_and_persists() {
    let schema = schema_one_table(10);
    let mut db = Database::new();
    init_db(&schema, &mut db);
    assert_eq!(increment_pk_sequence(&mut db, "T"), Some(1));
    assert_eq!(increment_pk_sequence(&mut db, "T"), Some(2));
    assert_eq!(increment_pk_sequence(&mut db, "NoSuch"), None);
    let t = db.tables.get(&"T".to_string()).unwrap();
    assert_eq!(t.pk_counter, 2);
}

#[test]
fn wipe_clears_pages_but_keeps_counter() {
    let schema = schema_one_table(2);
    let mut db = Database::new();
    init_db(&schema, &mut db);
    expect_success_none(execute_query(
        "INSERT INTO T VALUES ('a'), ('b'), ('c')",
        &schema,
        &mut db,
    ));
    clear_csv_files(&schema, &mut db);
    let t = db.tables.get(&"T".to_string()).unwrap();
    assert_eq!(t.pages.len(), 0);
    assert_eq!(t.pk_counter, 3);
    // The next insert recreates page 1 and keeps numbering from the counter.
    expect_success_none(execute_query("INSERT INTO T VALUES ('d')", &schema, &mut db));
    assert_eq!(all_rows(&db, "T"), vec![vec!["4".to_string(), "d".to_string()]]);
}

#[test]
fn interleaved_batches_keep_keys_unique() {
    let schema = schema_one_table(2);
    let mut db = Database::new();
    init_db(&schema, &mut db);
    // Two workers' batches, serialized in some order by the mutual
    // exclusion primitive around each insert.
    expect_success_none(execute_query("INSERT INTO T VALUES ('w1a'), ('w1b')", &schema, &mut db));
    expect_success_none(execute_query("INSERT INTO T VALUES ('w2a')", &schema, &mut db));
    expect_success_none(execute_query("INSERT INTO T VALUES ('w1c')", &schema, &mut db));
    let rows = all_rows(&db, "T");
    let mut pks: Vec<String> = rows.iter().map(|r| r[0].clone()).collect();
    assert_eq!(pks, vec!["1", "2", "3", "4"]);
    pks.sort();
    pks.dedup();
    assert_eq!(pks.len(), 4);
}

#[test]
fn mid_batch_counter_state_is_kept() {
    let schema = schema_one_table(10);
    let mut db = Database::new();
    init_db(&schema, &mut db);
    expect_success_none(execute_query("INSERT INTO T VALUES ('a')", &schema, &mut db));
    let e = expect_error(execute_query("INSERT INTO NoSuch VALUES ('b')", &schema, &mut db));
    assert_eq!(e, "No such table in DB");
    // The failed command changed nothing; the next insert continues at 2.
    expect_success_none(execute_query("INSERT INTO T VALUES ('c')", &schema, &mut db));
    let rows = all_rows(&db, "T");
    assert_eq!(rows[1], vec!["2".to_string(), "c".to_string()]);
}

#[test]
fn select_all_from_empty_table_is_empty() {
    let schema = schema_one_table(10);
    let mut db = Database::new();
    init_db(&schema, &mut db);
    let m = expect_matrix(execute_query("SELECT T.id FROM T", &schema, &mut db));
    assert_eq!(m.len(), 0);
}

#[test]
fn uninitialized_table_state_is_an_error() {
    let schema = schema_one_table(10);
    let mut db = Database::new();
    // The table is declared but was never initialized on this state.
    let e = expect_error(execute_query("INSERT INTO T VALUES ('a')", &schema, &mut db));
    assert_eq!(e, "Table is not initialized");
    let e = expect_error(execute_query(
        "DELETE FROM T WHERE T.id = '1'",
        &schema,
        &mut db,
    ));
    assert_eq!(e, "Table is not initialized");
}

#[test]
fn exhausted_counter_is_an_error() {
    let schema = schema_one_table(10);
    let mut db = Database::new();
    init_db(&schema, &mut db);
    db.tables.get_mut(&"T".to_string()).unwrap().pk_counter = u64::MAX;
    let e = expect_error(execute_query("INSERT INTO T VALUES ('a')", &schema, &mut db));
    assert_eq!(e, "Primary key sequence exhausted");
    assert_eq!(increment_pk_sequence(&mut db, "T"), None);
}

#[test]
fn garbled_select_keyword_is_reported() {
    let schema = schema_one_table(10);
    let mut db = Database::new();
    init_db(&schema, &mut db);
    let e = expect_error(execute_query("SELECTx T.id FROM T", &schema, &mut db));
    assert_eq!(e, "No SELECT found");
}
