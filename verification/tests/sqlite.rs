use lsh_rs::table::general::HashTableError;
use lsh_rs::table::general::advance;
use lsh_rs::table::sqlite::{
    blob_to_hash, create_table_statement, get_table_names, hash_to_blob, init_table,
    insert_outcome, insert_statement, insert_table, make_table, put_result, select_statement,
    table_exists, table_exists_statement, tables_missing, InsertOutcome, SqlTable,
};
use rusqlite::Connection;

#[test]
fn test_sql_table_init() {
    let sql = SqlTable::new_in_mem(1, true).expect("could not open sqlite");
    let mut stmt = sql
        .conn()
        .prepare(&format!("SELECT * FROM {}", sql.table_names()[0]))
        .expect("query failed");
    let _r = stmt.query(()).expect("query failed");
}

#[test]
fn test_sql_crud() {
    let mut sql = SqlTable::new_in_mem(1, true).expect("could not open sqlite");
    let v = vec![1f32.to_bits(), 2f32.to_bits()];
    for hash in &[vec![1, 2], vec![2, 3]] {
        let _ = sql.put(hash.clone(), &v, 0);
    }
    // make one hash collision by repeating one hash
    let hash = vec![1, 2];
    let _ = sql.put(hash.clone(), &v, 0);
    let bucket = sql.query_bucket(&hash, 0);
    println!("{:?}", &bucket);
    match bucket {
        Ok(b) => assert!(b.contains(&0)),
        _ => assert!(false),
    }
}

#[test]
fn test_blob_hash_casting() {
    for hash in vec![
        &vec![2, 3, 4],
        &vec![-200, 687, 1245],
        &vec![1, 2, 3, 4, 5, 6],
        &vec![-8979875, -2, -3, 1, 2, 3, 4, 5, 6],
    ] {
        let hash = &hash[..];
        let blob = hash_to_blob(hash);
        let hash_back = blob_to_hash(&blob);
        assert_eq!(hash, &hash_back[..])
    }
}

#[test]
fn test_table_exist() {
    // connection w/ table
    let conn = Connection::open_in_memory().expect("could not open sqlite");
    let table_names = vec!["table_0".to_string()];
    init_table(&conn, &table_names).expect("could not make tables");
    assert_eq!(Ok(true), table_exists(&table_names[0], &conn));
    let _ = conn.close();
    // new connection wo/ tables
    let conn = Connection::open_in_memory().expect("could not open sqlite");
    assert_eq!(Ok(false), table_exists(&table_names[0], &conn));
}

#[test]
fn blob_is_little_endian() {
    assert_eq!(hash_to_blob(&[1]), vec![1u8, 0, 0, 0]);
    assert_eq!(hash_to_blob(&[-2]), vec![0xfeu8, 0xff, 0xff, 0xff]);
    assert_eq!(
        hash_to_blob(&[0x0102_0304, -200]),
        vec![4u8, 3, 2, 1, 0x38, 0xff, 0xff, 0xff]
    );
    assert_eq!(hash_to_blob(&[]), Vec::<u8>::new());
    assert_eq!(hash_to_blob(&[i32::MIN, i32::MAX]), vec![0u8, 0, 0, 0x80, 0xff, 0xff, 0xff, 0x7f]);
}

#[test]
fn blob_agrees_with_std_encoding() {
    for x in [0i32, 1, -1, 687, -8979875, i32::MIN, i32::MAX] {
        assert_eq!(hash_to_blob(&[x]), x.to_le_bytes().to_vec());
        assert_eq!(blob_to_hash(&x.to_le_bytes()), vec![x]);
    }
}

#[test]
fn blob_decoding_ignores_a_partial_component() {
    assert_eq!(blob_to_hash(&[1, 0, 0, 0, 9, 9]), vec![1]);
    assert_eq!(blob_to_hash(&[1, 0, 0]), Vec::<i32>::new());
    assert_eq!(blob_to_hash(&[]), Vec::<i32>::new());
}

#[test]
fn table_names_are_numbered_from_zero() {
    assert_eq!(get_table_names(0), Vec::<String>::new());
    assert_eq!(
        get_table_names(3),
        vec!["hash_table_0", "hash_table_1", "hash_table_2"]
    );
    let names = get_table_names(124);
    assert_eq!(names.len(), 124);
    assert_eq!(names[9], "hash_table_9");
    assert_eq!(names[10], "hash_table_10");
    assert_eq!(names[99], "hash_table_99");
    assert_eq!(names[100], "hash_table_100");
    assert_eq!(names[123], "hash_table_123");
}

#[test]
fn put_result_forgives_a_duplicate_only() {
    assert_eq!(put_result(7, InsertOutcome::Inserted), Ok(7));
    assert_eq!(put_result(7, InsertOutcome::Duplicate), Ok(7));
    assert_eq!(put_result(7, InsertOutcome::Failed), Err(HashTableError::Failed));
}

#[test]
fn insert_outcomes() {
    let conn = Connection::open_in_memory().expect("could not open sqlite");
    init_table(&conn, &get_table_names(1)).expect("could not make tables");
    let blob = hash_to_blob(&[1, 2]);
    assert_eq!(insert_table("hash_table_0", &blob, 0, &conn), InsertOutcome::Inserted);
    assert_eq!(insert_table("hash_table_0", &blob, 0, &conn), InsertOutcome::Duplicate);
    assert_eq!(insert_table("hash_table_0", &blob, 1, &conn), InsertOutcome::Inserted);
    assert_eq!(insert_table("no_such_table", &blob, 0, &conn), InsertOutcome::Failed);
}

#[test]
fn sql_insert_twice_leaves_one_row() {
    let sql_conn = Connection::open_in_memory().expect("could not open sqlite");
    let mut sql = SqlTable::new(1, true, sql_conn).expect("could not make tables");
    let blob = hash_to_blob(&[1, 2]);
    assert_eq!(insert_table("hash_table_0", &blob, 0, sql.conn()), InsertOutcome::Inserted);
    assert_eq!(insert_table("hash_table_0", &blob, 0, sql.conn()), InsertOutcome::Duplicate);
    let bucket = sql.query_bucket(&vec![1, 2], 0).expect("query failed");
    assert_eq!(bucket.len(), 1);
    assert!(bucket.contains(&0));
    let rows: u32 = sql
        .conn()
        .query_row("SELECT COUNT(*) FROM hash_table_0", (), |row| row.get(0))
        .expect("query failed");
    assert_eq!(rows, 1);
    // the identifier advances once per vector, and each put answers with it
    assert_eq!(sql.put(vec![5, 5], &[], 0), Ok(0));
    assert_eq!(sql.put(vec![5, 5], &[], 0), Ok(1));
    let bucket = sql.query_bucket(&vec![5, 5], 0).expect("query failed");
    assert_eq!(bucket.len(), 2);
}

#[test]
fn sql_counter_advances_after_last_table() {
    let mut sql = SqlTable::new_in_mem(3, true).expect("could not open sqlite");
    let v = vec![0u32];
    assert_eq!(sql.put(vec![1], &v, 0), Ok(0));
    assert_eq!(sql.put(vec![-1], &v, 1), Ok(0));
    assert_eq!(sql.put(vec![1], &v, 2), Ok(0));
    assert_eq!(sql.put(vec![1], &v, 0), Ok(1));
    assert_eq!(sql.put(vec![1], &v, 3), Err(HashTableError::TableNotExist));
    assert_eq!(sql.put(vec![1], &v, 1), Ok(1));
    let b0 = sql.query_bucket(&vec![1], 0).expect("query failed");
    assert!(b0.contains(&0) && b0.contains(&1) && b0.len() == 2);
    let b1 = sql.query_bucket(&vec![-1], 1).expect("query failed");
    assert!(b1.contains(&0) && b1.len() == 1);
    let none = sql.query_bucket(&vec![9], 1).expect("query failed");
    assert!(none.is_empty());
    assert_eq!(sql.query_bucket(&vec![1], 3), Err(HashTableError::TableNotExist));
    assert_eq!(sql.idx_to_datapoint(0), Err(HashTableError::NotImplemented));
    assert_eq!(sql.delete(vec![1], &v, 0), Ok(()));
    let b0 = sql.query_bucket(&vec![1], 0).expect("query failed");
    assert_eq!(b0.len(), 2);
}

#[test]
fn sql_new_keeps_existing_tables() {
    let conn = Connection::open_in_memory().expect("could not open sqlite");
    init_table(&conn, &get_table_names(2)).expect("could not make tables");
    let blob = hash_to_blob(&[3]);
    assert_eq!(insert_table("hash_table_1", &blob, 4, &conn), InsertOutcome::Inserted);
    let sql = SqlTable::new(2, true, conn).expect("could not make tables");
    let bucket = sql.query_bucket(&vec![3], 1).expect("query failed");
    assert!(bucket.contains(&4));
    assert_eq!(sql.get_table_name(1), Ok("hash_table_1"));
    assert_eq!(sql.get_table_name(2), Err(HashTableError::TableNotExist));
}

#[test]
fn sql_failure_of_the_database_is_reported() {
    let mut sql = SqlTable::new_in_mem(2, true).expect("could not open sqlite");
    sql.conn().execute("DROP TABLE hash_table_0", ()).expect("could not drop");
    assert_eq!(sql.put(vec![1], &[], 0), Err(HashTableError::Failed));
    assert_eq!(sql.query_bucket(&vec![1], 0), Err(HashTableError::Failed));
    // the identifier still advances after the last table
    assert_eq!(sql.put(vec![1], &[], 1), Ok(0));
    assert_eq!(sql.put(vec![1], &[], 1), Ok(1));
    // tables that exist already cannot be made again
    let conn = Connection::open_in_memory().expect("could not open sqlite");
    init_table(&conn, &get_table_names(2)).expect("could not make tables");
    assert!(init_table(&conn, &get_table_names(3)).is_err());
    assert_eq!(table_exists("hash_table_2", &conn), Ok(false));
}

#[test]
fn insert_outcome_reads_the_answer() {
    assert_eq!(insert_outcome(true, false), InsertOutcome::Inserted);
    assert_eq!(insert_outcome(true, true), InsertOutcome::Inserted);
    assert_eq!(insert_outcome(false, true), InsertOutcome::Duplicate);
    assert_eq!(insert_outcome(false, false), InsertOutcome::Failed);
}

#[test]
fn init_table_with_no_names_creates_nothing() {
    let conn = Connection::open_in_memory().expect("could not open sqlite");
    assert_eq!(init_table(&conn, &vec![]), Ok(()));
    assert_eq!(table_exists("hash_table_0", &conn), Ok(false));
    assert_eq!(make_table("hash_table_0", &conn), Ok(()));
    assert_eq!(table_exists("hash_table_0", &conn), Ok(true));
    assert!(make_table("hash_table_0", &conn).is_err());
}

#[test]
fn tables_are_made_only_where_the_database_says_none_is_there() {
    assert!(tables_missing(Some(false)));
    assert!(!tables_missing(Some(true)));
    assert!(!tables_missing(None));
}

#[test]
fn sql_new_makes_the_tables_of_a_fresh_database() {
    let conn = Connection::open_in_memory().expect("could not open sqlite");
    let mut sql = SqlTable::new(3, true, conn).expect("could not make tables");
    for name in ["hash_table_0", "hash_table_1", "hash_table_2"] {
        assert_eq!(table_exists(name, sql.conn()), Ok(true));
    }
    assert_eq!(table_exists("hash_table_3", sql.conn()), Ok(false));
    assert_eq!(sql.put(vec![1], &[], 2), Ok(0));
    assert_eq!(sql.put(vec![1], &[], 0), Ok(1));
}

#[test]
fn statements_name_the_table() {
    assert_eq!(
        create_table_statement("hash_table_0"),
        "CREATE TABLE hash_table_0 (hash BLOB, id INTEGER, PRIMARY KEY (hash, id))"
    );
    assert_eq!(
        table_exists_statement("t"),
        "SELECT name FROM sqlite_master WHERE type='table' AND name='t';"
    );
    assert_eq!(insert_statement("t"), "INSERT INTO t (hash, id) VALUES (?1, ?2)");
    assert_eq!(select_statement("t"), "SELECT (id) FROM t WHERE hash = ?");
}

#[test]
fn identifiers_start_again_after_the_last() {
    assert_eq!(advance(0), 1);
    assert_eq!(advance(41), 42);
    assert_eq!(advance(u32::MAX - 1), u32::MAX);
    assert_eq!(advance(u32::MAX), 0);
}
