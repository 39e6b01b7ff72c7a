use tiny_rust::sql::Database;

fn sql(db: &mut Database, q: &str) -> String {
    String::from_utf8(db.exec_sql(q.as_bytes())).unwrap()
}

#[test]
fn sql_create_insert_select() {
    let mut db = Database::new();
    assert_eq!(sql(&mut db, "CREATE TABLE users (id INT, name TEXT)"), "OK: table created\n");
    assert_eq!(sql(&mut db, "INSERT INTO users VALUES (1, 'alice')"), "OK: 1 row inserted\n");
    assert_eq!(sql(&mut db, "insert into USERS values (-2, 'bob''s')"), "OK: 1 row inserted\n");
    assert_eq!(sql(&mut db, "SELECT * FROM users"), "id\tname\n1\talice\n-2\tbob's\n");
    assert_eq!(sql(&mut db, "SELECT name FROM users WHERE id = -2"), "name\nbob's\n");
    assert_eq!(sql(&mut db, "SELECT name, id FROM users WHERE name = 'alice'"), "name\tid\nalice\t1\n");
}

#[test]
fn sql_errors() {
    let mut db = Database::new();
    assert_eq!(sql(&mut db, "CREATE users"), "ERROR: expected TABLE\n");
    assert_eq!(sql(&mut db, "CREATE TABLE (x INT)"), "ERROR: expected table name\n");
    assert_eq!(sql(&mut db, "CREATE TABLE t (x FLOAT)"), "ERROR: expected INT or TEXT\n");
    assert_eq!(sql(&mut db, "CREATE TABLE t x INT"), "ERROR: expected (\n");
    assert_eq!(sql(&mut db, "CREATE TABLE t (x INT y INT)"), "ERROR: expected , or )\n");
    assert_eq!(sql(&mut db, "CREATE TABLE t (x INT)"), "OK: table created\n");
    assert_eq!(sql(&mut db, "CREATE TABLE T (x INT)"), "ERROR: table already exists\n");
    assert_eq!(sql(&mut db, "INSERT INTO u VALUES (1)"), "ERROR: table not found\n");
    assert_eq!(sql(&mut db, "INSERT INTO t VALUES (1, 2)"), "ERROR: too many values\n");
    assert_eq!(sql(&mut db, "INSERT INTO t VALUES ()"), "ERROR: column count mismatch\n");
    assert_eq!(sql(&mut db, "INSERT t VALUES (1)"), "ERROR: expected INTO\n");
    assert_eq!(sql(&mut db, "SELECT y FROM t"), "ERROR: column not found\n");
    assert_eq!(sql(&mut db, "SELECT * FROM t WHERE x"), "ERROR: invalid WHERE clause\n");
    assert_eq!(sql(&mut db, "SELECT *"), "ERROR: expected FROM\n");
    assert_eq!(sql(&mut db, "UPDATE t SET y = 1"), "ERROR: column not found\n");
    assert_eq!(sql(&mut db, "UPDATE t x = 1"), "ERROR: expected SET\n");
    assert_eq!(sql(&mut db, "DELETE t"), "ERROR: expected FROM\n");
    assert_eq!(sql(&mut db, "DROP t"), "ERROR: expected TABLE\n");
    assert_eq!(sql(&mut db, "HELLO"), "ERROR: unknown command\n");
    let long = format!("CREATE TABLE {} (x INT)", "n".repeat(33));
    assert_eq!(sql(&mut db, &long), "ERROR: table name too long\n");
}

#[test]
fn sql_update_delete_drop() {
    let mut db = Database::new();
    sql(&mut db, "CREATE TABLE t (k INT, v TEXT)");
    sql(&mut db, "INSERT INTO t VALUES (1, 'a')");
    sql(&mut db, "INSERT INTO t VALUES (2, 'b')");
    sql(&mut db, "INSERT INTO t VALUES (1, 'c')");
    assert_eq!(sql(&mut db, "UPDATE t SET v = 'z' WHERE k = 1"), "OK: 2 rows updated\n");
    assert_eq!(sql(&mut db, "SELECT v FROM t"), "v\nz\nb\nz\n");
    assert_eq!(sql(&mut db, "DELETE FROM t WHERE v = 'z'"), "OK: 2 rows deleted\n");
    assert_eq!(sql(&mut db, "SELECT * FROM t"), "k\tv\n2\tb\n");
    // the freed row slot is reused first
    sql(&mut db, "INSERT INTO t VALUES (3, 'd')");
    assert_eq!(sql(&mut db, "SELECT k FROM t"), "k\n3\n2\n");
    assert_eq!(sql(&mut db, "UPDATE t SET k = 0"), "OK: 2 rows updated\n");
    assert_eq!(sql(&mut db, "DROP TABLE t"), "OK: table dropped\n");
    assert_eq!(sql(&mut db, "SELECT * FROM t"), "ERROR: table not found\n");
}

#[test]
fn sql_http_routes() {
    let mut db = Database::new();
    let body = "CREATE TABLE a (x INT)";
    let req = format!("POST /sql HTTP/1.1\r\nContent-Length: {}\r\n\r\n{}", body.len(), body);
    let resp = String::from_utf8(db.handle_http(req.as_bytes())).unwrap();
    assert_eq!(
        resp,
        "HTTP/1.1 200 OK\r\nContent-Type: text/plain\r\nConnection: close\r\nContent-Length: 18\r\n\r\nOK: table created\n"
    );
    sql(&mut db, "INSERT INTO a VALUES (5)");
    let resp = String::from_utf8(db.handle_http(b"GET /stats HTTP/1.1\r\n\r\n")).unwrap();
    assert!(resp.ends_with("\r\n\r\ntables: 1\na: 1 rows\n"));
    let resp = String::from_utf8(db.handle_http(b"GET /tables HTTP/1.1\r\n\r\n")).unwrap();
    assert!(resp.ends_with("\r\n\r\na\n"));
    let resp = String::from_utf8(db.handle_http(b"GET /nope HTTP/1.1\r\n\r\n")).unwrap();
    assert!(resp.starts_with("HTTP/1.1 404 Not Found\r\n"));
    assert!(resp.ends_with("not found\n"));
    let resp = String::from_utf8(db.handle_http(b"GET /tables")).unwrap();
    assert_eq!(resp, "HTTP/1.1 400 Bad Request\r\n\r\n");
}
