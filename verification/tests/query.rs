use storage::columns::ColumnValues;
use storage::query::{
    create_index, create_keyspace, create_table, delete_from_table, get_from_table, insert_into_table,
    insert_into_table_with_num, update_table,
};
use storage::schema::schema_statements;

#[test]
fn keyspace_statement() {
    assert_eq!(
        create_keyspace("user"),
        "CREATE KEYSPACE IF NOT EXISTS user WITH replication = {'class':'SimpleStrategy', 'replication_factor':'1'};"
    );
}

#[test]
fn table_statement() {
    assert_eq!(
        create_table("peer", "liveness", "peer_id text, timestamp text, available text", "peer_id"),
        "CREATE TABLE IF NOT EXISTS peer.liveness (peer_id text, timestamp text, available text, PRIMARY KEY (peer_id));"
    );
}

#[test]
fn index_statement() {
    assert_eq!(create_index("peer", "selection", "country"), "CREATE INDEX ON peer.selection(country);");
}

#[test]
fn insert_statement_with_condition() {
    let mut m = ColumnValues::new();
    m.insert("username", "bob".to_string());
    m.insert("email", "b@x.org".to_string());
    assert_eq!(
        insert_into_table("user", "user", m, "IF NOT EXISTS"),
        "insert into user.user (username, email) values ('bob', 'b@x.org') IF NOT EXISTS;"
    );
}

#[test]
fn insert_statement_without_condition() {
    let mut m = ColumnValues::new();
    m.insert("peer_id", "p1".to_string());
    assert_eq!(insert_into_table("peer", "liveness", m, ""), "insert into peer.liveness (peer_id) values ('p1') ;");
}

#[test]
fn insert_statement_with_numbers() {
    let mut m = ColumnValues::new();
    m.insert("peer_id", "p1".to_string());
    m.insert("ranking", "1".to_string());
    let mut n = ColumnValues::new();
    n.insert("disk_available", "500".to_string());
    assert_eq!(
        insert_into_table_with_num("peer", "selection", m, n, ""),
        "insert into peer.selection (peer_id, ranking, disk_available) values ('p1', '1', 500) ;"
    );
}

#[test]
fn delete_statement() {
    assert_eq!(
        delete_from_table("file", "piece", "file_id='f1'".to_string()),
        "delete from file.piece where file_id='f1';"
    );
}

#[test]
fn select_statement_with_clause() {
    assert_eq!(
        get_from_table("user", "user", "*", "username='ann'".to_string()),
        "SELECT * FROM user.user WHERE username='ann';"
    );
}

#[test]
fn select_statement_without_clause() {
    assert_eq!(get_from_table("peer", "peer", "peer_id", String::new()), "SELECT peer_id FROM peer.peer;");
}

#[test]
fn update_statement() {
    assert_eq!(
        update_table("peer", "restriction", "penalty = '3'".to_string(), "peer_id = 'p'".to_string()),
        "update peer.restriction set penalty = '3' where peer_id = 'p';"
    );
}

#[test]
fn schema_creates_keyspaces_tables_and_indexes_in_order() {
    let s = schema_statements();
    assert_eq!(s.len(), 16);
    assert_eq!(s[0], create_keyspace("user"));
    assert_eq!(s[1], create_keyspace("file"));
    assert_eq!(s[2], create_keyspace("peer"));
    assert_eq!(
        s[3],
        "CREATE TABLE IF NOT EXISTS user.user (username text, name text, surname text, password text, email text, registration_date text, salt text, PRIMARY KEY (username));"
    );
    assert_eq!(
        s[8],
        "CREATE TABLE IF NOT EXISTS peer.selection (peer_id text, disk_available bigint, last_liveness text, ranking text, country text, mount_point text, pieces text, PRIMARY KEY (ranking, disk_available, peer_id));"
    );
    assert_eq!(s[13], "CREATE INDEX ON peer.selection(last_liveness);");
    assert_eq!(s[15], "CREATE INDEX ON peer.selection(country);");
}
