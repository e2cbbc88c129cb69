//! CQL statement text for the keyspaces and tables of the storage.
use vstd::prelude::*;
use crate::columns::{ColumnValues, column_names, column_values};
use crate::constants::{REPLICATION_FACTOR_DB, REPLICATION_STRATEGY_DB};
use crate::text::seq_join;

verus! {

/// `CREATE KEYSPACE IF NOT EXISTS <key> WITH replication = {'class':'<strategy>', 'replication_factor':'<factor>'};`
pub open spec fn create_keyspace_text(key: Seq<char>) -> Seq<char> {
    "CREATE KEYSPACE IF NOT EXISTS "@ + key + " WITH replication = {'class':'"@
        + REPLICATION_STRATEGY_DB@ + "', 'replication_factor':'"@ + REPLICATION_FACTOR_DB@ + "'};"@
}

/// `CREATE TABLE IF NOT EXISTS <key>.<table> (<columns>, PRIMARY KEY (<pk>));`
pub open spec fn create_table_text(key: Seq<char>, table: Seq<char>, columns: Seq<char>, pk: Seq<char>) -> Seq<char> {
    "CREATE TABLE IF NOT EXISTS "@ + key + "."@ + table + " ("@ + columns + ", PRIMARY KEY ("@ + pk + "));"@
}

/// `CREATE INDEX ON <key>.<table>(<column>);`
pub open spec fn create_index_text(key: Seq<char>, table: Seq<char>, column: Seq<char>) -> Seq<char> {
    "CREATE INDEX ON "@ + key + "."@ + table + "("@ + column + ");"@
}

/// `insert into <key>.<table> (<c1, c2>) values ('<v1>', '<v2>') <extra>;`
pub open spec fn insert_text(key: Seq<char>, table: Seq<char>, msg: Seq<(Seq<char>, Seq<char>)>, extra: Seq<char>) -> Seq<char> {
    "insert into "@ + key + "."@ + table + " ("@ + seq_join(column_names(msg), ", "@) + ") values ("@
        + "'"@ + seq_join(column_values(msg), "', '"@) + "'"@ + ") "@ + extra + ";"@
}

/// As `insert_text`, with a second list of columns whose values are written unquoted.
pub open spec fn insert_with_num_text(
    key: Seq<char>,
    table: Seq<char>,
    msg: Seq<(Seq<char>, Seq<char>)>,
    msg2: Seq<(Seq<char>, Seq<char>)>,
    extra: Seq<char>,
) -> Seq<char> {
    "insert into "@ + key + "."@ + table + " ("@ + seq_join(column_names(msg), ", "@) + ", "@
        + seq_join(column_names(msg2), ", "@) + ") values ("@ + "'"@ + seq_join(column_values(msg), "', '"@)
        + "'"@ + ", "@ + seq_join(column_values(msg2), ", "@) + ") "@ + extra + ";"@
}

/// `delete from <key>.<table> where <clause>;`
pub open spec fn delete_text(key: Seq<char>, table: Seq<char>, clause: Seq<char>) -> Seq<char> {
    "delete from "@ + key + "."@ + table + " where "@ + clause + ";"@
}

/// `SELECT <select> FROM <key>.<table>;`, with ` WHERE <clause>` before the `;` when the clause is not empty.
pub open spec fn select_text(key: Seq<char>, table: Seq<char>, select: Seq<char>, clause: Seq<char>) -> Seq<char> {
    if clause.len() == 0 {
        "SELECT "@ + select + " FROM "@ + key + "."@ + table + ";"@
    } else {
        "SELECT "@ + select + " FROM "@ + key + "."@ + table + " WHERE "@ + clause + ";"@
    }
}

/// `update <key>.<table> set <new_value> where <clause>;`
pub open spec fn update_text(key: Seq<char>, table: Seq<char>, new_value: Seq<char>, clause: Seq<char>) -> Seq<char> {
    "update "@ + key + "."@ + table + " set "@ + new_value + " where "@ + clause + ";"@
}

/// The statement that creates keyspace `key`.
pub fn create_keyspace(key: &str) -> (q: String)
    ensures
        q@ == create_keyspace_text(key@),
{
    let mut q = String::new();
    q.append("CREATE KEYSPACE IF NOT EXISTS ");
    q.append(key);
    q.append(" WITH replication = {'class':'");
    q.append(REPLICATION_STRATEGY_DB);
    q.append("', 'replication_factor':'");
    q.append(REPLICATION_FACTOR_DB);
    q.append("'};");
    assert(q@ =~= create_keyspace_text(key@));
    q
}

/// The statement that creates table `key.table`.
pub fn create_table(key: &str, table: &str, columns: &str, pk: &str) -> (q: String)
    ensures
        q@ == create_table_text(key@, table@, columns@, pk@),
{
    let mut q = String::new();
    q.append("CREATE TABLE IF NOT EXISTS ");
    q.append(key);
    q.append(".");
    q.append(table);
    q.append(" (");
    q.append(columns);
    q.append(", PRIMARY KEY (");
    q.append(pk);
    q.append("));");
    assert(q@ =~= create_table_text(key@, table@, columns@, pk@));
    q
}

/// The statement that indexes `column` of `key.table`.
pub fn create_index(key: &str, table: &str, column: &str) -> (q: String)
    ensures
        q@ == create_index_text(key@, table@, column@),
{
    let mut q = String::new();
    q.append("CREATE INDEX ON ");
    q.append(key);
    q.append(".");
    q.append(table);
    q.append("(");
    q.append(column);
    q.append(");");
    assert(q@ =~= create_index_text(key@, table@, column@));
    q
}

/// The statement that inserts the row `msg` into `key.table`, with `extra` before the `;`.
pub fn insert_into_table(key: &str, table: &str, msg: ColumnValues, extra: &str) -> (q: String)
    ensures
        q@ == insert_text(key@, table@, msg@, extra@),
{
    let columns = msg.joined_names(", ");
    let values = msg.joined_values("', '");
    let mut q = String::new();
    q.append("insert into ");
    q.append(key);
    q.append(".");
    q.append(table);
    q.append(" (");
    q.append(columns.as_str());
    q.append(") values (");
    q.append("'");
    q.append(values.as_str());
    q.append("'");
    q.append(") ");
    q.append(extra);
    q.append(";");
    assert(q@ =~= insert_text(key@, table@, msg@, extra@));
    q
}

/// The statement that inserts the row `msg` (quoted values) and `msg2` (unquoted values) into `key.table`.
pub fn insert_into_table_with_num(key: &str, table: &str, msg: ColumnValues, msg2: ColumnValues, extra: &str) -> (q: String)
    ensures
        q@ == insert_with_num_text(key@, table@, msg@, msg2@, extra@),
{
    let columns = msg.joined_names(", ");
    let values = msg.joined_values("', '");
    let columns2 = msg2.joined_names(", ");
    let values2 = msg2.joined_values(", ");
    let mut q = String::new();
    q.append("insert into ");
    q.append(key);
    q.append(".");
    q.append(table);
    q.append(" (");
    q.append(columns.as_str());
    q.append(", ");
    q.append(columns2.as_str());
    q.append(") values (");
    q.append("'");
    q.append(values.as_str());
    q.append("'");
    q.append(", ");
    q.append(values2.as_str());
    q.append(") ");
    q.append(extra);
    q.append(";");
    assert(q@ =~= insert_with_num_text(key@, table@, msg@, msg2@, extra@));
    q
}

/// The statement that deletes the rows of `key.table` that `clause` selects.
pub fn delete_from_table(key: &str, table: &str, clause: String) -> (q: String)
    ensures
        q@ == delete_text(key@, table@, clause@),
{
    let mut q = String::new();
    q.append("delete from ");
    q.append(key);
    q.append(".");
    q.append(table);
    q.append(" where ");
    q.append(clause.as_str());
    q.append(";");
    assert(q@ =~= delete_text(key@, table@, clause@));
    q
}

/// The query that reads `select` from the rows of `key.table` that `clause` selects (all rows when it is empty).
pub fn get_from_table(key: &str, table: &str, select: &str, clause: String) -> (q: String)
    ensures
        q@ == select_text(key@, table@, select@, clause@),
{
    let mut q = String::new();
    q.append("SELECT ");
    q.append(select);
    q.append(" FROM ");
    q.append(key);
    q.append(".");
    q.append(table);
    if clause.as_str().is_empty() {
        q.append(";");
    } else {
        q.append(" WHERE ");
        q.append(clause.as_str());
        q.append(";");
    }
    assert(q@ =~= select_text(key@, table@, select@, clause@));
    q
}

/// The statement that sets `new_value` on the rows of `key.table` that `clause` selects.
pub fn update_table(key: &str, table: &str, new_value: String, clause: String) -> (q: String)
    ensures
        q@ == update_text(key@, table@, new_value@, clause@),
{
    let mut q = String::new();
    q.append("update ");
    q.append(key);
    q.append(".");
    q.append(table);
    q.append(" set ");
    q.append(new_value.as_str());
    q.append(" where ");
    q.append(clause.as_str());
    q.append(";");
    assert(q@ =~= update_text(key@, table@, new_value@, clause@));
    q
}

}
