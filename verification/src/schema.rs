//! The keyspaces, tables and indexes of the storage.
use vstd::prelude::*;
use crate::query::{create_index, create_index_text, create_keyspace, create_keyspace_text, create_table,
    create_table_text};
use crate::text::views;

verus! {

/// The statements that create the schema, in the order they run: the
/// keyspaces, then the tables, then the indexes of the selection table.
pub open spec fn schema_text() -> Seq<Seq<char>> {
    seq![
        create_keyspace_text("user"@),
        create_keyspace_text("file"@),
        create_keyspace_text("peer"@),
        create_table_text("user"@, "user"@,
            "username text, name text, surname text, password text, email text, registration_date text, salt text"@,
            "username"@),
        create_table_text("file"@, "permission"@,
            "username text, file_id text, owner text, write text"@,
            "username, file_id"@),
        create_table_text("file"@, "file"@,
            "file_id text, username text, file_name text, file_size text, file_size_compressed text, file_type text, file_status text, upload_date text"@,
            "username, file_id"@),
        create_table_text("file"@, "piece"@,
            "file_id text, piece_order text, piece_size text, chunk_num text, replication_num text, chunk_peer text, chunk_hash text, transfer_length text, symbol_size text, source_blocks text, sub_blocks text, symbol_alignment text"@,
            "file_id, piece_order"@),
        create_table_text("peer"@, "peer"@,
            "peer_id text, username text, device_name text, country text, disk_size text, mount_point text, registration_date text"@,
            "username, device_name"@),
        create_table_text("peer"@, "selection"@,
            "peer_id text, disk_available bigint, last_liveness text, ranking text, country text, mount_point text, pieces text"@,
            "ranking, disk_available, peer_id"@),
        create_table_text("peer"@, "restriction"@,
            "peer_id text, penalty text, last_penalty text, ban text, last_ban text"@,
            "peer_id"@),
        create_table_text("peer"@, "performance"@,
            "peer_id text, uptime_start text, uptime_end text, disk_read text, disk_write text, throughput text"@,
            "peer_id, uptime_start"@),
        create_table_text("peer"@, "performance_history"@,
            "peer_id text, uptime_start text, uptime_end text, disk_read text, disk_write text, throughput text"@,
            "peer_id, uptime_start"@),
        create_table_text("peer"@, "liveness"@,
            "peer_id text, timestamp text, available text"@,
            "peer_id"@),
        create_index_text("peer"@, "selection"@, "last_liveness"@),
        create_index_text("peer"@, "selection"@, "peer_id"@),
        create_index_text("peer"@, "selection"@, "country"@),
    ]
}

/// The statements that create the schema, in the order they run.
pub fn schema_statements() -> (v: Vec<String>)
    ensures
        views(v@) == schema_text(),
{
    let mut v: Vec<String> = Vec::new();
    v.push(create_keyspace("user"));
    v.push(create_keyspace("file"));
    v.push(create_keyspace("peer"));
    v.push(create_table("user", "user",
        "username text, name text, surname text, password text, email text, registration_date text, salt text",
        "username"));
    v.push(create_table("file", "permission",
        "username text, file_id text, owner text, write text",
        "username, file_id"));
    v.push(create_table("file", "file",
        "file_id text, username text, file_name text, file_size text, file_size_compressed text, file_type text, file_status text, upload_date text",
        "username, file_id"));
    v.push(create_table("file", "piece",
        "file_id text, piece_order text, piece_size text, chunk_num text, replication_num text, chunk_peer text, chunk_hash text, transfer_length text, symbol_size text, source_blocks text, sub_blocks text, symbol_alignment text",
        "file_id, piece_order"));
    v.push(create_table("peer", "peer",
        "peer_id text, username text, device_name text, country text, disk_size text, mount_point text, registration_date text",
        "username, device_name"));
    v.push(create_table("peer", "selection",
        "peer_id text, disk_available bigint, last_liveness text, ranking text, country text, mount_point text, pieces text",
        "ranking, disk_available, peer_id"));
    v.push(create_table("peer", "restriction",
        "peer_id text, penalty text, last_penalty text, ban text, last_ban text",
        "peer_id"));
    v.push(create_table("peer", "performance",
        "peer_id text, uptime_start text, uptime_end text, disk_read text, disk_write text, throughput text",
        "peer_id, uptime_start"));
    v.push(create_table("peer", "performance_history",
        "peer_id text, uptime_start text, uptime_end text, disk_read text, disk_write text, throughput text",
        "peer_id, uptime_start"));
    v.push(create_table("peer", "liveness",
        "peer_id text, timestamp text, available text",
        "peer_id"));
    v.push(create_index("peer", "selection", "last_liveness"));
    v.push(create_index("peer", "selection", "peer_id"));
    v.push(create_index("peer", "selection", "country"));
    assert(views(v@) =~= schema_text());
    v
}


/// The piece table is keyed by the file and the piece's order: the
/// statement that creates it is the one for `file.piece` and ends with the
/// key `(file_id, piece_order)`, so that the pieces of one file are rows of
/// their own and can be read in their order.
pub proof fn law_piece_table_key()
    ensures
        schema_text()[6].take(39) == "CREATE TABLE IF NOT EXISTS file.piece ("@,
        schema_text()[6].skip(schema_text()[6].len() - 38) == ", PRIMARY KEY (file_id, piece_order));"@,
{
    reveal_strlit("CREATE TABLE IF NOT EXISTS ");
    reveal_strlit("file");
    reveal_strlit(".");
    reveal_strlit("piece");
    reveal_strlit(" (");
    reveal_strlit(", PRIMARY KEY (");
    reveal_strlit("file_id, piece_order");
    reveal_strlit("));");
    reveal_strlit("CREATE TABLE IF NOT EXISTS file.piece (");
    reveal_strlit(", PRIMARY KEY (file_id, piece_order));");
    let cols = "file_id text, piece_order text, piece_size text, chunk_num text, replication_num text, chunk_peer text, chunk_hash text, transfer_length text, symbol_size text, source_blocks text, sub_blocks text, symbol_alignment text"@;
    let pre = "CREATE TABLE IF NOT EXISTS "@ + "file"@ + "."@ + "piece"@ + " ("@;
    let suf = ", PRIMARY KEY ("@ + "file_id, piece_order"@ + "));"@;
    let s = schema_text()[6];
    assert(s == create_table_text("file"@, "piece"@, cols, "file_id, piece_order"@));
    assert(s =~= pre + cols + suf);
    assert(pre =~= "CREATE TABLE IF NOT EXISTS file.piece ("@);
    assert(suf =~= ", PRIMARY KEY (file_id, piece_order));"@);
    assert(s.take(39) =~= pre);
    assert(s.skip(s.len() - 38) =~= suf);
}
}
