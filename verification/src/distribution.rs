//! Spreading the chunks of a file over the peers and keeping the peer
//! selection table in step: what each peer holds and how much disk it has left.
use vstd::prelude::*;
use crate::columns::{ColumnValues, keys_distinct, law_read_after_write, position_of, value_of, with_column, without_column};
use crate::coding::{TransmissionInfo, ceil_div, decodable, encode, info_tuple, raptorq_packets, raptorq_parameters};
use crate::constants::{FILE_STORAGE_FOLDER, MTU, PIECE_SIZE};
use crate::hashing::{calculate_hash, hex_text, sha256};
use crate::query::{get_from_table, select_text, update_table, update_text};
use crate::text::{debug_string, debug_text, join, push_decimal};
use crate::upload::assignment_view;
use crate::protobuf::MsgChunk;
use crate::columns::{lemma_column_names, lemma_with_new_column};
use crate::json::{json_object_text, json_string_map, json_text, lemma_read_map_distinct, reads_as};
use crate::query::{delete_from_table, delete_text, insert_into_table_with_num, insert_with_num_text};
use crate::text::{order_by_text, text_less, count_char, lemma_count_concat, lemma_split_len, seq_join, decimal, has_prefix, int_to_string, parse_i32, split_char, split_on, starts_with, views};
use crate::upload::{parsed_i32, parses_as_i32};

verus! {

/// The distribution of the chunks of one file.
pub struct Distribution {
    file_id: String,
}

impl Distribution {
    /// The file whose chunks are distributed.
    pub closed spec fn id(&self) -> Seq<char> {
        self.file_id@
    }

    /// A distribution for file `id`.
    pub fn new(id: String) -> (d: Distribution)
        ensures
            d.id() == id@,
    {
        Distribution { file_id: id }
    }

    /// The file whose chunks are distributed.
    pub fn file_id(&self) -> (id: &String)
        ensures
            id@ == self.id(),
    {
        &self.file_id
    }

    /// The message that carries chunk `chunk_id` of piece `piece_id`.
    pub fn chunk_message(&self, piece_id: &str, chunk_id: &str, chunk_bytes: Vec<u8>) -> (m: MsgChunk)
        ensures
            m.file_id@ == self.id(),
            m.piece_id@ == piece_id@,
            m.chunk_id@ == chunk_id@,
            m.chunk_bytes@ == chunk_bytes@,
    {
        MsgChunk {
            file_id: self.file_id.clone(),
            piece_id: piece_id.to_string(),
            chunk_id: chunk_id.to_string(),
            chunk_bytes,
        }
    }
}

/// Piece `k` of a file: the bytes from `k * PIECE_SIZE`, at most `PIECE_SIZE` of them.
pub open spec fn piece_bytes(bytes: Seq<u8>, k: int) -> Seq<u8> {
    let start = k * PIECE_SIZE;
    let end = if start + PIECE_SIZE < bytes.len() { start + PIECE_SIZE } else { bytes.len() as int };
    bytes.subrange(start, end)
}

/// How many pieces `bytes.chunks(PIECE_SIZE)` gives.
pub open spec fn piece_count(len: nat) -> nat {
    ((len + PIECE_SIZE - 1) / (PIECE_SIZE as int)) as nat
}

/// Cuts the content of a file into pieces, as `bytes.chunks(PIECE_SIZE)` does.
pub fn split_into_pieces(bytes: &Vec<u8>) -> (pieces: Vec<Vec<u8>>)
    ensures
        pieces@.len() == piece_count(bytes@.len()),
        forall|k: int| 0 <= k < pieces@.len() ==> (#[trigger] pieces@[k])@ == piece_bytes(bytes@, k),
{
    let mut pieces: Vec<Vec<u8>> = Vec::new();
    let n = bytes.len();
    let mut start: usize = 0;
    let size: usize = PIECE_SIZE as usize;
    assert(piece_count(0) == 0);
    while start < n
        invariant
            n == bytes@.len(),
            size == PIECE_SIZE,
            start <= n,
            start < n ==> start == pieces@.len() * PIECE_SIZE,
            start == n ==> pieces@.len() == piece_count(n as nat),
            forall|k: int| 0 <= k < pieces@.len() ==> (#[trigger] pieces@[k])@ == piece_bytes(bytes@, k),
        decreases n - start,
    {
        let end: usize = if n - start > size { start + size } else { n };
        let mut piece: Vec<u8> = Vec::new();
        let mut j: usize = start;
        while j < end
            invariant
                start <= j <= end <= n,
                n == bytes@.len(),
                piece@ == bytes@.subrange(start as int, j as int),
            decreases end - j,
        {
            piece.push(bytes[j]);
            assert(piece@ =~= bytes@.subrange(start as int, j + 1));
            j = j + 1;
        }
        let ghost k = pieces@.len() as int;
        assert(piece@ == piece_bytes(bytes@, k));
        let ghost prev = pieces@;
        pieces.push(piece);
        assert forall|m: int| 0 <= m < pieces@.len() implies (#[trigger] pieces@[m])@ == piece_bytes(bytes@, m) by {
            if m < k {
                assert(pieces@[m] == prev[m]);
            }
        }
        assert(end == n ==> pieces@.len() == piece_count(n as nat)) by {
            if end == n {
                assert(k * PIECE_SIZE < n <= (k + 1) * PIECE_SIZE);
                assert((n + PIECE_SIZE - 1) / (PIECE_SIZE as int) == k + 1);
            }
        }
        start = end;
    }
    pieces
}

/// The pieces of a file in the order they are sent: the piece identifiers
/// taken in the order of their texts (as a `BTreeMap` keyed by them is
/// walked), the `k`-th of them paired with piece `k` of `bytes`. There must
/// be no more identifiers than pieces.
pub fn pieces_in_send_order(bytes: &Vec<u8>, piece_ids: &Vec<String>) -> (v: Vec<(usize, Vec<u8>)>)
    requires
        forall|i: int, j: int| 0 <= i < piece_ids@.len() && 0 <= j < piece_ids@.len() && i != j
            ==> piece_ids@[i]@ != piece_ids@[j]@,
        piece_ids@.len() <= piece_count(bytes@.len()),
    ensures
        v@.len() == piece_ids@.len(),
        forall|k: int| 0 <= k < v@.len() ==> (#[trigger] v@[k]).0 < piece_ids@.len()
            && v@[k].1@ == piece_bytes(bytes@, k),
        forall|a: int, b: int| 0 <= a < b < v@.len()
            ==> text_less(piece_ids@[v@[a].0 as int]@, piece_ids@[v@[b].0 as int]@),
{
    let pieces = split_into_pieces(bytes);
    let order = order_by_text(piece_ids);
    let mut v: Vec<(usize, Vec<u8>)> = Vec::new();
    let mut k: usize = 0;
    while k < order.len()
        invariant
            k <= order@.len(),
            order@.len() == piece_ids@.len(),
            piece_ids@.len() <= pieces@.len(),
            forall|m: int| 0 <= m < pieces@.len() ==> (#[trigger] pieces@[m])@ == piece_bytes(bytes@, m),
            forall|a: int| 0 <= a < order@.len() ==> #[trigger] order@[a] < piece_ids@.len(),
            v@.len() == k,
            forall|m: int| 0 <= m < k ==> (#[trigger] v@[m]).0 == order@[m] && v@[m].1@ == piece_bytes(bytes@, m),
        decreases order.len() - k,
    {
        let piece = pieces[k].clone();
        assert(piece@ == pieces@[k as int]@);
        v.push((order[k], piece));
        k = k + 1;
    }
    v
}

/// The name under which chunk `chunk_id` of piece `piece_id` of file `file_id` is kept.
pub open spec fn chunk_file_name_spec(file_id: Seq<char>, piece_id: Seq<char>, chunk_id: Seq<char>) -> Seq<char> {
    file_id + "_"@ + piece_id + "_"@ + chunk_id
}

/// The name under which a chunk is kept: `<file>_<piece>_<chunk>`.
pub fn chunk_file_name(file_id: &str, piece_id: &str, chunk_id: &str) -> (name: String)
    ensures
        name@ == chunk_file_name_spec(file_id@, piece_id@, chunk_id@),
{
    let mut name = file_id.to_string();
    name.append("_");
    name.append(piece_id);
    name.append("_");
    name.append(chunk_id);
    name
}

/// The path of a kept chunk: `<storage folder>/<name>`.
pub fn chunk_path(name: &str) -> (path: String)
    ensures
        path@ == FILE_STORAGE_FOLDER@ + "/"@ + name@,
{
    let mut path = FILE_STORAGE_FOLDER.to_string();
    path.append("/");
    path.append(name);
    path
}

/// Whether the kept file `name` holds a chunk of file `file_id`: its name begins with `<file_id>_`.
pub fn is_chunk_of(name: &str, file_id: &str) -> (r: bool)
    ensures
        r == has_prefix(name@, file_id@ + "_"@),
{
    let mut prefix = file_id.to_string();
    prefix.append("_");
    starts_with(name, prefix.as_str())
}


/// How a peer's pieces map records chunk `chunk_id` of piece `piece_id`: `<piece>_<chunk>`.
pub open spec fn chunk_record(piece_id: Seq<char>, chunk_id: Seq<char>) -> Seq<char> {
    piece_id + "_"@ + chunk_id
}

/// A peer's pieces map after it stored a chunk of file `file_id`: the record
/// is appended to the file's entry, after a comma and a space, or starts it.
pub open spec fn after_store(m: Seq<(Seq<char>, Seq<char>)>, file_id: Seq<char>, piece_id: Seq<char>, chunk_id: Seq<char>)
    -> Seq<(Seq<char>, Seq<char>)> {
    match position_of(m, file_id) {
        Some(i) => with_column(m, file_id, m[i].1 + ", "@ + chunk_record(piece_id, chunk_id)),
        None => with_column(m, file_id, chunk_record(piece_id, chunk_id)),
    }
}

/// Records in a peer's pieces map that it stored chunk `chunk_id` of piece `piece_id` of file `file_id`.
pub fn record_chunk(pieces: &mut ColumnValues, file_id: &str, piece_id: &str, chunk_id: &str)
    ensures
        final(pieces)@ == after_store(old(pieces)@, file_id@, piece_id@, chunk_id@),
{
    let mut record = piece_id.to_string();
    record.append("_");
    record.append(chunk_id);
    let value: String = match pieces.get(file_id) {
        Some(v) => {
            let mut joined = v.clone();
            joined.append(", ");
            joined.append(record.as_str());
            joined
        },
        None => record,
    };
    pieces.insert(file_id, value);
}

/// The clause that selects the row of `peer` in the selection table.
pub open spec fn selection_peer_clause(peer: Seq<char>) -> Seq<char> {
    "peer_id = '"@ + peer + "'"@
}

/// The statement that reads the row of `peer` in the selection table.
pub fn selection_row_query(peer: &str) -> (q: String)
    ensures
        q@ == select_text("peer"@, "selection"@, "*"@, selection_peer_clause(peer@)),
{
    let mut clause = String::new();
    clause.append("peer_id = '");
    clause.append(peer);
    clause.append("'");
    assert(clause@ =~= selection_peer_clause(peer@));
    get_from_table("peer", "selection", "*", clause)
}

/// The row of a peer in the selection table, as read back.
pub struct PeerSelectionRow {
    pub disk_available: String,
    pub ranking: String,
    pub country: String,
    pub last_liveness: String,
    pub mount_point: String,
    pub pieces: String,
}

/// The two statements that replace a peer's selection row.
pub struct SelectionRewrite {
    pub delete_query: String,
    pub insert_query: String,
}

/// The clause that selects a peer's row when it stored a chunk.
pub open spec fn store_delete_clause(peer: Seq<char>, ranking: Seq<char>, disk: Seq<char>) -> Seq<char> {
    "peer_id = '"@ + peer + "' and ranking = '"@ + ranking + "' and disk_available = "@ + disk
}

/// The row that a peer's selection row becomes when it stored a chunk.
pub open spec fn store_row(peer: Seq<char>, row: PeerSelectionRow, pieces_text: Seq<char>) -> Seq<(Seq<char>, Seq<char>)> {
    seq![
        ("peer_id"@, peer),
        ("ranking"@, row.ranking@),
        ("country"@, row.country@),
        ("last_liveness"@, row.last_liveness@),
        ("mount_point"@, row.mount_point@),
        ("pieces"@, pieces_text),
    ]
}

/// The disk left to a peer after it stored `chunk_len` bytes.
pub open spec fn disk_after_store(disk: int, chunk_len: int) -> int {
    disk - chunk_len
}

/// The clause that selects a peer's row when a file is deleted.
pub open spec fn delete_delete_clause(peer: Seq<char>, ranking: Seq<char>, disk: Seq<char>) -> Seq<char> {
    "ranking = '"@ + ranking + "' and disk_available = "@ + disk + " and peer_id = '"@ + peer + "'"@
}

/// The row that a peer's selection row becomes when a file is deleted.
pub open spec fn delete_row(peer: Seq<char>, row: PeerSelectionRow, pieces_text: Seq<char>) -> Seq<(Seq<char>, Seq<char>)> {
    seq![
        ("peer_id"@, peer),
        ("ranking"@, row.ranking@),
        ("country"@, row.country@),
        ("mount_point"@, row.mount_point@),
        ("pieces"@, pieces_text),
    ]
}

/// How many chunks of a file a pieces-map entry records: its comma-separated parts.
pub open spec fn recorded_chunks(entry: Seq<char>) -> int {
    split_on(entry, ',').len() as int
}

/// The disk given back to a peer when the `count` chunks of a file it kept are deleted.
pub open spec fn disk_after_delete(disk: int, count: int) -> int {
    disk + count * (MTU as int)
}

/// The disk column of a rewritten selection row.
pub open spec fn disk_row(disk: int) -> Seq<(Seq<char>, Seq<char>)> {
    seq![("disk_available"@, decimal(disk))]
}

impl Distribution {
    /// What the selection table says of `peer` once it stored chunk `chunk_id`
    /// of piece `piece_id` (`chunk_len` bytes): the chunk is recorded in its
    /// pieces map and its free disk shrinks by the chunk's size.
    pub fn selection_after_store(
        &self,
        peer: &str,
        row: &PeerSelectionRow,
        pieces: ColumnValues,
        piece_id: &str,
        chunk_id: &str,
        chunk_len: usize,
    ) -> (r: SelectionRewrite)
        requires
            parses_as_i32(row.disk_available@),
            chunk_len <= i32::MAX,
            i32::MIN <= disk_after_store(parsed_i32(row.disk_available@), chunk_len as int),
        ensures
            r.delete_query@ == delete_text("peer"@, "selection"@,
                store_delete_clause(peer@, row.ranking@, row.disk_available@)),
            r.insert_query@ == insert_with_num_text("peer"@, "selection"@,
                store_row(peer@, *row, json_object_text(after_store(pieces@, self.id(), piece_id@, chunk_id@))),
                disk_row(disk_after_store(parsed_i32(row.disk_available@), chunk_len as int)), ""@),
            reads_as(json_object_text(after_store(pieces@, self.id(), piece_id@, chunk_id@)),
                after_store(pieces@, self.id(), piece_id@, chunk_id@)),
    {
        let mut pieces = pieces;
        let ghost orig = pieces@;
        record_chunk(&mut pieces, self.file_id.as_str(), piece_id, chunk_id);
        let disk: i32 = match parse_i32(row.disk_available.as_str()) {
            Some(d) => d,
            None => 0,
        };
        let disk_new: i32 = disk - chunk_len as i32;
        let mut clause = String::new();
        clause.append("peer_id = '");
        clause.append(peer);
        clause.append("' and ranking = '");
        clause.append(row.ranking.as_str());
        clause.append("' and disk_available = ");
        clause.append(row.disk_available.as_str());
        assert(clause@ =~= store_delete_clause(peer@, row.ranking@, row.disk_available@));
        let delete_query = delete_from_table("peer", "selection", clause);
        proof {
            lemma_column_names();
        }
        let cols = ColumnValues::from_pairs(vec![
            ("peer_id".to_string(), peer.to_string()),
            ("ranking".to_string(), row.ranking.clone()),
            ("country".to_string(), row.country.clone()),
            ("last_liveness".to_string(), row.last_liveness.clone()),
            ("mount_point".to_string(), row.mount_point.clone()),
            ("pieces".to_string(), json_text(&pieces.pairs())),
        ]);
        assert(cols@ =~= store_row(peer@, *row, json_object_text(after_store(orig, self.id(), piece_id@, chunk_id@))));
        proof {
            lemma_column_names();
        }
        let mut disk_cols = ColumnValues::new();
        disk_cols.insert("disk_available", int_to_string(disk_new as i128));
        assert(disk_cols@ =~= disk_row(disk_new as int));
        let insert_query = insert_into_table_with_num("peer", "selection", cols, disk_cols, "");
        SelectionRewrite { delete_query, insert_query }
    }

    /// What the selection table says of `peer` once the chunks of this file
    /// it kept are deleted: the file leaves its pieces map and each recorded
    /// chunk gives back a chunk's worth of disk.
    pub fn selection_after_delete(&self, peer: &str, row: &PeerSelectionRow, pieces: ColumnValues) -> (r: SelectionRewrite)
        requires
            position_of(pieces@, self.id()) is Some,
            parses_as_i32(row.disk_available@),
            i32::MIN <= disk_after_delete(parsed_i32(row.disk_available@),
                recorded_chunks(pieces@[position_of(pieces@, self.id())->0].1)) <= i32::MAX,
            recorded_chunks(pieces@[position_of(pieces@, self.id())->0].1) * (MTU as int) <= i32::MAX,
        ensures
            r.delete_query@ == delete_text("peer"@, "selection"@,
                delete_delete_clause(peer@, row.ranking@, row.disk_available@)),
            r.insert_query@ == insert_with_num_text("peer"@, "selection"@,
                delete_row(peer@, *row, json_object_text(without_column(pieces@, self.id()))),
                disk_row(disk_after_delete(parsed_i32(row.disk_available@),
                    recorded_chunks(pieces@[position_of(pieces@, self.id())->0].1))), ""@),
            reads_as(json_object_text(without_column(pieces@, self.id())), without_column(pieces@, self.id())),
    {
        let mut pieces = pieces;
        let entry: String = match pieces.get(self.file_id.as_str()) {
            Some(v) => v.clone(),
            None => String::new(),
        };
        let parts = split_char(entry.as_str(), ',');
        let ghost count = recorded_chunks(entry@);
        assert(parts@.len() == count);
        let disk: i32 = match parse_i32(row.disk_available.as_str()) {
            Some(d) => d,
            None => 0,
        };
        let count_i: i32 = parts.len() as i32;
        let disk_new: i32 = disk + count_i * (MTU as i32);
        pieces.remove(self.file_id.as_str());
        let mut clause = String::new();
        clause.append("ranking = '");
        clause.append(row.ranking.as_str());
        clause.append("' and disk_available = ");
        clause.append(row.disk_available.as_str());
        clause.append(" and peer_id = '");
        clause.append(peer);
        clause.append("'");
        assert(clause@ =~= delete_delete_clause(peer@, row.ranking@, row.disk_available@));
        let delete_query = delete_from_table("peer", "selection", clause);
        proof {
            lemma_column_names();
        }
        let cols = ColumnValues::from_pairs(vec![
            ("peer_id".to_string(), peer.to_string()),
            ("ranking".to_string(), row.ranking.clone()),
            ("country".to_string(), row.country.clone()),
            ("mount_point".to_string(), row.mount_point.clone()),
            ("pieces".to_string(), json_text(&pieces.pairs())),
        ]);
        assert(cols@ =~= delete_row(peer@, *row, json_object_text(pieces@)));
        proof {
            lemma_column_names();
        }
        let mut disk_cols = ColumnValues::new();
        disk_cols.insert("disk_available", int_to_string(disk_new as i128));
        assert(disk_cols@ =~= disk_row(disk_new as int));
        let insert_query = insert_into_table_with_num("peer", "selection", cols, disk_cols, "");
        SelectionRewrite { delete_query, insert_query }
    }
}


/// A peer's pieces map after it stored, in order, the chunks `recs` (piece, chunk) of file `file_id`.
pub open spec fn after_stores(m: Seq<(Seq<char>, Seq<char>)>, file_id: Seq<char>, recs: Seq<(Seq<char>, Seq<char>)>)
    -> Seq<(Seq<char>, Seq<char>)>
    decreases recs.len(),
{
    if recs.len() == 0 {
        m
    } else {
        after_store(after_stores(m, file_id, recs.drop_last()), file_id, recs.last().0, recs.last().1)
    }
}

/// The records of chunks, in order.
pub open spec fn records(recs: Seq<(Seq<char>, Seq<char>)>) -> Seq<Seq<char>> {
    recs.map_values(|r: (Seq<char>, Seq<char>)| chunk_record(r.0, r.1))
}

proof fn lemma_position_pushed(m: Seq<(Seq<char>, Seq<char>)>, f: Seq<char>, e: Seq<char>)
    requires
        position_of(m, f) is None,
    ensures
        position_of(m.push((f, e)), f) == Some(m.len() as int),
{
    let v = m.push((f, e));
    assert(v[m.len() as int].0 == f);
    let i = choose|i: int| 0 <= i < v.len() && v[i].0 == f;
    if i < m.len() {
        assert(m[i].0 == f);
    }
}

proof fn lemma_after_stores_shape(m: Seq<(Seq<char>, Seq<char>)>, f: Seq<char>, recs: Seq<(Seq<char>, Seq<char>)>)
    requires
        position_of(m, f) is None,
        recs.len() >= 1,
    ensures
        after_stores(m, f, recs) == m.push((f, seq_join(records(recs), ", "@))),
    decreases recs.len(),
{
    let init = recs.drop_last();
    assert(records(init) =~= records(recs).drop_last());
    if init.len() == 0 {
        assert(after_stores(m, f, init) == m);
        assert(records(recs).len() == 1);
        assert forall|i: int| 0 <= i < m.len() implies (#[trigger] m[i]).0 != f by {
            if m[i].0 == f {
                assert(exists|i: int| 0 <= i < m.len() && m[i].0 == f);
            }
        }
        lemma_with_new_column(m, f, chunk_record(recs.last().0, recs.last().1));
    } else {
        lemma_after_stores_shape(m, f, init);
        let e = seq_join(records(init), ", "@);
        lemma_position_pushed(m, f, e);
        let v = m.push((f, e));
        let rec = chunk_record(recs.last().0, recs.last().1);
        assert(records(recs).last() == rec);
        let i = m.len() as int;
        assert(v.update(i, (f, e + ", "@ + rec)) =~= m.push((f, seq_join(records(recs), ", "@))));
    }
}

proof fn lemma_join_count(parts: Seq<Seq<char>>)
    requires
        parts.len() >= 1,
        forall|j: int| 0 <= j < parts.len() ==> count_char(#[trigger] parts[j], ',') == 0,
    ensures
        count_char(seq_join(parts, ", "@), ',') == parts.len() - 1,
    decreases parts.len(),
{
    reveal_strlit(", ");
    assert(", "@ =~= seq![',', ' ']);
    assert(count_char(seq![','], ',') == 1) by {
        assert(seq![','].drop_last() =~= Seq::<char>::empty());
        assert(count_char(Seq::<char>::empty(), ',') == 0);
        assert(seq![','].last() == ',');
    }
    assert(count_char(seq![',', ' '], ',') == 1) by {
        assert(seq![',', ' '].drop_last() =~= seq![',']);
    }
    if parts.len() > 1 {
        lemma_join_count(parts.drop_last());
        let a = seq_join(parts.drop_last(), ", "@);
        lemma_count_concat(a, ", "@, ',');
        lemma_count_concat(a + ", "@, parts.last(), ',');
    }
}

proof fn lemma_record_has_no_comma(p: Seq<char>, c: Seq<char>)
    requires
        count_char(p, ',') == 0,
        count_char(c, ',') == 0,
    ensures
        count_char(chunk_record(p, c), ',') == 0,
{
    reveal_strlit("_");
    assert("_"@ =~= seq!['_']);
    assert(count_char(seq!['_'], ',') == 0) by {
        assert(seq!['_'].drop_last() =~= Seq::<char>::empty());
        assert(count_char(Seq::<char>::empty(), ',') == 0);
        assert(seq!['_'].last() == '_');
    }
    lemma_count_concat(p, "_"@, ',');
    lemma_count_concat(p + "_"@, c, ',');
}

/// Deleting a file undoes what storing its chunks did to a peer's pieces map:
/// after a peer that held nothing of file `file_id` stored its chunks `recs`
/// (none of whose piece or chunk names has a comma), the file's entry counts
/// exactly those chunks, and taking the file out gives the map back as it was.
/// When every stored chunk was `MTU` bytes, the free disk comes back too.
pub proof fn law_delete_undoes_stores(
    m: Seq<(Seq<char>, Seq<char>)>,
    file_id: Seq<char>,
    recs: Seq<(Seq<char>, Seq<char>)>,
    disk: int,
)
    requires
        position_of(m, file_id) is None,
        recs.len() >= 1,
        forall|j: int| 0 <= j < recs.len() ==> count_char((#[trigger] recs[j]).0, ',') == 0 && count_char(recs[j].1, ',') == 0,
    ensures
        position_of(after_stores(m, file_id, recs), file_id) is Some,
        recorded_chunks(after_stores(m, file_id, recs)[position_of(after_stores(m, file_id, recs), file_id)->0].1)
            == recs.len(),
        without_column(after_stores(m, file_id, recs), file_id) == m,
        disk_after_delete(disk - recs.len() * (MTU as int), recs.len() as int) == disk,
{
    lemma_after_stores_shape(m, file_id, recs);
    let e = seq_join(records(recs), ", "@);
    lemma_position_pushed(m, file_id, e);
    let v = m.push((file_id, e));
    assert(v.remove(m.len() as int) =~= m);
    assert forall|j: int| 0 <= j < records(recs).len() implies count_char(#[trigger] records(recs)[j], ',') == 0 by {
        lemma_record_has_no_comma(recs[j].0, recs[j].1);
    }
    lemma_join_count(records(recs));
    lemma_split_len(e, ',');
}


/// The chunks of one piece: the messages that carry them, the hash of each
/// chunk, and the parameters of the encoding.
pub struct PieceChunks {
    pub messages: Vec<MsgChunk>,
    pub hashes: Vec<(String, String)>,
    pub info: TransmissionInfo,
}

/// The packets that chunk messages carry.
pub open spec fn chunk_packets(ms: Seq<MsgChunk>) -> Seq<Seq<u8>> {
    ms.map_values(|m: MsgChunk| m.chunk_bytes@)
}

impl Distribution {
    /// Encodes piece `piece_id` and pairs its packets with the chunks of
    /// `assignment` in order: chunk `i` is carried by packet `i` and recorded
    /// with the hash of that packet. The chunks carry the first packets of
    /// the piece's encoding, which has one block of 1488-byte symbols: its
    /// source packets come first, then one repair packet per chunk.
    pub fn encode_piece(&self, piece_id: &str, piece: &Vec<u8>, assignment: &Vec<(String, String)>) -> (r: PieceChunks)
        requires
            0 < piece@.len() <= PIECE_SIZE,
            assignment@.len() <= 1_000_000,
        ensures
            info_tuple(r.info) == raptorq_parameters(piece@, MTU),
            r.messages@.len() == assignment@.len(),
            r.hashes@.len() == assignment@.len(),
            r.info.transfer_length == piece@.len(),
            r.info.source_blocks == 1,
            r.info.symbol_size == 1488,
            raptorq_packets(piece@, MTU, assignment@.len() as u32).len()
                == ceil_div(piece@.len() as int, 1488) + assignment@.len(),
            chunk_packets(r.messages@) == raptorq_packets(piece@, MTU, assignment@.len() as u32).take(assignment@.len() as int),
            decodable(r.info, chunk_packets(r.messages@)),
            forall|i: int| 0 <= i < assignment@.len() ==> {
                let packet = raptorq_packets(piece@, MTU, assignment@.len() as u32)[i];
                &&& (#[trigger] r.messages@[i]).file_id@ == self.id()
                &&& r.messages@[i].piece_id@ == piece_id@
                &&& r.messages@[i].chunk_id@ == assignment@[i].0@
                &&& r.messages@[i].chunk_bytes@ == packet
                &&& r.hashes@[i].0@ == assignment@[i].0@
                &&& r.hashes@[i].1@ == hex_text(sha256(packet))
            },
    {
        let repair = assignment.len() as u32;
        let (packets, info) = encode(piece.as_slice(), MTU, repair);
        let mut messages: Vec<MsgChunk> = Vec::new();
        let mut hashes: Vec<(String, String)> = Vec::new();
        let mut i: usize = 0;
        while i < assignment.len()
            invariant
                i <= assignment@.len(),
                packets@.len() >= assignment@.len(),
                repair == assignment@.len(),
                crate::coding::packets_view(packets@) == raptorq_packets(piece@, MTU, repair),
                messages@.len() == i,
                hashes@.len() == i,
                forall|k: int| 0 <= k < i ==> {
                    let packet = raptorq_packets(piece@, MTU, repair)[k];
                    &&& (#[trigger] messages@[k]).file_id@ == self.id()
                    &&& messages@[k].piece_id@ == piece_id@
                    &&& messages@[k].chunk_id@ == assignment@[k].0@
                    &&& messages@[k].chunk_bytes@ == packet
                    &&& hashes@[k].0@ == assignment@[k].0@
                    &&& hashes@[k].1@ == hex_text(sha256(packet))
                },
            decreases assignment.len() - i,
        {
            let bytes = packets[i].clone();
            assert(bytes@ == raptorq_packets(piece@, MTU, repair)[i as int]);
            let hash = calculate_hash(bytes.as_slice());
            let chunk = assignment[i].0.as_str();
            let m = self.chunk_message(piece_id, chunk, bytes);
            messages.push(m);
            hashes.push((assignment[i].0.clone(), hash));
            i = i + 1;
        }
        proof {
            let all = crate::coding::packets_view(packets@);
            assert(chunk_packets(messages@) =~= all.take(repair as int));
            assert forall|k: int| 0 <= k < chunk_packets(messages@).len() implies
                (#[trigger] chunk_packets(messages@)[k]) == all[k] by {}
        }
        PieceChunks { messages, hashes, info }
    }
}

/// One chunk hash as the piece row records it: `"<chunk>":<hash in debug form>`.
pub open spec fn chunk_hash_entry(p: (Seq<char>, Seq<char>)) -> Seq<char> {
    "\""@ + p.0 + "\":"@ + debug_text(p.1)
}

/// One chunk-to-peer entry as the debug form of a map writes it: `<chunk>: <peer>`, both in debug form.
pub open spec fn debug_map_entry(p: (Seq<char>, Seq<char>)) -> Seq<char> {
    debug_text(p.0) + ": "@ + debug_text(p.1)
}

/// The chunk-hash text of a piece: its entries, comma separated.
pub open spec fn chunk_hash_text(h: Seq<(Seq<char>, Seq<char>)>) -> Seq<char> {
    seq_join(h.map_values(|p: (Seq<char>, Seq<char>)| chunk_hash_entry(p)), ", "@)
}

/// The debug form of a chunk-to-peer map: `{<entries>}`.
pub open spec fn chunk_map_debug(a: Seq<(Seq<char>, Seq<char>)>) -> Seq<char> {
    "{"@ + seq_join(a.map_values(|p: (Seq<char>, Seq<char>)| debug_map_entry(p)), ", "@) + "}"@
}

/// The new values of a distributed piece: hashes, encoding parameters and chunk-to-peer map.
pub open spec fn piece_set_text(h: Seq<(Seq<char>, Seq<char>)>, t: TransmissionInfo, a: Seq<(Seq<char>, Seq<char>)>) -> Seq<char> {
    "chunk_hash = '{"@ + chunk_hash_text(h) + "}', transfer_length = '"@ + decimal(t.transfer_length as int)
        + "', symbol_size = '"@ + decimal(t.symbol_size as int) + "', source_blocks = '"@
        + decimal(t.source_blocks as int) + "', sub_blocks = '"@ + decimal(t.sub_blocks as int)
        + "', symbol_alignment = '"@ + decimal(t.symbol_alignment as int) + "', chunk_peer = '"@
        + chunk_map_debug(a) + "'"@
}

/// The clause that selects piece `piece_id` of file `file_id`.
pub open spec fn piece_key_clause(file_id: Seq<char>, piece_id: Seq<char>) -> Seq<char> {
    "file_id = '"@ + file_id + "' and piece_order = '"@ + piece_id + "'"@
}

/// Formats each pair with `entry` into a list of strings.
fn format_pairs(pairs: &Vec<(String, String)>, hash_form: bool) -> (out: Vec<String>)
    ensures
        hash_form ==> views(out@) == assignment_view(pairs@).map_values(|p: (Seq<char>, Seq<char>)| chunk_hash_entry(p)),
        !hash_form ==> views(out@) == assignment_view(pairs@).map_values(|p: (Seq<char>, Seq<char>)| debug_map_entry(p)),
{
    let ghost target = if hash_form {
        assignment_view(pairs@).map_values(|p: (Seq<char>, Seq<char>)| chunk_hash_entry(p))
    } else {
        assignment_view(pairs@).map_values(|p: (Seq<char>, Seq<char>)| debug_map_entry(p))
    };
    let mut out: Vec<String> = Vec::new();
    let mut i: usize = 0;
    while i < pairs.len()
        invariant
            i <= pairs@.len(),
            out@.len() == i,
            target == (if hash_form {
                assignment_view(pairs@).map_values(|p: (Seq<char>, Seq<char>)| chunk_hash_entry(p))
            } else {
                assignment_view(pairs@).map_values(|p: (Seq<char>, Seq<char>)| debug_map_entry(p))
            }),
            views(out@) == target.take(i as int),
        decreases pairs.len() - i,
    {
        let mut e = String::new();
        if hash_form {
            e.append("\"");
            e.append(pairs[i].0.as_str());
            e.append("\":");
            let d = debug_string(pairs[i].1.as_str());
            e.append(d.as_str());
        } else {
            let k = debug_string(pairs[i].0.as_str());
            e.append(k.as_str());
            e.append(": ");
            let d = debug_string(pairs[i].1.as_str());
            e.append(d.as_str());
        }
        assert(e@ =~= target[i as int]);
        let ghost prev = out@;
        out.push(e);
        assert forall|k: int| 0 <= k < i + 1 implies #[trigger] views(out@)[k] == target.take(i + 1)[k] by {
            if k < i {
                assert(views(prev)[k] == target.take(i as int)[k]);
            }
        }
        assert(views(out@) =~= target.take(i + 1));
        i = i + 1;
    }
    assert(target.take(i as int) =~= target);
    out
}

/// The debug form of a map of strings whose entries are `pairs`, in this order:
/// `{"<key>": "<value>", ...}`.
pub fn debug_map(pairs: &Vec<(String, String)>) -> (s: String)
    ensures
        s@ == chunk_map_debug(assignment_view(pairs@)),
{
    let entries = format_pairs(pairs, false);
    let inner = join(&entries, ", ");
    let mut s = String::new();
    s.append("{");
    s.append(inner.as_str());
    s.append("}");
    assert(s@ =~= chunk_map_debug(assignment_view(pairs@)));
    s
}

impl Distribution {
    /// The statement that records, for piece `piece_id`, the hash of each
    /// chunk, the parameters of the encoding and which peer keeps which chunk.
    pub fn piece_update_query(
        &self,
        piece_id: &str,
        hashes: &Vec<(String, String)>,
        info: &TransmissionInfo,
        assignment: &Vec<(String, String)>,
    ) -> (q: String)
        ensures
            q@ == update_text("file"@, "piece"@,
                piece_set_text(assignment_view(hashes@), *info, assignment_view(assignment@)),
                piece_key_clause(self.id(), piece_id@)),
    {
        let hash_entries = format_pairs(hashes, true);
        let map_entries = format_pairs(assignment, false);
        let hash_text = join(&hash_entries, ", ");
        let map_text = join(&map_entries, ", ");
        let mut set = String::new();
        set.append("chunk_hash = '{");
        set.append(hash_text.as_str());
        set.append("}', transfer_length = '");
        push_decimal(&mut set, info.transfer_length as i128);
        set.append("', symbol_size = '");
        push_decimal(&mut set, info.symbol_size as i128);
        set.append("', source_blocks = '");
        push_decimal(&mut set, info.source_blocks as i128);
        set.append("', sub_blocks = '");
        push_decimal(&mut set, info.sub_blocks as i128);
        set.append("', symbol_alignment = '");
        push_decimal(&mut set, info.symbol_alignment as i128);
        set.append("', chunk_peer = '");
        set.append("{");
        set.append(map_text.as_str());
        set.append("}");
        set.append("'");
        assert(set@ =~= piece_set_text(assignment_view(hashes@), *info, assignment_view(assignment@)));
        let mut clause = String::new();
        clause.append("file_id = '");
        clause.append(self.file_id.as_str());
        clause.append("' and piece_order = '");
        clause.append(piece_id);
        clause.append("'");
        assert(clause@ =~= piece_key_clause(self.id(), piece_id@));
        update_table("file", "piece", set, clause)
    }
}


/// Whether two column lists give every column the same value.
pub open spec fn same_values(a: Seq<(Seq<char>, Seq<char>)>, b: Seq<(Seq<char>, Seq<char>)>) -> bool {
    forall|c: Seq<char>| #[trigger] value_of(a, c) == value_of(b, c)
}

/// The entry of file `f` after a chunk record is added to `old`.
pub open spec fn entry_after_store(old: Option<Seq<char>>, piece_id: Seq<char>, chunk_id: Seq<char>) -> Seq<char> {
    match old {
        Some(e) => e + ", "@ + chunk_record(piece_id, chunk_id),
        None => chunk_record(piece_id, chunk_id),
    }
}

proof fn lemma_after_store_values(a: Seq<(Seq<char>, Seq<char>)>, f: Seq<char>, p: Seq<char>, c: Seq<char>)
    requires
        keys_distinct(a),
    ensures
        keys_distinct(after_store(a, f, p, c)),
        value_of(after_store(a, f, p, c), f) == Some(entry_after_store(value_of(a, f), p, c)),
        forall|col: Seq<char>| col != f ==> #[trigger] value_of(after_store(a, f, p, c), col) == value_of(a, col),
{
    let v = entry_after_store(value_of(a, f), p, c);
    assert(after_store(a, f, p, c) == with_column(a, f, v));
    crate::columns::lemma_with_column_distinct(a, f, v);
    law_read_after_write(a, f, v, f);
    assert forall|col: Seq<char>| col != f implies #[trigger] value_of(after_store(a, f, p, c), col) == value_of(a, col) by {
        law_read_after_write(a, f, v, col);
    }
}

proof fn lemma_same_after_store(a: Seq<(Seq<char>, Seq<char>)>, b: Seq<(Seq<char>, Seq<char>)>, f: Seq<char>, p: Seq<char>, c: Seq<char>)
    requires
        keys_distinct(a),
        keys_distinct(b),
        same_values(a, b),
    ensures
        same_values(after_store(a, f, p, c), after_store(b, f, p, c)),
{
    lemma_after_store_values(a, f, p, c);
    lemma_after_store_values(b, f, p, c);
    assert(value_of(a, f) == value_of(b, f));
    assert forall|col: Seq<char>| #[trigger] value_of(after_store(a, f, p, c), col) == value_of(after_store(b, f, p, c), col) by {
        if col != f {
            assert(value_of(a, col) == value_of(b, col));
        }
    }
}

proof fn lemma_same_without(a: Seq<(Seq<char>, Seq<char>)>, b: Seq<(Seq<char>, Seq<char>)>, f: Seq<char>)
    requires
        keys_distinct(a),
        keys_distinct(b),
        same_values(a, b),
    ensures
        same_values(without_column(a, f), without_column(b, f)),
{
    assert forall|col: Seq<char>| #[trigger] value_of(without_column(a, f), col) == value_of(without_column(b, f), col) by {
        law_read_after_write(a, f, Seq::empty(), col);
        law_read_after_write(b, f, Seq::empty(), col);
        if col != f {
            assert(value_of(a, col) == value_of(b, col));
        }
    }
}

proof fn lemma_after_stores_distinct(m: Seq<(Seq<char>, Seq<char>)>, f: Seq<char>, recs: Seq<(Seq<char>, Seq<char>)>)
    requires
        keys_distinct(m),
    ensures
        keys_distinct(after_stores(m, f, recs)),
    decreases recs.len(),
{
    if recs.len() > 0 {
        lemma_after_stores_distinct(m, f, recs.drop_last());
        lemma_after_store_values(after_stores(m, f, recs.drop_last()), f, recs.last().0, recs.last().1);
    }
}

/// What the chain of stored texts of a peer's pieces column says after `i`
/// stores: each reads as a map of strings, with the values that the stores
/// give the first map; and the disk text reads as the first disk less `i` chunks.
proof fn lemma_store_chain(
    texts: Seq<Seq<char>>,
    disks: Seq<Seq<char>>,
    file_id: Seq<char>,
    recs: Seq<(Seq<char>, Seq<char>)>,
    i: int,
)
    requires
        0 <= i <= recs.len(),
        texts.len() == recs.len() + 1,
        disks.len() == recs.len() + 1,
        json_string_map(texts[0]) is Some,
        forall|j: int| 0 <= j < recs.len() ==> reads_as(#[trigger] texts[j + 1],
            after_store(json_string_map(texts[j])->0, file_id, recs[j].0, recs[j].1)),
        parses_as_i32(disks[0]),
        i32::MIN <= parsed_i32(disks[0]) - recs.len() * (MTU as int),
        forall|j: int| 0 <= j < recs.len() ==> #[trigger] disks[j + 1]
            == decimal(disk_after_store(parsed_i32(disks[j]), MTU as int)),
    ensures
        json_string_map(texts[i]) is Some,
        keys_distinct(json_string_map(texts[i])->0),
        same_values(json_string_map(texts[i])->0, after_stores(json_string_map(texts[0])->0, file_id, recs.take(i))),
        parses_as_i32(disks[i]),
        parsed_i32(disks[i]) == parsed_i32(disks[0]) - i * (MTU as int),
    decreases i,
{
    let m0 = json_string_map(texts[0])->0;
    lemma_read_map_distinct(texts[i]);
    if i == 0 {
        assert(recs.take(0) =~= Seq::<(Seq<char>, Seq<char>)>::empty());
    } else {
        lemma_store_chain(texts, disks, file_id, recs, i - 1);
        let prev = json_string_map(texts[i - 1])->0;
        let a = after_stores(m0, file_id, recs.take(i - 1));
        lemma_read_map_distinct(texts[i - 1]);
        lemma_read_map_distinct(texts[0]);
        lemma_after_stores_distinct(m0, file_id, recs.take(i - 1));
        lemma_same_after_store(prev, a, file_id, recs[i - 1].0, recs[i - 1].1);
        assert(recs.take(i).drop_last() =~= recs.take(i - 1));
        assert(recs.take(i).last() == recs[i - 1]);
        assert(after_stores(m0, file_id, recs.take(i))
            == after_store(a, file_id, recs[i - 1].0, recs[i - 1].1));
        assert(reads_as(texts[(i - 1) + 1], after_store(prev, file_id, recs[i - 1].0, recs[i - 1].1)));
        lemma_read_map_distinct(texts[i]);
        let d = parsed_i32(disks[i - 1]) - (MTU as int);
        assert(disks[(i - 1) + 1] == decimal(disk_after_store(parsed_i32(disks[i - 1]), MTU as int)));
        assert(i32::MIN <= d <= i32::MAX) by (nonlinear_arith)
            requires
                d == parsed_i32(disks[0]) - i * (MTU as int),
                i32::MIN <= parsed_i32(disks[0]) - recs.len() * (MTU as int),
                parsed_i32(disks[0]) <= i32::MAX,
                1 <= i <= recs.len(),
                MTU as int > 0;
        crate::text::law_parse_reads_decimal(d, i32::MIN as int, i32::MAX as int);
    }
}

/// Deleting a file undoes, on the text that a peer's selection row keeps,
/// what storing its chunks did. Take the pieces column `texts[0]` of a peer
/// that keeps nothing of file `file_id`, and its disk column `disks[0]`; let
/// each of the chunks `recs` (no piece or chunk name with a comma) be stored
/// as `selection_after_store` writes it, a chunk being `MTU` bytes: the next
/// pieces text reads as the last one with the chunk recorded, and the next
/// disk text is the last disk less a chunk. Then the file's entry counts
/// exactly those chunks, and deleting the file as `selection_after_delete`
/// writes it gives a pieces text that reads as the first map, value for
/// value, and the first disk back. At least one chunk is stored, as for
/// every peer that a deletion visits; the disk values stay `i32`s, as the
/// selection table keeps them; and a name with a comma would be read back
/// as two entries, so such names are left out.
pub proof fn law_delete_undoes_stores_on_text(
    texts: Seq<Seq<char>>,
    disks: Seq<Seq<char>>,
    file_id: Seq<char>,
    recs: Seq<(Seq<char>, Seq<char>)>,
    deleted_text: Seq<char>,
    deleted_disk: Seq<char>,
)
    requires
        recs.len() >= 1,
        texts.len() == recs.len() + 1,
        disks.len() == recs.len() + 1,
        json_string_map(texts[0]) is Some,
        value_of(json_string_map(texts[0])->0, file_id) is None,
        forall|j: int| 0 <= j < recs.len() ==> count_char((#[trigger] recs[j]).0, ',') == 0 && count_char(recs[j].1, ',') == 0,
        forall|j: int| 0 <= j < recs.len() ==> reads_as(#[trigger] texts[j + 1],
            after_store(json_string_map(texts[j])->0, file_id, recs[j].0, recs[j].1)),
        reads_as(deleted_text, without_column(json_string_map(texts[recs.len() as int])->0, file_id)),
        parses_as_i32(disks[0]),
        i32::MIN <= parsed_i32(disks[0]) - recs.len() * (MTU as int),
        forall|j: int| 0 <= j < recs.len() ==> #[trigger] disks[j + 1]
            == decimal(disk_after_store(parsed_i32(disks[j]), MTU as int)),
        deleted_disk == decimal(disk_after_delete(parsed_i32(disks[recs.len() as int]),
            recorded_chunks(value_of(json_string_map(texts[recs.len() as int])->0, file_id)->0))),
    ensures
        value_of(json_string_map(texts[recs.len() as int])->0, file_id) is Some,
        recorded_chunks(value_of(json_string_map(texts[recs.len() as int])->0, file_id)->0) == recs.len(),
        reads_as(deleted_text, json_string_map(texts[0])->0),
        deleted_disk == decimal(parsed_i32(disks[0])),
{
    let k = recs.len() as int;
    let m0 = json_string_map(texts[0])->0;
    lemma_store_chain(texts, disks, file_id, recs, k);
    assert(recs.take(k) =~= recs);
    let mk = json_string_map(texts[k])->0;
    let ak = after_stores(m0, file_id, recs);
    lemma_read_map_distinct(texts[0]);
    assert(position_of(m0, file_id) is None);
    law_delete_undoes_stores(m0, file_id, recs, 0);
    lemma_after_stores_distinct(m0, file_id, recs);
    let pos = position_of(ak, file_id)->0;
    assert(value_of(ak, file_id) == Some(ak[pos].1));
    assert(value_of(mk, file_id) == value_of(ak, file_id));
    lemma_same_without(mk, ak, file_id);
    assert forall|c: Seq<char>| #[trigger] value_of(json_string_map(deleted_text)->0, c) == value_of(m0, c) by {
        assert(value_of(json_string_map(deleted_text)->0, c) == value_of(without_column(mk, file_id), c));
        assert(value_of(without_column(mk, file_id), c) == value_of(without_column(ak, file_id), c));
    }
    let d0 = parsed_i32(disks[0]);
    assert(disk_after_delete(d0 - k * (MTU as int), k) == d0) by (nonlinear_arith);
}


/// The chunk-hash text of a piece reads back chunk by chunk: split at its
/// commas it gives one part per chunk, in order, and part `k` names chunk
/// `k` in quotes and then its hash, after the space that follows the comma
/// before it. That holds where no chunk name and no written hash holds a
/// comma, as with chunk names and hexadecimal hashes. No chunk gives the
/// empty text.
pub proof fn law_chunk_hashes_read_back(h: Seq<(Seq<char>, Seq<char>)>)
    requires
        forall|k: int| 0 <= k < h.len() ==> count_char((#[trigger] h[k]).0, ',') == 0
            && count_char(debug_text(h[k].1), ',') == 0,
    ensures
        h.len() == 0 ==> chunk_hash_text(h) == Seq::<char>::empty(),
        h.len() >= 1 ==> split_on(chunk_hash_text(h), ',').len() == h.len(),
        forall|k: int| 0 <= k < h.len() ==> #[trigger] split_on(chunk_hash_text(h), ',')[k]
            == (if k == 0 { Seq::<char>::empty() } else { " "@ }) + "\""@ + h[k].0 + "\":"@ + debug_text(h[k].1),
{
    reveal_strlit("\"");
    reveal_strlit("\":");
    reveal_strlit(", ");
    reveal_strlit(" ");
    let items = h.map_values(|p: (Seq<char>, Seq<char>)| chunk_hash_entry(p));
    if h.len() >= 1 {
        assert forall|k: int| 0 <= k < items.len() implies count_char(#[trigger] items[k], ',') == 0 by {
            let p = h[k];
            assert(items[k] == "\""@ + p.0 + "\":"@ + debug_text(p.1));
            lemma_count_concat("\""@, p.0, ',');
            lemma_count_concat("\""@ + p.0, "\":"@, ',');
            lemma_count_concat("\""@ + p.0 + "\":"@, debug_text(p.1), ',');
            crate::text::lemma_count_none("\""@, ',');
            crate::text::lemma_count_none("\":"@, ',');
        }
        crate::text::lemma_count_none(" "@, ',');
        assert(", "@ =~= seq![','] + " "@);
        crate::text::law_split_undoes_join(items, ',', " "@);
        assert forall|k: int| 0 <= k < h.len() implies #[trigger] split_on(chunk_hash_text(h), ',')[k]
            == (if k == 0 { Seq::<char>::empty() } else { " "@ }) + "\""@ + h[k].0 + "\":"@ + debug_text(h[k].1) by {
            assert(items[k] == "\""@ + h[k].0 + "\":"@ + debug_text(h[k].1));
            if k == 0 {
                assert(Seq::<char>::empty() + items[k] =~= items[k]);
            } else {
                assert(" "@ + items[k] =~= " "@ + "\""@ + h[k].0 + "\":"@ + debug_text(h[k].1));
            }
        }
    }
}
}
