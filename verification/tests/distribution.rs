use storage::coding::TransmissionInfo;
use storage::columns::ColumnValues;
use storage::distribution::{
    chunk_file_name, chunk_path, debug_map, is_chunk_of, pieces_in_send_order, record_chunk, split_into_pieces,
    Distribution, PeerSelectionRow,
};
use storage::hashing::calculate_hash;
use storage::json::parse_string_map;
use storage::upload::chunk_peer_selection;

fn row(disk: &str, pieces: &str) -> PeerSelectionRow {
    PeerSelectionRow {
        disk_available: disk.to_string(),
        ranking: "1".to_string(),
        country: "IT".to_string(),
        last_liveness: "10".to_string(),
        mount_point: "/m".to_string(),
        pieces: pieces.to_string(),
    }
}

#[test]
fn distribution_names_its_file() {
    let d = Distribution::new("f1".to_string());
    assert_eq!(d.file_id(), "f1");
    let m = d.chunk_message("0", "chunk3", vec![1, 2]);
    assert_eq!(m.file_id, "f1");
    assert_eq!(m.piece_id, "0");
    assert_eq!(m.chunk_id, "chunk3");
    assert_eq!(m.chunk_bytes, vec![1, 2]);
}

#[test]
fn file_content_cut_into_pieces() {
    let bytes = vec![0u8; 250000];
    let pieces = split_into_pieces(&bytes);
    let sizes: Vec<usize> = pieces.iter().map(|p| p.len()).collect();
    assert_eq!(sizes, vec![100000, 100000, 50000]);
    assert!(split_into_pieces(&Vec::new()).is_empty());
}

#[test]
fn kept_chunk_names() {
    let name = chunk_file_name("f1", "0", "chunk3");
    assert_eq!(name, "f1_0_chunk3");
    assert_eq!(chunk_path(&name), "/tmp/saved_files/f1_0_chunk3");
    assert!(is_chunk_of("f1_0_chunk3", "f1"));
    assert!(!is_chunk_of("f10_0_chunk3", "f1"));
}

#[test]
fn stored_chunks_are_recorded_in_order() {
    let mut m = ColumnValues::new();
    record_chunk(&mut m, "f1", "0", "chunk0");
    assert_eq!(m.get("f1"), Some(&"0_chunk0".to_string()));
    record_chunk(&mut m, "f1", "0", "chunk1");
    assert_eq!(m.get("f1"), Some(&"0_chunk0, 0_chunk1".to_string()));
    record_chunk(&mut m, "f2", "1", "chunk4");
    assert_eq!(m.get("f2"), Some(&"1_chunk4".to_string()));
}

#[test]
fn storing_a_chunk_rewrites_the_selection_row() {
    let d = Distribution::new("f1".to_string());
    let r = d.selection_after_store("p1", &row("5000", "{}"), ColumnValues::new(), "0", "chunk0", 1496);
    assert_eq!(r.delete_query, "delete from peer.selection where peer_id = 'p1' and ranking = '1' and disk_available = 5000;");
    assert_eq!(
        r.insert_query,
        "insert into peer.selection (peer_id, ranking, country, last_liveness, mount_point, pieces, disk_available) values ('p1', '1', 'IT', '10', '/m', '{\"f1\":\"0_chunk0\"}', 3504) ;"
    );
}

#[test]
fn deleting_a_file_gives_the_disk_back() {
    let d = Distribution::new("f1".to_string());
    let mut m = ColumnValues::new();
    record_chunk(&mut m, "f1", "0", "chunk0");
    record_chunk(&mut m, "f1", "0", "chunk1");
    let r = d.selection_after_delete("p1", &row("2016", ""), m);
    assert_eq!(r.delete_query, "delete from peer.selection where ranking = '1' and disk_available = 2016 and peer_id = 'p1';");
    assert_eq!(
        r.insert_query,
        "insert into peer.selection (peer_id, ranking, country, mount_point, pieces, disk_available) values ('p1', '1', 'IT', '/m', '{}', 5000) ;"
    );
}

#[test]
fn pieces_are_sent_in_the_order_of_their_names() {
    let mut bytes: Vec<u8> = Vec::new();
    for i in 0..1_000_001usize {
        bytes.push((i / 100000) as u8);
    }
    let ids: Vec<String> = (0..11).map(|i: i32| i.to_string()).collect();
    let v = pieces_in_send_order(&bytes, &ids);
    assert_eq!(v.len(), 11);
    let names: Vec<&str> = v.iter().map(|(i, _)| ids[*i].as_str()).collect();
    assert_eq!(names, vec!["0", "1", "10", "2", "3", "4", "5", "6", "7", "8", "9"]);
    assert_eq!(v[2].1[0], 2);
    assert_eq!(v[2].1.len(), 100000);
    assert_eq!(v[10].1, vec![10u8]);
    assert_eq!(split_into_pieces(&bytes).len(), 11);
}

#[test]
fn encoded_chunks_carry_their_hashes() {
    let d = Distribution::new("f1".to_string());
    let piece: Vec<u8> = (0..3000u32).map(|i| (i % 251) as u8).collect();
    let assignment = chunk_peer_selection(&vec!["p1".to_string(), "p2".to_string()], 6);
    let r = d.encode_piece("0", &piece, &assignment);
    assert_eq!(r.messages.len(), 6);
    assert_eq!(r.hashes.len(), 6);
    assert_eq!(r.info.transfer_length, 3000);
    for i in 0..6 {
        assert_eq!(r.messages[i].file_id, "f1");
        assert_eq!(r.messages[i].piece_id, "0");
        assert_eq!(r.messages[i].chunk_id, assignment[i].0);
        assert_eq!(r.hashes[i].0, assignment[i].0);
        assert_eq!(r.hashes[i].1, calculate_hash(&r.messages[i].chunk_bytes));
    }
}

#[test]
fn piece_update_statement() {
    let d = Distribution::new("f1".to_string());
    let info = TransmissionInfo { transfer_length: 3000, symbol_size: 1488, source_blocks: 1, sub_blocks: 1, symbol_alignment: 8 };
    let hashes = vec![("chunk0".to_string(), "abc".to_string())];
    let assignment = vec![("chunk0".to_string(), "p1".to_string())];
    assert_eq!(
        d.piece_update_query("0", &hashes, &info, &assignment),
        "update file.piece set chunk_hash = '{\"chunk0\":\"abc\"}', transfer_length = '3000', symbol_size = '1488', source_blocks = '1', sub_blocks = '1', symbol_alignment = '8', chunk_peer = '{\"chunk0\": \"p1\"}' where file_id = 'f1' and piece_order = '0';"
    );
}

#[test]
fn debug_form_of_a_map() {
    let pairs = vec![("a".to_string(), "1".to_string()), ("b".to_string(), "2".to_string())];
    assert_eq!(debug_map(&pairs), "{\"a\": \"1\", \"b\": \"2\"}");
    assert_eq!(debug_map(&Vec::new()), "{}");
}

#[test]
fn deleting_a_file_gives_the_pieces_map_back() {
    let mut m = ColumnValues::new();
    m.insert("f2", "1_chunk4".to_string());
    record_chunk(&mut m, "f1", "0", "chunk0");
    record_chunk(&mut m, "f1", "1", "chunk3");
    assert_eq!(m.get("f1"), Some(&"0_chunk0, 1_chunk3".to_string()));
    m.remove("f1");
    assert_eq!(m.names(), vec!["f2".to_string()]);
    assert_eq!(m.get("f2"), Some(&"1_chunk4".to_string()));
}

fn pieces_and_disk(insert_query: &str) -> (String, String) {
    let values = insert_query.split("values ('").nth(1).unwrap();
    let fields: Vec<&str> = values.split("', '").collect();
    let last = fields[fields.len() - 1];
    let mut parts = last.splitn(2, "', ");
    let pieces = parts.next().unwrap().to_string();
    let disk = parts.next().unwrap().trim_end_matches(") ;").to_string();
    (pieces, disk)
}

#[test]
fn deleting_a_file_undoes_its_stores_on_the_stored_text() {
    let d = Distribution::new("f1".to_string());
    let mut text = "{\"f2\":\"1_chunk4\"}".to_string();
    let mut disk = "5000".to_string();
    for chunk in ["chunk0", "chunk1"] {
        let map = parse_string_map(&text).unwrap();
        let r = d.selection_after_store("p1", &row(&disk, &text), map, "0", chunk, 1492);
        let (t, k) = pieces_and_disk(&r.insert_query);
        text = t;
        disk = k;
    }
    let map = parse_string_map(&text).unwrap();
    assert_eq!(map.get("f1"), Some(&"0_chunk0, 0_chunk1".to_string()));
    assert_eq!(disk, "2016");
    let r = d.selection_after_delete("p1", &row(&disk, &text), map);
    let (t, k) = pieces_and_disk(&r.insert_query);
    let back = parse_string_map(&t).unwrap();
    assert_eq!(back.len(), 1);
    assert_eq!(back.get("f2"), Some(&"1_chunk4".to_string()));
    assert_eq!(k, "5000");
}
