use storage::constants::PIECE_SIZE;
use storage::upload::{
    chunk_peer_column, chunk_peer_selection, peers_query, piece_insert_query, plan_pieces, record_upload,
    start_upload, start_upload_with_peers, upload_after_write, upload_cleanup_queries, upload_size,
};

fn peers(names: &[&str]) -> Vec<String> {
    names.iter().map(|s| s.to_string()).collect()
}

#[test]
fn smaller_size_counts() {
    assert_eq!(upload_size("100", "80"), 80);
    assert_eq!(upload_size("100", "120"), 100);
    assert_eq!(upload_size("-3", "5"), -3);
}

#[test]
fn peer_query_asks_three_peers_per_chunk() {
    assert_eq!(
        peers_query(3000),
        "SELECT * FROM peer.selection WHERE ranking in ('0','1','2','3','4','5','6','7','8','9','10') and disk_available > 3000 LIMIT 9;"
    );
    assert_eq!(
        peers_query(0),
        "SELECT * FROM peer.selection WHERE ranking in ('0','1','2','3','4','5','6','7','8','9','10') and disk_available > 0 LIMIT 3;"
    );
}

#[test]
fn chunks_go_round_robin() {
    let a = chunk_peer_selection(&peers(&["a", "b"]), 5);
    let expected: Vec<(String, String)> = vec![
        ("chunk0", "a"),
        ("chunk1", "b"),
        ("chunk2", "a"),
        ("chunk3", "b"),
        ("chunk4", "a"),
    ]
    .into_iter()
    .map(|(c, p)| (c.to_string(), p.to_string()))
    .collect();
    assert_eq!(a, expected);
    assert!(chunk_peer_selection(&Vec::new(), 0).is_empty());
}

#[test]
fn small_file_is_one_piece() {
    let (plan, remaining) = plan_pieces(3000, &peers(&["a"]));
    assert_eq!(plan.len(), 1);
    assert_eq!(plan[0].order, 0);
    assert_eq!(plan[0].piece_size, 3000);
    assert_eq!(plan[0].chunk_num, 3);
    assert_eq!(plan[0].replication_num, 3);
    assert_eq!(plan[0].assignment.len(), 6);
    assert_eq!(remaining, 3000);
}

#[test]
fn pieces_cover_the_file() {
    let (plan, _) = plan_pieces(250000, &peers(&["a", "b"]));
    let sizes: Vec<i32> = plan.iter().map(|p| p.piece_size).collect();
    assert_eq!(sizes, vec![100000, 100000, 50000]);
    assert_eq!(sizes.iter().sum::<i32>(), 250000);
    assert_eq!(plan[2].chunk_num, 34);
    for (k, p) in plan.iter().enumerate() {
        assert_eq!(p.order as usize, k);
    }
}

#[test]
fn exact_multiple_of_piece_size_plans_one_more_full_piece() {
    let (plan, _) = plan_pieces(PIECE_SIZE, &peers(&["a"]));
    assert_eq!(plan.len(), 2);
    assert_eq!(plan[0].piece_size, PIECE_SIZE);
    assert_eq!(plan[1].piece_size, PIECE_SIZE);
    assert_eq!(plan[0].chunk_num, 68);
    let total: i32 = plan.iter().map(|p| p.piece_size).sum();
    assert_eq!(total, PIECE_SIZE + PIECE_SIZE);
}

#[test]
fn large_negative_size_plans_nothing() {
    let (plan, _) = plan_pieces(-200000, &peers(&["a"]));
    assert!(plan.is_empty());
    let r = record_upload("f1", "ann", -200000, &peers(&["a"]));
    assert_eq!(r.reply, "false");
    assert_eq!(
        r.cleanup_queries,
        vec![
            "delete from file.file where file_id='f1' AND username='ann';".to_string(),
            "delete from file.piece where file_id='f1';".to_string(),
        ]
    );
}

#[test]
fn new_file_gets_identifier_and_statement() {
    let s = start_upload("ann", "a.txt", "10", "8", "txt", "2024");
    assert_eq!(s.file_id.len(), 36);
    assert_eq!(
        s.file_query,
        format!(
            "insert into file.file (file_name, file_type, username, upload_date, file_size, file_size_compressed, file_status, file_id) values ('a.txt', 'txt', 'ann', '2024', '10', '8', 'to_distribute', '{}') IF NOT EXISTS;",
            s.file_id
        )
    );
}

#[test]
fn chunk_peer_column_text() {
    let a = vec![("chunk0".to_string(), "p1".to_string()), ("chunk1".to_string(), "p2".to_string())];
    assert_eq!(chunk_peer_column(&a), r#"{"chunk0":""p1""}, {"chunk1":""p2""}"#);
}

#[test]
fn piece_statement() {
    let (plan, _) = plan_pieces(3000, &peers(&["p1"]));
    let q = piece_insert_query("f1", &plan[0]);
    assert_eq!(
        q,
        format!(
            "insert into file.piece (file_id, piece_order, piece_size, chunk_num, replication_num, chunk_peer) values ('f1', '0', '3000', '3', '3', '{}') ;",
            chunk_peer_column(&plan[0].assignment)
        )
    );
}

#[test]
fn cleanup_statements() {
    let (a, b) = upload_cleanup_queries("f1", "ann");
    assert_eq!(a, "delete from file.file where file_id='f1' AND username='ann';");
    assert_eq!(b, "delete from file.piece where file_id='f1';");
}

#[test]
fn recorded_upload_replies_with_identifier() {
    let r = record_upload("f1", "ann", 3000, &peers(&["p1", "p2"]));
    assert_eq!(r.reply, "f1");
    assert_eq!(r.pieces.len(), 1);
    assert_eq!(r.piece_queries.len(), 1);
    assert!(r.cleanup_queries.is_empty());
    assert_eq!(r.piece_queries[0], piece_insert_query("f1", &r.pieces[0]));
}

#[test]
fn upload_goes_on_only_when_file_recorded() {
    assert!(upload_after_write("false", "f1", "ann", 3000, &peers(&["p1"])).is_none());
    assert!(upload_after_write("true", "f1", "ann", 3000, &peers(&["p1"])).is_some());
}

#[test]
fn upload_refused_without_peers() {
    assert!(start_upload_with_peers(&Vec::new(), "ann", "a.txt", "10", "8", "txt", "2024").is_none());
    let s = start_upload_with_peers(&peers(&["p1"]), "ann", "a.txt", "10", "8", "txt", "2024").unwrap();
    assert_eq!(s.file_id.len(), 36);
    assert!(s.file_query.ends_with(&format!("'{}') IF NOT EXISTS;", s.file_id)));
}

#[test]
fn every_piece_fully_replicated() {
    let (plan, _) = plan_pieces(250000, &peers(&["a", "b", "c"]));
    for p in plan.iter() {
        assert_eq!(p.replication_num, p.chunk_num);
        assert_eq!(p.assignment.len(), 2 * p.chunk_num as usize);
    }
}

#[test]
fn bytes_left_are_the_last_piece() {
    let (plan, remaining) = plan_pieces(250000, &peers(&["a"]));
    assert_eq!(plan.len(), 3);
    assert_eq!(remaining, 50000);
    let (_, remaining) = plan_pieces(PIECE_SIZE, &peers(&["a"]));
    assert_eq!(remaining, PIECE_SIZE);
    let r = record_upload("f1", "ann", 250000, &peers(&["a"]));
    assert_eq!(r.remaining, 50000);
    let (_, remaining) = plan_pieces(-200000, &peers(&["a"]));
    assert_eq!(remaining, -200000);
}
