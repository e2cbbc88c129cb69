use storage::coding::TransmissionInfo;
use storage::distribution::Distribution;
use storage::hashing::calculate_hash;
use storage::penalties::{penalty_lookup_query, penalty_writes, Penalties, RestrictionRow};
use storage::protobuf::MsgFileId;
use storage::retrieval::{
    can_decode, check_chunk, chunk_checks, decode_checked_piece, decode_file, fetched_file_info, join_pieces,
    piece_transmission, pieces_query, CheckedPiece, ChunkCheck, PieceRow, ReadError,
};
use storage::services::FileRow;
use storage::upload::chunk_peer_selection;

fn piece_row(chunk_peer: &str, chunk_hash: &str) -> PieceRow {
    PieceRow {
        piece_order: "0".to_string(),
        chunk_peer: chunk_peer.to_string(),
        chunk_hash: chunk_hash.to_string(),
        transfer_length: "3000".to_string(),
        symbol_size: "1488".to_string(),
        source_blocks: "1".to_string(),
        sub_blocks: "1".to_string(),
        symbol_alignment: "8".to_string(),
    }
}

fn check(peer: &str, hash: &str) -> ChunkCheck {
    ChunkCheck { chunk: "chunk0".to_string(), peer: peer.to_string(), hash: hash.to_string() }
}

#[test]
fn pieces_read_in_order() {
    let q = pieces_query(&MsgFileId { username: "ann".to_string(), file_id: "f1".to_string() });
    assert_eq!(q, "SELECT * FROM file.piece WHERE file_id='f1' ORDER BY piece_order;");
}

#[test]
fn chunks_checked_in_the_order_of_their_names() {
    let row = piece_row(
        r#"{"chunk2": "p3", "chunk10": "p2", "chunk0": "p1", "chunk1": "p4"}"#,
        r#"{"chunk0":"h0","chunk1":"h1","chunk2":"h2","chunk10":"h10"}"#,
    );
    let v = chunk_checks(&row).unwrap();
    let got: Vec<(&str, &str, &str)> = v.iter().map(|c| (c.chunk.as_str(), c.peer.as_str(), c.hash.as_str())).collect();
    assert_eq!(got, vec![("chunk0", "p1", "h0"), ("chunk1", "p4", "h1"), ("chunk10", "p2", "h10"), ("chunk2", "p3", "h2")]);
}

#[test]
fn chunk_without_hash_or_bad_column_gives_none() {
    assert!(chunk_checks(&piece_row(r#"{"chunk0":"p1","chunk1":"p2"}"#, r#"{"chunk0":"h0"}"#)).is_none());
    assert!(chunk_checks(&piece_row("not json", r#"{"chunk0":"h0"}"#)).is_none());
    assert!(chunk_checks(&piece_row(r#"{"chunk0":"p1"}"#, "")).is_none());
    assert_eq!(chunk_checks(&piece_row("{}", "{}")).unwrap().len(), 0);
}

#[test]
fn intact_chunk_joins_the_packets() {
    let mut packets: Vec<Vec<u8>> = Vec::new();
    let mut penalties = Penalties::new();
    let bytes = b"packet".to_vec();
    let c = check("p1", &calculate_hash(&bytes));
    assert!(check_chunk(&mut packets, &mut penalties, &c, bytes.clone()));
    assert_eq!(packets, vec![bytes]);
    assert_eq!(penalties.len(), 0);
}

#[test]
fn corrupted_or_missing_chunk_costs_its_peer() {
    let mut packets: Vec<Vec<u8>> = Vec::new();
    let mut penalties = Penalties::new();
    let c = check("p1", &calculate_hash(b"packet"));
    assert!(check_chunk(&mut packets, &mut penalties, &c, b"tampered".to_vec()));
    assert!(check_chunk(&mut packets, &mut penalties, &c, Vec::new()));
    assert!(packets.is_empty());
    assert_eq!(penalties.penalty("p1"), 2);
    assert_eq!(penalties.penalty("p2"), 0);
}

#[test]
fn penalty_that_would_overflow_is_refused() {
    let mut packets: Vec<Vec<u8>> = Vec::new();
    let mut penalties = Penalties::new();
    penalties.charge("p1", 127);
    let c = check("p1", "00");
    assert!(!check_chunk(&mut packets, &mut penalties, &c, b"x".to_vec()));
    assert_eq!(penalties.penalty("p1"), 127);
}

#[test]
fn charging_adds_and_leaves_others() {
    let mut p = Penalties::new();
    p.charge("p1", 1);
    p.charge("p2", 2);
    p.charge("p1", 3);
    assert_eq!(p.len(), 2);
    assert_eq!(p.penalty("p1"), 4);
    assert_eq!(p.penalty("p2"), 2);
    assert_eq!(p.peers(), vec!["p1".to_string(), "p2".to_string()]);
    p.remove("p1");
    assert_eq!(p.penalty("p1"), 0);
    assert_eq!(p.peer(0), "p2");
    assert_eq!(p.amount(0), 2);
}

#[test]
fn transmission_parameters_read_from_the_row() {
    let t = piece_transmission(&piece_row("{}", "{}")).unwrap();
    assert_eq!(t.transfer_length, 3000);
    assert_eq!(t.symbol_size, 1488);
    assert_eq!(t.source_blocks, 1);
    assert_eq!(t.sub_blocks, 1);
    assert_eq!(t.symbol_alignment, 8);
    let mut bad = piece_row("{}", "{}");
    bad.source_blocks = "256".to_string();
    assert!(piece_transmission(&bad).is_none());
}

#[test]
fn restriction_lookup() {
    assert!(penalty_lookup_query(&Penalties::new()).is_none());
    let mut p = Penalties::new();
    p.charge("p1", 1);
    p.charge("p2", 2);
    assert_eq!(penalty_lookup_query(&p).unwrap(), "SELECT * FROM peer.restriction WHERE peer_id in ('p1', 'p2');");
}

#[test]
fn each_charged_peer_written_once() {
    let mut p = Penalties::new();
    p.charge("p1", 1);
    p.charge("p2", 2);
    let rows = vec![RestrictionRow { peer_id: "p2".to_string(), penalty: "3".to_string() }];
    let w = penalty_writes(&p, &rows, 99).unwrap();
    assert_eq!(
        w,
        vec![
            "update peer.restriction set penalty = '5' where peer_id = 'p2';".to_string(),
            "insert into peer.restriction (peer_id, penalty, last_penalty) values ('p1', '1', '99') ;".to_string(),
        ]
    );
}

#[test]
fn no_restriction_read_back_writes_nothing() {
    let mut p = Penalties::new();
    p.charge("p1", 1);
    assert!(penalty_writes(&p, &Vec::new(), 5).unwrap().is_empty());
}

#[test]
fn bad_restriction_rows_give_none() {
    let mut p = Penalties::new();
    p.charge("p1", 1);
    let stranger = vec![RestrictionRow { peer_id: "p9".to_string(), penalty: "0".to_string() }];
    assert!(penalty_writes(&p, &stranger, 5).is_none());
    let mut p = Penalties::new();
    p.charge("p1", 1);
    let unreadable = vec![RestrictionRow { peer_id: "p1".to_string(), penalty: "x".to_string() }];
    assert!(penalty_writes(&p, &unreadable, 5).is_none());
    let mut p = Penalties::new();
    p.charge("p1", 1);
    let full = vec![RestrictionRow { peer_id: "p1".to_string(), penalty: "127".to_string() }];
    assert!(penalty_writes(&p, &full, 5).is_none());
    let mut p = Penalties::new();
    p.charge("p1", 1);
    let twice = vec![
        RestrictionRow { peer_id: "p1".to_string(), penalty: "0".to_string() },
        RestrictionRow { peer_id: "p1".to_string(), penalty: "0".to_string() },
    ];
    assert!(penalty_writes(&p, &twice, 5).is_none());
}

#[test]
fn file_read_back() {
    let data = MsgFileId { username: "ann".to_string(), file_id: "f1".to_string() };
    let row = FileRow {
        file_id: "f1".to_string(),
        file_name: "a.txt".to_string(),
        file_size: "3".to_string(),
        file_size_compressed: "3".to_string(),
        file_type: "txt".to_string(),
        file_status: "ready".to_string(),
        upload_date: "2024".to_string(),
    };
    let m = fetched_file_info(&data, &row, b"abc".to_vec());
    assert_eq!(m.username, "ann");
    assert_eq!(m.file_id, "f1");
    assert_eq!(m.file_name, "a.txt");
    assert_eq!(m.file_bytes, b"abc".to_vec());
    assert_eq!(m.owner, "");
    assert_eq!(m.write, "");
}

fn encoded_piece(piece: &Vec<u8>, chunks: i32) -> (TransmissionInfo, Vec<Vec<u8>>) {
    let d = Distribution::new("f1".to_string());
    let assignment = chunk_peer_selection(&vec!["p1".to_string(), "p2".to_string()], chunks);
    let r = d.encode_piece("0", piece, &assignment);
    let packets: Vec<Vec<u8>> = r.messages.iter().map(|m| m.chunk_bytes.clone()).collect();
    (r.info, packets)
}

#[test]
fn decoder_set_up_only_with_parameters_it_accepts() {
    let piece: Vec<u8> = (0..3000u32).map(|i| (i % 251) as u8).collect();
    let (info, packets) = encoded_piece(&piece, 6);
    assert!(can_decode(&info, &packets));
    assert!(can_decode(&info, &Vec::new()));
    let no_blocks = TransmissionInfo { source_blocks: 0, ..info };
    assert!(!can_decode(&no_blocks, &packets));
    let misaligned = TransmissionInfo { symbol_size: 1489, ..info };
    assert!(!can_decode(&misaligned, &Vec::new()));
    let too_long = TransmissionInfo { transfer_length: 942574504276, ..info };
    assert!(!can_decode(&too_long, &Vec::new()));
    let mut short = packets.clone();
    short[2].pop();
    assert!(!can_decode(&info, &short));
    let mut wrong_block = packets.clone();
    wrong_block[0][0] = 1;
    assert!(!can_decode(&info, &wrong_block));
}

#[test]
fn checked_packets_decode_to_the_piece() {
    let piece: Vec<u8> = (0..3000u32).map(|i| (i * 7 % 253) as u8).collect();
    let (info, packets) = encoded_piece(&piece, 6);
    assert_eq!(decode_checked_piece(&info, packets.clone()), Some(piece.clone()));
    let mut reversed = packets.clone();
    reversed.reverse();
    assert_eq!(decode_checked_piece(&info, reversed), Some(piece.clone()));
    assert_eq!(decode_checked_piece(&info, vec![packets[0].clone()]), None);
}

#[test]
fn pieces_join_in_order() {
    assert_eq!(join_pieces(&vec![vec![1, 2], vec![], vec![3]]), vec![1, 2, 3]);
    assert_eq!(join_pieces(&Vec::new()), Vec::<u8>::new());
}

#[test]
fn file_rebuilt_from_its_pieces() {
    let first: Vec<u8> = (0..3000u32).map(|i| (i % 251) as u8).collect();
    let second: Vec<u8> = (0..1200u32).map(|i| (i % 13) as u8).collect();
    let (info1, packets1) = encoded_piece(&first, 6);
    let (info2, packets2) = encoded_piece(&second, 4);
    let pieces = vec![
        CheckedPiece { info: info1, packets: packets1.clone() },
        CheckedPiece { info: info2, packets: packets2.clone() },
    ];
    let mut whole = first.clone();
    whole.extend_from_slice(&second);
    assert_eq!(decode_file(pieces), Ok(whole));
    assert_eq!(decode_file(Vec::new()), Ok(Vec::new()));
}

#[test]
fn file_read_names_the_piece_that_fails() {
    let first: Vec<u8> = (0..3000u32).map(|i| (i % 251) as u8).collect();
    let (info, packets) = encoded_piece(&first, 6);
    let missing = vec![
        CheckedPiece { info, packets: packets.clone() },
        CheckedPiece { info, packets: vec![packets[0].clone()] },
    ];
    assert_eq!(decode_file(missing), Err(ReadError::Undecoded(1)));
    let malformed = vec![
        CheckedPiece { info: TransmissionInfo { symbol_size: 0, ..info }, packets: Vec::new() },
        CheckedPiece { info, packets: Vec::new() },
    ];
    assert_eq!(decode_file(malformed), Err(ReadError::Malformed(0)));
}

#[test]
fn sent_chunks_read_back_in_any_order() {
    let bytes: Vec<u8> = (0..150_000u32).map(|i| (i * 31 % 256) as u8).collect();
    let mut pieces = Vec::new();
    for (k, chunks) in [(0usize, 136i32), (1, 68)] {
        let piece = bytes[k * 100_000..std::cmp::min((k + 1) * 100_000, bytes.len())].to_vec();
        let (info, mut packets) = encoded_piece(&piece, chunks);
        assert_eq!(packets.len(), chunks as usize);
        packets.reverse();
        packets.swap(0, 5);
        pieces.push(CheckedPiece { info, packets });
    }
    assert_eq!(decode_file(pieces), Ok(bytes));
}
