use storage::protobuf::{
    MsgDevice, MsgFileId, MsgLiveness, MsgMetrics, MsgPeerId, MsgPermissions, MsgUser, MsgUsername,
};
use storage::services::{
    file_delete, file_info_query, file_list, file_list_reply, file_ready_query, liveness_put, login_reply,
    metrics_get, metrics_put, own_file_info, peer_get, peer_get_reply, peer_signup, peer_signup_reply,
    peer_signup_step, peers_holding_chunks, permission_list, permission_put, permission_update,
    shared_file_info, shared_files_query, should_distribute, user_login, user_signup, write_reply, Credentials,
    FileRow, PeerRow, PeerSignupStep, PermissionRow, WriteOutcome,
};

fn ann() -> MsgUsername {
    MsgUsername { username: "ann".to_string() }
}

fn device() -> MsgDevice {
    MsgDevice {
        username: "ann".to_string(),
        device_name: "laptop".to_string(),
        disk_size: "1000".to_string(),
        mount_point: "/mnt".to_string(),
        country: "IT".to_string(),
        registration_date: "2024-01-01".to_string(),
    }
}

fn file_row(id: &str) -> FileRow {
    FileRow {
        file_id: id.to_string(),
        file_name: "a.txt".to_string(),
        file_size: "10".to_string(),
        file_size_compressed: "8".to_string(),
        file_type: "txt".to_string(),
        file_status: "ready".to_string(),
        upload_date: "2024".to_string(),
    }
}

#[test]
fn signup_statement() {
    let user = MsgUser {
        username: "ann".to_string(),
        name: "Ann".to_string(),
        surname: "Lee".to_string(),
        password: "pw".to_string(),
        email: "a@b.c".to_string(),
        salt: "s1".to_string(),
        registration_date: "2024-01-01".to_string(),
    };
    assert_eq!(
        user_signup(&user),
        "insert into user.user (username, name, surname, password, email, salt, registration_date) values ('ann', 'Ann', 'Lee', 'pw', 'a@b.c', 's1', '2024-01-01') ;"
    );
}

#[test]
fn login_statement_and_replies() {
    assert_eq!(user_login(&ann()), "SELECT * FROM user.user WHERE username='ann';");
    let found = Some(Credentials { password: "h".to_string(), salt: "s".to_string() });
    assert_eq!(login_reply(&found), "password:h,salt:s");
    assert_eq!(login_reply(&None), "");
}

#[test]
fn peer_signup_gets_fresh_identifier() {
    let a = peer_signup(&device());
    let b = peer_signup(&device());
    assert_eq!(a.peer_id.len(), 36);
    assert_ne!(a.peer_id, b.peer_id);
    for (i, c) in a.peer_id.chars().enumerate() {
        if i == 8 || i == 13 || i == 18 || i == 23 {
            assert_eq!(c, '-');
        } else {
            assert!(c.is_ascii_digit() || ('a'..='f').contains(&c));
        }
    }
    assert_eq!(a.peer_id.chars().nth(14), Some('4'));
    assert_eq!(
        a.device_query,
        format!(
            "insert into peer.peer (username, device_name, disk_size, mount_point, country, registration_date, peer_id) values ('ann', 'laptop', '1000', '/mnt', 'IT', '2024-01-01', '{}') IF NOT EXISTS;",
            a.peer_id
        )
    );
}

#[test]
fn peer_signup_records_selection_when_device_recorded() {
    match peer_signup_step(&device(), "pid", "true", 1700000000) {
        PeerSignupStep::RecordSelection(q) => assert_eq!(
            q,
            "insert into peer.selection (peer_id, last_liveness, ranking, country, mount_point, pieces, disk_available) values ('pid', '1700000000', '1', 'IT', '/mnt', '{}', 1000) ;"
        ),
        PeerSignupStep::Reply(_) => panic!("expected the selection statement"),
    }
    match peer_signup_step(&device(), "pid", "false", 1) {
        PeerSignupStep::Reply(r) => assert_eq!(r, "false"),
        PeerSignupStep::RecordSelection(_) => panic!("expected a reply"),
    }
}

#[test]
fn peer_signup_reply_is_identifier_only_when_recorded() {
    assert_eq!(peer_signup_reply("true", "pid"), "pid");
    assert_eq!(peer_signup_reply("false", "pid"), "false");
}

#[test]
fn peer_listing() {
    assert_eq!(peer_get(&ann()), "SELECT * FROM peer.peer WHERE username='ann';");
    let rows = vec![
        PeerRow {
            peer_id: "p1".to_string(),
            device_name: "d".to_string(),
            disk_size: "10".to_string(),
            mount_point: "/m".to_string(),
            registration_date: "r".to_string(),
        },
        PeerRow {
            peer_id: "p2".to_string(),
            device_name: "e".to_string(),
            disk_size: "20".to_string(),
            mount_point: "/n".to_string(),
            registration_date: "s".to_string(),
        },
    ];
    assert_eq!(
        peer_get_reply(&rows),
        r#"[{"peer_id": "p1", "device_name": "d", "disk_size": "10", "mount_point": "/m", "registration_date": "r"}, {"peer_id": "p2", "device_name": "e", "disk_size": "20", "mount_point": "/n", "registration_date": "s"}]"#
    );
    assert_eq!(peer_get_reply(&Vec::new()), "[]");
}

#[test]
fn file_listing_statements() {
    assert_eq!(file_list(&ann()), "SELECT * FROM file.file WHERE username='ann';");
    assert_eq!(permission_list(&ann()), "SELECT * FROM file.permission WHERE username='ann';");
}

#[test]
fn own_files_are_owned_and_writable() {
    let m = own_file_info(&file_row("f1"), "ann");
    assert_eq!(m.file_id, "f1");
    assert_eq!(m.file_name, "a.txt");
    assert_eq!(m.owner, "Y");
    assert_eq!(m.write, "Y");
    assert_eq!(m.username, "ann");
    assert!(m.file_bytes.is_empty());
}

#[test]
fn shared_files_query_lists_identifiers() {
    assert!(shared_files_query(&Vec::new()).is_none());
    let perms = vec![
        PermissionRow { file_id: "a".to_string(), owner: "N".to_string(), write: "N".to_string() },
        PermissionRow { file_id: "b".to_string(), owner: "N".to_string(), write: "Y".to_string() },
    ];
    assert_eq!(shared_files_query(&perms).unwrap(), "SELECT * FROM file.file WHERE file_id in ('a','b');");
}

#[test]
fn shared_file_takes_last_rights() {
    let perms = vec![
        PermissionRow { file_id: "a".to_string(), owner: "N".to_string(), write: "N".to_string() },
        PermissionRow { file_id: "b".to_string(), owner: "N".to_string(), write: "Y".to_string() },
        PermissionRow { file_id: "a".to_string(), owner: "Y".to_string(), write: "N".to_string() },
    ];
    let m = shared_file_info(&file_row("a"), &perms, "bob").unwrap();
    assert_eq!(m.owner, "Y");
    assert_eq!(m.write, "N");
    assert_eq!(m.username, "bob");
    let n = shared_file_info(&file_row("b"), &perms, "bob").unwrap();
    assert_eq!(n.write, "Y");
    assert!(shared_file_info(&file_row("c"), &perms, "bob").is_none());
}

#[test]
fn file_listing_reply() {
    let mine = vec![b"hi".to_vec()];
    let shared = vec![b"foo".to_vec(), b"f".to_vec()];
    assert_eq!(file_list_reply(&mine, &shared), "[[\"aGk=\"], [\"Zm9v\", \"Zg==\"]]");
    assert_eq!(file_list_reply(&Vec::new(), &Vec::new()), "[[], []]");
}

#[test]
fn metrics_statements() {
    let m = MsgMetrics {
        peer_id: "p1".to_string(),
        uptime_start: "1".to_string(),
        uptime_end: "2".to_string(),
        disk_read: "3".to_string(),
        disk_write: "4".to_string(),
        throughput: "5".to_string(),
    };
    assert_eq!(
        metrics_put(&m),
        "insert into peer.performance (peer_id, uptime_start, uptime_end, disk_read, disk_write, throughput) values ('p1', '1', '2', '3', '4', '5') ;"
    );
    assert_eq!(
        metrics_get(&MsgPeerId { peer_id: "p1,p2".to_string() }),
        "SELECT * FROM peer.performance WHERE peer_id in ('p1', 'p2');"
    );
    assert_eq!(
        metrics_get(&MsgPeerId { peer_id: "p1".to_string() }),
        "SELECT * FROM peer.performance WHERE peer_id in ('p1');"
    );
}

#[test]
fn liveness_statements() {
    let u = liveness_put(&MsgLiveness { peer_id: "p1".to_string() }, 42);
    assert_eq!(u.liveness_query, "insert into peer.liveness (peer_id) values ('p1') ;");
    assert_eq!(u.selection_query, "update peer.selection set last_liveness='42' where peer_id='p1';");
}

#[test]
fn permission_statements() {
    let d = MsgPermissions {
        username: "ann".to_string(),
        file_id: "f1".to_string(),
        owner: "N".to_string(),
        write: "Y".to_string(),
    };
    assert_eq!(
        permission_put(&d),
        "insert into user.permission (username, file_id, owner, write) values ('ann', 'f1', 'N', 'Y') IF NOT EXISTS;"
    );
    assert!(permission_update(&d, "true").is_none());
    assert_eq!(
        permission_update(&d, "false").unwrap(),
        "update user.permission set owner='N' and write='Y' where username='ann' and file_id='f1';"
    );
}

#[test]
fn write_replies() {
    assert_eq!(write_reply(&WriteOutcome::Applied("true".to_string()), "IF NOT EXISTS"), "true");
    assert_eq!(write_reply(&WriteOutcome::Applied("false".to_string()), "IF NOT EXISTS"), "false");
    assert_eq!(write_reply(&WriteOutcome::NoRow, ""), "true");
    assert_eq!(write_reply(&WriteOutcome::NoRow, "IF NOT EXISTS"), "false");
    assert_eq!(write_reply(&WriteOutcome::Failed, ""), "false");
}

#[test]
fn file_deletion_statements() {
    let d = file_delete(&MsgFileId { username: "ann".to_string(), file_id: "f1".to_string() });
    assert_eq!(d.file_query, "delete from file.file where username='ann' and file_id='f1';");
    assert_eq!(d.chunk_peers_query, "SELECT chunk_peer FROM file.piece WHERE file_id='f1';");
    assert_eq!(d.pieces_query, "delete from file.piece where file_id='f1';");
    assert_eq!(
        file_info_query(&MsgFileId { username: "ann".to_string(), file_id: "f1".to_string() }),
        "SELECT * FROM file.file WHERE username='ann' and file_id='f1';"
    );
}

#[test]
fn peers_holding_chunks_once_each() {
    let cols = vec![
        r#"{"chunk0":"p1","chunk1":"p2"}"#.to_string(),
        r#"{"chunk0":"p2","chunk1":"p3"}"#.to_string(),
    ];
    let mut peers = peers_holding_chunks(&cols).unwrap();
    peers.sort();
    assert_eq!(peers, vec!["p1".to_string(), "p2".to_string(), "p3".to_string()]);
    assert!(peers_holding_chunks(&vec!["not json".to_string()]).is_none());
    assert_eq!(peers_holding_chunks(&vec!["[1]".to_string()]).unwrap().len(), 0);
    assert_eq!(peers_holding_chunks(&Vec::new()).unwrap().len(), 0);
}

#[test]
fn distribution_follows_a_named_file() {
    assert!(!should_distribute(""));
    assert!(!should_distribute("false"));
    assert!(should_distribute("f1"));
    assert_eq!(
        file_ready_query("f1", "ann"),
        "update file.file set file_status = 'ready' where file_id = 'f1' and username = 'ann';"
    );
}
