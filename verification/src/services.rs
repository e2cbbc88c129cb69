//! What each request of the storage service computes: the statements it
//! runs and the reply it gives, from the request and from what the database
//! answered before.
use vstd::prelude::*;
use crate::columns::{ColumnValues, lemma_column_names, str_equal};
use crate::constants::FILE_STATUS_READY;
use crate::json::{json_string_map, parse_string_map};
use crate::distribution::{chunk_map_debug, debug_map};
use crate::encoding::{base64_list_text, base64_texts, encoded_list_reply};
use crate::protobuf::{MsgDevice, MsgFileId, MsgFileInfo, MsgLiveness, MsgMetrics, MsgPeerId, MsgPermissions,
    MsgUser, MsgUsername};
use crate::query::{delete_from_table, delete_text, get_from_table, insert_into_table, insert_into_table_with_num,
    insert_text, insert_with_num_text, select_text, update_table, update_text};
use crate::text::{debug_list, decimal, int_to_string, join, push_decimal, seq_join, split_char, split_on, views};
use crate::upload::{assignment_view, generate_id, is_uuid_v4_text, pieces_clause};

verus! {

/// The clause that selects the rows of user `u`: `username='<u>'`.
pub open spec fn username_clause(u: Seq<char>) -> Seq<char> {
    "username='"@ + u + "'"@
}

/// The clause that selects the rows of user `u`.
fn username_clause_text(u: &str) -> (c: String)
    ensures
        c@ == username_clause(u@),
{
    let mut c = String::new();
    c.append("username='");
    c.append(u);
    c.append("'");
    assert(c@ =~= username_clause(u@));
    c
}

/// The row of a new user.
pub open spec fn user_row(user: MsgUser) -> Seq<(Seq<char>, Seq<char>)> {
    seq![
        ("username"@, user.username@),
        ("name"@, user.name@),
        ("surname"@, user.surname@),
        ("password"@, user.password@),
        ("email"@, user.email@),
        ("salt"@, user.salt@),
        ("registration_date"@, user.registration_date@),
    ]
}

/// The statement that signs `user` up.
pub fn user_signup(user: &MsgUser) -> (q: String)
    ensures
        q@ == insert_text("user"@, "user"@, user_row(*user), ""@),
{
    proof {
        lemma_column_names();
    }
    let row = ColumnValues::from_pairs(vec![
        ("username".to_string(), user.username.clone()),
        ("name".to_string(), user.name.clone()),
        ("surname".to_string(), user.surname.clone()),
        ("password".to_string(), user.password.clone()),
        ("email".to_string(), user.email.clone()),
        ("salt".to_string(), user.salt.clone()),
        ("registration_date".to_string(), user.registration_date.clone()),
    ]);
    assert(row@ =~= user_row(*user));
    insert_into_table("user", "user", row, "")
}

/// The statement that looks user `user` up.
pub fn user_login(user: &MsgUsername) -> (q: String)
    ensures
        q@ == select_text("user"@, "user"@, "*"@, username_clause(user.username@)),
{
    get_from_table("user", "user", "*", username_clause_text(user.username.as_str()))
}

/// The password and salt of a user found at login.
pub struct Credentials {
    pub password: String,
    pub salt: String,
}

/// The reply to a login: `password:<p>,salt:<s>` for the user found, the empty text where none was.
pub open spec fn login_reply_text(found: Option<Credentials>) -> Seq<char> {
    match found {
        Some(c) => "password:"@ + c.password@ + ",salt:"@ + c.salt@,
        None => Seq::empty(),
    }
}

/// The reply to a login, from the user found, if any.
pub fn login_reply(found: &Option<Credentials>) -> (r: String)
    ensures
        r@ == login_reply_text(*found),
{
    match found {
        Some(c) => {
            let mut r = String::new();
            r.append("password:");
            r.append(c.password.as_str());
            r.append(",salt:");
            r.append(c.salt.as_str());
            assert(r@ =~= login_reply_text(*found));
            r
        },
        None => {
            let r = String::new();
            assert(r@ =~= login_reply_text(*found));
            r
        },
    }
}

/// The row of a device that signs up as peer `peer_id`.
pub open spec fn device_row(device: MsgDevice, peer_id: Seq<char>) -> Seq<(Seq<char>, Seq<char>)> {
    seq![
        ("username"@, device.username@),
        ("device_name"@, device.device_name@),
        ("disk_size"@, device.disk_size@),
        ("mount_point"@, device.mount_point@),
        ("country"@, device.country@),
        ("registration_date"@, device.registration_date@),
        ("peer_id"@, peer_id),
    ]
}

/// The statement that records a device as peer `peer_id`, unless a device with its key exists.
pub fn device_insert_query(device: &MsgDevice, peer_id: &str) -> (q: String)
    ensures
        q@ == insert_text("peer"@, "peer"@, device_row(*device, peer_id@), "IF NOT EXISTS"@),
{
    proof {
        lemma_column_names();
    }
    let row = ColumnValues::from_pairs(vec![
        ("username".to_string(), device.username.clone()),
        ("device_name".to_string(), device.device_name.clone()),
        ("disk_size".to_string(), device.disk_size.clone()),
        ("mount_point".to_string(), device.mount_point.clone()),
        ("country".to_string(), device.country.clone()),
        ("registration_date".to_string(), device.registration_date.clone()),
        ("peer_id".to_string(), peer_id.to_string()),
    ]);
    assert(row@ =~= device_row(*device, peer_id@));
    insert_into_table("peer", "peer", row, "IF NOT EXISTS")
}

/// A device signing up: the peer identifier it gets and the statement that records it.
pub struct PeerSignup {
    pub peer_id: String,
    pub device_query: String,
}

/// Gives a device a fresh peer identifier and builds the statement that records it.
pub fn peer_signup(device: &MsgDevice) -> (s: PeerSignup)
    ensures
        is_uuid_v4_text(s.peer_id@),
        s.device_query@ == insert_text("peer"@, "peer"@, device_row(*device, s.peer_id@), "IF NOT EXISTS"@),
{
    let peer_id = generate_id();
    let device_query = device_insert_query(device, peer_id.as_str());
    PeerSignup { peer_id, device_query }
}

/// The selection row of a new peer: seen alive at `now`, ranking 1, no pieces yet.
pub open spec fn selection_row(device: MsgDevice, peer_id: Seq<char>, now: u64) -> Seq<(Seq<char>, Seq<char>)> {
    seq![
        ("peer_id"@, peer_id),
        ("last_liveness"@, decimal(now as int)),
        ("ranking"@, "1"@),
        ("country"@, device.country@),
        ("mount_point"@, device.mount_point@),
        ("pieces"@, "{}"@),
    ]
}

/// The disk column of a new peer's selection row: its whole disk, as given.
pub open spec fn disk_column(disk: Seq<char>) -> Seq<(Seq<char>, Seq<char>)> {
    seq![("disk_available"@, disk)]
}

/// What a peer signup does once the device statement ran.
pub enum PeerSignupStep {
    /// Run this statement, which puts the new peer in the selection table.
    RecordSelection(String),
    /// Answer this.
    Reply(String),
}

/// The next step of a peer signup, from the answer to the device statement:
/// where the device was recorded ("true"), the peer goes into the selection
/// table with the time `now` (seconds since the epoch); otherwise that answer is the reply.
pub fn peer_signup_step(device: &MsgDevice, peer_id: &str, device_reply: &str, now: u64) -> (s: PeerSignupStep)
    ensures
        device_reply@ == "true"@ ==> (s matches PeerSignupStep::RecordSelection(q) && q@ == insert_with_num_text(
            "peer"@, "selection"@, selection_row(*device, peer_id@, now), disk_column(device.disk_size@), ""@)),
        device_reply@ != "true"@ ==> (s matches PeerSignupStep::Reply(r) && r@ == device_reply@),
{
    if !str_equal(device_reply, "true") {
        return PeerSignupStep::Reply(device_reply.to_string());
    }
    proof {
        lemma_column_names();
    }
    let row = ColumnValues::from_pairs(vec![
        ("peer_id".to_string(), peer_id.to_string()),
        ("last_liveness".to_string(), int_to_string(now as i128)),
        ("ranking".to_string(), "1".to_string()),
        ("country".to_string(), device.country.clone()),
        ("mount_point".to_string(), device.mount_point.clone()),
        ("pieces".to_string(), "{}".to_string()),
    ]);
    assert(row@ =~= selection_row(*device, peer_id@, now));
    let disk = ColumnValues::from_pairs(vec![
        ("disk_available".to_string(), device.disk_size.clone()),
    ]);
    assert(disk@ =~= disk_column(device.disk_size@));
    PeerSignupStep::RecordSelection(insert_into_table_with_num("peer", "selection", row, disk, ""))
}

/// The reply to a peer signup, from the answer to the selection statement:
/// the new peer identifier where it was recorded ("true"), that answer otherwise.
pub fn peer_signup_reply(selection_reply: &str, peer_id: &str) -> (r: String)
    ensures
        r@ == (if selection_reply@ == "true"@ { peer_id@ } else { selection_reply@ }),
{
    if str_equal(selection_reply, "true") {
        peer_id.to_string()
    } else {
        selection_reply.to_string()
    }
}


/// The statement that lists the devices of user `user`.
pub fn peer_get(user: &MsgUsername) -> (q: String)
    ensures
        q@ == select_text("peer"@, "peer"@, "*"@, username_clause(user.username@)),
{
    get_from_table("peer", "peer", "*", username_clause_text(user.username.as_str()))
}

/// A device of a user, as the peer table gives it back.
pub struct PeerRow {
    pub peer_id: String,
    pub device_name: String,
    pub disk_size: String,
    pub mount_point: String,
    pub registration_date: String,
}

/// What the reply tells of a device.
pub open spec fn peer_record(r: PeerRow) -> Seq<(Seq<char>, Seq<char>)> {
    seq![
        ("peer_id"@, r.peer_id@),
        ("device_name"@, r.device_name@),
        ("disk_size"@, r.disk_size@),
        ("mount_point"@, r.mount_point@),
        ("registration_date"@, r.registration_date@),
    ]
}

/// The reply that lists devices: the debug form of the list of their records.
pub open spec fn peer_list_text(rows: Seq<PeerRow>) -> Seq<char> {
    "["@ + seq_join(rows.map_values(|r: PeerRow| chunk_map_debug(peer_record(r))), ", "@) + "]"@
}

/// The debug form of the record of one device.
fn peer_record_text(r: &PeerRow) -> (s: String)
    ensures
        s@ == chunk_map_debug(peer_record(*r)),
{
    let mut pairs: Vec<(String, String)> = Vec::new();
    pairs.push(("peer_id".to_string(), r.peer_id.clone()));
    pairs.push(("device_name".to_string(), r.device_name.clone()));
    pairs.push(("disk_size".to_string(), r.disk_size.clone()));
    pairs.push(("mount_point".to_string(), r.mount_point.clone()));
    pairs.push(("registration_date".to_string(), r.registration_date.clone()));
    assert(assignment_view(pairs@) =~= peer_record(*r));
    debug_map(&pairs)
}

/// The reply that lists the devices `rows`.
pub fn peer_get_reply(rows: &Vec<PeerRow>) -> (r: String)
    ensures
        r@ == peer_list_text(rows@),
{
    let ghost target = rows@.map_values(|r: PeerRow| chunk_map_debug(peer_record(r)));
    let mut items: Vec<String> = Vec::new();
    let mut i: usize = 0;
    while i < rows.len()
        invariant
            i <= rows@.len(),
            items@.len() == i,
            target == rows@.map_values(|r: PeerRow| chunk_map_debug(peer_record(r))),
            views(items@) == target.take(i as int),
        decreases rows.len() - i,
    {
        let item = peer_record_text(&rows[i]);
        let ghost prev = items@;
        items.push(item);
        assert forall|k: int| 0 <= k < i + 1 implies #[trigger] views(items@)[k] == target.take(i + 1)[k] by {
            if k < i {
                assert(views(prev)[k] == target.take(i as int)[k]);
            }
        }
        assert(views(items@) =~= target.take(i + 1));
        i = i + 1;
    }
    assert(target.take(i as int) =~= target);
    let inner = join(&items, ", ");
    let mut r = String::new();
    r.append("[");
    r.append(inner.as_str());
    r.append("]");
    assert(r@ =~= peer_list_text(rows@));
    r
}

/// The statement that lists the files of user `user`.
pub fn file_list(user: &MsgUsername) -> (q: String)
    ensures
        q@ == select_text("file"@, "file"@, "*"@, username_clause(user.username@)),
{
    get_from_table("file", "file", "*", username_clause_text(user.username.as_str()))
}

/// The statement that lists the rights of user `user` on files shared with them.
pub fn permission_list(user: &MsgUsername) -> (q: String)
    ensures
        q@ == select_text("file"@, "permission"@, "*"@, username_clause(user.username@)),
{
    get_from_table("file", "permission", "*", username_clause_text(user.username.as_str()))
}

/// A file, as the file table gives it back.
pub struct FileRow {
    pub file_id: String,
    pub file_name: String,
    pub file_size: String,
    pub file_size_compressed: String,
    pub file_type: String,
    pub file_status: String,
    pub upload_date: String,
}

/// Whether `m` describes file `row` for `username`, with the rights `owner`
/// and `write`, and no content.
pub open spec fn listed_file(m: MsgFileInfo, row: FileRow, owner: Seq<char>, write: Seq<char>, username: Seq<char>) -> bool {
    &&& m.file_id@ == row.file_id@
    &&& m.file_name@ == row.file_name@
    &&& m.file_size@ == row.file_size@
    &&& m.file_size_compressed@ == row.file_size_compressed@
    &&& m.file_type@ == row.file_type@
    &&& m.file_status@ == row.file_status@
    &&& m.upload_date@ == row.upload_date@
    &&& m.owner@ == owner
    &&& m.write@ == write
    &&& m.username@ == username
    &&& m.file_bytes@.len() == 0
}

/// The description of file `row` for `username`, with the given rights.
fn listed_file_info(row: &FileRow, owner: &str, write: &str, username: &str) -> (m: MsgFileInfo)
    ensures
        listed_file(m, *row, owner@, write@, username@),
{
    MsgFileInfo {
        username: username.to_string(),
        file_id: row.file_id.clone(),
        file_name: row.file_name.clone(),
        file_size: row.file_size.clone(),
        file_size_compressed: row.file_size_compressed.clone(),
        file_type: row.file_type.clone(),
        file_status: row.file_status.clone(),
        upload_date: row.upload_date.clone(),
        file_bytes: Vec::new(),
        owner: owner.to_string(),
        write: write.to_string(),
    }
}

/// The description of a file of `username` themself: owner and writer ("Y").
pub fn own_file_info(row: &FileRow, username: &str) -> (m: MsgFileInfo)
    ensures
        listed_file(m, *row, "Y"@, "Y"@, username@),
{
    listed_file_info(row, "Y", "Y", username)
}

/// The rights of a user on a file shared with them.
pub struct PermissionRow {
    pub file_id: String,
    pub owner: String,
    pub write: String,
}

/// The files that rights are held on, in order.
pub open spec fn permission_ids(perms: Seq<PermissionRow>) -> Seq<Seq<char>> {
    perms.map_values(|r: PermissionRow| r.file_id@)
}

/// The clause that selects the files `ids`: `file_id in ('<a>','<b>')`.
pub open spec fn shared_clause(ids: Seq<Seq<char>>) -> Seq<char> {
    "file_id in ('"@ + seq_join(ids, "','"@) + "')"@
}

/// The statement that fetches the files shared with a user; none where
/// no file is shared with them.
pub fn shared_files_query(perms: &Vec<PermissionRow>) -> (q: Option<String>)
    ensures
        q is None <==> perms@.len() == 0,
        q matches Some(t) ==> t@ == select_text("file"@, "file"@, "*"@, shared_clause(permission_ids(perms@))),
{
    if perms.len() == 0 {
        return None;
    }
    let mut ids: Vec<String> = Vec::new();
    let mut i: usize = 0;
    while i < perms.len()
        invariant
            i <= perms@.len(),
            ids@.len() == i,
            views(ids@) == permission_ids(perms@).take(i as int),
        decreases perms.len() - i,
    {
        let ghost prev = ids@;
        ids.push(perms[i].file_id.clone());
        assert forall|k: int| 0 <= k < i + 1 implies #[trigger] views(ids@)[k]
            == permission_ids(perms@).take(i + 1)[k] by {
            if k < i {
                assert(views(prev)[k] == permission_ids(perms@).take(i as int)[k]);
            }
        }
        assert(views(ids@) =~= permission_ids(perms@).take(i + 1));
        i = i + 1;
    }
    assert(permission_ids(perms@).take(i as int) =~= permission_ids(perms@));
    let joined = join(&ids, "','");
    let mut clause = String::new();
    clause.append("file_id in ('");
    clause.append(joined.as_str());
    clause.append("')");
    assert(clause@ =~= shared_clause(permission_ids(perms@)));
    Some(get_from_table("file", "file", "*", clause))
}

/// Where the last rights on file `id` stand, as a map keyed by file keeps the last it was given.
pub open spec fn last_permission(perms: Seq<PermissionRow>, id: Seq<char>) -> Option<int>
    decreases perms.len(),
{
    if perms.len() == 0 {
        None
    } else if perms.last().file_id@ == id {
        Some(perms.len() - 1)
    } else {
        last_permission(perms.drop_last(), id)
    }
}

proof fn lemma_last_permission_bound(perms: Seq<PermissionRow>, id: Seq<char>)
    ensures
        last_permission(perms, id) matches Some(k) ==> 0 <= k < perms.len() && perms[k].file_id@ == id,
    decreases perms.len(),
{
    if perms.len() > 0 && perms.last().file_id@ != id {
        lemma_last_permission_bound(perms.drop_last(), id);
    }
}

/// The description of a shared file `row` for `username`, with the rights the
/// user holds on it; none where the user holds no rights on it.
pub fn shared_file_info(row: &FileRow, perms: &Vec<PermissionRow>, username: &str) -> (m: Option<MsgFileInfo>)
    ensures
        m is None <==> last_permission(perms@, row.file_id@) is None,
        m matches Some(info) ==> {
            let k = last_permission(perms@, row.file_id@)->0;
            listed_file(info, *row, perms@[k].owner@, perms@[k].write@, username@)
        },
{
    let mut i: usize = perms.len();
    assert(perms@.take(i as int) =~= perms@);
    while i > 0
        invariant
            i <= perms@.len(),
            last_permission(perms@, row.file_id@) == last_permission(perms@.take(i as int), row.file_id@),
        decreases i,
    {
        let ghost pre = perms@.take(i as int);
        assert(pre.drop_last() =~= perms@.take(i - 1));
        assert(pre.last() == perms@[i - 1]);
        if str_equal(perms[i - 1].file_id.as_str(), row.file_id.as_str()) {
            let info = listed_file_info(row, perms[i - 1].owner.as_str(), perms[i - 1].write.as_str(), username);
            return Some(info);
        }
        i = i - 1;
    }
    None
}

/// The reply to a file listing: the debug form of the pair of lists of base64
/// texts of the encoded descriptions of the user's own files and of those shared with them.
pub open spec fn file_list_text(mine: Seq<Vec<u8>>, shared: Seq<Vec<u8>>) -> Seq<char> {
    "["@ + debug_list(base64_texts(mine)) + ", "@ + debug_list(base64_texts(shared)) + "]"@
}

/// The reply to a file listing, from the encoded descriptions.
pub fn file_list_reply(mine: &Vec<Vec<u8>>, shared: &Vec<Vec<u8>>) -> (r: String)
    ensures
        r@ == file_list_text(mine@, shared@),
        r@ == "["@ + base64_list_text(mine@) + ", "@ + base64_list_text(shared@) + "]"@,
{
    let a = encoded_list_reply(mine);
    let b = encoded_list_reply(shared);
    let mut r = String::new();
    r.append("[");
    r.append(a.as_str());
    r.append(", ");
    r.append(b.as_str());
    r.append("]");
    assert(r@ =~= file_list_text(mine@, shared@));
    assert(r@ =~= "["@ + base64_list_text(mine@) + ", "@ + base64_list_text(shared@) + "]"@);
    r
}

/// The row of performance figures of a peer.
pub open spec fn metrics_row(m: MsgMetrics) -> Seq<(Seq<char>, Seq<char>)> {
    seq![
        ("peer_id"@, m.peer_id@),
        ("uptime_start"@, m.uptime_start@),
        ("uptime_end"@, m.uptime_end@),
        ("disk_read"@, m.disk_read@),
        ("disk_write"@, m.disk_write@),
        ("throughput"@, m.throughput@),
    ]
}

/// The statement that records performance figures.
pub fn metrics_put(data: &MsgMetrics) -> (q: String)
    ensures
        q@ == insert_text("peer"@, "performance"@, metrics_row(*data), ""@),
{
    proof {
        lemma_column_names();
    }
    let row = ColumnValues::from_pairs(vec![
        ("peer_id".to_string(), data.peer_id.clone()),
        ("uptime_start".to_string(), data.uptime_start.clone()),
        ("uptime_end".to_string(), data.uptime_end.clone()),
        ("disk_read".to_string(), data.disk_read.clone()),
        ("disk_write".to_string(), data.disk_write.clone()),
        ("throughput".to_string(), data.throughput.clone()),
    ]);
    assert(row@ =~= metrics_row(*data));
    insert_into_table("peer", "performance", row, "")
}

/// A text in single quotes.
pub open spec fn quoted(t: Seq<char>) -> Seq<char> {
    "'"@ + t + "'"@
}

/// The clause that selects the peers `ids`: `peer_id in ('<a>', '<b>')`.
pub open spec fn peers_in_clause(ids: Seq<Seq<char>>) -> Seq<char> {
    "peer_id in ("@ + seq_join(ids.map_values(|t: Seq<char>| quoted(t)), ", "@) + ")"@
}

/// The clause that selects the peers `ids`.
pub fn peers_in_clause_text(ids: &Vec<String>) -> (c: String)
    ensures
        c@ == peers_in_clause(views(ids@)),
{
    let ghost target = views(ids@).map_values(|t: Seq<char>| quoted(t));
    let mut items: Vec<String> = Vec::new();
    let mut i: usize = 0;
    while i < ids.len()
        invariant
            i <= ids@.len(),
            items@.len() == i,
            target == views(ids@).map_values(|t: Seq<char>| quoted(t)),
            views(items@) == target.take(i as int),
        decreases ids.len() - i,
    {
        let mut item = String::new();
        item.append("'");
        item.append(ids[i].as_str());
        item.append("'");
        assert(item@ =~= target[i as int]);
        let ghost prev = items@;
        items.push(item);
        assert forall|k: int| 0 <= k < i + 1 implies #[trigger] views(items@)[k] == target.take(i + 1)[k] by {
            if k < i {
                assert(views(prev)[k] == target.take(i as int)[k]);
            }
        }
        assert(views(items@) =~= target.take(i + 1));
        i = i + 1;
    }
    assert(target.take(i as int) =~= target);
    let inner = join(&items, ", ");
    let mut c = String::new();
    c.append("peer_id in (");
    c.append(inner.as_str());
    c.append(")");
    assert(c@ =~= peers_in_clause(views(ids@)));
    c
}

/// The statement that fetches the performance figures of the peers whose
/// identifiers `data` lists, separated by commas.
pub fn metrics_get(data: &MsgPeerId) -> (q: String)
    ensures
        q@ == select_text("peer"@, "performance"@, "*"@, peers_in_clause(split_on(data.peer_id@, ','))),
{
    let ids = split_char(data.peer_id.as_str(), ',');
    let clause = peers_in_clause_text(&ids);
    get_from_table("peer", "performance", "*", clause)
}

/// The clause that selects peer `id`: `peer_id='<id>'`.
pub open spec fn peer_clause(id: Seq<char>) -> Seq<char> {
    "peer_id='"@ + id + "'"@
}

/// The two statements of a liveness signal: the signal itself, and the time
/// the peer was last seen alive in its selection row.
pub struct LivenessUpdate {
    pub liveness_query: String,
    pub selection_query: String,
}

/// The statements that record a liveness signal of `data` received at `now`
/// (seconds since the epoch).
pub fn liveness_put(data: &MsgLiveness, now: u64) -> (u: LivenessUpdate)
    ensures
        u.liveness_query@ == insert_text("peer"@, "liveness"@, seq![("peer_id"@, data.peer_id@)], ""@),
        u.selection_query@ == update_text("peer"@, "selection"@,
            "last_liveness='"@ + decimal(now as int) + "'"@, peer_clause(data.peer_id@)),
{
    let row = ColumnValues::from_pairs(vec![
        ("peer_id".to_string(), data.peer_id.clone()),
    ]);
    assert(row@ =~= seq![("peer_id"@, data.peer_id@)]);
    let liveness_query = insert_into_table("peer", "liveness", row, "");
    let mut set = String::new();
    set.append("last_liveness='");
    push_decimal(&mut set, now as i128);
    set.append("'");
    assert(set@ =~= "last_liveness='"@ + decimal(now as int) + "'"@);
    let mut clause = String::new();
    clause.append("peer_id='");
    clause.append(data.peer_id.as_str());
    clause.append("'");
    assert(clause@ =~= peer_clause(data.peer_id@));
    let selection_query = update_table("peer", "selection", set, clause);
    LivenessUpdate { liveness_query, selection_query }
}

/// The row of rights of a user on a file.
pub open spec fn permission_row(d: MsgPermissions) -> Seq<(Seq<char>, Seq<char>)> {
    seq![
        ("username"@, d.username@),
        ("file_id"@, d.file_id@),
        ("owner"@, d.owner@),
        ("write"@, d.write@),
    ]
}

/// The statement that grants rights, unless the user holds rights on the file already.
pub fn permission_put(data: &MsgPermissions) -> (q: String)
    ensures
        q@ == insert_text("user"@, "permission"@, permission_row(*data), "IF NOT EXISTS"@),
{
    proof {
        lemma_column_names();
    }
    let row = ColumnValues::from_pairs(vec![
        ("username".to_string(), data.username.clone()),
        ("file_id".to_string(), data.file_id.clone()),
        ("owner".to_string(), data.owner.clone()),
        ("write".to_string(), data.write.clone()),
    ]);
    assert(row@ =~= permission_row(*data));
    insert_into_table("user", "permission", row, "IF NOT EXISTS")
}

/// The new rights: `owner='<o>' and write='<w>'`.
pub open spec fn permission_set(d: MsgPermissions) -> Seq<char> {
    "owner='"@ + d.owner@ + "' and write='"@ + d.write@ + "'"@
}

/// The clause that selects the rights of a user on a file.
pub open spec fn permission_key(d: MsgPermissions) -> Seq<char> {
    "username='"@ + d.username@ + "' and file_id='"@ + d.file_id@ + "'"@
}

/// The statement that changes rights that were held already, from the answer
/// to the granting statement; none where the rights were granted ("true").
pub fn permission_update(data: &MsgPermissions, insert_reply: &str) -> (q: Option<String>)
    ensures
        q is None <==> insert_reply@ == "true"@,
        q matches Some(t) ==> t@ == update_text("user"@, "permission"@, permission_set(*data), permission_key(*data)),
{
    if str_equal(insert_reply, "true") {
        return None;
    }
    let mut set = String::new();
    set.append("owner='");
    set.append(data.owner.as_str());
    set.append("' and write='");
    set.append(data.write.as_str());
    set.append("'");
    assert(set@ =~= permission_set(*data));
    let mut clause = String::new();
    clause.append("username='");
    clause.append(data.username.as_str());
    clause.append("' and file_id='");
    clause.append(data.file_id.as_str());
    clause.append("'");
    assert(clause@ =~= permission_key(*data));
    Some(update_table("user", "permission", set, clause))
}

/// What running a write statement gave.
pub enum WriteOutcome {
    /// The statement ran and answered a row whose `[applied]` column reads so.
    Applied(String),
    /// The statement ran and answered no row.
    NoRow,
    /// The statement failed.
    Failed,
}

/// The answer to a write statement: what its `[applied]` column reads; where
/// it answered no row, "true" for a plain write and "false" for a conditional
/// one (`not_exists` not empty); "false" where it failed.
pub fn write_reply(outcome: &WriteOutcome, not_exists: &str) -> (r: String)
    ensures
        match *outcome {
            WriteOutcome::Applied(t) => r@ == t@,
            WriteOutcome::NoRow => r@ == (if not_exists@.len() == 0 { "true"@ } else { "false"@ }),
            WriteOutcome::Failed => r@ == "false"@,
        },
{
    proof {
        reveal_strlit("");
        assert(""@.len() == 0);
        if not_exists@.len() == 0 {
            assert(not_exists@ =~= ""@);
        }
    }
    match outcome {
        WriteOutcome::Applied(t) => t.as_str().to_string(),
        WriteOutcome::NoRow => {
            if str_equal(not_exists, "") {
                "true".to_string()
            } else {
                "false".to_string()
            }
        },
        WriteOutcome::Failed => "false".to_string(),
    }
}

/// The clause that selects file `file_id` of user `username`.
pub open spec fn file_owner_clause(username: Seq<char>, file_id: Seq<char>) -> Seq<char> {
    "username='"@ + username + "' and file_id='"@ + file_id + "'"@
}

/// The clause that selects file `file_id` of user `username`.
fn file_owner_clause_text(username: &str, file_id: &str) -> (c: String)
    ensures
        c@ == file_owner_clause(username@, file_id@),
{
    let mut c = String::new();
    c.append("username='");
    c.append(username);
    c.append("' and file_id='");
    c.append(file_id);
    c.append("'");
    assert(c@ =~= file_owner_clause(username@, file_id@));
    c
}

/// The statements of a file deletion: the file row goes, the peers that keep
/// its chunks are read from its pieces, and the pieces go.
pub struct FileDelete {
    pub file_query: String,
    pub chunk_peers_query: String,
    pub pieces_query: String,
}

/// The statements that delete file `data`.
pub fn file_delete(data: &MsgFileId) -> (d: FileDelete)
    ensures
        d.file_query@ == delete_text("file"@, "file"@, file_owner_clause(data.username@, data.file_id@)),
        d.chunk_peers_query@ == select_text("file"@, "piece"@, "chunk_peer"@, pieces_clause(data.file_id@)),
        d.pieces_query@ == delete_text("file"@, "piece"@, pieces_clause(data.file_id@)),
{
    let file_query = delete_from_table("file", "file",
        file_owner_clause_text(data.username.as_str(), data.file_id.as_str()));
    let mut c1 = String::new();
    c1.append("file_id='");
    c1.append(data.file_id.as_str());
    c1.append("'");
    assert(c1@ =~= pieces_clause(data.file_id@));
    let chunk_peers_query = get_from_table("file", "piece", "chunk_peer", c1);
    let mut c2 = String::new();
    c2.append("file_id='");
    c2.append(data.file_id.as_str());
    c2.append("'");
    assert(c2@ =~= pieces_clause(data.file_id@));
    let pieces_query = delete_from_table("file", "piece", c2);
    FileDelete { file_query, chunk_peers_query, pieces_query }
}

/// The statement that reads back file `data` of its user.
pub fn file_info_query(data: &MsgFileId) -> (q: String)
    ensures
        q@ == select_text("file"@, "file"@, "*"@, file_owner_clause(data.username@, data.file_id@)),
{
    get_from_table("file", "file", "*", file_owner_clause_text(data.username.as_str(), data.file_id.as_str()))
}

/// Whether the reply to an upload names a file whose chunks are to be
/// distributed: a reply that is neither empty nor "false".
pub fn should_distribute(reply: &str) -> (r: bool)
    ensures
        r == (reply@.len() > 0 && reply@ != "false"@),
{
    proof {
        reveal_strlit("");
        assert(""@.len() == 0);
        if reply@.len() == 0 {
            assert(reply@ =~= ""@);
        }
    }
    !str_equal(reply, "") && !str_equal(reply, "false")
}

/// `file_status = 'ready'`.
pub open spec fn ready_set() -> Seq<char> {
    "file_status = '"@ + FILE_STATUS_READY@ + "'"@
}

/// The clause that selects file `file_id` of `username` once its chunks are distributed.
pub open spec fn ready_clause(file_id: Seq<char>, username: Seq<char>) -> Seq<char> {
    "file_id = '"@ + file_id + "' and username = '"@ + username + "'"@
}

/// The statement that marks file `file_id` of `username` ready, once its chunks are distributed.
pub fn file_ready_query(file_id: &str, username: &str) -> (q: String)
    ensures
        q@ == update_text("file"@, "file"@, ready_set(), ready_clause(file_id@, username@)),
{
    let mut set = String::new();
    set.append("file_status = '");
    set.append(FILE_STATUS_READY);
    set.append("'");
    assert(set@ =~= ready_set());
    let mut clause = String::new();
    clause.append("file_id = '");
    clause.append(file_id);
    clause.append("' and username = '");
    clause.append(username);
    clause.append("'");
    assert(clause@ =~= ready_clause(file_id@, username@));
    update_table("file", "file", set, clause)
}


/// Whether peer `p` keeps a chunk according to one of the chunk-to-peer map texts `texts`.
pub open spec fn holds_chunks(texts: Seq<Seq<char>>, p: Seq<char>) -> bool {
    exists|i: int, k: int|
        0 <= i < texts.len() && 0 <= k < (json_string_map(texts[i])->0).len()
            && (#[trigger] (json_string_map(texts[i])->0)[k]).1 == p
}

/// Whether every text reads as a JSON map.
pub open spec fn all_maps(texts: Seq<Seq<char>>) -> bool {
    forall|i: int| 0 <= i < texts.len() ==> json_string_map(#[trigger] texts[i]) is Some
}

/// Whether no text occurs twice.
pub open spec fn texts_distinct(v: Seq<Seq<char>>) -> bool {
    forall|i: int, j: int| 0 <= i < v.len() && 0 <= j < v.len() && i != j ==> v[i] != v[j]
}

/// Whether `s` is in `list`.
fn contains_text(list: &Vec<String>, s: &str) -> (r: bool)
    ensures
        r == views(list@).contains(s@),
{
    let mut i: usize = 0;
    while i < list.len()
        invariant
            i <= list@.len(),
            forall|j: int| 0 <= j < i ==> list@[j]@ != s@,
        decreases list.len() - i,
    {
        if str_equal(list[i].as_str(), s) {
            assert(views(list@)[i as int] == s@);
            return true;
        }
        i = i + 1;
    }
    assert forall|j: int| 0 <= j < views(list@).len() implies views(list@)[j] != s@ by {
        assert(views(list@)[j] == list@[j]@);
    }
    false
}

/// Whether one of the first `k` entries of `m` names peer `p`.
spec fn named_in_prefix(m: Seq<(Seq<char>, Seq<char>)>, k: int, p: Seq<char>) -> bool {
    exists|k2: int| 0 <= k2 < k && m[k2].1 == p
}

proof fn lemma_push_contains(s: Seq<Seq<char>>, v: Seq<char>, p: Seq<char>)
    ensures
        s.push(v).contains(p) <==> (s.contains(p) || p == v),
{
    let t = s.push(v);
    if s.contains(p) {
        let w = choose|w: int| 0 <= w < s.len() && s[w] == p;
        assert(t[w] == p);
    }
    if p == v {
        assert(t[s.len() as int] == p);
    }
    if t.contains(p) {
        let w = choose|w: int| 0 <= w < t.len() && t[w] == p;
        if w < s.len() {
            assert(s[w] == p);
        }
    }
}

proof fn lemma_holds_extend(texts: Seq<Seq<char>>, i: int, m: Seq<(Seq<char>, Seq<char>)>, p: Seq<char>)
    requires
        0 <= i < texts.len(),
        json_string_map(texts[i]) == Some(m),
    ensures
        holds_chunks(texts.take(i + 1), p) <==> (holds_chunks(texts.take(i), p)
            || named_in_prefix(m, m.len() as int, p)),
{
    let t1 = texts.take(i + 1);
    let t0 = texts.take(i);
    assert(t1[i] == texts[i]);
    if holds_chunks(t0, p) {
        let (a, b) = choose|a: int, b: int| 0 <= a < t0.len() && 0 <= b < (json_string_map(t0[a])->0).len()
            && (#[trigger] (json_string_map(t0[a])->0)[b]).1 == p;
        assert(t1[a] == t0[a]);
        assert((json_string_map(t1[a])->0)[b].1 == p);
    }
    if exists|k: int| 0 <= k < m.len() && m[k].1 == p {
        let k = choose|k: int| 0 <= k < m.len() && m[k].1 == p;
        assert((json_string_map(t1[i])->0)[k].1 == p);
    }
    if holds_chunks(t1, p) {
        let (a, b) = choose|a: int, b: int| 0 <= a < t1.len() && 0 <= b < (json_string_map(t1[a])->0).len()
            && (#[trigger] (json_string_map(t1[a])->0)[b]).1 == p;
        if a < i {
            assert(t0[a] == t1[a]);
            assert((json_string_map(t0[a])->0)[b].1 == p);
        } else {
            assert(m[b].1 == p);
        }
    }
}

/// The peers that keep chunks of a file, each once, from the chunk-to-peer
/// columns of its pieces; none where a column does not read as a JSON map.
pub fn peers_holding_chunks(chunk_peers: &Vec<String>) -> (r: Option<Vec<String>>)
    ensures
        r is Some <==> all_maps(views(chunk_peers@)),
        r matches Some(v) ==> texts_distinct(views(v@)) && forall|p: Seq<char>|
            views(v@).contains(p) <==> holds_chunks(views(chunk_peers@), p),
{
    let ghost texts = views(chunk_peers@);
    let mut out: Vec<String> = Vec::new();
    let mut i: usize = 0;
    while i < chunk_peers.len()
        invariant
            i <= chunk_peers@.len(),
            texts == views(chunk_peers@),
            forall|j: int| 0 <= j < i ==> json_string_map(#[trigger] texts[j]) is Some,
            texts_distinct(views(out@)),
            forall|p: Seq<char>| views(out@).contains(p) <==> holds_chunks(texts.take(i as int), p),
        decreases chunk_peers.len() - i,
    {
        let m = match parse_string_map(chunk_peers[i].as_str()) {
            Some(m) => m,
            None => {
                assert(texts[i as int] == chunk_peers@[i as int]@);
                return None;
            },
        };
        assert(texts[i as int] == chunk_peers@[i as int]@);
        let ghost before = views(out@);
        assert(forall|p: Seq<char>| before.contains(p) <==> holds_chunks(texts.take(i as int), p));
        let mut k: usize = 0;
        while k < m.len()
            invariant
                k <= m@.len(),
                i < texts.len(),
                json_string_map(texts[i as int]) == Some(m@),
                forall|p: Seq<char>| before.contains(p) <==> holds_chunks(texts.take(i as int), p),
                texts_distinct(views(out@)),
                forall|p: Seq<char>| views(out@).contains(p) <==> (before.contains(p)
                    || named_in_prefix(m@, k as int, p)),
            decreases m@.len() - k,
        {
            let value = m.value(k);
            let ghost prev = views(out@);
            let ghost v = value@;
            assert(v == m@[k as int].1);
            if !contains_text(&out, value.as_str()) {
                out.push(value.clone());
                assert(views(out@) =~= prev.push(v));
                assert forall|a: int, b: int| 0 <= a < views(out@).len() && 0 <= b < views(out@).len() && a != b
                    implies views(out@)[a] != views(out@)[b] by {
                    if a == prev.len() {
                        assert(prev[b] == views(out@)[b]);
                    } else if b == prev.len() {
                        assert(prev[a] == views(out@)[a]);
                    }
                }
            }
            let ghost kk: int = k + 1;
            assert forall|p: Seq<char>| views(out@).contains(p) <==> (before.contains(p)
                || named_in_prefix(m@, kk, p)) by {
                lemma_push_contains(prev, v, p);
                assert(prev.contains(p) <==> (before.contains(p) || named_in_prefix(m@, k as int, p)));
                assert(views(out@) == prev || views(out@) == prev.push(v));
                if views(out@) == prev {
                    assert(prev.contains(v));
                }
                if named_in_prefix(m@, k + 1, p) {
                    let k2 = choose|k2: int| 0 <= k2 < k + 1 && m@[k2].1 == p;
                    if k2 < k {
                        assert(named_in_prefix(m@, k as int, p));
                    }
                }
                if named_in_prefix(m@, k as int, p) {
                    let k3 = choose|k3: int| 0 <= k3 < k && m@[k3].1 == p;
                    assert(0 <= k3 < k + 1 && m@[k3].1 == p);
                }
                if p == v {
                    assert(0 <= k < k + 1 && m@[k as int].1 == p);
                }
            }
            let ghost out_now = views(out@);
            k = k + 1;
            assert(views(out@) == out_now);
            assert(k == kk);
            assert(forall|p: Seq<char>| out_now.contains(p) <==> (before.contains(p)
                || named_in_prefix(m@, kk, p)));
        }
        let ghost n: int = m@.len() as int;
        assert(k == n);
        assert(forall|p: Seq<char>| views(out@).contains(p) <==> (before.contains(p)
            || named_in_prefix(m@, n, p)));
        let ghost next: int = i + 1;
        assert forall|p: Seq<char>| views(out@).contains(p) <==> holds_chunks(texts.take(next), p) by {
            lemma_holds_extend(texts, i as int, m@, p);
            assert(before.contains(p) <==> holds_chunks(texts.take(i as int), p));
            assert(views(out@).contains(p) <==> (before.contains(p) || named_in_prefix(m@, n, p)));
            assert(holds_chunks(texts.take(next), p) <==> (holds_chunks(texts.take(i as int), p)
                || named_in_prefix(m@, n, p)));
        }
        i = i + 1;
        assert(i == next);
    }
    assert(texts.take(i as int) =~= texts);
    Some(out)
}


/// The reply to a login gives the whole stored password and salt back: for
/// a user found, the text after `password:` and before `,salt:` is the
/// password, whatever its length, and the salt follows to the end; where no
/// user was found the reply is empty.
pub proof fn law_login_reply_gives_credentials(c: Credentials)
    ensures
        login_reply_text(Some(c)).len() == 15 + c.password@.len() + c.salt@.len(),
        login_reply_text(Some(c)).take(9) == "password:"@,
        login_reply_text(Some(c)).subrange(9, 9 + c.password@.len() as int) == c.password@,
        login_reply_text(Some(c)).subrange(9 + c.password@.len() as int, 15 + c.password@.len() as int) == ",salt:"@,
        login_reply_text(Some(c)).skip(15 + c.password@.len() as int) == c.salt@,
        login_reply_text(None).len() == 0,
{
    reveal_strlit("password:");
    reveal_strlit(",salt:");
    let r = login_reply_text(Some(c));
    let n = c.password@.len() as int;
    assert(r.take(9) =~= "password:"@);
    assert(r.subrange(9, 9 + n) =~= c.password@);
    assert(r.subrange(9 + n, 15 + n) =~= ",salt:"@);
    assert(r.skip(15 + n) =~= c.salt@);
}
}
