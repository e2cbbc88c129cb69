//! The messages that clients and peers exchange with the storage service.
use vstd::prelude::*;

verus! {

/// A user account.
#[derive(Clone, Debug, PartialEq, Default)]
pub struct MsgUser {
    pub username: String,
    pub name: String,
    pub surname: String,
    pub password: String,
    pub email: String,
    pub salt: String,
    pub registration_date: String,
}

/// A user name.
#[derive(Clone, Debug, PartialEq, Default)]
pub struct MsgUsername {
    pub username: String,
}

/// A peer identifier, or several separated by commas.
#[derive(Clone, Debug, PartialEq, Default)]
pub struct MsgPeerId {
    pub peer_id: String,
}

/// A device that a user offers as a peer.
#[derive(Clone, Debug, PartialEq, Default)]
pub struct MsgDevice {
    pub username: String,
    pub device_name: String,
    pub disk_size: String,
    pub mount_point: String,
    pub country: String,
    pub registration_date: String,
}

/// A file of a user.
#[derive(Clone, Debug, PartialEq, Default)]
pub struct MsgFileId {
    pub username: String,
    pub file_id: String,
}

/// A file with its metadata and, when transferred, its content.
#[derive(Clone, Debug, PartialEq, Default)]
pub struct MsgFileInfo {
    pub username: String,
    pub file_id: String,
    pub file_name: String,
    pub file_size: String,
    pub file_size_compressed: String,
    pub file_type: String,
    pub file_status: String,
    pub upload_date: String,
    pub file_bytes: Vec<u8>,
    pub owner: String,
    pub write: String,
}

/// One encoded chunk of a piece of a file.
#[derive(Clone, Debug, PartialEq, Default)]
pub struct MsgChunk {
    pub file_id: String,
    pub piece_id: String,
    pub chunk_id: String,
    pub chunk_bytes: Vec<u8>,
}

/// Performance figures of a peer over an uptime window.
#[derive(Clone, Debug, PartialEq, Default)]
pub struct MsgMetrics {
    pub peer_id: String,
    pub uptime_start: String,
    pub uptime_end: String,
    pub disk_read: String,
    pub disk_write: String,
    pub throughput: String,
}

/// A liveness signal of a peer.
#[derive(Clone, Debug, PartialEq, Default)]
pub struct MsgLiveness {
    pub peer_id: String,
}

/// The rights of a user on a file.
#[derive(Clone, Debug, PartialEq, Default)]
pub struct MsgPermissions {
    pub username: String,
    pub file_id: String,
    pub owner: String,
    pub write: String,
}

}
