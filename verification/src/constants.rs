//! Sizes, penalties and names that the storage service works with.
use vstd::prelude::*;

verus! {

/// Bytes of a file that go into one piece.
pub const PIECE_SIZE: i32 = 100_000;

/// Percentage of extra (repair) chunks per piece.
pub const REPLICATION_FACTOR: i16 = 100;

/// Payload bytes of one chunk.
pub const MTU: u16 = 1492;

/// Penalty of a peer that lost a chunk.
pub const PENALTY_NOT_FOUND: i8 = 1;

/// Penalty of a peer that returned a corrupted chunk.
pub const PENALTY_CORRUPTION: i8 = 1;

/// Replication strategy of the keyspaces.
pub const REPLICATION_STRATEGY_DB: &'static str = "SimpleStrategy";

/// Replication factor of the keyspaces.
pub const REPLICATION_FACTOR_DB: &'static str = "1";

/// Folder where the chunks kept on this node are stored.
pub const FILE_STORAGE_FOLDER: &'static str = "/tmp/saved_files";

/// Status of a file whose chunks are not distributed yet.
pub const FILE_STATUS_TO_DISTRIBUTE: &'static str = "to_distribute";

/// Status of a file whose chunks are distributed.
pub const FILE_STATUS_READY: &'static str = "ready";


/// Key expression of user signups.
pub const KEY_EXPR_USER_SIGNUP: &'static str = "storage/user/signup/**";

/// Key expression of user logins.
pub const KEY_EXPR_USER_LOGIN: &'static str = "storage/user/login/**";

/// Key expression of peer signups.
pub const KEY_EXPR_PEER_SIGNUP: &'static str = "storage/peer/signup/**";

/// Key expression of device listings.
pub const KEY_EXPR_PEER_GET: &'static str = "storage/peer/get/**";

/// Key expression of file listings.
pub const KEY_EXPR_FILE_LIST: &'static str = "storage/file/list/**";

/// Key expression of file uploads.
pub const KEY_EXPR_FILE_UPLOAD: &'static str = "storage/file/upload/**";

/// Key expression of file uploads to the cloud.
pub const KEY_EXPR_FILE_UPLOAD_CLOUD: &'static str = "storage/file/upload_cloud/**";

/// Key expression of file reads.
pub const KEY_EXPR_FILE_GET: &'static str = "storage/file/get/**";

/// Key expression of file deletions.
pub const KEY_EXPR_FILE_DELETE: &'static str = "storage/file/delete/**";

/// Key expression of performance reports.
pub const KEY_EXPR_METRICS_PUT: &'static str = "storage/metrics/put/**";

/// Key expression of performance queries.
pub const KEY_EXPR_METRICS_GET: &'static str = "storage/metrics/get/**";

/// Key expression of permission grants.
pub const KEY_EXPR_PERMISSION_PUT: &'static str = "storage/permission/put/**";

/// Key expression of liveness signals.
pub const KEY_EXPR_LIVENESS_PUT: &'static str = "storage/liveness/**";

/// Prefix of the key expression under which a peer receives chunks.
pub const KEY_EXPR_FILE_DISTRIBUTION: &'static str = "storage/file/distribution/";

/// Prefix of the key expression under which a peer hands chunks back.
pub const KEY_EXPR_CHUNK_GET: &'static str = "storage/chunk/get/";

/// Schedule of the rating job: every hour.
pub const CRON_JOB_RATING: &'static str = "0 * * * *";

}
