//! Server side of a peer-to-peer distributed file storage: the request
//! handling, query building and chunk bookkeeping logic.
pub mod columns;
pub mod constants;
pub mod hashing;
pub mod protobuf;
pub mod query;
pub mod text;
pub mod upload;
pub mod json;
pub mod distribution;
pub mod coding;
pub mod encoding;
pub mod services;
pub mod retrieval;
pub mod penalties;
pub mod schema;
