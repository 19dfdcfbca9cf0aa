//! An embeddable content-addressed block store: blocks keyed by their CID,
//! persistent aliases and temporary pins as roots, reachability through the
//! references that each block's codec declares, eviction of what no root
//! reaches, atomic batches and a synchroniser that completes a DAG.

mod bytes;
pub mod cbor;
pub mod codec;
pub mod model;
pub mod store;
pub mod batch;
pub mod laws;
pub mod sync;

pub use crate::batch::{BatchOp, BatchReply};
pub use crate::bytes::bytes_eq;
pub use crate::store::{AliasEntry, BlockStore, Config, ListFilter, Metadata, StoreError, TempPin};
pub use crate::sync::{FetchAction, SyncAction, SyncEvent, SyncQuery, RETRY_LIMIT};
