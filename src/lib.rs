//! Offline password-breach membership checks against a sharded binary
//! dataset of truncated SHA-1 hashes, and the verified logic that builds it.
//!
//! The dataset holds one file per 20-bit shard key, named by the key's five
//! uppercase hex digits and `.bin`. Each file is the ascending concatenation
//! of 6-byte records: bytes 2 to 7 of the SHA-1 hashes whose first 20 bits
//! are the shard key.

pub mod hex;
pub mod ingest;
pub mod lookup;
pub mod record;
pub mod store;

pub use hex::{decode_shard_key_hex, hex_to_nibble, prefix_to_hex, MAX_SHARD_KEY, TOTAL_PREFIXES};
pub use ingest::{
    check_args, partition_keys, plan_output, retry_delay_ms, shard_file_contents, DownloadJob,
    Error, FetchOutcome, JobStep, OutputPlan, RunOutcome, MAX_RETRIES, RETRY_BASE_DELAY_MS,
};
pub use lookup::{
    contains_record, lookup_shard, BreachChecker, LookupError, ShardQuery, MAX_SHARD_BYTES,
};
pub use record::{line_to_sha1t48, line_to_sha1t64, RECORD_SIZE};
pub use store::{
    existing_shard_keys, keys_to_fetch, prefix_string, shard_file_path, shard_key_of_file_name,
};
