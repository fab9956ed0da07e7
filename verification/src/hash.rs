//! Hashing phase: choose the assets to hash and turn a downloaded asset
//! into its stored hash. Downloads and database updates stay with the caller.

use vstd::prelude::*;

use crate::models::hash_missing;
use crate::nix_hash::{encoded_len, sha256_nix_base32, spec_nix_base32, spec_sha256};

verus! {

/// Completed hashes between two progress reports.
pub const PROGRESS_EVERY: usize = 50;

/// Why a downloaded asset yields no hash.
#[derive(Debug)]
pub enum HashError {
    /// The server sent an empty body.
    EmptyBody,
}

/// The assets to hash this run: all of them when `limit` is 0, else the
/// first `limit`.
pub fn select_targets(all: Vec<(i32, String)>, limit: usize) -> (targets: Vec<(i32, String)>)
    ensures
        targets@ == if limit == 0 || limit >= all@.len() {
            all@
        } else {
            all@.take(limit as int)
        },
{
    let mut targets = all;
    if limit != 0 && limit < targets.len() {
        targets.truncate(limit);
    }
    targets
}

/// The stored hash of a downloaded asset: its SHA-256 in Nix base32;
/// an empty body is refused.
pub fn digest_asset(data: &[u8]) -> (r: Result<String, HashError>)
    ensures
        data@.len() == 0 ==> r is Err,
        data@.len() > 0 ==> (r matches Ok(h) && h@ == spec_nix_base32(spec_sha256(data@))
            && h@.len() == 52),
{
    if data.len() == 0 {
        Err(HashError::EmptyBody)
    } else {
        Ok(sha256_nix_base32(data))
    }
}

/// Law: the Nix base32 text of any non-empty digest counts as a stored
/// hash, so an asset hashed once is not selected again nor left out of the
/// export.
pub proof fn lemma_digest_counts_as_hash(digest: Seq<u8>, h: String)
    requires
        digest.len() > 0,
        h@ == spec_nix_base32(digest),
    ensures
        !hash_missing(Some(h)),
        h@.len() == encoded_len(digest.len()),
{
}

/// Whether `completed` hashes are due a progress report.
pub fn progress_due(completed: usize) -> (r: bool)
    ensures
        r == (completed % PROGRESS_EVERY == 0),
{
    completed % PROGRESS_EVERY == 0
}

} // verus!
