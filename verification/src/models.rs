//! Rows of the state database.

use vstd::prelude::*;

verus! {

/// One downloadable asset zip, identified by its upstream version tag.
#[derive(Debug, Clone)]
pub struct Asset {
    pub version_tag: i32,
    pub uuid: String,
    pub version: i32,
    pub hash: Option<String>,
}

/// A new row of the `assets` table.
#[derive(Debug)]
pub struct NewAsset<'a> {
    pub version_tag: i32,
    pub uuid: &'a str,
    pub version: i32,
}

/// A new row of the `asset_shells` table.
#[derive(Debug)]
pub struct NewShell<'a> {
    pub version_tag: i32,
    pub shell: &'a str,
}

/// Whether a stored hash is absent: never computed, or stored empty.
pub open spec fn hash_missing(hash: Option<String>) -> bool {
    match hash {
        Some(h) => h@.len() == 0,
        None => true,
    }
}

/// Law: a hash is missing exactly when it is absent or the empty string;
/// any non-empty text, of any length, counts as a hash.
pub proof fn lemma_hash_missing(hash: Option<String>)
    ensures
        match hash {
            Some(h) => hash_missing(hash) <==> h@.len() == 0,
            None => hash_missing(hash),
        },
{
}

/// Whether an asset has a usable hash.
pub fn is_hashed(hash: &Option<String>) -> (r: bool)
    ensures
        r == !hash_missing(*hash),
{
    match hash {
        Some(h) => !h.as_str().is_empty(),
        None => false,
    }
}

} // verus!
