//! Verified core of the GNOME Shell extension exporter for Nix: Nix base32
//! hashing, deterministic sharding and rendering of the exported data, and
//! the decision logic of the enumeration, download and hashing phases.

pub mod api;
pub mod export;
pub mod fetch;
pub mod hash;
pub mod json;
pub mod models;
pub mod nix_hash;
pub mod order;
pub mod state;
mod text;
