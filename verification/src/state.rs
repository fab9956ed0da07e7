//! Resumable state: one row per unique asset (version tag).

use std::collections::{BTreeMap, BTreeSet};

use vstd::prelude::*;
use vstd::std_specs::btree::increasing_seq;
use vstd::std_specs::iter::IteratorSpec;

use crate::models::{hash_missing, is_hashed};

verus! {

broadcast use vstd::std_specs::btree::group_btree_axioms;

/// The on-disk state of all known assets.
#[derive(Debug, Default)]
pub struct State {
    /// Keyed by version tag (the `pk` inside `shell_version_map`).
    pub rows: BTreeMap<u64, Row>,
}

/// One asset of the state.
#[derive(Debug, Clone)]
pub struct Row {
    pub uuid: String,
    pub version: u64,
    /// All GNOME Shell major versions served by this exact asset.
    pub shells: BTreeSet<String>,
    /// Nix base32 SHA-256, set once computed.
    pub hash: Option<String>,
}

/// The version tags whose row still lacks a hash.
pub open spec fn missing_tags(rows: Map<u64, Row>) -> Set<u64> {
    rows.dom().filter(|k: u64| hash_missing(rows[k].hash))
}

/// Counting the missing rows over the keys in any order without repeats.
proof fn lemma_count_missing(keys: Seq<u64>, rows: Map<u64, Row>)
    requires
        keys.no_duplicates(),
    ensures
        keys.filter(|k: u64| hash_missing(rows[k].hash)).len() == keys.to_set().filter(
            |k: u64| hash_missing(rows[k].hash),
        ).len(),
    decreases keys.len(),
{
    let q = |k: u64| hash_missing(rows[k].hash);
    if keys.len() == 0 {
        assert(keys.filter(q) =~= Seq::<u64>::empty()) by {
            reveal(Seq::filter);
        }
        assert(keys.to_set().filter(q) =~= Set::<u64>::empty());
    } else {
        let t = keys.drop_last();
        let k = keys.last();
        assert(keys =~= t.push(k));
        lemma_count_missing(t, rows);
        t.lemma_filter_push(k, q);
        t.lemma_push_to_set_commute(k);
        assert(!t.contains(k));
        assert(!t.to_set().contains(k));
        if q(k) {
            assert(keys.to_set().filter(q) =~= t.to_set().filter(q).insert(k));
        } else {
            assert(keys.to_set().filter(q) =~= t.to_set().filter(q));
        }
    }
}

impl State {
    /// Number of rows whose hash is absent or empty.
    pub fn missing_hashes(&self) -> (n: usize)
        ensures
            n == missing_tags(self.rows@).len(),
    {
        let ghost m = self.rows@;
        let ghost q = |k: u64| hash_missing(m[k].hash);
        let total = self.rows.len();
        let values = self.rows.values();
        let ghost keys = choose|ks: Seq<u64>|
            {
                &&& increasing_seq(ks)
                &&& ks.to_set() == m.dom()
                &&& ks.no_duplicates()
                &&& values.remaining() == ks.map(|i: int, k: u64| &m[k])
            };
        proof {
            keys.unique_seq_to_set();
            assert(keys.take(0) =~= Seq::<u64>::empty());
            reveal_with_fuel(Seq::filter, 1);
        }
        let mut n: usize = 0;
        for row in it: values
            invariant
                keys.len() == total,
                m == self.rows@,
                forall|k: u64| #[trigger] q(k) == hash_missing(m[k].hash),
                keys.no_duplicates(),
                keys.to_set() == m.dom(),
                it.seq() == keys.map(|i: int, k: u64| &m[k]),
                n == keys.take(it.index()).filter(q).len(),
                n <= it.index(),
        {
            let ghost idx = it.index();
            let ghost k = keys[idx];
            assert(keys.take(idx + 1) =~= keys.take(idx).push(k));
            proof {
                keys.take(idx).lemma_filter_push(k, q);
            }
            if !is_hashed(&row.hash) {
                n += 1;
            }
        }
        proof {
            assert(keys.take(keys.len() as int) =~= keys);
            lemma_count_missing(keys, m);
        }
        n
    }
}

} // verus!
