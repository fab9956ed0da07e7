//! Export phase: build the deterministic sharded JSON consumed by the Nix
//! library.
//!
//! Schema per shard (map, one version object per line):
//!
//! ```json
//! {
//! "uuid": [
//! {"v":72,"t":69740,"h":"<nix base32 sha256>","s":["46","47"]}
//! ]
//! }
//! ```
//!
//! - `v`: extension version number, `t`: version tag,
//!   `h`: Nix base32 SHA-256, `s`: compatible GNOME Shell versions.
//! - Shards assigned by FNV-1a so output is byte-stable across runs.

use std::collections::HashMap;

use vstd::prelude::*;
use vstd::utf8::*;

use crate::json::{decimal, json_quoted, push_decimal_i32, push_json_string};
use crate::models::{hash_missing, is_hashed, Asset};
use crate::order::{
    lemma_ascending_unique, lemma_text_lt_irreflexive, lemma_text_lt_total,
    lemma_text_lt_transitive, strictly_ascending, text_less, text_lt,
};
use crate::text::push_char;

verus! {

broadcast use vstd::std_specs::hash::group_hash_axioms;

/// Number of output shards.
pub const SHARDS: usize = 16;

/// One FNV-1a round: xor in the byte, multiply by the 32-bit FNV prime.
pub open spec fn fnv1a_step(hash: u32, byte: u8) -> u32 {
    (((hash ^ (byte as u32)) as nat * 0x0100_0193nat) % 0x1_0000_0000nat) as u32
}

/// 32-bit FNV-1a of a byte string.
pub open spec fn spec_fnv1a(bytes: Seq<u8>) -> u32
    decreases bytes.len(),
{
    if bytes.len() == 0 {
        0x811c_9dc5
    } else {
        fnv1a_step(spec_fnv1a(bytes.drop_last()), bytes.last())
    }
}

/// 32-bit FNV-1a over the UTF-8 bytes of `value`.
pub fn fnv1a(value: &str) -> (hash: u32)
    ensures
        hash == spec_fnv1a(encode_utf8(value@)),
{
    let bytes = value.as_bytes();
    let mut hash: u32 = 0x811c_9dc5;
    let mut i: usize = 0;
    while i < bytes.len()
        invariant
            i <= bytes@.len(),
            hash == spec_fnv1a(bytes@.take(i as int)),
        decreases bytes@.len() - i,
    {
        assert(bytes@.take(i + 1).drop_last() =~= bytes@.take(i as int));
        hash ^= bytes[i] as u32;
        hash = hash.wrapping_mul(0x0100_0193);
        i += 1;
    }
    assert(bytes@.take(i as int) =~= bytes@);
    hash
}

/// The shard that holds an extension's versions.
pub open spec fn shard_of(uuid: Seq<char>) -> int {
    (spec_fnv1a(encode_utf8(uuid)) % 16) as int
}

/// Index of the shard that holds the extension `uuid`.
pub fn shard_index(uuid: &str) -> (idx: usize)
    ensures
        idx == shard_of(uuid@),
        idx < SHARDS,
{
    (fnv1a(uuid) as usize) % SHARDS
}

/// Law: FNV-1a starts from the 32-bit offset basis.
pub proof fn lemma_fnv1a_empty()
    ensures
        spec_fnv1a(Seq::<u8>::empty()) == 0x811c_9dc5u32,
{
}

/// Law: each further byte, at any length, is one more FNV-1a round: xor it
/// in, then multiply by the FNV prime with 32-bit wrap-around.
pub proof fn lemma_fnv1a_push(bytes: Seq<u8>, b: u8)
    ensures
        spec_fnv1a(bytes.push(b)) == vstd::wrapping::u32_specs::wrapping_mul(
            spec_fnv1a(bytes) ^ (b as u32),
            0x0100_0193u32,
        ),
{
    assert(bytes.push(b).drop_last() =~= bytes);
}

/// Law: the shard of an extension is its uuid's FNV-1a modulo the number
/// of shards.
pub proof fn lemma_shard_of_range(uuid: Seq<char>)
    ensures
        0 <= shard_of(uuid) < SHARDS,
        shard_of(uuid) == spec_fnv1a(encode_utf8(uuid)) as int % SHARDS as int,
{
}

/// The texts of a list of strings.
pub open spec fn views(list: Seq<String>) -> Seq<Seq<char>> {
    list.map_values(|s: String| s@)
}

/// The shells listed for a version tag.
pub open spec fn shell_set(rows: Seq<(i32, String)>, tag: i32) -> Set<Seq<char>> {
    Set::new(|s: Seq<char>| exists|i: int| 0 <= i < rows.len() && rows[i].0 == tag && rows[i].1@ == s)
}

/// Law: without rows no tag has a shell.
pub proof fn lemma_shell_set_empty(t: i32)
    ensures
        shell_set(Seq::<(i32, String)>::empty(), t) == Set::<Seq<char>>::empty(),
{
    assert(shell_set(Seq::<(i32, String)>::empty(), t) =~= Set::<Seq<char>>::empty());
}

/// Law: one more row adds its shell to its own tag's shells, whatever the
/// shell's text, and changes no other tag's.
pub proof fn lemma_shell_set_push(rows: Seq<(i32, String)>, r: (i32, String), t: i32)
    ensures
        shell_set(rows.push(r), t) == if r.0 == t {
            shell_set(rows, t).insert(r.1@)
        } else {
            shell_set(rows, t)
        },
{
    let next = rows.push(r);
    let expect = if r.0 == t {
        shell_set(rows, t).insert(r.1@)
    } else {
        shell_set(rows, t)
    };
    assert forall|x: Seq<char>| shell_set(next, t).contains(x) implies expect.contains(x) by {
        let k = choose|k: int| 0 <= k < next.len() && next[k].0 == t && next[k].1@ == x;
        if k < rows.len() {
            assert(rows[k] == next[k]);
        }
    }
    assert forall|x: Seq<char>| expect.contains(x) implies shell_set(next, t).contains(x) by {
        if r.0 == t && x == r.1@ {
            assert(next[rows.len() as int] == r);
        } else {
            let k = choose|k: int| 0 <= k < rows.len() && rows[k].0 == t && rows[k].1@ == x;
            assert(next[k] == rows[k]);
        }
    }
    assert(shell_set(next, t) =~= expect);
}

/// Law: every shell row reaches the shells of its tag.
pub proof fn lemma_shell_set_has_rows(rows: Seq<(i32, String)>, i: int)
    requires
        0 <= i < rows.len(),
    ensures
        shell_set(rows, rows[i].0).contains(rows[i].1@),
{
}

/// Adds `s` to a strictly ascending list of strings, keeping it so.
fn insert_text(list: &mut Vec<String>, s: String)
    requires
        strictly_ascending(views(old(list)@)),
    ensures
        strictly_ascending(views(final(list)@)),
        views(final(list)@).to_set() == views(old(list)@).to_set().insert(s@),
{
    let ghost before = views(list@);
    let mut p: usize = 0;
    while p < list.len() && text_less(list[p].as_str(), s.as_str())
        invariant
            p <= list@.len(),
            before == views(list@),
            strictly_ascending(before),
            forall|j: int| 0 <= j < p ==> text_lt(#[trigger] before[j], s@),
        decreases list@.len() - p,
    {
        p += 1;
    }
    if p < list.len() && list[p] == s {
        assert(before.to_set().insert(s@) =~= before.to_set()) by {
            assert(before[p as int] == s@);
        }
        return ;
    }
    proof {
        if p < list@.len() {
            lemma_text_lt_total(before[p as int], s@);
        }
        lemma_insert_ascending(before, p as int, s@);
    }
    list.insert(p, s);
    assert(views(list@) =~= before.insert(p as int, s@));
}

/// For each version tag, its shells in ascending order without repeats.
fn shells_by_tag(rows: &Vec<(i32, String)>) -> (m: HashMap<i32, Vec<String>>)
    ensures
        forall|tag: i32| #[trigger]
            m@.contains_key(tag) ==> strictly_ascending(views(m@[tag]@)) && views(
                m@[tag]@,
            ).to_set() == shell_set(rows@, tag),
        forall|tag: i32| !#[trigger] m@.contains_key(tag) ==> shell_set(rows@, tag) =~= Set::<
            Seq<char>,
        >::empty(),
{
    let mut m: HashMap<i32, Vec<String>> = HashMap::new();
    let mut i: usize = 0;
    while i < rows.len()
        invariant
            i <= rows@.len(),
            forall|tag: i32| #[trigger]
                m@.contains_key(tag) ==> strictly_ascending(views(m@[tag]@)) && views(
                    m@[tag]@,
                ).to_set() == shell_set(rows@.take(i as int), tag),
            forall|tag: i32| !#[trigger] m@.contains_key(tag) ==> shell_set(rows@.take(i as int), tag)
                =~= Set::<Seq<char>>::empty(),
        decreases rows@.len() - i,
    {
        let tag = rows[i].0;
        let shell = rows[i].1.clone();
        let ghost prev = rows@.take(i as int);
        let ghost next = rows@.take(i + 1);
        assert(next =~= prev.push(rows@[i as int]));
        let mut list = match m.remove(&tag) {
            Some(list) => list,
            None => Vec::new(),
        };
        assert(views(list@).to_set() == shell_set(prev, tag)) by {
            if list@.len() == 0 {
                assert(views(list@) =~= Seq::<Seq<char>>::empty());
                assert(views(list@).to_set() =~= Set::<Seq<char>>::empty());
            }
        }
        insert_text(&mut list, shell);
        m.insert(tag, list);
        i += 1;
        proof {
            assert forall|t: i32| true implies #[trigger] shell_set(next, t) == if t == tag {
                shell_set(prev, t).insert(rows@[i - 1].1@)
            } else {
                shell_set(prev, t)
            } by {
                lemma_shell_set_push(prev, rows@[i - 1], t);
            }
        }
    }
    assert(rows@.take(i as int) =~= rows@);
    m
}

/// One published version of an extension.
#[derive(Debug, Clone)]
pub struct VersionEntry {
    /// Extension version number.
    pub v: i32,
    /// Version tag.
    pub t: i32,
    /// Nix base32 SHA-256 of the asset.
    pub h: String,
    /// Compatible GNOME Shell versions, ascending.
    pub s: Vec<String>,
}

/// The versions of one extension, newest first.
#[derive(Debug, Clone)]
pub struct ExtensionVersions {
    pub uuid: String,
    pub versions: Vec<VersionEntry>,
}

/// What a version entry is ordered by and carries besides its shells.
pub open spec fn head(e: VersionEntry) -> (i32, i32, String) {
    (e.v, e.t, e.h)
}

pub open spec fn heads(es: Seq<VersionEntry>) -> Seq<(i32, i32, String)> {
    es.map_values(|e: VersionEntry| head(e))
}

/// `a` may stay in front of `b` when sorting newest first: its version is
/// higher, or equal with a tag at least as high.
pub open spec fn precedes_or_ties(a: (i32, i32, String), b: (i32, i32, String)) -> bool {
    a.0 > b.0 || (a.0 == b.0 && a.1 >= b.1)
}

/// Inserts `e` into a list sorted newest first, after every entry that
/// precedes or ties with it.
pub open spec fn insert_newest_first(s: Seq<(i32, i32, String)>, e: (i32, i32, String)) -> Seq<
    (i32, i32, String),
>
    decreases s.len(),
{
    if s.len() == 0 {
        seq![e]
    } else if precedes_or_ties(s.last(), e) {
        s.push(e)
    } else {
        insert_newest_first(s.drop_last(), e).push(s.last())
    }
}

/// Stable sort by version, then tag, both descending.
pub open spec fn newest_first(s: Seq<(i32, i32, String)>) -> Seq<(i32, i32, String)>
    decreases s.len(),
{
    if s.len() == 0 {
        s
    } else {
        insert_newest_first(newest_first(s.drop_last()), s.last())
    }
}

/// Whether an asset is exported: it has a non-empty hash.
pub open spec fn kept(a: Asset) -> bool {
    !hash_missing(a.hash)
}

/// The exported versions of extension `uuid`, in input order.
pub open spec fn versions_of(assets: Seq<Asset>, uuid: Seq<char>) -> Seq<(i32, i32, String)>
    decreases assets.len(),
{
    if assets.len() == 0 {
        Seq::empty()
    } else {
        let prev = versions_of(assets.drop_last(), uuid);
        let a = assets.last();
        if kept(a) && a.uuid@ == uuid {
            prev.push((a.version, a.version_tag, a.hash.unwrap()))
        } else {
            prev
        }
    }
}

/// The extensions that have at least one exported version.
pub open spec fn kept_uuids(assets: Seq<Asset>) -> Set<Seq<char>> {
    Set::new(
        |u: Seq<char>| exists|i: int| 0 <= i < assets.len() && kept(assets[i]) && assets[i].uuid@ == u,
    )
}

/// The number of exported assets.
pub open spec fn kept_count(assets: Seq<Asset>) -> nat
    decreases assets.len(),
{
    if assets.len() == 0 {
        0
    } else {
        kept_count(assets.drop_last()) + if kept(assets.last()) {
            1nat
        } else {
            0nat
        }
    }
}

/// The extensions of a shard, in order.
pub open spec fn shard_keys(shard: Seq<ExtensionVersions>) -> Seq<Seq<char>> {
    shard.map_values(|g: ExtensionVersions| g.uuid@)
}

/// A version entry lists exactly the shells of its tag, ascending.
pub open spec fn entry_ok(rows: Seq<(i32, String)>, e: VersionEntry) -> bool {
    &&& strictly_ascending(views(e.s@))
    &&& views(e.s@).to_set() == shell_set(rows, e.t)
}

/// Shard `idx` holds, in ascending order, extensions of that shard with
/// exported versions, each with exactly its versions, newest first.
pub open spec fn shard_ok(
    shard: Seq<ExtensionVersions>,
    idx: int,
    assets: Seq<Asset>,
    rows: Seq<(i32, String)>,
) -> bool {
    &&& strictly_ascending(shard_keys(shard))
    &&& forall|j: int|
        0 <= j < shard.len() ==> {
            let g = #[trigger] shard[j];
            &&& shard_of(g.uuid@) == idx
            &&& kept_uuids(assets).contains(g.uuid@)
            &&& heads(g.versions@) == newest_first(versions_of(assets, g.uuid@))
            &&& forall|k: int| 0 <= k < g.versions@.len() ==> entry_ok(rows, #[trigger] g.versions@[k])
        }
}

/// Inserting at a position found from the back is the stable insertion.
proof fn lemma_insert_newest_first_at(s: Seq<(i32, i32, String)>, e: (i32, i32, String), p: int)
    requires
        0 <= p <= s.len(),
        forall|j: int| p <= j < s.len() ==> !precedes_or_ties(#[trigger] s[j], e),
        p == 0 || precedes_or_ties(s[p - 1], e),
    ensures
        insert_newest_first(s, e) == s.insert(p, e),
    decreases s.len(),
{
    if s.len() == 0 {
        assert(s.insert(p, e) =~= seq![e]);
    } else if p == s.len() {
        assert(s.insert(p, e) =~= s.push(e));
    } else {
        let t = s.drop_last();
        lemma_insert_newest_first_at(t, e, p);
        assert(s.insert(p, e) =~= t.insert(p, e).push(s.last()));
    }
}

/// Adds one version to a list kept newest first; returns where it went.
fn insert_version(versions: &mut Vec<VersionEntry>, e: VersionEntry) -> (q: usize)
    ensures
        q <= old(versions)@.len(),
        final(versions)@ == old(versions)@.insert(q as int, e),
        heads(final(versions)@) == insert_newest_first(heads(old(versions)@), head(e)),
{
    let ghost hs = heads(versions@);
    let mut q = versions.len();
    while q > 0 && !(versions[q - 1].v > e.v || (versions[q - 1].v == e.v && versions[q - 1].t
        >= e.t))
        invariant
            q <= versions@.len(),
            hs == heads(versions@),
            forall|j: int| q <= j < hs.len() ==> !precedes_or_ties(#[trigger] hs[j], head(e)),
        decreases q,
    {
        q -= 1;
    }
    proof {
        lemma_insert_newest_first_at(hs, head(e), q as int);
    }
    versions.insert(q, e);
    assert(heads(versions@) =~= hs.insert(q as int, head(e)));
    q
}

/// Inserting a key between its neighbours keeps a list strictly ascending.
proof fn lemma_insert_ascending(keys: Seq<Seq<char>>, p: int, x: Seq<char>)
    requires
        strictly_ascending(keys),
        0 <= p <= keys.len(),
        forall|j: int| 0 <= j < p ==> text_lt(#[trigger] keys[j], x),
        p == keys.len() || text_lt(x, keys[p]),
    ensures
        strictly_ascending(keys.insert(p, x)),
        !keys.contains(x),
        keys.insert(p, x).to_set() == keys.to_set().insert(x),
{
    let after = keys.insert(p, x);
    assert forall|j: int| p <= j < keys.len() implies text_lt(x, #[trigger] keys[j]) by {
        if j > p {
            lemma_text_lt_transitive(x, keys[p], keys[j]);
        }
    }
    assert forall|i: int, j: int| 0 <= i < j < after.len() implies text_lt(
        #[trigger] after[i],
        #[trigger] after[j],
    ) by {
        if j < p {
        } else if i < p && j == p {
        } else if i < p {
            lemma_text_lt_transitive(after[i], x, after[j]);
        } else if i == p {
        } else {
            assert(after[i] == keys[i - 1]);
            assert(after[j] == keys[j - 1]);
        }
    }
    assert(!keys.contains(x)) by {
        if keys.contains(x) {
            let k = choose|k: int| 0 <= k < keys.len() && keys[k] == x;
            lemma_text_lt_irreflexive(x);
        }
    }
    assert(after.to_set() =~= keys.to_set().insert(x)) by {
        assert forall|y: Seq<char>| after.to_set().contains(y) implies keys.to_set().insert(
            x,
        ).contains(y) by {
            let k = choose|k: int| 0 <= k < after.len() && after[k] == y;
            if k < p {
                assert(keys[k] == y);
            } else if k > p {
                assert(keys[k - 1] == y);
            }
        }
        assert forall|y: Seq<char>| keys.to_set().insert(x).contains(y) implies after.to_set().contains(y) by {
            if y == x {
                assert(after[p] == y);
            } else {
                let k = choose|k: int| 0 <= k < keys.len() && keys[k] == y;
                if k < p {
                    assert(after[k] == y);
                } else {
                    assert(after[k + 1] == y);
                }
            }
        }
    }
}

/// Adds a version of extension `uuid` to a shard; returns the position of
/// the extension and whether it was new to the shard.
fn add_version(shard: &mut Vec<ExtensionVersions>, uuid: String, entry: VersionEntry) -> (res: (
    usize,
    bool,
))
    requires
        strictly_ascending(shard_keys(old(shard)@)),
    ensures
        strictly_ascending(shard_keys(final(shard)@)),
        shard_keys(final(shard)@).to_set() == shard_keys(old(shard)@).to_set().insert(uuid@),
        res.1 == !shard_keys(old(shard)@).contains(uuid@),
        res.0 < final(shard)@.len(),
        final(shard)@[res.0 as int].uuid@ == uuid@,
        res.1 ==> {
            &&& final(shard)@.len() == old(shard)@.len() + 1
            &&& final(shard)@[res.0 as int].versions@ == seq![entry]
            &&& forall|j: int| 0 <= j < res.0 ==> #[trigger] final(shard)@[j] == old(shard)@[j]
            &&& forall|j: int|
                res.0 < j < final(shard)@.len() ==> #[trigger] final(shard)@[j] == old(shard)@[j
                    - 1]
        },
        !res.1 ==> {
            let old_g = old(shard)@[res.0 as int];
            let new_g = final(shard)@[res.0 as int];
            &&& final(shard)@.len() == old(shard)@.len()
            &&& old_g.uuid@ == uuid@
            &&& heads(new_g.versions@) == insert_newest_first(heads(old_g.versions@), head(entry))
            &&& forall|k: int|
                0 <= k < new_g.versions@.len() ==> #[trigger] new_g.versions@[k] == entry
                    || old_g.versions@.contains(new_g.versions@[k])
            &&& forall|j: int|
                0 <= j < final(shard)@.len() && j != res.0 ==> #[trigger] final(shard)@[j] == old(
                    shard,
                )@[j]
        },
{
    let ghost keys = shard_keys(shard@);
    let mut p: usize = 0;
    while p < shard.len() && text_less(shard[p].uuid.as_str(), uuid.as_str())
        invariant
            p <= shard@.len(),
            keys == shard_keys(shard@),
            strictly_ascending(keys),
            forall|j: int| 0 <= j < p ==> text_lt(#[trigger] keys[j], uuid@),
        decreases shard@.len() - p,
    {
        p += 1;
    }
    if p < shard.len() && shard[p].uuid == uuid {
        let ghost old_shard = shard@;
        let ghost old_g = shard@[p as int];
        assert(keys[p as int] == uuid@);
        assert(keys.to_set().insert(uuid@) =~= keys.to_set());
        let group = &mut shard[p];
        let q = insert_version(&mut group.versions, entry);
        proof {
            let new_g = shard@[p as int];
            assert forall|k: int| 0 <= k < new_g.versions@.len() implies #[trigger] new_g.versions@[k] == entry
                || old_g.versions@.contains(new_g.versions@[k]) by {
                if k < q {
                    assert(new_g.versions@[k] == old_g.versions@[k]);
                } else if k > q {
                    assert(new_g.versions@[k] == old_g.versions@[k - 1]);
                }
            }
            assert(shard_keys(shard@) =~= keys);
        }
        (p, false)
    } else {
        proof {
            if p < shard@.len() {
                lemma_text_lt_total(keys[p as int], uuid@);
            }
            lemma_insert_ascending(keys, p as int, uuid@);
        }
        let mut versions: Vec<VersionEntry> = Vec::new();
        versions.push(entry);
        shard.insert(p, ExtensionVersions { uuid, versions });
        assert(shard_keys(shard@) =~= keys.insert(p as int, uuid@));
        (p, true)
    }
}

/// The shards and totals of one export.
#[derive(Debug)]
pub struct Export {
    /// `SHARDS` maps from extension to its versions, each in key order.
    pub shards: Vec<Vec<ExtensionVersions>>,
    /// Number of distinct extensions exported.
    pub extensions: usize,
    /// Number of versions exported.
    pub assets: usize,
}

/// Law: one more asset adds its version to its extension's exported
/// versions exactly when it has a hash, and counts once more then.
pub proof fn lemma_versions_of_push(assets: Seq<Asset>, a: Asset, u: Seq<char>)
    ensures
        versions_of(assets.push(a), u) == if kept(a) && a.uuid@ == u {
            versions_of(assets, u).push((a.version, a.version_tag, a.hash.unwrap()))
        } else {
            versions_of(assets, u)
        },
        kept_count(assets.push(a)) == kept_count(assets) + if kept(a) {
            1nat
        } else {
            0nat
        },
{
    assert(assets.push(a).drop_last() =~= assets);
}

/// Law: the exported versions of an extension are, in input order, the
/// (version, tag, hash) of each of its assets that has a hash.
pub proof fn lemma_versions_of_filter(assets: Seq<Asset>, u: Seq<char>)
    ensures
        versions_of(assets, u) == assets.filter(|a: Asset| kept(a) && a.uuid@ == u).map_values(
            |a: Asset| (a.version, a.version_tag, a.hash.unwrap()),
        ),
    decreases assets.len(),
{
    let p = |a: Asset| kept(a) && a.uuid@ == u;
    let f = |a: Asset| (a.version, a.version_tag, a.hash.unwrap());
    if assets.len() == 0 {
        assert(assets.filter(p) =~= Seq::<Asset>::empty()) by {
            reveal(Seq::filter);
        }
        assert(assets.filter(p).map_values(f) =~= Seq::<(i32, i32, String)>::empty());
    } else {
        let prev = assets.drop_last();
        let a = assets.last();
        assert(assets =~= prev.push(a));
        lemma_versions_of_filter(prev, u);
        prev.lemma_filter_push(a, p);
        lemma_versions_of_push(prev, a, u);
        assert(prev.filter(p).push(a).map_values(f) =~= prev.filter(p).map_values(f).push(f(a)));
    }
}

/// Law: the number of exported assets is the number of assets with a hash.
pub proof fn lemma_kept_count_filter(assets: Seq<Asset>)
    ensures
        kept_count(assets) == assets.filter(|a: Asset| kept(a)).len(),
    decreases assets.len(),
{
    let p = |a: Asset| kept(a);
    if assets.len() == 0 {
        assert(assets.filter(p) =~= Seq::<Asset>::empty()) by {
            reveal(Seq::filter);
        }
    } else {
        let prev = assets.drop_last();
        let a = assets.last();
        assert(assets =~= prev.push(a));
        lemma_kept_count_filter(prev);
        prev.lemma_filter_push(a, p);
        lemma_versions_of_push(prev, a, a.uuid@);
    }
}

/// Law: one more asset adds its extension to the exported ones exactly
/// when it has a hash.
pub proof fn lemma_kept_uuids_push(assets: Seq<Asset>, a: Asset)
    ensures
        kept_uuids(assets.push(a)) == if kept(a) {
            kept_uuids(assets).insert(a.uuid@)
        } else {
            kept_uuids(assets)
        },
{
    let next = assets.push(a);
    let expect = if kept(a) {
        kept_uuids(assets).insert(a.uuid@)
    } else {
        kept_uuids(assets)
    };
    assert forall|u: Seq<char>| kept_uuids(next).contains(u) implies expect.contains(u) by {
        let k = choose|k: int| 0 <= k < next.len() && kept(next[k]) && next[k].uuid@ == u;
        if k < assets.len() {
            assert(next[k] == assets[k]);
        }
    }
    assert forall|u: Seq<char>| expect.contains(u) implies kept_uuids(next).contains(u) by {
        if kept(a) && u == a.uuid@ {
            assert(next[assets.len() as int] == a);
        } else {
            let k = choose|k: int| 0 <= k < assets.len() && kept(assets[k]) && assets[k].uuid@ == u;
            assert(next[k] == assets[k]);
        }
    }
    assert(kept_uuids(next) =~= expect);
}

proof fn lemma_versions_of_absent(assets: Seq<Asset>, u: Seq<char>)
    requires
        !kept_uuids(assets).contains(u),
    ensures
        versions_of(assets, u) == Seq::<(i32, i32, String)>::empty(),
    decreases assets.len(),
{
    if assets.len() > 0 {
        let prev = assets.drop_last();
        assert(assets =~= prev.push(assets.last()));
        lemma_kept_uuids_push(prev, assets.last());
        lemma_versions_of_absent(prev, u);
    }
}

/// A shard whose extensions the next asset does not touch stays correct.
proof fn lemma_shard_untouched(
    shard: Seq<ExtensionVersions>,
    idx: int,
    assets: Seq<Asset>,
    a: Asset,
    rows: Seq<(i32, String)>,
)
    requires
        shard_ok(shard, idx, assets, rows),
        kept(a) ==> shard_of(a.uuid@) != idx,
    ensures
        shard_ok(shard, idx, assets.push(a), rows),
{
    lemma_kept_uuids_push(assets, a);
    assert forall|j: int| 0 <= j < shard.len() implies {
        let g = #[trigger] shard[j];
        &&& kept_uuids(assets.push(a)).contains(g.uuid@)
        &&& heads(g.versions@) == newest_first(versions_of(assets.push(a), g.uuid@))
    } by {
        lemma_versions_of_push(assets, a, shard[j].uuid@);
    }
}

/// The shard of the next asset is correct once its version is added.
proof fn lemma_shard_after_add(
    before: Seq<ExtensionVersions>,
    after: Seq<ExtensionVersions>,
    idx: int,
    assets: Seq<Asset>,
    a: Asset,
    rows: Seq<(i32, String)>,
    entry: VersionEntry,
    p: int,
    created: bool,
)
    requires
        shard_ok(before, idx, assets, rows),
        kept(a),
        shard_of(a.uuid@) == idx,
        forall|u: Seq<char>|
            kept_uuids(assets).contains(u) && shard_of(u) == idx ==> shard_keys(before).contains(u),
        head(entry) == (a.version, a.version_tag, a.hash.unwrap()),
        entry_ok(rows, entry),
        strictly_ascending(shard_keys(after)),
        created == !shard_keys(before).contains(a.uuid@),
        0 <= p < after.len(),
        after[p].uuid@ == a.uuid@,
        created ==> {
            &&& after.len() == before.len() + 1
            &&& after[p].versions@ == seq![entry]
            &&& forall|j: int| 0 <= j < p ==> #[trigger] after[j] == before[j]
            &&& forall|j: int| p < j < after.len() ==> #[trigger] after[j] == before[j - 1]
        },
        !created ==> {
            let old_g = before[p];
            let new_g = after[p];
            &&& after.len() == before.len()
            &&& old_g.uuid@ == a.uuid@
            &&& heads(new_g.versions@) == insert_newest_first(heads(old_g.versions@), head(entry))
            &&& forall|k: int|
                0 <= k < new_g.versions@.len() ==> #[trigger] new_g.versions@[k] == entry
                    || old_g.versions@.contains(new_g.versions@[k])
            &&& forall|j: int| 0 <= j < after.len() && j != p ==> #[trigger] after[j] == before[j]
        },
    ensures
        shard_ok(after, idx, assets.push(a), rows),
{
    let next = assets.push(a);
    let u = a.uuid@;
    lemma_kept_uuids_push(assets, a);
    lemma_versions_of_push(assets, a, u);
    assert(next.drop_last() =~= assets);
    let vs = versions_of(assets, u);
    assert(vs.push(head(entry)).drop_last() =~= vs);
    assert(newest_first(vs.push(head(entry))) == insert_newest_first(newest_first(vs), head(entry)));
    if created {
        lemma_versions_of_absent(assets, u);
        assert(heads(after[p].versions@) =~= seq![head(entry)]);
        assert(newest_first(Seq::<(i32, i32, String)>::empty()) =~= Seq::<(i32, i32, String)>::empty());
    }
    assert forall|j: int| 0 <= j < after.len() implies {
        let g = #[trigger] after[j];
        &&& shard_of(g.uuid@) == idx
        &&& kept_uuids(next).contains(g.uuid@)
        &&& heads(g.versions@) == newest_first(versions_of(next, g.uuid@))
        &&& forall|k: int| 0 <= k < g.versions@.len() ==> entry_ok(rows, #[trigger] g.versions@[k])
    } by {
        let g = after[j];
        if j == p {
            if !created {
                let old_g = before[p];
                assert forall|k: int| 0 <= k < g.versions@.len() implies entry_ok(
                    rows,
                    #[trigger] g.versions@[k],
                ) by {
                    if g.versions@[k] != entry {
                        let m = choose|m: int|
                            0 <= m < old_g.versions@.len() && old_g.versions@[m]
                                == g.versions@[k];
                        assert(entry_ok(rows, old_g.versions@[m]));
                    }
                }
            }
        } else {
            let jj = if created && j > p {
                j - 1
            } else {
                j
            };
            assert(g == before[jj]);
            assert(shard_keys(after)[j] == g.uuid@);
            assert(shard_keys(after)[p] == u);
            lemma_text_lt_irreflexive(u);
            assert(g.uuid@ != u);
            lemma_versions_of_push(assets, a, g.uuid@);
        }
    }
}

/// Groups exported assets by extension into `SHARDS` shards: every
/// extension lands in shard `fnv1a(uuid) % SHARDS`, extensions ascend within
/// a shard, versions are newest first, each listing its tag's shells.
pub fn build_export(hashed: &Vec<Asset>, shell_rows: &Vec<(i32, String)>) -> (ex: Export)
    ensures
        ex.shards@.len() == SHARDS,
        forall|s: int| 0 <= s < SHARDS ==> shard_ok(#[trigger] ex.shards@[s]@, s, hashed@, shell_rows@),
        forall|u: Seq<char>|
            #[trigger] kept_uuids(hashed@).contains(u) ==> shard_keys(ex.shards@[shard_of(u)]@).contains(u),
        ex.extensions == kept_uuids(hashed@).len(),
        ex.assets == kept_count(hashed@),
{
    let ghost rows = shell_rows@;
    let shells = shells_by_tag(shell_rows);
    let mut shards: Vec<Vec<ExtensionVersions>> = Vec::new();
    let mut k: usize = 0;
    while k < SHARDS
        invariant
            k <= SHARDS,
            shards@.len() == k,
            forall|s: int| 0 <= s < k ==> (#[trigger] shards@[s])@.len() == 0,
        decreases SHARDS - k,
    {
        shards.push(Vec::new());
        k += 1;
    }
    proof {
        assert forall|s: int| 0 <= s < SHARDS implies shard_ok(
            #[trigger] shards@[s]@,
            s,
            hashed@.take(0),
            rows,
        ) by {
            assert(shard_keys(shards@[s]@) =~= Seq::<Seq<char>>::empty());
        }
        assert(kept_uuids(hashed@.take(0)) =~= Set::<Seq<char>>::empty());
    }
    let mut extensions: usize = 0;
    let mut assets: usize = 0;
    let ghost mut seen: Seq<Seq<char>> = Seq::empty();
    let mut i: usize = 0;
    while i < hashed.len()
        invariant
            i <= hashed@.len(),
            rows == shell_rows@,
            forall|tag: i32| #[trigger]
                shells@.contains_key(tag) ==> strictly_ascending(views(shells@[tag]@)) && views(
                    shells@[tag]@,
                ).to_set() == shell_set(rows, tag),
            forall|tag: i32| !#[trigger] shells@.contains_key(tag) ==> shell_set(rows, tag) =~= Set::<
                Seq<char>,
            >::empty(),
            shards@.len() == SHARDS,
            forall|s: int|
                0 <= s < SHARDS ==> shard_ok(#[trigger] shards@[s]@, s, hashed@.take(i as int), rows),
            forall|u: Seq<char>|
                #[trigger] kept_uuids(hashed@.take(i as int)).contains(u) ==> shard_keys(
                    shards@[shard_of(u)]@,
                ).contains(u),
            seen.no_duplicates(),
            seen.to_set() == kept_uuids(hashed@.take(i as int)),
            extensions == seen.len(),
            assets == kept_count(hashed@.take(i as int)),
            assets <= i,
            extensions <= i,
        decreases hashed@.len() - i,
    {
        let ghost prefix = hashed@.take(i as int);
        let ghost a = hashed@[i as int];
        assert(hashed@.take(i + 1) =~= prefix.push(a));
        proof {
            lemma_kept_uuids_push(prefix, a);
            lemma_versions_of_push(prefix, a, a.uuid@);
        }
        let asset = &hashed[i];
        if is_hashed(&asset.hash) {
            let h = match &asset.hash {
                Some(h) => h.clone(),
                None => String::new(),
            };
            let s = match shells.get(&asset.version_tag) {
                Some(list) => list.clone(),
                None => Vec::new(),
            };
            proof {
                if shells@.contains_key(asset.version_tag) {
                    assert(s@ =~= shells@[asset.version_tag]@);
                } else {
                    assert(views(s@) =~= Seq::<Seq<char>>::empty());
                    assert(views(s@).to_set() =~= Set::<Seq<char>>::empty());
                }
            }
            let idx = shard_index(asset.uuid.as_str());
            let entry = VersionEntry { v: asset.version, t: asset.version_tag, h, s };
            let ghost before = shards@[idx as int]@;
            let ghost old_shards = shards@;
            let res = add_version(&mut shards[idx], asset.uuid.clone(), entry);
            proof {
                lemma_shard_after_add(
                    before,
                    shards@[idx as int]@,
                    idx as int,
                    prefix,
                    a,
                    rows,
                    entry,
                    res.0 as int,
                    res.1,
                );
                assert forall|s: int| 0 <= s < SHARDS && s != idx implies shard_ok(
                    #[trigger] shards@[s]@,
                    s,
                    prefix.push(a),
                    rows,
                ) by {
                    assert(shards@[s] == old_shards[s]);
                    lemma_shard_untouched(shards@[s]@, s, prefix, a, rows);
                }
                assert forall|u: Seq<char>| #[trigger]
                    kept_uuids(prefix.push(a)).contains(u) implies shard_keys(
                    shards@[shard_of(u)]@,
                ).contains(u) by {
                    if u == a.uuid@ {
                        assert(shard_keys(shards@[idx as int]@).to_set().contains(u));
                    } else if shard_of(u) == idx {
                        assert(shard_keys(before).to_set().contains(u));
                        assert(shard_keys(shards@[idx as int]@).to_set().contains(u));
                    } else {
                        assert(shards@[shard_of(u)] == old_shards[shard_of(u)]);
                    }
                }
                if res.1 {
                    assert(!seen.to_set().contains(a.uuid@));
                    seen.lemma_push_to_set_commute(a.uuid@);
                    seen = seen.push(a.uuid@);
                    assert(seen.to_set() =~= kept_uuids(prefix.push(a)));
                } else {
                    let j = choose|j: int| 0 <= j < before.len() && shard_keys(before)[j] == a.uuid@;
                    assert(before[j].uuid@ == a.uuid@);
                    assert(kept_uuids(prefix).contains(a.uuid@));
                }
            }
            if res.1 {
                extensions += 1;
            }
            assets += 1;
        } else {
            proof {
                assert forall|s: int| 0 <= s < SHARDS implies shard_ok(
                    #[trigger] shards@[s]@,
                    s,
                    prefix.push(a),
                    rows,
                ) by {
                    lemma_shard_untouched(shards@[s]@, s, prefix, a, rows);
                }
            }
        }
        i += 1;
    }
    proof {
        assert(hashed@.take(i as int) =~= hashed@);
        seen.unique_seq_to_set();
    }
    Export { shards, extensions, assets }
}

/// The shells of a version as a JSON array body: quoted, comma separated.
pub open spec fn shells_json(shells: Seq<Seq<char>>) -> Seq<char>
    decreases shells.len(),
{
    if shells.len() == 0 {
        Seq::empty()
    } else if shells.len() == 1 {
        json_quoted(shells[0])
    } else {
        shells_json(shells.drop_last()) + seq![','] + json_quoted(shells.last())
    }
}

/// Law: no shells give an empty array body; one shell gives its JSON
/// string.
pub proof fn lemma_shells_json_short(x: Seq<char>)
    ensures
        shells_json(Seq::<Seq<char>>::empty()) == Seq::<char>::empty(),
        shells_json(seq![x]) == json_quoted(x),
{
}

/// Law: the array bodies of two non-empty runs of shells join with exactly
/// one comma, for every length.
pub proof fn lemma_shells_json_concat(a: Seq<Seq<char>>, b: Seq<Seq<char>>)
    requires
        a.len() > 0,
        b.len() > 0,
    ensures
        shells_json(a + b) == shells_json(a) + seq![','] + shells_json(b),
    decreases b.len(),
{
    if b.len() == 1 {
        assert((a + b).drop_last() =~= a);
        assert((a + b).last() == b[0]);
    } else {
        let c = b.drop_last();
        lemma_shells_json_concat(a, c);
        assert((a + b).drop_last() =~= a + c);
        assert((a + b).last() == b.last());
        assert(shells_json(a + b) =~= shells_json(a) + seq![','] + shells_json(b));
    }
}

/// One version entry as a compact JSON object, fields in order `v`, `t`,
/// `h`, `s`.
pub open spec fn spec_entry_json(e: VersionEntry) -> Seq<char> {
    seq!['{', '"', 'v', '"', ':'] + decimal(e.v as int) + seq![',', '"', 't', '"', ':'] + decimal(
        e.t as int,
    ) + seq![',', '"', 'h', '"', ':'] + json_quoted(e.h@) + seq![',', '"', 's', '"', ':', '['] + shells_json(
    views(e.s@)) + seq![']', '}']
}

/// The end of line `k` of `len` lines: a comma unless it is the last.
pub open spec fn line_end(len: nat, k: nat) -> Seq<char> {
    if k + 1 < len {
        seq![',', '\n']
    } else {
        seq!['\n']
    }
}

/// The first `n` versions, one JSON object per line.
pub open spec fn entry_lines(es: Seq<VersionEntry>, n: nat) -> Seq<char>
    decreases n,
{
    if n == 0 || n > es.len() {
        Seq::empty()
    } else {
        entry_lines(es, (n - 1) as nat) + spec_entry_json(es[n - 1]) + line_end(
            es.len(),
            (n - 1) as nat,
        )
    }
}

/// One extension of a shard: its uuid as a JSON string, then its versions
/// in brackets.
pub open spec fn group_text(g: ExtensionVersions, last: bool) -> Seq<char> {
    json_quoted(g.uuid@) + seq![':', ' ', '[', '\n'] + entry_lines(
        g.versions@,
        g.versions@.len(),
    ) + seq![']'] + if last {
        seq!['\n']
    } else {
        seq![',', '\n']
    }
}

/// The first `n` extensions of a shard.
pub open spec fn group_lines(shard: Seq<ExtensionVersions>, n: nat) -> Seq<char>
    decreases n,
{
    if n == 0 || n > shard.len() {
        Seq::empty()
    } else {
        group_lines(shard, (n - 1) as nat) + group_text(shard[n - 1], n == shard.len())
    }
}

/// The text of a shard file.
pub open spec fn spec_render_shard(shard: Seq<ExtensionVersions>) -> Seq<char> {
    if shard.len() == 0 {
        seq!['{', '}']
    } else {
        seq!['{', '\n'] + group_lines(shard, shard.len()) + seq!['}']
    }
}

/// One version entry as a compact JSON object.
pub fn entry_json(e: &VersionEntry) -> (r: String)
    ensures
        r@ == spec_entry_json(*e),
{
    let mut out = String::new();
    proof {
        reveal_strlit("{\"v\":");
        reveal_strlit(",\"t\":");
        reveal_strlit(",\"h\":");
        reveal_strlit(",\"s\":[");
        reveal_strlit("]}");
    }
    out.append("{\"v\":");
    push_decimal_i32(&mut out, e.v);
    out.append(",\"t\":");
    push_decimal_i32(&mut out, e.t);
    out.append(",\"h\":");
    push_json_string(&mut out, e.h.as_str());
    out.append(",\"s\":[");
    let ghost start = out@;
    let ghost ss = views(e.s@);
    let mut k: usize = 0;
    while k < e.s.len()
        invariant
            k <= e.s@.len(),
            ss == views(e.s@),
            out@ == start + shells_json(ss.take(k as int)),
        decreases e.s@.len() - k,
    {
        assert(ss.take(k + 1).drop_last() =~= ss.take(k as int));
        if k > 0 {
            push_char(&mut out, ',');
        } else {
            assert(ss.take(0) =~= Seq::<Seq<char>>::empty());
        }
        push_json_string(&mut out, e.s[k].as_str());
        k += 1;
    }
    assert(ss.take(k as int) =~= ss);
    out.append("]}");
    assert(out@ =~= spec_entry_json(*e));
    out
}

/// Appends one extension block of a shard file.
fn push_group(out: &mut String, g: &ExtensionVersions, last: bool)
    ensures
        final(out)@ == old(out)@ + group_text(*g, last),
{
    let ghost gstart = out@;
    push_json_string(out, g.uuid.as_str());
    proof {
        reveal_strlit(": [\n");
    }
    out.append(": [\n");
    assert(out@ =~= gstart + json_quoted(g.uuid@) + seq![':', ' ', '[', '\n']);
    let ghost vstart = out@;
    let mut j: usize = 0;
    while j < g.versions.len()
        invariant
            j <= g.versions@.len(),
            out@ == vstart + entry_lines(g.versions@, j as nat),
        decreases g.versions@.len() - j,
    {
        let line = entry_json(&g.versions[j]);
        out.append(line.as_str());
        if j + 1 < g.versions.len() {
            push_char(out, ',');
        }
        push_char(out, '\n');
        j += 1;
    }
    push_char(out, ']');
    if !last {
        push_char(out, ',');
    }
    push_char(out, '\n');
    assert(out@ =~= gstart + group_text(*g, last));
}

/// The text of one shard file: `{}` when empty, else one extension per
/// block and one version object per line.
pub fn render_shard(shard: &Vec<ExtensionVersions>) -> (r: String)
    ensures
        r@ == spec_render_shard(shard@),
{
    proof {
        reveal_strlit("{}");
        reveal_strlit("{\n");
    }
    if shard.len() == 0 {
        return String::from_str("{}");
    }
    let mut out = String::from_str("{\n");
    let mut i: usize = 0;
    while i < shard.len()
        invariant
            i <= shard@.len(),
            shard@.len() > 0,
            out@ == seq!['{', '\n'] + group_lines(shard@, i as nat),
        decreases shard@.len() - i,
    {
        push_group(&mut out, &shard[i], i + 1 == shard.len());
        i += 1;
        assert(out@ =~= seq!['{', '\n'] + group_lines(shard@, i as nat));
    }
    push_char(&mut out, '}');
    out
}

/// Every entry precedes or ties with every later one.
pub open spec fn sorted_newest_first(s: Seq<(i32, i32, String)>) -> bool {
    forall|i: int, j: int| 0 <= i < j < s.len() ==> precedes_or_ties(#[trigger] s[i], #[trigger] s[j])
}

proof fn lemma_insert_newest_first(s: Seq<(i32, i32, String)>, e: (i32, i32, String))
    ensures
        sorted_newest_first(s) ==> sorted_newest_first(insert_newest_first(s, e)),
        insert_newest_first(s, e).to_multiset() == s.to_multiset().insert(e),
    decreases s.len(),
{
    broadcast use vstd::seq_lib::group_to_multiset_ensures;

    if s.len() == 0 {
        assert(seq![e] =~= Seq::<(i32, i32, String)>::empty().push(e));
    } else if precedes_or_ties(s.last(), e) {
    } else {
        let t = s.drop_last();
        let last = s.last();
        lemma_insert_newest_first(t, e);
        let ins = insert_newest_first(t, e);
        assert(s =~= t.push(last));
        if sorted_newest_first(s) {
            assert forall|k: int| 0 <= k < ins.len() implies precedes_or_ties(
                #[trigger] ins[k],
                last,
            ) by {
                assert(ins.to_multiset().count(ins[k]) > 0);
                if ins[k] != e {
                    assert(t.to_multiset().count(ins[k]) > 0);
                    assert(t.contains(ins[k]));
                    let m = choose|m: int| 0 <= m < t.len() && t[m] == ins[k];
                    assert(s[m] == ins[k]);
                    assert(s[s.len() - 1] == last);
                }
            }
        }
    }
}

/// Law: the stable newest-first sort yields its input entries, each
/// preceding or tying with every later one.
pub proof fn lemma_newest_first_sorted(s: Seq<(i32, i32, String)>)
    ensures
        sorted_newest_first(newest_first(s)),
        forall|i: int, j: int|
            0 <= i < j < newest_first(s).len() ==> {
                let (x, y) = (#[trigger] newest_first(s)[i], #[trigger] newest_first(s)[j]);
                x.0 > y.0 || (x.0 == y.0 && x.1 >= y.1)
            },
        newest_first(s).to_multiset() == s.to_multiset(),
    decreases s.len(),
{
    broadcast use vstd::seq_lib::group_to_multiset_ensures;

    if s.len() > 0 {
        lemma_newest_first_sorted(s.drop_last());
        lemma_insert_newest_first(newest_first(s.drop_last()), s.last());
        assert(s =~= s.drop_last().push(s.last()));
    }
}

/// The entries of one version and tag.
pub open spec fn same_release(v: i32, t: i32) -> spec_fn((i32, i32, String)) -> bool {
    |x: (i32, i32, String)| x.0 == v && x.1 == t
}

proof fn lemma_insert_newest_first_release(
    s: Seq<(i32, i32, String)>,
    e: (i32, i32, String),
    v: i32,
    t: i32,
)
    ensures
        insert_newest_first(s, e).filter(same_release(v, t)) == s.push(e).filter(
            same_release(v, t),
        ),
    decreases s.len(),
{
    let p = same_release(v, t);
    s.lemma_filter_push(e, p);
    if s.len() == 0 {
        assert(insert_newest_first(s, e) =~= s.push(e));
    } else if precedes_or_ties(s.last(), e) {
    } else {
        let r = s.drop_last();
        let l = s.last();
        lemma_insert_newest_first_release(r, e, v, t);
        insert_newest_first(r, e).lemma_filter_push(l, p);
        r.lemma_filter_push(e, p);
        r.lemma_filter_push(l, p);
        assert(r.push(l) =~= s);
        assert(!(p(l) && p(e)));
        if p(e) {
            assert(insert_newest_first(s, e).filter(p) == r.filter(p).push(e));
            assert(s.filter(p) == r.filter(p));
        } else if p(l) {
            assert(insert_newest_first(s, e).filter(p) == r.filter(p).push(l));
            assert(s.filter(p) == r.filter(p).push(l));
        } else {
            assert(insert_newest_first(s, e).filter(p) == r.filter(p));
            assert(s.filter(p) == r.filter(p));
        }
    }
}

/// Law: the newest-first sort is stable: the entries of any one version
/// and tag come out in the order they went in.
pub proof fn lemma_newest_first_stable(s: Seq<(i32, i32, String)>, v: i32, t: i32)
    ensures
        newest_first(s).filter(same_release(v, t)) == s.filter(same_release(v, t)),
    decreases s.len(),
{
    if s.len() > 0 {
        let p = same_release(v, t);
        let r = s.drop_last();
        lemma_newest_first_stable(r, v, t);
        lemma_insert_newest_first_release(newest_first(r), s.last(), v, t);
        newest_first(r).lemma_filter_push(s.last(), p);
        r.lemma_filter_push(s.last(), p);
        assert(r.push(s.last()) =~= s);
    }
}

proof fn lemma_entry_lines_equal(es1: Seq<VersionEntry>, es2: Seq<VersionEntry>, n: nat)
    requires
        es1.len() == es2.len(),
        forall|k: int| 0 <= k < es1.len() ==> spec_entry_json(#[trigger] es1[k]) == spec_entry_json(es2[k]),
    ensures
        entry_lines(es1, n) == entry_lines(es2, n),
    decreases n,
{
    if n > 0 && n <= es1.len() {
        lemma_entry_lines_equal(es1, es2, (n - 1) as nat);
        assert(spec_entry_json(es1[n - 1]) == spec_entry_json(es2[n - 1]));
    }
}

proof fn lemma_group_lines_equal(s1: Seq<ExtensionVersions>, s2: Seq<ExtensionVersions>, n: nat)
    requires
        s1.len() == s2.len(),
        forall|j: int, last: bool| 0 <= j < s1.len() ==> #[trigger] group_text(s1[j], last) == group_text(s2[j], last),
    ensures
        group_lines(s1, n) == group_lines(s2, n),
    decreases n,
{
    if n > 0 && n <= s1.len() {
        lemma_group_lines_equal(s1, s2, (n - 1) as nat);
        assert(group_text(s1[n - 1], n == s1.len()) == group_text(s2[n - 1], n == s1.len()));
    }
}

/// Law: shard files are byte-stable. Two shards that each hold, as
/// `build_export` guarantees, every extension of shard `idx` that has an
/// exported version, render to the same text.
pub proof fn lemma_shard_text_stable(
    s1: Seq<ExtensionVersions>,
    s2: Seq<ExtensionVersions>,
    idx: int,
    assets: Seq<Asset>,
    rows: Seq<(i32, String)>,
)
    requires
        shard_ok(s1, idx, assets, rows),
        shard_ok(s2, idx, assets, rows),
        forall|u: Seq<char>|
            kept_uuids(assets).contains(u) && shard_of(u) == idx ==> shard_keys(s1).contains(u),
        forall|u: Seq<char>|
            kept_uuids(assets).contains(u) && shard_of(u) == idx ==> shard_keys(s2).contains(u),
    ensures
        spec_render_shard(s1) == spec_render_shard(s2),
{
    let k1 = shard_keys(s1);
    let k2 = shard_keys(s2);
    let members = kept_uuids(assets).filter(|u: Seq<char>| shard_of(u) == idx);
    assert(k1.to_set() =~= members) by {
        assert forall|u: Seq<char>| k1.to_set().contains(u) implies members.contains(u) by {
            let j = choose|j: int| 0 <= j < k1.len() && k1[j] == u;
            assert(s1[j].uuid@ == u);
        }
    }
    assert(k2.to_set() =~= members) by {
        assert forall|u: Seq<char>| k2.to_set().contains(u) implies members.contains(u) by {
            let j = choose|j: int| 0 <= j < k2.len() && k2[j] == u;
            assert(s2[j].uuid@ == u);
        }
    }
    lemma_ascending_unique(k1, k2);
    assert forall|j: int, last: bool| 0 <= j < s1.len() implies #[trigger] group_text(s1[j], last)
        == group_text(s2[j], last) by {
        let (g1, g2) = (s1[j], s2[j]);
        assert(k1[j] == k2[j]);
        assert(g1.uuid@ == g2.uuid@);
        let (es1, es2) = (g1.versions@, g2.versions@);
        assert(heads(es1) == heads(es2));
        assert(es1.len() == es2.len()) by {
            assert(heads(es1).len() == es1.len());
            assert(heads(es2).len() == es2.len());
        }
        assert forall|k: int| 0 <= k < es1.len() implies spec_entry_json(#[trigger] es1[k])
            == spec_entry_json(es2[k]) by {
            assert(heads(es1)[k] == heads(es2)[k]);
            assert(head(es1[k]) == head(es2[k]));
            assert(entry_ok(rows, es1[k]));
            assert(entry_ok(rows, es2[k]));
            lemma_ascending_unique(views(es1[k].s@), views(es2[k].s@));
        }
        lemma_entry_lines_equal(es1, es2, es1.len());
    }
    lemma_group_lines_equal(s1, s2, s1.len());
}

} // verus!
