use nix_gnome_extension::export::{
    build_export, entry_json, fnv1a, render_shard, shard_index, ExtensionVersions, VersionEntry,
    SHARDS,
};
use nix_gnome_extension::models::Asset;

fn asset(tag: i32, uuid: &str, version: i32, hash: Option<&str>) -> Asset {
    Asset { version_tag: tag, uuid: uuid.to_string(), version, hash: hash.map(|h| h.to_string()) }
}

fn rows(list: &[(i32, &str)]) -> Vec<(i32, String)> {
    list.iter().map(|(t, s)| (*t, s.to_string())).collect()
}

#[test]
fn fnv1a_known_values() {
    assert_eq!(fnv1a(""), 0x811c_9dc5);
    assert_eq!(fnv1a("a"), 0xe40c_292c);
    assert_eq!(fnv1a("blur-my-shell@aunetx"), 0xb2e0_cf09);
}

#[test]
fn shard_of_known_uuids() {
    assert_eq!(shard_index("caffeine@patapon.info"), 7);
    assert_eq!(shard_index("dash-to-dock@micxgx.gmail.com"), 8);
    assert_eq!(shard_index("blur-my-shell@aunetx"), 9);
    assert_eq!(shard_index(""), 5);
}

#[test]
fn export_groups_sorts_and_counts() {
    let hashed = vec![
        asset(10, "caffeine@patapon.info", 3, Some("h10")),
        asset(11, "caffeine@patapon.info", 5, Some("h11")),
        asset(12, "blur-my-shell@aunetx", 1, Some("")),
        asset(13, "blur-my-shell@aunetx", 2, None),
        asset(14, "dash-to-dock@micxgx.gmail.com", 7, Some("h14")),
    ];
    let shells = rows(&[(10, "46"), (10, "45"), (11, "47"), (11, "46"), (11, "47"), (14, "48"), (99, "40")]);
    let ex = build_export(&hashed, &shells);
    assert_eq!(ex.shards.len(), SHARDS);
    assert_eq!(ex.extensions, 2);
    assert_eq!(ex.assets, 3);
    let caffeine = &ex.shards[7];
    assert_eq!(caffeine.len(), 1);
    assert_eq!(caffeine[0].uuid, "caffeine@patapon.info");
    let v = &caffeine[0].versions;
    assert_eq!(v.len(), 2);
    assert_eq!((v[0].v, v[0].t, v[0].h.as_str()), (5, 11, "h11"));
    assert_eq!(v[0].s, vec!["46".to_string(), "47".to_string()]);
    assert_eq!((v[1].v, v[1].t, v[1].h.as_str()), (3, 10, "h10"));
    assert_eq!(v[1].s, vec!["45".to_string(), "46".to_string()]);
    assert_eq!(ex.shards[8][0].uuid, "dash-to-dock@micxgx.gmail.com");
    assert!(ex.shards[9].is_empty());
    let others: usize = ex.shards.iter().map(|s| s.len()).sum();
    assert_eq!(others, 2);

    let text = render_shard(&ex.shards[7]);
    assert_eq!(
        text,
        "{\n\"caffeine@patapon.info\": [\n{\"v\":5,\"t\":11,\"h\":\"h11\",\"s\":[\"46\",\"47\"]},\n{\"v\":3,\"t\":10,\"h\":\"h10\",\"s\":[\"45\",\"46\"]}\n]\n}"
    );
    assert_eq!(render_shard(&ex.shards[0]), "{}");
}

#[test]
fn extensions_ascend_within_a_shard() {
    // all three land in shard 3
    let hashed = vec![
        asset(1, "ext7@example.org", 1, Some("a")),
        asset(2, "ext36@example.org", 1, Some("b")),
        asset(3, "ext21@example.org", 1, Some("c")),
    ];
    let ex = build_export(&hashed, &Vec::new());
    let keys: Vec<&str> = ex.shards[3].iter().map(|g| g.uuid.as_str()).collect();
    assert_eq!(keys, vec!["ext21@example.org", "ext36@example.org", "ext7@example.org"]);
    assert_eq!(ex.extensions, 3);
    let text = render_shard(&ex.shards[3]);
    assert_eq!(
        text,
        "{\n\"ext21@example.org\": [\n{\"v\":1,\"t\":3,\"h\":\"c\",\"s\":[]}\n],\n\"ext36@example.org\": [\n{\"v\":1,\"t\":2,\"h\":\"b\",\"s\":[]}\n],\n\"ext7@example.org\": [\n{\"v\":1,\"t\":1,\"h\":\"a\",\"s\":[]}\n]\n}"
    );
}

#[test]
fn versions_newest_first_then_highest_tag() {
    let hashed = vec![
        asset(5, "x@y", 2, Some("a")),
        asset(9, "x@y", 2, Some("b")),
        asset(7, "x@y", 3, Some("c")),
        asset(1, "x@y", 1, Some("d")),
    ];
    let ex = build_export(&hashed, &Vec::new());
    let g = &ex.shards[shard_index("x@y")][0];
    let order: Vec<(i32, i32)> = g.versions.iter().map(|e| (e.v, e.t)).collect();
    assert_eq!(order, vec![(3, 7), (2, 9), (2, 5), (1, 1)]);
    assert_eq!(ex.assets, 4);
    assert_eq!(ex.extensions, 1);
}

#[test]
fn equal_keys_keep_input_order() {
    let hashed = vec![
        asset(4, "x@y", 2, Some("first")),
        asset(4, "x@y", 2, Some("second")),
    ];
    let ex = build_export(&hashed, &Vec::new());
    let g = &ex.shards[shard_index("x@y")][0];
    assert_eq!(g.versions[0].h, "first");
    assert_eq!(g.versions[1].h, "second");
}

#[test]
fn nothing_hashed_exports_empty_shards() {
    let hashed = vec![asset(1, "a@b", 1, None), asset(2, "a@b", 1, Some(""))];
    let ex = build_export(&hashed, &rows(&[(1, "46")]));
    assert_eq!(ex.extensions, 0);
    assert_eq!(ex.assets, 0);
    assert!(ex.shards.iter().all(|s| s.is_empty()));
    for s in &ex.shards {
        assert_eq!(render_shard(s), "{}");
    }
}

#[test]
fn entry_json_escapes_and_signs() {
    let e = VersionEntry {
        v: -1,
        t: 2147483647,
        h: "a\"b\\c\n\u{1}é".to_string(),
        s: vec!["4\t6".to_string()],
    };
    assert_eq!(
        entry_json(&e),
        "{\"v\":-1,\"t\":2147483647,\"h\":\"a\\\"b\\\\c\\n\\u0001é\",\"s\":[\"4\\t6\"]}"
    );
    let min = VersionEntry { v: i32::MIN, t: 0, h: String::new(), s: Vec::new() };
    assert_eq!(entry_json(&min), "{\"v\":-2147483648,\"t\":0,\"h\":\"\",\"s\":[]}");
}

#[test]
fn shard_key_is_a_json_string() {
    let shard = vec![ExtensionVersions {
        uuid: "q\"x\\y".to_string(),
        versions: vec![VersionEntry { v: 1, t: 2, h: "h".to_string(), s: vec!["46".to_string(), "47".to_string()] }],
    }];
    assert_eq!(
        render_shard(&shard),
        "{\n\"q\\\"x\\\\y\": [\n{\"v\":1,\"t\":2,\"h\":\"h\",\"s\":[\"46\",\"47\"]}\n]\n}"
    );
}
