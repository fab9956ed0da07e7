use std::collections::{BTreeMap, BTreeSet, HashMap};

use nix_gnome_extension::api::{
    download_url, query_url, ExtensionSummary, GetOutcome, QueryResponse, Retry, RetryStep,
    BASE_URL, MAX_RETRIES,
};
use nix_gnome_extension::fetch::{
    page_end, plan_version, stored_version, version_tag, Enumeration, PageEnd, PageStep,
    VersionPlan, HARD_PAGE_CAP,
};
use nix_gnome_extension::hash::{digest_asset, progress_due, select_targets, HashError};
use nix_gnome_extension::models::is_hashed;
use nix_gnome_extension::nix_hash::sha256_nix_base32;
use nix_gnome_extension::order::{text_equal, text_less};
use nix_gnome_extension::state::{Row, State};

#[test]
fn urls() {
    assert_eq!(BASE_URL, "https://extensions.gnome.org");
    assert_eq!(
        download_url("caffeine@patapon.info", 69740),
        "https://extensions.gnome.org/download-extension/caffeine@patapon.info.shell-extension.zip?version_tag=69740"
    );
    assert_eq!(
        query_url("name", 3),
        "https://extensions.gnome.org/extension-query/?sort=name&page=3"
    );
    assert_eq!(
        query_url("recent", u64::MAX),
        "https://extensions.gnome.org/extension-query/?sort=recent&page=18446744073709551615"
    );
    assert_eq!(download_url("x", 0), "https://extensions.gnome.org/download-extension/x.shell-extension.zip?version_tag=0");
}

#[test]
fn retry_schedule_is_one_three_nine() {
    let mut r = Retry::new();
    let mut waits = Vec::new();
    loop {
        match r.next_step() {
            RetryStep::Attempt { wait_secs } => waits.push(wait_secs),
            RetryStep::GiveUp => break,
        }
    }
    assert_eq!(waits, vec![0, 1, 3, 9]);
    assert_eq!(waits.len(), MAX_RETRIES);
    assert!(matches!(r.next_step(), RetryStep::GiveUp));
}

fn pages(max_pages: u64) -> (Vec<u64>, PageStep) {
    let mut e = Enumeration::new(max_pages);
    let mut seen = Vec::new();
    loop {
        match e.next_step() {
            PageStep::Query(p) => {
                seen.push(p);
                e.finish_page();
            }
            stop => return (seen, stop),
        }
    }
}

#[test]
fn enumeration_respects_max_pages() {
    let (seen, stop) = pages(3);
    assert_eq!(seen, vec![1, 2, 3]);
    assert!(matches!(stop, PageStep::MaxPagesReached));
}

#[test]
fn enumeration_stops_at_hard_cap() {
    let (seen, stop) = pages(0);
    assert_eq!(seen.len() as u64, HARD_PAGE_CAP);
    assert_eq!(*seen.last().unwrap(), HARD_PAGE_CAP);
    assert!(matches!(stop, PageStep::HardCapReached));
    let (seen, stop) = pages(HARD_PAGE_CAP + 10);
    assert_eq!(seen.len() as u64, HARD_PAGE_CAP);
    assert!(matches!(stop, PageStep::HardCapReached));
}

#[test]
fn enumeration_counts_and_reports() {
    let mut e = Enumeration::new(0);
    assert!(e.is_first_page());
    e.record_extension();
    e.record_extension();
    e.record_asset_added();
    assert_eq!(e.totals(), (2, 1));
    let mut reports = Vec::new();
    for _ in 0..50 {
        if let PageStep::Query(p) = e.next_step() {
            if e.finish_page() {
                reports.push(p);
            }
        }
    }
    assert_eq!(reports, vec![25, 50]);
    assert!(!e.is_first_page());
}

#[test]
fn version_plans() {
    assert_eq!(version_tag(69740), Some(69740));
    assert_eq!(version_tag(i32::MAX as u64), Some(i32::MAX));
    assert_eq!(version_tag(i32::MAX as u64 + 1), None);
    assert_eq!(stored_version(72), 72);
    assert_eq!(stored_version(u64::MAX), i32::MAX);

    match plan_version("a@b", "46", 7, 3, None) {
        VersionPlan::Insert { asset: Some(a), shell } => {
            assert_eq!((a.version_tag, a.uuid, a.version), (7, "a@b", 3));
            assert_eq!((shell.version_tag, shell.shell), (7, "46"));
        }
        _ => panic!("expected a new asset"),
    }
    match plan_version("a@b", "47", 7, 3, Some("a@b")) {
        VersionPlan::Insert { asset: None, shell } => assert_eq!(shell.shell, "47"),
        _ => panic!("expected a shell row only"),
    }
    assert!(matches!(plan_version("a@b", "47", 7, 3, Some("c@d")), VersionPlan::Conflict));
}

#[test]
fn hashing_decisions() {
    let all = vec![(1, "a".to_string()), (2, "b".to_string()), (3, "c".to_string())];
    assert_eq!(select_targets(all.clone(), 0), all);
    assert_eq!(select_targets(all.clone(), 2), all[..2].to_vec());
    assert_eq!(select_targets(all.clone(), 9), all);
    assert!(matches!(digest_asset(&[]), Err(HashError::EmptyBody)));
    assert_eq!(digest_asset(b"zip").ok().unwrap(), sha256_nix_base32(b"zip"));
    assert!(progress_due(50));
    assert!(progress_due(100));
    assert!(!progress_due(49));
    assert!(is_hashed(&Some("x".to_string())));
    assert!(!is_hashed(&Some(String::new())));
    assert!(!is_hashed(&None));
}

fn row(hash: Option<&str>) -> Row {
    Row {
        uuid: "u@v".to_string(),
        version: 1,
        shells: BTreeSet::from(["46".to_string()]),
        hash: hash.map(|h| h.to_string()),
    }
}

#[test]
fn state_counts_missing_hashes() {
    let mut rows = BTreeMap::new();
    rows.insert(1, row(None));
    rows.insert(2, row(Some("")));
    rows.insert(3, row(Some("0mdq")));
    rows.insert(4, row(None));
    let state = State { rows };
    assert_eq!(state.missing_hashes(), 3);
    let empty = State { rows: BTreeMap::new() };
    assert_eq!(empty.missing_hashes(), 0);
}

#[test]
fn string_order_is_bytewise() {
    assert!(text_less("46", "47"));
    assert!(text_less("4", "46"));
    assert!(!text_less("46", "46"));
    assert!(text_less("Z", "a"));
    assert!(text_less("z", "é"));
    assert!(text_equal("é", "é"));
    assert!(!text_equal("e", "é"));
}

#[test]
fn retry_settles_on_a_response_only() {
    assert_eq!(Retry::settle(GetOutcome::Body(vec![1, 2])), Some(Some(vec![1, 2])));
    assert_eq!(Retry::settle(GetOutcome::Body(Vec::new())), Some(Some(Vec::new())));
    assert_eq!(Retry::settle(GetOutcome::NotFound), Some(None));
    assert_eq!(Retry::settle(GetOutcome::Failed), None);
}

fn listing(n: usize) -> QueryResponse {
    let extensions = (0..n)
        .map(|i| ExtensionSummary {
            uuid: format!("e{i}@x"),
            pk: i as u64,
            name: String::new(),
            description: String::new(),
            downloads: 0,
            url: String::new(),
            shell_version_map: HashMap::new(),
        })
        .collect();
    QueryResponse { extensions, total: n as u64, numpages: 1 }
}

#[test]
fn page_end_decisions() {
    assert!(matches!(page_end(&None), PageEnd::NoSuchPage));
    assert!(matches!(page_end(&Some(listing(0))), PageEnd::EmptyPage));
    assert!(matches!(page_end(&Some(listing(10))), PageEnd::Continue));
}
