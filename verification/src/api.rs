//! Models of the extensions.gnome.org JSON API and the decisions of its
//! client: request URLs and the retry schedule.
//!
//! - `GET /extension-query/?search=<q>&sort=<name|downloads|recent>&page=<n>`
//!   Returns `{extensions: [...], total, numpages}` with a fixed page size of 10.
//!   Each item carries `shell_version_map: {"46": {pk, version}, ...}` where the
//!   inner `pk` is the *version tag* needed for the download URL.
//!
//! - `GET /download-extension/<uuid>.shell-extension.zip?version_tag=<pk>`
//!   302-redirects to `/api/v1/extensions/<uuid>/versions/<v>/?format=zip`.

use std::collections::HashMap;

use vstd::prelude::*;

use crate::json::{decimal_digits, lemma_decimal_digits_injective, push_decimal_u64};

verus! {

/// Root of the extensions site.
pub const BASE_URL: &'static str = "https://extensions.gnome.org";

/// How many times a GET is tried before giving up.
pub const MAX_RETRIES: usize = 4;

/// One page of `/extension-query/`.
#[derive(Debug)]
pub struct QueryResponse {
    pub extensions: Vec<ExtensionSummary>,
    pub total: u64,
    pub numpages: u64,
}

/// One extension as listed by `/extension-query/`.
#[derive(Debug)]
pub struct ExtensionSummary {
    pub uuid: String,
    pub pk: u64,
    pub name: String,
    pub description: String,
    pub downloads: u64,
    pub url: String,
    /// GNOME Shell major version to the asset serving it.
    pub shell_version_map: HashMap<String, VersionRef>,
}

/// Reference to the specific asset version serving a given GNOME Shell version.
///
/// `pk` is the version tag used in download URLs; `version` is the human
/// visible extension version number.
#[derive(Debug)]
pub struct VersionRef {
    pub pk: u64,
    pub version: u64,
}

/// The URL of page `page` of the extension listing in order `sort`.
pub open spec fn spec_query_url(sort: Seq<char>, page: u64) -> Seq<char> {
    BASE_URL@ + "/extension-query/?sort="@ + sort + "&page="@ + decimal_digits(page as nat)
}

/// The canonical asset URL of a version tag.
pub open spec fn spec_download_url(uuid: Seq<char>, version_tag: u64) -> Seq<char> {
    BASE_URL@ + "/download-extension/"@ + uuid + ".shell-extension.zip?version_tag="@
        + decimal_digits(version_tag as nat)
}

/// Law: a URL made of a fixed head, a free part and a fixed tail gives
/// back the free part.
proof fn lemma_framed_part(head: Seq<char>, a: Seq<char>, b: Seq<char>, tail: Seq<char>)
    requires
        head + a + tail == head + b + tail,
    ensures
        a == b,
{
    let (x, y) = (head + a + tail, head + b + tail);
    assert(x.len() == y.len());
    assert(a.len() == b.len());
    assert(a =~= x.subrange(head.len() as int, (head.len() + a.len()) as int));
    assert(b =~= y.subrange(head.len() as int, (head.len() + b.len()) as int));
}

/// Law: a URL made of a fixed head and a free tail gives back the tail.
proof fn lemma_framed_tail(head: Seq<char>, a: Seq<char>, b: Seq<char>)
    requires
        head + a == head + b,
    ensures
        a == b,
{
    assert(a =~= (head + a).skip(head.len() as int));
    assert(b =~= (head + b).skip(head.len() as int));
}

/// Law: the listing URL is the site's query path, the sort order as given,
/// then the page number in decimal.
pub proof fn lemma_query_url_text(sort: Seq<char>, page: u64)
    ensures
        spec_query_url(sort, page) == "https://extensions.gnome.org/extension-query/?sort="@ + sort
            + "&page="@ + decimal_digits(page as nat),
{
    reveal_strlit("https://extensions.gnome.org");
    reveal_strlit("/extension-query/?sort=");
    reveal_strlit("https://extensions.gnome.org/extension-query/?sort=");
    assert(BASE_URL@ + "/extension-query/?sort="@ =~= "https://extensions.gnome.org/extension-query/?sort="@);
}

/// Law: different sort orders, or different pages, ask for different URLs.
pub proof fn lemma_query_url_injective(s1: Seq<char>, p1: u64, s2: Seq<char>, p2: u64)
    requires
        spec_query_url(s1, p1) == spec_query_url(s2, p2),
        p1 == p2 || s1 == s2,
    ensures
        s1 == s2,
        p1 == p2,
{
    let head = BASE_URL@ + "/extension-query/?sort="@;
    if p1 == p2 {
        let tail = "&page="@ + decimal_digits(p1 as nat);
        assert(spec_query_url(s1, p1) =~= head + s1 + tail);
        assert(spec_query_url(s2, p2) =~= head + s2 + tail);
        lemma_framed_part(head, s1, s2, tail);
    } else {
        let h = head + s1 + "&page="@;
        assert(spec_query_url(s1, p1) =~= h + decimal_digits(p1 as nat));
        assert(spec_query_url(s2, p2) =~= h + decimal_digits(p2 as nat));
        lemma_framed_tail(h, decimal_digits(p1 as nat), decimal_digits(p2 as nat));
        lemma_decimal_digits_injective(p1 as nat, p2 as nat);
    }
}

/// Law: the download URL is the site's download path, the uuid unchanged,
/// then the version tag in decimal.
pub proof fn lemma_download_url_text(uuid: Seq<char>, version_tag: u64)
    ensures
        spec_download_url(uuid, version_tag) == "https://extensions.gnome.org/download-extension/"@
            + uuid + ".shell-extension.zip?version_tag="@ + decimal_digits(version_tag as nat),
{
    reveal_strlit("https://extensions.gnome.org");
    reveal_strlit("/download-extension/");
    reveal_strlit("https://extensions.gnome.org/download-extension/");
    assert(BASE_URL@ + "/download-extension/"@ =~= "https://extensions.gnome.org/download-extension/"@);
}

/// Law: different uuids, or different version tags, download from
/// different URLs.
pub proof fn lemma_download_url_injective(u1: Seq<char>, t1: u64, u2: Seq<char>, t2: u64)
    requires
        spec_download_url(u1, t1) == spec_download_url(u2, t2),
        t1 == t2 || u1 == u2,
    ensures
        u1 == u2,
        t1 == t2,
{
    let head = BASE_URL@ + "/download-extension/"@;
    if t1 == t2 {
        let tail = ".shell-extension.zip?version_tag="@ + decimal_digits(t1 as nat);
        assert(spec_download_url(u1, t1) =~= head + u1 + tail);
        assert(spec_download_url(u2, t2) =~= head + u2 + tail);
        lemma_framed_part(head, u1, u2, tail);
    } else {
        let h = head + u1 + ".shell-extension.zip?version_tag="@;
        assert(spec_download_url(u1, t1) =~= h + decimal_digits(t1 as nat));
        assert(spec_download_url(u2, t2) =~= h + decimal_digits(t2 as nat));
        lemma_framed_tail(h, decimal_digits(t1 as nat), decimal_digits(t2 as nat));
        lemma_decimal_digits_injective(t1 as nat, t2 as nat);
    }
}

/// URL of one page of the extension listing.
pub fn query_url(sort: &str, page: u64) -> (url: String)
    ensures
        url@ == spec_query_url(sort@, page),
{
    let mut url = String::from_str(BASE_URL);
    url.append("/extension-query/?sort=");
    url.append(sort);
    url.append("&page=");
    push_decimal_u64(&mut url, page);
    url
}

/// Canonical asset URL for a version tag. Follows a 302 to the REST API.
pub fn download_url(uuid: &str, version_tag: u64) -> (url: String)
    ensures
        url@ == spec_download_url(uuid@, version_tag),
{
    let mut url = String::from_str(BASE_URL);
    url.append("/download-extension/");
    url.append(uuid);
    url.append(".shell-extension.zip?version_tag=");
    push_decimal_u64(&mut url, version_tag);
    url
}

/// Seconds to wait before try number `attempt` (counted from 0): nothing
/// before the first, then 1, 3, 9, ... tripling each time.
pub open spec fn backoff_secs(attempt: nat) -> nat
    decreases attempt,
{
    if attempt == 0 {
        0
    } else if attempt == 1 {
        1
    } else {
        3 * backoff_secs((attempt - 1) as nat)
    }
}

/// Law: no wait before the first try, one second before the second, and
/// each later wait three times the one before.
pub proof fn lemma_backoff(n: nat)
    ensures
        backoff_secs(0) == 0,
        backoff_secs(1) == 1,
        n >= 1 ==> backoff_secs(n + 1) == 3 * backoff_secs(n),
{
}

/// What the client does next for one GET.
#[derive(Debug)]
pub enum RetryStep {
    /// Wait this many seconds, then send the request.
    Attempt { wait_secs: u64 },
    /// Every try failed: report the last error.
    GiveUp,
}

/// Retry schedule of one GET: up to `MAX_RETRIES` tries with exponential
/// backoff (1s, 3s, 9s). A response, including a 404, ends the schedule.
#[derive(Debug)]
pub struct Retry {
    attempts: usize,
    delay_secs: u64,
}

/// What one try of a GET gave.
#[derive(Debug)]
pub enum GetOutcome {
    /// A successful response with its body.
    Body(Vec<u8>),
    /// The server answered 404.
    NotFound,
    /// The request or the response failed.
    Failed,
}

impl Retry {
    /// Whether a try ends the GET: a response does (its body, or `None` for
    /// a 404) and is returned as it is; a failure does not, and the schedule
    /// goes on.
    pub fn settle(outcome: GetOutcome) -> (r: Option<Option<Vec<u8>>>)
        ensures
            match outcome {
                GetOutcome::Body(body) => r == Some(Some(body)),
                GetOutcome::NotFound => r == Some(None::<Vec<u8>>),
                GetOutcome::Failed => r is None,
            },
    {
        match outcome {
            GetOutcome::Body(body) => Some(Some(body)),
            GetOutcome::NotFound => Some(None),
            GetOutcome::Failed => None,
        }
    }

    /// Tries made so far.
    pub closed spec fn attempts(&self) -> nat {
        self.attempts as nat
    }

    pub closed spec fn wf(&self) -> bool {
        &&& self.attempts <= MAX_RETRIES
        &&& self.delay_secs == if self.attempts <= 1 {
            1
        } else {
            backoff_secs(self.attempts as nat)
        }
    }

    pub fn new() -> (r: Retry)
        ensures
            r.wf(),
            r.attempts() == 0,
    {
        Retry { attempts: 0, delay_secs: 1 }
    }

    /// Decides the next try after a failed one (or the first): wait and
    /// retry while tries remain, else give up.
    pub fn next_step(&mut self) -> (step: RetryStep)
        requires
            old(self).wf(),
        ensures
            final(self).wf(),
            old(self).attempts() < MAX_RETRIES ==> {
                &&& step == RetryStep::Attempt { wait_secs: backoff_secs(old(self).attempts()) as u64 }
                &&& final(self).attempts() == old(self).attempts() + 1
            },
            old(self).attempts() >= MAX_RETRIES ==> {
                &&& step == RetryStep::GiveUp
                &&& final(self).attempts() == old(self).attempts()
            },
    {
        if self.attempts >= MAX_RETRIES {
            return RetryStep::GiveUp;
        }
        let wait_secs = if self.attempts > 0 {
            let d = self.delay_secs;
            assert(d <= 9) by {
                reveal_with_fuel(backoff_secs, 4);
            }
            self.delay_secs = d * 3;
            d
        } else {
            0
        };
        self.attempts += 1;
        proof {
            reveal_with_fuel(backoff_secs, 4);
        }
        RetryStep::Attempt { wait_secs }
    }
}

} // verus!
