//! Enumeration phase: paginate `/extension-query/` until an empty page,
//! upserting assets and their shell compatibility rows.
//!
//! The client and the database stay with the caller; this module decides
//! which page to ask for next, what each listed version adds to the
//! database, and keeps the counts.

use vstd::prelude::*;

use crate::api::QueryResponse;
use crate::models::{NewAsset, NewShell};
use crate::order::text_equal;

verus! {

/// Safety valve against runaway pagination (numpages is unreliable upstream).
pub const HARD_PAGE_CAP: u64 = 5000;

/// Pages between two progress reports.
pub const REPORT_EVERY_PAGES: u64 = 25;

/// What the enumeration does next.
#[derive(Debug)]
pub enum PageStep {
    /// Query this page.
    Query(u64),
    /// Stop: the hard page cap is reached.
    HardCapReached,
    /// Stop: the page limit of this run is reached.
    MaxPagesReached,
}

/// How a queried page bears on the enumeration.
#[derive(Debug)]
pub enum PageEnd {
    /// The site answered 404: the page lies beyond the end of the listing.
    NoSuchPage,
    /// The page lists no extension: the enumeration is complete.
    EmptyPage,
    /// The page lists extensions to store.
    Continue,
}

/// Decides whether a queried page ends the enumeration: an absent page (a
/// 404) or an empty one does.
pub fn page_end(resp: &Option<QueryResponse>) -> (e: PageEnd)
    ensures
        match resp {
            None => e is NoSuchPage,
            Some(r) => if r.extensions@.len() == 0 {
                e is EmptyPage
            } else {
                e is Continue
            },
        },
{
    match resp {
        None => PageEnd::NoSuchPage,
        Some(r) => {
            if r.extensions.len() == 0 {
                PageEnd::EmptyPage
            } else {
                PageEnd::Continue
            }
        },
    }
}

/// Progress of one enumeration run.
#[derive(Debug)]
pub struct Enumeration {
    page: u64,
    max_pages: u64,
    extensions_seen: usize,
    rows_added: usize,
}

impl Enumeration {
    /// The page to query next (pages count from 1).
    pub closed spec fn page(&self) -> u64 {
        self.page
    }

    /// Page limit of this run (0 = all).
    pub closed spec fn max_pages(&self) -> u64 {
        self.max_pages
    }

    /// Extensions listed so far.
    pub closed spec fn extensions_seen(&self) -> usize {
        self.extensions_seen
    }

    /// Assets added so far.
    pub closed spec fn rows_added(&self) -> usize {
        self.rows_added
    }

    pub fn new(max_pages: u64) -> (e: Enumeration)
        ensures
            e.page() == 1,
            e.max_pages() == max_pages,
            e.extensions_seen() == 0,
            e.rows_added() == 0,
    {
        Enumeration { page: 1, max_pages, extensions_seen: 0, rows_added: 0 }
    }

    /// Decides whether to query the current page: not beyond the hard cap,
    /// nor beyond `max_pages` when that is not 0.
    pub fn next_step(&self) -> (step: PageStep)
        ensures
            self.page() > HARD_PAGE_CAP ==> step == PageStep::HardCapReached,
            self.page() <= HARD_PAGE_CAP && self.max_pages() > 0 && self.page() > self.max_pages()
                ==> step == PageStep::MaxPagesReached,
            self.page() <= HARD_PAGE_CAP && (self.max_pages() == 0 || self.page()
                <= self.max_pages()) ==> step == PageStep::Query(self.page()),
    {
        if self.page > HARD_PAGE_CAP {
            PageStep::HardCapReached
        } else if self.max_pages > 0 && self.page > self.max_pages {
            PageStep::MaxPagesReached
        } else {
            PageStep::Query(self.page)
        }
    }

    /// Whether the current page is the first one.
    pub fn is_first_page(&self) -> (r: bool)
        ensures
            r == (self.page() == 1),
    {
        self.page == 1
    }

    /// Counts one listed extension.
    pub fn record_extension(&mut self)
        requires
            old(self).extensions_seen() < usize::MAX,
        ensures
            final(self).extensions_seen() == old(self).extensions_seen() + 1,
            final(self).rows_added() == old(self).rows_added(),
            final(self).page() == old(self).page(),
            final(self).max_pages() == old(self).max_pages(),
    {
        self.extensions_seen += 1;
    }

    /// Counts one added asset.
    pub fn record_asset_added(&mut self)
        requires
            old(self).rows_added() < usize::MAX,
        ensures
            final(self).rows_added() == old(self).rows_added() + 1,
            final(self).extensions_seen() == old(self).extensions_seen(),
            final(self).page() == old(self).page(),
            final(self).max_pages() == old(self).max_pages(),
    {
        self.rows_added += 1;
    }

    /// Finishes a non-empty page: moves to the next one, and says whether
    /// the finished page is due a progress report.
    pub fn finish_page(&mut self) -> (report: bool)
        requires
            old(self).page() <= HARD_PAGE_CAP,
        ensures
            report == (old(self).page() % REPORT_EVERY_PAGES == 0),
            final(self).page() == old(self).page() + 1,
            final(self).max_pages() == old(self).max_pages(),
            final(self).extensions_seen() == old(self).extensions_seen(),
            final(self).rows_added() == old(self).rows_added(),
    {
        let report = self.page % REPORT_EVERY_PAGES == 0;
        self.page += 1;
        report
    }

    /// The totals of the run: extensions listed and assets added.
    pub fn totals(&self) -> (r: (usize, usize))
        ensures
            r == (self.extensions_seen(), self.rows_added()),
    {
        (self.extensions_seen, self.rows_added)
    }
}

/// The version tag of a listed `pk`, when it fits the database column.
pub fn version_tag(pk: u64) -> (tag: Option<i32>)
    ensures
        pk <= i32::MAX ==> tag == Some(pk as i32),
        pk > i32::MAX ==> tag is None,
{
    if pk <= i32::MAX as u64 {
        Some(pk as i32)
    } else {
        None
    }
}

/// The stored version number: the listed one, capped at `i32::MAX`.
pub fn stored_version(version: u64) -> (v: i32)
    ensures
        v == if version <= i32::MAX {
            version as i32
        } else {
            i32::MAX
        },
{
    if version <= i32::MAX as u64 {
        version as i32
    } else {
        i32::MAX
    }
}

/// What one `(shell, version)` entry of a listed extension does to the
/// database.
#[derive(Debug)]
pub enum VersionPlan<'a> {
    /// The tag already belongs to another extension; the first one is kept.
    Conflict,
    /// Insert the shell row, and the asset row first when it is new.
    Insert { asset: Option<NewAsset<'a>>, shell: NewShell<'a> },
}

/// Plans one `(shell, version)` entry of extension `uuid` whose tag is
/// `tag`, given the extension already stored under that tag, if any.
pub fn plan_version<'a>(
    uuid: &'a str,
    shell: &'a str,
    tag: i32,
    version: u64,
    existing_uuid: Option<&str>,
) -> (plan: VersionPlan<'a>)
    ensures
        match existing_uuid {
            None => plan matches VersionPlan::Insert { asset: Some(a), shell: s } && a.version_tag
                == tag && a.uuid@ == uuid@ && a.version == (if version <= i32::MAX {
                version as i32
            } else {
                i32::MAX
            }) && s.version_tag == tag && s.shell@ == shell@,
            Some(u) => if u@ == uuid@ {
                plan matches VersionPlan::Insert { asset: None, shell: s } && s.version_tag == tag
                    && s.shell@ == shell@
            } else {
                plan is Conflict
            },
        },
{
    match existing_uuid {
        None => VersionPlan::Insert {
            asset: Some(NewAsset { version_tag: tag, uuid, version: stored_version(version) }),
            shell: NewShell { version_tag: tag, shell },
        },
        Some(u) => {
            if text_equal(u, uuid) {
                VersionPlan::Insert { asset: None, shell: NewShell { version_tag: tag, shell } }
            } else {
                VersionPlan::Conflict
            }
        },
    }
}

} // verus!
