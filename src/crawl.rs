use vstd::prelude::*;

use crate::catalog::{views, Beatmap, CatalogError, EntryView};

verus! {

/// The most pages one crawl fetches before it gives up on the token.
pub const PAGE_CEILING: usize = 1000;

#[derive(Clone, Copy, Debug, PartialEq, Eq, Structural)]
pub enum CrawlState {
    /// Another page is to be fetched with the current cursor.
    Fetching,
    /// The last page carried no continuation token.
    Finished,
    /// The ceiling was reached while the service still offered more pages.
    Truncated,
}

/// A paginated crawl of one partition: the cursor to fetch next, the pages
/// fetched so far, and everything they held in crawl order.
pub struct Crawler {
    cursor: String,
    pages: usize,
    ceiling: usize,
    state: CrawlState,
    entries: Vec<Beatmap>,
}

pub struct CrawlView {
    pub cursor: Seq<char>,
    pub pages: nat,
    pub ceiling: nat,
    pub state: CrawlState,
    pub entries: Seq<EntryView>,
}

impl View for Crawler {
    type V = CrawlView;

    closed spec fn view(&self) -> CrawlView {
        CrawlView {
            cursor: self.cursor@,
            pages: self.pages as nat,
            ceiling: self.ceiling as nat,
            state: self.state,
            entries: views(self.entries@),
        }
    }
}

/// The crawl never fetches more pages than its ceiling, and stays active only
/// below it.
pub open spec fn crawl_wf(c: CrawlView) -> bool {
    &&& c.ceiling > 0
    &&& c.pages <= c.ceiling
    &&& c.state == CrawlState::Fetching ==> c.pages < c.ceiling
}

/// What one fetched page does to the crawl: its entries are appended, its token
/// becomes the cursor, and the crawl ends on an empty token or at the ceiling.
pub open spec fn crawl_step(c: CrawlView, page: Seq<EntryView>, next: Seq<char>) -> CrawlView {
    CrawlView {
        cursor: next,
        pages: c.pages + 1,
        ceiling: c.ceiling,
        state: if next.len() == 0 {
            CrawlState::Finished
        } else if c.pages + 1 >= c.ceiling {
            CrawlState::Truncated
        } else {
            CrawlState::Fetching
        },
        entries: c.entries + page,
    }
}

/// A crawl fed one token per page, as long as it asks for pages.
pub open spec fn crawl_run(c: CrawlView, next: Seq<Seq<char>>) -> CrawlView
    decreases next.len(),
{
    if next.len() == 0 || c.state != CrawlState::Fetching {
        c
    } else {
        crawl_run(crawl_step(c, Seq::empty(), next[0]), next.drop_first())
    }
}

impl Crawler {
    pub closed spec fn wf(&self) -> bool {
        crawl_wf(self@)
    }

    /// A crawl from the first page, fetching at most `ceiling` pages.
    pub fn new(ceiling: usize) -> (r: Crawler)
        requires
            ceiling > 0,
        ensures
            r.wf(),
            r@.cursor.len() == 0,
            r@.pages == 0,
            r@.ceiling == ceiling,
            r@.state == CrawlState::Fetching,
            r@.entries.len() == 0,
    {
        let r = Crawler {
            cursor: String::new(),
            pages: 0,
            ceiling,
            state: CrawlState::Fetching,
            entries: Vec::new(),
        };
        assert(views(r.entries@) =~= Seq::<EntryView>::empty());
        r
    }

    /// The cursor to fetch next; `None` once the crawl has ended.
    pub fn next_cursor(&self) -> (r: Option<&String>)
        ensures
            match r {
                Some(c) => self@.state == CrawlState::Fetching && c@ == self@.cursor,
                None => self@.state != CrawlState::Fetching,
            },
    {
        match self.state {
            CrawlState::Fetching => Some(&self.cursor),
            _ => None,
        }
    }

    /// Records a fetched page and the token it carried.
    pub fn record_page(&mut self, page: Vec<Beatmap>, next: String)
        requires
            old(self).wf(),
            old(self)@.state == CrawlState::Fetching,
        ensures
            final(self).wf(),
            final(self)@ == crawl_step(old(self)@, views(page@), next@),
    {
        let mut page = page;
        let ghost added = views(page@);
        let ghost before = views(self.entries@);
        self.entries.append(&mut page);
        assert(views(self.entries@) =~= before + added);
        self.pages = self.pages + 1;
        self.state = if next.unicode_len() == 0 {
            CrawlState::Finished
        } else if self.pages >= self.ceiling {
            CrawlState::Truncated
        } else {
            CrawlState::Fetching
        };
        self.cursor = next;
    }

    /// The entries of every page in crawl order, or `CrawlTruncated` where the
    /// ceiling stopped the crawl. Asked of a crawl that is still going, it
    /// hands over what it has.
    pub fn into_entries(self) -> (r: Result<Vec<Beatmap>, CatalogError>)
        ensures
            match r {
                Ok(es) => self@.state != CrawlState::Truncated && views(es@) == self@.entries,
                Err(e) => self@.state == CrawlState::Truncated && e == CatalogError::CrawlTruncated,
            },
    {
        match self.state {
            CrawlState::Truncated => Err(CatalogError::CrawlTruncated),
            _ => Ok(self.entries),
        }
    }

    pub fn state(&self) -> (r: CrawlState)
        ensures
            r == self@.state,
    {
        self.state
    }

    pub fn pages(&self) -> (r: usize)
        ensures
            r == self@.pages,
    {
        self.pages
    }
}

/// A step keeps the crawl within its ceiling.
pub proof fn lemma_step_wf(c: CrawlView, page: Seq<EntryView>, next: Seq<char>)
    requires
        crawl_wf(c),
        c.state == CrawlState::Fetching,
    ensures
        crawl_wf(crawl_step(c, page, next)),
{
}

/// A crawl whose every page offers another one stops at its ceiling, having
/// fetched exactly `ceiling` pages, and reports truncation instead of going on.
pub proof fn lemma_endless_cursor_truncates(c: CrawlView, next: Seq<Seq<char>>)
    requires
        crawl_wf(c),
        c.state == CrawlState::Fetching,
        next.len() >= c.ceiling - c.pages,
        forall|i: int| 0 <= i < next.len() ==> (#[trigger] next[i]).len() > 0,
    ensures
        crawl_run(c, next).state == CrawlState::Truncated,
        crawl_run(c, next).pages == c.ceiling,
    decreases next.len(),
{
    let s = crawl_step(c, Seq::empty(), next[0]);
    if s.state == CrawlState::Fetching {
        assert forall|i: int| 0 <= i < next.drop_first().len() implies (
        #[trigger] next.drop_first()[i]).len() > 0 by {
            assert(next.drop_first()[i] == next[i + 1]);
        }
        lemma_endless_cursor_truncates(s, next.drop_first());
    } else {
        assert(crawl_run(s, next.drop_first()) == s);
    }
}

/// Whatever tokens the service hands out, a crawl never fetches more pages
/// than its ceiling.
pub proof fn lemma_run_bounded(c: CrawlView, next: Seq<Seq<char>>)
    requires
        crawl_wf(c),
    ensures
        crawl_wf(crawl_run(c, next)),
        crawl_run(c, next).pages <= c.ceiling,
    decreases next.len(),
{
    if next.len() > 0 && c.state == CrawlState::Fetching {
        lemma_step_wf(c, Seq::empty(), next[0]);
        lemma_run_bounded(crawl_step(c, Seq::empty(), next[0]), next.drop_first());
    }
}

} // verus!
