//! The crawler: a depth-bounded traversal of a linked document source,
//! driven as an explicit worklist state machine.  Fetching itself is outside
//! work; the crawler decides what to fetch next, records successes and
//! failures, extracts page text and follow-up links, and exposes its
//! progress as a status snapshot.

use vstd::prelude::*;
use vstd::string::StrSliceExecFns;
use vstd::string::StringExecFns;
use crate::errors::AppResult;
use crate::chars::{starts_with_spec, starts_with_str};
use crate::wikiparse::{
    links_spec, title_spec, page_content_spec, categories_spec, texts_in, extract_wiki_links,
    extract_title, extract_page_content, extract_categories,
};

verus! {

/// How many link hops from a seed the crawler may follow.
pub const MAX_DEPTH: u32 = 3;

/// How many discovered links per page the crawler may queue.
pub const MAX_LINKS_PER_PAGE: usize = 5;

/// A snapshot of the crawler's progress.
#[derive(Debug, Clone)]
pub struct WikiStatus {
    /// When the last full update finished, if one ever did.
    pub last_update: Option<String>,
    /// Pages scraped by the last finished update.
    pub total_pages: u32,
    /// Whether an update is running.
    pub is_updating: bool,
    /// Pages scraped so far in the running update.
    pub pages_scraped: u32,
    /// Single-page failures seen so far in the running update.
    pub errors_encountered: u32,
}

/// A fetched and parsed page.
#[derive(Debug, Clone)]
pub struct WikiPage {
    /// The page's heading, or a name derived from its address.
    pub title: String,
    /// The address it was fetched from.
    pub url: String,
    /// Its extracted readable text.
    pub content: String,
    /// When the page itself was last changed, where known.
    pub last_modified: Option<String>,
    /// The page's category names.
    pub categories: Vec<String>,
}

/// Mathematical image of the crawler state.
#[verifier::ext_equal]
pub ghost struct CrawlV {
    pub last_update: Option<Seq<char>>,
    pub total_pages: u32,
    pub updating: bool,
    pub pages: u32,
    pub errors: u32,
    pub visited: Seq<Seq<char>>,
    pub worklist: Seq<(Seq<char>, u32)>,
    pub base: Seq<char>,
}

/// What the crawler decided to do next.
pub enum CrawlStep {
    /// Fetch this address, discovered at this depth.
    Fetch(String, u32),
    /// The next queued address was already visited; nothing to do.
    Skip,
    /// The worklist is empty; the traversal is over.
    Done,
}

/// A counter bumped by one, stopping at its ceiling.
pub open spec fn sat_inc(x: u32) -> u32 {
    if x < 0xffffffffu32 {
        (x + 1) as u32
    } else {
        x
    }
}

/// The full address of a discovered link: site-relative paths are joined to
/// the base address, absolute addresses stand as they are, anything else is
/// dropped.
pub open spec fn full_url(base: Seq<char>, l: Seq<char>) -> Option<Seq<char>> {
    if starts_with_spec(l, "/"@) {
        Some(base + l)
    } else if starts_with_spec(l, "http"@) {
        Some(l)
    } else {
        None
    }
}

/// The worklist entries queued for the given links at the given depth.
pub open spec fn queued_links(base: Seq<char>, ls: Seq<Seq<char>>, d: u32) -> Seq<
    (Seq<char>, u32),
>
    decreases ls.len(),
{
    if ls.len() == 0 {
        Seq::empty()
    } else {
        let rest = queued_links(base, ls.drop_first(), d);
        match full_url(base, ls[0]) {
            Some(u) => seq![(u, d)] + rest,
            None => rest,
        }
    }
}

/// State after starting an update with the given seeds: counters reset, the
/// seeds queued at depth zero so that the first seed is handled first.
pub open spec fn begin_v(v: CrawlV, seeds: Seq<Seq<char>>) -> CrawlV {
    CrawlV {
        updating: true,
        pages: 0,
        errors: 0,
        worklist: seeds.map_values(|s: Seq<char>| (s, 0u32)).reverse(),
        ..v
    }
}

/// State after recording a successfully fetched page: one more page
/// scraped, and, below the depth bound, up to [`MAX_LINKS_PER_PAGE`] of the
/// page's content links queued one level deeper.
pub open spec fn success_v(v: CrawlV, html: Seq<char>, depth: u32) -> CrawlV {
    let ls = links_spec(html);
    let taken = ls.take(vstd::math::min(MAX_LINKS_PER_PAGE as int, ls.len() as int));
    CrawlV {
        pages: sat_inc(v.pages),
        worklist: if depth < MAX_DEPTH {
            v.worklist + queued_links(v.base, taken, (depth + 1) as u32)
        } else {
            v.worklist
        },
        ..v
    }
}

/// State after a single-page fetch or parse failure: the error counter
/// grows, nothing else changes.
pub open spec fn failure_v(v: CrawlV) -> CrawlV {
    CrawlV { errors: sat_inc(v.errors), ..v }
}

/// State after finishing an update: no longer updating, the finish time
/// recorded, the page total fixed.
pub open spec fn finish_v(v: CrawlV, ts: Seq<char>) -> CrawlV {
    CrawlV { updating: false, last_update: Some(ts), total_pages: v.pages, ..v }
}

/// A page fetch failure counts one error, leaves the page counter alone and
/// leaves the worklist — the remaining seeds and links — untouched, so the
/// crawl proceeds.
pub proof fn lemma_failure_keeps_crawl_going(v: CrawlV)
    ensures
        failure_v(v).errors == sat_inc(v.errors),
        v.errors < 0xffffffffu32 ==> failure_v(v).errors == v.errors + 1,
        failure_v(v).pages == v.pages,
        failure_v(v).worklist == v.worklist,
        failure_v(v).visited == v.visited,
{
}

/// Crawling a single seed whose page has no outbound content links yields
/// exactly one scraped page, no errors, and an empty worklist: the seed is
/// fetched, recorded, and nothing further is queued.
pub proof fn lemma_single_seed_no_links(v0: CrawlV, seed: Seq<char>, html: Seq<char>)
    requires
        links_spec(html).len() == 0,
    ensures
        ({
            let v1 = begin_v(v0, seq![seed]);
            let after_pop = CrawlV {
                visited: v1.visited.push(seed),
                worklist: v1.worklist.drop_last(),
                ..v1
            };
            let v2 = success_v(after_pop, html, 0);
            &&& v1.worklist.len() == 1 && v1.worklist.last() == (seed, 0u32)
            &&& v2.pages == 1
            &&& v2.errors == 0
            &&& v2.worklist.len() == 0
            &&& v2.visited == v1.visited.push(seed)
        }),
{
    let v1 = begin_v(v0, seq![seed]);
    assert(seq![seed].map_values(|s: Seq<char>| (s, 0u32)).reverse() =~= seq![(seed, 0u32)]);
    let after_pop = CrawlV {
        visited: v1.visited.push(seed),
        worklist: v1.worklist.drop_last(),
        ..v1
    };
    assert(after_pop.worklist =~= Seq::<(Seq<char>, u32)>::empty());
    let ls = links_spec(html);
    assert(ls.take(vstd::math::min(MAX_LINKS_PER_PAGE as int, ls.len() as int)) =~= Seq::<
        Seq<char>,
    >::empty());
    assert(queued_links(after_pop.base, Seq::empty(), 1u32) =~= Seq::<(Seq<char>, u32)>::empty());
    assert(success_v(after_pop, html, 0).worklist =~= Seq::<(Seq<char>, u32)>::empty());
}

/// The crawler.
pub struct WikiService {
    base_url: String,
    status: WikiStatus,
    visited: Vec<String>,
    worklist: Vec<(String, u32)>,
}

impl WikiService {
    /// Mathematical image of this crawler's state.
    pub closed spec fn view_spec(self) -> CrawlV {
        CrawlV {
            last_update: match self.status.last_update {
                Some(s) => Some(s@),
                None => None,
            },
            total_pages: self.status.total_pages,
            updating: self.status.is_updating,
            pages: self.status.pages_scraped,
            errors: self.status.errors_encountered,
            visited: self.visited@.map_values(|s: String| s@),
            worklist: self.worklist@.map_values(|p: (String, u32)| (p.0@, p.1)),
            base: self.base_url@,
        }
    }

    /// A fresh crawler for the given content source.
    pub fn new(base_url: String) -> (r: WikiService)
        ensures
            r.view_spec().updating == false,
            r.view_spec().pages == 0,
            r.view_spec().errors == 0,
            r.view_spec().total_pages == 0,
            r.view_spec().last_update is None,
            r.view_spec().visited.len() == 0,
            r.view_spec().worklist.len() == 0,
            r.view_spec().base == base_url@,
    {
        let r = WikiService {
            base_url,
            status: WikiStatus {
                last_update: None,
                total_pages: 0,
                is_updating: false,
                pages_scraped: 0,
                errors_encountered: 0,
            },
            visited: Vec::new(),
            worklist: Vec::new(),
        };
        proof {
            assert(r.view_spec().visited =~= Seq::<Seq<char>>::empty());
            assert(r.view_spec().worklist =~= Seq::<(Seq<char>, u32)>::empty());
        }
        r
    }

    /// A snapshot of the crawler's progress.
    pub fn get_status(&self) -> (r: AppResult<WikiStatus>)
        ensures
            r matches Ok(st) && {
                &&& match (st.last_update, self.view_spec().last_update) {
                    (Some(a), Some(b)) => a@ == b,
                    (None, None) => true,
                    _ => false,
                }
                &&& st.total_pages == self.view_spec().total_pages
                &&& st.is_updating == self.view_spec().updating
                &&& st.pages_scraped == self.view_spec().pages
                &&& st.errors_encountered == self.view_spec().errors
            },
    {
        let lu = match &self.status.last_update {
            Some(s) => Some(s.clone()),
            None => None,
        };
        Ok(
            WikiStatus {
                last_update: lu,
                total_pages: self.status.total_pages,
                is_updating: self.status.is_updating,
                pages_scraped: self.status.pages_scraped,
                errors_encountered: self.status.errors_encountered,
            },
        )
    }

    /// Starts an update run over the given seed addresses.
    pub fn begin_update(&mut self, seeds: &Vec<String>)
        ensures
            final(self).view_spec() == begin_v(
                old(self).view_spec(),
                seeds@.map_values(|s: String| s@),
            ),
    {
        self.status.is_updating = true;
        self.status.pages_scraped = 0;
        self.status.errors_encountered = 0;
        self.worklist = Vec::new();
        let ghost st0 = self.status;
        let ghost vis0 = self.visited@;
        let ghost base0 = self.base_url@;
        let mut k = seeds.len();
        while k > 0
            invariant
                self.status == st0,
                self.visited@ == vis0,
                self.base_url@ == base0,
                st0.is_updating == true,
                st0.pages_scraped == 0,
                st0.errors_encountered == 0,
                st0.total_pages == old(self).status.total_pages,
                st0.last_update == old(self).status.last_update,
                vis0 == old(self).visited@,
                base0 == old(self).base_url@,
                k <= seeds@.len(),
                self.worklist@.len() == seeds@.len() - k,
                forall|j: int|
                    0 <= j < self.worklist@.len() ==> (#[trigger] self.worklist@[j]).0@
                        == seeds@[seeds@.len() - 1 - j]@ && self.worklist@[j].1 == 0u32,
            decreases k,
        {
            let s = seeds[k - 1].clone();
            self.worklist.push((s, 0));
            k = k - 1;
        }
        proof {
            let sv = seeds@.map_values(|s: String| s@);
            assert(self.view_spec().worklist =~= sv.map_values(
                |s: Seq<char>| (s, 0u32),
            ).reverse()) by {
                let lhs = self.view_spec().worklist;
                let rhs = sv.map_values(|s: Seq<char>| (s, 0u32)).reverse();
                assert(lhs.len() == rhs.len());
                assert forall|j: int| 0 <= j < lhs.len() implies lhs[j] == rhs[j] by {
                    assert(lhs[j] == (self.worklist@[j].0@, self.worklist@[j].1));
                    assert(rhs[j] == (sv[sv.len() - 1 - j], 0u32));
                }
            }
            let a = self.view_spec();
            let b = begin_v(old(self).view_spec(), sv);
            assert(a.updating == b.updating);
            assert(a.pages == b.pages);
            assert(a.errors == b.errors);
            assert(a.total_pages == b.total_pages);
            assert(a.last_update == b.last_update);
            assert(a.base == b.base);
            assert(a.visited =~~= b.visited);
            assert(a.worklist =~~= b.worklist);
            assert(self.view_spec() =~~= begin_v(old(self).view_spec(), sv));
        }
    }

    /// The crawler's next decision: the next unvisited queued address to
    /// fetch, a skip of an already-visited one, or the end of the
    /// traversal.  A fetched address is marked visited at once.
    pub fn next_step(&mut self) -> (r: CrawlStep)
        ensures
            ({
                let v0 = old(self).view_spec();
                let v1 = final(self).view_spec();
                match r {
                    CrawlStep::Done => v1 == v0 && v0.worklist.len() == 0,
                    CrawlStep::Skip => {
                        &&& v0.worklist.len() > 0
                        &&& v0.visited.contains(v0.worklist.last().0)
                        &&& v1 == CrawlV { worklist: v0.worklist.drop_last(), ..v0 }
                    },
                    CrawlStep::Fetch(u, d) => {
                        &&& v0.worklist.len() > 0
                        &&& (u@, d) == v0.worklist.last()
                        &&& !v0.visited.contains(u@)
                        &&& v1 == CrawlV {
                            worklist: v0.worklist.drop_last(),
                            visited: v0.visited.push(u@),
                            ..v0
                        }
                    },
                }
            }),
    {
        let popped = match self.worklist.pop() {
            Some(p) => p,
            None => {
                return CrawlStep::Done;
            },
        };
        let (u, d) = popped;
        proof {
            assert(old(self).view_spec().worklist.last() == (u@, d));
            assert(self.worklist@.map_values(|p: (String, u32)| (p.0@, p.1)) =~= old(
                self,
            ).view_spec().worklist.drop_last());
        }
        if self.contains_visited(&u) {
            return CrawlStep::Skip;
        }
        let ghost old_visited = self.visited@.map_values(|s: String| s@);
        self.visited.push(u.clone());
        proof {
            assert(self.visited@.map_values(|s: String| s@) =~= old_visited.push(u@));
        }
        CrawlStep::Fetch(u, d)
    }

    /// Whether the address was already visited.
    fn contains_visited(&self, u: &String) -> (r: bool)
        ensures
            r == self.view_spec().visited.contains(u@),
    {
        let mut i: usize = 0;
        while i < self.visited.len()
            invariant
                i <= self.visited@.len(),
                forall|t: int| 0 <= t < i ==> (#[trigger] self.visited@[t])@ != u@,
            decreases self.visited@.len() - i,
        {
            if self.visited[i].eq(u) {
                proof {
                    assert(self.view_spec().visited[i as int] == u@);
                }
                return true;
            }
            i = i + 1;
        }
        proof {
            let vv = self.view_spec().visited;
            assert forall|t: int| 0 <= t < vv.len() implies #[trigger] vv[t] != u@ by {
                assert(vv[t] == self.visited@[t]@);
            }
        }
        false
    }

    /// Records a successfully fetched page: parses its title, text and
    /// categories, counts it, and queues up to [`MAX_LINKS_PER_PAGE`] of its
    /// content links one level deeper (none at the depth bound).  A page
    /// with no extractable text still yields a placeholder so that it is
    /// counted as attempted-but-empty rather than dropped.
    pub fn record_page(&mut self, url: &str, html: &str, depth: u32) -> (page: WikiPage)
        requires
            depth < 0xffffffffu32,
        ensures
            final(self).view_spec() == success_v(old(self).view_spec(), html@, depth),
            page@.title == title_spec(html@, url@),
            page@.url == url@,
            page@.content == if page_content_spec(html@).len() == 0 {
                "No content could be extracted from this page."@
            } else {
                page_content_spec(html@)
            },
            page@.last_modified is None,
            page@.categories == categories_spec(
                texts_in(html@, "#catlinks a, .category-links a"@),
            ),
    {
        let title = extract_title(html, url);
        let mut content = extract_page_content(html);
        if content.as_str().unicode_len() == 0 {
            content = "No content could be extracted from this page.".to_owned();
        }
        let categories = extract_categories(html);
        if self.status.pages_scraped < 0xffffffff {
            self.status.pages_scraped = self.status.pages_scraped + 1;
        }
        if depth < MAX_DEPTH {
            let links = extract_wiki_links(html);
            let ghost ls = links@.map_values(|s: String| s@);
            let limit = if links.len() < MAX_LINKS_PER_PAGE {
                links.len()
            } else {
                MAX_LINKS_PER_PAGE
            };
            let ghost taken = ls.take(
                vstd::math::min(MAX_LINKS_PER_PAGE as int, ls.len() as int),
            );
            let ghost base_work = old(self).view_spec().worklist;
            let ghost st1 = self.status;
            let ghost vis1 = self.visited@;
            let mut i: usize = 0;
            proof {
                assert(taken.skip(0) =~= taken);
                assert(self.worklist@.map_values(|p: (String, u32)| (p.0@, p.1)) =~= base_work);
            }
            while i < limit
                invariant
                    self.status == st1,
                    self.visited@ == vis1,
                    st1.pages_scraped == sat_inc(old(self).status.pages_scraped),
                    st1.errors_encountered == old(self).status.errors_encountered,
                    st1.is_updating == old(self).status.is_updating,
                    st1.total_pages == old(self).status.total_pages,
                    st1.last_update == old(self).status.last_update,
                    vis1 == old(self).visited@,
                    ls == links@.map_values(|s: String| s@),
                    limit == vstd::math::min(MAX_LINKS_PER_PAGE as int, ls.len() as int),
                    taken == ls.take(limit as int),
                    i <= limit,
                    depth < 0xffffffffu32,
                    self.base_url@ == old(self).view_spec().base,
                    self.worklist@.map_values(|p: (String, u32)| (p.0@, p.1)) + queued_links(
                        self.base_url@,
                        taken.skip(i as int),
                        (depth + 1) as u32,
                    ) =~~= base_work + queued_links(
                        self.base_url@,
                        taken,
                        (depth + 1) as u32,
                    ),
                decreases limit - i,
            {
                proof {
                    assert(taken.skip(i as int).len() > 0);
                    assert(taken.skip(i as int)[0] == taken[i as int]);
                    assert(taken[i as int] == ls[i as int]);
                    assert(taken.skip(i as int).drop_first() =~= taken.skip(i as int + 1));
                }
                let link = &links[i];
                let ghost wl0 = self.worklist@.map_values(|p: (String, u32)| (p.0@, p.1));
                if starts_with_str(link.as_str(), "/") {
                    let mut u = self.base_url.clone();
                    u.append(link.as_str());
                    proof {
                        assert(u@ == self.base_url@ + ls[i as int]);
                    }
                    self.worklist.push((u, depth + 1));
                    proof {
                        assert(self.worklist@.map_values(|p: (String, u32)| (p.0@, p.1)) =~=
                            wl0.push(((self.base_url@ + ls[i as int]), (depth + 1) as u32)));
                    }
                } else if starts_with_str(link.as_str(), "http") {
                    let u = link.clone();
                    self.worklist.push((u, depth + 1));
                    proof {
                        assert(self.worklist@.map_values(|p: (String, u32)| (p.0@, p.1)) =~=
                            wl0.push((ls[i as int], (depth + 1) as u32)));
                    }
                }
                proof {
                    let wl1 = self.worklist@.map_values(|p: (String, u32)| (p.0@, p.1));
                    assert(wl1 + queued_links(
                        self.base_url@,
                        taken.skip(i as int + 1),
                        (depth + 1) as u32,
                    ) =~~= wl0 + queued_links(
                        self.base_url@,
                        taken.skip(i as int),
                        (depth + 1) as u32,
                    ));
                }
                i = i + 1;
            }
            proof {
                assert(taken.skip(limit as int) =~= Seq::<Seq<char>>::empty());
                assert(queued_links(self.base_url@, Seq::empty(), (depth + 1) as u32) =~= Seq::<
                    (Seq<char>, u32),
                >::empty());
                assert(self.worklist@.map_values(|p: (String, u32)| (p.0@, p.1))
                    + Seq::<(Seq<char>, u32)>::empty() =~~= self.worklist@.map_values(
                    |p: (String, u32)| (p.0@, p.1),
                ));
            }
        }
        let page = WikiPage {
            title,
            url: url.to_owned(),
            content,
            last_modified: None,
            categories,
        };
        proof {
            assert(page@.categories =~= categories_spec(
                texts_in(html@, "#catlinks a, .category-links a"@),
            ));
            assert(self.view_spec() =~~= success_v(old(self).view_spec(), html@, depth));
        }
        page
    }

    /// Records a single-page fetch or parse failure and goes on.
    pub fn record_failure(&mut self)
        ensures
            final(self).view_spec() == failure_v(old(self).view_spec()),
    {
        if self.status.errors_encountered < 0xffffffff {
            self.status.errors_encountered = self.status.errors_encountered + 1;
        }
    }

    /// Ends the running update at the given timestamp.
    pub fn finish_update(&mut self, timestamp: String)
        ensures
            final(self).view_spec() == finish_v(old(self).view_spec(), timestamp@),
    {
        self.status.is_updating = false;
        self.status.total_pages = self.status.pages_scraped;
        self.status.last_update = Some(timestamp);
    }

    /// The default seed paths of an update run, joined to the base address.
    pub fn seed_urls(&self) -> (r: Vec<String>)
        ensures
            r@.map_values(|s: String| s@) =~= seq![
                self.view_spec().base + "/index.php?title=Main_Page"@,
                self.view_spec().base + "/index.php?title=Blocks"@,
                self.view_spec().base + "/index.php?title=Items"@,
                self.view_spec().base + "/index.php?title=Crafting"@,
                self.view_spec().base + "/index.php?title=Getting_Started"@,
                self.view_spec().base + "/index.php?title=Knapping"@,
                self.view_spec().base + "/index.php?title=Clay_forming"@,
            ],
    {
        let mut r: Vec<String> = Vec::new();
        let mut u1 = self.base_url.clone();
        u1.append("/index.php?title=Main_Page");
        r.push(u1);
        let mut u2 = self.base_url.clone();
        u2.append("/index.php?title=Blocks");
        r.push(u2);
        let mut u3 = self.base_url.clone();
        u3.append("/index.php?title=Items");
        r.push(u3);
        let mut u4 = self.base_url.clone();
        u4.append("/index.php?title=Crafting");
        r.push(u4);
        let mut u5 = self.base_url.clone();
        u5.append("/index.php?title=Getting_Started");
        r.push(u5);
        let mut u6 = self.base_url.clone();
        u6.append("/index.php?title=Knapping");
        r.push(u6);
        let mut u7 = self.base_url.clone();
        u7.append("/index.php?title=Clay_forming");
        r.push(u7);
        proof {
            assert(r@.map_values(|s: String| s@) =~= seq![
                self.view_spec().base + "/index.php?title=Main_Page"@,
                self.view_spec().base + "/index.php?title=Blocks"@,
                self.view_spec().base + "/index.php?title=Items"@,
                self.view_spec().base + "/index.php?title=Crafting"@,
                self.view_spec().base + "/index.php?title=Getting_Started"@,
                self.view_spec().base + "/index.php?title=Knapping"@,
                self.view_spec().base + "/index.php?title=Clay_forming"@,
            ]);
        }
        r
    }
}

/// Mathematical image of a [`WikiPage`].
pub ghost struct PageV {
    pub title: Seq<char>,
    pub url: Seq<char>,
    pub content: Seq<char>,
    pub last_modified: Option<Seq<char>>,
    pub categories: Seq<Seq<char>>,
}

impl View for WikiPage {
    type V = PageV;

    open spec fn view(&self) -> PageV {
        PageV {
            title: self.title@,
            url: self.url@,
            content: self.content@,
            last_modified: match self.last_modified {
                Some(s) => Some(s@),
                None => None,
            },
            categories: self.categories@.map_values(|s: String| s@),
        }
    }
}

} // verus!
