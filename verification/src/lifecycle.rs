//! Crawl lifecycle aggregation: per-status counts over one crawl's URLs, the
//! derived crawl status (`completed` exactly when nothing is pending or in
//! progress), the progress object, the paginated crawl list, and the
//! statistics object.

use vstd::prelude::*;

use crate::store::{node_id, GraphStore, JobStatus, RootNode, UrlNode};
use crate::text::str_eq;

verus! {

/// A crawl's progress, as the status endpoints report it.
pub struct CrawlProgress {
    pub crawl_id: String,
    pub status: String,
    pub total: i64,
    pub completed: i64,
    pub pending: i64,
    pub in_progress: i64,
    pub failed: i64,
    pub cancelled: i64,
    pub root_url: String,
    pub requested_depth: i64,
}

/// One row of the crawl list.
pub struct CrawlListItem {
    pub crawl_id: String,
    pub root_url: String,
    pub requested_depth: i64,
    pub status: String,
    pub total: i64,
    pub completed: i64,
    pub failed: i64,
    pub cancelled: i64,
}

/// The crawl list with its pagination frame.
pub struct CrawlListResponse {
    pub crawls: Vec<CrawlListItem>,
    pub total: i64,
    pub offset: i64,
    pub limit: i64,
}

/// Per-status totals of one crawl.
pub struct StatusCounts {
    pub pending: i64,
    pub in_progress: i64,
    pub completed: i64,
    pub failed: i64,
    pub cancelled: i64,
}

/// Aggregate statistics of one crawl.
pub struct CrawlStats {
    pub crawl_id: String,
    pub total_urls: i64,
    pub unique_domains: i64,
    pub max_depth_reached: i64,
    pub status_counts: StatusCounts,
}

/// The query parameters of the crawl list.
pub struct ListParams {
    pub status: Option<String>,
    pub limit: Option<i64>,
    pub offset: Option<i64>,
}

/// How many URLs of the crawl there are.
pub open spec fn count_in_crawl(s: Seq<UrlNode>, cid: Seq<char>) -> int
    decreases s.len(),
{
    if s.len() == 0 {
        0
    } else {
        count_in_crawl(s.drop_last(), cid) + if s.last().crawl_id@ == cid {
            1int
        } else {
            0int
        }
    }
}

/// How many URLs of the crawl are in the given state.
pub open spec fn count_status(s: Seq<UrlNode>, cid: Seq<char>, st: JobStatus) -> int
    decreases s.len(),
{
    if s.len() == 0 {
        0
    } else {
        count_status(s.drop_last(), cid, st) + if s.last().crawl_id@ == cid && s.last().job_status
            == st {
            1int
        } else {
            0int
        }
    }
}

pub proof fn lemma_count_in_crawl_bounds(s: Seq<UrlNode>, cid: Seq<char>)
    ensures
        0 <= count_in_crawl(s, cid) <= s.len(),
    decreases s.len(),
{
    if s.len() > 0 {
        lemma_count_in_crawl_bounds(s.drop_last(), cid);
    }
}

pub proof fn lemma_count_status_bounds(s: Seq<UrlNode>, cid: Seq<char>, st: JobStatus)
    ensures
        0 <= count_status(s, cid, st) <= s.len(),
    decreases s.len(),
{
    if s.len() > 0 {
        lemma_count_status_bounds(s.drop_last(), cid, st);
    }
}

/// A sequence in which no URL of the crawl is in the given state counts zero,
/// and conversely.
pub proof fn lemma_count_status_zero(s: Seq<UrlNode>, cid: Seq<char>, st: JobStatus)
    ensures
        (count_status(s, cid, st) == 0) <==> (forall|i: int|
            0 <= i < s.len() ==> !((#[trigger] s[i]).crawl_id@ == cid && s[i].job_status == st)),
    decreases s.len(),
{
    if s.len() > 0 {
        lemma_count_status_zero(s.drop_last(), cid, st);
        lemma_count_status_bounds(s.drop_last(), cid, st);
        if count_status(s, cid, st) == 0 {
            assert forall|i: int|
                0 <= i < s.len() implies !((#[trigger] s[i]).crawl_id@ == cid && s[i].job_status
                == st) by {
                if i < s.len() - 1 {
                    assert(s.drop_last()[i] == s[i]);
                } else {
                    assert(s[i] == s.last());
                }
            }
        }
        if forall|i: int|
            0 <= i < s.len() ==> !((#[trigger] s[i]).crawl_id@ == cid && s[i].job_status == st) {
            assert forall|i: int|
                0 <= i < s.drop_last().len() implies !((#[trigger] s.drop_last()[i]).crawl_id@
                == cid && s.drop_last()[i].job_status == st) by {
                assert(s.drop_last()[i] == s[i]);
            }
            assert(!(s.last().crawl_id@ == cid && s.last().job_status == st));
        }
    }
}

/// A crawl is done exactly when nothing of it is pending or in progress.
pub open spec fn crawl_completed(s: Seq<UrlNode>, cid: Seq<char>) -> bool {
    count_status(s, cid, JobStatus::Pending) == 0 && count_status(s, cid, JobStatus::InProgress)
        == 0
}

/// The derived status text of a crawl.
pub open spec fn status_text(done: bool) -> Seq<char> {
    if done {
        "completed"@
    } else {
        "running"@
    }
}

/// The status text a crawl with these open counts shows: `completed`
/// exactly when nothing is pending or in progress.
pub fn derived_status(pending: i64, in_progress: i64) -> (r: String)
    ensures
        r@ == status_text(pending == 0 && in_progress == 0),
{
    if pending == 0 && in_progress == 0 {
        String::from_str("completed")
    } else {
        String::from_str("running")
    }
}

/// One pass over the URLs: the crawl's total and its per-status counts.
pub fn crawl_counts(store: &GraphStore, crawl_id: &str) -> (r: (i64, StatusCounts))
    requires
        store.wf(),
    ensures
        r.0 == count_in_crawl(store.urls@, crawl_id@),
        r.1.pending == count_status(store.urls@, crawl_id@, JobStatus::Pending),
        r.1.in_progress == count_status(store.urls@, crawl_id@, JobStatus::InProgress),
        r.1.completed == count_status(store.urls@, crawl_id@, JobStatus::Completed),
        r.1.failed == count_status(store.urls@, crawl_id@, JobStatus::Failed),
        r.1.cancelled == count_status(store.urls@, crawl_id@, JobStatus::Cancelled),
{
    let n = store.urls.len();
    let mut total: i64 = 0;
    let mut pending: i64 = 0;
    let mut in_progress: i64 = 0;
    let mut completed: i64 = 0;
    let mut failed: i64 = 0;
    let mut cancelled: i64 = 0;
    let mut i: usize = 0;
    while i < n
        invariant
            i <= n,
            n == store.urls@.len(),
            store.wf(),
            total == count_in_crawl(store.urls@.take(i as int), crawl_id@),
            pending == count_status(store.urls@.take(i as int), crawl_id@, JobStatus::Pending),
            in_progress == count_status(
                store.urls@.take(i as int),
                crawl_id@,
                JobStatus::InProgress,
            ),
            completed == count_status(store.urls@.take(i as int), crawl_id@, JobStatus::Completed),
            failed == count_status(store.urls@.take(i as int), crawl_id@, JobStatus::Failed),
            cancelled == count_status(store.urls@.take(i as int), crawl_id@, JobStatus::Cancelled),
        decreases n - i,
    {
        proof {
            lemma_count_in_crawl_bounds(store.urls@.take(i as int), crawl_id@);
            lemma_count_status_bounds(store.urls@.take(i as int), crawl_id@, JobStatus::Pending);
            lemma_count_status_bounds(store.urls@.take(i as int), crawl_id@, JobStatus::InProgress);
            lemma_count_status_bounds(store.urls@.take(i as int), crawl_id@, JobStatus::Completed);
            lemma_count_status_bounds(store.urls@.take(i as int), crawl_id@, JobStatus::Failed);
            lemma_count_status_bounds(store.urls@.take(i as int), crawl_id@, JobStatus::Cancelled);
            assert(store.urls@.take(i + 1 as int).drop_last() =~= store.urls@.take(i as int));
            assert(store.urls@.take(i + 1 as int).last() == store.urls@[i as int]);
        }
        let node = &store.urls[i];
        if str_eq(node.crawl_id.as_str(), crawl_id) {
            total += 1;
            match node.job_status {
                JobStatus::Pending => pending += 1,
                JobStatus::InProgress => in_progress += 1,
                JobStatus::Completed => completed += 1,
                JobStatus::Failed => failed += 1,
                JobStatus::Cancelled => cancelled += 1,
            }
        }
        i += 1;
    }
    proof {
        assert(store.urls@.take(n as int) =~= store.urls@);
    }
    (
        total,
        StatusCounts { pending, in_progress, completed, failed, cancelled },
    )
}

/// A progress report's fields match the store for this crawl and root.
pub open spec fn progress_matches(
    p: CrawlProgress,
    roots: Seq<RootNode>,
    urls: Seq<UrlNode>,
    cid: Seq<char>,
    ri: int,
) -> bool {
    &&& p.crawl_id@ == cid
    &&& 0 <= ri < roots.len() && roots[ri].crawl_id@ == cid
    &&& p.root_url@ == node_id(roots[ri].http_type@, roots[ri].name@)
    &&& p.requested_depth == roots[ri].requested_depth
    &&& p.total == count_in_crawl(urls, cid)
    &&& p.completed == count_status(urls, cid, JobStatus::Completed)
    &&& p.pending == count_status(urls, cid, JobStatus::Pending)
    &&& p.in_progress == count_status(urls, cid, JobStatus::InProgress)
    &&& p.failed == count_status(urls, cid, JobStatus::Failed)
    &&& p.cancelled == count_status(urls, cid, JobStatus::Cancelled)
    &&& p.status@ == status_text(crawl_completed(urls, cid))
}

/// The progress of one crawl: its per-status counts and derived status
/// (`completed` exactly when nothing is pending or in progress), or `None`
/// when no such crawl exists.
pub fn get_crawl_progress(store: &GraphStore, crawl_id: &str) -> (r: Option<CrawlProgress>)
    requires
        store.wf(),
    ensures
        r is None ==> !store.has_root(crawl_id@),
        r is Some ==> exists|ri: int|
            #[trigger] progress_matches(r->0, store.roots@, store.urls@, crawl_id@, ri),
{
    let ri = match store.find_root_index(crawl_id) {
        None => {
            return None;
        },
        Some(ri) => ri,
    };
    let (total, counts) = crawl_counts(store, crawl_id);
    let done = counts.pending == 0 && counts.in_progress == 0;
    let root = &store.roots[ri];
    let progress = CrawlProgress {
        crawl_id: String::from_str(crawl_id),
        status: if done {
            String::from_str("completed")
        } else {
            String::from_str("running")
        },
        total,
        completed: counts.completed,
        pending: counts.pending,
        in_progress: counts.in_progress,
        failed: counts.failed,
        cancelled: counts.cancelled,
        root_url: root.http_type.clone().concat(root.name.as_str()),
        requested_depth: root.requested_depth,
    };
    let result = Some(progress);
    proof {
        assert(progress_matches(result->0, store.roots@, store.urls@, crawl_id@, ri as int));
    }
    result
}

/// The crawl passes the list filter: no filter, or its derived status text
/// equals the filter.
pub open spec fn passes_filter(urls: Seq<UrlNode>, cid: Seq<char>, filt: Option<Seq<char>>) -> bool {
    match filt {
        None => true,
        Some(f) => status_text(crawl_completed(urls, cid)) == f,
    }
}

/// The indices of the ROOTs whose crawls pass the filter, in store order.
pub open spec fn filtered_root_indices(
    roots: Seq<RootNode>,
    urls: Seq<UrlNode>,
    filt: Option<Seq<char>>,
) -> Seq<int>
    decreases roots.len(),
{
    if roots.len() == 0 {
        Seq::empty()
    } else {
        filtered_root_indices(roots.drop_last(), urls, filt) + if passes_filter(
            urls,
            roots.last().crawl_id@,
            filt,
        ) {
            seq![roots.len() - 1]
        } else {
            Seq::empty()
        }
    }
}

pub proof fn lemma_filtered_root_indices_bounds(
    roots: Seq<RootNode>,
    urls: Seq<UrlNode>,
    filt: Option<Seq<char>>,
)
    ensures
        filtered_root_indices(roots, urls, filt).len() <= roots.len(),
        forall|j: int|
            0 <= j < filtered_root_indices(roots, urls, filt).len() ==> 0 <= #[trigger] filtered_root_indices(
                roots,
                urls,
                filt,
            )[j] < roots.len(),
    decreases roots.len(),
{
    if roots.len() > 0 {
        lemma_filtered_root_indices_bounds(roots.drop_last(), urls, filt);
    }
}

/// One list row matches the store's root `ri` and that crawl's counts.
pub open spec fn list_item_matches(
    item: CrawlListItem,
    roots: Seq<RootNode>,
    urls: Seq<UrlNode>,
    ri: int,
) -> bool {
    &&& 0 <= ri < roots.len()
    &&& item.crawl_id@ == roots[ri].crawl_id@
    &&& item.root_url@ == node_id(roots[ri].http_type@, roots[ri].name@)
    &&& item.requested_depth == roots[ri].requested_depth
    &&& item.status@ == status_text(crawl_completed(urls, roots[ri].crawl_id@))
    &&& item.total == count_in_crawl(urls, roots[ri].crawl_id@)
    &&& item.completed == count_status(urls, roots[ri].crawl_id@, JobStatus::Completed)
    &&& item.failed == count_status(urls, roots[ri].crawl_id@, JobStatus::Failed)
    &&& item.cancelled == count_status(urls, roots[ri].crawl_id@, JobStatus::Cancelled)
}

/// The filter as the list specification sees it.
pub open spec fn filter_view(status_filter: Option<&str>) -> Option<Seq<char>> {
    match status_filter {
        None => None,
        Some(f) => Some(f@),
    }
}

/// How many rows the window `offset, limit` cuts from `len` rows.
pub open spec fn window_len(len: int, offset: int, limit: int) -> int {
    if offset >= len {
        0
    } else if offset + limit <= len {
        limit
    } else {
        len - offset
    }
}

/// The list row of the crawl whose ROOT sits at `ri`.
fn make_list_item(store: &GraphStore, ri: usize) -> (item: CrawlListItem)
    requires
        store.wf(),
        ri < store.roots@.len(),
    ensures
        list_item_matches(item, store.roots@, store.urls@, ri as int),
{
    let root = &store.roots[ri];
    let (total, counts) = crawl_counts(store, root.crawl_id.as_str());
    let done = counts.pending == 0 && counts.in_progress == 0;
    CrawlListItem {
        crawl_id: root.crawl_id.clone(),
        root_url: root.http_type.clone().concat(root.name.as_str()),
        requested_depth: root.requested_depth,
        status: if done {
            String::from_str("completed")
        } else {
            String::from_str("running")
        },
        total,
        completed: counts.completed,
        failed: counts.failed,
        cancelled: counts.cancelled,
    }
}

/// List the crawls, optionally only those whose derived status equals the
/// filter, windowed by `offset` and `limit`; returns the rows of the window
/// and the total row count before windowing.
pub fn list_crawls(store: &GraphStore, status_filter: Option<&str>, limit: i64, offset: i64) -> (r:
    (Vec<CrawlListItem>, i64))
    requires
        store.wf(),
        0 <= limit,
        0 <= offset,
    ensures
        ({
            let fidx = filtered_root_indices(store.roots@, store.urls@, filter_view(status_filter));
            &&& r.1 == fidx.len()
            &&& r.0@.len() == window_len(fidx.len() as int, offset as int, limit as int)
            &&& forall|j: int|
                0 <= j < r.0@.len() ==> list_item_matches(
                    #[trigger] r.0@[j],
                    store.roots@,
                    store.urls@,
                    fidx[offset + j],
                )
        }),
{
    let ghost filt = filter_view(status_filter);
    let nr = store.roots.len();
    let mut fidx: Vec<usize> = Vec::new();
    let mut ri: usize = 0;
    while ri < nr
        invariant
            ri <= nr,
            nr == store.roots@.len(),
            store.wf(),
            filt == filter_view(status_filter),
            fidx@.len() == filtered_root_indices(store.roots@.take(ri as int), store.urls@, filt).len(),
            forall|j: int|
                0 <= j < fidx@.len() ==> #[trigger] fidx@[j] as int == filtered_root_indices(
                    store.roots@.take(ri as int),
                    store.urls@,
                    filt,
                )[j] && fidx@[j] < ri,
        decreases nr - ri,
    {
        let ghost pre = filtered_root_indices(store.roots@.take(ri as int), store.urls@, filt);
        proof {
            assert(store.roots@.take(ri + 1 as int).drop_last() =~= store.roots@.take(ri as int));
            assert(store.roots@.take(ri + 1 as int).last() == store.roots@[ri as int]);
        }
        let root = &store.roots[ri];
        let keep = match status_filter {
            None => true,
            Some(f) => {
                let (_, counts) = crawl_counts(store, root.crawl_id.as_str());
                let done = counts.pending == 0 && counts.in_progress == 0;
                let status = if done {
                    "completed"
                } else {
                    "running"
                };
                str_eq(status, f)
            },
        };
        proof {
            assert(keep == passes_filter(store.urls@, store.roots@[ri as int].crawl_id@, filt));
        }
        if keep {
            fidx.push(ri);
        }
        ri += 1;
    }
    proof {
        assert(store.roots@.take(nr as int) =~= store.roots@);
        lemma_filtered_root_indices_bounds(store.roots@, store.urls@, filt);
    }
    let total = fidx.len();
    let start: usize = if offset as u64 >= total as u64 {
        total
    } else {
        offset as usize
    };
    let remaining = total - start;
    let take_n: usize = if (limit as u64) < (remaining as u64) {
        limit as usize
    } else {
        remaining
    };
    let mut out: Vec<CrawlListItem> = Vec::new();
    let mut j: usize = 0;
    while j < take_n
        invariant
            j <= take_n,
            store.wf(),
            filt == filter_view(status_filter),
            start + take_n <= total == fidx@.len(),
            start == offset || (offset >= total && start == total),
            fidx@.len() == filtered_root_indices(store.roots@, store.urls@, filt).len(),
            forall|k: int|
                0 <= k < fidx@.len() ==> #[trigger] fidx@[k] as int == filtered_root_indices(
                    store.roots@,
                    store.urls@,
                    filt,
                )[k] && fidx@[k] < store.roots@.len(),
            out@.len() == j,
            forall|k: int|
                0 <= k < j ==> list_item_matches(
                    #[trigger] out@[k],
                    store.roots@,
                    store.urls@,
                    filtered_root_indices(store.roots@, store.urls@, filt)[start + k],
                ),
        decreases take_n - j,
    {
        let item = make_list_item(store, fidx[start + j]);
        out.push(item);
        j += 1;
    }
    (out, total as i64)
}

/// How many distinct domains the crawl's URLs name: a URL counts when no
/// earlier URL of the crawl has its domain.
pub open spec fn fresh_domain(s: Seq<UrlNode>, cid: Seq<char>, i: int) -> bool {
    &&& s[i].crawl_id@ == cid
    &&& forall|j: int|
        0 <= j < i && (#[trigger] s[j]).crawl_id@ == cid ==> s[j].domain@ != s[i].domain@
}

pub open spec fn count_domains(s: Seq<UrlNode>, cid: Seq<char>) -> int
    decreases s.len(),
{
    if s.len() == 0 {
        0
    } else {
        count_domains(s.drop_last(), cid) + if fresh_domain(s, cid, s.len() - 1) {
            1int
        } else {
            0int
        }
    }
}

pub proof fn lemma_count_domains_bounds(s: Seq<UrlNode>, cid: Seq<char>)
    ensures
        0 <= count_domains(s, cid) <= s.len(),
    decreases s.len(),
{
    if s.len() > 0 {
        lemma_count_domains_bounds(s.drop_last(), cid);
        assert(count_domains(s.drop_last(), cid) <= s.len() - 1);
    }
}

/// The deepest `current_depth` any URL of the crawl reached, zero with none.
pub open spec fn max_depth_reached(s: Seq<UrlNode>, cid: Seq<char>) -> int
    decreases s.len(),
{
    if s.len() == 0 {
        0
    } else {
        let m = max_depth_reached(s.drop_last(), cid);
        if s.last().crawl_id@ == cid && s.last().current_depth > m {
            s.last().current_depth as int
        } else {
            m
        }
    }
}

/// Count the crawl's distinct domains: a URL counts when no earlier URL of
/// the crawl already named its domain.
fn unique_domains(store: &GraphStore, crawl_id: &str) -> (r: i64)
    requires
        store.wf(),
    ensures
        r == count_domains(store.urls@, crawl_id@),
{
    let n = store.urls.len();
    let mut cnt: i64 = 0;
    let mut i: usize = 0;
    while i < n
        invariant
            i <= n,
            n == store.urls@.len(),
            store.wf(),
            cnt == count_domains(store.urls@.take(i as int), crawl_id@),
        decreases n - i,
    {
        proof {
            lemma_count_domains_bounds(store.urls@.take(i as int), crawl_id@);
            assert(store.urls@.take(i + 1 as int).drop_last() =~= store.urls@.take(i as int));
            assert(store.urls@.take(i + 1 as int).last() == store.urls@[i as int]);
        }
        let node = &store.urls[i];
        if str_eq(node.crawl_id.as_str(), crawl_id) {
            let mut seen = false;
            let mut j: usize = 0;
            while j < i
                invariant
                    j <= i <= n,
                    n == store.urls@.len(),
                    i < n,
                    node == &store.urls@[i as int],
                    seen == exists|k: int|
                        0 <= k < j && (#[trigger] store.urls@[k]).crawl_id@
                            == store.urls@[i as int].crawl_id@ && store.urls@[k].domain@
                            == store.urls@[i as int].domain@,
                decreases i - j,
            {
                let other = &store.urls[j];
                if !seen && other.crawl_id == node.crawl_id && other.domain == node.domain {
                    seen = true;
                }
                j += 1;
            }
            if !seen {
                cnt += 1;
                proof {
                    assert(fresh_domain(store.urls@.take(i + 1 as int), crawl_id@, i as int));
                }
            } else {
                proof {
                    let k = choose|k: int|
                        0 <= k < i && (#[trigger] store.urls@[k]).crawl_id@
                            == store.urls@[i as int].crawl_id@ && store.urls@[k].domain@
                            == store.urls@[i as int].domain@;
                    assert(store.urls@.take(i + 1 as int)[k] == store.urls@[k]);
                    assert(!fresh_domain(store.urls@.take(i + 1 as int), crawl_id@, i as int));
                }
            }
        } else {
            proof {
                assert(!fresh_domain(store.urls@.take(i + 1 as int), crawl_id@, i as int));
            }
        }
        i += 1;
    }
    proof {
        assert(store.urls@.take(n as int) =~= store.urls@);
    }
    cnt
}

/// The deepest depth any URL of the crawl reached.
fn deepest(store: &GraphStore, crawl_id: &str) -> (r: i64)
    requires
        store.wf(),
    ensures
        r == max_depth_reached(store.urls@, crawl_id@),
{
    let n = store.urls.len();
    let mut m: i64 = 0;
    let mut i: usize = 0;
    while i < n
        invariant
            i <= n,
            n == store.urls@.len(),
            store.wf(),
            m == max_depth_reached(store.urls@.take(i as int), crawl_id@),
        decreases n - i,
    {
        proof {
            assert(store.urls@.take(i + 1 as int).drop_last() =~= store.urls@.take(i as int));
            assert(store.urls@.take(i + 1 as int).last() == store.urls@[i as int]);
        }
        let node = &store.urls[i];
        if str_eq(node.crawl_id.as_str(), crawl_id) && node.current_depth > m {
            m = node.current_depth;
        }
        i += 1;
    }
    proof {
        assert(store.urls@.take(n as int) =~= store.urls@);
    }
    m
}

/// A statistics report's fields match the store for this crawl.
pub open spec fn stats_matches(st: CrawlStats, urls: Seq<UrlNode>, cid: Seq<char>) -> bool {
    &&& st.crawl_id@ == cid
    &&& st.total_urls == count_in_crawl(urls, cid)
    &&& st.unique_domains == count_domains(urls, cid)
    &&& st.max_depth_reached == max_depth_reached(urls, cid)
    &&& st.status_counts.pending == count_status(urls, cid, JobStatus::Pending)
    &&& st.status_counts.in_progress == count_status(urls, cid, JobStatus::InProgress)
    &&& st.status_counts.completed == count_status(urls, cid, JobStatus::Completed)
    &&& st.status_counts.failed == count_status(urls, cid, JobStatus::Failed)
    &&& st.status_counts.cancelled == count_status(urls, cid, JobStatus::Cancelled)
}

/// The aggregate statistics of one crawl: totals, per-status counts, the
/// number of distinct domains, and the deepest depth reached. `None` when no
/// such crawl exists.
pub fn get_crawl_stats(store: &GraphStore, crawl_id: &str) -> (r: Option<CrawlStats>)
    requires
        store.wf(),
    ensures
        r is None ==> !store.has_root(crawl_id@),
        r is Some ==> store.has_root(crawl_id@) && stats_matches(r->0, store.urls@, crawl_id@),
{
    if store.find_root_index(crawl_id).is_none() {
        return None;
    }
    let (total, counts) = crawl_counts(store, crawl_id);
    let stats = CrawlStats {
        crawl_id: String::from_str(crawl_id),
        total_urls: total,
        unique_domains: unique_domains(store, crawl_id),
        max_depth_reached: deepest(store, crawl_id),
        status_counts: counts,
    };
    let result = Some(stats);
    proof {
        assert(stats_matches(result->0, store.urls@, crawl_id@));
    }
    result
}

} // verus!
