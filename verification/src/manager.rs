//! The manager's decisions: request validation, the window of the crawl
//! list, and seeding a crawl under a freshly generated crawl id. The fetch
//! and DNS work happens at the caller; seeding takes their results as plain
//! values and writes the ROOT and its depth-one children in one transaction.

use vstd::prelude::*;

use crate::dns::NetworkStats;
use crate::error::CrawlerError;
use crate::store::{CreateCrawlParams, GraphStore, JobStatus};

verus! {

/// A crawl request: the seed URL and how many hops to follow.
pub struct CrawlRequest {
    pub url: String,
    pub depth: i64,
}

/// The answer to an accepted crawl request.
pub struct CrawlResponse {
    pub crawl_id: String,
    pub status: String,
}

pub const MAX_CRAWL_DEPTH: i64 = 5;

/// A depth is acceptable between one and `MAX_CRAWL_DEPTH` hops.
pub fn validate_depth(depth: i64) -> (r: bool)
    ensures
        r == (1 <= depth <= MAX_CRAWL_DEPTH),
{
    1 <= depth && depth <= MAX_CRAWL_DEPTH
}

/// The list window: `limit` defaults to 20 and is clamped into `0..=100`,
/// `offset` defaults to 0 and is floored at 0.
pub open spec fn window_spec(limit: Option<i64>, offset: Option<i64>) -> (i64, i64) {
    let l = match limit {
        None => 20,
        Some(l) => l,
    };
    let o = match offset {
        None => 0,
        Some(o) => o,
    };
    (
        if l < 0 {
            0
        } else if l > 100 {
            100
        } else {
            l
        },
        if o < 0 {
            0
        } else {
            o
        },
    )
}

/// Clamp the list parameters, as `window_spec` says.
pub fn list_window(limit: Option<i64>, offset: Option<i64>) -> (r: (i64, i64))
    ensures
        r == window_spec(limit, offset),
{
    let l = match limit {
        None => 20,
        Some(l) => l,
    };
    let o = match offset {
        None => 0,
        Some(o) => o,
    };
    let l = if l < 0 {
        0
    } else if l > 100 {
        100
    } else {
        l
    };
    let o = if o < 0 {
        0
    } else {
        o
    };
    (l, o)
}

/// A fresh, globally unique crawl id.
///
/// Relies on `uuid::Uuid::new_v4` and the `Display` form of `Uuid`: a random
/// version-4 UUID, written hyphenated as 36 characters. Uniqueness is
/// overwhelmingly likely but not a fact of the arguments, so no contract
/// claims it: the caller checks the store before using the id.
#[verifier::external_body]
fn new_crawl_id() -> (r: String)
    ensures
        r@.len() == 36,
{
    uuid::Uuid::new_v4().to_string()
}

/// Seed a crawl: generate a crawl id, and create the ROOT (from the
/// normalized seed URL and its resolved stats) and every resolved depth-one
/// child in one transaction. The children arrive as
/// `(name, ip, domain, http_type)` tuples. In the vanishingly rare case that
/// the generated id already names a crawl, nothing is written and an error
/// comes back.
pub fn seed_crawl(
    store: &mut GraphStore,
    root_name: &String,
    http_type: &String,
    root_stats: &NetworkStats,
    depth: i64,
    request_time: &String,
    children: &Vec<(String, String, String, String)>,
) -> (r: Result<CrawlResponse, CrawlerError>)
    requires
        old(store).wf(),
        1 <= depth <= 5,
        old(store).urls@.len() + children@.len() <= 0x7fff_ffff_ffff_ffff,
        old(store).roots@.len() + 1 <= 0x7fff_ffff_ffff_ffff,
    ensures
        final(store).wf(),
        r is Err ==> *final(store) == *old(store),
        r is Ok ==> ({
            let resp = r->Ok_0;
            let cid = resp.crawl_id@;
            &&& resp.status@ == "running"@
            &&& cid.len() == 36
            &&& !old(store).has_root(cid)
            &&& final(store).has_root(cid)
            // one new ROOT, carrying the request's values
            &&& final(store).roots@.len() == old(store).roots@.len() + 1
            &&& old(store).roots@.is_prefix_of(final(store).roots@)
            &&& ({
                let root = final(store).roots@.last();
                &&& root.crawl_id@ == cid
                &&& root.name@ == root_name@
                &&& root.http_type@ == http_type@
                &&& root.ip@ == root_stats.ip@
                &&& root.domain@ == root_stats.domain@
                &&& root.requested_depth == depth
            })
            // nothing that was there changes; every new node is a depth-one
            // child of this request
            &&& old(store).urls@.is_prefix_of(final(store).urls@)
            &&& old(store).leads@.is_prefix_of(final(store).leads@)
            &&& final(store).urls@.len() <= old(store).urls@.len() + children@.len()
            &&& forall|k: int|
                0 <= k < children@.len() ==> final(store).has_url(
                    cid,
                    (#[trigger] children@[k]).0@,
                    children@[k].3@,
                )
            // a crawl of depth one is born complete
            &&& depth == 1 ==> forall|i: int|
                0 <= i < final(store).urls@.len() && (#[trigger] final(store).urls@[i]).crawl_id@
                    == cid ==> final(store).urls@[i].job_status == JobStatus::Completed
            &&& depth == 1 ==> crate::lifecycle::crawl_completed(final(store).urls@, cid)
        }),
{
    let crawl_id = new_crawl_id();
    if store.find_root_index(crawl_id.as_str()).is_some() {
        return Err(
            CrawlerError::Neo4jQuery { message: String::from_str("crawl id already in use") },
        );
    }
    proof {
        // a crawl without a ROOT has no URLs either
        assert(!store.has_url_of_crawl(crawl_id@)) by {
            if store.has_url_of_crawl(crawl_id@) {
                let i = choose|i: int|
                    0 <= i < store.urls@.len() && (#[trigger] store.urls@[i]).crawl_id@
                        == crawl_id@;
                assert(store.has_root(store.urls@[i].crawl_id@));
            }
        }
    }
    let mut kid_tuples: Vec<(String, String, String, String)> = Vec::new();
    let m = children.len();
    let mut k: usize = 0;
    while k < m
        invariant
            k <= m,
            m == children@.len(),
            kid_tuples@.len() == k,
            forall|j: int| 0 <= j < k ==> #[trigger] kid_tuples@[j] == children@[j],
        decreases m - k,
    {
        let t = (
            children[k].0.clone(),
            children[k].1.clone(),
            children[k].2.clone(),
            children[k].3.clone(),
        );
        proof {
            assert(t == children@[k as int]);
        }
        kid_tuples.push(t);
        k += 1;
    }
    proof {
        assert(kid_tuples@ =~= children@);
    }
    let params = CreateCrawlParams {
        crawl_id: crawl_id.clone(),
        root_name: root_name.clone(),
        root_ip: root_stats.ip.clone(),
        root_domain: root_stats.domain.clone(),
        http_type: http_type.clone(),
        depth,
        request_time: request_time.clone(),
        children: kid_tuples,
    };
    store.create_crawl_graph(&params);
    proof {
        if depth == 1 {
            crate::lifecycle::lemma_count_status_zero(store.urls@, crawl_id@, JobStatus::Pending);
            crate::lifecycle::lemma_count_status_zero(
                store.urls@,
                crawl_id@,
                JobStatus::InProgress,
            );
        }
    }
    let result = Ok(CrawlResponse { crawl_id, status: String::from_str("running") });
    result
}

} // verus!
