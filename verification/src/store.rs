//! The graph data model and its state-changing operations: URL nodes, ROOT
//! nodes, Lead edges, and the job-claiming protocol. `GraphStore` is the
//! in-memory model of the store all workers coordinate through; every
//! operation's contract describes exactly which nodes change and how, so the
//! data-model invariants are preserved by construction.

use vstd::prelude::*;

use crate::text::str_eq;

verus! {

/// The state of one URL job.
#[derive(Clone, Copy, PartialEq, Eq, Structural, Debug)]
pub enum JobStatus {
    Pending,
    InProgress,
    Completed,
    Failed,
    Cancelled,
}

/// A URL node: one unit of crawl work, unique by `(crawl_id, name, http_type)`.
#[derive(Clone, Debug)]
pub struct UrlNode {
    pub crawl_id: String,
    pub name: String,
    pub http_type: String,
    pub ip: String,
    pub domain: String,
    pub requested_depth: i64,
    pub current_depth: i64,
    pub job_status: JobStatus,
    pub attempts: i64,
    pub request_time: String,
    pub claimed_at: Option<i64>,
}

/// A ROOT node: one per crawl, unique by `crawl_id`.
#[derive(Clone, Debug)]
pub struct RootNode {
    pub crawl_id: String,
    pub name: String,
    pub http_type: String,
    pub ip: String,
    pub domain: String,
    pub requested_depth: i64,
    pub request_time: String,
}

/// A directed Lead edge between two node ids (`http_type + name`), tagged
/// with the crawl its child belongs to.
#[derive(Clone, Debug)]
pub struct LeadEdge {
    pub crawl_id: String,
    pub source: String,
    pub target: String,
}

/// A claimed URL job, as handed to a feeder.
#[derive(Clone, Debug)]
pub struct UrlJob {
    pub name: String,
    pub http_type: String,
    pub job_status: JobStatus,
    pub requested_depth: i64,
    pub current_depth: i64,
    pub attempts: Option<i64>,
    pub crawl_id: String,
}

/// The graph store model: all coordination state of every crawl.
pub struct GraphStore {
    pub roots: Vec<RootNode>,
    pub urls: Vec<UrlNode>,
    pub leads: Vec<LeadEdge>,
}

pub open spec fn url_node_ok(n: UrlNode) -> bool {
    &&& 1 <= n.requested_depth <= 5
    &&& 1 <= n.current_depth <= n.requested_depth
    &&& n.attempts >= 0
    &&& n.job_status == JobStatus::InProgress ==> n.claimed_at is Some
    &&& n.claimed_at is Some ==> n.claimed_at->0 >= 0
}

pub open spec fn root_node_ok(r: RootNode) -> bool {
    1 <= r.requested_depth <= 5
}

/// Two URL nodes denote the same URL: equal `(crawl_id, name, http_type)`.
pub open spec fn same_url_key(a: UrlNode, b: UrlNode) -> bool {
    a.crawl_id@ == b.crawl_id@ && a.name@ == b.name@ && a.http_type@ == b.http_type@
}

pub open spec fn url_key_is(n: UrlNode, crawl_id: Seq<char>, name: Seq<char>, http_type: Seq<char>) -> bool {
    n.crawl_id@ == crawl_id && n.name@ == name && n.http_type@ == http_type
}

/// Some node of the sequence carries this `(crawl_id, name, http_type)` key.
pub open spec fn seq_has_url(
    s: Seq<UrlNode>,
    crawl_id: Seq<char>,
    name: Seq<char>,
    http_type: Seq<char>,
) -> bool {
    exists|i: int| 0 <= i < s.len() && url_key_is(#[trigger] s[i], crawl_id, name, http_type)
}

/// A URL key stays present when the node sequence is extended.
pub proof fn lemma_seq_has_url_extend(
    pre: Seq<UrlNode>,
    post: Seq<UrlNode>,
    crawl_id: Seq<char>,
    name: Seq<char>,
    http_type: Seq<char>,
)
    requires
        pre.is_prefix_of(post),
        seq_has_url(pre, crawl_id, name, http_type),
    ensures
        seq_has_url(post, crawl_id, name, http_type),
{
    let i = choose|i: int| 0 <= i < pre.len() && url_key_is(#[trigger] pre[i], crawl_id, name, http_type);
    assert(post[i] == pre[i]);
    assert(url_key_is(post[i], crawl_id, name, http_type));
}

/// A Lead edge stays present when the edge sequence is extended.
pub proof fn lemma_has_lead_extend(
    pre: Seq<LeadEdge>,
    post: Seq<LeadEdge>,
    cid: Seq<char>,
    src: Seq<char>,
    tgt: Seq<char>,
)
    requires
        pre.is_prefix_of(post),
        has_lead(pre, cid, src, tgt),
    ensures
        has_lead(post, cid, src, tgt),
{
    let e = choose|e: int| 0 <= e < pre.len() && lead_matches(#[trigger] pre[e], cid, src, tgt);
    assert(post[e] == pre[e]);
    assert(lead_matches(post[e], cid, src, tgt));
}

impl GraphStore {
    /// A ROOT with this crawl id exists.
    pub open spec fn has_root(self, crawl_id: Seq<char>) -> bool {
        exists|r: int| 0 <= r < self.roots@.len() && self.roots@[r].crawl_id@ == crawl_id
    }

    /// A URL with this `(crawl_id, name, http_type)` key exists.
    pub open spec fn has_url(self, crawl_id: Seq<char>, name: Seq<char>, http_type: Seq<char>) -> bool {
        seq_has_url(self.urls@, crawl_id, name, http_type)
    }

    /// Some URL of this crawl exists.
    pub open spec fn has_url_of_crawl(self, crawl_id: Seq<char>) -> bool {
        exists|i: int| 0 <= i < self.urls@.len() && self.urls@[i].crawl_id@ == crawl_id
    }

    /// Well-formedness: the data-model invariants.
    /// Every URL node is internally consistent (`current_depth` bounded by
    /// `requested_depth`, a claimed timestamp whenever the job is
    /// `InProgress`), URLs are unique by `(crawl_id, name, http_type)`,
    /// ROOTs are unique by `crawl_id`, and every URL's crawl has a ROOT.
    pub open spec fn wf(self) -> bool {
        &&& forall|i: int| 0 <= i < self.urls@.len() ==> url_node_ok(#[trigger] self.urls@[i])
        &&& forall|r: int| 0 <= r < self.roots@.len() ==> root_node_ok(#[trigger] self.roots@[r])
        &&& forall|i: int, j: int|
            0 <= i < j < self.urls@.len() ==> !same_url_key(
                #[trigger] self.urls@[i],
                #[trigger] self.urls@[j],
            )
        &&& forall|r1: int, r2: int|
            0 <= r1 < r2 < self.roots@.len() ==> (#[trigger] self.roots@[r1]).crawl_id@ != (
            #[trigger] self.roots@[r2]).crawl_id@
        &&& forall|i: int|
            0 <= i < self.urls@.len() ==> self.has_root((#[trigger] self.urls@[i]).crawl_id@)
        &&& self.urls@.len() <= 0x7fff_ffff_ffff_ffff
        &&& self.roots@.len() <= 0x7fff_ffff_ffff_ffff
    }

    /// An empty store.
    pub fn new() -> (r: GraphStore)
        ensures
            r.wf(),
            r.roots@.len() == 0,
            r.urls@.len() == 0,
            r.leads@.len() == 0,
    {
        GraphStore { roots: Vec::new(), urls: Vec::new(), leads: Vec::new() }
    }
}

/// In a well-formed store every URL node respects the data model: its depth
/// never exceeds the requested depth, and an in-progress job always carries
/// its claim timestamp.
pub proof fn lemma_url_node_invariants(s: GraphStore, i: int)
    requires
        s.wf(),
        0 <= i < s.urls@.len(),
    ensures
        s.urls@[i].current_depth <= s.urls@[i].requested_depth,
        s.urls@[i].job_status == JobStatus::InProgress ==> s.urls@[i].claimed_at is Some,
        s.urls@[i].attempts >= 0,
{
}

/// In a well-formed store every URL has exactly one ROOT with its crawl id.
pub proof fn lemma_exactly_one_root(s: GraphStore, i: int)
    requires
        s.wf(),
        0 <= i < s.urls@.len(),
    ensures
        s.has_root(s.urls@[i].crawl_id@),
        forall|r1: int, r2: int|
            0 <= r1 < s.roots@.len() && 0 <= r2 < s.roots@.len() && (#[trigger] s.roots@[r1]).crawl_id@
                == s.urls@[i].crawl_id@ && (#[trigger] s.roots@[r2]).crawl_id@
                == s.urls@[i].crawl_id@ ==> r1 == r2,
{
    assert forall|r1: int, r2: int|
        0 <= r1 < s.roots@.len() && 0 <= r2 < s.roots@.len() && (#[trigger] s.roots@[r1]).crawl_id@
            == s.urls@[i].crawl_id@ && (#[trigger] s.roots@[r2]).crawl_id@
            == s.urls@[i].crawl_id@ implies r1 == r2 by {
        if r1 < r2 {
            assert(s.roots@[r1].crawl_id@ != s.roots@[r2].crawl_id@);
        }
        if r2 < r1 {
            assert(s.roots@[r2].crawl_id@ != s.roots@[r1].crawl_id@);
        }
    }
}

/// A job a feeder may take because it is fresh work.
pub open spec fn pending_eligible(n: UrlNode) -> bool {
    n.job_status == JobStatus::Pending && n.current_depth != n.requested_depth
}

/// A job a feeder may reclaim because its claim went stale: the worker that
/// claimed it has been silent past the stale timeout.
pub open spec fn stale_eligible(n: UrlNode, now: i64, stale_timeout: i64) -> bool {
    &&& n.job_status == JobStatus::InProgress
    &&& n.claimed_at is Some
    &&& now > n.claimed_at->0 + stale_timeout
    &&& n.current_depth != n.requested_depth
}

pub open spec fn eligible(n: UrlNode, now: i64, stale_timeout: i64) -> bool {
    pending_eligible(n) || stale_eligible(n, now, stale_timeout)
}

/// The node as it looks right after a claim.
pub open spec fn claimed_node(n: UrlNode, now: i64) -> UrlNode {
    UrlNode { job_status: JobStatus::InProgress, claimed_at: Some(now), ..n }
}

/// The first pending-eligible index at or after `k`.
pub open spec fn first_pending_from(s: Seq<UrlNode>, k: int) -> Option<int>
    decreases s.len() - k,
{
    if k < 0 || k >= s.len() {
        None
    } else if pending_eligible(s[k]) {
        Some(k)
    } else {
        first_pending_from(s, k + 1)
    }
}

/// The first stale-eligible index at or after `k`.
pub open spec fn first_stale_from(s: Seq<UrlNode>, k: int, now: i64, stale_timeout: i64) -> Option<
    int,
>
    decreases s.len() - k,
{
    if k < 0 || k >= s.len() {
        None
    } else if stale_eligible(s[k], now, stale_timeout) {
        Some(k)
    } else {
        first_stale_from(s, k + 1, now, stale_timeout)
    }
}

/// The index `claim_next_job` picks: the first pending job, else the first
/// stale one — fresh work is preferred over reclaims.
pub open spec fn claim_index(s: Seq<UrlNode>, now: i64, stale_timeout: i64) -> Option<int> {
    match first_pending_from(s, 0) {
        Some(i) => Some(i),
        None => first_stale_from(s, 0, now, stale_timeout),
    }
}

pub proof fn lemma_first_pending_from(s: Seq<UrlNode>, k: int)
    requires
        0 <= k,
    ensures
        match first_pending_from(s, k) {
            Some(i) => k <= i < s.len() && pending_eligible(s[i]) && (forall|j: int|
                k <= j < i ==> !pending_eligible(s[j])),
            None => forall|j: int| k <= j < s.len() ==> !pending_eligible(s[j]),
        },
    decreases s.len() - k,
{
    if 0 <= k < s.len() && !pending_eligible(s[k]) {
        lemma_first_pending_from(s, k + 1);
    }
}

pub proof fn lemma_first_stale_from(s: Seq<UrlNode>, k: int, now: i64, stale_timeout: i64)
    requires
        0 <= k,
    ensures
        match first_stale_from(s, k, now, stale_timeout) {
            Some(i) => k <= i < s.len() && stale_eligible(s[i], now, stale_timeout) && (forall|
                j: int,
            |
                k <= j < i ==> !stale_eligible(s[j], now, stale_timeout)),
            None => forall|j: int| k <= j < s.len() ==> !stale_eligible(s[j], now, stale_timeout),
        },
    decreases s.len() - k,
{
    if 0 <= k < s.len() && !stale_eligible(s[k], now, stale_timeout) {
        lemma_first_stale_from(s, k + 1, now, stale_timeout);
    }
}

/// A store holding a stale claim always hands out a job: a claim can never
/// return empty while a crashed worker's job is waiting.
pub proof fn lemma_stale_job_reclaimable(s: Seq<UrlNode>, i: int, now: i64, stale_timeout: i64)
    requires
        0 <= i < s.len(),
        stale_eligible(s[i], now, stale_timeout),
    ensures
        claim_index(s, now, stale_timeout) is Some,
{
    lemma_first_pending_from(s, 0);
    lemma_first_stale_from(s, 0, now, stale_timeout);
}

/// The claimed job carries the node's fields, with the status it has after
/// the claim.
pub open spec fn job_of_node(j: UrlJob, n: UrlNode) -> bool {
    &&& j.name@ == n.name@
    &&& j.http_type@ == n.http_type@
    &&& j.crawl_id@ == n.crawl_id@
    &&& j.requested_depth == n.requested_depth
    &&& j.current_depth == n.current_depth
    &&& j.attempts == Some(n.attempts)
    &&& j.job_status == JobStatus::InProgress
}

/// One atomic claim transition, as any conforming store implementation may
/// perform it: some eligible node, and only that node, moves to
/// `InProgress` with a fresh claim timestamp.
pub open spec fn claim_step(
    pre: Seq<UrlNode>,
    post: Seq<UrlNode>,
    pick: int,
    now: i64,
    stale_timeout: i64,
) -> bool {
    &&& 0 <= pick < pre.len()
    &&& eligible(pre[pick], now, stale_timeout)
    &&& post == pre.update(pick, claimed_node(pre[pick], now))
}

impl GraphStore {
    /// Atomically claim one URL job: select the first eligible node
    /// (pending preferred over stale), mark it `InProgress` with
    /// `claimed_at = now`, and return its fields. Returns `None` exactly
    /// when no node is eligible.
    pub fn fetch_job(&mut self, now: i64, stale_timeout: i64) -> (r: Option<UrlJob>)
        requires
            old(self).wf(),
            now >= 0,
            stale_timeout >= 0,
        ensures
            final(self).wf(),
            final(self).roots == old(self).roots,
            final(self).leads == old(self).leads,
            match claim_index(old(self).urls@, now, stale_timeout) {
                None => r is None && final(self).urls == old(self).urls,
                Some(i) => {
                    &&& r is Some
                    &&& claim_step(old(self).urls@, final(self).urls@, i, now, stale_timeout)
                    &&& job_of_node(r->0, old(self).urls@[i])
                    &&& (first_pending_from(old(self).urls@, 0) is Some ==> pending_eligible(
                        old(self).urls@[i],
                    ))
                },
            },
            // no eligible job is ever missed, and nothing is invented
            r is Some <==> exists|i: int|
                0 <= i < old(self).urls@.len() && eligible(
                    #[trigger] old(self).urls@[i],
                    now,
                    stale_timeout,
                ),
    {
        proof {
            lemma_first_pending_from(old(self).urls@, 0);
            lemma_first_stale_from(old(self).urls@, 0, now, stale_timeout);
        }
        let n = self.urls.len();
        let mut pick: Option<usize> = None;
        let mut i: usize = 0;
        while i < n
            invariant
                i <= n,
                n == self.urls@.len(),
                *self == *old(self),
                match pick {
                    Some(p) => first_pending_from(self.urls@, 0) == Some(p as int),
                    None => first_pending_from(self.urls@, 0) == first_pending_from(
                        self.urls@,
                        i as int,
                    ),
                },
            decreases n - i,
        {
            if pick.is_none() {
                let node = &self.urls[i];
                if matches!(node.job_status, JobStatus::Pending) && node.current_depth
                    != node.requested_depth {
                    pick = Some(i);
                    proof {
                        assert(first_pending_from(self.urls@, i as int) == Some(i as int));
                    }
                }
            }
            i += 1;
        }
        if pick.is_none() {
            proof {
                assert(first_pending_from(self.urls@, 0) is None);
            }
            let mut k: usize = 0;
            while k < n
                invariant
                    k <= n,
                    n == self.urls@.len(),
                    *self == *old(self),
                    old(self).wf(),
                    now >= 0,
                    stale_timeout >= 0,
                    first_pending_from(self.urls@, 0) is None,
                    match pick {
                        Some(p) => first_stale_from(self.urls@, 0, now, stale_timeout) == Some(
                            p as int,
                        ),
                        None => first_stale_from(self.urls@, 0, now, stale_timeout)
                            == first_stale_from(self.urls@, k as int, now, stale_timeout),
                    },
                decreases n - k,
            {
                if pick.is_none() {
                    let node = &self.urls[k];
                    let mut stale: bool = false;
                    if matches!(node.job_status, JobStatus::InProgress) && node.current_depth
                        != node.requested_depth {
                        stale = match node.claimed_at {
                            Some(t) => t >= 0 && t <= now && now - t > stale_timeout,
                            None => false,
                        };
                    }
                    proof {
                        assert(stale == stale_eligible(self.urls@[k as int], now, stale_timeout));
                    }
                    if stale {
                        pick = Some(k);
                        proof {
                            assert(first_stale_from(self.urls@, k as int, now, stale_timeout)
                                == Some(k as int));
                        }
                    }
                }
                k += 1;
            }
        }
        match pick {
            None => None,
            Some(idx) => {
                proof {
                    assert(claim_index(self.urls@, now, stale_timeout) == Some(idx as int));
                    lemma_first_pending_from(self.urls@, 0);
                    lemma_first_stale_from(self.urls@, 0, now, stale_timeout);
                    assert(eligible(self.urls@[idx as int], now, stale_timeout));
                }
                let job = UrlJob {
                    name: self.urls[idx].name.clone(),
                    http_type: self.urls[idx].http_type.clone(),
                    job_status: JobStatus::InProgress,
                    requested_depth: self.urls[idx].requested_depth,
                    current_depth: self.urls[idx].current_depth,
                    attempts: Some(self.urls[idx].attempts),
                    crawl_id: self.urls[idx].crawl_id.clone(),
                };
                self.urls[idx].job_status = JobStatus::InProgress;
                self.urls[idx].claimed_at = Some(now);
                proof {
                    let u1 = old(self).urls@;
                    let u2 = self.urls@;
                    let ii = idx as int;
                    assert(u2[ii] == claimed_node(u1[ii], now));
                    assert(u2 =~= u1.update(ii, claimed_node(u1[ii], now)));
                    assert forall|a: int| 0 <= a < u2.len() implies url_node_ok(
                        #[trigger] u2[a],
                    ) by {
                        if a != ii {
                            assert(u2[a] == u1[a]);
                        }
                    }
                    assert forall|a: int| 0 <= a < u2.len() implies self.has_root(
                        (#[trigger] u2[a]).crawl_id@,
                    ) by {
                        assert(u2[a].crawl_id@ == u1[a].crawl_id@);
                        assert(old(self).has_root(u1[a].crawl_id@));
                        let r = choose|r: int|
                            0 <= r < old(self).roots@.len() && old(self).roots@[r].crawl_id@
                                == u1[a].crawl_id@;
                        assert(self.roots@[r].crawl_id@ == u2[a].crawl_id@);
                    }
                    assert forall|a: int, b: int| 0 <= a < b < u2.len() implies !same_url_key(
                        #[trigger] u2[a],
                        #[trigger] u2[b],
                    ) by {
                        assert(!same_url_key(u1[a], u1[b]));
                    }
                }
                Some(job)
            },
        }
    }
}

/// The node a feeder's status write addresses: same URL triple and the same
/// `current_depth`.
pub open spec fn job_key_matches(n: UrlNode, job: UrlJob) -> bool {
    &&& n.name@ == job.name@
    &&& n.http_type@ == job.http_type@
    &&& n.current_depth == job.current_depth
    &&& n.crawl_id@ == job.crawl_id@
}

/// The node carries the job's URL triple `(crawl_id, name, http_type)`.
pub open spec fn job_triple_matches(n: UrlNode, job: UrlJob) -> bool {
    &&& n.name@ == job.name@
    &&& n.http_type@ == job.http_type@
    &&& n.crawl_id@ == job.crawl_id@
}

pub open spec fn with_status(n: UrlNode, status: JobStatus, attempts: i64) -> UrlNode {
    UrlNode { job_status: status, attempts, ..n }
}

pub open spec fn reset_node(n: UrlNode) -> UrlNode {
    UrlNode { job_status: JobStatus::Pending, claimed_at: None, ..n }
}

pub open spec fn cancelled_node(n: UrlNode) -> UrlNode {
    UrlNode { job_status: JobStatus::Cancelled, ..n }
}

impl GraphStore {
    /// Write `job_status` and `attempts` on the URL the job addresses.
    /// A `Cancelled` node is terminal and is left untouched, so a crawl
    /// cancelled while its job was in flight stays cancelled.
    pub fn update_job_status(&mut self, job: &UrlJob, status: JobStatus, attempts: i64)
        requires
            old(self).wf(),
            status != JobStatus::InProgress,
            attempts >= 0,
        ensures
            final(self).wf(),
            final(self).roots == old(self).roots,
            final(self).leads == old(self).leads,
            final(self).urls@.len() == old(self).urls@.len(),
            forall|i: int|
                0 <= i < old(self).urls@.len() ==> final(self).urls@[i] == (
                if job_key_matches(#[trigger] old(self).urls@[i], *job) && old(self).urls@[i].job_status
                    != JobStatus::Cancelled {
                    with_status(old(self).urls@[i], status, attempts)
                } else {
                    old(self).urls@[i]
                }),
    {
        let n = self.urls.len();
        let mut i: usize = 0;
        while i < n
            invariant
                i <= n,
                n == self.urls@.len() == old(self).urls@.len(),
                self.roots == old(self).roots,
                self.leads == old(self).leads,
                old(self).wf(),
                attempts >= 0,
                status != JobStatus::InProgress,
                forall|j: int|
                    0 <= j < n ==> self.urls@[j] == (
                    if j < i && job_key_matches(#[trigger] old(self).urls@[j], *job) && old(
                        self,
                    ).urls@[j].job_status != JobStatus::Cancelled {
                        with_status(old(self).urls@[j], status, attempts)
                    } else {
                        old(self).urls@[j]
                    }),
            decreases n - i,
        {
            let node = &self.urls[i];
            if node.name == job.name && node.http_type == job.http_type && node.current_depth
                == job.current_depth && node.crawl_id == job.crawl_id && !matches!(
                node.job_status,
                JobStatus::Cancelled,
            ) {
                self.urls[i].job_status = status;
                self.urls[i].attempts = attempts;
                proof {
                    assert(self.urls@[i as int] == with_status(
                        old(self).urls@[i as int],
                        status,
                        attempts,
                    ));
                }
            }
            i += 1;
        }
        proof {
            lemma_same_keys_preserve_wf(*old(self), *self);
        }
    }

    /// Release a claim on graceful shutdown: put the job back to `Pending`
    /// and clear `claimed_at`, but only while it is still `InProgress`, so a
    /// write that raced with another worker's update is a no-op.
    pub fn reset_to_pending(&mut self, job: &UrlJob)
        requires
            old(self).wf(),
        ensures
            final(self).wf(),
            final(self).roots == old(self).roots,
            final(self).leads == old(self).leads,
            final(self).urls@.len() == old(self).urls@.len(),
            forall|i: int|
                0 <= i < old(self).urls@.len() ==> final(self).urls@[i] == (
                if job_triple_matches(#[trigger] old(self).urls@[i], *job) && old(
                    self,
                ).urls@[i].job_status == JobStatus::InProgress {
                    reset_node(old(self).urls@[i])
                } else {
                    old(self).urls@[i]
                }),
    {
        let n = self.urls.len();
        let mut i: usize = 0;
        while i < n
            invariant
                i <= n,
                n == self.urls@.len() == old(self).urls@.len(),
                self.roots == old(self).roots,
                self.leads == old(self).leads,
                old(self).wf(),
                forall|j: int|
                    0 <= j < n ==> self.urls@[j] == (
                    if j < i && job_triple_matches(#[trigger] old(self).urls@[j], *job) && old(
                        self,
                    ).urls@[j].job_status == JobStatus::InProgress {
                        reset_node(old(self).urls@[j])
                    } else {
                        old(self).urls@[j]
                    }),
            decreases n - i,
        {
            let node = &self.urls[i];
            if node.name == job.name && node.http_type == job.http_type && node.crawl_id
                == job.crawl_id && matches!(node.job_status, JobStatus::InProgress) {
                self.urls[i].job_status = JobStatus::Pending;
                self.urls[i].claimed_at = None;
                proof {
                    assert(self.urls@[i as int] == reset_node(old(self).urls@[i as int]));
                }
            }
            i += 1;
        }
        proof {
            lemma_same_keys_preserve_wf(*old(self), *self);
        }
    }

    /// True exactly when the job's URL exists and its crawl has cancelled it.
    pub fn is_cancelled(&self, job: &UrlJob) -> (r: bool)
        ensures
            r == exists|i: int|
                0 <= i < self.urls@.len() && job_triple_matches(#[trigger] self.urls@[i], *job)
                    && self.urls@[i].job_status == JobStatus::Cancelled,
    {
        let n = self.urls.len();
        let mut i: usize = 0;
        while i < n
            invariant
                i <= n,
                n == self.urls@.len(),
                forall|j: int|
                    0 <= j < i ==> !(job_triple_matches(#[trigger] self.urls@[j], *job)
                        && self.urls@[j].job_status == JobStatus::Cancelled),
            decreases n - i,
        {
            let node = &self.urls[i];
            if node.name == job.name && node.http_type == job.http_type && node.crawl_id
                == job.crawl_id && matches!(node.job_status, JobStatus::Cancelled) {
                return true;
            }
            i += 1;
        }
        false
    }

    /// The index of the ROOT with this crawl id, if one exists.
    pub fn find_root_index(&self, crawl_id: &str) -> (r: Option<usize>)
        ensures
            match r {
                Some(i) => 0 <= i < self.roots@.len() && self.roots@[i as int].crawl_id@
                    == crawl_id@,
                None => !self.has_root(crawl_id@),
            },
    {
        let n = self.roots.len();
        let mut i: usize = 0;
        while i < n
            invariant
                i <= n,
                n == self.roots@.len(),
                forall|j: int| 0 <= j < i ==> (#[trigger] self.roots@[j]).crawl_id@ != crawl_id@,
            decreases n - i,
        {
            if str_eq(self.roots[i].crawl_id.as_str(), crawl_id) {
                return Some(i);
            }
            i += 1;
        }
        None
    }

    /// Cancel a crawl: every `Pending` or `InProgress` URL of the crawl
    /// becomes `Cancelled`; terminal URLs and other crawls are untouched.
    /// Returns false, changing nothing, when no such crawl exists.
    pub fn cancel_crawl(&mut self, crawl_id: &str) -> (r: bool)
        requires
            old(self).wf(),
        ensures
            final(self).wf(),
            final(self).roots == old(self).roots,
            final(self).leads == old(self).leads,
            final(self).urls@.len() == old(self).urls@.len(),
            r == old(self).has_root(crawl_id@),
            !r ==> final(self).urls == old(self).urls,
            forall|i: int|
                0 <= i < old(self).urls@.len() ==> final(self).urls@[i] == (
                if r && (#[trigger] old(self).urls@[i]).crawl_id@ == crawl_id@ && (old(
                    self,
                ).urls@[i].job_status == JobStatus::Pending || old(self).urls@[i].job_status
                    == JobStatus::InProgress) {
                    cancelled_node(old(self).urls@[i])
                } else {
                    old(self).urls@[i]
                }),
            // after cancellation no URL of the crawl is pending or in progress
            r ==> forall|i: int|
                0 <= i < final(self).urls@.len() && (#[trigger] final(self).urls@[i]).crawl_id@
                    == crawl_id@ ==> final(self).urls@[i].job_status != JobStatus::Pending
                    && final(self).urls@[i].job_status != JobStatus::InProgress,
    {
        if self.find_root_index(crawl_id).is_none() {
            return false;
        }
        let n = self.urls.len();
        let mut i: usize = 0;
        while i < n
            invariant
                i <= n,
                n == self.urls@.len() == old(self).urls@.len(),
                self.roots == old(self).roots,
                self.leads == old(self).leads,
                old(self).wf(),
                forall|j: int|
                    0 <= j < n ==> self.urls@[j] == (
                    if j < i && (#[trigger] old(self).urls@[j]).crawl_id@ == crawl_id@ && (old(
                        self,
                    ).urls@[j].job_status == JobStatus::Pending || old(self).urls@[j].job_status
                        == JobStatus::InProgress) {
                        cancelled_node(old(self).urls@[j])
                    } else {
                        old(self).urls@[j]
                    }),
            decreases n - i,
        {
            let node = &self.urls[i];
            if str_eq(node.crawl_id.as_str(), crawl_id) && (matches!(node.job_status, JobStatus::Pending)
                || matches!(node.job_status, JobStatus::InProgress)) {
                self.urls[i].job_status = JobStatus::Cancelled;
                proof {
                    assert(self.urls@[i as int] == cancelled_node(old(self).urls@[i as int]));
                }
            }
            i += 1;
        }
        proof {
            lemma_same_keys_preserve_wf(*old(self), *self);
            assert forall|j: int|
                0 <= j < self.urls@.len() && (#[trigger] self.urls@[j]).crawl_id@
                    == crawl_id@ implies self.urls@[j].job_status != JobStatus::Pending
                && self.urls@[j].job_status != JobStatus::InProgress by {
                let o = old(self).urls@[j];
                if o.crawl_id@ == crawl_id@ && (o.job_status == JobStatus::Pending || o.job_status
                    == JobStatus::InProgress) {
                    assert(self.urls@[j] == cancelled_node(o));
                } else {
                    assert(self.urls@[j] == o);
                }
            }
        }
        true
    }
}

/// A child URL about to be written, one hop below its parent.
#[derive(Clone, Debug)]
pub struct ChildNode {
    pub name: String,
    pub ip: String,
    pub domain: String,
    pub http_type: String,
    pub requested_depth: i64,
    pub current_depth: i64,
    pub request_time: String,
    pub crawl_id: String,
}

pub open spec fn child_ok(c: ChildNode) -> bool {
    &&& 1 <= c.requested_depth <= 5
    &&& 1 <= c.current_depth <= c.requested_depth
}

/// The URL node a child creates: `Completed` on arrival when it already sits
/// at the requested depth (it will never spawn children), else `Pending`.
pub open spec fn make_child_node(c: ChildNode) -> UrlNode {
    UrlNode {
        crawl_id: c.crawl_id,
        name: c.name,
        http_type: c.http_type,
        ip: c.ip,
        domain: c.domain,
        requested_depth: c.requested_depth,
        current_depth: c.current_depth,
        job_status: if c.current_depth == c.requested_depth {
            JobStatus::Completed
        } else {
            JobStatus::Pending
        },
        attempts: 0,
        request_time: c.request_time,
        claimed_at: None,
    }
}

pub open spec fn lead_matches(e: LeadEdge, cid: Seq<char>, src: Seq<char>, tgt: Seq<char>) -> bool {
    e.crawl_id@ == cid && e.source@ == src && e.target@ == tgt
}

pub open spec fn has_lead(leads: Seq<LeadEdge>, cid: Seq<char>, src: Seq<char>, tgt: Seq<char>) -> bool {
    exists|e: int| 0 <= e < leads.len() && lead_matches(#[trigger] leads[e], cid, src, tgt)
}

/// The edge runs from the parent to one of the given children.
pub open spec fn lead_to_some_child(e: LeadEdge, parent: UrlJob, children: Seq<ChildNode>) -> bool {
    exists|k: int|
        0 <= k < children.len() && lead_matches(
            e,
            parent.crawl_id@,
            node_id(parent.http_type@, parent.name@),
            node_id((#[trigger] children[k]).http_type@, children[k].name@),
        )
}

/// A node id as the graph payload uses it: `http_type + name`.
pub open spec fn node_id(http_type: Seq<char>, name: Seq<char>) -> Seq<char> {
    http_type + name
}

impl GraphStore {
    /// In one transaction, get-or-create each child URL keyed on
    /// `(crawl_id, name, http_type)` — existing children are not mutated —
    /// and get-or-create a Lead edge from the parent to each child.
    pub fn batch_create_children(&mut self, parent: &UrlJob, children: &Vec<ChildNode>)
        requires
            old(self).wf(),
            old(self).has_root(parent.crawl_id@),
            forall|k: int|
                0 <= k < children@.len() ==> child_ok(#[trigger] children@[k])
                    && children@[k].crawl_id@ == parent.crawl_id@,
            old(self).urls@.len() + children@.len() <= 0x7fff_ffff_ffff_ffff,
        ensures
            final(self).wf(),
            final(self).roots == old(self).roots,
            // existing nodes and edges are untouched
            old(self).urls@.is_prefix_of(final(self).urls@),
            old(self).leads@.is_prefix_of(final(self).leads@),
            final(self).urls@.len() <= old(self).urls@.len() + children@.len(),
            // every added node realizes one of the children, with its initial
            // status decided by the depth rule
            forall|i: int|
                old(self).urls@.len() <= i < final(self).urls@.len() ==> exists|k: int|
                    0 <= k < children@.len() && #[trigger] final(self).urls@[i] == make_child_node(
                        children@[k],
                    ),
            // afterwards every child is present, with a Lead edge from the parent
            forall|k: int|
                0 <= k < children@.len() ==> final(self).has_url(
                    (#[trigger] children@[k]).crawl_id@,
                    children@[k].name@,
                    children@[k].http_type@,
                ) && has_lead(
                    final(self).leads@,
                    parent.crawl_id@,
                    node_id(parent.http_type@, parent.name@),
                    node_id(children@[k].http_type@, children@[k].name@),
                ),
            // every added edge leads from the parent to one of the children
            forall|e: int|
                old(self).leads@.len() <= e < final(self).leads@.len() ==> lead_to_some_child(
                    #[trigger] final(self).leads@[e],
                    *parent,
                    children@,
                ),
    {
        let src = parent.http_type.clone().concat(parent.name.as_str());
        let m = children.len();
        let mut k: usize = 0;
        while k < m
            invariant
                k <= m,
                m == children@.len(),
                src@ == node_id(parent.http_type@, parent.name@),
                self.roots == old(self).roots,
                self.wf(),
                old(self).wf(),
                old(self).has_root(parent.crawl_id@),
                forall|k2: int|
                    0 <= k2 < children@.len() ==> child_ok(#[trigger] children@[k2])
                        && children@[k2].crawl_id@ == parent.crawl_id@,
                old(self).urls@.len() + children@.len() <= 0x7fff_ffff_ffff_ffff,
                old(self).urls@.is_prefix_of(self.urls@),
                old(self).leads@.is_prefix_of(self.leads@),
                self.urls@.len() <= old(self).urls@.len() + k,
                forall|i: int|
                    old(self).urls@.len() <= i < self.urls@.len() ==> exists|k2: int|
                        0 <= k2 < children@.len() && #[trigger] self.urls@[i] == make_child_node(
                            children@[k2],
                        ),
                forall|k2: int|
                    0 <= k2 < k ==> self.has_url(
                        (#[trigger] children@[k2]).crawl_id@,
                        children@[k2].name@,
                        children@[k2].http_type@,
                    ) && has_lead(
                        self.leads@,
                        parent.crawl_id@,
                        node_id(parent.http_type@, parent.name@),
                        node_id(children@[k2].http_type@, children@[k2].name@),
                    ),
                forall|e: int|
                    old(self).leads@.len() <= e < self.leads@.len() ==> lead_to_some_child(
                        #[trigger] self.leads@[e],
                        *parent,
                        children@,
                    ),
            decreases m - k,
        {
            let ghost at_start = *self;
            let c = &children[k];
            let existed = self.url_exists(&c.crawl_id, &c.name, &c.http_type);
            if !existed {
                let node = UrlNode {
                    crawl_id: c.crawl_id.clone(),
                    name: c.name.clone(),
                    http_type: c.http_type.clone(),
                    ip: c.ip.clone(),
                    domain: c.domain.clone(),
                    requested_depth: c.requested_depth,
                    current_depth: c.current_depth,
                    job_status: if c.current_depth == c.requested_depth {
                        JobStatus::Completed
                    } else {
                        JobStatus::Pending
                    },
                    attempts: 0,
                    request_time: c.request_time.clone(),
                    claimed_at: None,
                };
                proof {
                    assert(node == make_child_node(children@[k as int]));
                }
                self.urls.push(node);
                proof {
                    lemma_push_url_preserves_wf(
                        at_start,
                        *self,
                        make_child_node(children@[k as int]),
                    );
                }
            }
            proof {
                assert(at_start.urls@.is_prefix_of(self.urls@)) by {
                    if !existed {
                        assert(self.urls@ == at_start.urls@.push(
                            make_child_node(children@[k as int]),
                        ));
                        assert(at_start.urls@ =~= self.urls@.subrange(
                            0,
                            at_start.urls@.len() as int,
                        ));
                    }
                }
                assert(old(self).urls@.is_prefix_of(self.urls@)) by {
                    assert(old(self).urls@ =~= at_start.urls@.subrange(
                        0,
                        old(self).urls@.len() as int,
                    ));
                    assert(old(self).urls@ =~= self.urls@.subrange(
                        0,
                        old(self).urls@.len() as int,
                    ));
                }
                assert forall|i: int|
                    old(self).urls@.len() <= i < self.urls@.len() implies exists|k2: int|
                    0 <= k2 < children@.len() && #[trigger] self.urls@[i] == make_child_node(
                        children@[k2],
                    ) by {
                    if i < at_start.urls@.len() {
                        assert(self.urls@[i] == at_start.urls@[i]);
                    } else {
                        assert(self.urls@[i] == make_child_node(children@[k as int]));
                    }
                }
                if existed {
                    lemma_seq_has_url_extend(
                        at_start.urls@,
                        self.urls@,
                        children@[k as int].crawl_id@,
                        children@[k as int].name@,
                        children@[k as int].http_type@,
                    );
                } else {
                    assert(url_key_is(
                        self.urls@[self.urls@.len() - 1],
                        children@[k as int].crawl_id@,
                        children@[k as int].name@,
                        children@[k as int].http_type@,
                    ));
                }
            }
            let ghost mid = *self;
            let tgt = c.http_type.clone().concat(c.name.as_str());
            let lead_there = self.lead_exists(&parent.crawl_id, &src, &tgt);
            if !lead_there {
                let edge = LeadEdge {
                    crawl_id: parent.crawl_id.clone(),
                    source: src.clone(),
                    target: tgt.clone(),
                };
                self.leads.push(edge);
            }
            proof {
                let cid = parent.crawl_id@;
                let srcv = node_id(parent.http_type@, parent.name@);
                let tgtk = node_id(children@[k as int].http_type@, children@[k as int].name@);
                assert(mid.leads@.is_prefix_of(self.leads@)) by {
                    if !lead_there {
                        assert(mid.leads@ =~= self.leads@.subrange(0, mid.leads@.len() as int));
                    }
                }
                assert(old(self).leads@.is_prefix_of(self.leads@)) by {
                    assert(old(self).leads@ =~= mid.leads@.subrange(
                        0,
                        old(self).leads@.len() as int,
                    ));
                    assert(old(self).leads@ =~= self.leads@.subrange(
                        0,
                        old(self).leads@.len() as int,
                    ));
                }
                if lead_there {
                    lemma_has_lead_extend(mid.leads@, self.leads@, cid, srcv, tgtk);
                } else {
                    assert(lead_matches(self.leads@[self.leads@.len() - 1], cid, srcv, tgtk));
                }
                assert forall|e: int|
                    old(self).leads@.len() <= e < self.leads@.len() implies lead_to_some_child(
                        #[trigger] self.leads@[e],
                        *parent,
                        children@,
                    ) by {
                    if e < mid.leads@.len() {
                        assert(self.leads@[e] == mid.leads@[e]);
                        assert(lead_to_some_child(mid.leads@[e], *parent, children@));
                    } else {
                        assert(self.leads@[e] == self.leads@[self.leads@.len() - 1]);
                        assert(lead_matches(
                            self.leads@[e],
                            parent.crawl_id@,
                            node_id(parent.http_type@, parent.name@),
                            node_id(children@[k as int].http_type@, children@[k as int].name@),
                        ));
                    }
                }
                assert forall|k2: int|
                    0 <= k2 < k + 1 implies self.has_url(
                    (#[trigger] children@[k2]).crawl_id@,
                    children@[k2].name@,
                    children@[k2].http_type@,
                ) && has_lead(
                    self.leads@,
                    cid,
                    srcv,
                    node_id(children@[k2].http_type@, children@[k2].name@),
                ) by {
                    if k2 < k {
                        lemma_seq_has_url_extend(
                            at_start.urls@,
                            self.urls@,
                            children@[k2].crawl_id@,
                            children@[k2].name@,
                            children@[k2].http_type@,
                        );
                        lemma_has_lead_extend(
                            at_start.leads@,
                            self.leads@,
                            cid,
                            srcv,
                            node_id(children@[k2].http_type@, children@[k2].name@),
                        );
                    }
                }
            }
            k += 1;
        }
    }

    /// A URL node with this `(crawl_id, name, http_type)` key exists.
    pub fn url_exists(&self, crawl_id: &String, name: &String, http_type: &String) -> (r: bool)
        ensures
            r == self.has_url(crawl_id@, name@, http_type@),
    {
        let n = self.urls.len();
        let mut i: usize = 0;
        while i < n
            invariant
                i <= n,
                n == self.urls@.len(),
                forall|j: int|
                    0 <= j < i ==> !url_key_is(
                        #[trigger] self.urls@[j],
                        crawl_id@,
                        name@,
                        http_type@,
                    ),
            decreases n - i,
        {
            let node = &self.urls[i];
            if node.crawl_id == *crawl_id && node.name == *name && node.http_type == *http_type {
                return true;
            }
            i += 1;
        }
        false
    }

    /// A Lead edge with this crawl, source and target exists.
    fn lead_exists(&self, crawl_id: &String, src: &String, tgt: &String) -> (r: bool)
        ensures
            r == has_lead(self.leads@, crawl_id@, src@, tgt@),
    {
        let n = self.leads.len();
        let mut i: usize = 0;
        while i < n
            invariant
                i <= n,
                n == self.leads@.len(),
                forall|j: int|
                    0 <= j < i ==> !lead_matches(#[trigger] self.leads@[j], crawl_id@, src@, tgt@),
            decreases n - i,
        {
            let e = &self.leads[i];
            if e.crawl_id == *crawl_id && e.source == *src && e.target == *tgt {
                return true;
            }
            i += 1;
        }
        false
    }
}

/// What a crawl request carries into the store: the ROOT's fields and the
/// depth-one children as `(name, ip, domain, http_type)` tuples.
pub struct CreateCrawlParams {
    pub crawl_id: String,
    pub root_name: String,
    pub root_ip: String,
    pub root_domain: String,
    pub http_type: String,
    pub depth: i64,
    pub request_time: String,
    pub children: Vec<(String, String, String, String)>,
}

/// The ROOT node a crawl request creates.
pub open spec fn seed_root(p: CreateCrawlParams) -> RootNode {
    RootNode {
        crawl_id: p.crawl_id,
        name: p.root_name,
        http_type: p.http_type,
        ip: p.root_ip,
        domain: p.root_domain,
        requested_depth: p.depth,
        request_time: p.request_time,
    }
}

/// The depth-one child a crawl request creates from its `k`-th tuple.
pub open spec fn seed_child(p: CreateCrawlParams, k: int) -> ChildNode {
    ChildNode {
        name: p.children@[k].0,
        ip: p.children@[k].1,
        domain: p.children@[k].2,
        http_type: p.children@[k].3,
        requested_depth: p.depth,
        current_depth: 1,
        request_time: p.request_time,
        crawl_id: p.crawl_id,
    }
}

pub open spec fn seed_children(p: CreateCrawlParams) -> Seq<ChildNode> {
    Seq::new(p.children@.len(), |k: int| seed_child(p, k))
}

/// The ROOT in the role of a parent, for the Lead edges the seeding writes.
pub open spec fn seed_parent(p: CreateCrawlParams) -> UrlJob {
    UrlJob {
        name: p.root_name,
        http_type: p.http_type,
        job_status: JobStatus::InProgress,
        requested_depth: p.depth,
        current_depth: 0,
        attempts: None,
        crawl_id: p.crawl_id,
    }
}

impl GraphStore {
    /// Create the ROOT and every depth-one child of a fresh crawl in one
    /// transaction. A child at the requested depth (`depth == 1`) is born
    /// `Completed`, else `Pending`; so a crawl of depth one needs no feeder
    /// work at all.
    pub fn create_crawl_graph(&mut self, params: &CreateCrawlParams)
        requires
            old(self).wf(),
            !old(self).has_root(params.crawl_id@),
            !old(self).has_url_of_crawl(params.crawl_id@),
            1 <= params.depth <= 5,
            old(self).urls@.len() + params.children@.len() <= 0x7fff_ffff_ffff_ffff,
            old(self).roots@.len() + 1 <= 0x7fff_ffff_ffff_ffff,
        ensures
            final(self).wf(),
            final(self).roots@ == old(self).roots@.push(seed_root(*params)),
            old(self).urls@.is_prefix_of(final(self).urls@),
            old(self).leads@.is_prefix_of(final(self).leads@),
            final(self).urls@.len() <= old(self).urls@.len() + params.children@.len(),
            final(self).has_root(params.crawl_id@),
            // every added node is one of the request's depth-one children
            forall|i: int|
                old(self).urls@.len() <= i < final(self).urls@.len() ==> exists|k: int|
                    0 <= k < params.children@.len() && #[trigger] final(self).urls@[i]
                        == make_child_node(seed_child(*params, k)),
            // every URL of the fresh crawl is one of the added nodes
            forall|i: int|
                0 <= i < final(self).urls@.len() && (#[trigger] final(self).urls@[i]).crawl_id@
                    == params.crawl_id@ ==> i >= old(self).urls@.len(),
            // every child is present, with a Lead edge from the ROOT
            forall|k: int|
                0 <= k < params.children@.len() ==> final(self).has_url(
                    params.crawl_id@,
                    (#[trigger] params.children@[k]).0@,
                    params.children@[k].3@,
                ) && has_lead(
                    final(self).leads@,
                    params.crawl_id@,
                    node_id(params.http_type@, params.root_name@),
                    node_id(params.children@[k].3@, params.children@[k].0@),
                ),
            forall|e: int|
                old(self).leads@.len() <= e < final(self).leads@.len() ==> lead_to_some_child(
                    #[trigger] final(self).leads@[e],
                    seed_parent(*params),
                    seed_children(*params),
                ),
            // a crawl of depth one is born complete: none of its URLs is
            // pending or in progress
            params.depth == 1 ==> forall|i: int|
                0 <= i < final(self).urls@.len() && (#[trigger] final(self).urls@[i]).crawl_id@
                    == params.crawl_id@ ==> final(self).urls@[i].job_status == JobStatus::Completed,
    {
        let root = RootNode {
            crawl_id: params.crawl_id.clone(),
            name: params.root_name.clone(),
            http_type: params.http_type.clone(),
            ip: params.root_ip.clone(),
            domain: params.root_domain.clone(),
            requested_depth: params.depth,
            request_time: params.request_time.clone(),
        };
        proof {
            assert(root == seed_root(*params));
        }
        let ghost pre = *self;
        self.roots.push(root);
        proof {
            assert forall|i: int| 0 <= i < self.urls@.len() implies self.has_root(
                (#[trigger] self.urls@[i]).crawl_id@,
            ) by {
                let cid = self.urls@[i].crawl_id@;
                assert(pre.has_root(cid));
                let r = choose|r: int| 0 <= r < pre.roots@.len() && pre.roots@[r].crawl_id@ == cid;
                assert(self.roots@[r].crawl_id@ == cid);
            }
            assert forall|r1: int, r2: int| 0 <= r1 < r2 < self.roots@.len() implies (
            #[trigger] self.roots@[r1]).crawl_id@ != (#[trigger] self.roots@[r2]).crawl_id@ by {
                if r2 == self.roots@.len() - 1 {
                    assert(self.roots@[r1] == pre.roots@[r1]);
                    assert(!pre.has_root(params.crawl_id@));
                }
            }
            assert(self.wf());
            assert(self.roots@[self.roots@.len() - 1].crawl_id@ == params.crawl_id@);
            assert(self.has_root(params.crawl_id@));
        }
        let parent = UrlJob {
            name: params.root_name.clone(),
            http_type: params.http_type.clone(),
            job_status: JobStatus::InProgress,
            requested_depth: params.depth,
            current_depth: 0,
            attempts: None,
            crawl_id: params.crawl_id.clone(),
        };
        proof {
            assert(parent == seed_parent(*params));
        }
        let m = params.children.len();
        let mut kids: Vec<ChildNode> = Vec::new();
        let mut k: usize = 0;
        while k < m
            invariant
                k <= m,
                m == params.children@.len(),
                kids@.len() == k,
                1 <= params.depth <= 5,
                forall|j: int| 0 <= j < k ==> #[trigger] kids@[j] == seed_child(*params, j),
            decreases m - k,
        {
            let (name, ip, domain, http_type) = (
                params.children[k].0.clone(),
                params.children[k].1.clone(),
                params.children[k].2.clone(),
                params.children[k].3.clone(),
            );
            let kid = ChildNode {
                name,
                ip,
                domain,
                http_type,
                requested_depth: params.depth,
                current_depth: 1,
                request_time: params.request_time.clone(),
                crawl_id: params.crawl_id.clone(),
            };
            proof {
                assert(kid == seed_child(*params, k as int));
            }
            kids.push(kid);
            k += 1;
        }
        proof {
            assert(kids@ =~= seed_children(*params));
        }
        self.batch_create_children(&parent, &kids);
        proof {
            assert forall|i: int|
                old(self).urls@.len() <= i < self.urls@.len() implies exists|k2: int|
                0 <= k2 < params.children@.len() && #[trigger] self.urls@[i] == make_child_node(
                    seed_child(*params, k2),
                ) by {
                let k2 = choose|k2: int|
                    0 <= k2 < kids@.len() && #[trigger] self.urls@[i] == make_child_node(
                        kids@[k2],
                    );
                assert(kids@[k2] == seed_child(*params, k2));
                assert(self.urls@[i] == make_child_node(seed_child(*params, k2)));
            }
            assert forall|k2: int| 0 <= k2 < params.children@.len() implies self.has_url(
                params.crawl_id@,
                (#[trigger] params.children@[k2]).0@,
                params.children@[k2].3@,
            ) && has_lead(
                self.leads@,
                params.crawl_id@,
                node_id(params.http_type@, params.root_name@),
                node_id(params.children@[k2].3@, params.children@[k2].0@),
            ) by {
                assert(kids@[k2] == seed_child(*params, k2));
                assert(self.has_url(kids@[k2].crawl_id@, kids@[k2].name@, kids@[k2].http_type@));
                assert(has_lead(
                    self.leads@,
                    parent.crawl_id@,
                    node_id(parent.http_type@, parent.name@),
                    node_id(kids@[k2].http_type@, kids@[k2].name@),
                ));
            }
            assert forall|i: int|
                0 <= i < self.urls@.len() && (#[trigger] self.urls@[i]).crawl_id@
                    == params.crawl_id@ implies i >= old(self).urls@.len() by {
                if i < old(self).urls@.len() {
                    assert(self.urls@[i] == old(self).urls@[i]);
                    assert(old(self).has_url_of_crawl(params.crawl_id@));
                }
            }
            if params.depth == 1 {
                assert forall|i: int|
                    0 <= i < self.urls@.len() && (#[trigger] self.urls@[i]).crawl_id@
                        == params.crawl_id@ implies self.urls@[i].job_status
                    == JobStatus::Completed by {
                    let k2 = choose|k2: int|
                        0 <= k2 < kids@.len() && #[trigger] self.urls@[i] == make_child_node(
                            kids@[k2],
                        );
                    assert(kids@[k2].current_depth == 1 && kids@[k2].requested_depth == 1);
                }
            }
        }
    }
}

/// Some URL node in the sequence has this id (`http_type + name`), in any
/// crawl: the deduplication the feeders rely on is store-wide.
pub open spec fn known_id(s: Seq<UrlNode>, id: Seq<char>) -> bool {
    exists|i: int|
        0 <= i < s.len() && node_id((#[trigger] s[i]).http_type@, s[i].name@) == id
}

/// The candidates that have no URL node yet, in order, duplicates kept.
pub open spec fn filter_unknown(s: Seq<UrlNode>, cands: Seq<Seq<char>>) -> Seq<Seq<char>>
    decreases cands.len(),
{
    if cands.len() == 0 {
        Seq::empty()
    } else {
        filter_unknown(s, cands.drop_last()) + if !known_id(s, cands.last()) {
            seq![cands.last()]
        } else {
            Seq::empty()
        }
    }
}

impl GraphStore {
    /// Some URL node carries this id (`http_type + name`).
    fn id_known(&self, cand: &String) -> (r: bool)
        ensures
            r == known_id(self.urls@, cand@),
    {
        let n = self.urls.len();
        let mut i: usize = 0;
        while i < n
            invariant
                i <= n,
                n == self.urls@.len(),
                forall|j: int|
                    0 <= j < i ==> node_id(
                        (#[trigger] self.urls@[j]).http_type@,
                        self.urls@[j].name@,
                    ) != cand@,
            decreases n - i,
        {
            let id = self.urls[i].http_type.clone().concat(self.urls[i].name.as_str());
            if id == *cand {
                return true;
            }
            i += 1;
        }
        false
    }

    /// Of the candidate ids (`http_type + name`, upper-cased), keep exactly
    /// those that no URL node matches yet, in their given order.
    pub fn filter_new_urls(&self, candidates: &Vec<String>) -> (r: Vec<String>)
        ensures
            r.deep_view() == filter_unknown(self.urls@, candidates.deep_view()),
    {
        let m = candidates.len();
        let mut out: Vec<String> = Vec::new();
        let mut j: usize = 0;
        while j < m
            invariant
                j <= m,
                m == candidates@.len(),
                out.deep_view() == filter_unknown(
                    self.urls@,
                    candidates.deep_view().take(j as int),
                ),
            decreases m - j,
        {
            let ghost prefix = candidates.deep_view().take(j as int);
            let cand = &candidates[j];
            if !self.id_known(cand) {
                out.push(cand.clone());
            }
            proof {
                let next = candidates.deep_view().take(j + 1 as int);
                assert(next.drop_last() =~= prefix);
                assert(next.last() == cand@);
                if !known_id(self.urls@, cand@) {
                    assert(out.deep_view() =~= filter_unknown(self.urls@, prefix) + seq![cand@]);
                }
                assert(out.deep_view() =~= filter_unknown(self.urls@, next));
            }
            j += 1;
        }
        proof {
            assert(candidates.deep_view().take(m as int) =~= candidates.deep_view());
        }
        out
    }
}

/// How many jobs of the sequence are pending and below their requested depth.
pub open spec fn count_pending_eligible(s: Seq<UrlNode>) -> int
    decreases s.len(),
{
    if s.len() == 0 {
        0
    } else {
        count_pending_eligible(s.drop_last()) + if pending_eligible(s.last()) {
            1int
        } else {
            0int
        }
    }
}

pub proof fn lemma_count_pending_bounds(s: Seq<UrlNode>)
    ensures
        0 <= count_pending_eligible(s) <= s.len(),
    decreases s.len(),
{
    if s.len() > 0 {
        lemma_count_pending_bounds(s.drop_last());
    }
}

/// Replacing one node changes the pending count exactly by what the node
/// lost or gained.
pub proof fn lemma_count_pending_update(s: Seq<UrlNode>, i: int, x: UrlNode)
    requires
        0 <= i < s.len(),
    ensures
        count_pending_eligible(s.update(i, x)) == count_pending_eligible(s) - (
        if pending_eligible(s[i]) {
            1int
        } else {
            0int
        }) + (if pending_eligible(x) {
            1int
        } else {
            0int
        }),
    decreases s.len(),
{
    let t = s.update(i, x);
    if i == s.len() - 1 {
        assert(t.drop_last() =~= s.drop_last());
        assert(t.last() == x);
    } else {
        assert(t.drop_last() =~= s.drop_last().update(i, x));
        assert(t.last() == s.last());
        lemma_count_pending_update(s.drop_last(), i, x);
    }
}

/// A sequence without a pending job has pending count zero, and conversely.
pub proof fn lemma_count_pending_zero(s: Seq<UrlNode>)
    requires
        count_pending_eligible(s) == 0,
    ensures
        forall|i: int| 0 <= i < s.len() ==> !pending_eligible(#[trigger] s[i]),
    decreases s.len(),
{
    if s.len() > 0 {
        lemma_count_pending_bounds(s.drop_last());
        lemma_count_pending_zero(s.drop_last());
        assert forall|i: int| 0 <= i < s.len() implies !pending_eligible(#[trigger] s[i]) by {
            if i < s.len() - 1 {
                assert(s.drop_last()[i] == s[i]);
            } else {
                assert(s[i] == s.last());
            }
        }
    }
}

/// Membership in one more taken element.
proof fn lemma_take_push_contains(picks: Seq<int>, t: int, i: int)
    requires
        0 < t <= picks.len(),
    ensures
        picks.take(t).contains(i) == (picks.take(t - 1).contains(i) || picks[t - 1] == i),
{
    assert(picks.take(t) =~= picks.take(t - 1).push(picks[t - 1]));
    if picks.take(t).contains(i) {
        let u = choose|u: int| 0 <= u < t && #[trigger] picks.take(t)[u] == i;
        if u < t - 1 {
            assert(picks.take(t - 1)[u] == i);
        }
    } else {
        if picks.take(t - 1).contains(i) {
            let u = choose|u: int| 0 <= u < t - 1 && #[trigger] picks.take(t - 1)[u] == i;
            assert(picks.take(t)[u] == i);
        }
        assert(picks.take(t)[t - 1] == picks[t - 1]);
        assert(picks[t - 1] != i);
    }
}

/// After `t` conforming claim steps that start from a store with no stale
/// job: the picked indices are distinct, each was pending at the start, a
/// picked node is claimed and an unpicked one untouched, and exactly `t`
/// pending jobs are gone.
#[verifier::rlimit(60)]
proof fn lemma_claim_run_state(
    stores: Seq<Seq<UrlNode>>,
    picks: Seq<int>,
    now: i64,
    stale_timeout: i64,
    t: int,
)
    requires
        stale_timeout >= 0,
        stores.len() == picks.len() + 1,
        forall|u: int|
            0 <= u < picks.len() ==> claim_step(
                #[trigger] stores[u],
                stores[u + 1],
                picks[u],
                now,
                stale_timeout,
            ),
        forall|i: int|
            0 <= i < stores[0].len() ==> !stale_eligible(#[trigger] stores[0][i], now, stale_timeout),
        0 <= t <= picks.len(),
    ensures
        stores[t].len() == stores[0].len(),
        picks.take(t).no_duplicates(),
        forall|u: int| 0 <= u < t ==> pending_eligible(stores[0][#[trigger] picks[u]]),
        forall|i: int|
            0 <= i < stores[0].len() ==> #[trigger] stores[t][i] == (if picks.take(t).contains(i) {
                claimed_node(stores[0][i], now)
            } else {
                stores[0][i]
            }),
        count_pending_eligible(stores[t]) == count_pending_eligible(stores[0]) - t,
    decreases t,
{
    if t > 0 {
        lemma_claim_run_state(stores, picks, now, stale_timeout, t - 1);
        let pre = stores[t - 1];
        let post = stores[t];
        let p = picks[t - 1];
        assert(claim_step(pre, post, p, now, stale_timeout));
        assert(picks.take(t) =~= picks.take(t - 1).push(picks[t - 1]));
        // the picked node cannot have been picked before: a freshly claimed
        // node is in progress and not yet stale
        if picks.take(t - 1).contains(p) {
            assert(pre[p] == claimed_node(stores[0][p], now));
            assert(!eligible(pre[p], now, stale_timeout));
        }
        assert(pre[p] == stores[0][p]);
        assert(pending_eligible(stores[0][p]));
        assert forall|i: int| 0 <= i < stores[0].len() implies #[trigger] stores[t][i] == (
        if picks.take(t).contains(i) {
            claimed_node(stores[0][i], now)
        } else {
            stores[0][i]
        }) by {
            lemma_take_push_contains(picks, t, i);
            if i == p {
                assert(post[i] == claimed_node(pre[i], now));
            } else {
                assert(post[i] == pre[i]);
            }
        }
        assert(picks.take(t).no_duplicates()) by {
            assert(picks.take(t) =~= picks.take(t - 1).push(picks[t - 1]));
            assert(!picks.take(t - 1).contains(p));
            assert forall|a: int, b: int|
                0 <= a < picks.take(t).len() && 0 <= b < picks.take(t).len() && a
                    != b implies picks.take(t)[a] != picks.take(t)[b] by {
                if a < t - 1 && b < t - 1 {
                    assert(picks.take(t)[a] == picks.take(t - 1)[a]);
                    assert(picks.take(t)[b] == picks.take(t - 1)[b]);
                } else if a < t - 1 {
                    assert(picks.take(t)[b] == p);
                    if picks.take(t - 1)[a] == p {
                        assert(picks.take(t - 1).contains(p));
                    }
                } else {
                    assert(picks.take(t)[a] == p);
                    if picks.take(t - 1)[b] == p {
                        assert(picks.take(t - 1).contains(p));
                    }
                }
            }
        }
        lemma_count_pending_update(pre, p, claimed_node(pre[p], now));
        assert(post =~= pre.update(p, claimed_node(pre[p], now)));
    } else {
        assert(picks.take(0) =~= Seq::<int>::empty());
    }
}

/// The job-claiming protocol loses nothing and duplicates nothing: when `K`
/// workers run any number of conforming claim steps against a pool with no
/// stale job, the claimed indices are pairwise distinct jobs that were all
/// pending at the start; and when as many claims happen as there were
/// pending jobs, every pending job is claimed exactly once.
pub proof fn lemma_concurrent_claims_exact(
    stores: Seq<Seq<UrlNode>>,
    picks: Seq<int>,
    now: i64,
    stale_timeout: i64,
)
    requires
        stale_timeout >= 0,
        stores.len() == picks.len() + 1,
        forall|u: int|
            0 <= u < picks.len() ==> claim_step(
                #[trigger] stores[u],
                stores[u + 1],
                picks[u],
                now,
                stale_timeout,
            ),
        forall|i: int|
            0 <= i < stores[0].len() ==> !stale_eligible(#[trigger] stores[0][i], now, stale_timeout),
    ensures
        picks.no_duplicates(),
        forall|u: int| 0 <= u < picks.len() ==> pending_eligible(stores[0][#[trigger] picks[u]]),
        picks.len() == count_pending_eligible(stores[0]) ==> forall|i: int|
            0 <= i < stores[0].len() && pending_eligible(#[trigger] stores[0][i])
                ==> picks.contains(i),
{
    let t = picks.len() as int;
    lemma_claim_run_state(stores, picks, now, stale_timeout, t);
    assert(picks.take(t) =~= picks);
    if picks.len() == count_pending_eligible(stores[0]) {
        lemma_count_pending_zero(stores.last());
        assert(stores.last() == stores[t]);
        assert forall|i: int|
            0 <= i < stores[0].len() && pending_eligible(
                #[trigger] stores[0][i],
            ) implies picks.contains(i) by {
            if !picks.contains(i) {
                assert(stores[t][i] == stores[0][i]);
                assert(!pending_eligible(stores[t][i]));
            }
        }
    }
}

/// Pushing a fresh, well-formed URL node whose crawl has a ROOT keeps the
/// store well formed.
proof fn lemma_push_url_preserves_wf(pre: GraphStore, post: GraphStore, node: UrlNode)
    requires
        pre.wf(),
        post.roots == pre.roots,
        post.urls@ == pre.urls@.push(node),
        pre.urls@.len() + 1 <= 0x7fff_ffff_ffff_ffff,
        url_node_ok(node),
        pre.has_root(node.crawl_id@),
        !pre.has_url(node.crawl_id@, node.name@, node.http_type@),
    ensures
        post.wf(),
{
    let n = pre.urls@.len() as int;
    assert forall|i: int| 0 <= i < post.urls@.len() implies url_node_ok(
        #[trigger] post.urls@[i],
    ) by {
        if i < n {
            assert(post.urls@[i] == pre.urls@[i]);
        }
    }
    assert forall|i: int, j: int| 0 <= i < j < post.urls@.len() implies !same_url_key(
        #[trigger] post.urls@[i],
        #[trigger] post.urls@[j],
    ) by {
        if j < n {
            assert(!same_url_key(pre.urls@[i], pre.urls@[j]));
        } else {
            assert(post.urls@[j] == node);
            assert(post.urls@[i] == pre.urls@[i]);
            if same_url_key(post.urls@[i], node) {
                assert(url_key_is(pre.urls@[i], node.crawl_id@, node.name@, node.http_type@));
            }
        }
    }
    assert forall|i: int| 0 <= i < post.urls@.len() implies post.has_root(
        (#[trigger] post.urls@[i]).crawl_id@,
    ) by {
        let cid = post.urls@[i].crawl_id@;
        if i < n {
            assert(post.urls@[i] == pre.urls@[i]);
            assert(pre.has_root(cid));
        } else {
            assert(post.urls@[i] == node);
            assert(pre.has_root(cid));
        }
        let r = choose|r: int| 0 <= r < pre.roots@.len() && pre.roots@[r].crawl_id@ == cid;
        assert(post.roots@[r].crawl_id@ == cid);
    }
}

/// Two stores whose URLs agree pairwise on identity, depths, attempts sign
/// and the claimed-timestamp discipline, and whose roots agree, are equally
/// well formed. The workhorse for status-only updates.
proof fn lemma_same_keys_preserve_wf(pre: GraphStore, post: GraphStore)
    requires
        pre.wf(),
        post.roots == pre.roots,
        post.urls@.len() == pre.urls@.len(),
        forall|i: int|
            0 <= i < pre.urls@.len() ==> same_url_key(#[trigger] post.urls@[i], pre.urls@[i])
                && url_node_ok(post.urls@[i]),
    ensures
        post.wf(),
{
    assert forall|i: int| 0 <= i < post.urls@.len() implies url_node_ok(
        #[trigger] post.urls@[i],
    ) by {
        assert(same_url_key(post.urls@[i], pre.urls@[i]));
    }
    assert forall|i: int, j: int| 0 <= i < j < post.urls@.len() implies !same_url_key(
        #[trigger] post.urls@[i],
        #[trigger] post.urls@[j],
    ) by {
        assert(!same_url_key(pre.urls@[i], pre.urls@[j]));
    }
    assert forall|i: int| 0 <= i < post.urls@.len() implies post.has_root(
        (#[trigger] post.urls@[i]).crawl_id@,
    ) by {
        assert(pre.has_root(pre.urls@[i].crawl_id@));
        let r = choose|r: int|
            0 <= r < pre.roots@.len() && pre.roots@[r].crawl_id@ == pre.urls@[i].crawl_id@;
        assert(post.roots@[r].crawl_id@ == post.urls@[i].crawl_id@);
    }
}

} // verus!
