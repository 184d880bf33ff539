//! The feeder's decisions: exponential backoff, the retry policy after a
//! failed fetch, candidate preparation, and the commit of a processed job.
//! The outside work — the fetch itself and the DNS probes — happens at the
//! caller; its outcome comes in as a value and every decision over it is
//! verified.

use vstd::prelude::*;

use crate::config::Config;
use crate::dns::NetworkStats;
use crate::error::{client_error, is_client_error, CrawlerError};
use crate::extract::PageData;
use crate::store::{
    job_key_matches, make_child_node, node_id, with_status, ChildNode, GraphStore, JobStatus,
    UrlJob, UrlNode,
};
use crate::text::{str_eq, to_upper_string, upper};

verus! {

/// Doubled, capped at `poll_max`.
pub open spec fn next_backoff_spec(cur: u64, poll_max: u64) -> u64 {
    if 2 * cur <= poll_max {
        (2 * cur) as u64
    } else {
        poll_max
    }
}

/// The next idle backoff: doubled, capped at `poll_max`. Resets to
/// `poll_min` are the caller's move on a successful claim.
pub fn next_backoff(cur: u64, poll_max: u64) -> (r: u64)
    ensures
        r == next_backoff_spec(cur, poll_max),
{
    if cur <= poll_max / 2 {
        cur * 2
    } else {
        poll_max
    }
}

/// Where a failed fetch sends the job: a client error (4xx) is permanent,
/// exhausted attempts give up, anything else releases the job for a retry.
pub open spec fn retry_status(e: CrawlerError, attempts: i64, max_attempts: i64) -> JobStatus {
    if is_client_error(e) {
        JobStatus::Failed
    } else if attempts >= max_attempts {
        JobStatus::Failed
    } else {
        JobStatus::Pending
    }
}

/// The attempt count after one more failure.
pub open spec fn bumped_attempts(attempts: Option<i64>) -> int {
    match attempts {
        None => 1,
        Some(a) => a + 1,
    }
}

/// The state a failed fetch sends the job to, as `retry_status` says: the
/// decision alone, for callers that write to the real store themselves.
pub fn retry_decision(e: &CrawlerError, attempts: i64, max_attempts: i64) -> (r: JobStatus)
    ensures
        r == retry_status(*e, attempts, max_attempts),
{
    if client_error(e) {
        JobStatus::Failed
    } else if attempts >= max_attempts {
        JobStatus::Failed
    } else {
        JobStatus::Pending
    }
}

/// Judge a fetch outcome. Success hands the page on and changes nothing.
/// Failure counts the attempt and writes the job's next state — `Failed` on
/// a 4xx or once `max_attempts` is reached, else back to `Pending` so any
/// feeder may retry — and yields nothing.
pub fn validate_job(
    store: &mut GraphStore,
    config: &Config,
    job: &mut UrlJob,
    outcome: Result<PageData, CrawlerError>,
) -> (r: Option<PageData>)
    requires
        old(store).wf(),
        config.wf(),
        old(job).attempts matches Some(a) ==> 0 <= a < 0x7fff_ffff_ffff_ffff,
    ensures
        final(store).wf(),
        final(store).roots == old(store).roots,
        final(store).leads == old(store).leads,
        r is Some <==> outcome is Ok,
        outcome matches Ok(page) ==> r == Some(page) && *final(store) == *old(store) && *final(job)
            == *old(job),
        outcome matches Err(e) ==> ({
            let att = bumped_attempts(old(job).attempts);
            let st = retry_status(e, att as i64, config.max_attempts);
            &&& *final(job) == UrlJob { attempts: Some(att as i64), ..*old(job) }
            &&& final(store).urls@.len() == old(store).urls@.len()
            &&& forall|i: int|
                0 <= i < old(store).urls@.len() ==> final(store).urls@[i] == (
                if job_key_matches(#[trigger] old(store).urls@[i], *old(job)) && old(
                    store,
                ).urls@[i].job_status != JobStatus::Cancelled {
                    with_status(old(store).urls@[i], st, att as i64)
                } else {
                    old(store).urls@[i]
                })
        }),
{
    match outcome {
        Ok(page) => Some(page),
        Err(e) => {
            let attempts = match job.attempts {
                None => 1,
                Some(a) => a + 1,
            };
            job.attempts = Some(attempts);
            let status = if client_error(&e) {
                JobStatus::Failed
            } else if attempts >= config.max_attempts {
                JobStatus::Failed
            } else {
                JobStatus::Pending
            };
            store.update_job_status(job, status, attempts);
            None
        },
    }
}

/// All tokens upper-cased, in order.
pub open spec fn upper_all(s: Seq<Seq<char>>) -> Seq<Seq<char>> {
    s.map_values(|x: Seq<char>| upper(x))
}

/// First occurrences only, in order.
pub open spec fn dedup_spec(s: Seq<Seq<char>>) -> Seq<Seq<char>>
    decreases s.len(),
{
    if s.len() == 0 {
        Seq::empty()
    } else {
        dedup_spec(s.drop_last()) + if s.drop_last().contains(s.last()) {
            Seq::empty()
        } else {
            seq![s.last()]
        }
    }
}

/// Deduplication keeps exactly the members.
pub proof fn lemma_dedup_contains(s: Seq<Seq<char>>, x: Seq<char>)
    ensures
        dedup_spec(s).contains(x) <==> s.contains(x),
    decreases s.len(),
{
    if s.len() > 0 {
        lemma_dedup_contains(s.drop_last(), x);
        let d = dedup_spec(s);
        let dp = dedup_spec(s.drop_last());
        if s.contains(x) {
            let i = choose|i: int| 0 <= i < s.len() && s[i] == x;
            if i < s.len() - 1 {
                assert(s.drop_last()[i] == x);
                assert(s.drop_last().contains(x));
                let k = choose|k: int| 0 <= k < dp.len() && dp[k] == x;
                assert(d[k] == x);
                assert(d.contains(x));
            } else {
                if s.drop_last().contains(x) {
                    let k = choose|k: int| 0 <= k < dp.len() && dp[k] == x;
                    assert(d[k] == x);
                    assert(d.contains(x));
                } else {
                    assert(d[d.len() - 1] == x);
                    assert(d.contains(x));
                }
            }
        }
        if d.contains(x) {
            let k = choose|k: int| 0 <= k < d.len() && d[k] == x;
            if k < dp.len() {
                assert(dp[k] == x);
                assert(dp.contains(x));
                let i = choose|i: int| 0 <= i < s.drop_last().len() && s.drop_last()[i] == x;
                assert(s[i] == x);
                assert(s.contains(x));
            } else {
                assert(x == s.last());
                assert(s[s.len() - 1] == x);
                assert(s.contains(x));
            }
        }
    }
}

/// Upper-case the extracted tokens and drop duplicates, keeping first
/// occurrences in order: the candidate set handed to deduplication against
/// the store.
pub fn upper_candidates(extracted: &Vec<String>) -> (r: Vec<String>)
    ensures
        r.deep_view() == dedup_spec(upper_all(extracted.deep_view())),
{
    let n = extracted.len();
    let mut out: Vec<String> = Vec::new();
    let mut i: usize = 0;
    while i < n
        invariant
            i <= n,
            n == extracted@.len(),
            out.deep_view() == dedup_spec(upper_all(extracted.deep_view().take(i as int))),
        decreases n - i,
    {
        let ghost prefix = upper_all(extracted.deep_view().take(i as int));
        let u = to_upper_string(extracted[i].as_str());
        let m = out.len();
        let mut present = false;
        let mut k: usize = 0;
        while k < m
            invariant
                k <= m,
                m == out@.len(),
                present == exists|b: int| 0 <= b < k && #[trigger] out@[b]@ == u@,
            decreases m - k,
        {
            if !present && str_eq(out[k].as_str(), u.as_str()) {
                present = true;
            }
            k += 1;
        }
        proof {
            let next = upper_all(extracted.deep_view().take(i + 1 as int));
            assert(next.drop_last() =~= prefix) by {
                assert(extracted.deep_view().take(i + 1 as int).drop_last()
                    =~= extracted.deep_view().take(i as int));
            }
            assert(next.last() == upper(extracted.deep_view()[i as int]));
            assert(u@ == next.last());
            lemma_dedup_contains(prefix, u@);
            assert(present == prefix.contains(u@)) by {
                if present {
                    let b = choose|b: int| 0 <= b < out@.len() && #[trigger] out@[b]@ == u@;
                    assert(out.deep_view()[b] == u@);
                    assert(dedup_spec(prefix).contains(u@));
                } else {
                    if prefix.contains(u@) {
                        let c = choose|c: int|
                            0 <= c < dedup_spec(prefix).len() && dedup_spec(prefix)[c] == u@;
                        assert(out.deep_view()[c] == u@);
                        assert(out@[c]@ == u@);
                    }
                }
            }
        }
        if !present {
            out.push(u);
            proof {
                assert(out.deep_view() =~= dedup_spec(
                    upper_all(extracted.deep_view().take(i + 1 as int)),
                ));
            }
        } else {
            proof {
                assert(out.deep_view() =~= dedup_spec(
                    upper_all(extracted.deep_view().take(i + 1 as int)),
                ));
            }
        }
        i += 1;
    }
    proof {
        assert(extracted.deep_view().take(n as int) =~= extracted.deep_view());
    }
    out
}

/// The child one resolved URL contributes: one hop below the job, in the
/// job's crawl.
pub open spec fn commit_child(
    job: UrlJob,
    name: String,
    http_type: String,
    stats: NetworkStats,
    request_time: String,
) -> ChildNode {
    ChildNode {
        name,
        ip: stats.ip,
        domain: stats.domain,
        http_type,
        requested_depth: job.requested_depth,
        current_depth: (job.current_depth + 1) as i64,
        request_time,
        crawl_id: job.crawl_id,
    }
}

/// The child realizes one of the first `upto` resolved entries that had an
/// answer.
pub open spec fn child_from_resolved(
    c: ChildNode,
    job: UrlJob,
    resolved: Seq<(String, String, Option<NetworkStats>)>,
    upto: int,
    rt: String,
) -> bool {
    exists|k: int|
        0 <= k < upto && (#[trigger] resolved[k]).2 is Some && c == commit_child(
            job,
            resolved[k].0,
            resolved[k].1,
            resolved[k].2->0,
            rt,
        )
}

/// Some child realizes the `k`-th resolved entry.
pub open spec fn resolved_has_child(
    children: Seq<ChildNode>,
    job: UrlJob,
    resolved: Seq<(String, String, Option<NetworkStats>)>,
    k: int,
    rt: String,
) -> bool {
    exists|c: int|
        0 <= c < children.len() && #[trigger] children[c] == commit_child(
            job,
            resolved[k].0,
            resolved[k].1,
            resolved[k].2->0,
            rt,
        )
}

/// The node is the child of one of the resolved entries that had an answer.
pub open spec fn node_from_resolved(
    u: UrlNode,
    job: UrlJob,
    resolved: Seq<(String, String, Option<NetworkStats>)>,
    rt: String,
) -> bool {
    exists|k: int|
        0 <= k < resolved.len() && (#[trigger] resolved[k]).2 is Some && u == make_child_node(
            commit_child(job, resolved[k].0, resolved[k].1, resolved[k].2->0, rt),
        )
}

/// Commit a processed job: build a child for every URL whose DNS probe
/// answered, write them and their Lead edges in one transaction, and mark
/// the job `Completed`. When every probe failed, mark the job `Failed`
/// instead; the return value says whether the job succeeded.
pub fn feeding_commit(
    store: &mut GraphStore,
    job: &UrlJob,
    resolved: &Vec<(String, String, Option<NetworkStats>)>,
    request_time: &String,
) -> (r: bool)
    requires
        old(store).wf(),
        old(store).has_root(job.crawl_id@),
        1 <= job.requested_depth <= 5,
        1 <= job.current_depth < job.requested_depth,
        job.attempts matches Some(a) ==> 0 <= a,
        old(store).urls@.len() + resolved@.len() <= 0x7fff_ffff_ffff_ffff,
    ensures
        final(store).wf(),
        final(store).roots == old(store).roots,
        r <==> exists|k: int| 0 <= k < resolved@.len() && (#[trigger] resolved@[k]).2 is Some,
        // the job's own node moves to Completed on success, Failed otherwise;
        // nothing else already present changes
        forall|i: int|
            0 <= i < old(store).urls@.len() ==> final(store).urls@[i] == (
            if job_key_matches(#[trigger] old(store).urls@[i], *job) && old(
                store,
            ).urls@[i].job_status != JobStatus::Cancelled {
                with_status(
                    old(store).urls@[i],
                    if r {
                        JobStatus::Completed
                    } else {
                        JobStatus::Failed
                    },
                    (bumped_attempts(job.attempts) - 1) as i64,
                )
            } else {
                old(store).urls@[i]
            }),
        // on failure nothing is created
        !r ==> final(store).urls@.len() == old(store).urls@.len() && final(store).leads == old(
            store,
        ).leads,
        // on success every answered URL is in the store, with a Lead edge
        // from the job, and every added node is such a child
        r ==> final(store).urls@.len() <= old(store).urls@.len() + resolved@.len(),
        r ==> forall|k: int|
            0 <= k < resolved@.len() && (#[trigger] resolved@[k]).2 is Some ==> final(store).has_url(job.crawl_id@, resolved@[k].0@, resolved@[k].1@) && crate::store::has_lead(
                final(store).leads@,
                job.crawl_id@,
                node_id(job.http_type@, job.name@),
                node_id(resolved@[k].1@, resolved@[k].0@),
            ),
        r ==> forall|i: int|
            old(store).urls@.len() <= i < final(store).urls@.len() ==> node_from_resolved(
                #[trigger] final(store).urls@[i],
                *job,
                resolved@,
                *request_time,
            ),
{
    let attempts = match job.attempts {
        None => 0,
        Some(a) => a,
    };
    let (children, status, ok) = commit_plan(job, resolved, request_time);
    let ghost n = resolved@.len();
    if !ok {
        store.update_job_status(job, status, attempts);
        return false;
    }
    proof {
        assert forall|k2: int| 0 <= k2 < children@.len() implies crate::store::child_ok(
            #[trigger] children@[k2],
        ) && children@[k2].crawl_id@ == job.crawl_id@ by {
            assert(child_from_resolved(children@[k2], *job, resolved@, n as int, *request_time));
            let k = choose|k: int|
                0 <= k < n && (#[trigger] resolved@[k]).2 is Some && children@[k2] == commit_child(
                    *job,
                    resolved@[k].0,
                    resolved@[k].1,
                    resolved@[k].2->0,
                    *request_time,
                );
        }
    }
    store.batch_create_children(job, &children);
    let ghost mid = *store;
    store.update_job_status(job, status, attempts);
    proof {
        assert(children@.len() > 0);
        assert(child_from_resolved(children@[0], *job, resolved@, n as int, *request_time));
        // the batch adds only nodes one hop deeper than the job, so the
        // final status write touches exactly the job's own node
        assert forall|i2: int|
            0 <= i2 < old(store).urls@.len() implies final(store).urls@[i2] == (
        if job_key_matches(#[trigger] old(store).urls@[i2], *job) && old(
            store,
        ).urls@[i2].job_status != JobStatus::Cancelled {
            with_status(old(store).urls@[i2], JobStatus::Completed, attempts)
        } else {
            old(store).urls@[i2]
        }) by {
            assert(mid.urls@[i2] == old(store).urls@[i2]);
        }
        assert forall|i2: int|
            old(store).urls@.len() <= i2 < final(store).urls@.len() implies node_from_resolved(
            #[trigger] final(store).urls@[i2],
            *job,
            resolved@,
            *request_time,
        ) by {
            let c = choose|c: int|
                0 <= c < children@.len() && #[trigger] mid.urls@[i2] == make_child_node(
                    children@[c],
                );
            assert(mid.urls@[i2].current_depth == job.current_depth + 1);
            assert(!job_key_matches(mid.urls@[i2], *job));
            assert(final(store).urls@[i2] == mid.urls@[i2]);
            assert(child_from_resolved(children@[c], *job, resolved@, n as int, *request_time));
            let k = choose|k: int|
                0 <= k < n && (#[trigger] resolved@[k]).2 is Some && children@[c] == commit_child(
                    *job,
                    resolved@[k].0,
                    resolved@[k].1,
                    resolved@[k].2->0,
                    *request_time,
                );
            assert(final(store).urls@[i2] == make_child_node(
                commit_child(*job, resolved@[k].0, resolved@[k].1, resolved@[k].2->0, *request_time),
            ));
        }
        assert forall|k: int|
            0 <= k < resolved@.len() && (#[trigger] resolved@[k]).2 is Some implies final(store).has_url(job.crawl_id@, resolved@[k].0@, resolved@[k].1@) && crate::store::has_lead(
            final(store).leads@,
            job.crawl_id@,
            node_id(job.http_type@, job.name@),
            node_id(resolved@[k].1@, resolved@[k].0@),
        ) by {
            assert(resolved_has_child(children@, *job, resolved@, k, *request_time));
            let c = choose|c: int|
                0 <= c < children@.len() && #[trigger] children@[c] == commit_child(
                    *job,
                    resolved@[k].0,
                    resolved@[k].1,
                    resolved@[k].2->0,
                    *request_time,
                );
            assert(mid.has_url(children@[c].crawl_id@, children@[c].name@, children@[c].http_type@));
            assert(crate::store::has_lead(
                mid.leads@,
                job.crawl_id@,
                node_id(job.http_type@, job.name@),
                node_id(children@[c].http_type@, children@[c].name@),
            ));
            // the status write keeps every node's key, so the child found in
            // the committed store is still there afterwards
            let iu = choose|iu: int|
                0 <= iu < mid.urls@.len() && crate::store::url_key_is(
                    #[trigger] mid.urls@[iu],
                    job.crawl_id@,
                    resolved@[k].0@,
                    resolved@[k].1@,
                );
            assert(crate::store::url_key_is(
                final(store).urls@[iu],
                job.crawl_id@,
                resolved@[k].0@,
                resolved@[k].1@,
            ));
        }
    }
    true
}


/// Decide a job's commit without touching any store: the children to write
/// (one per answered probe), the job's final state, and whether it
/// succeeded. `feeding_commit` applies this plan to the model store; the
/// binaries apply it to the real one.
pub fn commit_plan(
    job: &UrlJob,
    resolved: &Vec<(String, String, Option<NetworkStats>)>,
    request_time: &String,
) -> (r: (Vec<ChildNode>, JobStatus, bool))
    requires
        1 <= job.requested_depth <= 5,
        1 <= job.current_depth < job.requested_depth,
    ensures
        r.2 <==> exists|k: int| 0 <= k < resolved@.len() && (#[trigger] resolved@[k]).2 is Some,
        r.1 == (if r.2 {
            JobStatus::Completed
        } else {
            JobStatus::Failed
        }),
        (r.0@.len() == 0) <==> !r.2,
        r.0@.len() <= resolved@.len(),
        forall|c: int|
            0 <= c < r.0@.len() ==> child_from_resolved(
                #[trigger] r.0@[c],
                *job,
                resolved@,
                resolved@.len() as int,
                *request_time,
            ),
        forall|k: int|
            0 <= k < resolved@.len() && (#[trigger] resolved@[k]).2 is Some ==> resolved_has_child(
                r.0@,
                *job,
                resolved@,
                k,
                *request_time,
            ),
{
    let n = resolved.len();
    let mut children: Vec<ChildNode> = Vec::new();
    let mut i: usize = 0;
    while i < n
        invariant
            i <= n,
            n == resolved@.len(),
            1 <= job.requested_depth <= 5,
            1 <= job.current_depth < job.requested_depth,
            children@.len() <= i,
            forall|c: int|
                0 <= c < children@.len() ==> child_from_resolved(
                    #[trigger] children@[c],
                    *job,
                    resolved@,
                    i as int,
                    *request_time,
                ),
            forall|k: int|
                0 <= k < i && (#[trigger] resolved@[k]).2 is Some ==> resolved_has_child(
                    children@,
                    *job,
                    resolved@,
                    k,
                    *request_time,
                ),
        decreases n - i,
    {
        let ghost pre = children@;
        let entry = &resolved[i];
        match &entry.2 {
            Some(stats) => {
                let child = ChildNode {
                    name: entry.0.clone(),
                    ip: stats.ip.clone(),
                    domain: stats.domain.clone(),
                    http_type: entry.1.clone(),
                    requested_depth: job.requested_depth,
                    current_depth: job.current_depth + 1,
                    request_time: request_time.clone(),
                    crawl_id: job.crawl_id.clone(),
                };
                proof {
                    assert(child == commit_child(
                        *job,
                        resolved@[i as int].0,
                        resolved@[i as int].1,
                        resolved@[i as int].2->0,
                        *request_time,
                    ));
                }
                children.push(child);
                proof {
                    assert(children@ == pre.push(
                        commit_child(
                            *job,
                            resolved@[i as int].0,
                            resolved@[i as int].1,
                            resolved@[i as int].2->0,
                            *request_time,
                        ),
                    ));
                }
            },
            None => {},
        }
        proof {
            assert forall|c: int| 0 <= c < children@.len() implies child_from_resolved(
                #[trigger] children@[c],
                *job,
                resolved@,
                i + 1,
                *request_time,
            ) by {
                if c < pre.len() {
                    assert(children@[c] == pre[c]);
                    assert(child_from_resolved(pre[c], *job, resolved@, i as int, *request_time));
                    let k0 = choose|k0: int|
                        0 <= k0 < i && (#[trigger] resolved@[k0]).2 is Some && pre[c]
                            == commit_child(
                            *job,
                            resolved@[k0].0,
                            resolved@[k0].1,
                            resolved@[k0].2->0,
                            *request_time,
                        );
                    assert(0 <= k0 < i + 1 && resolved@[k0].2 is Some && children@[c]
                        == commit_child(
                        *job,
                        resolved@[k0].0,
                        resolved@[k0].1,
                        resolved@[k0].2->0,
                        *request_time,
                    ));
                } else {
                    assert(children@[c] == commit_child(
                        *job,
                        resolved@[i as int].0,
                        resolved@[i as int].1,
                        resolved@[i as int].2->0,
                        *request_time,
                    ));
                }
            }
            assert forall|k: int|
                0 <= k < i + 1 && (#[trigger] resolved@[k]).2 is Some implies resolved_has_child(
                children@,
                *job,
                resolved@,
                k,
                *request_time,
            ) by {
                if k < i {
                    assert(resolved_has_child(pre, *job, resolved@, k, *request_time));
                    let c0 = choose|c0: int|
                        0 <= c0 < pre.len() && #[trigger] pre[c0] == commit_child(
                            *job,
                            resolved@[k].0,
                            resolved@[k].1,
                            resolved@[k].2->0,
                            *request_time,
                        );
                    assert(children@[c0] == pre[c0]);
                } else {
                    assert(children@[children@.len() - 1] == commit_child(
                        *job,
                        resolved@[i as int].0,
                        resolved@[i as int].1,
                        resolved@[i as int].2->0,
                        *request_time,
                    ));
                }
            }
        }
        i += 1;
    }
    let ok = !children.is_empty();
    if !ok {
        proof {
            assert forall|k: int|
                0 <= k < resolved@.len() implies !((#[trigger] resolved@[k]).2 is Some) by {
                if resolved@[k].2 is Some {
                    assert(resolved_has_child(children@, *job, resolved@, k, *request_time));
                    let c0 = choose|c0: int|
                        0 <= c0 < children@.len() && #[trigger] children@[c0] == commit_child(
                            *job,
                            resolved@[k].0,
                            resolved@[k].1,
                            resolved@[k].2->0,
                            *request_time,
                        );
                }
            }
        }
        return (children, JobStatus::Failed, false);
    }
    proof {
        assert(children@.len() > 0);
        assert(child_from_resolved(children@[0], *job, resolved@, n as int, *request_time));
        let k0 = choose|k0: int|
            0 <= k0 < n && (#[trigger] resolved@[k0]).2 is Some && children@[0] == commit_child(
                *job,
                resolved@[k0].0,
                resolved@[k0].1,
                resolved@[k0].2->0,
                *request_time,
            );
    }
    (children, JobStatus::Completed, true)
}

} // verus!
