use crawl_core::config::Config;
use crawl_core::dns::NetworkStats;
use crawl_core::error::{crawler_error_to_status, CrawlerError};
use crawl_core::extract::PageData;
use crawl_core::feeder::{commit_plan, feeding_commit, next_backoff, upper_candidates, validate_job};
use crawl_core::graphdata::get_graph_data;
use crawl_core::lifecycle::{derived_status, get_crawl_progress, get_crawl_stats, list_crawls};
use crawl_core::manager::{list_window, seed_crawl, validate_depth};
use crawl_core::store::{GraphStore, JobStatus, UrlJob};

fn child(name: &str, ip: &str, domain: &str, http: &str) -> (String, String, String, String) {
    (name.to_string(), ip.to_string(), domain.to_string(), http.to_string())
}

fn seed(store: &mut GraphStore, depth: i64, children: Vec<(String, String, String, String)>) -> String {
    let stats = NetworkStats { domain: "EXAMPLE".to_string(), ip: "93.184.216.34".to_string() };
    let resp = seed_crawl(
        store,
        &"EXAMPLE.COM".to_string(),
        &"HTTP://".to_string(),
        &stats,
        depth,
        &"120ms".to_string(),
        &children,
    )
    .unwrap();
    assert_eq!(resp.status, "running");
    assert_eq!(resp.crawl_id.len(), 36);
    resp.crawl_id
}

#[test]
fn test_depth_validation_bounds() {
    assert!(!validate_depth(0));
    assert!(validate_depth(1));
    assert!(validate_depth(5));
    assert!(!validate_depth(6));
    assert!(!validate_depth(-1));
}

#[test]
fn test_seed_depth_one_completes_immediately() {
    let mut store = GraphStore::new();
    let cid = seed(
        &mut store,
        1,
        vec![child("A.COM", "1.1.1.1", "A", "HTTP://"), child("B.ORG", "2.2.2.2", "B", "HTTPS://")],
    );
    let progress = get_crawl_progress(&store, &cid).unwrap();
    assert_eq!(progress.pending, 0);
    assert_eq!(progress.in_progress, 0);
    assert_eq!(progress.completed, 2);
    assert_eq!(progress.total, 2);
    assert_eq!(progress.status, "completed");
    assert_eq!(progress.root_url, "HTTP://EXAMPLE.COM");
    assert_eq!(progress.requested_depth, 1);
    // no feeder work is required
    assert!(store.fetch_job(0, 1).is_none());
}

#[test]
fn test_seed_deeper_crawl_is_running() {
    let mut store = GraphStore::new();
    let cid = seed(&mut store, 2, vec![child("A.COM", "1.1.1.1", "A", "HTTP://")]);
    let progress = get_crawl_progress(&store, &cid).unwrap();
    assert_eq!(progress.pending, 1);
    assert_eq!(progress.status, "running");
}

#[test]
fn test_progress_of_unknown_crawl_is_none() {
    let store = GraphStore::new();
    assert!(get_crawl_progress(&store, "no-such-crawl").is_none());
}

#[test]
fn test_claims_are_exclusive_and_exhaustive() {
    let mut store = GraphStore::new();
    let kids: Vec<_> = (0..10).map(|i| child(&format!("HOST{}.COM", i), "1.1.1.1", "H", "HTTP://")).collect();
    seed(&mut store, 2, kids);
    // ten pending jobs: ten claims succeed, each a different URL, then none
    let mut names = Vec::new();
    for _ in 0..10 {
        let job = store.fetch_job(0, 1).expect("a pending job");
        assert_eq!(job.job_status, JobStatus::InProgress);
        assert!(!names.contains(&job.name));
        names.push(job.name);
    }
    assert!(store.fetch_job(0, 1).is_none());
}

#[test]
fn test_stale_claim_is_reclaimable() {
    let mut store = GraphStore::new();
    seed(&mut store, 2, vec![child("A.COM", "1.1.1.1", "A", "HTTP://")]);
    let job = store.fetch_job(0, 1).unwrap();
    // while the claim is fresh nobody else gets the job
    assert!(store.fetch_job(0, 1).is_none());
    assert!(store.fetch_job(1, 1).is_none());
    // once the claim is older than the stale timeout a second feeder takes it
    let reclaimed = store.fetch_job(2, 1).expect("stale job reclaimed");
    assert_eq!(reclaimed.name, job.name);
}

#[test]
fn test_fresh_work_preferred_over_stale() {
    let mut store = GraphStore::new();
    seed(
        &mut store,
        2,
        vec![child("A.COM", "1.1.1.1", "A", "HTTP://"), child("B.COM", "1.1.1.2", "B", "HTTP://")],
    );
    let first = store.fetch_job(0, 1).unwrap();
    // the other job is pending; a late claim takes it before reclaiming
    let second = store.fetch_job(5, 1).unwrap();
    assert_ne!(first.name, second.name);
}

#[test]
fn test_reset_to_pending_releases_claim() {
    let mut store = GraphStore::new();
    seed(&mut store, 2, vec![child("A.COM", "1.1.1.1", "A", "HTTP://")]);
    let job = store.fetch_job(0, 1).unwrap();
    store.reset_to_pending(&job);
    let again = store.fetch_job(0, 1).expect("released job claimable at once");
    assert_eq!(again.name, job.name);
}

#[test]
fn test_cancellation_clears_pending_and_in_progress() {
    let mut store = GraphStore::new();
    let kids: Vec<_> = (0..4).map(|i| child(&format!("H{}.COM", i), "1.1.1.1", "H", "HTTP://")).collect();
    let cid = seed(&mut store, 3, kids);
    let job = store.fetch_job(0, 1).unwrap();
    assert!(!store.is_cancelled(&job));
    assert!(store.cancel_crawl(&cid));
    assert!(store.is_cancelled(&job));
    let stats = get_crawl_stats(&store, &cid).unwrap();
    assert_eq!(stats.status_counts.pending, 0);
    assert_eq!(stats.status_counts.in_progress, 0);
    assert_eq!(stats.status_counts.cancelled, 4);
    // no further work comes out of the cancelled crawl
    assert!(store.fetch_job(10, 1).is_none());
    let progress = get_crawl_progress(&store, &cid).unwrap();
    assert_eq!(progress.status, "completed");
}

#[test]
fn test_cancelling_unknown_crawl_fails() {
    let mut store = GraphStore::new();
    assert!(!store.cancel_crawl("missing"));
}

#[test]
fn test_cancelled_job_is_not_overwritten() {
    let mut store = GraphStore::new();
    let cid = seed(&mut store, 2, vec![child("A.COM", "1.1.1.1", "A", "HTTP://")]);
    let job = store.fetch_job(0, 1).unwrap();
    assert!(store.cancel_crawl(&cid));
    // a racing completion write must not resurrect the job
    store.update_job_status(&job, JobStatus::Completed, 0);
    let stats = get_crawl_stats(&store, &cid).unwrap();
    assert_eq!(stats.status_counts.cancelled, 1);
    assert_eq!(stats.status_counts.completed, 0);
}

#[test]
fn test_validate_job_success_changes_nothing() {
    let mut store = GraphStore::new();
    seed(&mut store, 2, vec![child("A.COM", "1.1.1.1", "A", "HTTP://")]);
    let mut job = store.fetch_job(0, 1).unwrap();
    let config = Config::with_defaults("bolt://h".into(), "u".into(), "p".into());
    let page = PageData { html: "<html/>".to_string(), elapsed_ms: 12 };
    let out = validate_job(&mut store, &config, &mut job, Ok(page));
    assert!(out.is_some());
    assert_eq!(store.urls[0].job_status, JobStatus::InProgress);
}

#[test]
fn test_validate_job_client_error_fails_permanently() {
    let mut store = GraphStore::new();
    seed(&mut store, 2, vec![child("A.COM", "1.1.1.1", "A", "HTTP://")]);
    let mut job = store.fetch_job(0, 1).unwrap();
    let config = Config::with_defaults("bolt://h".into(), "u".into(), "p".into());
    let err = CrawlerError::HttpStatus { url: "HTTP://A.COM".to_string(), status: 404 };
    let out = validate_job(&mut store, &config, &mut job, Err(err));
    assert!(out.is_none());
    assert_eq!(store.urls[0].job_status, JobStatus::Failed);
    assert_eq!(job.attempts, Some(1));
}

#[test]
fn test_validate_job_transient_error_retries_then_fails() {
    let mut store = GraphStore::new();
    seed(&mut store, 2, vec![child("A.COM", "1.1.1.1", "A", "HTTP://")]);
    let config = Config::with_defaults("bolt://h".into(), "u".into(), "p".into());
    for attempt in 1..=3i64 {
        let mut job = store.fetch_job(attempt, 0).expect("job claimable again");
        let err = CrawlerError::HttpTimeout { url: "HTTP://A.COM".to_string() };
        assert!(validate_job(&mut store, &config, &mut job, Err(err)).is_none());
        assert_eq!(job.attempts, Some(attempt));
        if attempt < 3 {
            // below max_attempts the job goes back to the pool
            assert_eq!(store.urls[0].job_status, JobStatus::Pending);
        } else {
            assert_eq!(store.urls[0].job_status, JobStatus::Failed);
        }
    }
}

#[test]
fn test_feeding_commit_writes_children_and_completes() {
    let mut store = GraphStore::new();
    let cid = seed(&mut store, 2, vec![child("A.COM", "1.1.1.1", "A", "HTTP://")]);
    let job = store.fetch_job(0, 1).unwrap();
    let resolved = vec![
        (
            "B.ORG".to_string(),
            "HTTPS://".to_string(),
            Some(NetworkStats { domain: "B".to_string(), ip: "2.2.2.2".to_string() }),
        ),
        ("C.NET".to_string(), "HTTP://".to_string(), None),
    ];
    assert!(feeding_commit(&mut store, &job, &resolved, &"90ms".to_string()));
    assert!(store.url_exists(&cid, &"B.ORG".to_string(), &"HTTPS://".to_string()));
    assert!(!store.url_exists(&cid, &"C.NET".to_string(), &"HTTP://".to_string()));
    let stats = get_crawl_stats(&store, &cid).unwrap();
    assert_eq!(stats.status_counts.completed, 2);  // the job and its depth-2 child
    assert_eq!(stats.max_depth_reached, 2);
    let progress = get_crawl_progress(&store, &cid).unwrap();
    assert_eq!(progress.status, "completed");
}

#[test]
fn test_feeding_commit_all_dns_failed_marks_failed() {
    let mut store = GraphStore::new();
    let cid = seed(&mut store, 2, vec![child("A.COM", "1.1.1.1", "A", "HTTP://")]);
    let job = store.fetch_job(0, 1).unwrap();
    let resolved = vec![("B.ORG".to_string(), "HTTPS://".to_string(), None)];
    assert!(!feeding_commit(&mut store, &job, &resolved, &"90ms".to_string()));
    let stats = get_crawl_stats(&store, &cid).unwrap();
    assert_eq!(stats.status_counts.failed, 1);
    assert_eq!(stats.total_urls, 1);
}

#[test]
fn test_filter_new_urls_drops_known_ids() {
    let mut store = GraphStore::new();
    seed(&mut store, 2, vec![child("A.COM", "1.1.1.1", "A", "HTTP://")]);
    let candidates = vec![
        "HTTP://A.COM".to_string(),
        "HTTPS://A.COM".to_string(),
        "HTTP://NEW.ORG".to_string(),
    ];
    let fresh = store.filter_new_urls(&candidates);
    // the http variant exists; the https variant of the same host is new
    assert_eq!(fresh, vec!["HTTPS://A.COM", "HTTP://NEW.ORG"]);
}

#[test]
fn test_upper_candidates_dedupes_preserving_order() {
    let extracted = vec![
        "https://a.com".to_string(),
        "HTTPS://A.COM".to_string(),
        "http://b.org".to_string(),
        "https://a.com".to_string(),
    ];
    let cands = upper_candidates(&extracted);
    assert_eq!(cands, vec!["HTTPS://A.COM", "HTTP://B.ORG"]);
}

#[test]
fn test_backoff_doubles_and_caps() {
    assert_eq!(next_backoff(100, 30000), 200);
    assert_eq!(next_backoff(200, 30000), 400);
    assert_eq!(next_backoff(16000, 30000), 30000);
    assert_eq!(next_backoff(30000, 30000), 30000);
}

#[test]
fn test_error_status_mapping() {
    let url = "HTTP://A.COM".to_string();
    assert_eq!(crawler_error_to_status(&CrawlerError::HttpTimeout { url: url.clone() }), 504);
    assert_eq!(
        crawler_error_to_status(&CrawlerError::HttpStatus { url: url.clone(), status: 404 }),
        404
    );
    assert_eq!(
        crawler_error_to_status(&CrawlerError::HttpStatus { url: url.clone(), status: 500 }),
        502
    );
    assert_eq!(crawler_error_to_status(&CrawlerError::HttpRequest { url: url.clone() }), 502);
    assert_eq!(crawler_error_to_status(&CrawlerError::HttpBodyRead { url: url.clone() }), 502);
    assert_eq!(
        crawler_error_to_status(
            &CrawlerError::DnsResolution { domain: "A.COM".to_string(), attempts: 5 }
        ),
        502
    );
    assert_eq!(
        crawler_error_to_status(
            &CrawlerError::Neo4jQuery { message: "boom".to_string() }
        ),
        500
    );
    assert_eq!(
        crawler_error_to_status(
            &CrawlerError::Neo4jConnection { message: "down".to_string() }
        ),
        500
    );
}

#[test]
fn test_list_crawls_filters_and_paginates() {
    let mut store = GraphStore::new();
    // a finished crawl and a running one
    let done = seed(&mut store, 1, vec![child("A.COM", "1.1.1.1", "A", "HTTP://")]);
    let running = seed(&mut store, 2, vec![child("B.COM", "1.1.1.2", "B", "HTTP://")]);
    let (all, total) = list_crawls(&store, None, 20, 0);
    assert_eq!(total, 2);
    assert_eq!(all.len(), 2);
    let (completed, total_completed) = list_crawls(&store, Some("completed"), 20, 0);
    assert_eq!(total_completed, 1);
    assert_eq!(completed[0].crawl_id, done);
    assert_eq!(completed[0].status, "completed");
    let (running_list, total_running) = list_crawls(&store, Some("running"), 20, 0);
    assert_eq!(total_running, 1);
    assert_eq!(running_list[0].crawl_id, running);
    // pagination windows
    let (page, total_all) = list_crawls(&store, None, 1, 1);
    assert_eq!(total_all, 2);
    assert_eq!(page.len(), 1);
    let (past_end, _) = list_crawls(&store, None, 20, 5);
    assert!(past_end.is_empty());
}

#[test]
fn test_list_window_defaults_and_caps() {
    assert_eq!(list_window(None, None), (20, 0));
    assert_eq!(list_window(Some(500), Some(-3)), (100, 0));
    assert_eq!(list_window(Some(7), Some(4)), (7, 4));
    assert_eq!(list_window(Some(-1), None), (0, 0));
}

#[test]
fn test_graph_data_nodes_and_edges() {
    let mut store = GraphStore::new();
    let cid = seed(
        &mut store,
        2,
        vec![child("A.COM", "1.1.1.1", "A", "HTTP://"), child("B.COM", "1.1.1.2", "B", "HTTPS://")],
    );
    let data = get_graph_data(&store, &cid).unwrap();
    assert_eq!(data.nodes.len(), 3);
    assert_eq!(data.nodes[0].node_type, "ROOT");
    assert_eq!(data.nodes[0].id, "HTTP://EXAMPLE.COM");
    assert_eq!(data.nodes[0].status, "root");
    assert_eq!(data.nodes[0].depth, 0);
    let mut ids: Vec<_> = data.nodes.iter().map(|n| n.id.clone()).collect();
    ids.sort();
    ids.dedup();
    assert_eq!(ids.len(), 3);
    assert_eq!(data.edges.len(), 2);
    for edge in &data.edges {
        assert_eq!(edge.source, "HTTP://EXAMPLE.COM");
    }
    assert!(get_graph_data(&store, "missing").is_none());
}

#[test]
fn test_stats_unique_domains() {
    let mut store = GraphStore::new();
    let cid = seed(
        &mut store,
        2,
        vec![
            child("A.COM", "1.1.1.1", "SHARED", "HTTP://"),
            child("B.COM", "1.1.1.2", "SHARED", "HTTP://"),
            child("C.COM", "1.1.1.3", "OTHER", "HTTP://"),
        ],
    );
    let stats = get_crawl_stats(&store, &cid).unwrap();
    assert_eq!(stats.total_urls, 3);
    assert_eq!(stats.unique_domains, 2);
    assert_eq!(stats.max_depth_reached, 1);
    assert!(get_crawl_stats(&store, "missing").is_none());
}

#[test]
fn test_crawl_ids_are_distinct() {
    let mut store = GraphStore::new();
    let a = seed(&mut store, 1, vec![child("A.COM", "1.1.1.1", "A", "HTTP://")]);
    let b = seed(&mut store, 1, vec![child("B.COM", "1.1.1.2", "B", "HTTP://")]);
    assert_ne!(a, b);
}

#[test]
fn test_duplicate_children_created_once() {
    let mut store = GraphStore::new();
    let cid = seed(
        &mut store,
        2,
        vec![child("A.COM", "1.1.1.1", "A", "HTTP://"), child("A.COM", "9.9.9.9", "A", "HTTP://")],
    );
    let stats = get_crawl_stats(&store, &cid).unwrap();
    assert_eq!(stats.total_urls, 1);
    // the first write wins; the node is not mutated afterwards
    assert_eq!(store.urls[0].ip, "1.1.1.1");
}

#[test]
fn test_commit_plan_decides_without_store() {
    let job = UrlJob {
        name: "A.COM".to_string(),
        http_type: "HTTP://".to_string(),
        job_status: JobStatus::InProgress,
        requested_depth: 3,
        current_depth: 1,
        attempts: Some(0),
        crawl_id: "crawl".to_string(),
    };
    let resolved = vec![
        (
            "B.ORG".to_string(),
            "HTTP://".to_string(),
            Some(NetworkStats { domain: "B".to_string(), ip: "2.2.2.2".to_string() }),
        ),
        ("C.NET".to_string(), "HTTP://".to_string(), None),
    ];
    let (children, status, ok) = commit_plan(&job, &resolved, &"10ms".to_string());
    assert!(ok);
    assert_eq!(status, JobStatus::Completed);
    assert_eq!(children.len(), 1);
    assert_eq!(children[0].name, "B.ORG");
    assert_eq!(children[0].current_depth, 2);
    assert_eq!(children[0].requested_depth, 3);
    assert_eq!(children[0].crawl_id, "crawl");

    let none_resolved = vec![("B.ORG".to_string(), "HTTP://".to_string(), None)];
    let (children, status, ok) = commit_plan(&job, &none_resolved, &"10ms".to_string());
    assert!(!ok);
    assert_eq!(status, JobStatus::Failed);
    assert!(children.is_empty());
}

#[test]
fn test_derived_status_text() {
    assert_eq!(derived_status(0, 0), "completed");
    assert_eq!(derived_status(1, 0), "running");
    assert_eq!(derived_status(0, 2), "running");
}
