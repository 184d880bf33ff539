use crawl_core::dns::{build_candidate_domains, resolve_from_answers};
use crawl_core::error::CrawlerError;

#[test]
fn test_candidates_simple_domain() {
    let candidates = build_candidate_domains("GOOGLE.COM", 5);
    assert_eq!(candidates, vec!["GOOGLE.COM"]);
}

#[test]
fn test_candidates_subdomain() {
    let candidates = build_candidate_domains("API.GOOGLE.COM", 5);
    assert_eq!(candidates, vec!["GOOGLE.COM", "API.GOOGLE.COM"]);
}

#[test]
fn test_candidates_deep_subdomain() {
    let candidates = build_candidate_domains("A.B.C.COM", 5);
    assert_eq!(candidates, vec!["C.COM", "B.C.COM", "A.B.C.COM"]);
}

#[test]
fn test_candidates_respects_max_depth() {
    let candidates = build_candidate_domains("A.B.C.D.COM", 3);
    assert_eq!(candidates, vec!["D.COM", "C.D.COM"]);
}

#[test]
fn test_candidates_single_part() {
    let candidates = build_candidate_domains("LOCALHOST", 5);
    assert!(candidates.is_empty());
}

#[test]
fn test_resolve_first_answer_wins() {
    // probes run in order C.COM, B.C.COM, A.B.C.COM; the first answer decides
    let answers = vec![None, Some(String::from("10.0.0.7")), None];
    let stats = resolve_from_answers("A.B.C.COM", 5, &answers).unwrap();
    assert_eq!(stats.domain, "B");
    assert_eq!(stats.ip, "10.0.0.7");
}

#[test]
fn test_resolve_shortest_suffix_first() {
    let answers = vec![Some(String::from("10.0.0.1")), Some(String::from("10.0.0.2")), None];
    let stats = resolve_from_answers("A.B.C.COM", 5, &answers).unwrap();
    assert_eq!(stats.domain, "C");
    assert_eq!(stats.ip, "10.0.0.1");
}

#[test]
fn test_resolve_deepest_suffix() {
    let answers = vec![None, None, Some(String::from("10.0.0.3"))];
    let stats = resolve_from_answers("A.B.C.COM", 5, &answers).unwrap();
    assert_eq!(stats.domain, "A");
    assert_eq!(stats.ip, "10.0.0.3");
}

#[test]
fn test_resolve_no_answer_fails() {
    let answers = vec![None, None, None];
    let err = resolve_from_answers("A.B.C.COM", 5, &answers).unwrap_err();
    match err {
        CrawlerError::DnsResolution { domain, attempts } => {
            assert_eq!(domain, "A.B.C.COM");
            assert_eq!(attempts, 5);
        }
        other => panic!("unexpected error: {:?}", other),
    }
}

#[test]
fn test_resolve_single_label_fails_immediately() {
    let answers: Vec<Option<String>> = Vec::new();
    let err = resolve_from_answers("LOCALHOST", 5, &answers).unwrap_err();
    assert!(matches!(err, CrawlerError::DnsResolution { .. }));
}
