use crawl_core::extract::extract_urls;

#[test]
fn test_extract_urls_basic() {
    let html = r#"<a href="https://google.com">link</a> and http://example.org too"#;
    let urls = extract_urls(html);
    assert_eq!(urls, vec!["https://google.com", "http://example.org"]);
}

#[test]
fn test_extract_urls_strips_paths() {
    let html = "Visit https://example.com/path/to/page for more";
    let urls = extract_urls(html);
    assert_eq!(urls, vec!["https://example.com"]);
}

#[test]
fn test_extract_urls_empty() {
    assert!(extract_urls("no urls here").is_empty());
}

#[test]
fn test_extract_urls_multiple_same_page() {
    let html = "https://a.com https://b.com http://c.org https://a.com";
    let urls = extract_urls(html);
    assert_eq!(
        urls,
        vec!["https://a.com", "https://b.com", "http://c.org", "https://a.com"]
    );
}

#[test]
fn test_extract_urls_with_hyphens_and_dots() {
    let html = "https://my-site.co.uk and http://sub.example-domain.com";
    let urls = extract_urls(html);
    assert_eq!(
        urls,
        vec!["https://my-site.co.uk", "http://sub.example-domain.com"]
    );
}

#[test]
fn test_extract_urls_mixed_text() {
    let html = "Visit https://example.com/path/to/page and http://a.org too";
    let urls = extract_urls(html);
    assert_eq!(urls, vec!["https://example.com", "http://a.org"]);
}

#[test]
fn test_extract_concatenation_preserved() {
    let a = "see https://a.com and http://b.org";
    let b = "then https://c.net again";
    let mut both = extract_urls(a);
    both.extend(extract_urls(b));
    let joined = format!("{} {}", a, b);
    assert_eq!(extract_urls(&joined), both);
}

#[test]
fn test_extract_scheme_without_host_is_no_match() {
    assert!(extract_urls("http:// and https:// alone").is_empty());
}

#[test]
fn test_extract_upper_case_scheme_is_no_match() {
    assert!(extract_urls("HTTP://EXAMPLE.COM").is_empty());
}
