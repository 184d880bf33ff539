use crawl_core::normalize_url;

#[test]
fn test_normalize_https_with_www() {
    let (name, proto) = normalize_url("https://www.Google.com");
    assert_eq!(name, "GOOGLE.COM");
    assert_eq!(proto, "HTTPS://");
}

#[test]
fn test_normalize_http_no_www() {
    let (name, proto) = normalize_url("http://example.org");
    assert_eq!(name, "EXAMPLE.ORG");
    assert_eq!(proto, "HTTP://");
}

#[test]
fn test_normalize_https_no_www() {
    let (name, proto) = normalize_url("https://google.com");
    assert_eq!(name, "GOOGLE.COM");
    assert_eq!(proto, "HTTPS://");
}

#[test]
fn test_normalize_preserves_subdomains() {
    let (name, proto) = normalize_url("https://api.sub.example.com");
    assert_eq!(name, "API.SUB.EXAMPLE.COM");
    assert_eq!(proto, "HTTPS://");
}

#[test]
fn test_normalize_http_with_www() {
    let (name, proto) = normalize_url("http://www.example.com");
    assert_eq!(name, "EXAMPLE.COM");
    assert_eq!(proto, "HTTP://");
}

#[test]
fn test_normalize_preserves_www_in_subdomain() {
    let (name, proto) = normalize_url("https://subdomain.www.example.com");
    assert_eq!(name, "SUBDOMAIN.WWW.EXAMPLE.COM");
    assert_eq!(proto, "HTTPS://");
}

#[test]
fn url_normalize_test_normalize_https_with_www() {
    let (name, proto) = normalize_url("https://www.Google.com");
    assert_eq!(name, "GOOGLE.COM");
    assert_eq!(proto, "HTTPS://");
}

#[test]
fn url_normalize_test_normalize_http_no_www() {
    let (name, proto) = normalize_url("http://example.org");
    assert_eq!(name, "EXAMPLE.ORG");
    assert_eq!(proto, "HTTP://");
}

#[test]
fn url_normalize_test_normalize_https_no_www() {
    let (name, proto) = normalize_url("https://google.com");
    assert_eq!(name, "GOOGLE.COM");
    assert_eq!(proto, "HTTPS://");
}

#[test]
fn url_normalize_test_normalize_preserves_subdomains() {
    let (name, proto) = normalize_url("https://api.sub.example.com");
    assert_eq!(name, "API.SUB.EXAMPLE.COM");
    assert_eq!(proto, "HTTPS://");
}

#[test]
fn url_normalize_test_normalize_http_with_www() {
    let (name, proto) = normalize_url("http://www.example.com");
    assert_eq!(name, "EXAMPLE.COM");
    assert_eq!(proto, "HTTP://");
}

#[test]
fn test_normalize_without_scheme_defaults_to_http() {
    let (name, proto) = normalize_url("www.example.com");
    assert_eq!(name, "EXAMPLE.COM");
    assert_eq!(proto, "HTTP://");
}

#[test]
fn test_normalize_round_trip_is_stable() {
    let (name, proto) = normalize_url("https://www.Google.com");
    let rejoined = format!("{}{}", proto, name);
    let (name2, proto2) = normalize_url(&rejoined);
    assert_eq!(name2, name);
    assert_eq!(proto2, proto);
}

#[test]
fn test_normalize_round_trip_no_scheme() {
    let (name, proto) = normalize_url("Sub.Example.org");
    let rejoined = format!("{}{}", proto, name);
    let (name2, proto2) = normalize_url(&rejoined);
    assert_eq!(name2, name);
    assert_eq!(proto2, proto);
}
