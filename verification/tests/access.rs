use wasi_experimental_http_wasmer::access::{
    host_of, hosts_of, is_allowed, is_allowed_checked, is_host_allowed, list_answers, UrlHost,
};
use wasi_experimental_http_wasmer::HttpError;

fn urls(list: &[&str]) -> Vec<String> {
    list.iter().map(|url| url.to_string()).collect()
}

#[test]
fn test_allowed_domains() {
    let allowed_domains = vec![
        "https://api.brigade.sh".to_string(),
        "https://example.com".to_string(),
        "http://192.168.0.1".to_string(),
    ];

    assert_eq!(
        true,
        is_allowed(
            "https://api.brigade.sh/healthz",
            Some(allowed_domains.as_ref())
        )
        .unwrap()
    );
    assert_eq!(
        true,
        is_allowed(
            "https://example.com/some/path/with/more/paths",
            Some(allowed_domains.as_ref())
        )
        .unwrap()
    );
    assert_eq!(
        true,
        is_allowed("http://192.168.0.1/login", Some(allowed_domains.as_ref())).unwrap()
    );
    assert_eq!(
        false,
        is_allowed("https://test.brigade.sh", Some(allowed_domains.as_ref())).unwrap()
    );
}

#[test]
fn no_list_allows_nothing() {
    assert_eq!(is_allowed("https://example.com", None), Ok(false));
    assert_eq!(is_allowed("nonsense", None), Err(HttpError::InvalidUrl));
    assert_eq!(is_allowed("mailto:a@example.com", None), Err(HttpError::InvalidUrl));
}

#[test]
fn empty_list_allows_nothing() {
    let none: Vec<String> = Vec::new();
    assert_eq!(is_allowed("https://example.com", Some(&none)), Ok(false));
}

#[test]
fn bare_host_name_in_list_is_an_error() {
    let list = urls(&["https://example.com", "example.com"]);
    assert_eq!(is_allowed("https://example.com", Some(&list)), Err(HttpError::InvalidUrl));
}

#[test]
fn only_the_host_counts() {
    let list = urls(&["https://example.com:8443/path?query"]);
    assert_eq!(is_allowed("http://EXAMPLE.com/other", Some(&list)), Ok(true));
    assert_eq!(is_allowed("http://sub.example.com", Some(&list)), Ok(false));
}

#[test]
fn longer_list_allows_more() {
    let short = urls(&["https://example.com"]);
    let long = urls(&["https://example.com", "https://example.org"]);
    assert_eq!(is_allowed("https://example.com", Some(&short)), Ok(true));
    assert_eq!(is_allowed("https://example.com", Some(&long)), Ok(true));
    assert_eq!(is_allowed("https://example.org", Some(&short)), Ok(false));
    assert_eq!(is_allowed("https://example.org", Some(&long)), Ok(true));
}

#[test]
fn list_with_hostless_url_does_not_answer() {
    let list = urls(&["https://example.com", "mailto:a@example.com"]);
    assert_eq!(is_allowed_checked("https://example.com", Some(&list)), None);
    // An unparsable entry is found before the hostless one matters.
    let list = urls(&["mailto:a@example.com", "nonsense"]);
    assert_eq!(
        is_allowed_checked("https://example.com", Some(&list)),
        Some(Err(HttpError::InvalidUrl))
    );
    // And so is a bad URL of the guest.
    let list = urls(&["mailto:a@example.com"]);
    assert_eq!(is_allowed_checked("nonsense", Some(&list)), Some(Err(HttpError::InvalidUrl)));
    assert_eq!(is_allowed_checked("https://example.com", None), Some(Ok(false)));
}

#[test]
fn hosts_of_urls() {
    assert_eq!(host_of("https://user@Example.com:80/x"), UrlHost::Named("example.com".to_string()));
    assert_eq!(host_of("data:text/plain,x"), UrlHost::Hostless);
    assert_eq!(host_of("/relative"), UrlHost::Unparsable);
    assert_eq!(hosts_of(None), None);
    assert_eq!(
        hosts_of(Some(&urls(&["http://[::1]/", "x"]))),
        Some(vec![UrlHost::Named("[::1]".to_string()), UrlHost::Unparsable])
    );
}

#[test]
fn decision_on_given_hosts() {
    let a = UrlHost::Named("a".to_string());
    let b = UrlHost::Named("b".to_string());
    let list = vec![UrlHost::Named("x".to_string()), UrlHost::Named("a".to_string())];
    assert_eq!(is_host_allowed(&a, Some(&list)), Ok(true));
    assert_eq!(is_host_allowed(&b, Some(&list)), Ok(false));
    assert_eq!(is_host_allowed(&a, None), Ok(false));
    assert_eq!(is_host_allowed(&UrlHost::Hostless, Some(&list)), Err(HttpError::InvalidUrl));
    assert_eq!(is_host_allowed(&UrlHost::Unparsable, Some(&list)), Err(HttpError::InvalidUrl));
    let bad = vec![UrlHost::Hostless, UrlHost::Unparsable];
    assert!(list_answers(&a, Some(&bad)));
    assert_eq!(is_host_allowed(&a, Some(&bad)), Err(HttpError::InvalidUrl));
    assert!(!list_answers(&a, Some(&vec![UrlHost::Hostless])));
    assert!(list_answers(&UrlHost::Hostless, Some(&vec![UrlHost::Hostless])));
}
