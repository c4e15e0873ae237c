use connect_proxy::backend::SingleHostBackend;

#[test]
fn allows_only_the_configured_pair() {
    let backend = SingleHostBackend::new("good-host".to_owned(), 443);
    assert!(!backend.allows("other-host", 443));
    assert!(!backend.allows("good-host", 80));
    assert!(backend.allows("good-host", 443));
}

#[test]
fn allows_is_case_sensitive() {
    let backend = SingleHostBackend::new("good-host".to_owned(), 443);
    assert!(!backend.allows("GOOD-HOST", 443));
}
