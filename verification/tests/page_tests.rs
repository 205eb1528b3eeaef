use serverbrowser::page::load_target;

#[test]
fn load_target_parses_absolute_urls() {
    let u = load_target("HTTPS://Example.com/a b").unwrap();
    assert_eq!(u.as_str(), "https://example.com/a%20b");
    assert_eq!(load_target("about:blank").unwrap().as_str(), "about:blank");
    assert!(load_target("example.com").is_err());
    assert!(load_target("").is_err());
    assert!(load_target("http://[::1").is_err());
}
