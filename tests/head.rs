use elaine::head::{first_match, parse_request_line, take_equal, Builder, Head, RequestMethod, RequestVersion};

#[test]
fn test_find_header_none() {
    let builder = Builder::new()
        .insert("GET /test HTTP/1.1".to_string())
        .unwrap()
        .insert("Authorization: some-token".to_string())
        .unwrap();

    let head = builder.collect::<Head>();
    assert!(head.find_header("none").is_none());
}

#[test]
fn test_find_header_insensitive() {
    let builder = Builder::new()
        .insert("GET /test HTTP/1.1".to_string())
        .unwrap()
        .insert("Authorization: some-token".to_string())
        .unwrap();
    let head = builder.collect::<Head>();
    assert!(head.find_header("authorization").is_some());
}

#[test]
fn valid_request_lint() {
    let result = parse_request_line(b"whoa");
    assert!(result.is_err());
}

#[test]
fn builder_counts_headers_and_keeps_duplicates() {
    let builder = Builder::new()
        .insert("PUT /up HTTP/1.0".to_string())
        .unwrap()
        .insert("X: 1".to_string())
        .unwrap()
        .insert("x: 2".to_string())
        .unwrap();
    assert_eq!(builder.len(), 2);
    let head = builder.collect::<Head>();
    assert_eq!(head.find_header("X"), Some("1".to_string()));
    assert_eq!(head.version(), Some(RequestVersion::RFC1945));
    assert_eq!(head.method(), Some(RequestMethod::PUT));
}

#[test]
fn builder_leaves_out_line_without_delimiter() {
    let builder = Builder::new().insert("GET / HTTP/1.1".to_string()).unwrap();
    let builder = builder.insert("NoDelimiter".to_string()).unwrap();
    assert_eq!(builder.len(), 0);
}

#[test]
fn method_and_version_parse() {
    assert_eq!(RequestMethod::parse("OPTIONS"), Ok(RequestMethod::OPTIONS));
    assert!(RequestMethod::parse("options").is_err());
    assert_eq!(RequestVersion::parse("HTTP/1.1"), Ok(RequestVersion::RFC2616));
    assert_eq!(RequestVersion::parse("HTTP/1.0"), Ok(RequestVersion::RFC1945));
    assert!(RequestVersion::parse("HTTP/1.2").is_err());
}

#[test]
fn take_equal_ignores_case() {
    assert_eq!(take_equal("Content-Type", "content-TYPE"), Some("content-type".to_string()));
    assert_eq!(take_equal("Host", "Hostname"), None);
    assert_eq!(take_equal("\u{c4}", "\u{e4}"), Some("\u{e4}".to_string()));
    assert_eq!(take_equal("X-\u{3a3}\u{39f}", "x-\u{3c3}\u{3bf}"), Some("x-\u{3c3}\u{3bf}".to_string()));
}

#[test]
fn non_ascii_keys_are_found_in_any_case() {
    let builder = Builder::new()
        .insert("GET / HTTP/1.1".to_string())
        .unwrap()
        .insert("\u{c4}pfel: 1".to_string())
        .unwrap();
    let head = builder.collect::<Head>();
    assert_eq!(head.find_header("\u{e4}PFEL"), Some("1".to_string()));
    assert_eq!(head.find_header("\u{c4}pfel"), Some("1".to_string()));
    assert_eq!(head.find_header("apfel"), None);
}

#[test]
fn first_match_picks_the_earliest() {
    let keys = vec!["a".to_string(), "b".to_string(), "b".to_string()];
    assert_eq!(first_match(&keys, &"b".to_string()), Some(1));
    assert_eq!(first_match(&keys, &"c".to_string()), None);
}
