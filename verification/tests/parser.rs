use cookies_rs::parser::read_from_text;
use cookies_rs::Parser;

#[test]
fn test_cookie_parse() {
    let cookies = "#HttpOnly_www.example.com    FALSE   /   FALSE   1591442409  name   value";
    let mut parser = Parser::new(cookies.to_string());
    let cookie = parser.next_cookie().unwrap();

    assert_eq!(cookie.domain, "www.example.com");
    assert_eq!(cookie.http_only, true);
    assert_eq!(cookie.name, "name");
    assert_eq!(cookie.value, "value");
}

#[test]
fn test_skip_comment() {
    let cookies =
        "# Comment \n#HttpOnly_www.example.com    FALSE   /   FALSE   1591442409  name   value";
    let mut parser = Parser::new(cookies.to_string());
    assert!(parser.next_cookie_line().is_some());
    assert_eq!(None, parser.next_cookie_line());
}

#[test]
fn test_cookie_jar() {
    let cookies =
        "# Comment \n# Comment\n\n#HttpOnly_www.example.com    FALSE   /   FALSE   1591442409  name   value";
    let mut parser = Parser::new(cookies.to_string());
    parser.parse();
    let jar = parser.cookie_jar();

    assert_eq!(jar.iter().count(), 1);
    let cookie = jar.get("name");
    assert!(cookie.is_some());
    assert_eq!(cookie.unwrap().name(), "name");
    assert_eq!(cookie.unwrap().value(), "value");
}

#[test]
fn test_end_to_end() {
    let cookies =
        "# Comment \n# Comment\n\n#HttpOnly_www.example.com\tFALSE\t/\tFALSE\t1591442409\tname\tvalue";
    let jar = read_from_text(cookies.to_string());

    assert_eq!(jar.iter().count(), 1);
    let cookie = jar.get("name").unwrap();
    assert_eq!(cookie.name(), "name");
    assert_eq!(cookie.value(), "value");
    assert_eq!(cookie.domain(), Some("www.example.com"));
    assert_eq!(cookie.http_only(), Some(true));
    assert_eq!(cookie.secure(), Some(false));
    assert_eq!(cookie.path(), Some("/"));
    assert_eq!(
        cookie.expires_datetime().unwrap().unix_timestamp(),
        1591442409
    );
}

#[test]
fn test_value_with_spaces() {
    let cookies = "www.example.com\tFALSE\t/\tFALSE\t0\tsession\tsome value with spaces";
    let mut parser = Parser::new(cookies.to_string());
    let cookie = parser.next_cookie().unwrap();

    assert_eq!(cookie.name, "session");
    assert_eq!(cookie.value, "some value with spaces");
    assert_eq!(cookie.http_only, false);
}

#[test]
fn test_secure_variants() {
    let cookies = "a.com TRUE / TRUE 0 n1 v\na.com TRUE / FALSE 0 n2 v\na.com TRUE / true 0 n3 v\na.com TRUE / 1 0 n4 v";
    let mut parser = Parser::new(cookies.to_string());
    assert_eq!(parser.next_cookie().unwrap().secure, true);
    assert_eq!(parser.next_cookie().unwrap().secure, false);
    assert_eq!(parser.next_cookie().unwrap().secure, false);
    assert_eq!(parser.next_cookie().unwrap().secure, false);
}

#[test]
fn test_bad_expiry_epoch() {
    let cookies = "a.com TRUE / FALSE soon n v";
    let mut parser = Parser::new(cookies.to_string());
    let cookie = parser.next_cookie().unwrap();
    assert_eq!(cookie.expires, 0);

    let jar = read_from_text("a.com TRUE / FALSE soon n v".to_string());
    let stored = jar.get("n").unwrap();
    assert_eq!(stored.expires_datetime().unwrap().unix_timestamp(), 0);
}

#[test]
fn test_signed_expiry() {
    let cookies = "a.com TRUE / FALSE -5 n1 v\na.com TRUE / FALSE +123 n2 v";
    let mut parser = Parser::new(cookies.to_string());
    assert_eq!(parser.next_cookie().unwrap().expires, -5);
    assert_eq!(parser.next_cookie().unwrap().expires, 123);
}

#[test]
fn test_overflow_expiry() {
    let cookies = "a.com TRUE / FALSE 99999999999999999999 n v";
    let mut parser = Parser::new(cookies.to_string());
    assert_eq!(parser.next_cookie().unwrap().expires, 0);
}

#[test]
fn test_malformed_line_skipped() {
    let cookies = "example.com TRUE /\nexample.com\tTRUE\t/\tTRUE\t0\tn\tv";
    let jar = read_from_text(cookies.to_string());
    assert_eq!(jar.iter().count(), 1);
    assert_eq!(jar.get("n").unwrap().value(), "v");
}

#[test]
fn test_blank_lines_skipped() {
    let cookies = "   \n\t\t\n\nexample.com FALSE / FALSE 0 k v";
    let mut parser = Parser::new(cookies.to_string());
    assert_eq!(
        parser.next_cookie_line().unwrap(),
        "example.com FALSE / FALSE 0 k v"
    );
    assert_eq!(parser.next_cookie_line(), None);

    let mut blank_only = Parser::new("   \n\t\n".to_string());
    assert_eq!(blank_only.next_cookie_line(), None);
}

#[test]
fn test_duplicate_name_later_wins() {
    let cookies = "example.com TRUE / FALSE 0 n first\nexample.com TRUE / FALSE 0 n second";
    let jar = read_from_text(cookies.to_string());
    assert_eq!(jar.iter().count(), 1);
    assert_eq!(jar.get("n").unwrap().value(), "second");
}

#[test]
fn test_two_passes_equal() {
    let cookies = "a.com TRUE / TRUE 10 n1 v1\nb.com FALSE /x FALSE 20 n2 v2\n# skip\nbad line\nc.com TRUE /y TRUE 30 n3 v3";
    let jar1 = read_from_text(cookies.to_string());
    let jar2 = read_from_text(cookies.to_string());

    assert_eq!(jar1.iter().count(), jar2.iter().count());
    for cookie in jar1.iter() {
        let other = jar2.get(cookie.name()).unwrap();
        assert_eq!(cookie.value(), other.value());
        assert_eq!(cookie.domain(), other.domain());
        assert_eq!(cookie.path(), other.path());
        assert_eq!(cookie.secure(), other.secure());
        assert_eq!(cookie.http_only(), other.http_only());
        assert_eq!(cookie.expires_datetime(), other.expires_datetime());
    }
}

#[test]
fn test_space_before_hash_is_candidate() {
    // The comment check runs on the raw line: with a space before the
    // `#`, the line is no comment, only a malformed candidate.
    let cookies = " # not a comment";
    let mut parser = Parser::new(cookies.to_string());
    assert_eq!(parser.next_cookie_line().unwrap(), "# not a comment");

    let mut again = Parser::new(" # not a comment".to_string());
    assert!(again.next_cookie().is_none());
}

#[test]
fn test_domain_stored_verbatim() {
    let cookies = ".example.com TRUE / FALSE 0 n v";
    let mut parser = Parser::new(cookies.to_string());
    assert_eq!(parser.next_cookie().unwrap().domain, ".example.com");
}

#[test]
fn test_empty_input() {
    let jar = read_from_text(String::new());
    assert_eq!(jar.iter().count(), 0);
}
