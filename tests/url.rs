use saba_core::url::Url;

fn parsed(raw: &str) -> Url {
    Url::new(raw.to_string()).parse().unwrap()
}

fn parts(u: &Url) -> (String, String, String, String) {
    (u.host(), u.port(), u.path(), u.searchpart())
}

#[test]
fn test_url_host() {
    let url = "http://example.com".to_string();
    let expected = Ok(Url {
        url: url.clone(),
        host: "example.com".to_string(),
        port: "80".to_string(),
        path: "".to_string(),
        searchpart: "".to_string(),
    });
    assert_eq!(expected, Url::new(url).parse());
}

#[test]
fn test_url_host_port() {
    let url = "http://example.com:8888".to_string();
    let expected = Ok(Url {
        url: url.clone(),
        host: "example.com".to_string(),
        port: "8888".to_string(),
        path: "".to_string(),
        searchpart: "".to_string(),
    });
    assert_eq!(expected, Url::new(url).parse());
}

#[test]
fn test_url_host_port_path() {
    let url = "http://example.com:8888/index.html".to_string();
    let expected = Ok(Url {
        url: url.clone(),
        host: "example.com".to_string(),
        port: "8888".to_string(),
        path: "index.html".to_string(),
        searchpart: "".to_string(),
    });
    assert_eq!(expected, Url::new(url).parse());
}

#[test]
fn test_url_host_path() {
    let url = "http://example.com/index.html".to_string();
    let expected = Ok(Url {
        url: url.clone(),
        host: "example.com".to_string(),
        port: "80".to_string(),
        path: "index.html".to_string(),
        searchpart: "".to_string(),
    });
    assert_eq!(expected, Url::new(url).parse());
}

#[test]
fn test_url_host_port_path_searchquery() {
    let url = "http://example.com:8888/index.html?a=123&b=456".to_string();
    let expected = Ok(Url {
        url: url.clone(),
        host: "example.com".to_string(),
        port: "8888".to_string(),
        path: "index.html".to_string(),
        searchpart: "a=123&b=456".to_string(),
    });
    assert_eq!(expected, Url::new(url).parse());
}

#[test]
fn test_no_scheme() {
    let url = "example.com".to_string();
    let expected = Err("Only HTTP scheme is supported.".to_string());
    assert_eq!(expected, Url::new(url).parse());
}

#[test]
fn test_unsupported_scheme() {
    let url = "https://example.com:8888/index.html".to_string();
    let expected = Err("Only HTTP scheme is supported.".to_string());
    assert_eq!(expected, Url::new(url).parse());
}

#[test]
fn new_keeps_address_and_leaves_parts_empty() {
    let u = Url::new("http://a/b".to_string());
    assert_eq!(u.url, "http://a/b");
    assert_eq!(parts(&u), (String::new(), String::new(), String::new(), String::new()));
}

#[test]
fn rejects_empty_and_partial_markers() {
    for raw in ["", "http:/", "http:example.com", "HTTP://example.com", "ftp://x"] {
        assert_eq!(
            Url::new(raw.to_string()).parse(),
            Err("Only HTTP scheme is supported.".to_string())
        );
    }
}

#[test]
fn failed_parse_leaves_value_unchanged() {
    let mut u = Url::new("example.com/x".to_string());
    assert!(u.parse().is_err());
    assert_eq!(u, Url::new("example.com/x".to_string()));
}

#[test]
fn parse_fills_self_as_well() {
    let mut u = Url::new("http://h:1/p?q".to_string());
    let r = u.parse().unwrap();
    assert_eq!(u, r);
    assert_eq!(parts(&u), parts(&r));
}

#[test]
fn marker_in_the_middle_is_accepted_and_not_stripped() {
    let u = parsed("xhttp://host/p");
    assert_eq!(parts(&u), ("xhttp".to_string(), "".to_string(), "/host/p".to_string(), "".to_string()));
}

#[test]
fn only_one_leading_marker_is_stripped() {
    let u = parsed("http://http://host:81/p");
    assert_eq!(
        parts(&u),
        ("http".to_string(), "".to_string(), "/host:81/p".to_string(), "".to_string())
    );
    let u = parsed("http://http://x?q");
    assert_eq!(parts(&u), ("http".to_string(), "".to_string(), "/x".to_string(), "q".to_string()));
}

#[test]
fn bare_marker_gives_empty_host_and_default_port() {
    let u = parsed("http://");
    assert_eq!(parts(&u), ("".to_string(), "80".to_string(), "".to_string(), "".to_string()));
}

#[test]
fn empty_port_after_colon() {
    let u = parsed("http://host:/x");
    assert_eq!(parts(&u), ("host".to_string(), "".to_string(), "x".to_string(), "".to_string()));
}

#[test]
fn only_the_first_delimiters_split() {
    let u = parsed("http://h:1:2/a/b?c?d/e:f");
    assert_eq!(
        parts(&u),
        ("h".to_string(), "1:2".to_string(), "a/b".to_string(), "c?d/e:f".to_string())
    );
}

#[test]
fn colon_after_slash_is_not_a_port() {
    let u = parsed("http://h/a:9");
    assert_eq!(parts(&u), ("h".to_string(), "80".to_string(), "a:9".to_string(), "".to_string()));
}

#[test]
fn question_mark_before_slash_stays_in_host() {
    let u = parsed("http://h?x=1");
    assert_eq!(parts(&u), ("h?x=1".to_string(), "80".to_string(), "".to_string(), "".to_string()));
}

#[test]
fn empty_search_after_question_mark() {
    let u = parsed("http://h/p?");
    assert_eq!(parts(&u), ("h".to_string(), "80".to_string(), "p".to_string(), "".to_string()));
}

#[test]
fn non_ascii_characters_are_kept_whole() {
    let u = parsed("http://bücher.de:ä/weg?ß=ü");
    assert_eq!(
        parts(&u),
        ("bücher.de".to_string(), "ä".to_string(), "weg".to_string(), "ß=ü".to_string())
    );
}

#[test]
fn parsing_twice_gives_equal_results() {
    let raw = "http://example.com:8888/index.html?a=1";
    let mut u = Url::new(raw.to_string());
    let first = u.parse().unwrap();
    let second = u.parse().unwrap();
    assert_eq!(first, second);
    assert_eq!(first, Url::new(raw.to_string()).parse().unwrap());
}

fn compose(u: &Url) -> String {
    let mut r = u.host();
    if u.port() != "80" {
        r = r + ":" + &u.port();
    }
    r = r + "/" + &u.path();
    if !u.searchpart().is_empty() {
        r = r + "?" + &u.searchpart();
    }
    r
}

#[test]
fn recomposed_address_splits_into_the_same_parts() {
    for raw in [
        "http://example.com",
        "http://example.com:80/a?",
        "http://example.com:8888/index.html?a=123&b=456",
        "http://h:/p/q?r?s",
    ] {
        let u = parsed(raw);
        let again = parsed(&("http://".to_string() + &compose(&u)));
        assert_eq!(parts(&again), parts(&u));
    }
    assert_eq!(compose(&parsed("http://example.com:8888/i?a=1")), "example.com:8888/i?a=1");
}

#[test]
fn authority_without_colon_gets_default_port() {
    assert_eq!(parsed("http://example.com/a:b").port(), "80");
    assert_eq!(parsed("http://example.com").port(), "80");
    assert_eq!(parsed("http://example.com:80").port(), "80");
}
