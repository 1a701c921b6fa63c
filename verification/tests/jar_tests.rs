use yota::jar::{is_valid_header_value, CookieJar, SetCookie};

fn candidate(name: &str, value: &str, domain: Option<&str>, path: Option<&str>) -> SetCookie {
    SetCookie {
        name: name.as_bytes().to_vec(),
        value: value.as_bytes().to_vec(),
        domain: domain.map(|d| d.as_bytes().to_vec()),
        path: path.map(|p| p.as_bytes().to_vec()),
        expires: None,
    }
}

#[test]
fn test_ingest_last_write_wins() {
    let mut jar = CookieJar::new();
    let mut first = candidate("sid", "old", Some("yota.ru"), Some("/"));
    first.expires = Some(100);
    jar.ingest(&first, b"my.yota.ru", b"/");
    let second = candidate("sid", "new", Some("yota.ru"), Some("/"));
    jar.ingest(&second, b"my.yota.ru", b"/");

    assert_eq!(jar.len(), 1);
    let header = jar.select(b"my.yota.ru", b"/", 0);
    assert_eq!(header, b"sid=new".to_vec());
    // The second ingest also replaced the expiry: the cookie survives a
    // prune that would have removed the first one.
    jar.prune(1_000);
    assert_eq!(jar.len(), 1);
}

#[test]
fn test_ingest_host_only_rejected_without_host() {
    let mut jar = CookieJar::new();
    jar.ingest(&candidate("a", "1", None, Some("/")), b"", b"/");
    assert_eq!(jar.len(), 0);
    jar.ingest(&candidate("a", "1", None, Some("/")), b"host.ru", b"/");
    assert_eq!(jar.len(), 1);
}

#[test]
fn test_ingest_domain_mismatch_rejected() {
    let mut jar = CookieJar::new();
    jar.ingest(&candidate("a", "1", Some("other.ru"), Some("/")), b"my.yota.ru", b"/");
    assert_eq!(jar.len(), 0);
}

#[test]
fn test_ingest_defaults_path_and_domain() {
    let mut jar = CookieJar::new();
    jar.ingest(&candidate("a", "1", None, None), b"my.yota.ru", b"/selfcare");
    // Bound to the exact host and the request path.
    assert_eq!(jar.select(b"my.yota.ru", b"/selfcare/devices", 0), b"a=1".to_vec());
    assert_eq!(jar.select(b"yota.ru", b"/selfcare", 0), b"".to_vec());
    assert_eq!(jar.select(b"my.yota.ru", b"/other", 0), b"".to_vec());
}

#[test]
fn test_prune_removes_exactly_expired() {
    let mut jar = CookieJar::new();
    let mut expired = candidate("dead", "1", Some("yota.ru"), Some("/"));
    expired.expires = Some(50);
    let mut alive = candidate("live", "2", Some("yota.ru"), Some("/"));
    alive.expires = Some(200);
    let eternal = candidate("keep", "3", Some("yota.ru"), Some("/"));
    jar.ingest(&expired, b"yota.ru", b"/");
    jar.ingest(&alive, b"yota.ru", b"/");
    jar.ingest(&eternal, b"yota.ru", b"/");

    jar.prune(100);
    assert_eq!(jar.len(), 2);
    let header = jar.select(b"yota.ru", b"/", 100);
    assert_eq!(header, b"live=2; keep=3".to_vec());
    // A cookie expiring exactly at `now` is kept: only `expires < now` goes.
    jar.prune(200);
    assert_eq!(jar.len(), 2);
    jar.prune(201);
    assert_eq!(jar.len(), 1);
    assert_eq!(jar.select(b"yota.ru", b"/", 201), b"keep=3".to_vec());
}

#[test]
fn test_domain_match_reflexive_and_suffix() {
    let mut jar = CookieJar::new();
    jar.ingest(&candidate("sid", "abc", Some("yota.ru"), Some("/")), b"yota.ru", b"/");
    // Reflexive: the exact domain matches.
    assert_eq!(jar.select(b"yota.ru", b"/", 0), b"sid=abc".to_vec());
    // Suffix-based: a subdomain of the cookie domain matches.
    assert_eq!(jar.select(b"my.yota.ru", b"/", 0), b"sid=abc".to_vec());
    // The suffix sits on a label boundary: a host merely ending in the
    // domain's text does not match.
    assert_eq!(jar.select(b"notyota.ru", b"/", 0), b"".to_vec());
    // An unrelated host does not match either.
    assert_eq!(jar.select(b"other.ru", b"/", 0), b"".to_vec());
}

#[test]
fn test_path_match_prefix() {
    let mut jar = CookieJar::new();
    jar.ingest(&candidate("p", "1", Some("yota.ru"), Some("/selfcare")), b"yota.ru", b"/");
    assert_eq!(jar.select(b"yota.ru", b"/selfcare/devices", 0), b"p=1".to_vec());
    assert_eq!(jar.select(b"yota.ru", b"/selfcare", 0), b"p=1".to_vec());
    assert_eq!(jar.select(b"yota.ru", b"/other", 0), b"".to_vec());
}

#[test]
fn test_select_not_expired_only() {
    let mut jar = CookieJar::new();
    let mut c = candidate("sid", "abc", Some("yota.ru"), Some("/"));
    c.expires = Some(100);
    jar.ingest(&c, b"yota.ru", b"/");
    assert_eq!(jar.select(b"yota.ru", b"/", 99), b"sid=abc".to_vec());
    assert_eq!(jar.select(b"yota.ru", b"/", 101), b"".to_vec());
}

#[test]
fn test_header_value_validity() {
    assert!(is_valid_header_value(b"sid=abc; other=1"));
    assert!(is_valid_header_value(b""));
    assert!(is_valid_header_value(b"\ttabs ok"));
    assert!(!is_valid_header_value(b"bad\x01byte"));
    assert!(!is_valid_header_value(b"del\x7fbyte"));
}
