use yota::engine::{EngineError, EngineStep, Method, RequestDescriptor, ResponseData, SessionEngine, UrlParts};

fn url(full: &str, host: &str, path: &str) -> UrlParts {
    UrlParts {
        full: full.as_bytes().to_vec(),
        host: host.as_bytes().to_vec(),
        path: path.as_bytes().to_vec(),
    }
}

fn header(name: &str, value: &str) -> (Vec<u8>, Vec<u8>) {
    (name.as_bytes().to_vec(), value.as_bytes().to_vec())
}

fn response(status: u16, headers: Vec<(Vec<u8>, Vec<u8>)>, body: &[u8]) -> ResponseData {
    ResponseData { status, headers, body: body.to_vec() }
}

fn start_get(engine: &mut SessionEngine, full: &str, host: &str, path: &str) -> RequestDescriptor {
    engine.start(Method::Get, url(full, host, path), Vec::new(), Vec::new(), 0)
}

#[test]
fn test_scenario_cookie_set_and_selected() {
    // Jar empty; request to https://my.yota.ru/selfcare/devices answered 200
    // with one Set-Cookie; afterwards selection for the same URL gives it.
    let mut engine = SessionEngine::new();
    let req = start_get(
        &mut engine,
        "https://my.yota.ru/selfcare/devices",
        "my.yota.ru",
        "/selfcare/devices",
    );
    assert!(req.cookie.is_none());
    let resp = response(
        200,
        vec![header("set-cookie", "sid=abc; Domain=yota.ru; Path=/")],
        b"",
    );
    let step = engine.observe(&req, &resp, 0);
    assert!(matches!(step, EngineStep::Done));
    let selected = engine.jar().select(b"my.yota.ru", b"/selfcare/devices", 0);
    assert_eq!(selected, b"sid=abc".to_vec());
}

#[test]
fn test_redirect_chain_accumulates_cookies() {
    // 302 -> 302 -> 200, each with a distinct Set-Cookie: the jar ends up
    // holding all three.
    let mut engine = SessionEngine::new();
    let req = start_get(&mut engine, "https://my.yota.ru/a", "my.yota.ru", "/a");
    let resp1 = response(
        302,
        vec![
            header("set-cookie", "one=1; Domain=yota.ru; Path=/"),
            header("location", "https://my.yota.ru/b"),
        ],
        b"",
    );
    let step1 = engine.observe(&req, &resp1, 0);
    let req2 = match step1 {
        EngineStep::Next(r) => r,
        _ => panic!("expected a next request"),
    };
    assert_eq!(req2.url.full, b"https://my.yota.ru/b".to_vec());
    // The freshly set cookie already travels on the second hop.
    assert_eq!(req2.cookie.clone().unwrap(), b"one=1".to_vec());

    let resp2 = response(
        302,
        vec![
            header("set-cookie", "two=2; Domain=yota.ru; Path=/"),
            header("location", "/c"),
        ],
        b"",
    );
    let step2 = engine.observe(&req2, &resp2, 0);
    let req3 = match step2 {
        EngineStep::Next(r) => r,
        _ => panic!("expected a next request"),
    };
    // A relative Location resolves against the answered request's URL.
    assert_eq!(req3.url.full, b"https://my.yota.ru/c".to_vec());

    let resp3 = response(
        200,
        vec![header("set-cookie", "three=3; Domain=yota.ru; Path=/")],
        b"",
    );
    let step3 = engine.observe(&req3, &resp3, 0);
    assert!(matches!(step3, EngineStep::Done));

    assert_eq!(engine.jar().len(), 3);
    let selected = engine.jar().select(b"my.yota.ru", b"/", 0);
    assert_eq!(selected, b"one=1; two=2; three=3".to_vec());
}

#[test]
fn test_temporary_redirect_replays_method_and_body() {
    // A 307 to a POST replays the POST with the request's body; a 302 to
    // the same POST downgrades to a bodiless GET. The response carries a
    // different body, which must not be the one replayed.
    let mut engine = SessionEngine::new();
    let req = engine.start(
        Method::Post,
        url("https://my.yota.ru/form", "my.yota.ru", "/form"),
        Vec::new(),
        b"B".to_vec(),
        0,
    );
    let resp307 = response(307, vec![header("location", "https://my.yota.ru/moved")], b"redirect page");
    match engine.observe(&req, &resp307, 0) {
        EngineStep::Next(n) => {
            assert_eq!(n.method, Method::Post);
            assert_eq!(n.body, b"B".to_vec());
        },
        _ => panic!("expected a next request"),
    }

    let mut engine2 = SessionEngine::new();
    let req2 = engine2.start(
        Method::Post,
        url("https://my.yota.ru/form", "my.yota.ru", "/form"),
        Vec::new(),
        b"B".to_vec(),
        0,
    );
    let resp302 = response(302, vec![header("location", "https://my.yota.ru/moved")], b"redirect page");
    match engine2.observe(&req2, &resp302, 0) {
        EngineStep::Next(n) => {
            assert_eq!(n.method, Method::Get);
            assert!(n.body.is_empty());
        },
        _ => panic!("expected a next request"),
    }
}

#[test]
fn test_redirect_without_location_is_fatal() {
    let mut engine = SessionEngine::new();
    let req = start_get(&mut engine, "https://my.yota.ru/a", "my.yota.ru", "/a");
    let resp = response(302, vec![header("content-type", "text/html")], b"");
    match engine.observe(&req, &resp, 0) {
        EngineStep::Failed(e) => assert_eq!(e, EngineError::MissingLocation),
        _ => panic!("expected a failure"),
    }
}

#[test]
fn test_redirect_with_unresolvable_location_is_fatal() {
    let mut engine = SessionEngine::new();
    let req = start_get(&mut engine, "https://my.yota.ru/a", "my.yota.ru", "/a");
    let resp = response(302, vec![header("location", "https://[bad")], b"");
    match engine.observe(&req, &resp, 0) {
        EngineStep::Failed(e) => assert_eq!(e, EngineError::InvalidLocation),
        _ => panic!("expected a failure"),
    }
}

#[test]
fn test_redirect_hop_ceiling() {
    let mut engine = SessionEngine::new();
    let mut req = start_get(&mut engine, "https://my.yota.ru/a", "my.yota.ru", "/a");
    let mut failed = None;
    for _ in 0..20 {
        let resp = response(302, vec![header("location", "/a")], b"");
        match engine.observe(&req, &resp, 0) {
            EngineStep::Next(n) => req = n,
            EngineStep::Failed(e) => {
                failed = Some(e);
                break;
            },
            EngineStep::Done => panic!("a redirect is never done"),
        }
    }
    assert_eq!(failed.unwrap(), EngineError::TooManyRedirects);
}

#[test]
fn test_next_request_strips_set_cookie_headers() {
    let mut engine = SessionEngine::new();
    let req = start_get(&mut engine, "https://my.yota.ru/a", "my.yota.ru", "/a");
    let resp = response(
        302,
        vec![
            header("set-cookie", "one=1; Domain=yota.ru; Path=/"),
            header("content-type", "text/html"),
            header("location", "/b"),
        ],
        b"",
    );
    match engine.observe(&req, &resp, 0) {
        EngineStep::Next(n) => {
            assert_eq!(n.headers.len(), 2);
            assert_eq!(n.headers[0].0, b"content-type".to_vec());
            assert_eq!(n.headers[1].0, b"location".to_vec());
        },
        _ => panic!("expected a next request"),
    }
}

#[test]
fn test_expired_cookie_not_sent_on_next_hop() {
    let mut engine = SessionEngine::new();
    let req = start_get(&mut engine, "https://my.yota.ru/a", "my.yota.ru", "/a");
    // Expires in 1970: long gone at `now`.
    let resp = response(
        302,
        vec![
            header(
                "set-cookie",
                "gone=1; Domain=yota.ru; Path=/; Expires=Thu, 01 Jan 1970 00:00:10 GMT",
            ),
            header("location", "/b"),
        ],
        b"",
    );
    match engine.observe(&req, &resp, 1_000_000, ) {
        EngineStep::Next(n) => assert!(n.cookie.is_none()),
        _ => panic!("expected a next request"),
    }
    assert_eq!(engine.jar().len(), 0);
}

#[test]
fn test_start_now_smoke() {
    let mut engine = SessionEngine::new();
    let req = engine.start_now(
        Method::Get,
        url("https://my.yota.ru/a", "my.yota.ru", "/a"),
        Vec::new(),
        Vec::new(),
    );
    assert_eq!(req.method, Method::Get);
    assert!(req.cookie.is_none());
    let resp = response(200, Vec::new(), b"");
    let step = engine.observe_now(&req, &resp);
    assert!(matches!(step, EngineStep::Done));
}
