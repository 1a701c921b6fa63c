//! The redirect-following session engine.
//!
//! The engine owns one cookie jar and drives one logical request as a state
//! machine: [`SessionEngine::start`] prepares the first outgoing request,
//! and after each response [`SessionEngine::observe`] ingests its
//! `Set-Cookie` headers and decides whether the operation is done, must
//! fail, or continues with a rewritten request to the redirect target. The
//! caller performs the actual sends and hands each response back, so no I/O
//! happens here.

use vstd::prelude::*;
use crate::bytes::{bytes_eq, copy_bytes, pairs_view};
use crate::scrape::ascii_bytes;
use crate::jar::{
    CookieJar, CookieV, SetCookie, SetCookieV, expired_at, ingest_spec, prune_spec, select_spec,
    jar_wf, valid_header_value,
};

verus! {

/// The HTTP methods the engine issues.
#[derive(Clone, Copy, PartialEq, Eq, Structural, Debug)]
pub enum Method {
    Get,
    Post,
    Put,
    Delete,
    Head,
    Patch,
}

/// Mathematical image of a URL's parts.
pub struct UrlV {
    pub full: Seq<u8>,
    pub host: Seq<u8>,
    pub path: Seq<u8>,
}

/// An absolute URL together with the host and path that the cookie rules
/// read; the host is empty when the URL has no domain.
pub struct UrlParts {
    pub full: Vec<u8>,
    pub host: Vec<u8>,
    pub path: Vec<u8>,
}

impl View for UrlParts {
    type V = UrlV;

    open spec fn view(&self) -> UrlV {
        UrlV { full: self.full@, host: self.host@, path: self.path@ }
    }
}

/// Mathematical image of an outgoing request.
pub struct RequestV {
    pub method: Method,
    pub url: UrlV,
    pub headers: Seq<(Seq<u8>, Seq<u8>)>,
    pub body: Seq<u8>,
    pub cookie: Option<Seq<u8>>,
}

/// One outgoing request: what the transport must send. The computed Cookie
/// header travels apart from the other headers; `None` means none is sent.
pub struct RequestDescriptor {
    pub method: Method,
    pub url: UrlParts,
    pub headers: Vec<(Vec<u8>, Vec<u8>)>,
    pub body: Vec<u8>,
    pub cookie: Option<Vec<u8>>,
}

impl View for RequestDescriptor {
    type V = RequestV;

    open spec fn view(&self) -> RequestV {
        RequestV {
            method: self.method,
            url: self.url@,
            headers: pairs_view(self.headers@),
            body: self.body@,
            cookie: match self.cookie {
                Some(ref c) => Some(c@),
                None => None,
            },
        }
    }
}

/// Mathematical image of a response.
pub struct ResponseV {
    pub status: u16,
    pub headers: Seq<(Seq<u8>, Seq<u8>)>,
    pub body: Seq<u8>,
}

/// One response as the transport hands it back: status, every header in
/// order (names lower-case, as HTTP transports normalize them), and the
/// fully buffered body.
pub struct ResponseData {
    pub status: u16,
    pub headers: Vec<(Vec<u8>, Vec<u8>)>,
    pub body: Vec<u8>,
}

impl View for ResponseData {
    type V = ResponseV;

    open spec fn view(&self) -> ResponseV {
        ResponseV { status: self.status, headers: pairs_view(self.headers@), body: self.body@ }
    }
}

/// A redirection status: the 3xx family.
pub open spec fn is_redirect(status: u16) -> bool {
    300 <= status <= 399
}

/// The two redirection statuses defined to preserve method and body:
/// temporary redirect and permanent redirect.
pub open spec fn keeps_method(status: u16) -> bool {
    status == 307 || status == 308
}

/// The lower-case name of the Set-Cookie header.
pub open spec fn set_cookie_name() -> Seq<u8> {
    ascii_bytes("set-cookie"@)
}

/// The lower-case name of the Location header.
pub open spec fn location_name() -> Seq<u8> {
    ascii_bytes("location"@)
}

/// The values of every Set-Cookie header, in order.
pub open spec fn set_cookie_values(hs: Seq<(Seq<u8>, Seq<u8>)>) -> Seq<Seq<u8>>
    decreases hs.len(),
{
    if hs.len() == 0 {
        Seq::empty()
    } else {
        let rest = set_cookie_values(hs.drop_last());
        if hs.last().0 == set_cookie_name() {
            rest.push(hs.last().1)
        } else {
            rest
        }
    }
}

/// The value of the first Location header, if any.
pub open spec fn location_value(hs: Seq<(Seq<u8>, Seq<u8>)>) -> Option<Seq<u8>>
    decreases hs.len(),
{
    if hs.len() == 0 {
        None
    } else if hs[0].0 == location_name() {
        Some(hs[0].1)
    } else {
        location_value(hs.drop_first())
    }
}

/// The headers with every Set-Cookie entry removed.
pub open spec fn strip_set_cookie(hs: Seq<(Seq<u8>, Seq<u8>)>) -> Seq<(Seq<u8>, Seq<u8>)>
    decreases hs.len(),
{
    if hs.len() == 0 {
        Seq::empty()
    } else {
        let rest = strip_set_cookie(hs.drop_last());
        if hs.last().0 == set_cookie_name() {
            rest
        } else {
            rest.push(hs.last())
        }
    }
}

/// What one Set-Cookie header value parses to; unparseable values give
/// nothing. The result depends on the bytes alone.
pub uninterp spec fn parsed_set_cookie(raw: Seq<u8>) -> Option<SetCookieV>;

/// The image of an optional parsed candidate.
pub open spec fn opt_set_cookie_view(r: Option<SetCookie>) -> Option<SetCookieV> {
    match r {
        Some(c) => Some(c@),
        None => None,
    }
}

/// Relies on cookie::Cookie::parse: one Set-Cookie header value parsed into
/// name, value, domain (leading dot stripped), path and expiry, the expiry
/// converted to a unix timestamp; non-UTF-8 or unparseable input gives
/// nothing. The result is a function of the bytes alone.
#[verifier::external_body]
fn parse_set_cookie(raw: &[u8]) -> (r: Option<SetCookie>)
    ensures
        opt_set_cookie_view(r) == parsed_set_cookie(raw@),
{
    let s = std::str::from_utf8(raw).ok()?;
    let c = cookie::Cookie::parse(s).ok()?;
    Some(SetCookie {
        name: c.name().as_bytes().to_vec(),
        value: c.value().as_bytes().to_vec(),
        domain: c.domain().map(|d| d.as_bytes().to_vec()),
        path: c.path().map(|p| p.as_bytes().to_vec()),
        expires: c.expires_datetime().map(|t| t.unix_timestamp()),
    })
}

/// What resolving `loc` against the absolute URL `base` gives; the result
/// depends on the two byte strings alone.
pub uninterp spec fn resolved_url(base: Seq<u8>, loc: Seq<u8>) -> Option<UrlV>;

/// The image of an optional URL.
pub open spec fn opt_url_view(r: Option<UrlParts>) -> Option<UrlV> {
    match r {
        Some(u) => Some(u@),
        None => None,
    }
}

/// Relies on url::Url::parse and url::Url::join: `base` is parsed as an
/// absolute URL (the argument conversion) and `loc` resolved against it;
/// the parts are the resolved URL's text, its domain (empty when it has
/// none) and its path. Any failure gives nothing.
#[verifier::external_body]
fn resolve_location(base: &[u8], loc: &[u8]) -> (r: Option<UrlParts>)
    ensures
        opt_url_view(r) == resolved_url(base@, loc@),
{
    let base_s = std::str::from_utf8(base).ok()?;
    let loc_s = std::str::from_utf8(loc).ok()?;
    let u = url::Url::parse(base_s).ok()?.join(loc_s).ok()?;
    Some(UrlParts {
        full: u.as_str().as_bytes().to_vec(),
        host: u.domain().unwrap_or("").as_bytes().to_vec(),
        path: u.path().as_bytes().to_vec(),
    })
}

/// Relies on time::OffsetDateTime::now_utc: the wall clock as a unix
/// timestamp. Nothing is promised of the value.
#[verifier::external_body]
fn now_timestamp() -> i64 {
    time::OffsetDateTime::now_utc().unix_timestamp()
}

/// The jar after one raw Set-Cookie value: unparseable values are dropped,
/// parsed candidates are offered to the jar.
pub open spec fn ingest_value_spec(
    jar: Seq<CookieV>,
    raw: Seq<u8>,
    host: Seq<u8>,
    path: Seq<u8>,
) -> Seq<CookieV> {
    match parsed_set_cookie(raw) {
        None => jar,
        Some(c) => ingest_spec(jar, c, host, path),
    }
}

/// The jar after every raw Set-Cookie value, taken left to right.
pub open spec fn ingest_all_spec(
    jar: Seq<CookieV>,
    raws: Seq<Seq<u8>>,
    host: Seq<u8>,
    path: Seq<u8>,
) -> Seq<CookieV>
    decreases raws.len(),
{
    if raws.len() == 0 {
        jar
    } else {
        ingest_all_spec(ingest_value_spec(jar, raws[0], host, path), raws.drop_first(), host, path)
    }
}

/// The Cookie header for a request to `host` at `path`: the joined value of
/// every qualifying cookie, sent only when it is nonempty and legal as a
/// header value. An illegal value silently omits the header rather than
/// failing the call.
pub open spec fn cookie_header_spec(
    jar: Seq<CookieV>,
    host: Seq<u8>,
    path: Seq<u8>,
    now: int,
) -> Option<Seq<u8>> {
    let v = select_spec(jar, host, path, now);
    if v.len() > 0 && valid_header_value(v) {
        Some(v)
    } else {
        None
    }
}

/// The ceiling on redirect hops within one logical operation.
pub const MAX_REDIRECTS: u32 = 10;

/// Why the engine aborts a logical operation.
#[derive(Clone, Copy, PartialEq, Eq, Structural, Debug)]
pub enum EngineError {
    MissingLocation,
    InvalidLocation,
    TooManyRedirects,
}

/// What the engine decides after seeing one response.
pub enum EngineStep {
    Done,
    Next(RequestDescriptor),
    Failed(EngineError),
}

/// Mathematical image of an engine decision.
pub enum StepV {
    Done,
    Next(RequestV),
    Failed(EngineError),
}

/// The image of a decision.
pub open spec fn step_view(r: EngineStep) -> StepV {
    match r {
        EngineStep::Done => StepV::Done,
        EngineStep::Next(n) => StepV::Next(n@),
        EngineStep::Failed(e) => StepV::Failed(e),
    }
}

/// Mathematical image of the engine: jar contents and hops taken.
pub struct EngineV {
    pub jar: Seq<CookieV>,
    pub hops: int,
}

/// The jar after every Set-Cookie header of `resp` is ingested with the
/// answered request's host and path as the defaulting reference.
pub open spec fn ingested_jar(pre: EngineV, req: RequestV, resp: ResponseV) -> Seq<CookieV> {
    ingest_all_spec(pre.jar, set_cookie_values(resp.headers), req.url.host, req.url.path)
}

/// How the engine must react to one response, at time `now`.
///
/// Every Set-Cookie header is first ingested. A non-redirection status ends
/// the operation. A redirection without a Location header, past the hop
/// ceiling, or whose Location does not resolve against the answered
/// request's URL aborts it. Otherwise the operation continues: the jar is
/// pruned, and the next request goes to the resolved target, replaying the
/// method and the request's body exactly for a temporary or permanent
/// redirect and downgrading to a bodiless GET otherwise; it carries the
/// response's headers minus every Set-Cookie entry, and the Cookie header
/// selected from the jar for the target.
pub open spec fn observe_post(
    pre: EngineV,
    post: EngineV,
    req: RequestV,
    resp: ResponseV,
    now: int,
    r: StepV,
) -> bool {
    let ingested = ingested_jar(pre, req, resp);
    if !is_redirect(resp.status) {
        r == StepV::Done && post.jar == ingested && post.hops == pre.hops
    } else {
        match location_value(resp.headers) {
            None => r == StepV::Failed(EngineError::MissingLocation) && post.jar == ingested
                && post.hops == pre.hops,
            Some(loc) => {
                if pre.hops >= MAX_REDIRECTS as int {
                    r == StepV::Failed(EngineError::TooManyRedirects) && post.jar == ingested
                        && post.hops == pre.hops
                } else {
                    match resolved_url(req.url.full, loc) {
                        None => r == StepV::Failed(EngineError::InvalidLocation) && post.jar
                            == ingested && post.hops == pre.hops,
                        Some(u) => {
                            let pruned = prune_spec(ingested, now);
                            &&& post.jar == pruned
                            &&& post.hops == pre.hops + 1
                            &&& (r matches StepV::Next(n) && {
                                &&& n.method == (if keeps_method(resp.status) {
                                    req.method
                                } else {
                                    Method::Get
                                })
                                &&& n.body == (if keeps_method(resp.status) {
                                    req.body
                                } else {
                                    Seq::<u8>::empty()
                                })
                                &&& n.url == u
                                &&& n.headers == strip_set_cookie(resp.headers)
                                &&& n.cookie == cookie_header_spec(pruned, u.host, u.path, now)
                            })
                        },
                    }
                }
            },
        }
    }
}

/// How the engine must open one logical operation at time `now`: the jar is
/// pruned, the hop count starts over, and the first request carries the
/// caller's method, URL, headers and body plus the Cookie header selected
/// for the URL.
pub open spec fn start_post(
    pre: EngineV,
    post: EngineV,
    method: Method,
    url: UrlV,
    headers: Seq<(Seq<u8>, Seq<u8>)>,
    body: Seq<u8>,
    now: int,
    r: RequestV,
) -> bool {
    &&& post.jar == prune_spec(pre.jar, now)
    &&& post.hops == 0
    &&& r.method == method
    &&& r.url == url
    &&& r.headers == headers
    &&& r.body == body
    &&& r.cookie == cookie_header_spec(post.jar, url.host, url.path, now)
}

/// The cookie-authenticated session: one jar, one hop counter, no I/O.
pub struct SessionEngine {
    jar: CookieJar,
    hops: u32,
}

impl View for SessionEngine {
    type V = EngineV;

    closed spec fn view(&self) -> EngineV {
        EngineV { jar: self.jar@, hops: self.hops as int }
    }
}

/// The Cookie header to send, if any.
fn cookie_header_for(jar: &CookieJar, host: &[u8], path: &[u8], now: i64) -> (r: Option<Vec<u8>>)
    ensures
        (match r {
            Some(v) => Some(v@),
            None => None,
        }) == cookie_header_spec(jar@, host@, path@, now as int),
{
    let v = jar.select(host, path, now);
    if v.len() > 0 && crate::jar::is_valid_header_value(v.as_slice()) {
        Some(v)
    } else {
        None
    }
}

impl SessionEngine {
    /// A fresh session: empty jar, no hops taken.
    pub fn new() -> (s: SessionEngine)
        ensures
            s@.jar == Seq::<CookieV>::empty(),
            s@.hops == 0,
            jar_wf(s@.jar),
    {
        SessionEngine { jar: CookieJar::new(), hops: 0 }
    }

    /// The engine's jar, for inspection.
    pub fn jar(&self) -> (j: &CookieJar)
        ensures
            j@ == self@.jar,
    {
        &self.jar
    }

    /// Opens a logical operation at time `now`: prunes the jar and builds
    /// the first outgoing request.
    pub fn start(
        &mut self,
        method: Method,
        url: UrlParts,
        headers: Vec<(Vec<u8>, Vec<u8>)>,
        body: Vec<u8>,
        now: i64,
    ) -> (r: RequestDescriptor)
        ensures
            start_post(
                old(self)@,
                final(self)@,
                method,
                url@,
                pairs_view(headers@),
                body@,
                now as int,
                r@,
            ),
            jar_wf(old(self)@.jar) ==> jar_wf(final(self)@.jar),
    {
        self.jar.prune(now);
        self.hops = 0;
        let cookie = cookie_header_for(&self.jar, url.host.as_slice(), url.path.as_slice(), now);
        RequestDescriptor { method, url, headers, body, cookie }
    }

    /// Opens a logical operation at the current wall-clock time.
    pub fn start_now(
        &mut self,
        method: Method,
        url: UrlParts,
        headers: Vec<(Vec<u8>, Vec<u8>)>,
        body: Vec<u8>,
    ) -> (r: RequestDescriptor)
        ensures
            exists|t: int|
                #[trigger] start_post(
                    old(self)@,
                    final(self)@,
                    method,
                    url@,
                    pairs_view(headers@),
                    body@,
                    t,
                    r@,
                ),
            jar_wf(old(self)@.jar) ==> jar_wf(final(self)@.jar),
    {
        let t = now_timestamp();
        let r = self.start(method, url, headers, body, t);
        r
    }

    /// Ingests every Set-Cookie header of `resp`, with `host` and `path` of
    /// the answered request as the defaulting reference.
    fn ingest_response(&mut self, host: &[u8], path: &[u8], resp: &ResponseData)
        ensures
            final(self)@.jar == ingest_all_spec(
                old(self)@.jar,
                set_cookie_values(pairs_view(resp.headers@)),
                host@,
                path@,
            ),
            final(self)@.hops == old(self)@.hops,
            jar_wf(old(self)@.jar) ==> jar_wf(final(self)@.jar),
    {
        let sc_name: &[u8] = "set-cookie".as_bytes();
        proof {
            reveal_strlit("set-cookie");
            vstd::string::is_ascii_spec_bytes("set-cookie");
            assert(vstd::string::is_ascii("set-cookie"));
            assert(sc_name@ =~= set_cookie_name());
        }
        let n: usize = resp.headers.len();
        let ghost hs = pairs_view(resp.headers@);
        let mut i: usize = 0;
        proof {
            assert(hs.subrange(0, 0) =~= Seq::<(Seq<u8>, Seq<u8>)>::empty());
        }
        while i < n
            invariant
                n == resp.headers@.len(),
                hs == pairs_view(resp.headers@),
                0 <= i <= n,
                self@.jar == ingest_all_spec(
                    old(self)@.jar,
                    set_cookie_values(hs.subrange(0, i as int)),
                    host@,
                    path@,
                ),
                self@.hops == old(self)@.hops,
                jar_wf(old(self)@.jar) ==> jar_wf(self@.jar),
                sc_name@ == set_cookie_name(),
            decreases n - i,
        {
            proof {
                assert(hs.subrange(0, i + 1 as int).drop_last() =~= hs.subrange(0, i as int));
                assert(hs.subrange(0, i + 1 as int).last() == hs[i as int]);
            }
            if bytes_eq(resp.headers[i].0.as_slice(), sc_name) {
                let parsed = parse_set_cookie(resp.headers[i].1.as_slice());
                match parsed {
                    Some(c) => {
                        self.jar.ingest(&c, host, path);
                    },
                    None => {
                    },
                }
                proof {
                    lemma_ingest_all_push(
                        old(self)@.jar,
                        set_cookie_values(hs.subrange(0, i as int)),
                        hs[i as int].1,
                        host@,
                        path@,
                    );
                }
            }
            i += 1;
        }
        proof {
            assert(hs.subrange(0, n as int) =~= hs);
        }
    }

    /// Reacts to one response at time `now`; see [`observe_post`].
    pub fn observe(&mut self, req: &RequestDescriptor, resp: &ResponseData, now: i64) -> (r:
        EngineStep)
        ensures
            observe_post(old(self)@, final(self)@, req@, resp@, now as int, step_view(r)),
            jar_wf(old(self)@.jar) ==> jar_wf(final(self)@.jar),
    {
        self.ingest_response(req.url.host.as_slice(), req.url.path.as_slice(), resp);
        if !(300 <= resp.status && resp.status <= 399) {
            return EngineStep::Done;
        }
        let loc = match find_location(&resp.headers) {
            None => {
                return EngineStep::Failed(EngineError::MissingLocation);
            },
            Some(loc) => loc,
        };
        if self.hops >= MAX_REDIRECTS {
            return EngineStep::Failed(EngineError::TooManyRedirects);
        }
        let target = match resolve_location(req.url.full.as_slice(), loc) {
            None => {
                return EngineStep::Failed(EngineError::InvalidLocation);
            },
            Some(u) => u,
        };
        self.jar.prune(now);
        self.hops = self.hops + 1;
        let keeps = resp.status == 307 || resp.status == 308;
        let method = if keeps {
            req.method
        } else {
            Method::Get
        };
        let body = if keeps {
            copy_bytes(req.body.as_slice())
        } else {
            Vec::new()
        };
        let headers = strip_set_cookie_exec(&resp.headers);
        let cookie = cookie_header_for(
            &self.jar,
            target.host.as_slice(),
            target.path.as_slice(),
            now,
        );
        let next = RequestDescriptor { method, url: target, headers, body, cookie };
        proof {
            assert(next@.body =~= (if keeps_method(resp@.status) {
                req@.body
            } else {
                Seq::<u8>::empty()
            }));
        }
        EngineStep::Next(next)
    }

    /// Reacts to one response at the current wall-clock time.
    pub fn observe_now(&mut self, req: &RequestDescriptor, resp: &ResponseData) -> (r: EngineStep)
        ensures
            exists|t: int|
                #[trigger] observe_post(old(self)@, final(self)@, req@, resp@, t, step_view(r)),
            jar_wf(old(self)@.jar) ==> jar_wf(final(self)@.jar),
    {
        let t = now_timestamp();
        let r = self.observe(req, resp, t);
        r
    }
}

/// The value of the first Location header, if any.
fn find_location<'a>(headers: &'a Vec<(Vec<u8>, Vec<u8>)>) -> (r: Option<&'a [u8]>)
    ensures
        match r {
            Some(v) => location_value(pairs_view(headers@)) == Some(v@),
            None => location_value(pairs_view(headers@)) is None,
        },
{
    let loc_name: &[u8] = "location".as_bytes();
    proof {
        reveal_strlit("location");
        vstd::string::is_ascii_spec_bytes("location");
        assert(vstd::string::is_ascii("location"));
        assert(loc_name@ =~= location_name());
    }
    let n: usize = headers.len();
    let ghost hs = pairs_view(headers@);
    let mut i: usize = 0;
    proof {
        assert(hs.subrange(0, n as int) =~= hs);
    }
    while i < n
        invariant
            n == headers@.len(),
            hs == pairs_view(headers@),
            0 <= i <= n,
            location_value(hs) == location_value(hs.subrange(i as int, n as int)),
            loc_name@ == location_name(),
        decreases n - i,
    {
        proof {
            assert(hs.subrange(i as int, n as int)[0] == hs[i as int]);
            assert(hs.subrange(i as int, n as int).drop_first() =~= hs.subrange(
                i + 1 as int,
                n as int,
            ));
        }
        if bytes_eq(headers[i].0.as_slice(), loc_name) {
            return Some(headers[i].1.as_slice());
        }
        i += 1;
    }
    proof {
        assert(hs.subrange(n as int, n as int) =~= Seq::<(Seq<u8>, Seq<u8>)>::empty());
    }
    None
}

/// The headers with every Set-Cookie entry removed, as owned copies.
fn strip_set_cookie_exec(headers: &Vec<(Vec<u8>, Vec<u8>)>) -> (r: Vec<(Vec<u8>, Vec<u8>)>)
    ensures
        pairs_view(r@) == strip_set_cookie(pairs_view(headers@)),
{
    let sc_name: &[u8] = "set-cookie".as_bytes();
    proof {
        reveal_strlit("set-cookie");
        vstd::string::is_ascii_spec_bytes("set-cookie");
        assert(vstd::string::is_ascii("set-cookie"));
        assert(sc_name@ =~= set_cookie_name());
    }
    let n: usize = headers.len();
    let ghost hs = pairs_view(headers@);
    let mut out: Vec<(Vec<u8>, Vec<u8>)> = Vec::new();
    let mut i: usize = 0;
    while i < n
        invariant
            n == headers@.len(),
            hs == pairs_view(headers@),
            0 <= i <= n,
            pairs_view(out@) == strip_set_cookie(hs.subrange(0, i as int)),
            sc_name@ == set_cookie_name(),
        decreases n - i,
    {
        proof {
            assert(hs.subrange(0, i + 1 as int).drop_last() =~= hs.subrange(0, i as int));
            assert(hs.subrange(0, i + 1 as int).last() == hs[i as int]);
        }
        if !bytes_eq(headers[i].0.as_slice(), sc_name) {
            let name = copy_bytes(headers[i].0.as_slice());
            let value = copy_bytes(headers[i].1.as_slice());
            out.push((name, value));
            proof {
                assert(pairs_view(out@) =~= strip_set_cookie(hs.subrange(0, i + 1 as int)));
            }
        } else {
            proof {
                assert(pairs_view(out@) =~= strip_set_cookie(hs.subrange(0, i + 1 as int)));
            }
        }
        i += 1;
    }
    proof {
        assert(hs.subrange(0, n as int) =~= hs);
    }
    out
}

/// Folding one more raw value ingests it after all the earlier ones.
proof fn lemma_ingest_all_push(
    jar: Seq<CookieV>,
    raws: Seq<Seq<u8>>,
    v: Seq<u8>,
    host: Seq<u8>,
    path: Seq<u8>,
)
    ensures
        ingest_all_spec(jar, raws.push(v), host, path) == ingest_value_spec(
            ingest_all_spec(jar, raws, host, path),
            v,
            host,
            path,
        ),
    decreases raws.len(),
{
    if raws.len() == 0 {
        assert(raws.push(v)[0] == v);
        assert(raws.push(v).drop_first() =~= Seq::<Seq<u8>>::empty());
        assert(ingest_all_spec(jar, raws.push(v), host, path) == ingest_all_spec(
            ingest_value_spec(jar, v, host, path),
            raws.push(v).drop_first(),
            host,
            path,
        ));
        assert(ingest_all_spec(ingest_value_spec(jar, v, host, path), raws.push(v).drop_first(), host, path)
            == ingest_value_spec(jar, v, host, path));
        assert(ingest_all_spec(jar, raws, host, path) == jar);
    } else {
        let j1 = ingest_value_spec(jar, raws[0], host, path);
        assert(raws.push(v)[0] == raws[0]);
        assert(raws.push(v).drop_first() =~= raws.drop_first().push(v));
        assert(ingest_all_spec(jar, raws.push(v), host, path) == ingest_all_spec(
            j1,
            raws.drop_first().push(v),
            host,
            path,
        ));
        lemma_ingest_all_push(j1, raws.drop_first(), v, host, path);
        assert(ingest_all_spec(jar, raws, host, path) == ingest_all_spec(
            j1,
            raws.drop_first(),
            host,
            path,
        ));
    }
}


/// Whether ingesting `raw` under `host`/`path` writes the jar slot of `x`.
pub open spec fn touches_key(raw: Seq<u8>, x: CookieV, host: Seq<u8>, path: Seq<u8>) -> bool {
    match parsed_set_cookie(raw) {
        Some(c) => crate::jar::ingest_accepts(c, host) && crate::jar::same_key(
            crate::jar::stored_cookie(c, host, path),
            x,
        ),
        None => false,
    }
}

/// Law: a jar cookie whose slot no Set-Cookie value of a response writes
/// survives the whole response's ingestion unchanged.
pub proof fn lemma_ingest_all_preserves(
    jar: Seq<CookieV>,
    raws: Seq<Seq<u8>>,
    host: Seq<u8>,
    path: Seq<u8>,
    x: CookieV,
)
    requires
        jar.contains(x),
        forall|j: int| 0 <= j < raws.len() ==> !touches_key(#[trigger] raws[j], x, host, path),
    ensures
        ingest_all_spec(jar, raws, host, path).contains(x),
    decreases raws.len(),
{
    if raws.len() > 0 {
        let j1 = ingest_value_spec(jar, raws[0], host, path);
        assert(!touches_key(raws[0], x, host, path));
        match parsed_set_cookie(raws[0]) {
            None => {
                assert(j1 == jar);
            },
            Some(c) => {
                if crate::jar::ingest_accepts(c, host) {
                    crate::jar::lemma_ingest_last_write_wins(jar, c, host, path);
                    assert(!crate::jar::same_key(
                        crate::jar::stored_cookie(c, host, path),
                        x,
                    ));
                    assert(!crate::jar::same_key(
                        x,
                        crate::jar::stored_cookie(c, host, path),
                    ));
                    assert(j1.contains(x));
                } else {
                    assert(j1 == jar);
                }
            },
        }
        assert forall|j: int|
            0 <= j < raws.drop_first().len() implies !touches_key(
            #[trigger] raws.drop_first()[j],
            x,
            host,
            path,
        ) by {
            assert(raws.drop_first()[j] == raws[j + 1]);
        }
        lemma_ingest_all_preserves(j1, raws.drop_first(), host, path, x);
    }
}

/// Law: over one response chain, every Set-Cookie value that parses and is
/// accepted lands in the jar in its stored form, provided no later value in
/// the chain writes the same `(name, domain, path)` slot — so a chain of
/// responses carrying distinct cookies leaves the jar holding their union.
pub proof fn lemma_ingest_all_retains(
    jar: Seq<CookieV>,
    raws: Seq<Seq<u8>>,
    host: Seq<u8>,
    path: Seq<u8>,
    k: int,
)
    requires
        0 <= k < raws.len(),
        parsed_set_cookie(raws[k]) is Some,
        crate::jar::ingest_accepts(parsed_set_cookie(raws[k])->0, host),
        forall|j: int|
            k < j < raws.len() ==> !touches_key(
                #[trigger] raws[j],
                crate::jar::stored_cookie(parsed_set_cookie(raws[k])->0, host, path),
                host,
                path,
            ),
    ensures
        ingest_all_spec(jar, raws, host, path).contains(
            crate::jar::stored_cookie(parsed_set_cookie(raws[k])->0, host, path),
        ),
    decreases raws.len(),
{
    let j1 = ingest_value_spec(jar, raws[0], host, path);
    if k == 0 {
        let c = parsed_set_cookie(raws[0])->0;
        let stored = crate::jar::stored_cookie(c, host, path);
        crate::jar::lemma_ingest_last_write_wins(jar, c, host, path);
        assert(j1.contains(stored));
        assert forall|j: int|
            0 <= j < raws.drop_first().len() implies !touches_key(
            #[trigger] raws.drop_first()[j],
            stored,
            host,
            path,
        ) by {
            assert(raws.drop_first()[j] == raws[j + 1]);
        }
        lemma_ingest_all_preserves(j1, raws.drop_first(), host, path, stored);
    } else {
        assert(raws.drop_first()[k - 1] == raws[k]);
        assert forall|j: int|
            k - 1 < j < raws.drop_first().len() implies !touches_key(
            #[trigger] raws.drop_first()[j],
            crate::jar::stored_cookie(parsed_set_cookie(raws[k])->0, host, path),
            host,
            path,
        ) by {
            assert(raws.drop_first()[j] == raws[j + 1]);
        }
        lemma_ingest_all_retains(j1, raws.drop_first(), host, path, k - 1);
    }
}

/// Law: a temporary or permanent redirect replays the answered request's
/// method and body to the target; every other redirection downgrades the
/// replay to a GET with an empty body.
pub proof fn lemma_redirect_method_rule(
    pre: EngineV,
    post: EngineV,
    req: RequestV,
    resp: ResponseV,
    now: int,
    r: StepV,
)
    requires
        observe_post(pre, post, req, resp, now, r),
        is_redirect(resp.status),
    ensures
        r matches StepV::Next(n) ==> n.method == (if keeps_method(resp.status) {
            req.method
        } else {
            Method::Get
        }),
        r matches StepV::Next(n) ==> n.body == (if keeps_method(resp.status) {
            req.body
        } else {
            Seq::<u8>::empty()
        }),
{
}

/// Law: a redirection without a Location header aborts the whole operation
/// with the missing-location error; the decision is a failure, never a next
/// request, so no further network operation follows.
pub proof fn lemma_missing_location_fatal(
    pre: EngineV,
    post: EngineV,
    req: RequestV,
    resp: ResponseV,
    now: int,
    r: StepV,
)
    requires
        observe_post(pre, post, req, resp, now, r),
        is_redirect(resp.status),
        location_value(resp.headers) is None,
    ensures
        r == StepV::Failed(EngineError::MissingLocation),
        post.jar == ingested_jar(pre, req, resp),
{
}


/// The stored form of a parsed Set-Cookie value under `host` and `path`.
pub open spec fn stored_of(raw: Seq<u8>, host: Seq<u8>, path: Seq<u8>) -> CookieV {
    crate::jar::stored_cookie(parsed_set_cookie(raw)->0, host, path)
}

/// One hop of a response chain, as the engine's jar sees it: the Set-Cookie
/// values of one redirection response, the answered request's host and
/// path, and the time of the prune that precedes the next send.
pub struct ResponseHopV {
    pub raws: Seq<Seq<u8>>,
    pub host: Seq<u8>,
    pub path: Seq<u8>,
    pub now: int,
}

/// The jar after one redirect hop, exactly as [`observe_post`]'s continue
/// branch evolves it: every Set-Cookie value ingested, then pruned.
pub open spec fn hop_jar(jar: Seq<CookieV>, hop: ResponseHopV) -> Seq<CookieV> {
    prune_spec(ingest_all_spec(jar, hop.raws, hop.host, hop.path), hop.now)
}

/// The jar after a chain of redirect hops, taken in order. The final,
/// non-redirection response of an operation ingests without pruning; its
/// effect on top of a chain is [`ingest_all_spec`].
pub open spec fn chain_jar(jar: Seq<CookieV>, hops: Seq<ResponseHopV>) -> Seq<CookieV>
    decreases hops.len(),
{
    if hops.len() == 0 {
        jar
    } else {
        chain_jar(hop_jar(jar, hops[0]), hops.drop_first())
    }
}

/// Whether any Set-Cookie value of a hop writes the jar slot of `x`.
pub open spec fn hop_touches_key(hop: ResponseHopV, x: CookieV) -> bool {
    exists|i: int| 0 <= i < hop.raws.len() && touches_key(hop.raws[i], x, hop.host, hop.path)
}

/// Law: a jar cookie that no hop of a chain overwrites and no prune along
/// the chain expires survives the whole chain.
pub proof fn lemma_chain_preserves(jar: Seq<CookieV>, hops: Seq<ResponseHopV>, x: CookieV)
    requires
        jar.contains(x),
        forall|t: int| 0 <= t < hops.len() ==> !hop_touches_key(#[trigger] hops[t], x),
        forall|t: int| 0 <= t < hops.len() ==> !expired_at(x, (#[trigger] hops[t]).now),
    ensures
        chain_jar(jar, hops).contains(x),
    decreases hops.len(),
{
    if hops.len() > 0 {
        let h = hops[0];
        assert(!hop_touches_key(h, x) && !expired_at(x, h.now));
        assert forall|j: int| 0 <= j < h.raws.len() implies !touches_key(
            #[trigger] h.raws[j],
            x,
            h.host,
            h.path,
        ) by {
            assert(!hop_touches_key(h, x));
        }
        let ingested = ingest_all_spec(jar, h.raws, h.host, h.path);
        lemma_ingest_all_preserves(jar, h.raws, h.host, h.path, x);
        crate::jar::lemma_prune_membership(ingested, h.now, x);
        assert(hop_jar(jar, h).contains(x));
        assert forall|t: int| 0 <= t < hops.drop_first().len() implies !hop_touches_key(
            #[trigger] hops.drop_first()[t],
            x,
        ) && !expired_at(x, hops.drop_first()[t].now) by {
            assert(hops.drop_first()[t] == hops[t + 1]);
        }
        lemma_chain_preserves(hop_jar(jar, h), hops.drop_first(), x);
    }
}

/// Law (chain union): over a chain of redirection responses, every
/// Set-Cookie value that parses and is accepted lands in the jar in its
/// stored form and survives to the end of the chain, provided no later
/// value of its own hop and no later hop writes its `(name, domain, path)`
/// slot and no prune along the way expires it. A chain of responses
/// carrying distinct, unexpired cookies therefore leaves the jar holding
/// their union.
pub proof fn lemma_chain_union(jar: Seq<CookieV>, hops: Seq<ResponseHopV>, k: int, i: int)
    requires
        0 <= k < hops.len(),
        0 <= i < hops[k].raws.len(),
        parsed_set_cookie(hops[k].raws[i]) is Some,
        crate::jar::ingest_accepts(parsed_set_cookie(hops[k].raws[i])->0, hops[k].host),
        forall|j: int|
            i < j < hops[k].raws.len() ==> !touches_key(
                #[trigger] hops[k].raws[j],
                stored_of(hops[k].raws[i], hops[k].host, hops[k].path),
                hops[k].host,
                hops[k].path,
            ),
        forall|t: int|
            k < t < hops.len() ==> !hop_touches_key(
                #[trigger] hops[t],
                stored_of(hops[k].raws[i], hops[k].host, hops[k].path),
            ),
        forall|t: int|
            k <= t < hops.len() ==> !expired_at(
                stored_of(hops[k].raws[i], hops[k].host, hops[k].path),
                (#[trigger] hops[t]).now,
            ),
    ensures
        chain_jar(jar, hops).contains(stored_of(hops[k].raws[i], hops[k].host, hops[k].path)),
    decreases hops.len(),
{
    let h = hops[0];
    if k == 0 {
        let stored = stored_of(h.raws[i], h.host, h.path);
        lemma_ingest_all_retains(jar, h.raws, h.host, h.path, i);
        let ingested = ingest_all_spec(jar, h.raws, h.host, h.path);
        assert(!expired_at(stored, h.now)) by {
            assert(!expired_at(stored, (hops[0]).now));
        }
        crate::jar::lemma_prune_membership(ingested, h.now, stored);
        assert(hop_jar(jar, h).contains(stored));
        assert forall|t: int| 0 <= t < hops.drop_first().len() implies !hop_touches_key(
            #[trigger] hops.drop_first()[t],
            stored,
        ) && !expired_at(stored, hops.drop_first()[t].now) by {
            assert(hops.drop_first()[t] == hops[t + 1]);
        }
        lemma_chain_preserves(hop_jar(jar, h), hops.drop_first(), stored);
    } else {
        let stored = stored_of(hops[k].raws[i], hops[k].host, hops[k].path);
        assert(hops.drop_first()[k - 1] == hops[k]);
        assert forall|t: int| k - 1 < t < hops.drop_first().len() implies !hop_touches_key(
            #[trigger] hops.drop_first()[t],
            stored,
        ) by {
            assert(hops.drop_first()[t] == hops[t + 1]);
        }
        assert forall|t: int| k - 1 <= t < hops.drop_first().len() implies !expired_at(
            stored,
            (#[trigger] hops.drop_first()[t]).now,
        ) by {
            assert(hops.drop_first()[t] == hops[t + 1]);
        }
        lemma_chain_union(hop_jar(jar, h), hops.drop_first(), k - 1, i);
    }
}

} // verus!
