//! The cookie jar: stores cookies, matches them against a request's host
//! and path, prunes expired entries. The jar holds at most one cookie per
//! `(name, domain, path)` key; ingesting an equal-keyed cookie overwrites
//! the previous value and expiry.
//!
//! A cookie domain matches its exact host and every subdomain of it (the
//! suffix must sit on a label boundary, so `yota.ru` never matches
//! `notyota.ru`). The comparison is deliberately not public-suffix-aware: a
//! cookie scoped to a shared registrable suffix such as a bare top-level
//! domain still matches every host under it. This is a documented
//! limitation, not a goal to fix.

use vstd::prelude::*;
use crate::bytes::{bytes_eq, starts_with, ends_with, is_prefix_of, is_suffix_of, copy_bytes};

verus! {

/// Mathematical image of a stored cookie.
pub struct CookieV {
    pub name: Seq<u8>,
    pub value: Seq<u8>,
    pub domain: Seq<u8>,
    pub path: Seq<u8>,
    pub expires: Option<int>,
}

/// A cookie as the jar stores it: domain and path are always concrete
/// (defaulting happened on ingest); expiry is an absolute unix timestamp.
pub struct Cookie {
    pub name: Vec<u8>,
    pub value: Vec<u8>,
    pub domain: Vec<u8>,
    pub path: Vec<u8>,
    pub expires: Option<i64>,
}

impl View for Cookie {
    type V = CookieV;

    open spec fn view(&self) -> CookieV {
        CookieV {
            name: self.name@,
            value: self.value@,
            domain: self.domain@,
            path: self.path@,
            expires: match self.expires {
                Some(t) => Some(t as int),
                None => None,
            },
        }
    }
}

/// Mathematical image of one parsed Set-Cookie header.
pub struct SetCookieV {
    pub name: Seq<u8>,
    pub value: Seq<u8>,
    pub domain: Option<Seq<u8>>,
    pub path: Option<Seq<u8>>,
    pub expires: Option<int>,
}

/// One parsed Set-Cookie header, before domain and path defaulting.
pub struct SetCookie {
    pub name: Vec<u8>,
    pub value: Vec<u8>,
    pub domain: Option<Vec<u8>>,
    pub path: Option<Vec<u8>>,
    pub expires: Option<i64>,
}

impl View for SetCookie {
    type V = SetCookieV;

    open spec fn view(&self) -> SetCookieV {
        SetCookieV {
            name: self.name@,
            value: self.value@,
            domain: match self.domain {
                Some(ref d) => Some(d@),
                None => None,
            },
            path: match self.path {
                Some(ref p) => Some(p@),
                None => None,
            },
            expires: match self.expires {
                Some(t) => Some(t as int),
                None => None,
            },
        }
    }
}

/// A request host matches a cookie domain when they are equal or the host
/// ends with a dot followed by the domain — a suffix on a label boundary
/// (see the module note on the remaining public-suffix gap).
pub open spec fn domain_matches(host: Seq<u8>, domain: Seq<u8>) -> bool {
    host == domain || is_suffix_of(seq!['.' as u8] + domain, host)
}

/// A cookie path matches a request path that it is a prefix of.
pub open spec fn path_matches(req_path: Seq<u8>, cookie_path: Seq<u8>) -> bool {
    is_prefix_of(cookie_path, req_path)
}

/// A cookie has expired at `now` when its expiry is set and lies before
/// `now`; a cookie with no expiry never expires.
pub open spec fn expired_at(c: CookieV, now: int) -> bool {
    match c.expires {
        Some(t) => t < now,
        None => false,
    }
}

/// Two cookies share a jar slot when name, domain and path all agree.
pub open spec fn same_key(a: CookieV, b: CookieV) -> bool {
    a.name == b.name && a.domain == b.domain && a.path == b.path
}

/// At most one cookie per `(name, domain, path)` key.
pub open spec fn jar_wf(jar: Seq<CookieV>) -> bool {
    forall|i: int, j: int| 0 <= i < j < jar.len() ==> !same_key(jar[i], jar[j])
}

/// Whether the jar accepts a candidate set by `host`: a candidate with a
/// domain must match the requesting host; one without is rejected only when
/// the host is empty.
pub open spec fn ingest_accepts(c: SetCookieV, host: Seq<u8>) -> bool {
    match c.domain {
        Some(d) => domain_matches(host, d),
        None => host.len() > 0,
    }
}

/// The stored form of an accepted candidate: an absent domain binds the
/// cookie to the requesting host, an absent path defaults to the request
/// path.
pub open spec fn stored_cookie(c: SetCookieV, host: Seq<u8>, path: Seq<u8>) -> CookieV {
    CookieV {
        name: c.name,
        value: c.value,
        domain: match c.domain {
            Some(d) => d,
            None => host,
        },
        path: match c.path {
            Some(p) => p,
            None => path,
        },
        expires: c.expires,
    }
}

/// `jar` with every cookie keyed like `key` removed.
pub open spec fn remove_key(jar: Seq<CookieV>, key: CookieV) -> Seq<CookieV>
    decreases jar.len(),
{
    if jar.len() == 0 {
        Seq::empty()
    } else {
        let rest = remove_key(jar.drop_last(), key);
        if same_key(jar.last(), key) {
            rest
        } else {
            rest.push(jar.last())
        }
    }
}

/// The jar after one candidate is offered: rejected candidates leave it
/// unchanged; an accepted one overwrites any equal-keyed cookie.
pub open spec fn ingest_spec(jar: Seq<CookieV>, c: SetCookieV, host: Seq<u8>, path: Seq<u8>) -> Seq<
    CookieV,
> {
    if ingest_accepts(c, host) {
        remove_key(jar, stored_cookie(c, host, path)).push(stored_cookie(c, host, path))
    } else {
        jar
    }
}

/// The jar after removing exactly the cookies expired at `now`.
pub open spec fn prune_spec(jar: Seq<CookieV>, now: int) -> Seq<CookieV>
    decreases jar.len(),
{
    if jar.len() == 0 {
        Seq::empty()
    } else {
        let rest = prune_spec(jar.drop_last(), now);
        if expired_at(jar.last(), now) {
            rest
        } else {
            rest.push(jar.last())
        }
    }
}

/// A cookie qualifies for a request when its domain matches the host, its
/// path is a prefix of the request path, and it has not expired.
pub open spec fn selected(c: CookieV, host: Seq<u8>, path: Seq<u8>, now: int) -> bool {
    domain_matches(host, c.domain) && path_matches(path, c.path) && !expired_at(c, now)
}

/// The `name=value` text of one cookie.
pub open spec fn cookie_entry(c: CookieV) -> Seq<u8> {
    c.name + seq!['=' as u8] + c.value
}

/// The `"; "` separator between entries.
pub open spec fn entry_sep() -> Seq<u8> {
    seq![';' as u8, ' ' as u8]
}

/// The Cookie header value built left to right over `jar`, starting from
/// `acc`: every qualifying cookie's entry is appended, separated by `"; "`.
pub open spec fn select_join(
    jar: Seq<CookieV>,
    host: Seq<u8>,
    path: Seq<u8>,
    now: int,
    acc: Seq<u8>,
) -> Seq<u8>
    decreases jar.len(),
{
    if jar.len() == 0 {
        acc
    } else {
        let c = jar[0];
        let acc2 = if selected(c, host, path, now) {
            if acc.len() == 0 {
                cookie_entry(c)
            } else {
                acc + entry_sep() + cookie_entry(c)
            }
        } else {
            acc
        };
        select_join(jar.drop_first(), host, path, now, acc2)
    }
}

/// The Cookie header value for a request: empty when no cookie qualifies.
pub open spec fn select_spec(jar: Seq<CookieV>, host: Seq<u8>, path: Seq<u8>, now: int) -> Seq<
    u8,
> {
    select_join(jar, host, path, now, Seq::empty())
}

/// A byte legal in an HTTP header value: horizontal tab, or visible and
/// non-delete.
pub open spec fn valid_header_byte(b: u8) -> bool {
    b == 9 || (32 <= b && b != 127)
}

/// A byte string legal as an HTTP header value.
pub open spec fn valid_header_value(s: Seq<u8>) -> bool {
    forall|i: int| 0 <= i < s.len() ==> valid_header_byte(s[i])
}

/// Whether `host` matches the cookie domain `domain`.
pub fn domain_match_exec(host: &[u8], domain: &[u8]) -> (r: bool)
    ensures
        r == domain_matches(host@, domain@),
{
    if bytes_eq(host, domain) {
        return true;
    }
    let mut dotted: Vec<u8> = Vec::new();
    dotted.push('.' as u8);
    dotted.extend_from_slice(domain);
    proof {
        assert(dotted@ =~= seq!['.' as u8] + domain@);
    }
    ends_with(host, dotted.as_slice())
}

/// Whether `v` may travel as an HTTP header value.
pub fn is_valid_header_value(v: &[u8]) -> (r: bool)
    ensures
        r == valid_header_value(v@),
{
    let n: usize = v.len();
    let mut i: usize = 0;
    while i < n
        invariant
            n == v@.len(),
            0 <= i <= n,
            forall|j: int| 0 <= j < i ==> valid_header_byte(v@[j]),
        decreases n - i,
    {
        let b = v[i];
        if !(b == 9 || (32 <= b && b != 127)) {
            return false;
        }
        i += 1;
    }
    true
}

/// A copy of a cookie, field by field.
fn clone_cookie(c: &Cookie) -> (r: Cookie)
    ensures
        r@ == c@,
{
    Cookie {
        name: copy_bytes(c.name.as_slice()),
        value: copy_bytes(c.value.as_slice()),
        domain: copy_bytes(c.domain.as_slice()),
        path: copy_bytes(c.path.as_slice()),
        expires: c.expires,
    }
}

/// Whether two cookies occupy the same jar slot.
fn same_key_exec(a: &Cookie, b: &Cookie) -> (r: bool)
    ensures
        r == same_key(a@, b@),
{
    bytes_eq(a.name.as_slice(), b.name.as_slice()) && bytes_eq(
        a.domain.as_slice(),
        b.domain.as_slice(),
    ) && bytes_eq(a.path.as_slice(), b.path.as_slice())
}

/// The jar's contents, as stored cookie images in insertion order.
pub open spec fn jar_view(s: Seq<Cookie>) -> Seq<CookieV> {
    Seq::new(s.len(), |i: int| s[i]@)
}

/// An unordered collection of cookies, owned by one session engine.
pub struct CookieJar {
    cookies: Vec<Cookie>,
}

impl View for CookieJar {
    type V = Seq<CookieV>;

    closed spec fn view(&self) -> Seq<CookieV> {
        jar_view(self.cookies@)
    }
}

impl CookieJar {
    /// An empty jar.
    pub fn new() -> (jar: CookieJar)
        ensures
            jar@ == Seq::<CookieV>::empty(),
            jar_wf(jar@),
    {
        let jar = CookieJar { cookies: Vec::new() };
        proof {
            assert(jar@ =~= Seq::<CookieV>::empty());
        }
        jar
    }

    /// How many cookies the jar holds.
    pub fn len(&self) -> (n: usize)
        ensures
            n == self@.len(),
    {
        self.cookies.len()
    }

    /// Offers one parsed candidate to the jar, with the requesting host and
    /// path as the defaulting reference. A candidate whose domain does not
    /// match the host is silently rejected; an accepted one overwrites any
    /// cookie with the same `(name, domain, path)` key.
    pub fn ingest(&mut self, c: &SetCookie, request_domain: &[u8], request_path: &[u8])
        ensures
            final(self)@ == ingest_spec(old(self)@, c@, request_domain@, request_path@),
            jar_wf(old(self)@) ==> jar_wf(final(self)@),
    {
        let accepted = match &c.domain {
            Some(d) => domain_match_exec(request_domain, d.as_slice()),
            None => request_domain.len() > 0,
        };
        if !accepted {
            return;
        }
        let stored = Cookie {
            name: copy_bytes(c.name.as_slice()),
            value: copy_bytes(c.value.as_slice()),
            domain: match &c.domain {
                Some(d) => copy_bytes(d.as_slice()),
                None => copy_bytes(request_domain),
            },
            path: match &c.path {
                Some(p) => copy_bytes(p.as_slice()),
                None => copy_bytes(request_path),
            },
            expires: c.expires,
        };
        proof {
            assert(stored@ == stored_cookie(c@, request_domain@, request_path@));
        }
        let n: usize = self.cookies.len();
        let mut kept: Vec<Cookie> = Vec::new();
        let mut i: usize = 0;
        while i < n
            invariant
                n == self.cookies@.len(),
                0 <= i <= n,
                jar_view(kept@) == remove_key(jar_view(self.cookies@).subrange(0, i as int), stored@),
            decreases n - i,
        {
            proof {
                assert(jar_view(self.cookies@).subrange(0, i + 1 as int).drop_last() =~= jar_view(
                    self.cookies@,
                ).subrange(0, i as int));
            }
            if !same_key_exec(&self.cookies[i], &stored) {
                kept.push(clone_cookie(&self.cookies[i]));
            }
            proof {
                assert(jar_view(kept@) =~= remove_key(
                    jar_view(self.cookies@).subrange(0, i + 1 as int),
                    stored@,
                ));
            }
            i += 1;
        }
        proof {
            assert(jar_view(self.cookies@).subrange(0, n as int) =~= jar_view(self.cookies@));
        }
        kept.push(stored);
        self.cookies = kept;
        proof {
            assert(self@ =~= ingest_spec(old(self)@, c@, request_domain@, request_path@));
            if jar_wf(old(self)@) {
                lemma_remove_key_wf(old(self)@, stored_cookie(c@, request_domain@, request_path@));
            }
        }
    }

    /// Removes every cookie whose expiry lies before `now`; cookies with no
    /// expiry are never removed by pruning.
    pub fn prune(&mut self, now: i64)
        ensures
            final(self)@ == prune_spec(old(self)@, now as int),
            jar_wf(old(self)@) ==> jar_wf(final(self)@),
    {
        let n: usize = self.cookies.len();
        let mut kept: Vec<Cookie> = Vec::new();
        let mut i: usize = 0;
        while i < n
            invariant
                n == self.cookies@.len(),
                0 <= i <= n,
                jar_view(kept@) == prune_spec(jar_view(self.cookies@).subrange(0, i as int), now as int),
            decreases n - i,
        {
            proof {
                assert(jar_view(self.cookies@).subrange(0, i + 1 as int).drop_last() =~= jar_view(
                    self.cookies@,
                ).subrange(0, i as int));
            }
            let keep = match self.cookies[i].expires {
                Some(t) => !(t < now),
                None => true,
            };
            if keep {
                kept.push(clone_cookie(&self.cookies[i]));
            }
            proof {
                assert(jar_view(kept@) =~= prune_spec(
                    jar_view(self.cookies@).subrange(0, i + 1 as int),
                    now as int,
                ));
            }
            i += 1;
        }
        proof {
            assert(jar_view(self.cookies@).subrange(0, n as int) =~= jar_view(self.cookies@));
        }
        self.cookies = kept;
        proof {
            if jar_wf(old(self)@) {
                lemma_prune_wf(old(self)@, now as int);
            }
        }
    }

    /// The joined `name=value` header text of every cookie that qualifies
    /// for a request to `host` at `path`, empty when none does.
    pub fn select(&self, host: &[u8], path: &[u8], now: i64) -> (r: Vec<u8>)
        ensures
            r@ == select_spec(self@, host@, path@, now as int),
    {
        let n: usize = self.cookies.len();
        let mut acc: Vec<u8> = Vec::new();
        let mut i: usize = 0;
        proof {
            assert(self@.subrange(0, n as int) =~= self@);
        }
        while i < n
            invariant
                n == self.cookies@.len(),
                0 <= i <= n,
                select_spec(self@, host@, path@, now as int) == select_join(
                    self@.subrange(i as int, n as int),
                    host@,
                    path@,
                    now as int,
                    acc@,
                ),
            decreases n - i,
        {
            proof {
                assert(self@.subrange(i as int, n as int)[0] == self@[i as int]);
                assert(self@.subrange(i as int, n as int).drop_first() =~= self@.subrange(
                    i + 1 as int,
                    n as int,
                ));
            }
            let c = &self.cookies[i];
            let sel = domain_match_exec(host, c.domain.as_slice())
                && starts_with(path, c.path.as_slice()) && (match c.expires {
                Some(t) => !(t < now),
                None => true,
            });
            let ghost acc0 = acc@;
            if sel {
                if acc.len() > 0 {
                    acc.push(';' as u8);
                    acc.push(' ' as u8);
                }
                acc.extend_from_slice(c.name.as_slice());
                acc.push('=' as u8);
                acc.extend_from_slice(c.value.as_slice());
                proof {
                    if acc0.len() == 0 {
                        assert(acc@ =~= cookie_entry(self@[i as int]));
                    } else {
                        assert(acc@ =~= acc0 + entry_sep() + cookie_entry(self@[i as int]));
                    }
                }
            }
            i += 1;
        }
        proof {
            assert(self@.subrange(n as int, n as int) =~= Seq::<CookieV>::empty());
        }
        acc
    }
}

/// Membership in a sequence splits over its last element.
proof fn lemma_contains_split(s: Seq<CookieV>, c: CookieV)
    requires
        s.len() > 0,
    ensures
        s.contains(c) <==> (s.drop_last().contains(c) || s.last() == c),
{
    if s.contains(c) {
        let w = choose|w: int| 0 <= w < s.len() && s[w] == c;
        if w < s.len() - 1 {
            assert(s.drop_last()[w] == c);
            assert(s.drop_last().contains(c));
        }
    }
    if s.drop_last().contains(c) {
        let w = choose|w: int| 0 <= w < s.drop_last().len() && s.drop_last()[w] == c;
        assert(s[w] == c);
    }
    if s.last() == c {
        assert(s[s.len() - 1] == c);
    }
}

/// Membership in a pushed sequence splits over the pushed element.
proof fn lemma_contains_push(s: Seq<CookieV>, x: CookieV, c: CookieV)
    ensures
        s.push(x).contains(c) <==> (s.contains(c) || x == c),
{
    if s.push(x).contains(c) {
        let w = choose|w: int| 0 <= w < s.push(x).len() && s.push(x)[w] == c;
        if w < s.len() {
            assert(s[w] == c);
        }
    }
    if s.contains(c) {
        let w = choose|w: int| 0 <= w < s.len() && s[w] == c;
        assert(s.push(x)[w] == c);
    }
    if x == c {
        assert(s.push(x)[s.len() as int] == c);
    }
}

/// Dropping the last element keeps the jar's keys unique.
proof fn lemma_wf_drop_last(jar: Seq<CookieV>)
    requires
        jar_wf(jar),
        jar.len() > 0,
    ensures
        jar_wf(jar.drop_last()),
{
    assert(forall|i: int, j: int|
        0 <= i < j < jar.drop_last().len() ==> jar.drop_last()[i] == jar[i] && jar.drop_last()[j]
            == jar[j]);
}

/// Removing a key removes exactly the cookies that share it.
pub proof fn lemma_remove_key_membership(jar: Seq<CookieV>, key: CookieV, c: CookieV)
    ensures
        remove_key(jar, key).contains(c) <==> (jar.contains(c) && !same_key(c, key)),
    decreases jar.len(),
{
    if jar.len() == 0 {
        if jar.contains(c) {
            let w = choose|w: int| 0 <= w < jar.len() && jar[w] == c;
        }
        assert(!remove_key(jar, key).contains(c)) by {
            if remove_key(jar, key).contains(c) {
                let w = choose|w: int|
                    0 <= w < remove_key(jar, key).len() && remove_key(jar, key)[w] == c;
            }
        }
    } else {
        lemma_remove_key_membership(jar.drop_last(), key, c);
        lemma_contains_split(jar, c);
        if !same_key(jar.last(), key) {
            lemma_contains_push(remove_key(jar.drop_last(), key), jar.last(), c);
        }
    }
}

/// Every survivor of a removal stood in the jar.
proof fn lemma_remove_key_sub(jar: Seq<CookieV>, key: CookieV)
    ensures
        forall|i: int|
            0 <= i < remove_key(jar, key).len() ==> jar.contains(#[trigger] remove_key(
                jar,
                key,
            )[i]),
{
    assert forall|i: int| 0 <= i < remove_key(jar, key).len() implies jar.contains(
        #[trigger] remove_key(jar, key)[i],
    ) by {
        assert(remove_key(jar, key).contains(remove_key(jar, key)[i]));
        lemma_remove_key_membership(jar, key, remove_key(jar, key)[i]);
    }
}

/// Removing a key and appending a cookie under it keeps the keys unique.
pub proof fn lemma_remove_key_wf(jar: Seq<CookieV>, key: CookieV)
    requires
        jar_wf(jar),
    ensures
        jar_wf(remove_key(jar, key)),
        jar_wf(remove_key(jar, key).push(key)),
    decreases jar.len(),
{
    if jar.len() > 0 {
        lemma_wf_drop_last(jar);
        lemma_remove_key_wf(jar.drop_last(), key);
    }
    let r = remove_key(jar, key);
    assert(jar_wf(r)) by {
        if jar.len() > 0 {
            if !same_key(jar.last(), key) {
                let r0 = remove_key(jar.drop_last(), key);
                assert forall|i: int, j: int| 0 <= i < j < r.len() implies !same_key(
                    r[i],
                    r[j],
                ) by {
                    if j == r.len() - 1 {
                        assert(r[j] == jar.last());
                        assert(r0.contains(r0[i]));
                        lemma_remove_key_membership(jar.drop_last(), key, r0[i]);
                        let w = choose|w: int|
                            0 <= w < jar.drop_last().len() && jar.drop_last()[w] == r0[i];
                        assert(jar[w] == r0[i]);
                        assert(!same_key(jar[w], jar[jar.len() - 1]));
                    }
                }
            }
        }
    }
    assert forall|i: int, j: int| 0 <= i < j < r.push(key).len() implies !same_key(
        r.push(key)[i],
        r.push(key)[j],
    ) by {
        if j == r.len() as int {
            assert(r.contains(r[i]));
            lemma_remove_key_membership(jar, key, r[i]);
        }
    }
}

/// Pruning removes exactly the cookies expired at `now`.
pub proof fn lemma_prune_membership(jar: Seq<CookieV>, now: int, c: CookieV)
    ensures
        prune_spec(jar, now).contains(c) <==> (jar.contains(c) && !expired_at(c, now)),
    decreases jar.len(),
{
    if jar.len() == 0 {
        if jar.contains(c) {
            let w = choose|w: int| 0 <= w < jar.len() && jar[w] == c;
        }
        if prune_spec(jar, now).contains(c) {
            let w = choose|w: int|
                0 <= w < prune_spec(jar, now).len() && prune_spec(jar, now)[w] == c;
        }
    } else {
        lemma_prune_membership(jar.drop_last(), now, c);
        lemma_contains_split(jar, c);
        if !expired_at(jar.last(), now) {
            lemma_contains_push(prune_spec(jar.drop_last(), now), jar.last(), c);
        }
    }
}

/// Pruning keeps the jar's keys unique.
pub proof fn lemma_prune_wf(jar: Seq<CookieV>, now: int)
    requires
        jar_wf(jar),
    ensures
        jar_wf(prune_spec(jar, now)),
    decreases jar.len(),
{
    if jar.len() > 0 {
        lemma_wf_drop_last(jar);
        lemma_prune_wf(jar.drop_last(), now);
        if !expired_at(jar.last(), now) {
            let r0 = prune_spec(jar.drop_last(), now);
            let r = r0.push(jar.last());
            assert forall|i: int, j: int| 0 <= i < j < r.len() implies !same_key(r[i], r[j]) by {
                if j == r.len() - 1 {
                    assert(r[j] == jar.last());
                    assert(r0.contains(r0[i]));
                    lemma_prune_membership(jar.drop_last(), now, r0[i]);
                    let w = choose|w: int|
                        0 <= w < jar.drop_last().len() && jar.drop_last()[w] == r0[i];
                    assert(jar[w] == r0[i]);
                    assert(!same_key(jar[w], jar[jar.len() - 1]));
                }
            }
        }
    }
}

/// Law: after an accepted ingest the jar holds the candidate's stored form,
/// it is the only cookie under its key, and cookies under other keys are
/// untouched; so of cookies ingested with one `(name, domain, path)` key,
/// only the most recently ingested value and expiry are retained.
pub proof fn lemma_ingest_last_write_wins(
    jar: Seq<CookieV>,
    c: SetCookieV,
    host: Seq<u8>,
    path: Seq<u8>,
)
    requires
        ingest_accepts(c, host),
    ensures
        ingest_spec(jar, c, host, path).contains(stored_cookie(c, host, path)),
        forall|x: CookieV|
            ingest_spec(jar, c, host, path).contains(x) && same_key(x, stored_cookie(c, host, path))
                ==> x == stored_cookie(c, host, path),
        forall|x: CookieV|
            !same_key(x, stored_cookie(c, host, path)) ==> (ingest_spec(
                jar,
                c,
                host,
                path,
            ).contains(x) <==> jar.contains(x)),
{
    let stored = stored_cookie(c, host, path);
    let removed = remove_key(jar, stored);
    let out = removed.push(stored);
    assert(out[out.len() - 1] == stored);
    assert(out.contains(stored));
    assert forall|x: CookieV| out.contains(x) && same_key(x, stored) implies x == stored by {
        lemma_contains_push(removed, stored, x);
        if x != stored {
            lemma_remove_key_membership(jar, stored, x);
        }
    }
    assert forall|x: CookieV| !same_key(x, stored) implies (out.contains(x) <==> jar.contains(
        x,
    )) by {
        lemma_contains_push(removed, stored, x);
        lemma_remove_key_membership(jar, stored, x);
        assert(same_key(stored, stored));
    }
}

/// Law: pruning removes exactly the cookies whose expiry lies before `now`;
/// a cookie without an expiry always survives.
pub proof fn lemma_prune_exact(jar: Seq<CookieV>, now: int)
    ensures
        forall|c: CookieV|
            prune_spec(jar, now).contains(c) <==> (jar.contains(c) && !expired_at(c, now)),
{
    assert forall|c: CookieV|
        prune_spec(jar, now).contains(c) <==> (jar.contains(c) && !expired_at(c, now)) by {
        lemma_prune_membership(jar, now, c);
    }
}

/// Law: domain matching is reflexive, and accepts exactly the hosts that
/// equal the domain or end with a dot followed by it — a suffix on a label
/// boundary, so a host merely ending in the domain's text never matches.
pub proof fn lemma_domain_match_suffix(host: Seq<u8>, domain: Seq<u8>)
    ensures
        domain_matches(domain, domain),
        is_suffix_of(seq!['.' as u8] + domain, host) ==> domain_matches(host, domain),
        domain_matches(host, domain) ==> (host == domain || is_suffix_of(
            seq!['.' as u8] + domain,
            host,
        )),
{
}

/// Law: path matching accepts exactly the cookie paths that are prefixes of
/// the request path.
pub proof fn lemma_path_match_prefix(req_path: Seq<u8>, cookie_path: Seq<u8>)
    ensures
        path_matches(req_path, cookie_path) <==> is_prefix_of(cookie_path, req_path),
{
}


/// An entry is never empty: it holds at least the equals sign.
proof fn lemma_entry_nonempty(c: CookieV)
    ensures
        cookie_entry(c).len() > 0,
{
    assert(cookie_entry(c).len() == c.name.len() + 1 + c.value.len());
}

/// Joining from `acc` gives an empty value exactly when `acc` is empty and
/// no cookie of the jar qualifies.
proof fn lemma_select_join_empty(
    jar: Seq<CookieV>,
    host: Seq<u8>,
    path: Seq<u8>,
    now: int,
    acc: Seq<u8>,
)
    ensures
        select_join(jar, host, path, now, acc).len() == 0 <==> (acc.len() == 0 && forall|i: int|
            0 <= i < jar.len() ==> !selected(#[trigger] jar[i], host, path, now)),
    decreases jar.len(),
{
    if jar.len() > 0 {
        let c = jar[0];
        let acc2 = if selected(c, host, path, now) {
            if acc.len() == 0 {
                cookie_entry(c)
            } else {
                acc + entry_sep() + cookie_entry(c)
            }
        } else {
            acc
        };
        lemma_entry_nonempty(c);
        lemma_select_join_empty(jar.drop_first(), host, path, now, acc2);
        assert(forall|i: int|
            1 <= i < jar.len() ==> jar.drop_first()[i - 1] == #[trigger] jar[i]);
        if selected(c, host, path, now) {
            assert(acc2.len() > 0);
        }
    }
}

/// Law: the selected Cookie header value is empty exactly when no stored
/// cookie qualifies for the request; when one does, a header value is sent.
pub proof fn lemma_select_empty(jar: Seq<CookieV>, host: Seq<u8>, path: Seq<u8>, now: int)
    ensures
        select_spec(jar, host, path, now).len() == 0 <==> (forall|i: int|
            0 <= i < jar.len() ==> !selected(#[trigger] jar[i], host, path, now)),
{
    lemma_select_join_empty(jar, host, path, now, Seq::empty());
}

} // verus!
