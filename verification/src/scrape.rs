//! Verified screen-scraping helpers: token-delimited substring extraction,
//! whitespace stripping, and the two page scrapers that pull the
//! identifier map and the device-data fragment out of a fetched page.

use vstd::prelude::*;
use vstd::slice::slice_subrange;
use crate::bytes::{find_sub, first_match, copy_bytes, pairs_view};
use vstd::string::StringSliceAdditionalSpecFns;

verus! {

/// Mathematical image of a [`Token`].
pub struct TokenV {
    pub start_text: Seq<u8>,
    pub start_offset: int,
    pub end_text: Seq<u8>,
    pub end_offset: int,
}

/// The bytes of an ASCII string, char by char.
pub open spec fn ascii_bytes(s: Seq<char>) -> Seq<u8> {
    Seq::new(s.len(), |i: int| s[i] as u8)
}

/// A pair of delimiter texts with signed index corrections, bracketing an
/// interesting substring of a page.
pub struct Token {
    pub start_text: Vec<u8>,
    pub start_offset: i64,
    pub end_text: Vec<u8>,
    pub end_offset: i64,
}

impl View for Token {
    type V = TokenV;

    open spec fn view(&self) -> TokenV {
        TokenV {
            start_text: self.start_text@,
            start_offset: self.start_offset as int,
            end_text: self.end_text@,
            end_offset: self.end_offset as int,
        }
    }
}

/// The half-open byte range that a token brackets in `h`: the leftmost
/// occurrence of the start text (corrected by the start offset) opens it,
/// and the next occurrence of the end text (corrected by the end offset)
/// closes it. Corrections that leave the page are rejected.
pub open spec fn token_parse(t: TokenV, h: Seq<u8>) -> Option<(int, int)> {
    match first_match(h, t.start_text) {
        None => None,
        Some(p0) => {
            let pos = p0 + t.start_offset;
            if pos < 0 || pos + t.start_text.len() > h.len() {
                None
            } else {
                let start = pos + t.start_text.len();
                match first_match(h.subrange(start, h.len() as int), t.end_text) {
                    None => None,
                    Some(e0) => {
                        let end_rel = e0 + t.end_offset;
                        if end_rel < 0 || start + end_rel > h.len() {
                            None
                        } else {
                            Some((start, start + end_rel))
                        }
                    },
                }
            }
        },
    }
}

/// A bracketed range always lies inside the searched page.
pub proof fn lemma_token_parse_bounds(t: TokenV, h: Seq<u8>)
    ensures
        token_parse(t, h) matches Some(p) ==> 0 <= p.0 <= p.1 <= h.len(),
{
}

impl Token {
    /// A token with the given delimiter texts and no index corrections.
    pub fn new(start_token: &str, end_token: &str) -> (t: Token)
        ensures
            t@.start_text == start_token.spec_bytes(),
            t@.end_text == end_token.spec_bytes(),
            t@.start_offset == 0,
            t@.end_offset == 0,
    {
        Token {
            start_text: copy_bytes(start_token.as_bytes()),
            start_offset: 0,
            end_text: copy_bytes(end_token.as_bytes()),
            end_offset: 0,
        }
    }

    /// Sets the signed index corrections.
    pub fn set_offset(&mut self, start: i64, end: i64)
        ensures
            final(self)@ == (TokenV {
                start_offset: start as int,
                end_offset: end as int,
                ..old(self)@
            }),
    {
        self.start_offset = start;
        self.end_offset = end;
    }

    /// The range this token brackets in `html`, if any.
    pub fn parse(&self, html: &[u8]) -> (r: Option<(usize, usize)>)
        ensures
            match r {
                Some(p) => token_parse(self@, html@) == Some((p.0 as int, p.1 as int)),
                None => token_parse(self@, html@) is None,
            },
    {
        let hlen: usize = html.len();
        let p0 = match find_sub(html, self.start_text.as_slice()) {
            None => {
                return None;
            },
            Some(p0) => p0,
        };
        let stlen: usize = self.start_text.len();
        let pos_i: i128 = p0 as i128 + self.start_offset as i128;
        if pos_i < 0 || pos_i + stlen as i128 > hlen as i128 {
            return None;
        }
        let start: usize = (pos_i as usize) + stlen;
        let tail = slice_subrange(html, start, hlen);
        let e0 = match find_sub(tail, self.end_text.as_slice()) {
            None => {
                return None;
            },
            Some(e0) => e0,
        };
        let end_i: i128 = e0 as i128 + self.end_offset as i128;
        if end_i < 0 || start as i128 + end_i > hlen as i128 {
            return None;
        }
        Some((start, start + (end_i as usize)))
    }
}

/// Whitespace as the page normalizer treats it.
pub open spec fn is_space_byte(b: u8) -> bool {
    b == 32 || b == 10 || b == 9 || b == 13
}

/// `s` with every whitespace byte removed.
pub open spec fn strip_spaces(s: Seq<u8>) -> Seq<u8>
    decreases s.len(),
{
    if s.len() == 0 {
        Seq::empty()
    } else {
        let rest = strip_spaces(s.drop_last());
        if is_space_byte(s.last()) {
            rest
        } else {
            rest.push(s.last())
        }
    }
}

/// Removes every space, newline, tab and carriage-return byte.
pub fn remove_special_chars(text: &[u8]) -> (r: Vec<u8>)
    ensures
        r@ == strip_spaces(text@),
{
    let n: usize = text.len();
    let mut out: Vec<u8> = Vec::new();
    let mut i: usize = 0;
    while i < n
        invariant
            n == text@.len(),
            0 <= i <= n,
            out@ == strip_spaces(text@.subrange(0, i as int)),
        decreases n - i,
    {
        let b = text[i];
        proof {
            assert(text@.subrange(0, i + 1 as int).drop_last() =~= text@.subrange(0, i as int));
            assert(text@.subrange(0, i + 1 as int).last() == text@[i as int]);
        }
        if !(b == 32 || b == 10 || b == 9 || b == 13) {
            out.push(b);
        }
        i += 1;
    }
    proof {
        assert(text@.subrange(0, n as int) =~= text@);
    }
    out
}

/// `m` with every pair keyed `k` removed.
pub open spec fn remove_pair_key(m: Seq<(Seq<u8>, Seq<u8>)>, k: Seq<u8>) -> Seq<
    (Seq<u8>, Seq<u8>),
>
    decreases m.len(),
{
    if m.len() == 0 {
        Seq::empty()
    } else {
        let rest = remove_pair_key(m.drop_last(), k);
        if m.last().0 == k {
            rest
        } else {
            rest.push(m.last())
        }
    }
}

/// Last-write-wins insertion: any pair keyed `k` goes, `(k, v)` comes last.
pub open spec fn upsert(m: Seq<(Seq<u8>, Seq<u8>)>, k: Seq<u8>, v: Seq<u8>) -> Seq<
    (Seq<u8>, Seq<u8>),
> {
    remove_pair_key(m, k).push((k, v))
}

/// The value of the first pair keyed `k`.
pub open spec fn assoc_find(m: Seq<(Seq<u8>, Seq<u8>)>, k: Seq<u8>) -> Option<Seq<u8>>
    decreases m.len(),
{
    if m.len() == 0 {
        None
    } else if m[0].0 == k {
        Some(m[0].1)
    } else {
        assoc_find(m.drop_first(), k)
    }
}

/// Inserts `(k, v)`, overwriting any pair with the same key.
pub fn upsert_pair(m: &mut Vec<(Vec<u8>, Vec<u8>)>, k: Vec<u8>, v: Vec<u8>)
    ensures
        pairs_view(final(m)@) == upsert(pairs_view(old(m)@), k@, v@),
{
    let n: usize = m.len();
    let mut kept: Vec<(Vec<u8>, Vec<u8>)> = Vec::new();
    let mut i: usize = 0;
    while i < n
        invariant
            n == m@.len(),
            0 <= i <= n,
            pairs_view(kept@) == remove_pair_key(pairs_view(m@).subrange(0, i as int), k@),
        decreases n - i,
    {
        proof {
            assert(pairs_view(m@).subrange(0, i + 1 as int).drop_last() =~= pairs_view(
                m@,
            ).subrange(0, i as int));
        }
        if !crate::bytes::bytes_eq(m[i].0.as_slice(), k.as_slice()) {
            let name = copy_bytes(m[i].0.as_slice());
            let value = copy_bytes(m[i].1.as_slice());
            kept.push((name, value));
            proof {
                assert(pairs_view(kept@) =~= remove_pair_key(
                    pairs_view(m@).subrange(0, i + 1 as int),
                    k@,
                ));
            }
        } else {
            proof {
                assert(pairs_view(kept@) =~= remove_pair_key(
                    pairs_view(m@).subrange(0, i + 1 as int),
                    k@,
                ));
            }
        }
        i += 1;
    }
    proof {
        assert(pairs_view(m@).subrange(0, n as int) =~= pairs_view(m@));
    }
    kept.push((k, v));
    *m = kept;
    proof {
        assert(pairs_view(m@) =~= upsert(pairs_view(old(m)@), k@, v@));
    }
}

/// The value stored under `k`, if any.
pub fn assoc_get<'a>(m: &'a [(Vec<u8>, Vec<u8>)], k: &[u8]) -> (r: Option<&'a Vec<u8>>)
    ensures
        match r {
            Some(v) => assoc_find(pairs_view(m@), k@) == Some(v@),
            None => assoc_find(pairs_view(m@), k@) is None,
        },
{
    let n: usize = m.len();
    let mut i: usize = 0;
    proof {
        assert(pairs_view(m@).subrange(0, n as int) =~= pairs_view(m@));
    }
    while i < n
        invariant
            n == m@.len(),
            0 <= i <= n,
            assoc_find(pairs_view(m@), k@) == assoc_find(
                pairs_view(m@).subrange(i as int, n as int),
                k@,
            ),
        decreases n - i,
    {
        proof {
            assert(pairs_view(m@).subrange(i as int, n as int)[0] == pairs_view(m@)[i as int]);
            assert(pairs_view(m@).subrange(i as int, n as int).drop_first() =~= pairs_view(
                m@,
            ).subrange(i + 1 as int, n as int));
        }
        let entry = &m[i];
        if crate::bytes::bytes_eq(entry.0.as_slice(), k) {
            return Some(&entry.1);
        }
        i += 1;
    }
    proof {
        assert(pairs_view(m@).subrange(n as int, n as int) =~= Seq::<(Seq<u8>, Seq<u8>)>::empty());
    }
    None
}


/// Failure of a page scraper: the page no longer has the expected shape.
#[derive(Clone, Copy, PartialEq, Eq, Structural, Debug)]
pub enum ScrapeError {
    DataRepresentationChanged,
}

impl ScrapeError {
    /// A human-readable description of the failure.
    pub fn message(&self) -> (r: &'static str)
        ensures
            r@ == "Data representation is changed."@,
    {
        "Data representation is changed."
    }
}

/// The token bracketing an ICCID in a normalized device page.
pub open spec fn iccid_token_v() -> TokenV {
    TokenV {
        start_text: ascii_bytes("ICCID:"@),
        start_offset: 0,
        end_text: ascii_bytes("</"@),
        end_offset: 0,
    }
}

/// The token bracketing a product identifier in a normalized device page.
pub open spec fn product_token_v() -> TokenV {
    TokenV {
        start_text: ascii_bytes("name=\"product\"value=\""@),
        start_offset: 0,
        end_text: ascii_bytes("\""@),
        end_offset: 0,
    }
}

/// The token bracketing the device-data fragment in a normalized page; the
/// end offset of one keeps the closing brace in the fragment.
pub open spec fn device_token_v() -> TokenV {
    TokenV {
        start_text: ascii_bytes("sliderData="@),
        start_offset: 0,
        end_text: ascii_bytes("};"@),
        end_offset: 1,
    }
}

/// The ICCID-to-product-identifier pairs scraped from `h`, walking the page
/// left to right and letting a repeated ICCID overwrite its earlier entry.
pub open spec fn iccid_pairs_from(h: Seq<u8>, acc: Seq<(Seq<u8>, Seq<u8>)>) -> Seq<
    (Seq<u8>, Seq<u8>),
>
    decreases h.len(),
{
    match (token_parse(iccid_token_v(), h), token_parse(product_token_v(), h)) {
        (Some(ip), Some(pp)) => {
            if 0 < ip.1 <= h.len() && 0 <= ip.0 <= ip.1 && 0 <= pp.0 <= pp.1 <= h.len() {
                iccid_pairs_from(
                    h.subrange(ip.1, h.len() as int),
                    upsert(acc, h.subrange(ip.0, ip.1), h.subrange(pp.0, pp.1)),
                )
            } else {
                acc
            }
        },
        _ => acc,
    }
}

/// The ICCID-to-product-identifier map scraped from `h`.
pub open spec fn iccid_pairs(h: Seq<u8>) -> Seq<(Seq<u8>, Seq<u8>)> {
    iccid_pairs_from(h, Seq::empty())
}

/// Scrapes the ICCID-to-product-identifier pairs out of a normalized page.
pub fn map_iccid_html(html: &[u8]) -> (r: Vec<(Vec<u8>, Vec<u8>)>)
    ensures
        pairs_view(r@) == iccid_pairs(html@),
{
    let iccid_token = Token::new("ICCID:", "</");
    let id_token = Token::new("name=\"product\"value=\"", "\"");
    proof {
        reveal_strlit("ICCID:");
        reveal_strlit("</");
        reveal_strlit("name=\"product\"value=\"");
        reveal_strlit("\"");
        vstd::string::is_ascii_spec_bytes("ICCID:");
        vstd::string::is_ascii_spec_bytes("</");
        vstd::string::is_ascii_spec_bytes("name=\"product\"value=\"");
        vstd::string::is_ascii_spec_bytes("\"");
        assert(vstd::string::is_ascii("ICCID:"));
        assert(vstd::string::is_ascii("</"));
        assert(vstd::string::is_ascii("name=\"product\"value=\""));
        assert(vstd::string::is_ascii("\""));
        assert(iccid_token@.start_text =~= iccid_token_v().start_text);
        assert(iccid_token@.end_text =~= iccid_token_v().end_text);
        assert(id_token@.start_text =~= product_token_v().start_text);
        assert(id_token@.end_text =~= product_token_v().end_text);
    }
    let mut out: Vec<(Vec<u8>, Vec<u8>)> = Vec::new();
    let mut cur: &[u8] = html;
    loop
        invariant
            iccid_token@ == iccid_token_v(),
            id_token@ == product_token_v(),
            iccid_pairs(html@) == iccid_pairs_from(cur@, pairs_view(out@)),
        decreases cur@.len(),
    {
        let ip = iccid_token.parse(cur);
        let pp = id_token.parse(cur);
        match (ip, pp) {
            (Some((istart, iend)), Some((pstart, pend))) => {
                proof {
                    lemma_token_parse_bounds(iccid_token@, cur@);
                    lemma_token_parse_bounds(id_token@, cur@);
                }
                if iend == 0 {
                    return out;
                }
                let k = copy_bytes(slice_subrange(cur, istart, iend));
                let v = copy_bytes(slice_subrange(cur, pstart, pend));
                upsert_pair(&mut out, k, v);
                cur = slice_subrange(cur, iend, cur.len());
            },
            _ => {
                return out;
            },
        }
    }
}

/// Cuts the device-data fragment out of a normalized page.
pub fn parse_device_html(html: &[u8]) -> (r: Result<Vec<u8>, ScrapeError>)
    ensures
        match token_parse(device_token_v(), html@) {
            Some(p) => (r matches Ok(v) && v@ == html@.subrange(p.0, p.1)),
            None => r == Result::<Vec<u8>, ScrapeError>::Err(ScrapeError::DataRepresentationChanged),
        },
{
    let mut device_token = Token::new("sliderData=", "};");
    device_token.set_offset(0, 1);
    proof {
        reveal_strlit("sliderData=");
        reveal_strlit("};");
        vstd::string::is_ascii_spec_bytes("sliderData=");
        vstd::string::is_ascii_spec_bytes("};");
        assert(vstd::string::is_ascii("sliderData="));
        assert(vstd::string::is_ascii("};"));
        assert(device_token@.start_text =~= device_token_v().start_text);
        assert(device_token@.end_text =~= device_token_v().end_text);
    }
    match device_token.parse(html) {
        Some((start, end)) => {
            proof {
                lemma_token_parse_bounds(device_token@, html@);
            }
            Ok(copy_bytes(slice_subrange(html, start, end)))
        },
        None => Err(ScrapeError::DataRepresentationChanged),
    }
}

} // verus!
