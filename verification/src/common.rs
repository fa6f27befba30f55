//! Shared pieces of the request handlers: the API error, whitespace
//! trimming, prefixes, decimal formatting and random identifiers.

use vstd::prelude::*;
use crate::text::{chars_of, push_char, string_of};
use crate::hexcode::{hex_encode, hex_of};
use rand::RngCore;

verus! {

pub const BAD_REQUEST: u16 = 400;
pub const UNAUTHORIZED: u16 = 401;
pub const FORBIDDEN: u16 = 403;
pub const NOT_FOUND: u16 = 404;
pub const CONFLICT: u16 = 409;
pub const PAYLOAD_TOO_LARGE: u16 = 413;
pub const TOO_MANY_REQUESTS: u16 = 429;
pub const INTERNAL_SERVER_ERROR: u16 = 500;
pub const BAD_GATEWAY: u16 = 502;
pub const SERVICE_UNAVAILABLE: u16 = 503;

/// An HTTP error answer: status code and message.
#[derive(Debug)]
pub struct ApiError(pub u16, pub String);

impl ApiError {
    pub fn bad_request(msg: &str) -> (e: Self)
        ensures
            e.0 == BAD_REQUEST,
            e.1@ == msg@,
    {
        ApiError(BAD_REQUEST, msg.to_owned())
    }

    pub fn forbidden(msg: &str) -> (e: Self)
        ensures
            e.0 == FORBIDDEN,
            e.1@ == msg@,
    {
        ApiError(FORBIDDEN, msg.to_owned())
    }

    pub fn with_status(status: u16, msg: &str) -> (e: Self)
        ensures
            e.0 == status,
            e.1@ == msg@,
    {
        ApiError(status, msg.to_owned())
    }
}

/// Length in bytes of the UTF-8 encoding, as `str::len` reports it.
pub open spec fn utf8_len(s: Seq<char>) -> nat {
    (vstd::utf8::encode_utf8(s).len() as usize) as nat
}

/// Unicode `White_Space` (`char::is_whitespace`).
pub open spec fn is_ws(c: char) -> bool {
    c == ' ' || ('\t' <= c && c <= '\r') || c == '\u{85}' || c == '\u{a0}' || c == '\u{1680}'
        || ('\u{2000}' <= c && c <= '\u{200a}') || c == '\u{2028}' || c == '\u{2029}' || c
        == '\u{202f}' || c == '\u{205f}' || c == '\u{3000}'
}

fn is_ws_exec(c: char) -> (b: bool)
    ensures
        b == is_ws(c),
{
    c == ' ' || ('\t' <= c && c <= '\r') || c == '\u{85}' || c == '\u{a0}' || c == '\u{1680}'
        || ('\u{2000}' <= c && c <= '\u{200a}') || c == '\u{2028}' || c == '\u{2029}' || c
        == '\u{202f}' || c == '\u{205f}' || c == '\u{3000}'
}

/// Number of leading whitespace characters.
pub open spec fn lead_ws(s: Seq<char>) -> nat
    decreases s.len(),
{
    if s.len() > 0 && is_ws(s[0]) {
        1 + lead_ws(s.drop_first())
    } else {
        0
    }
}

/// Number of trailing whitespace characters.
pub open spec fn trail_ws(s: Seq<char>) -> nat
    decreases s.len(),
{
    if s.len() > 0 && is_ws(s.last()) {
        1 + trail_ws(s.drop_last())
    } else {
        0
    }
}

/// `str::trim`: without leading and trailing whitespace.
pub open spec fn trim(s: Seq<char>) -> Seq<char> {
    let t = s.skip(lead_ws(s) as int);
    t.take(t.len() - trail_ws(t))
}

proof fn lemma_lead_ws_bound(s: Seq<char>)
    ensures
        lead_ws(s) <= s.len(),
    decreases s.len(),
{
    if s.len() > 0 && is_ws(s[0]) {
        lemma_lead_ws_bound(s.drop_first());
    }
}

proof fn lemma_trail_ws_bound(s: Seq<char>)
    ensures
        trail_ws(s) <= s.len(),
    decreases s.len(),
{
    if s.len() > 0 && is_ws(s.last()) {
        lemma_trail_ws_bound(s.drop_last());
    }
}

/// `str::trim` on characters.
pub fn trim_chars(cs: &[char]) -> (r: Vec<char>)
    ensures
        r@ == trim(cs@),
{
    let n = cs.len();
    let mut a: usize = 0;
    assert(cs@.skip(0) =~= cs@);
    while a < n && is_ws_exec(cs[a])
        invariant
            a <= n,
            n == cs.len(),
            lead_ws(cs@) == a + lead_ws(cs@.skip(a as int)),
        decreases n - a,
    {
        assert(cs@.skip(a as int).drop_first() =~= cs@.skip(a + 1));
        a += 1;
    }
    let ghost t = cs@.skip(a as int);
    assert(lead_ws(t) == 0);
    let mut b: usize = n;
    assert(t.take((b - a) as int) =~= t);
    while b > a && is_ws_exec(cs[b - 1])
        invariant
            a <= b <= n,
            n == cs.len(),
            t == cs@.skip(a as int),
            trail_ws(t) == (n - b) + trail_ws(t.take((b - a) as int)),
        decreases b,
    {
        assert(t.take((b - a) as int).drop_last() =~= t.take((b - 1 - a) as int));
        assert(t.take((b - a) as int).last() == cs@[b - 1]);
        b -= 1;
    }
    assert(trail_ws(t.take((b - a) as int)) == 0);
    let mut r: Vec<char> = Vec::new();
    let mut i = a;
    while i < b
        invariant
            a <= i <= b <= n,
            n == cs.len(),
            r@ == cs@.subrange(a as int, i as int),
        decreases b - i,
    {
        r.push(cs[i]);
        assert(cs@.subrange(a as int, i + 1) =~= cs@.subrange(a as int, i as int).push(cs@[i as int]));
        i += 1;
    }
    assert(r@ =~= t.take(t.len() - trail_ws(t)));
    r
}

/// `str::trim`, as a new string.
pub fn trim_str(s: &str) -> (r: String)
    ensures
        r@ == trim(s@),
{
    let cs = chars_of(s);
    let t = trim_chars(cs.as_slice());
    string_of(t.as_slice())
}

/// Whether `p` is a prefix of `s`.
pub open spec fn has_prefix(s: Seq<char>, p: Seq<char>) -> bool {
    p.len() <= s.len() && s.take(p.len() as int) == p
}

/// `str::starts_with`.
pub fn starts_with(s: &str, p: &str) -> (b: bool)
    ensures
        b == has_prefix(s@, p@),
{
    let x = chars_of(s);
    let y = chars_of(p);
    if y.len() > x.len() {
        return false;
    }
    let mut i: usize = 0;
    while i < y.len()
        invariant
            i <= y.len() <= x.len(),
            x@ == s@,
            y@ == p@,
            forall|j: int| 0 <= j < i ==> x@[j] == y@[j],
        decreases y.len() - i,
    {
        if x[i] != y[i] {
            assert(x@.take(y.len() as int)[i as int] != y@[i as int]);
            return false;
        }
        i += 1;
    }
    assert(x@.take(y.len() as int) =~= y@);
    true
}

/// The decimal digits of `n`, most significant first.
pub open spec fn decimal(n: nat) -> Seq<char>
    decreases n,
{
    if n < 10 {
        seq![((n + 48) as u8) as char]
    } else {
        decimal(n / 10).push((((n % 10) + 48) as u8) as char)
    }
}

/// `u64::to_string`.
pub fn decimal_string(n: u64) -> (s: String)
    ensures
        s@ == decimal(n as nat),
{
    let mut digits: Vec<char> = Vec::new();
    let mut x = n;
    // Collect least significant first.
    while x >= 10
        invariant
            decimal(n as nat) == decimal(x as nat) + digits@.reverse(),
        decreases x,
    {
        let ghost old_digits = digits@;
        let d = ((x % 10) as u8 + 48) as char;
        digits.push(d);
        assert(digits@.reverse() =~= seq![d] + old_digits.reverse());
        assert(decimal(x as nat) == decimal((x / 10) as nat).push(d));
        assert(decimal(x as nat) + old_digits.reverse() =~= decimal((x / 10) as nat) + digits@.reverse());
        x = x / 10;
    }
    let first = ((x as u8) + 48) as char;
    let mut s = String::new();
    push_char(&mut s, first);
    let mut i = digits.len();
    assert(decimal(x as nat) == seq![first]);
    while i > 0
        invariant
            i <= digits.len(),
            s@ + digits@.take(i as int).reverse() == decimal(n as nat),
        decreases i,
    {
        i -= 1;
        let ghost before = s@;
        push_char(&mut s, digits[i]);
        assert(digits@.take(i + 1).reverse() =~= seq![digits@[i as int]] + digits@.take(i as int).reverse());
        assert(before + digits@.take(i + 1).reverse() =~= s@ + digits@.take(i as int).reverse());
    }
    assert(digits@.take(0).reverse() =~= Seq::<char>::empty());
    assert(s@ + Seq::<char>::empty() =~= s@);
    s
}

/// `n` random bytes from the operating system (`OsRng::fill_bytes`).
#[verifier::external_body]
pub(crate) fn os_random_bytes(n: usize) -> (r: Vec<u8>)
    ensures
        r@.len() == n,
{
    let mut v = vec![0u8; n];
    rand::rngs::OsRng.fill_bytes(&mut v);
    v
}

/// `prefix` followed by the hex of `n` fresh random bytes.
pub fn random_id(prefix: &str, n: usize) -> (s: String)
    ensures
        exists|raw: Seq<u8>| raw.len() == n && s@ == prefix@ + hex_of(raw),
{
    let raw = os_random_bytes(n);
    let h = hex_encode(raw.as_slice());
    let mut s = prefix.to_owned();
    s.append(h.as_str());
    s
}

} // verus!
