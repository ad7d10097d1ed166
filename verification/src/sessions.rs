//! Session cookie parsing and the consistency rules of session claims.
//!
//! Token signing and signature checks stay with the host; this module decides which
//! cookie carries the token and whether decoded claims name a directory identity
//! that is still valid at the clock's current time.
use crate::application::{opt_text, Failure};
use crate::policy::{copy_strings, find_identity, texts, Directory, VerifiedIdentity};
use crate::text::{
    chars_of, slice_to_vec, split_char, split_of, string_of, trim, trimmed, lemma_split_len,
};
use std::sync::Arc;
use std::time::Duration;
use vstd::prelude::*;

verus! {

/// Name of the session cookie.
pub const COOKIE: &'static str = "chatpurp_demo_session";

/// Lifetime of a session token, in seconds.
pub const SESSION_SECONDS: u64 = 900;

/// An RFC 6265 token character of a cookie name.
pub open spec fn is_tchar(c: char) -> bool {
    ||| ('a' <= c && c <= 'z')
    ||| ('A' <= c && c <= 'Z')
    ||| ('0' <= c && c <= '9')
    ||| c == '!' || c == '#' || c == '$' || c == '%' || c == '&' || c == '\'' || c == '*'
    ||| c == '+' || c == '-' || c == '.' || c == '^' || c == '_' || c == '`' || c == '|'
    ||| c == '~'
}

/// An RFC 6265 `cookie-octet`.
pub open spec fn is_cookie_octet(c: char) -> bool {
    ||| c == '!'
    ||| ('#' <= c && c <= '+')
    ||| ('-' <= c && c <= ':')
    ||| ('<' <= c && c <= '[')
    ||| (']' <= c && c <= '~')
}

/// The first position of `c` in `s`.
pub open spec fn first_index(s: Seq<char>, c: char) -> Option<int>
    decreases s.len(),
{
    if s.len() == 0 {
        None
    } else {
        match first_index(s.drop_last(), c) {
            Some(i) => Some(i),
            None => if s.last() == c {
                Some(s.len() - 1)
            } else {
                None
            },
        }
    }
}

/// A cookie value without its surrounding double quotes, if it has them.
pub open spec fn unquote(raw: Seq<char>) -> Seq<char> {
    if raw.len() >= 2 && raw[0] == '"' && raw.last() == '"' {
        raw.subrange(1, raw.len() - 1)
    } else {
        raw
    }
}

/// Reads one `name=value` pair of a `Cookie` header, given the session token found
/// so far; `None` refuses the whole header set: missing `=`, a name that is not a
/// token, a value that is not made of cookie octets, or an empty or repeated
/// session cookie.
pub open spec fn cookie_pair(tok: Option<Seq<char>>, part: Seq<char>) -> Option<Option<Seq<char>>> {
    let p = trim(part);
    match first_index(p, '=') {
        None => None,
        Some(i) => {
            let name = p.take(i);
            let value = unquote(p.skip(i + 1));
            if name.len() == 0 || !(forall|k: int| 0 <= k < name.len() ==> is_tchar(#[trigger] name[k]))
                || !(forall|k: int| 0 <= k < value.len() ==> is_cookie_octet(#[trigger] value[k])) {
                None
            } else if name == "chatpurp_demo_session"@ {
                if tok is Some || value.len() == 0 {
                    None
                } else {
                    Some(Some(value))
                }
            } else {
                Some(tok)
            }
        },
    }
}

pub open spec fn pairs_fold(st: Option<Option<Seq<char>>>, parts: Seq<Seq<char>>) -> Option<
    Option<Seq<char>>,
>
    decreases parts.len(),
{
    if parts.len() == 0 {
        st
    } else {
        match pairs_fold(st, parts.drop_last()) {
            None => None,
            Some(tok) => cookie_pair(tok, parts.last()),
        }
    }
}

/// The session token of a list of `Cookie` headers (each split at `;`), `None` when
/// the headers are refused.
pub open spec fn spec_cookie_token(headers: Seq<Seq<char>>) -> Option<Option<Seq<char>>>
    decreases headers.len(),
{
    if headers.len() == 0 {
        Some(None)
    } else {
        pairs_fold(spec_cookie_token(headers.drop_last()), split_char(headers.last(), ';'))
    }
}

/// The texts of a list of string slices.
pub open spec fn str_texts(v: Seq<&str>) -> Seq<Seq<char>> {
    v.map_values(|s: &str| s@)
}

fn all_tchars(name: &[char]) -> (b: bool)
    ensures
        b == (forall|k: int| 0 <= k < name@.len() ==> is_tchar(#[trigger] name@[k])),
{
    for k in 0..name.len()
        invariant
            forall|j: int| 0 <= j < k ==> is_tchar(#[trigger] name@[j]),
    {
        let c = name[k];
        if !(('a' <= c && c <= 'z') || ('A' <= c && c <= 'Z') || ('0' <= c && c <= '9') || c
            == '!' || c == '#' || c == '$' || c == '%' || c == '&' || c == '\'' || c == '*' || c
            == '+' || c == '-' || c == '.' || c == '^' || c == '_' || c == '`' || c == '|' || c
            == '~') {
            return false;
        }
    }
    true
}

fn all_cookie_octets(value: &[char]) -> (b: bool)
    ensures
        b == (forall|k: int| 0 <= k < value@.len() ==> is_cookie_octet(#[trigger] value@[k])),
{
    for k in 0..value.len()
        invariant
            forall|j: int| 0 <= j < k ==> is_cookie_octet(#[trigger] value@[j]),
    {
        let c = value[k];
        if !(c == '!' || ('#' <= c && c <= '+') || ('-' <= c && c <= ':') || ('<' <= c && c
            <= '[') || (']' <= c && c <= '~')) {
            return false;
        }
    }
    true
}

pub(crate) fn first_index_exec(s: &[char], c: char) -> (r: Option<usize>)
    ensures
        match r {
            Some(i) => first_index(s@, c) == Some(i as int) && i < s@.len(),
            None => first_index(s@, c) is None,
        },
{
    for i in 0..s.len()
        invariant
            first_index(s@.take(i as int), c) is None,
    {
        assert(s@.take(i + 1).drop_last() == s@.take(i as int));
        if s[i] == c {
            proof {
                lemma_first_index_prefix(s@, c, i + 1);
            }
            return Some(i);
        }
    }
    assert(s@.take(s@.len() as int) == s@);
    None
}

/// The first position found in a prefix is the first position in the whole text.
proof fn lemma_first_index_prefix(s: Seq<char>, c: char, n: int)
    requires
        0 <= n <= s.len(),
        first_index(s.take(n), c) is Some,
    ensures
        first_index(s, c) == first_index(s.take(n), c),
    decreases s.len() - n,
{
    if n < s.len() {
        assert(s.take(n + 1).drop_last() == s.take(n));
        lemma_first_index_prefix(s, c, n + 1);
    } else {
        assert(s.take(n) == s);
    }
}

/// Reads one pair; `None` refuses.
fn cookie_pair_exec(tok: Option<Vec<char>>, part: &[char]) -> (r: Option<Option<Vec<char>>>)
    ensures
        match r {
            None => cookie_pair(
                match tok {
                    Some(t) => Some(t@),
                    None => None,
                },
                part@,
            ) is None,
            Some(t) => cookie_pair(
                match tok {
                    Some(t) => Some(t@),
                    None => None,
                },
                part@,
            ) == Some(
                match t {
                    Some(x) => Some(x@),
                    None => None,
                },
            ),
        },
{
    let p = trimmed(part);
    let i = match first_index_exec(&p, '=') {
        Some(i) => i,
        None => return None,
    };
    let plen = p.len();
    let name = slice_to_vec(&p, 0, i);
    let raw = slice_to_vec(&p, i + 1, plen);
    assert(name@ == p@.take(i as int));
    assert(raw@ == p@.skip(i + 1));
    let n = raw.len();
    let value = if n >= 2 && raw[0] == '"' && raw[n - 1] == '"' {
        slice_to_vec(&raw, 1, n - 1)
    } else {
        raw
    };
    assert(value@ == unquote(p@.skip(i + 1))) by {
        if n >= 2 && raw@[0] == '"' && raw@.last() == '"' {
            assert(value@ =~= raw@.subrange(1, n - 1));
        }
    }
    if name.len() == 0 || !all_tchars(&name) || !all_cookie_octets(&value) {
        return None;
    }
    let cookie = chars_of(COOKIE);
    if crate::text::seq_eq(&name, &cookie) {
        if tok.is_some() || value.len() == 0 {
            return None;
        }
        Some(Some(value))
    } else {
        Some(tok)
    }
}

/// The session token carried by `Cookie` headers: `Ok(None)` without session
/// cookie; a `Session` failure for any ambiguous or malformed header (a pair
/// without `=`, an invalid name or value, an empty or repeated session cookie).
/// No URL decoding and no other cookie is trusted.
pub fn cookie_token(headers: &[&str]) -> (r: Result<Option<String>, Failure>)
    ensures
        match r {
            Ok(t) => spec_cookie_token(str_texts(headers@)) == Some(opt_text(t)),
            Err(f) => f == Failure::Session && spec_cookie_token(str_texts(headers@)) is None,
        },
{
    let ghost hs = str_texts(headers@);
    let mut token: Option<Vec<char>> = None;
    assert(hs.take(0) =~= Seq::<Seq<char>>::empty());
    for h in 0..headers.len()
        invariant
            hs == str_texts(headers@),
            spec_cookie_token(hs.take(h as int)) == Some(
                match token {
                    Some(t) => Some(t@),
                    None => None,
                },
            ),
    {
        assert(hs.take(h + 1).drop_last() == hs.take(h as int));
        assert(hs.take(h + 1).last() == headers@[h as int]@);
        let header = chars_of(headers[h]);
        let parts = split_of(&header, ';');
        let ghost ps = parts@.map_values(|l: Vec<char>| l@);
        let ghost start = spec_cookie_token(hs.take(h as int));
        for k in 0..parts.len()
            invariant
                h < headers@.len(),
                hs == str_texts(headers@),
                start == spec_cookie_token(hs.take(h as int)),
                hs.take(h + 1).drop_last() == hs.take(h as int),
                hs.take(h + 1).last() == header@,
                ps == split_char(header@, ';'),
                ps == parts@.map_values(|l: Vec<char>| l@),
                pairs_fold(start, ps.take(k as int)) == Some(
                    match token {
                        Some(t) => Some(t@),
                        None => None,
                    },
                ),
        {
            assert(ps.take(k + 1).drop_last() == ps.take(k as int));
            assert(ps.take(k + 1).last() == parts@[k as int]@);
            match cookie_pair_exec(token, &parts[k]) {
                None => {
                    proof {
                        assert(pairs_fold(start, ps.take(k + 1)) is None);
                        lemma_pairs_fold_none(start, ps, k + 1);
                        lemma_cookie_none(hs, h + 1);
                    }
                    return Err(Failure::Session);
                },
                Some(t) => {
                    token = t;
                },
            }
        }
        assert(ps.take(parts@.len() as int) == ps);
    }
    assert(hs.take(headers@.len() as int) == hs);
    match token {
        Some(t) => Ok(Some(string_of(&t))),
        None => Ok(None),
    }
}

pub(crate) proof fn lemma_pairs_fold_none(st: Option<Option<Seq<char>>>, ps: Seq<Seq<char>>, n: int)
    requires
        0 <= n <= ps.len(),
        pairs_fold(st, ps.take(n)) is None,
    ensures
        pairs_fold(st, ps) is None,
    decreases ps.len() - n,
{
    if n < ps.len() {
        assert(ps.take(n + 1).drop_last() == ps.take(n));
        lemma_pairs_fold_none(st, ps, n + 1);
    } else {
        assert(ps.take(n) == ps);
    }
}

proof fn lemma_pairs_fold_from_none(ps: Seq<Seq<char>>)
    ensures
        pairs_fold(None, ps) is None,
    decreases ps.len(),
{
    if ps.len() > 0 {
        lemma_pairs_fold_from_none(ps.drop_last());
    }
}

proof fn lemma_cookie_none(hs: Seq<Seq<char>>, n: int)
    requires
        0 <= n <= hs.len(),
        spec_cookie_token(hs.take(n)) is None,
    ensures
        spec_cookie_token(hs) is None,
    decreases hs.len() - n,
{
    if n < hs.len() {
        assert(hs.take(n + 1).drop_last() == hs.take(n));
        lemma_pairs_fold_from_none(split_char(hs.take(n + 1).last(), ';'));
        lemma_cookie_none(hs, n + 1);
    } else {
        assert(hs.take(n) == hs);
    }
}

/// The current time, in seconds since the Unix epoch.
pub trait Clock: Send + Sync {
    /// `r` is a reading that `now` may give; by default, any.
    open spec fn reading(&self, r: Result<u64, Failure>) -> bool {
        true
    }

    fn now(&self) -> (r: Result<u64, Failure>)
        ensures
            self.reading(r),
    ;
}

impl<T: Clock + ?Sized> Clock for Arc<T> {
    open spec fn reading(&self, r: Result<u64, Failure>) -> bool {
        (**self).reading(r)
    }

    fn now(&self) -> (r: Result<u64, Failure>) {
        (**self).now()
    }
}

/// The system clock.
pub struct SystemClock;

/// `std::time::UNIX_EPOCH.elapsed()`: the time elapsed since the Unix epoch by the
/// system clock; a clock set before the epoch gives `Session`. Nothing is claimed of
/// the reading itself, which depends on the machine's clock.
#[verifier::external_body]
fn since_epoch() -> (r: Result<Duration, Failure>)
    ensures
        r matches Err(f) ==> f == Failure::Session,
{
    match std::time::UNIX_EPOCH.elapsed() {
        Ok(d) => Ok(d),
        Err(_) => Err(Failure::Session),
    }
}

/// `Duration::as_secs`: the whole seconds of a duration. The duration is opaque here,
/// so nothing is claimed of the number.
#[verifier::external_body]
fn whole_seconds(d: &Duration) -> u64 {
    d.as_secs()
}

impl Clock for SystemClock {
    /// Any number of seconds, or `Session` when the clock cannot be read.
    open spec fn reading(&self, r: Result<u64, Failure>) -> bool {
        match r {
            Ok(_) => true,
            Err(f) => f == Failure::Session,
        }
    }

    fn now(&self) -> (r: Result<u64, Failure>) {
        match since_epoch() {
            Ok(d) => Ok(whole_seconds(&d)),
            Err(f) => Err(f),
        }
    }
}

/// The claims of a session token.
#[derive(Debug, Clone)]
pub struct Claims {
    pub sub: String,
    pub groups: Vec<String>,
    pub iss: String,
    pub aud: String,
    pub iat: u64,
    pub exp: u64,
}

/// Issuing claims for `id`: an unknown identity is refused without reading the
/// clock; otherwise the clock is read once, its failure is returned, and the claims
/// copy the directory entry, issuer and audience, issued now and expiring 900
/// seconds later (refused when that overflows). `clock` is the clock's answer, when
/// it was read.
pub open spec fn issue_protocol(
    d: Directory,
    id: Seq<char>,
    clock: Option<Result<u64, Failure>>,
    r: Result<Claims, Failure>,
) -> bool {
    match find_identity(d.identities@, id) {
        None => clock is None && r == Err::<Claims, Failure>(Failure::Session),
        Some(e) => match clock {
            None => false,
            Some(Err(f)) => r == Err::<Claims, Failure>(f),
            Some(Ok(now)) => if now + SESSION_SECONDS > u64::MAX {
                r == Err::<Claims, Failure>(Failure::Session)
            } else {
                &&& r matches Ok(c)
                &&& c.sub@ == e.id@
                &&& texts(c.groups@) == texts(e.groups@)
                &&& c.iss@ == d.issuer@
                &&& c.aud@ == d.audience@
                &&& c.iat == now
                &&& c.exp == now + SESSION_SECONDS
            },
        },
    }
}

/// The identity that decoded claims give at time `now`: subject and groups must match
/// the directory exactly, the token must live exactly 900 seconds, and the session is
/// valid strictly before `exp`; anything else is `Session`.
pub open spec fn valid_at(
    d: Directory,
    c: Claims,
    now: u64,
    r: Result<VerifiedIdentity, Failure>,
) -> bool {
    match d.spec_validate_claims(c.sub@, c.groups@) {
        None => r == Err::<VerifiedIdentity, Failure>(Failure::Session),
        Some((i, g)) => if c.exp < c.iat || c.exp - c.iat != SESSION_SECONDS || now >= c.exp {
            r == Err::<VerifiedIdentity, Failure>(Failure::Session)
        } else {
            r matches Ok(v) && v.spec_id() == i && texts(v.spec_groups()) == g
        },
    }
}

/// The clock was not read, or gave a reading that it may give.
pub open spec fn clock_answered<C: Clock + ?Sized>(clock: &C, read: Option<Result<u64, Failure>>) -> bool {
    match read {
        None => true,
        Some(a) => clock.reading(a),
    }
}

/// Checking decoded claims: subject and groups must match the directory exactly and
/// the token must live exactly 900 seconds, else the claims are refused without
/// reading the clock; then the clock is read once, its failure is returned, and the
/// session is valid strictly before `exp`.
pub open spec fn verify_protocol(
    d: Directory,
    c: Claims,
    clock: Option<Result<u64, Failure>>,
    r: Result<VerifiedIdentity, Failure>,
) -> bool {
    match d.spec_validate_claims(c.sub@, c.groups@) {
        None => clock is None && r == Err::<VerifiedIdentity, Failure>(Failure::Session),
        Some((i, g)) => if c.exp < c.iat || c.exp - c.iat != SESSION_SECONDS {
            clock is None && r == Err::<VerifiedIdentity, Failure>(Failure::Session)
        } else {
            match clock {
                None => false,
                Some(Err(f)) => r == Err::<VerifiedIdentity, Failure>(f),
                Some(Ok(now)) => valid_at(d, c, now, r),
            }
        },
    }
}

/// Claims for a new session of `id`.
pub fn issue_claims<C: Clock + ?Sized>(directory: &Directory, clock: &C, id: &str) -> (r: Result<
    Claims,
    Failure,
>)
    ensures
        exists|read: Option<Result<u64, Failure>>|
            clock_answered(clock, read) && #[trigger] issue_protocol(*directory, id@, read, r),
{
    let (r, Ghost(read)) = issue_claims_traced(directory, clock, id);
    r
}

/// `issue_claims`, with the clock's answer when it was read.
pub fn issue_claims_traced<C: Clock + ?Sized>(directory: &Directory, clock: &C, id: &str) -> (r: (
    Result<Claims, Failure>,
    Ghost<Option<Result<u64, Failure>>>,
))
    ensures
        issue_protocol(*directory, id@, r.1@, r.0),
        clock_answered(clock, r.1@),
{
    let entry = match directory.identity(id) {
        Some(e) => e,
        None => return (Err(Failure::Session), Ghost(None)),
    };
    let now = clock.now();
    let ghost read = Some(now);
    let iat = match now {
        Ok(t) => t,
        Err(f) => return (Err(f), Ghost(read)),
    };
    let exp = match iat.checked_add(SESSION_SECONDS) {
        Some(e) => e,
        None => return (Err(Failure::Session), Ghost(read)),
    };
    let groups = copy_strings(&entry.groups);
    let c = Claims {
        sub: entry.id.clone(),
        groups,
        iss: directory.issuer.clone(),
        aud: directory.audience.clone(),
        iat,
        exp,
    };
    (Ok(c), Ghost(read))
}

/// The identity that decoded claims give.
pub fn verify_claims<C: Clock + ?Sized>(directory: &Directory, clock: &C, claims: &Claims) -> (r:
    Result<VerifiedIdentity, Failure>)
    ensures
        exists|read: Option<Result<u64, Failure>>|
            clock_answered(clock, read) && #[trigger] verify_protocol(*directory, *claims, read, r),
{
    let (r, Ghost(read)) = verify_claims_traced(directory, clock, claims);
    r
}

/// `verify_claims`, with the clock's answer when it was read.
pub fn verify_claims_traced<C: Clock + ?Sized>(
    directory: &Directory,
    clock: &C,
    claims: &Claims,
) -> (r: (Result<VerifiedIdentity, Failure>, Ghost<Option<Result<u64, Failure>>>))
    ensures
        verify_protocol(*directory, *claims, r.1@, r.0),
        clock_answered(clock, r.1@),
{
    if directory.validate_claims(claims.sub.as_str(), &claims.groups).is_none() {
        return (Err(Failure::Session), Ghost(None));
    }
    if claims.exp < claims.iat || claims.exp - claims.iat != SESSION_SECONDS {
        return (Err(Failure::Session), Ghost(None));
    }
    let now = clock.now();
    let ghost read = Some(now);
    match now {
        Err(f) => (Err(f), Ghost(read)),
        Ok(t) => (claims_valid_at(directory, claims, t), Ghost(read)),
    }
}

/// The identity that decoded claims give at time `now`.
pub fn claims_valid_at(directory: &Directory, claims: &Claims, now: u64) -> (r: Result<
    VerifiedIdentity,
    Failure,
>)
    ensures
        valid_at(*directory, *claims, now, r),
{
    let identity = match directory.validate_claims(claims.sub.as_str(), &claims.groups) {
        Some(i) => i,
        None => return Err(Failure::Session),
    };
    if claims.exp < claims.iat || claims.exp - claims.iat != SESSION_SECONDS || now >= claims.exp {
        return Err(Failure::Session);
    }
    Ok(identity)
}

} // verus!
