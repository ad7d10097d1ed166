//! What the local HTTP surface decides before and after it calls the application:
//! which requests are admitted, with which body limit, and the fixed replies.
//!
//! Requests are described by plain values (method, path, header occurrences); the
//! socket, the HTTP parser and the JSON body belong to the program around the library.
use crate::application::{
    access_protocol, read_protocol, retrieve_protocol, str_text, Application, Audit, Document,
    Failure, Passage, Reader, Sessions,
};
use crate::policy::{find_identity, Directory, IdentityDefinition};
use crate::sessions::COOKIE;
use crate::text::{
    chars_of, eq_ignore_case, has_prefix, lemma_split_len, same_ignoring_ascii_case, same_text,
    slice_to_vec, split_char, split_of, starts_with, string_of, trim, trimmed, push_chars,
};
use vstd::prelude::*;

verus! {

/// The methods named in the `Allow` header of a 405 reply.
#[derive(Debug, Clone, Copy, PartialEq, Eq, Structural)]
pub enum Allow {
    GetHead,
    Get,
    Post,
}

impl Allow {
    pub open spec fn spec_text(self) -> Seq<char> {
        match self {
            Allow::GetHead => "GET, HEAD"@,
            Allow::Get => "GET"@,
            Allow::Post => "POST"@,
        }
    }

    /// The header value.
    pub fn as_str(self) -> (r: &'static str)
        ensures
            r@ == self.spec_text(),
    {
        match self {
            Allow::GetHead => "GET, HEAD",
            Allow::Get => "GET",
            Allow::Post => "POST",
        }
    }
}

/// The status and message of the reply to an application failure.
pub open spec fn spec_failure(f: Failure) -> (u16, Seq<char>) {
    match f {
        Failure::Session => (401, "Session de démonstration requise."@),
        Failure::Resource => (400, "Ressource de démonstration invalide."@),
        Failure::Forbidden => (403, "Accès au document refusé."@),
        Failure::Audit => (503, "Journal de sécurité indisponible."@),
        Failure::Document => (500, "Document indisponible."@),
        Failure::Query => (400, "Requête de recherche invalide."@),
        Failure::Message => (400, "Message invalide."@),
    }
}

/// The status and message answered for an application failure.
pub fn failure(f: Failure) -> (r: (u16, &'static str))
    ensures
        (r.0, r.1@) == spec_failure(f),
{
    match f {
        Failure::Session => (401, "Session de démonstration requise."),
        Failure::Resource => (400, "Ressource de démonstration invalide."),
        Failure::Forbidden => (403, "Accès au document refusé."),
        Failure::Audit => (503, "Journal de sécurité indisponible."),
        Failure::Document => (500, "Document indisponible."),
        Failure::Query => (400, "Requête de recherche invalide."),
        Failure::Message => (400, "Message invalide."),
    }
}

/// A fixed error reply of the HTTP surface.
#[derive(Debug, Clone, Copy, PartialEq, Eq, Structural)]
pub enum Reply {
    Refused,
    Invalid,
    NotFound,
    Method(Allow),
    Unsupported,
    IdentityInvalid,
    IdentityRefused,
    ModelUnavailable,
    Unavailable,
    Failed(Failure),
}

impl Reply {
    pub open spec fn spec_reply(self) -> (u16, Seq<char>) {
        match self {
            Reply::Refused => (403, "Requête HTTP refusée."@),
            Reply::Invalid => (400, "Requête HTTP invalide."@),
            Reply::NotFound => (404, "Route introuvable."@),
            Reply::Method(_) => (405, "Méthode non autorisée."@),
            Reply::Unsupported => (415, "Format de requête non pris en charge."@),
            Reply::IdentityInvalid => (400, "Identité de démonstration invalide."@),
            Reply::IdentityRefused => (401, "Identité de démonstration refusée."@),
            Reply::ModelUnavailable => (502, "Le modèle local est indisponible."@),
            Reply::Unavailable => (500, "Opération indisponible."@),
            Reply::Failed(f) => spec_failure(f),
        }
    }

    /// The status code and the JSON `error` message of the reply.
    pub fn status_and_message(self) -> (r: (u16, &'static str))
        ensures
            (r.0, r.1@) == self.spec_reply(),
    {
        match self {
            Reply::Refused => (403, "Requête HTTP refusée."),
            Reply::Invalid => (400, "Requête HTTP invalide."),
            Reply::NotFound => (404, "Route introuvable."),
            Reply::Method(_) => (405, "Méthode non autorisée."),
            Reply::Unsupported => (415, "Format de requête non pris en charge."),
            Reply::IdentityInvalid => (400, "Identité de démonstration invalide."),
            Reply::IdentityRefused => (401, "Identité de démonstration refusée."),
            Reply::ModelUnavailable => (502, "Le modèle local est indisponible."),
            Reply::Unavailable => (500, "Opération indisponible."),
            Reply::Failed(f) => failure(f),
        }
    }

    /// The `Allow` header that goes with the reply, if any.
    pub fn allow(self) -> (r: Option<Allow>)
        ensures
            r == match self {
                Reply::Method(a) => Some(a),
                _ => None,
            },
    {
        match self {
            Reply::Method(a) => Some(a),
            _ => None,
        }
    }
}

/// The endpoints of the API.
#[derive(Debug, Clone, Copy, PartialEq, Eq, Structural)]
pub enum Endpoint {
    Health,
    Session,
    AccessCheck,
    DemoSession,
    Logout,
    Retrieve,
    Chat,
    RagChat,
    Document,
}

/// The endpoint of a path and the method it expects.
pub open spec fn spec_route(path: Seq<char>) -> Option<(Endpoint, Allow)> {
    if path == "/healthz"@ {
        Some((Endpoint::Health, Allow::Get))
    } else if path == "/api/session"@ {
        Some((Endpoint::Session, Allow::Get))
    } else if path == "/api/access-check"@ {
        Some((Endpoint::AccessCheck, Allow::Get))
    } else if path == "/api/demo-session"@ {
        Some((Endpoint::DemoSession, Allow::Post))
    } else if path == "/api/logout"@ {
        Some((Endpoint::Logout, Allow::Post))
    } else if path == "/api/retrieve"@ {
        Some((Endpoint::Retrieve, Allow::Post))
    } else if path == "/api/chat"@ {
        Some((Endpoint::Chat, Allow::Post))
    } else if path == "/api/rag-chat"@ {
        Some((Endpoint::RagChat, Allow::Post))
    } else if has_prefix(path, "/api/documents/"@) {
        Some((Endpoint::Document, Allow::Get))
    } else {
        None
    }
}

/// The largest body, in bytes, that an endpoint accepts; 0 for endpoints that take
/// no body (their body must be empty).
pub open spec fn spec_limit(e: Endpoint) -> usize {
    match e {
        Endpoint::DemoSession => 256,
        Endpoint::Retrieve => 1024,
        Endpoint::Chat | Endpoint::RagChat => 16000,
        _ => 0,
    }
}

/// The endpoint of `path` and the method it expects.
pub fn route(path: &str) -> (r: Option<(Endpoint, Allow)>)
    ensures
        r == spec_route(path@),
{
    if same_text(path, "/healthz") {
        Some((Endpoint::Health, Allow::Get))
    } else if same_text(path, "/api/session") {
        Some((Endpoint::Session, Allow::Get))
    } else if same_text(path, "/api/access-check") {
        Some((Endpoint::AccessCheck, Allow::Get))
    } else if same_text(path, "/api/demo-session") {
        Some((Endpoint::DemoSession, Allow::Post))
    } else if same_text(path, "/api/logout") {
        Some((Endpoint::Logout, Allow::Post))
    } else if same_text(path, "/api/retrieve") {
        Some((Endpoint::Retrieve, Allow::Post))
    } else if same_text(path, "/api/chat") {
        Some((Endpoint::Chat, Allow::Post))
    } else if same_text(path, "/api/rag-chat") {
        Some((Endpoint::RagChat, Allow::Post))
    } else if starts_with(&chars_of(path), &chars_of("/api/documents/")) {
        Some((Endpoint::Document, Allow::Get))
    } else {
        None
    }
}

/// The body limit of an endpoint.
pub fn limit(e: Endpoint) -> (r: usize)
    ensures
        r == spec_limit(e),
{
    match e {
        Endpoint::DemoSession => 256,
        Endpoint::Retrieve => 1024,
        Endpoint::Chat | Endpoint::RagChat => 16000,
        _ => 0,
    }
}

/// The texts of header occurrences; `None` stands for a value that is not visible ASCII.
pub open spec fn fields(v: Seq<Option<String>>) -> Seq<Option<Seq<char>>> {
    v.map_values(
        |o: Option<String>|
            match o {
                Some(s) => Some(s@),
                None => None,
            },
    )
}

/// A header that may occur at most once: absent, or its one readable value;
/// `Err` when it occurs twice or more, or when its value is not readable text.
pub open spec fn spec_one_header(v: Seq<Option<Seq<char>>>) -> Result<Option<Seq<char>>, ()> {
    if v.len() == 0 {
        Ok(None)
    } else if v.len() > 1 {
        Err(())
    } else {
        match v[0] {
            Some(s) => Ok(Some(s)),
            None => Err(()),
        }
    }
}

/// The single value of a header, given its occurrences in order.
pub fn one_header(values: &[Option<String>]) -> (r: Result<Option<&str>, ()>)
    ensures
        match r {
            Err(_) => spec_one_header(fields(values@)) is Err,
            Ok(o) => spec_one_header(fields(values@)) == Ok::<Option<Seq<char>>, ()>(
                str_text(o),
            ),
        },
{
    if values.len() == 0 {
        return Ok(None);
    }
    if values.len() > 1 {
        return Err(());
    }
    assert(fields(values@)[0] == match values@[0] {
        Some(s) => Some(s@),
        None => None::<Seq<char>>,
    });
    match &values[0] {
        Some(s) => Ok(Some(s.as_str())),
        None => Err(()),
    }
}

/// `application/json`, optionally followed by `; charset=utf-8`, up to ASCII case and
/// whitespace around the parts.
pub open spec fn spec_json_content_type(value: Seq<char>) -> bool {
    let parts = split_char(value, ';');
    &&& same_ignoring_ascii_case(trim(parts[0]), "application/json"@)
    &&& (parts.len() == 1 || (parts.len() == 2 && same_ignoring_ascii_case(
        trim(parts[1]),
        "charset=utf-8"@,
    )))
}

/// Whether a `Content-Type` value announces a JSON body.
pub fn json_content_type(value: &str) -> (r: bool)
    ensures
        r == spec_json_content_type(value@),
{
    let v = chars_of(value);
    let parts = split_of(&v, ';');
    proof {
        lemma_split_len(value@, ';');
        assert(parts@[0]@ == split_char(value@, ';')[0]);
    }
    let first = trimmed(&parts[0]);
    if !eq_ignore_case(&first, &chars_of("application/json")) {
        return false;
    }
    if parts.len() == 1 {
        return true;
    }
    if parts.len() != 2 {
        return false;
    }
    assert(parts@[1]@ == split_char(value@, ';')[1]);
    let second = trimmed(&parts[1]);
    eq_ignore_case(&second, &chars_of("charset=utf-8"))
}

/// What the transport reads of a request before its body.
pub struct RequestHead {
    pub method: String,
    /// The path of the request target, without its query.
    pub path: String,
    /// The target carried a scheme or an authority (absolute form).
    pub absolute: bool,
    pub query: Option<String>,
    /// The occurrences of `Host`, in order; `None` for an unreadable value.
    pub host: Vec<Option<String>>,
    pub origin: Vec<Option<String>>,
    pub content_type: Vec<Option<String>>,
    /// A `Content-Encoding` header is present.
    pub content_encoding: bool,
}

/// The transport's decision on a request head.
#[derive(Debug, Clone, Copy, PartialEq, Eq, Structural)]
pub enum Admission {
    /// Answer with this reply; the application is not called.
    Refuse(Reply),
    /// Serve the static asset at this path, after an empty body.
    Asset,
    /// Read a body of at most this many bytes, then handle the endpoint.
    Handle(Endpoint, usize),
}

/// A `POST` to the API needs the page's own origin; other methods may omit it.
pub open spec fn origin_ok(head: RequestHead, host: Seq<char>) -> bool {
    match spec_one_header(fields(head.origin@)) {
        Ok(Some(v)) => v == "http://"@ + host,
        Ok(None) => head.method@ != "POST"@,
        Err(_) => false,
    }
}

/// The content type of a request with a body announces JSON.
pub open spec fn json_body(head: RequestHead) -> bool {
    spec_one_header(fields(head.content_type@)) matches Ok(Some(v)) && spec_json_content_type(v)
}

/// The decision on a request head, in the order of the checks: the `Host` header
/// must be the served host; the target must be in origin form; an asset is served to
/// `GET` and `HEAD` without query; an API request needs an acceptable `Origin`; an
/// unknown path is not found; the method must be the endpoint's; no content coding
/// is accepted; an endpoint with a body needs a JSON content type.
pub open spec fn spec_admission(head: RequestHead, host: Seq<char>, asset: bool) -> Admission {
    let path = head.path@;
    let method = head.method@;
    if !(spec_one_header(fields(head.host@)) matches Ok(Some(v)) && trim(v) == host) {
        Admission::Refuse(Reply::Refused)
    } else if head.absolute {
        Admission::Refuse(Reply::Invalid)
    } else if asset {
        if method != "GET"@ && method != "HEAD"@ {
            Admission::Refuse(Reply::Method(Allow::GetHead))
        } else if head.query is Some {
            Admission::Refuse(Reply::NotFound)
        } else {
            Admission::Asset
        }
    } else if has_prefix(path, "/api/"@) && !origin_ok(head, host) {
        Admission::Refuse(Reply::Refused)
    } else {
        match spec_route(path) {
            None => Admission::Refuse(Reply::NotFound),
            Some((e, m)) => {
                if method != m.spec_text() {
                    Admission::Refuse(Reply::Method(m))
                } else if head.content_encoding {
                    Admission::Refuse(Reply::Unsupported)
                } else if spec_limit(e) > 0 && !json_body(head) {
                    Admission::Refuse(Reply::Unsupported)
                } else {
                    Admission::Handle(e, spec_limit(e))
                }
            },
        }
    }
}

fn host_matches(head: &RequestHead, host: &str) -> (r: bool)
    ensures
        r == (spec_one_header(fields(head.host@)) matches Ok(Some(v)) && trim(v) == host@),
{
    match one_header(&head.host) {
        Ok(Some(v)) => {
            let t = trimmed(&chars_of(v));
            let h = chars_of(host);
            crate::text::seq_eq(&t, &h)
        },
        _ => false,
    }
}

fn origin_accepted(head: &RequestHead, host: &str) -> (r: bool)
    ensures
        r == origin_ok(*head, host@),
{
    match one_header(&head.origin) {
        Ok(Some(v)) => {
            let mut expected = String::new();
            push_chars(&mut expected, &chars_of("http://"));
            push_chars(&mut expected, &chars_of(host));
            same_text(v, expected.as_str())
        },
        Ok(None) => !same_text(head.method.as_str(), "POST"),
        Err(_) => false,
    }
}

fn json_announced(head: &RequestHead) -> (r: bool)
    ensures
        r == json_body(*head),
{
    match one_header(&head.content_type) {
        Ok(Some(v)) => json_content_type(v),
        _ => false,
    }
}

/// Decides what becomes of a request head. `host` is the served `host:port` and
/// `asset` tells whether the path names a static asset.
pub fn admission(head: &RequestHead, host: &str, asset: bool) -> (r: Admission)
    ensures
        r == spec_admission(*head, host@, asset),
{
    let method = head.method.as_str();
    let path = head.path.as_str();
    if !host_matches(head, host) {
        return Admission::Refuse(Reply::Refused);
    }
    if head.absolute {
        return Admission::Refuse(Reply::Invalid);
    }
    if asset {
        if !same_text(method, "GET") && !same_text(method, "HEAD") {
            return Admission::Refuse(Reply::Method(Allow::GetHead));
        }
        if head.query.is_some() {
            return Admission::Refuse(Reply::NotFound);
        }
        return Admission::Asset;
    }
    if starts_with(&chars_of(path), &chars_of("/api/")) && !origin_accepted(head, host) {
        return Admission::Refuse(Reply::Refused);
    }
    match route(path) {
        None => Admission::Refuse(Reply::NotFound),
        Some((e, m)) => {
            if !same_text(method, m.as_str()) {
                Admission::Refuse(Reply::Method(m))
            } else if head.content_encoding {
                Admission::Refuse(Reply::Unsupported)
            } else if limit(e) > 0 && !json_announced(head) {
                Admission::Refuse(Reply::Unsupported)
            } else {
                Admission::Handle(e, limit(e))
            }
        },
    }
}

/// The reply to a body that could not be read within its limit, or that is not a
/// JSON object where one is expected.
pub fn body_refusal(e: Endpoint) -> (r: Reply)
    ensures
        r == if e == Endpoint::DemoSession {
            Reply::IdentityInvalid
        } else {
            Reply::Invalid
        },
{
    match e {
        Endpoint::DemoSession => Reply::IdentityInvalid,
        _ => Reply::Invalid,
    }
}

/// The identity that a demo-session request names: a missing or empty name is
/// invalid, a name outside the directory is refused.
pub fn demo_identity<'a>(directory: &'a Directory, requested: Option<&str>) -> (r: Result<
    &'a IdentityDefinition,
    Reply,
>)
    ensures
        match requested {
            None => r == Err::<&IdentityDefinition, Reply>(Reply::IdentityInvalid),
            Some(id) => if id@.len() == 0 {
                r == Err::<&IdentityDefinition, Reply>(Reply::IdentityInvalid)
            } else {
                match find_identity(directory.identities@, id@) {
                    Some(d) => r == Ok::<&IdentityDefinition, Reply>(&d),
                    None => r == Err::<&IdentityDefinition, Reply>(Reply::IdentityRefused),
                }
            },
        },
{
    match requested {
        None => Err(Reply::IdentityInvalid),
        Some(id) => {
            if chars_of(id).len() == 0 {
                return Err(Reply::IdentityInvalid);
            }
            match directory.identity(id) {
                Some(d) => Ok(d),
                None => Err(Reply::IdentityRefused),
            }
        },
    }
}

/// The attributes of the session cookie after its value.
pub open spec fn session_attributes() -> Seq<char> {
    "; HttpOnly; SameSite=Strict; Path=/; Max-Age=900"@
}

/// The attributes of the cookie that ends a session.
pub open spec fn logout_attributes() -> Seq<char> {
    "; HttpOnly; SameSite=Strict; Path=/; Max-Age=0"@
}

/// The `Set-Cookie` value that opens a session with `token`.
pub fn session_cookie(token: &str) -> (r: String)
    ensures
        r@ == COOKIE@ + "="@ + token@ + session_attributes(),
{
    let mut s = String::new();
    push_chars(&mut s, &chars_of(COOKIE));
    push_chars(&mut s, &chars_of("="));
    push_chars(&mut s, &chars_of(token));
    push_chars(&mut s, &chars_of("; HttpOnly; SameSite=Strict; Path=/; Max-Age=900"));
    s
}

/// The `Set-Cookie` value that clears the session cookie.
pub fn logout_cookie() -> (r: String)
    ensures
        r@ == COOKIE@ + "="@ + logout_attributes(),
{
    let mut s = String::new();
    push_chars(&mut s, &chars_of(COOKIE));
    push_chars(&mut s, &chars_of("="));
    push_chars(&mut s, &chars_of("; HttpOnly; SameSite=Strict; Path=/; Max-Age=0"));
    s
}

/// The values of the `resource_id=` pieces among `parts`, in order.
pub open spec fn resource_values(parts: Seq<Seq<char>>) -> Seq<Seq<char>>
    decreases parts.len(),
{
    if parts.len() == 0 {
        seq![]
    } else {
        let prev = resource_values(parts.drop_last());
        if has_prefix(parts.last(), "resource_id="@) {
            prev.push(parts.last().skip("resource_id="@.len() as int))
        } else {
            prev
        }
    }
}

/// The resource named by an access-check query: the value of its only
/// `resource_id=` piece, or the empty identifier when there is none or several.
pub open spec fn spec_access_id(query: Seq<char>) -> Seq<char> {
    let vs = resource_values(split_char(query, '&'));
    if vs.len() == 1 {
        vs[0]
    } else {
        seq![]
    }
}

/// The resource identifier of an access-check query string.
pub fn access_check_id(query: &str) -> (r: String)
    ensures
        r@ == spec_access_id(query@),
{
    let q = chars_of(query);
    let parts = split_of(&q, '&');
    let key = chars_of("resource_id=");
    let mut found: Vec<Vec<char>> = Vec::new();
    let ghost ps = split_char(query@, '&');
    for k in 0..parts.len()
        invariant
            parts@.map_values(|l: Vec<char>| l@) == ps,
            key@ == "resource_id="@,
            found@.map_values(|l: Vec<char>| l@) == resource_values(ps.take(k as int)),
    {
        assert(ps.take(k + 1).drop_last() == ps.take(k as int));
        assert(ps.take(k + 1).last() == parts@[k as int]@);
        if starts_with(&parts[k], &key) {
            let value = slice_to_vec(&parts[k], key.len(), parts[k].len());
            let ghost before = found@.map_values(|l: Vec<char>| l@);
            found.push(value);
            assert(found@.map_values(|l: Vec<char>| l@) =~= before.push(value@));
        }
    }
    assert(ps.take(parts.len() as int) == ps);
    if found.len() == 1 {
        assert(found@[0]@ == resource_values(ps)[0]);
        string_of(&found[0])
    } else {
        String::new()
    }
}

/// What an API query answers.
#[derive(Debug, Clone)]
pub enum Answer {
    /// The identity of the session.
    Identity { id: String, display_name: String },
    Document(Document),
    /// The access decision was granted for this resource.
    Access { resource_id: String },
    Results(Vec<Passage>),
}

/// The identity answer built from the session check's outcome `v`.
pub open spec fn identity_answer(
    directory: Directory,
    v: Result<crate::policy::VerifiedIdentity, Failure>,
    r: Result<Answer, Failure>,
) -> bool {
    match v {
        Err(f) => r == Err::<Answer, Failure>(f),
        Ok(identity) => match find_identity(directory.identities@, identity.spec_id()) {
            None => r == Err::<Answer, Failure>(Failure::Session),
            Some(d) => r matches Ok(Answer::Identity { id, display_name }) && id@ == d.id@
                && display_name@ == d.display_name@,
        },
    }
}

/// The document answer built from a read's outcome.
pub open spec fn document_answer(d: Result<Document, Failure>, r: Result<Answer, Failure>) -> bool {
    match d {
        Err(f) => r == Err::<Answer, Failure>(f),
        Ok(doc) => r matches Ok(Answer::Document(x)) && x == doc,
    }
}

/// The access answer built from an access decision on `id`.
pub open spec fn access_answer(
    a: Result<(), Failure>,
    id: Seq<char>,
    r: Result<Answer, Failure>,
) -> bool {
    match a {
        Err(f) => r == Err::<Answer, Failure>(f),
        Ok(_) => r matches Ok(Answer::Access { resource_id }) && resource_id@ == id,
    }
}

/// The search answer built from a retrieval's outcome.
pub open spec fn results_answer(p: Result<Vec<Passage>, Failure>, r: Result<Answer, Failure>) -> bool {
    match p {
        Err(f) => r == Err::<Answer, Failure>(f),
        Ok(v) => r matches Ok(Answer::Results(w)) && w == v,
    }
}

/// Answers the API queries that need a session: `/api/session`, a document under
/// `/api/documents/`, `/api/access-check` (with the query string `query`) and, for
/// any other path, a search for `search`.
pub fn answer<S: Sessions, R: Reader, A: Audit>(
    app: &Application<S, R, A>,
    directory: &Directory,
    path: &str,
    token: Option<&str>,
    query: &str,
    search: &str,
) -> (r: Result<Answer, Failure>)
    ensures
        path@ == "/api/session"@ ==> match token {
            None => r == Err::<Answer, Failure>(Failure::Session),
            Some(t) => exists|v: Result<crate::policy::VerifiedIdentity, Failure>|
                app.sessions.verify_answer(t@, v) && #[trigger] identity_answer(*directory, v, r),
        },
        path@ != "/api/session"@ && has_prefix(path@, "/api/documents/"@) ==> exists|
            trace: Seq<crate::application::Call>,
            d: Result<Document, Failure>,
        |
            app.all_answered(trace) && #[trigger] read_protocol(
                *app.policy,
                str_text(token),
                path@.skip("/api/documents/"@.len() as int),
                trace,
                d,
            ) && document_answer(d, r),
        path@ != "/api/session"@ && !has_prefix(path@, "/api/documents/"@) && path@
            == "/api/access-check"@ ==> exists|
            trace: Seq<crate::application::Call>,
            a: Result<(), Failure>,
        |
            app.all_answered(trace) && #[trigger] access_protocol(
                *app.policy,
                str_text(token),
                spec_access_id(query@),
                trace,
                a,
            ) && access_answer(a, spec_access_id(query@), r),
        path@ != "/api/session"@ && !has_prefix(path@, "/api/documents/"@) && path@
            != "/api/access-check"@ ==> exists|
            trace: Seq<crate::application::Call>,
            p: Result<Vec<Passage>, Failure>,
        |
            app.all_answered(trace) && #[trigger] retrieve_protocol(
                *app.policy,
                str_text(token),
                search@,
                trace,
                p,
            ) && results_answer(p, r),
{
    if same_text(path, "/api/session") {
        let (v, Ghost(trace)) = app.session_traced(token);
        proof {
            if token is Some {
                assert(app.answered(trace[0]));
            }
        }
        let verified = match v {
            Ok(x) => x,
            Err(f) => {
                assert(identity_answer(*directory, v, Err::<Answer, Failure>(f)));
                return Err(f);
            },
        };
        let result = match directory.identity(verified.id()) {
            None => Err(Failure::Session),
            Some(d) => Ok(
                Answer::Identity {
                    id: string_of(&chars_of(d.id.as_str())),
                    display_name: string_of(&chars_of(d.display_name.as_str())),
                },
            ),
        };
        assert(identity_answer(*directory, v, result));
        return result;
    }
    let p = chars_of(path);
    let prefix = chars_of("/api/documents/");
    if starts_with(&p, &prefix) {
        let id = string_of(&slice_to_vec(&p, prefix.len(), p.len()));
        assert(id@ == path@.skip("/api/documents/"@.len() as int));
        let (d, Ghost(trace)) = app.read_traced(token, id.as_str());
        let result = match d {
            Ok(doc) => Ok(Answer::Document(doc)),
            Err(f) => Err(f),
        };
        assert(read_protocol(*app.policy, str_text(token), id@, trace, d) && document_answer(
            d,
            result,
        ));
        return result;
    }
    if same_text(path, "/api/access-check") {
        let id = access_check_id(query);
        let (a, Ghost(trace)) = app.access_traced(token, id.as_str());
        let result = match a {
            Ok(_) => Ok(Answer::Access { resource_id: id }),
            Err(f) => Err(f),
        };
        assert(access_protocol(*app.policy, str_text(token), spec_access_id(query@), trace, a)
            && access_answer(a, spec_access_id(query@), result));
        return result;
    }
    let (p, Ghost(trace)) = app.retrieve_traced(token, search);
    let result = match p {
        Ok(v) => Ok(Answer::Results(v)),
        Err(f) => Err(f),
    };
    assert(retrieve_protocol(*app.policy, str_text(token), search@, trace, p) && results_answer(
        p,
        result,
    ));
    result
}

} // verus!
