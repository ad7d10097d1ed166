use chatpurp::application::Failure;
use chatpurp::policy::{Directory, IdentityDefinition};
use chatpurp::transport::demo_identity;
use chatpurp::transport::{
    access_check_id, admission, body_refusal, failure, json_content_type, logout_cookie,
    one_header, route, session_cookie, Admission, Allow, Endpoint, Reply, RequestHead,
};

const HOST: &str = "127.0.0.1:3211";

fn head(method: &str, path: &str) -> RequestHead {
    RequestHead {
        method: method.into(),
        path: path.into(),
        absolute: false,
        query: None,
        host: vec![Some(HOST.into())],
        origin: vec![],
        content_type: vec![],
        content_encoding: false,
    }
}

fn post(path: &str) -> RequestHead {
    let mut h = head("POST", path);
    h.origin = vec![Some("http://127.0.0.1:3211".into())];
    h.content_type = vec![Some("application/json".into())];
    h
}

#[test]
fn transport_rejects_foreign_hosts_origins_and_content_types() {
    let ok = post("/api/demo-session");
    assert_eq!(admission(&ok, HOST, false), Admission::Handle(Endpoint::DemoSession, 256));
    let mut h = post("/api/demo-session");
    h.host = vec![Some("localhost:3211".into())];
    assert_eq!(admission(&h, HOST, false), Admission::Refuse(Reply::Refused));
    let mut h = post("/api/demo-session");
    h.host = vec![Some(HOST.into()), Some(HOST.into())];
    assert_eq!(admission(&h, HOST, false), Admission::Refuse(Reply::Refused));
    let mut h = post("/api/demo-session");
    h.origin = vec![Some("null".into())];
    assert_eq!(admission(&h, HOST, false), Admission::Refuse(Reply::Refused));
    let mut h = post("/api/demo-session");
    h.origin = vec![];
    assert_eq!(admission(&h, HOST, false), Admission::Refuse(Reply::Refused));
    let mut h = post("/api/demo-session");
    h.origin = vec![Some("http://127.0.0.1:3211".into()), Some("http://127.0.0.1:3211".into())];
    assert_eq!(admission(&h, HOST, false), Admission::Refuse(Reply::Refused));
    let mut h = post("/api/demo-session");
    h.content_type = vec![Some("text/plain".into())];
    assert_eq!(admission(&h, HOST, false), Admission::Refuse(Reply::Unsupported));
    let mut h = post("/api/demo-session");
    h.content_encoding = true;
    assert_eq!(admission(&h, HOST, false), Admission::Refuse(Reply::Unsupported));
    let mut h = post("/api/demo-session");
    h.host = vec![Some(" 127.0.0.1:3211 ".into())];
    assert_eq!(admission(&h, HOST, false), Admission::Handle(Endpoint::DemoSession, 256));
}

#[test]
fn routes_methods_and_body_limits() {
    assert_eq!(admission(&head("GET", "/api/session"), HOST, false), Admission::Handle(Endpoint::Session, 0));
    assert_eq!(admission(&head("GET", "/healthz"), HOST, false), Admission::Handle(Endpoint::Health, 0));
    assert_eq!(
        admission(&head("GET", "/api/documents/public-welcome"), HOST, false),
        Admission::Handle(Endpoint::Document, 0)
    );
    assert_eq!(
        admission(&head("HEAD", "/api/session"), HOST, false),
        Admission::Refuse(Reply::Method(Allow::Get))
    );
    assert_eq!(
        admission(&head("GET", "/api/chat"), HOST, false),
        Admission::Refuse(Reply::Method(Allow::Post))
    );
    assert_eq!(admission(&head("GET", "/nowhere"), HOST, false), Admission::Refuse(Reply::NotFound));
    assert_eq!(admission(&post("/api/retrieve"), HOST, false), Admission::Handle(Endpoint::Retrieve, 1024));
    assert_eq!(admission(&post("/api/chat"), HOST, false), Admission::Handle(Endpoint::Chat, 16000));
    assert_eq!(admission(&post("/api/rag-chat"), HOST, false), Admission::Handle(Endpoint::RagChat, 16000));
    let mut logout = post("/api/logout");
    logout.content_type = vec![];
    assert_eq!(admission(&logout, HOST, false), Admission::Handle(Endpoint::Logout, 0));
    let mut h = head("GET", "/api/session");
    h.absolute = true;
    assert_eq!(admission(&h, HOST, false), Admission::Refuse(Reply::Invalid));
    assert_eq!(route("/api/documents/"), Some((Endpoint::Document, Allow::Get)));
    assert_eq!(route("/api/document"), None);
}

#[test]
fn assets_are_served_to_get_and_head_without_query() {
    assert_eq!(admission(&head("GET", "/"), HOST, true), Admission::Asset);
    assert_eq!(admission(&head("HEAD", "/chatpurp_web.js"), HOST, true), Admission::Asset);
    assert_eq!(
        admission(&head("POST", "/"), HOST, true),
        Admission::Refuse(Reply::Method(Allow::GetHead))
    );
    let mut h = head("GET", "/");
    h.query = Some("x=1".into());
    assert_eq!(admission(&h, HOST, true), Admission::Refuse(Reply::NotFound));
    assert_eq!(Allow::GetHead.as_str(), "GET, HEAD");
}

#[test]
fn json_content_type_accepts_only_json_with_optional_utf8_charset() {
    for v in ["application/json", "Application/JSON", "application/json; charset=utf-8", " application/json ;CHARSET=UTF-8 "] {
        assert!(json_content_type(v), "{v}");
    }
    for v in ["text/plain", "application/json; charset=latin1", "application/json;", "application/json; charset=utf-8; x=y", "application/jsonx"] {
        assert!(!json_content_type(v), "{v}");
    }
}

#[test]
fn one_header_refuses_repeats_and_unreadable_values() {
    assert_eq!(one_header(&[]), Ok(None));
    assert_eq!(one_header(&[Some("a".into())]), Ok(Some("a")));
    assert_eq!(one_header(&[None]), Err(()));
    assert_eq!(one_header(&[Some("a".into()), Some("a".into())]), Err(()));
}

#[test]
fn failures_and_replies_have_fixed_statuses_and_messages() {
    assert_eq!(failure(Failure::Session), (401, "Session de démonstration requise."));
    assert_eq!(failure(Failure::Resource), (400, "Ressource de démonstration invalide."));
    assert_eq!(failure(Failure::Forbidden), (403, "Accès au document refusé."));
    assert_eq!(failure(Failure::Audit), (503, "Journal de sécurité indisponible."));
    assert_eq!(failure(Failure::Document), (500, "Document indisponible."));
    assert_eq!(failure(Failure::Query), (400, "Requête de recherche invalide."));
    assert_eq!(failure(Failure::Message), (400, "Message invalide."));
    assert_eq!(Reply::Refused.status_and_message(), (403, "Requête HTTP refusée."));
    assert_eq!(Reply::Method(Allow::Post).status_and_message().0, 405);
    assert_eq!(Reply::Method(Allow::Post).allow(), Some(Allow::Post));
    assert_eq!(Reply::NotFound.allow(), None);
    assert_eq!(Reply::Unsupported.status_and_message().0, 415);
    assert_eq!(Reply::ModelUnavailable.status_and_message(), (502, "Le modèle local est indisponible."));
    assert_eq!(Reply::Failed(Failure::Audit).status_and_message().0, 503);
    assert_eq!(body_refusal(Endpoint::DemoSession), Reply::IdentityInvalid);
    assert_eq!(body_refusal(Endpoint::Chat), Reply::Invalid);
}

#[test]
fn cookies_and_access_check_queries() {
    assert_eq!(
        session_cookie("a.b.c"),
        "chatpurp_demo_session=a.b.c; HttpOnly; SameSite=Strict; Path=/; Max-Age=900"
    );
    assert_eq!(
        logout_cookie(),
        "chatpurp_demo_session=; HttpOnly; SameSite=Strict; Path=/; Max-Age=0"
    );
    assert_eq!(access_check_id("resource_id=rh-onboarding"), "rh-onboarding");
    assert_eq!(access_check_id("x=1&resource_id=public-welcome"), "public-welcome");
    assert_eq!(access_check_id("resource_id=a&resource_id=b"), "");
    assert_eq!(access_check_id(""), "");
}

#[test]
fn demo_session_names_a_directory_identity() {
    let directory = Directory {
        issuer: "local-demo-idp".into(),
        audience: "local-llm-lab-api".into(),
        token_ttl_seconds: 900,
        identities: vec![IdentityDefinition {
            id: "oscar".into(),
            display_name: "Oscar".into(),
            groups: vec!["MCP_READERS".into()],
        }],
    };
    assert_eq!(demo_identity(&directory, Some("oscar")).unwrap().display_name, "Oscar");
    assert_eq!(demo_identity(&directory, Some(" oscar ")).unwrap_err(), Reply::IdentityRefused);
    assert_eq!(demo_identity(&directory, Some("unknown")).unwrap_err(), Reply::IdentityRefused);
    assert_eq!(demo_identity(&directory, Some("")).unwrap_err(), Reply::IdentityInvalid);
    assert_eq!(demo_identity(&directory, None).unwrap_err(), Reply::IdentityInvalid);
}
