use chatpurp::application::{
    after_journal, authorization, document_result, Application, Audit, AuditDecision, Document,
    Failure, Reader, Route, Sessions,
};
use chatpurp::policy::{
    Directory, GroupRole, IdentityDefinition, Policy, PolicyIdentity, Resource, Role,
    VerifiedIdentity,
};
use chatpurp::transport::{answer, Answer};
use std::sync::{Arc, Mutex};

fn strings(values: &[&str]) -> Vec<String> {
    values.iter().map(|v| v.to_string()).collect()
}

fn identity(id: &str, name: &str, groups: &[&str]) -> IdentityDefinition {
    IdentityDefinition { id: id.into(), display_name: name.into(), groups: strings(groups) }
}

fn directory() -> Directory {
    Directory {
        issuer: "local-demo-idp".into(),
        audience: "local-llm-lab-api".into(),
        token_ttl_seconds: 900,
        identities: vec![
            identity("alice", "Alice", &["LAB_READERS", "HR"]),
            identity("bob", "Bob", &["LAB_READERS", "IT"]),
            identity("charlie", "Charlie", &["LAB_READERS"]),
            identity("oscar", "Oscar", &["OSCAR_PUBLIC_WELCOME_READERS", "MCP_READERS"]),
        ],
    }
}

fn resource(id: &str, classification: &str, path: &str, roles: &[&str]) -> Resource {
    Resource {
        id: id.into(),
        classification: classification.into(),
        path: path.into(),
        allowed_roles: strings(roles),
    }
}

fn policy() -> Policy {
    let mut resources = vec![resource(
        "public-welcome",
        "PUBLIC",
        "demo-documents/public/welcome.md",
        &["lab_reader", "public_welcome_reader"],
    )];
    for name in [
        "model-guidelines",
        "incident-reporting",
        "meeting-rooms",
        "security-basics",
        "remote-work",
        "product-overview",
        "glossary",
        "training-calendar",
    ] {
        resources.push(resource(
            &format!("public-{name}"),
            "PUBLIC",
            &format!("demo-documents/public/{name}.md"),
            &["lab_reader"],
        ));
    }
    for name in ["onboarding", "leave-policy", "benefits"] {
        resources.push(resource(
            &format!("rh-{name}"),
            "RH",
            &format!("demo-documents/rh/{name}.md"),
            &["rh_reader"],
        ));
    }
    for name in ["workstation", "password-reset", "service-catalog"] {
        resources.push(resource(
            &format!("it-{name}"),
            "IT",
            &format!("demo-documents/it/{name}.md"),
            &["it_reader"],
        ));
    }
    let mapping = |group: &str, role: &str| GroupRole { group: group.into(), role: role.into() };
    let person = |id: &str, name: &str, roles: &[&str]| PolicyIdentity {
        id: id.into(),
        display_name: name.into(),
        roles: strings(roles),
    };
    Policy {
        default_decision: "deny".into(),
        roles: ["lab_reader", "rh_reader", "it_reader", "public_welcome_reader", "mcp_read_only"]
            .iter()
            .map(|r| Role { id: r.to_string() })
            .collect(),
        group_role_mappings: vec![
            mapping("LAB_READERS", "lab_reader"),
            mapping("HR", "rh_reader"),
            mapping("IT", "it_reader"),
            mapping("OSCAR_PUBLIC_WELCOME_READERS", "public_welcome_reader"),
            mapping("MCP_READERS", "mcp_read_only"),
        ],
        identities: vec![
            person("alice", "Alice", &["lab_reader", "rh_reader"]),
            person("bob", "Bob", &["lab_reader", "it_reader"]),
            person("charlie", "Charlie", &["lab_reader"]),
            person("oscar", "Oscar", &["public_welcome_reader", "mcp_read_only"]),
        ],
        resources,
    }
}

fn fixture() -> (Policy, Directory) {
    (policy(), directory())
}

struct Fake {
    directory: Directory,
    calls: Mutex<Vec<String>>,
    audit_fails: bool,
}

impl Sessions for Fake {
    fn verify(&self, token: &str) -> Result<VerifiedIdentity, Failure> {
        self.calls.lock().unwrap().push("session".into());
        let id = self.directory.identity(token).ok_or(Failure::Session)?;
        self.directory.validate_claims(token, &id.groups).ok_or(Failure::Session)
    }
}

impl Audit for Fake {
    fn record(&self, d: AuditDecision) -> Result<(), Failure> {
        self.calls.lock().unwrap().push(format!("audit:{}:{:?}", d.allowed, d.identity_id));
        if self.audit_fails {
            Err(Failure::Audit)
        } else {
            Ok(())
        }
    }
}

impl Reader for Fake {
    fn read(&self, r: &Resource) -> Result<Document, Failure> {
        self.calls.lock().unwrap().push(format!("read:{}", r.id));
        Ok(Document {
            resource_id: r.id.clone(),
            classification: r.classification.clone(),
            content: format!(
                "---\nid: {}\nclassification: {}\n---\nBienvenue sécurité {}",
                r.id,
                r.classification,
                "phrase ".repeat(200)
            ),
        })
    }
}

type App = Application<Arc<Fake>, Arc<Fake>, Arc<Fake>>;

fn setup(audit_fails: bool) -> (App, Arc<Fake>) {
    let (policy, directory) = fixture();
    policy.validate(&directory).unwrap();
    let fake = Arc::new(Fake { directory, calls: Mutex::new(Vec::new()), audit_fails });
    (
        Application {
            policy: Arc::new(policy),
            sessions: fake.clone(),
            reader: fake.clone(),
            audit: fake.clone(),
        },
        fake,
    )
}

#[test]
fn authorize_audit_then_read_in_order() {
    let (app, fake) = setup(false);
    app.read(Some("oscar"), "public-welcome").unwrap();
    assert_eq!(
        *fake.calls.lock().unwrap(),
        ["session", "audit:true:Some(\"oscar\")", "read:public-welcome"]
    );
}

#[test]
fn refusal_never_calls_reader_and_audit_failure_preserves_denial() {
    for broken in [false, true] {
        let (app, fake) = setup(broken);
        for id in ["rh-onboarding", "it-workstation", "public-glossary", "unknown"] {
            assert_eq!(app.read(Some("oscar"), id), Err(Failure::Forbidden));
        }
        assert!(!fake.calls.lock().unwrap().iter().any(|c| c.starts_with("read:")));
    }
}

#[test]
fn unavailable_audit_stops_authorized_reads_and_chat() {
    let (app, fake) = setup(true);
    assert_eq!(app.read(Some("oscar"), "public-welcome"), Err(Failure::Audit));
    assert!(matches!(app.prepare_chat(Some("oscar"), "bonjour", true), Err(Failure::Audit)));
    assert!(!fake.calls.lock().unwrap().iter().any(|c| c.starts_with("read:")));
}

#[test]
fn session_precedes_identifier_and_never_attributes_unverified_identity() {
    let (app, fake) = setup(false);
    assert_eq!(app.read(Some("forged"), "../invalid"), Err(Failure::Session));
    assert_eq!(*fake.calls.lock().unwrap(), ["session", "audit:false:None"]);
}

#[test]
fn oscar_retrieval_and_context_never_read_other_documents() {
    let (app, fake) = setup(false);
    let result = app.retrieve(Some("oscar"), "sécurité").unwrap();
    assert_eq!(result.len(), 1);
    assert_eq!(result[0].resource_id, "public-welcome");
    assert_eq!(result[0].excerpt.chars().count(), 500);
    let chat = app.prepare_chat(Some("oscar"), "sécurité", true).unwrap();
    assert_eq!(chat.sources, ["public-welcome"]);
    assert!(!chat.context.unwrap().contains("rh-onboarding"));
    assert!(fake
        .calls
        .lock()
        .unwrap()
        .iter()
        .filter(|c| c.starts_with("read:"))
        .all(|c| c == "read:public-welcome"));
}

#[test]
fn lexical_limit_and_tie_order_are_stable() {
    let (app, _) = setup(false);
    let results = app.retrieve(Some("alice"), "sécurité").unwrap();
    assert_eq!(results.len(), 3);
    assert!(results.windows(2).all(|p| p[0].resource_id < p[1].resource_id));
}

#[test]
fn chat_without_rag_never_reads_a_document() {
    let (app, fake) = setup(false);
    let chat = app.prepare_chat(Some("oscar"), "bonjour", false).unwrap();
    assert!(chat.context.is_none());
    assert!(chat.sources.is_empty());
    assert!(!fake.calls.lock().unwrap().iter().any(|c| c.starts_with("read:")));
}

#[test]
fn message_and_query_character_limits() {
    let (app, _) = setup(false);
    assert!(app.prepare_chat(Some("oscar"), &"é".repeat(8000), false).is_ok());
    assert!(matches!(
        app.prepare_chat(Some("oscar"), &"é".repeat(8001), false),
        Err(Failure::Message)
    ));
    assert_eq!(app.retrieve(Some("oscar"), &"é".repeat(501)), Err(Failure::Query));
    assert_eq!(app.retrieve(Some("oscar"), "  "), Err(Failure::Query));
}

#[test]
fn missing_session_is_refused_and_journaled_without_identity() {
    let (app, fake) = setup(false);
    assert_eq!(app.read(None, "public-welcome"), Err(Failure::Session));
    assert_eq!(app.access(None, "public-welcome"), Err(Failure::Session));
    assert!(matches!(app.session(None), Err(Failure::Session)));
    assert_eq!(*fake.calls.lock().unwrap(), ["audit:false:None", "audit:false:None"]);
}

#[test]
fn access_check_decides_without_reading() {
    let (app, fake) = setup(false);
    assert_eq!(app.access(Some("alice"), "rh-onboarding"), Ok(()));
    assert_eq!(app.access(Some("alice"), "it-workstation"), Err(Failure::Forbidden));
    assert_eq!(app.access(Some("oscar"), "public-welcome"), Ok(()));
    assert_eq!(app.access(Some("oscar"), "public-glossary"), Err(Failure::Forbidden));
    assert_eq!(app.access(Some("oscar"), "%2E%2E"), Err(Failure::Resource));
    assert!(!fake.calls.lock().unwrap().iter().any(|c| c.starts_with("read:")));
}

#[test]
fn granted_read_returns_the_document_and_context_names_sources() {
    let (app, _) = setup(false);
    let doc = app.read(Some("oscar"), "public-welcome").unwrap();
    assert_eq!(doc.resource_id, "public-welcome");
    assert_eq!(doc.classification, "PUBLIC");
    assert!(doc.content.starts_with("---\nid: public-welcome"));
    let chat = app.prepare_chat(Some("bob"), "  sécurité  ", true).unwrap();
    assert_eq!(chat.message, "sécurité");
    assert_eq!(chat.sources.len(), 3);
    let context = chat.context.unwrap();
    for source in &chat.sources {
        assert!(context.contains(source.as_str()));
        assert!(!source.starts_with("rh-"));
    }
    let session = app.session(Some("bob")).unwrap();
    assert_eq!(session.id(), "bob");
}

#[test]
fn api_queries_answer_from_the_use_cases() {
    let (app, fake) = setup(false);
    let directory = fake.directory.clone();
    match answer(&app, &directory, "/api/session", Some("oscar"), "", "") {
        Ok(Answer::Identity { id, display_name }) => {
            assert_eq!((id.as_str(), display_name.as_str()), ("oscar", "Oscar"))
        },
        other => panic!("{other:?}"),
    }
    assert!(matches!(answer(&app, &directory, "/api/session", None, "", ""), Err(Failure::Session)));
    match answer(&app, &directory, "/api/documents/public-welcome", Some("oscar"), "", "") {
        Ok(Answer::Document(d)) => assert_eq!(d.resource_id, "public-welcome"),
        other => panic!("{other:?}"),
    }
    assert!(matches!(
        answer(&app, &directory, "/api/documents/../it-security", Some("oscar"), "", ""),
        Err(Failure::Resource)
    ));
    assert!(matches!(
        answer(&app, &directory, "/api/documents/rh-onboarding", Some("oscar"), "", ""),
        Err(Failure::Forbidden)
    ));
    match answer(&app, &directory, "/api/access-check", Some("alice"), "resource_id=rh-onboarding", "") {
        Ok(Answer::Access { resource_id }) => assert_eq!(resource_id, "rh-onboarding"),
        other => panic!("{other:?}"),
    }
    assert!(matches!(
        answer(&app, &directory, "/api/access-check", Some("alice"), "resource_id=it-workstation", ""),
        Err(Failure::Forbidden)
    ));
    match answer(&app, &directory, "/api/retrieve", Some("oscar"), "", "sécurité") {
        Ok(Answer::Results(r)) => assert_eq!(r.len(), 1),
        other => panic!("{other:?}"),
    }
    assert!(matches!(
        answer(&app, &directory, "/api/documents/public-welcome", None, "", ""),
        Err(Failure::Session)
    ));
}

#[test]
fn authorization_names_the_decision_before_the_journal_answers() {
    let (policy, directory) = fixture();
    let oscar = directory.validate_claims("oscar", &directory.identity("oscar").unwrap().groups).unwrap();
    let (d, verdict) = authorization(&policy, &oscar, "public-welcome", Route::Document);
    assert_eq!(
        d,
        AuditDecision {
            route: Route::Document,
            allowed: true,
            identity_id: Some("oscar".into()),
            resource_id: Some("public-welcome".into()),
        }
    );
    assert_eq!(verdict.unwrap().id, "public-welcome");
    let (d, verdict) = authorization(&policy, &oscar, "rh-onboarding", Route::Access);
    assert_eq!((d.route, d.allowed, d.resource_id.as_deref()), (Route::Access, false, Some("rh-onboarding")));
    assert_eq!(verdict.unwrap_err(), Failure::Forbidden);
    let (d, verdict) = authorization(&policy, &oscar, "unknown", Route::Document);
    assert_eq!((d.allowed, d.resource_id.as_deref()), (false, Some("unknown")));
    assert_eq!(verdict.unwrap_err(), Failure::Forbidden);
    let (d, verdict) = authorization(&policy, &oscar, "../secret", Route::Document);
    assert_eq!((d.allowed, d.identity_id.as_deref(), d.resource_id), (false, Some("oscar"), None));
    assert_eq!(verdict.unwrap_err(), Failure::Resource);
}

#[test]
fn journal_answer_decides_only_granted_access() {
    let (policy, _) = fixture();
    let r = &policy.resources[0];
    assert_eq!(after_journal(Ok(r), Ok(())).unwrap().id, r.id);
    assert_eq!(after_journal(Ok(r), Err(Failure::Audit)).unwrap_err(), Failure::Audit);
    assert_eq!(after_journal(Ok(r), Err(Failure::Session)).unwrap_err(), Failure::Audit);
    assert_eq!(after_journal(Err(Failure::Forbidden), Err(Failure::Audit)).unwrap_err(), Failure::Forbidden);
    assert_eq!(after_journal(Err(Failure::Resource), Ok(())).unwrap_err(), Failure::Resource);
}

#[test]
fn failed_reads_become_document_failures() {
    let doc = Document { resource_id: "a".into(), classification: "PUBLIC".into(), content: "x".into() };
    assert_eq!(document_result(Ok(doc.clone())), Ok(doc));
    assert_eq!(document_result(Err(Failure::Session)), Err(Failure::Document));
    assert_eq!(document_result(Err(Failure::Document)), Err(Failure::Document));
}
