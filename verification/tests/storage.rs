use chatpurp::application::{AuditDecision, Failure, Route};
use chatpurp::policy::Resource;
use chatpurp::storage::{
    accept_document, audit_stamp, document_parts, journal_line, journaled, metadata, rotation_needed,
    size_acceptable,
};

fn resource() -> Resource {
    Resource {
        id: "public-welcome".into(),
        classification: "PUBLIC".into(),
        path: "demo-documents/public/welcome.md".into(),
        allowed_roles: vec![],
    }
}

const CONTENT: &str = "---\nid: public-welcome\nclassification: PUBLIC\n---\nBienvenue fictive";

fn pairs(v: &[(&str, &str)]) -> Vec<(String, String)> {
    v.iter().map(|(a, b)| (a.to_string(), b.to_string())).collect()
}

#[test]
fn front_matter_is_parsed_up_to_its_closing_line() {
    assert_eq!(
        metadata(CONTENT).unwrap(),
        pairs(&[("id", "public-welcome"), ("classification", "PUBLIC")])
    );
    assert_eq!(metadata("---\r\nid:  x \r\n---\r\nbody").unwrap(), pairs(&[("id", "x")]));
    assert!(metadata("id: x\n---\n").is_none());
    assert!(metadata("---\nid: x\n").is_none());
    assert!(metadata("---\nid x\n---\n").is_none());
    assert!(metadata("---\n: x\n---\n").is_none());
    assert!(metadata("---\nid:   \n---\n").is_none());
    assert!(metadata("---\nid: a\nid: b\n---\n").is_none());
    assert_eq!(metadata("---\n---\n").unwrap(), pairs(&[]));
    assert_eq!(metadata("---\nurl: http://x\n---").unwrap(), pairs(&[("url", "http://x")]));
}

#[test]
fn documents_must_carry_their_resource_metadata() {
    let doc = accept_document(&resource(), CONTENT.into()).unwrap();
    assert_eq!(doc.resource_id, "public-welcome");
    assert_eq!(doc.classification, "PUBLIC");
    assert_eq!(doc.content, CONTENT);
    for content in [
        "---\nid: public-welcome\n---\n",
        "---\nid: other\nclassification: PUBLIC\n---\n",
        "---\nid: public-welcome\nclassification: RH\n---\n",
        "no front matter",
        "---\nid: duplicate\nid: public-welcome\nclassification: PUBLIC\n---\n",
    ] {
        assert_eq!(accept_document(&resource(), content.into()), Err(Failure::Document), "{content}");
    }
}

#[test]
fn document_paths_stay_below_the_document_root() {
    assert_eq!(document_parts("demo-documents/public/welcome.md").unwrap(), ["public", "welcome.md"]);
    assert_eq!(document_parts("demo-documents/welcome.md").unwrap(), ["welcome.md"]);
    for path in [
        "demo-documents/../outside.md",
        "demo-documents/public/welcome.txt",
        "demo-documents//welcome.md",
        "other/welcome.md",
        "demo-documents/.md/./x.md",
        "demo-documents/",
    ] {
        assert!(document_parts(path).is_none(), "{path}");
    }
    assert!(size_acceptable(32768));
    assert!(!size_acceptable(32769));
    assert!(!size_acceptable(-1));
}

#[test]
fn journal_lines_are_stamped_and_bounded() {
    assert_eq!(audit_stamp(0).unwrap(), "1970-01-01T00:00:00Z");
    assert_eq!(audit_stamp(1546300800).unwrap(), "2019-01-01T00:00:00Z");
    assert_eq!(audit_stamp(1700000000).unwrap(), "2023-11-14T22:13:20Z");
    assert_eq!(audit_stamp(253402300799).unwrap(), "9999-12-31T23:59:59Z");
    assert!(audit_stamp(253402300800).is_none());
    assert!(audit_stamp(u64::MAX).is_none());
    assert!(rotation_needed(1048576, 1, 1048576));
    assert!(!rotation_needed(1048575, 1, 1048576));
    assert!(rotation_needed(0, u64::MAX, 10));
    assert!(!rotation_needed(0, 0, 0));
}

#[test]
fn only_well_formed_identifiers_are_journaled() {
    let mut d = AuditDecision {
        route: Route::Document,
        allowed: true,
        identity_id: Some("oscar".into()),
        resource_id: Some("public-welcome".into()),
    };
    assert!(journaled(&d));
    d.resource_id = None;
    d.identity_id = None;
    assert!(journaled(&d));
    d.resource_id = Some("../x".into());
    assert!(!journaled(&d));
    d.resource_id = None;
    d.identity_id = Some("Oscar".into());
    assert!(!journaled(&d));
}

#[test]
fn journal_line_is_the_sorted_json_object_of_the_decision() {
    let granted = AuditDecision {
        route: Route::Document,
        allowed: true,
        identity_id: Some("oscar".into()),
        resource_id: Some("public-welcome".into()),
    };
    let stamp = audit_stamp(1700000000).unwrap();
    let line = journal_line(&granted, &stamp);
    assert_eq!(
        line,
        "{\"event\":\"access_decision\",\"identity_id\":\"oscar\",\"outcome\":\"allowed\",\
         \"resource_id\":\"public-welcome\",\"route\":\"/api/documents/:resource_id\",\
         \"timestamp\":\"2023-11-14T22:13:20Z\"}\n"
    );
    let mut object = serde_json::Map::new();
    object.insert("timestamp".into(), serde_json::Value::from(stamp.clone()));
    object.insert("event".into(), serde_json::Value::from("access_decision"));
    object.insert("route".into(), serde_json::Value::from("/api/documents/:resource_id"));
    object.insert("outcome".into(), serde_json::Value::from("allowed"));
    object.insert("identity_id".into(), serde_json::Value::from("oscar"));
    object.insert("resource_id".into(), serde_json::Value::from("public-welcome"));
    let expected = serde_json::to_string(&serde_json::Value::Object(object)).unwrap() + "\n";
    assert_eq!(line, expected);

    let refused = AuditDecision { route: Route::Chat, allowed: false, identity_id: None, resource_id: None };
    assert_eq!(
        journal_line(&refused, "1970-01-01T00:00:00Z"),
        "{\"event\":\"access_decision\",\"identity_id\":null,\"outcome\":\"denied\",\
         \"resource_id\":null,\"route\":\"/api/chat\",\"timestamp\":\"1970-01-01T00:00:00Z\"}\n"
    );
}
