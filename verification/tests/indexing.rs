use chatpurp::application::{Document, Failure, Reader};
use chatpurp::indexing::{
    chunks, prepare, validate_batch, validate_vector, Chunk, IndexError, ShapedPassage,
    VectorShape,
};
use chatpurp::policy::{
    Directory, GroupRole, IdentityDefinition, Policy, PolicyIdentity, Resource, Role,
};
use std::sync::Mutex;

fn strings(values: &[&str]) -> Vec<String> {
    values.iter().map(|v| v.to_string()).collect()
}

fn identity(id: &str, name: &str, groups: &[&str]) -> IdentityDefinition {
    IdentityDefinition { id: id.into(), display_name: name.into(), groups: strings(groups) }
}

fn directory() -> Directory {
    Directory {
        issuer: "local-demo-idp".into(),
        audience: "local-llm-lab-api".into(),
        token_ttl_seconds: 900,
        identities: vec![
            identity("alice", "Alice", &["LAB_READERS", "HR"]),
            identity("bob", "Bob", &["LAB_READERS", "IT"]),
            identity("charlie", "Charlie", &["LAB_READERS"]),
            identity("oscar", "Oscar", &["OSCAR_PUBLIC_WELCOME_READERS", "MCP_READERS"]),
        ],
    }
}

fn resource(id: &str, classification: &str, path: &str, roles: &[&str]) -> Resource {
    Resource {
        id: id.into(),
        classification: classification.into(),
        path: path.into(),
        allowed_roles: strings(roles),
    }
}

fn policy() -> Policy {
    let mut resources = vec![resource(
        "public-welcome",
        "PUBLIC",
        "demo-documents/public/welcome.md",
        &["lab_reader", "public_welcome_reader"],
    )];
    for name in [
        "model-guidelines",
        "incident-reporting",
        "meeting-rooms",
        "security-basics",
        "remote-work",
        "product-overview",
        "glossary",
        "training-calendar",
    ] {
        resources.push(resource(
            &format!("public-{name}"),
            "PUBLIC",
            &format!("demo-documents/public/{name}.md"),
            &["lab_reader"],
        ));
    }
    for name in ["onboarding", "leave-policy", "benefits"] {
        resources.push(resource(
            &format!("rh-{name}"),
            "RH",
            &format!("demo-documents/rh/{name}.md"),
            &["rh_reader"],
        ));
    }
    for name in ["workstation", "password-reset", "service-catalog"] {
        resources.push(resource(
            &format!("it-{name}"),
            "IT",
            &format!("demo-documents/it/{name}.md"),
            &["it_reader"],
        ));
    }
    let mapping = |group: &str, role: &str| GroupRole { group: group.into(), role: role.into() };
    let person = |id: &str, name: &str, roles: &[&str]| PolicyIdentity {
        id: id.into(),
        display_name: name.into(),
        roles: strings(roles),
    };
    Policy {
        default_decision: "deny".into(),
        roles: ["lab_reader", "rh_reader", "it_reader", "public_welcome_reader", "mcp_read_only"]
            .iter()
            .map(|r| Role { id: r.to_string() })
            .collect(),
        group_role_mappings: vec![
            mapping("LAB_READERS", "lab_reader"),
            mapping("HR", "rh_reader"),
            mapping("IT", "it_reader"),
            mapping("OSCAR_PUBLIC_WELCOME_READERS", "public_welcome_reader"),
            mapping("MCP_READERS", "mcp_read_only"),
        ],
        identities: vec![
            person("alice", "Alice", &["lab_reader", "rh_reader"]),
            person("bob", "Bob", &["lab_reader", "it_reader"]),
            person("charlie", "Charlie", &["lab_reader"]),
            person("oscar", "Oscar", &["public_welcome_reader", "mcp_read_only"]),
        ],
        resources,
    }
}

fn fixture() -> (Policy, Directory) {
    (policy(), directory())
}

struct Spy(Mutex<Vec<String>>);

impl Reader for Spy {
    fn read(&self, resource: &Resource) -> Result<Document, Failure> {
        self.0.lock().unwrap().push(resource.id.clone());
        Ok(Document {
            resource_id: resource.id.clone(),
            classification: resource.classification.clone(),
            content: "---\nid: public-welcome\nclassification: PUBLIC\n---\nBienvenue fictive.".into(),
        })
    }
}

#[test]
fn preparation_validates_all_ids_before_reading_and_preserves_metadata() {
    let (policy, _) = fixture();
    let reader = Spy(Mutex::new(vec![]));
    for ids in [
        vec![],
        vec!["public-welcome", "../../AGENTS.md"],
        vec!["public-welcome", "unknown"],
        vec!["public-welcome", "public-welcome"],
    ] {
        assert!(prepare(&policy, &reader, &ids.into_iter().map(String::from).collect::<Vec<_>>())
            .is_err());
        assert!(reader.0.lock().unwrap().is_empty());
    }
    let result = prepare(&policy, &reader, &["public-welcome".into()]).unwrap();
    assert_eq!(result.len(), 1);
    assert_eq!(result[0].resource_id, "public-welcome");
    assert_eq!(result[0].classification, "PUBLIC");
    assert_eq!(result[0].text, "Bienvenue fictive.");
    assert_eq!(*reader.0.lock().unwrap(), ["public-welcome"]);
}

#[test]
fn sentence_boundaries_and_overlap_remain_bounded() {
    let text = format!("{}. Fin. {}", "a".repeat(680), "b".repeat(690));
    let output = chunks(&text).unwrap();
    assert_eq!(output.len(), 2);
    assert!(output[1].starts_with("Fin."));
    assert!(output.iter().all(|c| c.chars().count() <= 700));
    let text = format!("{}. Fin. {}", "a".repeat(680), "é".repeat(700));
    let output = chunks(&text).unwrap();
    assert_eq!(output.len(), 2);
    assert_eq!(output[1].chars().count(), 700);
    assert!(!output[1].starts_with("Fin."));
}

#[test]
fn pathological_unicode_and_long_words_are_split_without_loss() {
    let word = "é".repeat(1600);
    let output = chunks(&word).unwrap();
    assert_eq!(output.concat(), word);
    assert_eq!(output.iter().map(|c| c.chars().count()).collect::<Vec<_>>(), [700, 700, 200]);
    assert!(chunks(" \n ").is_err());
}

fn shape(len: usize, finite: bool) -> VectorShape {
    VectorShape { len, finite }
}

#[test]
fn vector_and_batch_bounds_fail_closed() {
    assert!(validate_vector(shape(0, true)).is_err());
    assert!(validate_vector(shape(1, false)).is_err());
    assert!(validate_vector(shape(4097, true)).is_err());
    let p = ShapedPassage {
        chunk: Chunk {
            resource_id: "public-welcome".into(),
            classification: "PUBLIC".into(),
            chunk_id: 0,
            text: "Fictif".into(),
        },
        vector: shape(2, true),
    };
    assert_eq!(validate_batch(std::slice::from_ref(&p)), Ok(2));
    assert!(validate_batch(&[p.clone(), p.clone()]).is_err());
    let mut q = p.clone();
    q.chunk.chunk_id = 1;
    q.vector = shape(3, true);
    assert!(validate_batch(&[p, q]).is_err());
}

#[test]
fn batch_refuses_bad_chunks_and_sizes() {
    let good = ShapedPassage {
        chunk: Chunk {
            resource_id: "rh-benefits".into(),
            classification: "RH".into(),
            chunk_id: 0,
            text: "Avantages fictifs.".into(),
        },
        vector: shape(4096, true),
    };
    assert_eq!(validate_batch(std::slice::from_ref(&good)), Ok(4096));
    assert_eq!(validate_batch(&[]), Err(IndexError));
    let mut other = good.clone();
    other.chunk.resource_id = "Bad_Id".into();
    assert!(validate_batch(&[other]).is_err());
    let mut other = good.clone();
    other.chunk.classification = "SECRET".into();
    assert!(validate_batch(&[other]).is_err());
    let mut other = good.clone();
    other.chunk.text = " \n ".into();
    assert!(validate_batch(&[other]).is_err());
    let mut other = good.clone();
    other.chunk.text = "é".repeat(701);
    assert!(validate_batch(&[other]).is_err());
    let many: Vec<ShapedPassage> = (0..513)
        .map(|i| {
            let mut p = good.clone();
            p.chunk.chunk_id = i;
            p
        })
        .collect();
    assert!(validate_batch(&many).is_err());
    assert_eq!(validate_batch(&many[..512]), Ok(4096));
}

#[test]
fn chunks_of_short_text_and_every_chunk_bounded() {
    assert_eq!(chunks("Une phrase. Une autre.").unwrap(), ["Une phrase. Une autre."]);
    let text = "mot ".repeat(600);
    let output = chunks(&text).unwrap();
    assert!(output.len() >= 2);
    assert!(output.iter().all(|c| !c.is_empty() && c.chars().count() <= 700));
    assert_eq!(chunks(""), Err(IndexError));
}

#[test]
fn only_blank_texts_are_refused_for_indexing() {
    for blank in ["", " ", "\n\n", "\t \r\n \u{a0}", "\u{3000}"] {
        assert_eq!(chunks(blank), Err(IndexError));
    }
    for text in ["x", " x ", "\n\n.\n", "a\r\n\r\nb", &"y".repeat(1500), &"mot ".repeat(400)] {
        let output = chunks(text).unwrap();
        assert!(!output.is_empty());
        assert!(output.iter().all(|c| !c.is_empty() && c.chars().count() <= 700 && c.trim() == c));
    }
}
