use chatpurp::policy::{
    valid_id, Directory, GroupRole, IdentityDefinition, Policy, PolicyIdentity, Resource, Role,
};

fn strings(values: &[&str]) -> Vec<String> {
    values.iter().map(|v| v.to_string()).collect()
}

fn identity(id: &str, name: &str, groups: &[&str]) -> IdentityDefinition {
    IdentityDefinition { id: id.into(), display_name: name.into(), groups: strings(groups) }
}

fn directory() -> Directory {
    Directory {
        issuer: "local-demo-idp".into(),
        audience: "local-llm-lab-api".into(),
        token_ttl_seconds: 900,
        identities: vec![
            identity("alice", "Alice", &["LAB_READERS", "HR"]),
            identity("bob", "Bob", &["LAB_READERS", "IT"]),
            identity("charlie", "Charlie", &["LAB_READERS"]),
            identity("oscar", "Oscar", &["OSCAR_PUBLIC_WELCOME_READERS", "MCP_READERS"]),
        ],
    }
}

fn resource(id: &str, classification: &str, path: &str, roles: &[&str]) -> Resource {
    Resource {
        id: id.into(),
        classification: classification.into(),
        path: path.into(),
        allowed_roles: strings(roles),
    }
}

fn policy() -> Policy {
    let mut resources = vec![resource(
        "public-welcome",
        "PUBLIC",
        "demo-documents/public/welcome.md",
        &["lab_reader", "public_welcome_reader"],
    )];
    for name in [
        "model-guidelines",
        "incident-reporting",
        "meeting-rooms",
        "security-basics",
        "remote-work",
        "product-overview",
        "glossary",
        "training-calendar",
    ] {
        resources.push(resource(
            &format!("public-{name}"),
            "PUBLIC",
            &format!("demo-documents/public/{name}.md"),
            &["lab_reader"],
        ));
    }
    for name in ["onboarding", "leave-policy", "benefits"] {
        resources.push(resource(
            &format!("rh-{name}"),
            "RH",
            &format!("demo-documents/rh/{name}.md"),
            &["rh_reader"],
        ));
    }
    for name in ["workstation", "password-reset", "service-catalog"] {
        resources.push(resource(
            &format!("it-{name}"),
            "IT",
            &format!("demo-documents/it/{name}.md"),
            &["it_reader"],
        ));
    }
    let mapping = |group: &str, role: &str| GroupRole { group: group.into(), role: role.into() };
    let person = |id: &str, name: &str, roles: &[&str]| PolicyIdentity {
        id: id.into(),
        display_name: name.into(),
        roles: strings(roles),
    };
    Policy {
        default_decision: "deny".into(),
        roles: ["lab_reader", "rh_reader", "it_reader", "public_welcome_reader", "mcp_read_only"]
            .iter()
            .map(|r| Role { id: r.to_string() })
            .collect(),
        group_role_mappings: vec![
            mapping("LAB_READERS", "lab_reader"),
            mapping("HR", "rh_reader"),
            mapping("IT", "it_reader"),
            mapping("OSCAR_PUBLIC_WELCOME_READERS", "public_welcome_reader"),
            mapping("MCP_READERS", "mcp_read_only"),
        ],
        identities: vec![
            person("alice", "Alice", &["lab_reader", "rh_reader"]),
            person("bob", "Bob", &["lab_reader", "it_reader"]),
            person("charlie", "Charlie", &["lab_reader"]),
            person("oscar", "Oscar", &["public_welcome_reader", "mcp_read_only"]),
        ],
        resources,
    }
}

fn fixture() -> (Policy, Directory) {
    (policy(), directory())
}

#[test]
fn complete_four_by_fifteen_matrix() {
    let (policy, directory) = fixture();
    policy.validate(&directory).unwrap();
    assert_eq!(policy.resources.len(), 15);
    for entry in &directory.identities {
        let identity = directory.validate_claims(&entry.id, &entry.groups).unwrap();
        for resource in &policy.resources {
            let expected = match entry.id.as_str() {
                "alice" => resource.classification != "IT",
                "bob" => resource.classification != "RH",
                "charlie" => resource.classification == "PUBLIC",
                "oscar" => resource.id == "public-welcome",
                _ => panic!("unknown fixture identity"),
            };
            assert_eq!(policy.permits(&identity, resource), expected, "{} {}", entry.id, resource.id);
        }
    }
}

#[test]
fn unknown_subject_and_group_spoofing_fail() {
    let (_, directory) = fixture();
    assert!(directory.validate_claims("unknown", &[]).is_none());
    assert!(directory.validate_claims("oscar", &["LAB_READERS".into()]).is_none());
}

#[test]
fn invalid_configs_fail_closed() {
    let (base, directory) = fixture();
    let mut p = base.clone();
    p.default_decision = "allow".into();
    assert!(p.validate(&directory).is_err());
    let mut p = base.clone();
    p.resources.push(p.resources[0].clone());
    assert!(p.validate(&directory).is_err());
    let mut p = base.clone();
    p.resources[0].path = "demo-documents/../AGENTS.md".into();
    assert!(p.validate(&directory).is_err());
    let mut p = base.clone();
    p.identities[3].roles.push("lab_reader".into());
    assert!(p.validate(&directory).is_err());
    let mut p = base;
    p.resources[0].allowed_roles.push("unknown".into());
    assert!(p.validate(&directory).is_err());
}

#[test]
fn identifiers_are_bounded_ascii_and_never_paths() {
    for id in ["", "../x", "a/b", "%2f", "A", "é", "x_y"] {
        assert!(!valid_id(id));
    }
    assert!(valid_id(&"a".repeat(80)));
    assert!(!valid_id(&"a".repeat(81)));
}

#[test]
fn validation_messages_name_the_first_inconsistency() {
    let (base, directory) = fixture();
    let mut p = base.clone();
    p.default_decision = "allow".into();
    assert_eq!(p.validate(&directory), Err("invalid policy/directory defaults"));
    let mut p = base.clone();
    p.roles.push(Role { id: "lab_reader".into() });
    assert_eq!(p.validate(&directory), Err("invalid roles"));
    let mut p = base.clone();
    p.group_role_mappings[0].role = "admin".into();
    assert_eq!(p.validate(&directory), Err("invalid group mapping"));
    let mut p = base.clone();
    p.identities[3].roles.push("lab_reader".into());
    assert_eq!(p.validate(&directory), Err("policy and directory roles mismatch"));
    let mut p = base.clone();
    p.resources[0].path = "demo-documents/../AGENTS.md".into();
    assert_eq!(p.validate(&directory), Err("invalid resource"));
    let mut d = directory.clone();
    d.identities[0].display_name = "Alicia".into();
    assert_eq!(base.validate(&d), Err("policy and directory identity mismatch"));
}

#[test]
fn default_deny_without_a_mapped_role() {
    let (mut policy, directory) = fixture();
    let oscar = directory.validate_claims("oscar", &directory.identities[3].groups).unwrap();
    assert!(policy.permits(&oscar, &policy.resources[0].clone()));
    policy.resources[0].allowed_roles.clear();
    assert!(!policy.permits(&oscar, &policy.resources[0].clone()));
    assert_eq!(oscar.id(), "oscar");
    assert_eq!(oscar.groups().len(), 2);
}

#[test]
fn authorized_lists_exactly_the_permitted_resources_in_order() {
    let (policy, directory) = fixture();
    let alice = directory.validate_claims("alice", &directory.identities[0].groups).unwrap();
    let ids: Vec<&str> = policy.authorized(&alice).iter().map(|r| r.id.as_str()).collect();
    assert_eq!(ids.len(), 12);
    assert_eq!(ids[0], "public-welcome");
    assert!(ids.contains(&"rh-benefits"));
    assert!(!ids.iter().any(|id| id.starts_with("it-")));
    let oscar = directory.validate_claims("oscar", &directory.identities[3].groups).unwrap();
    let ids: Vec<&str> = policy.authorized(&oscar).iter().map(|r| r.id.as_str()).collect();
    assert_eq!(ids, ["public-welcome"]);
    assert_eq!(policy.resource("rh-onboarding").unwrap().classification, "RH");
    assert!(policy.resource("unknown").is_none());
    assert_eq!(directory.identity("bob").unwrap().display_name, "Bob");
}
