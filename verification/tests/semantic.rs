use chatpurp::indexing::Chunk;
use chatpurp::outgoing::UpstreamError;
use chatpurp::policy::Resource;
use chatpurp::semantic::{
    batch_size_acceptable, embed_input, filter_ids, point_id, search_results, ScoredPoint,
    COLLECTION,
};

fn resource(id: &str, classification: &str) -> Resource {
    Resource {
        id: id.into(),
        classification: classification.into(),
        path: String::new(),
        allowed_roles: vec![],
    }
}

fn point(id: &str, classification: &str, text: &str) -> ScoredPoint {
    ScoredPoint {
        resource_id: Some(id.into()),
        classification: Some(classification.into()),
        text: Some(text.into()),
        finite_score: true,
    }
}

#[test]
fn mandatory_acl_filter_and_malicious_payload_rejection() {
    let r = resource("public-welcome", "PUBLIC");
    let found = search_results(&[&r], &[point("public-welcome", "PUBLIC", "fictif")]).unwrap();
    assert_eq!(found.len(), 1);
    assert_eq!(filter_ids(&[&r]).unwrap(), ["public-welcome"]);
    for p in [point("rh-onboarding", "PUBLIC", "fictif"), point("public-welcome", "RH", "fictif")] {
        assert!(search_results(&[&r], &[p]).is_err());
    }
    assert!(search_results(&[], &[]).unwrap().is_empty());
}

#[test]
fn points_need_all_fields_a_finite_score_and_at_most_three() {
    let r = resource("public-welcome", "PUBLIC");
    let mut p = point("public-welcome", "PUBLIC", "x");
    p.finite_score = false;
    assert_eq!(search_results(&[&r], &[p]), Err(UpstreamError));
    let mut p = point("public-welcome", "PUBLIC", "x");
    p.text = None;
    assert_eq!(search_results(&[&r], &[p]), Err(UpstreamError));
    let four: Vec<ScoredPoint> = (0..4).map(|_| point("public-welcome", "PUBLIC", "x")).collect();
    assert_eq!(search_results(&[&r], &four), Err(UpstreamError));
    let long = "é".repeat(600);
    let found = search_results(&[&r], &[point("public-welcome", "PUBLIC", &long)]).unwrap();
    assert_eq!(found[0].excerpt.chars().count(), 500);
    assert_eq!(found[0].classification, "PUBLIC");
}

#[test]
fn filter_identifiers_are_sorted_unique_and_valid() {
    let a = resource("rh-benefits", "RH");
    let b = resource("public-welcome", "PUBLIC");
    let c = resource("it-workstation", "IT");
    assert_eq!(
        filter_ids(&[&a, &b, &a, &c]).unwrap(),
        ["it-workstation", "public-welcome", "rh-benefits"]
    );
    let bad = resource("../x", "PUBLIC");
    assert_eq!(filter_ids(&[&a, &bad]), Err(UpstreamError));
    assert!(filter_ids(&[]).unwrap().is_empty());
}

#[test]
fn embeddings_input_is_trimmed_and_bounded() {
    assert_eq!(embed_input("  Bonjour ").unwrap(), "Bonjour");
    assert!(embed_input(" ").is_err());
    assert!(embed_input(&"é".repeat(8000)).is_ok());
    assert!(embed_input(&"é".repeat(8001)).is_err());
    assert!(!batch_size_acceptable(0));
    assert!(batch_size_acceptable(512));
    assert!(!batch_size_acceptable(513));
    assert_eq!(COLLECTION, "lab_semantic_documents");
}

#[test]
fn point_identifiers_are_name_based_uuids() {
    let chunk = Chunk {
        resource_id: "public-welcome".into(),
        classification: "PUBLIC".into(),
        chunk_id: 0,
        text: "Fictif".into(),
    };
    assert_eq!(point_id(&chunk), "b875f4cb-96aa-58c8-867c-5424fd77fec3");
    let chunk = Chunk {
        resource_id: "rh-benefits".into(),
        classification: "RH".into(),
        chunk_id: 12,
        text: "Avantages é".into(),
    };
    assert_eq!(point_id(&chunk), "c2fe3cd9-09f3-5668-9f84-a5a1b96f909c");
}
