use chatpurp::contracts::{ChatResponse, SearchResult};
use chatpurp::display::{answer_text, document_id_acceptable, refusal_text, results_text};

fn result(id: &str, classification: &str, excerpt: &str) -> SearchResult {
    SearchResult {
        resource_id: id.into(),
        classification: classification.into(),
        excerpt: excerpt.into(),
    }
}

#[test]
fn results_are_listed_or_a_notice_is_shown() {
    assert_eq!(results_text(&[]), "Aucun extrait autorisé trouvé.");
    assert_eq!(
        results_text(&[result("public-welcome", "PUBLIC", "Bienvenue")]),
        "public-welcome (PUBLIC)\nBienvenue"
    );
    assert_eq!(
        results_text(&[result("a", "PUBLIC", "x"), result("b", "RH", "y")]),
        "a (PUBLIC)\nx\n\nb (RH)\ny"
    );
}

#[test]
fn answers_show_their_sources() {
    let plain = ChatResponse { content: "Bonjour".into(), sources: None };
    assert_eq!(answer_text(&plain), "Bonjour");
    let grounded = ChatResponse {
        content: "Réponse".into(),
        sources: Some(vec!["public-welcome".into(), "public-glossary".into()]),
    };
    assert_eq!(answer_text(&grounded), "Réponse\n\nSources : public-welcome, public-glossary");
    let empty = ChatResponse { content: "R".into(), sources: Some(vec![]) };
    assert_eq!(answer_text(&empty), "R\n\nSources : ");
}

#[test]
fn identifiers_are_checked_before_asking_and_refusals_explained() {
    assert!(document_id_acceptable("public-welcome"));
    assert!(document_id_acceptable(&"a".repeat(200)));
    for id in ["", "Public", "../x", "a b", "é"] {
        assert!(!document_id_acceptable(id), "{id}");
    }
    assert_eq!(refusal_text(Some("Accès au document refusé.")), "Accès au document refusé.");
    assert_eq!(refusal_text(None), "Opération refusée.");
}
