use chatpurp::contracts::{ChatResponse, SearchResult};
use chatpurp::page::{ApiRequest, ChatRoute, Page, PageEvent};

fn ready() -> Page {
    let mut page = Page::new();
    assert!(matches!(page.step(PageEvent::Loaded), Some(ApiRequest::Session)));
    assert!(page.step(PageEvent::SessionRead(None)).is_none());
    assert!(!page.busy);
    page
}

#[test]
fn the_page_starts_with_oscar_and_asks_for_the_session() {
    let mut page = Page::new();
    assert_eq!(page.selected, "oscar");
    assert_eq!(page.resource, "public-welcome");
    assert!(page.busy);
    assert!(matches!(page.step(PageEvent::Loaded), Some(ApiRequest::Session)));
    page.step(PageEvent::SessionRead(Some("Oscar".into())));
    assert_eq!(page.identity, "Oscar");
    assert!(!page.busy);
}

#[test]
fn login_clears_the_page_and_opens_a_session_for_the_selected_identity() {
    let mut page = ready();
    page.step(PageEvent::EditQuery("sécurité".into()));
    page.step(PageEvent::Select("alice".into()));
    match page.step(PageEvent::Login) {
        Some(ApiRequest::OpenSession(id)) => assert_eq!(id, "alice"),
        other => panic!("{other:?}"),
    }
    assert!(page.busy);
    assert_eq!(page.query, "");
    assert!(page.step(PageEvent::Search).is_none());
    page.step(PageEvent::LoggedIn(Ok("Alice".into())));
    assert_eq!(page.identity, "Alice");
    assert!(!page.busy);
    page.step(PageEvent::Login);
    page.step(PageEvent::LoggedIn(Err("Identité de démonstration refusée.".into())));
    assert_eq!(page.feedback, "Identité de démonstration refusée.");
}

#[test]
fn logout_clears_what_the_session_showed() {
    let mut page = ready();
    page.step(PageEvent::SessionRead(Some("Oscar".into())));
    page.step(PageEvent::EditMessage("bonjour".into()));
    assert!(matches!(page.step(PageEvent::Logout), Some(ApiRequest::CloseSession)));
    page.step(PageEvent::LoggedOut(Ok(())));
    assert_eq!(page.identity, "");
    assert_eq!(page.message, "");
    assert_eq!(page.feedback, "Session fermée.");
}

#[test]
fn reads_are_asked_only_for_identifiers() {
    let mut page = ready();
    page.step(PageEvent::EditResource("../secret".into()));
    assert!(page.step(PageEvent::Read).is_none());
    assert_eq!(page.feedback, "Identifiant de document invalide.");
    assert!(!page.busy);
    page.step(PageEvent::EditResource("public-welcome".into()));
    match page.step(PageEvent::Read) {
        Some(ApiRequest::Document(id)) => assert_eq!(id, "public-welcome"),
        other => panic!("{other:?}"),
    }
    page.step(PageEvent::DocumentRead(Ok("Bienvenue".into())));
    assert_eq!(page.document, "Bienvenue");
}

#[test]
fn search_and_chat_answers_are_shown() {
    let mut page = ready();
    page.step(PageEvent::EditQuery("sécurité".into()));
    match page.step(PageEvent::Search) {
        Some(ApiRequest::Search(q)) => assert_eq!(q, "sécurité"),
        other => panic!("{other:?}"),
    }
    page.step(PageEvent::Searched(Ok(vec![SearchResult {
        resource_id: "public-welcome".into(),
        classification: "PUBLIC".into(),
        excerpt: "Bienvenue".into(),
    }])));
    assert_eq!(page.results, "public-welcome (PUBLIC)\nBienvenue");
    page.step(PageEvent::EditMessage("bonjour".into()));
    match page.step(PageEvent::Ask(ChatRoute::WithDocuments)) {
        Some(ApiRequest::Chat(route, m)) => {
            assert_eq!(route.path(), "/api/rag-chat");
            assert_eq!(m, "bonjour");
        },
        other => panic!("{other:?}"),
    }
    assert_eq!(page.answer, "Réponse locale en cours…");
    page.step(PageEvent::Answered(Ok(ChatResponse {
        content: "Réponse".into(),
        sources: Some(vec!["public-welcome".into()]),
    })));
    assert_eq!(page.answer, "Réponse\n\nSources : public-welcome");
    page.step(PageEvent::Ask(ChatRoute::Plain));
    page.step(PageEvent::Answered(Err("Le modèle local est indisponible.".into())));
    assert_eq!(page.answer, "");
    assert_eq!(page.feedback, "Le modèle local est indisponible.");
}
