//! The browser page as a state machine: what each click or answer changes on the
//! page, and which API request it starts. Rendering the page and sending the
//! requests are left to the caller. The page grants nothing; the API decides.
use crate::contracts::{ChatResponse, SearchResult};
use crate::display::{
    answer_text, document_id_acceptable, results_text, spec_answer_text,
    spec_document_id_acceptable, spec_results_text,
};
use crate::text::{chars_of, push_chars, string_of};
use vstd::prelude::*;

verus! {

/// What the page shows and holds.
pub struct Page {
    /// The display name of the session's identity; empty without session.
    pub identity: String,
    /// The identity chosen for a new session.
    pub selected: String,
    /// The document identifier typed in.
    pub resource: String,
    pub document: String,
    pub query: String,
    pub results: String,
    pub message: String,
    pub answer: String,
    pub feedback: String,
    /// A request is under way; the controls are disabled.
    pub busy: bool,
}

/// The texts and flag of a page.
pub struct PageView {
    pub identity: Seq<char>,
    pub selected: Seq<char>,
    pub resource: Seq<char>,
    pub document: Seq<char>,
    pub query: Seq<char>,
    pub results: Seq<char>,
    pub message: Seq<char>,
    pub answer: Seq<char>,
    pub feedback: Seq<char>,
    pub busy: bool,
}

impl View for Page {
    type V = PageView;

    open spec fn view(&self) -> PageView {
        PageView {
            identity: self.identity@,
            selected: self.selected@,
            resource: self.resource@,
            document: self.document@,
            query: self.query@,
            results: self.results@,
            message: self.message@,
            answer: self.answer@,
            feedback: self.feedback@,
            busy: self.busy,
        }
    }
}

/// The two chat endpoints.
#[derive(Debug, Clone, Copy, PartialEq, Eq, Structural)]
pub enum ChatRoute {
    Plain,
    WithDocuments,
}

impl ChatRoute {
    pub open spec fn spec_path(self) -> Seq<char> {
        match self {
            ChatRoute::Plain => "/api/chat"@,
            ChatRoute::WithDocuments => "/api/rag-chat"@,
        }
    }

    /// The path of the endpoint.
    pub fn path(self) -> (r: &'static str)
        ensures
            r@ == self.spec_path(),
    {
        match self {
            ChatRoute::Plain => "/api/chat",
            ChatRoute::WithDocuments => "/api/rag-chat",
        }
    }
}

/// A request that the page sends to the API.
#[derive(Debug)]
pub enum ApiRequest {
    /// `GET /api/session`.
    Session,
    /// `POST /api/demo-session` for this identity.
    OpenSession(String),
    /// `POST /api/logout`.
    CloseSession,
    /// `GET /api/documents/{id}`.
    Document(String),
    /// `POST /api/retrieve` with this query.
    Search(String),
    /// `POST` to a chat endpoint with this message.
    Chat(ChatRoute, String),
}

/// The texts of a request.
pub enum RequestView {
    Session,
    OpenSession(Seq<char>),
    CloseSession,
    Document(Seq<char>),
    Search(Seq<char>),
    Chat(ChatRoute, Seq<char>),
}

pub open spec fn request_view(r: Option<ApiRequest>) -> Option<RequestView> {
    match r {
        None => None,
        Some(ApiRequest::Session) => Some(RequestView::Session),
        Some(ApiRequest::OpenSession(s)) => Some(RequestView::OpenSession(s@)),
        Some(ApiRequest::CloseSession) => Some(RequestView::CloseSession),
        Some(ApiRequest::Document(s)) => Some(RequestView::Document(s@)),
        Some(ApiRequest::Search(s)) => Some(RequestView::Search(s@)),
        Some(ApiRequest::Chat(c, s)) => Some(RequestView::Chat(c, s@)),
    }
}

/// What happens on the page: a user's action, or the answer to a request, with the
/// API's error message when it refused.
pub enum PageEvent {
    /// The page has just loaded.
    Loaded,
    /// The answer to the session request: the display name when there is a session.
    SessionRead(Option<String>),
    Select(String),
    EditResource(String),
    EditQuery(String),
    EditMessage(String),
    Login,
    LoggedIn(Result<String, String>),
    Logout,
    LoggedOut(Result<(), String>),
    Read,
    DocumentRead(Result<String, String>),
    Search,
    Searched(Result<Vec<SearchResult>, String>),
    Ask(ChatRoute),
    Answered(Result<ChatResponse, String>),
}

/// The page before anything happened: Oscar is selected, `public-welcome` typed in,
/// and the session request is under way.
pub open spec fn initial_view() -> PageView {
    PageView {
        identity: seq![],
        selected: "oscar"@,
        resource: "public-welcome"@,
        document: seq![],
        query: seq![],
        results: seq![],
        message: seq![],
        answer: seq![],
        feedback: seq![],
        busy: true,
    }
}

/// The page with what a session showed cleared: identity, document, results,
/// answer, query and message.
pub open spec fn cleared(p: PageView) -> PageView {
    PageView {
        identity: seq![],
        document: seq![],
        results: seq![],
        answer: seq![],
        query: seq![],
        message: seq![],
        ..p
    }
}

/// The notice after a closed session.
pub open spec fn closed_notice() -> Seq<char> {
    "Session fermée."@
}

/// The notice for an identifier that is not worth sending.
pub open spec fn invalid_id_notice() -> Seq<char> {
    "Identifiant de document invalide."@
}

/// The text shown while the model answers.
pub open spec fn pending_notice() -> Seq<char> {
    "Réponse locale en cours…"@
}

/// The effect of an event: the new page and the request to send, if any. A user's
/// action while a request is under way changes nothing (its control is disabled).
pub open spec fn spec_step(p: PageView, e: PageEvent) -> (PageView, Option<RequestView>) {
    match e {
        PageEvent::Loaded => (p, Some(RequestView::Session)),
        PageEvent::SessionRead(name) => (
            PageView {
                identity: match name {
                    Some(n) => n@,
                    None => p.identity,
                },
                busy: false,
                ..p
            },
            None,
        ),
        PageEvent::Select(s) => if p.busy {
            (p, None)
        } else {
            (PageView { selected: s@, ..p }, None)
        },
        PageEvent::EditResource(s) => if p.busy {
            (p, None)
        } else {
            (PageView { resource: s@, ..p }, None)
        },
        PageEvent::EditQuery(s) => if p.busy {
            (p, None)
        } else {
            (PageView { query: s@, ..p }, None)
        },
        PageEvent::EditMessage(s) => if p.busy {
            (p, None)
        } else {
            (PageView { message: s@, ..p }, None)
        },
        PageEvent::Login => if p.busy {
            (p, None)
        } else {
            (
                PageView { feedback: seq![], busy: true, ..cleared(p) },
                Some(RequestView::OpenSession(p.selected)),
            )
        },
        PageEvent::LoggedIn(r) => (
            match r {
                Ok(name) => PageView { identity: name@, busy: false, ..p },
                Err(m) => PageView { feedback: m@, busy: false, ..p },
            },
            None,
        ),
        PageEvent::Logout => if p.busy {
            (p, None)
        } else {
            (PageView { busy: true, ..p }, Some(RequestView::CloseSession))
        },
        PageEvent::LoggedOut(r) => (
            match r {
                Ok(_) => PageView { feedback: closed_notice(), busy: false, ..cleared(p) },
                Err(m) => PageView { feedback: m@, busy: false, ..p },
            },
            None,
        ),
        PageEvent::Read => if p.busy {
            (p, None)
        } else if spec_document_id_acceptable(p.resource) {
            (
                PageView { document: seq![], feedback: seq![], busy: true, ..p },
                Some(RequestView::Document(p.resource)),
            )
        } else {
            (PageView { document: seq![], feedback: invalid_id_notice(), busy: false, ..p }, None)
        },
        PageEvent::DocumentRead(r) => (
            match r {
                Ok(content) => PageView { document: content@, busy: false, ..p },
                Err(m) => PageView { feedback: m@, busy: false, ..p },
            },
            None,
        ),
        PageEvent::Search => if p.busy {
            (p, None)
        } else {
            (
                PageView { results: seq![], feedback: seq![], busy: true, ..p },
                Some(RequestView::Search(p.query)),
            )
        },
        PageEvent::Searched(r) => (
            match r {
                Ok(rs) => PageView { results: spec_results_text(rs@), busy: false, ..p },
                Err(m) => PageView { feedback: m@, busy: false, ..p },
            },
            None,
        ),
        PageEvent::Ask(route) => if p.busy {
            (p, None)
        } else {
            (
                PageView { answer: pending_notice(), feedback: seq![], busy: true, ..p },
                Some(RequestView::Chat(route, p.message)),
            )
        },
        PageEvent::Answered(r) => (
            match r {
                Ok(c) => PageView {
                    answer: spec_answer_text(
                        c.content@,
                        match c.sources {
                            Some(v) => Some(v@.map_values(|s: String| s@)),
                            None => None,
                        },
                    ),
                    busy: false,
                    ..p
                },
                Err(m) => PageView { answer: seq![], feedback: m@, busy: false, ..p },
            },
            None,
        ),
    }
}

fn copy(s: &String) -> (r: String)
    ensures
        r@ == s@,
{
    string_of(&chars_of(s.as_str()))
}

fn text(s: &str) -> (r: String)
    ensures
        r@ == s@,
{
    string_of(&chars_of(s))
}

impl Page {
    /// The page as it loads.
    pub fn new() -> (r: Page)
        ensures
            r@ == initial_view(),
    {
        Page {
            identity: String::new(),
            selected: text("oscar"),
            resource: text("public-welcome"),
            document: String::new(),
            query: String::new(),
            results: String::new(),
            message: String::new(),
            answer: String::new(),
            feedback: String::new(),
            busy: true,
        }
    }

    fn clear_session(&mut self)
        ensures
            final(self)@ == cleared(old(self)@),
    {
        self.identity = String::new();
        self.document = String::new();
        self.results = String::new();
        self.answer = String::new();
        self.query = String::new();
        self.message = String::new();
    }

    /// Applies an event; gives the request to send, if any.
    pub fn step(&mut self, event: PageEvent) -> (r: Option<ApiRequest>)
        ensures
            (final(self)@, request_view(r)) == spec_step(old(self)@, event),
    {
        match event {
            PageEvent::Loaded => Some(ApiRequest::Session),
            PageEvent::SessionRead(name) => {
                if let Some(n) = name {
                    self.identity = n;
                }
                self.busy = false;
                None
            },
            PageEvent::Select(s) => {
                if !self.busy {
                    self.selected = s;
                }
                None
            },
            PageEvent::EditResource(s) => {
                if !self.busy {
                    self.resource = s;
                }
                None
            },
            PageEvent::EditQuery(s) => {
                if !self.busy {
                    self.query = s;
                }
                None
            },
            PageEvent::EditMessage(s) => {
                if !self.busy {
                    self.message = s;
                }
                None
            },
            PageEvent::Login => {
                if self.busy {
                    return None;
                }
                self.busy = true;
                self.feedback = String::new();
                self.clear_session();
                Some(ApiRequest::OpenSession(copy(&self.selected)))
            },
            PageEvent::LoggedIn(r) => {
                match r {
                    Ok(name) => self.identity = name,
                    Err(m) => self.feedback = m,
                }
                self.busy = false;
                None
            },
            PageEvent::Logout => {
                if self.busy {
                    return None;
                }
                self.busy = true;
                Some(ApiRequest::CloseSession)
            },
            PageEvent::LoggedOut(r) => {
                match r {
                    Ok(_) => {
                        self.clear_session();
                        self.feedback = text("Session fermée.");
                    },
                    Err(m) => self.feedback = m,
                }
                self.busy = false;
                None
            },
            PageEvent::Read => {
                if self.busy {
                    return None;
                }
                self.document = String::new();
                self.feedback = String::new();
                if document_id_acceptable(self.resource.as_str()) {
                    self.busy = true;
                    Some(ApiRequest::Document(copy(&self.resource)))
                } else {
                    self.feedback = text("Identifiant de document invalide.");
                    None
                }
            },
            PageEvent::DocumentRead(r) => {
                match r {
                    Ok(content) => self.document = content,
                    Err(m) => self.feedback = m,
                }
                self.busy = false;
                None
            },
            PageEvent::Search => {
                if self.busy {
                    return None;
                }
                self.busy = true;
                self.results = String::new();
                self.feedback = String::new();
                Some(ApiRequest::Search(copy(&self.query)))
            },
            PageEvent::Searched(r) => {
                match r {
                    Ok(rs) => self.results = results_text(&rs),
                    Err(m) => self.feedback = m,
                }
                self.busy = false;
                None
            },
            PageEvent::Ask(route) => {
                if self.busy {
                    return None;
                }
                self.busy = true;
                self.answer = text("Réponse locale en cours…");
                self.feedback = String::new();
                Some(ApiRequest::Chat(route, copy(&self.message)))
            },
            PageEvent::Answered(r) => {
                match r {
                    Ok(c) => self.answer = answer_text(&c),
                    Err(m) => {
                        self.answer = String::new();
                        self.feedback = m;
                    },
                }
                self.busy = false;
                None
            },
        }
    }
}

} // verus!
