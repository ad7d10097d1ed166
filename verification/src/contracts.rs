//! The JSON bodies that the API answers with, as plain records. Their wire form is
//! given by the program around the library.
use vstd::prelude::*;

verus! {

#[derive(Debug, Clone, PartialEq)]
pub struct DisplayIdentity {
    pub id: String,
    pub display_name: String,
}

#[derive(Debug, Clone)]
pub struct SessionResponse {
    pub authenticated: bool,
    pub identity: DisplayIdentity,
}

#[derive(Debug, Clone, PartialEq)]
pub struct DocumentResponse {
    pub resource_id: String,
    pub classification: String,
    pub content: String,
}

#[derive(Debug, Clone, PartialEq)]
pub struct SearchResult {
    pub resource_id: String,
    pub classification: String,
    pub excerpt: String,
}

#[derive(Debug, Clone)]
pub struct SearchResponse {
    pub results: Vec<SearchResult>,
}

/// A chat answer; `sources` is present for answers grounded in documents.
#[derive(Debug, Clone)]
pub struct ChatResponse {
    pub content: String,
    pub sources: Option<Vec<String>>,
}

#[derive(Debug, Clone)]
pub struct ErrorResponse {
    pub error: String,
}

} // verus!
