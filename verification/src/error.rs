//! What can go wrong.

use vstd::prelude::*;
use vstd::string::*;

verus! {

/// An error of the bridge. Errors of the crates around it are kept as their texts.
#[derive(Debug)]
pub enum BridgeError {
    Http(String),
    HttpClient(String),
    Database(String),
    Discord(String),
    Json(String),
    Matrix(String),
    NotFound,
    Config(String),
}

/// What an error says.
pub enum BridgeErrorView {
    Http(Seq<char>),
    HttpClient(Seq<char>),
    Database(Seq<char>),
    Discord(Seq<char>),
    Json(Seq<char>),
    Matrix(Seq<char>),
    NotFound,
    Config(Seq<char>),
}

impl View for BridgeError {
    type V = BridgeErrorView;

    open spec fn view(&self) -> BridgeErrorView {
        match self {
            BridgeError::Http(s) => BridgeErrorView::Http(s@),
            BridgeError::HttpClient(s) => BridgeErrorView::HttpClient(s@),
            BridgeError::Database(s) => BridgeErrorView::Database(s@),
            BridgeError::Discord(s) => BridgeErrorView::Discord(s@),
            BridgeError::Json(s) => BridgeErrorView::Json(s@),
            BridgeError::Matrix(s) => BridgeErrorView::Matrix(s@),
            BridgeError::NotFound => BridgeErrorView::NotFound,
            BridgeError::Config(s) => BridgeErrorView::Config(s@),
        }
    }
}

impl BridgeErrorView {
    /// The error as a sentence.
    pub open spec fn sentence(self) -> Seq<char> {
        match self {
            BridgeErrorView::Http(s) => "HTTP error: "@ + s,
            BridgeErrorView::HttpClient(s) => "HTTP client error: "@ + s,
            BridgeErrorView::Database(s) => "Database error: "@ + s,
            BridgeErrorView::Discord(s) => "Discord error: "@ + s,
            BridgeErrorView::Json(s) => "JSON error: "@ + s,
            BridgeErrorView::Matrix(s) => "Matrix error: "@ + s,
            BridgeErrorView::NotFound => "Not found"@,
            BridgeErrorView::Config(s) => "Configuration error: "@ + s,
        }
    }
}

impl BridgeError {
    /// The error as a sentence.
    pub fn message(&self) -> (s: String)
        ensures
            s@ == self@.sentence(),
    {
        match self {
            BridgeError::Http(s) => "HTTP error: ".to_owned().concat(s.as_str()),
            BridgeError::HttpClient(s) => "HTTP client error: ".to_owned().concat(s.as_str()),
            BridgeError::Database(s) => "Database error: ".to_owned().concat(s.as_str()),
            BridgeError::Discord(s) => "Discord error: ".to_owned().concat(s.as_str()),
            BridgeError::Json(s) => "JSON error: ".to_owned().concat(s.as_str()),
            BridgeError::Matrix(s) => "Matrix error: ".to_owned().concat(s.as_str()),
            BridgeError::NotFound => "Not found".to_owned(),
            BridgeError::Config(s) => "Configuration error: ".to_owned().concat(s.as_str()),
        }
    }

    /// A Matrix error with a fixed text.
    pub fn matrix(s: &str) -> (e: BridgeError)
        ensures
            e@ == BridgeErrorView::Matrix(s@),
    {
        BridgeError::Matrix(s.to_owned())
    }
}

pub type Result<T> = std::result::Result<T, BridgeError>;

/// An error says its reason.
pub proof fn law_errors_say_their_reason(reason: Seq<char>)
    ensures
        reason.is_suffix_of(BridgeErrorView::Http(reason).sentence()),
        reason.is_suffix_of(BridgeErrorView::HttpClient(reason).sentence()),
        reason.is_suffix_of(BridgeErrorView::Database(reason).sentence()),
        reason.is_suffix_of(BridgeErrorView::Discord(reason).sentence()),
        reason.is_suffix_of(BridgeErrorView::Json(reason).sentence()),
        reason.is_suffix_of(BridgeErrorView::Matrix(reason).sentence()),
        reason.is_suffix_of(BridgeErrorView::Config(reason).sentence()),
{
    lemma_ends_with("HTTP error: "@, reason);
    lemma_ends_with("HTTP client error: "@, reason);
    lemma_ends_with("Database error: "@, reason);
    lemma_ends_with("Discord error: "@, reason);
    lemma_ends_with("JSON error: "@, reason);
    lemma_ends_with("Matrix error: "@, reason);
    lemma_ends_with("Configuration error: "@, reason);
}

proof fn lemma_ends_with(start: Seq<char>, reason: Seq<char>)
    ensures
        reason.is_suffix_of(start + reason),
{
    let all = start + reason;
    assert(all.subrange(all.len() - reason.len(), all.len() as int) =~= reason);
}

} // verus!
