//! Plain data carried between the engine and its callers.
//!
//! These are the values the surrounding application exchanges with the
//! engine: documents, workspaces, provider descriptions, chat messages and
//! the request/response shapes of the user-facing commands. They hold plain
//! values only; any wire-format concerns live outside the engine.

use vstd::prelude::*;

verus! {

/// A document known to the application.
#[derive(Debug, Clone)]
pub struct Document {
    pub id: String,
    pub name: String,
    pub file_path: String,
    pub file_type: String,
    pub file_size: u64,
    pub status: String,
    pub created_at: String,
}

/// Request to register a batch of files.
#[derive(Debug)]
pub struct AddDocumentsRequest {
    pub space_id: String,
    pub file_paths: Vec<String>,
}

/// Outcome of registering a batch of files.
#[derive(Debug)]
pub struct AddDocumentsResponse {
    pub documents: Vec<Document>,
    pub errors: Vec<String>,
}

/// Extracted text of a document, for display.
#[derive(Debug)]
pub struct DocumentContent {
    pub id: String,
    pub name: String,
    pub content: String,
}

/// One message of a chat transcript.
#[derive(Debug, Clone)]
pub struct ChatMessage {
    pub role: String,
    pub content: String,
}

/// One event of a streamed chat answer.
pub enum StreamEvent {
    Token(String),
    Done(Vec<Source>),
    Error(String),
}

/// A grounding source cited by an answer.
#[derive(Debug, Clone)]
pub struct Source {
    pub document_id: String,
    pub page: u32,
    pub text: String,
}

/// Request to send a chat message.
#[derive(Debug)]
pub struct SendMessageRequest {
    pub provider: String,
    pub model: String,
    pub api_key: String,
    pub messages: Vec<ChatMessage>,
    pub context: Option<String>,
    pub stream_id: String,
}

/// Acknowledgement of a chat request.
#[derive(Debug)]
pub struct SendMessageResponse {
    pub stream_id: String,
}

/// A chat or embedding provider offered to the user.
#[derive(Debug)]
pub struct Provider {
    pub id: String,
    pub name: String,
    pub models: Vec<String>,
    pub is_connected: bool,
}

/// Request to validate an API key.
#[derive(Debug)]
pub struct TestApiKeyRequest {
    pub provider: String,
    pub api_key: String,
    pub base_url: Option<String>,
}

/// Outcome of validating an API key.
#[derive(Debug)]
pub struct TestApiKeyResponse {
    pub valid: bool,
    pub error: Option<String>,
    pub models: Option<Vec<String>>,
}

/// Request to store an API key.
#[derive(Debug)]
pub struct SaveApiKeyRequest {
    pub provider: String,
    pub api_key: String,
}

/// A workspace ("space") grouping documents and conversations.
#[derive(Debug, Clone)]
pub struct Space {
    pub id: String,
    pub name: String,
    pub description: Option<String>,
    pub icon: String,
    pub color: String,
    pub document_count: u32,
    pub created_at: String,
    pub updated_at: String,
}

/// Request to create a workspace.
#[derive(Debug)]
pub struct CreateSpaceRequest {
    pub name: String,
    pub description: Option<String>,
    pub icon: Option<String>,
    pub color: Option<String>,
}

} // verus!
