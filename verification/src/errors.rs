//! Error taxonomy of the engine.
//!
//! Per-chunk embedding failures are absorbed by the indexer (the chunk is
//! skipped); database failures are fatal for the operation in progress;
//! a failed query embedding is a hard failure of retrieval.

use vstd::prelude::*;

verus! {

/// Application-level error, one variant per failure family.
#[derive(Debug, Clone, PartialEq, Eq)]
pub enum AppError {
    Network(String),
    Api(String),
    InvalidApiKey,
    RateLimited,
    File(String),
    Database(String),
    Config(String),
    Unknown(String),
}

impl AppError {
    /// Human-readable message for this error.
    pub fn message(&self) -> (r: String)
        ensures
            match self {
                AppError::Network(m) => r@ == "Network error: "@ + m@,
                AppError::Api(m) => r@ == "API error: "@ + m@,
                AppError::InvalidApiKey => r@ == "Invalid API key"@,
                AppError::RateLimited => r@ == "Rate limited"@,
                AppError::File(m) => r@ == "File error: "@ + m@,
                AppError::Database(m) => r@ == "Database error: "@ + m@,
                AppError::Config(m) => r@ == "Configuration error: "@ + m@,
                AppError::Unknown(m) => r@ == "Unknown error: "@ + m@,
            },
    {
        match self {
            AppError::Network(m) => String::from_str("Network error: ").concat(m.as_str()),
            AppError::Api(m) => String::from_str("API error: ").concat(m.as_str()),
            AppError::InvalidApiKey => String::from_str("Invalid API key"),
            AppError::RateLimited => String::from_str("Rate limited"),
            AppError::File(m) => String::from_str("File error: ").concat(m.as_str()),
            AppError::Database(m) => String::from_str("Database error: ").concat(m.as_str()),
            AppError::Config(m) => String::from_str("Configuration error: ").concat(m.as_str()),
            AppError::Unknown(m) => String::from_str("Unknown error: ").concat(m.as_str()),
        }
    }
}

/// Failure of one embedding call, per the embedding-provider contract.
#[derive(Debug, Clone, PartialEq, Eq)]
pub enum EmbeddingError {
    RateLimited,
    InvalidKey,
    NetworkError(String),
    BadResponse(String),
}

impl EmbeddingError {
    /// Human-readable message for this error.
    pub fn message(&self) -> (r: String)
        ensures
            match self {
                EmbeddingError::RateLimited => r@ == "Rate limited"@,
                EmbeddingError::InvalidKey => r@ == "Invalid API key"@,
                EmbeddingError::NetworkError(m) => r@ == "Network error: "@ + m@,
                EmbeddingError::BadResponse(m) => r@ == "Bad response: "@ + m@,
            },
    {
        match self {
            EmbeddingError::RateLimited => String::from_str("Rate limited"),
            EmbeddingError::InvalidKey => String::from_str("Invalid API key"),
            EmbeddingError::NetworkError(m) => String::from_str("Network error: ").concat(
                m.as_str(),
            ),
            EmbeddingError::BadResponse(m) => String::from_str("Bad response: ").concat(m.as_str()),
        }
    }
}

} // verus!
