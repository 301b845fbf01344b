//! Engine configuration and the layout of its data directory.
//!
//! The engine never reads ambient state: the caller resolves the
//! platform-specific data directory and passes it in as a plain path string.
//! The similarity threshold is a fixed-point score in `SCORE_SCALE` units.

use vstd::prelude::*;

verus! {

/// User-facing configuration, passed in explicitly by the caller.
#[derive(Debug, Clone)]
pub struct AppConfig {
    pub theme: String,
    pub hotkey: String,
    pub default_provider: String,
    pub default_model: String,
    pub max_context_chunks: u32,
    pub show_token_count: bool,
    pub hybrid_search: bool,
    /// Fixed-point similarity cutoff, in `similarity::SCORE_SCALE` units.
    pub similarity_threshold: i64,
}

impl Default for AppConfig {
    /// The configuration used when none has been saved yet.
    fn default() -> (c: AppConfig)
        ensures
            c.theme@ == "dark"@,
            c.hotkey@ == "Alt+Space"@,
            c.default_provider@ == "gemini"@,
            c.default_model@ == "gemini-2.5-flash"@,
            c.max_context_chunks == 5u32,
            c.show_token_count == true,
            c.hybrid_search == false,
            c.similarity_threshold == 700_000i64,
    {
        AppConfig {
            theme: String::from_str("dark"),
            hotkey: String::from_str("Alt+Space"),
            default_provider: String::from_str("gemini"),
            default_model: String::from_str("gemini-2.5-flash"),
            max_context_chunks: 5,
            show_token_count: true,
            hybrid_search: false,
            similarity_threshold: 700_000,
        }
    }
}

/// Path of the configuration file under the given data directory.
pub fn get_config_path(data_dir: &str) -> (r: String)
    ensures
        r@ == data_dir@ + "/config.json"@,
{
    String::from_str(data_dir).concat("/config.json")
}

/// Path of the extracted-documents directory under the given data directory.
pub fn get_documents_dir(data_dir: &str) -> (r: String)
    ensures
        r@ == data_dir@ + "/documents"@,
{
    String::from_str(data_dir).concat("/documents")
}

/// Path of the database directory under the given data directory.
pub fn get_database_dir(data_dir: &str) -> (r: String)
    ensures
        r@ == data_dir@ + "/db"@,
{
    String::from_str(data_dir).concat("/db")
}

} // verus!
