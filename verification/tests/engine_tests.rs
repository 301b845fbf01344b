use omnirecall::codec::{format_score, lower_code_of, u64_to_string};
use omnirecall::config::{get_config_path, get_database_dir, get_documents_dir, AppConfig};
use omnirecall::errors::{AppError, EmbeddingError};
use omnirecall::html::strip_html_tags;

#[test]
fn decimal_rendering_exact() {
    assert_eq!(u64_to_string(0), "0");
    assert_eq!(u64_to_string(7), "7");
    assert_eq!(u64_to_string(10), "10");
    assert_eq!(u64_to_string(994475), "994475");
    assert_eq!(u64_to_string(18_446_744_073_709_551_615), "18446744073709551615");
}

#[test]
fn score_rendering_exact() {
    assert_eq!(format_score(1_000_000), "1.000000");
    assert_eq!(format_score(994_475), "0.994475");
    assert_eq!(format_score(0), "0.000000");
    assert_eq!(format_score(-500_000), "-0.500000");
    assert_eq!(format_score(-1_000_000), "-1.000000");
    assert_eq!(format_score(42), "0.000042");
}

#[test]
fn ascii_lowercase_codes() {
    assert_eq!(lower_code_of('A'), 'a' as u32);
    assert_eq!(lower_code_of('Z'), 'z' as u32);
    assert_eq!(lower_code_of('a'), 'a' as u32);
    assert_eq!(lower_code_of('<'), '<' as u32);
}

#[test]
fn strip_html_removes_tags_and_scripts() {
    let html = "<html><head><STYLE>p { color: red }</STYLE><script>var x = 1;</script></head><body><p>Hello</p>\n<br/> <b>world</b></body></html>";
    assert_eq!(strip_html_tags(html), "Hello\nworld");
}

#[test]
fn strip_html_keeps_plain_text() {
    assert_eq!(strip_html_tags("just text"), "just text");
    assert_eq!(strip_html_tags("  spaced  \n\n lines \n"), "spaced\nlines");
    assert_eq!(strip_html_tags(""), "");
}

#[test]
fn error_messages() {
    assert_eq!(AppError::Network("down".to_string()).message(), "Network error: down");
    assert_eq!(AppError::Api("500".to_string()).message(), "API error: 500");
    assert_eq!(AppError::InvalidApiKey.message(), "Invalid API key");
    assert_eq!(AppError::RateLimited.message(), "Rate limited");
    assert_eq!(AppError::File("gone".to_string()).message(), "File error: gone");
    assert_eq!(AppError::Database("locked".to_string()).message(), "Database error: locked");
    assert_eq!(AppError::Config("bad".to_string()).message(), "Configuration error: bad");
    assert_eq!(AppError::Unknown("?".to_string()).message(), "Unknown error: ?");
}

#[test]
fn embedding_error_messages() {
    assert_eq!(EmbeddingError::RateLimited.message(), "Rate limited");
    assert_eq!(EmbeddingError::InvalidKey.message(), "Invalid API key");
    assert_eq!(
        EmbeddingError::NetworkError("down".to_string()).message(),
        "Network error: down"
    );
    assert_eq!(EmbeddingError::BadResponse("junk".to_string()).message(), "Bad response: junk");
}

#[test]
fn config_defaults_and_paths() {
    let c = AppConfig::default();
    assert_eq!(c.theme, "dark");
    assert_eq!(c.default_provider, "gemini");
    assert_eq!(c.max_context_chunks, 5);
    assert_eq!(c.similarity_threshold, 700_000);
    assert_eq!(get_config_path("/data"), "/data/config.json");
    assert_eq!(get_documents_dir("/data"), "/data/documents");
    assert_eq!(get_database_dir("/data"), "/data/db");
}
