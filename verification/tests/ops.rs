//! Runtime configuration and the retry policy for lock contention.

use idea_db::config::Config;
use idea_db::error::ApiError;
use idea_db::retry::{is_transient_lock_error, retry_delay};

fn env(pairs: &[(&str, &str)]) -> Vec<(String, String)> {
    pairs.iter().map(|(k, v)| (k.to_string(), v.to_string())).collect()
}

#[test]
fn defaults_apply_to_missing_or_blank_variables() {
    let c = Config::from_env(&env(&[("IDEA_DB_BIND", "  "), ("NEO4J_PASSWORD", "")]));
    assert_eq!(c.bind, "127.0.0.1:8080");
    assert_eq!(c.neo4j_uri, "http://127.0.0.1:7474");
    assert_eq!(c.neo4j_user, "neo4j");
    assert_eq!(c.neo4j_password, None);
    assert_eq!(c.neo4j_database, "neo4j");
    assert_eq!(c.token, None);
    assert_eq!(c.static_dir, "./static");
}

#[test]
fn set_variables_win_and_the_uri_loses_trailing_slashes() {
    let c = Config::from_env(&env(&[
        ("NEO4J_URI", "http://db:7474//"),
        ("IDEA_DB_TOKEN", "secret-token"),
        ("NEO4J_DATABASE", "ideas"),
    ]));
    assert_eq!(c.neo4j_uri, "http://db:7474");
    assert_eq!(c.token.as_deref(), Some("secret-token"));
    assert_eq!(c.neo4j_database, "ideas");
}

fn storage(message: &str) -> ApiError {
    ApiError::storage(message.to_string())
}

#[test]
fn lock_contention_is_retried_with_growing_pauses() {
    let deadlock = storage("Neo.TransientError.Transaction.DeadlockDetected: try again");
    assert!(is_transient_lock_error(&deadlock));
    assert_eq!(retry_delay(0, &deadlock), Some(20));
    assert_eq!(retry_delay(1, &deadlock), Some(50));
    assert_eq!(retry_delay(2, &deadlock), Some(100));
}

#[test]
fn domain_and_generic_storage_errors_are_final() {
    assert!(!is_transient_lock_error(&storage("connection refused")));
    assert!(!is_transient_lock_error(&ApiError::validation(vec![idea_db::error::Issue::new(
        "x".to_string(),
        "invalid_field",
        "bad".to_string()
    )])));
    assert!(!is_transient_lock_error(&ApiError::head_conflict(idea_db::json::Json::Null)));
    assert!(!is_transient_lock_error(&ApiError::bad_request(
        "Neo.TransientError.Transaction.DeadlockDetected".to_string()
    )));
    assert_eq!(retry_delay(0, &storage("Neo.ClientError.Schema.ConstraintValidationFailed")), None);
}

#[test]
fn a_fourth_retry_is_never_scheduled() {
    let timeout = storage("Neo.TransientError.Transaction.LockAcquisitionTimeout");
    assert_eq!(retry_delay(3, &timeout), None);
}
