use idea_db::access::{authorize, require_json, to_ascii_lowercase, trim_text};

#[test]
fn browser_simple_media_types_are_refused() {
    for content_type in [
        "text/plain;charset=UTF-8",
        "application/x-www-form-urlencoded",
        "multipart/form-data; boundary=x",
    ] {
        let err = require_json(content_type).unwrap_err();
        assert_eq!(err.status, 415);
        assert_eq!(err.code, "unsupported_media_type");
        assert_eq!(
            err.message,
            format!("this endpoint takes application/json; received '{content_type}'")
        );
    }
}

#[test]
fn a_missing_content_type_is_refused_and_named_none() {
    let err = require_json("").unwrap_err();
    assert_eq!(err.status, 415);
    assert_eq!(err.message, "this endpoint takes application/json; received '(none)'");
}

#[test]
fn json_media_types_pass_whatever_their_case_or_parameters() {
    for content_type in [
        "application/json",
        "application/json; charset=utf-8",
        "APPLICATION/JSON",
        "application/vnd.idea-db+json",
        "  application/json  ;q=1",
    ] {
        assert!(require_json(content_type).is_ok(), "{content_type}");
    }
    assert!(require_json("application/jsonx").is_err());
    assert!(require_json("json").is_err());
}

#[test]
fn without_a_configured_token_every_caller_is_admitted() {
    assert!(authorize(&None, "").is_ok());
    assert!(authorize(&None, "Bearer anything").is_ok());
}

#[test]
fn a_configured_token_must_be_presented_exactly() {
    let token = Some("s3cret".to_string());
    let missing = authorize(&token, "").unwrap_err();
    assert_eq!(missing.status, 401);
    assert_eq!(missing.code, "unauthorized");
    assert_eq!(authorize(&token, "Bearer nope").unwrap_err().status, 401);
    assert_eq!(authorize(&token, "s3cret").unwrap_err().status, 401);
    assert_eq!(authorize(&token, "bearer s3cret").unwrap_err().status, 401);
    assert_eq!(authorize(&token, "Bearer s3cret ").unwrap_err().status, 401);
    assert!(authorize(&token, "Bearer s3cret").is_ok());
}

#[test]
fn trimming_and_ascii_lowering_follow_std() {
    assert_eq!(trim_text("  a b \t"), "a b");
    assert_eq!(trim_text("   "), "");
    assert_eq!(to_ascii_lowercase("AbC-Ä"), "abc-Ä");
}
