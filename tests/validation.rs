use kaku::validate::{validate_content, validate_tags, validate_uid, MAX_CONTENT_SIZE};

#[test]
fn test_validate_uid_valid() {
    assert!(validate_uid("2026011418102637208").is_ok());
    assert!(validate_uid("20260114181236685512").is_ok());
    assert!(validate_uid("20260114181026").is_ok());
}

#[test]
fn test_validate_uid_too_short() {
    assert!(validate_uid("1234567890123").is_err());
    assert!(validate_uid("").is_err());
}

#[test]
fn test_validate_uid_too_long() {
    let long_uid = "1".repeat(27);
    assert!(validate_uid(&long_uid).is_err());
    let max_uid = "1".repeat(26);
    assert!(validate_uid(&max_uid).is_ok());
}

#[test]
fn test_validate_uid_invalid_chars() {
    assert!(validate_uid("2026011418102a").is_err());
    assert!(validate_uid("20260114181026/").is_err());
    assert!(validate_uid("20260114181026.").is_err());
}

#[test]
fn test_validate_content_valid() {
    assert!(validate_content("Hello, World!").is_ok());
    assert!(validate_content("").is_ok());
    assert!(validate_content(&"a".repeat(1000)).is_ok());
}

#[test]
fn test_validate_content_too_large() {
    let large_content = "a".repeat(MAX_CONTENT_SIZE + 1);
    assert!(validate_content(&large_content).is_err());
}

#[test]
fn validate_content_at_limit() {
    assert!(validate_content(&"a".repeat(MAX_CONTENT_SIZE)).is_ok());
}

#[test]
fn validate_tags_limits() {
    let ok: Vec<String> = (0..50).map(|i| format!("t{}", i)).collect();
    assert!(validate_tags(&ok).is_ok());
    let too_many: Vec<String> = (0..51).map(|i| format!("t{}", i)).collect();
    assert!(validate_tags(&too_many).is_err());
    assert!(validate_tags(&["".to_string()]).is_err());
    assert!(validate_tags(&["a".repeat(100)]).is_ok());
    assert!(validate_tags(&["a".repeat(101)]).is_err());
    assert!(validate_tags(&[]).is_ok());
}
