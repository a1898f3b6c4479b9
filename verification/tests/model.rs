use drft::model::{namespace, validate_composed_metadata, validate_label, validate_raw_metadata, ValidationError};
use drft::nodes::normalize_namespace;

#[test]
fn validate_label_accepts_bare() {
    assert!(validate_label("fs").is_ok());
    assert!(validate_label("markdown").is_ok());
    assert!(validate_label("frontmatter").is_ok());
}

#[test]
fn validate_label_rejects_sigils_and_empty() {
    assert_eq!(validate_label(""), Err(ValidationError::EmptyLabel));
    assert!(matches!(
        validate_label("@fs"),
        Err(ValidationError::SigilInLabel(_))
    ));
    assert!(matches!(
        validate_label("_internal"),
        Err(ValidationError::SigilInLabel(_))
    ));
    // Interior underscore is allowed.
    assert!(validate_label("design_docs").is_ok());
}

#[test]
fn normalize_namespace_accepts_bare_and_prefixed() {
    assert_eq!(normalize_namespace("frontmatter"), "@frontmatter");
    assert_eq!(normalize_namespace("@fs"), "@fs");
}

#[test]
fn validate_raw_metadata_rejects_sigil_keys() {
    assert!(validate_raw_metadata(&vec!["type".to_string()]).is_ok());
    assert!(matches!(
        validate_raw_metadata(&vec!["@fs".to_string()]),
        Err(ValidationError::SigilInRawKey(_))
    ));
    assert!(matches!(
        validate_raw_metadata(&vec!["_graphs".to_string()]),
        Err(ValidationError::SigilInRawKey(_))
    ));
}

#[test]
fn validate_composed_metadata_accepts_namespaces_and_provenance() {
    assert!(validate_composed_metadata(&vec!["@fs".to_string(), "_graphs".to_string()]).is_ok());
}

#[test]
fn validate_composed_metadata_rejects_bare_and_bad_namespace() {
    assert!(matches!(
        validate_composed_metadata(&vec!["type".to_string()]),
        Err(ValidationError::InvalidComposedKey(_))
    ));
    assert!(matches!(
        validate_composed_metadata(&vec!["@_internal".to_string()]),
        Err(ValidationError::InvalidNamespace(_))
    ));
}

#[test]
fn namespace_prefixes_the_label() {
    assert_eq!(namespace("fs"), "@fs");
}

#[test]
fn validation_messages_name_the_offender() {
    assert_eq!(ValidationError::EmptyLabel.message(), "graph label must not be empty");
    assert_eq!(
        validate_label("a@b").unwrap_err().message(),
        "graph label 'a@b' must not contain '@' or start with '_'"
    );
    assert_eq!(
        validate_composed_metadata(&vec!["@fs".to_string(), "@_x".to_string()]).unwrap_err(),
        ValidationError::InvalidNamespace("_x".to_string())
    );
    assert_eq!(
        validate_raw_metadata(&vec!["ok".to_string(), "_a".to_string(), "@b".to_string()]).unwrap_err(),
        ValidationError::SigilInRawKey("_a".to_string())
    );
}
