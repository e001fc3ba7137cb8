use minicache::validate::{validate_embedding, validate_non_empty};

#[test]
fn non_empty_text_passes() {
    assert_eq!(validate_non_empty("query", "hello"), Ok(()));
    assert_eq!(validate_non_empty("query", "  x  "), Ok(()));
}

#[test]
fn empty_text_is_rejected_with_field_name() {
    assert_eq!(
        validate_non_empty("query", ""),
        Err("query must not be empty".to_string())
    );
    assert_eq!(
        validate_non_empty("response", ""),
        Err("response must not be empty".to_string())
    );
}

#[test]
fn white_space_only_text_is_rejected() {
    assert!(validate_non_empty("query", "   ").is_err());
    assert!(validate_non_empty("query", "\t\n\r").is_err());
    assert!(validate_non_empty("query", "\u{3000}\u{a0}").is_err());
    assert_eq!(validate_non_empty("query", "\u{200b}"), Ok(()));
}

#[test]
fn empty_embedding_is_rejected() {
    let empty: Vec<f32> = vec![];
    assert_eq!(
        validate_embedding(&empty),
        Err("embedding must not be empty".to_string())
    );
    assert_eq!(validate_embedding(&[1.0f32, 0.0]), Ok(()));
}
