use antlr4_rust::{TokenType, VocabularyImpl, INT_STREAM_EOF};

fn names(v: &[Option<&str>]) -> Vec<Option<String>> {
    v.iter().map(|o| o.map(|s| s.to_string())).collect()
}

#[test]
fn token_type_values() {
    assert_eq!(TokenType::EOF.value(), -1);
    assert_eq!(TokenType::EOF.value(), INT_STREAM_EOF);
    assert_eq!(TokenType::Epsilon.value(), -2);
    assert_eq!(TokenType::MinUserTokenType.value(), 1);
    assert_eq!(TokenType::InvalidType.value(), 123);
}

#[test]
fn vocabulary_from_token_names() {
    let v = VocabularyImpl::from_token_names(names(&[None, Some("'+'"), Some("ID"), Some("expr"), Some("Éclair")]));
    assert_eq!(v.get_max_token_type(), 4);
    assert_eq!(v.get_literal_name(1), Some("'+'".to_string()));
    assert_eq!(v.get_symbolic_name(1), None);
    assert_eq!(v.get_literal_name(2), None);
    assert_eq!(v.get_symbolic_name(2), Some("ID".to_string()));
    assert_eq!(v.get_literal_name(3), None);
    assert_eq!(v.get_symbolic_name(3), None);
    assert_eq!(v.get_symbolic_name(4), Some("Éclair".to_string()));
    assert_eq!(v.get_display_name(3), Some("expr".to_string()));
    assert_eq!(v.get_display_name(0), None);
    assert_eq!(v.get_literal_name(9), None);
    assert_eq!(v.get_literal_name(-5), None);
}

#[test]
fn vocabulary_eof_and_fallbacks() {
    let v = VocabularyImpl::new(
        names(&[None, Some("'a'")]),
        names(&[None, Some("A"), Some("B")]),
        names(&[None, None]),
    );
    assert_eq!(v.get_max_token_type(), 2);
    assert_eq!(v.get_symbolic_name(-1), Some("EOF".to_string()));
    assert_eq!(v.get_display_name(-1), Some("EOF".to_string()));
    assert_eq!(v.get_display_name(1), Some("'a'".to_string()));
    assert_eq!(v.get_display_name(2), Some("B".to_string()));
    assert_eq!(v.get_display_name(7), None);
    let empty = VocabularyImpl::from_token_names(Vec::new());
    assert_eq!(empty.get_max_token_type(), -1);
}
