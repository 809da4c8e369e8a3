use rlox::source::Source;

#[test]
fn test_source_advancement() {
    let mut src = Source::new("abcd");

    assert_eq!(src.current_str(), "");
    assert!(!src.is_at_end());

    src.advance();
    assert!(!src.is_at_end());
    assert_eq!(src.peek(), b'b');
    assert_eq!(src.peek_next(), b'c');
    assert_eq!(src.current_str(), "a");

    src.advance();
    assert!(!src.is_at_end());
    assert_eq!(src.current_str(), "ab");

    src.reset();
    assert!(!src.is_at_end());
    assert_eq!(src.current_str(), "");
    assert_eq!(src.peek(), b'c');
    assert_eq!(src.peek_next(), b'd');

    src.advance();
    assert!(!src.is_at_end());
    assert_eq!(src.current_str(), "c");
    assert_eq!(src.peek(), b'd');
    assert_eq!(src.peek_next(), 0);

    src.advance();
    assert!(src.is_at_end());
    assert_eq!(src.current_str(), "cd");
    assert_eq!(src.peek(), 0);
    assert_eq!(src.peek_next(), 0);
}

#[test]
fn test_match_char() {
    let mut source = Source::new("12.5");

    assert_eq!(source.current_str(), "");
    assert!(!source.match_char(b'5'));
    assert_eq!(source.current_str(), "");

    assert!(source.match_char(b'1'));
    assert_eq!(source.current_str(), "1");

    source.advance();
    source.advance();
    source.advance();

    assert!(source.is_at_end());
    assert!(!source.match_char(b'6'));
}
