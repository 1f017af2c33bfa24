use prism_indexer::error::decimal;
use prism_indexer::PrismError;

#[test]
fn messages_of_the_errors() {
    assert_eq!(
        PrismError::UnsupportedLanguage("ruby".to_string()).message(),
        "Unsupported language: ruby"
    );
    assert_eq!(
        PrismError::ParseError("Failed to parse code".to_string()).message(),
        "Parse error: Failed to parse code"
    );
    assert_eq!(PrismError::IoError("disk full".to_string()).message(), "IO error: disk full");
    assert_eq!(
        PrismError::ChunkTooLarge { actual: 1200, max: 1000 }.message(),
        "Chunk size exceeded: 1200 > 1000"
    );
}

#[test]
fn numbers_in_base_ten() {
    assert_eq!(decimal(0), "0");
    assert_eq!(decimal(7), "7");
    assert_eq!(decimal(10), "10");
    assert_eq!(decimal(1234567890), "1234567890");
    assert_eq!(decimal(usize::MAX), usize::MAX.to_string());
}
