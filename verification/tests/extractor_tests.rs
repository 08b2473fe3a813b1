use memstrap::config::EncodingType;
use memstrap::{Encoding, StringExtractor};

#[test]
fn test_ascii_extraction() {
    let extractor = StringExtractor::new(4, vec![EncodingType::Ascii], None, false, None).unwrap();

    let data = b"Hello World! This is a test.";
    let results = extractor.extract_strings(data, 0);

    assert!(!results.is_empty());
    assert!(results.iter().any(|s| s.content.contains("Hello World!")));
    assert!(results.iter().any(|s| s.content.contains("This is a test.")));
}

#[test]
fn test_utf8_extraction() {
    let extractor = StringExtractor::new(4, vec![EncodingType::Utf8], None, false, None).unwrap();

    let data = "Hello 世界! Test string.".as_bytes();
    let results = extractor.extract_strings(data, 0);

    assert!(!results.is_empty());
    assert!(results.iter().any(|s| s.content.contains("Hello 世界!")));
}

#[test]
fn test_utf16le_extraction() {
    let extractor =
        StringExtractor::new(4, vec![EncodingType::Utf16Le], None, false, None).unwrap();

    let data = b"H\x00e\x00l\x00l\x00o\x00\x00\x00";
    let results = extractor.extract_strings(data, 0);

    assert!(!results.is_empty());
    assert!(results.iter().any(|s| s.content == "Hello"));
    assert!(results.iter().any(|s| s.encoding == Encoding::Utf16Le));
}

#[test]
fn test_gbk_extraction() {
    let extractor = StringExtractor::new(4, vec![EncodingType::Gbk], None, false, None).unwrap();

    let gbk_data = &[0xC4, 0xE3, 0xBA, 0xC3, 0xCA, 0xC0, 0xBD, 0xE7];
    let results = extractor.extract_strings(gbk_data, 0);

    assert!(!results.is_empty());
    assert!(results.iter().any(|s| s.content.contains("你好世界")));
    assert!(results.iter().any(|s| s.encoding == Encoding::Gbk));
}

#[test]
fn test_search_functionality() {
    let extractor = StringExtractor::new(
        4,
        vec![EncodingType::Ascii],
        Some("test".to_string()),
        false,
        None,
    )
    .unwrap();

    let data = b"Hello World! This is a test. Another string.";
    let results = extractor.extract_strings(data, 0);

    assert!(!results.is_empty());
    assert!(results.iter().all(|s| s.content.contains("test")));
}

#[test]
fn test_regex_search() {
    let extractor = StringExtractor::new(
        4,
        vec![EncodingType::Ascii],
        Some(r"\d+".to_string()),
        true,
        None,
    )
    .unwrap();

    let data = b"String with number 123 and another 456.";
    let results = extractor.extract_strings(data, 0);

    assert!(!results.is_empty());
    assert!(results
        .iter()
        .all(|s| s.content.chars().any(|c| c.is_ascii_digit())));
}

#[test]
fn test_minimum_length_filter() {
    let extractor = StringExtractor::new(10, vec![EncodingType::Ascii], None, false, None).unwrap();

    let data = b"Hi! This is a longer string that should be found.";
    let results = extractor.extract_strings(data, 0);

    assert!(results.iter().all(|s| s.byte_length >= 10));
}

#[test]
fn test_offset_calculation() {
    let extractor = StringExtractor::new(4, vec![EncodingType::Ascii], None, false, None).unwrap();

    let data = b"Start Hello World End";
    let base_offset = 100;
    let results = extractor.extract_strings(data, base_offset);

    assert!(results.iter().any(|s| s.offset >= base_offset));
    assert!(results.iter().any(|s| s.content.contains("Hello World")));
}
