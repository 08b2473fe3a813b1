use memstrap::{CsvOutput, FoundString, StringExtractor};

#[test]
fn test_end_to_end_extraction() {
    let test_data = b"Hello World! This is a test file with various strings.\nEmail: test@example.com\nPassword: secret123\nPath: C:\\Windows\\System32";

    let extractor = StringExtractor::new(
        4,
        vec![
            memstrap::config::EncodingType::Ascii,
            memstrap::config::EncodingType::Utf8,
        ],
        None,
        false,
        None,
    )
    .unwrap();

    let file_content = test_data.to_vec();
    let results = extractor.extract_strings(&file_content, 0);

    assert!(!results.is_empty());
    assert!(results.iter().any(|s| s.content.contains("Hello World!")));
    assert!(results.iter().any(|s| s.content.contains("test@example.com")));
    assert!(results.iter().any(|s| s.content.contains("secret123")));
}

#[test]
fn test_csv_output() {
    let found_strings = vec![
        FoundString {
            offset: 0,
            content: "Hello World".to_string(),
            encoding: memstrap::Encoding::Utf8,
            byte_length: 11,
            context_before: None,
            context_after: None,
        },
        FoundString {
            offset: 20,
            content: "Test String".to_string(),
            encoding: memstrap::Encoding::Ascii,
            byte_length: 11,
            context_before: None,
            context_after: None,
        },
    ];

    let rows = CsvOutput::rows(&found_strings, "test.txt");
    let lines: Vec<String> = rows.iter().map(|row| row.join(",")).collect();
    let csv_content = lines.join("\n");

    assert!(csv_content.contains("FilePath,Offset(Hex),Offset(Dec),Encoding,Length,Content"));
    assert!(csv_content.contains("Hello World"));
    assert!(csv_content.contains("Test String"));
    assert!(csv_content.contains("0x0"));
    assert!(csv_content.contains("0x14"));
}

#[test]
fn test_search_filtering() {
    let test_data =
        b"Hello World! Email: user@domain.com. Password: secret123. Another string.";

    let extractor = StringExtractor::new(
        4,
        vec![memstrap::config::EncodingType::Ascii],
        Some("Email".to_string()),
        false,
        None,
    )
    .unwrap();

    let results = extractor.extract_strings(test_data, 0);
    assert!(!results.is_empty());
    assert!(results.iter().all(|s| s.content.contains("Email")));

    let extractor = StringExtractor::new(
        4,
        vec![memstrap::config::EncodingType::Ascii],
        Some(r"\w+@\w+\.\w+".to_string()),
        true,
        None,
    )
    .unwrap();

    let results = extractor.extract_strings(test_data, 0);
    assert!(!results.is_empty());
    assert!(results.iter().any(|s| s.content.contains("user@domain.com")));
}

#[test]
fn test_utf16_extraction() {
    let utf16le_data = b"H\x00e\x00l\x00l\x00o\x00 \x00W\x00o\x00r\x00l\x00d\x00\x00\x00";

    let extractor = StringExtractor::new(
        4,
        vec![memstrap::config::EncodingType::Utf16Le],
        None,
        false,
        None,
    )
    .unwrap();

    let results = extractor.extract_strings(utf16le_data, 0);
    assert!(!results.is_empty());
    assert!(results.iter().any(|s| s.content.contains("Hello World")));
    assert!(results.iter().any(|s| s.encoding == memstrap::Encoding::Utf16Le));
}

#[test]
fn test_minimum_length_filtering() {
    let test_data = b"Hi! This is a much longer string that should be found.";

    let extractor = StringExtractor::new(
        20,
        vec![memstrap::config::EncodingType::Ascii],
        None,
        false,
        None,
    )
    .unwrap();

    let results = extractor.extract_strings(test_data, 0);

    assert!(results.iter().all(|s| s.byte_length >= 20));
    assert!(!results.iter().any(|s| s.content == "Hi!"));
}
