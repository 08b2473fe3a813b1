use memstrap::config::EncodingType;
use memstrap::digits::{decimal_string, push_decimal, push_decimal_digits, push_hex_digits_upper};
use memstrap::{CsvOutput, Encoding, FoundString};

fn text(chars: &[char]) -> String {
    chars.iter().collect()
}

#[test]
fn header_names_the_eight_fields() {
    assert_eq!(
        CsvOutput::header(),
        vec![
            "FilePath",
            "Offset(Hex)",
            "Offset(Dec)",
            "Encoding",
            "Length",
            "Content",
            "ContextBefore",
            "ContextAfter",
        ]
    );
}

#[test]
fn record_holds_the_reported_fields() {
    let found = FoundString {
        offset: 20,
        content: "Test String".to_string(),
        encoding: Encoding::Ascii,
        byte_length: 11,
        context_before: Some(vec![0xDE, 0xAD, 0x00, 0x0F]),
        context_after: None,
    };
    assert_eq!(
        CsvOutput::record(&found, "test.txt"),
        vec!["test.txt", "0x14", "20", "ASCII", "11", "Test String", "dead000f", ""]
    );
    let found = FoundString {
        offset: u64::MAX,
        content: "a,\"b\"\n".to_string(),
        encoding: Encoding::Utf16Be,
        byte_length: 0,
        context_before: None,
        context_after: Some(vec![0xFF]),
    };
    assert_eq!(
        CsvOutput::record(&found, ""),
        vec![
            "",
            "0xFFFFFFFFFFFFFFFF",
            "18446744073709551615",
            "UTF-16BE",
            "0",
            "a,\"b\"\n",
            "",
            "ff",
        ]
    );
}

#[test]
fn rows_are_the_header_and_the_records() {
    let found_strings = vec![
        FoundString {
            offset: 0,
            content: "Hello World".to_string(),
            encoding: Encoding::Utf8,
            byte_length: 11,
            context_before: None,
            context_after: None,
        },
        FoundString {
            offset: 20,
            content: "Test String".to_string(),
            encoding: Encoding::Ascii,
            byte_length: 11,
            context_before: None,
            context_after: None,
        },
    ];
    let rows = CsvOutput::rows(&found_strings, "test.txt");
    assert_eq!(rows.len(), 3);
    assert_eq!(rows[0], CsvOutput::header());
    assert_eq!(rows[0][..6].join(","), "FilePath,Offset(Hex),Offset(Dec),Encoding,Length,Content");
    assert_eq!(rows[1], vec!["test.txt", "0x0", "0", "UTF-8", "11", "Hello World", "", ""]);
    assert_eq!(rows[2], vec!["test.txt", "0x14", "20", "ASCII", "11", "Test String", "", ""]);
    assert_eq!(CsvOutput::rows(&[], "x").len(), 1);
}

#[test]
fn encodings_have_their_names() {
    assert_eq!(Encoding::Ascii.to_string(), "ASCII");
    assert_eq!(Encoding::Utf8.to_string(), "UTF-8");
    assert_eq!(Encoding::Utf16Le.to_string(), "UTF-16LE");
    assert_eq!(Encoding::Utf16Be.to_string(), "UTF-16BE");
    assert_eq!(Encoding::Gbk.to_string(), "GBK");
}

#[test]
fn encodings_come_from_their_types() {
    assert_eq!(Encoding::from(EncodingType::Ascii), Encoding::Ascii);
    assert_eq!(Encoding::from(EncodingType::Utf8), Encoding::Utf8);
    assert_eq!(Encoding::from(EncodingType::Utf16Le), Encoding::Utf16Le);
    assert_eq!(Encoding::from(EncodingType::Utf16Be), Encoding::Utf16Be);
    assert_eq!(Encoding::from(EncodingType::Gbk), Encoding::Gbk);
}

#[test]
fn numbers_are_written_without_leading_zeros() {
    for n in [0u64, 7, 9, 10, 99, 100, 12345, 4294967296, u64::MAX] {
        assert_eq!(decimal_string(n), n.to_string());
        let mut out = vec!['#'];
        push_decimal_digits(&mut out, n);
        assert_eq!(text(&out), format!("#{}", n));
        let mut out = vec!['0', 'x'];
        push_hex_digits_upper(&mut out, n);
        assert_eq!(text(&out), format!("0x{:X}", n));
    }
    for n in [0i32, 5, -5, 10, -10, i32::MAX, i32::MIN, -2147483647] {
        let mut out = Vec::new();
        push_decimal(&mut out, n);
        assert_eq!(text(&out), n.to_string());
    }
}
