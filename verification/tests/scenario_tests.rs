use memstrap::chunk::{plan_chunks, ChunkSpec, MIN_CHUNK_SIZE, OVERLAP_SIZE};
use memstrap::config::EncodingType;
use memstrap::merge::{merge_results, MergeKey};
use memstrap::{Encoding, FoundString, StringExtractor};

fn extractor(min_len: usize, encodings: Vec<EncodingType>) -> StringExtractor {
    StringExtractor::new(min_len, encodings, None, false, None).unwrap()
}

fn same(a: &FoundString, b: &FoundString) -> bool {
    a.offset == b.offset
        && a.content == b.content
        && a.encoding == b.encoding
        && a.byte_length == b.byte_length
        && a.context_before == b.context_before
        && a.context_after == b.context_after
}

#[test]
fn scenario_plain_ascii_sentence() {
    let data = b"Hello World! This is a test.";
    let ex = extractor(4, vec![EncodingType::Ascii, EncodingType::Utf8]);
    let results = ex.extract_strings(data, 0);
    assert_eq!(results.len(), 1);
    assert_eq!(results[0].offset, 0);
    assert_eq!(results[0].content, "Hello World! This is a test.");
    assert_eq!(results[0].encoding, Encoding::Ascii);
    assert_eq!(results[0].byte_length, data.len());
    assert_eq!(results[0].byte_length, 28);
    assert!(results[0].context_before.is_none());
    assert!(results[0].context_after.is_none());
}

#[test]
fn scenario_utf16le_hello() {
    let data = b"H\x00e\x00l\x00l\x00o\x00\x00\x00";
    let ex = extractor(4, vec![EncodingType::Utf16Le]);
    let results = ex.extract_strings(data, 0);
    assert_eq!(results.len(), 1);
    assert_eq!(results[0].offset, 0);
    assert_eq!(results[0].content, "Hello");
    assert_eq!(results[0].encoding, Encoding::Utf16Le);
    assert_eq!(results[0].byte_length, 10);
}

#[test]
fn scenario_gbk_four_characters() {
    let data = [0xC4u8, 0xE3, 0xBA, 0xC3, 0xCA, 0xC0, 0xBD, 0xE7];
    let ex = extractor(4, vec![EncodingType::Gbk]);
    let results = ex.extract_strings(&data, 0);
    assert_eq!(results.len(), 1);
    assert_eq!(results[0].offset, 0);
    assert_eq!(results[0].content, "你好世界");
    assert_eq!(results[0].encoding, Encoding::Gbk);
    assert_eq!(results[0].byte_length, 8);
}

#[test]
fn scenario_short_strings_are_left_out() {
    let data = b"Hi! This is a longer string.";
    let ex = extractor(10, vec![EncodingType::Ascii, EncodingType::Utf8]);
    let results = ex.extract_strings(data, 0);
    assert!(!results.iter().any(|s| s.content == "Hi!"));
    assert!(results.iter().all(|s| s.byte_length >= 10));
    assert_eq!(results.len(), 1);
    assert_eq!(results[0].content, "Hi! This is a longer string.");

    let split = b"Hi!\x00This is a longer string.";
    let results = ex.extract_strings(split, 0);
    assert_eq!(results.len(), 1);
    assert_eq!(results[0].offset, 4);
    assert_eq!(results[0].content, "This is a longer string.");
    assert_eq!(results[0].byte_length, 24);
}

#[test]
fn scenario_string_in_the_overlap_survives_once() {
    let mut data = vec![0u8; 60];
    data[25..35].copy_from_slice(b"overlapped");
    let ex = extractor(4, vec![EncodingType::Ascii]);
    let first = ChunkSpec { start: 0, end: 40, base_offset: 0 };
    let second = ChunkSpec { start: 20, end: 60, base_offset: 20 };
    let mut all = ex.extract_chunk(&data, &first);
    assert_eq!(all.len(), 1);
    assert_eq!(all[0].offset, 25);
    let mut more = ex.extract_chunk(&data, &second);
    assert_eq!(more.len(), 1);
    assert_eq!(more[0].offset, 25);
    all.append(&mut more);
    assert_eq!(all.len(), 2);
    let merged = merge_results(all, MergeKey::Offset);
    assert_eq!(merged.len(), 1);
    assert_eq!(merged[0].offset, 25);
    assert_eq!(merged[0].content, "overlapped");
    assert_eq!(merged[0].byte_length, 10);
}

#[test]
fn scenario_planned_overlap_is_merged() {
    let len = 2 * MIN_CHUNK_SIZE;
    let mut data = vec![0u8; len];
    let inside = MIN_CHUNK_SIZE + 100;
    data[inside..inside + 11].copy_from_slice(b"in the gap!");
    data[10..18].copy_from_slice(b"at start");
    let across = MIN_CHUNK_SIZE - 3;
    data[across..across + 15].copy_from_slice(b"across the edge");
    let ex = extractor(4, vec![EncodingType::Ascii]);

    let chunks = plan_chunks(len, 2);
    assert_eq!(chunks.len(), 2);
    assert_eq!(chunks[0].end, MIN_CHUNK_SIZE + OVERLAP_SIZE);
    let unmerged = ex.scan_chunks(&data, &chunks);
    let at_inside = unmerged.iter().filter(|s| s.offset == inside as u64).count();
    assert_eq!(at_inside, 2);

    let merged = ex.scan(&data, 2, MergeKey::Offset);
    let offsets: Vec<u64> = merged.iter().map(|s| s.offset).collect();
    assert_eq!(offsets, vec![10, across as u64, MIN_CHUNK_SIZE as u64, inside as u64]);
    assert_eq!(merged[1].content, "across the edge");
    assert_eq!(merged[2].content, "oss the edge");
    assert_eq!(merged[3].content, "in the gap!");
}

#[test]
fn scan_of_a_short_input_is_one_extraction_merged() {
    let data = b"zeta\x00a\x00l\x00p\x00h\x00a\x00\x00\x00beta";
    let ex = extractor(4, vec![EncodingType::Utf16Le, EncodingType::Ascii]);
    let direct = merge_results(ex.extract_strings(data, 0), MergeKey::Offset);
    for threads in [0usize, 1, 8] {
        let scanned = ex.scan(data, threads, MergeKey::Offset);
        assert_eq!(scanned.len(), direct.len());
        assert!(scanned.iter().zip(direct.iter()).all(|(a, b)| same(a, b)));
    }
    let offsets: Vec<(u64, Encoding)> = direct.iter().map(|s| (s.offset, s.encoding)).collect();
    assert_eq!(
        offsets,
        vec![(0, Encoding::Ascii), (3, Encoding::Utf16Le), (17, Encoding::Ascii)]
    );
    assert_eq!(direct[1].content, "aalpha");
}

#[test]
fn scenario_plain_filter_keeps_only_matching_runs() {
    let data = b"first run\x00a test here\x00nothing\x00more testing\x00";
    let ex = StringExtractor::new(
        4,
        vec![EncodingType::Ascii],
        Some("test".to_string()),
        false,
        None,
    )
    .unwrap();
    let results = ex.extract_strings(data, 0);
    assert_eq!(results.len(), 2);
    assert!(results.iter().all(|s| s.content.contains("test")));
    assert_eq!(results[0].content, "a test here");
    assert_eq!(results[0].offset, 10);
    assert_eq!(results[1].content, "more testing");
    assert_eq!(results[1].offset, 30);
}

#[test]
fn extraction_twice_gives_the_same() {
    let data = b"abcd\x00\xC4\xE3\xBA\xC3 mixed \xE4\xB8\x96\xE7\x95\x8C\x00H\x00i\x00!\x00?\x00\x00\x00\x00T\x00e\x00s\x00t";
    let ex = StringExtractor::new(
        2,
        vec![
            EncodingType::Ascii,
            EncodingType::Utf16Le,
            EncodingType::Utf16Be,
            EncodingType::Gbk,
        ],
        None,
        false,
        Some(3),
    )
    .unwrap();
    let first = ex.extract_strings(data, 7);
    let second = ex.extract_strings(data, 7);
    assert!(!first.is_empty());
    assert_eq!(first.len(), second.len());
    assert!(first.iter().zip(second.iter()).all(|(a, b)| same(a, b)));
}

#[test]
fn byte_length_counts_source_bytes() {
    let ex = extractor(2, vec![EncodingType::Utf16Le]);
    let results = ex.extract_strings(b"a\x00b\x00c\x00\x00\x00", 0);
    assert_eq!(results.len(), 1);
    assert_eq!(results[0].content, "abc");
    assert_eq!(results[0].byte_length, 6);

    let ex = extractor(2, vec![EncodingType::Utf8]);
    let data = "ab 世界".as_bytes();
    let results = ex.extract_strings(data, 0);
    assert_eq!(results.len(), 1);
    assert_eq!(results[0].encoding, Encoding::Utf8);
    assert_eq!(results[0].content, "ab 世界");
    assert_eq!(results[0].byte_length, 9);

    let ex = extractor(2, vec![EncodingType::Gbk]);
    let data = [0xC4u8, 0xE3, 0x7F, 0xBA, 0xC3, 0x00];
    let results = ex.extract_strings(&data, 0);
    assert_eq!(results.len(), 1);
    assert_eq!(results[0].content, "你好");
    assert_eq!(results[0].byte_length, 5);
}

#[test]
fn merge_keeps_distinct_offsets_with_equal_content() {
    let make = |offset: u64, content: &str, encoding: Encoding| FoundString {
        offset,
        content: content.to_string(),
        encoding,
        byte_length: content.len(),
        context_before: None,
        context_after: None,
    };
    let input = vec![
        make(30, "same", Encoding::Ascii),
        make(10, "same", Encoding::Ascii),
        make(30, "later", Encoding::Gbk),
        make(20, "same", Encoding::Ascii),
        make(10, "dup", Encoding::Utf8),
    ];
    let merged = merge_results(input, MergeKey::Offset);
    let seen: Vec<(u64, String)> = merged.iter().map(|s| (s.offset, s.content.clone())).collect();
    assert_eq!(
        seen,
        vec![
            (10, "same".to_string()),
            (20, "same".to_string()),
            (30, "same".to_string()),
        ]
    );
}

#[test]
fn merge_by_offset_and_encoding_keeps_both_encodings() {
    let make = |offset: u64, content: &str, encoding: Encoding| FoundString {
        offset,
        content: content.to_string(),
        encoding,
        byte_length: content.len(),
        context_before: None,
        context_after: None,
    };
    let input = vec![
        make(5, "gbk first", Encoding::Gbk),
        make(5, "ascii", Encoding::Ascii),
        make(5, "gbk again", Encoding::Gbk),
        make(1, "one", Encoding::Utf16Be),
        make(5, "ascii again", Encoding::Ascii),
    ];
    let merged = merge_results(input, MergeKey::OffsetAndEncoding);
    let seen: Vec<(u64, Encoding, String)> = merged
        .iter()
        .map(|s| (s.offset, s.encoding, s.content.clone()))
        .collect();
    assert_eq!(
        seen,
        vec![
            (1, Encoding::Utf16Be, "one".to_string()),
            (5, Encoding::Ascii, "ascii".to_string()),
            (5, Encoding::Gbk, "gbk first".to_string()),
        ]
    );
    assert_eq!(MergeKey::default(), MergeKey::Offset);
}

#[test]
fn merge_of_nothing_is_nothing() {
    assert!(merge_results(Vec::new(), MergeKey::Offset).is_empty());
}

#[test]
fn merge_sorts_many() {
    let mut input = Vec::new();
    let mut x: u64 = 12345;
    for _ in 0..2000 {
        x = (x * 1103515245 + 12345) % 2147483648;
        input.push(FoundString {
            offset: x % 500,
            content: format!("{}", input.len()),
            encoding: Encoding::Ascii,
            byte_length: 1,
            context_before: None,
            context_after: None,
        });
    }
    let mut expected: Vec<(u64, String)> =
        input.iter().map(|s| (s.offset, s.content.clone())).collect();
    expected.sort_by_key(|s| s.0);
    expected.dedup_by_key(|s| s.0);
    let merged = merge_results(input, MergeKey::Offset);
    let seen: Vec<(u64, String)> = merged.iter().map(|s| (s.offset, s.content.clone())).collect();
    assert_eq!(seen, expected);
}

#[test]
fn no_match_is_shorter_than_the_least_length() {
    let data = b"ab\x00abc\x00abcd\x00a\x00b\x00c\x00\x00\x00a\x00b\x00c\x00d\x00\x00\x00\xC4\xE3\x00\xC4\xE3\xBA\xC3\x00";
    let ex = extractor(
        4,
        vec![EncodingType::Ascii, EncodingType::Utf16Le, EncodingType::Gbk],
    );
    let results = ex.extract_strings(data, 0);
    assert!(!results.is_empty());
    for found in &results {
        match found.encoding {
            Encoding::Utf16Le | Encoding::Utf16Be => assert!(found.byte_length / 2 >= 4),
            _ => assert!(found.byte_length >= 4),
        }
    }
    assert!(results.iter().any(|s| s.content == "abcd" && s.encoding == Encoding::Ascii));
    assert!(results.iter().any(|s| s.content == "abcd" && s.encoding == Encoding::Utf16Le));
    assert!(results.iter().any(|s| s.content == "你好" && s.encoding == Encoding::Gbk));
    assert!(!results.iter().any(|s| s.content == "abc"));
    assert!(!results.iter().any(|s| s.content == "你"));
}

#[test]
fn strings_in_arbitrary_bytes_lie_inside_the_buffer() {
    let mut data = Vec::with_capacity(1 << 20);
    let mut x: u64 = 0x2545F4914F6CDD1D;
    while data.len() < (1 << 20) {
        x ^= x << 13;
        x ^= x >> 7;
        x ^= x << 17;
        let word = x.to_le_bytes();
        if x % 5 == 0 {
            data.extend_from_slice(b"some text\there ");
        } else if x % 7 == 0 {
            data.extend_from_slice(&[0xC4, 0xE3, 0xBA, 0xC3, word[0], word[1]]);
        } else if x % 11 == 0 {
            data.extend_from_slice(&[b'w', 0, b'i', 0, b'd', 0, b'e', 0, word[2], word[3]]);
        } else {
            data.extend_from_slice(&word);
        }
    }
    let ex = StringExtractor::new(
        4,
        vec![
            EncodingType::Ascii,
            EncodingType::Utf8,
            EncodingType::Utf16Le,
            EncodingType::Utf16Be,
            EncodingType::Gbk,
        ],
        None,
        false,
        Some(8),
    )
    .unwrap();
    let base = 1000u64;
    let results = ex.extract_strings(&data, base);
    assert!(results.len() > 1000);
    for found in &results {
        let start = (found.offset - base) as usize;
        let end = start + found.byte_length;
        assert!(found.byte_length >= 1 && end <= data.len());
        assert_eq!(
            found.context_before.as_deref(),
            if start == 0 { None } else { Some(&data[start.saturating_sub(8)..start]) }
        );
        assert_eq!(
            found.context_after.as_deref(),
            if end == data.len() { None } else { Some(&data[end..data.len().min(end + 8)]) }
        );
        match found.encoding {
            Encoding::Ascii => assert_eq!(found.content.len(), found.byte_length),
            Encoding::Utf8 => assert_eq!(found.content.as_bytes(), &data[start..end]),
            Encoding::Utf16Le | Encoding::Utf16Be => {
                assert_eq!(found.content.chars().count() * 2, found.byte_length)
            }
            Encoding::Gbk => assert!(found.byte_length >= 4),
        }
    }
    let merged = merge_results(results, MergeKey::Offset);
    assert!(merged.windows(2).all(|pair| pair[0].offset < pair[1].offset));
}
