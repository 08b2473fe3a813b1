//! The scanner for ASCII and UTF-8 text.
//!
//! A run starts at a printable ASCII byte or a tab and goes on over
//! printable bytes, tabs and multi-byte sequences announced by their
//! leading byte. It ends before the first byte that is none of these, or
//! before a sequence that the buffer cuts short. A run that took a
//! multi-byte sequence is read as UTF-8 where it is well formed; every other
//! run is read as plain ASCII.

use crate::codec::utf8_to_string;
use crate::extractor::{
    matches_of, printable, Encoding, ExtractionConfig, FoundString, Match, StringExtractor,
};
use vstd::prelude::*;
use vstd::slice::slice_subrange;
use vstd::utf8::{
    decode_utf8, decode_utf8_encode_utf8, encode_utf8, encode_utf8_decode_utf8,
    encode_utf8_valid_utf8, is_ascii_chars, is_ascii_chars_encode_utf8,
    is_leading_byte_width_2, is_leading_byte_width_3, is_leading_byte_width_4, valid_utf8,
};

verus! {

/// A byte at which a run can start, and which a run takes singly: printable
/// ASCII or a tab.
pub open spec fn ascii_start(byte: u8) -> bool {
    printable(byte) || byte == 0x09
}

/// The number of bytes that a run takes at position `i`: one for a printable
/// byte or a tab, the announced width for a leading byte whose sequence fits
/// in the buffer, and zero where the run stops.
pub open spec fn ascii_step(data: Seq<u8>, i: int) -> int {
    if !(0 <= i < data.len()) {
        0
    } else if ascii_start(data[i]) {
        1
    } else if is_leading_byte_width_2(data[i]) && i + 1 < data.len() {
        2
    } else if is_leading_byte_width_3(data[i]) && i + 2 < data.len() {
        3
    } else if is_leading_byte_width_4(data[i]) && i + 3 < data.len() {
        4
    } else {
        0
    }
}

/// Where the run that passes through position `i` ends.
pub open spec fn ascii_run_end(data: Seq<u8>, i: int) -> int
    decreases data.len() - i,
{
    if ascii_step(data, i) > 0 {
        ascii_run_end(data, i + ascii_step(data, i))
    } else {
        i
    }
}

/// Whether the bytes from `start` to `end` hold one with the high bit set.
/// In a run they do where the run took a multi-byte sequence.
pub open spec fn saw_high_bit(data: Seq<u8>, start: int, end: int) -> bool {
    exists|k: int| start <= k < end && 0 <= k < data.len() && #[trigger] data[k] >= 0x80
}

/// The byte that stands for `byte` in plain ASCII text: itself where it is
/// printable or a tab, a question mark otherwise.
pub open spec fn ascii_projected(byte: u8) -> u8 {
    if ascii_start(byte) {
        byte
    } else {
        0x3F
    }
}

/// The text of `bytes` as plain ASCII, byte for character.
pub open spec fn ascii_projection(bytes: Seq<u8>) -> Seq<char> {
    Seq::new(bytes.len(), |k: int| ascii_projected(bytes[k]) as char)
}

/// The text and the encoding of the run from `start` to `end`: its UTF-8
/// decoding where it holds a byte with the high bit set and is well formed,
/// and its ASCII projection otherwise.
pub open spec fn ascii_text(data: Seq<u8>, start: int, end: int) -> (Seq<char>, Encoding) {
    let span = data.subrange(start, end);
    if saw_high_bit(data, start, end) && valid_utf8(span) {
        (decode_utf8(span), Encoding::Utf8)
    } else {
        (ascii_projection(span), Encoding::Ascii)
    }
}

/// What the run from `start` to `end` contributes: one string where it is
/// long enough and passes the filter, nothing otherwise.
pub open spec fn ascii_candidate(
    cfg: ExtractionConfig,
    data: Seq<u8>,
    base_offset: int,
    start: int,
    end: int,
) -> Seq<Match> {
    let (content, encoding) = ascii_text(data, start, end);
    if end - start >= cfg.min_len && cfg.accepts(content) {
        seq![cfg.found(data, base_offset, start, end, content, encoding)]
    } else {
        Seq::empty()
    }
}

/// The strings found from position `i` on.
pub open spec fn ascii_matches_from(
    cfg: ExtractionConfig,
    data: Seq<u8>,
    base_offset: int,
    i: int,
) -> Seq<Match>
    decreases data.len() - i,
    via ascii_matches_from_decreases
{
    if !(0 <= i < data.len()) {
        Seq::empty()
    } else if ascii_start(data[i]) {
        let end = ascii_run_end(data, i);
        ascii_candidate(cfg, data, base_offset, i, end) + ascii_matches_from(
            cfg,
            data,
            base_offset,
            end,
        )
    } else {
        ascii_matches_from(cfg, data, base_offset, i + 1)
    }
}

#[via_fn]
proof fn ascii_matches_from_decreases(
    cfg: ExtractionConfig,
    data: Seq<u8>,
    base_offset: int,
    i: int,
) {
    if 0 <= i < data.len() && ascii_start(data[i]) {
        lemma_ascii_run_bounds(data, i);
    }
}

/// The strings that the ASCII and UTF-8 scanner finds in `data`.
pub open spec fn ascii_matches(cfg: ExtractionConfig, data: Seq<u8>, base_offset: int) -> Seq<
    Match,
> {
    ascii_matches_from(cfg, data, base_offset, 0)
}

/// A run ends inside the buffer, at or after the position it passes through,
/// and after it where that position takes a step.
pub proof fn lemma_ascii_run_bounds(data: Seq<u8>, i: int)
    requires
        0 <= i <= data.len(),
    ensures
        i <= ascii_run_end(data, i) <= data.len(),
        ascii_step(data, i) > 0 ==> i < ascii_run_end(data, i),
        ascii_step(data, ascii_run_end(data, i)) == 0,
    decreases data.len() - i,
{
    if ascii_step(data, i) > 0 {
        lemma_ascii_run_bounds(data, i + ascii_step(data, i));
    }
}

/// What holds of a string that the scanner reports: it spans at least one
/// byte and at least the least length, inside the buffer; its text is the
/// plain ASCII text of exactly the bytes it spans, or their UTF-8 decoding;
/// the text passes the filter; and the context is what the configuration
/// asks for.
pub open spec fn ascii_sound(
    cfg: ExtractionConfig,
    data: Seq<u8>,
    base_offset: int,
    found: Match,
) -> bool {
    let start = found.offset - base_offset;
    let end = start + found.byte_length;
    let span = data.subrange(start, end);
    &&& 0 <= start < end <= data.len()
    &&& found.byte_length >= cfg.min_len
    &&& match found.encoding {
        Encoding::Ascii => found.content == ascii_projection(span) && found.content.len()
            == found.byte_length,
        Encoding::Utf8 => valid_utf8(span) && found.content == decode_utf8(span) && encode_utf8(
            found.content,
        ) == span,
        _ => false,
    }
    &&& cfg.accepts(found.content)
    &&& found.context_before == cfg.context_before(data, start)
    &&& found.context_after == cfg.context_after(data, end)
}

/// Every string found from position `i` on is sound and starts at or after
/// `i`, and each starts where the one before it has ended, or later.
pub proof fn lemma_ascii_matches_from(
    cfg: ExtractionConfig,
    data: Seq<u8>,
    base_offset: int,
    i: int,
)
    requires
        0 <= i,
    ensures
        forall|k: int|
            0 <= k < ascii_matches_from(cfg, data, base_offset, i).len() ==> {
                let found = #[trigger] ascii_matches_from(cfg, data, base_offset, i)[k];
                &&& ascii_sound(cfg, data, base_offset, found)
                &&& base_offset + i <= found.offset
            },
        forall|j: int, k: int|
            0 <= j < k < ascii_matches_from(cfg, data, base_offset, i).len() ==> {
                let earlier = #[trigger] ascii_matches_from(cfg, data, base_offset, i)[j];
                let later = #[trigger] ascii_matches_from(cfg, data, base_offset, i)[k];
                earlier.offset + earlier.byte_length <= later.offset
            },
    decreases data.len() - i,
{
    let all = ascii_matches_from(cfg, data, base_offset, i);
    if i < data.len() {
        if ascii_start(data[i]) {
            let end = ascii_run_end(data, i);
            lemma_ascii_run_bounds(data, i);
            let head = ascii_candidate(cfg, data, base_offset, i, end);
            let tail = ascii_matches_from(cfg, data, base_offset, end);
            lemma_ascii_matches_from(cfg, data, base_offset, end);
            if head.len() > 0 {
                let span = data.subrange(i, end);
                if saw_high_bit(data, i, end) && valid_utf8(span) {
                    decode_utf8_encode_utf8(span);
                }
                assert(ascii_sound(cfg, data, base_offset, head[0]));
            }
            assert forall|k: int| 0 <= k < all.len() implies {
                let found = #[trigger] all[k];
                &&& ascii_sound(cfg, data, base_offset, found)
                &&& base_offset + i <= found.offset
            } by {
                if k >= head.len() {
                    assert(all[k] == tail[k - head.len()]);
                }
            }
            assert forall|j: int, k: int| 0 <= j < k < all.len() implies {
                let earlier = #[trigger] all[j];
                let later = #[trigger] all[k];
                earlier.offset + earlier.byte_length <= later.offset
            } by {
                assert(all[k] == tail[k - head.len()]);
                if j >= head.len() {
                    assert(all[j] == tail[j - head.len()]);
                }
            }
        } else {
            lemma_ascii_matches_from(cfg, data, base_offset, i + 1);
        }
    }
}

/// Bytes without a high bit are well-formed UTF-8 and decode byte for
/// character.
pub proof fn lemma_ascii_bytes_decode(bytes: Seq<u8>)
    requires
        forall|k: int| 0 <= k < bytes.len() ==> bytes[k] < 0x80,
    ensures
        valid_utf8(bytes),
        decode_utf8(bytes) == Seq::new(bytes.len(), |k: int| bytes[k] as char),
{
    let chars = Seq::new(bytes.len(), |k: int| bytes[k] as char);
    assert(is_ascii_chars(chars));
    is_ascii_chars_encode_utf8(chars);
    assert(encode_utf8(chars) =~= bytes);
    encode_utf8_valid_utf8(chars);
    encode_utf8_decode_utf8(chars);
}

/// A run without a high bit holds printable bytes and tabs only.
pub proof fn lemma_plain_run(data: Seq<u8>, i: int)
    requires
        0 <= i <= data.len(),
        !saw_high_bit(data, i, ascii_run_end(data, i)),
    ensures
        forall|k: int| i <= k < ascii_run_end(data, i) ==> ascii_start(#[trigger] data[k]),
    decreases data.len() - i,
{
    lemma_ascii_run_bounds(data, i);
    let end = ascii_run_end(data, i);
    if ascii_step(data, i) > 0 {
        assert(data[i] < 0x80);
        assert forall|k: int| i + 1 <= k < end && 0 <= k < data.len() implies !(#[trigger] data[k]
            >= 0x80) by {}
        lemma_plain_run(data, i + 1);
    }
}

/// The number of bytes that a run takes at position `i`.
fn step_at(data: &[u8], i: usize) -> (step: usize)
    requires
        i <= data@.len(),
    ensures
        step == ascii_step(data@, i as int),
        i + step <= data@.len(),
{
    let n = data.len();
    if i >= n {
        return 0;
    }
    let byte = data[i];
    if (byte >= 0x20 && byte <= 0x7E) || byte == 0x09 {
        1
    } else if byte >= 0xC0 && byte <= 0xDF && n - i > 1 {
        2
    } else if byte >= 0xE0 && byte <= 0xEF && n - i > 2 {
        3
    } else if byte >= 0xF0 && byte <= 0xF7 && n - i > 3 {
        4
    } else {
        0
    }
}

/// Follows the run that passes through `start` to its end, and tells whether
/// it took a multi-byte sequence.
pub fn ascii_run(data: &[u8], start: usize) -> (r: (usize, bool))
    requires
        start <= data@.len(),
    ensures
        r.0 == ascii_run_end(data@, start as int),
        start <= r.0 <= data@.len(),
        r.1 == saw_high_bit(data@, start as int, r.0 as int),
{
    let n = data.len();
    let mut i = start;
    let mut high = false;
    loop
        invariant_except_break
            start <= i <= n,
            n == data@.len(),
            ascii_run_end(data@, i as int) == ascii_run_end(data@, start as int),
            high == saw_high_bit(data@, start as int, i as int),
        ensures
            start <= i <= n,
            n == data@.len(),
            i == ascii_run_end(data@, start as int),
            high == saw_high_bit(data@, start as int, i as int),
        decreases n - i,
    {
        let step = step_at(data, i);
        if step == 0 {
            break ;
        }
        proof {
            let next = i + step;
            if high {
                let k = choose|k: int|
                    start <= k < i && 0 <= k < data@.len() && #[trigger] data@[k] >= 0x80;
                assert(saw_high_bit(data@, start as int, next));
            } else if step >= 2 {
                assert(data@[i as int] >= 0x80);
                assert(saw_high_bit(data@, start as int, next));
            } else if saw_high_bit(data@, start as int, next) {
                let k = choose|k: int|
                    start <= k < next && 0 <= k < data@.len() && #[trigger] data@[k] >= 0x80;
                assert(k == i);
            }
        }
        if step >= 2 {
            high = true;
        }
        i += step;
    }
    (i, high)
}

/// The plain ASCII text of `bytes`.
fn project_ascii(bytes: &[u8]) -> (text: String)
    ensures
        text@ == ascii_projection(bytes@),
{
    let mut projected: Vec<u8> = Vec::with_capacity(bytes.len());
    let mut k: usize = 0;
    while k < bytes.len()
        invariant
            k <= bytes@.len(),
            projected@.len() == k,
            forall|j: int| 0 <= j < k ==> projected@[j] == ascii_projected(bytes@[j]),
        decreases bytes@.len() - k,
    {
        let byte = bytes[k];
        if (byte >= 0x20 && byte <= 0x7E) || byte == 0x09 {
            projected.push(byte);
        } else {
            projected.push(0x3F);
        }
        k += 1;
    }
    proof {
        lemma_ascii_bytes_decode(projected@);
        assert(decode_utf8(projected@) =~= ascii_projection(bytes@));
    }
    match utf8_to_string(projected.as_slice()) {
        Some(text) => text,
        // Not reached: bytes without a high bit are well formed.
        None => String::new(),
    }
}

/// Decodes the run of `data` from `start` to `end`.
fn decode_ascii_run(data: &[u8], start: usize, end: usize, high: bool) -> (r: (String, Encoding))
    requires
        start <= end <= data@.len(),
        end == ascii_run_end(data@, start as int),
        high == saw_high_bit(data@, start as int, end as int),
    ensures
        (r.0@, r.1) == ascii_text(data@, start as int, end as int),
{
    let span = slice_subrange(data, start, end);
    if high {
        match utf8_to_string(span) {
            Some(text) => (text, Encoding::Utf8),
            None => (project_ascii(span), Encoding::Ascii),
        }
    } else {
        proof {
            lemma_plain_run(data@, start as int);
            lemma_ascii_bytes_decode(span@);
            assert(decode_utf8(span@) =~= ascii_projection(span@));
        }
        match utf8_to_string(span) {
            Some(text) => (text, Encoding::Ascii),
            // Not reached: bytes without a high bit are well formed.
            None => (String::new(), Encoding::Ascii),
        }
    }
}

impl StringExtractor {
    /// Scans `data` for ASCII and UTF-8 strings. Each offset reported is
    /// `base_offset` plus the position of the string in `data`.
    pub fn extract_ascii_utf8(&self, data: &[u8], base_offset: u64) -> (results: Vec<FoundString>)
        requires
            base_offset + data@.len() <= u64::MAX,
        ensures
            matches_of(results@) == ascii_matches(self@, data@, base_offset as int),
    {
        let mut results: Vec<FoundString> = Vec::with_capacity(256);
        let n = data.len();
        let min_len = self.config().min_len;
        let mut i: usize = 0;
        while i < n
            invariant
                i <= n,
                n == data@.len(),
                min_len == self@.min_len,
                base_offset + n <= u64::MAX,
                matches_of(results@) + ascii_matches_from(
                    self@,
                    data@,
                    base_offset as int,
                    i as int,
                ) == ascii_matches(self@, data@, base_offset as int),
            decreases n - i,
        {
            if self.is_printable_ascii(data[i]) || data[i] == 0x09 {
                let start = i;
                let (end, high) = ascii_run(data, start);
                proof {
                    lemma_ascii_run_bounds(data@, start as int);
                }
                let ghost before = matches_of(results@);
                if end - start >= min_len {
                    let (content, encoding) = decode_ascii_run(data, start, end, high);
                    if self.matches_search_criteria(content.as_str()) {
                        let (context_before, context_after) = self.extract_context(
                            data,
                            start,
                            end,
                        );
                        results.push(
                            FoundString {
                                offset: base_offset + start as u64,
                                content,
                                encoding,
                                byte_length: end - start,
                                context_before,
                                context_after,
                            },
                        );
                    }
                }
                assert(matches_of(results@) =~= before + ascii_candidate(
                    self@,
                    data@,
                    base_offset as int,
                    start as int,
                    end as int,
                ));
                i = end;
            } else {
                i += 1;
            }
        }
        results
    }
}

} // verus!
