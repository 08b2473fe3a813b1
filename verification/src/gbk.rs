//! The scanner for GBK text.
//!
//! A run starts at a lead byte. It gathers printable ASCII bytes and
//! double-byte units, skips up to three invalid bytes in a row, and ends at
//! a NUL or control byte, at the fourth invalid byte in a row, or where what
//! comes next would take it over its fill.

use crate::codec::{blank, gbk_decode, gbk_decoded, is_blank};
use crate::extractor::{
    matches_of, printable, terminator, Encoding, ExtractionConfig, FoundString, Match,
    StringExtractor,
};
use vstd::prelude::*;

verus! {

/// The most bytes that a run gathers.
pub const GBK_RUN_FILL: usize = 1024;

/// The most invalid bytes in a row that a run skips.
pub const GBK_MAX_SKIPPED: usize = 3;

/// The first byte of a double-byte unit.
pub open spec fn gbk_lead(byte: u8) -> bool {
    0x81 <= byte <= 0xFE
}

/// The second byte of a double-byte unit.
pub open spec fn gbk_trail(byte: u8) -> bool {
    (0x40 <= byte <= 0x7E) || (0x80 <= byte <= 0xFE)
}

/// A run: where it ends, and the bytes it gathered on the way.
pub struct GbkRun {
    pub end: int,
    pub bytes: Seq<u8>,
}

/// The run that stands at position `i` having gathered `bytes` and having
/// just skipped `invalid` invalid bytes in a row.
pub open spec fn gbk_run_from(data: Seq<u8>, i: int, bytes: Seq<u8>, invalid: int) -> GbkRun
    decreases data.len() - i,
{
    if !(0 <= i < data.len()) || bytes.len() >= GBK_RUN_FILL || terminator(data[i]) {
        GbkRun { end: i, bytes }
    } else if printable(data[i]) {
        gbk_run_from(data, i + 1, bytes.push(data[i]), 0)
    } else if gbk_lead(data[i]) && i + 1 < data.len() && gbk_trail(data[i + 1]) {
        if bytes.len() + 2 > GBK_RUN_FILL {
            GbkRun { end: i, bytes }
        } else {
            gbk_run_from(data, i + 2, bytes.push(data[i]).push(data[i + 1]), 0)
        }
    } else if invalid >= GBK_MAX_SKIPPED {
        GbkRun { end: i, bytes }
    } else {
        gbk_run_from(data, i + 1, bytes, invalid + 1)
    }
}

/// The run that starts at `start`.
pub open spec fn gbk_run(data: Seq<u8>, start: int) -> GbkRun {
    gbk_run_from(data, start, Seq::empty(), 0)
}

/// What the run that starts at `start` contributes: one string where it
/// gathered enough bytes, its decoding is not blank and has at least half as
/// many characters as the least length, and the text passes the filter.
pub open spec fn gbk_candidate(
    cfg: ExtractionConfig,
    data: Seq<u8>,
    base_offset: int,
    start: int,
) -> Seq<Match> {
    let run = gbk_run(data, start);
    let content = gbk_decoded(run.bytes);
    if run.bytes.len() >= cfg.min_len && !blank(content) && content.len() >= cfg.min_len / 2
        && cfg.accepts(content) {
        seq![cfg.found(data, base_offset, start, run.end, content, Encoding::Gbk)]
    } else {
        Seq::empty()
    }
}

/// The strings found from position `i` on.
pub open spec fn gbk_matches_from(
    cfg: ExtractionConfig,
    data: Seq<u8>,
    base_offset: int,
    i: int,
) -> Seq<Match>
    decreases data.len() - i,
    via gbk_matches_from_decreases
{
    if !(0 <= i < data.len()) {
        Seq::empty()
    } else if gbk_lead(data[i]) {
        gbk_candidate(cfg, data, base_offset, i) + gbk_matches_from(
            cfg,
            data,
            base_offset,
            gbk_run(data, i).end,
        )
    } else {
        gbk_matches_from(cfg, data, base_offset, i + 1)
    }
}

#[via_fn]
proof fn gbk_matches_from_decreases(
    cfg: ExtractionConfig,
    data: Seq<u8>,
    base_offset: int,
    i: int,
) {
    if 0 <= i < data.len() && gbk_lead(data[i]) {
        lemma_gbk_run_advances(data, i);
    }
}

/// The strings that the GBK scanner finds in `data`.
pub open spec fn gbk_matches(cfg: ExtractionConfig, data: Seq<u8>, base_offset: int) -> Seq<
    Match,
> {
    gbk_matches_from(cfg, data, base_offset, 0)
}

/// A run ends inside the buffer and keeps what it had gathered; it gathers
/// no more bytes than it passes over, and never more than its fill.
pub proof fn lemma_gbk_run_bounds(data: Seq<u8>, i: int, bytes: Seq<u8>, invalid: int)
    requires
        0 <= i <= data.len(),
    ensures
        i <= gbk_run_from(data, i, bytes, invalid).end <= data.len(),
        bytes.len() <= gbk_run_from(data, i, bytes, invalid).bytes.len(),
        gbk_run_from(data, i, bytes, invalid).bytes.len() - bytes.len() <= gbk_run_from(
            data,
            i,
            bytes,
            invalid,
        ).end - i,
        gbk_run_from(data, i, bytes, invalid).bytes.len() <= GBK_RUN_FILL
            || gbk_run_from(data, i, bytes, invalid).bytes.len() == bytes.len(),
    decreases data.len() - i,
{
    if !(0 <= i < data.len()) || bytes.len() >= GBK_RUN_FILL || terminator(data[i]) {
    } else if printable(data[i]) {
        lemma_gbk_run_bounds(data, i + 1, bytes.push(data[i]), 0);
    } else if gbk_lead(data[i]) && i + 1 < data.len() && gbk_trail(data[i + 1]) {
        if bytes.len() + 2 <= GBK_RUN_FILL {
            lemma_gbk_run_bounds(data, i + 2, bytes.push(data[i]).push(data[i + 1]), 0);
        }
    } else if invalid >= GBK_MAX_SKIPPED {
    } else {
        lemma_gbk_run_bounds(data, i + 1, bytes, invalid + 1);
    }
}

/// A run that starts at a lead byte passes over at least that byte.
pub proof fn lemma_gbk_run_advances(data: Seq<u8>, start: int)
    requires
        0 <= start < data.len(),
        gbk_lead(data[start]),
    ensures
        start < gbk_run(data, start).end <= data.len(),
        gbk_run(data, start).bytes.len() <= GBK_RUN_FILL,
        gbk_run(data, start).bytes.len() <= gbk_run(data, start).end - start,
{
    let empty = Seq::<u8>::empty();
    lemma_gbk_run_bounds(data, start, empty, 0);
    if start + 1 < data.len() && gbk_trail(data[start + 1]) {
        lemma_gbk_run_bounds(data, start + 2, empty.push(data[start]).push(data[start + 1]), 0);
    } else {
        lemma_gbk_run_bounds(data, start + 1, empty, 1);
    }
}

/// What holds of a string that the scanner reports: it starts at a lead
/// byte and spans the run that starts there; the run gathered at least the
/// least length of bytes, and no more than it spans; its text is the
/// decoding of the gathered bytes, is not blank and has at least half as
/// many characters as the least length; the text passes the filter; and the
/// context is what the configuration asks for.
pub open spec fn gbk_sound(
    cfg: ExtractionConfig,
    data: Seq<u8>,
    base_offset: int,
    found: Match,
) -> bool {
    let start = found.offset - base_offset;
    let end = start + found.byte_length;
    let run = gbk_run(data, start);
    &&& 0 <= start < end <= data.len()
    &&& gbk_lead(data[start])
    &&& run.end == end
    &&& cfg.min_len <= run.bytes.len() <= found.byte_length
    &&& run.bytes.len() <= GBK_RUN_FILL
    &&& found.encoding == Encoding::Gbk
    &&& found.content == gbk_decoded(run.bytes)
    &&& !blank(found.content)
    &&& found.content.len() >= cfg.min_len / 2
    &&& cfg.accepts(found.content)
    &&& found.context_before == cfg.context_before(data, start)
    &&& found.context_after == cfg.context_after(data, end)
}

/// Every string found from position `i` on is sound and starts at or after
/// `i`, and each starts where the one before it has ended, or later.
pub proof fn lemma_gbk_matches_from(cfg: ExtractionConfig, data: Seq<u8>, base_offset: int, i: int)
    requires
        0 <= i,
    ensures
        forall|k: int|
            0 <= k < gbk_matches_from(cfg, data, base_offset, i).len() ==> {
                let found = #[trigger] gbk_matches_from(cfg, data, base_offset, i)[k];
                &&& gbk_sound(cfg, data, base_offset, found)
                &&& base_offset + i <= found.offset
            },
        forall|j: int, k: int|
            0 <= j < k < gbk_matches_from(cfg, data, base_offset, i).len() ==> {
                let earlier = #[trigger] gbk_matches_from(cfg, data, base_offset, i)[j];
                let later = #[trigger] gbk_matches_from(cfg, data, base_offset, i)[k];
                earlier.offset + earlier.byte_length <= later.offset
            },
    decreases data.len() - i,
{
    let all = gbk_matches_from(cfg, data, base_offset, i);
    if i < data.len() {
        if gbk_lead(data[i]) {
            let end = gbk_run(data, i).end;
            lemma_gbk_run_advances(data, i);
            let head = gbk_candidate(cfg, data, base_offset, i);
            let tail = gbk_matches_from(cfg, data, base_offset, end);
            lemma_gbk_matches_from(cfg, data, base_offset, end);
            if head.len() > 0 {
                assert(gbk_sound(cfg, data, base_offset, head[0]));
            }
            assert forall|k: int| 0 <= k < all.len() implies {
                let found = #[trigger] all[k];
                &&& gbk_sound(cfg, data, base_offset, found)
                &&& base_offset + i <= found.offset
            } by {
                if k >= head.len() {
                    assert(all[k] == tail[k - head.len()]);
                }
            }
            assert forall|j: int, k: int| 0 <= j < k < all.len() implies {
                let earlier = #[trigger] all[j];
                let later = #[trigger] all[k];
                earlier.offset + earlier.byte_length <= later.offset
            } by {
                assert(all[k] == tail[k - head.len()]);
                if j >= head.len() {
                    assert(all[j] == tail[j - head.len()]);
                }
            }
        } else {
            lemma_gbk_matches_from(cfg, data, base_offset, i + 1);
        }
    }
}

/// Follows the run that starts at `start`: where it ends, and the bytes it
/// gathers.
pub fn gbk_scan_run(data: &[u8], start: usize) -> (r: (usize, Vec<u8>))
    requires
        start <= data@.len(),
    ensures
        r.0 == gbk_run(data@, start as int).end,
        r.1@ == gbk_run(data@, start as int).bytes,
        start <= r.0 <= data@.len(),
        r.1@.len() <= GBK_RUN_FILL,
{
    let n = data.len();
    let mut i = start;
    let mut bytes: Vec<u8> = Vec::new();
    let mut invalid: usize = 0;
    proof {
        lemma_gbk_run_bounds(data@, start as int, Seq::<u8>::empty(), 0);
    }
    loop
        invariant_except_break
            start <= i <= n,
            n == data@.len(),
            invalid <= GBK_MAX_SKIPPED,
            bytes@.len() <= GBK_RUN_FILL,
            gbk_run_from(data@, i as int, bytes@, invalid as int) == gbk_run(data@, start as int),
        ensures
            start <= i <= n,
            n == data@.len(),
            bytes@.len() <= GBK_RUN_FILL,
            i == gbk_run(data@, start as int).end,
            bytes@ == gbk_run(data@, start as int).bytes,
        decreases n - i,
    {
        if i >= n || bytes.len() >= GBK_RUN_FILL {
            break ;
        }
        let byte = data[i];
        if byte < 0x20 && byte != 0x09 {
            break ;
        }
        if byte >= 0x20 && byte <= 0x7E {
            bytes.push(byte);
            invalid = 0;
            i += 1;
        } else if byte >= 0x81 && byte <= 0xFE && n - i > 1 && is_gbk_trail(data[i + 1]) {
            if bytes.len() + 2 > GBK_RUN_FILL {
                break ;
            }
            bytes.push(byte);
            bytes.push(data[i + 1]);
            invalid = 0;
            i += 2;
        } else {
            if invalid >= GBK_MAX_SKIPPED {
                break ;
            }
            invalid += 1;
            i += 1;
        }
    }
    (i, bytes)
}

/// Whether a byte can close a double-byte unit.
fn is_gbk_trail(byte: u8) -> (r: bool)
    ensures
        r == gbk_trail(byte),
{
    (byte >= 0x40 && byte <= 0x7E) || (byte >= 0x80 && byte <= 0xFE)
}

impl StringExtractor {
    /// Scans `data` for GBK strings. Each offset reported is `base_offset`
    /// plus the position of the string in `data`.
    pub fn extract_gbk(&self, data: &[u8], base_offset: u64) -> (results: Vec<FoundString>)
        requires
            base_offset + data@.len() <= u64::MAX,
        ensures
            matches_of(results@) == gbk_matches(self@, data@, base_offset as int),
    {
        let mut results: Vec<FoundString> = Vec::new();
        let n = data.len();
        let min_len = self.config().min_len;
        let mut i: usize = 0;
        while i < n
            invariant
                i <= n,
                n == data@.len(),
                min_len == self@.min_len,
                base_offset + n <= u64::MAX,
                matches_of(results@) + gbk_matches_from(
                    self@,
                    data@,
                    base_offset as int,
                    i as int,
                ) == gbk_matches(self@, data@, base_offset as int),
            decreases n - i,
        {
            if data[i] >= 0x81 && data[i] <= 0xFE {
                let start = i;
                let (end, bytes) = gbk_scan_run(data, start);
                proof {
                    lemma_gbk_run_advances(data@, start as int);
                }
                let ghost before = matches_of(results@);
                if bytes.len() >= min_len {
                    let content = gbk_decode(bytes.as_slice());
                    let count = content.as_str().unicode_len();
                    if !is_blank(content.as_str()) && count >= min_len / 2 {
                        if self.matches_search_criteria(content.as_str()) {
                            let (context_before, context_after) = self.extract_context(
                                data,
                                start,
                                end,
                            );
                            results.push(
                                FoundString {
                                    offset: base_offset + start as u64,
                                    content,
                                    encoding: Encoding::Gbk,
                                    byte_length: end - start,
                                    context_before,
                                    context_after,
                                },
                            );
                        }
                    }
                }
                assert(matches_of(results@) =~= before + gbk_candidate(
                    self@,
                    data@,
                    base_offset as int,
                    start as int,
                ));
                i = end;
            } else {
                i += 1;
            }
        }
        results
    }
}

} // verus!
