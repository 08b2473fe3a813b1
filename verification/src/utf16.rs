//! The scanners for UTF-16 text, little endian and big endian.
//!
//! A run starts at a code unit that is printable ASCII. It takes such units
//! one after the other, ends before a zero unit, and ends after the first
//! unit of any other kind, which it still takes.

use crate::codec::{is_surrogate, utf16_decoded, utf16_to_string};
use crate::extractor::{
    matches_of, Encoding, ExtractionConfig, FoundString, Match, StringExtractor,
};
use vstd::prelude::*;

verus! {

/// The code unit that the two bytes at position `i` make.
pub open spec fn code_unit(data: Seq<u8>, i: int, big_endian: bool) -> u16 {
    if big_endian {
        (data[i] * 256 + data[i + 1]) as u16
    } else {
        (data[i + 1] * 256 + data[i]) as u16
    }
}

/// A code unit that is printable ASCII: its high byte is zero and its low
/// byte lies between space and tilde.
pub open spec fn simple_unit(unit: u16) -> bool {
    0x20 <= unit <= 0x7E
}

/// The encoding that a byte order stands for.
pub open spec fn utf16_encoding(big_endian: bool) -> Encoding {
    if big_endian {
        Encoding::Utf16Be
    } else {
        Encoding::Utf16Le
    }
}

/// The number of code units that a run takes from position `i` on.
pub open spec fn utf16_run_units(data: Seq<u8>, i: int, big_endian: bool) -> int
    decreases data.len() - i,
{
    if !(0 <= i && i + 1 < data.len()) {
        0
    } else if code_unit(data, i, big_endian) == 0 {
        0
    } else if simple_unit(code_unit(data, i, big_endian)) {
        1 + utf16_run_units(data, i + 2, big_endian)
    } else {
        1
    }
}

/// The `count` code units that start at position `start`.
pub open spec fn utf16_units(data: Seq<u8>, start: int, count: int, big_endian: bool) -> Seq<u16> {
    Seq::new(count as nat, |k: int| code_unit(data, start + 2 * k, big_endian))
}

/// What the run that starts at `start` contributes: one string where it has
/// enough code units, they decode, and the text passes the filter.
pub open spec fn utf16_candidate(
    cfg: ExtractionConfig,
    data: Seq<u8>,
    base_offset: int,
    start: int,
    big_endian: bool,
) -> Seq<Match> {
    let count = utf16_run_units(data, start, big_endian);
    match utf16_decoded(utf16_units(data, start, count, big_endian)) {
        Some(content) => if count >= cfg.min_len && cfg.accepts(content) {
            seq![
                cfg.found(
                    data,
                    base_offset,
                    start,
                    start + 2 * count,
                    content,
                    utf16_encoding(big_endian),
                ),
            ]
        } else {
            Seq::empty()
        },
        None => Seq::empty(),
    }
}

/// The strings found from position `i` on.
pub open spec fn utf16_matches_from(
    cfg: ExtractionConfig,
    data: Seq<u8>,
    base_offset: int,
    i: int,
    big_endian: bool,
) -> Seq<Match>
    decreases data.len() - i,
    via utf16_matches_from_decreases
{
    if !(0 <= i && i + 1 < data.len()) {
        Seq::empty()
    } else if simple_unit(code_unit(data, i, big_endian)) {
        utf16_candidate(cfg, data, base_offset, i, big_endian) + utf16_matches_from(
            cfg,
            data,
            base_offset,
            i + 2 * utf16_run_units(data, i, big_endian),
            big_endian,
        )
    } else {
        utf16_matches_from(cfg, data, base_offset, i + 1, big_endian)
    }
}

#[via_fn]
proof fn utf16_matches_from_decreases(
    cfg: ExtractionConfig,
    data: Seq<u8>,
    base_offset: int,
    i: int,
    big_endian: bool,
) {
    if 0 <= i && i + 1 < data.len() {
        lemma_utf16_run_bounds(data, i + 2, big_endian);
    }
}

/// The strings that a UTF-16 scanner finds in `data`.
pub open spec fn utf16_matches(
    cfg: ExtractionConfig,
    data: Seq<u8>,
    base_offset: int,
    big_endian: bool,
) -> Seq<Match> {
    utf16_matches_from(cfg, data, base_offset, 0, big_endian)
}

/// A run stays inside the buffer.
pub proof fn lemma_utf16_run_bounds(data: Seq<u8>, i: int, big_endian: bool)
    requires
        0 <= i <= data.len(),
    ensures
        0 <= utf16_run_units(data, i, big_endian),
        i + 2 * utf16_run_units(data, i, big_endian) <= data.len(),
    decreases data.len() - i,
{
    if i + 1 < data.len() && code_unit(data, i, big_endian) != 0 && simple_unit(
        code_unit(data, i, big_endian),
    ) {
        lemma_utf16_run_bounds(data, i + 2, big_endian);
    }
}

/// What holds of a string that a scanner reports: it spans two bytes for
/// each character of its text, at least one and at least the least length,
/// inside the buffer; its text is the decoding of exactly the code units it
/// spans; the text passes the filter; and the context is what the
/// configuration asks for.
pub open spec fn utf16_sound(
    cfg: ExtractionConfig,
    data: Seq<u8>,
    base_offset: int,
    big_endian: bool,
    found: Match,
) -> bool {
    let start = found.offset - base_offset;
    let end = start + found.byte_length;
    let count = found.content.len() as int;
    &&& 0 <= start < end <= data.len()
    &&& found.byte_length == 2 * count
    &&& count >= cfg.min_len
    &&& found.encoding == utf16_encoding(big_endian)
    &&& utf16_decoded(utf16_units(data, start, count, big_endian)) == Some(found.content)
    &&& cfg.accepts(found.content)
    &&& found.context_before == cfg.context_before(data, start)
    &&& found.context_after == cfg.context_after(data, end)
}

/// Every code unit of a run but the last is printable ASCII.
pub proof fn lemma_utf16_run_shape(data: Seq<u8>, i: int, big_endian: bool)
    requires
        0 <= i <= data.len(),
    ensures
        forall|k: int|
            0 <= k < utf16_run_units(data, i, big_endian) - 1 ==> simple_unit(
                #[trigger] code_unit(data, i + 2 * k, big_endian),
            ),
    decreases data.len() - i,
{
    if i + 1 < data.len() && code_unit(data, i, big_endian) != 0 && simple_unit(
        code_unit(data, i, big_endian),
    ) {
        lemma_utf16_run_shape(data, i + 2, big_endian);
        assert forall|k: int| 0 <= k < utf16_run_units(data, i, big_endian) - 1 implies simple_unit(
            #[trigger] code_unit(data, i + 2 * k, big_endian),
        ) by {
            if k > 0 {
                assert(simple_unit(code_unit(data, i + 2 + 2 * (k - 1), big_endian)));
            }
        }
    }
}

/// Code units of which only the last may be other than printable ASCII
/// decode, if at all, to one character each.
pub proof fn lemma_simple_units_decode(units: Seq<u16>)
    requires
        forall|k: int| 0 <= k < units.len() - 1 ==> simple_unit(#[trigger] units[k]),
    ensures
        utf16_decoded(units) matches Some(text) ==> text.len() == units.len(),
    decreases units.len(),
{
    if units.len() > 0 && !is_surrogate(units[0]) {
        let rest = units.skip(1);
        assert forall|k: int| 0 <= k < rest.len() - 1 implies simple_unit(#[trigger] rest[k]) by {
            assert(rest[k] == units[k + 1]);
        }
        lemma_simple_units_decode(rest);
    }
}

/// Every string found from position `i` on is sound and starts at or after
/// `i`, and each starts where the one before it has ended, or later.
pub proof fn lemma_utf16_matches_from(
    cfg: ExtractionConfig,
    data: Seq<u8>,
    base_offset: int,
    i: int,
    big_endian: bool,
)
    requires
        0 <= i,
    ensures
        forall|k: int|
            0 <= k < utf16_matches_from(cfg, data, base_offset, i, big_endian).len() ==> {
                let found = #[trigger] utf16_matches_from(cfg, data, base_offset, i, big_endian)[k];
                &&& utf16_sound(cfg, data, base_offset, big_endian, found)
                &&& base_offset + i <= found.offset
            },
        forall|j: int, k: int|
            0 <= j < k < utf16_matches_from(cfg, data, base_offset, i, big_endian).len() ==> {
                let earlier = #[trigger] utf16_matches_from(
                    cfg,
                    data,
                    base_offset,
                    i,
                    big_endian,
                )[j];
                let later = #[trigger] utf16_matches_from(cfg, data, base_offset, i, big_endian)[k];
                earlier.offset + earlier.byte_length <= later.offset
            },
    decreases data.len() - i,
{
    let all = utf16_matches_from(cfg, data, base_offset, i, big_endian);
    if i + 1 < data.len() {
        if simple_unit(code_unit(data, i, big_endian)) {
            let count = utf16_run_units(data, i, big_endian);
            let end = i + 2 * count;
            lemma_utf16_run_bounds(data, i, big_endian);
            lemma_utf16_run_bounds(data, i + 2, big_endian);
            let head = utf16_candidate(cfg, data, base_offset, i, big_endian);
            let tail = utf16_matches_from(cfg, data, base_offset, end, big_endian);
            lemma_utf16_matches_from(cfg, data, base_offset, end, big_endian);
            if head.len() > 0 {
                let units = utf16_units(data, i, count, big_endian);
                lemma_utf16_run_shape(data, i, big_endian);
                lemma_simple_units_decode(units);
                assert(utf16_sound(cfg, data, base_offset, big_endian, head[0]));
            }
            assert forall|k: int| 0 <= k < all.len() implies {
                let found = #[trigger] all[k];
                &&& utf16_sound(cfg, data, base_offset, big_endian, found)
                &&& base_offset + i <= found.offset
            } by {
                if k >= head.len() {
                    assert(all[k] == tail[k - head.len()]);
                }
            }
            assert forall|j: int, k: int| 0 <= j < k < all.len() implies {
                let earlier = #[trigger] all[j];
                let later = #[trigger] all[k];
                earlier.offset + earlier.byte_length <= later.offset
            } by {
                assert(all[k] == tail[k - head.len()]);
                if j >= head.len() {
                    assert(all[j] == tail[j - head.len()]);
                }
            }
        } else {
            lemma_utf16_matches_from(cfg, data, base_offset, i + 1, big_endian);
        }
    }
}

/// The code unit that the two bytes at position `i` make.
fn unit_at(data: &[u8], i: usize, big_endian: bool) -> (unit: u16)
    requires
        i + 1 < data@.len(),
    ensures
        unit == code_unit(data@, i as int, big_endian),
{
    let first = data[i] as u16;
    let second = data[i + 1] as u16;
    if big_endian {
        first * 256 + second
    } else {
        second * 256 + first
    }
}

/// Follows the run that starts at `start`: where it ends, and the code units
/// it takes.
pub fn utf16_scan_run(data: &[u8], start: usize, big_endian: bool) -> (r: (usize, Vec<u16>))
    requires
        start <= data@.len(),
    ensures
        r.1@ == utf16_units(
            data@,
            start as int,
            utf16_run_units(data@, start as int, big_endian),
            big_endian,
        ),
        r.0 == start + 2 * utf16_run_units(data@, start as int, big_endian),
        r.0 <= data@.len(),
{
    let n = data.len();
    let mut i = start;
    let mut units: Vec<u16> = Vec::new();
    proof {
        lemma_utf16_run_bounds(data@, start as int, big_endian);
    }
    loop
        invariant_except_break
            start <= i <= n,
            n == data@.len(),
            i == start + 2 * units@.len(),
            units@ == utf16_units(data@, start as int, units@.len() as int, big_endian),
            units@.len() + utf16_run_units(data@, i as int, big_endian) == utf16_run_units(
                data@,
                start as int,
                big_endian,
            ),
        ensures
            n == data@.len(),
            i <= n,
            i == start + 2 * units@.len(),
            units@ == utf16_units(data@, start as int, units@.len() as int, big_endian),
            units@.len() == utf16_run_units(data@, start as int, big_endian),
        decreases n - i,
    {
        if n - i <= 1 {
            break ;
        }
        let unit = unit_at(data, i, big_endian);
        if unit == 0 {
            break ;
        }
        let ghost taken = units@;
        units.push(unit);
        assert(units@ =~= utf16_units(data@, start as int, units@.len() as int, big_endian));
        i += 2;
        if !(unit >= 0x20 && unit <= 0x7E) {
            break ;
        }
    }
    (i, units)
}

impl StringExtractor {
    /// Scans `data` for UTF-16 strings of one byte order. Each offset
    /// reported is `base_offset` plus the position of the string in `data`.
    pub fn extract_utf16(&self, data: &[u8], base_offset: u64, big_endian: bool) -> (results: Vec<
        FoundString,
    >)
        requires
            base_offset + data@.len() <= u64::MAX,
        ensures
            matches_of(results@) == utf16_matches(self@, data@, base_offset as int, big_endian),
    {
        let mut results: Vec<FoundString> = Vec::new();
        let n = data.len();
        let min_len = self.config().min_len;
        let mut i: usize = 0;
        while n - i > 1
            invariant
                i <= n,
                n == data@.len(),
                min_len == self@.min_len,
                base_offset + n <= u64::MAX,
                matches_of(results@) + utf16_matches_from(
                    self@,
                    data@,
                    base_offset as int,
                    i as int,
                    big_endian,
                ) == utf16_matches(self@, data@, base_offset as int, big_endian),
            decreases n - i,
        {
            let first = unit_at(data, i, big_endian);
            if first >= 0x20 && first <= 0x7E {
                let start = i;
                let (end, units) = utf16_scan_run(data, start, big_endian);
                proof {
                    lemma_utf16_run_bounds(data@, start + 2, big_endian);
                }
                let ghost before = matches_of(results@);
                if units.len() >= min_len {
                    match utf16_to_string(units.as_slice()) {
                        Some(content) => {
                            if self.matches_search_criteria(content.as_str()) {
                                let (context_before, context_after) = self.extract_context(
                                    data,
                                    start,
                                    end,
                                );
                                results.push(
                                    FoundString {
                                        offset: base_offset + start as u64,
                                        content,
                                        encoding: if big_endian {
                                            Encoding::Utf16Be
                                        } else {
                                            Encoding::Utf16Le
                                        },
                                        byte_length: end - start,
                                        context_before,
                                        context_after,
                                    },
                                );
                            }
                        },
                        None => {},
                    }
                }
                assert(matches_of(results@) =~= before + utf16_candidate(
                    self@,
                    data@,
                    base_offset as int,
                    start as int,
                    big_endian,
                ));
                i = end;
            } else {
                i += 1;
            }
        }
        results
    }

    /// Scans `data` for UTF-16 strings in little-endian byte order.
    pub fn extract_utf16le(&self, data: &[u8], base_offset: u64) -> (results: Vec<FoundString>)
        requires
            base_offset + data@.len() <= u64::MAX,
        ensures
            matches_of(results@) == utf16_matches(self@, data@, base_offset as int, false),
    {
        self.extract_utf16(data, base_offset, false)
    }

    /// Scans `data` for UTF-16 strings in big-endian byte order.
    pub fn extract_utf16be(&self, data: &[u8], base_offset: u64) -> (results: Vec<FoundString>)
        requires
            base_offset + data@.len() <= u64::MAX,
        ensures
            matches_of(results@) == utf16_matches(self@, data@, base_offset as int, true),
    {
        self.extract_utf16(data, base_offset, true)
    }
}

} // verus!
