//! The extraction engine: its configuration, the strings it reports, the
//! filter it applies to candidates and the context it captures around them.

use crate::ascii::{ascii_matches, ascii_sound, lemma_ascii_matches_from};
use crate::config::EncodingType;
use crate::error::MemstrapError;
use crate::gbk::{gbk_matches, gbk_sound, lemma_gbk_matches_from};
use crate::pattern::{
    compile_pattern, is_substring, pattern_is_match, regex_accepts, regex_source, str_contains,
};
use crate::utf16::{lemma_utf16_matches_from, utf16_matches, utf16_sound};
use regex::Regex;
use vstd::prelude::*;
use vstd::slice::{slice_subrange, slice_to_vec};

verus! {

/// The encoding under which a string was found.
#[derive(Debug, Clone, Copy, PartialEq, Eq, Hash, Structural)]
pub enum Encoding {
    Ascii,
    Utf8,
    Utf16Le,
    Utf16Be,
    Gbk,
}

/// The encoding that a requested encoding type stands for.
pub open spec fn encoding_of(encoding_type: EncodingType) -> Encoding {
    match encoding_type {
        EncodingType::Ascii => Encoding::Ascii,
        EncodingType::Utf8 => Encoding::Utf8,
        EncodingType::Utf16Le => Encoding::Utf16Le,
        EncodingType::Utf16Be => Encoding::Utf16Be,
        EncodingType::Gbk => Encoding::Gbk,
    }
}

impl From<EncodingType> for Encoding {
    fn from(encoding_type: EncodingType) -> (r: Encoding) {
        match encoding_type {
            EncodingType::Ascii => Encoding::Ascii,
            EncodingType::Utf8 => Encoding::Utf8,
            EncodingType::Utf16Le => Encoding::Utf16Le,
            EncodingType::Utf16Be => Encoding::Utf16Be,
            EncodingType::Gbk => Encoding::Gbk,
        }
    }
}

impl vstd::std_specs::convert::FromSpecImpl<EncodingType> for Encoding {
    open spec fn obeys_from_spec() -> bool {
        true
    }

    open spec fn from_spec(encoding_type: EncodingType) -> Encoding {
        encoding_of(encoding_type)
    }
}

/// The name under which an encoding is reported.
pub open spec fn encoding_name(encoding: Encoding) -> Seq<char> {
    match encoding {
        Encoding::Ascii => "ASCII"@,
        Encoding::Utf8 => "UTF-8"@,
        Encoding::Utf16Le => "UTF-16LE"@,
        Encoding::Utf16Be => "UTF-16BE"@,
        Encoding::Gbk => "GBK"@,
    }
}

impl Encoding {
    /// The name under which the encoding is reported.
    pub fn to_string(&self) -> (name: String)
        ensures
            name@ == encoding_name(*self),
    {
        match self {
            Encoding::Ascii => "ASCII".to_owned(),
            Encoding::Utf8 => "UTF-8".to_owned(),
            Encoding::Utf16Le => "UTF-16LE".to_owned(),
            Encoding::Utf16Be => "UTF-16BE".to_owned(),
            Encoding::Gbk => "GBK".to_owned(),
        }
    }
}

/// The encodings that a list of requested types stands for, each once, in
/// the order in which they first occur.
pub open spec fn distinct_encodings(types: Seq<EncodingType>) -> Seq<Encoding>
    decreases types.len(),
{
    if types.len() == 0 {
        Seq::empty()
    } else {
        let earlier = distinct_encodings(types.drop_last());
        let encoding = encoding_of(types.last());
        if earlier.contains(encoding) {
            earlier
        } else {
            earlier.push(encoding)
        }
    }
}

/// The distinct encodings hold no encoding twice, and hold exactly those
/// that a requested type stands for.
pub proof fn lemma_distinct_encodings(types: Seq<EncodingType>)
    ensures
        distinct_encodings(types).no_duplicates(),
        forall|encoding: Encoding|
            distinct_encodings(types).contains(encoding) <==> exists|k: int|
                0 <= k < types.len() && encoding_of(#[trigger] types[k]) == encoding,
    decreases types.len(),
{
    if types.len() > 0 {
        let shorter = types.drop_last();
        let earlier = distinct_encodings(shorter);
        let last = encoding_of(types.last());
        lemma_distinct_encodings(shorter);
        assert forall|encoding: Encoding|
            distinct_encodings(types).contains(encoding) <==> exists|k: int|
                0 <= k < types.len() && encoding_of(#[trigger] types[k]) == encoding by {
            if distinct_encodings(types).contains(encoding) {
                if earlier.contains(encoding) {
                    let k = choose|k: int|
                        0 <= k < shorter.len() && encoding_of(#[trigger] shorter[k]) == encoding;
                    assert(encoding_of(types[k]) == encoding);
                } else {
                    let j = choose|j: int|
                        0 <= j < distinct_encodings(types).len() && distinct_encodings(types)[j]
                            == encoding;
                    assert(j == earlier.len());
                    assert(encoding_of(types[types.len() - 1]) == encoding);
                }
            }
            if exists|k: int| 0 <= k < types.len() && encoding_of(#[trigger] types[k]) == encoding {
                let k = choose|k: int|
                    0 <= k < types.len() && encoding_of(#[trigger] types[k]) == encoding;
                if k < shorter.len() {
                    assert(encoding_of(shorter[k]) == encoding);
                    assert(earlier.contains(encoding));
                    let j = choose|j: int| 0 <= j < earlier.len() && earlier[j] == encoding;
                    assert(distinct_encodings(types)[j] == encoding);
                } else {
                    if earlier.contains(encoding) {
                        let j = choose|j: int| 0 <= j < earlier.len() && earlier[j] == encoding;
                        assert(distinct_encodings(types)[j] == encoding);
                    } else {
                        assert(distinct_encodings(types)[earlier.len() as int] == encoding);
                    }
                }
            }
        }
    }
}

/// A string found in a buffer, with its position and surroundings.
#[derive(Debug, Clone)]
pub struct FoundString {
    /// Where the string starts, counted from the start of the whole input.
    pub offset: u64,
    /// The decoded text.
    pub content: String,
    /// The encoding it was found under.
    pub encoding: Encoding,
    /// The number of source bytes that the string spans.
    pub byte_length: usize,
    /// The bytes just before the string, when context is captured.
    pub context_before: Option<Vec<u8>>,
    /// The bytes just after the string, when context is captured.
    pub context_after: Option<Vec<u8>>,
}

/// The mathematical value of a [`FoundString`].
pub struct Match {
    pub offset: int,
    pub content: Seq<char>,
    pub encoding: Encoding,
    pub byte_length: int,
    pub context_before: Option<Seq<u8>>,
    pub context_after: Option<Seq<u8>>,
}

/// The value of an optional byte vector.
pub open spec fn bytes_view(bytes: Option<Vec<u8>>) -> Option<Seq<u8>> {
    match bytes {
        Some(v) => Some(v@),
        None => None,
    }
}

impl View for FoundString {
    type V = Match;

    open spec fn view(&self) -> Match {
        Match {
            offset: self.offset as int,
            content: self.content@,
            encoding: self.encoding,
            byte_length: self.byte_length as int,
            context_before: bytes_view(self.context_before),
            context_after: bytes_view(self.context_after),
        }
    }
}

/// The values of a sequence of found strings.
pub open spec fn matches_of(found: Seq<FoundString>) -> Seq<Match> {
    found.map_values(|f: FoundString| f@)
}

/// Printable ASCII: the bytes from space to tilde.
pub open spec fn printable(byte: u8) -> bool {
    0x20 <= byte <= 0x7E
}

/// A byte that ends a run of text: NUL, or a control byte other than tab.
pub open spec fn terminator(byte: u8) -> bool {
    byte < 0x20 && byte != 0x09
}

/// The test that decoded text must pass to be reported: a substring to
/// hold, or an expression to match, never both.
pub enum SearchFilter {
    /// The text must hold this substring.
    Text(String),
    /// The text must match this compiled expression.
    Pattern(Regex),
}

/// What an extraction looks for and how it filters what it finds.
pub struct ExtractionConfig {
    /// The least length of a candidate: bytes for the byte-oriented
    /// encodings, code units for the two 16-bit ones.
    pub min_len: usize,
    /// The encodings to scan for, each at most once.
    pub encodings: Vec<Encoding>,
    /// The filter; none lets every candidate pass.
    pub filter: Option<SearchFilter>,
    /// How many bytes to capture on each side of a string.
    pub context_bytes: Option<usize>,
}

/// The filter that a search pattern stands for when it is taken as plain
/// text.
pub open spec fn text_filter(search_pattern: Option<String>) -> Option<SearchFilter> {
    match search_pattern {
        Some(pattern) => Some(SearchFilter::Text(pattern)),
        None => None,
    }
}

impl ExtractionConfig {
    /// The encodings form a set: none stands in the list twice.
    pub open spec fn well_formed(&self) -> bool {
        self.encodings@.no_duplicates()
    }

    /// Whether `encoding` is among those to scan for.
    pub open spec fn wants(&self, encoding: Encoding) -> bool {
        self.encodings@.contains(encoding)
    }

    /// Whether decoded text passes the filter: it matches the expression,
    /// or holds the substring, or there is no filter.
    pub open spec fn accepts(&self, content: Seq<char>) -> bool {
        match self.filter {
            Some(SearchFilter::Pattern(re)) => regex_accepts(re, content),
            Some(SearchFilter::Text(pattern)) => is_substring(pattern@, content),
            None => true,
        }
    }

    /// The bytes captured before a string that starts at `start`: up to the
    /// configured number, clipped at the start of the buffer, and absent
    /// where not one byte is to be had.
    pub open spec fn context_before(&self, data: Seq<u8>, start: int) -> Option<Seq<u8>> {
        match self.context_bytes {
            Some(size) => if size > 0 && start > 0 {
                Some(data.subrange(if start >= size { start - size } else { 0 }, start))
            } else {
                None
            },
            None => None,
        }
    }

    /// The bytes captured after a string that ends at `end`: up to the
    /// configured number, clipped at the end of the buffer, and absent where
    /// not one byte is to be had.
    pub open spec fn context_after(&self, data: Seq<u8>, end: int) -> Option<Seq<u8>> {
        match self.context_bytes {
            Some(size) => if size > 0 && end < data.len() {
                Some(
                    data.subrange(
                        end,
                        if data.len() - end >= size {
                            end + size
                        } else {
                            data.len() as int
                        },
                    ),
                )
            } else {
                None
            },
            None => None,
        }
    }

    /// Everything an extraction over `data` reports: what each enabled
    /// scanner finds, one scanner after the other. The ASCII and UTF-8
    /// scanner runs where either of the two encodings is asked for.
    pub open spec fn matches(&self, data: Seq<u8>, base_offset: int) -> Seq<Match> {
        (if self.wants(Encoding::Ascii) || self.wants(Encoding::Utf8) {
            ascii_matches(*self, data, base_offset)
        } else {
            Seq::empty()
        }) + (if self.wants(Encoding::Utf16Le) {
            utf16_matches(*self, data, base_offset, false)
        } else {
            Seq::empty()
        }) + (if self.wants(Encoding::Utf16Be) {
            utf16_matches(*self, data, base_offset, true)
        } else {
            Seq::empty()
        }) + (if self.wants(Encoding::Gbk) {
            gbk_matches(*self, data, base_offset)
        } else {
            Seq::empty()
        })
    }

    /// What holds of every string that an extraction over `data` reports:
    /// its encoding belongs to a scanner that is enabled, and it is sound for
    /// that scanner. In particular it lies inside the buffer, its byte
    /// length is the number of bytes of the run it was read from (two for
    /// each code unit under the 16-bit encodings), and the run has at least
    /// the least length of bytes or code units.
    pub open spec fn sound(&self, data: Seq<u8>, base_offset: int, found: Match) -> bool {
        match found.encoding {
            Encoding::Ascii | Encoding::Utf8 => (self.wants(Encoding::Ascii) || self.wants(
                Encoding::Utf8,
            )) && ascii_sound(*self, data, base_offset, found),
            Encoding::Utf16Le => self.wants(Encoding::Utf16Le) && utf16_sound(
                *self,
                data,
                base_offset,
                false,
                found,
            ),
            Encoding::Utf16Be => self.wants(Encoding::Utf16Be) && utf16_sound(
                *self,
                data,
                base_offset,
                true,
                found,
            ),
            Encoding::Gbk => self.wants(Encoding::Gbk) && gbk_sound(
                *self,
                data,
                base_offset,
                found,
            ),
        }
    }

    /// The reported string for a run of `data` from `start` to `end` that
    /// decodes to `content`.
    pub open spec fn found(
        &self,
        data: Seq<u8>,
        base_offset: int,
        start: int,
        end: int,
        content: Seq<char>,
        encoding: Encoding,
    ) -> Match {
        Match {
            offset: base_offset + start,
            content,
            encoding,
            byte_length: end - start,
            context_before: self.context_before(data, start),
            context_after: self.context_after(data, end),
        }
    }
}

/// Runs the enabled scanners over buffers.
pub struct StringExtractor {
    config: ExtractionConfig,
}

impl View for StringExtractor {
    type V = ExtractionConfig;

    closed spec fn view(&self) -> ExtractionConfig {
        self.config
    }
}

/// Every string that an extraction reports is sound.
pub proof fn lemma_matches_sound(cfg: ExtractionConfig, data: Seq<u8>, base_offset: int)
    ensures
        forall|k: int|
            0 <= k < cfg.matches(data, base_offset).len() ==> cfg.sound(
                data,
                base_offset,
                #[trigger] cfg.matches(data, base_offset)[k],
            ),
{
    lemma_ascii_matches_from(cfg, data, base_offset, 0);
    lemma_utf16_matches_from(cfg, data, base_offset, 0, false);
    lemma_utf16_matches_from(cfg, data, base_offset, 0, true);
    lemma_gbk_matches_from(cfg, data, base_offset, 0);
    let ascii = if cfg.wants(Encoding::Ascii) || cfg.wants(Encoding::Utf8) {
        ascii_matches(cfg, data, base_offset)
    } else {
        Seq::empty()
    };
    let le = if cfg.wants(Encoding::Utf16Le) {
        utf16_matches(cfg, data, base_offset, false)
    } else {
        Seq::empty()
    };
    let be = if cfg.wants(Encoding::Utf16Be) {
        utf16_matches(cfg, data, base_offset, true)
    } else {
        Seq::empty()
    };
    let gbk = if cfg.wants(Encoding::Gbk) {
        gbk_matches(cfg, data, base_offset)
    } else {
        Seq::empty()
    };
    let all = cfg.matches(data, base_offset);
    assert(all == ascii + le + be + gbk);
    assert forall|k: int| 0 <= k < all.len() implies cfg.sound(
        data,
        base_offset,
        #[trigger] all[k],
    ) by {
        if k < ascii.len() {
            assert(all[k] == ascii[k]);
        } else if k < ascii.len() + le.len() {
            assert(all[k] == le[k - ascii.len()]);
        } else if k < ascii.len() + le.len() + be.len() {
            assert(all[k] == be[k - ascii.len() - le.len()]);
        } else {
            assert(all[k] == gbk[k - ascii.len() - le.len() - be.len()]);
        }
    }
}

/// Two extractions with one configuration over one buffer and one base
/// offset report the same strings: as many, and field for field the same.
pub proof fn lemma_extraction_deterministic(
    cfg: ExtractionConfig,
    data: Seq<u8>,
    base_offset: int,
    first: Seq<FoundString>,
    second: Seq<FoundString>,
)
    requires
        matches_of(first) == cfg.matches(data, base_offset),
        matches_of(second) == cfg.matches(data, base_offset),
    ensures
        first.len() == second.len(),
        forall|k: int|
            0 <= k < first.len() ==> {
                &&& (#[trigger] first[k]).offset == second[k].offset
                &&& first[k].content@ == second[k].content@
                &&& first[k].encoding == second[k].encoding
                &&& first[k].byte_length == second[k].byte_length
                &&& bytes_view(first[k].context_before) == bytes_view(second[k].context_before)
                &&& bytes_view(first[k].context_after) == bytes_view(second[k].context_after)
            },
{
    assert(matches_of(first).len() == matches_of(second).len());
    assert forall|k: int| 0 <= k < first.len() implies {
        &&& (#[trigger] first[k]).offset == second[k].offset
        &&& first[k].content@ == second[k].content@
        &&& first[k].encoding == second[k].encoding
        &&& first[k].byte_length == second[k].byte_length
        &&& bytes_view(first[k].context_before) == bytes_view(second[k].context_before)
        &&& bytes_view(first[k].context_after) == bytes_view(second[k].context_after)
    } by {
        assert(matches_of(first)[k] == first[k]@);
        assert(matches_of(second)[k] == second[k]@);
    }
}

/// The encodings that a list of requested types stands for, each once.
fn collect_encodings(types: &Vec<EncodingType>) -> (r: Vec<Encoding>)
    ensures
        r@ == distinct_encodings(types@),
{
    let mut out: Vec<Encoding> = Vec::new();
    let mut i: usize = 0;
    while i < types.len()
        invariant
            i <= types@.len(),
            out@ == distinct_encodings(types@.take(i as int)),
        decreases types@.len() - i,
    {
        let encoding = Encoding::from(types[i]);
        let mut known = false;
        let mut j: usize = 0;
        while j < out.len()
            invariant
                j <= out@.len(),
                known == exists|k: int| 0 <= k < j && out@[k] == encoding,
            decreases out@.len() - j,
        {
            if out[j] == encoding {
                known = true;
            }
            j += 1;
        }
        assert(known == out@.contains(encoding));
        assert(types@.take(i + 1).drop_last() =~= types@.take(i as int));
        if !known {
            out.push(encoding);
        }
        i += 1;
    }
    assert(types@.take(types@.len() as int) =~= types@);
    out
}

impl StringExtractor {
    /// Builds an extractor. With `use_regex` set and a search pattern given,
    /// the pattern is compiled as a regular expression, and a pattern that
    /// does not compile is the one way to fail; otherwise the pattern, if
    /// any, is searched for as plain text.
    pub fn new(
        min_len: usize,
        encodings: Vec<EncodingType>,
        search_pattern: Option<String>,
        use_regex: bool,
        context_bytes: Option<usize>,
    ) -> (r: Result<StringExtractor, MemstrapError>)
        ensures
            !(use_regex && search_pattern is Some) ==> r is Ok,
            match r {
                Ok(extractor) => {
                    &&& extractor@.well_formed()
                    &&& extractor@.min_len == min_len
                    &&& extractor@.encodings@ == distinct_encodings(encodings@)
                    &&& extractor@.context_bytes == context_bytes
                    &&& if use_regex && search_pattern is Some {
                        extractor@.filter matches Some(SearchFilter::Pattern(re)) && regex_source(
                            re,
                        ) == search_pattern->0@
                    } else {
                        extractor@.filter == text_filter(search_pattern)
                    }
                },
                Err(e) => use_regex && search_pattern is Some && e is Regex,
            },
    {
        let compiled = match &search_pattern {
            Some(pattern) => if use_regex {
                Some(compile_pattern(pattern.as_str()))
            } else {
                None
            },
            None => None,
        };
        StringExtractor::from_compiled(min_len, encodings, search_pattern, compiled, context_bytes)
    }

    /// Builds an extractor from the outcome of compiling the search
    /// expression: `None` where there is no expression to compile, and the
    /// search pattern, if any, is plain text. A failed compilation is handed
    /// on as the error; everything else succeeds.
    pub fn from_compiled(
        min_len: usize,
        encodings: Vec<EncodingType>,
        search_pattern: Option<String>,
        compiled: Option<Result<Regex, regex::Error>>,
        context_bytes: Option<usize>,
    ) -> (r: Result<StringExtractor, MemstrapError>)
        ensures
            match compiled {
                Some(Err(e)) => r == Err::<StringExtractor, MemstrapError>(MemstrapError::Regex(e)),
                Some(Ok(re)) => r is Ok && r->Ok_0@.filter == Some(SearchFilter::Pattern(re)),
                None => r is Ok && r->Ok_0@.filter == text_filter(search_pattern),
            },
            r matches Ok(extractor) ==> {
                &&& extractor@.well_formed()
                &&& extractor@.min_len == min_len
                &&& extractor@.encodings@ == distinct_encodings(encodings@)
                &&& extractor@.context_bytes == context_bytes
            },
    {
        proof {
            lemma_distinct_encodings(encodings@);
        }
        let filter = match compiled {
            Some(Ok(re)) => Some(SearchFilter::Pattern(re)),
            Some(Err(e)) => {
                return Err(MemstrapError::Regex(e));
            },
            None => match search_pattern {
                Some(pattern) => Some(SearchFilter::Text(pattern)),
                None => None,
            },
        };
        let config = ExtractionConfig {
            min_len,
            encodings: collect_encodings(&encodings),
            filter,
            context_bytes,
        };
        Ok(StringExtractor { config })
    }

    /// Runs each enabled scanner once over `data` and reports what they
    /// find, one scanner after the other. Each offset reported is
    /// `base_offset` plus the position of the string in `data`.
    pub fn extract_strings(&self, data: &[u8], base_offset: u64) -> (results: Vec<FoundString>)
        requires
            base_offset + data@.len() <= u64::MAX,
        ensures
            matches_of(results@) == self@.matches(data@, base_offset as int),
            forall|k: int|
                0 <= k < results@.len() ==> self@.sound(
                    data@,
                    base_offset as int,
                    #[trigger] results@[k]@,
                ),
    {
        let mut results: Vec<FoundString> = Vec::with_capacity(1024);
        if self.wants(Encoding::Ascii) || self.wants(Encoding::Utf8) {
            let mut found = self.extract_ascii_utf8(data, base_offset);
            let ghost before = results@;
            results.append(&mut found);
            assert(matches_of(results@) =~= matches_of(before) + ascii_matches(
                self@,
                data@,
                base_offset as int,
            ));
        }
        if self.wants(Encoding::Utf16Le) {
            let mut found = self.extract_utf16le(data, base_offset);
            let ghost before = results@;
            results.append(&mut found);
            assert(matches_of(results@) =~= matches_of(before) + utf16_matches(
                self@,
                data@,
                base_offset as int,
                false,
            ));
        }
        if self.wants(Encoding::Utf16Be) {
            let mut found = self.extract_utf16be(data, base_offset);
            let ghost before = results@;
            results.append(&mut found);
            assert(matches_of(results@) =~= matches_of(before) + utf16_matches(
                self@,
                data@,
                base_offset as int,
                true,
            ));
        }
        if self.wants(Encoding::Gbk) {
            let mut found = self.extract_gbk(data, base_offset);
            let ghost before = results@;
            results.append(&mut found);
            assert(matches_of(results@) =~= matches_of(before) + gbk_matches(
                self@,
                data@,
                base_offset as int,
            ));
        }
        assert(matches_of(results@) =~= self@.matches(data@, base_offset as int));
        proof {
            lemma_matches_sound(self@, data@, base_offset as int);
            assert forall|k: int| 0 <= k < results@.len() implies self@.sound(
                data@,
                base_offset as int,
                #[trigger] results@[k]@,
            ) by {
                assert(matches_of(results@)[k] == results@[k]@);
            }
        }
        results
    }

    /// The configuration this extractor was built with.
    pub fn config(&self) -> (config: &ExtractionConfig)
        ensures
            *config == self@,
    {
        &self.config
    }

    /// Whether `encoding` is among those to scan for.
    pub fn wants(&self, encoding: Encoding) -> (r: bool)
        ensures
            r == self@.wants(encoding),
    {
        let encodings = &self.config.encodings;
        let mut i: usize = 0;
        while i < encodings.len()
            invariant
                i <= encodings.len(),
                encodings@ == self@.encodings@,
                forall|k: int| 0 <= k < i ==> encodings@[k] != encoding,
            decreases encodings.len() - i,
        {
            if encodings[i] == encoding {
                assert(encodings@[i as int] == encoding);
                return true;
            }
            i += 1;
        }
        false
    }

    /// Whether a byte is printable ASCII.
    pub fn is_printable_ascii(&self, byte: u8) -> (r: bool)
        ensures
            r == printable(byte),
    {
        byte >= 0x20 && byte <= 0x7E
    }

    /// Whether decoded text passes the configured filter.
    pub fn matches_search_criteria(&self, content: &str) -> (r: bool)
        ensures
            r == self@.accepts(content@),
    {
        match &self.config.filter {
            Some(SearchFilter::Pattern(re)) => pattern_is_match(re, content),
            Some(SearchFilter::Text(pattern)) => str_contains(content, pattern.as_str()),
            None => true,
        }
    }

    /// The context bytes around the run of `data` from `start` to `end`.
    pub fn extract_context(&self, data: &[u8], start: usize, end: usize) -> (r: (
        Option<Vec<u8>>,
        Option<Vec<u8>>,
    ))
        requires
            start <= end <= data@.len(),
        ensures
            bytes_view(r.0) == self@.context_before(data@, start as int),
            bytes_view(r.1) == self@.context_after(data@, end as int),
    {
        match self.config.context_bytes {
            Some(context_size) => {
                let before_start = if start >= context_size {
                    start - context_size
                } else {
                    0
                };
                let after_end = if data.len() - end >= context_size {
                    end + context_size
                } else {
                    data.len()
                };
                let context_before = if before_start < start {
                    Some(slice_to_vec(slice_subrange(data, before_start, start)))
                } else {
                    None
                };
                let context_after = if end < after_end {
                    Some(slice_to_vec(slice_subrange(data, end, after_end)))
                } else {
                    None
                };
                (context_before, context_after)
            },
            None => (None, None),
        }
    }
}

} // verus!
