//! The records in which found strings are reported: eight fields each,
//! under a header that names them.

use crate::codec::{hex_encode, string_from_chars};
use crate::digits::{
    decimal_digits, decimal_string, hex_digits_upper, hex_lower, push_hex_digits_upper,
};
use crate::extractor::{encoding_name, FoundString, Match};
use vstd::prelude::*;

verus! {

/// Renders found strings as records of eight fields.
pub struct CsvOutput;

/// The texts of a sequence of strings.
pub open spec fn texts(fields: Seq<String>) -> Seq<Seq<char>> {
    fields.map_values(|field: String| field@)
}

/// The texts of a sequence of records.
pub open spec fn row_texts(rows: Seq<Vec<String>>) -> Seq<Seq<Seq<char>>> {
    rows.map_values(|row: Vec<String>| texts(row@))
}

/// The names of the eight fields.
pub open spec fn header_fields() -> Seq<Seq<char>> {
    seq![
        "FilePath"@,
        "Offset(Hex)"@,
        "Offset(Dec)"@,
        "Encoding"@,
        "Length"@,
        "Content"@,
        "ContextBefore"@,
        "ContextAfter"@,
    ]
}

/// An offset in hexadecimal: `0x`, then upper-case digits without leading
/// zeros.
pub open spec fn hex_offset(offset: int) -> Seq<char> {
    seq!['0', 'x'] + hex_digits_upper(offset as nat)
}

/// Context bytes in hexadecimal, two lower-case digits for each byte;
/// empty where there is no context.
pub open spec fn context_hex(context: Option<Seq<u8>>) -> Seq<char> {
    match context {
        Some(bytes) => hex_lower(bytes),
        None => Seq::empty(),
    }
}

/// The eight fields of the record for a found string: the path of the
/// input, the offset in hexadecimal and in decimal, the name of the
/// encoding, the byte length, the text, and the context before and after
/// in hexadecimal.
pub open spec fn record_fields(found: Match, file_path: Seq<char>) -> Seq<Seq<char>> {
    seq![
        file_path,
        hex_offset(found.offset),
        decimal_digits(found.offset as nat),
        encoding_name(found.encoding),
        decimal_digits(found.byte_length as nat),
        found.content,
        context_hex(found.context_before),
        context_hex(found.context_after),
    ]
}

/// The header and one record for each found string, in their order.
pub open spec fn result_rows(found: Seq<Match>, file_path: Seq<char>) -> Seq<Seq<Seq<char>>> {
    seq![header_fields()] + found.map_values(|one: Match| record_fields(one, file_path))
}

/// The hexadecimal text of context bytes.
fn context_field(context: &Option<Vec<u8>>) -> (text: String)
    ensures
        text@ == context_hex(crate::extractor::bytes_view(*context)),
{
    match context {
        Some(bytes) => hex_encode(bytes),
        None => String::new(),
    }
}

impl CsvOutput {
    /// The names of the eight fields.
    pub fn header() -> (fields: Vec<String>)
        ensures
            texts(fields@) == header_fields(),
    {
        let mut fields: Vec<String> = Vec::new();
        fields.push("FilePath".to_owned());
        fields.push("Offset(Hex)".to_owned());
        fields.push("Offset(Dec)".to_owned());
        fields.push("Encoding".to_owned());
        fields.push("Length".to_owned());
        fields.push("Content".to_owned());
        fields.push("ContextBefore".to_owned());
        fields.push("ContextAfter".to_owned());
        assert(texts(fields@) =~= header_fields());
        fields
    }

    /// The fields of the record for one found string.
    pub fn record(found: &FoundString, file_path: &str) -> (fields: Vec<String>)
        ensures
            texts(fields@) == record_fields(found@, file_path@),
    {
        let mut hex: Vec<char> = Vec::new();
        hex.push('0');
        hex.push('x');
        push_hex_digits_upper(&mut hex, found.offset);
        assert(hex@ =~= hex_offset(found.offset as int));
        let mut fields: Vec<String> = Vec::new();
        fields.push(file_path.to_owned());
        fields.push(string_from_chars(&hex));
        fields.push(decimal_string(found.offset));
        fields.push(found.encoding.to_string());
        fields.push(decimal_string(found.byte_length as u64));
        fields.push(found.content.clone());
        fields.push(context_field(&found.context_before));
        fields.push(context_field(&found.context_after));
        assert(texts(fields@) =~= record_fields(found@, file_path@));
        fields
    }

    /// The header and the records for the found strings, in their order.
    pub fn rows(results: &[FoundString], file_path: &str) -> (rows: Vec<Vec<String>>)
        ensures
            row_texts(rows@) == result_rows(crate::extractor::matches_of(results@), file_path@),
    {
        let ghost found = crate::extractor::matches_of(results@);
        let mut rows: Vec<Vec<String>> = Vec::new();
        rows.push(CsvOutput::header());
        let mut i: usize = 0;
        while i < results.len()
            invariant
                i <= results@.len(),
                found == crate::extractor::matches_of(results@),
                rows@.len() == i + 1,
                texts(rows@[0]@) == header_fields(),
                forall|k: int|
                    0 <= k < i ==> texts((#[trigger] rows@[k + 1])@) == record_fields(
                        found[k],
                        file_path@,
                    ),
            decreases results@.len() - i,
        {
            rows.push(CsvOutput::record(&results[i], file_path));
            i += 1;
        }
        proof {
            let expected = result_rows(found, file_path@);
            assert(row_texts(rows@).len() == expected.len());
            assert forall|k: int| 0 <= k < expected.len() implies row_texts(rows@)[k]
                == expected[k] by {
                if k > 0 {
                    assert(texts(rows@[k - 1 + 1]@) == record_fields(found[k - 1], file_path@));
                }
            }
            assert(row_texts(rows@) =~= expected);
        }
        rows
    }
}

} // verus!
