//! Rewriting of paths as a memory file system reports them into paths
//! under the drive where that file system is mounted.

use crate::codec::string_from_chars;
use crate::digits::{decimal_text, push_decimal};
use vstd::prelude::*;

verus! {

/// The separator of path components.
pub open spec fn backslash() -> char {
    '\\'
}

/// The root under which the files of the image are mounted by directory.
pub open spec fn files_root() -> Seq<char> {
    "M:\\forensic\\files\\ROOT"@
}

/// The root under which the volumes of the image are mounted.
pub open spec fn ntfs_root() -> Seq<char> {
    "M:\\forensic\\ntfs\\"@
}

/// How a device path names a volume, up to the number of the volume.
pub open spec fn volume_prefix() -> Seq<char> {
    "Device\\HarddiskVolume"@
}

/// The path without the backslash it may start with.
pub open spec fn cleaned_path(path: Seq<char>) -> Seq<char> {
    if path.len() > 0 && path[0] == backslash() {
        path.skip(1)
    } else {
        path
    }
}

/// The place of the first backslash at or after `from`, or the length of
/// the path where there is none.
pub open spec fn first_backslash(path: Seq<char>, from: int) -> int
    decreases path.len() - from,
{
    if from < 0 || from >= path.len() {
        path.len() as int
    } else if path[from] == backslash() {
        from
    } else {
        first_backslash(path, from + 1)
    }
}

/// The place of the last backslash before `until`, or -1 where there is
/// none.
pub open spec fn last_backslash(path: Seq<char>, until: int) -> int
    decreases until,
{
    if until <= 0 || until > path.len() {
        -1
    } else if path[until - 1] == backslash() {
        until - 1
    } else {
        last_backslash(path, until - 1)
    }
}

/// Whether `text` starts with `prefix`.
pub open spec fn has_prefix(text: Seq<char>, prefix: Seq<char>) -> bool {
    prefix.len() <= text.len() && text.take(prefix.len() as int) == prefix
}

/// The path with each slash turned into a backslash.
pub open spec fn backslashed(path: Seq<char>) -> Seq<char> {
    Seq::new(path.len(), |k: int| if path[k] == '/' { backslash() } else { path[k] })
}

/// A decimal digit.
pub open spec fn is_digit(c: char) -> bool {
    '0' <= c <= '9'
}

/// Whether every character is a decimal digit.
pub open spec fn all_digits(digits: Seq<char>) -> bool {
    forall|k: int| 0 <= k < digits.len() ==> is_digit(#[trigger] digits[k])
}

/// The number that a sequence of decimal digits writes.
pub open spec fn decimal_value(digits: Seq<char>) -> int
    decreases digits.len(),
{
    if digits.len() == 0 {
        0
    } else {
        decimal_value(digits.drop_last()) * 10 + (digits.last() as int - '0' as int)
    }
}

/// The 32-bit number that `text` writes: an optional sign, then one decimal
/// digit or more, with a value in range. `None` for any other text.
pub open spec fn parsed_i32(text: Seq<char>) -> Option<int> {
    let signed = text.len() > 0 && (text[0] == '+' || text[0] == '-');
    let digits = if signed {
        text.skip(1)
    } else {
        text
    };
    let magnitude = decimal_value(digits);
    let value = if signed && text[0] == '-' {
        -magnitude
    } else {
        magnitude
    };
    if digits.len() > 0 && all_digits(digits) && i32::MIN <= value <= i32::MAX {
        Some(value)
    } else {
        None
    }
}

/// The number before `n`, wrapping around at the least 32-bit number.
pub open spec fn wrapping_pred(n: int) -> int {
    if n == i32::MIN {
        i32::MAX as int
    } else {
        n - 1
    }
}

/// The directory of a cleaned path under the files root: the root itself
/// where the path has no backslash.
pub open spec fn normal_target(cleaned: Seq<char>) -> Seq<char> {
    let cut = last_backslash(cleaned, cleaned.len() as int);
    if cut >= 0 {
        files_root() + seq![backslash()] + cleaned.take(cut)
    } else {
        files_root()
    }
}

/// A cleaned path under the volumes root.
pub open spec fn ntfs_target(cleaned: Seq<char>) -> Seq<char> {
    ntfs_root() + cleaned
}

/// A cleaned device path under the volumes root. Where the path names a
/// volume by a number and goes on after a backslash, the volume appears
/// under the number before it; any other path is taken as it is.
pub open spec fn vol2_target(cleaned: Seq<char>) -> Seq<char> {
    let after = cleaned.skip(volume_prefix().len() as int);
    let cut = first_backslash(after, 0);
    if has_prefix(cleaned, volume_prefix()) && cut < after.len() {
        match parsed_i32(after.take(cut)) {
            Some(volume) => ntfs_root() + decimal_text(wrapping_pred(volume)) + seq![backslash()]
                + after.skip(cut + 1),
            None => ntfs_target(cleaned),
        }
    } else {
        ntfs_target(cleaned)
    }
}

/// The local path for `path` under `mode`, with backslashes throughout.
pub open spec fn converted_path(path: Seq<char>, mode: Seq<char>) -> Seq<char> {
    let cleaned = cleaned_path(path);
    backslashed(
        if mode == "normal"@ {
            normal_target(cleaned)
        } else if mode == "vol2"@ {
            vol2_target(cleaned)
        } else {
            ntfs_target(cleaned)
        },
    )
}

/// The characters of a string.
fn chars_of(text: &str) -> (chars: Vec<char>)
    ensures
        chars@ == text@,
{
    let mut chars: Vec<char> = Vec::new();
    append_str(&mut chars, text);
    chars
}

/// Appends the characters of a string.
fn append_str(out: &mut Vec<char>, text: &str)
    ensures
        final(out)@ == old(out)@ + text@,
{
    let ghost before = out@;
    for c in it: text.chars()
        invariant
            it.seq() == text@,
            out@ == before + it.seq().take(it.index() as int),
    {
        assert(it.seq().take(it.index() + 1) =~= it.seq().take(it.index() as int).push(c));
        out.push(c);
        assert(out@ =~= before + it.seq().take(it.index() + 1));
    }
    assert(text@.take(text@.len() as int) =~= text@);
}

/// Appends the characters of `chars` from `from` on.
fn append_tail(out: &mut Vec<char>, chars: &Vec<char>, from: usize)
    requires
        from <= chars@.len(),
    ensures
        final(out)@ == old(out)@ + chars@.skip(from as int),
{
    let ghost before = out@;
    let mut k = from;
    while k < chars.len()
        invariant
            from <= k <= chars@.len(),
            out@ == before + chars@.subrange(from as int, k as int),
        decreases chars@.len() - k,
    {
        out.push(chars[k]);
        k += 1;
        assert(out@ =~= before + chars@.subrange(from as int, k as int));
    }
    assert(chars@.subrange(from as int, chars@.len() as int) =~= chars@.skip(from as int));
}

/// Whether two strings hold the same characters.
fn same_text(a: &str, b: &str) -> (r: bool)
    ensures
        r == (a@ == b@),
{
    let left = chars_of(a);
    let right = chars_of(b);
    if left.len() != right.len() {
        return false;
    }
    let mut k: usize = 0;
    while k < left.len()
        invariant
            k <= left@.len(),
            left@ == a@,
            right@ == b@,
            left@.len() == right@.len(),
            forall|j: int| 0 <= j < k ==> left@[j] == right@[j],
        decreases left@.len() - k,
    {
        if left[k] != right[k] {
            return false;
        }
        k += 1;
    }
    assert(left@ =~= right@);
    true
}

/// Whether `chars` starts with `prefix`.
fn starts_with(chars: &Vec<char>, prefix: &Vec<char>) -> (r: bool)
    ensures
        r == has_prefix(chars@, prefix@),
{
    if prefix.len() > chars.len() {
        return false;
    }
    let mut k: usize = 0;
    while k < prefix.len()
        invariant
            k <= prefix@.len() <= chars@.len(),
            forall|j: int| 0 <= j < k ==> chars@[j] == prefix@[j],
        decreases prefix@.len() - k,
    {
        if chars[k] != prefix[k] {
            assert(chars@.take(prefix@.len() as int)[k as int] != prefix@[k as int]);
            return false;
        }
        k += 1;
    }
    assert(chars@.take(prefix@.len() as int) =~= prefix@);
    true
}

/// The place of the first backslash at or after `from`, or the length of
/// `chars`.
fn find_first_backslash(chars: &Vec<char>, from: usize) -> (at: usize)
    requires
        from <= chars@.len(),
    ensures
        at == first_backslash(chars@, from as int),
        from <= at <= chars@.len(),
{
    let mut k = from;
    while k < chars.len()
        invariant
            from <= k <= chars@.len(),
            first_backslash(chars@, k as int) == first_backslash(chars@, from as int),
        decreases chars@.len() - k,
    {
        if chars[k] == '\\' {
            return k;
        }
        k += 1;
    }
    k
}

/// The place of the last backslash, if there is one.
fn find_last_backslash(chars: &Vec<char>) -> (at: Option<usize>)
    ensures
        match at {
            Some(k) => k == last_backslash(chars@, chars@.len() as int) && k < chars@.len(),
            None => last_backslash(chars@, chars@.len() as int) == -1,
        },
{
    let mut k = chars.len();
    while k > 0
        invariant
            k <= chars@.len(),
            last_backslash(chars@, k as int) == last_backslash(chars@, chars@.len() as int),
        decreases k,
    {
        if chars[k - 1] == '\\' {
            return Some(k - 1);
        }
        k -= 1;
    }
    None
}

/// Extending a sequence of digits does not make its value smaller.
proof fn lemma_decimal_value_grows(digits: Seq<char>)
    requires
        digits.len() > 0,
        all_digits(digits),
    ensures
        0 <= decimal_value(digits.drop_last()) <= decimal_value(digits),
        decimal_value(digits) == decimal_value(digits.drop_last()) * 10 + (digits.last() as int
            - '0' as int),
    decreases digits.len(),
{
    if digits.len() > 1 {
        assert forall|k: int| 0 <= k < digits.drop_last().len() implies is_digit(
            #[trigger] digits.drop_last()[k],
        ) by {
            assert(digits.drop_last()[k] == digits[k]);
        }
        lemma_decimal_value_grows(digits.drop_last());
    }
}

/// Reads a 32-bit number from its decimal text.
fn parse_i32(text: &Vec<char>) -> (r: Option<i32>)
    ensures
        match r {
            Some(value) => parsed_i32(text@) == Some(value as int),
            None => parsed_i32(text@) is None,
        },
{
    let n = text.len();
    let signed = n > 0 && (text[0] == '+' || text[0] == '-');
    let negative = signed && text[0] == '-';
    let start: usize = if signed {
        1
    } else {
        0
    };
    if start == n {
        return None;
    }
    let ghost digits = text@.skip(start as int);
    let mut magnitude: i64 = 0;
    let mut too_big = false;
    let mut k = start;
    while k < n
        invariant
            start <= k <= n,
            n == text@.len(),
            signed == (text@.len() > 0 && (text@[0] == '+' || text@[0] == '-')),
            start == if signed { 1int } else { 0int },
            digits == text@.skip(start as int),
            all_digits(digits.take(k - start)),
            !too_big ==> magnitude == decimal_value(digits.take(k - start)) && 0 <= magnitude
                <= 2147483648,
            too_big ==> decimal_value(digits.take(k - start)) > 2147483648,
        decreases n - k,
    {
        let c = text[k];
        if !(c >= '0' && c <= '9') {
            assert(!is_digit(digits[k - start]));
            return None;
        }
        proof {
            let shorter = digits.take(k - start);
            let longer = digits.take(k + 1 - start);
            assert(longer.drop_last() =~= shorter);
            assert(longer.last() == c);
            assert forall|j: int| 0 <= j < longer.len() implies is_digit(#[trigger] longer[j]) by {
                if j < shorter.len() {
                    assert(longer[j] == shorter[j]);
                }
            }
            lemma_decimal_value_grows(longer);
        }
        if !too_big {
            let digit = (c as u32 - '0' as u32) as i64;
            magnitude = magnitude * 10 + digit;
            if magnitude > 2147483648 {
                too_big = true;
            }
        }
        k += 1;
    }
    assert(digits.take(n - start) =~= digits);
    assert(text@.skip(0) =~= text@);
    if too_big {
        return None;
    }
    let value = if negative {
        -magnitude
    } else {
        magnitude
    };
    if value < -2147483648 || value > 2147483647 {
        None
    } else {
        Some(value as i32)
    }
}

/// The characters of a cleaned device path under the volumes root.
fn vol2_chars(cleaned: &Vec<char>) -> (out: Vec<char>)
    ensures
        out@ == vol2_target(cleaned@),
{
    let prefix = chars_of("Device\\HarddiskVolume");
    let mut out = chars_of("M:\\forensic\\ntfs\\");
    if starts_with(cleaned, &prefix) {
        let from = prefix.len();
        let cut = find_first_backslash(cleaned, from);
        let ghost after = cleaned@.skip(from as int);
        proof {
            lemma_first_backslash_skip(cleaned@, from as int, from as int);
        }
        if cut < cleaned.len() {
            let mut number: Vec<char> = Vec::new();
            append_tail(&mut number, cleaned, from);
            number.truncate(cut - from);
            assert(number@ =~= after.take(cut - from));
            match parse_i32(&number) {
                Some(volume) => {
                    push_decimal(&mut out, volume.wrapping_sub(1));
                    out.push('\\');
                    append_tail(&mut out, cleaned, cut + 1);
                    assert(cleaned@.skip(cut + 1) =~= after.skip(cut - from + 1));
                    assert(out@ =~= vol2_target(cleaned@));
                    return out;
                },
                None => {},
            }
        }
    }
    append_tail(&mut out, cleaned, 0);
    assert(cleaned@.skip(0) =~= cleaned@);
    out
}

/// The first backslash of a path from some place on stands where the first
/// backslash of the rest of the path stands.
proof fn lemma_first_backslash_skip(path: Seq<char>, cut: int, from: int)
    requires
        0 <= cut <= from <= path.len(),
    ensures
        first_backslash(path, from) == first_backslash(path.skip(cut), from - cut) + cut,
    decreases path.len() - from,
{
    if from < path.len() {
        assert(path.skip(cut)[from - cut] == path[from]);
        if path[from] != backslash() {
            lemma_first_backslash_skip(path, cut, from + 1);
        }
    }
}

/// Converts a path as the memory file system reports it into a path under
/// the drive where the file system is mounted, and tells whether the result
/// names a directory. Mode `normal` gives the directory of the file under
/// the files root; mode `vol2` resolves a device path to its volume; mode
/// `ntfs`, and any other, puts the path under the volumes root.
pub fn convert_path(input_path: &str, mode: &str) -> (r: (String, bool))
    ensures
        r.0@ == converted_path(input_path@, mode@),
        r.1 == (mode@ == "normal"@),
{
    let input = chars_of(input_path);
    let mut cleaned: Vec<char> = Vec::new();
    if input.len() > 0 && input[0] == '\\' {
        append_tail(&mut cleaned, &input, 1);
        assert(cleaned@ =~= cleaned_path(input_path@));
    } else {
        append_tail(&mut cleaned, &input, 0);
        assert(cleaned@ =~= cleaned_path(input_path@));
    }
    let is_directory = same_text(mode, "normal");
    let mut target: Vec<char> = if is_directory {
        let mut out = chars_of("M:\\forensic\\files\\ROOT");
        match find_last_backslash(&cleaned) {
            Some(cut) => {
                out.push('\\');
                let mut directory: Vec<char> = Vec::new();
                append_tail(&mut directory, &cleaned, 0);
                directory.truncate(cut);
                assert(directory@ =~= cleaned@.take(cut as int));
                append_tail(&mut out, &directory, 0);
                assert(out@ =~= normal_target(cleaned@));
            },
            None => {},
        }
        out
    } else if same_text(mode, "vol2") {
        vol2_chars(&cleaned)
    } else {
        let mut out = chars_of("M:\\forensic\\ntfs\\");
        append_tail(&mut out, &cleaned, 0);
        assert(cleaned@.skip(0) =~= cleaned@);
        out
    };
    let ghost unslashed = target@;
    let mut k: usize = 0;
    while k < target.len()
        invariant
            k <= target@.len(),
            target@.len() == unslashed.len(),
            forall|j: int| 0 <= j < k ==> target@[j] == backslashed(unslashed)[j],
            forall|j: int| k <= j < target@.len() ==> target@[j] == unslashed[j],
        decreases target@.len() - k,
    {
        if target[k] == '/' {
            target.set(k, '\\');
        }
        k += 1;
    }
    assert(target@ =~= backslashed(unslashed));
    (string_from_chars(&target), is_directory)
}

} // verus!
