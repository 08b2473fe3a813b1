//! Merging the results of overlapping chunks into one ordered sequence.
//!
//! The strings are put in ascending order of their key, and of several
//! strings with one key the one that came first is kept.

use crate::extractor::{matches_of, Encoding, FoundString, Match};
use vstd::prelude::*;

verus! {

/// What makes two found strings the same find.
#[derive(Debug, Clone, Copy, PartialEq, Eq, Structural)]
pub enum MergeKey {
    /// The offset alone: of several strings at one offset one is kept,
    /// whatever their encodings.
    Offset,
    /// The offset and the encoding: strings at one offset are kept side by
    /// side where their encodings differ.
    OffsetAndEncoding,
}

impl Default for MergeKey {
    fn default() -> (key: MergeKey)
        ensures
            key == MergeKey::Offset,
    {
        MergeKey::Offset
    }
}

/// The place of an encoding among the encodings.
pub open spec fn encoding_rank(encoding: Encoding) -> int {
    match encoding {
        Encoding::Ascii => 0,
        Encoding::Utf8 => 1,
        Encoding::Utf16Le => 2,
        Encoding::Utf16Be => 3,
        Encoding::Gbk => 4,
    }
}

/// The number by which found strings are ordered and told apart: the
/// offset, or, where the encoding counts, a number that grows with the
/// offset and among strings at one offset with the rank of the encoding.
pub open spec fn merge_key(found: Match, key: MergeKey) -> int {
    match key {
        MergeKey::Offset => found.offset,
        MergeKey::OffsetAndEncoding => found.offset * 8 + encoding_rank(found.encoding),
    }
}

/// Where the encoding counts, two strings have one key exactly when they
/// stand at one offset under one encoding, and the keys are ordered by the
/// offset first and by the rank of the encoding among strings at one offset.
pub proof fn lemma_merge_key_order(a: Match, b: Match)
    ensures
        merge_key(a, MergeKey::OffsetAndEncoding) == merge_key(b, MergeKey::OffsetAndEncoding)
            <==> (a.offset == b.offset && a.encoding == b.encoding),
        merge_key(a, MergeKey::OffsetAndEncoding) < merge_key(b, MergeKey::OffsetAndEncoding)
            <==> (a.offset < b.offset || (a.offset == b.offset && encoding_rank(a.encoding)
            < encoding_rank(b.encoding))),
{
}

/// The string at place `k` is the first of `input` with its key.
pub open spec fn first_of_key(input: Seq<Match>, k: int, key: MergeKey) -> bool {
    &&& 0 <= k < input.len()
    &&& forall|j: int|
        0 <= j < k ==> merge_key(#[trigger] input[j], key) != merge_key(input[k], key)
}

/// `found` is the first string of `input` with its key.
pub open spec fn kept_from(input: Seq<Match>, found: Match, key: MergeKey) -> bool {
    exists|k: int| #[trigger] first_of_key(input, k, key) && input[k] == found
}

/// One of the strings of `merged` has the key `value`.
pub open spec fn has_key(merged: Seq<Match>, value: int, key: MergeKey) -> bool {
    exists|i: int| 0 <= i < merged.len() && merge_key(#[trigger] merged[i], key) == value
}

/// `merged` is the merge of `input`: its keys ascend strictly, each of its
/// strings is the first of `input` with its key, and no key of `input` is
/// missing from it.
pub open spec fn is_merge_of(merged: Seq<Match>, input: Seq<Match>, key: MergeKey) -> bool {
    &&& forall|i: int, j: int|
        0 <= i < j < merged.len() ==> merge_key(#[trigger] merged[i], key) < merge_key(
            #[trigger] merged[j],
            key,
        )
    &&& forall|i: int| 0 <= i < merged.len() ==> kept_from(input, #[trigger] merged[i], key)
    &&& forall|k: int|
        0 <= k < input.len() ==> has_key(merged, merge_key(#[trigger] input[k], key), key)
}

/// Two strings of `input` that are each the first with one and the same key
/// stand at the same place.
proof fn lemma_first_of_key_unique(input: Seq<Match>, a: int, b: int, key: MergeKey)
    requires
        first_of_key(input, a, key),
        first_of_key(input, b, key),
        merge_key(input[a], key) == merge_key(input[b], key),
    ensures
        a == b,
{
}

/// Two merges of one input agree up to any place of the first.
proof fn lemma_merges_agree_at(
    first: Seq<Match>,
    second: Seq<Match>,
    input: Seq<Match>,
    key: MergeKey,
    i: int,
)
    requires
        is_merge_of(first, input, key),
        is_merge_of(second, input, key),
        0 <= i < first.len(),
    ensures
        i < second.len(),
        first[i] == second[i],
    decreases i,
{
    let value = merge_key(first[i], key);
    assert(kept_from(input, first[i], key));
    let k = choose|k: int| #[trigger] first_of_key(input, k, key) && input[k] == first[i];
    assert(has_key(second, merge_key(input[k], key), key));
    let j = choose|j: int| 0 <= j < second.len() && merge_key(#[trigger] second[j], key) == value;
    if j < i {
        lemma_merges_agree_at(first, second, input, key, j);
        assert(merge_key(first[j], key) < merge_key(first[i], key));
        assert(false);
    }
    assert(i < second.len());
    assert(kept_from(input, second[i], key));
    let k2 = choose|k2: int| #[trigger] first_of_key(input, k2, key) && input[k2] == second[i];
    assert(has_key(first, merge_key(input[k2], key), key));
    let i2 = choose|i2: int|
        0 <= i2 < first.len() && merge_key(#[trigger] first[i2], key) == merge_key(second[i], key);
    if i2 < i {
        lemma_merges_agree_at(first, second, input, key, i2);
        assert(first[i2] == second[i2]);
        assert(merge_key(second[i2], key) < merge_key(second[i], key));
        assert(false);
    }
    if j > i {
        assert(merge_key(second[i], key) < merge_key(second[j], key));
        if i2 > i {
            assert(merge_key(first[i], key) < merge_key(first[i2], key));
        }
        assert(false);
    }
    lemma_first_of_key_unique(input, k, k2, key);
}

/// An input has one merge only.
pub proof fn lemma_merge_unique(
    first: Seq<Match>,
    second: Seq<Match>,
    input: Seq<Match>,
    key: MergeKey,
)
    requires
        is_merge_of(first, input, key),
        is_merge_of(second, input, key),
    ensures
        first == second,
{
    if first.len() > 0 {
        lemma_merges_agree_at(first, second, input, key, first.len() - 1);
    }
    if second.len() > 0 {
        lemma_merges_agree_at(second, first, input, key, second.len() - 1);
    }
    assert forall|i: int| 0 <= i < first.len() implies first[i] == second[i] by {
        lemma_merges_agree_at(first, second, input, key, i);
    }
    assert(first =~= second);
}

/// One of the strings stands at `offset`.
pub open spec fn has_offset(found: Seq<Match>, offset: int) -> bool {
    exists|i: int| 0 <= i < found.len() && (#[trigger] found[i]).offset == offset
}

/// A string before place `k` stands at the offset of the string at `k`.
pub open spec fn repeats_offset(input: Seq<Match>, k: int) -> bool {
    exists|j: int| 0 <= j < k && (#[trigger] input[j]).offset == input[k].offset
}

/// Merging by offset takes away nothing but repeats of an offset. The
/// offsets of the merge ascend strictly; each string of the merge is one of
/// the input; every offset of the input is still there; and a string of the
/// input is missing from the merge only where an earlier string of the
/// input stands at its offset.
pub proof fn lemma_merge_by_offset(merged: Seq<Match>, input: Seq<Match>)
    requires
        is_merge_of(merged, input, MergeKey::Offset),
    ensures
        forall|i: int, j: int|
            0 <= i < j < merged.len() ==> (#[trigger] merged[i]).offset < (
            #[trigger] merged[j]).offset,
        forall|i: int| 0 <= i < merged.len() ==> input.contains(#[trigger] merged[i]),
        forall|k: int| 0 <= k < input.len() ==> has_offset(merged, (#[trigger] input[k]).offset),
        forall|k: int|
            0 <= k < input.len() ==> merged.contains(#[trigger] input[k]) || repeats_offset(
                input,
                k,
            ),
{
    let key = MergeKey::Offset;
    assert forall|i: int, j: int| 0 <= i < j < merged.len() implies (#[trigger] merged[i]).offset
        < (#[trigger] merged[j]).offset by {
        assert(merge_key(merged[i], key) < merge_key(merged[j], key));
    }
    assert forall|i: int| 0 <= i < merged.len() implies input.contains(#[trigger] merged[i]) by {
        assert(kept_from(input, merged[i], key));
        let k = choose|k: int| #[trigger] first_of_key(input, k, key) && input[k] == merged[i];
        assert(input[k] == merged[i]);
    }
    assert forall|k: int| 0 <= k < input.len() implies has_offset(
        merged,
        (#[trigger] input[k]).offset,
    ) by {
        lemma_offset_survives(merged, input, k);
    }
    assert forall|k: int| 0 <= k < input.len() implies merged.contains(#[trigger] input[k])
        || repeats_offset(input, k) by {
        lemma_only_repeats_go(merged, input, k);
    }
}

/// The offset of each string of the input is the offset of a string of the
/// merge by offset.
proof fn lemma_offset_survives(merged: Seq<Match>, input: Seq<Match>, k: int)
    requires
        is_merge_of(merged, input, MergeKey::Offset),
        0 <= k < input.len(),
    ensures
        has_offset(merged, input[k].offset),
{
    let key = MergeKey::Offset;
    assert(has_key(merged, merge_key(input[k], key), key));
    let i = choose|i: int|
        0 <= i < merged.len() && merge_key(#[trigger] merged[i], key) == merge_key(input[k], key);
    assert(merged[i].offset == input[k].offset);
}

/// A string of the input is in the merge by offset unless an earlier string
/// stands at its offset.
proof fn lemma_only_repeats_go(merged: Seq<Match>, input: Seq<Match>, k: int)
    requires
        is_merge_of(merged, input, MergeKey::Offset),
        0 <= k < input.len(),
    ensures
        merged.contains(input[k]) || repeats_offset(input, k),
{
    let key = MergeKey::Offset;
    if first_of_key(input, k, key) {
        assert(has_key(merged, merge_key(input[k], key), key));
        let i = choose|i: int|
            0 <= i < merged.len() && merge_key(#[trigger] merged[i], key) == merge_key(
                input[k],
                key,
            );
        assert(kept_from(input, merged[i], key));
        let k2 = choose|k2: int| #[trigger] first_of_key(input, k2, key) && input[k2] == merged[i];
        lemma_first_of_key_unique(input, k, k2, key);
        assert(merged[i] == input[k]);
    } else {
        let j = choose|j: int|
            0 <= j < k && merge_key(#[trigger] input[j], key) == merge_key(input[k], key);
        assert(input[j].offset == input[k].offset);
    }
}

/// A key paired with the place of its string in the input.
type Tag = (u128, usize);

/// The order of tags: by key, and by place among equal keys.
spec fn tag_leq(a: Tag, b: Tag) -> bool {
    a.0 < b.0 || (a.0 == b.0 && a.1 <= b.1)
}

/// The tags ascend.
spec fn tags_sorted(tags: Seq<Tag>) -> bool {
    forall|i: int, j: int|
        0 <= i <= j < tags.len() ==> tag_leq(#[trigger] tags[i], #[trigger] tags[j])
}

/// The tag of the string at place `k`.
spec fn tag_of(input: Seq<Match>, key: MergeKey, k: int) -> Tag {
    (merge_key(input[k], key) as u128, k as usize)
}

/// Whether one tag comes before another, or is the same.
fn tag_before(a: Tag, b: Tag) -> (r: bool)
    ensures
        r == tag_leq(a, b),
{
    a.0 < b.0 || (a.0 == b.0 && a.1 <= b.1)
}

/// The key of a found string.
fn key_value(found: &FoundString, key: MergeKey) -> (value: u128)
    ensures
        value == merge_key(found@, key),
{
    match key {
        MergeKey::Offset => found.offset as u128,
        MergeKey::OffsetAndEncoding => {
            let rank: u128 = match found.encoding {
                Encoding::Ascii => 0,
                Encoding::Utf8 => 1,
                Encoding::Utf16Le => 2,
                Encoding::Utf16Be => 3,
                Encoding::Gbk => 4,
            };
            (found.offset as u128) * 8 + rank
        },
    }
}

/// Merges two ascending runs of tags into one.
fn merge_tags(a: &Vec<Tag>, b: &Vec<Tag>) -> (out: Vec<Tag>)
    requires
        tags_sorted(a@),
        tags_sorted(b@),
        a@.len() + b@.len() <= usize::MAX,
    ensures
        tags_sorted(out@),
        out@.len() == a@.len() + b@.len(),
        out@.to_set() == a@.to_set() + b@.to_set(),
{
    let mut out: Vec<Tag> = Vec::with_capacity(a.len() + b.len());
    let mut i: usize = 0;
    let mut j: usize = 0;
    while i < a.len() || j < b.len()
        invariant
            i <= a@.len(),
            j <= b@.len(),
            a@.len() + b@.len() <= usize::MAX,
            tags_sorted(a@),
            tags_sorted(b@),
            out@.len() == i + j,
            tags_sorted(out@),
            forall|k: int|
                0 <= k < out@.len() ==> (i < a@.len() ==> tag_leq(#[trigger] out@[k], a@[i as int]))
                    && (j < b@.len() ==> tag_leq(out@[k], b@[j as int])),
            out@.to_set() == a@.take(i as int).to_set() + b@.take(j as int).to_set(),
        decreases a@.len() - i + b@.len() - j,
    {
        let from_a = if i < a.len() && j < b.len() {
            tag_before(a[i], b[j])
        } else {
            i < a.len()
        };
        let ghost before = out@;
        if from_a {
            proof {
                assert(a@.take(i + 1) =~= a@.take(i as int).push(a@[i as int]));
                a@.take(i as int).lemma_push_to_set_commute(a@[i as int]);
                before.lemma_push_to_set_commute(a@[i as int]);
            }
            out.push(a[i]);
            i += 1;
        } else {
            proof {
                assert(b@.take(j + 1) =~= b@.take(j as int).push(b@[j as int]));
                b@.take(j as int).lemma_push_to_set_commute(b@[j as int]);
                before.lemma_push_to_set_commute(b@[j as int]);
            }
            out.push(b[j]);
            j += 1;
        }
        assert(out@.to_set() =~= a@.take(i as int).to_set() + b@.take(j as int).to_set());
    }
    assert(a@.take(a@.len() as int) =~= a@);
    assert(b@.take(b@.len() as int) =~= b@);
    out
}

/// A sequence cut in two holds what its two parts hold.
proof fn lemma_split_to_set(tags: Seq<Tag>, mid: int)
    requires
        0 <= mid <= tags.len(),
    ensures
        tags.to_set() =~= tags.subrange(0, mid).to_set() + tags.subrange(
            mid,
            tags.len() as int,
        ).to_set(),
{
    let left = tags.subrange(0, mid);
    let right = tags.subrange(mid, tags.len() as int);
    assert forall|x: Tag| tags.to_set().contains(x) <==> (left.to_set() + right.to_set()).contains(
        x,
    ) by {
        if tags.contains(x) {
            let k = choose|k: int| 0 <= k < tags.len() && tags[k] == x;
            if k < mid {
                assert(left[k] == x);
            } else {
                assert(right[k - mid] == x);
            }
        }
        if left.contains(x) {
            let k = choose|k: int| 0 <= k < left.len() && left[k] == x;
            assert(tags[k] == x);
        }
        if right.contains(x) {
            let k = choose|k: int| 0 <= k < right.len() && right[k] == x;
            assert(tags[k + mid] == x);
        }
    }
}

/// Puts tags in ascending order.
fn sort_tags(tags: Vec<Tag>) -> (out: Vec<Tag>)
    ensures
        tags_sorted(out@),
        out@.len() == tags@.len(),
        out@.to_set() == tags@.to_set(),
    decreases tags@.len(),
{
    if tags.len() <= 1 {
        return tags;
    }
    let ghost whole = tags@;
    let mut left = tags;
    let mid = left.len() / 2;
    let right = left.split_off(mid);
    proof {
        lemma_split_to_set(whole, mid as int);
    }
    let left = sort_tags(left);
    let right = sort_tags(right);
    merge_tags(&left, &right)
}

/// The tag at place `p` opens a stretch of equal keys.
spec fn opens_key(sorted: Seq<Tag>, p: int) -> bool {
    p == 0 || sorted[p - 1].0 != sorted[p].0
}

/// The tags are those of `input`, each at some place.
spec fn tags_of_input(sorted: Seq<Tag>, input: Seq<Match>, key: MergeKey) -> bool {
    &&& sorted.len() == input.len()
    &&& forall|q: int|
        0 <= q < sorted.len() ==> 0 <= (#[trigger] sorted[q]).1 < input.len() && sorted[q]
            == tag_of(input, key, sorted[q].1 as int)
    &&& forall|k: int| 0 <= k < input.len() ==> sorted.contains(#[trigger] tag_of(input, key, k))
}

/// Where the tags of `input` stand in ascending order, a tag that opens a
/// stretch of equal keys belongs to the first string with that key.
proof fn lemma_opening_tag_is_first(sorted: Seq<Tag>, input: Seq<Match>, key: MergeKey, p: int)
    requires
        tags_sorted(sorted),
        tags_of_input(sorted, input, key),
        0 <= p < sorted.len(),
        opens_key(sorted, p),
    ensures
        first_of_key(input, sorted[p].1 as int, key),
{
    let k = sorted[p].1 as int;
    assert forall|j: int| 0 <= j < k implies merge_key(#[trigger] input[j], key) != merge_key(
        input[k],
        key,
    ) by {
        if merge_key(input[j], key) == merge_key(input[k], key) {
            let tag = tag_of(input, key, j);
            assert(sorted.contains(tag));
            let q = choose|q: int| 0 <= q < sorted.len() && sorted[q] == tag;
            assert(sorted[p] == tag_of(input, key, k));
            if q < p {
                assert(tag_leq(sorted[q], sorted[p - 1]));
                assert(tag_leq(sorted[p - 1], sorted[p]));
            } else {
                assert(tag_leq(sorted[p], sorted[q]));
            }
        }
    }
}

/// Merges found strings: puts them in ascending order of their key and
/// keeps, of several strings with one key, the one that came first in
/// `results`.
pub fn merge_results(results: Vec<FoundString>, key: MergeKey) -> (merged: Vec<FoundString>)
    ensures
        is_merge_of(matches_of(merged@), matches_of(results@), key),
        forall|i: int| 0 <= i < merged@.len() ==> results@.contains(#[trigger] merged@[i]),
{
    let ghost found = results@;
    let ghost input = matches_of(results@);
    let n = results.len();
    let mut tags: Vec<Tag> = Vec::with_capacity(n);
    let mut i: usize = 0;
    while i < n
        invariant
            i <= n,
            n == results@.len(),
            results@ == found,
            input == matches_of(found),
            tags@.len() == i,
            forall|k: int| 0 <= k < i ==> tags@[k] == tag_of(input, key, k),
        decreases n - i,
    {
        tags.push((key_value(&results[i], key), i));
        i += 1;
    }
    let sorted = sort_tags(tags);
    proof {
        assert forall|q: int| 0 <= q < sorted@.len() implies 0 <= (#[trigger] sorted@[q]).1
            < input.len() && sorted@[q] == tag_of(input, key, sorted@[q].1 as int) by {
            assert(sorted@.to_set().contains(sorted@[q]));
            assert(tags@.contains(sorted@[q]));
        }
        assert forall|k: int| 0 <= k < input.len() implies sorted@.contains(
            #[trigger] tag_of(input, key, k),
        ) by {
            assert(tags@[k] == tag_of(input, key, k));
            assert(tags@.to_set().contains(tag_of(input, key, k)));
            assert(sorted@.to_set().contains(tag_of(input, key, k)));
        }
    }
    let mut slots: Vec<Option<FoundString>> = Vec::with_capacity(n);
    for item in it: results
        invariant
            it.seq() == found,
            slots@.len() == it.index(),
            forall|k: int| 0 <= k < slots@.len() ==> slots@[k] == Some(found[k]),
    {
        slots.push(Some(item));
    }
    let mut merged: Vec<FoundString> = Vec::new();
    let ghost mut picked: Seq<int> = Seq::empty();
    let mut p: usize = 0;
    while p < n
        invariant
            p <= n,
            n == found.len(),
            input == matches_of(found),
            slots@.len() == n,
            tags_sorted(sorted@),
            tags_of_input(sorted@, input, key),
            merged@.len() == picked.len(),
            forall|i: int|
                0 <= i < picked.len() ==> 0 <= #[trigger] picked[i] < p && opens_key(
                    sorted@,
                    picked[i],
                ) && merged@[i] == found[sorted@[picked[i]].1 as int],
            forall|i: int, j: int|
                0 <= i < j < picked.len() ==> #[trigger] picked[i] < #[trigger] picked[j],
            forall|k: int|
                0 <= k < n ==> #[trigger] slots@[k] == Some(found[k]) || exists|i: int|
                    0 <= i < picked.len() && sorted@[#[trigger] picked[i]].1 == k,
            forall|q: int|
                0 <= q < p ==> exists|i: int|
                    0 <= i < merged@.len() && merge_key(#[trigger] merged@[i]@, key) == (
                    #[trigger] sorted@[q]).0,
        decreases n - p,
    {
        let tag = sorted[p];
        let ghost before = merged@;
        if p == 0 || sorted[p - 1].0 != tag.0 {
            proof {
                assert(sorted@[p as int] == tag_of(input, key, tag.1 as int));
                if slots@[tag.1 as int] != Some(found[tag.1 as int]) {
                    let i = choose|i: int|
                        0 <= i < picked.len() && sorted@[#[trigger] picked[i]].1 == tag.1;
                    assert(sorted@[picked[i]] == tag_of(input, key, tag.1 as int));
                    assert(tag_leq(sorted@[picked[i]], sorted@[p - 1]));
                    assert(tag_leq(sorted@[p - 1], sorted@[p as int]));
                    assert(false);
                }
            }
            let ghost slots_before = slots@;
            let ghost picked_before = picked;
            slots.push(None);
            let taken = slots.swap_remove(tag.1);
            match taken {
                Some(item) => {
                    merged.push(item);
                },
                None => {},
            }
            proof {
                picked = picked.push(p as int);
                assert(merge_key(merged@[merged@.len() - 1]@, key) == sorted@[p as int].0);
                assert forall|k: int| 0 <= k < n implies #[trigger] slots@[k] == Some(found[k])
                    || exists|i: int|
                    0 <= i < picked.len() && sorted@[#[trigger] picked[i]].1 == k by {
                    if k == tag.1 {
                        assert(sorted@[picked[picked.len() - 1]].1 == k);
                    } else if slots@[k] != Some(found[k]) {
                        assert(slots@[k] == slots_before[k]);
                        let i = choose|i: int|
                            0 <= i < picked_before.len() && sorted@[#[trigger] picked_before[i]].1
                                == k;
                        assert(sorted@[picked[i]].1 == k);
                    }
                }
            }
        } else {
            proof {
                let i = choose|i: int|
                    0 <= i < merged@.len() && merge_key(#[trigger] merged@[i]@, key) == (
                    #[trigger] sorted@[p - 1]).0;
                assert(merge_key(merged@[i]@, key) == sorted@[p as int].0);
            }
        }
        proof {
            assert forall|q: int| 0 <= q < p + 1 implies exists|i: int|
                0 <= i < merged@.len() && merge_key(#[trigger] merged@[i]@, key) == (
                #[trigger] sorted@[q]).0 by {
                if q < p {
                    let i = choose|i: int|
                        0 <= i < before.len() && merge_key(#[trigger] before[i]@, key) == (
                        #[trigger] sorted@[q]).0;
                    assert(merged@[i] == before[i]);
                }
            }
        }
        p += 1;
    }
    proof {
        let output = matches_of(merged@);
        assert forall|i: int, j: int| 0 <= i < j < output.len() implies merge_key(
            #[trigger] output[i],
            key,
        ) < merge_key(#[trigger] output[j], key) by {
            let a = picked[i];
            let b = picked[j];
            assert(sorted@[a] == tag_of(input, key, sorted@[a].1 as int));
            assert(sorted@[b] == tag_of(input, key, sorted@[b].1 as int));
            assert(tag_leq(sorted@[a], sorted@[b - 1]));
            assert(tag_leq(sorted@[b - 1], sorted@[b]));
        }
        assert forall|i: int| 0 <= i < output.len() implies kept_from(
            input,
            #[trigger] output[i],
            key,
        ) by {
            lemma_opening_tag_is_first(sorted@, input, key, picked[i]);
            let k = sorted@[picked[i]].1 as int;
            assert(first_of_key(input, k, key) && input[k] == output[i]);
        }
        assert forall|k: int| 0 <= k < input.len() implies has_key(
            output,
            merge_key(#[trigger] input[k], key),
            key,
        ) by {
            let tag = tag_of(input, key, k);
            assert(sorted@.contains(tag));
            let q = choose|q: int| 0 <= q < sorted@.len() && sorted@[q] == tag;
            let i = choose|i: int|
                0 <= i < merged@.len() && merge_key(#[trigger] merged@[i]@, key) == (
                #[trigger] sorted@[q]).0;
            assert(merge_key(output[i], key) == merge_key(input[k], key));
        }
        assert forall|i: int| 0 <= i < merged@.len() implies found.contains(
            #[trigger] merged@[i],
        ) by {
            assert(found[sorted@[picked[i]].1 as int] == merged@[i]);
        }
    }
    merged
}

} // verus!
