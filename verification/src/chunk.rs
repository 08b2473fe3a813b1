//! The plan that cuts an input into overlapping chunks for parallel scans.

use crate::extractor::{
    lemma_matches_sound, matches_of, ExtractionConfig, FoundString, Match, StringExtractor,
};
use crate::merge::{first_of_key, is_merge_of, kept_from, merge_results, MergeKey};
use vstd::arithmetic::div_mod::{
    lemma_div_is_ordered, lemma_div_multiples_vanish, lemma_div_pos_is_pos,
    lemma_fundamental_div_mod,
};
use vstd::arithmetic::mul::{lemma_mul_inequality, lemma_mul_is_distributive_add_other_way};
use vstd::prelude::*;
use vstd::slice::slice_subrange;

verus! {

/// An input shorter than this is scanned as one chunk, and no plan has more
/// chunks than the input holds stretches of this size: 16 MiB.
pub const MIN_CHUNK_SIZE: usize = 16_777_216;

/// The bytes by which a chunk reaches into the next one.
pub const OVERLAP_SIZE: usize = 4096;

/// An input longer than this is scanned by at most `LARGE_INPUT_THREADS`
/// threads: 100 MiB.
pub const LARGE_INPUT_SIZE: usize = 104_857_600;

/// The most threads that scan a large input.
pub const LARGE_INPUT_THREADS: usize = 8;

/// A stretch of the input to scan: the bytes from `start` up to `end`, and
/// the offset to report for the first of them.
#[derive(Debug, Clone, Copy, PartialEq, Eq, Structural)]
pub struct ChunkSpec {
    /// The place of the first byte of the chunk.
    pub start: usize,
    /// The place after the last byte of the chunk.
    pub end: usize,
    /// The offset that is reported for the byte at `start`.
    pub base_offset: u64,
}

/// The number of chunks planned for an input of `len` bytes and `threads`
/// threads.
pub open spec fn chunk_count(len: int, threads: int) -> int {
    if len < MIN_CHUNK_SIZE {
        1
    } else if threads <= len / (MIN_CHUNK_SIZE as int) {
        threads
    } else {
        len / (MIN_CHUNK_SIZE as int)
    }
}

/// The size of each planned chunk but the last, before it is widened.
pub open spec fn chunk_size(len: int, threads: int) -> int {
    len / chunk_count(len, threads)
}

/// The chunk at place `i` of the plan. It starts where the chunks before it
/// end unwidened, and reports offsets from there. The last chunk ends with
/// the input; every other one is widened by the overlap, as far as the
/// input goes.
pub open spec fn planned_chunk(len: int, threads: int, i: int) -> ChunkSpec {
    let size = chunk_size(len, threads);
    let widened = (i + 1) * size + OVERLAP_SIZE;
    ChunkSpec {
        start: (i * size) as usize,
        end: (if i == chunk_count(len, threads) - 1 || widened > len {
            len
        } else {
            widened
        }) as usize,
        base_offset: (i * size) as u64,
    }
}

/// The plan for an input of `len` bytes and `threads` threads.
pub open spec fn planned_chunks(len: int, threads: int) -> Seq<ChunkSpec> {
    Seq::new(chunk_count(len, threads) as nat, |i: int| planned_chunk(len, threads, i))
}

/// The number of threads to plan for: the number asked for, capped for a
/// large input.
pub fn effective_threads(total_len: usize, max_threads: usize) -> (threads: usize)
    ensures
        threads == if total_len > LARGE_INPUT_SIZE && max_threads > LARGE_INPUT_THREADS {
            LARGE_INPUT_THREADS
        } else {
            max_threads
        },
{
    if total_len > LARGE_INPUT_SIZE && max_threads > LARGE_INPUT_THREADS {
        LARGE_INPUT_THREADS
    } else {
        max_threads
    }
}

/// The chunks of a plan, taken together, stay inside the input and leave no
/// byte of it out: the first starts at zero, each starts before the end of
/// the one before it, and the last ends with the input. Each reports
/// offsets from its own start, and each but the last reaches into the next
/// one by the whole overlap.
pub proof fn lemma_plan_covers(len: int, threads: int)
    requires
        0 <= len <= usize::MAX,
        1 <= chunk_count(len, threads),
    ensures
        planned_chunks(len, threads).len() == chunk_count(len, threads),
        forall|i: int|
            0 <= i < chunk_count(len, threads) ==> {
                let chunk = #[trigger] planned_chunks(len, threads)[i];
                &&& chunk == planned_chunk(len, threads, i)
                &&& chunk.start == i * chunk_size(len, threads)
                &&& chunk.base_offset == chunk.start
                &&& chunk.start <= chunk.end <= len
                &&& (i + 1 < chunk_count(len, threads) ==> chunk.end == planned_chunk(
                    len,
                    threads,
                    i + 1,
                ).start + OVERLAP_SIZE)
            },
        planned_chunk(len, threads, 0).start == 0,
        planned_chunk(len, threads, chunk_count(len, threads) - 1).end == len,
{
    let count = chunk_count(len, threads);
    let size = chunk_size(len, threads);
    lemma_edges_inside(len, count, size);
    assert forall|i: int| 0 <= i < count implies {
        let chunk = #[trigger] planned_chunks(len, threads)[i];
        &&& chunk == planned_chunk(len, threads, i)
        &&& chunk.start == i * size
        &&& chunk.base_offset == chunk.start
        &&& chunk.start <= chunk.end <= len
        &&& (i + 1 < count ==> chunk.end == planned_chunk(len, threads, i + 1).start
            + OVERLAP_SIZE)
    } by {
        lemma_chunk_edges(len, count, size, i);
        if i + 1 < count {
            lemma_chunk_edges(len, count, size, i + 1);
            lemma_chunk_size_is_large(len, threads);
        }
    }
    lemma_chunk_edges(len, count, size, 0);
    lemma_chunk_edges(len, count, size, count - 1);
}

/// In a plan of two chunks or more, no unwidened chunk is smaller than the
/// least chunk size.
proof fn lemma_chunk_size_is_large(len: int, threads: int)
    requires
        0 <= len,
        2 <= chunk_count(len, threads),
    ensures
        chunk_size(len, threads) >= MIN_CHUNK_SIZE,
{
    let count = chunk_count(len, threads);
    let least = MIN_CHUNK_SIZE as int;
    assert(count <= len / least);
    lemma_fundamental_div_mod(len, least);
    assert(count * least <= len) by (nonlinear_arith)
        requires
            count <= len / least,
            least * (len / least) <= len,
            least > 0,
    ;
    lemma_div_multiples_vanish(least, count);
    lemma_div_is_ordered(count * least, len, count);
}

/// The edges of the stretch at place `i` lie inside the input, one `size`
/// apart.
proof fn lemma_chunk_edges(len: int, count: int, size: int, i: int)
    requires
        0 <= len,
        1 <= count,
        size == len / count,
        0 <= i < count,
    ensures
        0 <= i * size <= (i + 1) * size <= len,
        (i + 1) * size == i * size + size,
{
    lemma_edges_inside(len, count, size);
    assert(0 <= i * size <= len);
    assert(0 <= (i + 1) * size <= len);
    lemma_mul_is_distributive_add_other_way(size, i, 1);
    lemma_fundamental_div_mod(len, count);
    lemma_div_pos_is_pos(len, count);
}

/// Plans the chunks for an input of `total_len` bytes and `threads`
/// threads.
pub fn plan_chunks(total_len: usize, threads: usize) -> (chunks: Vec<ChunkSpec>)
    ensures
        chunks@ == planned_chunks(total_len as int, threads as int),
{
    let count = if total_len < MIN_CHUNK_SIZE {
        1
    } else if threads <= total_len / MIN_CHUNK_SIZE {
        threads
    } else {
        total_len / MIN_CHUNK_SIZE
    };
    let mut chunks: Vec<ChunkSpec> = Vec::new();
    if count == 0 {
        assert(chunks@ =~= planned_chunks(total_len as int, threads as int));
        return chunks;
    }
    let size = total_len / count;
    let mut start: usize = 0;
    let mut i: usize = 0;
    proof {
        lemma_edges_inside(total_len as int, count as int, size as int);
    }
    while i < count
        invariant
            i <= count,
            1 <= count == chunk_count(total_len as int, threads as int),
            size == chunk_size(total_len as int, threads as int),
            start == i * size,
            forall|k: int| 0 <= k <= count ==> 0 <= #[trigger] (k * size) <= total_len,
            chunks@.len() == i,
            forall|k: int|
                0 <= k < i ==> chunks@[k] == planned_chunk(total_len as int, threads as int, k),
        decreases count - i,
    {
        proof {
            assert(0 <= (i + 1) * size <= total_len);
            assert((i + 1) * size == i * size + size) by (nonlinear_arith);
        }
        let next = start + size;
        let end = if i == count - 1 || total_len - next < OVERLAP_SIZE {
            total_len
        } else {
            next + OVERLAP_SIZE
        };
        chunks.push(ChunkSpec { start, end, base_offset: start as u64 });
        start = next;
        i += 1;
    }
    assert(chunks@ =~= planned_chunks(total_len as int, threads as int));
    chunks
}

/// With an input cut into `count` stretches of `size` bytes, every edge
/// between two stretches lies inside the input.
proof fn lemma_edges_inside(len: int, count: int, size: int)
    requires
        0 <= len,
        1 <= count,
        size == len / count,
    ensures
        forall|k: int| 0 <= k <= count ==> 0 <= #[trigger] (k * size) <= len,
{
    lemma_fundamental_div_mod(len, count);
    lemma_div_pos_is_pos(len, count);
    assert forall|k: int| 0 <= k <= count implies 0 <= #[trigger] (k * size) <= len by {
        lemma_mul_inequality(k, count, size);
        assert(0 <= k * size) by (nonlinear_arith)
            requires
                0 <= k,
                0 <= size,
        ;
    }
}

impl ChunkSpec {
    /// The chunk lies inside an input of `len` bytes, and the offsets of its
    /// bytes fit into 64 bits.
    pub open spec fn fits(&self, len: int) -> bool {
        &&& self.start <= self.end <= len
        &&& self.base_offset + (self.end - self.start) <= u64::MAX
    }
}

impl ExtractionConfig {
    /// What an extraction over one chunk of `data` reports.
    pub open spec fn chunk_matches(&self, data: Seq<u8>, chunk: ChunkSpec) -> Seq<Match> {
        self.matches(data.subrange(chunk.start as int, chunk.end as int), chunk.base_offset as int)
    }

    /// What the extractions over the chunks of a plan report, chunk after
    /// chunk.
    pub open spec fn plan_matches(&self, data: Seq<u8>, chunks: Seq<ChunkSpec>) -> Seq<Match>
        decreases chunks.len(),
    {
        if chunks.len() == 0 {
            Seq::empty()
        } else {
            self.plan_matches(data, chunks.drop_last()) + self.chunk_matches(data, chunks.last())
        }
    }
}

/// Every chunk of a plan fits the input it was planned for.
pub proof fn lemma_plan_fits(len: int, threads: int)
    requires
        0 <= len <= usize::MAX,
        0 <= threads,
    ensures
        forall|i: int|
            0 <= i < planned_chunks(len, threads).len() ==> (#[trigger] planned_chunks(
                len,
                threads,
            )[i]).fits(len),
{
    if chunk_count(len, threads) >= 1 {
        lemma_plan_covers(len, threads);
    }
}

/// A string found in a chunk that reports offsets from its own start lies
/// inside the chunk by its offset, and the bytes it spans in the chunk are
/// the bytes that the whole input holds at that offset.
pub proof fn lemma_chunk_offsets_absolute(cfg: ExtractionConfig, data: Seq<u8>, chunk: ChunkSpec)
    requires
        chunk.start <= chunk.end <= data.len(),
        chunk.base_offset == chunk.start,
    ensures
        forall|k: int|
            0 <= k < cfg.chunk_matches(data, chunk).len() ==> {
                let found = #[trigger] cfg.chunk_matches(data, chunk)[k];
                &&& chunk.start <= found.offset
                &&& found.offset + found.byte_length <= chunk.end
                &&& data.subrange(found.offset, found.offset + found.byte_length)
                    == data.subrange(chunk.start as int, chunk.end as int).subrange(
                    found.offset - chunk.start,
                    found.offset - chunk.start + found.byte_length,
                )
            },
{
    let part = data.subrange(chunk.start as int, chunk.end as int);
    lemma_matches_sound(cfg, part, chunk.base_offset as int);
    assert forall|k: int| 0 <= k < cfg.chunk_matches(data, chunk).len() implies {
        let found = #[trigger] cfg.chunk_matches(data, chunk)[k];
        &&& chunk.start <= found.offset
        &&& found.offset + found.byte_length <= chunk.end
        &&& data.subrange(found.offset, found.offset + found.byte_length) == part.subrange(
            found.offset - chunk.start,
            found.offset - chunk.start + found.byte_length,
        )
    } by {
        let found = cfg.chunk_matches(data, chunk)[k];
        assert(cfg.sound(part, chunk.base_offset as int, found));
        assert(data.subrange(found.offset, found.offset + found.byte_length) =~= part.subrange(
            found.offset - chunk.start,
            found.offset - chunk.start + found.byte_length,
        ));
    }
}

/// Every string found in the chunks of a plan, each chunk reporting offsets
/// from its own start, lies inside the input by its offset.
pub proof fn lemma_plan_offsets_absolute(
    cfg: ExtractionConfig,
    data: Seq<u8>,
    chunks: Seq<ChunkSpec>,
)
    requires
        forall|i: int|
            0 <= i < chunks.len() ==> (#[trigger] chunks[i]).start <= chunks[i].end <= data.len()
                && chunks[i].base_offset == chunks[i].start,
    ensures
        forall|k: int|
            0 <= k < cfg.plan_matches(data, chunks).len() ==> {
                let found = #[trigger] cfg.plan_matches(data, chunks)[k];
                0 <= found.offset < found.offset + found.byte_length <= data.len()
            },
    decreases chunks.len(),
{
    if chunks.len() > 0 {
        let earlier = cfg.plan_matches(data, chunks.drop_last());
        let last = cfg.chunk_matches(data, chunks.last());
        assert forall|i: int| 0 <= i < chunks.drop_last().len() implies (
        #[trigger] chunks.drop_last()[i]).start <= chunks.drop_last()[i].end <= data.len()
            && chunks.drop_last()[i].base_offset == chunks.drop_last()[i].start by {
            assert(chunks.drop_last()[i] == chunks[i]);
        }
        lemma_plan_offsets_absolute(cfg, data, chunks.drop_last());
        lemma_chunk_offsets_absolute(cfg, data, chunks.last());
        lemma_matches_sound(
            cfg,
            data.subrange(chunks.last().start as int, chunks.last().end as int),
            chunks.last().base_offset as int,
        );
        assert forall|k: int| 0 <= k < cfg.plan_matches(data, chunks).len() implies {
            let found = #[trigger] cfg.plan_matches(data, chunks)[k];
            0 <= found.offset < found.offset + found.byte_length <= data.len()
        } by {
            if k < earlier.len() {
                assert(cfg.plan_matches(data, chunks)[k] == earlier[k]);
            } else {
                let found = last[k - earlier.len()];
                assert(cfg.plan_matches(data, chunks)[k] == found);
                assert(cfg.sound(
                    data.subrange(chunks.last().start as int, chunks.last().end as int),
                    chunks.last().base_offset as int,
                    found,
                ));
            }
        }
    }
}

impl StringExtractor {
    /// Runs the extraction over one chunk of `data`.
    pub fn extract_chunk(&self, data: &[u8], chunk: &ChunkSpec) -> (results: Vec<FoundString>)
        requires
            chunk.fits(data@.len() as int),
        ensures
            matches_of(results@) == self@.chunk_matches(data@, *chunk),
    {
        self.extract_strings(slice_subrange(data, chunk.start, chunk.end), chunk.base_offset)
    }

    /// Runs the extraction over each chunk in turn and reports what the
    /// chunks yield, chunk after chunk. The chunks do not depend on one
    /// another: scanned side by side and put together in the order of the
    /// plan, they yield the same.
    pub fn scan_chunks(&self, data: &[u8], chunks: &Vec<ChunkSpec>) -> (results: Vec<FoundString>)
        requires
            forall|i: int|
                0 <= i < chunks@.len() ==> (#[trigger] chunks@[i]).fits(data@.len() as int),
        ensures
            matches_of(results@) == self@.plan_matches(data@, chunks@),
    {
        let mut results: Vec<FoundString> = Vec::new();
        let mut i: usize = 0;
        while i < chunks.len()
            invariant
                i <= chunks@.len(),
                forall|i: int|
                    0 <= i < chunks@.len() ==> (#[trigger] chunks@[i]).fits(data@.len() as int),
                matches_of(results@) == self@.plan_matches(data@, chunks@.take(i as int)),
            decreases chunks@.len() - i,
        {
            let mut found = self.extract_chunk(data, &chunks[i]);
            let ghost before = results@;
            results.append(&mut found);
            proof {
                assert(chunks@.take(i + 1).drop_last() =~= chunks@.take(i as int));
                assert(matches_of(results@) =~= matches_of(before) + self@.chunk_matches(
                    data@,
                    chunks@[i as int],
                ));
            }
            i += 1;
        }
        assert(chunks@.take(chunks@.len() as int) =~= chunks@);
        results
    }

    /// Scans a whole input: plans the chunks for `threads` threads, runs the
    /// extraction over each, and merges what they yield. Every string
    /// reported lies inside the input.
    pub fn scan(&self, data: &[u8], threads: usize, key: MergeKey) -> (merged: Vec<FoundString>)
        ensures
            is_merge_of(
                matches_of(merged@),
                self@.plan_matches(
                    data@,
                    planned_chunks(data@.len() as int, threads as int),
                ),
                key,
            ),
            forall|i: int|
                0 <= i < merged@.len() ==> (#[trigger] merged@[i]).offset + merged@[i].byte_length
                    <= data@.len(),
    {
        let chunks = plan_chunks(data.len(), threads);
        proof {
            lemma_plan_fits(data@.len() as int, threads as int);
            if chunk_count(data@.len() as int, threads as int) >= 1 {
                lemma_plan_covers(data@.len() as int, threads as int);
            }
            lemma_plan_offsets_absolute(self@, data@, chunks@);
        }
        let results = self.scan_chunks(data, &chunks);
        let ghost input = matches_of(results@);
        let merged = merge_results(results, key);
        proof {
            assert forall|i: int| 0 <= i < merged@.len() implies (#[trigger] merged@[i]).offset
                + merged@[i].byte_length <= data@.len() by {
                let found = matches_of(merged@)[i];
                assert(kept_from(input, found, key));
                let k = choose|k: int| #[trigger] first_of_key(input, k, key) && input[k] == found;
                assert(input[k] == merged@[i]@);
            }
        }
        merged
    }
}

} // verus!
