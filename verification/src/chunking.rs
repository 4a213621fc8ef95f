//! How recorded audio is fed to a stream, chunk by chunk.

use vstd::prelude::*;

verus! {

/// Samples of audio below which nothing is transcribed: one second.
pub const MIN_SAMPLES: usize = 16_000;

/// What is called for the audio accumulated so far.
#[derive(Clone, Copy, Debug, PartialEq, Eq, Structural)]
pub enum StreamCall {
    /// Nothing: there is too little audio yet.
    Wait,
    /// A transcription of all of it.
    Full,
    /// A transcription of its complete encoder chunks.
    Partial,
}

/// The number of chunks.
pub open spec fn chunk_count(total: int, size: int) -> int {
    (total + size - 1) / size
}

/// Where chunk `i` ends.
pub open spec fn chunk_end(i: int, total: int, size: int) -> int {
    if i * size + size < total {
        i * size + size
    } else {
        total
    }
}

pub fn num_chunks(total: usize, size: usize) -> (res: usize)
    requires
        size > 0,
        total + size <= usize::MAX,
    ensures
        res == chunk_count(total as int, size as int),
{
    (total + size - 1) / size
}

/// The samples of chunk `i`, as start and end.
pub fn chunk_range(i: usize, total: usize, size: usize) -> (res: (usize, usize))
    requires
        size > 0,
        total + size <= usize::MAX,
        i < chunk_count(total as int, size as int),
    ensures
        res.0 == i * size,
        res.1 == chunk_end(i as int, total as int, size as int),
        res.0 < res.1 <= total,
{
    proof {
        lemma_chunk(i as int, total as int, size as int);
    }
    let start: usize = i * size;
    let end: usize = if total - start > size {
        start + size
    } else {
        total
    };
    (start, end)
}

/// What is called once chunk `i` has arrived.
///
/// With `partial_mode` only the last call processes a tail that is no complete encoder chunk.
pub fn call_for(i: usize, chunks: usize, accumulated: usize, partial_mode: bool) -> (res: StreamCall)
    ensures
        res == if accumulated < 16_000 {
            StreamCall::Wait
        } else if i + 1 == chunks || !partial_mode {
            StreamCall::Full
        } else {
            StreamCall::Partial
        },
{
    if accumulated < MIN_SAMPLES {
        StreamCall::Wait
    } else if !partial_mode || (chunks > 0 && i == chunks - 1) {
        StreamCall::Full
    } else {
        StreamCall::Partial
    }
}

proof fn lemma_chunk(i: int, total: int, size: int)
    requires
        size > 0,
        total >= 0,
        0 <= i < chunk_count(total, size),
    ensures
        0 <= i * size < total,
        (i + 1 == chunk_count(total, size)) ==> total <= i * size + size,
        (i + 1 < chunk_count(total, size)) ==> i * size + size < total,
{
    let n = chunk_count(total, size);
    vstd::arithmetic::div_mod::lemma_fundamental_div_mod(total + size - 1, size);
    assert(0 <= i * size < total) by (nonlinear_arith)
        requires
            0 <= i < n,
            total + size - 1 == size * n + (total + size - 1) % size,
            0 <= (total + size - 1) % size < size,
    ;
    if i + 1 == n {
        assert(total <= i * size + size) by (nonlinear_arith)
            requires
                i + 1 == n,
                total + size - 1 == size * n + (total + size - 1) % size,
                0 <= (total + size - 1) % size < size,
        ;
    }
    if i + 1 < n {
        assert(i * size + size < total) by (nonlinear_arith)
            requires
                i + 1 < n,
                size > 0,
                total + size - 1 == size * n + (total + size - 1) % size,
                0 <= (total + size - 1) % size < size,
        ;
    }
}

/// Every chunk but the last has the full size, and the last has no more than that and is not empty.
pub proof fn law_chunks_are_full(i: int, total: int, size: int)
    requires
        size > 0,
        total >= 0,
        0 <= i < chunk_count(total, size),
    ensures
        i + 1 < chunk_count(total, size) ==> chunk_end(i, total, size) - i * size == size,
        0 < chunk_end(i, total, size) - i * size <= size,
        chunk_end(i, total, size) <= total,
{
    lemma_chunk(i, total, size);
}

/// Audio that is some whole chunks long has that many, and one more where something is left.
pub proof fn law_number_of_chunks(chunks: int, rest: int, size: int)
    requires
        chunks >= 0,
        0 <= rest < size,
    ensures
        chunk_count(chunks * size + rest, size) == if rest == 0 {
            chunks
        } else {
            chunks + 1
        },
{
    let n = chunks * size + rest + size - 1;
    if rest == 0 {
        vstd::arithmetic::div_mod::lemma_fundamental_div_mod_converse(n, size, chunks, size - 1);
    } else {
        assert((chunks + 1) * size == chunks * size + size) by (nonlinear_arith);
        vstd::arithmetic::div_mod::lemma_fundamental_div_mod_converse(
            n,
            size,
            chunks + 1,
            rest - 1,
        );
    }
}

/// The chunks tile the audio: the first starts at its beginning, each starts where the one before
/// it ends, and the last ends where the audio does.
pub proof fn law_chunks_tile(i: int, total: int, size: int)
    requires
        size > 0,
        total >= 0,
        0 <= i < chunk_count(total, size),
    ensures
        i == 0 ==> i * size == 0,
        i > 0 ==> i * size == chunk_end(i - 1, total, size),
        i + 1 == chunk_count(total, size) ==> chunk_end(i, total, size) == total,
{
    lemma_chunk(i, total, size);
    if i > 0 {
        lemma_chunk(i - 1, total, size);
        assert((i - 1) * size + size == i * size) by (nonlinear_arith);
    }
}

} // verus!
