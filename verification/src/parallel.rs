//! Data-parallel helpers on rayon's global thread pool.
//!
//! Work is split into independent items whose results come back in the
//! items' own order, so what is computed from them does not depend on how
//! the pool schedules the work.

use vstd::prelude::*;
use rayon::iter::{IntoParallelIterator, ParallelIterator};

verus! {

/// `rayon::current_num_threads`: the size of the pool that runs the work.
/// It depends on the machine and the pool's configuration, so nothing is
/// stated of it; callers only use it to size their chunks.
#[verifier::external_body]
pub(crate) fn worker_count() -> (r: usize) {
    rayon::current_num_threads()
}

/// `items.into_par_iter().map(f).collect()` from rayon: `f` is applied to
/// every item, possibly on several threads, and the results are collected
/// in the items' order, one per item.
#[verifier::external_body]
pub(crate) fn par_map<T, U, F>(items: Vec<T>, f: F) -> (r: Vec<U>) where
    T: Send,
    U: Send,
    F: Fn(T) -> U + Sync + Send,

    requires
        forall|i: int| 0 <= i < items@.len() ==> f.requires((#[trigger] items@[i],)),
    ensures
        r@.len() == items@.len(),
        forall|i: int| 0 <= i < items@.len() ==> f.ensures((#[trigger] items@[i],), r@[i]),
{
    items.into_par_iter().map(f).collect()
}


/// Consecutive non-empty chunks that exactly cover `[from, to)`.
pub open spec fn chunks_cover(chunks: Seq<(usize, usize)>, from: int, to: int) -> bool {
    &&& chunks.len() > 0
    &&& chunks[0].0 == from
    &&& chunks[chunks.len() - 1].1 == to
    &&& forall|j: int| 0 <= j < chunks.len() ==> (#[trigger] chunks[j]).0 < chunks[j].1 <= to
    &&& forall|j: int| 0 < j < chunks.len() ==> (#[trigger] chunks[j]).0 == chunks[j - 1].1
}

/// Chunk length for a parallel pass over `len` items: the items spread
/// over the workers, but never fewer than `min_len` (nor 0).
pub(crate) fn chunk_size_for(len: usize, min_len: usize) -> (r: usize)
    requires
        min_len > 0,
    ensures
        r >= min_len,
        r > 0,
{
    let threads = worker_count();
    let num_threads = if threads > 1 {
        threads
    } else {
        1
    };
    let q = len / num_threads;
    let per = if len % num_threads == 0 {
        q
    } else {
        assert(q < len) by (nonlinear_arith)
            requires
                q == len / num_threads,
                len % num_threads != 0,
                num_threads >= 1,
        ;
        q + 1
    };
    if per > min_len {
        per
    } else {
        min_len
    }
}

/// `[from, to)` cut into chunks of `size` items (the last one shorter).
pub(crate) fn split_range(from: usize, to: usize, size: usize) -> (r: Vec<(usize, usize)>)
    requires
        from < to,
        size > 0,
    ensures
        chunks_cover(r@, from as int, to as int),
{
    let mut chunks: Vec<(usize, usize)> = Vec::new();
    let mut pos = from;
    while pos < to
        invariant
            from <= pos <= to,
            size > 0,
            chunks@.len() == 0 ==> pos == from,
            chunks@.len() > 0 ==> {
                &&& chunks@[0].0 == from
                &&& chunks@[chunks@.len() - 1].1 == pos
                &&& forall|j: int| 0 <= j < chunks@.len() ==> (#[trigger] chunks@[j]).0 < chunks@[j].1 <= to
                &&& forall|j: int| 0 < j < chunks@.len() ==> (#[trigger] chunks@[j]).0 == chunks@[j - 1].1
            },
        decreases to - pos,
    {
        let end = if size <= to - pos {
            pos + size
        } else {
            to
        };
        chunks.push((pos, end));
        pos = end;
    }
    chunks
}


/// Where the first `k` chunks end (`start` before any).
pub open spec fn bound_after(chunks: Seq<(usize, usize)>, start: int, k: int) -> int {
    if k <= 0 {
        start
    } else {
        chunks[k - 1].1 as int
    }
}

pub proof fn lemma_bound_after_ge(chunks: Seq<(usize, usize)>, start: int, k: int)
    requires
        chunks_cover(chunks, start, chunks[chunks.len() - 1].1 as int),
        0 <= k <= chunks.len(),
    ensures
        start <= bound_after(chunks, start, k),
        k < chunks.len() ==> chunks[k].0 == bound_after(chunks, start, k),
        k == chunks.len() ==> bound_after(chunks, start, k) == chunks[chunks.len() - 1].1,
    decreases k,
{
    if k > 0 {
        lemma_bound_after_ge(chunks, start, k - 1);
        assert(chunks[k - 1].0 < chunks[k - 1].1);
    }
}

} // verus!
