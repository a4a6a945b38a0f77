//! Cutting a document's lines into contiguous ranges, one per worker.
use vstd::prelude::*;
use crate::error::IndexError;

verus! {

/// The number of workers for a document of `lines` lines when `threads`
/// were asked for: never more workers than lines, unless there are none.
pub open spec fn worker_count(lines: nat, threads: nat) -> nat {
    if lines < threads && lines != 0 {
        lines
    } else {
        threads
    }
}

/// The number of lines that each worker gets before the last one takes the
/// rest.
pub open spec fn lines_per_worker(lines: nat, threads: nat) -> nat
    recommends
        threads > 0,
{
    lines / worker_count(lines, threads)
}

/// The first line of worker `i`.
pub open spec fn range_start(lines: nat, threads: nat, i: nat) -> nat {
    i * lines_per_worker(lines, threads)
}

/// The line just past the range of worker `i`: the last worker also takes
/// the lines that do not divide evenly.
pub open spec fn range_end(lines: nat, threads: nat, i: nat) -> nat {
    let n = worker_count(lines, threads);
    range_start(lines, threads, i) + lines_per_worker(lines, threads) + (if i + 1 == n {
        lines % n
    } else {
        0
    })
}

proof fn lemma_range_bounds(lines: nat, threads: nat, i: nat)
    requires
        threads > 0,
        i < worker_count(lines, threads),
    ensures
        range_start(lines, threads, i) <= range_end(lines, threads, i) <= lines,
        i + 1 == worker_count(lines, threads) ==> range_end(lines, threads, i) == lines,
        i + 1 < worker_count(lines, threads) ==> range_end(lines, threads, i) == range_start(
            lines,
            threads,
            i + 1,
        ),
{
    let n = worker_count(lines, threads);
    let b = lines_per_worker(lines, threads);
    assert(n > 0);
    assert(lines == n * b + lines % n) by (nonlinear_arith)
        requires
            n > 0,
            b == lines / n,
    ;
    assert(i * b + b == (i + 1) * b) by (nonlinear_arith);
    assert((i + 1) * b <= n * b) by (nonlinear_arith)
        requires
            i + 1 <= n,
    ;
    assert(i + 1 == n ==> (i + 1) * b + lines % n == lines);
}

/// The contiguous ranges covering lines `0` to `lines` in order: the first
/// starts at line 0, each starts where the one before ends, and the last
/// ends at `lines`.
pub proof fn lemma_ranges_cover(lines: nat, threads: nat)
    requires
        threads > 0,
    ensures
        range_start(lines, threads, 0) == 0,
        range_end(lines, threads, (worker_count(lines, threads) - 1) as nat) == lines,
        forall|i: nat|
            i + 1 < worker_count(lines, threads) ==> #[trigger] range_end(lines, threads, i)
                == range_start(lines, threads, i + 1),
        forall|i: nat|
            i < worker_count(lines, threads) ==> range_start(lines, threads, i) <= #[trigger] range_end(
                lines,
                threads,
                i,
            ) <= lines,
{
    assert(0 * lines_per_worker(lines, threads) == 0);
    lemma_range_bounds(lines, threads, (worker_count(lines, threads) - 1) as nat);
    assert forall|i: nat| i < worker_count(lines, threads) implies range_start(lines, threads, i)
        <= #[trigger] range_end(lines, threads, i) <= lines && (i + 1 < worker_count(lines, threads)
        ==> range_end(lines, threads, i) == range_start(lines, threads, i + 1)) by {
        lemma_range_bounds(lines, threads, i);
    }
}

/// Every line of the document falls in the range of some worker.
pub proof fn lemma_worker_of_line(lines: nat, threads: nat, i: nat) -> (w: nat)
    requires
        threads > 0,
        i < lines,
    ensures
        w < worker_count(lines, threads),
        range_start(lines, threads, w) <= i < range_end(lines, threads, w),
{
    let n = worker_count(lines, threads);
    let b = lines_per_worker(lines, threads);
    assert(0 < n <= lines);
    assert(b >= 1) by (nonlinear_arith)
        requires
            0 < n <= lines,
            b == lines / n,
    ;
    let q = i / b;
    assert(q * b <= i < q * b + b) by (nonlinear_arith)
        requires
            b >= 1,
            q == i / b,
    ;
    let w = if q < n { q } else { (n - 1) as nat };
    assert(w * b <= q * b) by (nonlinear_arith)
        requires
            w <= q,
    ;
    lemma_range_bounds(lines, threads, w);
    w
}

/// The line range `[start, end)` of each worker for a document of
/// `line_count` lines. Asking for zero workers is refused.
pub fn line_ranges(line_count: usize, thread_count: usize) -> (r: Result<
    Vec<(usize, usize)>,
    IndexError,
>)
    ensures
        r is Err <==> thread_count == 0,
        r is Err ==> r->Err_0 == IndexError::ZeroThreads,
        r is Ok ==> {
            let v = r->Ok_0@;
            &&& v.len() == worker_count(line_count as nat, thread_count as nat)
            &&& forall|i: int|
                0 <= i < v.len() ==> v[i].0 == range_start(
                    line_count as nat,
                    thread_count as nat,
                    i as nat,
                ) && v[i].1 == range_end(line_count as nat, thread_count as nat, i as nat)
        },
{
    if thread_count == 0 {
        return Err(IndexError::ZeroThreads);
    }
    let workers: usize = if line_count < thread_count && line_count != 0 {
        line_count
    } else {
        thread_count
    };
    let leftover: usize = line_count % workers;
    let per_worker: usize = line_count / workers;
    let ghost lines = line_count as nat;
    let ghost threads = thread_count as nat;
    let mut ranges: Vec<(usize, usize)> = Vec::new();
    let mut i: usize = 0;
    while i < workers
        invariant
            lines == line_count as nat,
            threads == thread_count as nat,
            workers == worker_count(lines, threads),
            workers > 0,
            per_worker == lines_per_worker(lines, threads),
            leftover == lines % workers as nat,
            i <= workers,
            ranges@.len() == i,
            forall|j: int|
                0 <= j < i ==> ranges@[j].0 == range_start(lines, threads, j as nat)
                    && ranges@[j].1 == range_end(lines, threads, j as nat),
        decreases workers - i,
    {
        proof {
            lemma_range_bounds(lines, threads, i as nat);
        }
        let start: usize = i * per_worker;
        let end: usize = if i == workers - 1 {
            start + per_worker + leftover
        } else {
            start + per_worker
        };
        ranges.push((start, end));
        i = i + 1;
    }
    Ok(ranges)
}

} // verus!
