use vstd::prelude::*;

verus! {

/// Largest magnitude a domain boundary numerator may have before scaling by
/// the worker count.
pub const COORD_LIMIT: i64 = 100_000_000;

/// Largest worker pool the partition supports.
pub const MAX_WORKERS: usize = 4096;

/// Lower boundary of slice `id` out of `n`, as the exact rational numerator
/// over the common denominator `n`: `start + id * (end - start) / n` scaled
/// by `n`.
pub open spec fn slice_lo(start: int, end: int, id: int, n: int) -> int {
    start * n + (end - start) * id
}

/// Upper boundary of slice `id` out of `n`, on the same denominator.
pub open spec fn slice_hi(start: int, end: int, id: int, n: int) -> int {
    slice_lo(start, end, id + 1, n)
}

/// The vertical slice owned by worker `id` out of `max_id` workers, as the
/// pair of exact boundary numerators over the denominator `max_id`.
pub fn slice(start: i64, end: i64, id: usize, max_id: usize) -> (r: (i64, i64))
    requires
        1 <= max_id <= MAX_WORKERS,
        id < max_id,
        -COORD_LIMIT <= start <= end <= COORD_LIMIT,
    ensures
        r.0 == slice_lo(start as int, end as int, id as int, max_id as int),
        r.1 == slice_hi(start as int, end as int, id as int, max_id as int),
        r.1 - r.0 == end - start,
{
    let n = max_id as i64;
    let i = id as i64;
    let span = end - start;
    proof {
        assert(-(COORD_LIMIT as int) * (MAX_WORKERS as int) <= start * n
            <= (COORD_LIMIT as int) * (MAX_WORKERS as int)) by (nonlinear_arith)
            requires
                -(COORD_LIMIT as int) <= start <= COORD_LIMIT as int,
                1 <= n <= MAX_WORKERS as int,
        ;
        assert(0 <= span * i <= 2 * (COORD_LIMIT as int) * (MAX_WORKERS as int))
            by (nonlinear_arith)
            requires
                0 <= span <= 2 * (COORD_LIMIT as int),
                0 <= i < MAX_WORKERS as int,
        ;
        assert(slice_hi(start as int, end as int, i as int, n as int)
            == slice_lo(start as int, end as int, i as int, n as int) + span)
            by (nonlinear_arith)
            requires
                span == end - start,
        ;
    }
    let base = start * n + span * i;
    (base, base + span)
}

/// Partition exactness: for any worker count `n >= 1` the `n` vertical slices
/// tile the full extent exactly. The first slice starts at `start`, the last
/// ends at `end`, consecutive slices share a boundary (no gap, no overlap),
/// and every slice has the same size `(end - start) / n`, all stated over the
/// exact numerators on the common denominator `n`.
pub proof fn lemma_partition_exact(start: int, end: int, n: int)
    requires
        1 <= n,
        start <= end,
    ensures
        slice_lo(start, end, 0, n) == start * n,
        slice_hi(start, end, n - 1, n) == end * n,
        forall|i: int|
            0 <= i < n ==> slice_hi(start, end, i, n) == slice_lo(start, end, i + 1, n),
        forall|i: int|
            0 <= i < n ==> slice_hi(start, end, i, n) - slice_lo(start, end, i, n) == end
                - start,
{
    assert(slice_lo(start, end, 0, n) == start * n) by (nonlinear_arith);
    assert(start * n + (end - start) * n == end * n) by (nonlinear_arith);
    assert forall|i: int| 0 <= i < n implies slice_hi(start, end, i, n) - slice_lo(
        start,
        end,
        i,
        n,
    ) == end - start by {
        assert((end - start) * (i + 1) == (end - start) * i + (end - start))
            by (nonlinear_arith);
    }
}

/// The fraction of the composited image's height at which worker `cpu`'s band
/// is placed: `cpu / cpus`, returned as an exact (numerator, denominator)
/// pair.
pub fn span(cpu: usize, cpus: usize) -> (r: (usize, usize))
    requires
        1 <= cpus,
        cpu < cpus,
    ensures
        r.0 == cpu,
        r.1 == cpus,
{
    (cpu, cpus)
}

} // verus!
