//! Splitting a list into the batches that one query each covers.

use vstd::prelude::*;

verus! {

/// Tables unioned per query. Bounds what one unqueryable table can cost, and
/// the size of one response.
pub const TABLES_PER_QUERY: usize = 25;

/// How many batches `n` items make.
pub open spec fn batch_count(n: int) -> int {
    (n + TABLES_PER_QUERY - 1) / (TABLES_PER_QUERY as int)
}

pub open spec fn batch_end(n: int, k: int) -> int {
    if (k + 1) * TABLES_PER_QUERY <= n {
        (k + 1) * TABLES_PER_QUERY
    } else {
        n
    }
}

/// The items of batch `k`.
pub open spec fn batch<T>(s: Seq<T>, k: int) -> Seq<T> {
    s.subrange(k * TABLES_PER_QUERY, batch_end(s.len() as int, k))
}

pub fn count_batches(n: usize) -> (r: usize)
    ensures
        r == batch_count(n as int),
{
    if n % TABLES_PER_QUERY == 0 {
        n / TABLES_PER_QUERY
    } else {
        n / TABLES_PER_QUERY + 1
    }
}

/// Where batch `k` of `n` items begins and ends.
pub fn batch_bounds(n: usize, k: usize) -> (r: (usize, usize))
    requires
        k < batch_count(n as int),
    ensures
        r.0 == k * TABLES_PER_QUERY,
        r.1 == batch_end(n as int, k as int),
        r.0 < r.1 <= n,
{
    let from: usize = k * TABLES_PER_QUERY;
    let to: usize = if n - from < TABLES_PER_QUERY {
        n
    } else {
        from + TABLES_PER_QUERY
    };
    (from, to)
}

/// Every item is in exactly one batch.
pub proof fn batches_cover<T>(s: Seq<T>, i: int)
    requires
        0 <= i < s.len(),
    ensures
        0 <= i / (TABLES_PER_QUERY as int) < batch_count(s.len() as int),
        batch(s, i / (TABLES_PER_QUERY as int))[i % (TABLES_PER_QUERY as int)] == s[i],
        forall|k: int|
            0 <= k < batch_count(s.len() as int) && k * TABLES_PER_QUERY <= i < #[trigger] batch_end(
                s.len() as int,
                k,
            ) ==> k == i / (TABLES_PER_QUERY as int),
{
}

/// A batch holds twenty-five items, and only the last may hold fewer, but
/// one at least; there are no more batches than are needed.
pub proof fn batches_are_full_but_for_the_last<T>(s: Seq<T>, k: int)
    requires
        0 <= k < batch_count(s.len() as int),
    ensures
        1 <= batch(s, k).len() <= 25,
        k < batch_count(s.len() as int) - 1 ==> batch(s, k).len() == 25,
        25 * (batch_count(s.len() as int) - 1) < s.len() <= 25 * batch_count(s.len() as int),
        forall|i: int| 0 <= i < batch(s, k).len() ==> (#[trigger] batch(s, k)[i]) == s[25 * k + i],
{
}

} // verus!
