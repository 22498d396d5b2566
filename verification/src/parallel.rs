//! How a batch of samples is split for parallel explanation.
use vstd::prelude::*;
use crate::error::{invalid_configuration, is_invalid_configuration, Result, ShapError};
use crate::evaluation::chunk_bounds;

verus! {

/// The sample ranges explained in parallel: a positive chunk size is
/// required (`"parallel chunk size must be positive"`), then at least one
/// row (`EmptyData`); the rows are cut into consecutive `[start, end)`
/// chunks of `chunk_size`, the last one possibly shorter, whose
/// explanations are concatenated in order.
pub fn parallel_chunks(rows: usize, chunk_size: usize) -> (r: Result<Vec<(usize, usize)>>)
    ensures
        chunk_size == 0 ==> r is Err && is_invalid_configuration(
            r->Err_0,
            "parallel chunk size must be positive"@,
        ),
        chunk_size > 0 && rows == 0 ==> r == Err::<Vec<(usize, usize)>, ShapError>(ShapError::EmptyData),
        r is Ok <==> chunk_size > 0 && rows > 0,
        r matches Ok(c) ==> c@.len() == chunk_count(rows as int, chunk_size as int) && forall|k: int|
            0 <= k < c@.len() ==> (#[trigger] c@[k]).0 == chunk_start(k, chunk_size as int) && c@[k].1
                == chunk_end(k, chunk_size as int, rows as int),
{
    if chunk_size == 0 {
        return Err(invalid_configuration("parallel chunk size must be positive"));
    }
    if rows == 0 {
        return Err(ShapError::EmptyData);
    }
    Ok(chunk_bounds(rows, chunk_size))
}

/// The first row of chunk `c` when chunks hold `size` rows.
pub open spec fn chunk_start(c: int, size: int) -> int {
    c * size
}

/// The row after the last one of chunk `c` over `rows` rows.
pub open spec fn chunk_end(c: int, size: int, rows: int) -> int {
    if (c + 1) * size <= rows {
        (c + 1) * size
    } else {
        rows
    }
}

/// The number of chunks of `size` rows that cover `rows` rows.
pub open spec fn chunk_count(rows: int, size: int) -> int {
    (rows + size - 1) / size
}

/// Cutting `rows` rows into chunks of `size` explains every row exactly
/// once: row `r` lies in chunk `r / size`, one of the
/// `(rows + size - 1) / size` chunks, and in no other chunk.
pub proof fn lemma_chunks_cover_each_row_once(rows: int, size: int, r: int)
    requires
        size > 0,
        0 <= r < rows,
    ensures
        0 <= r / size < chunk_count(rows, size),
        chunk_start(r / size, size) <= r < chunk_end(r / size, size, rows),
        forall|c: int|
            0 <= c < chunk_count(rows, size) && #[trigger] chunk_start(c, size) <= r < chunk_end(
                c,
                size,
                rows,
            ) ==> c == r / size,
{
    let c = r / size;
    assert(0 <= c && c * size <= r < c * size + size) by (nonlinear_arith)
        requires
            size > 0,
            r >= 0,
            c == r / size,
    ;
    assert(c < (rows + size - 1) / size) by (nonlinear_arith)
        requires
            size > 0,
            r < rows,
            c * size <= r,
    ;
    assert(r < chunk_end(c, size, rows)) by {
        assert((c + 1) * size == c * size + size) by (nonlinear_arith);
    }
    assert forall|c2: int|
        0 <= c2 < chunk_count(rows, size) && #[trigger] chunk_start(c2, size) <= r < chunk_end(
            c2,
            size,
            rows,
        ) implies c2 == c by {
        assert(r < (c2 + 1) * size);
        assert(c2 == c) by (nonlinear_arith)
            requires
                size > 0,
                c2 * size <= r,
                r < (c2 + 1) * size,
                c * size <= r,
                r < c * size + size,
                c2 >= 0,
                c >= 0,
        ;
    }
}

} // verus!
