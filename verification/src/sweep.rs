//! One relaxation pass over the whole grid, and runs of several passes.
//!
//! A pass visits the cells line by line, and within a line in rising order.
//! Each cell takes its own level from the grid as it was before the run, and
//! the levels of its four neighbours from the working grid, in which the
//! cells visited earlier in the same pass already hold their new levels.

use vstd::prelude::*;
use crate::boundary::{mirror, mirrored, Side};
use crate::fixed::LEVEL_LIMIT;
use crate::grid::{is_square, with_cell, Grid};
use crate::relaxation::{blend, relax_cell};
use crate::theorems::lemma_cell_step_keeps_range;

verus! {

/// The stored levels of a grid as mathematical integers.
pub open spec fn levels(cells: Seq<Seq<u64>>) -> Seq<Seq<int>> {
    Seq::new(cells.len(), |x: int| Seq::new(cells[x].len(), |y: int| cells[x][y] as int))
}

/// Whether every level of the grid lies between `lo` and `hi`.
pub open spec fn within(cells: Seq<Seq<int>>, lo: int, hi: int) -> bool {
    forall|x: int, y: int|
        0 <= x < cells.len() && 0 <= y < cells[x].len() ==> lo <= #[trigger] cells[x][y] <= hi
}

/// The new level of the cell at `(x, y)`: its own level in `prev` blended
/// with the levels that its four neighbours have in `buf`.
pub open spec fn relaxed_cell(
    prev: Seq<Seq<int>>,
    buf: Seq<Seq<int>>,
    strength: int,
    x: int,
    y: int,
) -> int {
    let n = buf.len() as int;
    blend(
        prev[x][y],
        buf[mirrored(x, n, Side::Upper)][y],
        buf[mirrored(x, n, Side::Lower)][y],
        buf[x][mirrored(y, n, Side::Upper)],
        buf[x][mirrored(y, n, Side::Lower)],
        strength,
    )
}

/// The working grid after the first `count` cells of line `x` have been
/// relaxed in rising order, starting from `buf`.
pub open spec fn line_swept(
    prev: Seq<Seq<int>>,
    buf: Seq<Seq<int>>,
    strength: int,
    x: int,
    count: nat,
) -> Seq<Seq<int>>
    decreases count,
{
    if count == 0 {
        buf
    } else {
        let before = line_swept(prev, buf, strength, x, (count - 1) as nat);
        with_cell(before, x, count - 1, relaxed_cell(prev, before, strength, x, count - 1))
    }
}

/// The working grid after the first `count` lines have been relaxed in
/// rising order, starting from `buf`.
pub open spec fn lines_swept(
    prev: Seq<Seq<int>>,
    buf: Seq<Seq<int>>,
    strength: int,
    count: nat,
) -> Seq<Seq<int>>
    decreases count,
{
    if count == 0 {
        buf
    } else {
        line_swept(
            prev,
            lines_swept(prev, buf, strength, (count - 1) as nat),
            strength,
            count - 1,
            buf.len(),
        )
    }
}

/// The working grid after one pass over every cell, starting from `buf`.
pub open spec fn swept(prev: Seq<Seq<int>>, buf: Seq<Seq<int>>, strength: int) -> Seq<Seq<int>> {
    lines_swept(prev, buf, strength, buf.len())
}

/// The working grid after `substeps` passes, starting from `buf`. Every pass
/// takes the cells' own levels from the same grid `prev`.
pub open spec fn relaxed(
    prev: Seq<Seq<int>>,
    buf: Seq<Seq<int>>,
    strength: int,
    substeps: nat,
) -> Seq<Seq<int>>
    decreases substeps,
{
    if substeps == 0 {
        buf
    } else {
        swept(prev, relaxed(prev, buf, strength, (substeps - 1) as nat), strength)
    }
}

/// Replacing a stored level replaces the same level of the integer grid.
pub proof fn lemma_levels_with_cell(cells: Seq<Seq<u64>>, x: int, y: int, value: u64)
    requires
        0 <= x < cells.len(),
        0 <= y < cells[x].len(),
    ensures
        levels(with_cell(cells, x, y, value)) == with_cell(levels(cells), x, y, value as int),
{
    assert(levels(with_cell(cells, x, y, value)) =~~= with_cell(levels(cells), x, y, value as int));
}

/// Relaxes every cell of line `x` of the working grid `buf` in rising order.
///
/// The two grids have the same side, and no level of either is above
/// `LEVEL_LIMIT`.
pub fn sweep_line(prev: &Grid<u64>, buf: &mut Grid<u64>, strength: u64, x: usize)
    requires
        prev.wf(),
        old(buf).wf(),
        prev@.len() == old(buf)@.len(),
        x < old(buf)@.len(),
        within(levels(prev@), 0, LEVEL_LIMIT as int),
        within(levels(old(buf)@), 0, LEVEL_LIMIT as int),
    ensures
        final(buf).wf(),
        final(buf)@.len() == old(buf)@.len(),
        levels(final(buf)@) == line_swept(
            levels(prev@),
            levels(old(buf)@),
            strength as int,
            x as int,
            old(buf)@.len(),
        ),
        within(levels(final(buf)@), 0, LEVEL_LIMIT as int),
{
    let n: usize = buf.side();
    let ghost start = levels(buf@);
    let ghost own_levels = levels(prev@);
    proof {
        prev.lemma_view_is_square();
    }
    let mut y: usize = 0;
    while y < n
        invariant
            prev.wf(),
            buf.wf(),
            prev@.len() == n,
            buf@.len() == n,
            x < n,
            y <= n,
            is_square(prev@, n as nat),
            own_levels == levels(prev@),
            within(own_levels, 0, LEVEL_LIMIT as int),
            within(levels(buf@), 0, LEVEL_LIMIT as int),
            levels(buf@) == line_swept(own_levels, start, strength as int, x as int, y as nat),
        decreases n - y,
    {
        proof {
            buf.lemma_view_is_square();
        }
        let ghost before = buf@;
        let x_upper: usize = mirror(x, n, Side::Upper);
        let x_lower: usize = mirror(x, n, Side::Lower);
        let y_upper: usize = mirror(y, n, Side::Upper);
        let y_lower: usize = mirror(y, n, Side::Lower);
        let own: u64 = prev.get(x, y);
        let right: u64 = buf.get(x_upper, y);
        let left: u64 = buf.get(x_lower, y);
        let up: u64 = buf.get(x, y_upper);
        let down: u64 = buf.get(x, y_lower);
        proof {
            assert(own == own_levels[x as int][y as int]);
            assert(right == levels(before)[x_upper as int][y as int]);
            assert(left == levels(before)[x_lower as int][y as int]);
            assert(up == levels(before)[x as int][y_upper as int]);
            assert(down == levels(before)[x as int][y_lower as int]);
        }
        let next: u64 = relax_cell(own, right, left, up, down, strength);
        buf.set(x, y, next);
        proof {
            lemma_levels_with_cell(before, x as int, y as int, next);
            lemma_cell_step_keeps_range(
                own_levels,
                levels(before),
                strength as int,
                x as int,
                y as int,
                0,
                LEVEL_LIMIT as int,
            );
        }
        y = y + 1;
    }
}

/// Makes one pass over the working grid `buf`: relaxes every line in rising
/// order.
///
/// The two grids have the same side, and no level of either is above
/// `LEVEL_LIMIT`.
pub fn sweep(prev: &Grid<u64>, buf: &mut Grid<u64>, strength: u64)
    requires
        prev.wf(),
        old(buf).wf(),
        prev@.len() == old(buf)@.len(),
        within(levels(prev@), 0, LEVEL_LIMIT as int),
        within(levels(old(buf)@), 0, LEVEL_LIMIT as int),
    ensures
        final(buf).wf(),
        final(buf)@.len() == old(buf)@.len(),
        levels(final(buf)@) == swept(levels(prev@), levels(old(buf)@), strength as int),
        within(levels(final(buf)@), 0, LEVEL_LIMIT as int),
{
    let n: usize = buf.side();
    let ghost start = levels(buf@);
    let mut x: usize = 0;
    while x < n
        invariant
            prev.wf(),
            buf.wf(),
            prev@.len() == n,
            buf@.len() == n,
            start.len() == n,
            x <= n,
            within(levels(prev@), 0, LEVEL_LIMIT as int),
            within(levels(buf@), 0, LEVEL_LIMIT as int),
            levels(buf@) == lines_swept(levels(prev@), start, strength as int, x as nat),
        decreases n - x,
    {
        sweep_line(prev, buf, strength, x);
        x = x + 1;
    }
}

/// Makes `substeps` passes over the working grid `buf`. The cells' own
/// levels come from `prev` in every pass.
///
/// The two grids have the same side, and no level of either is above
/// `LEVEL_LIMIT`.
pub fn relax(prev: &Grid<u64>, buf: &mut Grid<u64>, strength: u64, substeps: u32)
    requires
        prev.wf(),
        old(buf).wf(),
        prev@.len() == old(buf)@.len(),
        within(levels(prev@), 0, LEVEL_LIMIT as int),
        within(levels(old(buf)@), 0, LEVEL_LIMIT as int),
    ensures
        final(buf).wf(),
        final(buf)@.len() == old(buf)@.len(),
        levels(final(buf)@) == relaxed(
            levels(prev@),
            levels(old(buf)@),
            strength as int,
            substeps as nat,
        ),
        within(levels(final(buf)@), 0, LEVEL_LIMIT as int),
{
    let ghost start = levels(buf@);
    let ghost n = buf@.len();
    let mut done: u32 = 0;
    while done < substeps
        invariant
            prev.wf(),
            buf.wf(),
            prev@.len() == n,
            buf@.len() == n,
            done <= substeps,
            within(levels(prev@), 0, LEVEL_LIMIT as int),
            within(levels(buf@), 0, LEVEL_LIMIT as int),
            levels(buf@) == relaxed(levels(prev@), start, strength as int, done as nat),
        decreases substeps - done,
    {
        sweep(prev, buf, strength);
        done = done + 1;
    }
}

} // verus!
