//! What holds of relaxation passes and of fields, whatever the grid and the
//! diffusion strength.

use vstd::prelude::*;
use crate::boundary::{mirrored, Side};
use crate::field::{Extent, FieldView};
use crate::grid::{is_square, uniform, with_cell};
use crate::relaxation::{blend, greatest, least, lemma_blend_within_inputs};
use crate::sweep::{line_swept, lines_swept, relaxed, relaxed_cell, swept, within};

verus! {

// ---------------------------------------------------------------------------
// Shape
// ---------------------------------------------------------------------------

/// Relaxing the first cells of a line keeps the grid square.
pub proof fn lemma_line_swept_square(
    prev: Seq<Seq<int>>,
    buf: Seq<Seq<int>>,
    strength: int,
    x: int,
    count: nat,
)
    requires
        is_square(buf, buf.len()),
        0 <= x < buf.len(),
        count <= buf.len(),
    ensures
        is_square(line_swept(prev, buf, strength, x, count), buf.len()),
    decreases count,
{
    if count > 0 {
        lemma_line_swept_square(prev, buf, strength, x, (count - 1) as nat);
    }
}

/// Relaxing the first lines keeps the grid square.
pub proof fn lemma_lines_swept_square(
    prev: Seq<Seq<int>>,
    buf: Seq<Seq<int>>,
    strength: int,
    count: nat,
)
    requires
        is_square(buf, buf.len()),
        count <= buf.len(),
    ensures
        is_square(lines_swept(prev, buf, strength, count), buf.len()),
    decreases count,
{
    if count > 0 {
        lemma_lines_swept_square(prev, buf, strength, (count - 1) as nat);
        let before = lines_swept(prev, buf, strength, (count - 1) as nat);
        lemma_line_swept_square(prev, before, strength, count - 1, buf.len());
    }
}

/// Any number of passes keeps the grid square.
pub proof fn lemma_relaxed_square(
    prev: Seq<Seq<int>>,
    buf: Seq<Seq<int>>,
    strength: int,
    substeps: nat,
)
    requires
        is_square(buf, buf.len()),
    ensures
        is_square(relaxed(prev, buf, strength, substeps), buf.len()),
    decreases substeps,
{
    if substeps > 0 {
        lemma_relaxed_square(prev, buf, strength, (substeps - 1) as nat);
        let before = relaxed(prev, buf, strength, (substeps - 1) as nat);
        lemma_lines_swept_square(prev, before, strength, before.len());
    }
}

// ---------------------------------------------------------------------------
// Range
// ---------------------------------------------------------------------------

/// A relaxed cell lies inside every range that holds all levels of both
/// grids, and putting it into the working grid keeps that grid inside the
/// range.
pub proof fn lemma_cell_step_keeps_range(
    prev: Seq<Seq<int>>,
    buf: Seq<Seq<int>>,
    strength: int,
    x: int,
    y: int,
    lo: int,
    hi: int,
)
    requires
        is_square(prev, buf.len()),
        is_square(buf, buf.len()),
        0 <= x < buf.len(),
        0 <= y < buf.len(),
        strength >= 0,
        within(prev, lo, hi),
        within(buf, lo, hi),
    ensures
        lo <= relaxed_cell(prev, buf, strength, x, y) <= hi,
        within(with_cell(buf, x, y, relaxed_cell(prev, buf, strength, x, y)), lo, hi),
{
    let n = buf.len() as int;
    let xu = mirrored(x, n, Side::Upper);
    let xl = mirrored(x, n, Side::Lower);
    let yu = mirrored(y, n, Side::Upper);
    let yl = mirrored(y, n, Side::Lower);
    lemma_blend_within_inputs(prev[x][y], buf[xu][y], buf[xl][y], buf[x][yu], buf[x][yl], strength);
    let value = relaxed_cell(prev, buf, strength, x, y);
    let after = with_cell(buf, x, y, value);
    assert(lo <= prev[x][y] <= hi);
    assert(lo <= buf[xu][y] <= hi);
    assert(lo <= buf[xl][y] <= hi);
    assert(lo <= buf[x][yu] <= hi);
    assert(lo <= buf[x][yl] <= hi);
    assert forall|a: int, b: int| 0 <= a < after.len() && 0 <= b < after[a].len() implies lo
        <= #[trigger] after[a][b] <= hi by {
        if a == x && b == y {
        } else {
            assert(after[a][b] == buf[a][b]);
        }
    }
}

/// Relaxing the first cells of a line keeps the working grid inside every
/// range that held all levels of both grids before.
pub proof fn lemma_line_swept_keeps_range(
    prev: Seq<Seq<int>>,
    buf: Seq<Seq<int>>,
    strength: int,
    x: int,
    count: nat,
    lo: int,
    hi: int,
)
    requires
        is_square(prev, buf.len()),
        is_square(buf, buf.len()),
        0 <= x < buf.len(),
        count <= buf.len(),
        strength >= 0,
        within(prev, lo, hi),
        within(buf, lo, hi),
    ensures
        within(line_swept(prev, buf, strength, x, count), lo, hi),
    decreases count,
{
    if count > 0 {
        lemma_line_swept_keeps_range(prev, buf, strength, x, (count - 1) as nat, lo, hi);
        lemma_line_swept_square(prev, buf, strength, x, (count - 1) as nat);
        let before = line_swept(prev, buf, strength, x, (count - 1) as nat);
        lemma_cell_step_keeps_range(prev, before, strength, x, count - 1, lo, hi);
    }
}

/// Relaxing the first lines keeps the working grid inside every range that
/// held all levels of both grids before.
pub proof fn lemma_lines_swept_keeps_range(
    prev: Seq<Seq<int>>,
    buf: Seq<Seq<int>>,
    strength: int,
    count: nat,
    lo: int,
    hi: int,
)
    requires
        is_square(prev, buf.len()),
        is_square(buf, buf.len()),
        count <= buf.len(),
        strength >= 0,
        within(prev, lo, hi),
        within(buf, lo, hi),
    ensures
        within(lines_swept(prev, buf, strength, count), lo, hi),
    decreases count,
{
    if count > 0 {
        lemma_lines_swept_keeps_range(prev, buf, strength, (count - 1) as nat, lo, hi);
        lemma_lines_swept_square(prev, buf, strength, (count - 1) as nat);
        let before = lines_swept(prev, buf, strength, (count - 1) as nat);
        lemma_line_swept_keeps_range(prev, before, strength, count - 1, buf.len(), lo, hi);
    }
}

/// No run of passes takes a level out of a range that held all levels of
/// both grids before, and the grid stays square.
pub proof fn lemma_relaxed_keeps_range(
    prev: Seq<Seq<int>>,
    buf: Seq<Seq<int>>,
    strength: int,
    substeps: nat,
    lo: int,
    hi: int,
)
    requires
        is_square(prev, buf.len()),
        is_square(buf, buf.len()),
        strength >= 0,
        within(prev, lo, hi),
        within(buf, lo, hi),
    ensures
        is_square(relaxed(prev, buf, strength, substeps), buf.len()),
        within(relaxed(prev, buf, strength, substeps), lo, hi),
    decreases substeps,
{
    lemma_relaxed_square(prev, buf, strength, substeps);
    if substeps > 0 {
        lemma_relaxed_keeps_range(prev, buf, strength, (substeps - 1) as nat, lo, hi);
        let before = relaxed(prev, buf, strength, (substeps - 1) as nat);
        lemma_lines_swept_keeps_range(prev, before, strength, before.len(), lo, hi);
    }
}

// ---------------------------------------------------------------------------
// What a pass reads
// ---------------------------------------------------------------------------

/// Whether a pass visits the cell `(ax, ay)` before the cell `(x, y)`.
pub open spec fn precedes(ax: int, ay: int, x: int, y: int) -> bool {
    ax < x || (ax == x && ay < y)
}

/// The level that a pass from `buf` to `out` finds at `(ax, ay)` when it
/// relaxes the cell `(x, y)`: the new level where the pass has been already,
/// the level from before the pass elsewhere.
pub open spec fn level_read(
    out: Seq<Seq<int>>,
    buf: Seq<Seq<int>>,
    ax: int,
    ay: int,
    x: int,
    y: int,
) -> int {
    if precedes(ax, ay, x, y) {
        out[ax][ay]
    } else {
        buf[ax][ay]
    }
}

/// While a line is relaxed, every cell outside the part done so far keeps
/// its level.
pub proof fn lemma_line_swept_untouched(
    prev: Seq<Seq<int>>,
    buf: Seq<Seq<int>>,
    strength: int,
    x: int,
    count: nat,
    a: int,
    b: int,
)
    requires
        is_square(buf, buf.len()),
        0 <= x < buf.len(),
        count <= buf.len(),
        0 <= a < buf.len(),
        0 <= b < buf.len(),
        a != x || b >= count,
    ensures
        line_swept(prev, buf, strength, x, count)[a][b] == buf[a][b],
    decreases count,
{
    if count > 0 {
        lemma_line_swept_untouched(prev, buf, strength, x, (count - 1) as nat, a, b);
        lemma_line_swept_square(prev, buf, strength, x, (count - 1) as nat);
    }
}

/// Once a cell of a line has been relaxed, the rest of the line leaves it
/// alone: its level is the one it was given from the grid as it stood then.
pub proof fn lemma_line_swept_settled(
    prev: Seq<Seq<int>>,
    buf: Seq<Seq<int>>,
    strength: int,
    x: int,
    count: nat,
    b: int,
)
    requires
        is_square(buf, buf.len()),
        0 <= x < buf.len(),
        count <= buf.len(),
        0 <= b < count,
    ensures
        line_swept(prev, buf, strength, x, count)[x][b] == relaxed_cell(
            prev,
            line_swept(prev, buf, strength, x, b as nat),
            strength,
            x,
            b,
        ),
    decreases count,
{
    lemma_line_swept_square(prev, buf, strength, x, (count - 1) as nat);
    if b < count - 1 {
        lemma_line_swept_settled(prev, buf, strength, x, (count - 1) as nat, b);
    }
}

/// While the lines are relaxed one after the other, the lines not reached
/// yet keep their levels.
pub proof fn lemma_lines_swept_untouched(
    prev: Seq<Seq<int>>,
    buf: Seq<Seq<int>>,
    strength: int,
    count: nat,
    a: int,
    b: int,
)
    requires
        is_square(buf, buf.len()),
        count <= a < buf.len(),
        0 <= b < buf.len(),
    ensures
        lines_swept(prev, buf, strength, count)[a][b] == buf[a][b],
    decreases count,
{
    if count > 0 {
        lemma_lines_swept_untouched(prev, buf, strength, (count - 1) as nat, a, b);
        lemma_lines_swept_square(prev, buf, strength, (count - 1) as nat);
        let before = lines_swept(prev, buf, strength, (count - 1) as nat);
        lemma_line_swept_untouched(prev, before, strength, count - 1, buf.len(), a, b);
    }
}

/// Once a line has been relaxed, the later lines leave it alone.
pub proof fn lemma_lines_swept_settled(
    prev: Seq<Seq<int>>,
    buf: Seq<Seq<int>>,
    strength: int,
    count: nat,
    a: int,
    b: int,
)
    requires
        is_square(buf, buf.len()),
        count <= buf.len(),
        0 <= a < count,
        0 <= b < buf.len(),
    ensures
        lines_swept(prev, buf, strength, count)[a][b] == lines_swept(
            prev,
            buf,
            strength,
            (a + 1) as nat,
        )[a][b],
    decreases count,
{
    if a < count - 1 {
        lemma_lines_swept_settled(prev, buf, strength, (count - 1) as nat, a, b);
        lemma_lines_swept_square(prev, buf, strength, (count - 1) as nat);
        let before = lines_swept(prev, buf, strength, (count - 1) as nat);
        lemma_line_swept_untouched(prev, before, strength, count - 1, buf.len(), a, b);
    }
}

/// The working grid at the moment a pass reaches the cell `(x, y)`.
pub open spec fn grid_on_arrival(
    prev: Seq<Seq<int>>,
    buf: Seq<Seq<int>>,
    strength: int,
    x: int,
    y: int,
) -> Seq<Seq<int>> {
    line_swept(prev, lines_swept(prev, buf, strength, x as nat), strength, x, y as nat)
}

/// When a pass reaches a cell, the working grid holds the final levels of
/// the pass in the cells visited before, and the levels from before the pass
/// in all others.
pub proof fn lemma_grid_on_arrival(
    prev: Seq<Seq<int>>,
    buf: Seq<Seq<int>>,
    strength: int,
    x: int,
    y: int,
    a: int,
    b: int,
)
    requires
        is_square(buf, buf.len()),
        0 <= x < buf.len(),
        0 <= y < buf.len(),
        0 <= a < buf.len(),
        0 <= b < buf.len(),
    ensures
        grid_on_arrival(prev, buf, strength, x, y)[a][b] == level_read(
            swept(prev, buf, strength),
            buf,
            a,
            b,
            x,
            y,
        ),
{
    let n = buf.len();
    let out = swept(prev, buf, strength);
    let lines_before = lines_swept(prev, buf, strength, x as nat);
    lemma_lines_swept_square(prev, buf, strength, x as nat);
    if a == x && b < y {
        lemma_line_swept_settled(prev, lines_before, strength, x, y as nat, b);
        lemma_line_swept_settled(prev, lines_before, strength, x, n, b);
        lemma_lines_swept_settled(prev, buf, strength, n, x, b);
    } else {
        lemma_line_swept_untouched(prev, lines_before, strength, x, y as nat, a, b);
        if a < x {
            lemma_lines_swept_settled(prev, buf, strength, x as nat, a, b);
            lemma_lines_swept_settled(prev, buf, strength, n, a, b);
        } else {
            lemma_lines_swept_untouched(prev, buf, strength, x as nat, a, b);
        }
    }
}

/// The level that a pass gives to a cell is the one computed from the grid
/// as it stands when the pass reaches the cell.
pub proof fn lemma_swept_cell(
    prev: Seq<Seq<int>>,
    buf: Seq<Seq<int>>,
    strength: int,
    x: int,
    y: int,
)
    requires
        is_square(buf, buf.len()),
        0 <= x < buf.len(),
        0 <= y < buf.len(),
    ensures
        swept(prev, buf, strength)[x][y] == relaxed_cell(
            prev,
            grid_on_arrival(prev, buf, strength, x, y),
            strength,
            x,
            y,
        ),
{
    let n = buf.len();
    let lines_before = lines_swept(prev, buf, strength, x as nat);
    lemma_lines_swept_square(prev, buf, strength, x as nat);
    lemma_lines_swept_settled(prev, buf, strength, n, x, y);
    lemma_line_swept_settled(prev, lines_before, strength, x, n, y);
}

/// The read order of a pass. Each cell takes its own level from `prev`, and
/// from each of its four mirrored neighbours the new level of this pass if
/// the neighbour was visited earlier, and the level from before the pass if
/// not.
pub proof fn lemma_pass_reads_in_visiting_order(
    prev: Seq<Seq<int>>,
    buf: Seq<Seq<int>>,
    strength: int,
    x: int,
    y: int,
)
    requires
        is_square(buf, buf.len()),
        0 <= x < buf.len(),
        0 <= y < buf.len(),
    ensures
        ({
            let n = buf.len() as int;
            let out = swept(prev, buf, strength);
            out[x][y] == blend(
                prev[x][y],
                level_read(out, buf, mirrored(x, n, Side::Upper), y, x, y),
                level_read(out, buf, mirrored(x, n, Side::Lower), y, x, y),
                level_read(out, buf, x, mirrored(y, n, Side::Upper), x, y),
                level_read(out, buf, x, mirrored(y, n, Side::Lower), x, y),
                strength,
            )
        }),
{
    let n = buf.len() as int;
    lemma_swept_cell(prev, buf, strength, x, y);
    lemma_lines_swept_square(prev, buf, strength, x as nat);
    lemma_line_swept_square(
        prev,
        lines_swept(prev, buf, strength, x as nat),
        strength,
        x,
        y as nat,
    );
    lemma_grid_on_arrival(prev, buf, strength, x, y, mirrored(x, n, Side::Upper), y);
    lemma_grid_on_arrival(prev, buf, strength, x, y, mirrored(x, n, Side::Lower), y);
    lemma_grid_on_arrival(prev, buf, strength, x, y, x, mirrored(y, n, Side::Upper));
    lemma_grid_on_arrival(prev, buf, strength, x, y, x, mirrored(y, n, Side::Lower));
}

/// The read order of a run. In every pass after the first, a cell reads from
/// each neighbour the level of the running pass if the neighbour was visited
/// earlier, and the level that the pass before left there if not. Its own
/// level it takes from `prev` in every pass.
pub proof fn lemma_run_reads_in_visiting_order(
    prev: Seq<Seq<int>>,
    buf: Seq<Seq<int>>,
    strength: int,
    substeps: nat,
    x: int,
    y: int,
)
    requires
        is_square(buf, buf.len()),
        substeps >= 1,
        0 <= x < buf.len(),
        0 <= y < buf.len(),
    ensures
        ({
            let n = buf.len() as int;
            let before = relaxed(prev, buf, strength, (substeps - 1) as nat);
            let out = relaxed(prev, buf, strength, substeps);
            out[x][y] == blend(
                prev[x][y],
                level_read(out, before, mirrored(x, n, Side::Upper), y, x, y),
                level_read(out, before, mirrored(x, n, Side::Lower), y, x, y),
                level_read(out, before, x, mirrored(y, n, Side::Upper), x, y),
                level_read(out, before, x, mirrored(y, n, Side::Lower), x, y),
                strength,
            )
        }),
{
    let before = relaxed(prev, buf, strength, (substeps - 1) as nat);
    lemma_relaxed_square(prev, buf, strength, (substeps - 1) as nat);
    lemma_pass_reads_in_visiting_order(prev, before, strength, x, y);
}

/// Every level that a pass writes lies between the smallest and the largest
/// of the five levels it was computed from: the cell's own level in `prev`
/// and the four neighbour levels that the pass read.
pub proof fn lemma_pass_stays_within_its_reads(
    prev: Seq<Seq<int>>,
    buf: Seq<Seq<int>>,
    strength: int,
    x: int,
    y: int,
)
    requires
        is_square(buf, buf.len()),
        0 <= x < buf.len(),
        0 <= y < buf.len(),
        strength >= 0,
    ensures
        ({
            let n = buf.len() as int;
            let out = swept(prev, buf, strength);
            let right = level_read(out, buf, mirrored(x, n, Side::Upper), y, x, y);
            let left = level_read(out, buf, mirrored(x, n, Side::Lower), y, x, y);
            let up = level_read(out, buf, x, mirrored(y, n, Side::Upper), x, y);
            let down = level_read(out, buf, x, mirrored(y, n, Side::Lower), x, y);
            &&& least(prev[x][y], right, left, up, down) <= out[x][y]
            &&& out[x][y] <= greatest(prev[x][y], right, left, up, down)
        }),
{
    let n = buf.len() as int;
    let out = swept(prev, buf, strength);
    lemma_pass_reads_in_visiting_order(prev, buf, strength, x, y);
    lemma_blend_within_inputs(
        prev[x][y],
        level_read(out, buf, mirrored(x, n, Side::Upper), y, x, y),
        level_read(out, buf, mirrored(x, n, Side::Lower), y, x, y),
        level_read(out, buf, x, mirrored(y, n, Side::Upper), x, y),
        level_read(out, buf, x, mirrored(y, n, Side::Lower), x, y),
        strength,
    );
}

/// On a grid of at least two lines, the cells of the last line read the line
/// before it on both sides, and the cells of the first line read the second
/// line on both sides. The same holds along the other axis.
pub proof fn lemma_edge_cells_read_inward(
    prev: Seq<Seq<int>>,
    buf: Seq<Seq<int>>,
    strength: int,
    along: int,
)
    requires
        buf.len() >= 2,
        0 <= along < buf.len(),
    ensures
        ({
            let n = buf.len() as int;
            let up = mirrored(along, n, Side::Upper);
            let down = mirrored(along, n, Side::Lower);
            &&& relaxed_cell(prev, buf, strength, n - 1, along) == blend(
                prev[n - 1][along],
                buf[n - 2][along],
                buf[n - 2][along],
                buf[n - 1][up],
                buf[n - 1][down],
                strength,
            )
            &&& relaxed_cell(prev, buf, strength, 0, along) == blend(
                prev[0][along],
                buf[1][along],
                buf[1][along],
                buf[0][up],
                buf[0][down],
                strength,
            )
            &&& relaxed_cell(prev, buf, strength, along, n - 1) == blend(
                prev[along][n - 1],
                buf[up][n - 1],
                buf[down][n - 1],
                buf[along][n - 2],
                buf[along][n - 2],
                strength,
            )
            &&& relaxed_cell(prev, buf, strength, along, 0) == blend(
                prev[along][0],
                buf[up][0],
                buf[down][0],
                buf[along][1],
                buf[along][1],
                strength,
            )
        }),
{
}

// ---------------------------------------------------------------------------
// Level grids
// ---------------------------------------------------------------------------

/// Five equal levels blend to the same level.
pub proof fn lemma_blend_of_equal_levels(level: int, strength: int)
    requires
        strength >= 0,
    ensures
        blend(level, level, level, level, level, strength) == level,
{
    lemma_blend_within_inputs(level, level, level, level, level, strength);
}

/// Relaxing cells of a grid in which every cell holds the same level, as it
/// did before the run, changes nothing.
pub proof fn lemma_level_line_is_steady(n: nat, level: int, strength: int, x: int, count: nat)
    requires
        strength >= 0,
        0 <= x < n,
        count <= n,
    ensures
        line_swept(uniform(n, level), uniform(n, level), strength, x, count) == uniform(n, level),
    decreases count,
{
    if count > 0 {
        let flat = uniform(n, level);
        lemma_level_line_is_steady(n, level, strength, x, (count - 1) as nat);
        lemma_blend_of_equal_levels(level, strength);
        let y = count - 1;
        assert(0 <= mirrored(x, n as int, Side::Upper) < n);
        assert(0 <= mirrored(x, n as int, Side::Lower) < n);
        assert(0 <= mirrored(y, n as int, Side::Upper) < n);
        assert(0 <= mirrored(y, n as int, Side::Lower) < n);
        assert(relaxed_cell(flat, flat, strength, x, y) == level);
        assert(with_cell(flat, x, y, level) =~~= flat);
    }
}

/// Relaxing lines of a grid in which every cell holds the same level, as it
/// did before the run, changes nothing.
pub proof fn lemma_level_lines_are_steady(n: nat, level: int, strength: int, count: nat)
    requires
        strength >= 0,
        count <= n,
    ensures
        lines_swept(uniform(n, level), uniform(n, level), strength, count) == uniform(n, level),
    decreases count,
{
    if count > 0 {
        lemma_level_lines_are_steady(n, level, strength, (count - 1) as nat);
        lemma_level_line_is_steady(n, level, strength, count - 1, n);
    }
}

/// A grid in which every cell holds the same level is a steady state: no
/// number of passes changes it.
pub proof fn lemma_level_grid_is_steady(n: nat, level: int, strength: int, substeps: nat)
    requires
        strength >= 0,
    ensures
        relaxed(uniform(n, level), uniform(n, level), strength, substeps) == uniform(n, level),
    decreases substeps,
{
    if substeps > 0 {
        lemma_level_grid_is_steady(n, level, strength, (substeps - 1) as nat);
        lemma_level_lines_are_steady(n, level, strength, n);
    }
}

// ---------------------------------------------------------------------------
// Fields
// ---------------------------------------------------------------------------

/// The field after a history of calls to `advance`, each given by its number
/// of sub-steps and its strength, oldest first.
pub open spec fn after_runs(start: FieldView, runs: Seq<(nat, int)>) -> FieldView
    decreases runs.len(),
{
    if runs.len() == 0 {
        start
    } else {
        after_runs(start, runs.drop_last()).advanced(runs.last().0, runs.last().1)
    }
}

/// Two fields made with the same extent and resolution are equal when they
/// have been seeded, and stay equal through any history of calls to
/// `advance` that both go through: nothing but the arguments decides what a
/// field holds.
pub proof fn lemma_same_making_same_field(
    a: FieldView,
    b: FieldView,
    extent: Extent,
    resolution: nat,
    runs: Seq<(nat, int)>,
)
    requires
        a == FieldView::blank(extent, resolution).seeded(),
        b == FieldView::blank(extent, resolution).seeded(),
    ensures
        a == b,
        a.seeded() == b.seeded(),
        after_runs(a, runs) == after_runs(b, runs),
{
}

/// Seeding a seeded field changes nothing.
pub proof fn lemma_seeding_twice_is_seeding_once(field: FieldView)
    requires
        field.well_formed(),
    ensures
        field.seeded().seeded() == field.seeded(),
{
    let once = field.seeded();
    let twice = once.seeded();
    assert(0 <= field.centre() < field.resolution);
    assert(twice.intensity =~~= once.intensity);
    assert(twice.velocity =~~= once.velocity);
}

/// A field in which every cell holds the same intensity is not changed by
/// advancing it.
pub proof fn lemma_level_field_is_steady(field: FieldView, level: int, substeps: nat, strength: int)
    requires
        field.intensity == uniform(field.resolution, level),
        strength >= 0,
    ensures
        field.advanced(substeps, strength) == field,
{
    lemma_level_grid_is_steady(field.resolution, level, strength, substeps);
}

/// Advancing a field changes neither its resolution, nor the size of its
/// cells, nor any velocity.
pub proof fn lemma_advancing_moves_intensity_only(field: FieldView, substeps: nat, strength: int)
    ensures
        field.advanced(substeps, strength).resolution == field.resolution,
        field.advanced(substeps, strength).cell_width == field.cell_width,
        field.advanced(substeps, strength).cell_height == field.cell_height,
        field.advanced(substeps, strength).velocity == field.velocity,
{
}

} // verus!
