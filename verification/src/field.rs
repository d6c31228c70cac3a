//! The diffusion field: a square grid of intensities and velocities that is
//! seeded once and then advanced tick by tick.

use vstd::prelude::*;
use crate::error::FieldError;
use crate::fixed::{
    DEFAULT_STRENGTH,
    DEFAULT_SUBSTEPS,
    LEVEL_LIMIT,
    SEED_LEVEL,
    SEED_VELOCITY_X,
    SEED_VELOCITY_Y,
};
use crate::grid::{is_square, uniform, with_cell, Grid};
use crate::sweep::{lemma_levels_with_cell, levels, relax, relaxed, within};
use crate::theorems::lemma_relaxed_keeps_range;

verus! {

/// The size of the rectangle that the grid covers, as stored fixed-point
/// numbers.
#[derive(Clone, Copy, Debug, PartialEq, Eq, Structural)]
pub struct Extent {
    /// The width of the rectangle.
    pub width: u64,
    /// The height of the rectangle.
    pub height: u64,
}

/// What a field is, apart from how it is stored.
pub struct FieldView {
    /// The number of lines of the grid, and of cells in each line.
    pub resolution: nat,
    /// The width of one cell.
    pub cell_width: nat,
    /// The height of one cell.
    pub cell_height: nat,
    /// The intensity of each cell: `intensity[x][y]`.
    pub intensity: Seq<Seq<int>>,
    /// The velocity of each cell: `velocity[x][y]`.
    pub velocity: Seq<Seq<(i64, i64)>>,
}

impl FieldView {
    /// Whether both grids have `resolution` lines of `resolution` cells,
    /// there is at least one cell, and no intensity is negative or above the
    /// seed level.
    pub open spec fn well_formed(self) -> bool {
        &&& self.resolution >= 1
        &&& is_square(self.intensity, self.resolution)
        &&& is_square(self.velocity, self.resolution)
        &&& within(self.intensity, 0, SEED_LEVEL as int)
    }

    /// The coordinate, on both axes, of the cell that seeding sets: half the
    /// resolution, rounded down.
    pub open spec fn centre(self) -> int {
        self.resolution as int / 2
    }

    /// The field of the given extent and resolution in which every intensity
    /// and every velocity is zero.
    pub open spec fn blank(extent: Extent, resolution: nat) -> FieldView {
        FieldView {
            resolution,
            cell_width: extent.width as nat / resolution,
            cell_height: extent.height as nat / resolution,
            intensity: uniform(resolution, 0int),
            velocity: uniform(resolution, (0i64, 0i64)),
        }
    }

    /// The field after seeding: the centre cell holds the seed level and the
    /// seed velocity, every other cell is as before.
    pub open spec fn seeded(self) -> FieldView {
        FieldView {
            intensity: with_cell(self.intensity, self.centre(), self.centre(), SEED_LEVEL as int),
            velocity: with_cell(
                self.velocity,
                self.centre(),
                self.centre(),
                (SEED_VELOCITY_X, SEED_VELOCITY_Y),
            ),
            ..self
        }
    }

    /// The field after `substeps` relaxation passes of the given strength:
    /// the intensities are relaxed, everything else is as before.
    pub open spec fn advanced(self, substeps: nat, strength: int) -> FieldView {
        FieldView {
            intensity: relaxed(self.intensity, self.intensity, strength, substeps),
            ..self
        }
    }

    /// A blank field with at least one cell is well formed.
    pub proof fn lemma_blank_well_formed(extent: Extent, resolution: nat)
        requires
            resolution >= 1,
        ensures
            FieldView::blank(extent, resolution).well_formed(),
    {
    }

    /// Seeding keeps a field well formed.
    pub proof fn lemma_seeded_well_formed(self)
        requires
            self.well_formed(),
        ensures
            self.seeded().well_formed(),
    {
        let c = self.centre();
        let after = self.seeded();
        assert(0 <= c < self.resolution);
        assert forall|x: int, y: int|
            0 <= x < after.intensity.len() && 0 <= y < after.intensity[x].len() implies 0
            <= #[trigger] after.intensity[x][y] <= SEED_LEVEL by {
            if x == c && y == c {
            } else {
                assert(after.intensity[x][y] == self.intensity[x][y]);
            }
        }
    }

    /// Advancing keeps a field well formed: no intensity leaves the range
    /// from zero to the seed level.
    pub proof fn lemma_advanced_well_formed(self, substeps: nat, strength: int)
        requires
            self.well_formed(),
            strength >= 0,
        ensures
            self.advanced(substeps, strength).well_formed(),
    {
        lemma_relaxed_keeps_range(
            self.intensity,
            self.intensity,
            strength,
            substeps,
            0,
            SEED_LEVEL as int,
        );
    }
}

/// A square grid of cells, each with an intensity and a velocity.
#[derive(Debug)]
pub struct DiffusionField {
    cell_width: u64,
    cell_height: u64,
    intensity: Grid<u64>,
    velocity: Grid<(i64, i64)>,
}

impl View for DiffusionField {
    type V = FieldView;

    closed spec fn view(&self) -> FieldView {
        FieldView {
            resolution: self.intensity@.len(),
            cell_width: self.cell_width as nat,
            cell_height: self.cell_height as nat,
            intensity: levels(self.intensity@),
            velocity: self.velocity@,
        }
    }
}

impl DiffusionField {
    /// Whether the field is stored consistently. Every field that `new`
    /// returns is, and every method keeps it so.
    pub closed spec fn wf(&self) -> bool {
        &&& self.intensity.wf()
        &&& self.velocity.wf()
        &&& self@.well_formed()
    }

    /// A consistently stored field has a well-formed view.
    pub proof fn lemma_view_well_formed(&self)
        requires
            self.wf(),
        ensures
            self@.well_formed(),
    {
    }

    /// Creates the seeded field of the given extent and resolution.
    ///
    /// Fails with `InvalidConfiguration` when the resolution is zero, or so
    /// large that the cells of the grid cannot be counted in a `usize`.
    pub fn new(extent: Extent, resolution: usize) -> (result: Result<DiffusionField, FieldError>)
        ensures
            match result {
                Ok(field) => {
                    &&& 1 <= resolution
                    &&& resolution * resolution <= usize::MAX
                    &&& field.wf()
                    &&& field@ == FieldView::blank(extent, resolution as nat).seeded()
                },
                Err(error) => {
                    &&& resolution == 0 || resolution * resolution > usize::MAX
                    &&& error == FieldError::InvalidConfiguration
                },
            },
    {
        if resolution == 0 {
            return Err(FieldError::InvalidConfiguration);
        }
        let intensity = match Grid::filled(resolution, 0u64) {
            Some(grid) => grid,
            None => {
                return Err(FieldError::InvalidConfiguration);
            },
        };
        let velocity = match Grid::filled(resolution, (0i64, 0i64)) {
            Some(grid) => grid,
            None => {
                return Err(FieldError::InvalidConfiguration);
            },
        };
        let mut field = DiffusionField {
            cell_width: extent.width / (resolution as u64),
            cell_height: extent.height / (resolution as u64),
            intensity,
            velocity,
        };
        proof {
            assert(levels(uniform(resolution as nat, 0u64)) =~~= uniform(resolution as nat, 0int));
            assert(field@ == FieldView::blank(extent, resolution as nat));
            FieldView::lemma_blank_well_formed(extent, resolution as nat);
        }
        field.seed();
        Ok(field)
    }

    /// Sets the centre cell to the seed level and the seed velocity. Every
    /// other cell keeps what it holds, so seeding twice is seeding once.
    pub fn seed(&mut self)
        requires
            old(self).wf(),
        ensures
            final(self).wf(),
            final(self)@ == old(self)@.seeded(),
    {
        let centre: usize = self.intensity.side() / 2;
        proof {
            self.intensity.lemma_view_is_square();
            self@.lemma_seeded_well_formed();
            lemma_levels_with_cell(self.intensity@, centre as int, centre as int, SEED_LEVEL);
        }
        self.intensity.set(centre, centre, SEED_LEVEL);
        self.velocity.set(centre, centre, (SEED_VELOCITY_X, SEED_VELOCITY_Y));
    }

    /// Runs `substeps` relaxation passes of the given diffusion strength and
    /// then replaces the intensities by the result. Velocities, resolution
    /// and cell size stay as they are.
    pub fn advance(&mut self, substeps: u32, diffusion_strength: u64)
        requires
            old(self).wf(),
        ensures
            final(self).wf(),
            final(self)@ == old(self)@.advanced(substeps as nat, diffusion_strength as int),
    {
        proof {
            self@.lemma_advanced_well_formed(substeps as nat, diffusion_strength as int);
            assert(within(levels(self.intensity@), 0, LEVEL_LIMIT as int)) by {
                assert(within(self@.intensity, 0, SEED_LEVEL as int));
            }
        }
        let mut buf = self.intensity.duplicate();
        relax(&self.intensity, &mut buf, diffusion_strength, substeps);
        self.intensity = buf;
    }

    /// Advances the field by one tick: the default number of sub-steps at the
    /// default diffusion strength.
    pub fn tick(&mut self)
        requires
            old(self).wf(),
        ensures
            final(self).wf(),
            final(self)@ == old(self)@.advanced(DEFAULT_SUBSTEPS as nat, DEFAULT_STRENGTH as int),
    {
        self.advance(DEFAULT_SUBSTEPS, DEFAULT_STRENGTH);
    }

    /// The intensity and the velocity of the cell at `(x, y)`, or
    /// `IndexOutOfRange` when the cell is not on the grid.
    pub fn cell(&self, x: usize, y: usize) -> (result: Result<(u64, (i64, i64)), FieldError>)
        requires
            self.wf(),
        ensures
            match result {
                Ok((intensity, velocity)) => {
                    &&& x < self@.resolution
                    &&& y < self@.resolution
                    &&& intensity == self@.intensity[x as int][y as int]
                    &&& velocity == self@.velocity[x as int][y as int]
                },
                Err(error) => {
                    &&& x >= self@.resolution || y >= self@.resolution
                    &&& error == FieldError::IndexOutOfRange
                },
            },
    {
        let n: usize = self.intensity.side();
        if x < n && y < n {
            proof {
                self.intensity.lemma_view_is_square();
            }
            Ok((self.intensity.get(x, y), self.velocity.get(x, y)))
        } else {
            Err(FieldError::IndexOutOfRange)
        }
    }

    /// The number of lines of the grid, and of cells in each line.
    pub fn resolution(&self) -> (resolution: usize)
        ensures
            resolution == self@.resolution,
    {
        self.intensity.side()
    }

    /// The width of one cell: the width of the extent divided by the
    /// resolution.
    pub fn cell_width(&self) -> (width: u64)
        ensures
            width == self@.cell_width,
    {
        self.cell_width
    }

    /// The height of one cell: the height of the extent divided by the
    /// resolution.
    pub fn cell_height(&self) -> (height: u64)
        ensures
            height == self@.cell_height,
    {
        self.cell_height
    }
}

} // verus!
