//! A square grid stored as one flat vector, line after line.

use vstd::prelude::*;

verus! {

/// The grid of the given side that holds `value` in every cell.
pub open spec fn uniform<T>(side: nat, value: T) -> Seq<Seq<T>> {
    Seq::new(side, |x: int| Seq::new(side, |y: int| value))
}

/// Whether `cells` has `side` lines of `side` cells each.
pub open spec fn is_square<T>(cells: Seq<Seq<T>>, side: nat) -> bool {
    &&& cells.len() == side
    &&& forall|x: int| 0 <= x < side ==> (#[trigger] cells[x]).len() == side
}

/// The grid `cells` with the cell at `(x, y)` replaced by `value`.
pub open spec fn with_cell<T>(cells: Seq<Seq<T>>, x: int, y: int, value: T) -> Seq<Seq<T>> {
    cells.update(x, cells[x].update(y, value))
}

/// The position of cell `(x, y)` in the flat vector of a grid of the given side.
pub open spec fn offset(side: int, x: int, y: int) -> int {
    x * side + y
}

/// Offsets of cells on the grid lie inside the flat vector.
pub proof fn lemma_offset_in_bounds(side: int, x: int, y: int)
    requires
        0 <= x < side,
        0 <= y < side,
    ensures
        0 <= x * side <= offset(side, x, y) < side * side,
{
    assert(x * side + side <= side * side) by (nonlinear_arith)
        requires
            0 <= x < side,
    ;
    assert(0 <= x * side) by (nonlinear_arith)
        requires
            0 <= x,
            0 <= side,
    ;
}

/// Two cells of the grid share an offset only if they are the same cell.
pub proof fn lemma_offset_injective(side: int, x1: int, y1: int, x2: int, y2: int)
    requires
        0 <= y1 < side,
        0 <= y2 < side,
        offset(side, x1, y1) == offset(side, x2, y2),
    ensures
        x1 == x2,
        y1 == y2,
{
    assert(x1 == x2) by (nonlinear_arith)
        requires
            0 <= y1 < side,
            0 <= y2 < side,
            x1 * side + y1 == x2 * side + y2,
    ;
}

/// A square grid of `side * side` cells.
#[derive(Debug)]
pub struct Grid<T> {
    side: usize,
    cells: Vec<T>,
}

impl<T> View for Grid<T> {
    type V = Seq<Seq<T>>;

    /// The cells as a sequence of lines: `self@[x][y]` is the cell at `(x, y)`.
    closed spec fn view(&self) -> Seq<Seq<T>> {
        Seq::new(
            self.side as nat,
            |x: int| Seq::new(self.side as nat, |y: int| self.cells@[offset(self.side as int, x, y)]),
        )
    }
}

impl<T: Copy> Grid<T> {
    /// Whether the flat vector holds exactly the cells of the grid. Every
    /// grid made by this module is well formed, and its methods keep it so.
    pub closed spec fn wf(&self) -> bool {
        self.cells@.len() == self.side * self.side
    }

    /// The view of a grid is square.
    pub proof fn lemma_view_is_square(&self)
        ensures
            is_square(self@, self@.len()),
    {
    }

    /// A grid of the given side with `value` in every cell, or `None` when
    /// `side * side` cells cannot be addressed.
    pub fn filled(side: usize, value: T) -> (grid: Option<Grid<T>>)
        ensures
            match grid {
                Some(made) => {
                    &&& side * side <= usize::MAX
                    &&& made.wf()
                    &&& made@ == uniform(side as nat, value)
                },
                None => side * side > usize::MAX,
            },
    {
        match side.checked_mul(side) {
            None => None,
            Some(count) => {
                let mut cells: Vec<T> = Vec::with_capacity(count);
                let mut filled: usize = 0;
                while filled < count
                    invariant
                        filled <= count,
                        cells@.len() == filled,
                        forall|i: int| 0 <= i < filled ==> cells@[i] == value,
                    decreases count - filled,
                {
                    cells.push(value);
                    filled = filled + 1;
                }
                let grid = Grid { side, cells };
                proof {
                    assert forall|x: int, y: int| 0 <= x < side && 0 <= y < side implies grid@[x][y]
                        == value by {
                        lemma_offset_in_bounds(side as int, x, y);
                    }
                    assert(grid@ =~~= uniform(side as nat, value));
                }
                Some(grid)
            },
        }
    }

    /// The number of lines, which is also the number of cells in each line.
    pub fn side(&self) -> (side: usize)
        ensures
            side == self@.len(),
    {
        self.side
    }

    /// The cell at `(x, y)`, which lies on the grid.
    pub fn get(&self, x: usize, y: usize) -> (value: T)
        requires
            self.wf(),
            x < self@.len(),
            y < self@.len(),
        ensures
            value == self@[x as int][y as int],
    {
        proof {
            lemma_offset_in_bounds(self.side as int, x as int, y as int);
            assert(self.cells@.len() == self.cells.len());
        }
        self.cells[x * self.side + y]
    }

    /// Replaces the cell at `(x, y)`, which lies on the grid, by `value` and
    /// leaves every other cell as it is.
    pub fn set(&mut self, x: usize, y: usize, value: T)
        requires
            old(self).wf(),
            x < old(self)@.len(),
            y < old(self)@.len(),
        ensures
            final(self).wf(),
            final(self)@ == with_cell(old(self)@, x as int, y as int, value),
    {
        proof {
            lemma_offset_in_bounds(self.side as int, x as int, y as int);
            assert(self.cells@.len() == self.cells.len());
        }
        let ghost before = *self;
        self.cells.set(x * self.side + y, value);
        proof {
            let side = self.side as int;
            assert forall|x2: int, y2: int| 0 <= x2 < side && 0 <= y2 < side implies self@[x2][y2]
                == with_cell(before@, x as int, y as int, value)[x2][y2] by {
                lemma_offset_in_bounds(side, x2, y2);
                if offset(side, x2, y2) == offset(side, x as int, y as int) {
                    lemma_offset_injective(side, x2, y2, x as int, y as int);
                }
            }
            assert(self@ =~~= with_cell(before@, x as int, y as int, value));
        }
    }

    /// A second grid with the same cells.
    pub fn duplicate(&self) -> (copy: Grid<T>)
        requires
            self.wf(),
        ensures
            copy.wf(),
            copy@ == self@,
    {
        let count: usize = self.cells.len();
        let mut cells: Vec<T> = Vec::with_capacity(count);
        let mut copied: usize = 0;
        while copied < count
            invariant
                count == self.cells@.len(),
                copied <= count,
                cells@.len() == copied,
                forall|i: int| 0 <= i < copied ==> cells@[i] == self.cells@[i],
            decreases count - copied,
        {
            cells.push(self.cells[copied]);
            copied = copied + 1;
        }
        assert(cells@ =~= self.cells@);
        Grid { side: self.side, cells }
    }
}

} // verus!
