//! The edge policy of the grid: which index is read as the neighbour of a
//! coordinate, in particular where the adjacent index would fall off the axis.

use vstd::prelude::*;
use crate::error::FieldError;

verus! {

/// The two directions in which a neighbour is looked up along one axis.
#[derive(Clone, Copy, Debug, PartialEq, Eq, Structural)]
pub enum Side {
    /// Towards index zero.
    Lower,
    /// Towards the last index.
    Upper,
}

/// The index read as the neighbour of `coord` on the given side of an axis
/// with `len` cells.
///
/// Inside the axis this is the adjacent index. At an edge the lookup is
/// mirrored: the cell next to the edge cell on the inner side is read, not
/// the cell at the opposite edge. On an axis of one cell the cell is its own
/// neighbour.
pub open spec fn mirrored(coord: int, len: int, side: Side) -> int {
    match side {
        Side::Upper => if coord + 1 < len {
            coord + 1
        } else if coord >= 1 {
            coord - 1
        } else {
            coord
        },
        Side::Lower => if coord >= 1 {
            coord - 1
        } else if coord + 1 < len {
            coord + 1
        } else {
            coord
        },
    }
}

/// Computes [`mirrored`] for a coordinate that is known to lie on the axis.
pub fn mirror(coord: usize, len: usize, side: Side) -> (index: usize)
    requires
        coord < len,
    ensures
        index == mirrored(coord as int, len as int, side),
        index < len,
{
    match side {
        Side::Upper => {
            if coord + 1 < len {
                coord + 1
            } else if coord >= 1 {
                coord - 1
            } else {
                coord
            }
        },
        Side::Lower => {
            if coord >= 1 {
                coord - 1
            } else if coord + 1 < len {
                coord + 1
            } else {
                coord
            }
        },
    }
}

/// The neighbour of `coord` on the given side of an axis with `axis_length`
/// cells, or `IndexOutOfRange` when `coord` does not lie on that axis.
pub fn neighbor_index(coord: usize, axis_length: usize, side: Side) -> (result: Result<
    usize,
    FieldError,
>)
    ensures
        coord < axis_length ==> result == Ok::<usize, FieldError>(
            mirrored(coord as int, axis_length as int, side) as usize,
        ),
        coord >= axis_length ==> result == Err::<usize, FieldError>(FieldError::IndexOutOfRange),
{
    if coord < axis_length {
        Ok(mirror(coord, axis_length, side))
    } else {
        Err(FieldError::IndexOutOfRange)
    }
}

/// A mirrored neighbour always lies on the axis.
pub proof fn lemma_mirrored_on_axis(coord: int, len: int, side: Side)
    requires
        0 <= coord < len,
    ensures
        0 <= mirrored(coord, len, side) < len,
{
}

/// Away from the edges the neighbour is the adjacent index.
pub proof fn lemma_interior_is_adjacent(coord: int, len: int)
    requires
        1 <= coord,
        coord + 1 < len,
    ensures
        mirrored(coord, len, Side::Upper) == coord + 1,
        mirrored(coord, len, Side::Lower) == coord - 1,
{
}

/// On an axis of at least two cells the last index reads the one before it as
/// its upper neighbour, and index zero reads index one as its lower
/// neighbour. With three cells or more neither of them is the opposite edge:
/// the axis is mirrored, not wrapped around.
pub proof fn lemma_edges_reflect(len: int)
    requires
        len >= 2,
    ensures
        mirrored(len - 1, len, Side::Upper) == len - 2,
        mirrored(0, len, Side::Lower) == 1,
        len >= 3 ==> mirrored(len - 1, len, Side::Upper) != 0,
        len >= 3 ==> mirrored(0, len, Side::Lower) != len - 1,
{
}

/// A single cell is its own neighbour on both sides.
pub proof fn lemma_single_cell_is_own_neighbor(side: Side)
    ensures
        mirrored(0, 1, side) == 0,
{
}

} // verus!
