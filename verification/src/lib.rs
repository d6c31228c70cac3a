//! A scalar diffusion field on a square grid with mirrored edges.
//!
//! A [`DiffusionField`] holds one intensity and one velocity per cell. It is
//! seeded with a single hot cell at its centre and then advanced tick by
//! tick: every tick runs a number of relaxation passes in which each cell is
//! pulled towards the average of its four neighbours.
//!
//! Every quantity is a fixed-point number with 32 fractional bits, held in a
//! 64-bit integer: [`fixed::ONE`] stands for 1.0. Results are exact integers,
//! so that two fields made alike hold the same levels on every machine.
//!
//! - [`boundary`]: which index is read as the neighbour of a coordinate.
//! - [`relaxation`]: the formula for the new level of one cell.
//! - [`grid`]: the square grid that stores the cells.
//! - [`sweep`]: one relaxation pass over a grid, and runs of several passes.
//! - [`field`]: the field itself.
//! - [`theorems`]: what holds of passes and fields in general.

pub mod boundary;
pub mod error;
pub mod field;
pub mod fixed;
pub mod grid;
pub mod relaxation;
pub mod sweep;
pub mod theorems;

pub use boundary::{neighbor_index, Side};
pub use error::FieldError;
pub use field::{DiffusionField, Extent, FieldView};
