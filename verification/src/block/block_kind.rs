//! The tags a cell of the board or of a shape can carry.

use super::BlockColor;
use vstd::prelude::*;

verus! {

/// An empty cell.
pub const NONE: BlockColor = 0;

/// A cell of a wall or of the floor.
pub const WALL: BlockColor = 1;

/// A cell of the shadow that the active piece casts where it would land.
pub const GHOST: BlockColor = 2;

/// A cell of an I piece.
pub const I: BlockColor = 3;

/// A cell of an O piece.
pub const O: BlockColor = 4;

/// A cell of an S piece.
pub const S: BlockColor = 5;

/// A cell of a Z piece.
pub const Z: BlockColor = 6;

/// A cell of a J piece.
pub const J: BlockColor = 7;

/// A cell of an L piece.
pub const L: BlockColor = 8;

/// A cell of a T piece.
pub const T: BlockColor = 9;

} // verus!
