use vstd::prelude::*;

verus! {

/// Stone colour.
#[derive(Clone, Copy, Debug, PartialEq, Eq, Structural)]
pub enum Color {
    Black,
    White,
}

impl Color {
    pub open spec fn opposite(self) -> Color {
        match self {
            Color::Black => Color::White,
            Color::White => Color::Black,
        }
    }

    /// The other colour.
    pub fn other(self) -> (r: Color)
        ensures
            r == self.opposite(),
    {
        match self {
            Color::Black => Color::White,
            Color::White => Color::Black,
        }
    }
}

/// One stone placement: `x` is the column, `y` the row (both zero-based), and
/// `sequence_index` the zero-based position of the placement in the record.
#[derive(Clone, Copy, Debug, PartialEq, Eq, Structural)]
pub struct Move {
    pub color: Color,
    pub x: usize,
    pub y: usize,
    pub sequence_index: usize,
}

/// Board dimensions in intersections.
#[derive(Clone, Copy, Debug, PartialEq, Eq, Structural)]
pub struct BoardSize {
    pub width: usize,
    pub height: usize,
}

/// Smallest supported board side.
pub const MIN_SIDE: usize = 2;

/// Largest supported board side.
pub const MAX_SIDE: usize = 25;

/// Board side used when a record declares no usable size.
pub const DEFAULT_SIDE: usize = 19;

impl BoardSize {
    /// Both sides lie in the supported range.
    pub open spec fn valid(self) -> bool {
        MIN_SIDE <= self.width <= MAX_SIDE && MIN_SIDE <= self.height <= MAX_SIDE
    }

    pub open spec fn default_size() -> BoardSize {
        BoardSize { width: DEFAULT_SIDE, height: DEFAULT_SIDE }
    }

    /// Number of intersections.
    pub open spec fn cells(self) -> int {
        self.width * self.height
    }

    /// The standard 19 by 19 board.
    pub fn standard() -> (r: BoardSize)
        ensures
            r == BoardSize::default_size(),
            r.valid(),
    {
        BoardSize { width: DEFAULT_SIDE, height: DEFAULT_SIDE }
    }
}

} // verus!
