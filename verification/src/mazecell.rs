use vstd::prelude::*;

verus! {

use crate::color::Color;
use crate::maze::MazeError;

/// One grid position's classification.  `TraversedPath` is a transient
/// marker used during the search and for rendering; it never appears in a
/// freshly decoded grid.
#[derive(Clone, Copy, Debug, PartialEq, Eq, Structural, PartialOrd, Ord)]
pub enum MazeCell {
    Wall,
    Path,
    TraversedPath,
    Start,
    End,
}

/// The palette color a cell renders to: Wall is black, Path white,
/// TraversedPath blue, Start red, End green.
pub open spec fn color_of(cell: MazeCell) -> Color {
    match cell {
        MazeCell::Wall => Color { r: 0, g: 0, b: 0 },
        MazeCell::Path => Color { r: 255, g: 255, b: 255 },
        MazeCell::TraversedPath => Color { r: 0, g: 0, b: 255 },
        MazeCell::Start => Color { r: 255, g: 0, b: 0 },
        MazeCell::End => Color { r: 0, g: 255, b: 0 },
    }
}

/// The cell a palette color decodes to; a color outside the four-entry
/// decode palette yields no cell.  TraversedPath has no decode color.
pub open spec fn classify_spec(p: Color) -> Option<MazeCell> {
    if p == (Color { r: 0, g: 0, b: 0 }) {
        Some(MazeCell::Wall)
    } else if p == (Color { r: 255, g: 255, b: 255 }) {
        Some(MazeCell::Path)
    } else if p == (Color { r: 255, g: 0, b: 0 }) {
        Some(MazeCell::Start)
    } else if p == (Color { r: 0, g: 255, b: 0 }) {
        Some(MazeCell::End)
    } else {
        None
    }
}

impl MazeCell {
    pub fn is_wall(&self) -> (r: bool)
        ensures
            r == (*self is Wall),
    {
        *self == MazeCell::Wall
    }

    pub fn is_path(&self) -> (r: bool)
        ensures
            r == (*self is Path),
    {
        *self == MazeCell::Path
    }

    pub fn is_start(&self) -> (r: bool)
        ensures
            r == (*self is Start),
    {
        *self == MazeCell::Start
    }

    pub fn is_end(&self) -> (r: bool)
        ensures
            r == (*self is End),
    {
        *self == MazeCell::End
    }

    /// The palette color of this cell; total, and inverse to `classify`
    /// on every cell but TraversedPath.
    pub fn encode(self) -> (r: Color)
        ensures
            r == color_of(self),
    {
        match self {
            MazeCell::Wall => Color { r: 0, g: 0, b: 0 },
            MazeCell::Path => Color { r: 255, g: 255, b: 255 },
            MazeCell::TraversedPath => Color { r: 0, g: 0, b: 255 },
            MazeCell::Start => Color { r: 255, g: 0, b: 0 },
            MazeCell::End => Color { r: 0, g: 255, b: 0 },
        }
    }

    /// Decode one pixel; a color outside the palette is rejected.
    pub fn classify(p: Color) -> (r: Result<MazeCell, MazeError>)
        ensures
            r matches Ok(c) ==> classify_spec(p) == Some(c),
            r matches Err(e) ==> classify_spec(p) is None && e == MazeError::InvalidPixelColor,
    {
        if p == (Color { r: 0, g: 0, b: 0 }) {
            Ok(MazeCell::Wall)
        } else if p == (Color { r: 255, g: 255, b: 255 }) {
            Ok(MazeCell::Path)
        } else if p == (Color { r: 255, g: 0, b: 0 }) {
            Ok(MazeCell::Start)
        } else if p == (Color { r: 0, g: 255, b: 0 }) {
            Ok(MazeCell::End)
        } else {
            Err(MazeError::InvalidPixelColor)
        }
    }
}

impl Default for MazeCell {
    /// An unset grid position counts as a wall.
    fn default() -> (r: Self)
        ensures
            r is Wall,
    {
        MazeCell::Wall
    }
}

/// Round trip: every cell except TraversedPath decodes back from its own
/// encoding.
pub proof fn lemma_classify_encode(cell: MazeCell)
    requires
        cell != MazeCell::TraversedPath,
    ensures
        classify_spec(color_of(cell)) == Some(cell),
{
}

} // verus!
