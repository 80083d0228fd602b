use vstd::prelude::*;
use crate::tiles::Tile;

verus! {

/// A rectangular board of tiles.
///
/// The board is kept in an `ndarray::Array2`, addressed `(row, column)`.
/// Verus cannot read that type, so the struct is opaque and its behaviour is
/// given by the trusted wrapper methods below, stated over `grid_seq` (the
/// tiles in row-major order) and `grid_dim` (the shape the board was made
/// with).
#[verifier::external_body]
pub struct TileGrid {
    arr: ndarray::Array2<Tile>,
}

/// The tiles of a board, row by row (row-major order).
pub uninterp spec fn grid_seq(g: TileGrid) -> Seq<Tile>;

/// The (rows, columns) shape a board was made with.
pub uninterp spec fn grid_dim(g: TileGrid) -> (nat, nat);

impl View for TileGrid {
    type V = Seq<Tile>;

    open spec fn view(&self) -> Seq<Tile> {
        grid_seq(*self)
    }
}

impl TileGrid {
    /// The number of rows the board was made with.
    pub open spec fn rows(&self) -> nat {
        grid_dim(*self).0
    }

    /// The number of columns the board was made with.
    pub open spec fn cols(&self) -> nat {
        grid_dim(*self).1
    }

    /// Relies on `ndarray::Array2::from_elem`: a `rows` by `cols` array in
    /// the default row-major layout, every element the given value. The call
    /// panics when `rows * cols` overflows, so that is excluded here.
    #[verifier::external_body]
    pub(crate) fn filled(rows: usize, cols: usize, t: Tile) -> (g: TileGrid)
        requires
            rows * cols <= usize::MAX,
        ensures
            grid_dim(g) == (rows as nat, cols as nat),
            grid_seq(g) == Seq::new((rows * cols) as nat, |i: int| t),
    {
        TileGrid { arr: ndarray::Array2::from_elem((rows, cols), t) }
    }

    /// Relies on ndarray's `Index` impl for `(usize, usize)`: the element at
    /// the given row and column. Out-of-range indices panic, so they are
    /// excluded here.
    #[verifier::external_body]
    pub(crate) fn get(&self, y: usize, x: usize) -> (t: Tile)
        requires
            y < grid_dim(*self).0,
            x < grid_dim(*self).1,
        ensures
            t == grid_seq(*self)[y as int * grid_dim(*self).1 as int + x as int],
    {
        self.arr[(y, x)]
    }

    /// Relies on ndarray's `IndexMut` impl for `(usize, usize)`: replaces the
    /// element at the given row and column and nothing else. Out-of-range
    /// indices panic, so they are excluded here.
    #[verifier::external_body]
    pub(crate) fn set(&mut self, y: usize, x: usize, t: Tile)
        requires
            y < grid_dim(*old(self)).0,
            x < grid_dim(*old(self)).1,
        ensures
            grid_dim(*final(self)) == grid_dim(*old(self)),
            grid_seq(*final(self)) == grid_seq(*old(self)).update(
                y as int * grid_dim(*old(self)).1 as int + x as int,
                t,
            ),
    {
        self.arr[(y, x)] = t;
    }
}

} // verus!
