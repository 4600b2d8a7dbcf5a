//! The raster: a square grid of intensity bytes, and the drivers that fill
//! it, pixel by pixel, from a function of the pixel's coordinates.
//!
//! One convention holds throughout: a pixel is addressed as `(x, y)`, column
//! first; a grid is kept row by row, so that the byte of `(x, y)` is
//! `grid@[y][x]`.
use vstd::prelude::*;

verus! {

/// Whether `grid` has as many columns in each row as it has rows.
pub open spec fn is_square(grid: Seq<Seq<u8>>) -> bool {
    forall|y: int| 0 <= y < grid.len() ==> (#[trigger] grid[y]).len() == grid.len()
}

/// The bytes that `rows` hold, row by row.
pub open spec fn bytes_of(rows: Seq<Vec<u8>>) -> Seq<Seq<u8>> {
    Seq::new(rows.len(), |y: int| rows[y]@)
}

/// Whether `row` holds, for each column `x` of a raster of side `side`, a byte
/// that `pixel` gives for the pixel `(x, y)`.
pub open spec fn row_rendered<F: Fn(u32, u32) -> u8>(
    pixel: &F,
    side: u32,
    y: u32,
    row: Seq<u8>,
) -> bool {
    &&& row.len() == side
    &&& forall|x: int| 0 <= x < side ==> call_ensures(*pixel, (x as u32, y), #[trigger] row[x])
}

/// Whether `grid` holds, for each row `y` of a raster of side `side`, a
/// rendering of that row.
pub open spec fn grid_rendered<F: Fn(u32, u32) -> u8>(
    pixel: &F,
    side: u32,
    grid: Seq<Seq<u8>>,
) -> bool {
    &&& grid.len() == side
    &&& forall|y: int| 0 <= y < side ==> row_rendered(pixel, side, y as u32, #[trigger] grid[y])
}

/// Whether `pixel` gives each pixel of a raster of side `side` one byte only.
pub open spec fn single_valued<F: Fn(u32, u32) -> u8>(pixel: &F, side: u32) -> bool {
    forall|x: u32, y: u32, a: u8, b: u8|
        x < side && y < side && #[trigger] call_ensures(*pixel, (x, y), a)
            && #[trigger] call_ensures(*pixel, (x, y), b) ==> a == b
}

/// A square grid of intensity bytes.
#[derive(Debug, PartialEq, Eq)]
pub struct PixelGrid {
    rows: Vec<Vec<u8>>,
}

impl View for PixelGrid {
    type V = Seq<Seq<u8>>;

    /// The rows of the grid, top row first, each from its left end on.
    closed spec fn view(&self) -> Seq<Seq<u8>> {
        bytes_of(self.rows@)
    }
}

impl PixelGrid {
    #[verifier::type_invariant]
    spec fn well_formed(self) -> bool {
        &&& self.rows@.len() <= u32::MAX
        &&& is_square(bytes_of(self.rows@))
    }

    /// Makes a grid of rows that were rendered apart. Succeeds exactly where
    /// they form a square, and keeps each row in its place.
    pub fn from_rows(rows: Vec<Vec<u8>>) -> (made: Option<PixelGrid>)
        ensures
            made.is_some() <==> rows@.len() <= u32::MAX && is_square(bytes_of(rows@)),
            made matches Some(grid) ==> grid@ == bytes_of(rows@),
    {
        let n: usize = rows.len();
        if n > u32::MAX as usize {
            return None;
        }
        let mut y: usize = 0;
        while y < n
            invariant
                n == rows@.len(),
                y <= n,
                forall|i: int| 0 <= i < y ==> (#[trigger] bytes_of(rows@)[i]).len() == n,
            decreases n - y,
        {
            if rows[y].len() != n {
                assert(bytes_of(rows@)[y as int].len() != n);
                return None;
            }
            y += 1;
        }
        Some(PixelGrid { rows })
    }

    /// The number of rows, which is the number of columns.
    pub fn side(&self) -> (side: u32)
        ensures
            side == self@.len(),
            is_square(self@),
    {
        proof {
            use_type_invariant(self);
        }
        self.rows.len() as u32
    }

    /// The byte of the pixel `(x, y)`.
    pub fn get(&self, x: u32, y: u32) -> (byte: u8)
        requires
            x < self@.len(),
            y < self@.len(),
        ensures
            byte == self@[y as int][x as int],
    {
        proof {
            use_type_invariant(self);
            assert(bytes_of(self.rows@)[y as int].len() == self.rows@.len());
        }
        self.rows[y as usize][x as usize]
    }

    /// The bytes of row `y`, from its left end on.
    pub fn row(&self, y: u32) -> (row: &Vec<u8>)
        requires
            y < self@.len(),
        ensures
            row@ == self@[y as int],
    {
        &self.rows[y as usize]
    }

    /// Gives the rows back, top row first.
    pub fn into_rows(self) -> (rows: Vec<Vec<u8>>)
        ensures
            bytes_of(rows@) == self@,
    {
        self.rows
    }
}

/// Renders one row of a raster of side `side`: the bytes of the pixels
/// `(0, y)` to `(side - 1, y)`, in that order.
pub fn render_row<F: Fn(u32, u32) -> u8>(side: u32, y: u32, pixel: &F) -> (row: Vec<u8>)
    requires
        forall|x: u32| x < side ==> call_requires(*pixel, (x, y)),
    ensures
        row_rendered(pixel, side, y, row@),
{
    let mut row: Vec<u8> = Vec::new();
    let mut x: u32 = 0;
    while x < side
        invariant
            x <= side,
            row@.len() == x,
            forall|x: u32| x < side ==> call_requires(*pixel, (x, y)),
            forall|i: int| 0 <= i < x ==> call_ensures(*pixel, (i as u32, y), #[trigger] row@[i]),
        decreases side - x,
    {
        let byte: u8 = pixel(x, y);
        row.push(byte);
        x += 1;
    }
    row
}

/// Renders a raster of side `side`, row after row: the byte of each pixel
/// `(x, y)` is what `pixel` gives for it, and stands at `(x, y)` in the grid.
pub fn render<F: Fn(u32, u32) -> u8>(side: u32, pixel: &F) -> (grid: PixelGrid)
    requires
        forall|x: u32, y: u32| x < side && y < side ==> call_requires(*pixel, (x, y)),
    ensures
        grid_rendered(pixel, side, grid@),
{
    let mut rows: Vec<Vec<u8>> = Vec::new();
    let mut y: u32 = 0;
    while y < side
        invariant
            y <= side,
            rows@.len() == y,
            forall|x: u32, y: u32| x < side && y < side ==> call_requires(*pixel, (x, y)),
            forall|i: int|
                0 <= i < y ==> row_rendered(pixel, side, i as u32, (#[trigger] rows@[i])@),
        decreases side - y,
    {
        let row: Vec<u8> = render_row(side, y, pixel);
        rows.push(row);
        y += 1;
    }
    proof {
        let grid = bytes_of(rows@);
        assert forall|i: int| 0 <= i < side implies row_rendered(
            pixel,
            side,
            i as u32,
            #[trigger] grid[i],
        ) by {
            assert(grid[i] == rows@[i]@);
        }
        assert(is_square(grid)) by {
            assert forall|i: int| 0 <= i < grid.len() implies (#[trigger] grid[i]).len()
                == grid.len() by {
                assert(row_rendered(pixel, side, i as u32, rows@[i]@));
            }
        }
    }
    PixelGrid { rows }
}

/// Rendering is repeatable: where the pixel function gives each pixel one
/// byte only, any two renderings of a raster are the same grid, in whatever
/// order and by however many workers their rows were made.
pub proof fn lemma_render_repeatable<F: Fn(u32, u32) -> u8>(
    pixel: &F,
    side: u32,
    one: Seq<Seq<u8>>,
    other: Seq<Seq<u8>>,
)
    requires
        single_valued(pixel, side),
        grid_rendered(pixel, side, one),
        grid_rendered(pixel, side, other),
    ensures
        one == other,
{
    assert forall|y: int| 0 <= y < side implies one[y] == other[y] by {
        lemma_row_independent(pixel, side, y as u32, one[y], other);
    }
    assert(one =~= other);
}

/// Rows are independent: where the pixel function gives each pixel one byte
/// only, row `y` rendered apart holds the bytes of row `y` of the whole grid.
pub proof fn lemma_row_independent<F: Fn(u32, u32) -> u8>(
    pixel: &F,
    side: u32,
    y: u32,
    row: Seq<u8>,
    grid: Seq<Seq<u8>>,
)
    requires
        y < side,
        single_valued(pixel, side),
        row_rendered(pixel, side, y, row),
        grid_rendered(pixel, side, grid),
    ensures
        row == grid[y as int],
{
    let of_grid = grid[y as int];
    assert(row_rendered(pixel, side, y, of_grid));
    assert forall|x: int| 0 <= x < side implies row[x] == of_grid[x] by {
        assert(call_ensures(*pixel, (x as u32, y), row[x]));
        assert(call_ensures(*pixel, (x as u32, y), of_grid[x]));
    }
    assert(row =~= of_grid);
}

/// Rows rendered apart make the grid: put together in the order of their
/// numbers, they are a rendering of the whole raster.
pub proof fn lemma_rows_assemble<F: Fn(u32, u32) -> u8>(pixel: &F, side: u32, rows: Seq<Vec<u8>>)
    requires
        rows.len() == side,
        forall|y: int| 0 <= y < side ==> row_rendered(pixel, side, y as u32, (#[trigger] rows[y])@),
    ensures
        is_square(bytes_of(rows)),
        grid_rendered(pixel, side, bytes_of(rows)),
{
    let grid = bytes_of(rows);
    assert forall|y: int| 0 <= y < side implies row_rendered(
        pixel,
        side,
        y as u32,
        #[trigger] grid[y],
    ) by {
        assert(grid[y] == rows[y]@);
    }
    assert forall|y: int| 0 <= y < grid.len() implies (#[trigger] grid[y]).len() == grid.len() by {
        assert(row_rendered(pixel, side, y as u32, rows[y]@));
    }
}

} // verus!
