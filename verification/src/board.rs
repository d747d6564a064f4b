use vstd::prelude::*;

use crate::piece::Piece;

verus! {

/// The board: a fixed rectangular grid of cells, stored row-major.
pub struct Universe {
    pub width: u32,
    pub height: u32,
    pub pieces: Vec<Piece>,
}

/// Bounds that every board satisfies from construction on: positive
/// dimensions, each dimension small enough for signed coordinate
/// arithmetic, the cell count small enough for flat `u32` indexing, and a
/// cell sequence of exactly `width * height` entries.
pub open spec fn grid_dims_ok(width: int, height: int) -> bool {
    &&& 1 <= width <= 0x7fff_ffff
    &&& 1 <= height <= 0x7fff_ffff
    &&& width * height <= 0xffff_ffff
}

impl Universe {
    pub open spec fn well_formed(&self) -> bool {
        &&& grid_dims_ok(self.width as int, self.height as int)
        &&& self.pieces@.len() == (self.width as int) * (self.height as int)
    }

    pub open spec fn spec_in_bounds(&self, row: int, col: int) -> bool {
        0 <= row < self.height && 0 <= col < self.width
    }

    /// The row-major flat offset of a coordinate. Kept opaque so that
    /// proofs handle offsets through `lemma_flat_range` and
    /// `lemma_flat_coords_injective` instead of raw products.
    #[verifier::opaque]
    pub open spec fn flat(&self, row: int, col: int) -> int {
        row * self.width + col
    }

    /// The cell at an in-bounds coordinate.
    pub open spec fn cell(&self, row: int, col: int) -> Piece {
        self.pieces@[self.flat(row, col)]
    }
}

/// A row-major offset of an in-bounds coordinate lies inside the grid.
pub proof fn lemma_flat_bounds(w: int, h: int, r: int, c: int)
    by (nonlinear_arith)
    requires
        0 <= r < h,
        0 <= c < w,
    ensures
        0 <= r * w + c < h * w,
{
}

/// Distinct in-bounds coordinates have distinct row-major offsets.
pub proof fn lemma_flat_injective(w: int, h: int, r1: int, c1: int, r2: int, c2: int)
    by (nonlinear_arith)
    requires
        0 <= r1 < h,
        0 <= c1 < w,
        0 <= r2 < h,
        0 <= c2 < w,
        r1 * w + c1 == r2 * w + c2,
    ensures
        r1 == r2 && c1 == c2,
{
}

/// The flat offset of an in-bounds coordinate lies inside the grid.
pub proof fn lemma_flat_range(b: Universe, r: int, c: int)
    requires
        b.well_formed(),
        b.spec_in_bounds(r, c),
    ensures
        0 <= b.flat(r, c) < b.pieces@.len(),
{
    reveal(Universe::flat);
    lemma_flat_bounds(b.width as int, b.height as int, r, c);
}

/// Distinct in-bounds coordinates have distinct flat offsets.
pub proof fn lemma_flat_coords_injective(b: Universe, r1: int, c1: int, r2: int, c2: int)
    requires
        b.well_formed(),
        b.spec_in_bounds(r1, c1),
        b.spec_in_bounds(r2, c2),
        b.flat(r1, c1) == b.flat(r2, c2),
    ensures
        r1 == r2 && c1 == c2,
{
    reveal(Universe::flat);
    lemma_flat_injective(b.width as int, b.height as int, r1, c1, r2, c2);
}

impl Universe {
    /// Whether a signed coordinate lies on the board.
    pub fn in_bounds(&self, row: i32, col: i32) -> (r: bool)
        requires
            self.well_formed(),
        ensures
            r == self.spec_in_bounds(row as int, col as int),
    {
        row >= 0 && row < self.height as i32 && col >= 0 && col < self.width as i32
    }

    /// The flat offset of an in-bounds coordinate; callers must check
    /// bounds first.
    pub fn get_index(&self, row: u32, column: u32) -> (r: usize)
        requires
            self.well_formed(),
            self.spec_in_bounds(row as int, column as int),
        ensures
            r == self.flat(row as int, column as int),
            r < self.pieces@.len(),
    {
        proof {
            reveal(Universe::flat);
            lemma_flat_bounds(self.width as int, self.height as int, row as int, column as int);
        }
        (row * self.width + column) as usize
    }

    /// Whether a coordinate is an in-bounds `Empty` cell: one more sliding
    /// step of a simple move may land there.
    pub fn valid_step(&self, to_row: i32, to_column: i32) -> (r: bool)
        requires
            self.well_formed(),
        ensures
            r == (self.spec_in_bounds(to_row as int, to_column as int)
                && self.cell(to_row as int, to_column as int) == Piece::Empty),
    {
        if !self.in_bounds(to_row, to_column) {
            return false;
        }
        let ix = self.get_index(to_row as u32, to_column as u32);
        self.pieces[ix] == Piece::Empty
    }

    pub fn width(&self) -> (r: u32)
        ensures
            r == self.width,
    {
        self.width
    }

    pub fn height(&self) -> (r: u32)
        ensures
            r == self.height,
    {
        self.height
    }

    /// A read-only view of the flat cell sequence, for a renderer.
    pub fn cells(&self) -> (r: &Vec<Piece>)
        ensures
            r@ == self.pieces@,
    {
        &self.pieces
    }

    /// A board over a caller-chosen layout; rejected unless the dimensions
    /// are positive, small enough for coordinate arithmetic, and matched by
    /// the length of the cell sequence.
    pub fn from_layout(width: u32, height: u32, pieces: Vec<Piece>) -> (r: Option<Universe>)
        ensures
            (grid_dims_ok(width as int, height as int) && pieces@.len() == (width as int) * (
            height as int)) <==> r is Some,
            r matches Some(u) ==> u.well_formed() && u.width == width && u.height == height
                && u.pieces@ == pieces@,
    {
        if width == 0 || height == 0 {
            return None;
        }
        if width > 0x7fff_ffff || height > 0x7fff_ffff {
            return None;
        }
        proof {
            assert((width as int) * (height as int) <= 0xffff_ffff * 0xffff_ffff)
                by (nonlinear_arith)
                requires
                    width <= 0xffff_ffffu32,
                    height <= 0xffff_ffffu32,
            ;
        }
        let cell_count = (width as u64) * (height as u64);
        if cell_count > 0xffff_ffff {
            return None;
        }
        if (pieces.len() as u64) != cell_count {
            return None;
        }
        Some(Universe { width, height, pieces })
    }

    /// The fixed reference scenario: a 10 by 4 board with an abyss border
    /// and the two sides facing each other.
    pub fn new() -> (r: Universe)
        ensures
            r.well_formed(),
            r.width == 10,
            r.height == 4,
            r.pieces@ == initial_layout(),
    {
        let width: u32 = 10;
        let height: u32 = 4;
        let pieces = vec![
            Piece::Abyss, Piece::Abyss, Piece::Abyss, Piece::Empty, Piece::BlackPusher,
            Piece::WhiteMover, Piece::Empty, Piece::Empty, Piece::Abyss, Piece::Abyss,
            Piece::Abyss, Piece::Empty, Piece::Empty, Piece::Empty, Piece::BlackMover,
            Piece::WhitePusher, Piece::Empty, Piece::Empty, Piece::Empty, Piece::Abyss,
            Piece::Abyss, Piece::Empty, Piece::BlackPusher, Piece::Empty, Piece::BlackMover,
            Piece::WhitePusher, Piece::Empty, Piece::WhitePusher, Piece::Empty, Piece::Abyss,
            Piece::Abyss, Piece::Abyss, Piece::Empty, Piece::Empty, Piece::BlackPusher,
            Piece::WhiteMover, Piece::Empty, Piece::Abyss, Piece::Abyss, Piece::Abyss,
        ];
        proof {
            assert(pieces@ =~= initial_layout());
        }
        Universe { width, height, pieces }
    }
}

/// The cell sequence of the reference scenario, row-major.
pub open spec fn initial_layout() -> Seq<Piece> {
    seq![
        Piece::Abyss, Piece::Abyss, Piece::Abyss, Piece::Empty, Piece::BlackPusher,
        Piece::WhiteMover, Piece::Empty, Piece::Empty, Piece::Abyss, Piece::Abyss,
        Piece::Abyss, Piece::Empty, Piece::Empty, Piece::Empty, Piece::BlackMover,
        Piece::WhitePusher, Piece::Empty, Piece::Empty, Piece::Empty, Piece::Abyss,
        Piece::Abyss, Piece::Empty, Piece::BlackPusher, Piece::Empty, Piece::BlackMover,
        Piece::WhitePusher, Piece::Empty, Piece::WhitePusher, Piece::Empty, Piece::Abyss,
        Piece::Abyss, Piece::Abyss, Piece::Empty, Piece::Empty, Piece::BlackPusher,
        Piece::WhiteMover, Piece::Empty, Piece::Abyss, Piece::Abyss, Piece::Abyss,
    ]
}

} // verus!
