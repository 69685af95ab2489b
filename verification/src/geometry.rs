//! Integer cell coordinates used throughout the grid layer.

use vstd::prelude::*;

verus! {

/// A signed grid cell coordinate.
#[derive(Clone, Copy, Debug, PartialEq, Eq, Hash, Structural)]
pub struct IVec2 {
    pub x: i32,
    pub y: i32,
}

/// Unsigned grid dimensions.
#[derive(Clone, Copy, Debug, PartialEq, Eq, Hash, Structural)]
pub struct UVec2 {
    pub x: u32,
    pub y: u32,
}

impl IVec2 {
    /// The cell as a pair of mathematical integers.
    pub open spec fn pt(self) -> (int, int) {
        (self.x as int, self.y as int)
    }

    pub fn new(x: i32, y: i32) -> (r: Self)
        ensures
            r.x == x,
            r.y == y,
    {
        IVec2 { x, y }
    }
}

impl UVec2 {
    pub fn new(x: u32, y: u32) -> (r: Self)
        ensures
            r.x == x,
            r.y == y,
    {
        UVec2 { x, y }
    }
}

/// The cell at integer coordinates `p` (meaningful when both fit in `i32`).
pub open spec fn cell_at(p: (int, int)) -> IVec2 {
    IVec2 { x: p.0 as i32, y: p.1 as i32 }
}

pub open spec fn fits_i32(v: int) -> bool {
    i32::MIN <= v <= i32::MAX
}

/// `n`, capped at `usize::MAX`.
pub open spec fn saturate(n: int) -> int {
    if n > usize::MAX {
        usize::MAX as int
    } else {
        n
    }
}

/// Row-major order on cells: by `y` first, then by `x`.
pub open spec fn cell_lt(a: IVec2, b: IVec2) -> bool {
    a.y < b.y || (a.y == b.y && a.x < b.x)
}

/// `s` is strictly increasing in row-major order, hence free of duplicates.
pub open spec fn strictly_sorted(s: Seq<IVec2>) -> bool {
    forall|i: int, j: int| 0 <= i < j < s.len() ==> cell_lt(#[trigger] s[i], #[trigger] s[j])
}

/// The cells with `x0 <= x <= x1` and `y0 <= y <= y1`.
pub open spec fn cell_box(x0: int, x1: int, y0: int, y1: int) -> Set<IVec2> {
    Set::new(|c: IVec2| x0 <= c.x <= x1 && y0 <= c.y <= y1)
}

/// A box of cells is finite.
pub proof fn lemma_cell_box_finite(x0: int, x1: int, y0: int, y1: int)
    ensures
        cell_box(x0, x1, y0, y1).finite(),
    decreases y1 - y0 + 1,
{
    if y1 < y0 {
        assert(cell_box(x0, x1, y0, y1) =~= Set::empty());
    } else {
        lemma_cell_box_finite(x0, x1, y0, y1 - 1);
        assert(cell_box(x0, x1, y0, y1) =~= cell_box(x0, x1, y0, y1 - 1).union(
            cell_row(x0, x1, y1),
        ));
        lemma_cell_row_finite(x0, x1, y1);
    }
}

/// The cells of row `y` with `x0 <= x <= x1`.
pub open spec fn cell_row(x0: int, x1: int, y: int) -> Set<IVec2> {
    Set::new(|c: IVec2| x0 <= c.x <= x1 && c.y == y)
}

proof fn lemma_cell_row_finite(x0: int, x1: int, y: int)
    ensures
        cell_row(x0, x1, y).finite(),
    decreases x1 - x0 + 1,
{
    if x1 < x0 {
        assert(cell_row(x0, x1, y) =~= Set::empty());
    } else {
        lemma_cell_row_finite(x0, x1 - 1, y);
        if fits_i32(x1) && fits_i32(y) {
            let c = IVec2 { x: x1 as i32, y: y as i32 };
            assert(cell_row(x0, x1, y) =~= cell_row(x0, x1 - 1, y).insert(c));
        } else {
            assert(cell_row(x0, x1, y) =~= cell_row(x0, x1 - 1, y));
        }
    }
}

pub proof fn lemma_cell_at_pt(c: IVec2)
    ensures
        cell_at(c.pt()) == c,
{
}

} // verus!
