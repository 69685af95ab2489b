//! The square-grid model: map dimensions, cell indexing, the opacity map and
//! the per-viewer grid configuration.

use vstd::prelude::*;

use crate::algorithms::opacity::OpacitySource;
use crate::geometry::{IVec2, UVec2};

verus! {

/// Which algorithm computes a grid field of view.
#[derive(Clone, Copy, Debug, PartialEq, Eq, Hash, Structural)]
pub enum GridFovBackend {
    RecursiveShadowcasting,
    RaycastLos,
}

/// How diagonal moves through a corner are treated by line of sight.
#[derive(Clone, Copy, Debug, PartialEq, Eq, Hash, Structural)]
pub enum GridCornerPolicy {
    IgnoreAdjacentWalls,
    BlockIfBothAdjacentWalls,
    BlockIfEitherAdjacentWall,
}

/// Per-viewer grid settings.
#[derive(Clone, Copy, Debug, PartialEq, Eq, Structural)]
pub struct GridFovConfig {
    pub radius: i32,
    pub backend: GridFovBackend,
    pub corner_policy: GridCornerPolicy,
    pub reveal_blockers: bool,
}

impl GridFovConfig {
    pub open spec fn default_backend() -> GridFovBackend {
        GridFovBackend::RecursiveShadowcasting
    }

    pub open spec fn default_corner_policy() -> GridCornerPolicy {
        GridCornerPolicy::BlockIfBothAdjacentWalls
    }
}

impl Default for GridFovConfig {
    fn default() -> (r: Self)
        ensures
            r.radius == 8,
            r.backend == GridFovConfig::default_backend(),
            r.corner_policy == GridFovConfig::default_corner_policy(),
            r.reveal_blockers,
    {
        GridFovConfig {
            radius: 8,
            backend: GridFovBackend::RecursiveShadowcasting,
            corner_policy: GridCornerPolicy::BlockIfBothAdjacentWalls,
            reveal_blockers: true,
        }
    }
}

/// The cells a viewer sees, in row-major order, and how many cells the
/// backend examined to find them.
#[derive(Clone, Debug, PartialEq, Eq)]
pub struct GridFovResult {
    pub visible_cells: Vec<IVec2>,
    pub cells_considered: usize,
}

impl GridFovResult {
    pub fn empty() -> (r: Self)
        ensures
            r.visible_cells@.len() == 0,
            r.cells_considered == 0,
    {
        GridFovResult { visible_cells: Vec::new(), cells_considered: 0 }
    }
}

/// The extent of a square grid, in cells.
#[derive(Clone, Copy, Debug, PartialEq, Eq, Structural)]
pub struct GridMapSpec {
    pub dimensions: UVec2,
}

impl Default for GridMapSpec {
    fn default() -> (r: Self)
        ensures
            r.dimensions.x == 32,
            r.dimensions.y == 24,
    {
        GridMapSpec { dimensions: UVec2::new(32, 24) }
    }
}

impl GridMapSpec {
    pub open spec fn width(self) -> int {
        self.dimensions.x as int
    }

    pub open spec fn height(self) -> int {
        self.dimensions.y as int
    }

    /// The point lies on the grid.
    pub open spec fn contains(self, p: (int, int)) -> bool {
        0 <= p.0 < self.width() && 0 <= p.1 < self.height()
    }

    /// Row-major index of a point.
    pub open spec fn index_of(self, p: (int, int)) -> int {
        p.1 * self.width() + p.0
    }

    /// Number of cells; the product must fit in `u32`.
    pub fn cell_count(&self) -> (r: usize)
        requires
            self.width() * self.height() <= u32::MAX,
        ensures
            r == self.width() * self.height(),
    {
        (self.dimensions.x * self.dimensions.y) as usize
    }

    pub fn in_bounds(&self, cell: IVec2) -> (r: bool)
        ensures
            r == self.contains(cell.pt()),
    {
        cell.x >= 0 && cell.y >= 0 && (cell.x as u32) < self.dimensions.x && (cell.y as u32)
            < self.dimensions.y
    }

    /// Row-major index of an in-bounds cell, computed in 64 bits.
    fn index_u64(&self, cell: IVec2) -> (r: Option<u64>)
        ensures
            r is Some <==> self.contains(cell.pt()),
            r matches Some(i) ==> i == self.index_of(cell.pt()),
    {
        if self.in_bounds(cell) {
            let y = cell.y as u64;
            let w = self.dimensions.x as u64;
            assert(y * w <= 0xffff_fffe_0000_0001) by (nonlinear_arith)
                requires
                    y < 0x1_0000_0000,
                    w < 0x1_0000_0000,
            ;
            Some(y * w + cell.x as u64)
        } else {
            None
        }
    }

    /// Row-major index of an in-bounds cell, `None` outside the grid.  The
    /// index must fit in `usize`.
    pub fn index(&self, cell: IVec2) -> (r: Option<usize>)
        requires
            self.contains(cell.pt()) ==> self.index_of(cell.pt()) <= usize::MAX,
        ensures
            r is Some <==> self.contains(cell.pt()),
            r matches Some(i) ==> i == self.index_of(cell.pt()),
    {
        match self.index_u64(cell) {
            Some(i) => Some(i as usize),
            None => None,
        }
    }

    /// The cell with row-major index `index`.
    pub fn cell_from_index(&self, index: usize) -> (r: IVec2)
        requires
            self.dimensions.x > 0,
        ensures
            r.x == (index % (self.dimensions.x as usize)) as i32,
            r.y == (index / (self.dimensions.x as usize)) as i32,
    {
        let width = self.dimensions.x as usize;
        IVec2::new((index % width) as i32, (index / width) as i32)
    }
}

/// Indexing a cell and turning the index back into a cell gives the cell
/// itself.
pub proof fn lemma_index_round_trip(spec: GridMapSpec, cell: IVec2)
    requires
        spec.contains(cell.pt()),
    ensures
        spec.index_of(cell.pt()) % spec.width() == cell.x,
        spec.index_of(cell.pt()) / spec.width() == cell.y,
{
    vstd::arithmetic::div_mod::lemma_fundamental_div_mod_converse(
        spec.index_of(cell.pt()),
        spec.width(),
        cell.y as int,
        cell.x as int,
    );
}

/// The row-major index of an in-bounds point is below the cell count.
pub proof fn lemma_index_in_range(spec: GridMapSpec, p: (int, int))
    requires
        spec.contains(p),
    ensures
        0 <= spec.index_of(p) < spec.width() * spec.height(),
{
    let w = spec.width();
    let h = spec.height();
    assert(0 <= p.1 * w + p.0 < w * h) by (nonlinear_arith)
        requires
            0 <= p.0 < w,
            0 <= p.1 < h,
    ;
}

/// Two in-bounds points with the same index are the same point.
pub proof fn lemma_index_injective(spec: GridMapSpec, a: IVec2, b: IVec2)
    requires
        spec.contains(a.pt()),
        spec.contains(b.pt()),
        spec.index_of(a.pt()) == spec.index_of(b.pt()),
    ensures
        a == b,
{
    lemma_index_round_trip(spec, a);
    lemma_index_round_trip(spec, b);
}

/// Every index below the cell count names an in-bounds cell whose index it is.
pub proof fn lemma_cell_from_index_round_trip(spec: GridMapSpec, index: int)
    requires
        0 <= index < spec.width() * spec.height(),
    ensures
        spec.contains((index % spec.width(), index / spec.width())),
        spec.index_of((index % spec.width(), index / spec.width())) == index,
{
    let w = spec.width();
    let h = spec.height();
    assert(w > 0) by (nonlinear_arith)
        requires
            0 <= index < w * h,
            h >= 0,
            w >= 0,
    ;
    vstd::arithmetic::div_mod::lemma_fundamental_div_mod(index, w);
    vstd::arithmetic::div_mod::lemma_div_pos_is_pos(index, w);
    assert(index / w < h) by (nonlinear_arith)
        requires
            index == w * (index / w) + index % w,
            0 <= index % w,
            index < w * h,
            w > 0,
    ;
}

/// One opacity flag per cell of a grid.
#[derive(Clone, Debug, PartialEq, Eq)]
pub struct GridOpacityMap {
    pub spec: GridMapSpec,
    opaque_cells: Vec<bool>,
}

impl Default for GridOpacityMap {
    fn default() -> (r: Self)
        ensures
            r.grid().dimensions.x == 32,
            r.grid().dimensions.y == 24,
            r.cells() == Seq::new(32 * 24, |i: int| false),
    {
        Self::new(GridMapSpec::default())
    }
}

impl GridOpacityMap {
    /// The grid the map covers.
    pub closed spec fn grid(self) -> GridMapSpec {
        self.spec
    }

    /// The stored flags, in row-major order.
    pub closed spec fn cells(self) -> Seq<bool> {
        self.opaque_cells@
    }

    /// Whether `cell` blocks sight: cells off the grid, or without a stored
    /// flag, count as opaque.
    pub open spec fn opaque_at(self, cell: IVec2) -> bool {
        let i = self.grid().index_of(cell.pt());
        if self.grid().contains(cell.pt()) && i < self.cells().len() {
            self.cells()[i]
        } else {
            true
        }
    }

    /// An all-transparent map.
    pub fn new(spec: GridMapSpec) -> (r: Self)
        requires
            spec.width() * spec.height() <= u32::MAX,
        ensures
            r.grid() == spec,
            r.cells() == Seq::new((spec.width() * spec.height()) as nat, |i: int| false),
            forall|c: IVec2| #[trigger] r.opaque_at(c) == !spec.contains(c.pt()),
    {
        let n = spec.cell_count();
        let mut cells: Vec<bool> = Vec::new();
        let mut i: usize = 0;
        while i < n
            invariant
                i <= n,
                cells@ == Seq::new(i as nat, |j: int| false),
            decreases n - i,
        {
            cells.push(false);
            i += 1;
        }
        let map = GridOpacityMap { spec, opaque_cells: cells };
        proof {
            assert forall|c: IVec2| #[trigger] map.opaque_at(c) == !spec.contains(c.pt()) by {
                if spec.contains(c.pt()) {
                    lemma_index_in_range(spec, c.pt());
                }
            }
        }
        map
    }

    /// A map whose flags come from `is_opaque`, asked once per cell, row by
    /// row.  When a dimension exceeds `i32::MAX` no cell is asked and the map
    /// stays transparent.
    pub fn from_fn<F: Fn(IVec2) -> bool>(spec: GridMapSpec, is_opaque: F) -> (map: Self)
        requires
            spec.width() * spec.height() <= u32::MAX,
            forall|c: IVec2| spec.contains(c.pt()) ==> call_requires(is_opaque, (c,)),
        ensures
            map.grid() == spec,
            map.cells().len() == spec.width() * spec.height(),
            spec.width() <= i32::MAX && spec.height() <= i32::MAX ==> forall|c: IVec2|
                spec.contains(c.pt()) ==> call_ensures(
                    is_opaque,
                    (c,),
                    #[trigger] map.opaque_at(c),
                ),
            !(spec.width() <= i32::MAX && spec.height() <= i32::MAX) ==> forall|i: int|
                0 <= i < map.cells().len() ==> !map.cells()[i],
            forall|c: IVec2| !spec.contains(c.pt()) ==> #[trigger] map.opaque_at(c),
    {
        let mut map = Self::new(spec);
        let ghost n = spec.width() * spec.height();
        let w32 = spec.dimensions.x;
        let h32 = spec.dimensions.y;
        let width = w32 as i32;
        let height = h32 as i32;
        assert(w32 <= 0x7fff_ffff ==> width == w32) by (bit_vector)
            requires
                width == w32 as i32,
        ;
        assert(w32 > 0x7fff_ffff ==> width < 0) by (bit_vector)
            requires
                width == w32 as i32,
        ;
        assert(h32 <= 0x7fff_ffff ==> height == h32) by (bit_vector)
            requires
                height == h32 as i32,
        ;
        assert(h32 > 0x7fff_ffff ==> height < 0) by (bit_vector)
            requires
                height == h32 as i32,
        ;
        let mut y: i32 = 0;
        while y < height
            invariant
                map.grid() == spec,
                map.cells().len() == n,
                n == spec.width() * spec.height(),
                n <= u32::MAX,
                0 <= y,
                y > 0 ==> y <= height,
                height >= 0 ==> height == spec.height(),
                height < 0 ==> spec.height() > i32::MAX,
                width >= 0 ==> width == spec.width(),
                width < 0 ==> spec.width() > i32::MAX,
                forall|c: IVec2| spec.contains(c.pt()) ==> call_requires(is_opaque, (c,)),
                width < 0 ==> forall|i: int| 0 <= i < n ==> !map.cells()[i],
                y == 0 ==> forall|i: int| 0 <= i < n ==> !map.cells()[i],
                width >= 0 ==> forall|c: IVec2|
                    spec.contains(c.pt()) && c.y < y ==> call_ensures(
                        is_opaque,
                        (c,),
                        #[trigger] map.opaque_at(c),
                    ),
            decreases height - y,
        {
            let ghost before_row = map;
            let mut x: i32 = 0;
            while x < width
                invariant
                    map.grid() == spec,
                    map.cells().len() == n,
                    n == spec.width() * spec.height(),
                    0 <= y < height,
                    height == spec.height(),
                    0 <= x,
                    x > 0 ==> x <= width,
                    width >= 0 ==> width == spec.width(),
                    forall|c: IVec2| spec.contains(c.pt()) ==> call_requires(is_opaque, (c,)),
                    width >= 0 ==> forall|c: IVec2|
                        spec.contains(c.pt()) && (c.y < y || (c.y == y && c.x < x))
                            ==> call_ensures(is_opaque, (c,), #[trigger] map.opaque_at(c)),
                    x == 0 ==> map == before_row,
                decreases width - x,
            {
                let cell = IVec2::new(x, y);
                assert(spec.contains(cell.pt()));
                proof {
                    lemma_index_in_range(spec, cell.pt());
                }
                let value = is_opaque(cell);
                let ghost prev = map;
                map.set_opaque(cell, value);
                proof {
                    assert forall|c: IVec2|
                        spec.contains(c.pt()) && (c.y < y || (c.y == y && c.x < x + 1)) implies
                        call_ensures(is_opaque, (c,), #[trigger] map.opaque_at(c)) by {
                        if c != cell {
                            assert(prev.opaque_at(c) == map.opaque_at(c));
                        }
                    }
                }
                x = x + 1;
            }
            y = y + 1;
        }
        map
    }

    /// Marks every cell transparent.
    pub fn clear(&mut self)
        ensures
            final(self).grid() == old(self).grid(),
            final(self).cells() == Seq::new(old(self).cells().len(), |i: int| false),
            forall|c: IVec2|
                #[trigger] final(self).opaque_at(c) == !(old(self).grid().contains(c.pt())
                    && old(self).grid().index_of(c.pt()) < old(self).cells().len()),
    {
        let n = self.opaque_cells.len();
        let mut i: usize = 0;
        while i < n
            invariant
                self.spec == old(self).grid(),
                self.opaque_cells@.len() == n,
                n == old(self).cells().len(),
                i <= n,
                forall|j: int| 0 <= j < i ==> !self.opaque_cells@[j],
            decreases n - i,
        {
            self.opaque_cells.set(i, false);
            i += 1;
        }
        assert(self.cells() =~= Seq::new(old(self).cells().len(), |i: int| false));
    }

    /// Stores `opaque` for `cell`; cells off the grid are ignored.
    pub fn set_opaque(&mut self, cell: IVec2, opaque: bool)
        requires
            old(self).grid().contains(cell.pt()) ==> old(self).grid().index_of(cell.pt()) < old(
                self,
            ).cells().len(),
        ensures
            final(self).grid() == old(self).grid(),
            final(self).cells() == (if old(self).grid().contains(cell.pt()) {
                old(self).cells().update(old(self).grid().index_of(cell.pt()), opaque)
            } else {
                old(self).cells()
            }),
            forall|other: IVec2| #[trigger]
                final(self).opaque_at(other) == if other == cell && old(self).grid().contains(
                    cell.pt(),
                ) {
                    opaque
                } else {
                    old(self).opaque_at(other)
                },
    {
        let index = match self.spec.index_u64(cell) {
            Some(index) => index,
            None => {
                return;
            },
        };
        let len = self.opaque_cells.len();
        assert(index < len);
        let index = index as usize;
        self.opaque_cells.set(index, opaque);
        proof {
            let s = self.spec;
            assert forall|other: IVec2| #[trigger] self.opaque_at(other) == if other == cell {
                opaque
            } else {
                old(self).opaque_at(other)
            } by {
                if other != cell && s.contains(other.pt()) {
                    if s.index_of(other.pt()) == s.index_of(cell.pt()) {
                        lemma_index_injective(s, other, cell);
                    }
                }
            }
        }
    }

    /// How many flags the map stores.
    pub fn flag_count(&self) -> (r: usize)
        ensures
            r == self.cells().len(),
    {
        self.opaque_cells.len()
    }

    /// The grid the map covers.
    pub fn grid_spec(&self) -> (r: GridMapSpec)
        ensures
            r == self.grid(),
    {
        self.spec
    }

    /// Whether `cell` blocks sight: the stored flag of a cell on the grid,
    /// and opaque for a cell off the grid or past the stored flags.
    pub fn is_opaque(&self, cell: IVec2) -> (r: bool)
        ensures
            r == self.opaque_at(cell),
            !self.grid().contains(cell.pt()) ==> r,
            self.grid().contains(cell.pt()) && self.grid().index_of(cell.pt())
                < self.cells().len() ==> r == self.cells()[self.grid().index_of(cell.pt())],
            self.grid().contains(cell.pt()) && self.grid().index_of(cell.pt())
                >= self.cells().len() ==> r,
    {
        match self.spec.index_u64(cell) {
            Some(index) => {
                if index < self.opaque_cells.len() as u64 {
                    self.opaque_cells[index as usize]
                } else {
                    true
                }
            },
            None => true,
        }
    }
}

impl OpacitySource for GridOpacityMap {
    open spec fn ready(&self) -> bool {
        true
    }

    open spec fn opacity(&self) -> spec_fn(IVec2) -> bool {
        |c: IVec2| self.opaque_at(c)
    }

    fn query_cell(&self, cell: IVec2) -> (r: bool) {
        self.is_opaque(cell)
    }
}

} // verus!
