//! Supercover lines and grid line of sight.

use vstd::prelude::*;

use crate::algorithms::line::{
    abs_int, decision, lemma_line_offsets, lemma_next_offset_progress, lemma_offsets_from,
    lemma_line_offsets_step, lemma_offsets_unfold, line_offsets, line_points, next_offset, offsets_from, sgn, step_coord,
};
use crate::algorithms::opacity::{is_opacity_query, opacity_of, OpacityFn, OpacitySource};
use crate::geometry::{cell_at, fits_i32, lemma_cell_at_pt, IVec2, UVec2};
use crate::grid::{GridCornerPolicy, GridMapSpec};

verus! {

fn sign_of(v: i32) -> (r: i32)
    ensures
        r == sgn(v as int),
{
    if v > 0 {
        1
    } else if v < 0 {
        -1
    } else {
        0
    }
}

fn abs_of(v: i32) -> (r: i32)
    requires
        v != i32::MIN,
    ensures
        r == abs_int(v as int),
{
    if v < 0 {
        -v
    } else {
        v
    }
}

/// The decision value of the walk, computed without overflow.
fn walk_decision(nx: i32, ny: i32, ix: i32, iy: i32) -> (r: i64)
    requires
        0 <= ix <= nx,
        0 <= iy <= ny,
    ensures
        r == decision(nx as int, ny as int, ix as int, iy as int),
{
    let ixl = ix as i64;
    let iyl = iy as i64;
    let nxl = nx as i64;
    let nyl = ny as i64;
    assert(0 <= (1 + 2 * ixl) * nyl <= 0x7FFF_FFFE_8000_0001) by (nonlinear_arith)
        requires
            0 <= ixl <= 0x7fff_ffff,
            0 <= nyl <= 0x7fff_ffff,
    ;
    assert(0 <= (1 + 2 * iyl) * nxl <= 0x7FFF_FFFE_8000_0001) by (nonlinear_arith)
        requires
            0 <= iyl <= 0x7fff_ffff,
            0 <= nxl <= 0x7fff_ffff,
    ;
    (1 + 2 * ixl) * nyl - (1 + 2 * iyl) * nxl
}

/// The supercover line from `start` to `end`, both included.
pub fn supercover_line(start: IVec2, end: IVec2) -> (points: Vec<IVec2>)
    requires
        i32::MIN < end.x - start.x <= i32::MAX,
        i32::MIN < end.y - start.y <= i32::MAX,
    ensures
        points@.map_values(|c: IVec2| c.pt()) == line_points(start.pt(), end.pt()),
{
    let mut points: Vec<IVec2> = Vec::new();
    points.push(start);
    let dx = end.x - start.x;
    let dy = end.y - start.y;
    let nx = abs_of(dx);
    let ny = abs_of(dy);
    let sign_x = sign_of(dx);
    let sign_y = sign_of(dy);

    let mut x = start.x;
    let mut y = start.y;
    let mut ix: i32 = 0;
    let mut iy: i32 = 0;

    let ghost offs = line_offsets(nx as int, ny as int);
    let ghost pts = line_points(start.pt(), end.pt());
    proof {
        lemma_line_offsets(nx as int, ny as int);
        lemma_offsets_from(nx as int, ny as int, 0, 0);
    }

    while ix < nx || iy < ny
        invariant
            nx == abs_int(end.x - start.x),
            ny == abs_int(end.y - start.y),
            sign_x == sgn(end.x - start.x),
            sign_y == sgn(end.y - start.y),
            0 <= ix <= nx,
            0 <= iy <= ny,
            offs == line_offsets(nx as int, ny as int),
            pts == line_points(start.pt(), end.pt()),
            pts.len() == offs.len(),
            1 <= points@.len() <= offs.len(),
            offs[points@.len() - 1] == (ix as int, iy as int),
            offs.len() == points@.len() + offsets_from(
                nx as int,
                ny as int,
                ix as int,
                iy as int,
            ).len(),
            forall|m: int|
                0 <= m < offsets_from(nx as int, ny as int, ix as int, iy as int).len()
                    ==> #[trigger] offsets_from(nx as int, ny as int, ix as int, iy as int)[m]
                    == offs[points@.len() + m],
            x == step_coord(start.x as int, sign_x as int, ix as int),
            y == step_coord(start.y as int, sign_y as int, iy as int),
            forall|j: int| 0 <= j < points@.len() ==> #[trigger] points@[j].pt() == pts[j],
        decreases (nx - ix) + (ny - iy),
    {
        let ghost k = points@.len() - 1;
        let ghost rest = offsets_from(nx as int, ny as int, ix as int, iy as int);
        let ghost nxt = next_offset(nx as int, ny as int, ix as int, iy as int);
        proof {
            lemma_next_offset_progress(nx as int, ny as int, ix as int, iy as int);
            lemma_offsets_from(nx as int, ny as int, ix as int, iy as int);
            lemma_offsets_unfold(nx as int, ny as int, ix as int, iy as int);
            lemma_offsets_from(nx as int, ny as int, nxt.0, nxt.1);
            assert(rest[0] == nxt);
            assert(offs[k + 1] == nxt);
        }
        let decision = walk_decision(nx, ny, ix, iy);
        if decision == 0 {
            x += sign_x;
            y += sign_y;
            ix += 1;
            iy += 1;
        } else if decision < 0 {
            x += sign_x;
            ix += 1;
        } else {
            y += sign_y;
            iy += 1;
        }
        points.push(IVec2::new(x, y));
        proof {
            let rest2 = offsets_from(nx as int, ny as int, ix as int, iy as int);
            assert(rest == seq![nxt] + rest2);
            assert forall|m: int| 0 <= m < rest2.len() implies #[trigger] rest2[m] == offs[points@.len()
                + m] by {
                assert(rest2[m] == rest[m + 1]);
            }
            assert(points@[k + 1].pt() == pts[k + 1]);
        }
    }
    proof {
        lemma_offsets_from(nx as int, ny as int, ix as int, iy as int);
        assert(points@.map_values(|c: IVec2| c.pt()) =~= pts);
    }
    points
}

/// Whether a corner crossing is blocked, given the opacity of the two side
/// cells next to the corner.
pub open spec fn corner_blocked(
    policy: GridCornerPolicy,
    horizontal_opaque: bool,
    vertical_opaque: bool,
) -> bool {
    match policy {
        GridCornerPolicy::IgnoreAdjacentWalls => false,
        GridCornerPolicy::BlockIfBothAdjacentWalls => horizontal_opaque && vertical_opaque,
        GridCornerPolicy::BlockIfEitherAdjacentWall => horizontal_opaque || vertical_opaque,
    }
}

/// A point blocks sight when it is off the grid or opaque.
pub open spec fn blocks(spec: GridMapSpec, op: spec_fn(IVec2) -> bool, p: (int, int)) -> bool {
    !spec.contains(p) || op(cell_at(p))
}

pub open spec fn diagonal_step(a: (int, int), b: (int, int)) -> bool {
    a.0 != b.0 && a.1 != b.1
}

/// Step `j` of the line `pts` (from `pts[j]` to `pts[j + 1]`) is not a corner
/// crossing that `policy` blocks; `sx`, `sy` are the directions of travel.
pub open spec fn corner_clear(
    spec: GridMapSpec,
    policy: GridCornerPolicy,
    op: spec_fn(IVec2) -> bool,
    pts: Seq<(int, int)>,
    sx: int,
    sy: int,
    j: int,
) -> bool {
    diagonal_step(pts[j], pts[j + 1]) ==> !corner_blocked(
        policy,
        blocks(spec, op, (pts[j].0 + sx, pts[j].1)),
        blocks(spec, op, (pts[j].0, pts[j].1 + sy)),
    )
}

/// `target` is visible from `origin`: both lie on the grid, and either they
/// are the same cell, or every cell strictly between them on the supercover
/// line is transparent, no corner crossing on the line is blocked under
/// `policy`, and the target itself is transparent unless `reveal_blockers`.
pub open spec fn line_of_sight(
    spec: GridMapSpec,
    origin: IVec2,
    target: IVec2,
    policy: GridCornerPolicy,
    reveal_blockers: bool,
    op: spec_fn(IVec2) -> bool,
) -> bool {
    let o = origin.pt();
    let t = target.pt();
    let pts = line_points(o, t);
    let sx = sgn(t.0 - o.0);
    let sy = sgn(t.1 - o.1);
    &&& spec.contains(o)
    &&& spec.contains(t)
    &&& (origin == target || {
        &&& forall|j: int|
            0 <= j < pts.len() - 1 ==> #[trigger] corner_clear(spec, policy, op, pts, sx, sy, j)
        &&& forall|j: int| 1 <= j < pts.len() - 1 ==> !op(cell_at(#[trigger] pts[j]))
        &&& (reveal_blockers || !op(target))
    })
}

/// Whether `target` can be seen from `origin` on the grid `spec`, where
/// `is_opaque` says which cells block sight.
pub fn has_grid_line_of_sight<F: Fn(IVec2) -> bool>(
    spec: GridMapSpec,
    origin: IVec2,
    target: IVec2,
    corner_policy: GridCornerPolicy,
    reveal_blockers: bool,
    is_opaque: F,
) -> (r: bool)
    requires
        is_opacity_query(is_opaque),
    ensures
        r == line_of_sight(
            spec,
            origin,
            target,
            corner_policy,
            reveal_blockers,
            opacity_of(is_opaque),
        ),
{
    grid_line_of_sight(
        &spec,
        origin,
        target,
        corner_policy,
        reveal_blockers,
        &OpacityFn(is_opaque),
    )
}

/// The walk's position after one more step: `(ix, iy)` becomes the next
/// step counts and `(x, y)` moves with them.
fn walk_step(
    nx: i32,
    ny: i32,
    ix: i32,
    iy: i32,
    x: i32,
    y: i32,
    sx: i32,
    sy: i32,
    ox: Ghost<int>,
    oy: Ghost<int>,
) -> (r: (i32, i32, i32, i32, bool))
    requires
        0 <= ix <= nx,
        0 <= iy <= ny,
        ix < nx || iy < ny,
        -1 <= sx <= 1,
        -1 <= sy <= 1,
        nx > 0 ==> sx != 0,
        ny > 0 ==> sy != 0,
        x == step_coord(ox@, sx as int, ix as int),
        y == step_coord(oy@, sy as int, iy as int),
        fits_i32(step_coord(ox@, sx as int, nx as int)),
        fits_i32(ox@),
        fits_i32(step_coord(oy@, sy as int, ny as int)),
        fits_i32(oy@),
    ensures
        (r.2 as int, r.3 as int) == next_offset(nx as int, ny as int, ix as int, iy as int),
        r.0 == step_coord(ox@, sx as int, r.2 as int),
        r.1 == step_coord(oy@, sy as int, r.3 as int),
        r.4 == (decision(nx as int, ny as int, ix as int, iy as int) == 0),
{
    proof {
        lemma_next_offset_progress(nx as int, ny as int, ix as int, iy as int);
    }
    let decision = walk_decision(nx, ny, ix, iy);
    if decision == 0 {
        (x + sx, y + sy, ix + 1, iy + 1, true)
    } else if decision < 0 {
        (x + sx, y, ix + 1, iy, false)
    } else {
        (x, y + sy, ix, iy + 1, false)
    }
}

/// Whether the corner crossed by a diagonal step from `current` is blocked.
fn corner_check<Q: OpacitySource>(
    spec: &GridMapSpec,
    current: IVec2,
    sign_x: i32,
    sign_y: i32,
    corner_policy: GridCornerPolicy,
    is_opaque: &Q,
) -> (r: bool)
    requires
        is_opaque.ready(),
        fits_i32(current.x + sign_x),
        fits_i32(current.y + sign_y),
    ensures
        r == corner_blocked(
            corner_policy,
            blocks(*spec, is_opaque.opacity(), (current.x + sign_x, current.y as int)),
            blocks(*spec, is_opaque.opacity(), (current.x as int, current.y + sign_y)),
        ),
{
    let horizontal = IVec2::new(current.x + sign_x, current.y);
    let vertical = IVec2::new(current.x, current.y + sign_y);
    let horizontal_opaque = !spec.in_bounds(horizontal) || is_opaque.query_cell(horizontal);
    let vertical_opaque = !spec.in_bounds(vertical) || is_opaque.query_cell(vertical);
    proof {
        lemma_cell_at_pt(horizontal);
        lemma_cell_at_pt(vertical);
    }
    match corner_policy {
        GridCornerPolicy::IgnoreAdjacentWalls => false,
        GridCornerPolicy::BlockIfBothAdjacentWalls => horizontal_opaque && vertical_opaque,
        GridCornerPolicy::BlockIfEitherAdjacentWall => horizontal_opaque || vertical_opaque,
    }
}

/// Every point of the line from `o` to `t` lies in the box they span.
proof fn lemma_walk_in_box(o: int, s: int, a: int, n: int, t: int)
    requires
        0 <= a <= n,
        n == abs_int(t - o),
        s == sgn(t - o),
    ensures
        o <= t ==> o <= step_coord(o, s, a) <= t,
        t <= o ==> t <= step_coord(o, s, a) <= o,
        a < n ==> step_coord(o, s, a + 1) == step_coord(o, s, a) + s,
{
}

/// Whether `target` can be seen from `origin` on the grid `spec`, with
/// opacity from any opacity source.
pub fn grid_line_of_sight<Q: OpacitySource>(
    spec: &GridMapSpec,
    origin: IVec2,
    target: IVec2,
    corner_policy: GridCornerPolicy,
    reveal_blockers: bool,
    is_opaque: &Q,
) -> (r: bool)
    requires
        is_opaque.ready(),
    ensures
        r == line_of_sight(
            *spec,
            origin,
            target,
            corner_policy,
            reveal_blockers,
            is_opaque.opacity(),
        ),
{
    let ghost op = is_opaque.opacity();
    if !spec.in_bounds(origin) || !spec.in_bounds(target) {
        return false;
    }
    if origin == target {
        return true;
    }

    let dx = target.x - origin.x;
    let dy = target.y - origin.y;
    let nx = abs_of(dx);
    let ny = abs_of(dy);
    let sign_x = sign_of(dx);
    let sign_y = sign_of(dy);

    let mut current = origin;
    let mut ix: i32 = 0;
    let mut iy: i32 = 0;

    let ghost o = origin.pt();
    let ghost t = target.pt();
    let ghost offs = line_offsets(nx as int, ny as int);
    let ghost pts = line_points(o, t);
    let ghost mut k: int = 0;
    proof {
        lemma_line_offsets(nx as int, ny as int);
        lemma_offsets_from(nx as int, ny as int, 0, 0);
        assert(offs.subrange(1, offs.len() as int) =~= offsets_from(nx as int, ny as int, 0, 0));
    }

    while ix < nx || iy < ny
        invariant
            is_opaque.ready(),
            op == is_opaque.opacity(),
            spec.contains(o),
            spec.contains(t),
            o == origin.pt(),
            t == target.pt(),
            origin != target,
            nx == abs_int(t.0 - o.0),
            ny == abs_int(t.1 - o.1),
            sign_x == sgn(t.0 - o.0),
            sign_y == sgn(t.1 - o.1),
            0 <= ix <= nx,
            0 <= iy <= ny,
            ix < nx || iy < ny,
            offs == line_offsets(nx as int, ny as int),
            pts == line_points(o, t),
            0 <= k < offs.len() - 1,
            offs[k] == (ix as int, iy as int),
            offs.subrange(k + 1, offs.len() as int) == offsets_from(
                nx as int,
                ny as int,
                ix as int,
                iy as int,
            ),
            current.x == step_coord(o.0, sign_x as int, ix as int),
            current.y == step_coord(o.1, sign_y as int, iy as int),
            forall|j: int|
                0 <= j < k ==> #[trigger] corner_clear(
                    *spec,
                    corner_policy,
                    op,
                    pts,
                    sign_x as int,
                    sign_y as int,
                    j,
                ),
            forall|j: int| 1 <= j <= k ==> !op(cell_at(#[trigger] pts[j])),
        decreases (nx - ix) + (ny - iy),
    {
        let ghost rest = offsets_from(nx as int, ny as int, ix as int, iy as int);
        let ghost nxt = next_offset(nx as int, ny as int, ix as int, iy as int);
        proof {
            lemma_line_offsets(nx as int, ny as int);
            lemma_next_offset_progress(nx as int, ny as int, ix as int, iy as int);
            lemma_offsets_from(nx as int, ny as int, ix as int, iy as int);
            lemma_offsets_unfold(nx as int, ny as int, ix as int, iy as int);
            assert(rest[0] == nxt);
            assert(offs[k + 1] == offs.subrange(k + 1, offs.len() as int)[0]);
            lemma_walk_in_box(o.0, sign_x as int, ix as int, nx as int, t.0);
            lemma_walk_in_box(o.1, sign_y as int, iy as int, ny as int, t.1);
            lemma_walk_in_box(o.0, sign_x as int, nx as int, nx as int, t.0);
            lemma_walk_in_box(o.1, sign_y as int, ny as int, ny as int, t.1);
            assert(pts[k] == (current.x as int, current.y as int));
            assert(pts[k + 1] == (
                step_coord(o.0, sign_x as int, nxt.0),
                step_coord(o.1, sign_y as int, nxt.1),
            ));
        }
        let (nx_pos, ny_pos, nix, niy, diagonal) = walk_step(
            nx,
            ny,
            ix,
            iy,
            current.x,
            current.y,
            sign_x,
            sign_y,
            Ghost(o.0),
            Ghost(o.1),
        );
        if diagonal {
            proof {
                lemma_walk_in_box(o.0, sign_x as int, ix as int, nx as int, t.0);
                lemma_walk_in_box(o.1, sign_y as int, iy as int, ny as int, t.1);
            }
            let blocked = corner_check(spec, current, sign_x, sign_y, corner_policy, is_opaque);
            proof {
                assert(diagonal_step(pts[k], pts[k + 1]));
            }
            if blocked {
                proof {
                    assert(!corner_clear(
                        *spec,
                        corner_policy,
                        op,
                        pts,
                        sign_x as int,
                        sign_y as int,
                        k,
                    ));
                }
                return false;
            }
        }
        proof {
            assert(corner_clear(*spec, corner_policy, op, pts, sign_x as int, sign_y as int, k));
        }
        current = IVec2::new(nx_pos, ny_pos);
        ix = nix;
        iy = niy;

        proof {
            let rest2 = offsets_from(nx as int, ny as int, ix as int, iy as int);
            assert(rest == seq![nxt] + rest2);
            let tail = offs.subrange(k + 1, offs.len() as int);
            assert forall|m: int| 0 <= m < rest2.len() implies #[trigger] rest2[m] == offs[k + 2
                + m] by {
                assert(rest2[m] == rest[m + 1]);
                assert(tail[m + 1] == offs[k + 2 + m]);
            }
            assert(offs.subrange(k + 2, offs.len() as int) =~= rest2);
            k = k + 1;
            assert(current.pt() == pts[k]);
            lemma_offsets_from(nx as int, ny as int, ix as int, iy as int);
        }

        if !spec.in_bounds(current) {
            return false;
        }

        let opaque = is_opaque.query_cell(current);
        proof {
            lemma_cell_at_pt(current);
        }
        if current == target {
            proof {
                assert(k == offs.len() - 1);
            }
            return reveal_blockers || !opaque;
        }
        proof {
            assert(k < offs.len() - 1);
        }
        if opaque {
            return false;
        }
    }

    true
}

/// The supercover line starts at `start`, ends at `end`, stays inside the
/// box the two span, and each move goes one cell towards `end` along one axis
/// or diagonally along both; it has between `max(|dx|, |dy|) + 1` and
/// `|dx| + |dy| + 1` cells.
pub proof fn lemma_line_points_shape(start: (int, int), end: (int, int))
    ensures
        ({
            let pts = line_points(start, end);
            let sx = sgn(end.0 - start.0);
            let sy = sgn(end.1 - start.1);
            let nx = abs_int(end.0 - start.0);
            let ny = abs_int(end.1 - start.1);
            &&& pts[0] == start
            &&& pts[pts.len() - 1] == end
            &&& (if nx >= ny { nx } else { ny }) + 1 <= pts.len() <= nx + ny + 1
            &&& forall|j: int|
                0 <= j < pts.len() ==> abs_int(#[trigger] pts[j].0 - start.0) + abs_int(
                    end.0 - pts[j].0,
                ) == nx && abs_int(pts[j].1 - start.1) + abs_int(end.1 - pts[j].1) == ny
            &&& forall|j: int|
                0 <= j < pts.len() - 1 ==> {
                    let d = (pts[j + 1].0 - pts[j].0, pts[j + 1].1 - pts[j].1);
                    #[trigger] pts[j + 1] != pts[j] && (d.0 == 0 || d.0 == sx) && (d.1 == 0 || d.1
                        == sy)
                }
        }),
{
    let nx = abs_int(end.0 - start.0);
    let ny = abs_int(end.1 - start.1);
    let sx = sgn(end.0 - start.0);
    let sy = sgn(end.1 - start.1);
    let offs = line_offsets(nx, ny);
    let pts = line_points(start, end);
    lemma_line_offsets(nx, ny);
    assert forall|j: int| 0 <= j < pts.len() - 1 implies {
        let d = (pts[j + 1].0 - pts[j].0, pts[j + 1].1 - pts[j].1);
        #[trigger] pts[j + 1] != pts[j] && (d.0 == 0 || d.0 == sx) && (d.1 == 0 || d.1 == sy)
    } by {
        lemma_line_offsets_step(nx, ny, j);
        lemma_next_offset_progress(nx, ny, offs[j].0, offs[j].1);
    }
    lemma_line_length(nx, ny);
}

/// The walk to `(nx, ny)` has between `max(nx, ny) + 1` and `nx + ny + 1`
/// entries.
proof fn lemma_line_length(nx: int, ny: int)
    requires
        0 <= nx,
        0 <= ny,
    ensures
        nx + 1 <= line_offsets(nx, ny).len(),
        ny + 1 <= line_offsets(nx, ny).len(),
{
    lemma_offsets_length(nx, ny, 0, 0);
}

proof fn lemma_offsets_length(nx: int, ny: int, ix: int, iy: int)
    requires
        0 <= ix <= nx,
        0 <= iy <= ny,
    ensures
        nx - ix <= offsets_from(nx, ny, ix, iy).len(),
        ny - iy <= offsets_from(nx, ny, ix, iy).len(),
    decreases (nx - ix) + (ny - iy),
{
    if ix < nx || iy < ny {
        let n = next_offset(nx, ny, ix, iy);
        lemma_next_offset_progress(nx, ny, ix, iy);
        lemma_offsets_length(nx, ny, n.0, n.1);
    }
}

/// Stricter corner policies see less: whatever is visible when either side
/// wall blocks a corner is visible when only two walls block it, and that in
/// turn is visible when corners never block.
pub proof fn lemma_corner_policy_strictness(
    spec: GridMapSpec,
    origin: IVec2,
    target: IVec2,
    reveal_blockers: bool,
    op: spec_fn(IVec2) -> bool,
)
    ensures
        line_of_sight(
            spec,
            origin,
            target,
            GridCornerPolicy::BlockIfEitherAdjacentWall,
            reveal_blockers,
            op,
        ) ==> line_of_sight(
            spec,
            origin,
            target,
            GridCornerPolicy::BlockIfBothAdjacentWalls,
            reveal_blockers,
            op,
        ),
        line_of_sight(
            spec,
            origin,
            target,
            GridCornerPolicy::BlockIfBothAdjacentWalls,
            reveal_blockers,
            op,
        ) ==> line_of_sight(
            spec,
            origin,
            target,
            GridCornerPolicy::IgnoreAdjacentWalls,
            reveal_blockers,
            op,
        ),
{
    let o = origin.pt();
    let t = target.pt();
    let pts = line_points(o, t);
    let sx = sgn(t.0 - o.0);
    let sy = sgn(t.1 - o.1);
    if line_of_sight(
        spec,
        origin,
        target,
        GridCornerPolicy::BlockIfEitherAdjacentWall,
        reveal_blockers,
        op,
    ) && origin != target {
        assert forall|j: int| 0 <= j < pts.len() - 1 implies #[trigger] corner_clear(
            spec,
            GridCornerPolicy::BlockIfBothAdjacentWalls,
            op,
            pts,
            sx,
            sy,
            j,
        ) by {
            assert(corner_clear(
                spec,
                GridCornerPolicy::BlockIfEitherAdjacentWall,
                op,
                pts,
                sx,
                sy,
                j,
            ));
        }
    }
    if line_of_sight(
        spec,
        origin,
        target,
        GridCornerPolicy::BlockIfBothAdjacentWalls,
        reveal_blockers,
        op,
    ) && origin != target {
        assert forall|j: int| 0 <= j < pts.len() - 1 implies #[trigger] corner_clear(
            spec,
            GridCornerPolicy::IgnoreAdjacentWalls,
            op,
            pts,
            sx,
            sy,
            j,
        ) by {}
    }
}

/// With `reveal_blockers` off, a distinct target is visible exactly when it
/// is visible with `reveal_blockers` on and is itself transparent.
pub proof fn lemma_reveal_blockers(
    spec: GridMapSpec,
    origin: IVec2,
    target: IVec2,
    policy: GridCornerPolicy,
    op: spec_fn(IVec2) -> bool,
)
    requires
        origin != target,
    ensures
        line_of_sight(spec, origin, target, policy, false, op) == (line_of_sight(
            spec,
            origin,
            target,
            policy,
            true,
            op,
        ) && !op(target)),
{
}

/// Every cell can see itself, as long as it lies on the grid.
pub proof fn lemma_self_visible(
    spec: GridMapSpec,
    cell: IVec2,
    policy: GridCornerPolicy,
    reveal_blockers: bool,
    op: spec_fn(IVec2) -> bool,
)
    ensures
        line_of_sight(spec, cell, cell, policy, reveal_blockers, op) == spec.contains(cell.pt()),
{
}

/// Removing walls never hides a cell: if every cell opaque under `fewer` is
/// opaque under `more`, whatever is visible under `more` is visible under
/// `fewer`.
pub proof fn lemma_fewer_walls_see_more(
    spec: GridMapSpec,
    origin: IVec2,
    target: IVec2,
    policy: GridCornerPolicy,
    reveal_blockers: bool,
    more: spec_fn(IVec2) -> bool,
    fewer: spec_fn(IVec2) -> bool,
)
    requires
        forall|c: IVec2| #[trigger] fewer(c) ==> more(c),
    ensures
        line_of_sight(spec, origin, target, policy, reveal_blockers, more) ==> line_of_sight(
            spec,
            origin,
            target,
            policy,
            reveal_blockers,
            fewer,
        ),
{
    let o = origin.pt();
    let t = target.pt();
    let pts = line_points(o, t);
    let sx = sgn(t.0 - o.0);
    let sy = sgn(t.1 - o.1);
    if line_of_sight(spec, origin, target, policy, reveal_blockers, more) && origin != target {
        assert forall|j: int| 0 <= j < pts.len() - 1 implies #[trigger] corner_clear(
            spec,
            policy,
            fewer,
            pts,
            sx,
            sy,
            j,
        ) by {
            assert(corner_clear(spec, policy, more, pts, sx, sy, j));
            let h = (pts[j].0 + sx, pts[j].1);
            let v = (pts[j].0, pts[j].1 + sy);
            assert(blocks(spec, fewer, h) ==> blocks(spec, more, h));
            assert(blocks(spec, fewer, v) ==> blocks(spec, more, v));
        }
        assert forall|j: int| 1 <= j < pts.len() - 1 implies !fewer(cell_at(#[trigger] pts[j])) by {
            assert(!more(cell_at(pts[j])));
        }
    }
}

/// A diagonal neighbour is seen across the corner between the two cells
/// beside the move, the horizontal one `(x + sx, y)` and the vertical one
/// `(x, y + sy)`, each blocking when off the grid or opaque: ignoring walls
/// always lets sight through, "both" stops it only when both side cells
/// block, "either" stops it when one of them does.  The neighbour itself
/// must also be transparent unless blockers are revealed.
pub proof fn lemma_diagonal_neighbour_sight(
    spec: GridMapSpec,
    origin: IVec2,
    target: IVec2,
    policy: GridCornerPolicy,
    reveal_blockers: bool,
    op: spec_fn(IVec2) -> bool,
    sx: int,
    sy: int,
)
    requires
        sx == 1 || sx == -1,
        sy == 1 || sy == -1,
        target.x == origin.x + sx,
        target.y == origin.y + sy,
        spec.contains(origin.pt()),
        spec.contains(target.pt()),
    ensures
        ({
            let h = (origin.x + sx, origin.y as int);
            let v = (origin.x as int, origin.y + sy);
            let h_blocks = !spec.contains(h) || op(cell_at(h));
            let v_blocks = !spec.contains(v) || op(cell_at(v));
            let target_shows = reveal_blockers || !op(target);
            line_of_sight(spec, origin, target, policy, reveal_blockers, op) == match policy {
                GridCornerPolicy::IgnoreAdjacentWalls => target_shows,
                GridCornerPolicy::BlockIfBothAdjacentWalls => !(h_blocks && v_blocks)
                    && target_shows,
                GridCornerPolicy::BlockIfEitherAdjacentWall => !h_blocks && !v_blocks
                    && target_shows,
            }
        }),
{
    let o = origin.pt();
    let t = target.pt();
    assert(sgn(t.0 - o.0) == sx && sgn(t.1 - o.1) == sy);
    assert(abs_int(t.0 - o.0) == 1 && abs_int(t.1 - o.1) == 1);
    assert(decision(1, 1, 0, 0) == 0);
    assert(offsets_from(1, 1, 1, 1) =~= Seq::<(int, int)>::empty());
    assert(offsets_from(1, 1, 0, 0) =~= seq![(1int, 1int)]);
    assert(line_offsets(1, 1) =~= seq![(0int, 0int), (1int, 1int)]);
    let pts = line_points(o, t);
    assert(pts =~= seq![o, t]);
    assert(origin != target);
    let cc = corner_clear(spec, policy, op, pts, sx, sy, 0);
    assert(diagonal_step(pts[0], pts[1]));
    assert((forall|j: int| 0 <= j < pts.len() - 1 ==> #[trigger] corner_clear(spec, policy, op, pts, sx, sy, j)) == cc);
    assert(forall|j: int| 1 <= j < pts.len() - 1 ==> !op(cell_at(#[trigger] pts[j])));
    assert(line_of_sight(spec, origin, target, policy, reveal_blockers, op) == (cc && (
    reveal_blockers || !op(target))));
}

/// The point `k` steps from `origin` in direction `(sx, sy)`.
pub open spec fn ray_point(origin: IVec2, sx: int, sy: int, k: int) -> (int, int) {
    (origin.x + k * sx, origin.y + k * sy)
}

proof fn lemma_straight_offsets(n: int, i: int, along_x: bool)
    requires
        0 <= i <= n,
    ensures
        along_x ==> offsets_from(n, 0, i, 0) == Seq::new(
            (n - i) as nat,
            |j: int| (i + 1 + j, 0int),
        ),
        !along_x ==> offsets_from(0, n, 0, i) == Seq::new(
            (n - i) as nat,
            |j: int| (0int, i + 1 + j),
        ),
    decreases n - i,
{
    if i < n {
        lemma_straight_offsets(n, i + 1, along_x);
        if along_x {
            assert(decision(n, 0, i, 0) < 0) by (nonlinear_arith)
                requires
                    0 <= i < n,
            ;
            assert(offsets_from(n, 0, i, 0) =~= Seq::new(
                (n - i) as nat,
                |j: int| (i + 1 + j, 0int),
            ));
        } else {
            assert(decision(0, n, 0, i) > 0) by (nonlinear_arith)
                requires
                    0 <= i < n,
            ;
            assert(offsets_from(0, n, 0, i) =~= Seq::new(
                (n - i) as nat,
                |j: int| (0int, i + 1 + j),
            ));
        }
    } else {
        assert(offsets_from(n, 0, i, 0) =~= Seq::<(int, int)>::empty());
        assert(offsets_from(0, n, 0, i) =~= Seq::<(int, int)>::empty());
    }
}

/// Along a row or a column no corner is crossed: the target is seen exactly
/// when every cell strictly between it and the origin is transparent, and
/// the target itself is transparent unless blockers are revealed; the
/// corner policy plays no part.
pub proof fn lemma_straight_line_sight(
    spec: GridMapSpec,
    origin: IVec2,
    target: IVec2,
    policy: GridCornerPolicy,
    reveal_blockers: bool,
    op: spec_fn(IVec2) -> bool,
    sx: int,
    sy: int,
    d: int,
)
    requires
        (sx == 0 && (sy == 1 || sy == -1)) || (sy == 0 && (sx == 1 || sx == -1)),
        d >= 1,
        target.pt() == ray_point(origin, sx, sy, d),
        spec.contains(origin.pt()),
        spec.contains(target.pt()),
    ensures
        line_of_sight(spec, origin, target, policy, reveal_blockers, op) == ((forall|k: int|
            1 <= k < d ==> !op(cell_at(#[trigger] ray_point(origin, sx, sy, k)))) && (
        reveal_blockers || !op(target))),
{
    let o = origin.pt();
    let t = target.pt();
    let along_x = sy == 0;
    if sx == 1 {
        assert(d * sx == d);
    } else if sx == -1 {
        assert(d * sx == -d);
    } else {
        assert(d * sx == 0);
    }
    if sy == 1 {
        assert(d * sy == d);
    } else if sy == -1 {
        assert(d * sy == -d);
    } else {
        assert(d * sy == 0);
    }
    assert(sgn(t.0 - o.0) == sx && sgn(t.1 - o.1) == sy);
    lemma_straight_offsets(d, 0, along_x);
    let offs = line_offsets(abs_int(t.0 - o.0), abs_int(t.1 - o.1));
    assert(offs =~= Seq::new((d + 1) as nat, |j: int| if along_x { (j, 0int) } else { (0int, j) }));
    let pts = line_points(o, t);
    assert forall|j: int| 0 <= j < pts.len() implies #[trigger] pts[j] == ray_point(origin, sx, sy, j) by {
        assert(offs[j] == if along_x { (j, 0int) } else { (0int, j) });
        if sx == 1 {
            assert(j * sx == j);
        } else if sx == -1 {
            assert(j * sx == -j);
        } else {
            assert(j * sx == 0);
        }
        if sy == 1 {
            assert(j * sy == j);
        } else if sy == -1 {
            assert(j * sy == -j);
        } else {
            assert(j * sy == 0);
        }
    }
    assert(pts.len() == d + 1);
    assert(origin != target);
    assert forall|j: int| 0 <= j < pts.len() - 1 implies #[trigger] corner_clear(
        spec,
        policy,
        op,
        pts,
        sx,
        sy,
        j,
    ) by {
        assert(pts[j] == ray_point(origin, sx, sy, j));
        assert(pts[j + 1] == ray_point(origin, sx, sy, j + 1));
        if along_x {
            assert(j * sy == 0 && (j + 1) * sy == 0);
        } else {
            assert(j * sx == 0 && (j + 1) * sx == 0);
        }
    }
    assert((forall|j: int| 1 <= j < pts.len() - 1 ==> !op(cell_at(#[trigger] pts[j]))) == (forall|
        k: int,
    | 1 <= k < d ==> !op(cell_at(#[trigger] ray_point(origin, sx, sy, k))))) by {
        if forall|j: int| 1 <= j < pts.len() - 1 ==> !op(cell_at(#[trigger] pts[j])) {
            assert forall|k: int| 1 <= k < d implies !op(
                cell_at(#[trigger] ray_point(origin, sx, sy, k)),
            ) by {
                assert(pts[k] == ray_point(origin, sx, sy, k));
            }
        }
        if forall|k: int| 1 <= k < d ==> !op(cell_at(#[trigger] ray_point(origin, sx, sy, k))) {
            assert forall|j: int| 1 <= j < pts.len() - 1 implies !op(cell_at(#[trigger] pts[j])) by {
                assert(pts[j] == ray_point(origin, sx, sy, j));
            }
        }
    }
}

/// `v` lies between `a` and `b`, both included.
pub open spec fn between(a: int, v: int, b: int) -> bool {
    (a <= v <= b) || (b <= v <= a)
}

/// `p` lies in the rectangle of cells spanned by `a` and `b`.
pub open spec fn in_box(a: (int, int), b: (int, int), p: (int, int)) -> bool {
    between(a.0, p.0, b.0) && between(a.1, p.1, b.1)
}

/// A point of the rectangle spanned by two grid cells is a grid cell, and
/// names the cell it stands for.
pub proof fn lemma_box_cell(spec: GridMapSpec, a: IVec2, b: IVec2, p: (int, int))
    requires
        spec.contains(a.pt()),
        spec.contains(b.pt()),
        in_box(a.pt(), b.pt(), p),
    ensures
        spec.contains(p),
        cell_at(p).pt() == p,
        cell_at(p) == a <==> p == a.pt(),
        cell_at(p) == b <==> p == b.pt(),
{
}

/// Across a clear rectangle nothing but the target can hide it: when every
/// cell of the rectangle spanned by `origin` and `target`, other than those
/// two, is transparent, the target is seen exactly when it is the origin,
/// blockers are revealed, or it is transparent itself, whatever the corner
/// policy.
pub proof fn lemma_clear_box_sight(
    spec: GridMapSpec,
    origin: IVec2,
    target: IVec2,
    policy: GridCornerPolicy,
    reveal_blockers: bool,
    op: spec_fn(IVec2) -> bool,
)
    requires
        spec.contains(origin.pt()),
        spec.contains(target.pt()),
        forall|c: IVec2|
            in_box(origin.pt(), target.pt(), #[trigger] c.pt()) && c != origin && c != target
                ==> !op(c),
    ensures
        line_of_sight(spec, origin, target, policy, reveal_blockers, op) == (origin == target
            || reveal_blockers || !op(target)),
{
    let o = origin.pt();
    let t = target.pt();
    let pts = line_points(o, t);
    let sx = sgn(t.0 - o.0);
    let sy = sgn(t.1 - o.1);
    lemma_line_points_shape(o, t);
    if origin != target {
        assert forall|j: int| 0 <= j < pts.len() implies in_box(o, t, #[trigger] pts[j]) by {
            assert(abs_int(pts[j].0 - o.0) + abs_int(t.0 - pts[j].0) == abs_int(t.0 - o.0));
            assert(abs_int(pts[j].1 - o.1) + abs_int(t.1 - pts[j].1) == abs_int(t.1 - o.1));
        }
        assert forall|j: int| 0 <= j < pts.len() - 1 implies pts[j] != t by {
            assert(pts[j + 1] != pts[j]);
            assert(in_box(o, t, pts[j + 1]));
        }
        assert forall|j: int| 1 <= j < pts.len() implies pts[j] != o by {
            assert(pts[(j - 1) + 1] != pts[j - 1]);
            assert(in_box(o, t, pts[j - 1]));
        }
        assert forall|j: int| 1 <= j < pts.len() - 1 implies !op(cell_at(#[trigger] pts[j])) by {
            assert(pts[j] != t && pts[j] != o);
            lemma_box_cell(spec, origin, target, pts[j]);
            assert(in_box(o, t, cell_at(pts[j]).pt()));
        }
        assert forall|j: int| 0 <= j < pts.len() - 1 implies #[trigger] corner_clear(
            spec,
            policy,
            op,
            pts,
            sx,
            sy,
            j,
        ) by {
            assert(pts[j + 1] != pts[j]);
            assert(in_box(o, t, pts[j]));
            assert(in_box(o, t, pts[j + 1]));
            if diagonal_step(pts[j], pts[j + 1]) {
                let h = (pts[j].0 + sx, pts[j].1);
                let v = (pts[j].0, pts[j].1 + sy);
                assert(in_box(o, t, h) && h != o && h != t);
                assert(in_box(o, t, v) && v != o && v != t);
                lemma_box_cell(spec, origin, target, h);
                lemma_box_cell(spec, origin, target, v);
                assert(in_box(o, t, cell_at(h).pt()));
                assert(in_box(o, t, cell_at(v).pt()));
                assert(!blocks(spec, op, h));
                assert(!blocks(spec, op, v));
            }
        }
    }
}

/// What stops a line of sight: a cell strictly between origin and target
/// on the supercover line that is opaque, and a diagonal move of that line
/// from `pts[j]` to `pts[j + 1]` whose side cells `(pts[j].x + sx,
/// pts[j].y)` and `(pts[j].x, pts[j].y + sy)` block (are off the grid or
/// opaque): either of them under "either", both under "both".
pub proof fn lemma_sight_blockers(
    spec: GridMapSpec,
    origin: IVec2,
    target: IVec2,
    policy: GridCornerPolicy,
    reveal_blockers: bool,
    op: spec_fn(IVec2) -> bool,
    j: int,
)
    requires
        origin != target,
        0 <= j < line_points(origin.pt(), target.pt()).len() - 1,
    ensures
        ({
            let pts = line_points(origin.pt(), target.pt());
            let sx = sgn(target.x - origin.x);
            let sy = sgn(target.y - origin.y);
            let h = (pts[j].0 + sx, pts[j].1);
            let v = (pts[j].0, pts[j].1 + sy);
            let h_blocks = !spec.contains(h) || op(cell_at(h));
            let v_blocks = !spec.contains(v) || op(cell_at(v));
            let seen = line_of_sight(spec, origin, target, policy, reveal_blockers, op);
            &&& j >= 1 && op(cell_at(pts[j])) ==> !seen
            &&& pts[j].0 != pts[j + 1].0 && pts[j].1 != pts[j + 1].1 ==> {
                &&& policy == GridCornerPolicy::BlockIfEitherAdjacentWall && (h_blocks || v_blocks)
                    ==> !seen
                &&& policy == GridCornerPolicy::BlockIfBothAdjacentWalls && h_blocks && v_blocks
                    ==> !seen
            }
        }),
{
    let pts = line_points(origin.pt(), target.pt());
    let sx = sgn(target.x - origin.x);
    let sy = sgn(target.y - origin.y);
    if line_of_sight(spec, origin, target, policy, reveal_blockers, op) {
        assert(corner_clear(spec, policy, op, pts, sx, sy, j));
        if j >= 1 {
            assert(!op(cell_at(pts[j])));
        }
    }
}

/// `p` with its two coordinates exchanged.
pub open spec fn swap_pt(p: (int, int)) -> (int, int) {
    (p.1, p.0)
}

/// The cell mirrored across the main diagonal.
pub open spec fn transpose_cell(c: IVec2) -> IVec2 {
    IVec2 { x: c.y, y: c.x }
}

/// The grid with width and height exchanged.
pub open spec fn transpose_grid(spec: GridMapSpec) -> GridMapSpec {
    GridMapSpec { dimensions: UVec2 { x: spec.dimensions.y, y: spec.dimensions.x } }
}

/// The opacity of the mirrored map: a cell is opaque where its mirror image
/// was.
pub open spec fn transpose_opacity(op: spec_fn(IVec2) -> bool) -> spec_fn(IVec2) -> bool {
    |c: IVec2| op(transpose_cell(c))
}

/// The walk to `(ny, nx)` is the walk to `(nx, ny)` with the axes exchanged.
proof fn lemma_offsets_swap(nx: int, ny: int, ix: int, iy: int)
    requires
        0 <= ix <= nx,
        0 <= iy <= ny,
    ensures
        offsets_from(ny, nx, iy, ix) == offsets_from(nx, ny, ix, iy).map_values(
            |o: (int, int)| swap_pt(o),
        ),
    decreases (nx - ix) + (ny - iy),
{
    if ix < nx || iy < ny {
        assert(decision(ny, nx, iy, ix) == -decision(nx, ny, ix, iy));
        let n = next_offset(nx, ny, ix, iy);
        assert(next_offset(ny, nx, iy, ix) == swap_pt(n));
        lemma_next_offset_progress(nx, ny, ix, iy);
        lemma_offsets_unfold(nx, ny, ix, iy);
        lemma_offsets_unfold(ny, nx, iy, ix);
        lemma_offsets_swap(nx, ny, n.0, n.1);
        assert(offsets_from(ny, nx, iy, ix) =~= offsets_from(nx, ny, ix, iy).map_values(
            |o: (int, int)| swap_pt(o),
        ));
    } else {
        assert(offsets_from(ny, nx, iy, ix) =~= offsets_from(nx, ny, ix, iy).map_values(
            |o: (int, int)| swap_pt(o),
        ));
    }
}

/// The supercover line between mirrored points is the mirrored line.
pub proof fn lemma_line_points_swap(a: (int, int), b: (int, int))
    ensures
        line_points(swap_pt(a), swap_pt(b)) == line_points(a, b).map_values(
            |p: (int, int)| swap_pt(p),
        ),
{
    let nx = abs_int(b.0 - a.0);
    let ny = abs_int(b.1 - a.1);
    lemma_offsets_swap(nx, ny, 0, 0);
    assert(line_offsets(ny, nx) =~= line_offsets(nx, ny).map_values(|o: (int, int)| swap_pt(o)));
    assert(line_points(swap_pt(a), swap_pt(b)) =~= line_points(a, b).map_values(
        |p: (int, int)| swap_pt(p),
    ));
}

/// Line of sight does not depend on which axis is called `x`: mirroring the
/// grid, the opacity, the origin and the target across the main diagonal
/// keeps every answer, under every corner policy.
pub proof fn lemma_sight_transposes(
    spec: GridMapSpec,
    origin: IVec2,
    target: IVec2,
    policy: GridCornerPolicy,
    reveal_blockers: bool,
    op: spec_fn(IVec2) -> bool,
)
    ensures
        line_of_sight(
            transpose_grid(spec),
            transpose_cell(origin),
            transpose_cell(target),
            policy,
            reveal_blockers,
            transpose_opacity(op),
        ) == line_of_sight(spec, origin, target, policy, reveal_blockers, op),
{
    let spec2 = transpose_grid(spec);
    let op2 = transpose_opacity(op);
    let o = origin.pt();
    let t = target.pt();
    let o2 = transpose_cell(origin);
    let t2 = transpose_cell(target);
    let pts = line_points(o, t);
    let pts2 = line_points(o2.pt(), t2.pt());
    let sx = sgn(t.0 - o.0);
    let sy = sgn(t.1 - o.1);
    assert(o2.pt() == swap_pt(o) && t2.pt() == swap_pt(t));
    lemma_line_points_swap(o, t);
    assert(pts2.len() == pts.len());
    assert forall|p: (int, int)| #[trigger] blocks(spec2, op2, swap_pt(p)) == blocks(spec, op, p) by {
        assert(transpose_cell(cell_at(swap_pt(p))) == cell_at(p));
    }
    assert(op2(t2) == op(target)) by {
        assert(transpose_cell(t2) == target);
    }
    assert forall|j: int| 0 <= j < pts.len() - 1 implies #[trigger] corner_clear(
        spec2,
        policy,
        op2,
        pts2,
        sy,
        sx,
        j,
    ) == corner_clear(spec, policy, op, pts, sx, sy, j) by {
        assert(pts2[j] == swap_pt(pts[j]) && pts2[j + 1] == swap_pt(pts[j + 1]));
        assert((pts2[j].0 + sy, pts2[j].1) == swap_pt((pts[j].0, pts[j].1 + sy)));
        assert((pts2[j].0, pts2[j].1 + sx) == swap_pt((pts[j].0 + sx, pts[j].1)));
    }
    assert forall|j: int| 1 <= j < pts.len() - 1 implies #[trigger] op2(cell_at(pts2[j])) == op(
        cell_at(pts[j]),
    ) by {
        assert(pts2[j] == swap_pt(pts[j]));
        assert(transpose_cell(cell_at(swap_pt(pts[j]))) == cell_at(pts[j]));
    }
    assert(spec2.contains(o2.pt()) == spec.contains(o));
    assert(spec2.contains(t2.pt()) == spec.contains(t));
    assert((o2 == t2) == (origin == target));
    if line_of_sight(spec, origin, target, policy, reveal_blockers, op) && origin != target {
        assert forall|j: int| 0 <= j < pts2.len() - 1 implies #[trigger] corner_clear(
            spec2,
            policy,
            op2,
            pts2,
            sy,
            sx,
            j,
        ) by {
            assert(corner_clear(spec, policy, op, pts, sx, sy, j));
        }
        assert forall|j: int| 1 <= j < pts2.len() - 1 implies !op2(cell_at(#[trigger] pts2[j])) by {
            assert(!op(cell_at(pts[j])));
        }
    }
    if line_of_sight(spec2, o2, t2, policy, reveal_blockers, op2) && origin != target {
        assert forall|j: int| 0 <= j < pts.len() - 1 implies #[trigger] corner_clear(
            spec,
            policy,
            op,
            pts,
            sx,
            sy,
            j,
        ) by {
            assert(corner_clear(spec2, policy, op2, pts2, sy, sx, j));
        }
        assert forall|j: int| 1 <= j < pts.len() - 1 implies !op(cell_at(#[trigger] pts[j])) by {
            assert(!op2(cell_at(pts2[j])));
        }
    }
}

} // verus!
