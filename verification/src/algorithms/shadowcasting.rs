//! Recursive shadowcasting, and the public grid field-of-view entry point.

use vstd::prelude::*;

use crate::algorithms::los::{grid_line_of_sight, line_of_sight, lemma_reveal_blockers};
use crate::algorithms::opacity::{is_opacity_query, opacity_of, OpacityFn, OpacitySource};
use crate::algorithms::raycast::{
    before, effective_radius, lemma_dim_as_i32, raycast_tested, raycast_visibility, raycast_visible, within_radius,
};
use crate::algorithms::window::CellWindow;
use crate::geometry::{cell_at, lemma_cell_at_pt, saturate, strictly_sorted, IVec2};
use crate::grid::{GridFovBackend, GridFovConfig, GridFovResult, GridMapSpec};

verus! {

/// A slope `num / den` with `den > 0`.
pub type Slope = (int, int);

pub open spec fn slope_lt(a: Slope, b: Slope) -> bool {
    a.0 * b.1 < b.0 * a.1
}

/// Slope through the outer corner of cell `dx` in row `d` of an octant:
/// `(dx - 1/2) / (1/2 - d)`.
pub open spec fn left_slope(dx: int, d: int) -> Slope {
    (1 - 2 * dx, 2 * d - 1)
}

/// Slope through the inner corner of cell `dx` in row `d` of an octant:
/// `(dx + 1/2) / (-d - 1/2)`.
pub open spec fn right_slope(dx: int, d: int) -> Slope {
    (-2 * dx - 1, 2 * d + 1)
}

/// Maps octant-local `(col, row)` to grid offsets.
pub open spec fn octant_offset(col: int, row: int, octant: int) -> (int, int) {
    if octant == 0 {
        (col, row)
    } else if octant == 1 {
        (row, col)
    } else if octant == 2 {
        (row, -col)
    } else if octant == 3 {
        (col, -row)
    } else if octant == 4 {
        (-col, -row)
    } else if octant == 5 {
        (-row, -col)
    } else if octant == 6 {
        (-row, col)
    } else {
        (-col, row)
    }
}

/// The grid point scanned at column `dx` of row `d` in `octant`.
pub open spec fn scan_point(origin: IVec2, octant: int, dx: int, d: int) -> (int, int) {
    let off = octant_offset(dx, -d, octant);
    (origin.x + off.0, origin.y + off.1)
}

/// Scanning state: the cells found so far and how many cells were examined.
pub type ScanState = (Set<IVec2>, nat);

/// State after scanning one cell: the cell is recorded when it lies on the
/// grid within the radius, and the examined count grows by one.
pub open spec fn record_cell(
    spec: GridMapSpec,
    origin: IVec2,
    radius: int,
    octant: int,
    dx: int,
    d: int,
    st: ScanState,
) -> ScanState {
    let p = scan_point(origin, octant, dx, d);
    let seen = within_radius((0, 0), (dx, -d), radius) && spec.contains(p);
    (if seen {
        st.0.insert(cell_at(p))
    } else {
        st.0
    }, st.1 + 1)
}

/// Scans rows `row..=radius` of `octant` between slopes `start` and `end`.
pub open spec fn shadow_cast(
    spec: GridMapSpec,
    origin: IVec2,
    radius: int,
    octant: int,
    op: spec_fn(IVec2) -> bool,
    row: int,
    start: Slope,
    end: Slope,
    st: ScanState,
) -> ScanState
    decreases radius + 1 - row, 2int, 0int,
{
    if slope_lt(start, end) {
        st
    } else {
        shadow_rows(spec, origin, radius, octant, op, row, start, start, end, st)
    }
}

/// Scans rows from `distance` on; stops after a row that ends blocked.
pub open spec fn shadow_rows(
    spec: GridMapSpec,
    origin: IVec2,
    radius: int,
    octant: int,
    op: spec_fn(IVec2) -> bool,
    distance: int,
    start: Slope,
    next_start: Slope,
    end: Slope,
    st: ScanState,
) -> ScanState
    decreases radius + 1 - distance, 1int, 0int,
{
    if distance > radius {
        st
    } else {
        let r = shadow_row(
            spec,
            origin,
            radius,
            octant,
            op,
            distance,
            -distance,
            start,
            next_start,
            end,
            false,
            st,
        );
        if r.2 {
            r.3
        } else {
            shadow_rows(spec, origin, radius, octant, op, distance + 1, r.0, r.1, end, r.3)
        }
    }
}

/// Scans row `distance` from column `dx` to column 0; returns the slopes,
/// whether the row ended in a blocker, and the state.
pub open spec fn shadow_row(
    spec: GridMapSpec,
    origin: IVec2,
    radius: int,
    octant: int,
    op: spec_fn(IVec2) -> bool,
    distance: int,
    dx: int,
    start: Slope,
    next_start: Slope,
    end: Slope,
    blocked: bool,
    st: ScanState,
) -> (Slope, Slope, bool, ScanState)
    decreases radius + 1 - distance, 0int, 1 - dx,
{
    if dx > 0 {
        (start, next_start, blocked, st)
    } else {
        let left = left_slope(dx, distance);
        let right = right_slope(dx, distance);
        if slope_lt(start, right) {
            shadow_row(
                spec,
                origin,
                radius,
                octant,
                op,
                distance,
                dx + 1,
                start,
                next_start,
                end,
                blocked,
                st,
            )
        } else if slope_lt(left, end) {
            (start, next_start, blocked, st)
        } else {
            let p = scan_point(origin, octant, dx, distance);
            let opaque = !spec.contains(p) || op(cell_at(p));
            let st1 = record_cell(spec, origin, radius, octant, dx, distance, st);
            if blocked {
                if opaque {
                    shadow_row(
                        spec,
                        origin,
                        radius,
                        octant,
                        op,
                        distance,
                        dx + 1,
                        start,
                        right,
                        end,
                        true,
                        st1,
                    )
                } else {
                    shadow_row(
                        spec,
                        origin,
                        radius,
                        octant,
                        op,
                        distance,
                        dx + 1,
                        next_start,
                        next_start,
                        end,
                        false,
                        st1,
                    )
                }
            } else if opaque && distance < radius {
                let st2 = shadow_cast(
                    spec,
                    origin,
                    radius,
                    octant,
                    op,
                    distance + 1,
                    start,
                    left,
                    st1,
                );
                shadow_row(
                    spec,
                    origin,
                    radius,
                    octant,
                    op,
                    distance,
                    dx + 1,
                    start,
                    right,
                    end,
                    true,
                    st2,
                )
            } else {
                shadow_row(
                    spec,
                    origin,
                    radius,
                    octant,
                    op,
                    distance,
                    dx + 1,
                    start,
                    next_start,
                    end,
                    false,
                    st1,
                )
            }
        }
    }
}

/// The state after scanning octants `0..n` from the origin, starting with
/// the origin found and counted.
pub open spec fn shadow_octants(
    spec: GridMapSpec,
    origin: IVec2,
    radius: int,
    op: spec_fn(IVec2) -> bool,
    n: int,
) -> ScanState
    decreases n,
{
    if n <= 0 {
        (set![origin], 1)
    } else {
        shadow_cast(
            spec,
            origin,
            radius,
            n - 1,
            op,
            1,
            (1, 1),
            (0, 1),
            shadow_octants(spec, origin, radius, op, n - 1),
        )
    }
}

/// Scanning only adds cells and only increases the examined count.
pub proof fn lemma_cast_grows(
    spec: GridMapSpec,
    origin: IVec2,
    radius: int,
    octant: int,
    op: spec_fn(IVec2) -> bool,
    row: int,
    start: Slope,
    end: Slope,
    st: ScanState,
)
    ensures
        ({
            let r = shadow_cast(spec, origin, radius, octant, op, row, start, end, st);
            r.1 >= st.1 && st.0.subset_of(r.0)
        }),
    decreases radius + 1 - row, 2int, 0int,
{
    if !slope_lt(start, end) {
        lemma_rows_grow(spec, origin, radius, octant, op, row, start, start, end, st);
    }
}

pub proof fn lemma_rows_grow(
    spec: GridMapSpec,
    origin: IVec2,
    radius: int,
    octant: int,
    op: spec_fn(IVec2) -> bool,
    distance: int,
    start: Slope,
    next_start: Slope,
    end: Slope,
    st: ScanState,
)
    ensures
        ({
            let r = shadow_rows(spec, origin, radius, octant, op, distance, start, next_start, end, st);
            r.1 >= st.1 && st.0.subset_of(r.0)
        }),
    decreases radius + 1 - distance, 1int, 0int,
{
    if distance <= radius {
        let r = shadow_row(
            spec,
            origin,
            radius,
            octant,
            op,
            distance,
            -distance,
            start,
            next_start,
            end,
            false,
            st,
        );
        lemma_row_grows(
            spec,
            origin,
            radius,
            octant,
            op,
            distance,
            -distance,
            start,
            next_start,
            end,
            false,
            st,
        );
        if !r.2 {
            lemma_rows_grow(spec, origin, radius, octant, op, distance + 1, r.0, r.1, end, r.3);
        }
    }
}

pub proof fn lemma_row_grows(
    spec: GridMapSpec,
    origin: IVec2,
    radius: int,
    octant: int,
    op: spec_fn(IVec2) -> bool,
    distance: int,
    dx: int,
    start: Slope,
    next_start: Slope,
    end: Slope,
    blocked: bool,
    st: ScanState,
)
    ensures
        ({
            let r = shadow_row(
                spec,
                origin,
                radius,
                octant,
                op,
                distance,
                dx,
                start,
                next_start,
                end,
                blocked,
                st,
            );
            r.3.1 >= st.1 && st.0.subset_of(r.3.0)
        }),
    decreases radius + 1 - distance, 0int, 1 - dx,
{
    if dx <= 0 {
        let left = left_slope(dx, distance);
        let right = right_slope(dx, distance);
        if slope_lt(start, right) {
            lemma_row_grows(
                spec,
                origin,
                radius,
                octant,
                op,
                distance,
                dx + 1,
                start,
                next_start,
                end,
                blocked,
                st,
            );
        } else if !slope_lt(left, end) {
            let p = scan_point(origin, octant, dx, distance);
            let opaque = !spec.contains(p) || op(cell_at(p));
            let st1 = record_cell(spec, origin, radius, octant, dx, distance, st);
            if blocked {
                if opaque {
                    lemma_row_grows(
                        spec,
                        origin,
                        radius,
                        octant,
                        op,
                        distance,
                        dx + 1,
                        start,
                        right,
                        end,
                        true,
                        st1,
                    );
                } else {
                    lemma_row_grows(
                        spec,
                        origin,
                        radius,
                        octant,
                        op,
                        distance,
                        dx + 1,
                        next_start,
                        next_start,
                        end,
                        false,
                        st1,
                    );
                }
            } else if opaque && distance < radius {
                let st2 = shadow_cast(
                    spec,
                    origin,
                    radius,
                    octant,
                    op,
                    distance + 1,
                    start,
                    left,
                    st1,
                );
                lemma_cast_grows(spec, origin, radius, octant, op, distance + 1, start, left, st1);
                lemma_row_grows(
                    spec,
                    origin,
                    radius,
                    octant,
                    op,
                    distance,
                    dx + 1,
                    start,
                    right,
                    end,
                    true,
                    st2,
                );
            } else {
                lemma_row_grows(
                    spec,
                    origin,
                    radius,
                    octant,
                    op,
                    distance,
                    dx + 1,
                    start,
                    next_start,
                    end,
                    false,
                    st1,
                );
            }
        }
    }
}

/// An executable slope: numerator and positive denominator.
pub type ExecSlope = (i64, i64);

pub open spec fn slope_view(s: ExecSlope) -> Slope {
    (s.0 as int, s.1 as int)
}

/// The slope's parts are small enough for exact comparison.
pub open spec fn slope_ok(s: ExecSlope, radius: int) -> bool {
    -(2 * radius + 1) <= s.0 <= 2 * radius + 1 && 1 <= s.1 <= 2 * radius + 1
}

fn slope_less(a: ExecSlope, b: ExecSlope, radius: Ghost<int>) -> (r: bool)
    requires
        0 <= radius@ <= 46340,
        slope_ok(a, radius@),
        slope_ok(b, radius@),
    ensures
        r == slope_lt(slope_view(a), slope_view(b)),
{
    assert(-8589767761 <= a.0 * b.1 <= 8589767761) by (nonlinear_arith)
        requires
            -92681 <= a.0 <= 92681,
            1 <= b.1 <= 92681,
    ;
    assert(-8589767761 <= b.0 * a.1 <= 8589767761) by (nonlinear_arith)
        requires
            -92681 <= b.0 <= 92681,
            1 <= a.1 <= 92681,
    ;
    a.0 * b.1 < b.0 * a.1
}

fn transform_octant(col: i32, row: i32, octant: u8) -> (r: (i32, i32))
    requires
        octant < 8,
        col > i32::MIN,
        row > i32::MIN,
    ensures
        (r.0 as int, r.1 as int) == octant_offset(col as int, row as int, octant as int),
{
    match octant {
        0 => (col, row),
        1 => (row, col),
        2 => (row, -col),
        3 => (col, -row),
        4 => (-col, -row),
        5 => (-row, -col),
        6 => (-row, col),
        _ => (-col, row),
    }
}

/// The window holds a mark for every in-bounds cell within `radius` of
/// `origin` along both axes, and the scan's coordinates fit in `i32`.
pub(crate) open spec fn scan_frame(
    spec: GridMapSpec,
    origin: IVec2,
    radius: int,
    window: CellWindow,
) -> bool {
    &&& 0 <= radius <= 46340
    &&& spec.contains(origin.pt())
    &&& origin.x + radius <= i32::MAX
    &&& origin.y + radius <= i32::MAX
    &&& window.wf()
    &&& forall|c: IVec2|
        spec.contains(c.pt()) && origin.x - radius <= c.x <= origin.x + radius && origin.y - radius
            <= c.y <= origin.y + radius ==> #[trigger] window.covers(c)
}

pub(crate) open spec fn same_frame(a: CellWindow, b: CellWindow) -> bool {
    &&& a.wf()
    &&& a.min_x == b.min_x
    &&& a.min_y == b.min_y
    &&& a.width == b.width
    &&& a.height == b.height
}

/// A window with the same frame as one that covers the scan covers it too.
pub(crate) proof fn lemma_frame_kept(
    spec: GridMapSpec,
    origin: IVec2,
    radius: int,
    a: CellWindow,
    b: CellWindow,
)
    requires
        scan_frame(spec, origin, radius, a),
        same_frame(b, a),
    ensures
        scan_frame(spec, origin, radius, b),
{
    assert forall|c: IVec2|
        spec.contains(c.pt()) && origin.x - radius <= c.x <= origin.x + radius && origin.y - radius
            <= c.y <= origin.y + radius implies #[trigger] b.covers(c) by {
        assert(a.covers(c));
    }
}

/// Scans rows `row..=radius` of `octant` between `start_slope` and
/// `end_slope`, marking the cells found in `window` and counting the cells
/// examined (the count stops at `usize::MAX`); `count` is the exact count so
/// far.
#[verifier::rlimit(50)]
fn cast_light<Q: OpacitySource>(
    spec: &GridMapSpec,
    origin: IVec2,
    radius: i32,
    row: i32,
    start_slope: ExecSlope,
    end_slope: ExecSlope,
    octant: u8,
    window: &mut CellWindow,
    cells_considered: &mut usize,
    count: Ghost<nat>,
    is_opaque: &Q,
)
    requires
        is_opaque.ready(),
        scan_frame(*spec, origin, radius as int, *old(window)),
        1 <= row <= radius + 1,
        octant < 8,
        slope_ok(start_slope, radius as int),
        slope_ok(end_slope, radius as int),
        *old(cells_considered) == saturate(count@ as int),
    ensures
        same_frame(*final(window), *old(window)),
        ({
            let r = shadow_cast(
                *spec,
                origin,
                radius as int,
                octant as int,
                is_opaque.opacity(),
                row as int,
                slope_view(start_slope),
                slope_view(end_slope),
                (old(window).view(), count@),
            );
            final(window).view() == r.0 && *final(cells_considered) == saturate(r.1 as int)
        }),
    decreases radius + 1 - row,
{
    let ghost op = is_opaque.opacity();
    let ghost r = radius as int;
    let ghost oct = octant as int;
    let ghost end = slope_view(end_slope);
    let ghost mut n: nat = count@;
    let ghost total = shadow_cast(
        *spec,
        origin,
        r,
        oct,
        op,
        row as int,
        slope_view(start_slope),
        end,
        (window.view(), n),
    );
    if slope_less(start_slope, end_slope, Ghost(r)) {
        return;
    }
    let mut start = start_slope;
    let mut next_start = start_slope;
    let mut distance = row;
    while distance <= radius
        invariant_except_break
            total == shadow_rows(
                *spec,
                origin,
                r,
                oct,
                op,
                distance as int,
                slope_view(start),
                slope_view(next_start),
                end,
                (window.view(), n),
            ),
        invariant
            is_opaque.ready(),
            op == is_opaque.opacity(),
            r == radius,
            oct == octant,
            octant < 8,
            end == slope_view(end_slope),
            scan_frame(*spec, origin, r, *window),
            same_frame(*window, *old(window)),
            scan_frame(*spec, origin, r, *old(window)),
            1 <= row <= distance <= radius + 1,
            slope_ok(start, r),
            slope_ok(next_start, r),
            slope_ok(end_slope, r),
            *cells_considered == saturate(n as int),
        ensures
            same_frame(*window, *old(window)),
            total == (window.view(), n),
            *cells_considered == saturate(n as int),
        decreases radius + 1 - distance,
    {
        let mut blocked = false;
        let mut dx: i32 = -distance;
        let ghost row_result = shadow_row(
            *spec,
            origin,
            r,
            oct,
            op,
            distance as int,
            -distance,
            slope_view(start),
            slope_view(next_start),
            end,
            false,
            (window.view(), n),
        );
        while dx <= 0
            invariant
                is_opaque.ready(),
                op == is_opaque.opacity(),
                r == radius,
                oct == octant,
                octant < 8,
                end == slope_view(end_slope),
                scan_frame(*spec, origin, r, *window),
                same_frame(*window, *old(window)),
                scan_frame(*spec, origin, r, *old(window)),
                1 <= row <= distance <= radius,
                -distance <= dx <= 1,
                slope_ok(start, r),
                slope_ok(next_start, r),
                slope_ok(end_slope, r),
                *cells_considered == saturate(n as int),
                row_result == shadow_row(
                    *spec,
                    origin,
                    r,
                    oct,
                    op,
                    distance as int,
                    dx as int,
                    slope_view(start),
                    slope_view(next_start),
                    end,
                    blocked,
                    (window.view(), n),
                ),
            ensures
                scan_frame(*spec, origin, r, *window),
                same_frame(*window, *old(window)),
                slope_ok(start, r),
                slope_ok(next_start, r),
                *cells_considered == saturate(n as int),
                row_result == (slope_view(start), slope_view(next_start), blocked, (window.view(), n)),
            decreases 1 - dx,
        {
            let left: ExecSlope = (1 - 2 * dx as i64, 2 * distance as i64 - 1);
            let right: ExecSlope = (-2 * dx as i64 - 1, 2 * distance as i64 + 1);
            assert(slope_view(left) == left_slope(dx as int, distance as int));
            assert(slope_view(right) == right_slope(dx as int, distance as int));
            if slope_less(start, right, Ghost(r)) {
                dx += 1;
            } else if slope_less(left, end_slope, Ghost(r)) {
                break;
            } else {
                let (mx, my) = transform_octant(dx, -distance, octant);
                let cell = IVec2::new(origin.x + mx, origin.y + my);
                let ghost st = (window.view(), n);
                let ghost st1 = record_cell(*spec, origin, r, oct, dx as int, distance as int, st);
                proof {
                    assert(cell.pt() == scan_point(origin, oct, dx as int, distance as int));
                    lemma_cell_at_pt(cell);
                }
                *cells_considered = cells_considered.saturating_add(1);
                proof {
                    n = n + 1;
                }
                let dxl = dx as i64;
                let dl = distance as i64;
                let rl = radius as i64;
                assert(0 <= dxl * dxl <= 2147395600 && 0 <= dl * dl <= 2147395600 && 0 <= rl * rl
                    <= 2147395600) by (nonlinear_arith)
                    requires
                        -dl <= dxl <= 0,
                        0 <= dl <= rl,
                        rl <= 46340,
                ;
                let in_radius = dxl * dxl + dl * dl <= rl * rl;
                let in_bounds = spec.in_bounds(cell);
                let opaque = !in_bounds || is_opaque.query_cell(cell);
                if in_radius && in_bounds {
                    window.insert(cell);
                }
                proof {
                    assert((-(distance as int)) * (-(distance as int)) == (distance as int) * (
                    distance as int)) by (nonlinear_arith);
                    assert(window.view() =~= st1.0);
                    lemma_frame_kept(*spec, origin, r, *old(window), *window);
                }
                if blocked {
                    if opaque {
                        next_start = right;
                    } else {
                        blocked = false;
                        start = next_start;
                    }
                } else if opaque && distance < radius {
                    blocked = true;
                    let ghost inner = shadow_cast(
                        *spec,
                        origin,
                        r,
                        oct,
                        op,
                        distance + 1,
                        slope_view(start),
                        slope_view(left),
                        st1,
                    );
                    cast_light(
                        spec,
                        origin,
                        radius,
                        distance + 1,
                        start,
                        left,
                        octant,
                        window,
                        cells_considered,
                        Ghost(n),
                        is_opaque,
                    );
                    proof {
                        n = inner.1;
                    }
                    next_start = right;
                    proof {
                        lemma_frame_kept(*spec, origin, r, *old(window), *window);
                    }
                }
                dx += 1;
            }
        }
        if blocked {
            break;
        }
        distance += 1;
    }
}

/// The cells shadowcasting finds around `origin`, and how many cells it
/// examines, over all eight octants.
pub open spec fn shadow_candidates(
    spec: GridMapSpec,
    origin: IVec2,
    config: GridFovConfig,
    op: spec_fn(IVec2) -> bool,
) -> ScanState {
    shadow_octants(spec, origin, effective_radius(config), op, 8)
}

/// The cells the shadowcasting backend reports: the cells it finds that the
/// origin can see, and the origin itself.
pub open spec fn shadow_visible(
    spec: GridMapSpec,
    origin: IVec2,
    config: GridFovConfig,
    op: spec_fn(IVec2) -> bool,
) -> Set<IVec2> {
    shadow_candidates(spec, origin, config, op).0.filter(
        |c: IVec2|
            c == origin || line_of_sight(
                spec,
                origin,
                c,
                config.corner_policy,
                config.reveal_blockers,
                op,
            ),
    )
}

/// Inputs the shadowcasting backend handles: a radius whose square fits in
/// `i32`, a scan that stays within `i32` coordinates, and a scratch window
/// that fits in memory.
pub open spec fn shadow_ready(origin: IVec2, config: GridFovConfig) -> bool {
    let r = effective_radius(config);
    &&& r <= 46340
    &&& origin.x + r <= i32::MAX
    &&& origin.y + r <= i32::MAX
    &&& (2 * r + 1) * (2 * r + 1) <= usize::MAX
}

/// Inputs the ray-cast backend handles: the scanned box stays within `i32`
/// coordinates, and each grid dimension read as an `i32` has a last index.
pub open spec fn raycast_ready(spec: GridMapSpec, origin: IVec2, config: GridFovConfig) -> bool {
    let r = effective_radius(config);
    &&& origin.x + r <= i32::MAX
    &&& origin.y + r <= i32::MAX
    &&& spec.dimensions.x != 0x8000_0000
    &&& spec.dimensions.y != 0x8000_0000
}

proof fn lemma_octants_grow(
    spec: GridMapSpec,
    origin: IVec2,
    radius: int,
    op: spec_fn(IVec2) -> bool,
    n: int,
)
    requires
        0 <= n <= 8,
    ensures
        shadow_octants(spec, origin, radius, op, n).1 <= shadow_octants(spec, origin, radius, op, 8).1,
    decreases 8 - n,
{
    if n < 8 {
        lemma_cast_grows(
            spec,
            origin,
            radius,
            n,
            op,
            1,
            (1, 1),
            (0, 1),
            shadow_octants(spec, origin, radius, op, n),
        );
        lemma_octants_grow(spec, origin, radius, op, n + 1);
    }
}

/// Lists the found cells in row-major order, keeping the origin and every
/// cell the origin can see.
fn finalize_visibility<Q: OpacitySource>(
    spec: &GridMapSpec,
    origin: IVec2,
    config: &GridFovConfig,
    window: &CellWindow,
    is_opaque: &Q,
    cells_considered: usize,
) -> (r: GridFovResult)
    requires
        is_opaque.ready(),
        window.wf(),
        window.min_x + window.width <= i32::MAX + 1,
        window.min_y + window.height <= i32::MAX + 1,
    ensures
        r.cells_considered == cells_considered,
        strictly_sorted(r.visible_cells@),
        r.visible_cells@.to_set() == window.view().filter(
            |c: IVec2|
                c == origin || line_of_sight(
                    *spec,
                    origin,
                    c,
                    config.corner_policy,
                    config.reveal_blockers,
                    is_opaque.opacity(),
                ),
        ),
{
    let ghost op = is_opaque.opacity();
    let ghost target = window.view().filter(
        |c: IVec2|
            c == origin || line_of_sight(
                *spec,
                origin,
                c,
                config.corner_policy,
                config.reveal_blockers,
                op,
            ),
    );
    let mut final_cells: Vec<IVec2> = Vec::new();
    let min_x = window.min_x as i64;
    let min_y = window.min_y as i64;
    let end_x = window.min_x as i64 + window.width as i64;
    let end_y = window.min_y as i64 + window.height as i64;
    let mut y = min_y;
    while y < end_y
        invariant
            is_opaque.ready(),
            op == is_opaque.opacity(),
            window.wf(),
            min_x == window.min_x,
            min_y == window.min_y,
            end_x == window.min_x + window.width,
            end_y == window.min_y + window.height,
            target == window.view().filter(
                |c: IVec2|
                    c == origin || line_of_sight(
                        *spec,
                        origin,
                        c,
                        config.corner_policy,
                        config.reveal_blockers,
                        op,
                    ),
            ),
            min_y <= y,
            y == min_y || y <= end_y,
            end_x <= i32::MAX + 1,
            end_y <= i32::MAX + 1,
            strictly_sorted(final_cells@),
            forall|c: IVec2| #[trigger]
                final_cells@.contains(c) <==> (target.contains(c) && c.y < y),
            forall|i: int| 0 <= i < final_cells@.len() ==> (#[trigger] final_cells@[i]).y < y,
        decreases end_y - y,
    {
        let mut x = min_x;
        while x < end_x
            invariant
                is_opaque.ready(),
                op == is_opaque.opacity(),
                window.wf(),
                min_x == window.min_x,
                min_y == window.min_y,
                end_x == window.min_x + window.width,
                end_y == window.min_y + window.height,
                target == window.view().filter(
                    |c: IVec2|
                        c == origin || line_of_sight(
                            *spec,
                            origin,
                            c,
                            config.corner_policy,
                            config.reveal_blockers,
                            op,
                        ),
                ),
                min_y <= y < end_y,
                min_x <= x,
                end_x <= i32::MAX + 1,
                end_y <= i32::MAX + 1,
                x == min_x || x <= end_x,
                strictly_sorted(final_cells@),
                forall|c: IVec2| #[trigger]
                    final_cells@.contains(c) <==> (target.contains(c) && before(
                        c,
                        x as int,
                        y as int,
                    )),
                forall|i: int|
                    0 <= i < final_cells@.len() ==> before(
                        #[trigger] final_cells@[i],
                        x as int,
                        y as int,
                    ),
            decreases end_x - x,
        {
            let cell = IVec2::new(x as i32, y as i32);
            let ghost old_cells = final_cells@;
            assert(cell.x == x && cell.y == y);
            assert(window.covers(cell));
            let ghost mut pushed = false;
            if window.is_marked(cell) {
                let mut keep = true;
                if cell != origin && !grid_line_of_sight(
                    spec,
                    origin,
                    cell,
                    config.corner_policy,
                    config.reveal_blockers,
                    is_opaque,
                ) {
                    keep = false;
                } else if cell != origin && !config.reveal_blockers && is_opaque.query_cell(cell) {
                    proof {
                        lemma_reveal_blockers(*spec, origin, cell, config.corner_policy, op);
                    }
                    keep = false;
                }
                if keep {
                    final_cells.push(cell);
                    proof {
                        pushed = true;
                    }
                }
            }
            proof {
                assert(pushed <==> target.contains(cell));
                assert(final_cells@ == if pushed {
                    old_cells.push(cell)
                } else {
                    old_cells
                });
                assert(!old_cells.contains(cell));
                assert forall|c: IVec2| #[trigger]
                    final_cells@.contains(c) <==> (target.contains(c) && before(
                        c,
                        x + 1,
                        y as int,
                    )) by {
                    if c != cell {
                        assert(before(c, x as int, y as int) == before(c, x + 1, y as int));
                        if pushed {
                            if final_cells@.contains(c) {
                                let i = choose|i: int|
                                    0 <= i < final_cells@.len() && final_cells@[i] == c;
                                assert(i < old_cells.len());
                                assert(old_cells[i] == c);
                                assert(old_cells.contains(c));
                            }
                            if old_cells.contains(c) {
                                let i = choose|i: int| 0 <= i < old_cells.len() && old_cells[i] == c;
                                assert(final_cells@[i] == c);
                            }
                        }
                    } else {
                        if pushed {
                            assert(final_cells@[final_cells@.len() - 1] == cell);
                        }
                    }
                }
            }
            x += 1;
        }
        y += 1;
    }
    proof {
        assert forall|c: IVec2| #[trigger]
            final_cells@.to_set().contains(c) <==> target.contains(c) by {
            assert(final_cells@.to_set().contains(c) == final_cells@.contains(c));
            if target.contains(c) {
                assert(window.covers(c));
            }
        }
        assert(final_cells@.to_set() =~= target);
    }
    GridFovResult { visible_cells: final_cells, cells_considered }
}

/// The shadowcasting field of view from an in-bounds origin.
fn recursive_shadowcasting<Q: OpacitySource>(
    spec: &GridMapSpec,
    origin: IVec2,
    config: &GridFovConfig,
    is_opaque: &Q,
) -> (r: GridFovResult)
    requires
        is_opaque.ready(),
        spec.contains(origin.pt()),
        shadow_ready(origin, *config),
    ensures
        strictly_sorted(r.visible_cells@),
        r.visible_cells@.to_set() == shadow_visible(*spec, origin, *config, is_opaque.opacity()),
        r.cells_considered == saturate(
            shadow_candidates(*spec, origin, *config, is_opaque.opacity()).1 as int,
        ),
{
    let ghost op = is_opaque.opacity();
    let radius: i32 = if config.radius > 0 {
        config.radius
    } else {
        0
    };
    let ghost r = radius as int;
    let lo_x = origin.x - radius;
    let min_x = if lo_x > 0 {
        lo_x
    } else {
        0
    };
    let last_x = spec.dimensions.x as i64 - 1;
    let max_x: i32 = if (origin.x + radius) as i64 <= last_x {
        origin.x + radius
    } else {
        last_x as i32
    };
    let lo_y = origin.y - radius;
    let min_y = if lo_y > 0 {
        lo_y
    } else {
        0
    };
    let last_y = spec.dimensions.y as i64 - 1;
    let max_y: i32 = if (origin.y + radius) as i64 <= last_y {
        origin.y + radius
    } else {
        last_y as i32
    };
    let width = (max_x - min_x + 1) as usize;
    let height = (max_y - min_y + 1) as usize;
    assert(width * height <= (2 * r + 1) * (2 * r + 1)) by (nonlinear_arith)
        requires
            1 <= width <= 2 * r + 1,
            1 <= height <= 2 * r + 1,
    ;
    let mut window = CellWindow::new(min_x, min_y, width, height);
    window.insert(origin);
    let mut cells_considered: usize = 1;
    let ghost mut n: nat = 1;
    proof {
        assert(window.view() =~= set![origin]);
        assert(scan_frame(*spec, origin, r, window));
    }

    let mut octant: u8 = 0;
    while octant < 8
        invariant
            is_opaque.ready(),
            op == is_opaque.opacity(),
            r == radius,
            r == effective_radius(*config),
            0 <= octant <= 8,
            shadow_ready(origin, *config),
            scan_frame(*spec, origin, r, window),
            window.min_x == min_x,
            window.min_y == min_y,
            window.width == width,
            window.height == height,
            min_x + width <= i32::MAX + 1,
            min_y + height <= i32::MAX + 1,
            (window.view(), n) == shadow_octants(*spec, origin, r, op, octant as int),
            cells_considered == saturate(n as int),
        decreases 8 - octant,
    {
        let ghost before_window = window;
        let ghost next = shadow_octants(*spec, origin, r, op, octant + 1);
        cast_light(
            spec,
            origin,
            radius,
            1,
            (1, 1),
            (0, 1),
            octant,
            &mut window,
            &mut cells_considered,
            Ghost(n),
            is_opaque,
        );
        proof {
            lemma_frame_kept(*spec, origin, r, before_window, window);
            n = next.1;
        }
        octant += 1;
    }
    finalize_visibility(spec, origin, config, &window, is_opaque, cells_considered)
}

/// Inputs the chosen backend handles, for an origin on the grid.
pub open spec fn fov_ready(spec: GridMapSpec, origin: IVec2, config: GridFovConfig) -> bool {
    spec.contains(origin.pt()) ==> match config.backend {
        GridFovBackend::RecursiveShadowcasting => shadow_ready(origin, config),
        GridFovBackend::RaycastLos => raycast_ready(spec, origin, config),
    }
}

/// Whether the chosen backend handles `origin` on `spec` with `config`.
pub fn fov_is_ready(spec: GridMapSpec, origin: IVec2, config: &GridFovConfig) -> (r: bool)
    ensures
        r == fov_ready(spec, origin, *config),
{
    if !spec.in_bounds(origin) {
        return true;
    }
    let radius: i64 = if config.radius > 0 {
        config.radius as i64
    } else {
        0
    };
    let fits = origin.x as i64 + radius <= i32::MAX as i64 && origin.y as i64 + radius
        <= i32::MAX as i64;
    match config.backend {
        GridFovBackend::RecursiveShadowcasting => {
            if radius > 46340 || !fits {
                false
            } else {
                let width = (2 * radius + 1) as u64;
                assert(width * width <= 92681 * 92681) by (nonlinear_arith)
                    requires
                        width <= 92681,
                ;
                width * width <= usize::MAX as u64
            }
        },
        GridFovBackend::RaycastLos => fits && spec.dimensions.x != 0x8000_0000
            && spec.dimensions.y != 0x8000_0000,
    }
}

/// The cells the chosen backend finds visible from `origin`, where `op`
/// says which cells block sight; none for an origin off the grid.
pub open spec fn fov_cells(
    spec: GridMapSpec,
    origin: IVec2,
    config: GridFovConfig,
    op: spec_fn(IVec2) -> bool,
) -> Set<IVec2> {
    if !spec.contains(origin.pt()) {
        Set::empty()
    } else {
        match config.backend {
            GridFovBackend::RecursiveShadowcasting => shadow_visible(spec, origin, config, op),
            GridFovBackend::RaycastLos => raycast_visible(spec, origin, config, op),
        }
    }
}

/// How many cells the chosen backend examines from `origin`, capped at
/// `usize::MAX`; none for an origin off the grid.
pub open spec fn fov_work(
    spec: GridMapSpec,
    origin: IVec2,
    config: GridFovConfig,
    op: spec_fn(IVec2) -> bool,
) -> int {
    if !spec.contains(origin.pt()) {
        0
    } else {
        match config.backend {
            GridFovBackend::RecursiveShadowcasting => saturate(
                shadow_candidates(spec, origin, config, op).1 as int,
            ),
            GridFovBackend::RaycastLos => saturate(
                (1 + raycast_tested(spec, origin, config).len()) as int,
            ),
        }
    }
}

/// The cells visible from `origin` on the grid `spec`, in row-major order,
/// with opacity from any opacity source.  An origin off the grid sees
/// nothing.
pub fn grid_fov<Q: OpacitySource>(
    spec: GridMapSpec,
    origin: IVec2,
    config: &GridFovConfig,
    is_opaque: &Q,
) -> (r: GridFovResult)
    requires
        is_opaque.ready(),
        fov_ready(spec, origin, *config),
    ensures
        strictly_sorted(r.visible_cells@),
        r.visible_cells@.to_set() == fov_cells(spec, origin, *config, is_opaque.opacity()),
        r.cells_considered == fov_work(spec, origin, *config, is_opaque.opacity()),
{
    if !spec.in_bounds(origin) {
        return GridFovResult::empty();
    }
    match config.backend {
        GridFovBackend::RecursiveShadowcasting => recursive_shadowcasting(
            &spec,
            origin,
            config,
            is_opaque,
        ),
        GridFovBackend::RaycastLos => raycast_visibility(&spec, origin, config, is_opaque),
    }
}

/// The cells visible from `origin` on the grid `spec`, in row-major order,
/// where `is_opaque` says which cells block sight.  An origin off the grid
/// sees nothing.
pub fn compute_grid_fov<F: Fn(IVec2) -> bool>(
    spec: GridMapSpec,
    origin: IVec2,
    config: &GridFovConfig,
    is_opaque: F,
) -> (r: GridFovResult)
    requires
        is_opacity_query(is_opaque),
        fov_ready(spec, origin, *config),
    ensures
        strictly_sorted(r.visible_cells@),
        r.visible_cells@.to_set() == fov_cells(spec, origin, *config, opacity_of(is_opaque)),
        r.cells_considered == fov_work(spec, origin, *config, opacity_of(is_opaque)),
{
    grid_fov(spec, origin, config, &OpacityFn(is_opaque))
}

/// Every cell in `cells` is the origin, or lies on the grid within `radius`
/// of the origin.
pub open spec fn found_in_range(
    spec: GridMapSpec,
    origin: IVec2,
    radius: int,
    cells: Set<IVec2>,
) -> bool {
    forall|c: IVec2|
        #[trigger] cells.contains(c) ==> c == origin || (spec.contains(c.pt()) && within_radius(
            origin.pt(),
            c.pt(),
            radius,
        ))
}

/// The scan coordinates fit in `i32`.
pub open spec fn scan_fits(origin: IVec2, radius: int) -> bool {
    &&& 0 <= radius
    &&& origin.x - radius >= i32::MIN
    &&& origin.y - radius >= i32::MIN
    &&& origin.x + radius <= i32::MAX
    &&& origin.y + radius <= i32::MAX
}

proof fn lemma_record_in_range(
    spec: GridMapSpec,
    origin: IVec2,
    radius: int,
    octant: int,
    dx: int,
    d: int,
    st: ScanState,
)
    requires
        scan_fits(origin, radius),
        found_in_range(spec, origin, radius, st.0),
    ensures
        found_in_range(spec, origin, radius, record_cell(spec, origin, radius, octant, dx, d, st).0),
{
    let p = scan_point(origin, octant, dx, d);
    let st1 = record_cell(spec, origin, radius, octant, dx, d, st);
    if within_radius((0, 0), (dx, -d), radius) && spec.contains(p) {
        assert(dx * dx <= radius * radius && d * d <= radius * radius) by (nonlinear_arith)
            requires
                (dx - 0) * (dx - 0) + (-d - 0) * (-d - 0) <= radius * radius,
        ;
        assert(-radius <= dx <= radius && -radius <= d <= radius) by (nonlinear_arith)
            requires
                dx * dx <= radius * radius,
                d * d <= radius * radius,
                radius >= 0,
        ;
        assert((-dx) * (-dx) == dx * dx && (-d) * (-d) == d * d) by (nonlinear_arith);
        let c = cell_at(p);
        assert(c.pt() == p);
        assert(within_radius(origin.pt(), c.pt(), radius));
        assert forall|e: IVec2| #[trigger] st1.0.contains(e) implies e == origin || (spec.contains(
            e.pt(),
        ) && within_radius(origin.pt(), e.pt(), radius)) by {
            if e != c {
                assert(st.0.contains(e));
            }
        }
    }
}

/// Scanning only finds cells on the grid within the radius.
pub proof fn lemma_cast_in_range(
    spec: GridMapSpec,
    origin: IVec2,
    radius: int,
    octant: int,
    op: spec_fn(IVec2) -> bool,
    row: int,
    start: Slope,
    end: Slope,
    st: ScanState,
)
    requires
        scan_fits(origin, radius),
        found_in_range(spec, origin, radius, st.0),
    ensures
        found_in_range(
            spec,
            origin,
            radius,
            shadow_cast(spec, origin, radius, octant, op, row, start, end, st).0,
        ),
    decreases radius + 1 - row, 2int, 0int,
{
    if !slope_lt(start, end) {
        lemma_rows_in_range(spec, origin, radius, octant, op, row, start, start, end, st);
    }
}

pub proof fn lemma_rows_in_range(
    spec: GridMapSpec,
    origin: IVec2,
    radius: int,
    octant: int,
    op: spec_fn(IVec2) -> bool,
    distance: int,
    start: Slope,
    next_start: Slope,
    end: Slope,
    st: ScanState,
)
    requires
        scan_fits(origin, radius),
        found_in_range(spec, origin, radius, st.0),
    ensures
        found_in_range(
            spec,
            origin,
            radius,
            shadow_rows(spec, origin, radius, octant, op, distance, start, next_start, end, st).0,
        ),
    decreases radius + 1 - distance, 1int, 0int,
{
    if distance <= radius {
        let r = shadow_row(
            spec,
            origin,
            radius,
            octant,
            op,
            distance,
            -distance,
            start,
            next_start,
            end,
            false,
            st,
        );
        lemma_row_in_range(
            spec,
            origin,
            radius,
            octant,
            op,
            distance,
            -distance,
            start,
            next_start,
            end,
            false,
            st,
        );
        if !r.2 {
            lemma_rows_in_range(spec, origin, radius, octant, op, distance + 1, r.0, r.1, end, r.3);
        }
    }
}

pub proof fn lemma_row_in_range(
    spec: GridMapSpec,
    origin: IVec2,
    radius: int,
    octant: int,
    op: spec_fn(IVec2) -> bool,
    distance: int,
    dx: int,
    start: Slope,
    next_start: Slope,
    end: Slope,
    blocked: bool,
    st: ScanState,
)
    requires
        scan_fits(origin, radius),
        found_in_range(spec, origin, radius, st.0),
    ensures
        found_in_range(
            spec,
            origin,
            radius,
            shadow_row(
                spec,
                origin,
                radius,
                octant,
                op,
                distance,
                dx,
                start,
                next_start,
                end,
                blocked,
                st,
            ).3.0,
        ),
    decreases radius + 1 - distance, 0int, 1 - dx,
{
    if dx <= 0 {
        let left = left_slope(dx, distance);
        let right = right_slope(dx, distance);
        if slope_lt(start, right) {
            lemma_row_in_range(
                spec,
                origin,
                radius,
                octant,
                op,
                distance,
                dx + 1,
                start,
                next_start,
                end,
                blocked,
                st,
            );
        } else if !slope_lt(left, end) {
            let p = scan_point(origin, octant, dx, distance);
            let opaque = !spec.contains(p) || op(cell_at(p));
            let st1 = record_cell(spec, origin, radius, octant, dx, distance, st);
            lemma_record_in_range(spec, origin, radius, octant, dx, distance, st);
            if blocked {
                if opaque {
                    lemma_row_in_range(
                        spec,
                        origin,
                        radius,
                        octant,
                        op,
                        distance,
                        dx + 1,
                        start,
                        right,
                        end,
                        true,
                        st1,
                    );
                } else {
                    lemma_row_in_range(
                        spec,
                        origin,
                        radius,
                        octant,
                        op,
                        distance,
                        dx + 1,
                        next_start,
                        next_start,
                        end,
                        false,
                        st1,
                    );
                }
            } else if opaque && distance < radius {
                let st2 = shadow_cast(
                    spec,
                    origin,
                    radius,
                    octant,
                    op,
                    distance + 1,
                    start,
                    left,
                    st1,
                );
                lemma_cast_in_range(spec, origin, radius, octant, op, distance + 1, start, left, st1);
                lemma_row_in_range(
                    spec,
                    origin,
                    radius,
                    octant,
                    op,
                    distance,
                    dx + 1,
                    start,
                    right,
                    end,
                    true,
                    st2,
                );
            } else {
                lemma_row_in_range(
                    spec,
                    origin,
                    radius,
                    octant,
                    op,
                    distance,
                    dx + 1,
                    start,
                    next_start,
                    end,
                    false,
                    st1,
                );
            }
        }
    }
}

proof fn lemma_octants_in_range(
    spec: GridMapSpec,
    origin: IVec2,
    radius: int,
    op: spec_fn(IVec2) -> bool,
    n: int,
)
    requires
        scan_fits(origin, radius),
    ensures
        found_in_range(spec, origin, radius, shadow_octants(spec, origin, radius, op, n).0),
    decreases n,
{
    if n > 0 {
        lemma_octants_in_range(spec, origin, radius, op, n - 1);
        lemma_cast_in_range(
            spec,
            origin,
            radius,
            n - 1,
            op,
            1,
            (1, 1),
            (0, 1),
            shadow_octants(spec, origin, radius, op, n - 1),
        );
    }
}

/// The origin is always among the cells shadowcasting finds.
proof fn lemma_octants_keep_origin(
    spec: GridMapSpec,
    origin: IVec2,
    radius: int,
    op: spec_fn(IVec2) -> bool,
    n: int,
)
    ensures
        shadow_octants(spec, origin, radius, op, n).0.contains(origin),
    decreases n,
{
    if n > 0 {
        lemma_octants_keep_origin(spec, origin, radius, op, n - 1);
        lemma_cast_grows(
            spec,
            origin,
            radius,
            n - 1,
            op,
            1,
            (1, 1),
            (0, 1),
            shadow_octants(spec, origin, radius, op, n - 1),
        );
    }
}

/// Shadowcasting never reports a cell the ray-cast backend would not: on a
/// grid whose dimensions fit in `i32`, every cell it reports is the origin or
/// an in-range cell with a clear line of sight.
pub proof fn lemma_shadowcasting_within_raycast(
    spec: GridMapSpec,
    origin: IVec2,
    config: GridFovConfig,
    op: spec_fn(IVec2) -> bool,
)
    requires
        spec.contains(origin.pt()),
        spec.dimensions.x <= i32::MAX,
        spec.dimensions.y <= i32::MAX,
        origin.x + effective_radius(config) <= i32::MAX,
        origin.y + effective_radius(config) <= i32::MAX,
    ensures
        shadow_visible(spec, origin, config, op).subset_of(raycast_visible(spec, origin, config, op)),
{
    let r = effective_radius(config);
    lemma_octants_in_range(spec, origin, r, op, 8);
    let cand = shadow_candidates(spec, origin, config, op).0;
    lemma_dim_as_i32(spec.dimensions.x);
    lemma_dim_as_i32(spec.dimensions.y);
    assert forall|c: IVec2| #[trigger]
        shadow_visible(spec, origin, config, op).contains(c) implies raycast_visible(
        spec,
        origin,
        config,
        op,
    ).contains(c) by {
        assert(cand.contains(c));
        if c != origin {
            let dx = c.x - origin.x;
            let dy = c.y - origin.y;
            assert(-r <= dx <= r && -r <= dy <= r) by (nonlinear_arith)
                requires
                    dx * dx + dy * dy <= r * r,
                    r >= 0,
            ;
        }
    }
}

/// With a radius of zero (or less) a viewer on the grid sees exactly its own
/// cell, whichever backend computes the view.
pub proof fn lemma_zero_radius_sees_only_origin(
    spec: GridMapSpec,
    origin: IVec2,
    config: GridFovConfig,
    op: spec_fn(IVec2) -> bool,
)
    requires
        spec.contains(origin.pt()),
        config.radius <= 0,
    ensures
        shadow_visible(spec, origin, config, op) == set![origin],
        raycast_visible(spec, origin, config, op) == set![origin],
{
    lemma_octants_in_range(spec, origin, 0, op, 8);
    lemma_octants_keep_origin(spec, origin, 0, op, 8);
    let cand = shadow_candidates(spec, origin, config, op).0;
    assert forall|c: IVec2| #[trigger] cand.contains(c) implies c == origin by {
        if c != origin {
            let dx = c.x - origin.x;
            let dy = c.y - origin.y;
            assert(dx == 0 && dy == 0) by (nonlinear_arith)
                requires
                    dx * dx + dy * dy <= 0,
            ;
        }
    }
    assert(shadow_visible(spec, origin, config, op) =~= set![origin]);
    assert forall|c: IVec2| #[trigger]
        raycast_visible(spec, origin, config, op).contains(c) implies c == origin by {
        if c != origin {
            let dx = c.x - origin.x;
            let dy = c.y - origin.y;
            assert(dx == 0 && dy == 0) by (nonlinear_arith)
                requires
                    dx * dx + dy * dy <= 0,
            ;
        }
    }
    assert(raycast_visible(spec, origin, config, op) =~= set![origin]);
}

/// The origin is always reported, and when opaque cells are not revealed no
/// other reported cell is opaque; for either backend.
pub proof fn lemma_reported_cells(
    spec: GridMapSpec,
    origin: IVec2,
    config: GridFovConfig,
    op: spec_fn(IVec2) -> bool,
)
    requires
        spec.contains(origin.pt()),
    ensures
        shadow_visible(spec, origin, config, op).contains(origin),
        raycast_visible(spec, origin, config, op).contains(origin),
        !config.reveal_blockers ==> forall|c: IVec2|
            #[trigger] shadow_visible(spec, origin, config, op).contains(c) && c != origin ==> !op(c),
        !config.reveal_blockers ==> forall|c: IVec2|
            #[trigger] raycast_visible(spec, origin, config, op).contains(c) && c != origin ==> !op(c),
{
    lemma_octants_keep_origin(spec, origin, effective_radius(config), op, 8);
}

} // verus!
