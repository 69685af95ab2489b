//! What shadowcasting is sure to find: a cell at the end of a clear
//! diagonal, row or column from the viewer, and a cell whose rectangle
//! with the viewer is clear.

use vstd::prelude::*;

use crate::algorithms::los::{
    in_box, lemma_box_cell, lemma_clear_box_sight, line_of_sight, ray_point,
};
use crate::algorithms::raycast::{effective_radius, within_radius};
use crate::algorithms::shadowcasting::{
    fov_cells, lemma_cast_grows, lemma_row_grows, lemma_rows_grow, left_slope, record_cell,
    right_slope, scan_point, shadow_candidates, shadow_cast, shadow_octants, shadow_row,
    shadow_rows, shadow_visible, slope_lt, ScanState, Slope,
};
use crate::geometry::{cell_at, lemma_cell_at_pt, IVec2};
use crate::grid::{GridFovBackend, GridFovConfig, GridMapSpec};

verus! {

/// A slope of at least one, with a positive denominator.
spec fn high(s: Slope) -> bool {
    s.1 > 0 && s.0 >= s.1
}

/// A slope of at most one, with a positive denominator.
spec fn low(s: Slope) -> bool {
    s.1 > 0 && s.0 <= s.1
}

/// The diagonal cell of row `k` of `octant`.
spec fn diag(origin: IVec2, octant: int, k: int) -> IVec2 {
    cell_at(scan_point(origin, octant, -k, k))
}

/// The diagonal cells of rows `lo..=hi` lie on the grid within the radius,
/// and those before row `hi` are transparent.
spec fn diag_open(
    spec: GridMapSpec,
    origin: IVec2,
    radius: int,
    octant: int,
    op: spec_fn(IVec2) -> bool,
    lo: int,
    hi: int,
) -> bool {
    &&& hi <= radius
    &&& forall|k: int|
        lo <= k <= hi ==> {
            &&& spec.contains(#[trigger] scan_point(origin, octant, -k, k))
            &&& within_radius((0, 0), (-k, -k), radius)
            &&& k < hi ==> !op(cell_at(scan_point(origin, octant, -k, k)))
        }
}

/// `found` holds the diagonal cells of rows `lo..=hi`.
spec fn has_diag(found: Set<IVec2>, origin: IVec2, octant: int, lo: int, hi: int) -> bool {
    forall|k: int| lo <= k <= hi ==> found.contains(#[trigger] diag(origin, octant, k))
}

proof fn lemma_high_low(start: Slope, end: Slope, d: int)
    requires
        high(start),
        low(end),
        d >= 1,
    ensures
        !slope_lt(start, end),
        !slope_lt(start, right_slope(-d, d)),
        !slope_lt(left_slope(-d, d), end),
{
    assert(start.0 * end.1 >= end.0 * start.1) by (nonlinear_arith)
        requires
            start.1 > 0,
            start.0 >= start.1,
            end.1 > 0,
            end.0 <= end.1,
    ;
    assert(start.0 * (2 * d + 1) >= (2 * d - 1) * start.1) by (nonlinear_arith)
        requires
            start.1 > 0,
            start.0 >= start.1,
            d >= 1,
    ;
    assert((2 * d + 1) * end.1 >= end.0 * (2 * d - 1)) by (nonlinear_arith)
        requires
            end.1 > 0,
            end.0 <= end.1,
            d >= 1,
    ;
}

/// After the diagonal cell, a row either ends unblocked with its start
/// slope still at least one, or has found the diagonal cells of the rows
/// after it.
proof fn lemma_row_diag(
    spec: GridMapSpec,
    origin: IVec2,
    radius: int,
    octant: int,
    op: spec_fn(IVec2) -> bool,
    d: int,
    dx: int,
    start: Slope,
    next_start: Slope,
    end: Slope,
    st: ScanState,
    hi: int,
)
    requires
        1 <= d <= radius,
        dx >= 1 - d,
        high(start),
        low(end),
        diag_open(spec, origin, radius, octant, op, d + 1, hi),
    ensures
        ({
            let r = shadow_row(
                spec,
                origin,
                radius,
                octant,
                op,
                d,
                dx,
                start,
                next_start,
                end,
                false,
                st,
            );
            (!r.2 && high(r.0)) || has_diag(r.3.0, origin, octant, d + 1, hi)
        }),
    decreases radius + 1 - d, 0int, 1 - dx,
{
    if dx <= 0 {
        let left = left_slope(dx, d);
        let right = right_slope(dx, d);
        if slope_lt(start, right) {
            lemma_row_diag(
                spec,
                origin,
                radius,
                octant,
                op,
                d,
                dx + 1,
                start,
                next_start,
                end,
                st,
                hi,
            );
        } else if !slope_lt(left, end) {
            let p = scan_point(origin, octant, dx, d);
            let opaque = !spec.contains(p) || op(cell_at(p));
            let st1 = record_cell(spec, origin, radius, octant, dx, d, st);
            if !opaque {
                lemma_row_diag(
                    spec,
                    origin,
                    radius,
                    octant,
                    op,
                    d,
                    dx + 1,
                    start,
                    next_start,
                    end,
                    st1,
                    hi,
                );
            } else if d < radius {
                assert(low(left));
                lemma_cast_diag(spec, origin, radius, octant, op, d + 1, start, left, st1, hi);
                let st2 = shadow_cast(spec, origin, radius, octant, op, d + 1, start, left, st1);
                lemma_row_grows(
                    spec,
                    origin,
                    radius,
                    octant,
                    op,
                    d,
                    dx + 1,
                    start,
                    right,
                    end,
                    true,
                    st2,
                );
            }
        }
    }
}

/// A scan from row `d0` with a start slope of at least one and an end slope
/// of at most one finds the diagonal cells of rows `d0..=hi`.
proof fn lemma_cast_diag(
    spec: GridMapSpec,
    origin: IVec2,
    radius: int,
    octant: int,
    op: spec_fn(IVec2) -> bool,
    d0: int,
    start: Slope,
    end: Slope,
    st: ScanState,
    hi: int,
)
    requires
        d0 >= 1,
        high(start),
        low(end),
        diag_open(spec, origin, radius, octant, op, d0, hi),
    ensures
        has_diag(
            shadow_cast(spec, origin, radius, octant, op, d0, start, end, st).0,
            origin,
            octant,
            d0,
            hi,
        ),
    decreases radius + 1 - d0, 2int, 0int,
{
    lemma_high_low(start, end, d0);
    lemma_rows_diag(spec, origin, radius, octant, op, d0, start, start, end, st, hi);
}

proof fn lemma_rows_diag(
    spec: GridMapSpec,
    origin: IVec2,
    radius: int,
    octant: int,
    op: spec_fn(IVec2) -> bool,
    distance: int,
    start: Slope,
    next_start: Slope,
    end: Slope,
    st: ScanState,
    hi: int,
)
    requires
        distance >= 1,
        high(start),
        low(end),
        diag_open(spec, origin, radius, octant, op, distance, hi),
    ensures
        has_diag(
            shadow_rows(spec, origin, radius, octant, op, distance, start, next_start, end, st).0,
            origin,
            octant,
            distance,
            hi,
        ),
    decreases radius + 1 - distance, 1int, 0int,
{
    if distance <= hi {
        let d = distance;
        let dx = -d;
        lemma_high_low(start, end, d);
        let p = scan_point(origin, octant, dx, d);
        assert(spec.contains(scan_point(origin, octant, -d, d)));
        let opaque = !spec.contains(p) || op(cell_at(p));
        let st1 = record_cell(spec, origin, radius, octant, dx, d, st);
        assert(st1.0.contains(diag(origin, octant, d)));
        let r = shadow_row(
            spec,
            origin,
            radius,
            octant,
            op,
            d,
            dx,
            start,
            next_start,
            end,
            false,
            st,
        );
        // The row's first cell is the diagonal cell; everything after it
        // keeps what it found.
        if !opaque {
            assert(r == shadow_row(
                spec,
                origin,
                radius,
                octant,
                op,
                d,
                dx + 1,
                start,
                next_start,
                end,
                false,
                st1,
            ));
            lemma_row_grows(
                spec,
                origin,
                radius,
                octant,
                op,
                d,
                dx + 1,
                start,
                next_start,
                end,
                false,
                st1,
            );
            lemma_row_diag(
                spec,
                origin,
                radius,
                octant,
                op,
                d,
                dx + 1,
                start,
                next_start,
                end,
                st1,
                hi,
            );
        } else if d < radius {
            let left = left_slope(dx, d);
            let right = right_slope(dx, d);
            let st2 = shadow_cast(spec, origin, radius, octant, op, d + 1, start, left, st1);
            lemma_cast_grows(spec, origin, radius, octant, op, d + 1, start, left, st1);
            lemma_row_grows(
                spec,
                origin,
                radius,
                octant,
                op,
                d,
                dx + 1,
                start,
                right,
                end,
                true,
                st2,
            );
        } else {
            lemma_row_grows(
                spec,
                origin,
                radius,
                octant,
                op,
                d,
                dx + 1,
                start,
                next_start,
                end,
                false,
                st1,
            );
        }
        assert(r.3.0.contains(diag(origin, octant, d)));
        if !r.2 {
            lemma_rows_grow(spec, origin, radius, octant, op, d + 1, r.0, r.1, end, r.3);
            if high(r.0) {
                lemma_rows_diag(spec, origin, radius, octant, op, d + 1, r.0, r.1, end, r.3, hi);
            }
        }
        let res = shadow_rows(spec, origin, radius, octant, op, d, start, next_start, end, st);
        assert forall|k: int| d <= k <= hi implies res.0.contains(#[trigger] diag(
            origin,
            octant,
            k,
        )) by {
            if k > d {
                assert(diag_open(spec, origin, radius, octant, op, d + 1, hi));
            }
        }
    }
}

/// Every octant's findings stay in the scan of all eight.
pub proof fn lemma_octant_sets_kept(
    spec: GridMapSpec,
    origin: IVec2,
    radius: int,
    op: spec_fn(IVec2) -> bool,
    n: int,
)
    requires
        0 <= n <= 8,
    ensures
        shadow_octants(spec, origin, radius, op, n).0.subset_of(
            shadow_octants(spec, origin, radius, op, 8).0,
        ),
    decreases 8 - n,
{
    if n < 8 {
        lemma_cast_grows(
            spec,
            origin,
            radius,
            n,
            op,
            1,
            (1, 1),
            (0, 1),
            shadow_octants(spec, origin, radius, op, n),
        );
        lemma_octant_sets_kept(spec, origin, radius, op, n + 1);
    }
}

/// The octant whose diagonal runs in direction `(sx, sy)`.
spec fn diagonal_octant(sx: int, sy: int) -> int {
    if sx < 0 && sy < 0 {
        0
    } else if sx < 0 {
        2
    } else if sy > 0 {
        4
    } else {
        6
    }
}

/// Shadowcasting sees along clear diagonals: when the cells
/// `origin + k * (sx, sy)` for `1 <= k < d` are on the grid and transparent,
/// and `target`, the cell `origin + d * (sx, sy)`, is on the grid within the
/// radius, `target` is in the field of view exactly when the origin has line
/// of sight to it.  A blocker beside the diagonal never hides it.
#[verifier::spinoff_prover]
pub proof fn lemma_clear_diagonal_is_seen(
    spec: GridMapSpec,
    origin: IVec2,
    config: GridFovConfig,
    op: spec_fn(IVec2) -> bool,
    sx: int,
    sy: int,
    d: int,
    target: IVec2,
)
    requires
        config.backend == GridFovBackend::RecursiveShadowcasting,
        target.pt() == ray_point(origin, sx, sy, d),
        spec.contains(origin.pt()),
        sx == 1 || sx == -1,
        sy == 1 || sy == -1,
        d >= 1,
        2 * d * d <= effective_radius(config) * effective_radius(config),
        forall|k: int| 1 <= k <= d ==> spec.contains(#[trigger] ray_point(origin, sx, sy, k)),
        forall|k: int|
            1 <= k < d ==> !op(cell_at(#[trigger] ray_point(origin, sx, sy, k))),
    ensures
        fov_cells(spec, origin, config, op).contains(target) == line_of_sight(
            spec,
            origin,
            target,
            config.corner_policy,
            config.reveal_blockers,
            op,
        ),
{
    let radius = effective_radius(config);
    let octant = diagonal_octant(sx, sy);
    assert forall|k: int| #![trigger scan_point(origin, octant, -k, k)]
        scan_point(origin, octant, -k, k) == ray_point(origin, sx, sy, k) by {
        if sx == 1 {
            assert(k * sx == k);
        } else {
            assert(k * sx == -k);
        }
        if sy == 1 {
            assert(k * sy == k);
        } else {
            assert(k * sy == -k);
        }
    }
    assert(d <= radius) by (nonlinear_arith)
        requires
            2 * d * d <= radius * radius,
            d >= 1,
            radius >= 0,
    ;
    assert(diag_open(spec, origin, radius, octant, op, 1, d)) by {
        assert forall|k: int| 1 <= k <= d implies {
            &&& spec.contains(#[trigger] scan_point(origin, octant, -k, k))
            &&& within_radius((0, 0), (-k, -k), radius)
            &&& k < d ==> !op(cell_at(scan_point(origin, octant, -k, k)))
        } by {
            assert(scan_point(origin, octant, -k, k) == ray_point(origin, sx, sy, k));
            assert((-k - 0) * (-k - 0) + (-k - 0) * (-k - 0) <= radius * radius)
                by (nonlinear_arith)
                requires
                    2 * d * d <= radius * radius,
                    1 <= k <= d,
            ;
        }
    }
    let before = shadow_octants(spec, origin, radius, op, octant);
    lemma_cast_diag(spec, origin, radius, octant, op, 1, (1, 1), (0, 1), before, d);
    lemma_octant_sets_kept(spec, origin, radius, op, octant + 1);
    lemma_cell_at_pt(target);
    assert(diag(origin, octant, d) == target);
    assert(shadow_candidates(spec, origin, config, op).0.contains(target));
    assert(target != origin) by {
        if sx == 1 {
            assert(d * sx == d);
        } else {
            assert(d * sx == -d);
        }
    }
    assert(shadow_visible(spec, origin, config, op).contains(target) == line_of_sight(
        spec,
        origin,
        target,
        config.corner_policy,
        config.reveal_blockers,
        op,
    ));
}

/// A slope of at least zero, with a positive denominator.
spec fn nonneg(s: Slope) -> bool {
    s.1 > 0 && s.0 >= 0
}

/// The axis cell of row `k` of `octant`.
spec fn axis(origin: IVec2, octant: int, k: int) -> IVec2 {
    cell_at(scan_point(origin, octant, 0, k))
}

/// The axis cells of rows `lo..=hi` lie on the grid within the radius, and
/// those before row `hi` are transparent.
spec fn axis_open(
    spec: GridMapSpec,
    origin: IVec2,
    radius: int,
    octant: int,
    op: spec_fn(IVec2) -> bool,
    lo: int,
    hi: int,
) -> bool {
    &&& hi <= radius
    &&& forall|k: int|
        lo <= k <= hi ==> {
            &&& spec.contains(#[trigger] scan_point(origin, octant, 0, k))
            &&& within_radius((0, 0), (0, -k), radius)
            &&& k < hi ==> !op(cell_at(scan_point(origin, octant, 0, k)))
        }
}

/// A main-scan row reaches its axis cell and records it; when that cell is
/// transparent the row does not end blocked and its slopes stay at least
/// zero.
proof fn lemma_row_axis(
    spec: GridMapSpec,
    origin: IVec2,
    radius: int,
    octant: int,
    op: spec_fn(IVec2) -> bool,
    d: int,
    dx: int,
    start: Slope,
    next_start: Slope,
    blocked: bool,
    st: ScanState,
)
    requires
        1 <= d <= radius,
        dx <= 0,
        nonneg(start),
        nonneg(next_start),
        spec.contains(scan_point(origin, octant, 0, d)),
        within_radius((0, 0), (0, -d), radius),
    ensures
        ({
            let r = shadow_row(
                spec,
                origin,
                radius,
                octant,
                op,
                d,
                dx,
                start,
                next_start,
                (0, 1),
                blocked,
                st,
            );
            &&& r.3.0.contains(axis(origin, octant, d))
            &&& !op(axis(origin, octant, d)) ==> !r.2 && nonneg(r.0) && nonneg(r.1)
        }),
    decreases 0 - dx,
{
    let end: Slope = (0, 1);
    let left = left_slope(dx, d);
    let right = right_slope(dx, d);
    assert(!slope_lt(left, end));
    let p = scan_point(origin, octant, dx, d);
    let opaque = !spec.contains(p) || op(cell_at(p));
    let st1 = record_cell(spec, origin, radius, octant, dx, d, st);
    if dx == 0 {
        assert(!slope_lt(start, right)) by (nonlinear_arith)
            requires
                start.0 >= 0,
                start.1 > 0,
                right == (-1int, 2 * d + 1),
                d >= 1,
        ;
        assert(st1.0.contains(axis(origin, octant, d)));
        if blocked {
            if opaque {
                lemma_row_grows(
                    spec,
                    origin,
                    radius,
                    octant,
                    op,
                    d,
                    1,
                    start,
                    right,
                    end,
                    true,
                    st1,
                );
            } else {
                lemma_row_grows(
                    spec,
                    origin,
                    radius,
                    octant,
                    op,
                    d,
                    1,
                    next_start,
                    next_start,
                    end,
                    false,
                    st1,
                );
            }
        } else if opaque && d < radius {
            let st2 = shadow_cast(spec, origin, radius, octant, op, d + 1, start, left, st1);
            lemma_cast_grows(spec, origin, radius, octant, op, d + 1, start, left, st1);
            lemma_row_grows(spec, origin, radius, octant, op, d, 1, start, right, end, true, st2);
        } else {
            lemma_row_grows(
                spec,
                origin,
                radius,
                octant,
                op,
                d,
                1,
                start,
                next_start,
                end,
                false,
                st1,
            );
        }
    } else if slope_lt(start, right) {
        lemma_row_axis(spec, origin, radius, octant, op, d, dx + 1, start, next_start, blocked, st);
    } else {
        assert(opaque ==> nonneg(right)) by {
            assert(-2 * dx - 1 >= 1);
        }
        if blocked {
            if opaque {
                lemma_row_axis(
                    spec,
                    origin,
                    radius,
                    octant,
                    op,
                    d,
                    dx + 1,
                    start,
                    right,
                    true,
                    st1,
                );
            } else {
                lemma_row_axis(
                    spec,
                    origin,
                    radius,
                    octant,
                    op,
                    d,
                    dx + 1,
                    next_start,
                    next_start,
                    false,
                    st1,
                );
            }
        } else if opaque && d < radius {
            let st2 = shadow_cast(spec, origin, radius, octant, op, d + 1, start, left, st1);
            lemma_row_axis(spec, origin, radius, octant, op, d, dx + 1, start, right, true, st2);
        } else {
            lemma_row_axis(
                spec,
                origin,
                radius,
                octant,
                op,
                d,
                dx + 1,
                start,
                next_start,
                false,
                st1,
            );
        }
    }
}

/// The main scan from row `distance` finds the axis cells of rows
/// `distance..=hi`.
proof fn lemma_rows_axis(
    spec: GridMapSpec,
    origin: IVec2,
    radius: int,
    octant: int,
    op: spec_fn(IVec2) -> bool,
    distance: int,
    start: Slope,
    next_start: Slope,
    st: ScanState,
    hi: int,
)
    requires
        distance >= 1,
        nonneg(start),
        nonneg(next_start),
        axis_open(spec, origin, radius, octant, op, distance, hi),
    ensures
        forall|k: int|
            distance <= k <= hi ==> shadow_rows(
                spec,
                origin,
                radius,
                octant,
                op,
                distance,
                start,
                next_start,
                (0, 1),
                st,
            ).0.contains(#[trigger] axis(origin, octant, k)),
    decreases radius + 1 - distance,
{
    if distance <= hi {
        let d = distance;
        assert(spec.contains(scan_point(origin, octant, 0, d)));
        lemma_row_axis(spec, origin, radius, octant, op, d, -d, start, next_start, false, st);
        let r = shadow_row(
            spec,
            origin,
            radius,
            octant,
            op,
            d,
            -d,
            start,
            next_start,
            (0, 1),
            false,
            st,
        );
        if !r.2 {
            lemma_rows_grow(spec, origin, radius, octant, op, d + 1, r.0, r.1, (0, 1), r.3);
            if d < hi {
                assert(!op(axis(origin, octant, d)));
                assert forall|k: int| d + 1 <= k <= hi implies {
                    &&& spec.contains(#[trigger] scan_point(origin, octant, 0, k))
                    &&& within_radius((0, 0), (0, -k), radius)
                    &&& k < hi ==> !op(cell_at(scan_point(origin, octant, 0, k)))
                } by {
                    assert(d <= k <= hi);
                }
                assert(hi <= radius);
                assert(axis_open(spec, origin, radius, octant, op, d + 1, hi));
                lemma_rows_axis(spec, origin, radius, octant, op, d + 1, r.0, r.1, r.3, hi);
            }
        }
        let res = shadow_rows(spec, origin, radius, octant, op, d, start, next_start, (0, 1), st);
        assert forall|k: int| d <= k <= hi implies res.0.contains(
            #[trigger] axis(origin, octant, k),
        ) by {
            if k > d {
                assert(!op(axis(origin, octant, d)));
            }
        }
    }
}

/// The octant whose axis runs in direction `(sx, sy)`.
spec fn axis_octant(sx: int, sy: int) -> int {
    if sy < 0 {
        0
    } else if sx < 0 {
        1
    } else if sy > 0 {
        3
    } else {
        5
    }
}

/// Shadowcasting sees along clear rows and columns: when the cells
/// `origin + k * (sx, sy)` for `1 <= k < d`, in one of the four axis
/// directions, are on the grid and transparent, and `target`, the cell
/// `origin + d * (sx, sy)`, is on the grid within the radius, `target` is in
/// the field of view exactly when the origin has line of sight to it.
/// Blockers off the axis never hide it.
#[verifier::spinoff_prover]
pub proof fn lemma_clear_axis_is_seen(
    spec: GridMapSpec,
    origin: IVec2,
    config: GridFovConfig,
    op: spec_fn(IVec2) -> bool,
    sx: int,
    sy: int,
    d: int,
    target: IVec2,
)
    requires
        config.backend == GridFovBackend::RecursiveShadowcasting,
        target.pt() == ray_point(origin, sx, sy, d),
        spec.contains(origin.pt()),
        (sx == 0 && (sy == 1 || sy == -1)) || (sy == 0 && (sx == 1 || sx == -1)),
        1 <= d <= effective_radius(config),
        forall|k: int| 1 <= k <= d ==> spec.contains(#[trigger] ray_point(origin, sx, sy, k)),
        forall|k: int|
            1 <= k < d ==> !op(cell_at(#[trigger] ray_point(origin, sx, sy, k))),
    ensures
        fov_cells(spec, origin, config, op).contains(target) == line_of_sight(
            spec,
            origin,
            target,
            config.corner_policy,
            config.reveal_blockers,
            op,
        ),
{
    let radius = effective_radius(config);
    let octant = axis_octant(sx, sy);
    assert(!slope_lt((1int, 1int), (0int, 1int)));
    assert(octant == 0 || octant == 1 || octant == 3 || octant == 5);
    assert forall|k: int| #![trigger scan_point(origin, octant, 0, k)]
        scan_point(origin, octant, 0, k) == ray_point(origin, sx, sy, k) by {
        if sx == 1 {
            assert(k * sx == k);
        } else if sx == -1 {
            assert(k * sx == -k);
        } else {
            assert(k * sx == 0);
        }
        if sy == 1 {
            assert(k * sy == k);
        } else if sy == -1 {
            assert(k * sy == -k);
        } else {
            assert(k * sy == 0);
        }
    }
    assert forall|k: int| 1 <= k <= d implies {
        &&& spec.contains(#[trigger] scan_point(origin, octant, 0, k))
        &&& within_radius((0, 0), (0, -k), radius)
        &&& k < d ==> !op(cell_at(scan_point(origin, octant, 0, k)))
    } by {
        assert(scan_point(origin, octant, 0, k) == ray_point(origin, sx, sy, k));
        assert((0 - 0) * (0 - 0) + (-k - 0) * (-k - 0) <= radius * radius) by (nonlinear_arith)
            requires
                1 <= k <= d,
                d <= radius,
        ;
    }
    assert(axis_open(spec, origin, radius, octant, op, 1, d));
    let before = shadow_octants(spec, origin, radius, op, octant);
    assert(!slope_lt((1int, 1int), (0int, 1int)));
    lemma_rows_axis(spec, origin, radius, octant, op, 1, (1, 1), (1, 1), before, d);
    lemma_octant_sets_kept(spec, origin, radius, op, octant + 1);
    lemma_cell_at_pt(target);
    assert(axis(origin, octant, d) == target);
    assert(shadow_candidates(spec, origin, config, op).0.contains(target));
    assert(target != origin) by {
        if sx == 1 {
            assert(d * sx == d);
        } else if sx == -1 {
            assert(d * sx == -d);
        } else if sy == 1 {
            assert(d * sy == d);
        } else {
            assert(d * sy == -d);
        }
    }
}

/// The cells of columns `-m..=0` of rows `1..=hi` of `octant` lie on the
/// grid, and those before row `hi` are transparent.
spec fn band_clear(
    spec: GridMapSpec,
    origin: IVec2,
    octant: int,
    op: spec_fn(IVec2) -> bool,
    m: int,
    hi: int,
) -> bool {
    forall|k: int, dx: int|
        1 <= k <= hi && -m <= dx <= 0 && -k <= dx ==> {
            &&& spec.contains(#[trigger] scan_point(origin, octant, dx, k))
            &&& k < hi ==> !op(cell_at(scan_point(origin, octant, dx, k)))
        }
}

/// A start slope with which row `d` reaches every column from `-m` on.
spec fn start_ok(s: Slope, m: int, d: int) -> bool {
    s.1 > 0 && s.0 >= 0 && (high(s) || !slope_lt(s, right_slope(-m, d)))
}

/// A slope no lower than the inner corner of column `-m - 1` of row `d`.
spec fn past_band(s: Slope, m: int, d: int) -> bool {
    s.1 > 0 && s.0 >= 0 && !slope_lt(s, right_slope(-m - 1, d))
}

proof fn lemma_band_slopes(s: Slope, m: int, d: int, dx: int)
    requires
        m >= 0,
        d >= 1,
        dx <= 0,
    ensures
        past_band(s, m, d) ==> start_ok(s, m, d) && start_ok(s, m, d + 1),
        start_ok(s, m, d) ==> start_ok(s, m, d + 1),
        start_ok(s, m, d) && dx >= -m && dx >= -d ==> !slope_lt(s, right_slope(dx, d)),
        dx <= -m - 1 ==> past_band(right_slope(dx, d), m, d),
        !slope_lt(left_slope(dx, d), (0, 1)),
{
    if past_band(s, m, d) {
        assert(s.0 * (2 * d + 1) >= (2 * m - 1) * s.1 && s.0 * (2 * d + 3) >= (2 * m - 1) * s.1)
            by (nonlinear_arith)
            requires
                s.1 > 0,
                s.0 >= 0,
                s.0 * (2 * d + 1) >= (2 * m + 1) * s.1,
        ;
    }
    if start_ok(s, m, d) && !high(s) {
        assert(s.0 * (2 * d + 3) >= (2 * m - 1) * s.1) by (nonlinear_arith)
            requires
                s.1 > 0,
                s.0 >= 0,
                s.0 * (2 * d + 1) >= (2 * m - 1) * s.1,
        ;
    }
    if start_ok(s, m, d) && dx >= -m && dx >= -d {
        if high(s) {
            assert(s.0 * (2 * d + 1) >= (-2 * dx - 1) * s.1) by (nonlinear_arith)
                requires
                    s.1 > 0,
                    s.0 >= s.1,
                    dx >= -d,
                    d >= 1,
            ;
        } else {
            assert(s.0 * (2 * d + 1) >= (-2 * dx - 1) * s.1) by (nonlinear_arith)
                requires
                    s.1 > 0,
                    s.0 * (2 * d + 1) >= (2 * m - 1) * s.1,
                    dx >= -m,
            ;
        }
    }
    if dx <= -m - 1 {
        assert((-2 * dx - 1) * (2 * d + 1) >= (2 * m + 1) * (2 * d + 1)) by (nonlinear_arith)
            requires
                dx <= -m - 1,
                d >= 1,
        ;
    }
}

/// A row before the last: its band cells are all reached and transparent,
/// so it ends unblocked with a start slope that serves the next row.
proof fn lemma_row_band(
    spec: GridMapSpec,
    origin: IVec2,
    radius: int,
    octant: int,
    op: spec_fn(IVec2) -> bool,
    m: int,
    d: int,
    dx: int,
    start: Slope,
    next_start: Slope,
    blocked: bool,
    st: ScanState,
    hi: int,
)
    requires
        1 <= d < hi <= radius,
        m >= 0,
        -d <= dx,
        start_ok(start, m, d),
        start_ok(start, m, d + 1),
        blocked ==> past_band(next_start, m, d),
        dx > -m && dx > -d ==> !blocked,
        band_clear(spec, origin, octant, op, m, hi),
    ensures
        ({
            let r = shadow_row(
                spec,
                origin,
                radius,
                octant,
                op,
                d,
                dx,
                start,
                next_start,
                (0, 1),
                blocked,
                st,
            );
            !r.2 && start_ok(r.0, m, d + 1)
        }),
    decreases 1 - dx,
{
    if dx <= 0 {
        let end: Slope = (0, 1);
        let left = left_slope(dx, d);
        let right = right_slope(dx, d);
        lemma_band_slopes(start, m, d, dx);
        lemma_band_slopes(next_start, m, d, dx);
        if slope_lt(start, right) {
            lemma_row_band(
                spec,
                origin,
                radius,
                octant,
                op,
                m,
                d,
                dx + 1,
                start,
                next_start,
                blocked,
                st,
                hi,
            );
        } else {
            let p = scan_point(origin, octant, dx, d);
            let opaque = !spec.contains(p) || op(cell_at(p));
            let st1 = record_cell(spec, origin, radius, octant, dx, d, st);
            if dx >= -m {
                assert(spec.contains(p) && !op(cell_at(p)));
            }
            if blocked {
                if opaque {
                    lemma_row_band(
                        spec,
                        origin,
                        radius,
                        octant,
                        op,
                        m,
                        d,
                        dx + 1,
                        start,
                        right,
                        true,
                        st1,
                        hi,
                    );
                } else {
                    lemma_row_band(
                        spec,
                        origin,
                        radius,
                        octant,
                        op,
                        m,
                        d,
                        dx + 1,
                        next_start,
                        next_start,
                        false,
                        st1,
                        hi,
                    );
                }
            } else if opaque && d < radius {
                let st2 = shadow_cast(spec, origin, radius, octant, op, d + 1, start, left, st1);
                lemma_row_band(
                    spec,
                    origin,
                    radius,
                    octant,
                    op,
                    m,
                    d,
                    dx + 1,
                    start,
                    right,
                    true,
                    st2,
                    hi,
                );
            } else {
                lemma_row_band(
                    spec,
                    origin,
                    radius,
                    octant,
                    op,
                    m,
                    d,
                    dx + 1,
                    start,
                    next_start,
                    false,
                    st1,
                    hi,
                );
            }
        }
    }
}

/// The last row: the scan reaches column `-m` and records its cell.
proof fn lemma_row_band_last(
    spec: GridMapSpec,
    origin: IVec2,
    radius: int,
    octant: int,
    op: spec_fn(IVec2) -> bool,
    m: int,
    d: int,
    dx: int,
    start: Slope,
    next_start: Slope,
    blocked: bool,
    st: ScanState,
)
    requires
        1 <= d <= radius,
        0 <= m <= d,
        -d <= dx <= -m,
        start_ok(start, m, d),
        blocked ==> past_band(next_start, m, d),
        spec.contains(scan_point(origin, octant, -m, d)),
        within_radius((0, 0), (-m, -d), radius),
    ensures
        shadow_row(
            spec,
            origin,
            radius,
            octant,
            op,
            d,
            dx,
            start,
            next_start,
            (0, 1),
            blocked,
            st,
        ).3.0.contains(cell_at(scan_point(origin, octant, -m, d))),
    decreases 0 - dx,
{
    let end: Slope = (0, 1);
    let left = left_slope(dx, d);
    let right = right_slope(dx, d);
    lemma_band_slopes(start, m, d, dx);
    lemma_band_slopes(next_start, m, d, dx);
    if slope_lt(start, right) {
        lemma_row_band_last(
            spec,
            origin,
            radius,
            octant,
            op,
            m,
            d,
            dx + 1,
            start,
            next_start,
            blocked,
            st,
        );
    } else {
        let p = scan_point(origin, octant, dx, d);
        let opaque = !spec.contains(p) || op(cell_at(p));
        let st1 = record_cell(spec, origin, radius, octant, dx, d, st);
        if dx == -m {
            assert(st1.0.contains(cell_at(p)));
            if blocked {
                if opaque {
                    lemma_row_grows(
                        spec,
                        origin,
                        radius,
                        octant,
                        op,
                        d,
                        dx + 1,
                        start,
                        right,
                        end,
                        true,
                        st1,
                    );
                } else {
                    lemma_row_grows(
                        spec,
                        origin,
                        radius,
                        octant,
                        op,
                        d,
                        dx + 1,
                        next_start,
                        next_start,
                        end,
                        false,
                        st1,
                    );
                }
            } else if opaque && d < radius {
                let st2 = shadow_cast(spec, origin, radius, octant, op, d + 1, start, left, st1);
                lemma_cast_grows(spec, origin, radius, octant, op, d + 1, start, left, st1);
                lemma_row_grows(
                    spec,
                    origin,
                    radius,
                    octant,
                    op,
                    d,
                    dx + 1,
                    start,
                    right,
                    end,
                    true,
                    st2,
                );
            } else {
                lemma_row_grows(
                    spec,
                    origin,
                    radius,
                    octant,
                    op,
                    d,
                    dx + 1,
                    start,
                    next_start,
                    end,
                    false,
                    st1,
                );
            }
        } else if blocked {
            if opaque {
                lemma_row_band_last(
                    spec,
                    origin,
                    radius,
                    octant,
                    op,
                    m,
                    d,
                    dx + 1,
                    start,
                    right,
                    true,
                    st1,
                );
            } else {
                lemma_row_band_last(
                    spec,
                    origin,
                    radius,
                    octant,
                    op,
                    m,
                    d,
                    dx + 1,
                    next_start,
                    next_start,
                    false,
                    st1,
                );
            }
        } else if opaque && d < radius {
            let st2 = shadow_cast(spec, origin, radius, octant, op, d + 1, start, left, st1);
            lemma_row_band_last(
                spec,
                origin,
                radius,
                octant,
                op,
                m,
                d,
                dx + 1,
                start,
                right,
                true,
                st2,
            );
        } else {
            lemma_row_band_last(
                spec,
                origin,
                radius,
                octant,
                op,
                m,
                d,
                dx + 1,
                start,
                next_start,
                false,
                st1,
            );
        }
    }
}

/// The scan of rows `d..` of `octant` records the cell at column `-m` of
/// row `hi` when the band of columns `-m..=0` is clear before it.
proof fn lemma_rows_band(
    spec: GridMapSpec,
    origin: IVec2,
    radius: int,
    octant: int,
    op: spec_fn(IVec2) -> bool,
    m: int,
    d: int,
    start: Slope,
    next_start: Slope,
    st: ScanState,
    hi: int,
)
    requires
        1 <= d <= hi <= radius,
        0 <= m <= hi,
        start_ok(start, m, d),
        band_clear(spec, origin, octant, op, m, hi),
        within_radius((0, 0), (-m, -hi), radius),
    ensures
        shadow_rows(
            spec,
            origin,
            radius,
            octant,
            op,
            d,
            start,
            next_start,
            (0, 1),
            st,
        ).0.contains(cell_at(scan_point(origin, octant, -m, hi))),
    decreases hi - d,
{
    let end: Slope = (0, 1);
    lemma_band_slopes(start, m, d, 0);
    let r = shadow_row(spec, origin, radius, octant, op, d, -d, start, next_start, end, false, st);
    if d < hi {
        lemma_row_band(
            spec,
            origin,
            radius,
            octant,
            op,
            m,
            d,
            -d,
            start,
            next_start,
            false,
            st,
            hi,
        );
        lemma_rows_band(spec, origin, radius, octant, op, m, d + 1, r.0, r.1, r.3, hi);
    } else {
        assert(spec.contains(scan_point(origin, octant, -m, hi)));
        lemma_row_band_last(
            spec,
            origin,
            radius,
            octant,
            op,
            m,
            d,
            -d,
            start,
            next_start,
            false,
            st,
        );
        if !r.2 {
            lemma_rows_grow(spec, origin, radius, octant, op, d + 1, r.0, r.1, end, r.3);
        }
    }
}

/// The target, at column `-m` of row `hi` of `octant`, is found when the
/// band of the octant up to it lies in the clear rectangle it spans with
/// the origin.
#[verifier::spinoff_prover]
proof fn lemma_box_octant(
    spec: GridMapSpec,
    origin: IVec2,
    config: GridFovConfig,
    op: spec_fn(IVec2) -> bool,
    target: IVec2,
    octant: int,
    m: int,
    hi: int,
)
    requires
        0 <= octant < 8,
        0 <= m <= hi,
        hi >= 1,
        spec.contains(origin.pt()),
        spec.contains(target.pt()),
        within_radius(origin.pt(), target.pt(), effective_radius(config)),
        m * m + hi * hi == (target.x - origin.x) * (target.x - origin.x) + (target.y - origin.y) * (
        target.y - origin.y),
        scan_point(origin, octant, -m, hi) == target.pt(),
        forall|k: int, dx: int|
            1 <= k <= hi && -m <= dx <= 0 && -k <= dx ==> {
                let p = #[trigger] scan_point(origin, octant, dx, k);
                &&& in_box(origin.pt(), target.pt(), p)
                &&& p != origin.pt()
                &&& k < hi ==> p != target.pt()
            },
        forall|c: IVec2|
            in_box(origin.pt(), target.pt(), #[trigger] c.pt()) && c != origin && c != target
                ==> !op(c),
    ensures
        shadow_candidates(spec, origin, config, op).0.contains(target),
{
    let radius = effective_radius(config);
    assert forall|k: int, dx: int| 1 <= k <= hi && -m <= dx <= 0 && -k <= dx implies {
        &&& spec.contains(#[trigger] scan_point(origin, octant, dx, k))
        &&& k < hi ==> !op(cell_at(scan_point(origin, octant, dx, k)))
    } by {
        let p = scan_point(origin, octant, dx, k);
        lemma_box_cell(spec, origin, target, p);
        assert(in_box(origin.pt(), target.pt(), cell_at(p).pt()));
    }
    assert(band_clear(spec, origin, octant, op, m, hi));
    assert(hi <= radius) by (nonlinear_arith)
        requires
            m * m + hi * hi <= radius * radius,
            hi >= 1,
            radius >= 0,
    ;
    assert((-m - 0) * (-m - 0) + (-hi - 0) * (-hi - 0) <= radius * radius) by (nonlinear_arith)
        requires
            m * m + hi * hi <= radius * radius,
    ;
    let before = shadow_octants(spec, origin, radius, op, octant);
    assert(!slope_lt((1int, 1int), (0int, 1int)));
    assert(start_ok((1, 1), m, 1));
    lemma_rows_band(spec, origin, radius, octant, op, m, 1, (1, 1), (1, 1), before, hi);
    lemma_octant_sets_kept(spec, origin, radius, op, octant + 1);
    lemma_cell_at_pt(target);
}

/// Shadowcasting sees across clear rectangles: when every cell of the
/// rectangle spanned by the origin and `target`, other than those two, is
/// transparent, and `target` is on the grid within the radius, `target` is
/// in the field of view exactly when it is the origin, blockers are
/// revealed, or it is transparent itself.  In an empty room every cell
/// within the radius is seen.
#[verifier::spinoff_prover]
pub proof fn lemma_clear_box_is_seen(
    spec: GridMapSpec,
    origin: IVec2,
    config: GridFovConfig,
    op: spec_fn(IVec2) -> bool,
    target: IVec2,
)
    requires
        config.backend == GridFovBackend::RecursiveShadowcasting,
        spec.contains(origin.pt()),
        spec.contains(target.pt()),
        within_radius(origin.pt(), target.pt(), effective_radius(config)),
        forall|c: IVec2|
            in_box(origin.pt(), target.pt(), #[trigger] c.pt()) && c != origin && c != target
                ==> !op(c),
    ensures
        fov_cells(spec, origin, config, op).contains(target) == (target == origin
            || config.reveal_blockers || !op(target)),
{
    let radius = effective_radius(config);
    let ox = target.x - origin.x;
    let oy = target.y - origin.y;
    lemma_clear_box_sight(spec, origin, target, config.corner_policy, config.reveal_blockers, op);
    assert((-ox) * (-ox) == ox * ox && (-oy) * (-oy) == oy * oy) by (nonlinear_arith);
    if target == origin {
        lemma_octant_sets_kept(spec, origin, radius, op, 0);
    } else if ox <= 0 && oy < 0 && -ox <= -oy {
        lemma_box_octant(spec, origin, config, op, target, 0, -ox, -oy);
    } else if ox < 0 && oy <= 0 && -oy <= -ox {
        lemma_box_octant(spec, origin, config, op, target, 1, -oy, -ox);
    } else if ox < 0 && oy >= 0 && oy <= -ox {
        lemma_box_octant(spec, origin, config, op, target, 2, oy, -ox);
    } else if ox <= 0 && oy > 0 && -ox <= oy {
        lemma_box_octant(spec, origin, config, op, target, 3, -ox, oy);
    } else if ox >= 0 && oy > 0 && ox <= oy {
        lemma_box_octant(spec, origin, config, op, target, 4, ox, oy);
    } else if ox > 0 && oy >= 0 && oy <= ox {
        lemma_box_octant(spec, origin, config, op, target, 5, oy, ox);
    } else if ox > 0 && oy <= 0 && -oy <= ox {
        lemma_box_octant(spec, origin, config, op, target, 6, -oy, ox);
    } else {
        lemma_box_octant(spec, origin, config, op, target, 7, ox, -oy);
    }
}

} // verus!
