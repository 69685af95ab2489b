//! Completeness of shadowcasting: a cell is found whenever some ray from
//! the centre of the viewer's cell reaches it through clear cells only.
//!
//! Within an octant, row `d` holds the cells of columns `-d..=0`; the cell
//! of column `dx` spans the slopes from `right_slope(dx, d)` to
//! `left_slope(dx, d)`, which are the slopes of its two far corners seen
//! from the origin's centre.  A ray of slope `s` meets that cell (closed)
//! exactly when `s` lies between the two.

use vstd::prelude::*;

use crate::algorithms::los::line_of_sight;
use crate::algorithms::raycast::{effective_radius, within_radius};
use crate::algorithms::shadow_reach::lemma_octant_sets_kept;
use crate::algorithms::shadowcasting::{
    fov_cells, lemma_cast_grows, lemma_row_grows, lemma_rows_grow, left_slope, record_cell,
    right_slope, scan_point, shadow_candidates, shadow_cast, shadow_octants, shadow_row,
    shadow_rows, slope_lt, ScanState, Slope,
};
use crate::geometry::{cell_at, lemma_cell_at_pt, IVec2};
use crate::grid::{GridFovBackend, GridFovConfig, GridMapSpec};

verus! {

/// `a <= b` as slopes with positive denominators.
pub open spec fn slope_le(a: Slope, b: Slope) -> bool {
    !slope_lt(b, a)
}

/// The ray of slope `s` meets the cell of column `dx` in row `d`.
pub open spec fn ray_meets(s: Slope, dx: int, d: int) -> bool {
    slope_le(right_slope(dx, d), s) && slope_le(s, left_slope(dx, d))
}

/// Every cell that the ray of slope `s` meets in rows `1..hi` of `octant`
/// lies on the grid and is transparent.
pub open spec fn ray_clear(
    spec: GridMapSpec,
    origin: IVec2,
    octant: int,
    op: spec_fn(IVec2) -> bool,
    s: Slope,
    hi: int,
) -> bool {
    forall|k: int, dx: int|
        1 <= k < hi && -k <= dx <= 0 && ray_meets(s, dx, k) ==> {
            &&& spec.contains(#[trigger] scan_point(origin, octant, dx, k))
            &&& !op(cell_at(scan_point(origin, octant, dx, k)))
        }
}

proof fn lemma_slope_trans(a: Slope, b: Slope, c: Slope)
    requires
        a.1 > 0,
        b.1 > 0,
        c.1 > 0,
    ensures
        slope_le(a, b) && slope_le(b, c) ==> slope_le(a, c),
        slope_lt(a, b) && slope_le(b, c) ==> slope_lt(a, c),
        slope_le(a, b) && slope_lt(b, c) ==> slope_lt(a, c),
{
    if slope_le(a, b) && slope_le(b, c) {
        assert(a.0 * c.1 <= c.0 * a.1) by (nonlinear_arith)
            requires
                a.1 > 0,
                b.1 > 0,
                c.1 > 0,
                a.0 * b.1 <= b.0 * a.1,
                b.0 * c.1 <= c.0 * b.1,
        ;
    }
    if slope_lt(a, b) && slope_le(b, c) {
        assert(a.0 * c.1 < c.0 * a.1) by (nonlinear_arith)
            requires
                a.1 > 0,
                b.1 > 0,
                c.1 > 0,
                a.0 * b.1 < b.0 * a.1,
                b.0 * c.1 <= c.0 * b.1,
        ;
    }
    if slope_le(a, b) && slope_lt(b, c) {
        assert(a.0 * c.1 < c.0 * a.1) by (nonlinear_arith)
            requires
                a.1 > 0,
                b.1 > 0,
                c.1 > 0,
                a.0 * b.1 <= b.0 * a.1,
                b.0 * c.1 < c.0 * b.1,
        ;
    }
}

/// Along a row both corner slopes fall as the column grows, and each cell's
/// far corner lies above the near corner of the cell before it.
proof fn lemma_row_slopes(d: int, dx: int, dy: int)
    requires
        d >= 1,
    ensures
        dx < dy ==> slope_lt(right_slope(dy, d), right_slope(dx, d)),
        dx < dy ==> slope_lt(left_slope(dy, d), left_slope(dx, d)),
        dx <= 0 ==> slope_lt(right_slope(dx - 1, d), left_slope(dx, d)),
        slope_lt(right_slope(0, d), (0, 1)),
{
    if dx < dy {
        assert((-2 * dy - 1) * (2 * d + 1) < (-2 * dx - 1) * (2 * d + 1)) by (nonlinear_arith)
            requires
                dx < dy,
                d >= 1,
        ;
        assert((1 - 2 * dy) * (2 * d - 1) < (1 - 2 * dx) * (2 * d - 1)) by (nonlinear_arith)
            requires
                dx < dy,
                d >= 1,
        ;
    }
    if dx <= 0 {
        assert((1 - 2 * dx) * (2 * d - 1) < (1 - 2 * dx) * (2 * d + 1)) by (nonlinear_arith)
            requires
                dx <= 0,
                d >= 1,
        ;
    }
}

/// The cell at column `t` of row `hi` of `octant` lies on the grid within
/// the radius, and the ray of slope `s`, between zero and any slope, meets
/// it.
pub open spec fn ray_target(
    spec: GridMapSpec,
    origin: IVec2,
    radius: int,
    octant: int,
    s: Slope,
    t: int,
    hi: int,
) -> bool {
    &&& 1 <= hi <= radius
    &&& -hi <= t <= 0
    &&& s.1 > 0
    &&& s.0 >= 0
    &&& ray_meets(s, t, hi)
    &&& spec.contains(scan_point(origin, octant, t, hi))
    &&& within_radius((0, 0), (t, -hi), radius)
}

/// `st` has found the cell at column `t` of row `hi` of `octant`.
pub open spec fn found(st: ScanState, origin: IVec2, octant: int, t: int, hi: int) -> bool {
    st.0.contains(cell_at(scan_point(origin, octant, t, hi)))
}

/// A row whose scan comes to column `t` with a start slope no lower than
/// that cell's near corner, and an end slope no higher than its far
/// corner, records that cell.
proof fn lemma_row_reaches(
    spec: GridMapSpec,
    origin: IVec2,
    radius: int,
    octant: int,
    op: spec_fn(IVec2) -> bool,
    d: int,
    t: int,
    dx: int,
    start: Slope,
    next_start: Slope,
    end: Slope,
    blocked: bool,
    st: ScanState,
)
    requires
        1 <= d <= radius,
        -d <= dx <= t <= 0,
        start.1 > 0,
        end.1 > 0,
        blocked ==> next_start.1 > 0,
        slope_le(right_slope(t, d), start),
        blocked ==> slope_le(right_slope(t, d), next_start),
        slope_le(end, left_slope(t, d)),
        spec.contains(scan_point(origin, octant, t, d)),
        within_radius((0, 0), (t, -d), radius),
    ensures
        found(
            shadow_row(
                spec,
                origin,
                radius,
                octant,
                op,
                d,
                dx,
                start,
                next_start,
                end,
                blocked,
                st,
            ).3,
            origin,
            octant,
            t,
            d,
        ),
    decreases t - dx,
{
    let left = left_slope(dx, d);
    let right = right_slope(dx, d);
    lemma_row_slopes(d, dx, t);
    if dx < t {
        lemma_slope_trans(right_slope(t, d), right, start);
        lemma_slope_trans(end, left_slope(t, d), left);
    }
    if slope_lt(start, right) {
        lemma_row_reaches(
            spec,
            origin,
            radius,
            octant,
            op,
            d,
            t,
            dx + 1,
            start,
            next_start,
            end,
            blocked,
            st,
        );
    } else {
        assert(!slope_lt(left, end));
        let p = scan_point(origin, octant, dx, d);
        let opaque = !spec.contains(p) || op(cell_at(p));
        let st1 = record_cell(spec, origin, radius, octant, dx, d, st);
        if dx == t {
            assert(st1.0.contains(cell_at(p)));
            if blocked {
                if opaque {
                    lemma_row_grows(
                        spec,
                        origin,
                        radius,
                        octant,
                        op,
                        d,
                        dx + 1,
                        start,
                        right,
                        end,
                        true,
                        st1,
                    );
                } else {
                    lemma_row_grows(
                        spec,
                        origin,
                        radius,
                        octant,
                        op,
                        d,
                        dx + 1,
                        next_start,
                        next_start,
                        end,
                        false,
                        st1,
                    );
                }
            } else if opaque && d < radius {
                let st2 = shadow_cast(spec, origin, radius, octant, op, d + 1, start, left, st1);
                lemma_cast_grows(spec, origin, radius, octant, op, d + 1, start, left, st1);
                lemma_row_grows(
                    spec,
                    origin,
                    radius,
                    octant,
                    op,
                    d,
                    dx + 1,
                    start,
                    right,
                    end,
                    true,
                    st2,
                );
            } else {
                lemma_row_grows(
                    spec,
                    origin,
                    radius,
                    octant,
                    op,
                    d,
                    dx + 1,
                    start,
                    next_start,
                    end,
                    false,
                    st1,
                );
            }
        } else if blocked {
            if opaque {
                lemma_row_reaches(
                    spec,
                    origin,
                    radius,
                    octant,
                    op,
                    d,
                    t,
                    dx + 1,
                    start,
                    right,
                    end,
                    true,
                    st1,
                );
            } else {
                lemma_row_reaches(
                    spec,
                    origin,
                    radius,
                    octant,
                    op,
                    d,
                    t,
                    dx + 1,
                    next_start,
                    next_start,
                    end,
                    false,
                    st1,
                );
            }
        } else if opaque && d < radius {
            let st2 = shadow_cast(spec, origin, radius, octant, op, d + 1, start, left, st1);
            lemma_row_reaches(
                spec,
                origin,
                radius,
                octant,
                op,
                d,
                t,
                dx + 1,
                start,
                right,
                end,
                true,
                st2,
            );
        } else {
            lemma_row_reaches(
                spec,
                origin,
                radius,
                octant,
                op,
                d,
                t,
                dx + 1,
                start,
                next_start,
                end,
                false,
                st1,
            );
        }
    }
}

/// A scan of rows `d0..` between slopes `start` and `end`, with the ray
/// between them, finds the target the ray reaches through clear cells.
proof fn lemma_cast_ray(
    spec: GridMapSpec,
    origin: IVec2,
    radius: int,
    octant: int,
    op: spec_fn(IVec2) -> bool,
    s: Slope,
    t: int,
    hi: int,
    d0: int,
    start: Slope,
    end: Slope,
    st: ScanState,
)
    requires
        1 <= d0 <= hi,
        start.1 > 0,
        end.1 > 0,
        slope_le(end, s),
        slope_le(s, start),
        ray_target(spec, origin, radius, octant, s, t, hi),
        ray_clear(spec, origin, octant, op, s, hi),
    ensures
        found(
            shadow_cast(spec, origin, radius, octant, op, d0, start, end, st),
            origin,
            octant,
            t,
            hi,
        ),
    decreases radius + 1 - d0, 2int, 0int,
{
    lemma_slope_trans(end, s, start);
    lemma_rows_ray(spec, origin, radius, octant, op, s, t, hi, d0, start, start, end, st);
}

proof fn lemma_rows_ray(
    spec: GridMapSpec,
    origin: IVec2,
    radius: int,
    octant: int,
    op: spec_fn(IVec2) -> bool,
    s: Slope,
    t: int,
    hi: int,
    d: int,
    start: Slope,
    next_start: Slope,
    end: Slope,
    st: ScanState,
)
    requires
        1 <= d <= hi,
        start.1 > 0,
        end.1 > 0,
        slope_le(end, s),
        slope_le(s, start),
        ray_target(spec, origin, radius, octant, s, t, hi),
        ray_clear(spec, origin, octant, op, s, hi),
    ensures
        found(
            shadow_rows(spec, origin, radius, octant, op, d, start, next_start, end, st),
            origin,
            octant,
            t,
            hi,
        ),
    decreases radius + 1 - d, 1int, 0int,
{
    let r = shadow_row(spec, origin, radius, octant, op, d, -d, start, next_start, end, false, st);
    if d < hi {
        lemma_row_ray(
            spec,
            origin,
            radius,
            octant,
            op,
            s,
            t,
            hi,
            d,
            -d,
            start,
            next_start,
            end,
            false,
            st,
        );
        if found(r.3, origin, octant, t, hi) {
            if !r.2 {
                lemma_rows_grow(spec, origin, radius, octant, op, d + 1, r.0, r.1, end, r.3);
            }
        } else {
            lemma_rows_ray(spec, origin, radius, octant, op, s, t, hi, d + 1, r.0, r.1, end, r.3);
        }
    } else {
        lemma_slope_trans(right_slope(t, d), s, start);
        lemma_slope_trans(end, s, left_slope(t, d));
        lemma_row_reaches(
            spec,
            origin,
            radius,
            octant,
            op,
            d,
            t,
            -d,
            start,
            next_start,
            end,
            false,
            st,
        );
        if !r.2 {
            lemma_rows_grow(spec, origin, radius, octant, op, d + 1, r.0, r.1, end, r.3);
        }
    }
}

/// A row before the target's: either the target has been found (by a scan
/// started from a blocker past the ray), or the row ends unblocked with
/// the ray still below its start slope.
proof fn lemma_row_ray(
    spec: GridMapSpec,
    origin: IVec2,
    radius: int,
    octant: int,
    op: spec_fn(IVec2) -> bool,
    s: Slope,
    t: int,
    hi: int,
    d: int,
    dx: int,
    start: Slope,
    next_start: Slope,
    end: Slope,
    blocked: bool,
    st: ScanState,
)
    requires
        1 <= d < hi,
        -d <= dx <= 1,
        start.1 > 0,
        end.1 > 0,
        slope_le(end, s),
        slope_le(s, start),
        blocked ==> next_start == right_slope(dx - 1, d) && slope_lt(s, next_start) && slope_le(
            next_start,
            start,
        ),
        ray_target(spec, origin, radius, octant, s, t, hi),
        ray_clear(spec, origin, octant, op, s, hi),
    ensures
        ({
            let r = shadow_row(
                spec,
                origin,
                radius,
                octant,
                op,
                d,
                dx,
                start,
                next_start,
                end,
                blocked,
                st,
            );
            found(r.3, origin, octant, t, hi) || (!r.2 && r.0.1 > 0 && slope_le(s, r.0))
        }),
    decreases radius + 1 - d, 0int, 1 - dx,
{
    let left = left_slope(dx, d);
    let right = right_slope(dx, d);
    let prev = right_slope(dx - 1, d);
    lemma_row_slopes(d, dx - 1, dx);
    lemma_row_slopes(d, dx, dx);
    if dx > 0 {
        if blocked {
            lemma_slope_trans(s, prev, (0, 1));
        }
    } else {
        if blocked {
            // The cell before was skipped by no start slope, and sits before
            // the ray: the ray cannot already lie past this one.
            lemma_slope_trans(right, prev, start);
            lemma_slope_trans(s, prev, left);
        }
        if slope_lt(start, right) {
            lemma_row_ray(
                spec,
                origin,
                radius,
                octant,
                op,
                s,
                t,
                hi,
                d,
                dx + 1,
                start,
                next_start,
                end,
                blocked,
                st,
            );
        } else if slope_lt(left, end) {
            lemma_slope_trans(left, end, s);
        } else {
            let p = scan_point(origin, octant, dx, d);
            let opaque = !spec.contains(p) || op(cell_at(p));
            let st1 = record_cell(spec, origin, radius, octant, dx, d, st);
            if blocked {
                if opaque {
                    lemma_row_ray(
                        spec,
                        origin,
                        radius,
                        octant,
                        op,
                        s,
                        t,
                        hi,
                        d,
                        dx + 1,
                        start,
                        right,
                        end,
                        true,
                        st1,
                    );
                } else {
                    lemma_row_ray(
                        spec,
                        origin,
                        radius,
                        octant,
                        op,
                        s,
                        t,
                        hi,
                        d,
                        dx + 1,
                        next_start,
                        next_start,
                        end,
                        false,
                        st1,
                    );
                }
            } else if opaque && d < radius {
                let st2 = shadow_cast(spec, origin, radius, octant, op, d + 1, start, left, st1);
                if slope_lt(left, s) {
                    lemma_cast_ray(
                        spec,
                        origin,
                        radius,
                        octant,
                        op,
                        s,
                        t,
                        hi,
                        d + 1,
                        start,
                        left,
                        st1,
                    );
                    lemma_row_grows(
                        spec,
                        origin,
                        radius,
                        octant,
                        op,
                        d,
                        dx + 1,
                        start,
                        right,
                        end,
                        true,
                        st2,
                    );
                } else {
                    lemma_row_ray(
                        spec,
                        origin,
                        radius,
                        octant,
                        op,
                        s,
                        t,
                        hi,
                        d,
                        dx + 1,
                        start,
                        right,
                        end,
                        true,
                        st2,
                    );
                }
            } else {
                lemma_row_ray(
                    spec,
                    origin,
                    radius,
                    octant,
                    op,
                    s,
                    t,
                    hi,
                    d,
                    dx + 1,
                    start,
                    next_start,
                    end,
                    false,
                    st1,
                );
            }
        }
    }
}

/// Octant coordinates keep distances: the cell at column `dx` of row `k` is
/// as far from the origin as the offset `(dx, k)`.
proof fn lemma_octant_distance(origin: IVec2, octant: int, dx: int, k: int)
    requires
        0 <= octant < 8,
    ensures
        ({
            let p = scan_point(origin, octant, dx, k);
            (p.0 - origin.x) * (p.0 - origin.x) + (p.1 - origin.y) * (p.1 - origin.y) == dx * dx
                + k * k
        }),
{
    assert((-dx) * (-dx) == dx * dx && (-k) * (-k) == k * k) by (nonlinear_arith);
}

/// Shadowcasting misses nothing that a clear ray reaches: take a ray from
/// the centre of the origin's cell into `octant`, of slope `s` between zero
/// and one.  When every cell that the ray meets in the rows before row
/// `hi` lies on the grid and is transparent, and the ray meets `target`,
/// the cell at column `t` of row `hi`, which lies on the grid within the
/// radius, then `target` is in the field of view exactly when the origin
/// has line of sight to it.  Blockers shadow only the cells that no clear
/// ray reaches.
#[verifier::spinoff_prover]
pub proof fn lemma_clear_ray_is_seen(
    spec: GridMapSpec,
    origin: IVec2,
    config: GridFovConfig,
    op: spec_fn(IVec2) -> bool,
    octant: int,
    s: Slope,
    t: int,
    hi: int,
    target: IVec2,
)
    requires
        config.backend == GridFovBackend::RecursiveShadowcasting,
        0 <= octant < 8,
        s.1 > 0,
        0 <= s.0 <= s.1,
        1 <= hi,
        -hi <= t <= 0,
        target.pt() == scan_point(origin, octant, t, hi),
        ray_meets(s, t, hi),
        spec.contains(origin.pt()),
        spec.contains(target.pt()),
        within_radius(origin.pt(), target.pt(), effective_radius(config)),
        ray_clear(spec, origin, octant, op, s, hi),
    ensures
        fov_cells(spec, origin, config, op).contains(target) == line_of_sight(
            spec,
            origin,
            target,
            config.corner_policy,
            config.reveal_blockers,
            op,
        ),
{
    let radius = effective_radius(config);
    lemma_octant_distance(origin, octant, t, hi);
    assert(hi <= radius && (t - 0) * (t - 0) + (-hi - 0) * (-hi - 0) <= radius * radius)
        by (nonlinear_arith)
        requires
            t * t + hi * hi <= radius * radius,
            hi >= 1,
            radius >= 0,
    ;
    assert(ray_target(spec, origin, radius, octant, s, t, hi));
    let before = shadow_octants(spec, origin, radius, op, octant);
    lemma_cast_ray(spec, origin, radius, octant, op, s, t, hi, 1, (1, 1), (0, 1), before);
    lemma_octant_sets_kept(spec, origin, radius, op, octant + 1);
    lemma_cell_at_pt(target);
    assert(target != origin) by {
        assert(t * t + hi * hi > 0) by (nonlinear_arith)
            requires
                hi >= 1,
        ;
    }
    assert(shadow_candidates(spec, origin, config, op).0.contains(target));
}

} // verus!
