//! The ray-cast grid field of view: every cell in range is tested with its
//! own line of sight.

use vstd::prelude::*;

use crate::algorithms::los::{grid_line_of_sight, line_of_sight};
use crate::algorithms::opacity::OpacitySource;
use crate::geometry::{saturate, cell_box, cell_lt, lemma_cell_box_finite, strictly_sorted, IVec2};
use crate::grid::{GridFovConfig, GridFovResult, GridMapSpec};

verus! {

/// The radius actually used: negative radii act as zero.
pub open spec fn effective_radius(config: GridFovConfig) -> int {
    if config.radius > 0 {
        config.radius as int
    } else {
        0
    }
}

/// `c` lies within distance `r` of `o` (inclusive, Euclidean).
pub open spec fn within_radius(o: (int, int), c: (int, int), r: int) -> bool {
    (c.0 - o.0) * (c.0 - o.0) + (c.1 - o.1) * (c.1 - o.1) <= r * r
}

/// Lower end of the scanned range along one axis.
pub open spec fn scan_lo(o: int, r: int) -> int {
    if o - r > 0 {
        o - r
    } else {
        0
    }
}

/// Upper end of the scanned range along one axis: the last index of a grid
/// dimension taken as an `i32`.
pub open spec fn scan_hi(o: int, r: int, dim: u32) -> int {
    let top = (dim as i32) - 1;
    if o + r < top {
        o + r
    } else {
        top
    }
}

/// The box of cells the ray-cast backend scans.
pub open spec fn in_scan_box(spec: GridMapSpec, origin: IVec2, r: int, c: IVec2) -> bool {
    &&& scan_lo(origin.x as int, r) <= c.x <= scan_hi(origin.x as int, r, spec.dimensions.x)
    &&& scan_lo(origin.y as int, r) <= c.y <= scan_hi(origin.y as int, r, spec.dimensions.y)
}

/// The cells the ray-cast backend reports: the origin, and every scanned cell
/// within the radius that the origin can see.
pub open spec fn raycast_visible(
    spec: GridMapSpec,
    origin: IVec2,
    config: GridFovConfig,
    op: spec_fn(IVec2) -> bool,
) -> Set<IVec2> {
    let r = effective_radius(config);
    Set::new(
        |c: IVec2|
            c == origin || (in_scan_box(spec, origin, r, c) && within_radius(origin.pt(), c.pt(), r)
                && line_of_sight(spec, origin, c, config.corner_policy, config.reveal_blockers, op)),
    )
}

/// The scanned cells other than the origin that lie within the radius; each
/// of them gets a line-of-sight test.
pub open spec fn raycast_tested(spec: GridMapSpec, origin: IVec2, config: GridFovConfig) -> Set<
    IVec2,
> {
    let r = effective_radius(config);
    Set::new(
        |c: IVec2|
            c != origin && in_scan_box(spec, origin, r, c) && within_radius(origin.pt(), c.pt(), r),
    )
}

/// `c` comes before `(x, y)` in row-major order.
pub open spec fn before(c: IVec2, x: int, y: int) -> bool {
    c.y < y || (c.y == y && c.x < x)
}

/// Facts about a `u32` grid dimension read as an `i32`.
pub proof fn lemma_dim_as_i32(dim: u32)
    ensures
        dim <= 0x7fff_ffff ==> (dim as i32) == dim,
        dim > 0x7fff_ffff ==> (dim as i32) < 0,
        dim != 0x8000_0000 ==> (dim as i32) > i32::MIN,
{
    assert(dim <= 0x7fff_ffff ==> (dim as i32) == dim) by (bit_vector);
    assert(dim > 0x7fff_ffff ==> (dim as i32) < 0) by (bit_vector);
    assert(dim != 0x8000_0000 ==> (dim as i32) > i32::MIN) by (bit_vector);
}

fn squared_distance_within(origin: IVec2, cell: IVec2, radius: i32) -> (r: bool)
    requires
        0 <= radius,
        -radius <= cell.x - origin.x <= radius,
        -radius <= cell.y - origin.y <= radius,
    ensures
        r == within_radius(origin.pt(), cell.pt(), radius as int),
{
    let dx = cell.x as i64 - origin.x as i64;
    let dy = cell.y as i64 - origin.y as i64;
    let r = radius as i64;
    assert(dx * dx <= r * r && dy * dy <= r * r && r * r <= 0x3fff_ffff_0000_0001)
        by (nonlinear_arith)
        requires
            -r <= dx <= r,
            -r <= dy <= r,
            0 <= r <= 0x7fff_ffff,
    ;
    assert(dx * dx >= 0 && dy * dy >= 0) by (nonlinear_arith);
    dx * dx + dy * dy <= r * r
}

/// The ray-cast field of view from an in-bounds origin.
pub fn raycast_visibility<Q: OpacitySource>(
    spec: &GridMapSpec,
    origin: IVec2,
    config: &GridFovConfig,
    is_opaque: &Q,
) -> (r: GridFovResult)
    requires
        is_opaque.ready(),
        spec.contains(origin.pt()),
        origin.x + effective_radius(*config) <= i32::MAX,
        origin.y + effective_radius(*config) <= i32::MAX,
        spec.dimensions.x != 0x8000_0000,
        spec.dimensions.y != 0x8000_0000,
    ensures
        strictly_sorted(r.visible_cells@),
        r.visible_cells@.to_set() == raycast_visible(*spec, origin, *config, is_opaque.opacity()),
        r.cells_considered == saturate((1 + raycast_tested(*spec, origin, *config).len()) as int),
{
    let ghost op = is_opaque.opacity();
    let ghost target = raycast_visible(*spec, origin, *config, op);
    let ghost tested = raycast_tested(*spec, origin, *config);
    let radius: i32 = if config.radius > 0 {
        config.radius
    } else {
        0
    };
    let ghost rr = radius as int;
    proof {
        lemma_dim_as_i32(spec.dimensions.x);
        lemma_dim_as_i32(spec.dimensions.y);
    }
    let mut visible: Vec<IVec2> = Vec::new();
    let mut cells_considered: usize = 1;

    let lo_y = origin.y - radius;
    let min_y = if lo_y > 0 {
        lo_y
    } else {
        0
    };
    let top_y = (spec.dimensions.y as i32) - 1;
    let max_y = if origin.y + radius < top_y {
        origin.y + radius
    } else {
        top_y
    };
    let lo_x = origin.x - radius;
    let min_x = if lo_x > 0 {
        lo_x
    } else {
        0
    };
    let top_x = (spec.dimensions.x as i32) - 1;
    let max_x = if origin.x + radius < top_x {
        origin.x + radius
    } else {
        top_x
    };

    let ghost mut seen: Set<IVec2> = Set::empty();
    proof {
        lemma_cell_box_finite(min_x as int, max_x as int, min_y as int, max_y as int);
        assert(tested.subset_of(cell_box(min_x as int, max_x as int, min_y as int, max_y as int)));
        vstd::set_lib::lemma_set_subset_finite(
            cell_box(min_x as int, max_x as int, min_y as int, max_y as int),
            tested,
        );
        assert(seen =~= tested.filter(|c: IVec2| c.y < min_y));
    }
    let mut y = min_y;
    while y <= max_y
        invariant
            is_opaque.ready(),
            op == is_opaque.opacity(),
            target == raycast_visible(*spec, origin, *config, op),
            tested == raycast_tested(*spec, origin, *config),
            rr == effective_radius(*config),
            radius == rr,
            min_y == scan_lo(origin.y as int, rr),
            max_y == scan_hi(origin.y as int, rr, spec.dimensions.y),
            min_x == scan_lo(origin.x as int, rr),
            max_x == scan_hi(origin.x as int, rr, spec.dimensions.x),
            max_x < i32::MAX,
            max_y < i32::MAX,
            origin.x - rr <= min_x,
            origin.y - rr <= min_y,
            max_x <= origin.x + rr,
            max_y <= origin.y + rr,
            min_y <= y,
            y == min_y || y <= max_y + 1,
            tested.finite(),
            strictly_sorted(visible@),
            forall|c: IVec2| #[trigger]
                visible@.contains(c) <==> (target.contains(c) && in_scan_box(
                    *spec,
                    origin,
                    rr,
                    c,
                ) && c.y < y),
            forall|i: int| 0 <= i < visible@.len() ==> (#[trigger] visible@[i]).y < y,
            seen.finite(),
            seen == tested.filter(|c: IVec2| c.y < y),
            cells_considered == saturate((1 + seen.len()) as int),
        decreases max_y + 1 - y,
    {
        let mut x = min_x;
        while x <= max_x
            invariant
                is_opaque.ready(),
                op == is_opaque.opacity(),
                target == raycast_visible(*spec, origin, *config, op),
                tested == raycast_tested(*spec, origin, *config),
                    rr == effective_radius(*config),
                radius == rr,
                min_y == scan_lo(origin.y as int, rr),
                max_y == scan_hi(origin.y as int, rr, spec.dimensions.y),
                min_x == scan_lo(origin.x as int, rr),
                max_x == scan_hi(origin.x as int, rr, spec.dimensions.x),
                max_x < i32::MAX,
                origin.x - rr <= min_x,
                origin.y - rr <= min_y,
                max_x <= origin.x + rr,
                max_y <= origin.y + rr,
                min_y <= y <= max_y,
                min_x <= x,
                x == min_x || x <= max_x + 1,
                tested.finite(),
                strictly_sorted(visible@),
                forall|c: IVec2| #[trigger]
                    visible@.contains(c) <==> (target.contains(c) && in_scan_box(
                        *spec,
                        origin,
                        rr,
                        c,
                    ) && before(c, x as int, y as int)),
                forall|i: int|
                    0 <= i < visible@.len() ==> before(#[trigger] visible@[i], x as int, y as int),
                seen.finite(),
                seen == tested.filter(|c: IVec2| before(c, x as int, y as int)),
                cells_considered == saturate((1 + seen.len()) as int),
            decreases max_x + 1 - x,
        {
            let cell = IVec2::new(x, y);
            assert(in_scan_box(*spec, origin, rr, cell));
            let ghost old_visible = visible@;
            let ghost old_seen = seen;
            let ghost mut pushed = false;
            if cell == origin {
                visible.push(cell);
                proof {
                    pushed = true;
                }
            } else if squared_distance_within(origin, cell, radius) {
                proof {
                    assert(tested.contains(cell));
                    assert(!seen.contains(cell));
                    seen = seen.insert(cell);
                    vstd::set::axiom_set_insert_len(old_seen, cell);
                }
                cells_considered = cells_considered.saturating_add(1);
                if grid_line_of_sight(
                    spec,
                    origin,
                    cell,
                    config.corner_policy,
                    config.reveal_blockers,
                    is_opaque,
                ) {
                    visible.push(cell);
                    proof {
                        pushed = true;
                    }
                }
            }
            proof {
                assert(pushed <==> target.contains(cell));
                assert(visible@ == if pushed {
                    old_visible.push(cell)
                } else {
                    old_visible
                });
                assert(!old_visible.contains(cell));
                assert forall|c: IVec2| #[trigger]
                    visible@.contains(c) <==> (target.contains(c) && in_scan_box(
                        *spec,
                        origin,
                        rr,
                        c,
                    ) && before(c, x + 1, y as int)) by {
                    if c != cell {
                        assert(before(c, x as int, y as int) == before(c, x + 1, y as int));
                        if pushed {
                            if visible@.contains(c) {
                                let i = choose|i: int| 0 <= i < visible@.len() && visible@[i] == c;
                                assert(i < old_visible.len());
                                assert(old_visible[i] == c);
                                assert(old_visible.contains(c));
                            }
                            if old_visible.contains(c) {
                                let i = choose|i: int|
                                    0 <= i < old_visible.len() && old_visible[i] == c;
                                assert(visible@[i] == c);
                            }
                        }
                    } else {
                        if pushed {
                            assert(visible@[visible@.len() - 1] == cell);
                        }
                    }
                }
                assert(seen =~= tested.filter(|c: IVec2| before(c, x + 1, y as int)));
            }
            x += 1;
        }
        proof {
            assert(seen =~= tested.filter(|c: IVec2| c.y < y + 1));
        }
        y += 1;
    }
    if min_x > max_x || min_y > max_y {
        proof {
            if visible@.len() > 0 {
                assert(visible@.contains(visible@[0]));
            }
        }
        visible.push(origin);
    }
    proof {
        assert(seen =~= tested);
        if min_x <= max_x && min_y <= max_y {
            assert(in_scan_box(*spec, origin, rr, origin));
            assert forall|c: IVec2| #[trigger]
                visible@.to_set().contains(c) <==> target.contains(c) by {
                assert(visible@.to_set().contains(c) == visible@.contains(c));
            }
        } else {
            assert(target =~= set![origin]);
            assert(visible@ == seq![origin]);
            assert(visible@[0] == origin);
            assert forall|c: IVec2| #[trigger]
                visible@.to_set().contains(c) <==> target.contains(c) by {
                assert(visible@.to_set().contains(c) == visible@.contains(c));
                if visible@.contains(c) {
                    let i = choose|i: int| 0 <= i < visible@.len() && visible@[i] == c;
                    assert(i == 0);
                }
                if c == origin {
                    assert(visible@.contains(origin));
                }
            }
        }
        assert(visible@.to_set() =~= target);
    }
    GridFovResult { visible_cells: visible, cells_considered }
}

/// The ray-cast backend reports exactly the origin and every cell that lies
/// on the grid within the radius and that the origin can see, on a grid
/// whose dimensions fit in `i32`.
pub proof fn lemma_raycast_reports_exactly(
    spec: GridMapSpec,
    origin: IVec2,
    config: GridFovConfig,
    op: spec_fn(IVec2) -> bool,
    c: IVec2,
)
    requires
        spec.contains(origin.pt()),
        spec.dimensions.x <= i32::MAX,
        spec.dimensions.y <= i32::MAX,
    ensures
        raycast_visible(spec, origin, config, op).contains(c) == (c == origin || (spec.contains(
            c.pt(),
        ) && within_radius(origin.pt(), c.pt(), effective_radius(config)) && line_of_sight(
            spec,
            origin,
            c,
            config.corner_policy,
            config.reveal_blockers,
            op,
        ))),
{
    let r = effective_radius(config);
    lemma_dim_as_i32(spec.dimensions.x);
    lemma_dim_as_i32(spec.dimensions.y);
    if c != origin && within_radius(origin.pt(), c.pt(), r) {
        let dx = c.x - origin.x;
        let dy = c.y - origin.y;
        assert(-r <= dx <= r && -r <= dy <= r) by (nonlinear_arith)
            requires
                dx * dx + dy * dy <= r * r,
                r >= 0,
        ;
    }
}

} // verus!
