//! The supercover line walk shared by `supercover_line` and grid line of
//! sight.

use vstd::prelude::*;

use crate::geometry::IVec2;

verus! {

pub open spec fn sgn(v: int) -> int {
    if v > 0 {
        1
    } else if v < 0 {
        -1
    } else {
        0
    }
}

pub open spec fn abs_int(v: int) -> int {
    if v < 0 {
        -v
    } else {
        v
    }
}

/// `o` moved `a` steps in direction `s` (`s` in -1, 0, 1).
pub open spec fn step_coord(o: int, s: int, a: int) -> int {
    if s < 0 {
        o - a
    } else if s > 0 {
        o + a
    } else {
        o
    }
}

/// Which boundary the segment from the start to `(nx, ny)` crosses next,
/// after `ix` horizontal and `iy` vertical steps: negative for a vertical cell
/// edge, positive for a horizontal one, zero for a corner.
pub open spec fn decision(nx: int, ny: int, ix: int, iy: int) -> int {
    (1 + 2 * ix) * ny - (1 + 2 * iy) * nx
}

/// Step counts after the next step of the walk.
pub open spec fn next_offset(nx: int, ny: int, ix: int, iy: int) -> (int, int) {
    let d = decision(nx, ny, ix, iy);
    if d == 0 {
        (ix + 1, iy + 1)
    } else if d < 0 {
        (ix + 1, iy)
    } else {
        (ix, iy + 1)
    }
}

pub proof fn lemma_next_offset_progress(nx: int, ny: int, ix: int, iy: int)
    requires
        0 <= ix <= nx,
        0 <= iy <= ny,
        ix < nx || iy < ny,
    ensures
        ix <= next_offset(nx, ny, ix, iy).0 <= nx,
        iy <= next_offset(nx, ny, ix, iy).1 <= ny,
        next_offset(nx, ny, ix, iy).0 <= ix + 1,
        next_offset(nx, ny, ix, iy).1 <= iy + 1,
        next_offset(nx, ny, ix, iy).0 + next_offset(nx, ny, ix, iy).1 > ix + iy,
        decision(nx, ny, ix, iy) == 0 ==> ix < nx && iy < ny,
{
    if ix == nx {
        assert(decision(nx, ny, ix, iy) > 0) by (nonlinear_arith)
            requires
                ix == nx,
                0 <= iy < ny,
                nx >= 0,
        ;
    } else if iy == ny {
        assert(decision(nx, ny, ix, iy) < 0) by (nonlinear_arith)
            requires
                iy == ny,
                0 <= ix < nx,
                ny >= 0,
        ;
    }
}

/// The step counts visited after leaving `(ix, iy)`, up to `(nx, ny)`.
pub open spec fn offsets_from(nx: int, ny: int, ix: int, iy: int) -> Seq<(int, int)>
    decreases (nx - ix) + (ny - iy),
{
    if 0 <= ix <= nx && 0 <= iy <= ny && (ix < nx || iy < ny) {
        let n = next_offset(nx, ny, ix, iy);
        proof {
            lemma_next_offset_progress(nx, ny, ix, iy);
        }
        seq![n] + offsets_from(nx, ny, n.0, n.1)
    } else {
        Seq::empty()
    }
}

/// All step counts of the walk from `(0, 0)` to `(nx, ny)`.
pub open spec fn line_offsets(nx: int, ny: int) -> Seq<(int, int)> {
    seq![(0int, 0int)] + offsets_from(nx, ny, 0, 0)
}

/// The cells of the supercover line from `s` to `e`, both included: every
/// cell the segment between the two cell centres passes through, with a
/// single diagonal move where it passes exactly through a cell corner.
pub open spec fn line_points(s: (int, int), e: (int, int)) -> Seq<(int, int)> {
    let sx = sgn(e.0 - s.0);
    let sy = sgn(e.1 - s.1);
    line_offsets(abs_int(e.0 - s.0), abs_int(e.1 - s.1)).map_values(
        |o: (int, int)| (step_coord(s.0, sx, o.0), step_coord(s.1, sy, o.1)),
    )
}

pub proof fn lemma_offsets_from(nx: int, ny: int, ix: int, iy: int)
    requires
        0 <= ix <= nx,
        0 <= iy <= ny,
    ensures
        ({
            let s = offsets_from(nx, ny, ix, iy);
            &&& (s.len() == 0 <==> (ix == nx && iy == ny))
            &&& s.len() > 0 ==> s[0] == next_offset(nx, ny, ix, iy)
            &&& s.len() > 0 ==> s[s.len() - 1] == (nx, ny)
            &&& forall|j: int|
                0 <= j < s.len() ==> ix <= #[trigger] s[j].0 <= nx && iy <= s[j].1 <= ny
            &&& forall|j: int| 0 <= j < s.len() - 1 ==> #[trigger] s[j] != (nx, ny)
            &&& s.len() <= (nx - ix) + (ny - iy)
        }),
    decreases (nx - ix) + (ny - iy),
{
    if ix < nx || iy < ny {
        let n = next_offset(nx, ny, ix, iy);
        lemma_next_offset_progress(nx, ny, ix, iy);
        lemma_offsets_from(nx, ny, n.0, n.1);
        let rest = offsets_from(nx, ny, n.0, n.1);
        let s = offsets_from(nx, ny, ix, iy);
        assert(s == seq![n] + rest);
        assert forall|j: int| 0 <= j < s.len() - 1 implies #[trigger] s[j] != (nx, ny) by {
            if j > 0 {
                assert(s[j] == rest[j - 1]);
            } else {
                if rest.len() > 0 {
                } else {
                    assert(s.len() == 1);
                }
            }
        }
        assert forall|j: int| 0 <= j < s.len() implies ix <= #[trigger] s[j].0 <= nx && iy
            <= s[j].1 <= ny by {
            if j > 0 {
                assert(s[j] == rest[j - 1]);
            }
        }
    }
}

/// Shape of the whole walk: it starts at `(0, 0)`, ends at `(nx, ny)`, and
/// every step advances by one along one or both axes.
pub proof fn lemma_line_offsets(nx: int, ny: int)
    requires
        0 <= nx,
        0 <= ny,
    ensures
        ({
            let s = line_offsets(nx, ny);
            &&& s.len() >= 1
            &&& s[0] == (0int, 0int)
            &&& s[s.len() - 1] == (nx, ny)
            &&& forall|j: int| 0 <= j < s.len() ==> 0 <= #[trigger] s[j].0 <= nx && 0 <= s[j].1 <= ny
            &&& forall|j: int| 0 <= j < s.len() - 1 ==> #[trigger] s[j] != (nx, ny)
            &&& s.len() <= nx + ny + 1
        }),
{
    lemma_offsets_from(nx, ny, 0, 0);
    let rest = offsets_from(nx, ny, 0, 0);
    let s = line_offsets(nx, ny);
    assert forall|j: int| 0 <= j < s.len() - 1 implies #[trigger] s[j] != (nx, ny) by {
        if j > 0 {
            assert(s[j] == rest[j - 1]);
        }
    }
    assert forall|j: int| 0 <= j < s.len() implies 0 <= #[trigger] s[j].0 <= nx && 0 <= s[j].1
        <= ny by {
        if j > 0 {
            assert(s[j] == rest[j - 1]);
        }
    }
}

/// Consecutive entries of the walk are one step apart.
pub proof fn lemma_line_offsets_step(nx: int, ny: int, j: int)
    requires
        0 <= nx,
        0 <= ny,
        0 <= j < line_offsets(nx, ny).len() - 1,
    ensures
        line_offsets(nx, ny)[j + 1] == next_offset(
            nx,
            ny,
            line_offsets(nx, ny)[j].0,
            line_offsets(nx, ny)[j].1,
        ),
    decreases j,
{
    lemma_offsets_step(nx, ny, 0, 0, j);
}

/// Entry `j + 1` of the walk from `(ix, iy)` is one step after entry `j`;
/// entry `-1` standing for `(ix, iy)` itself.
pub proof fn lemma_offsets_step(nx: int, ny: int, ix: int, iy: int, j: int)
    requires
        0 <= ix <= nx,
        0 <= iy <= ny,
        0 <= j < offsets_from(nx, ny, ix, iy).len() + 1 - 1,
    ensures
        ({
            let s = seq![(ix, iy)] + offsets_from(nx, ny, ix, iy);
            s[j + 1] == next_offset(nx, ny, s[j].0, s[j].1)
        }),
    decreases j,
{
    lemma_offsets_from(nx, ny, ix, iy);
    let n = next_offset(nx, ny, ix, iy);
    if j > 0 {
        lemma_next_offset_progress(nx, ny, ix, iy);
        lemma_offsets_step(nx, ny, n.0, n.1, j - 1);
        let rest = offsets_from(nx, ny, n.0, n.1);
        let s = seq![(ix, iy)] + offsets_from(nx, ny, ix, iy);
        let s2 = seq![n] + rest;
        assert(offsets_from(nx, ny, ix, iy) == s2);
        assert(s[j] == s2[j - 1]);
        assert(s[j + 1] == s2[j]);
    }
}

/// Unfolds one step of the walk.
pub proof fn lemma_offsets_unfold(nx: int, ny: int, ix: int, iy: int)
    requires
        0 <= ix <= nx,
        0 <= iy <= ny,
        ix < nx || iy < ny,
    ensures
        offsets_from(nx, ny, ix, iy) == seq![next_offset(nx, ny, ix, iy)] + offsets_from(
            nx,
            ny,
            next_offset(nx, ny, ix, iy).0,
            next_offset(nx, ny, ix, iy).1,
        ),
{
}

} // verus!
