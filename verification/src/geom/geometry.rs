//! Lines on the plane, traced tile by tile.
use vstd::prelude::*;

use crate::geom::coords::Coords;
use crate::geom::coords::PlanarProjection;
use crate::geom::grid::Direction;
use crate::geom::grid::Grid;
use crate::geom::isometry::GridIsometry;

verus! {

/// Whether the line from `from` to `to`, having reached `along`, goes up next rather than
/// right: the center of the tile above lies on the near side of the line.
pub open spec fn line_turns_up(from: Coords, to: Coords, along: Coords) -> bool {
    (2 * along.y + 1) * (to.x - from.x) < (2 * along.x + 1 - 2 * from.x) * (to.y - from.y)
}

/// The tile after `previous` on the line from `from` to `to`: none once the line has reached
/// `to`, else the tile above or the one to the right.
pub open spec fn line_next<T: Grid<Neighbor = T> + PlanarProjection>(
    from: Coords,
    to: Coords,
    previous: GridIsometry<T>,
) -> Option<GridIsometry<T>> {
    if previous.spec_project() == to {
        None
    } else if line_turns_up(from, to, previous.spec_project()) {
        previous.spec_go(Direction::Up)
    } else {
        previous.spec_go(Direction::Right)
    }
}

/// The first `n` tiles of the line from `from` to `to` that starts at `start`, fewer where
/// the line ends or leaves the grid.
pub open spec fn line_trace<T: Grid<Neighbor = T> + PlanarProjection>(
    from: Coords,
    to: Coords,
    start: GridIsometry<T>,
    n: nat,
) -> Seq<GridIsometry<T>>
    decreases n,
{
    if n == 0 {
        Seq::empty()
    } else {
        seq![start] + match line_next(from, to, start) {
            Some(next) => line_trace(from, to, next, (n - 1) as nat),
            None => Seq::empty(),
        }
    }
}

/// The first `n` tiles of the trace project into `Coords`.
pub open spec fn trace_projectable<T: Grid<Neighbor = T> + PlanarProjection>(
    from: Coords,
    to: Coords,
    start: GridIsometry<T>,
    n: nat,
) -> bool
    decreases n,
{
    n == 0 || (start.projectable() && match line_next(from, to, start) {
        Some(next) => trace_projectable(from, to, next, (n - 1) as nat),
        None => true,
    })
}

/// Which way the line turns, computed without overflow.
fn turns_up(from: Coords, to: Coords, along: Coords) -> (r: bool)
    ensures
        r == line_turns_up(from, to, along),
{
    let a: i128 = 2 * (along.y as i128) + 1;
    let b: i128 = to.x as i128 - from.x as i128;
    let c: i128 = 2 * (along.x as i128) + 1 - 2 * (from.x as i128);
    let d: i128 = to.y as i128 - from.y as i128;
    assert(-0x4_0000_0000 * 0x4_0000_0000 <= a * b <= 0x4_0000_0000 * 0x4_0000_0000) by (nonlinear_arith)
        requires
            -0x2_0000_0000 <= a <= 0x2_0000_0000,
            -0x2_0000_0000 <= b <= 0x2_0000_0000,
    ;
    assert(-0x4_0000_0000 * 0x4_0000_0000 <= c * d <= 0x4_0000_0000 * 0x4_0000_0000) by (nonlinear_arith)
        requires
            -0x4_0000_0000 <= c <= 0x4_0000_0000,
            -0x2_0000_0000 <= d <= 0x2_0000_0000,
    ;
    a * b < c * d
}

fn step_from_coords<T: Grid<Neighbor = T> + PlanarProjection>(
    from: Coords,
    to: Coords,
    previous: &GridIsometry<T>,
) -> (r: Option<GridIsometry<T>>)
    requires
        previous.projectable(),
    ensures
        r == line_next(from, to, *previous),
{
    let along = previous.project_coords();
    if along.x == to.x && along.y == to.y {
        None
    } else if turns_up(from, to, along) {
        previous.go(Direction::Up)
    } else {
        previous.go(Direction::Right)
    }
}

/// The tile after `previous` on the line from `from` to `to`, in the frame of `from`: none
/// once the line has reached `to`; else up where the center of the tile above lies on the
/// near side of the line, and right otherwise.
pub fn line_step<T: Grid<Neighbor = T> + PlanarProjection + Clone>(
    from: &GridIsometry<T>,
    to: &GridIsometry<T>,
    previous: &GridIsometry<T>,
) -> (r: Option<GridIsometry<T>>)
    requires
        from.projectable(),
        to.projectable(),
        previous.projectable(),
    ensures
        r == line_next(from.spec_project(), to.spec_project(), *previous),
{
    step_from_coords(from.project_coords(), to.project_coords(), previous)
}

/// The tiles of the line from `from` to `to`, starting at `from`, at most `max_len` of them.
pub fn line_tiles<T: Grid<Neighbor = T> + PlanarProjection + Clone>(
    from: GridIsometry<T>,
    to: &GridIsometry<T>,
    max_len: usize,
) -> (r: Vec<GridIsometry<T>>)
    requires
        to.projectable(),
        trace_projectable(from.spec_project(), to.spec_project(), from, max_len as nat),
    ensures
        r@ == line_trace(from.spec_project(), to.spec_project(), from, max_len as nat),
{
    let mut out: Vec<GridIsometry<T>> = Vec::new();
    if max_len == 0 {
        return out;
    }
    let fc = from.project_coords();
    let tc = to.project_coords();
    let ghost start = from;
    let mut cur = from;
    let mut k: usize = 0;
    loop
        invariant
            k < max_len,
            start == from,
            fc == start.spec_project(),
            tc == to.spec_project(),
            trace_projectable(fc, tc, cur, (max_len - k) as nat),
            out@ + line_trace(fc, tc, cur, (max_len - k) as nat) == line_trace(fc, tc, start, max_len as nat),
        ensures
            out@ == line_trace(fc, tc, start, max_len as nat),
        decreases max_len - k,
    {
        assert(out@ + line_trace(fc, tc, cur, (max_len - k) as nat) == line_trace(fc, tc, start, max_len as nat));
        let next = step_from_coords(fc, tc, &cur);
        let ghost before = out@;
        let ghost c = cur;
        out.push(cur);
        proof {
            assert(line_trace(fc, tc, c, (max_len - k) as nat) == seq![c] + match line_next(fc, tc, c) {
                Some(n) => line_trace(fc, tc, n, (max_len - k - 1) as nat),
                None => Seq::<GridIsometry<T>>::empty(),
            });
        }
        match next {
            Some(n) => {
                if k + 1 == max_len {
                    proof {
                        assert(line_trace(fc, tc, n, 0) == Seq::<GridIsometry<T>>::empty());
                        assert(out@ =~= before + seq![c]);
                        assert(out@ =~= before + line_trace(fc, tc, c, (max_len - k) as nat));
                        assert(out@ == line_trace(fc, tc, start, max_len as nat));
                        assert(start == from);
                    }
                    return out;
                }
                proof {
                    assert(out@ =~= before + seq![c]);
                    assert(before + line_trace(fc, tc, c, (max_len - k) as nat) =~= out@ + line_trace(fc, tc, n, (max_len - k - 1) as nat));
                }
                cur = n;
                k += 1;
            },
            None => {
                proof {
                    assert(out@ =~= before + line_trace(fc, tc, c, (max_len - k) as nat));
                    assert(out@ == line_trace(fc, tc, start, max_len as nat));
                    assert(start == from);
                }
                return out;
            },
        }
    }
    out
}

} // verus!
