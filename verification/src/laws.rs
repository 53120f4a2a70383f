//! Laws of the grid and the search, stated over whole paths.

use vstd::prelude::*;
use crate::grid::{Point, in_grid, diag_step, abs_diff};
use crate::search::point_path;

verus! {

/// Law: every diagonal walk takes at least as many hops as the larger
/// coordinate difference between its endpoints. Each hop moves exactly one
/// unit on each axis, so no path can beat that difference; in particular a
/// path's step count never shrinks when the endpoints move further apart
/// along the same line.
pub proof fn lemma_path_steps_lower_bound(
    width: int,
    height: int,
    start: Point,
    goal: Point,
    q: Seq<Point>,
)
    requires
        point_path(width, height, start, goal, q),
    ensures
        q.len() - 1 >= abs_diff(start.x as int, goal.x as int),
        q.len() - 1 >= abs_diff(start.y as int, goal.y as int),
    decreases q.len(),
{
    if q.len() > 1 {
        let q1 = q.subrange(1, q.len() as int);
        assert(point_path(width, height, q[1], goal, q1)) by {
            assert forall|i: int| 0 <= i < q1.len() implies in_grid(
                width,
                height,
                #[trigger] q1[i],
            ) by {
                assert(q1[i] == q[i + 1]);
                assert(in_grid(width, height, q[i + 1]));
            }
            assert forall|i: int| 0 <= i < q1.len() - 1 implies diag_step(
                q1[i],
                #[trigger] q1[i + 1],
            ) by {
                assert(q1[i] == q[i + 1] && q1[i + 1] == q[i + 2]);
                assert(diag_step(q[i + 1], q[i + 2]));
            }
        }
        lemma_path_steps_lower_bound(width, height, q[1], goal, q1);
        assert(diag_step(q[0], q[1]));
    }
}

/// The larger coordinate difference between two cells: the fewest diagonal
/// hops any walk between them could take.
pub open spec fn min_hops(a: Point, b: Point) -> int {
    if abs_diff(a.x as int, b.x as int) >= abs_diff(a.y as int, b.y as int) {
        abs_diff(a.x as int, b.x as int)
    } else {
        abs_diff(a.y as int, b.y as int)
    }
}

/// Law: on a grid with room to zigzag, two cells on the same parity class of
/// `x + y` are joined by some diagonal walk of exactly `min_hops` hops.
/// Together with the lower-bound law, the minimum number of diagonal hops
/// between such cells is exactly the larger coordinate difference.
pub proof fn lemma_min_hops_achievable(width: int, height: int, start: Point, goal: Point)
    requires
        2 <= width,
        2 <= height,
        in_grid(width, height, start),
        in_grid(width, height, goal),
        (start.x + start.y) % 2 == (goal.x + goal.y) % 2,
    ensures
        exists|q: Seq<Point>|
            point_path(width, height, start, goal, q) && q.len() - 1 == min_hops(start, goal),
    decreases min_hops(start, goal),
{
    let dx = abs_diff(start.x as int, goal.x as int);
    let dy = abs_diff(start.y as int, goal.y as int);
    if dx == 0 && dy == 0 {
        let q = seq![start];
        assert(point_path(width, height, start, goal, q) && q.len() - 1 == min_hops(start, goal));
    } else if dx > 0 && dy > 0 {
        let mx: int = if goal.x > start.x {
            start.x + 1
        } else {
            start.x - 1
        };
        let my: int = if goal.y > start.y {
            start.y + 1
        } else {
            start.y - 1
        };
        let mid = Point { x: mx as usize, y: my as usize };
        assert(in_grid(width, height, mid));
        assert((mid.x + mid.y) % 2 == (goal.x + goal.y) % 2);
        lemma_min_hops_achievable(width, height, mid, goal);
        let qr = choose|qr: Seq<Point>|
            point_path(width, height, mid, goal, qr) && qr.len() - 1 == min_hops(mid, goal);
        let q = seq![start] + qr;
        assert(point_path(width, height, start, goal, q)) by {
            assert(q[0] == start);
            assert(q[q.len() - 1] == qr[qr.len() - 1]);
            assert forall|i: int| 0 <= i < q.len() implies in_grid(
                width,
                height,
                #[trigger] q[i],
            ) by {
                if i >= 1 {
                    assert(q[i] == qr[i - 1]);
                }
            }
            assert forall|i: int| 0 <= i < q.len() - 1 implies diag_step(
                q[i],
                #[trigger] q[i + 1],
            ) by {
                if i == 0 {
                    assert(q[1] == qr[0]);
                    assert(qr[0] == mid);
                    assert(diag_step(start, mid));
                } else {
                    let j = i - 1;
                    assert(q[i] == qr[j] && q[i + 1] == qr[j + 1]);
                    assert(diag_step(qr[j], qr[j + 1]));
                }
            }
        }
        assert(min_hops(mid, goal) == min_hops(start, goal) - 1);
        assert(q.len() - 1 == min_hops(start, goal));
    } else if dx > 0 {
        // dy == 0, and parity makes dx even, so dx >= 2: zigzag one row
        let mx: int = if goal.x > start.x {
            start.x + 1
        } else {
            start.x - 1
        };
        let nx: int = if goal.x > start.x {
            start.x + 2
        } else {
            start.x - 2
        };
        let my: int = if start.y == 0 {
            1
        } else {
            start.y - 1
        };
        assert(dx % 2 == 0);
        assert(dx >= 2);
        let mid = Point { x: mx as usize, y: my as usize };
        let nxt = Point { x: nx as usize, y: start.y };
        assert(in_grid(width, height, mid));
        assert(in_grid(width, height, nxt));
        assert((nxt.x + nxt.y) % 2 == (goal.x + goal.y) % 2);
        lemma_min_hops_achievable(width, height, nxt, goal);
        let qr = choose|qr: Seq<Point>|
            point_path(width, height, nxt, goal, qr) && qr.len() - 1 == min_hops(nxt, goal);
        let q = seq![start, mid] + qr;
        assert(point_path(width, height, start, goal, q)) by {
            assert(q[0] == start);
            assert(q[1] == mid);
            assert(q[q.len() - 1] == qr[qr.len() - 1]);
            assert forall|i: int| 0 <= i < q.len() implies in_grid(
                width,
                height,
                #[trigger] q[i],
            ) by {
                if i >= 2 {
                    assert(q[i] == qr[i - 2]);
                }
            }
            assert forall|i: int| 0 <= i < q.len() - 1 implies diag_step(
                q[i],
                #[trigger] q[i + 1],
            ) by {
                if i == 0 {
                    assert(diag_step(start, mid));
                } else if i == 1 {
                    assert(q[2] == qr[0]);
                    assert(qr[0] == nxt);
                    assert(diag_step(mid, nxt));
                } else {
                    let j = i - 2;
                    assert(q[i] == qr[j] && q[i + 1] == qr[j + 1]);
                    assert(diag_step(qr[j], qr[j + 1]));
                }
            }
        }
        assert(min_hops(nxt, goal) == min_hops(start, goal) - 2);
        assert(q.len() - 1 == min_hops(start, goal));
    } else {
        // dx == 0 and dy > 0, even by parity: zigzag one column
        let my: int = if goal.y > start.y {
            start.y + 1
        } else {
            start.y - 1
        };
        let ny: int = if goal.y > start.y {
            start.y + 2
        } else {
            start.y - 2
        };
        let mx: int = if start.x == 0 {
            1
        } else {
            start.x - 1
        };
        assert(dy % 2 == 0);
        assert(dy >= 2);
        let mid = Point { x: mx as usize, y: my as usize };
        let nxt = Point { x: start.x, y: ny as usize };
        assert(in_grid(width, height, mid));
        assert(in_grid(width, height, nxt));
        assert((nxt.x + nxt.y) % 2 == (goal.x + goal.y) % 2);
        lemma_min_hops_achievable(width, height, nxt, goal);
        let qr = choose|qr: Seq<Point>|
            point_path(width, height, nxt, goal, qr) && qr.len() - 1 == min_hops(nxt, goal);
        let q = seq![start, mid] + qr;
        assert(point_path(width, height, start, goal, q)) by {
            assert(q[0] == start);
            assert(q[1] == mid);
            assert(q[q.len() - 1] == qr[qr.len() - 1]);
            assert forall|i: int| 0 <= i < q.len() implies in_grid(
                width,
                height,
                #[trigger] q[i],
            ) by {
                if i >= 2 {
                    assert(q[i] == qr[i - 2]);
                }
            }
            assert forall|i: int| 0 <= i < q.len() - 1 implies diag_step(
                q[i],
                #[trigger] q[i + 1],
            ) by {
                if i == 0 {
                    assert(diag_step(start, mid));
                } else if i == 1 {
                    assert(q[2] == qr[0]);
                    assert(qr[0] == nxt);
                    assert(diag_step(mid, nxt));
                } else {
                    let j = i - 2;
                    assert(q[i] == qr[j] && q[i + 1] == qr[j + 1]);
                    assert(diag_step(qr[j], qr[j + 1]));
                }
            }
        }
        assert(min_hops(nxt, goal) == min_hops(start, goal) - 2);
        assert(q.len() - 1 == min_hops(start, goal));
    }
}

/// Law: a diagonal hop never changes the parity of `x + y`, so every cell of
/// a diagonal walk lies on the parity class of its start.
pub proof fn lemma_path_keeps_parity(
    width: int,
    height: int,
    start: Point,
    goal: Point,
    q: Seq<Point>,
)
    requires
        point_path(width, height, start, goal, q),
    ensures
        (start.x + start.y) % 2 == (goal.x + goal.y) % 2,
    decreases q.len(),
{
    if q.len() > 1 {
        let q1 = q.subrange(1, q.len() as int);
        assert(point_path(width, height, q[1], goal, q1)) by {
            assert forall|i: int| 0 <= i < q1.len() implies in_grid(
                width,
                height,
                #[trigger] q1[i],
            ) by {
                assert(q1[i] == q[i + 1]);
                assert(in_grid(width, height, q[i + 1]));
            }
            assert forall|i: int| 0 <= i < q1.len() - 1 implies diag_step(
                q1[i],
                #[trigger] q1[i + 1],
            ) by {
                assert(q1[i] == q[i + 1] && q1[i + 1] == q[i + 2]);
                assert(diag_step(q[i + 1], q[i + 2]));
            }
        }
        lemma_path_keeps_parity(width, height, q[1], goal, q1);
        assert(diag_step(q[0], q[1]));
    }
}

/// Law: cells on different parity classes of `x + y` are disconnected — no
/// diagonal walk joins them, so the search answers "no path".
pub proof fn lemma_parity_mismatch_no_path(width: int, height: int, start: Point, goal: Point)
    requires
        (start.x + start.y) % 2 != (goal.x + goal.y) % 2,
    ensures
        forall|q: Seq<Point>| !point_path(width, height, start, goal, q),
{
    assert forall|q: Seq<Point>| !point_path(width, height, start, goal, q) by {
        if point_path(width, height, start, goal, q) {
            lemma_path_keeps_parity(width, height, start, goal, q);
        }
    }
}

/// Law: when no diagonal walk connects start to goal, a search whose
/// successful results are always such walks can only have answered "no
/// path".
pub proof fn lemma_disconnected_gives_none(
    width: int,
    height: int,
    start: Point,
    goal: Point,
    r: Option<Vec<Point>>,
)
    requires
        forall|q: Seq<Point>| !point_path(width, height, start, goal, q),
        r matches Some(p) ==> point_path(width, height, start, goal, p@),
    ensures
        r is None,
{
}

} // verus!
