//! The grid graph: an arena of nodes in row-major order, each wired to its
//! in-bounds diagonal neighbors by index.

use vstd::prelude::*;

verus! {

/// A cell coordinate on the grid. Immutable once created.
#[derive(Clone, Copy, PartialEq, Eq, Structural, Debug)]
pub struct Point {
    pub x: usize,
    pub y: usize,
}

/// One grid cell: its coordinate and the arena indices of its neighbors.
/// The neighbor list is fixed after construction and never mutated by the
/// search.
#[derive(Debug)]
pub struct Node {
    pub p: Point,
    pub neighbors: Vec<usize>,
}

impl Default for Node {
    /// A fresh, unwired node at the origin.
    fn default() -> (r: Self)
        ensures
            r.p.x == 0 && r.p.y == 0,
            r.neighbors@.len() == 0,
    {
        Node { p: Point { x: 0, y: 0 }, neighbors: Vec::new() }
    }
}

impl PartialEq for Node {
    /// Nodes are equal exactly when their coordinates are equal — identity
    /// and wiring play no part, which is what goal detection relies on.
    fn eq(&self, other: &Self) -> (r: bool) {
        self.p.x == other.p.x && self.p.y == other.p.y
    }
}

impl vstd::std_specs::cmp::PartialEqSpecImpl for Node {
    open spec fn obeys_eq_spec() -> bool {
        true
    }

    open spec fn eq_spec(&self, other: &Self) -> bool {
        self.p == other.p
    }
}

/// A point lies inside a `width` by `height` grid.
pub open spec fn in_grid(width: int, height: int, p: Point) -> bool {
    p.x < width && p.y < height
}

pub open spec fn abs_diff(a: int, b: int) -> int {
    if a >= b {
        a - b
    } else {
        b - a
    }
}

/// Two cells are one diagonal hop apart: both coordinates differ by exactly 1.
pub open spec fn diag_step(a: Point, b: Point) -> bool {
    abs_diff(a.x as int, b.x as int) == 1 && abs_diff(a.y as int, b.y as int) == 1
}

/// The arena index of cell `(x, y)` if it lies in bounds, as a one-element
/// sequence; the empty sequence otherwise.
pub open spec fn maybe_cell(width: int, height: int, x: int, y: int) -> Seq<usize> {
    if 0 <= x < width && 0 <= y < height {
        seq![(y * width + x) as usize]
    } else {
        Seq::empty()
    }
}

/// The neighbor list of cell `(x, y)`: the four diagonal offsets, each kept
/// only when it lies inside the grid, in a fixed order.
pub open spec fn diag_neighbors(width: int, height: int, x: int, y: int) -> Seq<usize> {
    maybe_cell(width, height, x - 1, y - 1) + maybe_cell(width, height, x - 1, y + 1) + maybe_cell(
        width,
        height,
        x + 1,
        y - 1,
    ) + maybe_cell(width, height, x + 1, y + 1)
}

/// The arena holds exactly `width * height` nodes, and the node at row-major
/// index `y * width + x` carries coordinate `(x, y)`.
pub open spec fn nodes_laid_out(ns: Seq<Node>, width: int, height: int) -> bool {
    &&& ns.len() == width * height
    &&& forall|i: int|
        0 <= i < ns.len() ==> (#[trigger] ns[i]).p.y * width + ns[i].p.x == i && ns[i].p.x < width
            && ns[i].p.y < height
}

/// Every node's neighbor list is exactly the diagonal adjacency of its cell.
pub open spec fn grid_wired(ns: Seq<Node>, width: int, height: int) -> bool {
    forall|i: int|
        0 <= i < ns.len() ==> (#[trigger] ns[i]).neighbors@ == diag_neighbors(
            width,
            height,
            ns[i].p.x as int,
            ns[i].p.y as int,
        )
}

/// A fully built grid: the arena together with its dimensions.
#[derive(Debug)]
pub struct Grid {
    pub width: usize,
    pub height: usize,
    pub nodes: Vec<Node>,
}

impl Grid {
    /// Well-formedness: positive dimensions, a full row-major arena, and
    /// diagonal wiring.
    pub open spec fn wf(self) -> bool {
        &&& 1 <= self.width
        &&& 1 <= self.height
        &&& self.width * self.height <= usize::MAX
        &&& nodes_laid_out(self.nodes@, self.width as int, self.height as int)
        &&& grid_wired(self.nodes@, self.width as int, self.height as int)
    }
}

/// The node at a cell's row-major index carries that cell's coordinates.
pub proof fn lemma_cell_lookup(ns: Seq<Node>, width: int, height: int, x: int, y: int)
    requires
        nodes_laid_out(ns, width, height),
        0 <= x < width,
        0 <= y < height,
    ensures
        0 <= y * width + x < ns.len(),
        ns[y * width + x].p.x == x,
        ns[y * width + x].p.y == y,
{
    let i = y * width + x;
    assert(0 <= i && i < width * height) by (nonlinear_arith)
        requires
            0 <= x < width,
            0 <= y < height,
            i == y * width + x,
    ;
    let nd = ns[i];
    assert(nd.p.y * width + nd.p.x == i && nd.p.x < width);
    assert(nd.p.x == x && nd.p.y == y) by (nonlinear_arith)
        requires
            nd.p.y * width + nd.p.x == y * width + x,
            0 <= nd.p.x < width,
            0 <= x < width,
            0 <= nd.p.y,
            0 <= y,
    ;
}

/// Creates the `width * height` nodes of the grid in row-major order, each
/// with its coordinates and an empty neighbor list.
pub fn init(width: usize, height: usize) -> (r: Vec<Node>)
    requires
        1 <= width,
        1 <= height,
        width * height <= usize::MAX,
    ensures
        nodes_laid_out(r@, width as int, height as int),
        forall|i: int| 0 <= i < r@.len() ==> (#[trigger] r@[i]).neighbors@.len() == 0,
{
    let mut result: Vec<Node> = Vec::new();
    let mut y: usize = 0;
    while y < height
        invariant
            y <= height,
            result@.len() == y * width,
            forall|i: int|
                0 <= i < result@.len() ==> (#[trigger] result@[i]).p.y * width + result@[i].p.x == i
                    && result@[i].p.x < width && result@[i].p.y < height && result@[
                    i
                ].neighbors@.len() == 0,
        decreases height - y,
    {
        let mut x: usize = 0;
        while x < width
            invariant
                x <= width,
                y < height,
                result@.len() == y * width + x,
                forall|i: int|
                    0 <= i < result@.len() ==> (#[trigger] result@[i]).p.y * width + result@[i].p.x
                        == i && result@[i].p.x < width && result@[i].p.y < height && result@[
                        i
                    ].neighbors@.len() == 0,
            decreases width - x,
        {
            result.push(Node { p: Point { x, y }, neighbors: Vec::new() });
            x = x + 1;
        }
        assert(y * width + width == (y + 1) * width) by (nonlinear_arith);
        y = y + 1;
    }
    assert(height * width == width * height) by (nonlinear_arith);
    result
}

/// A cell's row-major index lies inside the arena.
pub proof fn lemma_cell_in_bounds(width: int, height: int, x: int, y: int)
    requires
        0 <= x < width,
        0 <= y < height,
    ensures
        0 <= y * width + x < width * height,
{
    assert(0 <= y * width + x < width * height) by (nonlinear_arith)
        requires
            0 <= x < width,
            0 <= y < height,
    ;
}

/// The prefix of the arena below index `k` is wired to its diagonal
/// neighbors.
pub open spec fn wired_prefix(ns: Seq<Node>, width: int, height: int, k: int) -> bool {
    forall|i: int|
        0 <= i < k && i < ns.len() ==> (#[trigger] ns[i]).neighbors@ == diag_neighbors(
            width,
            height,
            ns[i].p.x as int,
            ns[i].p.y as int,
        )
}

/// Wires every cell of a freshly built arena to its in-bounds diagonal
/// neighbors. Adjacency is symmetric: the diagonal relation between cells is
/// its own inverse, and each cell records all of its own diagonal neighbors.
pub fn init_neighbors(width: usize, height: usize, nodes: &mut Vec<Node>)
    requires
        1 <= width,
        1 <= height,
        width * height <= usize::MAX,
        old(nodes)@.len() == width * height,
        nodes_laid_out(old(nodes)@, width as int, height as int),
        forall|i: int| 0 <= i < old(nodes)@.len() ==> (#[trigger] old(nodes)@[i]).neighbors@.len()
            == 0,
    ensures
        final(nodes)@.len() == old(nodes)@.len(),
        forall|i: int|
            0 <= i < final(nodes)@.len() ==> (#[trigger] final(nodes)@[i]).p == old(nodes)@[i].p,
        nodes_laid_out(final(nodes)@, width as int, height as int),
        grid_wired(final(nodes)@, width as int, height as int),
{
    let ghost orig = nodes@;
    let mut y: usize = 0;
    while y < height
        invariant
            y <= height,
            1 <= width,
            1 <= height,
            width * height <= usize::MAX,
            nodes@.len() == width * height,
            orig.len() == width * height,
            nodes_laid_out(orig, width as int, height as int),
            forall|i: int| 0 <= i < nodes@.len() ==> (#[trigger] nodes@[i]).p == orig[i].p,
            wired_prefix(nodes@, width as int, height as int, y * width),
            forall|i: int|
                y * width <= i < nodes@.len() ==> (#[trigger] nodes@[i]).neighbors@.len() == 0,
        decreases height - y,
    {
        let mut x: usize = 0;
        while x < width
            invariant
                x <= width,
                y < height,
                1 <= width,
                1 <= height,
                width * height <= usize::MAX,
                nodes@.len() == width * height,
                orig.len() == width * height,
                nodes_laid_out(orig, width as int, height as int),
                forall|i: int| 0 <= i < nodes@.len() ==> (#[trigger] nodes@[i]).p == orig[i].p,
                wired_prefix(nodes@, width as int, height as int, y * width + x),
                forall|i: int|
                    y * width + x <= i < nodes@.len() ==> (#[trigger] nodes@[i]).neighbors@.len()
                        == 0,
            decreases width - x,
        {
            proof {
                lemma_cell_in_bounds(width as int, height as int, x as int, y as int);
            }
            let idx = y * width + x;
            let ghost xi = x as int;
            let ghost yi = y as int;
            let ghost wi = width as int;
            let ghost hi = height as int;
            let ghost m1 = maybe_cell(wi, hi, xi - 1, yi - 1);
            let ghost m2 = maybe_cell(wi, hi, xi - 1, yi + 1);
            let ghost m3 = maybe_cell(wi, hi, xi + 1, yi - 1);
            let ghost m4 = maybe_cell(wi, hi, xi + 1, yi + 1);
            let mut nb: Vec<usize> = Vec::new();
            if x >= 1 && y >= 1 {
                proof {
                    lemma_cell_in_bounds(wi, hi, xi - 1, yi - 1);
                }
                nb.push((y - 1) * width + (x - 1));
            }
            assert(nb@ =~= m1);
            let ghost s1 = nb@;
            if x >= 1 && y + 1 < height {
                proof {
                    lemma_cell_in_bounds(wi, hi, xi - 1, yi + 1);
                }
                nb.push((y + 1) * width + (x - 1));
            }
            assert(nb@ =~= s1 + m2);
            let ghost s2 = nb@;
            if x + 1 < width && y >= 1 {
                proof {
                    lemma_cell_in_bounds(wi, hi, xi + 1, yi - 1);
                }
                nb.push((y - 1) * width + (x + 1));
            }
            assert(nb@ =~= s2 + m3);
            let ghost s3 = nb@;
            if x + 1 < width && y + 1 < height {
                proof {
                    lemma_cell_in_bounds(wi, hi, xi + 1, yi + 1);
                }
                nb.push((y + 1) * width + (x + 1));
            }
            assert(nb@ =~= s3 + m4);
            assert(nb@ =~= diag_neighbors(wi, hi, xi, yi));
            let pt = nodes[idx].p;
            proof {
                lemma_cell_lookup(orig, wi, hi, xi, yi);
            }
            nodes[idx] = Node { p: pt, neighbors: nb };
            x = x + 1;
        }
        assert(y * width + width == (y + 1) * width) by (nonlinear_arith);
        y = y + 1;
    }
    assert(height * width == width * height) by (nonlinear_arith);
}

/// Builds and wires the whole grid: `width * height` nodes in row-major
/// order, each wired to its in-bounds diagonal neighbors.
pub fn build_grid(width: usize, height: usize) -> (g: Grid)
    requires
        1 <= width,
        1 <= height,
        width * height <= usize::MAX,
    ensures
        g.wf(),
        g.width == width,
        g.height == height,
{
    let mut nodes = init(width, height);
    init_neighbors(width, height, &mut nodes);
    Grid { width, height, nodes }
}

/// A wired neighbor of a node is itself a node of the grid, one diagonal hop
/// away.
pub proof fn lemma_neighbor_edge(ns: Seq<Node>, width: int, height: int, i: int, j: usize)
    requires
        nodes_laid_out(ns, width, height),
        grid_wired(ns, width, height),
        width * height <= usize::MAX,
        0 <= i < ns.len(),
        ns[i].neighbors@.contains(j),
    ensures
        j < ns.len(),
        diag_step(ns[i].p, ns[j as int].p),
{
    let x = ns[i].p.x as int;
    let y = ns[i].p.y as int;
    let m1 = maybe_cell(width, height, x - 1, y - 1);
    let m2 = maybe_cell(width, height, x - 1, y + 1);
    let m3 = maybe_cell(width, height, x + 1, y - 1);
    let m4 = maybe_cell(width, height, x + 1, y + 1);
    assert(ns[i].neighbors@ == m1 + m2 + m3 + m4);
    let k = choose|k: int| 0 <= k < ns[i].neighbors@.len() && ns[i].neighbors@[k] == j;
    if k < m1.len() {
        assert(m1[k] == j);
        lemma_cell_in_bounds(width, height, x - 1, y - 1);
        lemma_cell_lookup(ns, width, height, x - 1, y - 1);
        assert(j as int == (y - 1) * width + (x - 1));
    } else if k < m1.len() + m2.len() {
        assert(m2[k - m1.len()] == j);
        lemma_cell_in_bounds(width, height, x - 1, y + 1);
        lemma_cell_lookup(ns, width, height, x - 1, y + 1);
        assert(j as int == (y + 1) * width + (x - 1));
    } else if k < m1.len() + m2.len() + m3.len() {
        assert(m3[k - m1.len() - m2.len()] == j);
        lemma_cell_in_bounds(width, height, x + 1, y - 1);
        lemma_cell_lookup(ns, width, height, x + 1, y - 1);
        assert(j as int == (y - 1) * width + (x + 1));
    } else {
        assert(m4[k - m1.len() - m2.len() - m3.len()] == j);
        lemma_cell_in_bounds(width, height, x + 1, y + 1);
        lemma_cell_lookup(ns, width, height, x + 1, y + 1);
        assert(j as int == (y + 1) * width + (x + 1));
    }
}

/// Conversely, any two in-grid cells one diagonal hop apart are wired: the
/// second cell's index stands in the first cell's neighbor list.
pub proof fn lemma_diag_step_edge(ns: Seq<Node>, width: int, height: int, a: Point, b: Point)
    requires
        nodes_laid_out(ns, width, height),
        grid_wired(ns, width, height),
        width * height <= usize::MAX,
        in_grid(width, height, a),
        in_grid(width, height, b),
        diag_step(a, b),
    ensures
        0 <= a.y * width + a.x < ns.len(),
        0 <= b.y * width + b.x < ns.len(),
        ns[a.y * width + a.x].neighbors@.contains((b.y * width + b.x) as usize),
{
    let ax = a.x as int;
    let ay = a.y as int;
    let bx = b.x as int;
    let bb = b.y as int;
    lemma_cell_in_bounds(width, height, ax, ay);
    lemma_cell_in_bounds(width, height, bx, bb);
    lemma_cell_lookup(ns, width, height, ax, ay);
    let i = ay * width + ax;
    let m1 = maybe_cell(width, height, ax - 1, ay - 1);
    let m2 = maybe_cell(width, height, ax - 1, ay + 1);
    let m3 = maybe_cell(width, height, ax + 1, ay - 1);
    let m4 = maybe_cell(width, height, ax + 1, ay + 1);
    assert(ns[i].neighbors@ == m1 + m2 + m3 + m4);
    let j = (bb * width + bx) as usize;
    if bx == ax - 1 && bb == ay - 1 {
        assert(m1 == seq![j]);
        assert(ns[i].neighbors@[0] == j);
    } else if bx == ax - 1 && bb == ay + 1 {
        assert(m2 == seq![j]);
        assert(ns[i].neighbors@[m1.len() as int] == j);
    } else if bx == ax + 1 && bb == ay - 1 {
        assert(m3 == seq![j]);
        assert(ns[i].neighbors@[m1.len() + m2.len() as int] == j);
    } else {
        assert(bx == ax + 1 && bb == ay + 1);
        assert(m4 == seq![j]);
        assert(ns[i].neighbors@[m1.len() + m2.len() + m3.len() as int] == j);
    }
}

} // verus!
