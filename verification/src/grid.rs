//! A rectangular grid of hexadecimal cells and a cheapest-path search over
//! it. Cells are stored row by row; a cell is addressed either by its `(x,
//! y)` coordinates or by its flat index `y * width + x`. The search walks
//! between side-sharing neighbours from the top-left cell to the
//! bottom-right one.

use vstd::pervasive::VecAdditionalExecFns;
use vstd::prelude::*;

verus! {

/// A `width` by `height` grid; `cells` holds the rows one after another.
pub struct Grid {
    pub width: usize,
    pub height: usize,
    pub cells: Vec<u8>,
}

impl Grid {
    /// The cell store matches the announced dimensions.
    pub open spec fn wf(&self) -> bool {
        self.cells@.len() == self.width * self.height
    }

    /// Wrap the parts of a grid, exactly as given.
    pub fn new(width: usize, height: usize, cells: Vec<u8>) -> (g: Grid)
        ensures
            g.width == width,
            g.height == height,
            g.cells@ == cells@,
    {
        Grid { width, height, cells }
    }

    /// The flat index of the cell at `(x, y)`.
    pub fn get_index(&self, x: usize, y: usize) -> (i: usize)
        requires
            y * self.width + x <= usize::MAX,
        ensures
            i == y * self.width + x,
    {
        y * self.width + x
    }

    /// The coordinates of the cell at a flat index.
    pub fn get_xy(&self, index: usize) -> (p: (usize, usize))
        requires
            self.width > 0,
        ensures
            p.0 == index % self.width,
            p.1 == index / self.width,
    {
        (index % self.width, index / self.width)
    }

    /// The value of the cell at `(x, y)`. Only the flat index has to land
    /// inside the cell store; an `x` at or past the width reads on into the
    /// following row, as flat indexing does.
    pub fn get_val(&self, x: usize, y: usize) -> (v: u8)
        requires
            y * self.width + x < self.cells@.len(),
        ensures
            v == self.cells@[y * self.width + x],
    {
        let n = self.cells.len();
        let i = self.get_index(x, y);
        self.cells[i]
    }
}

/// A cell index inside the grid rectangle lies inside the cell store.
proof fn lemma_coords_index_bound(w: int, h: int, x: int, y: int)
    by (nonlinear_arith)
    requires
        0 <= x < w,
        0 <= y < h,
    ensures
        0 <= y * w + x < w * h,
{
}

/// The cost of stepping onto a cell: its value when the cheapest path is
/// wanted, its distance from 255 when the most expensive one is.
pub open spec fn cell_weight(g: Grid, idx: int, maximize: bool) -> u32
    recommends
        0 <= idx < g.cells@.len(),
{
    if maximize {
        (255 - g.cells@[idx]) as u32
    } else {
        g.cells@[idx] as u32
    }
}

/// Two cells share a side of the grid.
pub open spec fn adjacent(g: Grid, a: int, b: int) -> bool {
    let w = g.width as int;
    let ax = a % w;
    let ay = a / w;
    let bx = b % w;
    let by = b / w;
    (ax == bx && (ay - by == 1 || by - ay == 1)) || (ay == by && (ax - bx == 1 || bx - ax == 1))
}

/// The cost of a path: the weights of every cell it enters after the start.
pub open spec fn path_cost(g: Grid, p: Seq<usize>, maximize: bool) -> int
    decreases p.len(),
{
    if p.len() <= 1 {
        0
    } else {
        path_cost(g, p.drop_last(), maximize) + cell_weight(g, p.last() as int, maximize)
    }
}

/// A simple path from the top-left cell to the bottom-right one, moving
/// between side-sharing neighbours, never leaving the grid and never
/// visiting a cell twice.
pub open spec fn valid_path(g: Grid, p: Seq<usize>) -> bool {
    &&& p.len() >= 1
    &&& p[0] == 0
    &&& p.last() as int == g.cells@.len() - 1
    &&& forall|i: int| 0 <= i < p.len() ==> p[i] < g.cells@.len()
    &&& forall|i: int| 0 <= i < p.len() - 1 ==> #[trigger] adjacent(g, p[i] as int, p[i + 1] as int)
    &&& forall|i: int, j: int| #![trigger p[i], p[j]] 0 <= i < j < p.len() ==> p[i] != p[j]
}

/// A path's cost is at most 255 per step.
proof fn lemma_path_cost_bound(g: Grid, p: Seq<usize>, maximize: bool)
    ensures
        p.len() == 0 ==> path_cost(g, p, maximize) == 0,
        p.len() >= 1 ==> 0 <= path_cost(g, p, maximize) <= 255 * (p.len() - 1),
    decreases p.len(),
{
    if p.len() > 1 {
        lemma_path_cost_bound(g, p.drop_last(), maximize);
    }
}

/// The total of the raw cell values a path enters after its start, as the
/// path statistics report it.
pub fn path_total_cost(grid: &Grid, path: &Vec<usize>) -> (t: u32)
    requires
        forall|i: int| 0 <= i < path@.len() ==> path@[i] < grid.cells@.len(),
        path@.len() <= 0x100_0000,
    ensures
        t == path_cost(*grid, path@, false),
{
    proof {
        lemma_path_cost_bound(*grid, path@, false);
    }
    let mut t: u32 = 0;
    let mut i: usize = 1;
    if path.len() == 0 {
        return 0;
    }
    while i < path.len()
        invariant
            1 <= i <= path@.len() <= 0x100_0000,
            forall|j: int| 0 <= j < path@.len() ==> path@[j] < grid.cells@.len(),
            t == path_cost(*grid, path@.subrange(0, i as int), false),
            t <= 255 * (i - 1),
        decreases path@.len() - i,
    {
        let ghost pre = path@.subrange(0, i as int);
        let ghost pre2 = path@.subrange(0, i + 1 as int);
        proof {
            assert(pre2.drop_last() =~= pre);
            assert(pre2.last() == path@[i as int]);
        }
        let idx = path[i];
        t = t + grid.cells[idx] as u32;
        i = i + 1;
    }
    proof {
        assert(path@.subrange(0, path@.len() as int) =~= path@);
    }
    t
}

/// How many cells are still unvisited.
spec fn count_false(s: Seq<bool>) -> nat
    decreases s.len(),
{
    if s.len() == 0 {
        0
    } else if s.last() {
        count_false(s.drop_last())
    } else {
        count_false(s.drop_last()) + 1
    }
}

proof fn lemma_count_false_update(s: Seq<bool>, i: int)
    requires
        0 <= i < s.len(),
        !s[i],
    ensures
        count_false(s.update(i, true)) + 1 == count_false(s),
    decreases s.len(),
{
    let t = s.update(i, true);
    if i == s.len() - 1 {
        assert(t.drop_last() =~= s.drop_last());
        assert(t.last());
    } else {
        assert(t.drop_last() =~= s.drop_last().update(i, true));
        assert(t.last() == s.last());
        lemma_count_false_update(s.drop_last(), i);
    }
}

proof fn lemma_count_false_all_false(s: Seq<bool>)
    requires
        forall|i: int| 0 <= i < s.len() ==> !s[i],
    ensures
        count_false(s) == s.len(),
    decreases s.len(),
{
    if s.len() > 0 {
        lemma_count_false_all_false(s.drop_last());
    }
}

proof fn lemma_cell_coords(w: int, x: int, y: int)
    requires
        w > 0,
        0 <= x < w,
        0 <= y,
    ensures
        (y * w + x) % w == x,
        (y * w + x) / w == y,
{
    vstd::arithmetic::div_mod::lemma_fundamental_div_mod_converse(y * w + x, w, y, x);
}

/// Cells whose coordinates differ by one step share a side.
proof fn lemma_adjacent_cells(g: Grid, x1: int, y1: int, x2: int, y2: int)
    requires
        g.width > 0,
        0 <= x1 < g.width,
        0 <= x2 < g.width,
        0 <= y1,
        0 <= y2,
        (x1 == x2 && (y1 - y2 == 1 || y2 - y1 == 1)) || (y1 == y2 && (x1 - x2 == 1 || x2 - x1
            == 1)),
    ensures
        adjacent(g, y1 * (g.width as int) + x1, y2 * (g.width as int) + x2),
{
    lemma_cell_coords(g.width as int, x1, y1);
    lemma_cell_coords(g.width as int, x2, y2);
}

/// The summed weights of a run of cells.
pub open spec fn weights_of(g: Grid, s: Seq<usize>, maximize: bool) -> int
    decreases s.len(),
{
    if s.len() == 0 {
        0
    } else {
        cell_weight(g, s[0] as int, maximize) + weights_of(g, s.drop_first(), maximize)
    }
}

proof fn lemma_weights_of_push(g: Grid, s: Seq<usize>, x: usize, maximize: bool)
    ensures
        weights_of(g, s.push(x), maximize) == weights_of(g, s, maximize) + cell_weight(
            g,
            x as int,
            maximize,
        ),
    decreases s.len(),
{
    assert(weights_of(g, Seq::<usize>::empty(), maximize) == 0);
    if s.len() == 0 {
        assert(s.push(x).drop_first() =~= Seq::<usize>::empty());
        assert(s.push(x)[0] == x);
    } else {
        assert(s.push(x).drop_first() =~= s.drop_first().push(x));
        assert(s.push(x)[0] == s[0]);
        lemma_weights_of_push(g, s.drop_first(), x, maximize);
    }
}

/// A path's cost equals the summed weights of its reversal short of the
/// start cell.
proof fn lemma_path_cost_of_reversal(g: Grid, rev: Seq<usize>, p: Seq<usize>, maximize: bool)
    requires
        p.len() == rev.len(),
        rev.len() >= 1,
        forall|j: int| 0 <= j < p.len() ==> p[j] == rev[p.len() - 1 - j],
    ensures
        path_cost(g, p, maximize) == weights_of(g, rev.drop_last(), maximize),
    decreases rev.len(),
{
    if rev.len() > 1 {
        let rev2 = rev.drop_first();
        let p2 = p.drop_last();
        assert forall|j: int| 0 <= j < p2.len() implies p2[j] == rev2[p2.len() - 1 - j] by {
            assert(p2[j] == p[j]);
            assert(rev2[p2.len() - 1 - j] == rev[p.len() - 1 - j]);
        };
        lemma_path_cost_of_reversal(g, rev2, p2, maximize);
        assert(rev.drop_last().drop_first() =~= rev2.drop_last());
        assert(rev.drop_last()[0] == rev[0]);
        assert(p.last() == rev[0]);
    }
}

/// A cell adjacent to `(x, y)` is one of its at most four coordinate
/// neighbours inside the grid.
proof fn lemma_adjacent_characterize(g: Grid, m: int, k: int, x: int, y: int)
    requires
        g.wf(),
        1 <= g.width,
        1 <= g.height,
        0 <= m < g.cells@.len(),
        0 <= k < g.cells@.len(),
        k == y * g.width + x,
        0 <= x < g.width,
        0 <= y < g.height,
        adjacent(g, m, k),
    ensures
        (x + 1 < g.width && m == y * g.width + (x + 1)) || (x > 0 && m == y * g.width + (x - 1))
            || (y + 1 < g.height && m == (y + 1) * g.width + x) || (y > 0 && m == (y - 1)
            * g.width + x),
{
    let w = g.width as int;
    let h = g.height as int;
    let mx = m % w;
    let my = m / w;
    vstd::arithmetic::div_mod::lemma_fundamental_div_mod(m, w);
    vstd::arithmetic::div_mod::lemma_div_pos_is_pos(m, w);
    lemma_cell_coords(w, x, y);
    assert(my < h) by (nonlinear_arith)
        requires
            m < w * h,
            m == w * my + mx,
            0 <= mx < w,
            0 <= my,
    ;
    assert(g.cells@.len() == w * h);
    vstd::arithmetic::mul::lemma_mul_is_commutative(my, w);
    assert(m == my * w + mx);
}

/// A set of cells that contains the start and every neighbour of each of
/// its members contains every cell of the grid.
proof fn lemma_closed_set_covers(g: Grid, visited: Seq<bool>, x: int, y: int)
    requires
        g.wf(),
        1 <= g.width,
        1 <= g.height,
        visited.len() == g.cells@.len(),
        visited[0],
        forall|k: int, m: int|
            0 <= k < visited.len() && 0 <= m < visited.len() && visited[k] && #[trigger] adjacent(
                g,
                m,
                k,
            ) ==> visited[m],
        0 <= x < g.width,
        0 <= y < g.height,
    ensures
        visited[y * g.width + x],
    decreases x + y,
{
    let w = g.width as int;
    let h = g.height as int;
    lemma_coords_index_bound(w, h, x, y);
    if x == 0 && y == 0 {
    } else if x > 0 {
        lemma_closed_set_covers(g, visited, x - 1, y);
        lemma_adjacent_cells(g, x, y, x - 1, y);
        lemma_coords_index_bound(w, h, x - 1, y);
    } else {
        lemma_closed_set_covers(g, visited, x, y - 1);
        lemma_adjacent_cells(g, x, y, x, y - 1);
        lemma_coords_index_bound(w, h, x, y - 1);
    }
}

/// A walk through the grid from the start cell to cell `v`: consecutive
/// entries share a side; cells may repeat.
spec fn walk_to(g: Grid, q: Seq<usize>, v: int) -> bool {
    &&& q.len() >= 1
    &&& q[0] == 0
    &&& q.last() as int == v
    &&& forall|i: int| 0 <= i < q.len() ==> q[i] < g.cells@.len()
    &&& forall|i: int| 0 <= i < q.len() - 1 ==> #[trigger] adjacent(g, q[i] as int, q[i + 1] as int)
}

/// What makes the settled costs optimal: a settled cell's cost is a lower
/// bound on every walk reaching it; settled costs never exceed tentative
/// ones; cells settled earlier carry smaller costs; and the start cell is
/// settled first.
spec fn opt_inv(g: Grid, dist: Seq<u32>, visited: Seq<bool>, vtime: Seq<nat>, maximize: bool) -> bool {
    &&& forall|v: int, q: Seq<usize>|
        0 <= v < dist.len() && visited[v] && #[trigger] walk_to(g, q, v) ==> dist[v]
            <= path_cost(g, q, maximize)
    &&& forall|a: int, b: int|
        #![trigger dist[a], dist[b]]
        0 <= a < dist.len() && 0 <= b < dist.len() && visited[a] && !visited[b] ==> dist[a]
            <= dist[b]
    &&& forall|a: int, c: int|
        #![trigger vtime[a], vtime[c]]
        0 <= a < dist.len() && 0 <= c < dist.len() && visited[a] && visited[c] && vtime[a]
            <= vtime[c] ==> dist[a] <= dist[c]
    &&& forall|k: int| 0 <= k < visited.len() && #[trigger] visited[k] ==> visited[0]
}

/// Every edge out of a settled cell has been relaxed: the neighbour's cost
/// is at most the settled cost plus the step onto the neighbour.
spec fn edges_relaxed(g: Grid, dist: Seq<u32>, visited: Seq<bool>, maximize: bool) -> bool {
    forall|k: int, m: int|
        0 <= k < visited.len() && 0 <= m < visited.len() && visited[k] && #[trigger] adjacent(
            g,
            m,
            k,
        ) ==> dist[m] <= dist[k] + cell_weight(g, m, maximize)
}

/// Dropping a suffix never makes a path dearer: all weights are nonnegative.
proof fn lemma_path_cost_prefix(g: Grid, q: Seq<usize>, i: int, maximize: bool)
    requires
        0 <= i <= q.len(),
    ensures
        path_cost(g, q.subrange(0, i), maximize) <= path_cost(g, q, maximize),
    decreases q.len(),
{
    lemma_path_cost_bound(g, q, maximize);
    if i == q.len() {
        assert(q.subrange(0, i) =~= q);
    } else {
        let t = q.drop_last();
        lemma_path_cost_prefix(g, t, i, maximize);
        assert(t.subrange(0, i) =~= q.subrange(0, i));
        lemma_path_cost_bound(g, t, maximize);
    }
}

/// The first cell of the walk, from position `k` on, that is not settled.
proof fn find_first_unvisited(visited: Seq<bool>, q: Seq<usize>, k: int) -> (i: int)
    requires
        1 <= k < q.len(),
        forall|j: int| 0 <= j < q.len() ==> q[j] < visited.len(),
        forall|j: int| 0 <= j < k ==> visited[q[j] as int],
        !visited[q.last() as int],
    ensures
        k <= i < q.len(),
        !visited[q[i] as int],
        forall|j: int| 0 <= j < i ==> visited[q[j] as int],
    decreases q.len() - k,
{
    if !visited[q[k] as int] {
        k
    } else {
        find_first_unvisited(visited, q, k + 1)
    }
}

/// The cut argument: when `cur` has the least tentative cost of all
/// unsettled cells, every walk that reaches it costs at least that much -
/// any such walk must first step from a settled cell to an unsettled one,
/// and that edge has been relaxed.
proof fn lemma_settle_cut(
    g: Grid,
    dist: Seq<u32>,
    visited0: Seq<bool>,
    vtime0: Seq<nat>,
    q: Seq<usize>,
    cur: int,
    maximize: bool,
)
    requires
        g.wf(),
        1 <= g.width,
        1 <= g.height,
        dist.len() == g.cells@.len(),
        visited0.len() == g.cells@.len(),
        vtime0.len() == g.cells@.len(),
        0 <= cur < dist.len(),
        !visited0[cur],
        dist[0] == 0,
        visited0[0] || cur == 0,
        walk_to(g, q, cur),
        forall|b: int| 0 <= b < dist.len() && !visited0[b] ==> dist[cur] <= #[trigger] dist[b],
        opt_inv(g, dist, visited0, vtime0, maximize),
        edges_relaxed(g, dist, visited0, maximize),
    ensures
        dist[cur] <= path_cost(g, q, maximize),
{
    if cur == 0 {
        lemma_path_cost_bound(g, q, maximize);
    } else {
        assert(visited0[0]);
        assert(q.len() >= 2);
        let i = find_first_unvisited(visited0, q, 1);
        let prev = q[i - 1] as int;
        let nxt = q[i] as int;
        assert(visited0[prev]);
        assert(!visited0[nxt]);
        let j = i - 1;
        assert(adjacent(g, q[j] as int, q[j + 1] as int));
        assert(adjacent(g, nxt, prev));
        assert(dist[nxt] <= dist[prev] + cell_weight(g, nxt, maximize));
        let pre = q.subrange(0, i);
        assert(walk_to(g, pre, prev)) by {
            assert(pre[0] == q[0]);
            assert(pre.last() == q[i - 1]);
            assert forall|j: int| 0 <= j < pre.len() implies pre[j] < g.cells@.len() by {
                assert(pre[j] == q[j]);
            };
            assert forall|j: int| 0 <= j < pre.len() - 1 implies #[trigger] adjacent(
                g,
                pre[j] as int,
                pre[j + 1] as int,
            ) by {
                assert(pre[j] == q[j]);
                assert(pre[j + 1] == q[j + 1]);
                assert(adjacent(g, q[j] as int, q[j + 1] as int));
            };
        };
        assert(dist[prev] <= path_cost(g, pre, maximize));
        let pre2 = q.subrange(0, i + 1);
        assert(pre2.drop_last() =~= pre);
        assert(pre2.last() == q[i]);
        assert(path_cost(g, pre2, maximize) == path_cost(g, pre, maximize) + cell_weight(
            g,
            nxt,
            maximize,
        ));
        lemma_path_cost_prefix(g, q, i + 1, maximize);
        assert(dist[cur] <= dist[nxt]);
    }
}

/// Settling the unsettled cell of least tentative cost keeps every
/// optimality invariant.
proof fn lemma_settle_optimal(
    g: Grid,
    dist: Seq<u32>,
    visited0: Seq<bool>,
    visited: Seq<bool>,
    vtime0: Seq<nat>,
    vtime: Seq<nat>,
    stamp: nat,
    cur: int,
    maximize: bool,
)
    requires
        g.wf(),
        1 <= g.width,
        1 <= g.height,
        dist.len() == g.cells@.len(),
        visited0.len() == g.cells@.len(),
        vtime0.len() == g.cells@.len(),
        0 <= cur < dist.len(),
        !visited0[cur],
        dist[0] == 0,
        visited0[0] || cur == 0,
        visited == visited0.update(cur, true),
        vtime == vtime0.update(cur, stamp),
        forall|k: int| 0 <= k < visited0.len() && visited0[k] ==> #[trigger] vtime0[k] < stamp,
        forall|b: int| 0 <= b < dist.len() && !visited0[b] ==> dist[cur] <= #[trigger] dist[b],
        opt_inv(g, dist, visited0, vtime0, maximize),
        edges_relaxed(g, dist, visited0, maximize),
    ensures
        opt_inv(g, dist, visited, vtime, maximize),
{
    assert forall|v: int, q: Seq<usize>|
        0 <= v < dist.len() && visited[v] && #[trigger] walk_to(g, q, v) implies dist[v]
        <= path_cost(g, q, maximize) by {
        if v == cur {
            lemma_settle_cut(g, dist, visited0, vtime0, q, cur, maximize);
        } else {
            assert(visited0[v]);
        }
    };
    assert forall|a: int, b: int|
        #![trigger dist[a], dist[b]]
        0 <= a < dist.len() && 0 <= b < dist.len() && visited[a] && !visited[b] implies dist[a]
        <= dist[b] by {
        assert(!visited0[b]);
        if a != cur {
            assert(visited0[a]);
        }
    };
    assert forall|a: int, c: int|
        #![trigger vtime[a], vtime[c]]
        0 <= a < dist.len() && 0 <= c < dist.len() && visited[a] && visited[c] && vtime[a]
        <= vtime[c] implies dist[a] <= dist[c] by {
        if a == cur && c != cur {
            assert(visited0[c]);
            assert(vtime0[c] < stamp);
            assert(false);
        } else if a != cur && c == cur {
            assert(visited0[a]);
            assert(!visited0[cur]);
            assert(dist[a] <= dist[cur]);
        } else if a != cur && c != cur {
            assert(visited0[a]);
            assert(visited0[c]);
            assert(vtime0[a] <= vtime0[c]);
        }
    };
}

/// Lowering unsettled cells' costs, each to no less than the newest settled
/// cost, keeps every optimality invariant.
proof fn lemma_relax_round_preserves_opt(
    g: Grid,
    dist0: Seq<u32>,
    dist: Seq<u32>,
    visited: Seq<bool>,
    vtime: Seq<nat>,
    cur: int,
    maximize: bool,
)
    requires
        dist0.len() == g.cells@.len(),
        dist.len() == g.cells@.len(),
        visited.len() == g.cells@.len(),
        vtime.len() == g.cells@.len(),
        0 <= cur < dist0.len(),
        visited[cur],
        forall|j: int| 0 <= j < dist.len() ==> dist[j] <= dist0[j],
        forall|j: int| 0 <= j < dist.len() && visited[j] ==> dist[j] == dist0[j],
        forall|j: int|
            0 <= j < dist.len() && dist[j] != dist0[j] ==> #[trigger] dist[j] >= dist0[cur],
        forall|a: int| 0 <= a < dist0.len() && visited[a] ==> #[trigger] dist0[a] <= dist0[cur],
        opt_inv(g, dist0, visited, vtime, maximize),
    ensures
        opt_inv(g, dist, visited, vtime, maximize),
{
    assert forall|v: int, q: Seq<usize>|
        0 <= v < dist.len() && visited[v] && #[trigger] walk_to(g, q, v) implies dist[v]
        <= path_cost(g, q, maximize) by {
        assert(dist[v] == dist0[v]);
    };
    assert forall|a: int, b: int|
        #![trigger dist[a], dist[b]]
        0 <= a < dist.len() && 0 <= b < dist.len() && visited[a] && !visited[b] implies dist[a]
        <= dist[b] by {
        assert(dist[a] == dist0[a]);
        if dist[b] == dist0[b] {
            assert(dist0[a] <= dist0[b]);
        } else {
            assert(dist[b] >= dist0[cur]);
            assert(dist0[a] <= dist0[cur]);
        }
    };
    assert forall|a: int, c: int|
        #![trigger vtime[a], vtime[c]]
        0 <= a < dist.len() && 0 <= c < dist.len() && visited[a] && visited[c] && vtime[a]
        <= vtime[c] implies dist[a] <= dist[c] by {
        assert(dist[a] == dist0[a] && dist[c] == dist0[c]);
    };
}

/// After the four neighbours of a newly settled cell have been offered its
/// cost, every edge out of a settled cell is relaxed again.
proof fn lemma_edges_after_relax(
    g: Grid,
    dist_before: Seq<u32>,
    dist: Seq<u32>,
    visited0: Seq<bool>,
    visited: Seq<bool>,
    cur: int,
    x: int,
    y: int,
    maximize: bool,
)
    requires
        g.wf(),
        1 <= g.width,
        1 <= g.height,
        visited.len() == g.cells@.len(),
        visited0.len() == g.cells@.len(),
        dist.len() == g.cells@.len(),
        dist_before.len() == g.cells@.len(),
        visited == visited0.update(cur, true),
        0 <= cur < g.cells@.len(),
        cur == y * g.width + x,
        0 <= x < g.width,
        0 <= y < g.height,
        edges_relaxed(g, dist_before, visited0, maximize),
        forall|j: int| 0 <= j < dist.len() ==> dist[j] <= dist_before[j],
        forall|j: int| 0 <= j < dist.len() && visited[j] ==> dist[j] == dist_before[j],
        y + 1 < g.height ==> dist[(y + 1) * (g.width as int) + x] <= dist[cur] + cell_weight(
            g,
            (y + 1) * (g.width as int) + x,
            maximize,
        ),
        x + 1 < g.width ==> dist[y * (g.width as int) + (x + 1)] <= dist[cur] + cell_weight(
            g,
            y * (g.width as int) + (x + 1),
            maximize,
        ),
        y > 0 ==> dist[(y - 1) * (g.width as int) + x] <= dist[cur] + cell_weight(
            g,
            (y - 1) * (g.width as int) + x,
            maximize,
        ),
        x > 0 ==> dist[y * (g.width as int) + (x - 1)] <= dist[cur] + cell_weight(
            g,
            y * (g.width as int) + (x - 1),
            maximize,
        ),
    ensures
        edges_relaxed(g, dist, visited, maximize),
{
    assert forall|k: int, m: int|
        0 <= k < visited.len() && 0 <= m < visited.len() && visited[k] && #[trigger] adjacent(
            g,
            m,
            k,
        ) implies dist[m] <= dist[k] + cell_weight(g, m, maximize) by {
        if k == cur {
            lemma_adjacent_characterize(g, m, cur, x, y);
        } else {
            assert(visited0[k]);
            assert(dist_before[m] <= dist_before[k] + cell_weight(g, m, maximize));
            assert(dist[k] == dist_before[k]);
            assert(dist[m] <= dist_before[m]);
        }
    };
}

/// Everything the search keeps true of its bookkeeping between steps: the
/// tentative costs, the parent of every reached cell, the visited marks and
/// the ghost order in which they were set.
spec fn search_inv(
    g: Grid,
    dist: Seq<u32>,
    parents: Seq<Option<usize>>,
    visited: Seq<bool>,
    vtime: Seq<nat>,
    stamp: nat,
    maximize: bool,
) -> bool {
    let n = g.cells@.len() as int;
    &&& g.wf()
    &&& 1 <= g.width
    &&& 1 <= g.height
    &&& n <= 0x100_0000
    &&& stamp + count_false(visited) == n + 1
    &&& dist.len() == n
    &&& parents.len() == n
    &&& visited.len() == n
    &&& vtime.len() == n
    &&& dist[0] == 0
    &&& parents[0] is None
    &&& forall|k: int|
        0 <= k < n ==> (visited[k] ==> #[trigger] dist[k] < u32::MAX && dist[k] <= 255 * vtime[k])
    &&& forall|k: int| 0 <= k < n ==> (visited[k] ==> #[trigger] vtime[k] < stamp)
    &&& forall|k: int| 0 < k < n ==> (#[trigger] dist[k] < u32::MAX ==> parents[k] is Some)
    &&& forall|k: int|
        0 <= k < n ==> ((#[trigger] parents[k]) matches Some(p) ==> {
            &&& k != 0
            &&& p < n
            &&& visited[p as int]
            &&& adjacent(g, k, p as int)
            &&& dist[k] < u32::MAX
            &&& dist[k] == dist[p as int] + cell_weight(g, k, maximize)
            &&& (visited[k] ==> vtime[k] > vtime[p as int])
        })
}

/// The index of an unvisited cell with the smallest tentative cost, or the
/// cell count when every unvisited cell is still unreached.
fn select_min(dist: &Vec<u32>, visited: &Vec<bool>) -> (r: usize)
    requires
        dist@.len() == visited@.len(),
    ensures
        r <= dist@.len(),
        r < dist@.len() ==> !visited@[r as int] && dist@[r as int] < u32::MAX,
        r < dist@.len() ==> forall|j: int|
            0 <= j < dist@.len() && !visited@[j] ==> dist@[r as int] <= #[trigger] dist@[j],
        r == dist@.len() ==> forall|j: int|
            0 <= j < dist@.len() ==> (!visited@[j] ==> dist@[j] == u32::MAX),
{
    let n = dist.len();
    let mut best: u32 = u32::MAX;
    let mut best_i: usize = n;
    let mut j: usize = 0;
    while j < n
        invariant
            j <= n,
            n == dist@.len(),
            n == visited@.len(),
            best_i <= n,
            best_i == n ==> best == u32::MAX,
            best_i < n ==> !visited@[best_i as int] && dist@[best_i as int] == best && best
                < u32::MAX,
            best_i == n ==> forall|i: int| 0 <= i < j ==> (!visited@[i] ==> dist@[i] == u32::MAX),
            forall|i: int| 0 <= i < j && !visited@[i] ==> best <= #[trigger] dist@[i],
        decreases n - j,
    {
        if !visited[j] && dist[j] < best {
            best = dist[j];
            best_i = j;
        }
        j = j + 1;
    }
    best_i
}

/// Offer the settled cell `(x, y)` as a cheaper way to its neighbour
/// `(nx, ny)`: when it improves on the neighbour's tentative cost, the cost
/// and the parent are rewritten together. A cost too large for 32 bits can
/// never improve anything, so the saturating sum stands in for the exact
/// one. Visited cells are final and are left alone.
#[verifier::rlimit(80)]
#[verifier::spinoff_prover]
fn relax(
    grid: &Grid,
    dist: &mut Vec<u32>,
    parents: &mut Vec<Option<usize>>,
    visited: &Vec<bool>,
    Ghost(vtime): Ghost<Seq<nat>>,
    Ghost(stamp): Ghost<nat>,
    cur: usize,
    x: usize,
    y: usize,
    nx: usize,
    ny: usize,
    maximize: bool,
)
    requires
        search_inv(*grid, old(dist)@, old(parents)@, visited@, vtime, stamp, maximize),
        visited@[cur as int],
        cur == y * grid.width + x,
        x < grid.width,
        y < grid.height,
        nx < grid.width,
        ny < grid.height,
        (nx == x && (ny == y + 1 || ny + 1 == y)) || (ny == y && (nx == x + 1 || nx + 1 == x)),
    ensures
        search_inv(*grid, final(dist)@, final(parents)@, visited@, vtime, stamp, maximize),
        forall|j: int|
            0 <= j < old(dist)@.len() ==> (#[trigger] final(dist)@[j] == old(dist)@[j] || (
            !visited@[j] && final(dist)@[j] < old(dist)@[j] && final(dist)@[j] >= old(
                dist,
            )@[cur as int])),
        !visited@[(ny * grid.width + nx) as int] ==> final(dist)@[(ny * grid.width + nx) as int]
            <= old(dist)@[cur as int] + cell_weight(*grid, (ny * grid.width + nx) as int, maximize),
{
    let w = grid.width;
    let n = grid.cells.len();
    proof {
        lemma_coords_index_bound(w as int, grid.height as int, nx as int, ny as int);
        lemma_coords_index_bound(w as int, grid.height as int, x as int, y as int);
    }
    let idx2 = ny * w + nx;
    if !visited[idx2] {
        let val = grid.cells[idx2];
        let cw: u32 = if maximize {
            255 - (val as u32)
        } else {
            val as u32
        };
        proof {
            lemma_coords_index_bound(w as int, grid.height as int, x as int, y as int);
        }
        let cand = dist[cur].saturating_add(cw);
        proof {
            // a settled cell was reached within the visiting order, so its
            // cost plus one step stays well under the 32-bit ceiling
            assert(dist@[cur as int] <= 255 * vtime[cur as int]);
            assert(vtime[cur as int] < stamp);
            assert(stamp <= grid.cells@.len() + 1);
            assert(dist@[cur as int] + cw <= 255 * 0x100_0000 + 255);
            assert(cand < u32::MAX);
            assert(cw == cell_weight(*grid, idx2 as int, maximize));
        }
        if cand < dist[idx2] {
            dist.set(idx2, cand);
            parents.set(idx2, Some(cur));
            proof {
                lemma_adjacent_cells(*grid, nx as int, ny as int, x as int, y as int);
                assert(idx2 != cur);
            }
        }
    }
}

/// Offer the settled cell to its lower and right neighbours; the returned
/// ghost sequence is the cost table between the two offers.
#[verifier::rlimit(100)]
#[verifier::spinoff_prover]
fn relax_down_right(
    grid: &Grid,
    dist: &mut Vec<u32>,
    parents: &mut Vec<Option<usize>>,
    visited: &Vec<bool>,
    Ghost(vtime): Ghost<Seq<nat>>,
    Ghost(stamp): Ghost<nat>,
    cur: usize,
    x: usize,
    y: usize,
    maximize: bool,
) -> (mid: Ghost<Seq<u32>>)
    requires
        search_inv(*grid, old(dist)@, old(parents)@, visited@, vtime, stamp, maximize),
        visited@[cur as int],
        cur == y * grid.width + x,
        x < grid.width,
        y < grid.height,
    ensures
        search_inv(*grid, final(dist)@, final(parents)@, visited@, vtime, stamp, maximize),
        mid@.len() == old(dist)@.len(),
        forall|j: int|
            0 <= j < old(dist)@.len() ==> (#[trigger] mid@[j] == old(dist)@[j] || (!visited@[j]
                && mid@[j] < old(dist)@[j] && mid@[j] >= old(dist)@[cur as int])),
        forall|j: int|
            0 <= j < old(dist)@.len() ==> (#[trigger] final(dist)@[j] == mid@[j] || (
            !visited@[j] && final(dist)@[j] < mid@[j] && final(dist)@[j] >= mid@[cur as int])),
        y + 1 < grid.height && !visited@[(y + 1) * (grid.width as int) + x] ==> mid@[(y + 1) * (
        grid.width as int) + x] <= old(dist)@[cur as int] + cell_weight(
            *grid,
            (y + 1) * (grid.width as int) + x,
            maximize,
        ),
        x + 1 < grid.width && !visited@[y * (grid.width as int) + (x + 1)] ==> final(dist)@[y * (
        grid.width as int) + (x + 1)] <= mid@[cur as int] + cell_weight(
            *grid,
            y * (grid.width as int) + (x + 1),
            maximize,
        ),
{
    let w = grid.width;
    let h = grid.height;
    if y + 1 < h {
        relax(grid, dist, parents, visited, Ghost(vtime), Ghost(stamp), cur, x, y, x, y + 1, maximize);
    }
    let ghost m = dist@;
    if x + 1 < w {
        relax(grid, dist, parents, visited, Ghost(vtime), Ghost(stamp), cur, x, y, x + 1, y, maximize);
    }
    Ghost(m)
}

/// Offer the settled cell to its upper and left neighbours; the returned
/// ghost sequence is the cost table between the two offers.
#[verifier::rlimit(100)]
#[verifier::spinoff_prover]
fn relax_up_left(
    grid: &Grid,
    dist: &mut Vec<u32>,
    parents: &mut Vec<Option<usize>>,
    visited: &Vec<bool>,
    Ghost(vtime): Ghost<Seq<nat>>,
    Ghost(stamp): Ghost<nat>,
    cur: usize,
    x: usize,
    y: usize,
    maximize: bool,
) -> (mid: Ghost<Seq<u32>>)
    requires
        search_inv(*grid, old(dist)@, old(parents)@, visited@, vtime, stamp, maximize),
        visited@[cur as int],
        cur == y * grid.width + x,
        x < grid.width,
        y < grid.height,
    ensures
        search_inv(*grid, final(dist)@, final(parents)@, visited@, vtime, stamp, maximize),
        mid@.len() == old(dist)@.len(),
        forall|j: int|
            0 <= j < old(dist)@.len() ==> (#[trigger] mid@[j] == old(dist)@[j] || (!visited@[j]
                && mid@[j] < old(dist)@[j] && mid@[j] >= old(dist)@[cur as int])),
        forall|j: int|
            0 <= j < old(dist)@.len() ==> (#[trigger] final(dist)@[j] == mid@[j] || (
            !visited@[j] && final(dist)@[j] < mid@[j] && final(dist)@[j] >= mid@[cur as int])),
        y > 0 && !visited@[(y - 1) * (grid.width as int) + x] ==> mid@[(y - 1) * (
        grid.width as int) + x] <= old(dist)@[cur as int] + cell_weight(
            *grid,
            (y - 1) * (grid.width as int) + x,
            maximize,
        ),
        x > 0 && !visited@[y * (grid.width as int) + (x - 1)] ==> final(dist)@[y * (
        grid.width as int) + (x - 1)] <= mid@[cur as int] + cell_weight(
            *grid,
            y * (grid.width as int) + (x - 1),
            maximize,
        ),
{
    let w = grid.width;
    let h = grid.height;
    if y > 0 {
        relax(grid, dist, parents, visited, Ghost(vtime), Ghost(stamp), cur, x, y, x, y - 1, maximize);
    }
    let ghost m = dist@;
    if x > 0 {
        relax(grid, dist, parents, visited, Ghost(vtime), Ghost(stamp), cur, x, y, x - 1, y, maximize);
    }
    Ghost(m)
}

/// One full relaxation round, seen end to end: the four per-step clauses
/// compose into the optimality invariants and freshly relaxed edges.
proof fn lemma_compose_round(
    g: Grid,
    d0: Seq<u32>,
    d1: Seq<u32>,
    d2: Seq<u32>,
    d3: Seq<u32>,
    d4: Seq<u32>,
    visited0: Seq<bool>,
    visited: Seq<bool>,
    vtime: Seq<nat>,
    cur: int,
    x: int,
    y: int,
    maximize: bool,
)
    requires
        g.wf(),
        1 <= g.width,
        1 <= g.height,
        d0.len() == g.cells@.len(),
        d1.len() == g.cells@.len(),
        d2.len() == g.cells@.len(),
        d3.len() == g.cells@.len(),
        d4.len() == g.cells@.len(),
        visited0.len() == g.cells@.len(),
        visited.len() == g.cells@.len(),
        vtime.len() == g.cells@.len(),
        visited == visited0.update(cur, true),
        0 <= cur < g.cells@.len(),
        visited[cur],
        cur == y * g.width + x,
        0 <= x < g.width,
        0 <= y < g.height,
        forall|j: int|
            0 <= j < d0.len() ==> (#[trigger] d1[j] == d0[j] || (!visited[j] && d1[j] < d0[j]
                && d1[j] >= d0[cur])),
        forall|j: int|
            0 <= j < d0.len() ==> (#[trigger] d2[j] == d1[j] || (!visited[j] && d2[j] < d1[j]
                && d2[j] >= d1[cur])),
        forall|j: int|
            0 <= j < d0.len() ==> (#[trigger] d3[j] == d2[j] || (!visited[j] && d3[j] < d2[j]
                && d3[j] >= d2[cur])),
        forall|j: int|
            0 <= j < d0.len() ==> (#[trigger] d4[j] == d3[j] || (!visited[j] && d4[j] < d3[j]
                && d4[j] >= d3[cur])),
        y + 1 < g.height && !visited[(y + 1) * (g.width as int) + x] ==> d1[(y + 1) * (
        g.width as int) + x] <= d0[cur] + cell_weight(
            g,
            (y + 1) * (g.width as int) + x,
            maximize,
        ),
        x + 1 < g.width && !visited[y * (g.width as int) + (x + 1)] ==> d2[y * (g.width as int)
            + (x + 1)] <= d1[cur] + cell_weight(g, y * (g.width as int) + (x + 1), maximize),
        y > 0 && !visited[(y - 1) * (g.width as int) + x] ==> d3[(y - 1) * (g.width as int) + x]
            <= d2[cur] + cell_weight(g, (y - 1) * (g.width as int) + x, maximize),
        x > 0 && !visited[y * (g.width as int) + (x - 1)] ==> d4[y * (g.width as int) + (x - 1)]
            <= d3[cur] + cell_weight(g, y * (g.width as int) + (x - 1), maximize),
        edges_relaxed(g, d0, visited0, maximize),
        opt_inv(g, d0, visited, vtime, maximize),
        forall|a: int| 0 <= a < d0.len() && visited[a] ==> #[trigger] d0[a] <= d0[cur],
    ensures
        opt_inv(g, d4, visited, vtime, maximize),
        edges_relaxed(g, d4, visited, maximize),
{
    let wi = g.width as int;
    assert(d1[cur] == d0[cur] && d2[cur] == d0[cur] && d3[cur] == d0[cur] && d4[cur] == d0[cur]);
    assert forall|j: int| 0 <= j < d0.len() implies d4[j] <= d0[j] by {
        assert(d4[j] <= d3[j] && d3[j] <= d2[j] && d2[j] <= d1[j] && d1[j] <= d0[j]);
    };
    assert forall|j: int| 0 <= j < d0.len() && visited[j] implies d4[j] == d0[j] by {
        assert(d4[j] == d3[j] && d3[j] == d2[j] && d2[j] == d1[j] && d1[j] == d0[j]);
    };
    assert forall|j: int|
        0 <= j < d0.len() && d4[j] != d0[j] implies #[trigger] d4[j] >= d0[cur] by {
        if d4[j] != d3[j] {
        } else if d3[j] != d2[j] {
        } else if d2[j] != d1[j] {
        } else {
            assert(d1[j] != d0[j]);
        }
    };
    lemma_relax_round_preserves_opt(g, d0, d4, visited, vtime, cur, maximize);
    if y + 1 < g.height {
        lemma_coords_index_bound(wi, g.height as int, x, y + 1);
        let m = (y + 1) * wi + x;
        if visited[m] {
            assert(d4[m] == d0[m] && d0[m] <= d0[cur]);
        } else {
            assert(d4[m] <= d3[m] && d3[m] <= d2[m] && d2[m] <= d1[m]);
        }
        assert(d4[m] <= d4[cur] + cell_weight(g, m, maximize));
    }
    if x + 1 < g.width {
        lemma_coords_index_bound(wi, g.height as int, x + 1, y);
        let m = y * wi + (x + 1);
        if visited[m] {
            assert(d4[m] == d0[m] && d0[m] <= d0[cur]);
        } else {
            assert(d4[m] <= d3[m] && d3[m] <= d2[m]);
        }
        assert(d4[m] <= d4[cur] + cell_weight(g, m, maximize));
    }
    if y > 0 {
        lemma_coords_index_bound(wi, g.height as int, x, y - 1);
        let m = (y - 1) * wi + x;
        if visited[m] {
            assert(d4[m] == d0[m] && d0[m] <= d0[cur]);
        } else {
            assert(d4[m] <= d3[m]);
        }
        assert(d4[m] <= d4[cur] + cell_weight(g, m, maximize));
    }
    if x > 0 {
        lemma_coords_index_bound(wi, g.height as int, x - 1, y);
        let m = y * wi + (x - 1);
        if visited[m] {
            assert(d4[m] == d0[m] && d0[m] <= d0[cur]);
        }
        assert(d4[m] <= d4[cur] + cell_weight(g, m, maximize));
    }
    lemma_edges_after_relax(g, d0, d4, visited0, visited, cur, x, y, maximize);
}

/// Settle `cur` into the search by offering its cost to each of its at most
/// four neighbours, keeping every search and optimality invariant and
/// re-relaxing every edge out of a settled cell.
#[verifier::rlimit(80)]
#[verifier::spinoff_prover]
fn relax_all(
    grid: &Grid,
    dist: &mut Vec<u32>,
    parents: &mut Vec<Option<usize>>,
    visited: &Vec<bool>,
    Ghost(visited0): Ghost<Seq<bool>>,
    Ghost(vtime): Ghost<Seq<nat>>,
    Ghost(stamp): Ghost<nat>,
    cur: usize,
    maximize: bool,
)
    requires
        search_inv(*grid, old(dist)@, old(parents)@, visited@, vtime, stamp, maximize),
        opt_inv(*grid, old(dist)@, visited@, vtime, maximize),
        visited0.len() == grid.cells@.len(),
        visited@ == visited0.update(cur as int, true),
        cur < grid.cells@.len(),
        visited@[cur as int],
        forall|a: int|
            0 <= a < old(dist)@.len() && visited@[a] ==> #[trigger] vtime[a] <= vtime[cur as int],
        edges_relaxed(*grid, old(dist)@, visited0, maximize),
    ensures
        search_inv(*grid, final(dist)@, final(parents)@, visited@, vtime, stamp, maximize),
        opt_inv(*grid, final(dist)@, visited@, vtime, maximize),
        edges_relaxed(*grid, final(dist)@, visited@, maximize),
{
    let w = grid.width;
    let h = grid.height;
    let ghost n = grid.cells@.len();
    let x = cur % w;
    let y = cur / w;
    proof {
        vstd::arithmetic::div_mod::lemma_fundamental_div_mod(cur as int, w as int);
        assert(y < h) by (nonlinear_arith)
            requires
                cur < n,
                n == w * h,
                1 <= w,
                cur as int == w as int * (y as int) + (x as int),
                0 <= x < w,
                0 <= y,
        ;
        vstd::arithmetic::mul::lemma_mul_is_commutative(y as int, w as int);
    }
    let ghost d0 = dist@;
    proof {
        // cells settled earlier cost no more than the newest settled cell
        assert forall|a: int|
            0 <= a < d0.len() && visited@[a] implies d0[a] <= d0[cur as int] by {
            assert(vtime[a] <= vtime[cur as int]);
        };
    }
    let ghost_mid1 = relax_down_right(grid, dist, parents, visited, Ghost(vtime), Ghost(stamp), cur, x, y, maximize);
    let ghost d1 = ghost_mid1@;
    let ghost d2 = dist@;
    let ghost_mid2 = relax_up_left(grid, dist, parents, visited, Ghost(vtime), Ghost(stamp), cur, x, y, maximize);
    let ghost d3 = ghost_mid2@;
    let ghost d4 = dist@;
    proof {
        lemma_compose_round(
            *grid,
            d0,
            d1,
            d2,
            d3,
            d4,
            visited0,
            visited@,
            vtime,
            cur as int,
            x as int,
            y as int,
            maximize,
        );
    }
}

/// Search for a path of least total weight from the top-left cell to the
/// bottom-right one, stepping between side-sharing neighbours. The weight of
/// a step is the entered cell's value, or its distance from 255 when
/// `maximize` asks for the most expensive road instead. The result is a
/// simple path through the grid from start to end; the returned number is
/// exactly that path's cost, and no valid path costs less.
pub fn find_path(grid: &Grid, maximize: bool) -> (r: (Option<Vec<usize>>, u32))
    requires
        grid.wf(),
        1 <= grid.width,
        1 <= grid.height,
        grid.width * grid.height <= 0x100_0000,
    ensures
        r.0 is Some,
        r.0 matches Some(p) ==> valid_path(*grid, p@) && r.1 == path_cost(*grid, p@, maximize),
        forall|q: Seq<usize>| #[trigger] valid_path(*grid, q) ==> r.1 <= path_cost(
            *grid,
            q,
            maximize,
        ),
{
    let n = grid.cells.len();
    let w = grid.width;
    let h = grid.height;
    proof {
        assert(1 <= n) by (nonlinear_arith)
            requires
                n == w * h,
                1 <= w,
                1 <= h,
        ;
    }
    let end_idx = n - 1;

    let mut dist: Vec<u32> = Vec::new();
    let mut parents: Vec<Option<usize>> = Vec::new();
    let mut visited: Vec<bool> = Vec::new();
    let mut k: usize = 0;
    while k < n
        invariant
            k <= n,
            dist@.len() == k,
            parents@.len() == k,
            visited@.len() == k,
            forall|j: int| 0 <= j < k ==> dist@[j] == u32::MAX,
            forall|j: int| 0 <= j < k ==> parents@[j] is None,
            forall|j: int| 0 <= j < k ==> !visited@[j],
        decreases n - k,
    {
        dist.push(u32::MAX);
        parents.push(None);
        visited.push(false);
        k = k + 1;
    }
    dist.set(0, 0);
    let ghost mut vtime: Seq<nat> = Seq::new(n as nat, |j: int| 0nat);
    let ghost mut stamp: nat = 1;
    proof {
        lemma_count_false_all_false(visited@);
    }

    loop
        invariant
            w == grid.width,
            h == grid.height,
            n == grid.cells@.len(),
            n == w * h,
            1 <= n,
            end_idx == n - 1,
            search_inv(*grid, dist@, parents@, visited@, vtime, stamp, maximize),
            opt_inv(*grid, dist@, visited@, vtime, maximize),
            edges_relaxed(*grid, dist@, visited@, maximize),
            !visited@[end_idx as int],
        decreases count_false(visited@),
    {
        let best_i = select_min(&dist, &visited);
        if best_i == n {
            proof {
                // the start cell is settled: its cost is 0, never infinite
                assert(visited@[0]) by {
                    if !visited@[0] {
                        assert(dist@[0] == u32::MAX);
                    }
                }
                // nothing unvisited has been reached, so the settled cells
                // are closed under adjacency and must cover the whole grid
                assert forall|k: int, m: int|
                    0 <= k < visited@.len() && 0 <= m < visited@.len() && visited@[k]
                        && #[trigger] adjacent(*grid, m, k) implies visited@[m] by {
                    if !visited@[m] {
                        assert(dist@[m] <= dist@[k] + cell_weight(*grid, m, maximize));
                        assert(dist@[k] <= 255 * vtime[k]);
                        assert(vtime[k] < stamp);
                        assert(stamp + count_false(visited@) == n + 1);
                        assert(cell_weight(*grid, m, maximize) <= 255);
                        assert(dist@[m] < u32::MAX);
                        assert(dist@[m] == u32::MAX);
                    }
                };
                lemma_closed_set_covers(*grid, visited@, w - 1, h - 1);
                assert((h - 1) * (w as int) + (w - 1) == n - 1) by (nonlinear_arith)
                    requires
                        n == w * h,
                        1 <= w,
                        1 <= h,
                ;
                assert(false);
            }
            return (None, 0);
        }
        let cur = best_i;
        let ghost visited0 = visited@;
        let ghost vtime0 = vtime;
        visited.set(cur, true);
        proof {
            lemma_count_false_update(visited0, cur as int);
            let stamp0 = stamp;
            vtime = vtime.update(cur as int, stamp);
            stamp = stamp + 1;
            if cur != 0 {
                assert(parents@[cur as int] is Some);
                match parents@[cur as int] {
                    Some(par) => {
                        assert(dist@[par as int] <= 255 * vtime[par as int]);
                        assert(vtime[par as int] < stamp0);
                        assert(cell_weight(*grid, cur as int, maximize) <= 255);
                        assert(dist@[cur as int] <= 255 * stamp0);
                        // the parent is settled, so the start was settled
                        // before this, the first, settlement could happen
                        assert(visited0[par as int]);
                        assert(visited0[0]);
                    },
                    None => {},
                }
            }
            assert(search_inv(*grid, dist@, parents@, visited@, vtime, stamp, maximize));
            lemma_settle_optimal(
                *grid,
                dist@,
                visited0,
                visited@,
                vtime0,
                vtime,
                stamp0,
                cur as int,
                maximize,
            );
            assert forall|a: int|
                0 <= a < dist@.len() && visited@[a] implies #[trigger] vtime[a] <= vtime[
                cur as int
            ] by {
                if a != cur {
                    assert(visited0[a]);
                    assert(vtime0[a] < stamp0);
                }
            };
        }

        if cur == end_idx {
            let d_end = dist[cur];
            proof {
                assert forall|q: Seq<usize>| #[trigger] valid_path(*grid, q) implies d_end
                    <= path_cost(*grid, q, maximize) by {
                    assert(walk_to(*grid, q, end_idx as int));
                };
            }
            let path = reconstruct_path(
                grid,
                &dist,
                &parents,
                &visited,
                Ghost(vtime),
                Ghost(stamp),
                end_idx,
                maximize,
            );
            return (Some(path), d_end);
        }

        relax_all(
            grid,
            &mut dist,
            &mut parents,
            &visited,
            Ghost(visited0),
            Ghost(vtime),
            Ghost(stamp),
            cur,
            maximize,
        );
    }
}

/// Walk the parent links back from the end cell and return the path the
/// search found, in travel order.
#[verifier::rlimit(60)]
#[verifier::spinoff_prover]
fn reconstruct_path(
    grid: &Grid,
    dist: &Vec<u32>,
    parents: &Vec<Option<usize>>,
    visited: &Vec<bool>,
    Ghost(vtime): Ghost<Seq<nat>>,
    Ghost(stamp): Ghost<nat>,
    end_idx: usize,
    maximize: bool,
) -> (res: Vec<usize>)
    requires
        search_inv(*grid, dist@, parents@, visited@, vtime, stamp, maximize),
        end_idx as int == grid.cells@.len() - 1,
        visited@[end_idx as int],
    ensures
        valid_path(*grid, res@),
        dist@[end_idx as int] == path_cost(*grid, res@, maximize),
{
    let ghost n = grid.cells@.len() as int;
    let mut rev: Vec<usize> = Vec::new();
    let mut node: usize = end_idx;
    rev.push(node);
    proof {
        assert(rev@.drop_last() =~= Seq::<usize>::empty());
    }
    loop
        invariant
            search_inv(*grid, dist@, parents@, visited@, vtime, stamp, maximize),
            n == grid.cells@.len(),
            end_idx == n - 1,
            rev@.len() >= 1,
            rev@[0] == end_idx,
            rev@.last() == node,
            node < n,
            visited@[node as int],
            forall|i: int| 0 <= i < rev@.len() ==> rev@[i] < n,
            forall|i: int|
                0 <= i < rev@.len() - 1 ==> parents@[#[trigger] rev@[i] as int] == Some(
                    rev@[i + 1],
                ),
            forall|i: int, j: int|
                #![trigger rev@[i], rev@[j]]
                0 <= i < j < rev@.len() ==> vtime[rev@[i] as int] > vtime[rev@[j] as int],
            dist@[end_idx as int] == dist@[node as int] + weights_of(
                *grid,
                rev@.drop_last(),
                maximize,
            ),
        ensures
            rev@.len() >= 1,
            rev@[0] == end_idx,
            rev@.last() == node,
            node == 0,
            forall|i: int| 0 <= i < rev@.len() ==> rev@[i] < n,
            forall|i: int|
                0 <= i < rev@.len() - 1 ==> parents@[#[trigger] rev@[i] as int] == Some(
                    rev@[i + 1],
                ),
            forall|i: int, j: int|
                #![trigger rev@[i], rev@[j]]
                0 <= i < j < rev@.len() ==> vtime[rev@[i] as int] > vtime[rev@[j] as int],
            dist@[end_idx as int] == weights_of(*grid, rev@.drop_last(), maximize),
        decreases vtime[node as int],
    {
        let pnext = parents[node];
        match pnext {
            Some(p) => {
                proof {
                    lemma_weights_of_push(*grid, rev@.drop_last(), node, maximize);
                    assert(rev@.drop_last().push(node) =~= rev@);
                    assert(rev@.push(p).drop_last() =~= rev@);
                    assert(vtime[node as int] > vtime[p as int]);
                }
                rev.push(p);
                node = p;
            },
            None => {
                proof {
                    assert(node == 0);
                }
                break ;
            },
        }
    }
    let m = rev.len();
    let mut path: Vec<usize> = Vec::new();
    let mut t: usize = m;
    while t > 0
        invariant
            t <= m,
            m == rev@.len(),
            path@.len() == m - t,
            forall|j: int| 0 <= j < path@.len() ==> path@[j] == rev@[m - 1 - j],
        decreases t,
    {
        t = t - 1;
        path.push(rev[t]);
    }
    proof {
        lemma_path_cost_of_reversal(*grid, rev@, path@, maximize);
        assert(path@[0] == rev@[m - 1]);
        assert(path@.last() == rev@[0]);
        assert forall|i: int| 0 <= i < path@.len() - 1 implies #[trigger] adjacent(
            *grid,
            path@[i] as int,
            path@[i + 1] as int,
        ) by {
            let a = rev@[m - 1 - i];
            let b = rev@[m - 2 - i];
            assert(path@[i] == a);
            assert(path@[i + 1] == b);
            assert(parents@[b as int] == Some(a));
            assert(adjacent(*grid, b as int, a as int));
        };
        assert forall|i: int, j: int|
            #![trigger path@[i], path@[j]]
            0 <= i < j < path@.len() implies path@[i] != path@[j] by {
            assert(path@[i] == rev@[m - 1 - i]);
            assert(path@[j] == rev@[m - 1 - j]);
            assert(vtime[rev@[m - 1 - j] as int] > vtime[rev@[m - 1 - i] as int]);
        };
        assert(valid_path(*grid, path@));
    }
    path
}

} // verus!
