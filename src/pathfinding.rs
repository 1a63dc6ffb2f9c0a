use vstd::prelude::*;

use crate::math::TileIndex;
use crate::path::{PathTile, PathTilemap};
use crate::storage::{in_range, tile_at, ChunkedStorage};

verus! {

/// One search: from `origin` to `dest`, with or without diagonal moves, and with an optional
/// bound on the number of tiles expanded.
#[derive(Debug, Clone, Copy, PartialEq, Eq, Structural)]
pub struct PathFinder {
    pub origin: TileIndex,
    pub dest: TileIndex,
    pub allow_diagonal: bool,
    pub max_steps: Option<u32>,
}

/// Why a search found no path.
#[derive(Debug, Clone, Copy, PartialEq, Eq, Structural)]
pub enum PathFailure {
    /// No route leads from the origin to the destination.
    Unreachable,
    /// The search expanded more tiles than its budget allows.
    BudgetExceeded,
}

/// A route from origin to destination, both included, and the cost of the tiles entered.
#[derive(Debug, Clone)]
pub struct Path {
    pub tiles: Vec<TileIndex>,
    pub cost: u64,
}

/// The outcome of one search.
#[derive(Debug, Clone)]
pub enum PathResult {
    Succeeded(Path),
    Failed(PathFailure),
}

/// A move from `a` to `b` is allowed: `b` is passable and is one of `a`'s four neighbours, or,
/// with diagonals, a diagonal neighbour that is not reached between two impassable tiles.
pub open spec fn step_ok(grid: Map<(int, int), PathTile>, diag: bool, a: (int, int), b: (int, int)) -> bool {
    let dx = b.0 - a.0;
    let dy = b.1 - a.1;
    &&& grid.contains_key(b)
    &&& {
        ||| (dx == 0 && (dy == 1 || dy == -1))
        ||| (dy == 0 && (dx == 1 || dx == -1))
        ||| (diag && (dx == 1 || dx == -1) && (dy == 1 || dy == -1) && (grid.contains_key((b.0, a.1))
            || grid.contains_key((a.0, b.1))))
    }
}

/// `s` is a non-empty sequence of allowed moves.
pub open spec fn is_route(grid: Map<(int, int), PathTile>, diag: bool, s: Seq<TileIndex>) -> bool {
    &&& s.len() >= 1
    &&& forall|i: int| #![trigger s[i]] 0 <= i < s.len() - 1 ==> step_ok(grid, diag, s[i].pos(), s[i + 1].pos())
}

/// The sum of the costs of the tiles a route enters (its first tile is not entered).
pub open spec fn route_cost(grid: Map<(int, int), PathTile>, s: Seq<TileIndex>) -> int
    decreases s.len(),
{
    if s.len() <= 1 {
        0
    } else {
        grid[s[1].pos()].cost + route_cost(grid, s.subrange(1, s.len() as int))
    }
}

/// Some route leads from `a` to `b`.
pub open spec fn reachable(grid: Map<(int, int), PathTile>, diag: bool, a: TileIndex, b: TileIndex) -> bool {
    exists|s: Seq<TileIndex>| is_route(grid, diag, s) && s[0] == a && #[trigger] s[s.len() - 1] == b
}

/// The tiles some route from `origin` ends on.
pub open spec fn reach_set(grid: Map<(int, int), PathTile>, diag: bool, origin: TileIndex) -> Set<(int, int)> {
    Set::new(
        |p: (int, int)|
            exists|s: Seq<TileIndex>| is_route(grid, diag, s) && s[0] == origin && #[trigger] s[s.len() - 1].pos() == p,
    )
}

/// Grid distance between `a` and `b`: Manhattan for four moves, Chebyshev with diagonals.
pub open spec fn grid_dist(diag: bool, a: (int, int), b: (int, int)) -> int {
    let dx = if a.0 >= b.0 { a.0 - b.0 } else { b.0 - a.0 };
    let dy = if a.1 >= b.1 { a.1 - b.1 } else { b.1 - a.1 };
    if diag {
        if dx >= dy {
            dx
        } else {
            dy
        }
    } else {
        dx + dy
    }
}

/// The search's estimate of the cost from `a` to `b`: the distance times a floor `mc` of the
/// tile costs.
pub open spec fn estimate(diag: bool, mc: int, a: (int, int), b: (int, int)) -> int {
    mc * grid_dist(diag, a, b)
}

/// No passable tile costs less than `mc`.
pub open spec fn cost_floor(grid: Map<(int, int), PathTile>, mc: int) -> bool {
    &&& mc >= 0
    &&& forall|p: (int, int)| #[trigger] grid.contains_key(p) ==> grid[p].cost >= mc
}

/// No route from `origin` to `p` costs less than `v`.
pub open spec fn cheapest_at(grid: Map<(int, int), PathTile>, diag: bool, origin: TileIndex, p: (int, int), v: int) -> bool {
    forall|s: Seq<TileIndex>|
        is_route(grid, diag, s) && s[0] == origin && s[s.len() - 1].pos() == p ==> v <= #[trigger] route_cost(grid, s)
}

/// One move lowers the estimate by at most the cost of the tile entered.
proof fn lemma_estimate_step(grid: Map<(int, int), PathTile>, diag: bool, mc: int, p: (int, int), q: (int, int), d: (int, int))
    requires
        step_ok(grid, diag, p, q),
        cost_floor(grid, mc),
    ensures
        estimate(diag, mc, p, d) <= grid[q].cost + estimate(diag, mc, q, d),
{
    let dp = grid_dist(diag, p, d);
    let dq = grid_dist(diag, q, d);
    assert(dp <= dq + 1);
    assert(grid[q].cost >= mc);
    assert(mc * dp <= mc * dq + mc) by (nonlinear_arith)
        requires
            dp <= dq + 1,
            mc >= 0,
    ;
}

/// Part of a route is a route.
proof fn lemma_subroute(grid: Map<(int, int), PathTile>, diag: bool, s: Seq<TileIndex>, a: int, b: int)
    requires
        is_route(grid, diag, s),
        0 <= a < b <= s.len(),
    ensures
        is_route(grid, diag, s.subrange(a, b)),
{
    let t = s.subrange(a, b);
    assert forall|i: int| #![trigger t[i]] 0 <= i < t.len() - 1 implies step_ok(grid, diag, t[i].pos(), t[i + 1].pos()) by {
        assert(t[i] == s[a + i] && t[i + 1] == s[a + i + 1]);
    }
}

/// The cost of a route is the cost up to its tile `j` plus the cost from there.
proof fn lemma_route_cost_split(grid: Map<(int, int), PathTile>, s: Seq<TileIndex>, j: int)
    requires
        0 <= j < s.len(),
    ensures
        route_cost(grid, s) == route_cost(grid, s.subrange(0, j + 1)) + route_cost(grid, s.subrange(j, s.len() as int)),
    decreases s.len(),
{
    if j == 0 {
        assert(s.subrange(0, s.len() as int) =~= s);
    } else {
        let t = s.subrange(1, s.len() as int);
        lemma_route_cost_split(grid, t, j - 1);
        assert(t.subrange(j - 1, t.len() as int) =~= s.subrange(j, s.len() as int));
        let u = s.subrange(0, j + 1);
        assert(u.subrange(1, u.len() as int) =~= t.subrange(0, j));
        assert(u[1] == s[1]);
    }
}

/// Along a route, the estimate from any tile is at most the cost of the rest of the route
/// plus the estimate from its end.
proof fn lemma_estimate_route(grid: Map<(int, int), PathTile>, diag: bool, mc: int, s: Seq<TileIndex>, j: int, d: (int, int))
    requires
        is_route(grid, diag, s),
        cost_floor(grid, mc),
        0 <= j < s.len(),
    ensures
        estimate(diag, mc, s[j].pos(), d) <= route_cost(grid, s.subrange(j, s.len() as int)) + estimate(
            diag,
            mc,
            s[s.len() - 1].pos(),
            d,
        ),
    decreases s.len() - j,
{
    if j < s.len() - 1 {
        lemma_estimate_route(grid, diag, mc, s, j + 1, d);
        assert(step_ok(grid, diag, s[j].pos(), s[j + 1].pos()));
        lemma_estimate_step(grid, diag, mc, s[j].pos(), s[j + 1].pos(), d);
        let t = s.subrange(j, s.len() as int);
        assert(t.subrange(1, t.len() as int) =~= s.subrange(j + 1, s.len() as int));
        assert(t[1] == s[j + 1]);
    }
}

/// What a search for `req` on `grid` may return: a cheapest route with its cost, `Unreachable`
/// only where no route exists, and `BudgetExceeded` only under a budget smaller than the
/// number of tiles reachable from the origin.
pub open spec fn search_outcome(grid: Map<(int, int), PathTile>, req: PathFinder, r: PathResult) -> bool {
    match r {
        PathResult::Succeeded(path) => {
            &&& is_route(grid, req.allow_diagonal, path.tiles@)
            &&& path.tiles@[0] == req.origin
            &&& path.tiles@[path.tiles@.len() - 1] == req.dest
            &&& path.cost == route_cost(grid, path.tiles@)
            &&& cheapest_at(grid, req.allow_diagonal, req.origin, req.dest.pos(), path.cost as int)
            &&& req.max_steps matches Some(m) ==> path.tiles@.len() - 1 <= m
        },
        PathResult::Failed(PathFailure::Unreachable) => !reachable(grid, req.allow_diagonal, req.origin, req.dest),
        PathResult::Failed(PathFailure::BudgetExceeded) => req.max_steps matches Some(m) && m < reach_set(
            grid,
            req.allow_diagonal,
            req.origin,
        ).len(),
    }
}

/// A node of the search tree: a tile, the node it was reached from, the cost to reach it and
/// the number of moves.
#[derive(Debug, Clone, Copy)]
struct Node {
    pos: TileIndex,
    parent: usize,
    g: u64,
    depth: u64,
}

spec fn node_ok(grid: Map<(int, int), PathTile>, req: PathFinder, a: Seq<Node>, k: int) -> bool {
    &&& k == 0 ==> a[0].pos == req.origin && a[0].g == 0 && a[0].depth == 0
    &&& k > 0 ==> {
        &&& a[k].parent < k
        &&& step_ok(grid, req.allow_diagonal, a[a[k].parent as int].pos.pos(), a[k].pos.pos())
        &&& a[k].g == a[a[k].parent as int].g + grid[a[k].pos.pos()].cost
        &&& a[k].depth == a[a[k].parent as int].depth + 1
    }
    &&& a[k].g <= a[k].depth * (u32::MAX as int)
}

/// The state of a search: the tree `a`, the open nodes `o`, the best node and closed flag of
/// each tile seen `s`, and the closed tiles `c`.
spec fn search_inv(
    grid: Map<(int, int), PathTile>,
    req: PathFinder,
    a: Seq<Node>,
    o: Seq<usize>,
    s: Map<(int, int), (usize, bool)>,
    c: Set<(int, int)>,
) -> bool {
    &&& a.len() >= 1
    &&& forall|k: int| 0 <= k < a.len() ==> #[trigger] node_ok(grid, req, a, k)
    &&& forall|k: int| 0 <= k < a.len() ==> #[trigger] a[k].depth <= c.len()
    &&& c.finite()
    &&& s.dom().finite()
    &&& forall|p: (int, int)| #[trigger] c.contains(p) ==> s.contains_key(p)
    &&& forall|p: (int, int)|
        #[trigger] s.contains_key(p) ==> p == req.origin.pos() || grid.contains_key(p)
    &&& forall|p: (int, int)|
        #[trigger] s.contains_key(p) ==> s[p].0 < a.len() && a[s[p].0 as int].pos.pos() == p && (s[p].1
            <==> c.contains(p))
    &&& forall|i: int|
        0 <= i < o.len() ==> (#[trigger] o[i]) < a.len() && s.contains_key(a[o[i] as int].pos.pos())
            && s[a[o[i] as int].pos.pos()] == (o[i], false)
    &&& forall|i: int, j: int| 0 <= i < j < o.len() ==> #[trigger] o[i] != #[trigger] o[j]
    &&& forall|p: (int, int)| #[trigger] s.contains_key(p) && !s[p].1 ==> o.contains(s[p].0)
    &&& !c.contains(req.dest.pos())
    &&& s.contains_key(req.origin.pos())
}

/// Every allowed move from a tile of `c` leads to a tile seen, whose best node costs at most
/// the move's cost more than the tile of `c`.
spec fn relaxed(
    grid: Map<(int, int), PathTile>,
    diag: bool,
    a: Seq<Node>,
    s: Map<(int, int), (usize, bool)>,
    c: Set<(int, int)>,
) -> bool {
    forall|p: (int, int), q: (int, int)|
        #[trigger] c.contains(p) && #[trigger] step_ok(grid, diag, p, q) ==> s.contains_key(q) && a[s[q].0 as int].g
            <= a[s[p].0 as int].g + grid[q].cost
}

/// The best node of each tile of `c` costs no more than any route to it.
spec fn all_cheapest(
    grid: Map<(int, int), PathTile>,
    req: PathFinder,
    a: Seq<Node>,
    s: Map<(int, int), (usize, bool)>,
    c: Set<(int, int)>,
) -> bool {
    forall|p: (int, int)| #[trigger] c.contains(p) ==> cheapest_at(grid, req.allow_diagonal, req.origin, p, a[s[p].0 as int].g as int)
}

/// The value by which the search orders open nodes: cost so far plus estimate.
spec fn f_val(a: Seq<Node>, e: int, diag: bool, mc: int, dest: TileIndex) -> int {
    a[e].g + estimate(diag, mc, a[e].pos.pos(), dest.pos())
}

/// The eight moves; the first four are the orthogonal ones.
spec fn offset(k: int) -> (int, int) {
    if k == 0 {
        (1, 0)
    } else if k == 1 {
        (-1, 0)
    } else if k == 2 {
        (0, 1)
    } else if k == 3 {
        (0, -1)
    } else if k == 4 {
        (1, 1)
    } else if k == 5 {
        (1, -1)
    } else if k == 6 {
        (-1, 1)
    } else {
        (-1, -1)
    }
}

fn offset_of(k: usize) -> (r: (i64, i64))
    requires
        k < 8,
    ensures
        r.0 == offset(k as int).0,
        r.1 == offset(k as int).1,
{
    if k == 0 {
        (1, 0)
    } else if k == 1 {
        (-1, 0)
    } else if k == 2 {
        (0, 1)
    } else if k == 3 {
        (0, -1)
    } else if k == 4 {
        (1, 1)
    } else if k == 5 {
        (1, -1)
    } else if k == 6 {
        (-1, 1)
    } else {
        (-1, -1)
    }
}

/// Every allowed move from `p` is by one of the first four offsets, or of all eight with
/// diagonals.
proof fn lemma_moves_are_offsets(grid: Map<(int, int), PathTile>, diag: bool, p: (int, int), q: (int, int))
    requires
        step_ok(grid, diag, p, q),
    ensures
        exists|k: int|
            0 <= k < (if diag { 8int } else { 4int }) && q == (p.0 + #[trigger] offset(k).0, p.1 + offset(k).1),
{
    let dx = q.0 - p.0;
    let dy = q.1 - p.1;
    let k: int = if dx == 1 && dy == 0 {
        0
    } else if dx == -1 && dy == 0 {
        1
    } else if dx == 0 && dy == 1 {
        2
    } else if dx == 0 && dy == -1 {
        3
    } else if dx == 1 && dy == 1 {
        4
    } else if dx == 1 && dy == -1 {
        5
    } else if dx == -1 && dy == 1 {
        6
    } else {
        7
    };
    assert(q == (p.0 + offset(k).0, p.1 + offset(k).1));
}

/// A route that starts in a set closed under allowed moves stays in it.
proof fn lemma_route_stays(
    grid: Map<(int, int), PathTile>,
    diag: bool,
    route: Seq<TileIndex>,
    c: Set<(int, int)>,
    i: int,
)
    requires
        is_route(grid, diag, route),
        c.contains(route[0].pos()),
        forall|p: (int, int), q: (int, int)| #[trigger] c.contains(p) && #[trigger] step_ok(grid, diag, p, q) ==> c.contains(q),
        0 <= i < route.len(),
    ensures
        c.contains(route[i].pos()),
    decreases i,
{
    if i > 0 {
        lemma_route_stays(grid, diag, route, c, i - 1);
        assert(step_ok(grid, diag, route[i - 1].pos(), route[i].pos()));
    }
}

/// Every node of the search tree is reachable from the origin.
proof fn lemma_node_reachable(grid: Map<(int, int), PathTile>, req: PathFinder, a: Seq<Node>, k: int)
    requires
        forall|kk: int| 0 <= kk < a.len() ==> #[trigger] node_ok(grid, req, a, kk),
        0 <= k < a.len(),
    ensures
        reach_set(grid, req.allow_diagonal, req.origin).contains(a[k].pos.pos()),
{
    lemma_node_route(grid, req, a, k);
    let s = choose|s: Seq<TileIndex>|
        is_route(grid, req.allow_diagonal, s) && s[0] == req.origin && s[s.len() - 1].pos() == a[k].pos.pos()
            && #[trigger] route_cost(grid, s) == a[k].g;
    assert(s[s.len() - 1].pos() == a[k].pos.pos());
}

/// Every node of the search tree ends a route from the origin that costs what the node does.
proof fn lemma_node_route(grid: Map<(int, int), PathTile>, req: PathFinder, a: Seq<Node>, k: int)
    requires
        forall|kk: int| 0 <= kk < a.len() ==> #[trigger] node_ok(grid, req, a, kk),
        0 <= k < a.len(),
    ensures
        exists|s: Seq<TileIndex>|
            is_route(grid, req.allow_diagonal, s) && s[0] == req.origin && s[s.len() - 1].pos() == a[k].pos.pos()
                && #[trigger] route_cost(grid, s) == a[k].g,
    decreases k,
{
    assert(node_ok(grid, req, a, k));
    if k == 0 {
        let s = seq![req.origin];
        assert(route_cost(grid, s) == 0);
    } else {
        let par = a[k].parent as int;
        lemma_node_route(grid, req, a, par);
        let s = choose|s: Seq<TileIndex>|
            is_route(grid, req.allow_diagonal, s) && s[0] == req.origin && s[s.len() - 1].pos() == a[par].pos.pos()
                && #[trigger] route_cost(grid, s) == a[par].g;
        lemma_route_extend(grid, req.allow_diagonal, s, a[k].pos);
    }
}

/// A route with one more tile at the end costs that tile more.
proof fn lemma_route_extend(grid: Map<(int, int), PathTile>, diag: bool, s: Seq<TileIndex>, t: TileIndex)
    requires
        is_route(grid, diag, s),
        step_ok(grid, diag, s[s.len() - 1].pos(), t.pos()),
    ensures
        is_route(grid, diag, s.push(t)),
        route_cost(grid, s.push(t)) == route_cost(grid, s) + grid[t.pos()].cost,
        s.push(t)[0] == s[0],
        s.push(t)[s.len() as int] == t,
{
    let s2 = s.push(t);
    assert forall|i: int| #![trigger s2[i]] 0 <= i < s2.len() - 1 implies step_ok(grid, diag, s2[i].pos(), s2[i + 1].pos()) by {
        if i < s.len() - 1 {
            assert(s2[i] == s[i] && s2[i + 1] == s[i + 1]);
        } else {
            assert(s2[i] == s[s.len() - 1]);
        }
    }
    lemma_route_cost_split(grid, s2, s.len() - 1);
    assert(s2.subrange(0, s.len() as int) =~= s);
    let e = s2.subrange(s.len() - 1, s2.len() as int);
    assert(e.subrange(1, e.len() as int) =~= seq![t]);
    assert(e[1] == t);
    assert(route_cost(grid, seq![t]) == 0);
    assert(route_cost(grid, e) == grid[t.pos()].cost + route_cost(grid, e.subrange(1, e.len() as int)));
}

/// The first tile of a route outside `c`, when its last tile is outside.
proof fn lemma_first_outside(s: Seq<TileIndex>, c: Set<(int, int)>, i: int) -> (j: int)
    requires
        0 <= i < s.len(),
        !c.contains(s[s.len() - 1].pos()),
        forall|k: int| 0 <= k < i ==> c.contains(#[trigger] s[k].pos()),
    ensures
        i <= j < s.len(),
        !c.contains(s[j].pos()),
        forall|k: int| 0 <= k < j ==> c.contains(#[trigger] s[k].pos()),
    decreases s.len() - i,
{
    if !c.contains(s[i].pos()) {
        i
    } else {
        lemma_first_outside(s, c, i + 1)
    }
}

/// The open node of least cost plus estimate costs no more than any route to its tile.
proof fn lemma_pop_cheapest(
    grid: Map<(int, int), PathTile>,
    req: PathFinder,
    a: Seq<Node>,
    o: Seq<usize>,
    s: Map<(int, int), (usize, bool)>,
    c: Set<(int, int)>,
    mc: int,
    m: int,
)
    requires
        search_inv(grid, req, a, o, s, c),
        relaxed(grid, req.allow_diagonal, a, s, c),
        all_cheapest(grid, req, a, s, c),
        a[s[req.origin.pos()].0 as int].g == 0,
        cost_floor(grid, mc),
        0 <= m < o.len(),
        forall|i: int| 0 <= i < o.len() ==> f_val(a, #[trigger] o[i] as int, req.allow_diagonal, mc, req.dest) >= f_val(
            a,
            o[m] as int,
            req.allow_diagonal,
            mc,
            req.dest,
        ),
    ensures
        cheapest_at(grid, req.allow_diagonal, req.origin, a[o[m] as int].pos.pos(), a[o[m] as int].g as int),
{
    let diag = req.allow_diagonal;
    let n = o[m] as int;
    let t = a[n].pos.pos();
    let d = req.dest.pos();
    assert(s[t] == (o[m], false));
    assert forall|r: Seq<TileIndex>|
        is_route(grid, diag, r) && r[0] == req.origin && r[r.len() - 1].pos() == t implies a[n].g <= #[trigger] route_cost(
        grid,
        r,
    ) by {
        let j = lemma_first_outside(r, c, 0);
        let q = r[j].pos();
        let head = r.subrange(0, j + 1);
        if j == 0 {
            assert(head =~= seq![r[0]]);
            assert(route_cost(grid, head) == 0);
            assert(s.contains_key(q));
        } else {
            let p = r[j - 1].pos();
            assert(c.contains(p));
            assert(step_ok(grid, diag, r[j - 1].pos(), r[j - 1 + 1].pos()));
            assert(s.contains_key(q));
            lemma_subroute(grid, diag, r, 0, j);
            let before = r.subrange(0, j);
            assert(before[before.len() - 1] == r[j - 1]);
            assert(before[0] == r[0]);
            assert(cheapest_at(grid, diag, req.origin, p, a[s[p].0 as int].g as int));
            assert(a[s[p].0 as int].g <= route_cost(grid, before));
            lemma_route_extend(grid, diag, before, r[j]);
            assert(before.push(r[j]) =~= head);
        }
        assert(a[s[q].0 as int].g <= route_cost(grid, head));
        assert(!s[q].1);
        assert(o.contains(s[q].0));
        let i = choose|i: int| 0 <= i < o.len() && o[i] == s[q].0;
        assert(f_val(a, o[i] as int, diag, mc, req.dest) >= f_val(a, n, diag, mc, req.dest));
        assert(a[s[q].0 as int].pos.pos() == q);
        lemma_estimate_route(grid, diag, mc, r, j, d);
        lemma_route_cost_split(grid, r, j);
    }
}

/// The reachable tiles are the origin and passable tiles, so there are finitely many.
proof fn lemma_reach_set_finite(grid: Map<(int, int), PathTile>, diag: bool, origin: TileIndex)
    requires
        grid.dom().finite(),
    ensures
        reach_set(grid, diag, origin).finite(),
        reach_set(grid, diag, origin).subset_of(grid.dom().insert(origin.pos())),
{
    let r = reach_set(grid, diag, origin);
    assert forall|p: (int, int)| r.contains(p) implies grid.dom().insert(origin.pos()).contains(p) by {
        let s = choose|s: Seq<TileIndex>| is_route(grid, diag, s) && s[0] == origin && #[trigger] s[s.len() - 1].pos() == p;
        if s.len() > 1 {
            assert(step_ok(grid, diag, s[s.len() - 2].pos(), s[s.len() - 2 + 1].pos()));
        }
    }
    vstd::set_lib::lemma_len_subset(r, grid.dom().insert(origin.pos()));
}

/// A route of one more tile in front costs that tile's successor more.
proof fn lemma_route_prepend(grid: Map<(int, int), PathTile>, diag: bool, t: TileIndex, s: Seq<TileIndex>)
    requires
        is_route(grid, diag, s),
        step_ok(grid, diag, t.pos(), s[0].pos()),
    ensures
        is_route(grid, diag, seq![t] + s),
        route_cost(grid, seq![t] + s) == grid[s[0].pos()].cost + route_cost(grid, s),
{
    let r = seq![t] + s;
    assert(r.subrange(1, r.len() as int) =~= s);
    assert forall|i: int| #![trigger r[i]] 0 <= i < r.len() - 1 implies step_ok(grid, diag, r[i].pos(), r[i + 1].pos()) by {
        if i > 0 {
            assert(r[i] == s[i - 1]);
            assert(r[i + 1] == s[i]);
        }
    }
}

fn abs_diff(a: i32, b: i32) -> (r: u64)
    ensures
        r == if a >= b { a - b } else { b - a },
{
    if a >= b {
        (a as i64 - b as i64) as u64
    } else {
        (b as i64 - a as i64) as u64
    }
}

/// The estimate from `p` to `dest`: the grid distance times the cost floor `mc`.
fn heuristic(p: TileIndex, dest: TileIndex, diag: bool, mc: u32) -> (r: u128)
    ensures
        r == estimate(diag, mc as int, p.pos(), dest.pos()),
        r <= 0x1_0000_0000 * 0x2_0000_0000,
{
    let dx = abs_diff(p.x, dest.x);
    let dy = abs_diff(p.y, dest.y);
    let dist = if diag {
        if dx >= dy {
            dx
        } else {
            dy
        }
    } else {
        dx + dy
    };
    proof {
        assert(mc as int * dist as int <= 0x1_0000_0000 * 0x2_0000_0000) by (nonlinear_arith)
            requires
                mc <= u32::MAX,
                dist <= 2 * (u32::MAX as int) + 2,
        ;
    }
    mc as u128 * dist as u128
}

/// Index in `open` of the open node with the least cost plus estimate, the first one on a tie.
fn pick_open(arena: &Vec<Node>, open: &Vec<usize>, dest: TileIndex, diag: bool, mc: u32) -> (r: usize)
    requires
        open@.len() > 0,
        forall|i: int| 0 <= i < open@.len() ==> (#[trigger] open@[i]) < arena@.len(),
    ensures
        r < open@.len(),
        forall|i: int|
            0 <= i < open@.len() ==> f_val(arena@, #[trigger] open@[i] as int, diag, mc as int, dest) >= f_val(
                arena@,
                open@[r as int] as int,
                diag,
                mc as int,
                dest,
            ),
        forall|i: int|
            0 <= i < r ==> f_val(arena@, #[trigger] open@[i] as int, diag, mc as int, dest) > f_val(
                arena@,
                open@[r as int] as int,
                diag,
                mc as int,
                dest,
            ),
{
    let mut best: usize = 0;
    let n0 = arena[open[0]];
    let mut best_f: u128 = n0.g as u128 + heuristic(n0.pos, dest, diag, mc);
    let mut i: usize = 1;
    while i < open.len()
        invariant
            best < open@.len(),
            1 <= i <= open@.len(),
            forall|i: int| 0 <= i < open@.len() ==> (#[trigger] open@[i]) < arena@.len(),
            best_f == f_val(arena@, open@[best as int] as int, diag, mc as int, dest),
            forall|j: int| 0 <= j < i ==> f_val(arena@, #[trigger] open@[j] as int, diag, mc as int, dest) >= best_f,
            best < i,
            forall|j: int| 0 <= j < best ==> f_val(arena@, #[trigger] open@[j] as int, diag, mc as int, dest) > best_f,
        decreases open@.len() - i,
    {
        let n = arena[open[i]];
        let f = n.g as u128 + heuristic(n.pos, dest, diag, mc);
        if f < best_f {
            best = i;
            best_f = f;
        }
        i += 1;
    }
    best
}

/// A floor of the tile costs of `grid`: the least of them, or the largest cost when the grid
/// is empty.
fn cost_floor_of(grid: &PathTilemap) -> (r: u32)
    requires
        grid.wf(),
    ensures
        cost_floor(grid@, r as int),
{
    let entries = grid.entries();
    let mut mc: u32 = u32::MAX;
    let mut i: usize = 0;
    while i < entries.len()
        invariant
            i <= entries@.len(),
            forall|a: int| 0 <= a < i ==> (#[trigger] entries@[a]).1.cost >= mc,
        decreases entries@.len() - i,
    {
        if entries[i].1.cost < mc {
            mc = entries[i].1.cost;
        }
        i += 1;
    }
    proof {
        assert forall|p: (int, int)| #[trigger] grid@.contains_key(p) implies grid@[p].cost >= mc by {
            let a = choose|a: int| 0 <= a < entries@.len() && (#[trigger] entries@[a]).0.pos() == p;
            assert(tile_at(grid@, entries@[a].0.pos()) == Some(entries@[a].1));
        }
    }
    mc
}

fn find_entry(open: &Vec<usize>, e: usize) -> (r: usize)
    requires
        open@.contains(e),
    ensures
        r < open@.len(),
        open@[r as int] == e,
{
    let mut i: usize = 0;
    while i < open.len()
        invariant
            i <= open@.len(),
            open@.contains(e),
            forall|j: int| 0 <= j < i ==> open@[j] != e,
        decreases open@.len() - i,
    {
        if open[i] == e {
            return i;
        }
        i += 1;
    }
    i
}

/// The route of the tree from the origin to node `n`.
fn trace_back(
    arena: &Vec<Node>,
    n: usize,
    grid: Ghost<Map<(int, int), PathTile>>,
    req: Ghost<PathFinder>,
) -> (r: Path)
    requires
        n < arena@.len(),
        forall|k: int| 0 <= k < arena@.len() ==> #[trigger] node_ok(grid@, req@, arena@, k),
    ensures
        is_route(grid@, req@.allow_diagonal, r.tiles@),
        r.tiles@[0] == req@.origin,
        r.tiles@[r.tiles@.len() - 1] == arena@[n as int].pos,
        r.cost == route_cost(grid@, r.tiles@),
        r.cost == arena@[n as int].g,
        r.tiles@.len() == arena@[n as int].depth + 1,
{
    let mut tiles: Vec<TileIndex> = Vec::new();
    tiles.push(arena[n].pos);
    let mut cur = n;
    assert(route_cost(grid@, tiles@) == 0);
    while cur != 0
        invariant
            cur < arena@.len(),
            n < arena@.len(),
            forall|k: int| 0 <= k < arena@.len() ==> #[trigger] node_ok(grid@, req@, arena@, k),
            is_route(grid@, req@.allow_diagonal, tiles@),
            tiles@[0] == arena@[cur as int].pos,
            tiles@[tiles@.len() - 1] == arena@[n as int].pos,
            route_cost(grid@, tiles@) == arena@[n as int].g - arena@[cur as int].g,
            tiles@.len() == arena@[n as int].depth - arena@[cur as int].depth + 1,
        decreases cur,
    {
        assert(node_ok(grid@, req@, arena@, cur as int));
        let par = arena[cur].parent;
        proof {
            lemma_route_prepend(grid@, req@.allow_diagonal, arena@[par as int].pos, tiles@);
        }
        let ghost old_tiles = tiles@;
        tiles.insert(0, arena[par].pos);
        assert(tiles@ =~= seq![arena@[par as int].pos] + old_tiles);
        cur = par;
    }
    assert(node_ok(grid@, req@, arena@, 0));
    assert(node_ok(grid@, req@, arena@, n as int));
    Path { tiles, cost: arena[n].g }
}

impl PathFinder {
    /// Searches `grid` for a route from `origin` to `dest`, expanding the open tile of least
    /// cost plus estimate first (ties go to the earliest opened), each tile at most once; the
    /// estimate is the grid distance times the least tile cost. A returned route is made of
    /// allowed moves, its cost is the sum of the costs of the tiles it enters, and no route
    /// costs less; `Unreachable` comes only where no route exists; a destination
    /// that is reachable is found unless the budget is smaller than the number of tiles
    /// reachable from the origin, and a route found under a budget has at most that many
    /// moves. The number of passable tiles is bounded so that every route
    /// cost fits in 64 bits.
    pub fn find_path(&self, grid: &PathTilemap) -> (r: PathResult)
        requires
            grid.wf(),
            grid@.len() < u32::MAX,
        ensures
            search_outcome(grid@, *self, r),
            reachable(grid@, self.allow_diagonal, self.origin, self.dest) && (self.max_steps matches Some(m)
                ==> m >= reach_set(grid@, self.allow_diagonal, self.origin).len()) ==> r is Succeeded,
    {
        let ghost g = grid@;
        let ghost req = *self;
        let diag = self.allow_diagonal;
        let dest = self.dest;
        proof {
            grid.tiles.lemma_keys_in_range();
        }
        let mut arena: Vec<Node> = Vec::new();
        arena.push(Node { pos: self.origin, parent: 0, g: 0, depth: 0 });
        let mut open: Vec<usize> = Vec::new();
        open.push(0);
        let mut seen: ChunkedStorage<(usize, bool)> = ChunkedStorage::new(16);
        seen.set(self.origin, (0, false));
        let ghost mut closed: Set<(int, int)> = Set::empty();
        let mut expansions: u64 = 0;
        let mc = cost_floor_of(grid);
        proof {
            assert(node_ok(g, req, arena@, 0));
            assert(open@.contains(0usize)) by {
                assert(open@[0] == 0usize);
            }
        }
        loop
            invariant
                grid.wf(),
                g == grid@,
                req == *self,
                diag == req.allow_diagonal,
                dest == req.dest,
                g.len() < u32::MAX,
                forall|p: (int, int)| #[trigger] g.contains_key(p) ==> in_range(p),
                g.dom().finite(),
                seen.wf(),
                search_inv(g, req, arena@, open@, seen@, closed),
                relaxed(g, diag, arena@, seen@, closed),
                all_cheapest(g, req, arena@, seen@, closed),
                arena@[seen@[req.origin.pos()].0 as int].g == 0,
                cost_floor(g, mc as int),
                expansions == closed.len(),
                self.max_steps matches Some(m) ==> expansions <= m,
            decreases g.len() + 1 - closed.len(),
        {
            if open.len() == 0 {
                proof {
                    assert forall|p: (int, int), q: (int, int)|
                        #[trigger] closed.contains(p) && #[trigger] step_ok(g, diag, p, q) implies closed.contains(q) by {
                        assert(seen@.contains_key(q));
                        if !seen@[q].1 {
                            assert(open@.contains(seen@[q].0));
                        }
                    }
                    assert(closed.contains(req.origin.pos())) by {
                        if !seen@[req.origin.pos()].1 {
                            assert(open@.contains(seen@[req.origin.pos()].0));
                        }
                    }
                    assert forall|s: Seq<TileIndex>|
                        is_route(g, diag, s) && s[0] == req.origin implies #[trigger] s[s.len() - 1] != req.dest by {
                        lemma_route_stays(g, diag, s, closed, s.len() - 1);
                    }
                }
                return PathResult::Failed(PathFailure::Unreachable);
            }
            let m = pick_open(&arena, &open, dest, diag, mc);
            let n = open[m];
            let node = arena[n];
            proof {
                lemma_pop_cheapest(g, req, arena@, open@, seen@, closed, mc as int, m as int);
            }
            if node.pos == dest {
                let path = trace_back(&arena, n, Ghost(g), Ghost(req));
                return PathResult::Succeeded(path);
            }
            match self.max_steps {
                Some(ms) => {
                    if expansions >= ms as u64 {
                        proof {
                            let rs = reach_set(g, diag, req.origin);
                            lemma_reach_set_finite(g, diag, req.origin);
                            assert forall|p: (int, int)| closed.insert(node.pos.pos()).contains(p) implies rs.contains(p) by {
                                if p == node.pos.pos() {
                                    lemma_node_reachable(g, req, arena@, n as int);
                                } else {
                                    assert(seen@.contains_key(p));
                                    lemma_node_reachable(g, req, arena@, seen@[p].0 as int);
                                }
                            }
                            assert(seen@[node.pos.pos()] == (n, false));
                            assert(!closed.contains(node.pos.pos()));
                            vstd::set_lib::lemma_len_subset(closed.insert(node.pos.pos()), rs);
                        }
                        return PathResult::Failed(PathFailure::BudgetExceeded);
                    }
                },
                None => {},
            }
            let ghost c = node.pos.pos();
            let ghost old_closed = closed;
            let ghost old_seen = seen@;
            let ghost old_open = open@;
            let ghost old_arena = arena@;
            // the closed tiles are the origin and passable tiles
            proof {
                assert(seen@.contains_key(c));
                assert(!closed.contains(c));
                assert(closed.subset_of(g.dom().insert(req.origin.pos())));
                vstd::set_lib::lemma_len_subset(closed.insert(c), g.dom().insert(req.origin.pos()));
            }
            open.remove(m);
            seen.set(node.pos, (n, true));
            proof {
                closed = closed.insert(c);
                assert(closed.remove(c) =~= old_closed);
                assert(node_ok(g, req, arena@, n as int));
                assert(arena@[n as int].depth <= old_closed.len());
                assert forall|p: (int, int)| #[trigger] seen@.contains_key(p) && !seen@[p].1 implies open@.contains(seen@[p].0) by {
                    assert(old_seen.contains_key(p));
                    assert(old_open.contains(seen@[p].0));
                    let i = choose|i: int| 0 <= i < old_open.len() && old_open[i] == seen@[p].0;
                    if i < m {
                        assert(open@[i] == old_open[i]);
                    } else {
                        assert(i != m);
                        assert(open@[i - 1] == old_open[i]);
                    }
                }
                assert forall|i: int|
                    0 <= i < open@.len() implies (#[trigger] open@[i]) < arena@.len() && seen@.contains_key(arena@[open@[i] as int].pos.pos())
                        && seen@[arena@[open@[i] as int].pos.pos()] == (open@[i], false) by {
                    let j = if i < m { i } else { i + 1 };
                    assert(open@[i] == old_open[j]);
                    assert(old_open[j] != n);
                }
                assert forall|x: (int, int)| #[trigger] old_seen.contains_key(x) implies seen@.contains_key(x) && seen@[x].0 == old_seen[x].0 by {}
                assert forall|p: (int, int)| #[trigger] closed.contains(p) implies cheapest_at(g, diag, req.origin, p, arena@[seen@[p].0 as int].g as int) by {
                    if p != c {
                        assert(old_closed.contains(p));
                    }
                }
            }
            expansions = expansions + 1;
            let nk: usize = if diag { 8 } else { 4 };
            let mut k: usize = 0;
            while k < nk
                invariant
                    grid.wf(),
                    g == grid@,
                    req == *self,
                    diag == req.allow_diagonal,
                    g.len() < u32::MAX,
                    forall|p: (int, int)| #[trigger] g.contains_key(p) ==> in_range(p),
                    g.dom().finite(),
                    seen.wf(),
                    nk == (if diag { 8usize } else { 4usize }),
                    k <= nk,
                    n < arena@.len(),
                    arena@[n as int] == node,
                    c == node.pos.pos(),
                    closed.contains(c),
                    node.depth + 1 <= closed.len(),
                    closed.len() <= g.len() + 1,
                    search_inv(g, req, arena@, open@, seen@, closed),
                    relaxed(g, diag, arena@, seen@, closed.remove(c)),
                    all_cheapest(g, req, arena@, seen@, closed),
                    arena@[seen@[req.origin.pos()].0 as int].g == 0,
                    cost_floor(g, mc as int),
                    seen@.contains_key(c) && seen@[c] == (n, true),
                    forall|j: int|
                        0 <= j < k && #[trigger] step_ok(g, diag, c, (c.0 + offset(j).0, c.1 + offset(j).1))
                            ==> seen@.contains_key((c.0 + offset(j).0, c.1 + offset(j).1)) && arena@[seen@[(c.0 + offset(j).0, c.1 + offset(j).1)].0 as int].g
                            <= node.g + g[(c.0 + offset(j).0, c.1 + offset(j).1)].cost,
                decreases nk - k,
            {
                let (dx, dy) = offset_of(k);
                let qx = node.pos.x as i64 + dx;
                let qy = node.pos.y as i64 + dy;
                let ghost qp = (c.0 + offset(k as int).0, c.1 + offset(k as int).1);
                if qx < i32::MIN as i64 || qx > i32::MAX as i64 || qy < i32::MIN as i64 || qy > i32::MAX as i64 {
                    assert(!g.contains_key(qp));
                    k += 1;
                    continue;
                }
                let q = TileIndex { x: qx as i32, y: qy as i32 };
                assert(q.pos() == qp);
                let tile = match grid.get(q) {
                    Some(t) => t,
                    None => {
                        k += 1;
                        continue;
                    },
                };
                if k >= 4 {
                    let side_a = grid.get(TileIndex { x: q.x, y: node.pos.y });
                    let side_b = grid.get(TileIndex { x: node.pos.x, y: q.y });
                    if side_a.is_none() && side_b.is_none() {
                        k += 1;
                        continue;
                    }
                }
                assert(step_ok(g, diag, c, qp));
                proof {
                    assert(node_ok(g, req, arena@, n as int));
                    assert(node.g + tile.cost <= (node.depth + 1) * (u32::MAX as int) <= u64::MAX) by (nonlinear_arith)
                        requires
                            node.g <= node.depth * (u32::MAX as int),
                            tile.cost <= u32::MAX,
                            node.depth + 1 <= u32::MAX,
                    ;
                }
                let ng = node.g + tile.cost as u64;
                let entry = seen.get(q);
                let ghost before_seen = seen@;
                let ghost before_open = open@;
                let ghost before_arena = arena@;
                match entry {
                    Some((b, true)) => {
                        proof {
                            lemma_node_route(g, req, arena@, n as int);
                            let r = choose|r: Seq<TileIndex>|
                                is_route(g, diag, r) && r[0] == req.origin && r[r.len() - 1].pos() == arena@[n as int].pos.pos()
                                    && #[trigger] route_cost(g, r) == arena@[n as int].g;
                            lemma_route_extend(g, diag, r, q);
                            assert(closed.contains(qp));
                            assert(cheapest_at(g, diag, req.origin, qp, arena@[seen@[qp].0 as int].g as int));
                            assert(route_cost(g, r.push(q)) == node.g + g[qp].cost);
                        }
                    },
                    Some((b, false)) => {
                        if arena[b].g > ng {
                            let e = arena.len();
                            arena.push(Node { pos: q, parent: n, g: ng, depth: node.depth + 1 });
                            let i = find_entry(&open, b);
                            open.set(i, e);
                            proof {
                                assert(before_seen.dom().subset_of(g.dom().insert(req.origin.pos())));
                                vstd::set_lib::lemma_len_subset(before_seen.dom(), g.dom().insert(req.origin.pos()));
                            }
                            seen.set(q, (e, false));
                            proof {
                                assert(before_seen[qp] == (b, false));
                                assert(before_open[i as int] == b);
                                assert forall|kk: int| 0 <= kk < arena@.len() implies #[trigger] node_ok(g, req, arena@, kk) by {
                                    if kk < e {
                                        assert(node_ok(g, req, before_arena, kk));
                                        assert(arena@[kk] == before_arena[kk]);
                                        if kk > 0 {
                                            assert(arena@[arena@[kk].parent as int] == before_arena[before_arena[kk].parent as int]);
                                        }
                                    } else {
                                        assert(arena@[kk].parent == n);
                                        assert(arena@[n as int] == node);
                                    }
                                }
                                assert forall|kk: int| 0 <= kk < arena@.len() implies #[trigger] arena@[kk].depth <= closed.len() by {
                                    if kk < e {
                                        assert(arena@[kk] == before_arena[kk]);
                                    }
                                }
                                assert(!closed.contains(qp));
                                assert forall|pp: (int, int)| #[trigger] seen@.contains_key(pp) implies seen@[pp].0 < arena@.len() && arena@[seen@[pp].0 as int].pos.pos() == pp && (seen@[pp].1 <==> closed.contains(pp)) by {
                                    if pp != qp {
                                        assert(before_seen.contains_key(pp));
                                        assert(arena@[seen@[pp].0 as int] == before_arena[seen@[pp].0 as int]);
                                    }
                                }
                                assert forall|j: int| 0 <= j < open@.len() implies (#[trigger] open@[j]) < arena@.len() && seen@.contains_key(arena@[open@[j] as int].pos.pos())
                                    && seen@[arena@[open@[j] as int].pos.pos()] == (open@[j], false) by {
                                    if j != i {
                                        assert(open@[j] == before_open[j]);
                                        assert(before_open[j] != b);
                                        assert(arena@[open@[j] as int] == before_arena[open@[j] as int]);
                                    }
                                }
                                assert forall|j1: int, j2: int| 0 <= j1 < j2 < open@.len() implies #[trigger] open@[j1] != #[trigger] open@[j2] by {
                                    if j1 != i && j2 != i {
                                        assert(open@[j1] == before_open[j1]);
                                        assert(open@[j2] == before_open[j2]);
                                    } else if j1 == i {
                                        assert(before_open[j2] < e);
                                    } else {
                                        assert(before_open[j1] < e);
                                    }
                                }
                                assert forall|pp: (int, int)| #[trigger] seen@.contains_key(pp) && !seen@[pp].1 implies open@.contains(seen@[pp].0) by {
                                    if pp == qp {
                                        assert(open@[i as int] == e);
                                    } else {
                                        assert(before_open.contains(before_seen[pp].0));
                                        let j = choose|j: int| 0 <= j < before_open.len() && before_open[j] == before_seen[pp].0;
                                        assert(before_seen[pp].0 != b);
                                        assert(j != i);
                                        assert(open@[j] == before_open[j]);
                                    }
                                }
                                assert(qp != req.origin.pos());
                            }
                        }
                    },
                    None => {
                        let e = arena.len();
                        arena.push(Node { pos: q, parent: n, g: ng, depth: node.depth + 1 });
                        open.push(e);
                        proof {
                            assert(before_seen.dom().insert(qp).subset_of(g.dom().insert(req.origin.pos())));
                            vstd::set_lib::lemma_len_subset(before_seen.dom().insert(qp), g.dom().insert(req.origin.pos()));
                        }
                        seen.set(q, (e, false));
                        proof {
                            assert(!before_seen.contains_key(qp));
                            assert forall|kk: int| 0 <= kk < arena@.len() implies #[trigger] node_ok(g, req, arena@, kk) by {
                                if kk < e {
                                    assert(node_ok(g, req, before_arena, kk));
                                    assert(arena@[kk] == before_arena[kk]);
                                    if kk > 0 {
                                        assert(arena@[arena@[kk].parent as int] == before_arena[before_arena[kk].parent as int]);
                                    }
                                } else {
                                    assert(arena@[kk].parent == n);
                                    assert(arena@[n as int] == node);
                                }
                            }
                            assert forall|kk: int| 0 <= kk < arena@.len() implies #[trigger] arena@[kk].depth <= closed.len() by {
                                if kk < e {
                                    assert(arena@[kk] == before_arena[kk]);
                                }
                            }
                            assert(!closed.contains(qp));
                            assert forall|pp: (int, int)| #[trigger] seen@.contains_key(pp) implies seen@[pp].0 < arena@.len() && arena@[seen@[pp].0 as int].pos.pos() == pp && (seen@[pp].1 <==> closed.contains(pp)) by {
                                if pp != qp {
                                    assert(before_seen.contains_key(pp));
                                    assert(arena@[seen@[pp].0 as int] == before_arena[seen@[pp].0 as int]);
                                }
                            }
                            assert forall|j: int| 0 <= j < open@.len() implies (#[trigger] open@[j]) < arena@.len() && seen@.contains_key(arena@[open@[j] as int].pos.pos())
                                && seen@[arena@[open@[j] as int].pos.pos()] == (open@[j], false) by {
                                if j < before_open.len() {
                                    assert(open@[j] == before_open[j]);
                                    assert(arena@[open@[j] as int] == before_arena[open@[j] as int]);
                                }
                            }
                            assert forall|j1: int, j2: int| 0 <= j1 < j2 < open@.len() implies #[trigger] open@[j1] != #[trigger] open@[j2] by {
                                if j2 < before_open.len() {
                                    assert(open@[j1] == before_open[j1]);
                                    assert(open@[j2] == before_open[j2]);
                                } else {
                                    assert(before_open[j1] < e);
                                }
                            }
                            assert forall|pp: (int, int)| #[trigger] seen@.contains_key(pp) && !seen@[pp].1 implies open@.contains(seen@[pp].0) by {
                                if pp == qp {
                                    assert(open@[before_open.len() as int] == e);
                                } else {
                                    assert(before_open.contains(before_seen[pp].0));
                                    let j = choose|j: int| 0 <= j < before_open.len() && before_open[j] == before_seen[pp].0;
                                    assert(open@[j] == before_open[j]);
                                }
                            }
                            assert(qp != req.origin.pos());
                        }
                    },
                }
                proof {
                    assert forall|x: int| 0 <= x < before_arena.len() implies arena@[x] == before_arena[x] by {}
                    assert forall|x: (int, int)| #[trigger] before_seen.contains_key(x) implies seen@.contains_key(x)
                        && arena@[seen@[x].0 as int].g <= before_arena[before_seen[x].0 as int].g && (before_seen[x].1 ==> seen@[x]
                        == before_seen[x]) by {
                        if x != qp {
                            assert(seen@[x] == before_seen[x]);
                        }
                    }
                    assert(seen@.contains_key(qp) && arena@[seen@[qp].0 as int].g <= ng);
                    assert forall|p: (int, int), q2: (int, int)|
                        #[trigger] closed.remove(c).contains(p) && #[trigger] step_ok(g, diag, p, q2) implies seen@.contains_key(q2)
                            && arena@[seen@[q2].0 as int].g <= arena@[seen@[p].0 as int].g + g[q2].cost by {
                        assert(before_seen.contains_key(q2));
                        assert(before_seen.contains_key(p));
                    }
                    assert forall|p: (int, int)| #[trigger] closed.contains(p) implies cheapest_at(g, diag, req.origin, p, arena@[seen@[p].0 as int].g as int) by {
                        assert(before_seen.contains_key(p));
                        assert(seen@[p] == before_seen[p]);
                    }
                    assert forall|j: int|
                        0 <= j < k + 1 && #[trigger] step_ok(g, diag, c, (c.0 + offset(j).0, c.1 + offset(j).1))
                            implies seen@.contains_key((c.0 + offset(j).0, c.1 + offset(j).1)) && arena@[seen@[(c.0 + offset(j).0, c.1 + offset(j).1)].0 as int].g
                            <= node.g + g[(c.0 + offset(j).0, c.1 + offset(j).1)].cost by {
                        let qj = (c.0 + offset(j).0, c.1 + offset(j).1);
                        if j < k {
                            assert(before_seen.contains_key(qj));
                        }
                    }
                }
                k += 1;
            }
            proof {
                assert forall|p: (int, int), q: (int, int)|
                    #[trigger] closed.contains(p) && #[trigger] step_ok(g, diag, p, q) implies seen@.contains_key(q)
                        && arena@[seen@[q].0 as int].g <= arena@[seen@[p].0 as int].g + g[q].cost by {
                    if p != c {
                        assert(closed.remove(c).contains(p));
                    } else {
                        lemma_moves_are_offsets(g, diag, p, q);
                        let j = choose|j: int|
                            0 <= j < (if diag { 8int } else { 4int }) && q == (p.0 + #[trigger] offset(j).0, p.1 + offset(j).1);
                        assert(step_ok(g, diag, c, (c.0 + offset(j).0, c.1 + offset(j).1)));
                    }
                }
            }
        }
    }
}

} // verus!
