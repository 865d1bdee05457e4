//! Dig-aware A* pathfinding on one layer of the tile map.
//!
//! Moves are 8-directional. A straight step costs the entered tile's
//! `pass_cost`; a diagonal step costs `pass_cost * 1414 / 1000` and is refused
//! when it would squeeze between two blocked orthogonal tiles.
use vstd::prelude::*;
use vstd::set_lib::{set_int_range, lemma_int_range, lemma_len_subset};

use crate::world::{Grid, pass_cost_spec, lemma_index_in_range, DIRT, DRY, EMPTY, MOIST};

verus! {

// ---------------------------------------------------------------------------
// Distances
// ---------------------------------------------------------------------------

pub open spec fn abs_diff(a: int, b: int) -> int {
    if a >= b { a - b } else { b - a }
}

/// King-move distance between two tiles.
pub open spec fn chebyshev_spec(a: (u32, u32), b: (u32, u32)) -> int {
    let dx = abs_diff(a.0 as int, b.0 as int);
    let dy = abs_diff(a.1 as int, b.1 as int);
    if dx >= dy { dx } else { dy }
}

/// Taxicab distance between two tiles.
pub open spec fn manhattan_spec(a: (u32, u32), b: (u32, u32)) -> int {
    abs_diff(a.0 as int, b.0 as int) + abs_diff(a.1 as int, b.1 as int)
}

/// Octile distance on the scale of `pass_cost` (a straight empty step = 1000).
/// It is exact on uniform empty terrain and never overestimates.
pub open spec fn octile_spec(a: (u32, u32), b: (u32, u32)) -> int {
    let dx = abs_diff(a.0 as int, b.0 as int);
    let dy = abs_diff(a.1 as int, b.1 as int);
    if dx >= dy { 1000 * dx + 414 * dy } else { 1000 * dy + 414 * dx }
}

pub fn chebyshev(a: (u32, u32), b: (u32, u32)) -> (d: u32)
    ensures
        d == chebyshev_spec(a, b),
{
    let dx = if a.0 >= b.0 { a.0 - b.0 } else { b.0 - a.0 };
    let dy = if a.1 >= b.1 { a.1 - b.1 } else { b.1 - a.1 };
    if dx >= dy { dx } else { dy }
}

pub fn manhattan(a: (u32, u32), b: (u32, u32)) -> (d: u32)
    requires
        manhattan_spec(a, b) <= u32::MAX,
    ensures
        d == manhattan_spec(a, b),
{
    let dx = if a.0 >= b.0 { a.0 - b.0 } else { b.0 - a.0 };
    let dy = if a.1 >= b.1 { a.1 - b.1 } else { b.1 - a.1 };
    dx + dy
}

/// Taxicab distance in 64 bits, which holds it for every pair of tiles.
pub fn manhattan_wide(a: (u32, u32), b: (u32, u32)) -> (d: u64)
    ensures
        d == manhattan_spec(a, b),
{
    let dx = if a.0 >= b.0 { a.0 - b.0 } else { b.0 - a.0 };
    let dy = if a.1 >= b.1 { a.1 - b.1 } else { b.1 - a.1 };
    dx as u64 + dy as u64
}

/// The A* heuristic: octile distance from `a` to `b`.
pub fn octile(a: (u32, u32), b: (u32, u32)) -> (d: u64)
    ensures
        d == octile_spec(a, b),
        d <= 1414 * (u32::MAX as int),
{
    let dx = if a.0 >= b.0 { a.0 - b.0 } else { b.0 - a.0 };
    let dy = if a.1 >= b.1 { a.1 - b.1 } else { b.1 - a.1 };
    if dx >= dy {
        1000 * (dx as u64) + 414 * (dy as u64)
    } else {
        1000 * (dy as u64) + 414 * (dx as u64)
    }
}

// ---------------------------------------------------------------------------
// Steps and walks
// ---------------------------------------------------------------------------

/// The tile at `(x, y)` exists and can be entered.
pub open spec fn passable(g: Grid, x: int, y: int, soft: bool) -> bool {
    g.inside(x, y) && pass_cost_spec(g.kind_at(x, y), soft) is Some
}

/// One legal move from tile `a` to tile `b`: to one of the eight neighbours,
/// onto a passable tile, and, for a diagonal, with both orthogonal tiles it
/// brushes past passable too (no corner cutting).
pub open spec fn is_step(g: Grid, soft: bool, a: (u32, u32), b: (u32, u32)) -> bool {
    let dx = b.0 as int - a.0 as int;
    let dy = b.1 as int - a.1 as int;
    &&& -1 <= dx <= 1
    &&& -1 <= dy <= 1
    &&& (dx != 0 || dy != 0)
    &&& g.inside(a.0 as int, a.1 as int)
    &&& passable(g, b.0 as int, b.1 as int, soft)
    &&& (dx != 0 && dy != 0) ==> passable(g, b.0 as int, a.1 as int, soft) && passable(
        g,
        a.0 as int,
        b.1 as int,
        soft,
    )
}

/// The open/soft rule for entering a tile: empty ground always, dirt, moist
/// and dry earth only for a digger; rock and anything else never.
pub open spec fn enterable(g: Grid, x: int, y: int, soft: bool) -> bool {
    let k = g.kind_at(x, y);
    &&& 0 <= x < g.w
    &&& 0 <= y < g.h
    &&& (k == EMPTY || (soft && (k == DIRT || k == MOIST || k == DRY)))
}

/// The movement rule in coordinates: a step goes to one of the eight
/// neighbouring tiles, which must be enterable; a diagonal step also needs
/// both orthogonal tiles it passes between to be enterable (no corner
/// cutting). A straight step costs 1000 onto empty ground and 10000 onto
/// earth, a diagonal one 1414 and 14140.
pub proof fn lemma_step_rule(g: Grid, soft: bool, a: (u32, u32), b: (u32, u32))
    ensures
        is_step(g, soft, a, b) <==> {
            &&& -1 <= b.0 - a.0 <= 1
            &&& -1 <= b.1 - a.1 <= 1
            &&& a != b
            &&& a.0 < g.w && a.1 < g.h
            &&& enterable(g, b.0 as int, b.1 as int, soft)
            &&& (a.0 != b.0 && a.1 != b.1) ==> enterable(g, b.0 as int, a.1 as int, soft)
                && enterable(g, a.0 as int, b.1 as int, soft)
        },
        is_step(g, soft, a, b) ==> step_cost(g, soft, a, b) == if g.kind_at(b.0 as int, b.1 as int)
            == EMPTY {
            if a.0 != b.0 && a.1 != b.1 {
                1414int
            } else {
                1000int
            }
        } else {
            if a.0 != b.0 && a.1 != b.1 {
                14140int
            } else {
                10000int
            }
        },
{
}

/// The distances in coordinates: Chebyshev is the larger of the two
/// coordinate gaps, Manhattan their sum.
pub proof fn lemma_distances(a: (u32, u32), b: (u32, u32))
    ensures
        chebyshev_spec(a, b) >= b.0 - a.0 && chebyshev_spec(a, b) >= a.0 - b.0
            && chebyshev_spec(a, b) >= b.1 - a.1 && chebyshev_spec(a, b) >= a.1 - b.1,
        chebyshev_spec(a, b) == b.0 - a.0 || chebyshev_spec(a, b) == a.0 - b.0
            || chebyshev_spec(a, b) == b.1 - a.1 || chebyshev_spec(a, b) == a.1 - b.1,
        manhattan_spec(a, b) == (if a.0 >= b.0 { a.0 - b.0 } else { b.0 - a.0 }) + (if a.1 >= b.1 {
            a.1 - b.1
        } else {
            b.1 - a.1
        }),
{
}

/// Cost of the move from `a` onto `b`.
pub open spec fn step_cost(g: Grid, soft: bool, a: (u32, u32), b: (u32, u32)) -> int {
    let c = pass_cost_spec(g.kind_at(b.0 as int, b.1 as int), soft).unwrap() as int;
    if a.0 != b.0 && a.1 != b.1 { c * 1414 / 1000 } else { c }
}

/// The `k`-th move of `p` is legal.
pub open spec fn step_at(g: Grid, soft: bool, p: Seq<(u32, u32)>, k: int) -> bool {
    is_step(g, soft, p[k], p[k + 1])
}

/// A sequence of tiles starting inside the grid where each tile is one legal
/// move from the one before.
pub open spec fn is_walk(g: Grid, soft: bool, p: Seq<(u32, u32)>) -> bool {
    &&& p.len() >= 1
    &&& g.inside(p[0].0 as int, p[0].1 as int)
    &&& forall|k: int| 0 <= k < p.len() - 1 ==> #[trigger] step_at(g, soft, p, k)
}

/// Total cost of the moves of a walk.
pub open spec fn walk_cost(g: Grid, soft: bool, p: Seq<(u32, u32)>) -> int
    decreases p.len(),
{
    if p.len() <= 1 {
        0
    } else {
        step_cost(g, soft, p[0], p[1]) + walk_cost(g, soft, p.drop_first())
    }
}

/// A walk from `start` to `goal`.
pub open spec fn connects(
    g: Grid,
    soft: bool,
    p: Seq<(u32, u32)>,
    start: (u32, u32),
    goal: (u32, u32),
) -> bool {
    &&& is_walk(g, soft, p)
    &&& p[0] == start
    &&& p.last() == goal
}

/// `p` connects `start` to `goal` and no walk between them is cheaper.
pub open spec fn is_cheapest(
    g: Grid,
    soft: bool,
    p: Seq<(u32, u32)>,
    start: (u32, u32),
    goal: (u32, u32),
) -> bool {
    &&& connects(g, soft, p, start, goal)
    &&& forall|q: Seq<(u32, u32)>|
        #[trigger] connects(g, soft, q, start, goal) ==> walk_cost(g, soft, p) <= walk_cost(
            g,
            soft,
            q,
        )
}

/// The search has a target: both end tiles exist and the goal can be entered.
pub open spec fn searchable(g: Grid, soft: bool, start: (u32, u32), goal: (u32, u32)) -> bool {
    &&& g.inside(start.0 as int, start.1 as int)
    &&& passable(g, goal.0 as int, goal.1 as int, soft)
}

// ---------------------------------------------------------------------------
// Facts about steps and walks
// ---------------------------------------------------------------------------

proof fn lemma_step_cost_bounds(g: Grid, soft: bool, a: (u32, u32), b: (u32, u32))
    requires
        is_step(g, soft, a, b),
    ensures
        1000 <= step_cost(g, soft, a, b) <= 14140,
{
    let c = pass_cost_spec(g.kind_at(b.0 as int, b.1 as int), soft).unwrap() as int;
    assert(c == 1000 || c == 10000);
    if c == 1000 {
        assert(c * 1414 / 1000 == 1414);
    } else {
        assert(c * 1414 / 1000 == 14140);
    }
}

/// The octile heuristic is consistent: one move lowers it by at most the
/// move's cost.
proof fn lemma_octile_consistent(g: Grid, soft: bool, a: (u32, u32), b: (u32, u32), t: (u32, u32))
    requires
        is_step(g, soft, a, b),
    ensures
        octile_spec(a, t) <= step_cost(g, soft, a, b) + octile_spec(b, t),
{
    lemma_step_cost_bounds(g, soft, a, b);
    let c = pass_cost_spec(g.kind_at(b.0 as int, b.1 as int), soft).unwrap() as int;
    if a.0 != b.0 && a.1 != b.1 {
        if c == 1000 {
            assert(c * 1414 / 1000 == 1414);
        } else {
            assert(c * 1414 / 1000 == 14140);
        }
    }
}

/// A walk's cost splits at any of its tiles.
proof fn lemma_skip_cost(g: Grid, soft: bool, p: Seq<(u32, u32)>, i: int)
    requires
        0 <= i < p.len() - 1,
    ensures
        walk_cost(g, soft, p.skip(i)) == step_cost(g, soft, p[i], p[i + 1]) + walk_cost(
            g,
            soft,
            p.skip(i + 1),
        ),
{
    let q = p.skip(i);
    assert(q.drop_first() =~= p.skip(i + 1));
    assert(q[0] == p[i] && q[1] == p[i + 1]);
}

/// Any tail of a walk is a walk.
proof fn lemma_skip_walk(g: Grid, soft: bool, p: Seq<(u32, u32)>, i: int)
    requires
        is_walk(g, soft, p),
        0 <= i < p.len(),
    ensures
        is_walk(g, soft, p.skip(i)),
        p.skip(i)[0] == p[i],
        p.skip(i).last() == p.last(),
{
    let q = p.skip(i);
    if i > 0 {
        assert(step_at(g, soft, p, i - 1));
    }
    assert forall|k: int| 0 <= k < q.len() - 1 implies #[trigger] step_at(g, soft, q, k) by {
        assert(step_at(g, soft, p, k + i));
        assert(q[k] == p[k + i] && q[k + 1] == p[k + i + 1]);
    }
}

/// Every tile of a walk lies inside the grid.
proof fn lemma_walk_inside(g: Grid, soft: bool, p: Seq<(u32, u32)>, k: int)
    requires
        is_walk(g, soft, p),
        0 <= k < p.len(),
    ensures
        g.inside(p[k].0 as int, p[k].1 as int),
{
    if k > 0 {
        assert(step_at(g, soft, p, k - 1));
    }
}

/// The octile heuristic never overestimates: along a walk that ends at `t`,
/// it is at most the cost of the walk.
pub proof fn lemma_admissible(g: Grid, soft: bool, p: Seq<(u32, u32)>, t: (u32, u32))
    requires
        is_walk(g, soft, p),
        p.last() == t,
    ensures
        octile_spec(p[0], t) <= walk_cost(g, soft, p),
    decreases p.len(),
{
    if p.len() > 1 {
        lemma_skip_walk(g, soft, p, 1);
        assert(p.skip(1) =~= p.drop_first());
        lemma_admissible(g, soft, p.drop_first(), t);
        assert(step_at(g, soft, p, 0));
        lemma_octile_consistent(g, soft, p[0], p[1], t);
    }
}

/// A walk of `len` tiles costs at most `14140 * (len - 1)`.
proof fn lemma_walk_cost_bound(g: Grid, soft: bool, p: Seq<(u32, u32)>)
    requires
        is_walk(g, soft, p),
    ensures
        0 <= walk_cost(g, soft, p) <= 14140 * (p.len() - 1),
    decreases p.len(),
{
    if p.len() > 1 {
        lemma_skip_walk(g, soft, p, 1);
        assert(p.skip(1) =~= p.drop_first());
        lemma_walk_cost_bound(g, soft, p.drop_first());
        assert(step_at(g, soft, p, 0));
        lemma_step_cost_bounds(g, soft, p[0], p[1]);
    }
}

/// Prepending a legal move to a walk gives a walk.
proof fn lemma_prepend_walk(g: Grid, soft: bool, a: (u32, u32), p: Seq<(u32, u32)>)
    requires
        is_walk(g, soft, p),
        is_step(g, soft, a, p[0]),
    ensures
        is_walk(g, soft, seq![a] + p),
        (seq![a] + p)[0] == a,
        (seq![a] + p).last() == p.last(),
        walk_cost(g, soft, seq![a] + p) == step_cost(g, soft, a, p[0]) + walk_cost(g, soft, p),
{
    let q = seq![a] + p;
    assert(q.drop_first() =~= p);
    assert forall|k: int| 0 <= k < q.len() - 1 implies #[trigger] step_at(g, soft, q, k) by {
        if k > 0 {
            assert(step_at(g, soft, p, k - 1));
        }
    }
}

/// Cutting the loop between two visits of the same tile keeps a walk.
proof fn lemma_cut_loop(g: Grid, soft: bool, p: Seq<(u32, u32)>, i: int, j: int)
    requires
        is_walk(g, soft, p),
        0 <= i < j < p.len(),
        p[i] == p[j],
    ensures
        is_walk(g, soft, p.take(i + 1) + p.skip(j + 1)),
        (p.take(i + 1) + p.skip(j + 1))[0] == p[0],
        (p.take(i + 1) + p.skip(j + 1)).last() == p.last(),
        (p.take(i + 1) + p.skip(j + 1)).len() < p.len(),
{
    let q = p.take(i + 1) + p.skip(j + 1);
    assert forall|k: int| 0 <= k < q.len() - 1 implies #[trigger] step_at(g, soft, q, k) by {
        if k < i {
            assert(step_at(g, soft, p, k));
        } else if k == i {
            assert(step_at(g, soft, p, j));
            assert(q[k + 1] == p[j + 1]);
        } else {
            let m = k - i + j;
            assert(step_at(g, soft, p, m));
            assert(q[k] == p[m] && q[k + 1] == p[m + 1]);
        }
    }
}

pub open spec fn node_of(g: Grid, t: (u32, u32)) -> int {
    t.1 as int * g.w as int + t.0 as int
}

pub open spec fn tile_of_node(g: Grid, i: int) -> (u32, u32) {
    ((i % g.w as int) as u32, (i / g.w as int) as u32)
}

/// Row-major indices and tiles correspond one to one.
proof fn lemma_node_of_tile(g: Grid, t: (u32, u32))
    requires
        g.wf(),
        g.inside(t.0 as int, t.1 as int),
    ensures
        0 <= node_of(g, t) < g.w as int * g.h as int,
        tile_of_node(g, node_of(g, t)) == t,
        node_of(g, t) == g.index_of(t.0 as int, t.1 as int),
{
    let w = g.w as int;
    let x = t.0 as int;
    let y = t.1 as int;
    lemma_index_in_range(&g, x, y);
    assert((y * w + x) % w == x && (y * w + x) / w == y) by (nonlinear_arith)
        requires
            0 <= x < w,
            0 <= y,
    {
        vstd::arithmetic::div_mod::lemma_fundamental_div_mod_converse(y * w + x, w, y, x);
    }
}

proof fn lemma_tile_of_node(g: Grid, i: int)
    requires
        g.wf(),
        0 <= i < g.w as int * g.h as int,
    ensures
        g.w > 0,
        g.inside(tile_of_node(g, i).0 as int, tile_of_node(g, i).1 as int),
        node_of(g, tile_of_node(g, i)) == i,
{
    let w = g.w as int;
    let h = g.h as int;
    assert(w > 0) by (nonlinear_arith)
        requires
            0 <= i < w * h,
            w >= 0,
            h >= 0,
    ;
    vstd::arithmetic::div_mod::lemma_fundamental_div_mod(i, w);
    vstd::arithmetic::div_mod::lemma_mod_pos_bound(i, w);
    vstd::arithmetic::div_mod::lemma_div_pos_is_pos(i, w);
    if i / w >= h {
        vstd::arithmetic::mul::lemma_mul_inequality(h, i / w, w);
        assert(i / w * w == w * (i / w)) by (nonlinear_arith);
        assert(h * w == w * h) by (nonlinear_arith);
        assert(false);
    }
    assert(i / w * w == w * (i / w)) by (nonlinear_arith);
    assert((i / w) as u32 as int == i / w);
    assert((i % w) as u32 as int == i % w);
}

/// A walk that reaches `goal` can be shortened to one visiting no tile twice,
/// so it has at most as many tiles as the grid.
proof fn lemma_short_walk(
    g: Grid,
    soft: bool,
    p: Seq<(u32, u32)>,
    start: (u32, u32),
    goal: (u32, u32),
) -> (q: Seq<(u32, u32)>)
    requires
        g.wf(),
        connects(g, soft, p, start, goal),
    ensures
        connects(g, soft, q, start, goal),
        q.len() <= g.w as int * g.h as int,
    decreases p.len(),
{
    let n = g.w as int * g.h as int;
    if p.len() <= n {
        p
    } else {
        let ns = p.map_values(|t: (u32, u32)| node_of(g, t));
        if ns.no_duplicates() {
            ns.unique_seq_to_set();
            lemma_int_range(0, n);
            assert forall|v: int| ns.to_set().contains(v) implies set_int_range(0, n).contains(
                v,
            ) by {
                let k = choose|k: int| 0 <= k < ns.len() && ns[k] == v;
                lemma_walk_inside(g, soft, p, k);
                lemma_node_of_tile(g, p[k]);
            }
            lemma_len_subset(ns.to_set(), set_int_range(0, n));
            assert(false);
        }
        let (i, j) = choose|i: int, j: int|
            0 <= i < ns.len() && 0 <= j < ns.len() && i != j && ns[i] == ns[j];
        let (i, j) = if i < j { (i, j) } else { (j, i) };
        lemma_walk_inside(g, soft, p, i);
        lemma_walk_inside(g, soft, p, j);
        lemma_node_of_tile(g, p[i]);
        lemma_node_of_tile(g, p[j]);
        lemma_cut_loop(g, soft, p, i, j);
        lemma_short_walk(g, soft, p.take(i + 1) + p.skip(j + 1), start, goal)
    }
}


// ---------------------------------------------------------------------------
// The search
// ---------------------------------------------------------------------------

/// A queued tile index with its priority `g + h` at the time it was queued.
struct Queued {
    f: u64,
    i: usize,
}

spec fn sat(a: int) -> int {
    if a > u64::MAX { u64::MAX as int } else { a }
}

spec fn h_node(g: Grid, goal: (u32, u32), i: int) -> int {
    octile_spec(tile_of_node(g, i), goal)
}

spec fn total(s: Seq<u64>) -> int
    decreases s.len(),
{
    if s.len() == 0 { 0 } else { total(s.drop_last()) + s.last() }
}

proof fn lemma_total_update(s: Seq<u64>, i: int, v: u64)
    requires
        0 <= i < s.len(),
    ensures
        total(s.update(i, v)) == total(s) - s[i] + v,
    decreases s.len(),
{
    if i < s.len() - 1 {
        assert(s.update(i, v).drop_last() =~= s.drop_last().update(i, v));
        lemma_total_update(s.drop_last(), i, v);
    } else {
        assert(s.update(i, v).drop_last() =~= s.drop_last());
    }
}

proof fn lemma_total_nonneg(s: Seq<u64>)
    ensures
        total(s) >= 0,
    decreases s.len(),
{
    if s.len() > 0 {
        lemma_total_nonneg(s.drop_last());
    }
}

/// A queued entry names a reached tile and never undercuts its current priority.
spec fn queued_ok(g: Grid, goal: (u32, u32), gs: Seq<u64>, e: Queued) -> bool {
    &&& 0 <= e.i < gs.len()
    &&& gs[e.i as int] < u64::MAX
    &&& e.f >= sat(gs[e.i as int] + h_node(g, goal, e.i as int))
}

spec fn has_entry(open: Seq<Queued>, v: int, f: int) -> bool {
    exists|k: int| 0 <= k < open.len() && open[k].i == v && open[k].f == f
}

/// Every legal move out of `u` has been tried from `u`'s current cost.
spec fn relaxed(g: Grid, soft: bool, gs: Seq<u64>, u: int) -> bool {
    forall|b: (u32, u32)|
        #[trigger] is_step(g, soft, tile_of_node(g, u), b) ==> gs[node_of(g, b)] <= sat(
            gs[u] + step_cost(g, soft, tile_of_node(g, u), b),
        )
}

/// The recorded predecessor of `v` is one legal move away and accounts for
/// `v`'s cost.
spec fn came_ok(g: Grid, soft: bool, gs: Seq<u64>, came: Seq<usize>, v: int) -> bool {
    let c = came[v] as int;
    &&& 0 <= c < gs.len()
    &&& is_step(g, soft, tile_of_node(g, c), tile_of_node(g, v))
    &&& gs[c] + step_cost(g, soft, tile_of_node(g, c), tile_of_node(g, v)) <= gs[v]
}

/// A reached tile is either expanded at its current cost or queued with its
/// current priority.
spec fn tracked_node(
    g: Grid,
    goal: (u32, u32),
    gs: Seq<u64>,
    open: Seq<Queued>,
    expanded: Seq<Option<u64>>,
    v: int,
) -> bool {
    expanded[v] == Some(gs[v]) || has_entry(open, v, sat(gs[v] + h_node(g, goal, v)))
}

/// The loop invariant of the search. `busy` is the tile being expanded, if
/// any: its queue entry is gone and it is not yet marked expanded.
spec fn search_inv(
    g: Grid,
    soft: bool,
    goal: (u32, u32),
    s: int,
    t: int,
    gs: Seq<u64>,
    came: Seq<usize>,
    open: Seq<Queued>,
    expanded: Seq<Option<u64>>,
    busy: int,
) -> bool {
    let n = g.w as int * g.h as int;
    &&& g.wf()
    &&& gs.len() == n
    &&& came.len() == n
    &&& expanded.len() == n
    &&& 0 <= s < n
    &&& 0 <= t < n
    &&& tile_of_node(g, t) == goal
    &&& gs[s] == 0
    &&& expanded[t] is None
    &&& forall|k: int| 0 <= k < open.len() ==> queued_ok(g, goal, gs, #[trigger] open[k])
    &&& forall|v: int|
        0 <= v < n && v != busy && gs[v] < u64::MAX ==> #[trigger] tracked_node(
            g,
            goal,
            gs,
            open,
            expanded,
            v,
        )
    &&& forall|u: int|
        0 <= u < n && expanded[u] == Some(gs[u]) && gs[u] < u64::MAX ==> #[trigger] relaxed(
            g,
            soft,
            gs,
            u,
        )
    &&& forall|v: int| 0 <= v < n && (#[trigger] expanded[v]) is Some ==> expanded[v]->0 >= gs[v]
    &&& forall|v: int|
        0 <= v < n && v != s && gs[v] < u64::MAX ==> #[trigger] came_ok(g, soft, gs, came, v)
}

/// Along any walk from the start to the goal that is cheap enough to be
/// representable, some queued entry has priority at most the walk's cost.
proof fn lemma_frontier(
    g: Grid,
    soft: bool,
    goal: (u32, u32),
    s: int,
    t: int,
    gs: Seq<u64>,
    came: Seq<usize>,
    open: Seq<Queued>,
    expanded: Seq<Option<u64>>,
    p: Seq<(u32, u32)>,
)
    requires
        search_inv(g, soft, goal, s, t, gs, came, open, expanded, -1),
        connects(g, soft, p, tile_of_node(g, s), goal),
        walk_cost(g, soft, p) < u64::MAX,
    ensures
        exists|k: int| 0 <= k < open.len() && open[k].f <= walk_cost(g, soft, p),
{
    lemma_tile_of_node(g, s);
    assert(p.skip(0) =~= p);
    lemma_frontier_from(g, soft, goal, s, t, gs, came, open, expanded, p, 0);
}

proof fn lemma_frontier_from(
    g: Grid,
    soft: bool,
    goal: (u32, u32),
    s: int,
    t: int,
    gs: Seq<u64>,
    came: Seq<usize>,
    open: Seq<Queued>,
    expanded: Seq<Option<u64>>,
    p: Seq<(u32, u32)>,
    i: int,
)
    requires
        search_inv(g, soft, goal, s, t, gs, came, open, expanded, -1),
        connects(g, soft, p, tile_of_node(g, s), goal),
        walk_cost(g, soft, p) < u64::MAX,
        0 <= i < p.len(),
        gs[node_of(g, p[i])] <= walk_cost(g, soft, p) - walk_cost(g, soft, p.skip(i)),
    ensures
        exists|k: int| 0 <= k < open.len() && open[k].f <= walk_cost(g, soft, p),
    decreases p.len() - i,
{
    let n = g.w as int * g.h as int;
    let v = node_of(g, p[i]);
    lemma_walk_inside(g, soft, p, i);
    lemma_node_of_tile(g, p[i]);
    lemma_skip_walk(g, soft, p, i);
    lemma_walk_cost_bound(g, soft, p.skip(i));
    assert(gs[v] < u64::MAX);
    if expanded[v] == Some(gs[v]) {
        if i == p.len() - 1 {
            lemma_tile_of_node(g, t);
            assert(false);
        }
        assert(relaxed(g, soft, gs, v));
        assert(step_at(g, soft, p, i));
        assert(is_step(g, soft, tile_of_node(g, v), p[i + 1]));
        lemma_skip_cost(g, soft, p, i);
        lemma_frontier_from(g, soft, goal, s, t, gs, came, open, expanded, p, i + 1);
    } else {
        assert(tracked_node(g, goal, gs, open, expanded, v));
        let k = choose|k: int|
            0 <= k < open.len() && open[k].i == v && open[k].f == sat(
                gs[v] + h_node(g, goal, v),
            );
        lemma_admissible(g, soft, p.skip(i), goal);
        assert(open[k].f <= walk_cost(g, soft, p));
    }
}


/// The eight move directions, in the order the search tries them.
spec fn dir_spec(d: int) -> (int, int) {
    if d == 0 {
        (0, -1)
    } else if d == 1 {
        (0, 1)
    } else if d == 2 {
        (-1, 0)
    } else if d == 3 {
        (1, 0)
    } else if d == 4 {
        (-1, -1)
    } else if d == 5 {
        (-1, 1)
    } else if d == 6 {
        (1, -1)
    } else {
        (1, 1)
    }
}

/// `b` is the neighbour of `a` in direction `d`.
spec fn toward(a: (u32, u32), d: int, b: (u32, u32)) -> bool {
    b.0 as int == a.0 as int + dir_spec(d).0 && b.1 as int == a.1 as int + dir_spec(d).1
}

/// Every legal move goes in one of the eight directions.
proof fn lemma_step_dir(g: Grid, soft: bool, a: (u32, u32), b: (u32, u32)) -> (d: int)
    requires
        is_step(g, soft, a, b),
    ensures
        0 <= d < 8,
        toward(a, d, b),
{
    let dx = b.0 as int - a.0 as int;
    let dy = b.1 as int - a.1 as int;
    if dx == 0 && dy == -1 {
        0
    } else if dx == 0 && dy == 1 {
        1
    } else if dx == -1 && dy == 0 {
        2
    } else if dx == 1 && dy == 0 {
        3
    } else if dx == -1 && dy == -1 {
        4
    } else if dx == -1 && dy == 1 {
        5
    } else if dx == 1 && dy == -1 {
        6
    } else {
        7
    }
}

/// The neighbour of `c` in direction `d`, if it lies inside the grid.
fn neighbor(g: &Grid, c: (u32, u32), d: usize) -> (r: Option<(u32, u32)>)
    requires
        g.wf(),
        g.inside(c.0 as int, c.1 as int),
        d < 8,
    ensures
        r matches Some(b) ==> toward(c, d as int, b) && g.inside(b.0 as int, b.1 as int),
        r is None ==> forall|b: (u32, u32)|
            toward(c, d as int, b) ==> !g.inside(b.0 as int, b.1 as int),
{
    let (dx, dy): (i8, i8) = if d == 0 {
        (0, -1)
    } else if d == 1 {
        (0, 1)
    } else if d == 2 {
        (-1, 0)
    } else if d == 3 {
        (1, 0)
    } else if d == 4 {
        (-1, -1)
    } else if d == 5 {
        (-1, 1)
    } else if d == 6 {
        (1, -1)
    } else {
        (1, 1)
    };
    if (dx < 0 && c.0 == 0) || (dy < 0 && c.1 == 0) {
        return None;
    }
    let nx = if dx < 0 {
        c.0 - 1
    } else if dx > 0 {
        c.0 + 1
    } else {
        c.0
    };
    let ny = if dy < 0 {
        c.1 - 1
    } else if dy > 0 {
        c.1 + 1
    } else {
        c.1
    };
    if g.in_bounds(nx, ny) {
        Some((nx, ny))
    } else {
        None
    }
}

/// Index of the first queued entry of least priority. Taking the first of
/// equal priorities serves them in the order they were queued.
fn first_min(open: &Vec<Queued>) -> (k: usize)
    requires
        open@.len() > 0,
    ensures
        k < open@.len(),
        forall|j: int| 0 <= j < open@.len() ==> open@[k as int].f <= open@[j].f,
        forall|j: int| 0 <= j < k ==> open@[j].f > open@[k as int].f,
{
    let mut best: usize = 0;
    let mut j: usize = 1;
    while j < open.len()
        invariant
            1 <= j <= open@.len(),
            best < j,
            forall|m: int| 0 <= m < j ==> open@[best as int].f <= open@[m].f,
            forall|m: int| 0 <= m < best ==> open@[m].f > open@[best as int].f,
        decreases open@.len() - j,
    {
        if open[j].f < open[best].f {
            best = j;
        }
        j = j + 1;
    }
    best
}

/// One more predecessor extends a traced walk backwards.
proof fn lemma_trace_extend(
    g: Grid,
    soft: bool,
    r: Seq<(u32, u32)>,
    a: (u32, u32),
    gi: int,
    ga: int,
    gt: int,
)
    requires
        r.len() >= 1,
        is_walk(g, soft, r.reverse()),
        is_step(g, soft, a, r.reverse()[0]),
        ga + step_cost(g, soft, a, r.reverse()[0]) <= gi,
        gi + walk_cost(g, soft, r.reverse()) <= gt,
    ensures
        is_walk(g, soft, r.push(a).reverse()),
        r.push(a).reverse()[0] == a,
        r.push(a).reverse().last() == r.reverse().last(),
        ga + walk_cost(g, soft, r.push(a).reverse()) <= gt,
        ga < gi,
{
    lemma_step_cost_bounds(g, soft, a, r.reverse()[0]);
    lemma_prepend_walk(g, soft, a, r.reverse());
    assert(r.push(a).reverse() =~= seq![a] + r.reverse());
}

/// Follows the recorded predecessors back from `t` to `s`.
fn trace_back(
    g: &Grid,
    soft: bool,
    s: usize,
    t: usize,
    gs: &Vec<u64>,
    came: &Vec<usize>,
) -> (path: Vec<(u32, u32)>)
    requires
        g.wf(),
        gs@.len() == g.w as int * g.h as int,
        came@.len() == gs@.len(),
        s < gs@.len(),
        t < gs@.len(),
        gs@[s as int] == 0,
        gs@[t as int] < u64::MAX,
        forall|v: int|
            0 <= v < gs@.len() && v != s && gs@[v] < u64::MAX ==> #[trigger] came_ok(
                *g,
                soft,
                gs@,
                came@,
                v,
            ),
    ensures
        connects(*g, soft, path@, tile_of_node(*g, s as int), tile_of_node(*g, t as int)),
        walk_cost(*g, soft, path@) <= gs@[t as int],
{
    let w = g.w as usize;
    proof {
        lemma_tile_of_node(*g, t as int);
    }
    let mut rev: Vec<(u32, u32)> = Vec::new();
    rev.push(((t % w) as u32, (t / w) as u32));
    let mut i = t;
    proof {
        lemma_tile_of_node(*g, t as int);
        assert(rev@.reverse() =~= seq![tile_of_node(*g, t as int)]);
    }
    while i != s
        invariant
            w == g.w,
            g.wf(),
            gs@.len() == g.w as int * g.h as int,
            came@.len() == gs@.len(),
            s < gs@.len(),
            t < gs@.len(),
            gs@[s as int] == 0,
            gs@[t as int] < u64::MAX,
            forall|v: int|
                0 <= v < gs@.len() && v != s && gs@[v] < u64::MAX ==> #[trigger] came_ok(
                    *g,
                    soft,
                    gs@,
                    came@,
                    v,
                ),
            i < gs@.len(),
            gs@[i as int] < u64::MAX,
            rev@.len() >= 1,
            is_walk(*g, soft, rev@.reverse()),
            rev@.reverse()[0] == tile_of_node(*g, i as int),
            rev@.reverse().last() == tile_of_node(*g, t as int),
            gs@[i as int] + walk_cost(*g, soft, rev@.reverse()) <= gs@[t as int],
        decreases gs@[i as int],
    {
        let c = came[i];
        proof {
            assert(came_ok(*g, soft, gs@, came@, i as int));
            lemma_tile_of_node(*g, c as int);
        }
        let ghost old_rev = rev@;
        rev.push(((c % w) as u32, (c / w) as u32));
        proof {
            lemma_trace_extend(
                *g,
                soft,
                old_rev,
                tile_of_node(*g, c as int),
                gs@[i as int] as int,
                gs@[c as int] as int,
                gs@[t as int] as int,
            );
        }
        i = c;
    }
    let mut path: Vec<(u32, u32)> = Vec::new();
    let mut k = rev.len();
    while k > 0
        invariant
            k <= rev@.len(),
            path@.len() == rev@.len() - k,
            forall|j: int| 0 <= j < path@.len() ==> path@[j] == rev@[rev@.len() - 1 - j],
        decreases k,
    {
        k = k - 1;
        path.push(rev[k]);
    }
    proof {
        assert(path@ =~= rev@.reverse());
        lemma_tile_of_node(*g, s as int);
    }
    path
}


/// Dropping an entry that is not the witness of any tile keeps the invariant.
proof fn lemma_drop_entry(
    g: Grid,
    soft: bool,
    goal: (u32, u32),
    s: int,
    t: int,
    gs: Seq<u64>,
    came: Seq<usize>,
    open: Seq<Queued>,
    expanded: Seq<Option<u64>>,
    k: int,
    busy: int,
)
    requires
        search_inv(g, soft, goal, s, t, gs, came, open, expanded, -1),
        0 <= k < open.len(),
        busy == -1 ==> open[k].f != sat(gs[open[k].i as int] + h_node(g, goal, open[k].i as int)),
        busy != -1 ==> busy == open[k].i,
    ensures
        search_inv(g, soft, goal, s, t, gs, came, open.remove(k), expanded, busy),
{
    let n = g.w as int * g.h as int;
    let o2 = open.remove(k);
    assert forall|j: int| 0 <= j < o2.len() implies queued_ok(g, goal, gs, #[trigger] o2[j]) by {
        if j < k {
            assert(o2[j] == open[j]);
        } else {
            assert(o2[j] == open[j + 1]);
        }
    }
    assert forall|v: int|
        0 <= v < n && v != busy && gs[v] < u64::MAX implies #[trigger] tracked_node(
        g,
        goal,
        gs,
        o2,
        expanded,
        v,
    ) by {
        assert(tracked_node(g, goal, gs, open, expanded, v));
        if expanded[v] != Some(gs[v]) {
            let f = sat(gs[v] + h_node(g, goal, v));
            let m = choose|m: int| 0 <= m < open.len() && open[m].i == v && open[m].f == f;
            assert(m != k);
            if m < k {
                assert(o2[m] == open[m]);
            } else {
                assert(o2[m - 1] == open[m]);
            }
        }
    }
}

/// Lowering a tile's cost through the tile being expanded, and queueing it,
/// keeps the invariant.
proof fn lemma_relax(
    g: Grid,
    soft: bool,
    goal: (u32, u32),
    s: int,
    t: int,
    gs: Seq<u64>,
    came: Seq<usize>,
    open: Seq<Queued>,
    expanded: Seq<Option<u64>>,
    cur: int,
    b: (u32, u32),
    ng: u64,
    f: u64,
)
    requires
        search_inv(g, soft, goal, s, t, gs, came, open, expanded, cur),
        0 <= cur < gs.len(),
        gs[cur] < u64::MAX,
        is_step(g, soft, tile_of_node(g, cur), b),
        ng == gs[cur] + step_cost(g, soft, tile_of_node(g, cur), b),
        ng < gs[node_of(g, b)],
        f == sat(ng + octile_spec(b, goal)),
    ensures
        search_inv(
            g,
            soft,
            goal,
            s,
            t,
            gs.update(node_of(g, b), ng),
            came.update(node_of(g, b), cur as usize),
            open.push(Queued { f, i: node_of(g, b) as usize }),
            expanded,
            cur,
        ),
        total(gs.update(node_of(g, b), ng)) < total(gs),
        gs.update(node_of(g, b), ng)[cur] == gs[cur],
{
    let n = g.w as int * g.h as int;
    let a = tile_of_node(g, cur);
    lemma_node_of_tile(g, b);
    lemma_step_cost_bounds(g, soft, a, b);
    let ni = node_of(g, b);
    let gs2 = gs.update(ni, ng);
    let came2 = came.update(ni, cur as usize);
    let o2 = open.push(Queued { f, i: ni as usize });
    lemma_total_update(gs, ni, ng);
    assert(ni != s);
    assert(ni != cur);
    assert forall|j: int| 0 <= j < o2.len() implies queued_ok(g, goal, gs2, #[trigger] o2[j]) by {
        if j < open.len() {
            assert(o2[j] == open[j]);
            assert(queued_ok(g, goal, gs, open[j]));
        }
    }
    assert forall|v: int|
        0 <= v < n && v != cur && gs2[v] < u64::MAX implies #[trigger] tracked_node(
        g,
        goal,
        gs2,
        o2,
        expanded,
        v,
    ) by {
        if v == ni {
            assert(o2[open.len() as int].i == v);
        } else {
            assert(tracked_node(g, goal, gs, open, expanded, v));
            if expanded[v] != Some(gs[v]) {
                let fv = sat(gs[v] + h_node(g, goal, v));
                let m = choose|m: int| 0 <= m < open.len() && open[m].i == v && open[m].f == fv;
                assert(o2[m] == open[m]);
            }
        }
    }
    assert forall|u: int|
        0 <= u < n && expanded[u] == Some(gs2[u]) && gs2[u] < u64::MAX implies #[trigger] relaxed(
        g,
        soft,
        gs2,
        u,
    ) by {
        if u == ni {
            assert(expanded[u]->0 >= gs[u]);
            assert(false);
        }
        assert(relaxed(g, soft, gs, u));
        assert forall|c: (u32, u32)| #[trigger] is_step(g, soft, tile_of_node(g, u), c) implies gs2[node_of(
            g,
            c,
        )] <= sat(gs2[u] + step_cost(g, soft, tile_of_node(g, u), c)) by {
            lemma_node_of_tile(g, c);
        }
    }
    assert forall|v: int|
        0 <= v < n && v != s && gs2[v] < u64::MAX implies #[trigger] came_ok(
        g,
        soft,
        gs2,
        came2,
        v,
    ) by {
        if v != ni {
            assert(came_ok(g, soft, gs, came, v));
        }
    }
}

/// Marking the fully relaxed tile as expanded restores the invariant.
proof fn lemma_finish_expand(
    g: Grid,
    soft: bool,
    goal: (u32, u32),
    s: int,
    t: int,
    gs: Seq<u64>,
    came: Seq<usize>,
    open: Seq<Queued>,
    expanded: Seq<Option<u64>>,
    cur: int,
)
    requires
        search_inv(g, soft, goal, s, t, gs, came, open, expanded, cur),
        0 <= cur < gs.len(),
        cur != t,
        gs[cur] < u64::MAX,
        relaxed(g, soft, gs, cur),
    ensures
        search_inv(g, soft, goal, s, t, gs, came, open, expanded.update(cur, Some(gs[cur])), -1),
{
    let n = g.w as int * g.h as int;
    let e2 = expanded.update(cur, Some(gs[cur]));
    assert forall|v: int|
        0 <= v < n && v != -1 && gs[v] < u64::MAX implies #[trigger] tracked_node(
        g,
        goal,
        gs,
        open,
        e2,
        v,
    ) by {
        if v != cur {
            assert(tracked_node(g, goal, gs, open, expanded, v));
        }
    }
    assert forall|u: int|
        0 <= u < n && e2[u] == Some(gs[u]) && gs[u] < u64::MAX implies #[trigger] relaxed(
        g,
        soft,
        gs,
        u,
    ) by {}
    assert forall|v: int| 0 <= v < n && (#[trigger] e2[v]) is Some implies e2[v]->0 >= gs[v] by {
        if v != cur {
            assert(expanded[v] is Some);
        }
    }
}


/// When the goal's entry is the cheapest in the queue, no walk to the goal
/// costs less than the goal's recorded cost.
proof fn lemma_goal_reached(
    g: Grid,
    soft: bool,
    goal: (u32, u32),
    s: int,
    t: int,
    gs: Seq<u64>,
    came: Seq<usize>,
    open: Seq<Queued>,
    expanded: Seq<Option<u64>>,
    k: int,
)
    requires
        search_inv(g, soft, goal, s, t, gs, came, open, expanded, -1),
        0 <= k < open.len(),
        open[k].i == t,
        forall|j: int| 0 <= j < open.len() ==> open[k].f <= open[j].f,
    ensures
        gs[t] < u64::MAX,
        forall|q: Seq<(u32, u32)>|
            #[trigger] connects(g, soft, q, tile_of_node(g, s), goal) ==> gs[t] <= walk_cost(
                g,
                soft,
                q,
            ),
{
    assert(queued_ok(g, goal, gs, open[k]));
    assert(h_node(g, goal, t) == 0);
    assert forall|q: Seq<(u32, u32)>|
        #[trigger] connects(g, soft, q, tile_of_node(g, s), goal) implies gs[t] <= walk_cost(
        g,
        soft,
        q,
    ) by {
        if walk_cost(g, soft, q) < u64::MAX {
            lemma_frontier(g, soft, goal, s, t, gs, came, open, expanded, q);
        }
    }
}

/// With nothing left to expand, the goal cannot be reached at all.
proof fn lemma_exhausted(
    g: Grid,
    soft: bool,
    goal: (u32, u32),
    s: int,
    t: int,
    gs: Seq<u64>,
    came: Seq<usize>,
    open: Seq<Queued>,
    expanded: Seq<Option<u64>>,
)
    requires
        search_inv(g, soft, goal, s, t, gs, came, open, expanded, -1),
        open.len() == 0,
    ensures
        forall|q: Seq<(u32, u32)>| !connects(g, soft, q, tile_of_node(g, s), goal),
{
    assert forall|q: Seq<(u32, u32)>| !connects(g, soft, q, tile_of_node(g, s), goal) by {
        if connects(g, soft, q, tile_of_node(g, s), goal) {
            let r = lemma_short_walk(g, soft, q, tile_of_node(g, s), goal);
            lemma_walk_cost_bound(g, soft, r);
            assert(walk_cost(g, soft, r) < u64::MAX);
            lemma_frontier(g, soft, goal, s, t, gs, came, open, expanded, r);
        }
    }
}

/// Finds a cheapest walk from `start` to `goal` on grid `g`.
///
/// Soft tiles (dirt) can be crossed only when `soft_passable` is set, at ten
/// times the cost of empty ground. The start tile itself need not be
/// passable; the goal must be. Returns `None` when either end lies outside the
/// grid, the goal cannot be entered, or no walk reaches it. Which of several
/// equally cheap walks comes back is not part of the contract.
pub fn find_path(
    g: &Grid,
    start: (u32, u32),
    goal: (u32, u32),
    soft_passable: bool,
) -> (r: Option<Vec<(u32, u32)>>)
    requires
        g.wf(),
    ensures
        r is Some <==> (searchable(*g, soft_passable, start, goal) && exists|q: Seq<(u32, u32)>|
            #[trigger] connects(*g, soft_passable, q, start, goal)),
        r matches Some(p) ==> is_cheapest(*g, soft_passable, p@, start, goal),
{
    let soft = soft_passable;
    if !g.in_bounds(start.0, start.1) || !g.in_bounds(goal.0, goal.1) {
        return None;
    }
    if Grid::pass_cost(g.get(goal.0, goal.1), soft).is_none() {
        return None;
    }
    let w = g.w as usize;
    let n = (g.w * g.h) as usize;
    proof {
        lemma_node_of_tile(*g, start);
        lemma_node_of_tile(*g, goal);
    }
    let s = start.1 as usize * w + start.0 as usize;
    let t = goal.1 as usize * w + goal.0 as usize;

    let mut gs: Vec<u64> = Vec::new();
    let mut came: Vec<usize> = Vec::new();
    let mut m: usize = 0;
    while m < n
        invariant
            m <= n,
            gs@.len() == m,
            came@.len() == m,
            forall|j: int| 0 <= j < m ==> gs@[j] == u64::MAX,
        decreases n - m,
    {
        gs.push(u64::MAX);
        came.push(n);
        m = m + 1;
    }
    gs.set(s, 0);
    let mut open: Vec<Queued> = Vec::new();
    open.push(Queued { f: octile(start, goal), i: s });
    let ghost mut expanded: Seq<Option<u64>> = Seq::new(n as nat, |j: int| None);
    proof {
        assert forall|v: int|
            0 <= v < n && v != -1 && gs@[v] < u64::MAX implies #[trigger] tracked_node(
            *g,
            goal,
            gs@,
            open@,
            expanded,
            v,
        ) by {
            assert(v == s);
            assert(open@[0].i == v);
        }
    }

    loop
        invariant
            w == g.w,
            n == g.w as int * g.h as int,
            tile_of_node(*g, s as int) == start,
            soft == soft_passable,
            searchable(*g, soft, start, goal),
            search_inv(*g, soft, goal, s as int, t as int, gs@, came@, open@, expanded, -1),
        decreases total(gs@), open@.len(),
    {
        proof {
            lemma_total_nonneg(gs@);
        }
        if open.len() == 0 {
            proof {
                lemma_exhausted(*g, soft, goal, s as int, t as int, gs@, came@, open@, expanded);
            }
            return None;
        }
        let k = first_min(&open);
        let ghost before = open@;
        let e = open.remove(k);
        let cur = e.i;
        assert(queued_ok(*g, goal, gs@, before[k as int]));
        if cur == t {
            proof {
                lemma_goal_reached(
                    *g,
                    soft,
                    goal,
                    s as int,
                    t as int,
                    gs@,
                    came@,
                    before,
                    expanded,
                    k as int,
                );
            }
            let path = trace_back(g, soft, s, t, &gs, &came);
            proof {
                assert(connects(*g, soft, path@, start, goal));
                assert forall|q: Seq<(u32, u32)>|
                    #[trigger] connects(*g, soft, q, start, goal) implies walk_cost(
                    *g,
                    soft,
                    path@,
                ) <= walk_cost(*g, soft, q) by {}
            }
            return Some(path);
        }
        proof {
            lemma_tile_of_node(*g, cur as int);
        }
        let cx = (cur % w) as u32;
        let cy = (cur / w) as u32;
        if e.f > gs[cur].saturating_add(octile((cx, cy), goal)) {
            proof {
                lemma_drop_entry(
                    *g,
                    soft,
                    goal,
                    s as int,
                    t as int,
                    gs@,
                    came@,
                    before,
                    expanded,
                    k as int,
                    -1,
                );
            }
            continue;
        }
        proof {
            lemma_drop_entry(
                *g,
                soft,
                goal,
                s as int,
                t as int,
                gs@,
                came@,
                before,
                expanded,
                k as int,
                cur as int,
            );
        }
        let ghost total0 = total(gs@);
        let ghost len0 = open@.len();
        let ghost gcur = gs@[cur as int];
        let a = (cx, cy);
        let mut d: usize = 0;
        while d < 8
            invariant
                w == g.w,
                n == g.w as int * g.h as int,
                tile_of_node(*g, s as int) == start,
                0 <= cur < n,
                cur != t,
                a == tile_of_node(*g, cur as int),
                a.0 == cx && a.1 == cy,
                g.inside(cx as int, cy as int),
                searchable(*g, soft, start, goal),
                gcur < u64::MAX,
                gs@[cur as int] == gcur,
                d <= 8,
                search_inv(*g, soft, goal, s as int, t as int, gs@, came@, open@, expanded, cur as int),
                total(gs@) <= total0,
                open@.len() <= len0 || total(gs@) < total0,
                forall|dd: int, b: (u32, u32)|
                    #![trigger toward(a, dd, b), is_step(*g, soft, a, b)]
                    0 <= dd < d && toward(a, dd, b) && is_step(*g, soft, a, b) ==> gs@[node_of(*g, b)]
                        <= sat(gcur + step_cost(*g, soft, a, b)),
            decreases 8 - d,
        {
            let ghost gs_before = gs@;
            let nb = neighbor(g, a, d);
            if let Some(b) = nb {
                let (nx, ny) = b;
                let diagonal = nx != cx && ny != cy;
                let pc = Grid::pass_cost(g.get(nx, ny), soft);
                if let Some(c) = pc {
                    let mut ok = true;
                    if diagonal {
                        let o1 = Grid::pass_cost(g.get(nx, cy), soft);
                        let o2 = Grid::pass_cost(g.get(cx, ny), soft);
                        if o1.is_none() || o2.is_none() {
                            ok = false;
                        }
                    }
                    if ok {
                        let cost: u64 = if diagonal {
                            (c as u64) * 1414 / 1000
                        } else {
                            c as u64
                        };
                        proof {
                            assert(is_step(*g, soft, a, b));
                            assert(cost == step_cost(*g, soft, a, b));
                            lemma_step_cost_bounds(*g, soft, a, b);
                            lemma_node_of_tile(*g, b);
                        }
                        let ni = ny as usize * w + nx as usize;
                        let ng = gs[cur].saturating_add(cost);
                        if ng < gs[ni] {
                            let f = ng.saturating_add(octile(b, goal));
                            proof {
                                lemma_relax(
                                    *g,
                                    soft,
                                    goal,
                                    s as int,
                                    t as int,
                                    gs@,
                                    came@,
                                    open@,
                                    expanded,
                                    cur as int,
                                    b,
                                    ng,
                                    f,
                                );
                            }
                            gs.set(ni, ng);
                            came.set(ni, cur);
                            open.push(Queued { f, i: ni });
                        }
                    }
                }
            }
            proof {
                assert forall|dd: int, b: (u32, u32)|
                    #![trigger toward(a, dd, b), is_step(*g, soft, a, b)]
                    0 <= dd < d + 1 && toward(a, dd, b) && is_step(*g, soft, a, b) implies gs@[node_of(
                    *g,
                    b,
                )] <= sat(gcur + step_cost(*g, soft, a, b)) by {
                    lemma_node_of_tile(*g, b);
                    if dd < d {
                        assert(gs@[node_of(*g, b)] <= gs_before[node_of(*g, b)]);
                    } else {
                        assert(nb == Some(b));
                    }
                }
            }
            d = d + 1;
        }
        proof {
            lemma_total_nonneg(gs@);
            assert forall|b: (u32, u32)| #[trigger] is_step(*g, soft, a, b) implies gs@[node_of(*g, b)]
                <= sat(gs@[cur as int] + step_cost(*g, soft, a, b)) by {
                let dd = lemma_step_dir(*g, soft, a, b);
            }
            assert(relaxed(*g, soft, gs@, cur as int));
            lemma_finish_expand(
                *g,
                soft,
                goal,
                s as int,
                t as int,
                gs@,
                came@,
                open@,
                expanded,
                cur as int,
            );
            expanded = expanded.update(cur as int, Some(gs@[cur as int]));
        }
    }
}


/// Every tile of the grid is open ground.
pub open spec fn all_open(g: Grid) -> bool {
    forall|i: int| 0 <= i < g.tiles@.len() ==> #[trigger] g.tiles@[i] == crate::world::EMPTY
}

spec fn toward_step(a: u32, b: u32) -> u32 {
    if a < b {
        (a + 1) as u32
    } else if a > b {
        (a - 1) as u32
    } else {
        a
    }
}

/// Walking diagonally towards `b` while both coordinates differ, then
/// straight, costs exactly the octile distance on open ground.
proof fn lemma_open_walk(g: Grid, soft: bool, a: (u32, u32), b: (u32, u32)) -> (p: Seq<(u32, u32)>)
    requires
        g.wf(),
        all_open(g),
        g.inside(a.0 as int, a.1 as int),
        g.inside(b.0 as int, b.1 as int),
    ensures
        connects(g, soft, p, a, b),
        walk_cost(g, soft, p) == octile_spec(a, b),
    decreases chebyshev_spec(a, b),
{
    if a == b {
        let p = seq![a];
        assert(p.last() == b);
        p
    } else {
        let s = (toward_step(a.0, b.0), toward_step(a.1, b.1));
        lemma_node_of_tile(g, s);
        lemma_node_of_tile(g, (s.0, a.1));
        lemma_node_of_tile(g, (a.0, s.1));
        assert(g.kind_at(s.0 as int, s.1 as int) == crate::world::EMPTY);
        assert(g.kind_at(s.0 as int, a.1 as int) == crate::world::EMPTY);
        assert(g.kind_at(a.0 as int, s.1 as int) == crate::world::EMPTY);
        assert(is_step(g, soft, a, s));
        let rest = lemma_open_walk(g, soft, s, b);
        lemma_prepend_walk(g, soft, a, rest);
        assert(1000 * 1414 / 1000 == 1414);
        seq![a] + rest
    }
}

/// On open ground the cheapest walk costs exactly the octile distance, so the
/// heuristic is exact there.
pub proof fn lemma_open_ground_exact(
    g: Grid,
    soft: bool,
    p: Seq<(u32, u32)>,
    a: (u32, u32),
    b: (u32, u32),
)
    requires
        g.wf(),
        all_open(g),
        is_cheapest(g, soft, p, a, b),
    ensures
        walk_cost(g, soft, p) == octile_spec(a, b),
{
    lemma_walk_inside(g, soft, p, p.len() - 1);
    let q = lemma_open_walk(g, soft, a, b);
    assert(connects(g, soft, q, a, b));
    lemma_admissible(g, soft, p, b);
}

} // verus!
