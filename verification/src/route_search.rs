//! The search of the pin-to-pin router: a multi-source A* over a grid of
//! cells on one or more copper layers. A move goes to one of the eight
//! neighbouring cells of the same layer (never cutting the corner between
//! two blocked cells), or through a via to the same cell of another layer.
//! Costs are integers: 10 for a straight step, 14 for a diagonal one, 6
//! more for a bend, the cell's proximity penalty, and the via cost.
//!
//! The grid (which cells are free, their penalties, where a via fits) is
//! rasterised from the board outside this module; the route it returns is
//! turned back into traces there too.

use vstd::prelude::*;
use vstd::arithmetic::div_mod::lemma_fundamental_div_mod_converse;
use vstd::multiset::Multiset;
use crate::frontier::{Frontier, Entry};

verus! {

/// The cells a route may use, layer by layer, row by row.
pub struct RouteGrid {
    /// Cells per row and rows per layer.
    pub w: usize,
    pub h: usize,
    /// Per layer and cell (`y * w + x`): whether a route may occupy it.
    pub free: Vec<Vec<bool>>,
    /// Per layer and cell: the extra cost of entering it (running close to
    /// other copper).
    pub penalty: Vec<Vec<i64>>,
    /// Per cell: whether a via fits there.
    pub via_ok: Vec<bool>,
}

/// A cell: layer, column, row.
pub type Cell = (usize, usize, usize);

/// Whether the grid is consistent: every table has a cell per cell, the
/// penalties are small, and every cell number fits in 32 bits.
pub open spec fn grid_ok(g: RouteGrid) -> bool {
    &&& g.w > 0 && g.h > 0 && g.free@.len() > 0
    &&& g.w < 0x8000_0000 && g.h < 0x8000_0000
    &&& g.w * g.h * g.free@.len() < 0xffff_ffff
    &&& g.penalty@.len() == g.free@.len()
    &&& g.via_ok@.len() == g.w * g.h
    &&& forall|l: int| 0 <= l < g.free@.len() ==> (#[trigger] g.free@[l])@.len() == g.w * g.h
    &&& forall|l: int| 0 <= l < g.penalty@.len() ==> (#[trigger] g.penalty@[l])@.len() == g.w * g.h
    &&& forall|l: int, i: int| 0 <= l < g.penalty@.len() && 0 <= i < g.w * g.h
            ==> 0 <= #[trigger] g.penalty@[l]@[i] <= 1000
}

/// Whether a cell lies in the grid.
pub open spec fn in_grid(g: RouteGrid, c: Cell) -> bool {
    c.0 < g.free@.len() && c.1 < g.w && c.2 < g.h
}

/// Whether a route may occupy cell `c`.
pub open spec fn free_at(g: RouteGrid, c: Cell) -> bool {
    g.free@[c.0 as int]@[c.2 * g.w + c.1]
}

/// The number of a cell in the search's tables.
pub open spec fn cell_index(g: RouteGrid, c: Cell) -> int {
    c.0 * (g.w * g.h) + c.2 * g.w + c.1
}

/// Whether a route may go from `a` to `b` in one move: to a neighbouring
/// free cell of the same layer without cutting a blocked corner, or through
/// a via to the free same cell of another layer.
pub open spec fn step_ok(g: RouteGrid, a: Cell, b: Cell) -> bool {
    let dx = b.1 - a.1;
    let dy = b.2 - a.2;
    &&& in_grid(g, a) && in_grid(g, b) && free_at(g, b)
    &&& {
        ||| (a.0 == b.0 && -1 <= dx <= 1 && -1 <= dy <= 1 && (dx != 0 || dy != 0)
                && (dx != 0 && dy != 0 ==> free_at(g, (a.0, b.1, a.2)) && free_at(g, (a.0, a.1, b.2))))
        ||| (a.1 == b.1 && a.2 == b.2 && a.0 != b.0 && g.via_ok@[a.2 * g.w + a.1])
    }
}

/// Whether `path` is a route: it begins at a start, ends at a goal cell,
/// and each move is allowed.
pub open spec fn route_ok(g: RouteGrid, starts: Seq<Cell>, goal: Seq<bool>, path: Seq<Cell>) -> bool {
    &&& path.len() > 0
    &&& starts.contains(path[0])
    &&& goal[cell_index(g, path.last())]
    &&& forall|k: int| 0 <= k < path.len() ==> #[trigger] in_grid(g, path[k])
    &&& forall|k: int| 0 <= k < path.len() - 1 ==> #[trigger] step_ok(g, path[k], path[k + 1])
}

/// Whether `path` is a walk from a start: it begins at a start and each
/// move is allowed.
pub open spec fn walk_ok(g: RouteGrid, starts: Seq<Cell>, path: Seq<Cell>) -> bool {
    &&& path.len() > 0
    &&& starts.contains(path[0])
    &&& forall|k: int| 0 <= k < path.len() ==> #[trigger] in_grid(g, path[k])
    &&& forall|k: int| 0 <= k < path.len() - 1 ==> #[trigger] step_ok(g, path[k], path[k + 1])
}

/// Cell numbers lie below the cell count and tell cells apart.
pub proof fn lemma_cell_index(g: RouteGrid, c: Cell)
    requires g.w > 0, g.h > 0, in_grid(g, c),
    ensures
        0 <= c.2 * g.w + c.1 < g.w * g.h,
        0 <= cell_index(g, c) < g.free@.len() * (g.w * g.h),
        cell_index(g, c) / (g.w * g.h) == c.0,
        cell_index(g, c) % (g.w * g.h) == c.2 * g.w + c.1,
        (c.2 * g.w + c.1) / (g.w as int) == c.2,
        (c.2 * g.w + c.1) % (g.w as int) == c.1,
{
    let w = g.w as int;
    let h = g.h as int;
    let l = c.0 as int;
    let x = c.1 as int;
    let y = c.2 as int;
    let n = g.free@.len() as int;
    assert(0 <= y * w + x < w * h) by (nonlinear_arith) requires 0 <= x < w, 0 <= y < h;
    assert(0 <= l * (w * h) + y * w + x < n * (w * h)) by (nonlinear_arith)
        requires 0 <= l < n, 0 <= y * w + x < w * h;
    lemma_fundamental_div_mod_converse(l * (w * h) + y * w + x, w * h, l, y * w + x);
    lemma_fundamental_div_mod_converse(y * w + x, w, y, x);
}

/// Different cells have different numbers.
pub proof fn lemma_cell_index_injective(g: RouteGrid, a: Cell, b: Cell)
    requires g.w > 0, g.h > 0, in_grid(g, a), in_grid(g, b), cell_index(g, a) == cell_index(g, b),
    ensures a == b,
{
    lemma_cell_index(g, a);
    lemma_cell_index(g, b);
}

/// The sum of a table of costs.
pub open spec fn total(s: Seq<i64>) -> int
    decreases s.len(),
{
    if s.len() == 0 { 0 } else { total(s.drop_last()) + s.last() }
}

proof fn lemma_total_update(s: Seq<i64>, i: int, v: i64)
    requires 0 <= i < s.len(),
    ensures total(s.update(i, v)) == total(s) - s[i] + v,
    decreases s.len(),
{
    let t = s.update(i, v);
    if i < s.len() - 1 {
        assert(t.drop_last() =~= s.drop_last().update(i, v));
        lemma_total_update(s.drop_last(), i, v);
    } else {
        assert(t.drop_last() =~= s.drop_last());
    }
}

proof fn lemma_total_nonneg(s: Seq<i64>)
    requires forall|i: int| 0 <= i < s.len() ==> s[i] >= 0,
    ensures total(s) >= 0,
    decreases s.len(),
{
    if s.len() > 0 {
        lemma_total_nonneg(s.drop_last());
    }
}

/// The search's tables have a slot per cell, and no cost is negative.
pub open spec fn tables_ok(g: RouteGrid, best: Seq<i64>, has_par: Seq<bool>, par: Seq<Cell>) -> bool {
    let n = g.free@.len() * (g.w * g.h);
    &&& best.len() == n && has_par.len() == n && par.len() == n
    &&& forall|i: int| 0 <= i < n ==> #[trigger] best[i] >= 0
}

/// Every cell with a parent came from it in one allowed move and costs more
/// than it; every reached cell without a parent is a start.
pub open spec fn links_ok(g: RouteGrid, starts: Seq<Cell>, best: Seq<i64>, has_par: Seq<bool>, par: Seq<Cell>) -> bool {
    &&& forall|c: Cell| #![trigger cell_index(g, c)] in_grid(g, c) && has_par[cell_index(g, c)] ==> {
        let p = par[cell_index(g, c)];
        &&& step_ok(g, p, c)
        &&& best[cell_index(g, p)] < best[cell_index(g, c)] < i64::MAX
    }
    &&& forall|c: Cell| #![trigger cell_index(g, c)] in_grid(g, c) && best[cell_index(g, c)] < i64::MAX
        && !has_par[cell_index(g, c)] ==> starts.contains(c)
}

/// Every queued entry names a reached cell of the grid by its number.
pub open spec fn queue_ok(g: RouteGrid, best: Seq<i64>, q: Multiset<Entry>) -> bool {
    forall|e: Entry| #[trigger] q.contains(e) ==> {
        &&& in_grid(g, e.2)
        &&& e.1 == cell_index(g, e.2)
        &&& best[e.1 as int] < i64::MAX
        &&& e.0 >= 0
    }
}

/// The cell number of `c`.
fn index_of(g: &RouteGrid, c: Cell) -> (r: usize)
    requires grid_ok(*g), in_grid(*g, c),
    ensures r == cell_index(*g, c), r < g.free@.len() * (g.w * g.h),
{
    proof {
        lemma_cell_index(*g, c);
        assert(g.w * g.h * g.free@.len() == g.free@.len() * (g.w * g.h)) by (nonlinear_arith);
        assert(g.w * g.h <= g.free@.len() * (g.w * g.h)) by (nonlinear_arith) requires g.free@.len() >= 1, g.w * g.h >= 0;
        assert(c.0 * (g.w * g.h) <= cell_index(*g, c));
        assert(c.2 * g.w <= c.2 * g.w + c.1);
    }
    c.0 * (g.w * g.h) + c.2 * g.w + c.1
}

/// Setting a cheaper cost for `to`, reached from `from`, keeps the links.
proof fn lemma_relax_links(g: RouteGrid, starts: Seq<Cell>, b0: Seq<i64>, h0: Seq<bool>, p0: Seq<Cell>, from: Cell, to: Cell, ng: i64)
    requires
        grid_ok(g), step_ok(g, from, to), from != to,
        tables_ok(g, b0, h0, p0),
        links_ok(g, starts, b0, h0, p0),
        b0[cell_index(g, from)] < ng < b0[cell_index(g, to)],
    ensures
        links_ok(g, starts, b0.update(cell_index(g, to), ng), h0.update(cell_index(g, to), true),
            p0.update(cell_index(g, to), from)),
{
    let ni = cell_index(g, to);
    let b1 = b0.update(ni, ng);
    let h1 = h0.update(ni, true);
    let p1 = p0.update(ni, from);
    lemma_cell_index(g, to);
    lemma_cell_index(g, from);
    if cell_index(g, from) == ni { lemma_cell_index_injective(g, from, to); }
    assert forall|c: Cell| #![trigger cell_index(g, c)] in_grid(g, c) && h1[cell_index(g, c)] implies ({
        let p = p1[cell_index(g, c)];
        &&& step_ok(g, p, c)
        &&& b1[cell_index(g, p)] < b1[cell_index(g, c)] < i64::MAX
    }) by {
        lemma_cell_index(g, c);
        if cell_index(g, c) == ni {
            lemma_cell_index_injective(g, c, to);
        } else {
            let p = p0[cell_index(g, c)];
            assert(h0[cell_index(g, c)]);
            assert(step_ok(g, p, c));
            lemma_cell_index(g, p);
        }
    }
    assert forall|c: Cell| #![trigger cell_index(g, c)] in_grid(g, c) && b1[cell_index(g, c)] < i64::MAX
        && !h1[cell_index(g, c)] implies starts.contains(c) by {
        lemma_cell_index(g, c);
        assert(cell_index(g, c) != ni);
        assert(b0[cell_index(g, c)] < i64::MAX && !h0[cell_index(g, c)]);
    }
}

/// The search's state: best cost, whether a parent is known, the parent,
/// per cell number; and the queued entries.
pub type SearchState = (Seq<i64>, Seq<bool>, Seq<Cell>, Multiset<Entry>);

/// The state after offering `to` (number `ni`) the cost `ng` from `from`
/// with priority `f`: taken, and queued, only when cheaper than its cost.
pub open spec fn relaxed(s: SearchState, from: Cell, to: Cell, ni: int, ng: i64, f: i64) -> SearchState {
    if ng < s.0[ni] {
        (s.0.update(ni, ng), s.1.update(ni, true), s.2.update(ni, from), s.3.insert((f, ni as usize, to)))
    } else {
        s
    }
}

/// How many cells have a cost.
pub open spec fn reached_count(b: Seq<i64>) -> nat
    decreases b.len(),
{
    if b.len() == 0 {
        0
    } else {
        reached_count(b.drop_last()) + if b.last() < i64::MAX { 1nat } else { 0nat }
    }
}

proof fn lemma_reached_count_update(b: Seq<i64>, i: int, v: i64)
    requires 0 <= i < b.len(), v < i64::MAX,
    ensures reached_count(b.update(i, v)) == reached_count(b) + if b[i] < i64::MAX { 0int } else { 1int },
    decreases b.len(),
{
    let t = b.update(i, v);
    if i < b.len() - 1 {
        assert(t.drop_last() =~= b.drop_last().update(i, v));
        lemma_reached_count_update(b.drop_last(), i, v);
    } else {
        assert(t.drop_last() =~= b.drop_last());
    }
}

proof fn lemma_reached_count_le(b: Seq<i64>)
    ensures reached_count(b) <= b.len(),
    decreases b.len(),
{
    if b.len() > 0 {
        lemma_reached_count_le(b.drop_last());
    }
}

/// No cost exceeds that of a route through every reached cell with moves
/// of cost `m`: a reached cost and one more move fit in `m` per reached cell.
pub open spec fn costs_bounded(b: Seq<i64>, m: int) -> bool {
    forall|i: int| 0 <= i < b.len() && b[i] < i64::MAX ==> #[trigger] b[i] + m <= m * reached_count(b)
}

/// A reached cost and one more move fit in `m` per cell.
proof fn lemma_cost_room(b: Seq<i64>, m: int, i: int)
    requires costs_bounded(b, m), m >= 0, 0 <= i < b.len(), b[i] < i64::MAX,
    ensures b[i] + m <= m * reached_count(b) <= m * b.len(),
{
    lemma_reached_count_le(b);
    let rc = reached_count(b) as int;
    let n = b.len() as int;
    assert(m * rc <= m * n) by (nonlinear_arith) requires m >= 0, rc <= n;
}

/// Lowering the cost of cell number `ni` to `ng` keeps the costs bounded
/// when `ng` and one more move fit in `m` per reached cell.
proof fn lemma_lower_costs(b: Seq<i64>, m: int, ni: int, ng: i64)
    requires
        costs_bounded(b, m), m >= 0, 0 <= ni < b.len(), ng <= b[ni], ng < i64::MAX,
        b[ni] == i64::MAX ==> ng + m <= m * (reached_count(b) + 1),
    ensures costs_bounded(b.update(ni, ng), m),
{
    let b2 = b.update(ni, ng);
    lemma_reached_count_update(b, ni, ng);
    let rc = reached_count(b) as int;
    assert(m * (rc + 1) == m * rc + m) by (nonlinear_arith);
    assert forall|i: int| 0 <= i < b2.len() && b2[i] < i64::MAX implies #[trigger] b2[i] + m <= m * reached_count(b2) by {
        if i != ni {
            assert(b2[i] == b[i]);
        }
    }
}

/// Whether cell `c` has a queued entry that is not stale: its priority
/// exceeds the cell's cost by no more than the estimate from the cell.
pub open spec fn pending(g: RouteGrid, bbox: (usize, usize, usize, usize), b: Seq<i64>, q: Multiset<Entry>, c: Cell) -> bool {
    exists|e: Entry| #[trigger] q.contains(e) && e.1 == cell_index(g, c)
        && e.0 - b[cell_index(g, c)] <= estimate_of(bbox, c.1 as int, c.2 as int)
}

/// Whether cell `c` has been expanded: it is no goal, and every cell one
/// move away has a cost.
pub open spec fn closed(g: RouteGrid, goal: Seq<bool>, b: Seq<i64>, c: Cell) -> bool {
    &&& !goal[cell_index(g, c)]
    &&& forall|nb: Cell| #[trigger] step_ok(g, c, nb) ==> b[cell_index(g, nb)] < i64::MAX
}

/// Every reached cell but `x` has been expanded (it is closed, and its
/// number is in `exp`) or waits in the queue.
pub open spec fn settled_but(g: RouteGrid, goal: Seq<bool>, bbox: (usize, usize, usize, usize),
    b: Seq<i64>, q: Multiset<Entry>, x: Option<Cell>, exp: Set<int>) -> bool {
    forall|c: Cell| #![trigger cell_index(g, c)] in_grid(g, c) && x != Some(c) && b[cell_index(g, c)] < i64::MAX
        ==> (closed(g, goal, b, c) && exp.contains(cell_index(g, c))) || pending(g, bbox, b, q, c)
}

/// Lowering the cost of `to` to `ng` and queueing it with a priority that
/// is not stale keeps every reached cell but `x` expanded or waiting.
proof fn lemma_lower_settled(g: RouteGrid, goal: Seq<bool>, bbox: (usize, usize, usize, usize),
    b: Seq<i64>, q: Multiset<Entry>, x: Option<Cell>, exp: Set<int>, to: Cell, ng: i64, f: i64)
    requires
        grid_ok(g), in_grid(g, to), b.len() == g.free@.len() * (g.w * g.h),
        settled_but(g, goal, bbox, b, q, x, exp),
        ng <= b[cell_index(g, to)], ng < i64::MAX,
        f - ng <= estimate_of(bbox, to.1 as int, to.2 as int),
    ensures
        settled_but(g, goal, bbox, b.update(cell_index(g, to), ng), q.insert((f, cell_index(g, to) as usize, to)), x, exp),
{
    broadcast use vstd::multiset::group_multiset_axioms;
    let ni = cell_index(g, to);
    lemma_cell_index(g, to);
    assert(g.w * g.h * g.free@.len() == g.free@.len() * (g.w * g.h)) by (nonlinear_arith);
    assert((ni as usize) as int == ni);
    let b2 = b.update(ni, ng);
    let e = (f, ni as usize, to);
    let q2 = q.insert(e);
    assert forall|c: Cell| #![trigger cell_index(g, c)] in_grid(g, c) && x != Some(c) && b2[cell_index(g, c)] < i64::MAX
        implies (closed(g, goal, b2, c) && exp.contains(cell_index(g, c))) || pending(g, bbox, b2, q2, c) by {
        lemma_cell_index(g, c);
        if cell_index(g, c) == ni {
            lemma_cell_index_injective(g, c, to);
            assert(q2.contains(e));
            assert(pending(g, bbox, b2, q2, c));
        } else {
            assert(b2[cell_index(g, c)] == b[cell_index(g, c)]);
            if closed(g, goal, b, c) && exp.contains(cell_index(g, c)) {
                assert forall|nb: Cell| #[trigger] step_ok(g, c, nb) implies b2[cell_index(g, nb)] < i64::MAX by {
                    lemma_cell_index(g, nb);
                }
            } else {
                let w = choose|w: Entry| #[trigger] q.contains(w) && w.1 == cell_index(g, c)
                    && w.0 - b[cell_index(g, c)] <= estimate_of(bbox, c.1 as int, c.2 as int);
                assert(q2.contains(w));
                assert(pending(g, bbox, b2, q2, c));
            }
        }
    }
}

/// Gives `to` the cost `ng`, reached from `from`, when that is cheaper than
/// what it had, and queues it with priority `f`.
fn relax(
    g: &RouteGrid, Ghost(starts): Ghost<Seq<Cell>>,
    best: &mut Vec<i64>, has_par: &mut Vec<bool>, par: &mut Vec<Cell>, queue: &mut Frontier,
    from: Cell, to: Cell, ng: i64, f: i64,
)
    requires
        grid_ok(*g), step_ok(*g, from, to), from != to,
        tables_ok(*g, old(best)@, old(has_par)@, old(par)@),
        links_ok(*g, starts, old(best)@, old(has_par)@, old(par)@),
        old(queue).wf() && queue_ok(*g, old(best)@, old(queue).items()),
        old(best)@[cell_index(*g, from)] < ng, f >= 0,
    ensures
        tables_ok(*g, final(best)@, final(has_par)@, final(par)@),
        links_ok(*g, starts, final(best)@, final(has_par)@, final(par)@),
        final(queue).wf() && queue_ok(*g, final(best)@, final(queue).items()),
        final(best)@[cell_index(*g, from)] == old(best)@[cell_index(*g, from)],
        2 * total(final(best)@) + final(queue).items().len() <= 2 * total(old(best)@) + old(queue).items().len(),
        forall|i: int| 0 <= i < old(best)@.len() ==> #[trigger] final(best)@[i] <= old(best)@[i],
        (final(best)@, final(has_par)@, final(par)@, final(queue).items())
            == relaxed((old(best)@, old(has_par)@, old(par)@, old(queue).items()), from, to, cell_index(*g, to), ng, f),
{
    let ni = index_of(g, to);
    let fi = index_of(g, from);
    proof { if fi == ni { lemma_cell_index_injective(*g, from, to); } }
    if ng < best[ni] {
        let ghost b0 = best@;
        let ghost q0 = queue.items();
        proof {
            lemma_total_update(b0, ni as int, ng);
            lemma_relax_links(*g, starts, b0, has_par@, par@, from, to, ng);
        }
        best.set(ni, ng);
        has_par.set(ni, true);
        par.set(ni, from);
        queue.push((f, ni, to));
        proof {
            broadcast use vstd::multiset::group_multiset_axioms;
            broadcast use vstd::multiset::group_multiset_properties;
            assert forall|e: Entry| #[trigger] queue.items().contains(e) implies ({
                &&& in_grid(*g, e.2)
                &&& e.1 == cell_index(*g, e.2)
                &&& best@[e.1 as int] < i64::MAX
                &&& e.0 >= 0
            }) by {
                if e != (f, ni, to) {
                    assert(q0.contains(e));
                    lemma_cell_index(*g, e.2);
                    assert(b0[e.1 as int] < i64::MAX);
                }
            }
        }
    }
}

/// The cells from `end` back along the parents to a start.
fn parents_of(g: &RouteGrid, Ghost(starts): Ghost<Seq<Cell>>, best: &Vec<i64>, has_par: &Vec<bool>, par: &Vec<Cell>, end: Cell)
    -> (rev: Vec<Cell>)
    requires
        grid_ok(*g), tables_ok(*g, best@, has_par@, par@), links_ok(*g, starts, best@, has_par@, par@),
        in_grid(*g, end), best@[cell_index(*g, end)] < i64::MAX,
    ensures
        rev@.len() > 0, rev@[0] == end, starts.contains(rev@.last()),
        forall|k: int| 0 <= k < rev@.len() ==> #[trigger] in_grid(*g, rev@[k]),
        forall|k: int| 0 <= k < rev@.len() - 1 ==> #[trigger] step_ok(*g, rev@[k + 1], rev@[k]),
{
    let mut rev: Vec<Cell> = Vec::new();
    rev.push(end);
    let mut cur = end;
    let mut ci = index_of(g, cur);
    while has_par[ci]
        invariant
            grid_ok(*g), tables_ok(*g, best@, has_par@, par@), links_ok(*g, starts, best@, has_par@, par@),
            in_grid(*g, cur), ci == cell_index(*g, cur), (ci as int) < g.free@.len() * (g.w * g.h),
            best@[ci as int] < i64::MAX,
            rev@.len() >= 1, rev@[0] == end, rev@.last() == cur,
            forall|k: int| 0 <= k < rev@.len() ==> #[trigger] in_grid(*g, rev@[k]),
            forall|k: int| 0 <= k < rev@.len() - 1 ==> #[trigger] step_ok(*g, rev@[k + 1], rev@[k]),
        decreases best@[ci as int],
    {
        let p = par[ci];
        proof { assert(step_ok(*g, p, cur)); }
        let ghost old_rev = rev@;
        rev.push(p);
        proof {
            assert forall|k: int| 0 <= k < rev@.len() - 1 implies #[trigger] step_ok(*g, rev@[k + 1], rev@[k]) by {
                if k < rev@.len() - 2 { assert(rev@[k] == old_rev[k] && rev@[k + 1] == old_rev[k + 1]); }
            }
            assert forall|k: int| 0 <= k < rev@.len() implies #[trigger] in_grid(*g, rev@[k]) by {
                if k < rev@.len() - 1 { assert(rev@[k] == old_rev[k]); }
            }
        }
        cur = p;
        ci = index_of(g, cur);
    }
    rev
}

/// The cells of `v` in reverse order.
fn reversed_cells(v: &Vec<Cell>) -> (r: Vec<Cell>)
    ensures r@.len() == v@.len(), forall|j: int| 0 <= j < v@.len() ==> #[trigger] r@[j] == v@[v@.len() - 1 - j],
{
    let n = v.len();
    let mut r: Vec<Cell> = Vec::new();
    let mut k = n;
    while k > 0
        invariant
            k <= n, n == v@.len(), r@.len() == n - k,
            forall|j: int| 0 <= j < r@.len() ==> #[trigger] r@[j] == v@[n - 1 - j],
        decreases k,
    {
        r.push(v[k - 1]);
        k -= 1;
    }
    r
}

/// The route to `end`: from a start along the parents to `end`.
fn trace_back(g: &RouteGrid, Ghost(starts): Ghost<Seq<Cell>>, best: &Vec<i64>, has_par: &Vec<bool>, par: &Vec<Cell>, end: Cell)
    -> (path: Vec<Cell>)
    requires
        grid_ok(*g), tables_ok(*g, best@, has_par@, par@), links_ok(*g, starts, best@, has_par@, par@),
        in_grid(*g, end), best@[cell_index(*g, end)] < i64::MAX,
    ensures
        path@.len() > 0, starts.contains(path@[0]), path@.last() == end,
        forall|k: int| 0 <= k < path@.len() ==> #[trigger] in_grid(*g, path@[k]),
        forall|k: int| 0 <= k < path@.len() - 1 ==> #[trigger] step_ok(*g, path@[k], path@[k + 1]),
{
    let rev = parents_of(g, Ghost(starts), best, has_par, par, end);
    let path = reversed_cells(&rev);
    let ghost n = rev@.len();
    proof {
        assert(path@[0] == rev@[n - 1]);
        assert(path@[n - 1] == rev@[0]);
        assert forall|j: int| 0 <= j < path@.len() implies #[trigger] in_grid(*g, path@[j]) by {
            assert(path@[j] == rev@[n - 1 - j]);
        }
        assert forall|j: int| 0 <= j < path@.len() - 1 implies #[trigger] step_ok(*g, path@[j], path@[j + 1]) by {
            assert(path@[j] == rev@[n - 1 - j]);
            assert(path@[j + 1] == rev@[n - 1 - (j + 1)]);
            assert(step_ok(*g, rev@[(n - 2 - j) + 1], rev@[n - 2 - j]));
        }
    }
    path
}

/// The eight moves of the same layer, in the order they are tried:
/// column step, row step, cost.
pub open spec fn move_table(k: int) -> (i64, i64, i64) {
    if k == 0 { (1, 0, 10) }
    else if k == 1 { (-1i64, 0, 10) }
    else if k == 2 { (0, 1, 10) }
    else if k == 3 { (0, -1i64, 10) }
    else if k == 4 { (1, 1, 14) }
    else if k == 5 { (-1i64, 1, 14) }
    else if k == 6 { (1, -1i64, 14) }
    else { (-1i64, -1i64, 14) }
}

/// A cost, or the largest `i64` where it does not fit.
pub open spec fn saturated(v: int) -> i64 {
    if v > i64::MAX { i64::MAX } else { v as i64 }
}

/// What move `k` from `cell` (entered in direction `pdir`) offers: the cell
/// it reaches, its cost and its priority; nothing where the move leaves the
/// grid, enters a blocked cell, cuts a blocked corner, or its cost does not
/// fit. A move costs its step, 6 more for a bend, and the penalty of the
/// cell entered.
pub open spec fn move_offer(g: RouteGrid, cell: Cell, gi: i64, bbox: (usize, usize, usize, usize),
    pdir: Option<(i64, i64)>, k: int) -> Option<(Cell, i64, i64)> {
    let (dx, dy, step) = move_table(k);
    let nx = cell.1 + dx;
    let ny = cell.2 + dy;
    if nx < 0 || ny < 0 || nx >= g.w || ny >= g.h {
        None
    } else {
        let to: Cell = (cell.0, nx as usize, ny as usize);
        if !free_at(g, to) {
            None
        } else if dx != 0 && dy != 0 && (!free_at(g, (cell.0, nx as usize, cell.2)) || !free_at(g, (cell.0, cell.1, ny as usize))) {
            None
        } else {
            let bend: int = match pdir {
                Some(p) => if p.0 != dx || p.1 != dy { 6 } else { 0 },
                None => 0,
            };
            let ng = gi + step + bend + g.penalty@[cell.0 as int]@[ny * g.w + nx];
            if ng > i64::MAX {
                None
            } else {
                Some((to, ng as i64, saturated(ng + estimate_of(bbox, nx, ny))))
            }
        }
    }
}

/// The state after offering the first `k` moves from `cell` in turn.
pub open spec fn moves_done(g: RouteGrid, s: SearchState, cell: Cell, gi: i64, bbox: (usize, usize, usize, usize),
    pdir: Option<(i64, i64)>, k: int) -> SearchState
    decreases k,
{
    if k <= 0 {
        s
    } else {
        let t = moves_done(g, s, cell, gi, bbox, pdir, k - 1);
        match move_offer(g, cell, gi, bbox, pdir, k - 1) {
            Some(o) => relaxed(t, cell, o.0, cell_index(g, o.0), o.1, o.2),
            None => t,
        }
    }
}

/// What the via from `cell` to layer `l2` offers: the cell, its cost and
/// its priority; nothing where the board has one layer, no via fits at the
/// cell, `l2` is the cell's own layer or blocked there, or the cost does not
/// fit.
pub open spec fn via_offer(g: RouteGrid, cell: Cell, gi: i64, hc: i64, via_cost: i64, l2: int) -> Option<(Cell, i64, i64)> {
    let rem = cell.2 * g.w + cell.1;
    if g.free@.len() > 1 && g.via_ok@[rem] && l2 != cell.0 && g.free@[l2]@[rem] && gi + via_cost <= i64::MAX {
        Some(((l2 as usize, cell.1, cell.2), (gi + via_cost) as i64, saturated(gi + via_cost + hc)))
    } else {
        None
    }
}

/// The state after offering the vias to the first `k` layers in turn.
pub open spec fn vias_done(g: RouteGrid, s: SearchState, cell: Cell, gi: i64, hc: i64, via_cost: i64, k: int) -> SearchState
    decreases k,
{
    if k <= 0 {
        s
    } else {
        let t = vias_done(g, s, cell, gi, hc, via_cost, k - 1);
        match via_offer(g, cell, gi, hc, via_cost, k - 1) {
            Some(o) => relaxed(t, cell, o.0, cell_index(g, o.0), o.1, o.2),
            None => t,
        }
    }
}

proof fn lemma_no_vias(g: RouteGrid, s: SearchState, cell: Cell, gi: i64, hc: i64, via_cost: i64, k: int)
    requires !(g.free@.len() > 1 && g.via_ok@[cell.2 * g.w + cell.1]),
    ensures vias_done(g, s, cell, gi, hc, via_cost, k) == s,
    decreases k,
{
    if k > 0 { lemma_no_vias(g, s, cell, gi, hc, via_cost, k - 1); }
}

/// One of the eight moves of the same layer: column step, row step, cost.
fn move_of(k: usize) -> (r: (i64, i64, i64))
    requires k < 8,
    ensures
        -1 <= r.0 <= 1, -1 <= r.1 <= 1, r.0 != 0 || r.1 != 0,
        r.2 == (if r.0 != 0 && r.1 != 0 { 14i64 } else { 10i64 }),
        r == move_table(k as int),
{
    match k {
        0 => (1, 0, 10),
        1 => (-1, 0, 10),
        2 => (0, 1, 10),
        3 => (0, -1, 10),
        4 => (1, 1, 14),
        5 => (-1, 1, 14),
        6 => (1, -1, 14),
        _ => (-1, -1, 14),
    }
}

/// How far `v` lies outside `lo..=hi`.
pub open spec fn gap(v: int, lo: int, hi: int) -> int {
    if v < lo { lo - v } else if v > hi { v - hi } else { 0 }
}

/// The distance estimate from `(x, y)` to the goal box (columns
/// `bbox.0..=bbox.2`, rows `bbox.1..=bbox.3`): 14 per diagonal step and 10
/// per straight one.
pub open spec fn estimate_of(bbox: (usize, usize, usize, usize), x: int, y: int) -> int {
    let dx = gap(x, bbox.0 as int, bbox.2 as int);
    let dy = gap(y, bbox.1 as int, bbox.3 as int);
    let mn = if dx < dy { dx } else { dy };
    let mx = if dx < dy { dy } else { dx };
    14 * mn + 10 * (mx - mn)
}

/// The distance estimate from `(x, y)` to the goal box: 14 per diagonal
/// step and 10 per straight one.
fn estimate(bbox: (usize, usize, usize, usize), x: usize, y: usize) -> (r: i64)
    requires bbox.0 < 0x8000_0000, bbox.1 < 0x8000_0000, bbox.2 < 0x8000_0000, bbox.3 < 0x8000_0000,
        x < 0x8000_0000, y < 0x8000_0000,
    ensures 0 <= r <= 0x10_0000_0000, r == estimate_of(bbox, x as int, y as int),
{
    let dx: i64 = if x < bbox.0 { (bbox.0 - x) as i64 } else if x > bbox.2 { (x - bbox.2) as i64 } else { 0 };
    let dy: i64 = if y < bbox.1 { (bbox.1 - y) as i64 } else if y > bbox.3 { (y - bbox.3) as i64 } else { 0 };
    let (mn, mx) = if dx < dy { (dx, dy) } else { (dy, dx) };
    14 * mn + 10 * (mx - mn)
}

/// Why a search found no route: the cell it got closest to by the
/// estimate, and that estimate.
pub struct Miss {
    pub layer: usize,
    pub x: usize,
    pub y: usize,
    pub h: i64,
}

/// The move among the eight that goes from `cell` to a neighbour `nb` of
/// the same layer; it is offered whenever the cost of `cell` leaves room
/// for one more move.
proof fn lemma_move_for(g: RouteGrid, cell: Cell, nb: Cell, gi: i64, bbox: (usize, usize, usize, usize),
    pdir: Option<(i64, i64)>) -> (k: int)
    requires grid_ok(g), step_ok(g, cell, nb), nb.0 == cell.0, 0 <= gi, gi + 1020 <= i64::MAX,
    ensures 0 <= k < 8, move_offer(g, cell, gi, bbox, pdir, k) matches Some(o) && o.0 == nb,
{
    lemma_cell_index(g, nb);
    assert(g.penalty@[nb.0 as int]@.len() == g.w * g.h);
    assert(0 <= g.penalty@[nb.0 as int]@[nb.2 * g.w + nb.1] <= 1000);
    let dx = nb.1 - cell.1;
    let dy = nb.2 - cell.2;
    if dx == 1 && dy == 0 { 0 }
    else if dx == -1 && dy == 0 { 1 }
    else if dx == 0 && dy == 1 { 2 }
    else if dx == 0 && dy == -1 { 3 }
    else if dx == 1 && dy == 1 { 4 }
    else if dx == -1 && dy == 1 { 5 }
    else if dx == 1 && dy == -1 { 6 }
    else { 7 }
}

/// Lowering the cost of cell number `ni` to `ng`, one move of cost at
/// most `m` from the reached cell number `fi`, keeps the costs bounded.
proof fn lemma_relax_costs(b: Seq<i64>, m: int, fi: int, ni: int, ng: i64)
    requires
        costs_bounded(b, m), m >= 0, 0 <= fi < b.len(), 0 <= ni < b.len(),
        b[fi] < i64::MAX, ng <= b[fi] + m, ng < b[ni], ng < i64::MAX,
    ensures costs_bounded(b.update(ni, ng), m),
{
    lemma_cost_room(b, m, fi);
    let rc = reached_count(b) as int;
    assert(m * (rc + 1) == m * rc + m) by (nonlinear_arith);
    lemma_lower_costs(b, m, ni, ng);
}

/// Relaxes the eight moves of the same layer from `cell`; `pdir` is the
/// direction `cell` was entered in on its layer, for the bend cost. Every
/// free neighbour of the same layer ends up with a cost.
#[verifier::rlimit(40)]
fn expand_moves(
    g: &RouteGrid, Ghost(st): Ghost<Seq<Cell>>, Ghost(goal): Ghost<Seq<bool>>, Ghost(m): Ghost<int>, Ghost(exp): Ghost<Set<int>>,
    best: &mut Vec<i64>, has_par: &mut Vec<bool>, par: &mut Vec<Cell>, queue: &mut Frontier,
    cell: Cell, i: usize, gi: i64, bbox: (usize, usize, usize, usize), pdir: Option<(i64, i64)>,
)
    requires
        grid_ok(*g), in_grid(*g, cell), i == cell_index(*g, cell), gi == old(best)@[i as int], gi < i64::MAX,
        bbox.0 < g.w, bbox.2 < g.w, bbox.1 < g.h, bbox.3 < g.h,
        tables_ok(*g, old(best)@, old(has_par)@, old(par)@),
        links_ok(*g, st, old(best)@, old(has_par)@, old(par)@),
        old(queue).wf() && queue_ok(*g, old(best)@, old(queue).items()),
        m >= 1020, m * (g.free@.len() * (g.w * g.h)) + 0x10_0000_0000 <= i64::MAX,
        costs_bounded(old(best)@, m),
        settled_but(*g, goal, bbox, old(best)@, old(queue).items(), Some(cell), exp),
    ensures
        tables_ok(*g, final(best)@, final(has_par)@, final(par)@),
        links_ok(*g, st, final(best)@, final(has_par)@, final(par)@),
        final(queue).wf() && queue_ok(*g, final(best)@, final(queue).items()),
        2 * total(final(best)@) + final(queue).items().len() <= 2 * total(old(best)@) + old(queue).items().len(),
        final(best)@[i as int] == old(best)@[i as int],
        (final(best)@, final(has_par)@, final(par)@, final(queue).items())
            == moves_done(*g, (old(best)@, old(has_par)@, old(par)@, old(queue).items()), cell, gi, bbox, pdir, 8),
        costs_bounded(final(best)@, m),
        settled_but(*g, goal, bbox, final(best)@, final(queue).items(), Some(cell), exp),
        forall|j: int| 0 <= j < old(best)@.len() ==> #[trigger] final(best)@[j] <= old(best)@[j],
        forall|nb: Cell| #[trigger] step_ok(*g, cell, nb) && nb.0 == cell.0 ==> final(best)@[cell_index(*g, nb)] < i64::MAX,
{
    let (l, x, y) = cell;
    let w = g.w;
    let h = g.h;
    proof { lemma_cell_index(*g, cell); lemma_cost_room(best@, m, i as int); }
    let ghost m0 = 2 * total(best@) + queue.items().len();
    let ghost s0: SearchState = (best@, has_par@, par@, queue.items());
    let ghost b0 = best@;
    let ghost n: int = g.free@.len() * (g.w * g.h);
    let mut k: usize = 0;
    while k < 8
        invariant
            k <= 8,
            (best@, has_par@, par@, queue.items()) == moves_done(*g, s0, cell, gi, bbox, pdir, k as int),
            grid_ok(*g), w == g.w, h == g.h,
            bbox.0 < g.w, bbox.2 < g.w, bbox.1 < g.h, bbox.3 < g.h,
            in_grid(*g, cell), cell == (l, x, y), i == cell_index(*g, cell),
            (i as int) < g.free@.len() * (g.w * g.h), gi == best@[i as int], gi >= 0,
            tables_ok(*g, best@, has_par@, par@),
            links_ok(*g, st, best@, has_par@, par@),
            queue.wf(), queue_ok(*g, best@, queue.items()),
            2 * total(best@) + queue.items().len() <= m0,
            n == g.free@.len() * (g.w * g.h), b0.len() == n,
            m >= 1020, m * n + 0x10_0000_0000 <= i64::MAX, gi + m <= m * n,
            costs_bounded(best@, m),
            settled_but(*g, goal, bbox, best@, queue.items(), Some(cell), exp),
            forall|j: int| 0 <= j < n ==> #[trigger] best@[j] <= b0[j],
            forall|j: int| 0 <= j < k ==> (#[trigger] move_offer(*g, cell, gi, bbox, pdir, j) matches Some(o)
                ==> best@[cell_index(*g, o.0)] < i64::MAX),
        decreases 8 - k,
    {
        let (dx, dy, step) = move_of(k);
        let ghost kk = k as int;
        let ghost bp = best@;
        k += 1;
        let nx = x as i64 + dx;
        let ny = y as i64 + dy;
        if nx < 0 || ny < 0 || nx >= w as i64 || ny >= h as i64 {
            continue;
        }
        let nxu = nx as usize;
        let nyu = ny as usize;
        let to: Cell = (l, nxu, nyu);
        proof {
            lemma_cell_index(*g, to);
            lemma_cell_index(*g, (l, nxu, y));
            lemma_cell_index(*g, (l, x, nyu));
            assert(g.free@[l as int]@.len() == g.w * g.h);
            assert(g.penalty@[l as int]@.len() == g.w * g.h);
        }
        let rem_n = nyu * w + nxu;
        if !g.free[l][rem_n] {
            continue;
        }
        if dx != 0 && dy != 0 && (!g.free[l][y * w + nxu] || !g.free[l][nyu * w + x]) {
            continue;
        }
        let mut cost = step;
        match pdir {
            Some((px, py)) => {
                if px != dx || py != dy {
                    cost += 6;
                }
            },
            None => {},
        }
        proof { assert(0 <= g.penalty@[l as int]@[rem_n as int] <= 1000); }
        cost += g.penalty[l][rem_n];
        match gi.checked_add(cost) {
            None => {},
            Some(ng) => {
                let hn = estimate(bbox, nxu, nyu);
                let f2 = match ng.checked_add(hn) {
                    Some(v) => v,
                    None => i64::MAX,
                };
                let ghost qq = queue.items();
                proof {
                    assert(step_ok(*g, cell, to));
                    let ni = cell_index(*g, to);
                    if ng < bp[ni] {
                        lemma_lower_settled(*g, goal, bbox, bp, qq, Some(cell), exp, to, ng, f2);
                        lemma_relax_costs(bp, m, i as int, ni, ng);
                    }
                }
                relax(g, Ghost(st), best, has_par, par, queue, cell, to, ng, f2);
                proof {
                    assert(move_offer(*g, cell, gi, bbox, pdir, kk) matches Some(o) && o.0 == to);
                }
            },
        }
        proof {
            assert forall|j: int| 0 <= j < k implies (#[trigger] move_offer(*g, cell, gi, bbox, pdir, j) matches Some(o)
                ==> best@[cell_index(*g, o.0)] < i64::MAX) by {
                if j < kk {
                    match move_offer(*g, cell, gi, bbox, pdir, j) {
                        Some(o) => { lemma_cell_index(*g, o.0); },
                        None => {},
                    }
                }
            }
        }
    }
    proof {
        assert forall|nb: Cell| #[trigger] step_ok(*g, cell, nb) && nb.0 == cell.0
            implies best@[cell_index(*g, nb)] < i64::MAX by {
            let kk = lemma_move_for(*g, cell, nb, gi, bbox, pdir);
        }
    }
}

/// Relaxes the vias from `cell` to the same cell of the other layers, when
/// a via fits there; `hc` is the estimate from `cell`. Every cell a via
/// from `cell` may go to ends up with a cost.
#[verifier::rlimit(40)]
fn expand_vias(
    g: &RouteGrid, Ghost(st): Ghost<Seq<Cell>>, Ghost(goal): Ghost<Seq<bool>>, Ghost(m): Ghost<int>, Ghost(exp): Ghost<Set<int>>,
    best: &mut Vec<i64>, has_par: &mut Vec<bool>, par: &mut Vec<Cell>, queue: &mut Frontier,
    cell: Cell, i: usize, gi: i64, hc: i64, via_cost: i64, bbox: (usize, usize, usize, usize),
)
    requires
        grid_ok(*g), in_grid(*g, cell), i == cell_index(*g, cell), gi == old(best)@[i as int], gi < i64::MAX,
        via_cost >= 1, hc == estimate_of(bbox, cell.1 as int, cell.2 as int), 0 <= hc <= 0x10_0000_0000,
        tables_ok(*g, old(best)@, old(has_par)@, old(par)@),
        links_ok(*g, st, old(best)@, old(has_par)@, old(par)@),
        old(queue).wf() && queue_ok(*g, old(best)@, old(queue).items()),
        m >= via_cost, m >= 0, m * (g.free@.len() * (g.w * g.h)) + 0x10_0000_0000 <= i64::MAX,
        costs_bounded(old(best)@, m),
        settled_but(*g, goal, bbox, old(best)@, old(queue).items(), Some(cell), exp),
    ensures
        tables_ok(*g, final(best)@, final(has_par)@, final(par)@),
        links_ok(*g, st, final(best)@, final(has_par)@, final(par)@),
        final(queue).wf() && queue_ok(*g, final(best)@, final(queue).items()),
        2 * total(final(best)@) + final(queue).items().len() <= 2 * total(old(best)@) + old(queue).items().len(),
        (final(best)@, final(has_par)@, final(par)@, final(queue).items())
            == vias_done(*g, (old(best)@, old(has_par)@, old(par)@, old(queue).items()), cell, gi, hc, via_cost,
                g.free@.len() as int),
        costs_bounded(final(best)@, m),
        settled_but(*g, goal, bbox, final(best)@, final(queue).items(), Some(cell), exp),
        forall|j: int| 0 <= j < old(best)@.len() ==> #[trigger] final(best)@[j] <= old(best)@[j],
        forall|nb: Cell| #[trigger] step_ok(*g, cell, nb) && nb.0 != cell.0 ==> final(best)@[cell_index(*g, nb)] < i64::MAX,
{
    let (l, x, y) = cell;
    let nl = g.free.len();
    let ghost s0: SearchState = (best@, has_par@, par@, queue.items());
    let ghost b0 = best@;
    let ghost n: int = g.free@.len() * (g.w * g.h);
    proof { lemma_cell_index(*g, cell); lemma_cost_room(best@, m, i as int); }
    let rem = y * g.w + x;
    if nl > 1 && g.via_ok[rem] {
        let ghost m0 = 2 * total(best@) + queue.items().len();
        let mut l2: usize = 0;
        while l2 < nl
            invariant
                l2 <= nl,
                (best@, has_par@, par@, queue.items()) == vias_done(*g, s0, cell, gi, hc, via_cost, l2 as int),
                grid_ok(*g), nl == g.free@.len(), via_cost >= 1, rem == y * g.w + x, (rem as int) < g.w * g.h,
                g.via_ok@[rem as int],
                in_grid(*g, cell), cell == (l, x, y), i == cell_index(*g, cell),
                (i as int) < g.free@.len() * (g.w * g.h), gi == best@[i as int], gi >= 0, hc >= 0,
                hc == estimate_of(bbox, cell.1 as int, cell.2 as int), hc <= 0x10_0000_0000,
                tables_ok(*g, best@, has_par@, par@),
                links_ok(*g, st, best@, has_par@, par@),
                queue.wf(), queue_ok(*g, best@, queue.items()),
                2 * total(best@) + queue.items().len() <= m0,
                n == g.free@.len() * (g.w * g.h), b0.len() == n,
                m >= via_cost, m * n + 0x10_0000_0000 <= i64::MAX, gi + m <= m * n,
                costs_bounded(best@, m),
                settled_but(*g, goal, bbox, best@, queue.items(), Some(cell), exp),
                forall|j: int| 0 <= j < n ==> #[trigger] best@[j] <= b0[j],
                forall|j: int| 0 <= j < l2 ==> (#[trigger] via_offer(*g, cell, gi, hc, via_cost, j) matches Some(o)
                    ==> best@[cell_index(*g, o.0)] < i64::MAX),
            decreases nl - l2,
        {
            let ghost bp = best@;
            proof { assert(g.free@[l2 as int]@.len() == g.w * g.h); }
            if l2 != l && g.free[l2][rem] {
                match gi.checked_add(via_cost) {
                    None => {},
                    Some(ng) => {
                        let f2 = match ng.checked_add(hc) {
                            Some(v) => v,
                            None => i64::MAX,
                        };
                        let to: Cell = (l2, x, y);
                        let ghost qq = queue.items();
                        proof {
                            assert(step_ok(*g, cell, to));
                            lemma_cell_index(*g, to);
                            let ni = cell_index(*g, to);
                            if ng < bp[ni] {
                                lemma_lower_settled(*g, goal, bbox, bp, qq, Some(cell), exp, to, ng, f2);
                                lemma_relax_costs(bp, m, i as int, ni, ng);
                            }
                        }
                        relax(g, Ghost(st), best, has_par, par, queue, cell, to, ng, f2);
                    },
                }
            }
            proof {
                assert forall|j: int| 0 <= j < l2 + 1 implies (#[trigger] via_offer(*g, cell, gi, hc, via_cost, j) matches Some(o)
                    ==> best@[cell_index(*g, o.0)] < i64::MAX) by {
                    if j < l2 {
                        match via_offer(*g, cell, gi, hc, via_cost, j) {
                            Some(o) => { lemma_cell_index(*g, o.0); },
                            None => {},
                        }
                    }
                }
            }
            l2 += 1;
        }
        proof {
            assert forall|nb: Cell| #[trigger] step_ok(*g, cell, nb) && nb.0 != cell.0
                implies best@[cell_index(*g, nb)] < i64::MAX by {
                assert(via_offer(*g, cell, gi, hc, via_cost, nb.0 as int) matches Some(o) && o.0 == nb);
            }
        }
    } else {
        proof { lemma_no_vias(*g, s0, cell, gi, hc, via_cost, nl as int); }
    }
}

/// Takes the first entry out of the queue.
fn pop_first(g: &RouteGrid, best: &Vec<i64>, queue: &mut Frontier) -> (e: Entry)
    requires grid_ok(*g), old(queue).wf(), old(queue).items().len() > 0, queue_ok(*g, best@, old(queue).items()),
        best@.len() == g.free@.len() * (g.w * g.h),
    ensures
        final(queue).wf(), queue_ok(*g, best@, final(queue).items()),
        final(queue).items().len() == old(queue).items().len() - 1,
        old(queue).items() == final(queue).items().insert(e),
        in_grid(*g, e.2), e.1 == cell_index(*g, e.2), best@[e.1 as int] < i64::MAX, e.0 >= 0,
        (e.1 as int) < best@.len(),
{
    let ghost q0 = queue.items();
    let e = queue.pop();
    proof {
        broadcast use vstd::multiset::group_multiset_axioms;
        broadcast use vstd::multiset::group_multiset_properties;
        assert(q0.contains(e));
        assert forall|x: Entry| #[trigger] queue.items().contains(x) implies ({
            &&& in_grid(*g, x.2)
            &&& x.1 == cell_index(*g, x.2)
            &&& best@[x.1 as int] < i64::MAX
            &&& x.0 >= 0
        }) by {
            assert(q0.contains(x));
        }
        lemma_cell_index(*g, e.2);
    }
    e
}

/// Taking entry `e` (for `cell`) out of the queue leaves every reached
/// cell but `cell` expanded or waiting; and `cell` too where the entry was
/// stale.
proof fn lemma_pop_settled(g: RouteGrid, goal: Seq<bool>, bbox: (usize, usize, usize, usize),
    b: Seq<i64>, q: Multiset<Entry>, q2: Multiset<Entry>, e: Entry, cell: Cell, exp: Set<int>)
    requires
        grid_ok(g), in_grid(g, cell), b.len() == g.free@.len() * (g.w * g.h),
        settled_but(g, goal, bbox, b, q, None, exp), q == q2.insert(e), e.1 == cell_index(g, cell),
    ensures
        settled_but(g, goal, bbox, b, q2, Some(cell), exp),
        e.0 - b[e.1 as int] > estimate_of(bbox, cell.1 as int, cell.2 as int) ==> settled_but(g, goal, bbox, b, q2, None, exp),
{
    broadcast use vstd::multiset::group_multiset_axioms;
    let stale = e.0 - b[e.1 as int] > estimate_of(bbox, cell.1 as int, cell.2 as int);
    assert forall|c: Cell| #![trigger cell_index(g, c)] in_grid(g, c) && (Some(cell) != Some(c) || stale)
        && b[cell_index(g, c)] < i64::MAX implies (closed(g, goal, b, c) && exp.contains(cell_index(g, c)))
        || pending(g, bbox, b, q2, c) by {
        if !(closed(g, goal, b, c) && exp.contains(cell_index(g, c))) {
            let w = choose|w: Entry| #[trigger] q.contains(w) && w.1 == cell_index(g, c)
                && w.0 - b[cell_index(g, c)] <= estimate_of(bbox, c.1 as int, c.2 as int);
            if w == e {
                lemma_cell_index_injective(g, c, cell);
            }
            assert(q2.contains(w));
            assert(pending(g, bbox, b, q2, c));
        }
    }
}

/// Once `cell` is expanded, every reached cell is expanded or waiting.
proof fn lemma_close(g: RouteGrid, goal: Seq<bool>, bbox: (usize, usize, usize, usize),
    b: Seq<i64>, q: Multiset<Entry>, cell: Cell, exp: Set<int>)
    requires settled_but(g, goal, bbox, b, q, Some(cell), exp), closed(g, goal, b, cell),
    ensures settled_but(g, goal, bbox, b, q, None, exp.insert(cell_index(g, cell))),
{
    let e2 = exp.insert(cell_index(g, cell));
    assert forall|c: Cell| #![trigger cell_index(g, c)] in_grid(g, c) && None::<Cell> != Some(c)
        && b[cell_index(g, c)] < i64::MAX implies (closed(g, goal, b, c) && e2.contains(cell_index(g, c)))
        || pending(g, bbox, b, q, c) by {
        if c != cell {
            assert(Some(cell) != Some(c));
        }
    }
}

/// Along a path from a reached cell, where every reached cell is expanded,
/// every cell is reached.
proof fn lemma_path_reached(g: RouteGrid, goal: Seq<bool>, b: Seq<i64>, p: Seq<Cell>, k: int)
    requires
        0 <= k < p.len(),
        b[cell_index(g, p[0])] < i64::MAX,
        forall|j: int| 0 <= j < p.len() ==> #[trigger] in_grid(g, p[j]),
        forall|j: int| 0 <= j < p.len() - 1 ==> #[trigger] step_ok(g, p[j], p[j + 1]),
        forall|c: Cell| #![trigger cell_index(g, c)] in_grid(g, c) && b[cell_index(g, c)] < i64::MAX ==> closed(g, goal, b, c),
    ensures b[cell_index(g, p[k])] < i64::MAX,
    decreases k,
{
    if k > 0 {
        lemma_path_reached(g, goal, b, p, k - 1);
        assert(in_grid(g, p[k - 1]));
        assert(closed(g, goal, b, p[k - 1]));
        assert(step_ok(g, p[k - 1], p[(k - 1) + 1]));
    }
}

/// With the queue empty, every start reached and every reached cell
/// expanded or waiting, no route exists, and every cell a walk from a start
/// reaches has been expanded.
proof fn lemma_no_route(g: RouteGrid, goal: Seq<bool>, bbox: (usize, usize, usize, usize),
    b: Seq<i64>, q: Multiset<Entry>, starts: Seq<Cell>, exp: Set<int>)
    requires
        q.len() == 0,
        settled_but(g, goal, bbox, b, q, None, exp),
        forall|k: int| 0 <= k < starts.len() ==> #[trigger] b[cell_index(g, starts[k])] < i64::MAX,
    ensures
        !exists|p: Seq<Cell>| #[trigger] route_ok(g, starts, goal, p),
        forall|p: Seq<Cell>| #[trigger] walk_ok(g, starts, p) ==> exp.contains(cell_index(g, p.last())),
{
    broadcast use vstd::multiset::group_multiset_axioms;
    broadcast use vstd::multiset::lemma_multiset_empty_len;
    assert forall|c: Cell| #![trigger cell_index(g, c)] in_grid(g, c) && b[cell_index(g, c)] < i64::MAX
        implies closed(g, goal, b, c) && exp.contains(cell_index(g, c)) by {
        assert(None::<Cell> != Some(c));
        if pending(g, bbox, b, q, c) {
            let w = choose|w: Entry| #[trigger] q.contains(w) && w.1 == cell_index(g, c)
                && w.0 - b[cell_index(g, c)] <= estimate_of(bbox, c.1 as int, c.2 as int);
            assert(q =~= Multiset::empty());
        }
    }
    if exists|p: Seq<Cell>| #[trigger] route_ok(g, starts, goal, p) {
        let p = choose|p: Seq<Cell>| #[trigger] route_ok(g, starts, goal, p);
        let k0 = choose|k: int| 0 <= k < starts.len() && starts[k] == p[0];
        assert(b[cell_index(g, starts[k0])] < i64::MAX);
        lemma_path_reached(g, goal, b, p, p.len() - 1);
        assert(in_grid(g, p[p.len() - 1]));
        assert(closed(g, goal, b, p.last()));
    }
    assert forall|p: Seq<Cell>| #[trigger] walk_ok(g, starts, p) implies exp.contains(cell_index(g, p.last())) by {
        let k0 = choose|k: int| 0 <= k < starts.len() && starts[k] == p[0];
        assert(b[cell_index(g, starts[k0])] < i64::MAX);
        lemma_path_reached(g, goal, b, p, p.len() - 1);
        assert(in_grid(g, p[p.len() - 1]));
    }
}

/// The nearest cell expanded so far: `closest` holds an expanded cell and
/// its estimate, no expanded cell has a smaller one, and there is none
/// only while nothing has been expanded.
#[verifier::opaque]
pub open spec fn closest_ok(g: RouteGrid, bbox: (usize, usize, usize, usize), exp: Set<int>, closest: Option<(Cell, i64)>) -> bool {
    match closest {
        Some((c, hh)) => {
            &&& hh == estimate_of(bbox, c.1 as int, c.2 as int)
            &&& exp.contains(cell_index(g, c))
            &&& forall|c2: Cell| #![trigger cell_index(g, c2)] in_grid(g, c2) && exp.contains(cell_index(g, c2))
                ==> estimate_of(bbox, c2.1 as int, c2.2 as int) >= hh
        },
        None => exp == Set::<int>::empty(),
    }
}

/// Expanding `cell` (estimate `hc`) and keeping it when nearer keeps the
/// nearest expanded cell.
proof fn lemma_closest_step(g: RouteGrid, bbox: (usize, usize, usize, usize), exp: Set<int>,
    before: Option<(Cell, i64)>, cell: Cell, hc: i64, after: Option<(Cell, i64)>)
    requires
        g.w > 0, g.h > 0, in_grid(g, cell),
        closest_ok(g, bbox, exp, before),
        hc == estimate_of(bbox, cell.1 as int, cell.2 as int),
        after == (match before {
            None => Some((cell, hc)),
            Some((c, bh)) => if hc < bh { Some((cell, hc)) } else { before },
        }),
    ensures closest_ok(g, bbox, exp.insert(cell_index(g, cell)), after),
{
    reveal(closest_ok);
    let e2 = exp.insert(cell_index(g, cell));
    let hh = (after->0).1;
    assert forall|c2: Cell| #![trigger cell_index(g, c2)] in_grid(g, c2) && e2.contains(cell_index(g, c2))
        implies estimate_of(bbox, c2.1 as int, c2.2 as int) >= hh by {
        if cell_index(g, c2) == cell_index(g, cell) {
            lemma_cell_index_injective(g, c2, cell);
        } else {
            assert(exp.contains(cell_index(g, c2)));
        }
    }
}

/// Multi-source A* from the `starts` to any cell marked in `goal`, the
/// estimate aiming at the box `bbox` (columns `bbox.0..=bbox.2`, rows
/// `bbox.1..=bbox.3`); `via_cost` is the cost of a layer change. A route it
/// returns begins at a start, ends at a goal cell and makes only allowed
/// moves. It misses only where no route exists, and a miss names a cell of
/// the grid (the one it got closest to, or the first start). Costs are
/// 64-bit: the grid must be small enough that a route through every cell,
/// each move costing at most `via_cost + 1020`, still fits.
#[verifier::rlimit(40)]
pub fn route_search(g: &RouteGrid, via_cost: i64, starts: &Vec<Cell>, goal: &Vec<bool>, bbox: (usize, usize, usize, usize))
    -> (r: Result<Vec<Cell>, Miss>)
    requires
        grid_ok(*g), via_cost >= 1,
        (via_cost + 1020) * (g.free@.len() * (g.w * g.h)) + 0x10_0000_0000 <= i64::MAX,
        goal@.len() == g.free@.len() * (g.w * g.h),
        forall|k: int| 0 <= k < starts@.len() ==> #[trigger] in_grid(*g, starts@[k]),
        bbox.0 < g.w, bbox.2 < g.w, bbox.1 < g.h, bbox.3 < g.h,
    ensures
        r matches Ok(path) ==> route_ok(*g, starts@, goal@, path@),
        r matches Err(m) ==> in_grid(*g, (m.layer, m.x, m.y)),
        r is Err ==> !exists|p: Seq<Cell>| #[trigger] route_ok(*g, starts@, goal@, p),
        starts@.len() > 0 ==> (r matches Err(m) ==> {
            &&& m.h == estimate_of(bbox, m.x as int, m.y as int)
            &&& forall|p: Seq<Cell>| #[trigger] walk_ok(*g, starts@, p)
                ==> estimate_of(bbox, p.last().1 as int, p.last().2 as int) >= m.h
        }),
{
    let w = g.w;
    let h = g.h;
    let nl = g.free.len();
    proof {
        assert(g.w * g.h * g.free@.len() == g.free@.len() * (g.w * g.h)) by (nonlinear_arith);
        assert(g.w * g.h <= g.free@.len() * (g.w * g.h)) by (nonlinear_arith) requires g.free@.len() >= 1, g.w * g.h >= 0;
    }
    let per = w * h;
    let n = nl * per;
    let ghost m: int = via_cost + 1020;
    let mut best: Vec<i64> = vec![i64::MAX; n];
    let mut has_par: Vec<bool> = vec![false; n];
    let mut par: Vec<Cell> = vec![(0, 0, 0); n];
    let mut queue = Frontier::new();
    let ghost st = starts@;
    let ghost mut exp: Set<int> = Set::empty();
    proof {
        assert forall|c: Cell| #![trigger cell_index(*g, c)] in_grid(*g, c) && best@[cell_index(*g, c)] < i64::MAX
            && !has_par@[cell_index(*g, c)] implies st.contains(c) by {
            lemma_cell_index(*g, c);
        }
        assert forall|c: Cell| #![trigger cell_index(*g, c)] in_grid(*g, c) && has_par@[cell_index(*g, c)] implies ({
            let p = par@[cell_index(*g, c)];
            &&& step_ok(*g, p, c)
            &&& best@[cell_index(*g, p)] < best@[cell_index(*g, c)] < i64::MAX
        }) by {
            lemma_cell_index(*g, c);
        }
        assert forall|c: Cell| #![trigger cell_index(*g, c)] in_grid(*g, c) && None::<Cell> != Some(c)
            && best@[cell_index(*g, c)] < i64::MAX implies (closed(*g, goal@, best@, c) && exp.contains(cell_index(*g, c)))
            || pending(*g, bbox, best@, queue.items(), c) by {
            lemma_cell_index(*g, c);
        }
    }
    let mut k: usize = 0;
    while k < starts.len()
        invariant
            grid_ok(*g), st == starts@, k <= st.len(), n == g.free@.len() * (g.w * g.h),
            forall|k: int| 0 <= k < st.len() ==> #[trigger] in_grid(*g, st[k]),
            tables_ok(*g, best@, has_par@, par@),
            forall|i: int| 0 <= i < n ==> !#[trigger] has_par@[i],
            links_ok(*g, st, best@, has_par@, par@),
            queue.wf(), queue_ok(*g, best@, queue.items()),
            bbox.0 < g.w, bbox.2 < g.w, bbox.1 < g.h, bbox.3 < g.h,
            m == via_cost + 1020, via_cost >= 1, m * n + 0x10_0000_0000 <= i64::MAX,
            costs_bounded(best@, m),
            settled_but(*g, goal@, bbox, best@, queue.items(), None, exp), exp == Set::<int>::empty(),
            forall|j: int| 0 <= j < k ==> #[trigger] best@[cell_index(*g, st[j])] < i64::MAX,
        decreases st.len() - k,
    {
        let s = starts[k];
        proof { assert(in_grid(*g, st[k as int])); }
        let i = index_of(g, s);
        let e = estimate(bbox, s.1, s.2);
        let ghost b0 = best@;
        let ghost q0 = queue.items();
        proof {
            lemma_lower_settled(*g, goal@, bbox, b0, q0, None, exp, s, 0, e);
            let rc = reached_count(b0) as int;
            assert(0 + m <= m * (rc + 1)) by (nonlinear_arith) requires m >= 0, rc >= 0;
            lemma_lower_costs(b0, m, i as int, 0);
        }
        best.set(i, 0);
        queue.push((e, i, s));
        proof {
            broadcast use vstd::multiset::group_multiset_axioms;
            broadcast use vstd::multiset::group_multiset_properties;
            assert(st.contains(s)) by { assert(st[k as int] == s); }
            assert forall|c: Cell| #![trigger cell_index(*g, c)] in_grid(*g, c) && best@[cell_index(*g, c)] < i64::MAX
                && !has_par@[cell_index(*g, c)] implies st.contains(c) by {
                if cell_index(*g, c) == i as int { lemma_cell_index_injective(*g, c, s); } else { lemma_cell_index(*g, c); }
            }
            assert forall|c: Cell| #![trigger cell_index(*g, c)] in_grid(*g, c) && has_par@[cell_index(*g, c)] implies ({
                let p = par@[cell_index(*g, c)];
                &&& step_ok(*g, p, c)
                &&& best@[cell_index(*g, p)] < best@[cell_index(*g, c)] < i64::MAX
            }) by {
                lemma_cell_index(*g, c);
            }
            assert forall|x: Entry| #[trigger] queue.items().contains(x) implies ({
                &&& in_grid(*g, x.2)
                &&& x.1 == cell_index(*g, x.2)
                &&& best@[x.1 as int] < i64::MAX
                &&& x.0 >= 0
            }) by {
                if x != (e, i, s) {
                    assert(q0.contains(x));
                    lemma_cell_index(*g, x.2);
                }
            }
            assert forall|j: int| 0 <= j < k + 1 implies #[trigger] best@[cell_index(*g, st[j])] < i64::MAX by {
                lemma_cell_index(*g, st[j]);
            }
        }
        k += 1;
    }
    let mut closest: Option<(Cell, i64)> = None;
    proof { lemma_total_nonneg(best@); reveal(closest_ok); }
    while queue.len() > 0
        invariant
            grid_ok(*g), st == starts@, n == g.free@.len() * (g.w * g.h), w == g.w, h == g.h, nl == g.free@.len(),
            per == g.w * g.h, via_cost >= 1, goal@.len() == n,
            bbox.0 < g.w, bbox.2 < g.w, bbox.1 < g.h, bbox.3 < g.h,
            forall|k: int| 0 <= k < st.len() ==> #[trigger] in_grid(*g, st[k]),
            tables_ok(*g, best@, has_par@, par@),
            links_ok(*g, st, best@, has_par@, par@),
            queue.wf(), queue_ok(*g, best@, queue.items()),
            closest matches Some((c, _)) ==> in_grid(*g, c),
            closest_ok(*g, bbox, exp, closest),
            total(best@) >= 0,
            m == via_cost + 1020, m * n + 0x10_0000_0000 <= i64::MAX,
            costs_bounded(best@, m),
            settled_but(*g, goal@, bbox, best@, queue.items(), None, exp),
            forall|j: int| 0 <= j < st.len() ==> #[trigger] best@[cell_index(*g, st[j])] < i64::MAX,
        decreases 2 * total(best@) + queue.items().len(),
    {
        let ghost q0 = queue.items();
        let (f, i, cell) = pop_first(g, &best, &mut queue);
        proof { lemma_pop_settled(*g, goal@, bbox, best@, q0, queue.items(), (f, i, cell), cell, exp); }
        let gi = best[i];
        let (l, x, y) = cell;
        let hc = estimate(bbox, x, y);
        if f - gi > hc {
            continue;
        }
        if goal[i] {
            let path = trace_back(g, Ghost(st), &best, &has_par, &par, cell);
            return Ok(path);
        }
        let ghost exp0 = exp;
        let ghost cl0 = closest;
        proof {
            lemma_cell_index(*g, cell);
            exp = exp.insert(i as int);
        }
        match closest {
            None => { closest = Some((cell, hc)); },
            Some((_, bh)) => {
                if hc < bh {
                    closest = Some((cell, hc));
                }
            },
        }
        proof { lemma_closest_step(*g, bbox, exp0, cl0, cell, hc, closest); }
        let pdir: Option<(i64, i64)> = if has_par[i] {
            let p = par[i];
            if p.0 == l { Some((x as i64 - p.1 as i64, y as i64 - p.2 as i64)) } else { None }
        } else {
            None
        };
        let ghost b1 = best@;
        expand_moves(g, Ghost(st), Ghost(goal@), Ghost(m), Ghost(exp0), &mut best, &mut has_par, &mut par, &mut queue, cell, i, gi, bbox, pdir);
        let ghost b2 = best@;
        expand_vias(g, Ghost(st), Ghost(goal@), Ghost(m), Ghost(exp0), &mut best, &mut has_par, &mut par, &mut queue, cell, i, gi, hc, via_cost, bbox);
        proof {
            lemma_total_nonneg(best@);
            assert forall|nb: Cell| #[trigger] step_ok(*g, cell, nb) implies best@[cell_index(*g, nb)] < i64::MAX by {
                lemma_cell_index(*g, nb);
                if nb.0 == cell.0 {
                    assert(b2[cell_index(*g, nb)] < i64::MAX);
                    assert(best@[cell_index(*g, nb)] <= b2[cell_index(*g, nb)]);
                }
            }
            assert(closed(*g, goal@, best@, cell));
            lemma_close(*g, goal@, bbox, best@, queue.items(), cell, exp0);
            assert(exp0.insert(cell_index(*g, cell)) == exp);
            assert forall|j: int| 0 <= j < st.len() implies #[trigger] best@[cell_index(*g, st[j])] < i64::MAX by {
                lemma_cell_index(*g, st[j]);
                assert(best@[cell_index(*g, st[j])] <= b2[cell_index(*g, st[j])]);
                assert(b2[cell_index(*g, st[j])] <= b1[cell_index(*g, st[j])]);
            }
        }
    }
    proof {
        lemma_no_route(*g, goal@, bbox, best@, queue.items(), st, exp);
        reveal(closest_ok);
    }
    let miss = match closest {
        Some((c, hh)) => Miss { layer: c.0, x: c.1, y: c.2, h: hh },
        None => {
            if starts.len() > 0 {
                proof {
                    assert(in_grid(*g, st[0]));
                    assert(walk_ok(*g, st, seq![st[0]]));
                    assert(seq![st[0]].last() == st[0]);
                }
                Miss { layer: starts[0].0, x: starts[0].1, y: starts[0].2, h: 0 }
            } else {
                Miss { layer: 0, x: 0, y: 0, h: 0 }
            }
        },
    };
    Err(miss)
}

} // verus!
