//! Least-cost pathfinding over a weighted grid, and the turn budget that turns
//! a path into a *plan*.
//!
//! [`find`] returns the whole least-cost route plus [`Path::reach`], the number
//! of leading steps that fit this turn's budget; [`reachable`] fills the
//! move-range field a tactics game draws before a move is committed.
//!
//! Costs come from the caller as a function from a cell to the cost of
//! *entering* it, or [`IMPASSABLE`]. The search is Dijkstra's algorithm over
//! that cost field, with ties broken on `(cost, row, column)` so that equal
//! routes are chosen the same way on every run.

use vstd::prelude::*;
use vstd::set_lib::*;

use crate::geom::Cell;

verus! {

/// A cost that means "cannot enter".
pub const IMPASSABLE: u32 = 4294967295u32;

/// A route, plus how far along it the traveller gets on the current turn.
#[derive(Debug, Clone, PartialEq, Eq)]
pub struct Path {
    /// Cells from the start (exclusive) to the goal (inclusive).
    pub steps: Vec<Cell>,
    /// Cumulative cost to enter each corresponding step.
    pub costs: Vec<u32>,
    /// How many leading steps fit the budget given to [`find`].
    pub reach: usize,
}

impl Default for Path {
    fn default() -> (p: Self)
        ensures
            p.steps@.len() == 0,
            p.costs@.len() == 0,
            p.reach == 0,
    {
        Path { steps: Vec::new(), costs: Vec::new(), reach: 0 }
    }
}

impl Path {
    /// The total cost of the whole route: the last cumulative cost, or 0 for
    /// an empty path.
    pub fn total_cost(&self) -> (t: u32)
        ensures
            t == (if self.costs@.len() == 0 { 0u32 } else { self.costs@.last() }),
    {
        let n = self.costs.len();
        if n == 0 {
            0
        } else {
            self.costs[n - 1]
        }
    }

    /// Whether the goal is reachable within the budget.
    pub fn complete(&self) -> (b: bool)
        ensures
            b == (self.reach == self.steps@.len() && self.steps@.len() != 0),
    {
        self.reach == self.steps.len() && self.steps.len() != 0
    }

    /// The last cell reachable this turn, if any.
    pub fn stop(&self) -> (s: Option<Cell>)
        ensures
            s == (if 1 <= self.reach <= self.steps@.len() {
                Some(self.steps@[self.reach - 1])
            } else {
                None::<Cell>
            }),
    {
        if self.reach == 0 || self.reach > self.steps.len() {
            None
        } else {
            Some(self.steps[self.reach - 1])
        }
    }
}

/// Whether a search may move diagonally, and what that costs.
#[derive(Clone, Copy, PartialEq, Eq, Debug, Structural)]
pub enum Diagonals {
    /// Cardinal moves only.
    Never,
    /// Diagonals allowed at the same cost as a cardinal step.
    Free,
    /// Diagonals allowed at 1.41x the entry cost, rounded down.
    Costly,
}

impl Default for Diagonals {
    fn default() -> (d: Self)
        ensures
            d == Diagonals::Never,
    {
        Diagonals::Never
    }
}

/// The cost of a diagonal move into a cell whose entry cost is `cost`.
pub open spec fn spec_scale(diagonals: Diagonals, cost: u32) -> u32 {
    match diagonals {
        Diagonals::Never => IMPASSABLE,
        Diagonals::Free => cost,
        Diagonals::Costly => ((cost * 141) / 100) as u32,
    }
}

impl Diagonals {
    /// Scales a step cost for a diagonal move: impassable when diagonals are
    /// not allowed, unchanged when free, and `cost * 141 / 100` when costly.
    pub fn scale(self, cost: u32) -> (s: u32)
        requires
            self == Diagonals::Costly ==> cost * 141 <= u32::MAX,
        ensures
            s == spec_scale(self, cost),
    {
        match self {
            Diagonals::Never => IMPASSABLE,
            Diagonals::Free => cost,
            Diagonals::Costly => (cost * 141) / 100,
        }
    }
}

// ── The grid model ──────────────────────────────────────────────────────────

/// Whether `c` lies inside a `width` x `height` grid.
pub open spec fn in_grid(c: Cell, width: int, height: int) -> bool {
    0 <= c.x < width && 0 <= c.y < height
}

/// Row-major index of a cell.
pub open spec fn grid_index(c: Cell, width: int) -> int {
    c.y * width + c.x
}

/// The cell at row-major index `i`.
pub open spec fn grid_cell(i: int, width: int) -> Cell {
    Cell { x: (i % width) as i32, y: (i / width) as i32 }
}

/// What the caller's cost function answers for `c`. Only meaningful for a
/// [`deterministic`] cost function, for which it is the one possible answer.
pub open spec fn cost_of<F: Fn(Cell) -> u32>(cost: F, c: Cell) -> u32 {
    choose|v: u32| call_ensures(cost, (c,), v)
}

/// A cost function that answers the same for the same cell.
pub open spec fn deterministic<F: Fn(Cell) -> u32>(cost: F) -> bool {
    forall|c: Cell, v1: u32, v2: u32|
        call_ensures(cost, (c,), v1) && call_ensures(cost, (c,), v2) ==> v1 == v2
}

/// Whether the cost function may be called on every cell of the
/// `width` x `height` grid (the search asks about no other cell), answers
/// the same for the same cell, and never answers, for a cell of the grid, a
/// cost whose diagonal scaling would overflow.
pub open spec fn cost_usable<F: Fn(Cell) -> u32>(cost: F, diagonals: Diagonals, width: int, height: int) -> bool {
    &&& forall|c: Cell| in_grid(c, width, height) ==> call_requires(cost, (c,))
    &&& deterministic(cost)
    &&& diagonals == Diagonals::Costly ==> forall|c: Cell, v: u32|
        in_grid(c, width, height) && call_ensures(cost, (c,), v) && v != IMPASSABLE ==> v * 141 <= u32::MAX
}

/// The entry costs a cost function answers, as a spec function.
pub open spec fn entry_costs<F: Fn(Cell) -> u32>(cost: F) -> spec_fn(Cell) -> u32 {
    |c: Cell| cost_of(cost, c)
}

/// Whether every answer of `cost` is what `sc` says for that cell.
pub open spec fn agrees<F: Fn(Cell) -> u32>(cost: F, sc: spec_fn(Cell) -> u32) -> bool {
    forall|c: Cell, v: u32| call_ensures(cost, (c,), v) ==> v == sc(c)
}

pub open spec fn is_cardinal_step(a: Cell, b: Cell) -> bool {
    ||| b.x == a.x && (b.y == a.y + 1 || b.y == a.y - 1)
    ||| b.y == a.y && (b.x == a.x + 1 || b.x == a.x - 1)
}

pub open spec fn is_diagonal_step(a: Cell, b: Cell) -> bool {
    &&& (b.x == a.x + 1 || b.x == a.x - 1)
    &&& (b.y == a.y + 1 || b.y == a.y - 1)
}

/// The cost of moving from `a` into its neighbour `b`.
pub open spec fn move_cost(
    cost: spec_fn(Cell) -> u32,
    diagonals: Diagonals,
    a: Cell,
    b: Cell,
) -> u32 {
    if is_diagonal_step(a, b) {
        spec_scale(diagonals, cost(b))
    } else {
        cost(b)
    }
}

/// Whether a single step from `a` to `b` is allowed: `b` is on the grid, is a
/// cardinal neighbour (or a diagonal one when diagonals are allowed), and
/// neither its entry cost nor the scaled move cost is [`IMPASSABLE`].
pub open spec fn legal_move(
    cost: spec_fn(Cell) -> u32,
    diagonals: Diagonals,
    width: int,
    height: int,
    a: Cell,
    b: Cell,
) -> bool {
    &&& in_grid(b, width, height)
    &&& (is_cardinal_step(a, b) || (diagonals != Diagonals::Never && is_diagonal_step(a, b)))
    &&& cost(b) != IMPASSABLE
    &&& move_cost(cost, diagonals, a, b) != IMPASSABLE
}

/// A non-empty sequence of on-grid cells, each a legal move from the last.
pub open spec fn legal_walk(
    cost: spec_fn(Cell) -> u32,
    diagonals: Diagonals,
    width: int,
    height: int,
    walk: Seq<Cell>,
) -> bool
    decreases walk.len(),
{
    if walk.len() == 0 {
        false
    } else if walk.len() == 1 {
        in_grid(walk[0], width, height)
    } else {
        &&& legal_walk(cost, diagonals, width, height, walk.drop_last())
        &&& legal_move(
            cost,
            diagonals,
            width,
            height,
            walk[walk.len() - 2],
            walk[walk.len() - 1],
        )
    }
}

/// The exact (unsaturated) total cost of a walk.
pub open spec fn walk_cost(
    cost: spec_fn(Cell) -> u32,
    diagonals: Diagonals,
    walk: Seq<Cell>,
) -> int
    decreases walk.len(),
{
    if walk.len() <= 1 {
        0
    } else {
        walk_cost(cost, diagonals, walk.drop_last()) + move_cost(
            cost,
            diagonals,
            walk[walk.len() - 2],
            walk[walk.len() - 1],
        ) as int
    }
}

/// A legal walk from `from` to `to`.
pub open spec fn walk_between(
    cost: spec_fn(Cell) -> u32,
    diagonals: Diagonals,
    width: int,
    height: int,
    walk: Seq<Cell>,
    from: Cell,
    to: Cell,
) -> bool {
    &&& legal_walk(cost, diagonals, width, height, walk)
    &&& walk[0] == from
    &&& walk.last() == to
}

proof fn lemma_grid_index(c: Cell, width: int, height: int)
    requires
        in_grid(c, width, height),
    ensures
        0 <= grid_index(c, width) < width * height,
        grid_cell(grid_index(c, width), width) == c,
{
    let i = grid_index(c, width);
    assert(0 <= c.y * width) by (nonlinear_arith)
        requires
            0 <= c.y,
            0 < width,
    ;
    assert(c.y * width + c.x < width * height) by (nonlinear_arith)
        requires
            0 <= c.x < width,
            0 <= c.y < height,
    ;
    vstd::arithmetic::div_mod::lemma_fundamental_div_mod_converse(i, width, c.y as int, c.x as int);
}

proof fn lemma_grid_cell(i: int, width: int, height: int)
    requires
        0 <= i < width * height,
        0 < width <= i32::MAX,
        height <= i32::MAX,
    ensures
        in_grid(grid_cell(i, width), width, height),
        grid_index(grid_cell(i, width), width) == i,
{
    vstd::arithmetic::div_mod::lemma_fundamental_div_mod(i, width);
    assert(0 <= i % width < width) by {
        vstd::arithmetic::div_mod::lemma_mod_bound(i, width);
    }
    assert(0 <= i / width < height) by {
        vstd::arithmetic::div_mod::lemma_div_pos_is_pos(i, width);
        assert(i / width < height) by (nonlinear_arith)
            requires
                0 <= i < width * height,
                0 < width,
                i == width * (i / width) + (i % width),
                0 <= i % width,
        ;
    }
    assert(grid_cell(i, width).x == i % width);
    assert(grid_cell(i, width).y == i / width);
    assert((i / width) * width == width * (i / width)) by (nonlinear_arith);
}

proof fn lemma_walk_push(
    cost: spec_fn(Cell) -> u32,
    diagonals: Diagonals,
    width: int,
    height: int,
    walk: Seq<Cell>,
    next: Cell,
)
    requires
        legal_walk(cost, diagonals, width, height, walk),
        legal_move(cost, diagonals, width, height, walk.last(), next),
    ensures
        legal_walk(cost, diagonals, width, height, walk.push(next)),
        walk_cost(cost, diagonals, walk.push(next)) == walk_cost(cost, diagonals, walk)
            + move_cost(cost, diagonals, walk.last(), next) as int,
        walk.push(next)[0] == walk[0],
        walk.push(next).last() == next,
{
    let w2 = walk.push(next);
    assert(w2.drop_last() =~= walk);
}

proof fn lemma_walk_cost_nonneg(
    cost: spec_fn(Cell) -> u32,
    diagonals: Diagonals,
    walk: Seq<Cell>,
)
    ensures
        walk_cost(cost, diagonals, walk) >= 0,
    decreases walk.len(),
{
    if walk.len() > 1 {
        lemma_walk_cost_nonneg(cost, diagonals, walk.drop_last());
    }
}


// ── The search ──────────────────────────────────────────────────────────────

/// The eight neighbour offsets: the four cardinals clockwise from north, then
/// the four diagonals in the same rotational order.
pub open spec fn dir_dx(d: int) -> int {
    if d == 0 || d == 2 { 0 } else if d == 1 || d == 4 || d == 5 { 1 } else { -1 }
}

pub open spec fn dir_dy(d: int) -> int {
    if d == 1 || d == 3 { 0 } else if d == 2 || d == 5 || d == 6 { 1 } else { -1 }
}

fn direction(d: usize) -> (r: (i32, i32))
    requires
        d < 8,
    ensures
        r.0 == dir_dx(d as int),
        r.1 == dir_dy(d as int),
{
    match d {
        0 => (0, -1),
        1 => (1, 0),
        2 => (0, 1),
        3 => (-1, 0),
        4 => (1, -1),
        5 => (1, 1),
        6 => (-1, 1),
        _ => (-1, -1),
    }
}

proof fn lemma_direction_kinds(a: Cell, d: int)
    requires
        0 <= d < 8,
    ensures
        ({
            let b = Cell { x: (a.x + dir_dx(d)) as i32, y: (a.y + dir_dy(d)) as i32 };
            i32::MIN <= a.x + dir_dx(d) <= i32::MAX && i32::MIN <= a.y + dir_dy(d) <= i32::MAX
                ==> (d < 4 <==> is_cardinal_step(a, b)) && (d >= 4 <==> is_diagonal_step(a, b))
        }),
{
}

/// Every cardinal or diagonal neighbour is one of the eight offsets.
proof fn lemma_step_has_direction(a: Cell, b: Cell) -> (d: int)
    requires
        is_cardinal_step(a, b) || is_diagonal_step(a, b),
    ensures
        0 <= d < 8,
        b.x == a.x + dir_dx(d),
        b.y == a.y + dir_dy(d),
        d < 4 <==> is_cardinal_step(a, b),
{
    let dx = b.x - a.x;
    let dy = b.y - a.y;
    if dx == 0 && dy == -1 { 0 }
    else if dx == 1 && dy == 0 { 1 }
    else if dx == 0 && dy == 1 { 2 }
    else if dx == -1 && dy == 0 { 3 }
    else if dx == 1 && dy == -1 { 4 }
    else if dx == 1 && dy == 1 { 5 }
    else if dx == -1 && dy == 1 { 6 }
    else { 7 }
}

pub open spec fn sat_add(a: u32, b: u32) -> u32 {
    if a + b > u32::MAX { u32::MAX } else { (a + b) as u32 }
}

/// Every legal move out of settled index `s` has been relaxed: its target's
/// tentative cost is no worse than going through `s`, unless that would cost
/// more than `limit`.
#[verifier::opaque]
spec fn relaxed(
    cost: spec_fn(Cell) -> u32,
    diagonals: Diagonals,
    width: int,
    height: int,
    limit: u32,
    best: Seq<u32>,
    s: int,
) -> bool {
    forall|y: Cell|
        #[trigger] legal_move(cost, diagonals, width, height, grid_cell(s, width), y) ==> {
            let t = sat_add(best[s], move_cost(cost, diagonals, grid_cell(s, width), y));
            best[grid_index(y, width)] <= t || t > limit
        }
}

/// `best[s]` is no more than the cost of any walk to `s` within `limit`.
#[verifier::opaque]
pub open spec fn optimal_at(
    cost: spec_fn(Cell) -> u32,
    diagonals: Diagonals,
    width: int,
    height: int,
    start: Cell,
    limit: u32,
    best: Seq<u32>,
    s: int,
) -> bool {
    forall|walk: Seq<Cell>|
        #[trigger] walk_between(cost, diagonals, width, height, walk, start, grid_cell(s, width))
            && walk_cost(cost, diagonals, walk) <= limit ==> best[s] as int <= walk_cost(
            cost,
            diagonals,
            walk,
        )
}

/// Any walk from the start that ends outside the settled set passes through
/// some unsettled cell whose tentative cost is no more than the walk's.
proof fn lemma_frontier(
    cost: spec_fn(Cell) -> u32,
    diagonals: Diagonals,
    width: int,
    height: int,
    start: Cell,
    limit: u32,
    best: Seq<u32>,
    settled: Set<int>,
    last: u32,
    walk: Seq<Cell>,
) -> (u: int)
    requires
        0 < width,
        width <= i32::MAX,
        height <= i32::MAX,
        best.len() == width * height,
        in_grid(start, width, height),
        best[grid_index(start, width)] == 0,
        legal_walk(cost, diagonals, width, height, walk),
        walk[0] == start,
        !settled.contains(grid_index(walk.last(), width)),
        walk_cost(cost, diagonals, walk) <= limit,
        settled_ok(cost, diagonals, width, height, start, limit, best, settled, last, -1),
    ensures
        0 <= u < width * height,
        !settled.contains(u),
        best[u] as int <= walk_cost(cost, diagonals, walk),
    decreases walk.len(),
{
    reveal(settled_ok);
    reveal(relaxed);
    reveal(optimal_at);
    lemma_walk_cost_nonneg(cost, diagonals, walk);
    if walk.len() == 1 {
        lemma_grid_index(start, width, height);
        grid_index(start, width)
    } else {
        let prefix = walk.drop_last();
        let prev = walk[walk.len() - 2];
        let tip = walk.last();
        assert(prefix.last() == prev);
        assert(legal_walk(cost, diagonals, width, height, prefix));
        lemma_walk_cost_nonneg(cost, diagonals, prefix);
        assert(walk_cost(cost, diagonals, prefix) <= walk_cost(cost, diagonals, walk));
        assert(legal_walk(cost, diagonals, width, height, prefix) ==> in_grid(prefix.last(), width, height)) by {
            lemma_walk_last_in_grid(cost, diagonals, width, height, prefix);
        }
        let pi = grid_index(prev, width);
        lemma_grid_index(prev, width, height);
        if !settled.contains(pi) {
            lemma_frontier(cost, diagonals, width, height, start, limit, best, settled, last, prefix)
        } else {
            assert(walk_between(cost, diagonals, width, height, prefix, start, grid_cell(pi, width)));
            assert(optimal_at(cost, diagonals, width, height, start, limit, best, pi));
            assert(relaxed(cost, diagonals, width, height, limit, best, pi));
            assert(legal_move(cost, diagonals, width, height, grid_cell(pi, width), tip));
            lemma_grid_index(tip, width, height);
            grid_index(tip, width)
        }
    }
}

proof fn lemma_walk_last_in_grid(
    cost: spec_fn(Cell) -> u32,
    diagonals: Diagonals,
    width: int,
    height: int,
    walk: Seq<Cell>,
)
    requires
        legal_walk(cost, diagonals, width, height, walk),
    ensures
        in_grid(walk.last(), width, height),
{
}

/// The key order of frontier entries: cost, then row, then column.
pub open spec fn entry_le(a: (u32, Cell), b: (u32, Cell)) -> bool {
    ||| a.0 < b.0
    ||| a.0 == b.0 && a.1.y < b.1.y
    ||| a.0 == b.0 && a.1.y == b.1.y && a.1.x <= b.1.x
}

/// The frontier entry a search takes next: the least by cost, then row,
/// then column (entries are never equal in all three, so it is unique).
pub open spec fn frontier_min(f: vstd::multiset::Multiset<(u32, Cell)>) -> (u32, Cell) {
    choose|e: (u32, Cell)| f.count(e) > 0 && forall|e2: (u32, Cell)| f.count(e2) > 0 ==> #[trigger] entry_le(e, e2)
}

/// A search's state as its run goes: tentative costs, predecessor links,
/// the frontier's entries, and whether the stop cell was taken off it.
pub type RunState = (Seq<u32>, Seq<Option<Cell>>, vstd::multiset::Multiset<(u32, Cell)>, bool);

/// Relaxing the move from `cell` (reached at cost `spent`) in direction
/// `d`: the neighbour's cost and predecessor are replaced, and a frontier
/// entry added, when the move is allowed and strictly cheapens it within
/// `limit`.
pub open spec fn relax_move(
    sc: spec_fn(Cell) -> u32,
    diagonals: Diagonals,
    w: int,
    h: int,
    limit: u32,
    r: RunState,
    cell: Cell,
    spent: u32,
    d: int,
) -> RunState {
    let next = step_to(cell, d);
    let ni = grid_index(next, w);
    let total = sat_add(spent, move_cost(sc, diagonals, cell, next));
    if (d >= 4 && diagonals == Diagonals::Never) || !in_grid(next, w, h) || sc(next) == IMPASSABLE
        || move_cost(sc, diagonals, cell, next) == IMPASSABLE || !(total <= limit && total < r.0[ni]) {
        r
    } else {
        (r.0.update(ni, total), r.1.update(ni, Some(cell)), r.2.insert((total, next)), r.3)
    }
}

/// Relaxing the moves from `cell` in directions `d..8`, in order: the four
/// cardinals N, E, S, W, then the four diagonals NE, SE, SW, NW.
pub open spec fn expand_moves(
    sc: spec_fn(Cell) -> u32,
    diagonals: Diagonals,
    w: int,
    h: int,
    limit: u32,
    r: RunState,
    cell: Cell,
    spent: u32,
    d: int,
) -> RunState
    decreases 8 - d,
{
    if d >= 8 {
        r
    } else {
        expand_moves(sc, diagonals, w, h, limit, relax_move(sc, diagonals, w, h, limit, r, cell, spent, d), cell,
            spent, d + 1)
    }
}

/// One step of a search: take the least frontier entry off; stop if it is
/// the stop cell, skip it if its cell was since reached more cheaply, and
/// otherwise relax every move out of its cell. A finished run stays as it
/// is.
pub open spec fn run_step(
    sc: spec_fn(Cell) -> u32,
    diagonals: Diagonals,
    w: int,
    h: int,
    limit: u32,
    stop: Option<Cell>,
    r: RunState,
) -> RunState {
    if r.3 || r.2.len() == 0 {
        r
    } else {
        let e = frontier_min(r.2);
        let rest = r.2.remove(e);
        if stop == Some(e.1) {
            (r.0, r.1, rest, true)
        } else if e.0 > r.0[grid_index(e.1, w)] {
            (r.0, r.1, rest, false)
        } else {
            expand_moves(sc, diagonals, w, h, limit, (r.0, r.1, rest, false), e.1, e.0, 0)
        }
    }
}

/// A search's state after `k` steps from `start`: at first only `start` is
/// reached, at cost 0, and it is the frontier's one entry.
pub open spec fn run_after(
    sc: spec_fn(Cell) -> u32,
    diagonals: Diagonals,
    w: int,
    h: int,
    limit: u32,
    start: Cell,
    stop: Option<Cell>,
    k: nat,
) -> RunState
    decreases k,
{
    if k == 0 {
        (
            Seq::new((w * h) as nat, |i: int| if i == grid_index(start, w) { 0u32 } else { IMPASSABLE }),
            Seq::new((w * h) as nat, |i: int| None::<Cell>),
            vstd::multiset::Multiset::empty().insert((0u32, start)),
            false,
        )
    } else {
        run_step(sc, diagonals, w, h, limit, stop, run_after(sc, diagonals, w, h, limit, start, stop, (k - 1) as nat))
    }
}

/// Whether `steps` is the route a search from `start` that stops at `goal`
/// follows back: the run reached `goal`, and each step's predecessor link
/// names the step before it (`start` for the first).
pub open spec fn search_route(
    sc: spec_fn(Cell) -> u32,
    diagonals: Diagonals,
    w: int,
    h: int,
    start: Cell,
    goal: Cell,
    steps: Seq<Cell>,
) -> bool {
    exists|k: nat| {
        let r = #[trigger] run_after(sc, diagonals, w, h, IMPASSABLE, start, Some(goal), k);
        &&& r.3
        &&& forall|i: int| 0 <= i < steps.len() ==> r.1[grid_index(#[trigger] steps[i], w)] == Some(
            if i == 0 { start } else { steps[i - 1] })
    }
}

/// Taking the entry at `m` out by swapping the last one into its place
/// takes exactly that entry out of the frontier's multiset.
proof fn lemma_swap_remove_multiset(s: Seq<(u32, Cell)>, m: int)
    requires
        0 <= m < s.len(),
    ensures
        s.update(m, s.last()).drop_last().to_multiset() == s.to_multiset().remove(s[m]),
{
    broadcast use vstd::seq_lib::group_to_multiset_ensures;
    let n = s.len();
    let u = s.update(m, s.last());
    if m == n - 1 {
        assert(u =~= s);
        assert(u.drop_last() =~= s.remove(n - 1));
    } else {
        assert(u.remove(m) =~= s.remove(m));
        assert(u.drop_last() =~= u.remove(n - 1));
        assert(u.drop_last().to_multiset() =~= u.remove(m).to_multiset());
    }
}

/// Removes and returns a least entry of a non-empty frontier.
fn pop_min(heap: &mut Vec<(u32, Cell)>) -> (e: (u32, Cell))
    requires
        old(heap)@.len() > 0,
    ensures
        e == frontier_min(old(heap)@.to_multiset()),
        final(heap)@.to_multiset() == old(heap)@.to_multiset().remove(e),
        exists|m: int|
            0 <= m < old(heap)@.len() && e == old(heap)@[m] && final(heap)@ == old(heap)@.update(
                m,
                old(heap)@.last(),
            ).drop_last(),
        forall|t: int| 0 <= t < old(heap)@.len() ==> entry_le(e, #[trigger] old(heap)@[t]),
{
    let mut m: usize = 0;
    let mut j: usize = 1;
    while j < heap.len()
        invariant
            heap@ == old(heap)@,
            1 <= j <= heap@.len(),
            m < heap@.len(),
            forall|t: int| 0 <= t < j ==> entry_le(heap@[m as int], #[trigger] heap@[t]),
        decreases heap@.len() - j,
    {
        let a = heap[j];
        let b = heap[m];
        if a.0 < b.0 || (a.0 == b.0 && (a.1.y < b.1.y || (a.1.y == b.1.y && a.1.x < b.1.x))) {
            m = j;
        }
        j += 1;
    }
    let ghost h0 = heap@;
    let e = heap.swap_remove(m);
    proof {
        broadcast use vstd::seq_lib::group_to_multiset_ensures;
        lemma_swap_remove_multiset(h0, m as int);
        assert(heap@ =~= h0.update(m as int, h0.last()).drop_last());
        let ms = h0.to_multiset();
        assert(ms.count(e) > 0);
        assert forall|e2: (u32, Cell)| ms.count(e2) > 0 implies #[trigger] entry_le(e, e2) by {
            assert(h0.contains(e2));
            let t = choose|t: int| 0 <= t < h0.len() && h0[t] == e2;
            assert(entry_le(h0[m as int], h0[t]));
        }
        let c = frontier_min(ms);
        assert(ms.count(c) > 0 && forall|e2: (u32, Cell)| ms.count(e2) > 0 ==> #[trigger] entry_le(c, e2));
        assert(entry_le(c, e) && entry_le(e, c));
        assert(c.1.x == e.1.x && c.1.y == e.1.y);
        assert(c == e);
    }
    e
}


/// Whether `cell` lies inside a `width` x `height` grid.
fn in_bounds(cell: Cell, width: i32, height: i32) -> (b: bool)
    ensures
        b == in_grid(cell, width as int, height as int),
{
    cell.x >= 0 && cell.y >= 0 && cell.x < width && cell.y < height
}

/// Row-major index of an on-grid cell.
fn index_of(c: Cell, width: i32, height: i32) -> (i: usize)
    requires
        in_grid(c, width as int, height as int),
        width * height <= i32::MAX,
    ensures
        i as int == grid_index(c, width as int),
        i < width * height,
        grid_cell(i as int, width as int) == c,
{
    proof {
        lemma_grid_index(c, width as int, height as int);
        assert(c.y * width <= c.y * width + c.x);
    }
    (c.y * width + c.x) as usize
}

proof fn lemma_cost_of<F: Fn(Cell) -> u32>(cost: F, c: Cell, v: u32)
    requires
        deterministic(cost),
        call_ensures(cost, (c,), v),
    ensures
        cost_of(cost, c) == v,
{
}

/// A deterministic cost function agrees with its own [`entry_costs`].
proof fn lemma_agrees<F: Fn(Cell) -> u32>(cost: F)
    requires
        deterministic(cost),
    ensures
        agrees(cost, entry_costs(cost)),
{
    assert forall|c: Cell, v: u32| call_ensures(cost, (c,), v) implies v == entry_costs(cost)(c) by {
        lemma_cost_of(cost, c, v);
    }
}

/// A least entry of the frontier, taken out by swapping with the last one:
/// every other entry stays, and nothing new appears.
proof fn lemma_swap_remove(old_heap: Seq<(u32, Cell)>, m: int, new_heap: Seq<(u32, Cell)>)
    requires
        0 <= m < old_heap.len(),
        new_heap == old_heap.update(m, old_heap.last()).drop_last(),
    ensures
        new_heap.len() == old_heap.len() - 1,
        forall|x: (u32, Cell)| old_heap.contains(x) && x != old_heap[m] ==> new_heap.contains(x),
        forall|t: int| 0 <= t < new_heap.len() ==> old_heap.contains(#[trigger] new_heap[t]),
{
    assert forall|x: (u32, Cell)| old_heap.contains(x) && x != old_heap[m] implies new_heap.contains(x) by {
        let j = choose|j: int| 0 <= j < old_heap.len() && old_heap[j] == x;
        if j == old_heap.len() - 1 {
            assert(new_heap[m] == x);
        } else {
            assert(new_heap[j] == x);
        }
    }
    assert forall|t: int| 0 <= t < new_heap.len() implies old_heap.contains(#[trigger] new_heap[t]) by {
        if t == m {
            assert(old_heap[old_heap.len() - 1] == new_heap[t]);
        } else {
            assert(old_heap[t] == new_heap[t]);
        }
    }
}

#[verifier::opaque]
spec fn frontier_ok(heap: Seq<(u32, Cell)>, best: Seq<u32>, last: u32, width: int, height: int) -> bool {
    forall|t: int|
        #![trigger heap[t]]
        0 <= t < heap.len() ==> {
            &&& in_grid(heap[t].1, width, height)
            &&& last <= heap[t].0
            &&& heap[t].0 < IMPASSABLE
            &&& best[grid_index(heap[t].1, width)] <= heap[t].0
        }
}

#[verifier::opaque]
spec fn live_entries(heap: Seq<(u32, Cell)>, best: Seq<u32>, settled: Set<int>, width: int, height: int) -> bool {
    forall|i: int|
        #![trigger best[i]]
        0 <= i < width * height && !settled.contains(i) && best[i] < IMPASSABLE ==> heap.contains(
            (best[i], grid_cell(i, width)),
        )
}

#[verifier::opaque]
spec fn settled_ok(
    cost: spec_fn(Cell) -> u32,
    diagonals: Diagonals,
    width: int,
    height: int,
    start: Cell,
    limit: u32,
    best: Seq<u32>,
    settled: Set<int>,
    last: u32,
    except: int,
) -> bool {
    &&& settled.finite()
    &&& forall|s: int|
        #[trigger] settled.contains(s) ==> {
            &&& 0 <= s < width * height
            &&& best[s] <= last
            &&& best[s] < IMPASSABLE
            &&& s != except ==> relaxed(cost, diagonals, width, height, limit, best, s)
            &&& optimal_at(cost, diagonals, width, height, start, limit, best, s)
        }
}

#[verifier::opaque]
spec fn witnesses_ok(
    cost: spec_fn(Cell) -> u32,
    diagonals: Diagonals,
    width: int,
    height: int,
    start: Cell,
    limit: u32,
    best: Seq<u32>,
    came: Seq<Option<Cell>>,
    wit: Map<int, Seq<Cell>>,
    settled: Set<int>,
) -> bool {
    &&& wit.contains_key(grid_index(start, width))
    &&& wit[grid_index(start, width)] == seq![start]
    &&& forall|i: int|
        #![trigger best[i]]
        0 <= i < width * height && best[i] < IMPASSABLE ==> {
            &&& wit.contains_key(i)
            &&& walk_between(cost, diagonals, width, height, wit[i], start, grid_cell(i, width))
            &&& walk_cost(cost, diagonals, wit[i]) == best[i] as int
            &&& best[i] <= limit
            &&& i != grid_index(start, width) ==> {
                &&& came[i] is Some
                &&& in_grid(came[i]->0, width, height)
                &&& settled.contains(grid_index(came[i]->0, width))
                &&& wit[i] == wit[grid_index(came[i]->0, width)].push(grid_cell(i, width))
            }
        }
}

/// The next cell in direction `d` from `c`.
pub open spec fn step_to(c: Cell, d: int) -> Cell {
    Cell { x: (c.x + dir_dx(d)) as i32, y: (c.y + dir_dy(d)) as i32 }
}



/// The state of a search in progress: tentative costs, predecessor links,
/// and the frontier of `(cost, cell)` entries still to expand.
struct Search {
    best: Vec<u32>,
    came: Vec<Option<Cell>>,
    heap: Vec<(u32, Cell)>,
    /// Indices whose cost is final.
    settled: Ghost<Set<int>>,
    /// The cost of the last entry taken off the frontier.
    last: Ghost<u32>,
    /// For each reached index, a walk from the start that costs what `best` says.
    wit: Ghost<Map<int, Seq<Cell>>>,
}

impl Search {
    spec fn inv(
        &self,
        cost: spec_fn(Cell) -> u32,
        diagonals: Diagonals,
        w: int,
        h: int,
        start: Cell,
        limit: u32,
        except: int,
    ) -> bool {
        &&& 0 < w
        &&& 0 < h
        &&& w <= i32::MAX
        &&& h <= i32::MAX
        &&& w * h <= i32::MAX
        &&& in_grid(start, w, h)
        &&& self.best@.len() == w * h
        &&& self.came@.len() == w * h
        &&& self.best@[grid_index(start, w)] == 0
        &&& frontier_ok(self.heap@, self.best@, self.last@, w, h)
        &&& live_entries(self.heap@, self.best@, self.settled@, w, h)
        &&& settled_ok(cost, diagonals, w, h, start, limit, self.best@, self.settled@, self.last@, except)
        &&& witnesses_ok(cost, diagonals, w, h, start, limit, self.best@, self.came@, self.wit@, self.settled@)
    }
}

/// Partial relaxation of `cell`: every legal move in directions `0..d` has
/// been relaxed.
#[verifier::opaque]
spec fn relaxed_upto(
    cost: spec_fn(Cell) -> u32,
    diagonals: Diagonals,
    w: int,
    h: int,
    limit: u32,
    best: Seq<u32>,
    cell: Cell,
    spent: u32,
    d: int,
) -> bool {
    forall|e: int|
        0 <= e < d && #[trigger] legal_move(cost, diagonals, w, h, cell, step_to(cell, e)) ==> {
            let t = sat_add(spent, move_cost(cost, diagonals, cell, step_to(cell, e)));
            best[grid_index(step_to(cell, e), w)] <= t || t > limit
        }
}

/// Lowering the tentative cost of an unsettled index keeps every settled
/// index relaxed and optimal.
proof fn lemma_lower_keeps_settled(
    cost: spec_fn(Cell) -> u32,
    diagonals: Diagonals,
    w: int,
    h: int,
    start: Cell,
    limit: u32,
    best: Seq<u32>,
    settled: Set<int>,
    last: u32,
    except: int,
    ni: int,
    total: u32,
)
    requires
        0 < w,
        w <= i32::MAX,
        h <= i32::MAX,
        0 <= ni < best.len(),
        best.len() == w * h,
        total < best[ni],
        !settled.contains(ni),
        settled_ok(cost, diagonals, w, h, start, limit, best, settled, last, except),
    ensures
        settled_ok(cost, diagonals, w, h, start, limit, best.update(ni, total), settled, last, except),
{
    reveal(settled_ok);
    reveal(relaxed);
    reveal(optimal_at);
    let best2 = best.update(ni, total);
    assert forall|s: int| #[trigger] settled.contains(s) implies {
        &&& 0 <= s < w * h
        &&& best2[s] <= last
        &&& best2[s] < IMPASSABLE
        &&& s != except ==> relaxed(cost, diagonals, w, h, limit, best2, s)
        &&& optimal_at(cost, diagonals, w, h, start, limit, best2, s)
    } by {
        assert(best2[s] == best[s]);
        if s != except {
            assert(relaxed(cost, diagonals, w, h, limit, best, s));
            assert forall|y: Cell| #[trigger] legal_move(cost, diagonals, w, h, grid_cell(s, w), y) implies {
                let t = sat_add(best2[s], move_cost(cost, diagonals, grid_cell(s, w), y));
                best2[grid_index(y, w)] <= t || t > limit
            } by {
                lemma_grid_index(y, w, h);
            }
        }
        assert(optimal_at(cost, diagonals, w, h, start, limit, best, s));
    }
}


/// Lowering an unsettled cost and pushing the matching entry keeps the
/// frontier complete and well-formed.
proof fn lemma_lower_keeps_frontier(
    w: int,
    h: int,
    best1: Seq<u32>,
    heap1: Seq<(u32, Cell)>,
    settled: Set<int>,
    last: u32,
    ni: int,
    next: Cell,
    total: u32,
)
    requires
        0 < w,
        w <= i32::MAX,
        h <= i32::MAX,
        best1.len() == w * h,
        in_grid(next, w, h),
        ni == grid_index(next, w),
        last <= total,
        total < best1[ni],
        frontier_ok(heap1, best1, last, w, h),
        live_entries(heap1, best1, settled, w, h),
    ensures
        frontier_ok(heap1.push((total, next)), best1.update(ni, total), last, w, h),
        live_entries(heap1.push((total, next)), best1.update(ni, total), settled, w, h),
{
    reveal(frontier_ok);
    reveal(live_entries);
    lemma_grid_index(next, w, h);
    let best2 = best1.update(ni, total);
    let heap2 = heap1.push((total, next));
    assert forall|i: int|
        #![trigger best2[i]]
        0 <= i < w * h && !settled.contains(i) && best2[i] < IMPASSABLE implies heap2.contains(
        (best2[i], grid_cell(i, w))) by {
        if i == ni {
            assert(heap2[heap2.len() - 1] == (best2[i], grid_cell(i, w)));
        } else {
            assert(best1[i] == best2[i]);
            assert(heap1.contains((best2[i], grid_cell(i, w))));
            let j = choose|j: int| 0 <= j < heap1.len() && heap1[j] == (best2[i], grid_cell(i, w));
            assert(heap2[j] == heap1[j]);
        }
    }
    assert forall|t: int| #![trigger heap2[t]] 0 <= t < heap2.len() implies {
        &&& in_grid(heap2[t].1, w, h)
        &&& last <= heap2[t].0
        &&& heap2[t].0 < IMPASSABLE
        &&& best2[grid_index(heap2[t].1, w)] <= heap2[t].0
    } by {
        if t < heap2.len() - 1 {
            assert(heap2[t] == heap1[t]);
            lemma_grid_index(heap2[t].1, w, h);
        }
    }
}

/// Lowering the cost of `next` through settled `cell` keeps the witness walks
/// and predecessor links in step with the costs.
proof fn lemma_lower_keeps_witnesses(
    cost: spec_fn(Cell) -> u32,
    diagonals: Diagonals,
    w: int,
    h: int,
    start: Cell,
    limit: u32,
    best1: Seq<u32>,
    came1: Seq<Option<Cell>>,
    wit1: Map<int, Seq<Cell>>,
    settled: Set<int>,
    cell: Cell,
    ci: int,
    spent: u32,
    ni: int,
    next: Cell,
    total: u32,
)
    requires
        0 < w,
        w <= i32::MAX,
        h <= i32::MAX,
        best1.len() == w * h,
        came1.len() == w * h,
        in_grid(start, w, h),
        best1[grid_index(start, w)] == 0,
        in_grid(cell, w, h),
        ci == grid_index(cell, w),
        settled.contains(ci),
        best1[ci] == spent,
        in_grid(next, w, h),
        ni == grid_index(next, w),
        legal_move(cost, diagonals, w, h, cell, next),
        total as int == spent + move_cost(cost, diagonals, cell, next),
        total <= limit,
        total < best1[ni],
        !settled.contains(ni),
        witnesses_ok(cost, diagonals, w, h, start, limit, best1, came1, wit1, settled),
    ensures
        witnesses_ok(
            cost,
            diagonals,
            w,
            h,
            start,
            limit,
            best1.update(ni, total),
            came1.update(ni, Some(cell)),
            wit1.insert(ni, wit1[ci].push(next)),
            settled,
        ),
{
    reveal(witnesses_ok);
    lemma_grid_index(next, w, h);
    lemma_grid_index(cell, w, h);
    lemma_grid_index(start, w, h);
    let best2 = best1.update(ni, total);
    let came2 = came1.update(ni, Some(cell));
    let wit2 = wit1.insert(ni, wit1[ci].push(next));
    assert(best1[ci] < IMPASSABLE);
    assert(wit1.contains_key(ci));
    lemma_walk_push(cost, diagonals, w, h, wit1[ci], next);
    assert forall|i: int|
        #![trigger best2[i]]
        0 <= i < w * h && best2[i] < IMPASSABLE implies {
            &&& wit2.contains_key(i)
            &&& walk_between(cost, diagonals, w, h, wit2[i], start, grid_cell(i, w))
            &&& walk_cost(cost, diagonals, wit2[i]) == best2[i] as int
            &&& best2[i] <= limit
            &&& i != grid_index(start, w) ==> {
                &&& came2[i] is Some
                &&& in_grid(came2[i]->0, w, h)
                &&& settled.contains(grid_index(came2[i]->0, w))
                &&& wit2[i] == wit2[grid_index(came2[i]->0, w)].push(grid_cell(i, w))
            }
        } by {
        if i == ni {
            assert(ni != grid_index(start, w)) by {
                if ni == grid_index(start, w) {
                    assert(best1[ni] == 0);
                }
            }
            assert(ci != ni);
        } else {
            assert(best1[i] == best2[i]);
            if i != grid_index(start, w) {
                assert(settled.contains(grid_index(came1[i]->0, w)));
                lemma_grid_index(came1[i]->0, w, h);
            }
        }
    }
}

/// After lowering `next` (the target in direction `d`), every direction up to
/// and including `d` is relaxed.
proof fn lemma_lower_keeps_partial(
    cost: spec_fn(Cell) -> u32,
    diagonals: Diagonals,
    w: int,
    h: int,
    limit: u32,
    best1: Seq<u32>,
    cell: Cell,
    spent: u32,
    d: int,
    ni: int,
    next: Cell,
    total: u32,
)
    requires
        0 < w,
        w <= i32::MAX,
        h <= i32::MAX,
        0 <= d < 8,
        best1.len() == w * h,
        in_grid(cell, w, h),
        in_grid(next, w, h),
        next == step_to(cell, d),
        ni == grid_index(next, w),
        total == sat_add(spent, move_cost(cost, diagonals, cell, next)),
        relaxed_upto(cost, diagonals, w, h, limit, best1, cell, spent, d),
    ensures
        relaxed_upto(cost, diagonals, w, h, limit, best1.update(ni, total), cell, spent, d + 1),
{
    reveal(relaxed_upto);
    let best2 = best1.update(ni, total);
    lemma_grid_index(next, w, h);
    assert forall|e: int|
        0 <= e < d + 1 && #[trigger] legal_move(cost, diagonals, w, h, cell, step_to(cell, e)) implies {
            let t = sat_add(spent, move_cost(cost, diagonals, cell, step_to(cell, e)));
            best2[grid_index(step_to(cell, e), w)] <= t || t > limit
        } by {
        lemma_grid_index(step_to(cell, e), w, h);
        if e < d {
            if grid_index(step_to(cell, e), w) == ni {
                assert(step_to(cell, e) == next);
                assert(false);
            }
        }
    }
}

/// Settled indices are on the grid, reached, and no costlier than `last`.
proof fn lemma_settled_bounds(
    cost: spec_fn(Cell) -> u32,
    diagonals: Diagonals,
    w: int,
    h: int,
    start: Cell,
    limit: u32,
    best: Seq<u32>,
    settled: Set<int>,
    last: u32,
    except: int,
    s: int,
)
    requires
        settled_ok(cost, diagonals, w, h, start, limit, best, settled, last, except),
    ensures
        settled.contains(s) ==> 0 <= s < w * h && best[s] <= last && best[s] < IMPASSABLE,
        settled.contains(s) && s != except ==> relaxed(cost, diagonals, w, h, limit, best, s),
        settled.contains(s) ==> optimal_at(cost, diagonals, w, h, start, limit, best, s),
        settled.finite(),
        settled.subset_of(set_int_range(0, w * h)),
{
    reveal(settled_ok);
}

/// Relaxes the move from `cell` in direction `d`.
fn relax<F: Fn(Cell) -> u32>(
    st: &mut Search,
    cost: &F,
    Ghost(sc): Ghost<spec_fn(Cell) -> u32>,
    diagonals: Diagonals,
    width: i32,
    height: i32,
    start: Cell,
    limit: u32,
    cell: Cell,
    ci: usize,
    spent: u32,
    d: usize,
    Ghost(except): Ghost<int>,
)
    requires
        agrees(*cost, sc),
        cost_usable(*cost, diagonals, width as int, height as int),
        old(st).inv(sc, diagonals, width as int, height as int, start, limit, except),
        d < 8,
        in_grid(cell, width as int, height as int),
        ci as int == grid_index(cell, width as int),
        old(st).settled@.contains(ci as int),
        old(st).best@[ci as int] == spent,
        old(st).last@ == spent,
        except == -1 || except == ci,
        except == -1 ==> relaxed(sc, diagonals, width as int, height as int, limit, old(st).best@, ci as int),
        relaxed_upto(sc, diagonals, width as int, height as int, limit, old(st).best@, cell, spent, d as int),
    ensures
        final(st).inv(sc, diagonals, width as int, height as int, start, limit, except),
        final(st).settled@ == old(st).settled@,
        final(st).last@ == spent,
        final(st).best@[ci as int] == spent,
        except == -1 ==> final(st).heap@.len() == old(st).heap@.len(),
        except == -1 ==> final(st).best@ == old(st).best@,
        relaxed_upto(sc, diagonals, width as int, height as int, limit, final(st).best@, cell, spent, d + 1),
        (final(st).best@, final(st).came@, final(st).heap@.to_multiset(), false) == relax_move(sc, diagonals,
            width as int, height as int, limit, (old(st).best@, old(st).came@, old(st).heap@.to_multiset(), false),
            cell, spent, d as int),
{
    let ghost w = width as int;
    let ghost h = height as int;
    proof {
        reveal(relaxed_upto);
    }
    let (dx, dy) = direction(d);
    proof {
        lemma_direction_kinds(cell, d as int);
        lemma_grid_index(cell, w, h);
    }
    let next = cell.offset(dx, dy);
    assert(next == step_to(cell, d as int));
    if d >= 4 && diagonals == Diagonals::Never {
        return;
    }
    if !in_bounds(next, width, height) {
        return;
    }
    let raw = (*cost)(next);
    proof {
    }
    if raw == IMPASSABLE {
        return;
    }
    let step = if d >= 4 {
        diagonals.scale(raw)
    } else {
        raw
    };
    proof {
        assert(step == move_cost(sc, diagonals, cell, next));
    }
    if step == IMPASSABLE {
        return;
    }
    let total = spent.saturating_add(step);
    let ni = index_of(next, width, height);
    proof {
        assert(step == move_cost(sc, diagonals, cell, next));
        assert(legal_move(sc, diagonals, w, h, cell, next));
        assert(total == sat_add(spent, step));
        if except == -1 {
            assert(legal_move(sc, diagonals, w, h, grid_cell(ci as int, w), next));
            reveal(relaxed);
        }
        lemma_settled_bounds(sc, diagonals, w, h, start, limit, st.best@, st.settled@, st.last@, except, ni as int);
        lemma_settled_bounds(sc, diagonals, w, h, start, limit, st.best@, st.settled@, st.last@, except, ci as int);
        assert(st.best@[ci as int] < IMPASSABLE);
    }
    if total <= limit && total < st.best[ni] {
        proof {
            lemma_lower_keeps_settled(sc, diagonals, w, h, start, limit, st.best@, st.settled@, st.last@, except, ni as int, total);
            lemma_lower_keeps_frontier(w, h, st.best@, st.heap@, st.settled@, st.last@, ni as int, next, total);
            lemma_lower_keeps_witnesses(sc, diagonals, w, h, start, limit, st.best@, st.came@, st.wit@, st.settled@, cell, ci as int, spent, ni as int, next, total);
            lemma_lower_keeps_partial(sc, diagonals, w, h, limit, st.best@, cell, spent, d as int, ni as int, next, total);
            lemma_grid_index(start, w, h);
        }
        st.best.set(ni, total);
        st.came.set(ni, Some(cell));
        st.heap.push((total, next));
        proof {
            st.wit@ = st.wit@.insert(ni as int, st.wit@[ci as int].push(next));
            broadcast use vstd::seq_lib::group_to_multiset_ensures;
            assert(st.heap@ =~= old(st).heap@.push((total, next)));
        }
    }
}


/// Taking a least entry off the frontier keeps it well-formed (with the
/// taken cost as the new `last`), and keeps every other live entry.
proof fn lemma_pop_keeps(
    w: int,
    h: int,
    heap0: Seq<(u32, Cell)>,
    m: int,
    heap1: Seq<(u32, Cell)>,
    best: Seq<u32>,
    settled: Set<int>,
    last: u32,
    ci: int,
)
    requires
        0 < w,
        w <= i32::MAX,
        h <= i32::MAX,
        best.len() == w * h,
        0 <= m < heap0.len(),
        heap1 == heap0.update(m, heap0.last()).drop_last(),
        forall|t: int| 0 <= t < heap0.len() ==> entry_le(heap0[m], #[trigger] heap0[t]),
        frontier_ok(heap0, best, last, w, h),
        live_entries(heap0, best, settled, w, h),
        in_grid(heap0[m].1, w, h),
        ci == grid_index(heap0[m].1, w),
    ensures
        frontier_ok(heap1, best, heap0[m].0, w, h),
        live_entries(heap1, best, settled.insert(ci), w, h),
        settled.contains(ci) || best[ci] != heap0[m].0 ==> live_entries(heap1, best, settled, w, h),
        last <= heap0[m].0,
{
    reveal(frontier_ok);
    reveal(live_entries);
    lemma_swap_remove(heap0, m, heap1);
    let e = heap0[m];
    assert forall|t: int| #![trigger heap1[t]] 0 <= t < heap1.len() implies {
        &&& in_grid(heap1[t].1, w, h)
        &&& e.0 <= heap1[t].0
        &&& heap1[t].0 < IMPASSABLE
        &&& best[grid_index(heap1[t].1, w)] <= heap1[t].0
    } by {
        assert(heap0.contains(heap1[t]));
        let j = choose|j: int| 0 <= j < heap0.len() && heap0[j] == heap1[t];
        assert(entry_le(e, heap0[j]));
    }
    assert forall|i: int|
        #![trigger best[i]]
        0 <= i < w * h && !settled.contains(i) && best[i] < IMPASSABLE && (i != ci || best[ci] != e.0) implies heap1.contains(
        (best[i], grid_cell(i, w))) by {
        assert(heap0.contains((best[i], grid_cell(i, w))));
        if (best[i], grid_cell(i, w)) == e {
            lemma_grid_cell(i, w, h);
            assert(i == ci);
        }
    }
}

/// A least frontier entry for an unsettled cell carries its final cost, and
/// that cost is optimal.
proof fn lemma_settle(
    cost: spec_fn(Cell) -> u32,
    diagonals: Diagonals,
    w: int,
    h: int,
    start: Cell,
    limit: u32,
    best: Seq<u32>,
    settled: Set<int>,
    last: u32,
    heap0: Seq<(u32, Cell)>,
    m: int,
    ci: int,
)
    requires
        0 < w,
        w <= i32::MAX,
        h <= i32::MAX,
        best.len() == w * h,
        in_grid(start, w, h),
        best[grid_index(start, w)] == 0,
        0 <= m < heap0.len(),
        forall|t: int| 0 <= t < heap0.len() ==> entry_le(heap0[m], #[trigger] heap0[t]),
        frontier_ok(heap0, best, last, w, h),
        live_entries(heap0, best, settled, w, h),
        settled_ok(cost, diagonals, w, h, start, limit, best, settled, last, -1),
        ci == grid_index(heap0[m].1, w),
        !settled.contains(ci),
    ensures
        best[ci] == heap0[m].0,
        optimal_at(cost, diagonals, w, h, start, limit, best, ci),
{
    reveal(frontier_ok);
    reveal(live_entries);
    reveal(optimal_at);
    let (spent, cell) = heap0[m];
    lemma_grid_index(cell, w, h);
    assert(best[ci] <= spent);
    assert(heap0.contains((best[ci], grid_cell(ci, w))));
    let j = choose|j: int| 0 <= j < heap0.len() && heap0[j] == (best[ci], grid_cell(ci, w));
    assert(entry_le(heap0[m], heap0[j]));
    assert forall|walk: Seq<Cell>|
        #[trigger] walk_between(cost, diagonals, w, h, walk, start, grid_cell(ci, w))
            && walk_cost(cost, diagonals, walk) <= limit implies best[ci] as int
            <= walk_cost(cost, diagonals, walk) by {
        let u = lemma_frontier(cost, diagonals, w, h, start, limit, best, settled, last, walk);
        if best[u] < IMPASSABLE {
            assert(heap0.contains((best[u], grid_cell(u, w))));
            let j2 = choose|j2: int| 0 <= j2 < heap0.len() && heap0[j2] == (best[u], grid_cell(u, w));
            assert(entry_le(heap0[m], heap0[j2]));
        }
    }
}

/// Relaxes every move out of settled `cell`.
fn expand<F: Fn(Cell) -> u32>(
    st: &mut Search,
    cost: &F,
    Ghost(sc): Ghost<spec_fn(Cell) -> u32>,
    diagonals: Diagonals,
    width: i32,
    height: i32,
    start: Cell,
    limit: u32,
    cell: Cell,
    ci: usize,
    spent: u32,
    Ghost(except): Ghost<int>,
)
    requires
        agrees(*cost, sc),
        cost_usable(*cost, diagonals, width as int, height as int),
        old(st).inv(sc, diagonals, width as int, height as int, start, limit, except),
        in_grid(cell, width as int, height as int),
        ci as int == grid_index(cell, width as int),
        old(st).settled@.contains(ci as int),
        old(st).best@[ci as int] == spent,
        old(st).last@ == spent,
        except == -1 || except == ci,
        except == -1 ==> relaxed(sc, diagonals, width as int, height as int, limit, old(st).best@, ci as int),
    ensures
        final(st).inv(sc, diagonals, width as int, height as int, start, limit, -1),
        final(st).settled@ == old(st).settled@,
        final(st).last@ == spent,
        except == -1 ==> final(st).heap@.len() == old(st).heap@.len(),
        (final(st).best@, final(st).came@, final(st).heap@.to_multiset(), false) == expand_moves(sc, diagonals,
            width as int, height as int, limit, (old(st).best@, old(st).came@, old(st).heap@.to_multiset(), false),
            cell, spent, 0),
{
    proof {
        reveal(relaxed_upto);
    }
    let ghost r0: RunState = (st.best@, st.came@, st.heap@.to_multiset(), false);
    let mut d: usize = 0;
    while d < 8
        invariant
            agrees(*cost, sc),
            cost_usable(*cost, diagonals, width as int, height as int),
            st.inv(sc, diagonals, width as int, height as int, start, limit, except),
            d <= 8,
            in_grid(cell, width as int, height as int),
            ci as int == grid_index(cell, width as int),
            st.settled@ == old(st).settled@,
            st.settled@.contains(ci as int),
            st.best@[ci as int] == spent,
            st.last@ == spent,
            except == -1 || except == ci,
            except == -1 ==> st.heap@.len() == old(st).heap@.len(),
            except == -1 ==> st.best@ == old(st).best@,
            except == -1 ==> relaxed(sc, diagonals, width as int, height as int, limit, st.best@, ci as int),
            relaxed_upto(sc, diagonals, width as int, height as int, limit, st.best@, cell, spent, d as int),
            expand_moves(sc, diagonals, width as int, height as int, limit, r0, cell, spent, 0) == expand_moves(sc,
                diagonals, width as int, height as int, limit, (st.best@, st.came@, st.heap@.to_multiset(), false),
                cell, spent, d as int),
        decreases 8 - d,
    {
        relax(st, cost, Ghost(sc), diagonals, width, height, start, limit, cell, ci, spent, d, Ghost(except));
        d += 1;
    }
    proof {
        let w = width as int;
        let h = height as int;
        reveal(relaxed_upto);
        reveal(relaxed);
        reveal(settled_ok);
        lemma_grid_index(cell, w, h);
        assert forall|y: Cell| #[trigger] legal_move(sc, diagonals, w, h, grid_cell(ci as int, w), y) implies {
            let t = sat_add(st.best@[ci as int], move_cost(sc, diagonals, grid_cell(ci as int, w), y));
            st.best@[grid_index(y, w)] <= t || t > limit
        } by {
            let e = lemma_step_has_direction(cell, y);
            assert(y == step_to(cell, e));
        }
        assert(relaxed(sc, diagonals, w, h, limit, st.best@, ci as int));
        assert forall|s: int| #[trigger] st.settled@.contains(s) implies {
            &&& 0 <= s < w * h
            &&& st.best@[s] <= st.last@
            &&& st.best@[s] < IMPASSABLE
            &&& s != -1 ==> relaxed(sc, diagonals, w, h, limit, st.best@, s)
            &&& optimal_at(sc, diagonals, w, h, start, limit, st.best@, s)
        } by {
        }
    }
}


/// What a finished search knows about every cell.
spec fn search_result_ok(
    cost: spec_fn(Cell) -> u32,
    diagonals: Diagonals,
    width: int,
    height: int,
    start: Cell,
    limit: u32,
    best: Seq<u32>,
    came: Seq<Option<Cell>>,
    wit: Map<int, Seq<Cell>>,
) -> bool {
    &&& best.len() == width * height
    &&& came.len() == width * height
    &&& best[grid_index(start, width)] == 0
    &&& wit.contains_key(grid_index(start, width))
    &&& wit[grid_index(start, width)] == seq![start]
    &&& forall|i: int|
        #![trigger best[i]]
        0 <= i < width * height && best[i] < IMPASSABLE ==> {
            &&& wit.contains_key(i)
            &&& walk_between(cost, diagonals, width, height, wit[i], start, grid_cell(i, width))
            &&& walk_cost(cost, diagonals, wit[i]) == best[i] as int
            &&& best[i] <= limit
            &&& i != grid_index(start, width) ==> {
                &&& came[i] is Some
                &&& in_grid(came[i]->0, width, height)
                &&& best[grid_index(came[i]->0, width)] < IMPASSABLE
                &&& wit[i] == wit[grid_index(came[i]->0, width)].push(grid_cell(i, width))
            }
        }
}

/// After a least entry `(spent, cell)` is taken off the frontier, the search
/// state is consistent again with `spent` as the last cost, whether or not the
/// cell joins the settled set.
#[verifier::rlimit(100)]
#[verifier::spinoff_prover]
proof fn lemma_after_pop(
    cost: spec_fn(Cell) -> u32,
    diagonals: Diagonals,
    w: int,
    h: int,
    start: Cell,
    limit: u32,
    best: Seq<u32>,
    came: Seq<Option<Cell>>,
    wit: Map<int, Seq<Cell>>,
    settled: Set<int>,
    last: u32,
    heap0: Seq<(u32, Cell)>,
    m: int,
    heap1: Seq<(u32, Cell)>,
    ci: int,
    insert: bool,
)
    requires
        0 < w,
        0 < h,
        w <= i32::MAX,
        h <= i32::MAX,
        w * h <= i32::MAX,
        in_grid(start, w, h),
        best.len() == w * h,
        came.len() == w * h,
        best[grid_index(start, w)] == 0,
        frontier_ok(heap0, best, last, w, h),
        live_entries(heap0, best, settled, w, h),
        settled_ok(cost, diagonals, w, h, start, limit, best, settled, last, -1),
        witnesses_ok(cost, diagonals, w, h, start, limit, best, came, wit, settled),
        0 <= m < heap0.len(),
        heap1 == heap0.update(m, heap0.last()).drop_last(),
        forall|t: int| 0 <= t < heap0.len() ==> entry_le(heap0[m], #[trigger] heap0[t]),
        ci == grid_index(heap0[m].1, w),
        insert ==> !settled.contains(ci) && best[ci] == heap0[m].0
            && optimal_at(cost, diagonals, w, h, start, limit, best, ci),
        !insert ==> settled.contains(ci) || best[ci] != heap0[m].0,
    ensures
        ({
            let settled2 = if insert { settled.insert(ci) } else { settled };
            &&& frontier_ok(heap1, best, heap0[m].0, w, h)
            &&& live_entries(heap1, best, settled2, w, h)
            &&& settled_ok(cost, diagonals, w, h, start, limit, best, settled2, heap0[m].0, if insert { ci } else { -1 })
            &&& witnesses_ok(cost, diagonals, w, h, start, limit, best, came, wit, settled2)
        }),
{
    reveal(settled_ok);
    reveal(witnesses_ok);
    reveal(frontier_ok);
    let spent = heap0[m].0;
    assert(in_grid(heap0[m].1, w, h));
    lemma_grid_index(heap0[m].1, w, h);
    lemma_pop_keeps(w, h, heap0, m, heap1, best, settled, last, ci);
    let settled2 = if insert { settled.insert(ci) } else { settled };
    let except = if insert { ci } else { -1 };
    assert forall|s: int| #[trigger] settled2.contains(s) implies {
        &&& 0 <= s < w * h
        &&& best[s] <= spent
        &&& best[s] < IMPASSABLE
        &&& s != except ==> relaxed(cost, diagonals, w, h, limit, best, s)
        &&& optimal_at(cost, diagonals, w, h, start, limit, best, s)
    } by {
        if s != ci || !insert {
            assert(settled.contains(s));
        }
    }
    assert forall|i: int|
        #![trigger best[i]]
        0 <= i < w * h && best[i] < IMPASSABLE && i != grid_index(start, w) implies
            settled2.contains(grid_index(came[i]->0, w)) by {
        assert(settled.contains(grid_index(came[i]->0, w)));
    }
}

/// One round of the search: takes a least entry off the frontier and, unless
/// it is the stop cell or stale, settles and expands its cell.
#[verifier::rlimit(100)]
#[verifier::spinoff_prover]
fn search_step<F: Fn(Cell) -> u32>(
    st: &mut Search,
    start: Cell,
    stop: Option<Cell>,
    width: i32,
    height: i32,
    diagonals: Diagonals,
    limit: u32,
    cost: &F,
    Ghost(sc): Ghost<spec_fn(Cell) -> u32>,
) -> (found: bool)
    requires
        agrees(*cost, sc),
        cost_usable(*cost, diagonals, width as int, height as int),
        old(st).heap@.len() > 0,
        stop matches Some(g) ==> in_grid(g, width as int, height as int),
        old(st).inv(sc, diagonals, width as int, height as int, start, limit, -1),
        stop is Some ==> !old(st).settled@.contains(grid_index(stop->0, width as int)),
    ensures
        final(st).inv(sc, diagonals, width as int, height as int, start, limit,
            if found { grid_index(stop->0, width as int) } else { -1 }),
        !found && stop is Some ==> !final(st).settled@.contains(grid_index(stop->0, width as int)),
        found ==> stop is Some && final(st).settled@.contains(grid_index(stop->0, width as int)),
        final(st).settled@.len() <= width * height,
        final(st).settled@.len() > old(st).settled@.len()
            || (final(st).settled@.len() == old(st).settled@.len() && final(st).heap@.len() < old(st).heap@.len()),
        (final(st).best@, final(st).came@, final(st).heap@.to_multiset(), found) == run_step(sc, diagonals,
            width as int, height as int, limit, stop, (old(st).best@, old(st).came@, old(st).heap@.to_multiset(), false)),
{
    proof {
        broadcast use vstd::seq_lib::group_to_multiset_ensures;
        assert(old(st).heap@.to_multiset().len() > 0);
    }
    let ghost w = width as int;
    let ghost h = height as int;
    let ghost n = w * h;
    let ghost heap0 = st.heap@;
    let ghost settled0 = st.settled@;
    let (spent, cell) = pop_min(&mut st.heap);
    let ghost m = choose|m: int|
        0 <= m < heap0.len() && (spent, cell) == heap0[m] && st.heap@ == heap0.update(m, heap0.last()).drop_last();
    assert(in_grid(cell, w, h)) by {
        reveal(frontier_ok);
        assert(heap0[m] == (spent, cell));
    }
    let ci = index_of(cell, width, height);
    let is_stop = match stop {
        Some(g) => cell.x == g.x && cell.y == g.y,
        None => false,
    };
    let fresh = is_stop || spent <= st.best[ci];
    let ghost insert = fresh && !settled0.contains(ci as int);
    proof {
        lemma_int_range(0, n);
        lemma_settled_bounds(sc, diagonals, w, h, start, limit, st.best@, settled0, st.last@, -1, ci as int);
        lemma_len_subset(settled0, set_int_range(0, n));
        if insert {
            lemma_settle(sc, diagonals, w, h, start, limit, st.best@, settled0, st.last@, heap0, m, ci as int);
        }
        if is_stop {
            assert(cell == stop->0);
        } else if stop is Some {
            lemma_grid_index(stop->0, w, h);
            lemma_grid_index(cell, w, h);
            assert(cell != stop->0);
            assert(grid_index(stop->0, w) != ci as int);
        }
        lemma_after_pop(sc, diagonals, w, h, start, limit, st.best@, st.came@, st.wit@, settled0,
            st.last@, heap0, m, st.heap@, ci as int, insert);
        st.last@ = spent;
        if insert {
            st.settled@ = settled0.insert(ci as int);
        }
        lemma_settled_bounds(sc, diagonals, w, h, start, limit, st.best@, st.settled@, st.last@,
            if insert { ci as int } else { -1 }, ci as int);
        lemma_len_subset(st.settled@, set_int_range(0, n));
    }
    if is_stop {
        true
    } else if !fresh {
        false
    } else {
        expand(st, cost, Ghost(sc), diagonals, width, height, start, limit, cell, ci, spent,
            Ghost(if insert { ci as int } else { -1 }));
        false
    }
}

/// What the search state says once the loop ends.
proof fn lemma_search_done(
    cost: spec_fn(Cell) -> u32,
    diagonals: Diagonals,
    w: int,
    h: int,
    start: Cell,
    limit: u32,
    st: &Search,
    found: bool,
    except: int,
)
    requires
        st.inv(cost, diagonals, w, h, start, limit, except),
        !found ==> st.heap@.len() == 0 && except == -1,
    ensures
        search_result_ok(cost, diagonals, w, h, start, limit, st.best@, st.came@, st.wit@),
        st.settled@.contains(except) ==> st.best@[except] < IMPASSABLE
            && optimal_at(cost, diagonals, w, h, start, limit, st.best@, except),
        !found ==> forall|i: int, walk: Seq<Cell>|
            0 <= i < w * h
            && #[trigger] walk_between(cost, diagonals, w, h, walk, start, grid_cell(i, w))
            && walk_cost(cost, diagonals, walk) <= limit && walk_cost(cost, diagonals, walk) < IMPASSABLE
            ==> st.best@[i] as int <= walk_cost(cost, diagonals, walk),
        !found ==> forall|i: int| 0 <= i < w * h && !st.settled@.contains(i) ==> #[trigger] st.best@[i] == IMPASSABLE,
{
    reveal(witnesses_ok);
    if !found {
        reveal(live_entries);
    }
    let best = st.best@;
    lemma_settled_bounds(cost, diagonals, w, h, start, limit, best, st.settled@, st.last@, except, except);
    if !found {
        assert forall|i: int, walk: Seq<Cell>|
            0 <= i < w * h
            && #[trigger] walk_between(cost, diagonals, w, h, walk, start, grid_cell(i, w))
            && walk_cost(cost, diagonals, walk) <= limit && walk_cost(cost, diagonals, walk) < IMPASSABLE
            implies best[i] as int <= walk_cost(cost, diagonals, walk) by {
            lemma_grid_cell(i, w, h);
            if st.settled@.contains(i) {
                reveal(settled_ok);
                assert(optimal_at(cost, diagonals, w, h, start, limit, best, i));
                reveal(optimal_at);
            } else {
                let u = lemma_frontier(cost, diagonals, w, h, start, limit, best, st.settled@, st.last@, walk);
                if best[u] < IMPASSABLE {
                    reveal(live_entries);
                    assert(st.heap@.contains((best[u], grid_cell(u, w))));
                }
            }
        }
    }
    assert forall|i: int|
        #![trigger best[i]]
        0 <= i < w * h && best[i] < IMPASSABLE && i != grid_index(start, w) implies
            best[grid_index(st.came@[i]->0, w)] < IMPASSABLE by {
        assert(st.settled@.contains(grid_index(st.came@[i]->0, w)));
        lemma_settled_bounds(cost, diagonals, w, h, start, limit, best, st.settled@, st.last@, except, grid_index(st.came@[i]->0, w));
    }
}

/// Dijkstra's algorithm from `start`, relaxing only moves whose total stays
/// within `limit`, and stopping as soon as `stop` is taken off the frontier.
///
/// Returns the tentative costs, the predecessor of each reached cell, and
/// whether `stop` was reached.
fn search<F: Fn(Cell) -> u32>(
    start: Cell,
    stop: Option<Cell>,
    width: i32,
    height: i32,
    diagonals: Diagonals,
    limit: u32,
    cost: &F,
    Ghost(sc): Ghost<spec_fn(Cell) -> u32>,
) -> (res: (Vec<u32>, Vec<Option<Cell>>, bool, Ghost<Map<int, Seq<Cell>>>))
    requires
        agrees(*cost, sc),
        cost_usable(*cost, diagonals, width as int, height as int),
        in_grid(start, width as int, height as int),
        width * height <= i32::MAX,
        stop matches Some(g) ==> in_grid(g, width as int, height as int),
    ensures
        search_result_ok(sc, diagonals, width as int, height as int, start, limit, res.0@, res.1@, res.3@),
        res.2 ==> stop is Some && res.0@[grid_index(stop->0, width as int)] < IMPASSABLE
            && optimal_at(sc, diagonals, width as int, height as int, start, limit, res.0@, grid_index(stop->0, width as int)),
        !res.2 ==> forall|i: int, walk: Seq<Cell>|
            0 <= i < width * height
            && #[trigger] walk_between(sc, diagonals, width as int, height as int, walk, start, grid_cell(i, width as int))
            && walk_cost(sc, diagonals, walk) <= limit && walk_cost(sc, diagonals, walk) < IMPASSABLE
            ==> res.0@[i] as int <= walk_cost(sc, diagonals, walk),
        !res.2 && stop is Some ==> res.0@[grid_index(stop->0, width as int)] == IMPASSABLE,
        exists|k: nat| {
            let r = #[trigger] run_after(sc, diagonals, width as int, height as int, limit, start, stop, k);
            &&& r.0 == res.0@
            &&& r.1 == res.1@
            &&& r.3 == res.2
            &&& (r.3 || r.2.len() == 0)
        },
{
    let ghost w = width as int;
    let ghost h = height as int;
    let ghost n = w * h;
    let nu = (width * height) as usize;
    let mut best: Vec<u32> = Vec::new();
    let mut came: Vec<Option<Cell>> = Vec::new();
    let mut k: usize = 0;
    while k < nu
        invariant
            nu == n,
            best@.len() == k,
            came@.len() == k,
            k <= nu,
            forall|t: int| 0 <= t < k ==> best@[t] == IMPASSABLE,
            forall|t: int| 0 <= t < k ==> came@[t] == None::<Cell>,
        decreases nu - k,
    {
        best.push(IMPASSABLE);
        came.push(None);
        k += 1;
    }
    let si = index_of(start, width, height);
    best.set(si, 0);
    let mut heap: Vec<(u32, Cell)> = Vec::new();
    heap.push((0, start));
    let mut st = Search {
        best,
        came,
        heap,
        settled: Ghost(Set::empty()),
        last: Ghost(0),
        wit: Ghost(Map::empty().insert(si as int, seq![start])),
    };
    proof {
        assert(st.heap@[0] == (st.best@[si as int], grid_cell(si as int, w)));
        assert forall|i: int|
            #![trigger st.best@[i]]
            0 <= i < n && !st.settled@.contains(i) && st.best@[i] < IMPASSABLE implies st.heap@.contains(
            (st.best@[i], grid_cell(i, w))) by {
            assert(i == si);
            assert(st.heap@[0] == (st.best@[i], grid_cell(i, w)));
        }
        assert(walk_between(sc, diagonals, w, h, seq![start], start, start));
        lemma_grid_index(start, w, h);
        reveal(frontier_ok);
        reveal(live_entries);
        reveal(settled_ok);
        reveal(witnesses_ok);
        assert(0 < w && 0 < h && w <= i32::MAX && h <= i32::MAX) by (nonlinear_arith)
            requires 0 <= start.x < w, 0 <= start.y < h, w * h <= i32::MAX;
        assert forall|i: int|
            #![trigger st.best@[i]]
            0 <= i < n && st.best@[i] < IMPASSABLE implies i == si by {
        }
    }
    let mut found = false;
    let ghost mut k: nat = 0;
    proof {
        broadcast use vstd::seq_lib::group_to_multiset_ensures;
        let r = run_after(sc, diagonals, w, h, limit, start, stop, 0);
        assert(st.best@ =~= r.0);
        assert(st.came@ =~= r.1);
        assert(st.heap@ =~= seq![(0u32, start)]);
        assert(seq![(0u32, start)] =~= Seq::<(u32, Cell)>::empty().push((0u32, start)));
        assert(st.heap@.to_multiset() =~= r.2);
    }
    while st.heap.len() > 0 && !found
        invariant
            run_after(sc, diagonals, w, h, limit, start, stop, k) == (st.best@, st.came@, st.heap@.to_multiset(), found),
            w == width as int,
            h == height as int,
            n == w * h,
            stop matches Some(g) ==> in_grid(g, w, h),
            agrees(*cost, sc),
            cost_usable(*cost, diagonals, width as int, height as int),
            st.inv(sc, diagonals, w, h, start, limit, if found { grid_index(stop->0, w) } else { -1 }),
            !found && stop is Some ==> !st.settled@.contains(grid_index(stop->0, w)),
            found ==> stop is Some && st.settled@.contains(grid_index(stop->0, w)),
            st.settled@.len() <= n,
        decreases n - st.settled@.len(), st.heap@.len(),
    {
        found = search_step(&mut st, start, stop, width, height, diagonals, limit, cost, Ghost(sc));
        proof {
            k = k + 1;
        }
    }
    proof {
        broadcast use vstd::seq_lib::group_to_multiset_ensures;
        let r = run_after(sc, diagonals, w, h, limit, start, stop, k);
        assert(r.3 || r.2.len() == 0);
    }
    proof {
        lemma_search_done(sc, diagonals, w, h, start, limit, &st, found, if found { grid_index(stop->0, w) } else { -1 });
        if !found && stop is Some {
            lemma_grid_index(stop->0, w, h);
            assert(st.best@[grid_index(stop->0, w)] == IMPASSABLE);
        }
    }
    (st.best, st.came, found, st.wit)
}


// ── Public searches ─────────────────────────────────────────────────────────

/// Whether some legal walk from `start` to `goal` costs less than
/// [`IMPASSABLE`].
pub open spec fn route_exists(
    cost: spec_fn(Cell) -> u32,
    diagonals: Diagonals,
    width: int,
    height: int,
    start: Cell,
    goal: Cell,
) -> bool {
    exists|walk: Seq<Cell>|
        #[trigger] walk_between(cost, diagonals, width, height, walk, start, goal)
            && walk_cost(cost, diagonals, walk) < IMPASSABLE
}

/// `steps` (with `start` in front) is a legal walk to `goal`, `costs` holds
/// its cumulative costs, and no legal walk from `start` to `goal` is cheaper.
pub open spec fn least_cost_route(
    cost: spec_fn(Cell) -> u32,
    diagonals: Diagonals,
    width: int,
    height: int,
    start: Cell,
    goal: Cell,
    steps: Seq<Cell>,
    costs: Seq<u32>,
) -> bool {
    let walk = seq![start] + steps;
    &&& steps.len() >= 1
    &&& costs.len() == steps.len()
    &&& walk_between(cost, diagonals, width, height, walk, start, goal)
    &&& walk_cost(cost, diagonals, walk) < IMPASSABLE
    &&& forall|k: int| 0 <= k < costs.len() ==> #[trigger] costs[k] as int == walk_cost(cost, diagonals, walk.take(k + 2))
    &&& forall|other: Seq<Cell>|
        #[trigger] walk_between(cost, diagonals, width, height, other, start, goal)
            ==> walk_cost(cost, diagonals, walk) <= walk_cost(cost, diagonals, other)
}

/// `reach` counts the leading entries of `costs` that are within `budget`.
pub open spec fn reach_within(costs: Seq<u32>, budget: u32, reach: int) -> bool {
    &&& 0 <= reach <= costs.len()
    &&& forall|k: int| 0 <= k < reach ==> #[trigger] costs[k] <= budget
    &&& reach < costs.len() ==> costs[reach] > budget
}

/// Finds the least-cost route from `start` to `goal`.
///
/// `cost` returns the cost to *enter* a cell, or [`IMPASSABLE`]. `budget` is
/// what the traveller can spend now, and only affects [`Path::reach`]: the
/// whole route is still returned.
///
/// Returns `None` when `start == goal`, when either end is off the grid, or
/// when no route costs less than [`IMPASSABLE`]. Among equally cheap routes
/// the search breaks ties deterministically: entries leave the frontier
/// least cost first, then by row, then by column, and the route follows the
/// predecessor links that run leaves ([`search_route`]). `cost` is only
/// asked about cells of the grid.
pub fn find<F: Fn(Cell) -> u32>(
    start: Cell,
    goal: Cell,
    width: i32,
    height: i32,
    diagonals: Diagonals,
    budget: u32,
    cost: F,
) -> (res: Option<Path>)
    requires
        cost_usable(cost, diagonals, width as int, height as int),
        0 < width && 0 < height ==> width * height <= i32::MAX,
    ensures
        res is None <==> (start == goal || !in_grid(goal, width as int, height as int)
            || !in_grid(start, width as int, height as int)
            || !route_exists(entry_costs(cost), diagonals, width as int, height as int, start, goal)),
        res matches Some(p) ==> least_cost_route(entry_costs(cost), diagonals, width as int, height as int, start, goal, p.steps@, p.costs@)
            && reach_within(p.costs@, budget, p.reach as int),
        res matches Some(p) ==> !p.steps@.contains(start),
        res matches Some(p) ==> search_route(entry_costs(cost), diagonals, width as int, height as int, start, goal,
            p.steps@),
{
    proof {
        lemma_agrees(cost);
    }
    find_by(start, goal, width, height, diagonals, budget, cost, Ghost(entry_costs(cost)))
}

/// The same search as [`find`], for a cost function whose answers a spec
/// function `sc` describes; the result is stated over `sc`.
pub(crate) fn find_by<F: Fn(Cell) -> u32>(
    start: Cell,
    goal: Cell,
    width: i32,
    height: i32,
    diagonals: Diagonals,
    budget: u32,
    cost: F,
    Ghost(sc): Ghost<spec_fn(Cell) -> u32>,
) -> (res: Option<Path>)
    requires
        agrees(cost, sc),
        cost_usable(cost, diagonals, width as int, height as int),
        0 < width && 0 < height ==> width * height <= i32::MAX,
    ensures
        res is None <==> (start == goal || !in_grid(goal, width as int, height as int)
            || !in_grid(start, width as int, height as int)
            || !route_exists(sc, diagonals, width as int, height as int, start, goal)),
        res matches Some(p) ==> least_cost_route(sc, diagonals, width as int, height as int, start, goal, p.steps@, p.costs@)
            && reach_within(p.costs@, budget, p.reach as int),
        res matches Some(p) ==> !p.steps@.contains(start),
        res matches Some(p) ==> search_route(sc, diagonals, width as int, height as int, start, goal, p.steps@),
{
    if start == goal || !in_bounds(goal, width, height) || !in_bounds(start, width, height) {
        return None;
    }
    let ghost w = width as int;
    let ghost h = height as int;
    let (best, came, found, Ghost(wit)) = search(start, Some(goal), width, height, diagonals, IMPASSABLE, &cost, Ghost(sc));
    let gi = index_of(goal, width, height);
    let ghost big = wit[gi as int];
    proof {
        lemma_grid_index(start, w, h);
        if !found {
            assert forall|walk: Seq<Cell>|
                #[trigger] walk_between(sc, diagonals, w, h, walk, start, goal)
                implies walk_cost(sc, diagonals, walk) >= IMPASSABLE by {
                if walk_cost(sc, diagonals, walk) < IMPASSABLE {
                    assert(walk_between(sc, diagonals, w, h, walk, start, grid_cell(gi as int, w)));
                    assert(best@[gi as int] <= walk_cost(sc, diagonals, walk));
                    assert(best@[gi as int] < IMPASSABLE);
                }
            }
        }
    }
    if !found {
        return None;
    }
    // Walk the predecessor links back from the goal.
    let mut back_steps: Vec<Cell> = Vec::new();
    let mut back_costs: Vec<u32> = Vec::new();
    let mut at = goal;
    let mut ai = gi;
    proof {
        assert(best@[gi as int] < IMPASSABLE);
    }
    while at.x != start.x || at.y != start.y
        invariant
            w == width as int,
            h == height as int,
            0 < w,
            w * h <= i32::MAX,
            search_result_ok(sc, diagonals, w, h, start, IMPASSABLE, best@, came@, wit),
            in_grid(start, w, h),
            in_grid(at, w, h),
            ai as int == grid_index(at, w),
            gi as int == grid_index(goal, w),
            big == wit[gi as int],
            best@[ai as int] < IMPASSABLE,
            wit[ai as int] == big.take(wit[ai as int].len() as int),
            1 <= wit[ai as int].len() <= big.len(),
            back_steps@.len() == big.len() - wit[ai as int].len(),
            back_costs@.len() == back_steps@.len(),
            forall|j: int| 0 <= j < back_steps@.len() ==> #[trigger] back_steps@[j] == big[big.len() - 1 - j],
            forall|j: int| 0 <= j < back_steps@.len() ==> #[trigger] back_steps@[j] != start,
            forall|j: int| 0 <= j < back_steps@.len() ==> came@[grid_index(#[trigger] back_steps@[j], w)] == Some(
                if j + 1 < back_steps@.len() { back_steps@[j + 1] } else { at }),
            forall|j: int| 0 <= j < back_costs@.len() ==>
                #[trigger] back_costs@[j] as int == walk_cost(sc, diagonals, big.take(big.len() - j)),
        decreases wit[ai as int].len(),
    {
        let ghost a = wit[ai as int];
        proof {
            lemma_grid_index(at, w, h);
            assert(ai as int != grid_index(start, w));
            assert(a.len() >= 2) by {
                if a.len() == 1 {
                    assert(a[0] == start);
                    assert(a.last() == grid_cell(ai as int, w));
                }
            }
        }
        back_steps.push(at);
        back_costs.push(best[ai]);
        proof {
            assert(big.take(big.len() - back_steps@.len() + 1) == a);
            assert(a.last() == at);
        }
        match came[ai] {
            Some(p) => {
                proof {
                    lemma_grid_index(p, w, h);
                    assert(wit[ai as int] == wit[grid_index(p, w)].push(grid_cell(ai as int, w)));
                    assert(wit[grid_index(p, w)] =~= a.drop_last());
                    assert(a.drop_last() =~= big.take(a.len() - 1));
                }
                at = p;
                ai = index_of(p, width, height);
            },
            None => {
                proof {
                    assert(false);
                }
                return None;
            },
        }
    }
    proof {
        lemma_grid_index(start, w, h);
        assert(wit[ai as int] == seq![start]);
    }
    // The links were collected goal-first; put them in travel order.
    let n = back_steps.len();
    let mut steps: Vec<Cell> = Vec::new();
    let mut costs: Vec<u32> = Vec::new();
    let mut k: usize = 0;
    while k < n
        invariant
            n == back_steps@.len(),
            back_costs@.len() == n,
            k <= n,
            steps@.len() == k,
            costs@.len() == k,
            forall|j: int| 0 <= j < k ==> #[trigger] steps@[j] == back_steps@[n - 1 - j],
            forall|j: int| 0 <= j < k ==> #[trigger] costs@[j] == back_costs@[n - 1 - j],
            forall|j: int| 0 <= j < n ==> #[trigger] back_steps@[j] != start,
            forall|j: int| 0 <= j < n ==> came@[grid_index(#[trigger] back_steps@[j], w)] == Some(
                if j + 1 < n { back_steps@[j + 1] } else { start }),
            w == width as int,
        decreases n - k,
    {
        steps.push(back_steps[n - 1 - k]);
        costs.push(back_costs[n - 1 - k]);
        k += 1;
    }
    let mut reach: usize = 0;
    while reach < costs.len() && costs[reach] <= budget
        invariant
            reach <= costs@.len(),
            forall|k2: int| 0 <= k2 < reach ==> #[trigger] costs@[k2] <= budget,
        decreases costs@.len() - reach,
    {
        reach += 1;
    }
    proof {
        let walk = seq![start] + steps@;
        assert(walk =~= big);
        assert forall|j: int| 0 <= j < costs@.len() implies #[trigger] costs@[j] as int == walk_cost(sc, diagonals, walk.take(j + 2)) by {
            assert(costs@[j] == back_costs@[n - 1 - j]);
        }
        assert(walk_cost(sc, diagonals, walk) == best@[gi as int] as int);
        assert forall|j: int| 0 <= j < steps@.len() implies steps@[j] != start by {
            assert(steps@[j] == back_steps@[n - 1 - j]);
        }
        let kk = choose|k: nat| {
            let r = #[trigger] run_after(sc, diagonals, w, h, IMPASSABLE, start, Some(goal), k);
            &&& r.0 == best@
            &&& r.1 == came@
            &&& r.3 == found
            &&& (r.3 || r.2.len() == 0)
        };
        let r = run_after(sc, diagonals, w, h, IMPASSABLE, start, Some(goal), kk);
        assert forall|i: int| 0 <= i < steps@.len() implies r.1[grid_index(#[trigger] steps@[i], w)] == Some(
            if i == 0 { start } else { steps@[i - 1] }) by {
            assert(steps@[i] == back_steps@[n - 1 - i]);
            if i > 0 {
                assert(steps@[i - 1] == back_steps@[n - i]);
            }
        }
        assert(search_route(sc, diagonals, w, h, start, goal, steps@));
        assert(walk_between(sc, diagonals, w, h, walk, start, goal));
        assert forall|other: Seq<Cell>|
            #[trigger] walk_between(sc, diagonals, w, h, other, start, goal)
            implies walk_cost(sc, diagonals, walk) <= walk_cost(sc, diagonals, other) by {
            reveal(optimal_at);
            assert(walk_between(sc, diagonals, w, h, other, start, grid_cell(gi as int, w)));
        }
    }
    Some(Path { steps, costs, reach })
}

/// `v` is the least cost of a walk from `start` to `goal` that stays within
/// `budget` (and below [`IMPASSABLE`]), or [`IMPASSABLE`] when there is none.
pub open spec fn cheapest_within(
    cost: spec_fn(Cell) -> u32,
    diagonals: Diagonals,
    width: int,
    height: int,
    start: Cell,
    goal: Cell,
    budget: u32,
    v: u32,
) -> bool {
    &&& v < IMPASSABLE ==> v <= budget && exists|walk: Seq<Cell>|
        #[trigger] walk_between(cost, diagonals, width, height, walk, start, goal)
            && walk_cost(cost, diagonals, walk) == v as int
    &&& forall|walk: Seq<Cell>|
        #[trigger] walk_between(cost, diagonals, width, height, walk, start, goal)
            && walk_cost(cost, diagonals, walk) <= budget
            && walk_cost(cost, diagonals, walk) < IMPASSABLE
            ==> v as int <= walk_cost(cost, diagonals, walk)
}

/// Fills a cost-to-reach field from `start` out to `budget`.
///
/// Returns a `width * height` grid, row-major, holding for each cell the
/// least cost of reaching it within `budget`, or [`IMPASSABLE`] where it
/// cannot be reached (everywhere, when `start` is off the grid).
pub fn reachable<F: Fn(Cell) -> u32>(
    start: Cell,
    width: i32,
    height: i32,
    diagonals: Diagonals,
    budget: u32,
    cost: F,
) -> (field: Vec<u32>)
    requires
        cost_usable(cost, diagonals, width as int, height as int),
        0 <= width * height <= i32::MAX,
    ensures
        field@.len() == width * height,
        forall|i: int| 0 <= i < width * height ==> {
            if in_grid(start, width as int, height as int) {
                cheapest_within(entry_costs(cost), diagonals, width as int, height as int, start,
                    grid_cell(i, width as int), budget, #[trigger] field@[i])
            } else {
                field@[i] == IMPASSABLE
            }
        },
{
    if !in_bounds(start, width, height) {
        let n = (width * height) as usize;
        let mut field: Vec<u32> = Vec::new();
        let mut k: usize = 0;
        while k < n
            invariant
                n == width * height,
                k <= n,
                field@.len() == k,
                forall|t: int| 0 <= t < k ==> field@[t] == IMPASSABLE,
            decreases n - k,
        {
            field.push(IMPASSABLE);
            k += 1;
        }
        return field;
    }
    let ghost w = width as int;
    let ghost h = height as int;
    proof {
        lemma_agrees(cost);
    }
    let (best, _came, _found, Ghost(wit)) = search(start, None, width, height, diagonals, budget, &cost, Ghost(entry_costs(cost)));
    proof {
        assert forall|i: int| 0 <= i < w * h implies cheapest_within(entry_costs(cost), diagonals, w, h, start,
            grid_cell(i, w), budget, #[trigger] best@[i]) by {
            if best@[i] < IMPASSABLE {
                assert(walk_between(entry_costs(cost), diagonals, w, h, wit[i], start, grid_cell(i, w)));
            }
        }
    }
    best
}

/// The direction glyph for a step of sign `(sx, sy)`: an arrow for the four
/// cardinals, a slash for the diagonals, and a dot for no move.
pub open spec fn compass(sx: int, sy: int) -> char {
    if sx == 0 && sy == -1 {
        '\u{2191}'
    } else if sx == 0 && sy == 1 {
        '\u{2193}'
    } else if sx == 1 && sy == 0 {
        '\u{2192}'
    } else if sx == -1 && sy == 0 {
        '\u{2190}'
    } else if (sx == 1 && sy == -1) || (sx == -1 && sy == 1) {
        '/'
    } else if (sx == -1 && sy == -1) || (sx == 1 && sy == 1) {
        '\\'
    } else {
        '\u{00b7}'
    }
}

/// The sign of an integer: -1, 0 or 1.
pub open spec fn sign(v: int) -> int {
    if v < 0 { -1 } else if v > 0 { 1 } else { 0 }
}

fn signum(v: i32) -> (s: i32)
    ensures
        s == sign(v as int),
{
    if v < 0 { -1 } else if v > 0 { 1 } else { 0 }
}

/// The eight-way compass arrow pointing from `from` to `to`.
pub fn arrow(from: Cell, to: Cell) -> (c: char)
    requires
        i32::MIN <= to.x - from.x <= i32::MAX,
        i32::MIN <= to.y - from.y <= i32::MAX,
    ensures
        c == compass(sign(to.x - from.x), sign(to.y - from.y)),
{
    let sx = signum(to.x - from.x);
    let sy = signum(to.y - from.y);
    if sx == 0 && sy == -1 {
        '\u{2191}'
    } else if sx == 0 && sy == 1 {
        '\u{2193}'
    } else if sx == 1 && sy == 0 {
        '\u{2192}'
    } else if sx == -1 && sy == 0 {
        '\u{2190}'
    } else if (sx == 1 && sy == -1) || (sx == -1 && sy == 1) {
        '/'
    } else if (sx == -1 && sy == -1) || (sx == 1 && sy == 1) {
        '\\'
    } else {
        '\u{00b7}'
    }
}

// ── Laws ────────────────────────────────────────────────────────────────────

proof fn lemma_prefix_cost_monotone(
    cost: spec_fn(Cell) -> u32,
    diagonals: Diagonals,
    walk: Seq<Cell>,
    a: int,
    b: int,
)
    requires
        0 <= a <= b <= walk.len(),
    ensures
        walk_cost(cost, diagonals, walk.take(a)) <= walk_cost(cost, diagonals, walk.take(b)),
    decreases b - a,
{
    if a < b {
        lemma_prefix_cost_monotone(cost, diagonals, walk, a, b - 1);
        let t = walk.take(b);
        assert(t.drop_last() =~= walk.take(b - 1));
        if b >= 2 {
            assert(walk_cost(cost, diagonals, t) == walk_cost(cost, diagonals, walk.take(b - 1))
                + move_cost(cost, diagonals, t[t.len() - 2], t[t.len() - 1]) as int);
        }
    }
}

/// The cumulative costs of a least-cost route never decrease along it.
pub proof fn lemma_route_costs_nondecreasing(
    cost: spec_fn(Cell) -> u32,
    diagonals: Diagonals,
    width: int,
    height: int,
    start: Cell,
    goal: Cell,
    steps: Seq<Cell>,
    costs: Seq<u32>,
    j: int,
    k: int,
)
    requires
        least_cost_route(cost, diagonals, width, height, start, goal, steps, costs),
        0 <= j <= k < costs.len(),
    ensures
        costs[j] <= costs[k],
{
    let walk = seq![start] + steps;
    assert(costs[j] as int == walk_cost(cost, diagonals, walk.take(j + 2)));
    assert(costs[k] as int == walk_cost(cost, diagonals, walk.take(k + 2)));
    lemma_prefix_cost_monotone(cost, diagonals, walk, j + 2, k + 2);
}

/// The reach of a least-cost route splits it in two: every step before it
/// fits the budget and every step from it on does not.
pub proof fn lemma_reach_splits_route(
    cost: spec_fn(Cell) -> u32,
    diagonals: Diagonals,
    width: int,
    height: int,
    start: Cell,
    goal: Cell,
    steps: Seq<Cell>,
    costs: Seq<u32>,
    budget: u32,
    reach: int,
)
    requires
        least_cost_route(cost, diagonals, width, height, start, goal, steps, costs),
        reach_within(costs, budget, reach),
    ensures
        forall|k: int| 0 <= k < costs.len() ==> (#[trigger] costs[k] <= budget <==> k < reach),
        (reach == costs.len()) <==> costs.last() <= budget,
        (reach == 0) <==> costs[0] > budget,
{
    assert forall|k: int| 0 <= k < costs.len() implies (#[trigger] costs[k] <= budget <==> k < reach) by {
        if k >= reach {
            lemma_route_costs_nondecreasing(cost, diagonals, width, height, start, goal, steps, costs, reach, k);
        }
    }
    assert(costs.last() == costs[costs.len() - 1]);
}

/// [`find`] and [`reachable`] agree: the move-range field holds the route's
/// total cost at the goal when the whole route fits the budget, and
/// [`IMPASSABLE`] there when it does not.
pub proof fn lemma_route_agrees_with_field(
    cost: spec_fn(Cell) -> u32,
    diagonals: Diagonals,
    width: int,
    height: int,
    start: Cell,
    goal: Cell,
    steps: Seq<Cell>,
    costs: Seq<u32>,
    budget: u32,
    v: u32,
)
    requires
        least_cost_route(cost, diagonals, width, height, start, goal, steps, costs),
        cheapest_within(cost, diagonals, width, height, start, goal, budget, v),
    ensures
        costs.last() <= budget ==> v == costs.last(),
        costs.last() > budget ==> v == IMPASSABLE,
{
    let walk = seq![start] + steps;
    let n = costs.len() as int;
    assert(walk.take(n + 1) =~= walk);
    assert(costs[n - 1] as int == walk_cost(cost, diagonals, walk.take(n + 1)));
    assert(walk_between(cost, diagonals, width, height, walk, start, goal));
    if v < IMPASSABLE {
        let other = choose|other: Seq<Cell>|
            #[trigger] walk_between(cost, diagonals, width, height, other, start, goal)
                && walk_cost(cost, diagonals, other) == v as int;
        assert(walk_between(cost, diagonals, width, height, other, start, goal));
    }
}

} // verus!
