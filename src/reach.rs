//! Budget-limited reachability over the 4-connected grid.
use crate::geometry::{manhattan, Tile};
use crate::grid::OccupancyGrid;
use vstd::prelude::*;
use vstd::seq_lib::lemma_seq_contains_after_push;

verus! {

/// Two tiles share an edge.
pub open spec fn adjacent(a: Tile, b: Tile) -> bool {
    manhattan(a, b) == 1
}

/// The tile one column to the left, where there is one.
pub open spec fn left(t: Tile) -> Option<Tile> {
    if t.0 > 0 { Some(((t.0 - 1) as u32, t.1)) } else { None }
}

/// The tile one column to the right, where there is one.
pub open spec fn right(t: Tile) -> Option<Tile> {
    if t.0 < u32::MAX { Some(((t.0 + 1) as u32, t.1)) } else { None }
}

/// The tile one row up, where there is one.
pub open spec fn up(t: Tile) -> Option<Tile> {
    if t.1 > 0 { Some((t.0, (t.1 - 1) as u32)) } else { None }
}

/// The tile one row down, where there is one.
pub open spec fn down(t: Tile) -> Option<Tile> {
    if t.1 < u32::MAX { Some((t.0, (t.1 + 1) as u32)) } else { None }
}

/// `t` can be reached from `s` in at most `b` steps of one tile each, up,
/// down, left or right, every step landing on a tile that is not blocked.
/// The start itself needs no steps, blocked or not.
pub open spec fn reaches(blocked: spec_fn(Tile) -> bool, s: Tile, t: Tile, b: nat) -> bool
    decreases b,
{
    if b == 0 {
        t == s
    } else {
        let p = (b - 1) as nat;
        reaches(blocked, s, t, p) || (!blocked(t) && (
        (left(t) matches Some(u) && reaches(blocked, s, u, p))
        || (right(t) matches Some(u) && reaches(blocked, s, u, p))
        || (up(t) matches Some(u) && reaches(blocked, s, u, p))
        || (down(t) matches Some(u) && reaches(blocked, s, u, p))))
    }
}

/// Every tile reachable from `s` within a budget of `b`.
pub open spec fn reachable(s: Tile, b: nat, blocked: spec_fn(Tile) -> bool) -> Set<Tile> {
    Set::new(|t: Tile| reaches(blocked, s, t, b))
}

/// The least cost in `c ..= b` at which `t` is reachable, or `b` if none is.
pub open spec fn least_cost_from(
    blocked: spec_fn(Tile) -> bool,
    s: Tile,
    t: Tile,
    c: nat,
    b: nat,
) -> nat
    decreases b - c,
{
    if c >= b || reaches(blocked, s, t, c) {
        c
    } else {
        least_cost_from(blocked, s, t, c + 1, b)
    }
}

/// The cost of the cheapest path from `s` to `t`, for a tile reachable
/// within `b`.
pub open spec fn least_cost(blocked: spec_fn(Tile) -> bool, s: Tile, t: Tile, b: nat) -> nat {
    least_cost_from(blocked, s, t, 0, b)
}

/// A larger budget reaches at least the same tiles.
pub proof fn lemma_reaches_monotone(
    blocked: spec_fn(Tile) -> bool,
    s: Tile,
    t: Tile,
    b1: nat,
    b2: nat,
)
    requires
        b1 <= b2,
        reaches(blocked, s, t, b1),
    ensures
        reaches(blocked, s, t, b2),
    decreases b2,
{
    if b1 < b2 {
        lemma_reaches_monotone(blocked, s, t, b1, (b2 - 1) as nat);
    }
}

/// Every tile reached other than the start is open.
pub proof fn lemma_reached_is_open(blocked: spec_fn(Tile) -> bool, s: Tile, t: Tile, b: nat)
    requires
        reaches(blocked, s, t, b),
        t != s,
    ensures
        !blocked(t),
    decreases b,
{
    if b > 0 && reaches(blocked, s, t, (b - 1) as nat) {
        lemma_reached_is_open(blocked, s, t, (b - 1) as nat);
    }
}

/// A cost `c` at which `t` is reached while it is not at `c - 1` is the
/// least cost, for any budget of at least `c`.
pub proof fn lemma_least_cost_is(
    blocked: spec_fn(Tile) -> bool,
    s: Tile,
    t: Tile,
    c: nat,
    b: nat,
)
    requires
        c <= b,
        reaches(blocked, s, t, c),
        c == 0 || !reaches(blocked, s, t, (c - 1) as nat),
    ensures
        least_cost(blocked, s, t, b) == c,
{
    lemma_least_cost_from(blocked, s, t, c, b, 0);
}

proof fn lemma_least_cost_from(
    blocked: spec_fn(Tile) -> bool,
    s: Tile,
    t: Tile,
    c: nat,
    b: nat,
    k: nat,
)
    requires
        k <= c <= b,
        reaches(blocked, s, t, c),
        c == 0 || !reaches(blocked, s, t, (c - 1) as nat),
    ensures
        least_cost_from(blocked, s, t, k, b) == c,
    decreases c - k,
{
    if k < c {
        if reaches(blocked, s, t, k) {
            lemma_reaches_monotone(blocked, s, t, k, (c - 1) as nat);
        }
        lemma_least_cost_from(blocked, s, t, c, b, k + 1);
    }
}

/// The start tile is always reachable, whatever the budget.
pub proof fn lemma_start_reachable(s: Tile, b: nat, blocked: spec_fn(Tile) -> bool)
    ensures
        reachable(s, b, blocked).contains(s),
{
    lemma_reaches_monotone(blocked, s, s, 0, b);
}

/// With no budget, only the start is reachable.
pub proof fn lemma_zero_budget(s: Tile, blocked: spec_fn(Tile) -> bool)
    ensures
        reachable(s, 0, blocked) == set![s],
{
    assert(reachable(s, 0, blocked) =~= set![s]);
}

/// A larger budget never loses a reachable tile.
pub proof fn lemma_reachable_monotone(s: Tile, b1: nat, b2: nat, blocked: spec_fn(Tile) -> bool)
    requires
        b1 <= b2,
    ensures
        reachable(s, b1, blocked).subset_of(reachable(s, b2, blocked)),
{
    assert forall|t: Tile| reachable(s, b1, blocked).contains(t) implies reachable(
        s,
        b2,
        blocked,
    ).contains(t) by {
        lemma_reaches_monotone(blocked, s, t, b1, b2);
    }
}

/// On a map where nothing is blocked, the reachable tiles are exactly those
/// within Manhattan distance `b` of the start.
pub proof fn lemma_open_map_is_manhattan_ball(s: Tile, b: nat)
    ensures
        reachable(s, b, |t: Tile| false) == Set::new(|t: Tile| manhattan(s, t) <= b),
{
    let open = |t: Tile| false;
    assert forall|t: Tile| reaches(open, s, t, b) <==> manhattan(s, t) <= b by {
        lemma_open_reaches(open, s, t, b);
    }
    assert(reachable(s, b, open) =~= Set::new(|t: Tile| manhattan(s, t) <= b));
}

proof fn lemma_open_reaches(open: spec_fn(Tile) -> bool, s: Tile, t: Tile, b: nat)
    requires
        forall|u: Tile| !#[trigger] open(u),
    ensures
        reaches(open, s, t, b) <==> manhattan(s, t) <= b,
    decreases b,
{
    if b > 0 {
        let p = (b - 1) as nat;
        lemma_open_reaches(open, s, t, p);
        if let Some(u) = left(t) {
            lemma_open_reaches(open, s, u, p);
        }
        if let Some(u) = right(t) {
            lemma_open_reaches(open, s, u, p);
        }
        if let Some(u) = up(t) {
            lemma_open_reaches(open, s, u, p);
        }
        if let Some(u) = down(t) {
            lemma_open_reaches(open, s, u, p);
        }
    }
}

/// `c` is what a budget of `k` knows of `t`: `None` where `t` is out of
/// reach, else the least cost of reaching it.
pub open spec fn cost_ok(g: &OccupancyGrid, s: Tile, t: Tile, c: Option<u32>, k: nat) -> bool {
    let bf = g.blocked_fn();
    &&& (c is Some <==> reaches(bf, s, t, k))
    &&& (c matches Some(v) ==> v <= k && reaches(bf, s, t, v as nat) && (v == 0 || !reaches(
        bf,
        s,
        t,
        (v - 1) as nat,
    )))
}

/// One entry per cell of the map, each right for a budget of `k`.
pub open spec fn layer_ok(g: &OccupancyGrid, s: Tile, costs: Seq<Option<u32>>, k: nat) -> bool {
    &&& costs.len() == g.cell_count()
    &&& forall|i: int| 0 <= i < costs.len() ==> #[trigger] cost_ok(g, s, g.tile_of(i), costs[i], k)
}

fn cost_at(
    g: &OccupancyGrid,
    s: Tile,
    costs: &Vec<Option<u32>>,
    t: Tile,
    Ghost(k): Ghost<nat>,
) -> (r: Option<u32>)
    requires
        g.wf(),
        layer_ok(g, s, costs@, k),
    ensures
        cost_ok(g, s, t, r, k),
{
    if t.0 == s.0 && t.1 == s.1 {
        proof {
            lemma_reaches_monotone(g.blocked_fn(), s, t, 0, k);
        }
        Some(0)
    } else if t.0 < g.width() && t.1 < g.height() {
        let i = g.index_of(t);
        proof {
            g.lemma_index(t);
            assert(cost_ok(g, s, g.tile_of(i as int), costs@[i as int], k));
        }
        costs[i]
    } else {
        proof {
            g.lemma_outside_blocked(t);
            if reaches(g.blocked_fn(), s, t, k) {
                lemma_reached_is_open(g.blocked_fn(), s, t, k);
            }
        }
        None
    }
}

fn next_cost(g: &OccupancyGrid, s: Tile, costs: &Vec<Option<u32>>, t: Tile, k: u32) -> (r: Option<
    u32,
>)
    requires
        g.wf(),
        layer_ok(g, s, costs@, k as nat),
        k < u32::MAX,
    ensures
        cost_ok(g, s, t, r, (k + 1) as nat),
{
    let ghost bf = g.blocked_fn();
    let ghost gk = k as nat;
    let cur = cost_at(g, s, costs, t, Ghost(gk));
    if cur.is_some() {
        return cur;
    }
    if g.is_blocked(t) {
        return None;
    }
    let mut found = false;
    if t.0 > 0 && cost_at(g, s, costs, ((t.0 - 1) as u32, t.1), Ghost(gk)).is_some() {
        found = true;
    }
    if t.0 < u32::MAX && cost_at(g, s, costs, ((t.0 + 1) as u32, t.1), Ghost(gk)).is_some() {
        found = true;
    }
    if t.1 > 0 && cost_at(g, s, costs, (t.0, (t.1 - 1) as u32), Ghost(gk)).is_some() {
        found = true;
    }
    if t.1 < u32::MAX && cost_at(g, s, costs, (t.0, (t.1 + 1) as u32), Ghost(gk)).is_some() {
        found = true;
    }
    proof {
        assert(reaches(bf, s, t, (k + 1) as nat) == found);
    }
    if found {
        Some(k + 1)
    } else {
        None
    }
}

fn initial_layer(g: &OccupancyGrid, s: Tile) -> (r: Vec<Option<u32>>)
    requires
        g.wf(),
    ensures
        layer_ok(g, s, r@, 0),
{
    let n = g.cells();
    let mut costs: Vec<Option<u32>> = Vec::new();
    while costs.len() < n
        invariant
            costs@.len() <= n,
            n == g.cell_count(),
            forall|i: int| 0 <= i < costs@.len() ==> costs@[i] is None,
        decreases n - costs@.len(),
    {
        costs.push(None);
    }
    if s.0 < g.width() && s.1 < g.height() {
        let i = g.index_of(s);
        costs.set(i, Some(0));
    }
    proof {
        assert forall|i: int| 0 <= i < costs@.len() implies #[trigger] cost_ok(
            g,
            s,
            g.tile_of(i),
            costs@[i],
            0,
        ) by {
            g.lemma_tile_of(i);
            if g.in_grid(s) {
                g.lemma_index(s);
            }
        }
    }
    costs
}

fn next_layer(g: &OccupancyGrid, s: Tile, costs: &Vec<Option<u32>>, k: u32) -> (r: Vec<
    Option<u32>,
>)
    requires
        g.wf(),
        layer_ok(g, s, costs@, k as nat),
        k < u32::MAX,
    ensures
        layer_ok(g, s, r@, (k + 1) as nat),
{
    let n = costs.len();
    let mut next: Vec<Option<u32>> = Vec::new();
    let mut i: usize = 0;
    while i < n
        invariant
            g.wf(),
            layer_ok(g, s, costs@, k as nat),
            k < u32::MAX,
            n == g.cell_count(),
            i <= n,
            next@.len() == i,
            forall|j: int| 0 <= j < i ==> #[trigger] cost_ok(g, s, g.tile_of(j), next@[j], (k + 1) as nat),
        decreases n - i,
    {
        let t = g.tile_at(i);
        let c = next_cost(g, s, costs, t, k);
        next.push(c);
        i = i + 1;
    }
    next
}

/// Once one more step reaches nothing new, no larger budget does either.
proof fn lemma_stable(blocked: spec_fn(Tile) -> bool, s: Tile, t: Tile, k: nat, j: nat)
    requires
        k <= j,
        forall|u: Tile| #[trigger] reaches(blocked, s, u, k + 1) == reaches(blocked, s, u, k),
    ensures
        reaches(blocked, s, t, j) == reaches(blocked, s, t, k),
    decreases j,
{
    if j > k {
        let p = (j - 1) as nat;
        lemma_stable(blocked, s, t, k, p);
        if let Some(u) = left(t) {
            lemma_stable(blocked, s, u, k, p);
        }
        if let Some(u) = right(t) {
            lemma_stable(blocked, s, u, k, p);
        }
        if let Some(u) = up(t) {
            lemma_stable(blocked, s, u, k, p);
        }
        if let Some(u) = down(t) {
            lemma_stable(blocked, s, u, k, p);
        }
        assert(reaches(blocked, s, t, k + 1) == reaches(blocked, s, t, k));
    }
}

/// Whether two layers mark the same cells as reachable.
fn same_cells(a: &Vec<Option<u32>>, b: &Vec<Option<u32>>) -> (r: bool)
    requires
        a@.len() == b@.len(),
    ensures
        r == forall|i: int| 0 <= i < a@.len() ==> (a@[i] is Some <==> b@[i] is Some),
{
    let mut i: usize = 0;
    while i < a.len()
        invariant
            a@.len() == b@.len(),
            i <= a@.len(),
            forall|j: int| 0 <= j < i ==> (a@[j] is Some <==> b@[j] is Some),
        decreases a@.len() - i,
    {
        if a[i].is_some() != b[i].is_some() {
            return false;
        }
        i = i + 1;
    }
    true
}

/// Cost of every cell of the map for a budget of `budget`. Stops early
/// once a step reaches no new cell.
fn layer_for(g: &OccupancyGrid, s: Tile, budget: u32) -> (r: Vec<Option<u32>>)
    requires
        g.wf(),
    ensures
        layer_ok(g, s, r@, budget as nat),
{
    let ghost bf = g.blocked_fn();
    let mut costs = initial_layer(g, s);
    let mut k: u32 = 0;
    while k < budget
        invariant
            g.wf(),
            k <= budget,
            bf == g.blocked_fn(),
            layer_ok(g, s, costs@, k as nat),
        decreases budget - k,
    {
        let next = next_layer(g, s, &costs, k);
        if same_cells(&costs, &next) {
            proof {
                let kk = k as nat;
                assert forall|u: Tile| #[trigger]
                    reaches(bf, s, u, kk + 1) == reaches(bf, s, u, kk) by {
                    if g.in_grid(u) {
                        g.lemma_index(u);
                        let i = g.index(u);
                        assert(cost_ok(g, s, g.tile_of(i), costs@[i], kk));
                        assert(cost_ok(g, s, g.tile_of(i), next@[i], kk + 1));
                    } else if u != s {
                        g.lemma_outside_blocked(u);
                        if reaches(bf, s, u, kk + 1) {
                            lemma_reached_is_open(bf, s, u, kk + 1);
                        }
                        if reaches(bf, s, u, kk) {
                            lemma_reached_is_open(bf, s, u, kk);
                        }
                    } else {
                        lemma_reaches_monotone(bf, s, u, 0, kk);
                        lemma_reaches_monotone(bf, s, u, 0, kk + 1);
                    }
                }
                assert forall|i: int| 0 <= i < costs@.len() implies #[trigger] cost_ok(
                    g,
                    s,
                    g.tile_of(i),
                    costs@[i],
                    budget as nat,
                ) by {
                    assert(cost_ok(g, s, g.tile_of(i), costs@[i], kk));
                    lemma_stable(bf, s, g.tile_of(i), kk, budget as nat);
                }
            }
            return costs;
        }
        costs = next;
        k = k + 1;
    }
    costs
}

/// Every tile reachable from `start` with a budget of `budget` on `grid`,
/// each listed once.
pub fn reachable_set(grid: &OccupancyGrid, start: Tile, budget: u32) -> (r: Vec<Tile>)
    requires
        grid.wf(),
    ensures
        forall|t: Tile|
            #![trigger r@.contains(t)]
            r@.contains(t) <==> reachable(start, budget as nat, grid.blocked_fn()).contains(t),
        r@.no_duplicates(),
{
    let ghost bf = grid.blocked_fn();
    let costs = layer_for(grid, start, budget);
    let n = costs.len();
    let mut r: Vec<Tile> = Vec::new();
    let mut i: usize = 0;
    while i < n
        invariant
            grid.wf(),
            layer_ok(grid, start, costs@, budget as nat),
            n == grid.cell_count(),
            i <= n,
            r@.no_duplicates(),
            forall|t: Tile|
                #![trigger r@.contains(t)]
                r@.contains(t) <==> (grid.in_grid(t) && grid.index(t) < i && costs@[grid.index(
                    t,
                )] is Some),
        decreases n - i,
    {
        let t = grid.tile_at(i);
        if costs[i].is_some() {
            proof {
                assert(!r@.contains(t));
            }
            let ghost old_r = r@;
            r.push(t);
            proof {
                assert forall|u: Tile| #![trigger r@.contains(u)] r@.contains(u) <==> (grid.in_grid(u)
                    && grid.index(u) < i + 1 && costs@[grid.index(u)] is Some) by {
                    lemma_seq_contains_after_push(old_r, t, u);
                    if grid.in_grid(u) {
                        grid.lemma_index(u);
                    }
                }
            }
        }
        i = i + 1;
    }
    if !(start.0 < grid.width() && start.1 < grid.height()) {
        proof {
            assert(!r@.contains(start));
        }
        let ghost old_r = r@;
        r.push(start);
        proof {
            assert forall|u: Tile| #![trigger r@.contains(u)] r@.contains(u) <==> (old_r.contains(u)
                || u == start) by {
                lemma_seq_contains_after_push(old_r, start, u);
            }
        }
    }
    proof {
        assert forall|t: Tile|
            #![trigger r@.contains(t)]
            r@.contains(t) <==> reachable(start, budget as nat, bf).contains(t) by {
            if grid.in_grid(t) {
                grid.lemma_index(t);
                assert(cost_ok(grid, start, grid.tile_of(grid.index(t)), costs@[grid.index(t)], budget as nat));
            } else {
                grid.lemma_outside_blocked(t);
                lemma_reaches_monotone(bf, start, start, 0, budget as nat);
                if t != start && reaches(bf, start, t, budget as nat) {
                    lemma_reached_is_open(bf, start, t, budget as nat);
                }
            }
        }
    }
    r
}

/// What a move from `start` to `target` costs with a budget of `budget`: the
/// length of the cheapest path, or `None` where `target` is out of reach.
pub fn move_cost(grid: &OccupancyGrid, start: Tile, budget: u32, target: Tile) -> (r: Option<u32>)
    requires
        grid.wf(),
    ensures
        r == if reaches(grid.blocked_fn(), start, target, budget as nat) {
            Some(least_cost(grid.blocked_fn(), start, target, budget as nat) as u32)
        } else {
            None::<u32>
        },
{
    let costs = layer_for(grid, start, budget);
    let r = cost_at(grid, start, &costs, target, Ghost(budget as nat));
    proof {
        if let Some(c) = r {
            lemma_least_cost_is(grid.blocked_fn(), start, target, c as nat, budget as nat);
        }
    }
    r
}

} // verus!
