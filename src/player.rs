//! The controllable unit and the turn rule.
use crate::geometry::{center_spec, tile_to_center, world_to_tile, world_to_tile_spec, Tile, WorldPos};
use crate::grid::OccupancyGrid;
use crate::reach::{
    adjacent, down, least_cost, left, right, up, lemma_least_cost_is, move_cost, reachable, reachable_set, reaches,
};
use vstd::prelude::*;

verus! {

/// Movement budget a unit gets at the start of each turn.
pub const MOVES: u32 = 4;

/// The map holds no spawn marker for the unit.
#[derive(Clone, Copy, Debug, PartialEq, Eq, Structural)]
pub struct SpawnNotFound;

/// The unit: where it stands in world space and what is left of its
/// movement budget for this turn.
#[derive(Clone, Copy, Debug, PartialEq, Eq, Structural)]
pub struct Player {
    pub position: WorldPos,
    pub moves: u32,
}

/// Index of the first marked cell in `cells[from..]`, if any.
pub open spec fn first_marked_from(cells: Seq<(u32, u32, bool)>, from: int) -> Option<int>
    decreases cells.len() - from,
{
    if from < 0 || from >= cells.len() {
        None
    } else if cells[from].2 {
        Some(from)
    } else {
        first_marked_from(cells, from + 1)
    }
}

/// The tile of the first marked cell of the spawn layer.
pub open spec fn spawn_tile(cells: Seq<(u32, u32, bool)>) -> Option<Tile> {
    match first_marked_from(cells, 0) {
        Some(i) => Some((cells[i].0, cells[i].1)),
        None => None,
    }
}

/// The unit after it tries to move to `pos`: it moves, and pays the cheapest
/// path's cost, only where `pos` is within its budget.
pub open spec fn move_to_spec(p: Player, grid: &OccupancyGrid, pos: Tile) -> Player {
    let s = world_to_tile_spec(p.position);
    let bf = grid.blocked_fn();
    if reaches(bf, s, pos, p.moves as nat) {
        Player {
            position: center_spec(pos),
            moves: (p.moves - least_cost(bf, s, pos, p.moves as nat)) as u32,
        }
    } else {
        p
    }
}

/// The turn counter and unit after the turn rule: once the budget is spent
/// the counter goes up by one and the budget is refilled.
pub open spec fn advance_turn_spec(turn: u64, p: Player) -> (u64, Player) {
    if p.moves == 0 {
        ((turn + 1) as u64, Player { moves: MOVES, ..p })
    } else {
        (turn, p)
    }
}

impl Player {
    /// A unit on the first marked cell of the spawn layer, with a full
    /// budget; `SpawnNotFound` where no cell is marked.
    pub fn create(spawn_cells: &Vec<(u32, u32, bool)>) -> (r: Result<Player, SpawnNotFound>)
        ensures
            r is Err <==> spawn_tile(spawn_cells@) is None,
            r matches Ok(p) ==> p.position == center_spec(spawn_tile(spawn_cells@)->0)
                && p.moves == MOVES,
    {
        let mut i: usize = 0;
        while i < spawn_cells.len()
            invariant
                i <= spawn_cells@.len(),
                first_marked_from(spawn_cells@, 0) == first_marked_from(spawn_cells@, i as int),
            decreases spawn_cells@.len() - i,
        {
            let (x, y, marked) = spawn_cells[i];
            if marked {
                return Ok(Player { position: tile_to_center((x, y)), moves: MOVES });
            }
            i = i + 1;
        }
        Err(SpawnNotFound)
    }

    /// Refills the movement budget for a new turn.
    pub fn refresh(&mut self)
        ensures
            *final(self) == (Player { moves: MOVES, ..*old(self) }),
    {
        self.moves = MOVES;
    }

    /// The tile the unit stands on.
    pub fn tile_pos(&self) -> (r: Tile)
        ensures
            r == world_to_tile_spec(self.position),
    {
        world_to_tile(self.position)
    }

    /// Every tile the unit can move to with what is left of its budget.
    pub fn available_moves(&self, grid: &OccupancyGrid) -> (r: Vec<Tile>)
        requires
            grid.wf(),
        ensures
            forall|t: Tile|
                #![trigger r@.contains(t)]
                r@.contains(t) <==> reachable(
                    world_to_tile_spec(self.position),
                    self.moves as nat,
                    grid.blocked_fn(),
                ).contains(t),
            r@.no_duplicates(),
    {
        reachable_set(grid, self.tile_pos(), self.moves)
    }

    /// Moves to `pos` where it is within the budget, paying the cheapest
    /// path's cost; anywhere else nothing changes.
    pub fn move_to(&mut self, grid: &OccupancyGrid, pos: Tile)
        requires
            grid.wf(),
        ensures
            *final(self) == move_to_spec(*old(self), grid, pos),
            final(self).moves <= old(self).moves,
            !reachable(
                world_to_tile_spec(old(self).position),
                old(self).moves as nat,
                grid.blocked_fn(),
            ).contains(pos) ==> *final(self) == *old(self),
    {
        let start = self.tile_pos();
        if let Some(c) = move_cost(grid, start, self.moves, pos) {
            proof {
                lemma_least_cost_bounded(grid, start, pos, self.moves as nat);
            }
            self.moves = self.moves - c;
            self.position = tile_to_center(pos);
        }
    }
}

proof fn lemma_least_cost_bounded(grid: &OccupancyGrid, s: Tile, t: Tile, b: nat)
    ensures
        least_cost(grid.blocked_fn(), s, t, b) <= b,
{
    lemma_least_cost_from_bounded(grid.blocked_fn(), s, t, 0, b);
}

proof fn lemma_least_cost_from_bounded(
    blocked: spec_fn(Tile) -> bool,
    s: Tile,
    t: Tile,
    c: nat,
    b: nat,
)
    ensures
        crate::reach::least_cost_from(blocked, s, t, c, b) <= if c >= b { c } else { b },
    decreases b - c,
{
    if c < b && !reaches(blocked, s, t, c) {
        lemma_least_cost_from_bounded(blocked, s, t, c + 1, b);
    }
}

/// The turn rule: once the unit's budget is spent, counts one more turn and
/// refills the budget; otherwise does nothing.
pub fn advance_turn(turn: &mut u64, player: &mut Player)
    requires
        old(player).moves == 0 ==> *old(turn) < u64::MAX,
    ensures
        (*final(turn), *final(player)) == advance_turn_spec(*old(turn), *old(player)),
{
    if player.moves == 0 {
        *turn = *turn + 1;
        player.refresh();
    }
}

/// A unit with one move left that steps onto an open neighbouring tile ends
/// its turn: the turn rule then counts exactly one more turn and refills the
/// budget, and the unit stands on the new tile.
pub proof fn lemma_last_step_ends_turn(p: Player, grid: &OccupancyGrid, target: Tile, turn: u64)
    requires
        p.moves == 1,
        adjacent(world_to_tile_spec(p.position), target),
        !grid.blocked_at(target),
        turn < u64::MAX,
    ensures
        advance_turn_spec(turn, move_to_spec(p, grid, target)) == (
        (turn + 1) as u64,
        Player { position: center_spec(target), moves: MOVES },
        ),
{
    let s = world_to_tile_spec(p.position);
    let bf = grid.blocked_fn();
    assert(reaches(bf, s, s, 0));
    assert(left(target) == Some(s) || right(target) == Some(s) || up(target) == Some(s) || down(
        target,
    ) == Some(s));
    assert(reaches(bf, s, target, 1));
    lemma_least_cost_is(bf, s, target, 1, 1);
}

} // verus!
