use better_find_it::geometry::{dist, tile_to_center, world_to_tile, WorldPos};
use better_find_it::grid::OccupancyGrid;
use better_find_it::player::{advance_turn, Player, SpawnNotFound, MOVES};
use better_find_it::reach::{move_cost, reachable_set};

fn open_grid(w: u32, h: u32) -> OccupancyGrid {
    OccupancyGrid::new(w, h).unwrap()
}

fn sorted(mut v: Vec<(u32, u32)>) -> Vec<(u32, u32)> {
    v.sort();
    v
}

fn player_at(t: (u32, u32), moves: u32) -> Player {
    Player { position: tile_to_center(t), moves }
}

/// Start (3, 3) walled in on all sides but (3, 4).
fn walled_grid() -> OccupancyGrid {
    let mut g = open_grid(7, 7);
    for t in [(2, 2), (3, 2), (4, 2), (2, 3), (4, 3), (2, 4), (4, 4)] {
        g.set_blocked(t, true);
    }
    g
}

#[test]
fn open_map_five_by_five_budget_four() {
    let g = open_grid(5, 5);
    // Every cell of the 5×5 map lies within distance 4 of its centre.
    let r = reachable_set(&g, (2, 2), 4);
    assert_eq!(r.len(), 25);
    assert_eq!(reachable_set(&g, (2, 2), 2).len(), 13);
    for t in &r {
        assert!(dist(*t, (2, 2)) <= 4);
    }
    let mut p = player_at((2, 2), MOVES);
    assert_eq!(move_cost(&g, (2, 2), 4, (2, 0)), Some(2));
    p.move_to(&g, (2, 0));
    assert_eq!(p.moves, 2);
    assert_eq!(p.tile_pos(), (2, 0));
    assert_eq!(p.position, tile_to_center((2, 0)));
}

#[test]
fn open_map_matches_manhattan_ball() {
    let g = open_grid(9, 9);
    for b in 0..5u32 {
        let r = reachable_set(&g, (4, 4), b);
        let mut expected = Vec::new();
        for y in 0..9u32 {
            for x in 0..9u32 {
                if dist((x, y), (4, 4)) <= b as u64 {
                    expected.push((x, y));
                }
            }
        }
        assert_eq!(sorted(r), sorted(expected));
    }
    assert_eq!(reachable_set(&g, (4, 4), 3).len(), 25);
}

#[test]
fn wall_with_one_opening_routes_through_it() {
    let g = walled_grid();
    let r = sorted(reachable_set(&g, (3, 3), 2));
    assert_eq!(r, vec![(3, 3), (3, 4), (3, 5)]);
    let r4 = reachable_set(&g, (3, 3), 4);
    assert!(r4.contains(&(2, 5)));
    assert!(!r4.contains(&(3, 1)));
    assert!(!r4.contains(&(3, 2)));
    // Manhattan distance 2, but the way round the wall takes 10 steps.
    assert_eq!(move_cost(&g, (3, 3), 9, (3, 1)), None);
    assert_eq!(move_cost(&g, (3, 3), 12, (3, 1)), Some(10));
    assert_eq!(move_cost(&g, (3, 3), 4, (2, 5)), Some(3));
}

#[test]
fn start_always_included() {
    let mut g = walled_grid();
    g.set_blocked((3, 3), true);
    let r = reachable_set(&g, (3, 3), 3);
    assert!(r.contains(&(3, 3)));
    assert_eq!(move_cost(&g, (3, 3), 3, (3, 3)), Some(0));
}

#[test]
fn zero_budget_is_only_start() {
    let g = open_grid(5, 5);
    assert_eq!(reachable_set(&g, (1, 3), 0), vec![(1, 3)]);
    let g = walled_grid();
    assert_eq!(reachable_set(&g, (3, 3), 0), vec![(3, 3)]);
}

#[test]
fn larger_budget_keeps_tiles() {
    let g = walled_grid();
    for b in 0..6u32 {
        let small = reachable_set(&g, (3, 3), b);
        let large = reachable_set(&g, (3, 3), b + 1);
        for t in &small {
            assert!(large.contains(t));
        }
    }
}

#[test]
fn boundary_start_treats_outside_as_blocked() {
    let g = open_grid(5, 5);
    let r = sorted(reachable_set(&g, (0, 0), 1));
    assert_eq!(r, vec![(0, 0), (0, 1), (1, 0)]);
}

#[test]
fn start_outside_map() {
    let g = open_grid(5, 5);
    let r = sorted(reachable_set(&g, (5, 2), 1));
    assert_eq!(r, vec![(4, 2), (5, 2)]);
}

#[test]
fn illegal_move_changes_nothing() {
    let g = walled_grid();
    let mut p = player_at((3, 3), MOVES);
    let before = p;
    p.move_to(&g, (3, 1));
    assert_eq!(p, before);
    p.move_to(&g, (3, 2));
    assert_eq!(p, before);
    p.move_to(&g, (100, 100));
    assert_eq!(p, before);
    let mut q = player_at((2, 2), 1);
    let open = open_grid(5, 5);
    let before = q;
    q.move_to(&open, (4, 2));
    assert_eq!(q, before);
}

#[test]
fn center_round_trip() {
    for t in [(0, 0), (1, 2), (7, 3), (u32::MAX, 0), (u32::MAX, u32::MAX)] {
        assert_eq!(world_to_tile(tile_to_center(t)), t);
    }
    assert_eq!(tile_to_center((3, 0)), WorldPos { x: 7, y: 1 });
}

#[test]
fn world_to_tile_floors_and_clamps() {
    assert_eq!(world_to_tile(WorldPos { x: 5, y: 4 }), (2, 2));
    assert_eq!(world_to_tile(WorldPos { x: -3, y: 1 }), (0, 0));
    assert_eq!(world_to_tile(WorldPos { x: i64::MAX, y: 0 }), (u32::MAX, 0));
}

#[test]
fn last_move_ends_turn() {
    let g = open_grid(5, 5);
    let mut p = player_at((2, 2), 1);
    let mut turn: u64 = 1;
    p.move_to(&g, (2, 3));
    assert_eq!(p.moves, 0);
    advance_turn(&mut turn, &mut p);
    assert_eq!(turn, 2);
    assert_eq!(p.moves, 4);
    assert_eq!(p.tile_pos(), (2, 3));
    advance_turn(&mut turn, &mut p);
    assert_eq!(turn, 2);
    assert_eq!(p.moves, 4);
}

#[test]
fn refresh_restores_budget() {
    let mut p = player_at((1, 1), 0);
    p.refresh();
    assert_eq!(p.moves, MOVES);
    assert_eq!(p.tile_pos(), (1, 1));
}

#[test]
fn distance_is_manhattan_without_overflow() {
    assert_eq!(dist((3, 5), (1, 9)), 6);
    assert_eq!(dist((1, 9), (3, 5)), 6);
    assert_eq!(dist((0, 0), (u32::MAX, u32::MAX)), 2 * u32::MAX as u64);
}

#[test]
fn create_finds_first_marker() {
    let cells = vec![(0, 0, false), (1, 0, false), (2, 3, true), (4, 4, true)];
    let p = Player::create(&cells).unwrap();
    assert_eq!(p.tile_pos(), (2, 3));
    assert_eq!(p.moves, MOVES);
}

#[test]
fn create_without_marker_fails() {
    let cells = vec![(0, 0, false), (1, 0, false)];
    assert_eq!(Player::create(&cells), Err(SpawnNotFound));
    assert_eq!(Player::create(&Vec::new()), Err(SpawnNotFound));
}

#[test]
fn grid_from_cells() {
    let cells = vec![(0, 0, false), (1, 0, true), (2, 0, false), (9, 9, true)];
    let g = OccupancyGrid::from_cells(3, 2, &cells).unwrap();
    assert!(!g.is_blocked((0, 0)));
    assert!(g.is_blocked((1, 0)));
    assert!(!g.is_blocked((2, 1)));
    assert!(g.is_blocked((3, 0)));
    assert!(g.is_blocked((9, 9)));
    assert_eq!(g.width(), 3);
    assert_eq!(g.height(), 2);
    let mut h = open_grid(3, 2);
    h.set_blocked((2, 1), true);
    h.set_blocked((7, 1), true);
    assert!(h.is_blocked((2, 1)));
    h.set_blocked((2, 1), false);
    assert!(!h.is_blocked((2, 1)));
}

#[test]
fn huge_budget_stops_at_map_edge() {
    let g = walled_grid();
    let r = reachable_set(&g, (3, 3), u32::MAX);
    assert_eq!(r.len(), 49 - 7);
    assert_eq!(move_cost(&g, (3, 3), u32::MAX, (3, 1)), Some(10));
}
