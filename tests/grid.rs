use game_of_life::cell::{Life, LifeState};
use game_of_life::grid::{count_alive_in, grid_lines, Game};

fn alive_positions(game: &Game) -> Vec<(i32, i32)> {
    let mut out: Vec<(i32, i32)> = game
        .positions()
        .into_iter()
        .filter(|&(x, y)| game.state_at(x, y) == Some(LifeState::Alive))
        .collect();
    out.sort();
    out
}

fn grid_with(width: u32, height: u32, size: u32, alive: &[(i32, i32)]) -> Game {
    let mut game = Game::new(width, height, size);
    for &p in alive {
        game.set_state(p, LifeState::Alive);
    }
    game
}

#[test]
fn rule_for_live_cells() {
    for n in 0..=8usize {
        let expected = if n == 2 || n == 3 { LifeState::Alive } else { LifeState::Dead };
        assert_eq!(LifeState::Alive.next(n), expected, "live cell with {} live neighbours", n);
    }
}

#[test]
fn rule_for_dead_cells() {
    for n in 0..=8usize {
        let expected = if n == 3 { LifeState::Alive } else { LifeState::Dead };
        assert_eq!(LifeState::Dead.next(n), expected, "dead cell with {} live neighbours", n);
    }
}

#[test]
fn toggled_flips_state() {
    assert_eq!(LifeState::Alive.toggled(), LifeState::Dead);
    assert_eq!(LifeState::Dead.toggled(), LifeState::Alive);
}

#[test]
fn new_grid_covers_whole_squares_only() {
    let game = Game::new(35, 20, 10);
    let mut positions = game.positions();
    positions.sort();
    assert_eq!(positions, vec![(0, 0), (0, 10), (10, 0), (10, 10), (20, 0), (20, 10)]);
    for (x, y) in positions {
        assert_eq!(game.state_at(x, y), Some(LifeState::Dead));
    }
    assert_eq!(game.state_at(30, 0), None);
    assert_eq!(game.cube_size(), 10);
}

#[test]
fn empty_area_gives_empty_grid() {
    let game = Game::new(5, 100, 10);
    assert!(game.positions().is_empty());
}

#[test]
fn dead_grid_stays_dead() {
    let mut game = Game::new(50, 40, 10);
    for _ in 0..3 {
        game.apply_rules_to_each_lifes();
        assert!(alive_positions(&game).is_empty());
    }
    assert_eq!(game.positions().len(), 20);
}

#[test]
fn lone_center_of_three_by_three_dies() {
    let mut game = grid_with(30, 30, 10, &[(10, 10)]);
    game.apply_rules_to_each_lifes();
    assert!(alive_positions(&game).is_empty());
    assert_eq!(game.positions().len(), 9);
}

#[test]
fn neighbours_at_corner_edge_and_inside() {
    let game = Game::new(30, 30, 10);
    let corner = game.get_neighbors(&Life { x: 0, y: 0, state: LifeState::Dead });
    assert_eq!(corner.len(), 3);
    let edge = game.get_neighbors(&Life { x: 10, y: 0, state: LifeState::Dead });
    assert_eq!(edge.len(), 5);
    let inside = game.get_neighbors(&Life { x: 10, y: 10, state: LifeState::Dead });
    assert_eq!(inside.len(), 8);
}

#[test]
fn neighbours_come_in_fixed_order() {
    let game = Game::new(30, 30, 10);
    let inside = game.get_neighbors(&Life { x: 10, y: 10, state: LifeState::Dead });
    let positions: Vec<(i32, i32)> = inside.iter().map(|l| (l.x, l.y)).collect();
    assert_eq!(
        positions,
        vec![(0, 0), (0, 10), (0, 20), (10, 0), (10, 20), (20, 0), (20, 10), (20, 20)]
    );
    let corner = game.get_neighbors(&Life { x: 20, y: 20, state: LifeState::Dead });
    let positions: Vec<(i32, i32)> = corner.iter().map(|l| (l.x, l.y)).collect();
    assert_eq!(positions, vec![(10, 10), (10, 20), (20, 10)]);
}

#[test]
fn neighbours_at_extreme_coordinates() {
    let game = Game::new(30, 30, 10);
    let far = game.get_neighbors(&Life { x: i32::MAX, y: i32::MIN, state: LifeState::Dead });
    assert!(far.is_empty());
}

#[test]
fn counting_live_cells() {
    let cells = vec![
        Life { x: 0, y: 0, state: LifeState::Alive },
        Life { x: 1, y: 0, state: LifeState::Dead },
        Life { x: 2, y: 0, state: LifeState::Alive },
    ];
    assert_eq!(count_alive_in(&cells), 2);
    assert_eq!(count_alive_in(&Vec::new()), 0);
}

#[test]
fn next_state_at_counts_live_neighbours() {
    let game = grid_with(30, 30, 10, &[(0, 0), (10, 0), (20, 0)]);
    assert_eq!(game.next_state_at((10, 10)), LifeState::Alive);
    assert_eq!(game.next_state_at((10, 0)), LifeState::Alive);
    assert_eq!(game.next_state_at((0, 0)), LifeState::Dead);
    assert_eq!(game.next_state_at((0, 20)), LifeState::Dead);
}

#[test]
fn block_is_still_life() {
    let block = [(10, 10), (20, 10), (10, 20), (20, 20)];
    let mut game = grid_with(40, 40, 10, &block);
    for _ in 0..4 {
        game.apply_rules_to_each_lifes();
        assert_eq!(alive_positions(&game), vec![(10, 10), (10, 20), (20, 10), (20, 20)]);
    }
}

#[test]
fn block_in_corner_is_still_life() {
    let mut game = grid_with(20, 20, 10, &[(0, 0), (10, 0), (0, 10), (10, 10)]);
    game.apply_rules_to_each_lifes();
    assert_eq!(alive_positions(&game), vec![(0, 0), (0, 10), (10, 0), (10, 10)]);
}

#[test]
fn blinker_turns_and_returns() {
    let row = [(10, 20), (20, 20), (30, 20)];
    let mut game = grid_with(50, 50, 10, &row);
    game.apply_rules_to_each_lifes();
    assert_eq!(alive_positions(&game), vec![(20, 10), (20, 20), (20, 30)]);
    game.apply_rules_to_each_lifes();
    assert_eq!(alive_positions(&game), vec![(10, 20), (20, 20), (30, 20)]);
}

#[test]
fn step_is_deterministic() {
    let pattern = [(0, 0), (10, 0), (20, 10), (10, 20), (30, 30), (40, 30)];
    let mut a = grid_with(60, 50, 10, &pattern);
    let mut b = grid_with(60, 50, 10, &pattern);
    for _ in 0..5 {
        a.apply_rules_to_each_lifes();
        b.apply_rules_to_each_lifes();
        assert_eq!(alive_positions(&a), alive_positions(&b));
    }
}

#[test]
fn glider_moves_one_square_diagonally() {
    let glider = [(10, 0), (20, 10), (0, 20), (10, 20), (20, 20)];
    let mut game = grid_with(80, 80, 10, &glider);
    for _ in 0..4 {
        game.apply_rules_to_each_lifes();
    }
    assert_eq!(alive_positions(&game), vec![(10, 30), (20, 10), (20, 30), (30, 20), (30, 30)]);
}

#[test]
fn set_state_outside_grid_changes_nothing() {
    let mut game = Game::new(20, 20, 10);
    game.set_state((5, 5), LifeState::Alive);
    game.set_state((100, 0), LifeState::Alive);
    assert!(alive_positions(&game).is_empty());
    game.set_state((10, 0), LifeState::Alive);
    assert_eq!(alive_positions(&game), vec![(10, 0)]);
}

#[test]
fn toggle_snaps_pixel_to_its_square() {
    let mut game = Game::new(30, 30, 10);
    game.toggle_at(17, 29);
    assert_eq!(alive_positions(&game), vec![(10, 20)]);
    game.toggle_at(10, 20);
    assert!(alive_positions(&game).is_empty());
    game.toggle_at(35, 5);
    assert!(alive_positions(&game).is_empty());
}

#[test]
fn clear_kills_every_cell() {
    let mut game = grid_with(30, 30, 10, &[(0, 0), (10, 10), (20, 20)]);
    game.clear();
    assert!(alive_positions(&game).is_empty());
    assert_eq!(game.positions().len(), 9);
}

#[test]
fn grid_lines_exact_offsets() {
    assert_eq!(grid_lines(35, 10), vec![0, 10, 20, 30]);
    assert_eq!(grid_lines(30, 10), vec![0, 10, 20]);
    assert_eq!(grid_lines(0, 10), Vec::<u32>::new());
    assert_eq!(grid_lines(1, 7), vec![0]);
    assert_eq!(grid_lines(u32::MAX, u32::MAX), vec![0]);
}
