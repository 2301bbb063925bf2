use sokoban::game::{Direction, Game, Tile};
use sokoban::solver::{apply_move, get_state_key, is_corner_deadlock, solve};

/// Builds a grid and player start from rows of level text.
fn parse(rows: &[&str]) -> (Vec<Vec<Tile>>, (usize, usize)) {
    let mut map = Vec::new();
    let mut player = (0, 0);
    for (y, row) in rows.iter().enumerate() {
        let mut map_row = Vec::new();
        for (x, ch) in row.chars().enumerate() {
            let tile = match ch {
                '#' => Tile::Wall,
                '@' => {
                    player = (x, y);
                    Tile::Player
                }
                '$' => Tile::Box,
                '*' => Tile::BoxOnTarget,
                '+' => {
                    player = (x, y);
                    Tile::PlayerOnTarget
                }
                'X' => Tile::Target,
                _ => Tile::Floor,
            };
            map_row.push(tile);
        }
        map.push(map_row);
    }
    (map, player)
}

#[test]
fn scenario_a_minimal_move_count() {
    let (map, player) = parse(&[
        "#######",
        "#.X...#",
        "#.@...#",
        "#.$...#",
        "#.....#",
        "#######",
    ]);
    let res = solve(&map, player);
    assert!(res.solvable);
    // Four moves to walk around the box, then two pushes up.
    assert_eq!(res.min_steps, Some(6));
}

#[test]
fn zero_boxes_solves_immediately() {
    let (map, player) = parse(&["#####", "#.@.#", "#####"]);
    let res = solve(&map, player);
    assert!(res.solvable);
    assert_eq!(res.min_steps, Some(0));
}

#[test]
fn box_already_on_target_solves_in_zero_moves() {
    let (map, player) = parse(&["#####", "#@*.#", "#####"]);
    let res = solve(&map, player);
    assert!(res.solvable);
    assert_eq!(res.min_steps, Some(0));
}

#[test]
fn scenario_b_corner_seal_is_unsolvable() {
    // The only pushes send the box into a non-target corner, which the
    // deadlock test prunes; the target below stays unreachable.
    let (map, player) = parse(&["#####", "#@$.#", "#...#", "#..X#", "#####"]);
    let res = solve(&map, player);
    assert!(!res.solvable);
    assert_eq!(res.min_steps, None);
}

#[test]
fn solve_is_deterministic() {
    let (map, player) = parse(&[
        "#######",
        "#.X...#",
        "#.@...#",
        "#.$...#",
        "#.....#",
        "#######",
    ]);
    let first = solve(&map, player);
    let second = solve(&map, player);
    assert_eq!(first.solvable, second.solvable);
    assert_eq!(first.min_steps, second.min_steps);
    assert!(first.solvable);
    assert_eq!(first.min_steps, Some(6));
}

#[test]
fn first_built_in_level_solves_in_six_moves() {
    let (map, player) = Game::load_level(1);
    let res = solve(&map, player);
    assert!(res.solvable);
    assert_eq!(res.min_steps, Some(6));
}

#[test]
fn two_boxes_two_targets() {
    let (map, player) = parse(&["######", "#@...#", "#.$X.#", "#.$X.#", "######"]);
    let res = solve(&map, player);
    assert!(res.solvable);
    assert_eq!(res.min_steps, Some(5));
}

#[test]
fn step_then_inverse_restores_configuration() {
    let (map, player) = parse(&["#####", "#@.$#", "#...#", "#####"]);
    let boxes = vec![(3, 1)];
    let (p1, b1) = apply_move(&map, player, &boxes, Direction::Down).expect("step is legal");
    assert_eq!(p1, (1, 2));
    assert_eq!(b1, boxes);
    let (p2, b2) = apply_move(&map, p1, &b1, Direction::Up).expect("inverse step is legal");
    assert_eq!(p2, player);
    assert_eq!(b2, boxes);
}

#[test]
fn push_then_inverse_does_not_restore_boxes() {
    let (map, player) = parse(&["#####", "#@$.#", "#...#", "#####"]);
    let boxes = vec![(2, 1)];
    let (p1, b1) = apply_move(&map, player, &boxes, Direction::Right).expect("push is legal");
    assert_eq!(p1, (2, 1));
    assert_eq!(b1, vec![(3, 1)]);
    let (p2, b2) = apply_move(&map, p1, &b1, Direction::Left).expect("step back is legal");
    assert_eq!(p2, player);
    // The pushed box stays where it went: a push is not self-inverse.
    assert_eq!(b2, vec![(3, 1)]);
    assert_ne!(b2, boxes);
}

#[test]
fn blocked_moves_are_rejected() {
    let (map, player) = parse(&["####", "#@$#", "####"]);
    let boxes = vec![(2, 1)];
    // The push is blocked by the wall beyond the box.
    assert!(apply_move(&map, player, &boxes, Direction::Right).is_none());
    // Stepping into a wall is blocked.
    assert!(apply_move(&map, player, &boxes, Direction::Up).is_none());
    assert!(apply_move(&map, player, &boxes, Direction::Left).is_none());
}

#[test]
fn push_blocked_by_second_box() {
    let (map, player) = parse(&["######", "#@$$.#", "######"]);
    let boxes = vec![(2, 1), (3, 1)];
    assert!(apply_move(&map, player, &boxes, Direction::Right).is_none());
}

#[test]
fn push_keeps_boxes_sorted() {
    let (map, player) = parse(&["######", "#.$@.#", "#.$..#", "######"]);
    let boxes = vec![(2, 1), (2, 2)];
    let (p1, b1) = apply_move(&map, player, &boxes, Direction::Left).expect("push is legal");
    assert_eq!(p1, (2, 1));
    assert_eq!(b1, vec![(1, 1), (2, 2)]);
}

#[test]
fn corner_cells_are_deadlocks() {
    let (map, _) = parse(&["#####", "#..X#", "#...#", "#####"]);
    let targets = vec![(3, 1)];
    // Top-left interior corner: walls above and to the left.
    assert!(is_corner_deadlock(&map, 1, 1, &targets));
    // A target in a corner is never a deadlock.
    assert!(!is_corner_deadlock(&map, 3, 1, &targets));
    // An open cell with walls on one side only.
    assert!(!is_corner_deadlock(&map, 2, 1, &targets));
    assert!(!is_corner_deadlock(&map, 2, 2, &targets));
}

#[test]
fn grid_boundary_counts_as_wall_for_deadlocks() {
    // No surrounding walls at all: the grid edge itself seals the corner.
    let (map, _) = parse(&["$..", "..."]);
    let targets: Vec<(usize, usize)> = Vec::new();
    assert!(is_corner_deadlock(&map, 0, 0, &targets));
    assert!(!is_corner_deadlock(&map, 1, 0, &targets));
}

#[test]
fn state_keys_record_player_and_boxes() {
    let boxes = vec![(1, 1), (2, 3)];
    let key = get_state_key((4, 2), &boxes);
    assert_eq!(key.player, (4, 2));
    assert_eq!(key.boxes, boxes);
}

#[test]
fn unsolvable_without_any_target_path() {
    // Two boxes, one target: the spare box cannot vanish.
    let (map, player) = parse(&["######", "#@$$X#", "#....#", "######"]);
    let res = solve(&map, player);
    assert!(!res.solvable);
    assert_eq!(res.min_steps, None);
}
