use sokoban::game::{Direction, Game, Tile};

#[test]
fn load_level_one_layout() {
    let (map, player) = Game::load_level(1);
    assert_eq!(map.len(), 6);
    for row in &map {
        assert_eq!(row.len(), 7);
    }
    assert_eq!(player, (2, 2));
    assert!(map[1][2] == Tile::Target);
    assert!(map[2][2] == Tile::Player);
    assert!(map[3][2] == Tile::Box);
    assert!(map[0][0] == Tile::Wall);
    assert!(map[4][4] == Tile::Floor);
}

#[test]
fn load_level_out_of_range_falls_back_to_first() {
    let (map1, player1) = Game::load_level(1);
    let (map9, player9) = Game::load_level(99);
    assert_eq!(player1, player9);
    assert_eq!(map1.len(), map9.len());
    for y in 0..map1.len() {
        for x in 0..map1[y].len() {
            assert!(map1[y][x] == map9[y][x]);
        }
    }
}

#[test]
fn new_game_starts_with_zero_moves() {
    let game = Game::new(2);
    assert_eq!(game.level, 2);
    assert_eq!(game.moves, 0);
    assert_eq!(game.player_pos, (2, 3));
    assert_eq!(game.map.len(), 7);
}

#[test]
fn move_into_wall_is_rejected() {
    let mut game = Game::new(1);
    // The player starts at (2, 2); the wall column is at x = 0.
    assert!(game.move_player(Direction::Left));
    assert!(!game.move_player(Direction::Left));
    assert_eq!(game.moves, 1);
    assert_eq!(game.player_pos, (1, 2));
}

#[test]
fn step_updates_tiles_and_position() {
    let mut game = Game::new(1);
    assert!(game.move_player(Direction::Right));
    assert_eq!(game.player_pos, (3, 2));
    assert!(game.map[2][2] == Tile::Floor);
    assert!(game.map[2][3] == Tile::Player);
    assert_eq!(game.moves, 1);
}

#[test]
fn push_moves_box_one_cell() {
    let mut game = Game::new(1);
    // The box sits directly below the player: pushing down moves both.
    assert!(game.move_player(Direction::Down));
    assert_eq!(game.player_pos, (2, 3));
    assert!(game.map[3][2] == Tile::Player);
    assert!(game.map[4][2] == Tile::Box);
}

#[test]
fn stepping_onto_target_and_back_restores_it() {
    let mut game = Game::new(1);
    assert!(game.move_player(Direction::Up));
    assert!(game.map[1][2] == Tile::PlayerOnTarget);
    assert!(game.move_player(Direction::Down));
    assert!(game.map[1][2] == Tile::Target);
    assert!(game.map[2][2] == Tile::Player);
}

#[test]
fn winning_level_one_takes_six_moves() {
    let mut game = Game::new(1);
    assert!(!game.is_win());
    // Walk around the box, then push it up twice onto the target.
    assert!(game.move_player(Direction::Left));
    assert!(game.move_player(Direction::Down));
    assert!(game.move_player(Direction::Down));
    assert!(game.move_player(Direction::Right));
    assert!(game.move_player(Direction::Up));
    assert!(game.move_player(Direction::Up));
    assert!(game.is_win());
    assert!(game.map[1][2] == Tile::BoxOnTarget);
    assert_eq!(game.moves, 6);
}

#[test]
fn reset_restores_the_level() {
    let mut game = Game::new(1);
    assert!(game.move_player(Direction::Down));
    assert!(game.move_player(Direction::Left));
    game.reset();
    assert_eq!(game.moves, 0);
    assert_eq!(game.player_pos, (2, 2));
    assert!(game.map[3][2] == Tile::Box);
    assert!(game.map[2][2] == Tile::Player);
}

#[test]
fn is_win_ignores_boxes_already_on_targets() {
    let game = Game::new(1);
    assert!(!game.is_win());
    let mut no_box = game.map.clone();
    no_box[3][2] = Tile::Floor;
    let done = Game { level: 1, map: no_box, player_pos: (2, 2), moves: 0 };
    assert!(done.is_win());
}
