use rust_2048::game::{BoardConfig, Game, GameResult};
use rust_2048::model::Keypress;

fn board_of(game: &Game) -> Vec<Vec<u32>> {
    let mut rows: Vec<Vec<u32>> = Vec::new();
    for i in 0..game.height() {
        let mut row: Vec<u32> = Vec::new();
        for j in 0..game.width() {
            row.push(game.tile(i, j));
        }
        rows.push(row);
    }
    rows
}

fn game_from(width: usize, height: usize, rows: Vec<Vec<u32>>) -> Game {
    let config = BoardConfig { width, height, count: 1 };
    Game::with_board(config, rows).expect("the grid fits its configuration")
}

fn nonzero_count(game: &Game) -> usize {
    let mut n: usize = 0;
    for row in board_of(game) {
        for v in row {
            if v != 0 {
                n += 1;
            }
        }
    }
    n
}

fn board_sum(game: &Game) -> u64 {
    let mut n: u64 = 0;
    for row in board_of(game) {
        for v in row {
            n += v as u64;
        }
    }
    n
}

#[test]
fn default_config_is_four_by_four_with_two_tiles() {
    let c = BoardConfig::default();
    assert_eq!(c.width, 4);
    assert_eq!(c.height, 4);
    assert_eq!(c.count, 2);
}

#[test]
fn factory_populates_exactly_count_cells() {
    let game = Game::new_game(Some(BoardConfig { width: 3, height: 3, count: 4 }))
        .expect("a valid configuration");
    assert_eq!(game.width(), 3);
    assert_eq!(game.height(), 3);
    assert_eq!(game.score(), 0);
    assert_eq!(nonzero_count(&game), 4);
    for row in board_of(&game) {
        for v in row {
            assert!(v == 0 || v == 2 || v == 4);
        }
    }
}

#[test]
fn factory_uses_default_when_no_config_given() {
    let game = Game::new_game(None).expect("the default configuration is valid");
    assert_eq!(game.width(), 4);
    assert_eq!(game.height(), 4);
    assert_eq!(nonzero_count(&game), 2);
}

#[test]
fn factory_rejects_empty_board() {
    let r = Game::new_game(Some(BoardConfig { width: 4, height: 4, count: 0 }));
    assert_eq!(r.err(), Some("Empty board!"));
}

#[test]
fn factory_rejects_full_board() {
    let r = Game::new_game(Some(BoardConfig { width: 2, height: 3, count: 6 }));
    assert_eq!(r.err(), Some("Full board!"));
}

#[test]
fn factory_rejects_overflowing_count() {
    let r = Game::new_game(Some(BoardConfig { width: 2, height: 2, count: 9 }));
    assert_eq!(r.err(), Some("Overflow!"));
}

#[test]
fn factory_accepts_boundary_counts() {
    let almost_full = Game::new_game(Some(BoardConfig { width: 2, height: 2, count: 3 }))
        .expect("one free cell is enough");
    assert_eq!(nonzero_count(&almost_full), 3);
    let single = Game::new_game(Some(BoardConfig { width: 5, height: 1, count: 1 }))
        .expect("a single tile is enough");
    assert_eq!(nonzero_count(&single), 1);
}

#[test]
fn move_left_merges_through_gaps() {
    let mut game = game_from(4, 1, vec![vec![0, 2, 2, 0]]);
    game.move_left();
    assert_eq!(board_of(&game), vec![vec![4, 0, 0, 0]]);
    assert_eq!(game.score(), 4);
}

#[test]
fn move_right_merges_through_gaps() {
    let mut game = game_from(4, 1, vec![vec![2, 0, 0, 2]]);
    game.move_right();
    assert_eq!(board_of(&game), vec![vec![0, 0, 0, 4]]);
    assert_eq!(game.score(), 4);
}

#[test]
fn move_left_merges_each_pair_once() {
    let mut game = game_from(4, 1, vec![vec![2, 2, 2, 2]]);
    game.move_left();
    assert_eq!(board_of(&game), vec![vec![4, 4, 0, 0]]);
    assert_eq!(game.score(), 8);
}

#[test]
fn merged_tile_does_not_merge_again() {
    let mut game = game_from(3, 1, vec![vec![2, 2, 4]]);
    game.move_left();
    assert_eq!(board_of(&game), vec![vec![4, 4, 0]]);
    assert_eq!(game.score(), 4);
}

#[test]
fn blocking_tile_stops_the_neighbour_search() {
    let mut game = game_from(3, 1, vec![vec![2, 4, 2]]);
    game.move_left();
    assert_eq!(board_of(&game), vec![vec![2, 4, 2]]);
    assert_eq!(game.score(), 0);
}

#[test]
fn move_down_merges_columns() {
    let mut game = game_from(2, 2, vec![vec![2, 0], vec![2, 0]]);
    game.move_down();
    assert_eq!(board_of(&game), vec![vec![0, 0], vec![4, 0]]);
    assert_eq!(game.score(), 4);
}

#[test]
fn move_up_merges_columns() {
    let mut game = game_from(2, 3, vec![vec![2, 4], vec![0, 4], vec![2, 8]]);
    game.move_up();
    assert_eq!(board_of(&game), vec![vec![4, 8], vec![0, 8], vec![0, 0]]);
    assert_eq!(game.score(), 12);
}

#[test]
fn compacted_board_reports_noop_twice() {
    let mut game = game_from(4, 1, vec![vec![0, 0, 2, 4]]);
    let first = game.play_move(Some(Keypress::Right));
    assert_eq!(first, GameResult::NoMove);
    assert_eq!(board_of(&game), vec![vec![0, 0, 2, 4]]);
    assert_eq!(game.score(), 0);
    let second = game.play_move(Some(Keypress::Right));
    assert_eq!(second, GameResult::NoMove);
    assert_eq!(board_of(&game), vec![vec![0, 0, 2, 4]]);
    assert_eq!(game.score(), 0);
}

#[test]
fn alternating_full_board_is_game_over() {
    let game = game_from(2, 2, vec![vec![2, 4], vec![4, 2]]);
    assert!(game.game_over());
}

#[test]
fn board_with_an_empty_cell_is_not_game_over() {
    let game = game_from(2, 2, vec![vec![2, 4], vec![4, 0]]);
    assert!(!game.game_over());
}

#[test]
fn full_board_with_a_merge_is_not_game_over() {
    let game = game_from(2, 2, vec![vec![2, 2], vec![4, 8]]);
    assert!(!game.game_over());
}

#[test]
fn finished_game_reports_game_over_before_input() {
    let mut game = game_from(2, 2, vec![vec![2, 4], vec![4, 2]]);
    assert_eq!(game.play_move(Some(Keypress::Left)), GameResult::GameOver);
    assert_eq!(board_of(&game), vec![vec![2, 4], vec![4, 2]]);
}

#[test]
fn unknown_input_leaves_the_state_alone() {
    let mut game = game_from(2, 2, vec![vec![2, 0], vec![0, 0]]);
    assert_eq!(game.play_move(None), GameResult::UnknownKeyPress);
    assert_eq!(board_of(&game), vec![vec![2, 0], vec![0, 0]]);
    assert_eq!(game.score(), 0);
}

#[test]
fn quit_and_reset_are_reported_without_moving() {
    let mut game = game_from(2, 2, vec![vec![2, 0], vec![0, 0]]);
    assert_eq!(game.play_move(Some(Keypress::Quit)), GameResult::Exit);
    assert_eq!(game.play_move(Some(Keypress::Reset)), GameResult::Reset);
    assert_eq!(board_of(&game), vec![vec![2, 0], vec![0, 0]]);
}

#[test]
fn successful_move_injects_one_tile() {
    let mut game = game_from(4, 1, vec![vec![2, 2, 0, 0]]);
    assert_eq!(game.play_move(Some(Keypress::Left)), GameResult::NextMove);
    assert_eq!(game.score(), 4);
    let rows = board_of(&game);
    assert_eq!(rows[0][0], 4);
    assert_eq!(nonzero_count(&game), 2);
    for v in &rows[0][1..] {
        assert!(*v == 0 || *v == 2 || *v == 4);
    }
}

#[test]
fn merges_conserve_board_mass() {
    let mut game = game_from(4, 1, vec![vec![2, 2, 4, 4]]);
    let before = board_sum(&game);
    game.move_left();
    assert_eq!(board_of(&game), vec![vec![4, 8, 0, 0]]);
    assert_eq!(board_sum(&game), before);
    assert_eq!(game.score(), 12);
}

#[test]
fn score_accumulates_across_moves() {
    let mut game = game_from(4, 1, vec![vec![2, 2, 2, 2]]);
    game.move_left();
    assert_eq!(game.score(), 8);
    game.move_left();
    assert_eq!(board_of(&game), vec![vec![8, 0, 0, 0]]);
    assert_eq!(game.score(), 16);
}

#[test]
fn with_board_rejects_a_malformed_grid() {
    let config = BoardConfig { width: 2, height: 2, count: 1 };
    let r = Game::with_board(config, vec![vec![0, 0], vec![0]]);
    assert_eq!(r.err(), Some("Malformed board!"));
    let r2 = Game::with_board(BoardConfig { width: 0, height: 1, count: 1 }, vec![vec![]]);
    assert_eq!(r2.err(), Some("Malformed board!"));
}
