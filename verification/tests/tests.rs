use gameoflife::board::Board;
use gameoflife::game::{Config, Configure, Game};
use gameoflife::render::Draw;

const N: usize = 40;

fn board_from(coords: Vec<(usize, usize)>) -> Board {
    Board::from_coordinates(coords)
}

fn game_from(coords: Vec<(usize, usize)>) -> Game {
    let mut game = Game::from(coords);
    game.configure(Config { args: Vec::new(), draws: false, returns: true, sleeptime: 0 });
    game
}

fn blinker_coords() -> Vec<(usize, usize)> {
    vec![(10, 10), (10, 11), (10, 12)]
}

fn block_coords() -> Vec<(usize, usize)> {
    vec![(10, 10), (10, 11), (11, 10), (11, 11)]
}

fn pulsar_coords() -> Vec<(usize, usize)> {
    let rel: Vec<(usize, usize)> = vec![
        (0, 2), (0, 3), (0, 4), (0, 8), (0, 9), (0, 10),
        (2, 0), (2, 5), (2, 7), (2, 12),
        (3, 0), (3, 5), (3, 7), (3, 12),
        (4, 0), (4, 5), (4, 7), (4, 12),
        (5, 2), (5, 3), (5, 4), (5, 8), (5, 9), (5, 10),
        (7, 2), (7, 3), (7, 4), (7, 8), (7, 9), (7, 10),
        (8, 0), (8, 5), (8, 7), (8, 12),
        (9, 0), (9, 5), (9, 7), (9, 12),
        (10, 0), (10, 5), (10, 7), (10, 12),
        (12, 2), (12, 3), (12, 4), (12, 8), (12, 9), (12, 10),
    ];
    rel.into_iter().map(|(r, c)| (r + 10, c + 10)).collect()
}

#[test]
fn advance_twice_is_deterministic() {
    let mut a = board_from(blinker_coords());
    let mut b = board_from(blinker_coords());
    a.update();
    a.update();
    b.update();
    b.update();
    assert_eq!(a.get_state(), b.get_state());
}

#[test]
fn all_dead_is_fixed_point() {
    let mut board = board_from(Vec::new());
    let before = board.get_state();
    board.update();
    let after = board.get_state();
    assert_eq!(before, after);
    assert!(after.iter().all(|row| row.iter().all(|cell| !cell)));
}

#[test]
fn all_dead_run_is_static_at_one() {
    let mut game = game_from(Vec::new());
    let results = game.run().unwrap();
    assert_eq!(results.repeating_key(), 1);
    assert_eq!(results.final_count(), 1);
    assert_eq!(results.pattern_length(), 0);
}

#[test]
fn block_is_still_life() {
    let mut board = board_from(block_coords());
    let before = board.get_state();
    board.update();
    assert_eq!(before, board.get_state());
    let mut game = game_from(block_coords());
    let results = game.run().unwrap();
    assert_eq!(results.pattern_length(), 0);
    assert_eq!(results.repeating_key(), 1);
}

#[test]
fn blinker_oscillates_with_period_two() {
    let mut board = board_from(blinker_coords());
    let start = board.get_state();
    board.update();
    let half = board.get_state();
    assert_ne!(start, half);
    board.update();
    assert_eq!(start, board.get_state());

    let mut game = game_from(blinker_coords());
    let results = game.run().unwrap();
    assert_eq!(results.pattern_length(), 1);
    assert_eq!(results.repeating_key(), 1);
    assert_eq!(results.final_count(), 2);
}

#[test]
fn blinker_middle_row_flips_to_column() {
    let mut board = board_from(blinker_coords());
    board.update();
    let state = board.get_state();
    for r in 0..N {
        for c in 0..N {
            let expect = c == 11 && (9..=11).contains(&r);
            assert_eq!(state[r][c], expect, "cell ({}, {})", r, c);
        }
    }
}

#[test]
fn corner_cell_dies_without_out_of_bounds() {
    let mut board = board_from(vec![(0, 0)]);
    board.update();
    let state = board.get_state();
    assert!(state.iter().all(|row| row.iter().all(|cell| !cell)));
}

#[test]
fn corner_block_survives_clipped() {
    let mut board = board_from(vec![(0, 0), (0, 1), (1, 0), (1, 1)]);
    let before = board.get_state();
    board.update();
    assert_eq!(before, board.get_state());
}

#[test]
fn full_grid_updates_every_border_cell() {
    let mut coords = Vec::new();
    for r in 0..N {
        for c in 0..N {
            coords.push((r, c));
        }
    }
    let mut board = board_from(coords);
    board.update();
    let state = board.get_state();
    // Interior cells have 8 neighbours and die; corners keep 3 and survive.
    assert!(state[0][0] && state[0][N - 1] && state[N - 1][0] && state[N - 1][N - 1]);
    assert!(!state[5][5]);
}

#[test]
fn out_of_range_coordinates_are_ignored() {
    let board = board_from(vec![(N, 0), (0, N), (usize::MAX, 3), (7, 8)]);
    let state = board.get_state();
    for r in 0..N {
        for c in 0..N {
            assert_eq!(state[r][c], r == 7 && c == 8);
        }
    }
}

#[test]
fn from_grid_pads_and_clips() {
    let ragged = vec![vec![true, false], vec![], vec![false, false, true]];
    let board = Board::from_grid(ragged);
    let state = board.get_state();
    assert_eq!(state.len(), N);
    assert!(state.iter().all(|row| row.len() == N));
    assert!(state[0][0]);
    assert!(state[2][2]);
    assert!(!state[0][1] && !state[1][0]);
}

#[test]
fn get_state_round_trips_through_from_grid() {
    let board = board_from(blinker_coords());
    let copy = Board::from_grid(board.get_state());
    assert_eq!(board.get_state(), copy.get_state());
}

#[test]
fn clone_is_a_value_copy() {
    let board = board_from(block_coords());
    let copy = board.clone();
    assert_eq!(board.get_state(), copy.get_state());
}

#[test]
fn rendering_is_idempotent() {
    let board = board_from(blinker_coords());
    let first = board.draw();
    let second = board.draw();
    assert_eq!(first, second);
}

#[test]
fn rendering_all_dead_matches_expected_text() {
    let board = board_from(Vec::new());
    let mut expected = String::new();
    for _ in 0..N + 2 {
        expected.push_str("# ");
    }
    expected.push('\n');
    for _ in 0..N {
        expected.push_str("# ");
        for _ in 0..N {
            expected.push_str("  ");
        }
        expected.push_str("# \n");
    }
    for _ in 0..N + 2 {
        expected.push_str("# ");
    }
    assert_eq!(board.draw(), expected);
}

#[test]
fn rendering_marks_alive_cells() {
    let board = board_from(vec![(0, 0)]);
    let text = board.draw();
    let lines: Vec<&str> = text.lines().collect();
    assert_eq!(lines.len(), N + 2);
    assert!(lines[1].starts_with("# # "));
}

#[test]
fn rendering_walls_both_sides_of_every_row() {
    let board = board_from(blinker_coords());
    let text = board.draw();
    let lines: Vec<&str> = text.lines().collect();
    assert_eq!(lines.len(), N + 2);
    for line in &lines {
        // N + 2 columns of two characters each.
        assert_eq!(line.len(), 2 * (N + 2));
        assert!(line.starts_with("# "));
        assert!(line.ends_with("# "));
    }
}

#[test]
fn tick_advances_one_generation() {
    let mut game = game_from(blinker_coords());
    let start = game.current_board().get_state();
    assert_eq!(start, board_from(blinker_coords()).get_state());
    game.tick();
    let mut reference = board_from(blinker_coords());
    reference.update();
    assert_eq!(game.current_board().get_state(), reference.get_state());
    game.tick();
    assert_eq!(game.current_board().get_state(), start);
    // Ticking by hand leaves the runner able to detect the cycle afterwards.
    let results = game.run().unwrap();
    assert_eq!(results.pattern_length(), 1);
}

#[test]
fn run_step_reports_the_first_repeat() {
    let mut game = game_from(blinker_coords());
    // First generation: the blinker's other phase, never seen before.
    assert!(game.run_step().is_none());
    // Second generation: back to the start, recorded at iteration 1.
    let results = game.run_step().unwrap();
    assert_eq!(results.final_count(), 2);
    assert_eq!(results.repeating_key(), 1);
    assert_eq!(results.pattern_length(), 1);
    let start = board_from(blinker_coords()).get_state();
    assert_eq!(results.to_board().get_state(), start);
}

#[test]
fn run_step_drawn_loop_matches_run() {
    let mut stepped = game_from(block_coords());
    let results = loop {
        // What a drawing caller renders between steps.
        let _frame = stepped.current_board().draw();
        if let Some(results) = stepped.run_step() {
            break results;
        }
    };
    let mut whole = game_from(block_coords());
    let reference = whole.run().unwrap();
    assert_eq!(results.final_count(), reference.final_count());
    assert_eq!(results.repeating_key(), reference.repeating_key());
    assert_eq!(results.draw(), reference.draw());
}

#[test]
fn static_summary_text_is_exact() {
    let mut game = game_from(Vec::new());
    let results = game.run().unwrap();
    let text = results.draw();
    let board_text = results.to_board().draw();
    let expected = format!("{}\nPattern became static at iteration: 1", board_text);
    assert_eq!(text, expected);
}

#[test]
fn alternating_summary_text_is_exact() {
    let mut game = game_from(blinker_coords());
    let results = game.run().unwrap();
    let text = results.draw();
    let board_text = results.to_board().draw();
    let expected = format!("{}\nAlternating pattern at iteration: 1", board_text);
    assert_eq!(text, expected);
}

#[test]
fn pulsar_run_reports_a_longer_cycle() {
    let mut game = game_from(pulsar_coords());
    let results = game.run().unwrap();
    assert_eq!(results.repeating_key(), 1);
    assert_eq!(results.final_count(), 3);
    assert_eq!(results.pattern_length(), 2);
    let text = results.draw();
    let board_text = results.to_board().draw();
    let expected = format!(
        "{}\nRepeating pattern between iterations 1 and 3\nLooping pattern length: 2",
        board_text
    );
    assert_eq!(text, expected);
}

#[test]
fn to_board_holds_the_final_state() {
    let mut game = game_from(blinker_coords());
    let results = game.run().unwrap();
    // The run stops when the state after two generations matches the start.
    let start = board_from(blinker_coords()).get_state();
    assert_eq!(results.to_board().get_state(), start);
}

#[test]
fn run_without_returns_yields_nothing() {
    let mut game = Game::from(blinker_coords());
    game.configure(Config { args: Vec::new(), draws: false, returns: false, sleeptime: 0 });
    assert!(game.run().is_none());
}

#[test]
fn configure_applies_the_record() {
    let mut game = Game::from(Vec::new());
    game.configure(Config { args: Vec::new(), draws: false, returns: true, sleeptime: 7 });
    assert!(game.run().is_some());
}

#[test]
fn glider_run_terminates_and_classifies() {
    let mut game = game_from(vec![(1, 2), (2, 3), (3, 1), (3, 2), (3, 3)]);
    let results = game.run().unwrap();
    let fc = results.final_count();
    let rk = results.repeating_key();
    let pl = results.pattern_length();
    assert!(rk >= 1 && rk <= fc);
    assert_eq!(pl, fc - rk);
    let text = results.draw();
    let tail = if pl == 0 {
        format!("Pattern became static at iteration: {}", rk)
    } else if pl == 1 {
        format!("Alternating pattern at iteration: {}", rk)
    } else {
        format!("Repeating pattern between iterations {} and {}\nLooping pattern length: {}", rk, fc, pl)
    };
    assert!(text.ends_with(&tail));
}

#[test]
fn long_pattern_run_terminates() {
    // A larger arrangement with a long settling phase; the runner must return.
    let p1: Vec<(usize, usize)> = vec![
        (13, 2), (14, 2), (13, 3), (14, 3), (13, 12), (14, 12), (15, 12), (12, 37),
        (12, 13), (16, 13), (11, 14), (17, 14), (11, 15), (17, 15), (14, 16), (12, 17),
        (16, 17), (13, 18), (16, 18), (15, 18), (14, 19), (11, 2), (12, 22), (13, 22),
        (11, 23), (12, 23), (13, 23), (10, 24), (14, 24), (9, 26), (10, 26), (14, 26),
        (15, 26), (11, 36), (12, 36), (11, 37),
    ];
    let mut game = game_from(p1);
    let results = game.run().unwrap();
    assert!(results.final_count() >= results.repeating_key());
}
