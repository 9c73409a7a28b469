//! Tests of the sliding-tile rules engine.

use rust_2048::BOARD_DIMENSION;
use rust_2048::Game;
use rust_2048::InputResult;
use rust_2048::NUM_TILES;
use rust_2048::NewTileParams;
use rust_2048::Tile;
use rust_2048::log_2;

/// Empties the board of `game` and fills the given cells with tiles of the
/// given values and identifiers; the remaining identifiers form the pool.
fn set_up_board(game: &mut Game, tiles: &[(usize, usize, u32, usize)]) {
    for i in 0..NUM_TILES {
        game.board[i] = None;
    }
    let mut used: Vec<usize> = Vec::new();
    for &(row, col, value, id) in tiles {
        let (background, text) = game.get_tile_colors(value);
        game.board[row * 4 + col] = Some(Tile::new(value, id, background, text, row, col));
        used.push(id);
    }
    game.id_list = (0usize..17).filter(|id| !used.contains(id)).collect();
    game.score = 0;
}

fn tile_at(game: &Game, row: usize, col: usize) -> &Tile {
    game.board[row * 4 + col].as_ref().expect("expected a tile at this cell")
}

/// Ensure that the generation of 2-tiles outnumbers the generation of
/// 4-tiles 4:1 given a sufficiently large sample size and across multiple
/// trials.
#[test]
fn lib_test_new_tile_rng() {
    let game = Game::new();
    let num_trials = 100;

    for i in 0..num_trials {
        println!("Test iteration: {i}");

        let mut two_count = 0;
        let mut four_count = 0;

        const SAMPLE_SIZE: u32 = 10000;

        for _ in 0..SAMPLE_SIZE {
            let tile = game.generate_tile_value();

            if tile == game.new_tile_params.tile_choices[NewTileParams::TWO] {
                two_count += 1;
            } else {
                four_count += 1;
            }
        }

        let two_dist = two_count as f32 / SAMPLE_SIZE as f32;
        let four_dist = four_count as f32 / SAMPLE_SIZE as f32;

        let expected_ratio = game.new_tile_params.tile_weights[NewTileParams::TWO] as f32;
        let actual_ratio = two_dist / four_dist;

        println!("Expected 2:4 ratio: {expected_ratio}:1");
        println!("Actual 2:4 ratio: {actual_ratio}:1");

        let error_margin = expected_ratio * 0.20;
        let expected_ratio_range = (expected_ratio - error_margin)..=(expected_ratio + error_margin);

        assert!(expected_ratio_range.contains(&actual_ratio));
    }
}

/// Ensure that the maintenance and random selection of free slots is
/// working correctly.
#[test]
fn lib_test_updating_and_randomly_selecting_free_slots() {
    let mut game = Game::new();
    const NUM_STARTING_TILES: usize = 2;

    game.update_free_slots();
    assert_eq!(game.free_slots.len(), NUM_TILES - NUM_STARTING_TILES);

    for _ in NUM_STARTING_TILES..NUM_TILES {
        let coord = game.get_random_free_slot();

        match coord {
            Some((row, col)) => {
                game.board[row * 4 + col] = Some(Tile::new(
                    0,
                    0,
                    "orange".to_string(),
                    "pink".to_string(),
                    row,
                    col,
                ))
            }
            None => panic!("Game board filled up unexpectedly."),
        }
    }

    game.update_free_slots();
    assert_eq!(game.free_slots.len(), 0);

    for row in 0..BOARD_DIMENSION {
        for col in 0..BOARD_DIMENSION {
            if game.board[row * 4 + col].is_none() {
                panic!("Free board slots remain after filling with placeholders.");
            }
        }
    }

    assert_eq!(game.get_random_free_slot(), None);
}

/// A new game should:
///
/// 1) Be empty save for two initial tiles.
/// 2) Have one 4-tile and one 2-tile -OR- two 2-tiles.
///
/// Running multiple trials due the random nature of new game generation.
#[test]
fn lib_test_new_game() {
    const NUM_STARTING_TILES: usize = 2;
    let num_trials = 100;

    for _ in 0..num_trials {
        let game = Game::new();
        let mut starting_tiles = Vec::new();

        for row in 0..BOARD_DIMENSION {
            for col in 0..BOARD_DIMENSION {
                if let Some(u) = &game.board[row * 4 + col] {
                    starting_tiles.push(u);
                }
            }
        }

        assert_eq!(starting_tiles.len(), NUM_STARTING_TILES);

        assert!(game.new_tile_params.tile_choices.contains(&starting_tiles[0].value));
        assert!(game.new_tile_params.tile_choices.contains(&starting_tiles[1].value));

        if starting_tiles[0].value == starting_tiles[1].value {
            assert_eq!(
                starting_tiles[0].value,
                game.new_tile_params.tile_choices[NewTileParams::TWO]
            );
        }
    }
}

/// Tests whether tiles are generating the correct colors.
#[test]
fn test_color_generator() {
    let game = Game::new();

    let base: u32 = 2;
    let mut power = 1;
    let max_power = 30;

    while power < max_power {
        let tile_value = base.pow(power);
        let tile_color = game.get_tile_colors(tile_value);
        print_color_to_stdout(tile_color.0, tile_value);
        power += 1;
    }
}

fn print_color_to_stdout(hex_color: String, tile_value: u32) {
    let color = &hex_color[1..];

    let red = u8::from_str_radix(&color[0..2], 16).unwrap_or(0);
    let green = u8::from_str_radix(&color[2..4], 16).unwrap_or(0);
    let blue = u8::from_str_radix(&color[4..6], 16).unwrap_or(0);

    let formatted_color = format!("\x1b[38;2;{};{};{}m", red, green, blue);
    let reset_code = "\x1b[0m";

    println!("Tile color is {}{}{}", formatted_color, tile_value, reset_code);
}

/// Ensure that the generation of 2-tiles outnumbers the generation of
/// 4-tiles 4:1 given a sufficiently large sample size and across multiple
/// trials.
#[test]
fn model_test_new_tile_rng() {
    let game = Game::new();
    let num_trials = 100;

    for i in 0..num_trials {
        println!("Test iteration: {i}");

        let mut two_count = 0;
        let mut four_count = 0;

        const SAMPLE_SIZE: u32 = 10000;

        for _ in 0..SAMPLE_SIZE {
            let tile = game.generate_tile_value();

            if tile == game.new_tile_params.tile_choices[NewTileParams::TWO] {
                two_count += 1;
            } else {
                four_count += 1;
            }
        }

        let two_dist = two_count as f32 / SAMPLE_SIZE as f32;
        let four_dist = four_count as f32 / SAMPLE_SIZE as f32;

        let expected_ratio = game.new_tile_params.tile_weights[NewTileParams::TWO] as f32;
        let actual_ratio = two_dist / four_dist;

        println!("Expected 2:4 ratio: {expected_ratio}:1");
        println!("Actual 2:4 ratio: {actual_ratio}:1");

        let error_margin = expected_ratio * 0.20;
        let expected_ratio_range = (expected_ratio - error_margin)..=(expected_ratio + error_margin);

        assert!(expected_ratio_range.contains(&actual_ratio));
    }
}

/// Ensure that the maintenance and random selection of free slots is
/// working correctly.
#[test]
fn model_test_updating_and_randomly_selecting_free_slots() {
    let mut game = Game::new();
    const NUM_STARTING_TILES: usize = 2;

    game.update_free_slots();
    assert_eq!(game.free_slots.len(), NUM_TILES - NUM_STARTING_TILES);

    for _ in NUM_STARTING_TILES..NUM_TILES {
        let coord = game.get_random_free_slot();

        match coord {
            Some((row, col)) => {
                game.board[row * 4 + col] =
                    Some(Tile::new(0, 0, String::new(), String::new(), row, col))
            }
            None => panic!("Game board filled up unexpectedly."),
        }
    }

    game.update_free_slots();
    assert_eq!(game.free_slots.len(), 0);

    for row in 0..BOARD_DIMENSION {
        for col in 0..BOARD_DIMENSION {
            if game.board[row * 4 + col].is_none() {
                panic!("Free board slots remain after filling with placeholders.");
            }
        }
    }

    assert_eq!(game.get_random_free_slot(), None);
}

/// A new game should:
///
/// 1) Be empty save for two initial tiles.
/// 2) Have one 4-tile and one 2-tile -OR- two 2-tiles.
///
/// Running multiple trials due the random nature of new game generation.
#[test]
fn model_test_new_game() {
    const NUM_STARTING_TILES: usize = 2;
    let num_trials = 100;

    for _ in 0..num_trials {
        let game = Game::new();
        let mut starting_tiles = Vec::new();

        for row in 0..BOARD_DIMENSION {
            for col in 0..BOARD_DIMENSION {
                if let Some(u) = &game.board[row * 4 + col] {
                    starting_tiles.push(u);
                }
            }
        }

        assert_eq!(starting_tiles.len(), NUM_STARTING_TILES);

        assert!(game.new_tile_params.tile_choices.contains(&starting_tiles[0].value));
        assert!(game.new_tile_params.tile_choices.contains(&starting_tiles[1].value));

        if starting_tiles[0].value == starting_tiles[1].value {
            assert_eq!(
                starting_tiles[0].value,
                game.new_tile_params.tile_choices[NewTileParams::TWO]
            );
        }
    }
}

/// A row of four equal tiles compacted left resolves to two merged tiles,
/// never to a single tile of four times the value.
#[test]
fn test_no_double_merge() {
    let mut game = Game::new();
    set_up_board(&mut game, &[(0, 0, 2, 0), (0, 1, 2, 1), (0, 2, 2, 2), (0, 3, 2, 3)]);

    match game.receive_input("ArrowLeft") {
        InputResult::Committed(_, _, _) => {}
        InputResult::Rejected(_) => panic!("four equal tiles must move"),
    }

    let first = tile_at(&game, 0, 0);
    assert_eq!(first.value, 4);
    assert_eq!(first.id, 1);
    let second = tile_at(&game, 0, 1);
    assert_eq!(second.value, 4);
    assert_eq!(second.id, 3);
    assert!(game.board[2].is_none() || game.board[2].as_ref().unwrap().merged.is_none());
    assert_eq!(game.score, 8);
}

/// Example scenario: board row `[2, 2, 4, _]` moved left gives `[4, 4, _, _]`,
/// the score grows by 4, the move is committed, and exactly the absorbed
/// tile's identifier is recycled, after the spawned tile drew a fresh one.
#[test]
fn test_example_left_merge() {
    let mut game = Game::new();
    set_up_board(&mut game, &[(0, 0, 2, 0), (0, 1, 2, 1), (0, 2, 4, 2)]);

    let result = game.receive_input("ArrowLeft");
    let (new_id, tiles, won) = match result {
        InputResult::Committed(new_id, tiles, won) => (new_id, tiles, won),
        InputResult::Rejected(_) => panic!("this move merges a pair, it must commit"),
    };

    // The merged pair: survivor keeps the moving tile's identifier and a
    // snapshot of the absorbed tile at the merge cell.
    let merged = tile_at(&game, 0, 0);
    assert_eq!(merged.value, 4);
    assert_eq!(merged.id, 1);
    let snapshot = merged.merged.as_ref().expect("merge snapshot expected");
    assert_eq!(snapshot.id, 0);
    assert_eq!(snapshot.value, 2);
    assert_eq!((snapshot.row, snapshot.col), (0, 0));

    // The 4-tile slid next to it without a second merge.
    let slid = tile_at(&game, 0, 1);
    assert_eq!(slid.value, 4);
    assert_eq!(slid.id, 2);
    assert!(slid.merged.is_none());

    assert_eq!(game.score, 4);
    assert!(!won);

    // The fresh identifier came from the pool front, drawn before the
    // absorbed identifier was recycled to the pool's back.
    assert_eq!(new_id, 3);
    assert_eq!(*game.id_list.last().unwrap(), 0);
    assert!(!game.id_list[..game.id_list.len() - 1].contains(&0));

    // Three original cells collapsed to two tiles plus one spawned tile.
    assert_eq!(tiles.len(), 3);
}

/// A direction in which no tile can move is rejected and leaves the board,
/// the score and the identifier pool exactly as they were.
#[test]
fn test_noop_move_rejected() {
    let mut game = Game::new();
    set_up_board(&mut game, &[(0, 0, 2, 0), (0, 1, 4, 1)]);
    let score_before = game.score;
    let pool_before = game.id_list.clone();

    match game.receive_input("ArrowUp") {
        InputResult::Rejected(_) => {}
        InputResult::Committed(_, _, _) => panic!("nothing can move up, the move must be rejected"),
    }

    let first = tile_at(&game, 0, 0);
    assert_eq!((first.value, first.id), (2, 0));
    let second = tile_at(&game, 0, 1);
    assert_eq!((second.value, second.id), (4, 1));
    for i in 2..NUM_TILES {
        assert!(game.board[i].is_none());
    }
    assert_eq!(game.score, score_before);
    assert_eq!(game.id_list, pool_before);
}

/// An unrecognized input token is a rejection, identical to a blocked move.
#[test]
fn test_invalid_token_rejected() {
    let mut game = Game::new();
    set_up_board(&mut game, &[(1, 1, 2, 5)]);

    match game.receive_input("Enter") {
        InputResult::Rejected(_) => {}
        InputResult::Committed(_, _, _) => panic!("an unknown token must be rejected"),
    }
    let t = tile_at(&game, 1, 1);
    assert_eq!((t.value, t.id), (2, 5));
    assert_eq!(game.score, 0);
}

/// A full board with no two adjacent equal values is lost: `game_over`
/// reports true and every direction is rejected.
#[test]
fn test_game_over_terminal() {
    let mut game = Game::new();
    let mut tiles = Vec::new();
    for row in 0..4 {
        for col in 0..4 {
            let value = if (row + col) % 2 == 0 { 2 } else { 4 };
            tiles.push((row, col, value, row * 4 + col));
        }
    }
    set_up_board(&mut game, &tiles);

    assert!(game.game_over());

    for token in ["ArrowUp", "ArrowDown", "ArrowLeft", "ArrowRight"] {
        match game.receive_input(token) {
            InputResult::Rejected(_) => {}
            InputResult::Committed(_, _, _) => panic!("no move is possible on a lost board"),
        }
    }
}

/// A board with any empty cell is never lost, whatever the adjacency.
#[test]
fn test_game_over_with_free_cell() {
    let mut game = Game::new();
    set_up_board(&mut game, &[(0, 0, 2, 0), (0, 1, 2, 1)]);
    assert!(!game.game_over());

    let game2 = Game::new();
    assert!(!game2.game_over());
}

/// A committed move that forms a tile at the win target reports the win.
#[test]
fn test_win_detection() {
    let mut game = Game::new();
    set_up_board(&mut game, &[(2, 0, 1024, 7), (2, 3, 1024, 9)]);

    match game.receive_input("ArrowLeft") {
        InputResult::Committed(_, _, won) => {
            assert!(won);
        }
        InputResult::Rejected(_) => panic!("the tiles can slide and merge"),
    }
    let merged = tile_at(&game, 2, 0);
    assert_eq!(merged.value, 2048);
    assert_eq!(game.score, 2048);
}

/// The color mapper is deterministic: the base palette color for 2, and the
/// interpolated color one step toward the next palette color for 4.
#[test]
fn test_tile_colors_values() {
    let game = Game::new();
    let (background, text) = game.get_tile_colors(2);
    assert_eq!(background, "#FFD700");
    assert_eq!(text, "darkblue");

    let (background, _) = game.get_tile_colors(4);
    assert_eq!(background, "#FC9315");

    // After twelve powers the palette cycle returns to its start.
    let (background, _) = game.get_tile_colors(2 * 4096);
    assert_eq!(background, "#FFD700");
}

/// The base-2 logarithm helper.
#[test]
fn test_log_2() {
    assert_eq!(log_2(1), 0);
    assert_eq!(log_2(2), 1);
    assert_eq!(log_2(3), 1);
    assert_eq!(log_2(2048), 11);
    assert_eq!(log_2(u32::MAX), 31);
}

/// The configured spawn ratio reaches the weighted draw.
#[test]
fn test_new_with_config() {
    let game = Game::new_with_config(1, 64);
    assert_eq!(game.new_tile_params.tile_weights, [1, 1]);
    assert_eq!(game.win_target, 64);
    let value = game.generate_tile_value();
    assert!(value == 2 || value == 4);
}

/// Every successful move spawns exactly one tile: the tile count grows by
/// one minus the number of merges, and identifiers never collide.
#[test]
fn test_ids_stay_unique_over_moves() {
    let mut game = Game::new();
    let tokens = ["ArrowLeft", "ArrowUp", "ArrowRight", "ArrowDown"];
    for round in 0..200 {
        let token = tokens[round % 4];
        let _ = game.receive_input(token);
        let tiles = game.get_tiles();
        let mut seen: Vec<usize> = Vec::new();
        for t in &tiles {
            assert!(!seen.contains(&t.id), "duplicate live identifier");
            assert!(t.id < 17);
            seen.push(t.id);
        }
        if game.game_over() {
            break;
        }
    }
}

/// The only path that exercises the extra seventeenth identifier: a full
/// board with one merge possible.  The spawned tile must draw the one
/// identifier that was still free, not the one freed by the merge.
#[test]
fn test_full_board_merge_spawn() {
    let mut game = Game::new();
    let mut tiles = vec![(0, 0, 2, 0), (0, 1, 2, 1), (0, 2, 4, 2), (0, 3, 8, 3)];
    let row_values = [[4u32, 8, 16, 32], [8, 16, 32, 64], [16, 32, 64, 128]];
    for row in 1..4 {
        for col in 0..4 {
            tiles.push((row, col, row_values[row - 1][col], row * 4 + col));
        }
    }
    set_up_board(&mut game, &tiles);
    assert_eq!(game.id_list, vec![16]);

    let (new_id, returned_tiles) = match game.receive_input("ArrowLeft") {
        InputResult::Committed(new_id, returned_tiles, _) => (new_id, returned_tiles),
        InputResult::Rejected(_) => panic!("the top row merges, the move must commit"),
    };

    // The fresh identifier is the one that was never live this turn.
    assert_eq!(new_id, 16);
    // The absorbed tile's identifier returned to the pool only afterwards.
    assert_eq!(game.id_list, vec![0]);
    // The merge freed one cell and the spawn filled it again.
    assert_eq!(returned_tiles.len(), 16);
    for i in 0..NUM_TILES {
        assert!(game.board[i].is_some());
    }
    let merged = tile_at(&game, 0, 0);
    assert_eq!((merged.value, merged.id), (4, 1));
    assert_eq!(game.score, 4);
}
