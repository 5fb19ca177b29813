use scrabble::common::{PossibleMove, TilePlacement};
use scrabble::game::ScrabbleGame;
use scrabble::tile_bag::TileBag;

const WORDS: &str = "ABALONE\nAT\nBED\nCAT\nED\nEF\nFA\nFE\nFETCH\nFINDS\nGO\nHA\nHAD\nHELLO\nIF\nMETER\nNONBANKS\nOAF\nOF\nOI\nON\nPA\nPHOEBE\nPI\nSELL\nSH\nSHELL\nSO\nSPEED\nSPEEDOMETER\nTHIN\nWORLD\nZANZA\n";

fn new_game(total_players: usize, seed: u64) -> ScrabbleGame {
    ScrabbleGame::new(total_players, seed, WORDS)
}

fn word_of(m: &PossibleMove) -> String {
    m.tiles.iter().map(|t| t.tile).collect::<String>()
}

#[test]
fn game_test_basic_valid_move() {
    let board = new_game(2, 1);

    // H (4, TWS) + E (1) + L (1) + L (2, DLS) + O (1) == 27
    let moves = board.get_moves_from_spot_exact_length("HELLO", 0, 0, true, 5);
    let hello_move = moves
        .iter()
        .find(|m| m.tiles.iter().all(|t| "HELLO".contains(t.tile)))
        .expect("Should find HELLO move");
    assert_eq!(hello_move.score, 27);
}

#[test]
fn game_test_invalid_move_overlapping() {
    let mut board = new_game(2, 1);
    // Place HELLO at (7,7) horizontally
    board._place_word("HELLO", 7, 7, true);
    // Now try to place WORLD overlapping with O in HELLO
    let moves = board.get_moves_from_spot_exact_length("WORLD", 7, 7, false, 5);
    assert_eq!(moves.len(), 0);
}

#[test]
fn game_test_valid_move_with_new_words() {
    let mut board = new_game(2, 1);
    // Place SHELL at the top left horizontally
    board._place_word("SHELL", 0, 0, true);
    // Now place HAD horizontally starting at (1,0) which would create the words "SH", "HA", and "ED"

    // H (4) + A (1, DWS) + D (2) == 14
    // S (1) + H(4) == 5
    // H (4) + A (1, DWS) == 10
    // E (1) + D (2) == 3
    let moves = board.get_moves_from_spot_exact_length("HAD", 1, 0, true, 3);
    let had_move = moves
        .iter()
        .find(|m| m.tiles.len() == 3 && m.tiles.iter().all(|t| "HAD".contains(t.tile)))
        .expect("Should find HAD move");
    assert_eq!(had_move.score, 32);
}

#[test]
fn game_test_letter_placement_forms_word_both_directions() {
    let mut board = new_game(2, 1);
    board._place_word("SPEED", 0, 0, true);
    board._place_word("METER", 0, 6, true);

    // S (1) + P (3) + E (1) + E (1) + D (2) + O (1) + M (3) + E (1) + T (1) + E (1) + R (1) == 16
    let moves = board.get_moves_from_spot_exact_length("O", 0, 5, true, 1);

    // Find any valid move - the position might not have moves if no valid words form
    assert_eq!(
        moves
            .iter()
            .find(|m| m.tiles.len() == 1 && m.tiles[0].tile == 'O')
            .expect("Expected to find O")
            .score,
        16
    );
}

#[test]
fn game_test_vertical_letter_forms_invalid_vertical_word() {
    let mut board = new_game(2, 1);
    board._place_word("FETCH", 0, 0, true);
    // Trying to place F vertically at (1, 0) would form "FF" which is not a valid word
    let moves = board.get_moves_from_spot_exact_length("F", 1, 0, false, 1);
    // Should return no valid moves because FF is not a word
    assert_eq!(moves.len(), 0);
}

#[test]
fn game_test_single_letter_forms_words_in_both_directions() {
    let mut board = new_game(2, 1);
    board._place_word("SPEED", 5, 0, true);
    board._place_word("METER", 5, 6, true);
    board._place_word("SPEED", 0, 5, false);
    board._place_word("METER", 6, 5, false);

    // At (5,5), we have a triple letter score
    let moves = board.get_moves_from_spot_exact_length("O", 5, 5, true, 1);

    assert_eq!(
        moves
            .iter()
            .find(|m| m.tiles.len() == 1 && m.tiles[0].tile == 'O')
            .expect("Expected to find O")
            .score,
        36,
    );
}

#[test]
fn game_test_simple_score() {
    let board = new_game(2, 1);

    // S (1, TWS) + P (3) + E (1) + E (2, DLS) + D (2) == 27

    let moves = board.get_moves_from_spot_exact_length("SPEED", 0, 0, true, 5);
    let speed_move = moves
        .iter()
        .find(|m| m.tiles.iter().all(|t| "SPEED".contains(t.tile)))
        .expect("Should find SPEED move");
    // The score should be at least 27 (the base word score)
    assert!(speed_move.score >= 27);
}

#[test]
fn test_possible_moves_simple() {
    let mut board = new_game(2, 1);

    board._place_word("SPEED", 0, 0, true);
    let possible_words = board.get_moves_from_spot("AFOOI", 1, 0, true, None);

    // Two words from (1, 0) horizontally: OI and OAF.

    let short_word = possible_words.iter().find(|x| x.tiles.len() == 2).unwrap();
    // First, OI which also forms SO and PI.
    // O (1) + I (1, DWS) == 4
    // S (1) + O (1) == 2
    // P (3) + I (1, DWS) == 8
    // Total == 14
    assert_eq!(short_word.tiles.len(), 2);
    assert_eq!(short_word.tiles[0].coords, (1, 0));
    assert_eq!(short_word.tiles[0].tile, 'O');
    assert_eq!(short_word.tiles[1].coords, (1, 1));
    assert_eq!(short_word.tiles[1].tile, 'I');
    assert_eq!(short_word.score, 14);

    let long_word = possible_words.iter().find(|x| x.tiles.len() == 3).unwrap();
    // Then, OAF which also forms SO, PA, and EF.
    // O (1) + A (1, DWS) + F (4) == 12
    // S (1) + O (1) == 2
    // P (3) + A (1, DWS) == 8
    // E (1) + F (4) == 5
    // Total == 27
    assert_eq!(long_word.tiles.len(), 3);
    assert_eq!(long_word.tiles[0].coords, (1, 0));
    assert_eq!(long_word.tiles[0].tile, 'O');
    assert_eq!(long_word.tiles[1].coords, (1, 1));
    assert_eq!(long_word.tiles[1].tile, 'A');
    assert_eq!(long_word.tiles[2].coords, (1, 2));
    assert_eq!(long_word.tiles[2].tile, 'F');
    assert_eq!(long_word.score, 27);
}

#[test]
fn test_exact_length_returns_empty_when_spot_occupied() {
    let mut board = new_game(2, 1);
    board._place_word("HELLO", 7, 7, true);

    // Trying to place at an occupied spot should return empty
    let moves = board.get_moves_from_spot_exact_length("ABCDE", 7, 7, true, 2);
    assert_eq!(moves.len(), 0);
}

#[test]
fn test_exact_length_first_move_center() {
    let board = new_game(2, 1);

    // First move: place "CAT" horizontally at center (7,7) using exactly 3 tiles
    let moves = board.get_moves_from_spot_exact_length("CAT", 7, 7, true, 3);

    // Should find CAT
    assert!(!moves.is_empty());
    let cat_move = moves.iter().find(|m| {
        m.tiles.len() == 3 && m.tiles.iter().all(|t| t.tile == 'C' || t.tile == 'A' || t.tile == 'T')
    });
    assert!(cat_move.is_some());
}

#[test]
fn test_exact_length_enforces_exact_tile_count() {
    let board = new_game(2, 1);

    // Request moves with exactly 2 tiles
    let moves_2 = board.get_moves_from_spot_exact_length("ABCDE", 7, 7, true, 2);

    // All moves should have exactly 2 tiles
    for m in moves_2.iter() {
        assert_eq!(m.tiles.len(), 2);
    }

    // Request moves with exactly 3 tiles
    let moves_3 = board.get_moves_from_spot_exact_length("ABCDE", 7, 7, true, 3);

    // All moves should have exactly 3 tiles
    for m in moves_3.iter() {
        assert_eq!(m.tiles.len(), 3);
    }

    // Both should have moves
    assert!(!moves_2.is_empty());
    assert!(!moves_3.is_empty());
}

#[test]
fn test_exact_length_places_from_left() {
    let mut board = new_game(2, 1);
    board._place_word("SPEED", 0, 0, true);

    // Place horizontally from (1, 0) with exactly 2 tiles
    let moves = board.get_moves_from_spot_exact_length("OIA", 1, 0, true, 2);

    assert!(!moves.is_empty());

    // All returned moves should have exactly 2 tiles
    for m in moves.iter() {
        assert_eq!(m.tiles.len(), 2);
    }
}

#[test]
fn test_exact_length_cannot_form_invalid_words() {
    let board = new_game(2, 1);

    // "XX" is not a valid word, so this should return empty
    let moves = board.get_moves_from_spot_exact_length("XX", 7, 7, true, 2);

    // Should be empty because we can't form valid words
    assert_eq!(moves.len(), 0);
}

#[test]
fn test_exact_length_missing_required_tiles() {
    let mut board = new_game(2, 1);
    board._place_word("AT", 7, 7, true);

    // Try to place "CAR" vertically from below the "A", but we don't have all the tiles
    let moves = board.get_moves_from_spot_exact_length("XYZ", 8, 7, false, 2);

    // Should not find any moves that require C, A, or R
    for m in moves.iter() {
        for tile in m.tiles.iter() {
            assert!(tile.tile == 'X' || tile.tile == 'Y' || tile.tile == 'Z');
        }
    }
}

#[test]
fn test_exact_length_vertical_placement() {
    let mut board = new_game(2, 1);
    board._place_word("SPEED", 0, 5, false);

    // Place vertically with exactly 2 tiles from position below the E
    let moves = board.get_moves_from_spot_exact_length("EAT", 5, 5, false, 2);

    for m in moves.iter() {
        assert_eq!(m.tiles.len(), 2);
    }
}

#[test]
fn test_exact_length_score_calculation() {
    let board = new_game(2, 1);

    let moves = board.get_moves_from_spot_exact_length("CAT", 7, 7, true, 3);

    // All moves should have a valid score
    for m in moves.iter() {
        assert!(m.score > 0);
    }
}

#[test]
fn test_exact_length_zero_tiles_returns_empty() {
    let board = new_game(2, 1);

    // Requesting to place 0 tiles should return empty
    let moves = board.get_moves_from_spot_exact_length("ABCDE", 7, 7, true, 0);
    assert_eq!(moves.len(), 0);
}

#[test]
fn test_exact_length_horizontal_vs_vertical() {
    let mut board = new_game(2, 1);
    board._place_word("HELLO", 5, 5, true);

    // Get horizontal moves from a spot
    let horizontal_moves = board.get_moves_from_spot_exact_length("WORLD", 5, 10, true, 2);

    // Get vertical moves from a spot
    let vertical_moves = board.get_moves_from_spot_exact_length("WORLD", 5, 10, false, 2);

    // Both should have exact length 2
    for m in horizontal_moves.iter() {
        assert_eq!(m.tiles.len(), 2);
    }
    for m in vertical_moves.iter() {
        assert_eq!(m.tiles.len(), 2);
    }
}

#[test]
fn test_get_moves_from_spot_exact_length_goes_off_end() {
    let board = new_game(2, 1);

    let moves = board.get_moves_from_spot_exact_length("QOIGEOQOQEASGEO", 13, 7, false, 5);
    assert_eq!(moves.len(), 0);
}

#[test]
fn test_bingo_bonus() {
    let board = new_game(2, 1);

    // Vertical ABALONE at (7,7) is A (1) + B (3) + A (1) + L (1) + O (2, DLS) + N (1) + E (1) == 10
    // With a bingo bonus, it should be 60
    let moves = board.get_moves_from_spot_exact_length("ABALONE", 7, 7, false, 7);
    assert_eq!(moves[0].score, 60);
}

#[test]
fn test_wildcard_chars() {
    let board = new_game(2, 1);

    let moves = board.get_moves_from_spot_exact_length("*F", 7, 7, true, 2);

    // There are 5 valid 2-letter words with an F: EF, FA, FE, IF, and OF, all worth 5 points at (7,7)
    assert_eq!(moves.len(), 5);
    assert!(moves.iter().all(|m| {
        if m.score != 5 {
            return false;
        }

        let word = m.tiles.iter().map(|t| t.tile).collect::<String>();
        return word == "EF" || word == "FA" || word == "FE" || word == "IF" || word == "OF";
    }));

    let moves = board.get_moves_from_spot_exact_length("****Z", 7, 7, true, 5);
    moves
        .iter()
        .find(|w| w.tiles.iter().map(|t| t.tile).collect::<String>() == "ZANZA")
        .expect("Should find that weird word.");
}

#[test]
fn test_that_one_game_that_thought_that_thin_was_invalid_move() {
    let mut board = new_game(2, 8);
    let player0_tiles = board.bag.get_tiles(0);
    assert!(player0_tiles.contains("T") && player0_tiles.contains("I") && player0_tiles.contains("N"));

    board._place_word("SELL", 7, 7, true);
    board._place_word("PHOEBE", 2, 8, false);

    // The issue with this one was that iterating backwards from an adjacent tile was throwing in the length requirement as both a min and a max, not just a min.
    let valid_moves = board.get_moves();
    assert!(valid_moves.iter().any(|m| word_of(m) == "TIN"
        && m.tiles[0].coords == (3, 7)
        && m.tiles[0].tile == 'T'
        && m.tiles[1].coords == (3, 9)
        && m.tiles[1].tile == 'I'
        && m.tiles[2].coords == (3, 10)
        && m.tiles[2].tile == 'N'));
}

#[test]
fn test_gameplay_weirdness() {
    let mut board = new_game(2, 32);
    let player0_tiles = board.bag.get_tiles(0);
    assert!(player0_tiles.contains("G") && player0_tiles.contains("O"));

    board._place_word("NONBANKS", 7, 4, true);
    board._place_word("FINDS", 5, 9, false);

    let valid_moves = board.get_moves();
    assert!(valid_moves.iter().any(|m| word_of(m) == "GO"
        && m.tiles[0].coords == (6, 5)
        && m.tiles[0].tile == 'G'
        && m.tiles[1].coords == (6, 6)
        && m.tiles[1].tile == 'O'));
}

#[test]
fn test_scoreless_turns_endgame() {
    // Fill the board with A's to create a scenario where there are no valid moves and the game should end after 6 scoreless turns.
    let mut board = ScrabbleGame::parse_str(2, &*"AAAAAAAAAAAAAAA\n".repeat(14).trim(), 1, WORDS);
    board.player_scores[1] = 50;

    for _ in 0..6 {
        assert!(board.get_moves().is_empty());
        board.pass();
    }

    assert!(board.winner.is_some());
    assert_eq!(board.winner.unwrap(), 1);
}

#[test]
fn winner_stops_move_generation() {
    let mut game = new_game(2, 42);
    let moves = game.get_moves();
    let first_move = moves.first().cloned().expect("expected opening move");

    game.winner = Some(0);
    let turn_before = game.current_turn();
    let score_before = game.scores();
    let board_before = game.board_dump();

    game.make_turn(first_move);

    assert_eq!(game.current_turn(), turn_before);
    assert_eq!(game.scores(), score_before);
    assert_eq!(game.board_dump(), board_before);
    assert!(game.get_moves().is_empty());
}

#[test]
fn moves_are_offered_best_first() {
    let game = new_game(2, 3);
    let moves = game.get_moves();
    for pair in moves.windows(2) {
        assert!(pair[0].score >= pair[1].score);
    }
}

#[test]
fn passing_moves_the_turn_round_the_table() {
    let mut game = new_game(3, 5);
    assert_eq!(game.current_turn(), 0);
    game.pass();
    assert_eq!(game.current_turn(), 1);
    game.pass();
    assert_eq!(game.current_turn(), 2);
    game.pass();
    assert_eq!(game.current_turn(), 0);
    assert!(game.winner_index().is_none());
}

#[test]
fn six_scoreless_turns_end_the_game() {
    let mut game = new_game(2, 9);
    for _ in 0..5 {
        game.pass();
        assert!(game.winner_index().is_none());
    }
    game.pass();
    assert!(game.winner_index().is_some());
    // Once there is a winner nothing changes any more.
    let turn = game.current_turn();
    let scores = game.scores();
    game.pass();
    assert_eq!(game.current_turn(), turn);
    assert_eq!(game.scores(), scores);
}

#[test]
fn end_of_game_takes_rack_points_off() {
    let mut game = new_game(2, 11);
    let rack0 = game.rack_for_player(0);
    let rack1 = game.rack_for_player(1);
    let points = |rack: &str| -> i32 {
        rack.chars()
            .map(|c| match c {
                'A' | 'E' | 'I' | 'L' | 'N' | 'O' | 'R' | 'S' | 'T' | 'U' => 1,
                'D' | 'G' => 2,
                'B' | 'C' | 'M' | 'P' => 3,
                'F' | 'H' | 'V' | 'W' | 'Y' => 4,
                'K' => 5,
                'J' | 'X' => 8,
                'Q' | 'Z' => 10,
                _ => 0,
            })
            .sum()
    };
    for _ in 0..6 {
        game.pass();
    }
    assert_eq!(game.scores(), vec![-points(&rack0), -points(&rack1)]);
    let winner = game.winner_index().unwrap();
    let scores = game.scores();
    assert!(scores.iter().all(|s| *s <= scores[winner]));
}

#[test]
fn a_move_uses_tiles_from_the_rack() {
    let mut game = new_game(2, 42);
    let moves = game.get_moves();
    let best = moves[0].clone();
    let in_play_before = game.bag_tile_count() + game.rack_for_player(0).len() + game.rack_for_player(1).len();
    let score = best.score;
    let placed = best.tiles.len();
    game.make_turn(best);
    let in_play_after = game.bag_tile_count() + game.rack_for_player(0).len() + game.rack_for_player(1).len();
    assert_eq!(in_play_before - in_play_after, placed);
    assert_eq!(game.scores()[0], score as i32);
    assert_eq!(game.current_turn(), 1);
}

#[test]
fn parse_str_puts_letters_on_squares() {
    let game = ScrabbleGame::parse_str(2, "AB\n C", 1, WORDS);
    let rows = game.board_rows();
    assert_eq!(rows.len(), 15);
    assert_eq!(&rows[0][0..3], "AB ");
    assert_eq!(&rows[1][0..3], " C ");
    assert_eq!(rows[2], "               ");
}

#[test]
fn board_dump_writes_rows_as_debug() {
    let mut game = new_game(1, 1);
    game._place_word("AT", 0, 0, true);
    let dump = game.board_dump();
    let first_line = dump.lines().next().unwrap();
    assert_eq!(
        first_line,
        "['A', 'T', ' ', ' ', ' ', ' ', ' ', ' ', ' ', ' ', ' ', ' ', ' ', ' ', ' ']"
    );
    assert_eq!(dump.lines().count(), 15);
}

#[test]
fn place_tiles_writes_each_tile() {
    let mut game = new_game(1, 1);
    game.place_tiles(&vec![
        TilePlacement { coords: (3, 4), tile: 'Q' },
        TilePlacement { coords: (14, 14), tile: 'Z' },
    ]);
    let rows = game.board_rows();
    assert_eq!(rows[3].chars().nth(4), Some('Q'));
    assert_eq!(rows[14].chars().nth(14), Some('Z'));
}

#[test]
fn a_saved_game_restores_with_the_same_future() {
    let mut game = new_game(2, 42);
    let first = game.get_moves()[0].clone();
    game.make_turn(first);
    let bag = TileBag {
        seed: game.bag.seed,
        exchange_count: game.bag.exchange_count,
        tiles: game.bag.tiles.clone(),
        players_tiles: game.bag.players_tiles.clone(),
    };
    let restored = ScrabbleGame::from_snapshot(
        game.current_turn(),
        bag,
        game.scores(),
        game.winner_index(),
        game.scoreless_turns(),
        game.total_players(),
        game.board_rows(),
        WORDS,
    )
    .unwrap();
    assert_eq!(restored.scoreless_turns(), game.scoreless_turns());
    assert_eq!(restored.board_rows(), game.board_rows());
    assert_eq!(restored.scores(), game.scores());
    assert_eq!(restored.current_turn(), game.current_turn());
    assert_eq!(restored.rack_for_player(0), game.rack_for_player(0));
    assert_eq!(restored.rack_for_player(1), game.rack_for_player(1));
    assert_eq!(restored.bag_tile_count(), game.bag_tile_count());
    let before: Vec<(Vec<TilePlacement>, u32)> = game.get_moves().into_iter().map(|m| (m.tiles, m.score)).collect();
    let after: Vec<(Vec<TilePlacement>, u32)> = restored.get_moves().into_iter().map(|m| (m.tiles, m.score)).collect();
    assert_eq!(before, after);
}

fn tiles_in_play(game: &ScrabbleGame) -> usize {
    let racks: usize = (0..game.total_players()).map(|p| game.rack_for_player(p).chars().count()).sum();
    let board: usize = game.board_rows().iter().map(|r| r.chars().filter(|c| *c != ' ').count()).sum();
    game.bag_tile_count() + racks + board
}

#[test]
fn turns_keep_the_hundred_tiles_in_play() {
    let mut game = new_game(2, 42);
    assert_eq!(tiles_in_play(&game), 100);
    for turn in 0..6 {
        if game.winner_index().is_some() {
            break;
        }
        let moves = game.get_moves();
        if turn == 2 && game.can_exchange() {
            let rack = game.current_player_rack();
            game.exchange(rack);
        } else if moves.is_empty() {
            game.pass();
        } else {
            game.make_turn(moves[0].clone());
        }
        assert_eq!(tiles_in_play(&game), 100);
    }
}

#[test]
fn joined_rows_parse_back_to_the_board() {
    let mut game = new_game(2, 42);
    let first = game.get_moves()[0].clone();
    game.make_turn(first);
    let text = game.board_rows().join("\n");
    let parsed = ScrabbleGame::parse_str(2, &text, 7, WORDS);
    assert_eq!(parsed.board_rows(), game.board_rows());
}

#[test]
fn zero_tiles_give_no_moves() {
    let game = ScrabbleGame::parse_str(2, "\n\n\n\n\n\n\n     AT", 1, WORDS);
    assert!(game.get_moves_from_spot_exact_length("AT", 7, 7, true, 0).is_empty());
    assert!(game.get_moves_from_spot_exact_length("AT", 7, 4, true, 0).is_empty());
}
