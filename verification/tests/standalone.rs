use scrabble::common::TilePlacement;
use scrabble::standalone::ScrabbleBoard;

const WORDS: &str = "ABALONE\nAT\nBED\nCAT\nED\nEF\nFA\nFE\nFETCH\nFINDS\nGO\nHA\nHAD\nHELLO\nIF\nMETER\nOAF\nOF\nOI\nON\nPA\nPI\nSELL\nSH\nSHELL\nSO\nSPEED\nSPEEDOMETER\nTHIN\nWORLD\n";

fn new_board() -> ScrabbleBoard {
    ScrabbleBoard::new(WORDS)
}

#[test]
fn board_test_basic_valid_move() {
    let board = new_board();
    assert!(board.is_valid_move("HELLO", 7, 7, true));
}

#[test]
fn test_invalid_move_out_of_bounds() {
    let board = new_board();
    assert!(!board.is_valid_move("HELLO", 7, 12, true));
}

#[test]
fn board_test_invalid_move_overlapping() {
    let mut board = new_board();
    // Place HELLO at (7,7) horizontally
    board.place_word("HELLO", 7, 7, true);
    // Now try to place WORLD overlapping with O in HELLO
    assert!(!board.is_valid_move("WORLD", 6, 9, false));
}

#[test]
fn board_test_valid_move_with_new_words() {
    let mut board = new_board();
    board.place_word("SHELL", 0, 0, true);
    // HAD from (1,0) would create the words "SH", "HA", and "ED"
    assert!(board.is_valid_move("HAD", 1, 0, true));
}

#[test]
fn board_test_letter_placement_forms_word_both_directions() {
    let mut board = new_board();
    board.place_word("SPEED", 0, 0, true);
    board.place_word("METER", 0, 6, true);
    assert!(board.is_valid_move("O", 0, 5, true));
}

#[test]
fn board_test_vertical_letter_forms_invalid_vertical_word() {
    let mut board = new_board();
    board.place_word("FETCH", 0, 0, true);
    assert!(!board.is_valid_move("F", 1, 0, false));
}

#[test]
fn board_test_single_letter_forms_words_in_both_directions() {
    let mut board = new_board();
    board.place_word("SPEED", 5, 0, true);
    board.place_word("METER", 5, 6, true);
    board.place_word("SPEED", 0, 5, false);
    board.place_word("METER", 6, 5, false);
    assert!(board.is_valid_move("O", 5, 5, true));
}

#[test]
fn board_test_simple_score() {
    let board = new_board();
    assert_eq!(board.word_score("SPEED", 0, 0, true), 27)
    // S (1, TWS) + P (3) + E (1) + E (2, DLS) + D (2) == 27
}

#[test]
fn test_multiple_word_score() {
    let mut board = new_board();
    board.place_word("SHELL", 0, 0, true);
    // H (4) + A (1, DWS) + D (2) == 14
    // S (1) + H (4) == 5
    // H (4) + A (1, DWS) == 10
    // E (1) + D (2) == 3
    // Total == 32
    assert_eq!(board.word_score("HAD", 1, 0, true), 32);
}

#[test]
fn test_single_letter_forms_long_word() {
    let mut board = new_board();
    board.place_word("SPEED", 0, 0, true);
    board.place_word("METER", 0, 6, true);

    // S (1) + P (3) + E (1) + E (1) + D (2) + O (1) + M (3) + E (1) + T (1) + E (1) + R (1) == 16

    assert_eq!(board.word_score("O", 0, 5, true), 16);
}

#[test]
fn move_score_of_placements() {
    let mut board = new_board();
    board.place_word("SHELL", 0, 0, true);
    let placements = vec![
        TilePlacement { coords: (1, 0), tile: 'H' },
        TilePlacement { coords: (1, 1), tile: 'A' },
        TilePlacement { coords: (1, 2), tile: 'D' },
    ];
    assert_eq!(board.get_move_score(&placements, true, true), Some(32));
    // Without the crossing words only HAD counts.
    assert_eq!(board.get_move_score(&placements, true, false), Some(14));
}

#[test]
fn move_score_refuses_scattered_or_occupied_tiles() {
    let mut board = new_board();
    board.place_word("AT", 7, 7, true);
    let scattered = vec![
        TilePlacement { coords: (0, 0), tile: 'A' },
        TilePlacement { coords: (1, 1), tile: 'T' },
    ];
    assert_eq!(board.get_move_score(&scattered, true, true), None);
    let occupied = vec![TilePlacement { coords: (7, 7), tile: 'C' }];
    assert_eq!(board.get_move_score(&occupied, true, true), None);
}

#[test]
fn single_tile_without_word_scores_zero() {
    let board = new_board();
    let lone = vec![TilePlacement { coords: (3, 3), tile: 'Q' }];
    assert_eq!(board.get_move_score(&lone, true, true), Some(0));
}

#[test]
fn moves_from_the_left_edge_match_words() {
    let mut board = new_board();
    board.place_word("SPEED", 0, 0, true);
    let moves = board.get_moves_from_spot_exact_length("OIF", 1, 0, true, 2);
    assert_eq!(moves.len(), 1);
    let tiles = &moves[0].tiles;
    assert_eq!(tiles[0].coords, (1, 0));
    assert_eq!(tiles[0].tile, 'O');
    assert_eq!(tiles[1].coords, (1, 1));
    assert_eq!(tiles[1].tile, 'I');
    // The score is not kept with the move.
    assert_eq!(moves[0].score, 0);
}

#[test]
fn moves_from_spot_cover_each_length() {
    let mut board = new_board();
    board.place_word("SPEED", 0, 0, true);
    let moves = board.get_moves_from_spot("AFOOI", 1, 0, true, 3);
    let lengths: Vec<usize> = moves.iter().map(|m| m.tiles.len()).collect();
    assert_eq!(lengths, vec![2, 3]);
}

#[test]
fn moves_need_the_rack_letters() {
    let board = new_board();
    let moves = board.get_moves_from_spot_exact_length("XYZ", 0, 0, true, 2);
    assert!(moves.is_empty());
}

#[test]
fn parse_and_dump() {
    let board = ScrabbleBoard::parse_str("AB\n C", WORDS);
    let dump = board.dump();
    let first = dump.lines().next().unwrap();
    assert!(first.starts_with("['A', 'B', ' '"));
    let second = dump.lines().nth(1).unwrap();
    assert!(second.starts_with("[' ', 'C', ' '"));
}

#[test]
fn a_fresh_word_starts_at_its_square() {
    let board = new_board();
    let moves = board.get_moves_from_spot_exact_length("AT", 7, 5, true, 2);
    assert_eq!(moves.len(), 1);
    assert_eq!(
        moves[0].tiles,
        vec![TilePlacement { coords: (7, 5), tile: 'A' }, TilePlacement { coords: (7, 6), tile: 'T' }]
    );
}

#[test]
fn a_column_word_takes_in_the_tiles_above() {
    let mut board = new_board();
    board.place_word("A", 6, 7, true);
    let moves = board.get_moves_from_spot_exact_length("T", 7, 7, false, 1);
    assert_eq!(moves.len(), 1);
    assert_eq!(moves[0].tiles, vec![TilePlacement { coords: (7, 7), tile: 'T' }]);
}

#[test]
fn no_tiles_to_place_gives_no_moves() {
    let mut board = new_board();
    board.place_word("A", 7, 6, true);
    assert!(board.get_moves_from_spot_exact_length("T", 7, 7, true, 0).is_empty());
}

#[test]
fn an_empty_word_may_start_past_the_last_column() {
    let mut board = new_board();
    board.place_word("", 3, 15, true);
    assert_eq!(board.dump(), new_board().dump());
}
