use scrabble::game::{ScrabbleGame, SnapshotError};
use scrabble::session::{GameSession, SeatKind, SessionError};
use scrabble::tile_bag::TileBag;

const WORDS: &str = "AT\nTA\n";

fn rows() -> Vec<String> {
    let mut rows = vec![" ".repeat(15); 15];
    rows[7] = "       AT      ".to_string();
    rows
}

#[test]
fn restores_a_saved_game() {
    let bag = TileBag::new_with_seed(2, 3);
    let racks = (bag.get_tiles(0), bag.get_tiles(1));
    let game = ScrabbleGame::from_snapshot(1, bag, vec![5, 7], None, 3, 2, rows(), WORDS).unwrap();
    assert_eq!(game.scoreless_turns(), 3);
    assert_eq!(game.current_turn(), 1);
    assert_eq!(game.scores(), vec![5, 7]);
    assert_eq!(game.board_rows(), rows());
    assert_eq!(game.rack_for_player(0), racks.0);
    assert_eq!(game.rack_for_player(1), racks.1);
    assert!(game.winner_index().is_none());
}

#[test]
fn refuses_bad_player_counts() {
    let bag = TileBag::new_with_seed(2, 3);
    assert_eq!(
        ScrabbleGame::from_snapshot(0, bag, vec![], None, 0, 0, rows(), WORDS).err(),
        Some(SnapshotError::PlayerCount)
    );
}

#[test]
fn refuses_bad_board_dimensions() {
    let bag = TileBag::new_with_seed(2, 3);
    let mut short = rows();
    short[3] = "ABC".to_string();
    assert_eq!(
        ScrabbleGame::from_snapshot(0, bag, vec![0, 0], None, 0, 2, short, WORDS).err(),
        Some(SnapshotError::BoardDimensions)
    );
    let bag = TileBag::new_with_seed(2, 3);
    assert_eq!(
        ScrabbleGame::from_snapshot(0, bag, vec![0, 0], None, 0, 2, vec![" ".repeat(15); 14], WORDS).err(),
        Some(SnapshotError::BoardDimensions)
    );
}

#[test]
fn restores_parts_that_do_not_fit_as_given() {
    let bag = TileBag::new_with_seed(2, 3);
    let game = ScrabbleGame::from_snapshot(2, bag, vec![0, 0], None, 0, 2, rows(), WORDS).unwrap();
    assert_eq!(game.current_turn(), 2);
    assert!(!game.in_play());
    assert_eq!(
        GameSession::from_saved(game, vec![SeatKind::Human, SeatKind::Human]).err(),
        Some(SessionError::UnplayableGame)
    );
    let mut bag = TileBag::new_with_seed(2, 3);
    bag.tiles.push('1');
    let game = ScrabbleGame::from_snapshot(0, bag, vec![0, 0], None, 0, 2, rows(), WORDS).unwrap();
    assert!(!game.in_play());
    let bag = TileBag::new_with_seed(2, 3);
    let game = ScrabbleGame::from_snapshot(0, bag, vec![0, 0], None, 6, 2, rows(), WORDS).unwrap();
    assert_eq!(game.scoreless_turns(), 6);
    assert!(!game.in_play());
    let mut bag = TileBag::new_with_seed(2, 3);
    bag.players_tiles[0].push('E');
    let game = ScrabbleGame::from_snapshot(0, bag, vec![0, 0], None, 0, 2, rows(), WORDS).unwrap();
    assert!(!game.in_play());
    let bag = TileBag::new_with_seed(2, 3);
    let game = ScrabbleGame::from_snapshot(0, bag, vec![7], None, 0, 2, rows(), WORDS).unwrap();
    assert!(!game.in_play());
}

#[test]
fn restores_what_a_table_cannot_play_on() {
    let mut bag = TileBag::new_with_seed(2, 3);
    bag.tiles.push('Z');
    bag.tiles.push('Z');
    let game = ScrabbleGame::from_snapshot(0, bag, vec![0, 0], None, 0, 2, rows(), WORDS).unwrap();
    assert_eq!(game.bag_tile_count(), 88);
    assert!(game.in_play());
    let bag = TileBag::new_with_seed(2, 3);
    let mut odd = rows();
    odd[0] = "a              ".to_string();
    let game = ScrabbleGame::from_snapshot(0, bag, vec![0, 0], None, 0, 2, odd.clone(), WORDS).unwrap();
    assert_eq!(game.board_rows(), odd);
    assert!(game.in_play());
    assert_eq!(
        GameSession::from_saved(game, vec![SeatKind::Human, SeatKind::Human]).err(),
        Some(SessionError::UnplayableGame)
    );
    let bag = TileBag::new_with_seed(2, 3);
    let game = ScrabbleGame::from_snapshot(0, bag, vec![2_100_000_000, 0], None, 0, 2, rows(), WORDS).unwrap();
    assert!(GameSession::from_saved(game, vec![SeatKind::Human, SeatKind::Human]).is_ok());
    let bag = TileBag::new_with_seed(2, 3);
    let game = ScrabbleGame::from_snapshot(0, bag, vec![2_147_483_400, 0], None, 0, 2, rows(), WORDS).unwrap();
    assert_eq!(game.scores(), vec![2_147_483_400, 0]);
    assert_eq!(
        GameSession::from_saved(game, vec![SeatKind::Human, SeatKind::Human]).err(),
        Some(SessionError::UnplayableGame)
    );
}

#[test]
fn a_move_plays_while_the_score_fits() {
    let bag = TileBag {
        seed: 1,
        exchange_count: 0,
        tiles: vec!['E'; 20],
        players_tiles: vec![vec!['A', 'T'], vec!['Q', 'Z']],
    };
    let empty = vec![" ".repeat(15); 15];
    let mut game = ScrabbleGame::from_snapshot(0, bag, vec![2_147_000_000, 0], None, 0, 2, empty, WORDS).unwrap();
    let best = game.get_moves()[0].clone();
    let score = best.score as i32;
    game.make_turn(best);
    assert_eq!(game.scores(), vec![2_147_000_000 + score, 0]);
}

#[test]
fn going_out_moves_rack_points_to_the_winner() {
    let bag = TileBag {
        seed: 1,
        exchange_count: 0,
        tiles: vec![],
        players_tiles: vec![vec!['A', 'T'], vec!['Q', 'Z']],
    };
    let empty = vec![" ".repeat(15); 15];
    let mut game = ScrabbleGame::from_snapshot(0, bag, vec![0, 0], None, 0, 2, empty, WORDS).unwrap();
    let moves = game.get_moves();
    let best = moves[0].clone();
    assert_eq!(best.tiles.len(), 2);
    let score = best.score as i32;
    game.make_turn(best);
    assert_eq!(game.winner_index(), Some(0));
    assert_eq!(game.scores(), vec![score + 20, -20]);
    assert_eq!(game.scores().iter().sum::<i32>(), score);
}
