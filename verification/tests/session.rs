use scrabble::common::TilePlacement;
use scrabble::session::{same_tiles, GameSession, SeatKind, SessionError};

const WORDS: &str = "AT\nBED\nCAT\nED\nEF\nFA\nFE\nGO\nHA\nHAD\nIF\nOF\nOI\nON\nPA\nPI\nSO\nTA\nTE\nTO\nNO\nAN\nIN\nIT\nIS\nAS\nON\nOR\nRE\nER\nES\nEN\nNE\nTI\nAI\nAE\nOE\nLO\nLA\nLI\nAL\nEL\nUS\nUT\nUN\nDO\nDE\nAD\nID\nOD\n";

#[test]
fn new_table_checks_the_player_count() {
    assert!(matches!(GameSession::new(0, vec![], WORDS), Err(SessionError::PlayerCount)));
    assert!(matches!(GameSession::new(5, vec![], WORDS), Err(SessionError::PlayerCount)));
    assert!(matches!(GameSession::new(2, vec![2], WORDS), Err(SessionError::AiSeatOutOfRange)));
}

#[test]
fn new_table_seats_the_computer_players() {
    let s = GameSession::new(3, vec![1, 2], WORDS).unwrap();
    assert_eq!(s.seats, vec![SeatKind::Human, SeatKind::Ai, SeatKind::Ai]);
    assert!(!s.is_ai_turn());
    let view = s.state_view();
    assert_eq!(view.total_players, 3);
    assert_eq!(view.current_turn, 0);
    assert_eq!(view.scores, vec![0, 0, 0]);
    assert_eq!(view.tiles_in_bag, 100 - 21);
    assert_eq!(view.racks.len(), 3);
    assert_eq!(view.current_rack, view.racks[0]);
    assert!(view.can_exchange);
    assert!(view.winner.is_none());
    assert_eq!(view.board_rows.len(), 15);
}

#[test]
fn human_moves_are_refused_on_a_computer_turn() {
    let mut s = GameSession::new(2, vec![0], WORDS).unwrap();
    assert_eq!(s.play_move_by_index(0), Err(SessionError::AiTurn));
    assert_eq!(
        s.play_move_by_placements(vec![TilePlacement { coords: (7, 7), tile: 'A' }]),
        Err(SessionError::AiTurnNoHumanMoves)
    );
}

#[test]
fn placements_must_be_given_and_legal() {
    let mut s = GameSession::new(2, vec![], WORDS).unwrap();
    assert_eq!(s.play_move_by_placements(vec![]), Err(SessionError::NoPlacements));
    assert_eq!(
        s.play_move_by_placements(vec![TilePlacement { coords: (0, 0), tile: 'Q' }]),
        Err(SessionError::IllegalPlacements)
    );
    assert_eq!(s.play_move_by_index(100_000), Err(SessionError::MoveIndexOutOfRange));
}

#[test]
fn playing_an_offered_move_by_its_tiles() {
    let mut s = GameSession::new(2, vec![], WORDS).unwrap();
    let moves = s.legal_moves();
    if let Some(first) = moves.first() {
        let mut tiles = first.tiles.clone();
        tiles.reverse();
        let score = first.score;
        assert_eq!(s.play_move_by_placements(tiles), Ok(()));
        assert_eq!(s.state_view().scores[0], score as i32);
        assert_eq!(s.state_view().current_turn, 1);
    }
}

#[test]
fn exchanging_needs_tiles_from_the_rack() {
    let mut s = GameSession::new(2, vec![], WORDS).unwrap();
    assert_eq!(s.exchange_tiles(String::new()), Err(SessionError::NoExchangeTiles));
    let rack = s.state_view().current_rack;
    // There is only one Q among the tiles.
    let missing = "QQ".to_string();
    assert_eq!(s.exchange_tiles(missing), Err(SessionError::TilesNotInRack));
    let first: String = rack.chars().take(2).collect();
    assert!(s.rack_can_supply_tiles(&first));
    assert_eq!(s.exchange_tiles(first), Ok(()));
    assert_eq!(s.state_view().current_turn, 1);
    assert_eq!(s.state_view().tiles_in_bag, 100 - 14);
}

#[test]
fn exchanging_the_whole_rack() {
    let mut s = GameSession::new(2, vec![], WORDS).unwrap();
    assert_eq!(s.exchange_current_rack(), Ok(()));
    assert_eq!(s.state_view().current_turn, 1);
    assert_eq!(s.state_view().racks[0].len(), 7);
}

#[test]
fn computer_players_play_until_the_game_ends() {
    let mut s = GameSession::new(2, vec![0, 1], WORDS).unwrap();
    assert_eq!(s.auto_play_until_human_or_end(), Ok(()));
    assert!(s.state_view().winner.is_some());
}

#[test]
fn a_step_on_a_human_turn_does_nothing() {
    let mut s = GameSession::new(2, vec![1], WORDS).unwrap();
    assert_eq!(s.step_ai_turn(), Ok(false));
    assert_eq!(s.state_view().current_turn, 0);
    s.pass_turn();
    assert_eq!(s.step_ai_turn(), Ok(true));
    assert_eq!(s.state_view().current_turn, 0);
}

#[test]
fn same_tiles_ignores_order() {
    let a = vec![TilePlacement { coords: (1, 2), tile: 'A' }, TilePlacement { coords: (1, 3), tile: 'T' }];
    let b = vec![TilePlacement { coords: (1, 3), tile: 'T' }, TilePlacement { coords: (1, 2), tile: 'A' }];
    let c = vec![TilePlacement { coords: (1, 3), tile: 'T' }];
    assert!(same_tiles(&a, &b));
    assert!(!same_tiles(&a, &c));
    assert!(!same_tiles(&c, &a));
}

#[test]
fn auto_play_on_a_human_turn_changes_nothing() {
    let mut s = GameSession::new(2, vec![1], WORDS).unwrap();
    let before = s.state_view();
    assert_eq!(s.auto_play_until_human_or_end(), Ok(()));
    let after = s.state_view();
    assert_eq!(after.current_turn, before.current_turn);
    assert_eq!(after.scores, before.scores);
    assert_eq!(after.racks, before.racks);
    assert_eq!(after.board_rows, before.board_rows);
    s.pass_turn();
    assert_eq!(s.auto_play_until_human_or_end(), Ok(()));
    assert_eq!(s.state_view().current_turn, 0);
}
