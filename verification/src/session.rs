//! A game at a table of human and computer players: who sits where, what a
//! request does, and how the computer players take their turns.
use vstd::prelude::*;
use vstd::multiset::Multiset;
use crate::board::{cell, empty_grid};
use crate::common::{PossibleMove, TilePlacement};
use crate::dictionary::{is_letter_word, word_list_words};
use crate::game::{lemma_apply_tiles_letters, scored, scores_bounded, ScrabbleGame, HIGHEST_ROOMY_SCORE, LOWEST_ROOMY_SCORE};
use crate::rules::{all_playable, board_letters, move_playable, moves_on_board, moves_view};
use crate::tile_bag::{find_char, initial_tiles, random_seed};
use crate::utils::{chars_sorted, lemma_sorted_chars, sorted_chars, str_chars};

verus! {

broadcast use vstd::seq_lib::group_to_multiset_ensures;

/// Who plays a seat.
#[derive(Clone, Copy, Debug, PartialEq, Eq)]
pub enum SeatKind {
    Human,
    Ai,
}

/// Why a request was turned down.
#[derive(Clone, Copy, Debug, PartialEq, Eq)]
pub enum SessionError {
    /// The number of players is not between one and four.
    PlayerCount,
    /// A computer seat index is not a seat of the table.
    AiSeatOutOfRange,
    /// A saved table has another number of seats than its game has players.
    SeatCountMismatch,
    /// A human move was asked for while a computer player has the turn.
    AiTurn,
    /// Placed tiles were offered while a computer player has the turn.
    AiTurnNoHumanMoves,
    /// There is no move with the given index.
    MoveIndexOutOfRange,
    /// No tile was placed.
    NoPlacements,
    /// The placed tiles are not one of the moves on offer.
    IllegalPlacements,
    /// The bag holds fewer than seven tiles.
    BagTooSmall,
    /// No tile was chosen for an exchange.
    NoExchangeTiles,
    /// The chosen tiles are not all on the rack.
    TilesNotInRack,
    /// The move would take a score out of the range the scores are kept in.
    ScoreOutOfRange,
    /// The count of exchanges cannot grow any further.
    ExchangeLimit,
    /// A saved game is not one the table can play on: its parts do not fit
    /// together, a square holds something other than a letter, or, while
    /// nobody has won, a score leaves no room for the end-of-game
    /// adjustments.
    UnplayableGame,
}

/// What the players see of the game.
pub struct GameStateView {
    pub board_rows: Vec<String>,
    pub current_turn: usize,
    pub total_players: usize,
    pub scores: Vec<i32>,
    pub tiles_in_bag: usize,
    pub winner: Option<usize>,
    pub racks: Vec<String>,
    pub current_rack: String,
    pub is_ai_turn: bool,
    pub no_moves_hint: bool,
    pub can_exchange: bool,
}

/// A game and the kind of player at each seat.
pub struct GameSession {
    pub game: ScrabbleGame,
    pub seats: Vec<SeatKind>,
}

/// The position of the first move of `s` that places exactly the tiles `p`.
pub open spec fn first_match(s: Seq<(Seq<TilePlacement>, nat)>, p: Multiset<TilePlacement>) -> Option<int>
    decreases s.len(),
{
    if s.len() == 0 {
        None
    } else if s[0].0.to_multiset() == p {
        Some(0)
    } else {
        match first_match(s.drop_first(), p) {
            Some(k) => Some(k + 1),
            None => None,
        }
    }
}

proof fn lemma_first_match(s: Seq<(Seq<TilePlacement>, nat)>, p: Multiset<TilePlacement>, i: int)
    requires
        0 <= i <= s.len(),
        forall|j: int| 0 <= j < i ==> (#[trigger] s[j]).0.to_multiset() != p,
    ensures
        i < s.len() && s[i].0.to_multiset() == p ==> first_match(s, p) == Some(i),
        i == s.len() ==> first_match(s, p) is None,
    decreases i,
{
    if i > 0 {
        let t = s.drop_first();
        assert forall|j: int| 0 <= j < i - 1 implies (#[trigger] t[j]).0.to_multiset() != p by {
            assert(t[j] == s[j + 1]);
        }
        lemma_first_match(t, p, i - 1);
        assert(s[0].0.to_multiset() != p);
        if i < s.len() {
            assert(t[i - 1] == s[i]);
        }
    } else if s.len() > 0 {
        assert(first_match(s, p) == Some(0int) || s[0].0.to_multiset() != p);
    }
}

/// Whether `a` and `b` hold the same tile placements, in any order.
pub fn same_tiles(a: &Vec<TilePlacement>, b: &Vec<TilePlacement>) -> (res: bool)
    ensures
        res == (a@.to_multiset() == b@.to_multiset()),
{
    broadcast use vstd::multiset::group_multiset_axioms;

    let mut rest: Vec<TilePlacement> = Vec::new();
    let mut k: usize = 0;
    while k < b.len()
        invariant
            k <= b@.len(),
            rest@ == b@.take(k as int),
        decreases b@.len() - k,
    {
        rest.push(b[k]);
        k = k + 1;
        assert(rest@ =~= b@.take(k as int));
    }
    assert(rest@ =~= b@);
    let mut i: usize = 0;
    while i < a.len()
        invariant
            i <= a@.len(),
            a@.take(i as int).to_multiset().add(rest@.to_multiset()) == b@.to_multiset(),
        decreases a@.len() - i,
    {
        let x = a[i];
        let search = find_tile(&rest, x);
        proof {
            assert(a@ =~= a@.take(i as int) + a@.skip(i as int));
            vstd::seq_lib::lemma_multiset_commutative(a@.take(i as int), a@.skip(i as int));
            assert(a@.skip(i as int)[0] == x);
            assert(a@.skip(i as int).contains(x));
            assert(a@.take(i + 1) =~= a@.take(i as int).push(x));
        }
        if search.is_none() {
            proof {
                assert(!rest@.contains(x));
                if a@.to_multiset() == b@.to_multiset() {
                    assert(a@.to_multiset() == a@.take(i as int).to_multiset().add(a@.skip(i as int).to_multiset()));
                    assert forall|v: TilePlacement| #[trigger] rest@.to_multiset().count(v) == a@.skip(i as int).to_multiset().count(v) by {
                        assert(a@.take(i as int).to_multiset().add(rest@.to_multiset()).count(v) == b@.to_multiset().count(v));
                    }
                    assert(rest@.to_multiset() =~= a@.skip(i as int).to_multiset());
                    assert(a@.skip(i as int).to_multiset().count(x) > 0);
                    assert(false);
                }
            }
            return false;
        }
        let j = search.unwrap();
        let ghost before = rest@;
        rest.remove(j);
        proof {
            assert(before == rest@.insert(j as int, x));
            assert(before.to_multiset() == rest@.to_multiset().insert(x));
            assert(a@.take(i + 1).to_multiset().add(rest@.to_multiset()) =~= b@.to_multiset());
        }
        i = i + 1;
    }
    assert(a@.take(i as int) =~= a@);
    proof {
        if rest@.len() > 0 {
            assert(rest@.to_multiset().len() > 0);
            assert(a@.to_multiset().len() < b@.to_multiset().len());
        } else {
            assert(rest@.to_multiset() =~= Multiset::empty());
            assert(a@.to_multiset().add(rest@.to_multiset()) =~= a@.to_multiset());
        }
    }
    rest.len() == 0
}

/// Index of the first placement of `v` equal to `x`.
fn find_tile(v: &Vec<TilePlacement>, x: TilePlacement) -> (res: Option<usize>)
    ensures
        match res {
            Some(i) => i < v@.len() && v@[i as int] == x,
            None => !v@.contains(x),
        },
{
    let mut i: usize = 0;
    while i < v.len()
        invariant
            i <= v@.len(),
            forall|k: int| 0 <= k < i ==> v@[k] != x,
        decreases v@.len() - i,
    {
        let y = v[i];
        if y.coords.0 == x.coords.0 && y.coords.1 == x.coords.1 && y.tile == x.tile {
            return Some(i);
        }
        i = i + 1;
    }
    None
}

impl GameSession {
    /// The invariant of a table: a well-formed game with at least one player
    /// and letters only on the board, one seat per player, and, while nobody
    /// has won, scores within bounds.
    pub closed spec fn inv(&self) -> bool {
        &&& self.game.wf()
        &&& board_letters(self.game.grid())
        &&& self.game.spec_total_players() > 0
        &&& self.seats@.len() == self.game.spec_total_players()
        &&& (self.game.spec_winner() is None ==> scores_bounded(self.game.spec_scores()))
    }

    /// A computer player has the turn.
    pub open spec fn spec_is_ai_turn(&self) -> bool {
        self.seats@[self.game.spec_turn() as int] == SeatKind::Ai
    }

    /// The score of the current player after a move of `x.1` points fits in
    /// `i32` with room for the end-of-game adjustments.
    pub open spec fn fits(&self, x: (Seq<TilePlacement>, nat)) -> bool {
        let t = self.game.spec_turn() as int;
        LOWEST_ROOMY_SCORE <= self.game.spec_scores()[t] + ((x.1 as u32) as i32) <= HIGHEST_ROOMY_SCORE
    }

    /// A bound on the turns left: seven for each tile still in play, plus the
    /// scoreless turns that may still pass.
    pub open spec fn turns_bound(&self) -> nat {
        self.game.spec_bag().all_tiles().len() * 7 + (6 - self.game.spec_scoreless_turns()) as nat
    }

    /// Whether a computer player has the turn.
    pub fn is_ai_turn(&self) -> (res: bool)
        requires
            self.inv(),
        ensures
            res == self.spec_is_ai_turn(),
    {
        proof {
            self.game.lemma_wf();
        }
        match self.seats[self.game.current_turn()] {
            SeatKind::Ai => true,
            SeatKind::Human => false,
        }
    }

    /// A table for `total_players` players (one to four), the seats in
    /// `ai_player_indexes` taken by computer players, with a bag shuffled by
    /// a random seed and the valid words of `word_list`.
    pub fn new(total_players: usize, ai_player_indexes: Vec<usize>, word_list: &str) -> (res: Result<
        GameSession,
        SessionError,
    >)
        requires
            forall|i: int|
                0 <= i < word_list_words(word_list@).len() ==> is_letter_word(#[trigger] word_list_words(word_list@)[i]),
        ensures
            (total_players == 0 || total_players > 4) ==> res == Err::<GameSession, SessionError>(SessionError::PlayerCount),
            1 <= total_players <= 4 && (exists|i: int|
                0 <= i < ai_player_indexes@.len() && #[trigger] ai_player_indexes@[i] >= total_players) ==> res == Err::<
                GameSession,
                SessionError,
            >(SessionError::AiSeatOutOfRange),
            1 <= total_players <= 4 && (forall|i: int|
                0 <= i < ai_player_indexes@.len() ==> #[trigger] ai_player_indexes@[i] < total_players) ==> res is Ok,
            res matches Ok(s) ==> {
                &&& s.inv()
                &&& s.seats@.len() == total_players
                &&& forall|p: int|
                    0 <= p < total_players ==> (#[trigger] s.seats@[p] == SeatKind::Ai) == ai_player_indexes@.contains(
                        p as usize,
                    )
                &&& s.game.grid() == empty_grid()
                &&& s.game.spec_turn() == 0
                &&& s.game.spec_total_players() == total_players
                &&& s.game.spec_scores() == Seq::new(total_players as nat, |p: int| 0i32)
                &&& s.game.spec_winner() is None
                &&& s.game.spec_scoreless_turns() == 0
                &&& s.game.spec_dictionary() == word_list_words(word_list@)
                &&& crate::tile_bag::fresh_deal(s.game.spec_bag(), total_players as int)
                &&& s.game.spec_bag().all_tiles() == initial_tiles().to_multiset()
                &&& s.game.spec_bag().tiles@.len() == 100 - 7 * total_players
                &&& forall|p: int| 0 <= p < total_players ==> (#[trigger] s.game.rack_of(p)).len() == 7
            },
    {
        if total_players == 0 || total_players > 4 {
            return Err(SessionError::PlayerCount);
        }
        let mut seats: Vec<SeatKind> = Vec::new();
        let mut p: usize = 0;
        while p < total_players
            invariant
                p <= total_players,
                seats@ == Seq::new(p as nat, |q: int| SeatKind::Human),
            decreases total_players - p,
        {
            seats.push(SeatKind::Human);
            p = p + 1;
            assert(seats@ =~= Seq::new(p as nat, |q: int| SeatKind::Human));
        }
        let mut i: usize = 0;
        while i < ai_player_indexes.len()
            invariant
                1 <= total_players <= 4,
                i <= ai_player_indexes@.len(),
                seats@.len() == total_players,
                forall|k: int| 0 <= k < i ==> #[trigger] ai_player_indexes@[k] < total_players,
                forall|q: int|
                    0 <= q < total_players ==> (#[trigger] seats@[q] == SeatKind::Ai) == ai_player_indexes@.take(
                        i as int,
                    ).contains(q as usize),
            decreases ai_player_indexes@.len() - i,
        {
            let ai_index = ai_player_indexes[i];
            if ai_index >= total_players {
                return Err(SessionError::AiSeatOutOfRange);
            }
            seats.set(ai_index, SeatKind::Ai);
            proof {
                let t1 = ai_player_indexes@.take(i + 1);
                assert(t1 =~= ai_player_indexes@.take(i as int).push(ai_index));
                assert forall|q: int| 0 <= q < total_players implies (#[trigger] seats@[q] == SeatKind::Ai) == t1.contains(
                    q as usize,
                ) by {
                    if q == ai_index {
                        assert(t1[i as int] == ai_index);
                    } else {
                        if t1.contains(q as usize) {
                            let k = choose|k: int| 0 <= k < t1.len() && t1[k] == q as usize;
                            assert(ai_player_indexes@.take(i as int)[k] == q as usize);
                        }
                        if ai_player_indexes@.take(i as int).contains(q as usize) {
                            let k = choose|k: int|
                                0 <= k < ai_player_indexes@.take(i as int).len() && ai_player_indexes@.take(
                                    i as int,
                                )[k] == q as usize;
                            assert(t1[k] == q as usize);
                        }
                    }
                }
            }
            i = i + 1;
        }
        assert(ai_player_indexes@.take(i as int) =~= ai_player_indexes@);
        let game = ScrabbleGame::new(total_players, random_seed(), word_list);
        proof {
            game.lemma_wf();
            assert(board_letters(game.grid()));
            assert forall|q: int| 0 <= q < game.spec_scores().len() implies LOWEST_ROOMY_SCORE <= #[trigger] game.spec_scores()[q]
                <= HIGHEST_ROOMY_SCORE by {}
        }
        Ok(GameSession { game, seats })
    }

    /// A table for a saved game and its seats; the seats must match the
    /// players, and the game must be one the table can play on: in play, with
    /// letters only on the board and, while nobody has won, scores that leave
    /// room for the end-of-game adjustments.
    pub fn from_saved(game: ScrabbleGame, seats: Vec<SeatKind>) -> (res: Result<GameSession, SessionError>)
        requires
            game.wf_shape(),
            game.spec_total_players() > 0,
        ensures
            seats@.len() != game.spec_total_players() ==> res == Err::<GameSession, SessionError>(
                SessionError::SeatCountMismatch,
            ),
            seats@.len() == game.spec_total_players() && !(game.wf() && board_letters(game.grid()) && (
            game.spec_winner() is None ==> scores_bounded(game.spec_scores()))) ==> res == Err::<GameSession, SessionError>(
                SessionError::UnplayableGame,
            ),
            seats@.len() == game.spec_total_players() && game.wf() && board_letters(game.grid()) && (game.spec_winner()
                is None ==> scores_bounded(game.spec_scores())) ==> (res matches Ok(s) && s.inv() && s.game == game
                && s.seats == seats),
    {
        if !game.in_play() {
            if seats.len() != game.total_players() {
                return Err(SessionError::SeatCountMismatch);
            }
            return Err(SessionError::UnplayableGame);
        }
        proof {
            game.lemma_wf();
        }
        if seats.len() != game.total_players() {
            return Err(SessionError::SeatCountMismatch);
        }
        if !game.board_holds_letters() {
            return Err(SessionError::UnplayableGame);
        }
        if game.winner_index().is_none() {
            let n = game.total_players();
            let mut q: usize = 0;
            while q < n
                invariant
                    game.wf(),
                    n == game.spec_total_players(),
                    game.spec_scores().len() == n,
                    seats@.len() == n,
                    game.spec_winner() is None,
                    q <= n,
                    forall|k: int| 0 <= k < q ==> LOWEST_ROOMY_SCORE <= #[trigger] game.spec_scores()[k] <= HIGHEST_ROOMY_SCORE,
                decreases n - q,
            {
                proof {
                    game.lemma_wf();
                }
                let v = game.score_of(q);
                if v < LOWEST_ROOMY_SCORE || v > HIGHEST_ROOMY_SCORE {
                    assert(!scores_bounded(game.spec_scores()));
                    return Err(SessionError::UnplayableGame);
                }
                q = q + 1;
            }
        }
        Ok(GameSession { game, seats })
    }

    /// The moves on offer to the player whose turn it is, best first.
    pub fn legal_moves(&self) -> (res: Vec<PossibleMove>)
        requires
            self.inv(),
        ensures
            moves_view(res@) == self.game.offered_moves(),
            moves_on_board(res@),
    {
        self.game.get_moves()
    }

    /// Whether the current rack holds all of `tiles`.
    pub fn rack_can_supply_tiles(&self, tiles: &str) -> (res: bool)
        requires
            self.inv(),
        ensures
            res == tiles@.to_multiset().subset_of(self.game.rack_of(self.game.spec_turn() as int).to_multiset()),
    {
        broadcast use vstd::multiset::group_multiset_axioms;

        proof {
            self.game.lemma_wf();
        }
        let rack_string = self.game.current_player_rack();
        let ghost rack = self.game.rack_of(self.game.spec_turn() as int);
        let mut rest = str_chars(rack_string.as_str());
        let ts = str_chars(tiles);
        let mut i: usize = 0;
        while i < ts.len()
            invariant
                i <= ts@.len(),
                ts@ == tiles@,
                ts@.take(i as int).to_multiset().add(rest@.to_multiset()) == rack.to_multiset(),
                rack == self.game.rack_of(self.game.spec_turn() as int),
            decreases ts@.len() - i,
        {
            let c = ts[i];
            proof {
                assert(ts@.take(i + 1) =~= ts@.take(i as int).push(c));
                assert(ts@ =~= ts@.take(i + 1) + ts@.skip(i + 1));
                vstd::seq_lib::lemma_multiset_commutative(ts@.take(i + 1), ts@.skip(i + 1));
            }
            match find_char(&rest, c) {
                None => {
                    proof {
                        if tiles@.to_multiset().subset_of(rack.to_multiset()) {
                            assert(tiles@.to_multiset() == ts@.take(i + 1).to_multiset().add(ts@.skip(i + 1).to_multiset()));
                            assert(ts@.take(i + 1).to_multiset().count(c) == ts@.take(i as int).to_multiset().count(c) + 1);
                            assert(ts@.take(i + 1).to_multiset().count(c) <= tiles@.to_multiset().count(c));
                            assert(!rest@.contains(c));
                            assert(rest@.to_multiset().count(c) == 0);
                            assert(rack.to_multiset().count(c) == ts@.take(i as int).to_multiset().count(c));
                            assert(false);
                        }
                        assert(!tiles@.to_multiset().subset_of(rack.to_multiset()));
                    }
                    return false;
                },
                Some(j) => {
                    let ghost before = rest@;
                    rest.remove(j);
                    proof {
                        assert(before == rest@.insert(j as int, c));
                        assert(before.to_multiset() == rest@.to_multiset().insert(c));
                        assert(ts@.take(i + 1).to_multiset().add(rest@.to_multiset()) =~= rack.to_multiset());
                    }
                },
            }
            i = i + 1;
        }
        assert(ts@.take(i as int) =~= tiles@);
        true
    }

    /// What the players see: the board, turn, scores, bag, racks, and hints.
    pub fn state_view(&self) -> (res: GameStateView)
        requires
            self.inv(),
        ensures
            res.board_rows@.len() == 15,
            forall|r: int|
                0 <= r < 15 ==> (#[trigger] res.board_rows@[r])@ == Seq::new(15, |c: int| cell(self.game.grid(), r, c)),
            res.current_turn == self.game.spec_turn(),
            res.total_players == self.game.spec_total_players(),
            res.scores@ == self.game.spec_scores(),
            res.tiles_in_bag == self.game.spec_bag().tiles@.len(),
            res.winner == self.game.spec_winner(),
            res.racks@.len() == self.game.spec_total_players(),
            forall|p: int|
                0 <= p < self.game.spec_total_players() ==> (#[trigger] res.racks@[p])@ == sorted_chars(
                    self.game.rack_of(p),
                ),
            res.current_rack@ == sorted_chars(self.game.rack_of(self.game.spec_turn() as int)),
            res.is_ai_turn == self.spec_is_ai_turn(),
            res.no_moves_hint == (!self.spec_is_ai_turn() && self.game.offered_moves().len() == 0),
            res.can_exchange == (self.game.spec_bag().tiles@.len() >= 7),
    {
        proof {
            self.game.lemma_wf();
        }
        let board_rows = self.game.board_rows();
        let legal_move_count = self.game.get_moves().len();
        let is_ai_turn = self.is_ai_turn();
        let n = self.game.total_players();
        let mut racks: Vec<String> = Vec::new();
        let mut p: usize = 0;
        while p < n
            invariant
                self.inv(),
                n == self.game.spec_total_players(),
                p <= n,
                racks@.len() == p,
                forall|q: int| 0 <= q < p ==> (#[trigger] racks@[q])@ == sorted_chars(self.game.rack_of(q)),
            decreases n - p,
        {
            proof {
                self.game.lemma_wf();
            }
            let rack = self.game.rack_for_player(p);
            proof {
                lemma_sorted_chars(self.game.rack_of(p as int), rack@);
            }
            racks.push(rack);
            p = p + 1;
        }
        let current_rack = self.game.current_player_rack();
        proof {
            lemma_sorted_chars(self.game.rack_of(self.game.spec_turn() as int), current_rack@);
        }
        GameStateView {
            board_rows,
            current_turn: self.game.current_turn(),
            total_players: n,
            scores: self.game.scores(),
            tiles_in_bag: self.game.bag_tile_count(),
            winner: self.game.winner_index(),
            racks,
            current_rack,
            is_ai_turn,
            no_moves_hint: !is_ai_turn && legal_move_count == 0,
            can_exchange: self.game.can_exchange(),
        }
    }
}

/// Index of the first move of `moves` that places exactly the tiles `p`.
fn find_move(moves: &Vec<PossibleMove>, p: &Vec<TilePlacement>) -> (res: Option<usize>)
    ensures
        match first_match(moves_view(moves@), p@.to_multiset()) {
            Some(k) => res == Some(k as usize),
            None => res is None,
        },
{
    let ghost s = moves_view(moves@);
    let mut i: usize = 0;
    while i < moves.len()
        invariant
            i <= moves@.len(),
            s == moves_view(moves@),
            forall|j: int| 0 <= j < i ==> (#[trigger] s[j]).0.to_multiset() != p@.to_multiset(),
        decreases moves@.len() - i,
    {
        assert(s[i as int].0 == moves@[i as int].tiles@);
        if same_tiles(&moves[i].tiles, p) {
            proof {
                lemma_first_match(s, p@.to_multiset(), i as int);
            }
            return Some(i);
        }
        i = i + 1;
    }
    proof {
        lemma_first_match(s, p@.to_multiset(), i as int);
    }
    None
}

impl GameSession {
    /// Plays `mv` for the current player when the new score fits.
    fn play(&mut self, mv: PossibleMove) -> (res: Result<(), SessionError>)
        requires
            old(self).inv(),
            old(self).game.spec_winner() is None,
            forall|i: int|
                0 <= i < mv.tiles@.len() ==> (#[trigger] mv.tiles@[i]).coords.0 < 15 && mv.tiles@[i].coords.1 < 15
                    && crate::common::is_letter(mv.tiles@[i].tile),
            move_playable(old(self).game.rack_of(old(self).game.spec_turn() as int), (mv.tiles@, mv.score as nat)),
        ensures
            final(self).inv(),
            !old(self).fits((mv.tiles@, mv.score as nat)) ==> res == Err::<(), SessionError>(SessionError::ScoreOutOfRange)
                && *final(self) == *old(self),
            old(self).fits((mv.tiles@, mv.score as nat)) ==> res == Ok::<(), SessionError>(())
                && final(self).game.after_move(&old(self).game, mv.tiles@, mv.score) && final(self).seats == old(self).seats,
    {
        proof {
            self.game.lemma_wf();
        }
        let t = self.game.current_turn();
        let cur = self.game.score_of(t) as i64;
        let add = (mv.score as i32) as i64;
        if cur + add < LOWEST_ROOMY_SCORE as i64 || cur + add > HIGHEST_ROOMY_SCORE as i64 {
            return Err(SessionError::ScoreOutOfRange);
        }
        proof {
            let s1 = scored(self.game.spec_scores(), t as int, mv.score);
            assert forall|q: int| 0 <= q < s1.len() implies LOWEST_ROOMY_SCORE <= #[trigger] s1[q] <= HIGHEST_ROOMY_SCORE by {
                if q != t {
                    assert(s1[q] == self.game.spec_scores()[q]);
                }
            }
        }
        let ghost g0 = self.game.grid();
        self.game.make_turn(mv);
        proof {
            lemma_apply_tiles_letters(g0, mv.tiles@);
            self.game.lemma_wf();
        }
        Ok(())
    }

    /// Plays move number `index` of the moves on offer, for a human player.
    pub fn play_move_by_index(&mut self, index: usize) -> (res: Result<(), SessionError>)
        requires
            old(self).inv(),
        ensures
            final(self).inv(),
            old(self).spec_is_ai_turn() ==> res == Err::<(), SessionError>(SessionError::AiTurn) && *final(self) == *old(self),
            !old(self).spec_is_ai_turn() && index >= old(self).game.offered_moves().len() ==> res == Err::<
                (),
                SessionError,
            >(SessionError::MoveIndexOutOfRange) && *final(self) == *old(self),
            !old(self).spec_is_ai_turn() && index < old(self).game.offered_moves().len() ==> {
                let x = old(self).game.offered_moves()[index as int];
                &&& !old(self).fits(x) ==> res == Err::<(), SessionError>(SessionError::ScoreOutOfRange) && *final(self)
                    == *old(self)
                &&& old(self).fits(x) ==> res == Ok::<(), SessionError>(()) && final(self).game.after_move(
                    &old(self).game,
                    x.0,
                    x.1 as u32,
                ) && final(self).seats == old(self).seats
            },
    {
        if self.is_ai_turn() {
            return Err(SessionError::AiTurn);
        }
        let mut moves = self.game.get_moves();
        if index >= moves.len() {
            return Err(SessionError::MoveIndexOutOfRange);
        }
        let ghost all = moves@;
        let mv = moves.remove(index);
        proof {
            assert(mv == all[index as int]);
            assert(moves_view(all)[index as int] == (mv.tiles@, mv.score as nat));
            assert forall|i: int| 0 <= i < mv.tiles@.len() implies (#[trigger] mv.tiles@[i]).coords.0 < 15 && mv.tiles@[i].coords.1
                < 15 && crate::common::is_letter(mv.tiles@[i].tile) by {
                assert(all[index as int].tiles@[i] == mv.tiles@[i]);
            }
        }
        self.play(mv)
    }

    /// Plays the first move on offer that places exactly `placements`, for a
    /// human player.
    pub fn play_move_by_placements(&mut self, placements: Vec<TilePlacement>) -> (res: Result<(), SessionError>)
        requires
            old(self).inv(),
        ensures
            final(self).inv(),
            old(self).spec_is_ai_turn() ==> res == Err::<(), SessionError>(SessionError::AiTurnNoHumanMoves) && *final(self) == *old(self),
            !old(self).spec_is_ai_turn() && placements@.len() == 0 ==> res == Err::<(), SessionError>(
                SessionError::NoPlacements,
            ) && *final(self) == *old(self),
            !old(self).spec_is_ai_turn() && placements@.len() > 0 && first_match(
                old(self).game.offered_moves(),
                placements@.to_multiset(),
            ) is None ==> res == Err::<(), SessionError>(SessionError::IllegalPlacements) && *final(self) == *old(self),
            !old(self).spec_is_ai_turn() && placements@.len() > 0 ==> match first_match(
                old(self).game.offered_moves(),
                placements@.to_multiset(),
            ) {
                Some(k) => {
                    let x = old(self).game.offered_moves()[k];
                    &&& !old(self).fits(x) ==> res == Err::<(), SessionError>(SessionError::ScoreOutOfRange) && *final(self) == *old(self)
                    &&& old(self).fits(x) ==> res == Ok::<(), SessionError>(()) && final(self).game.after_move(
                        &old(self).game,
                        x.0,
                        x.1 as u32,
                    ) && final(self).seats == old(self).seats
                },
                None => true,
            },
    {
        if self.is_ai_turn() {
            return Err(SessionError::AiTurnNoHumanMoves);
        }
        if placements.len() == 0 {
            return Err(SessionError::NoPlacements);
        }
        let mut moves = self.game.get_moves();
        let found = find_move(&moves, &placements);
        match found {
            None => Err(SessionError::IllegalPlacements),
            Some(k) => {
                let ghost all = moves@;
                let n = moves.len();
                proof {
                    assert(all.len() == n);
                    crate::session::lemma_first_match_bound(moves_view(all), placements@.to_multiset());
                    let fm = first_match(moves_view(all), placements@.to_multiset());
                    match fm {
                        Some(kk) => {
                            assert(0 <= kk < moves_view(all).len());
                            assert(moves_view(all).len() == all.len());
                            assert(found == Some(kk as usize));
                            assert(k == kk as usize);
                            assert(kk == k as int);
                        },
                        None => {
                            assert(found is None);
                        },
                    }
                    assert(fm == Some(k as int));
                    assert(moves_view(all) == self.game.offered_moves());
                }
                let mv = moves.remove(k);
                proof {
                    assert(mv == all[k as int]);
                    assert(moves_view(all)[k as int] == (mv.tiles@, mv.score as nat));
                    assert forall|i: int| 0 <= i < mv.tiles@.len() implies (#[trigger] mv.tiles@[i]).coords.0 < 15
                        && mv.tiles@[i].coords.1 < 15 && crate::common::is_letter(mv.tiles@[i].tile) by {
                        assert(all[k as int].tiles@[i] == mv.tiles@[i]);
                    }
                }
                self.play(mv)
            },
        }
    }

    /// The current player passes.
    pub fn pass_turn(&mut self)
        requires
            old(self).inv(),
        ensures
            final(self).inv(),
            final(self).seats == old(self).seats,
            old(self).game.spec_winner() is Some ==> *final(self) == *old(self),
            old(self).game.spec_winner() is None ==> final(self).game.after_pass(&old(self).game),
    {
        proof {
            self.game.lemma_wf();
        }
        self.game.pass();
        proof {
            self.game.lemma_wf();
        }
    }

    /// The current player puts the whole rack back into the bag and draws anew.
    pub fn exchange_current_rack(&mut self) -> (res: Result<(), SessionError>)
        requires
            old(self).inv(),
        ensures
            final(self).inv(),
            final(self).seats == old(self).seats,
            old(self).game.spec_bag().tiles@.len() < 7 ==> res == Err::<(), SessionError>(SessionError::BagTooSmall)
                && *final(self) == *old(self),
            old(self).game.spec_bag().tiles@.len() >= 7 && old(self).game.spec_winner() is Some ==> res == Ok::<
                (),
                SessionError,
            >(()) && *final(self) == *old(self),
            old(self).game.spec_bag().tiles@.len() >= 7 && old(self).game.spec_winner() is None
                && old(self).game.spec_bag().exchange_count == u64::MAX ==> res == Err::<(), SessionError>(
                SessionError::ExchangeLimit,
            ) && *final(self) == *old(self),
            old(self).game.spec_bag().tiles@.len() >= 7 && old(self).game.spec_winner() is None
                && old(self).game.spec_bag().exchange_count < u64::MAX ==> res == Ok::<(), SessionError>(())
                && final(self).game.after_exchange(
                &old(self).game,
                sorted_chars(old(self).game.rack_of(old(self).game.spec_turn() as int)),
            ),
    {
        proof {
            self.game.lemma_wf();
        }
        if !self.game.can_exchange() {
            return Err(SessionError::BagTooSmall);
        }
        if self.game.winner_index().is_some() {
            return Ok(());
        }
        if self.game.exchange_count() == u64::MAX {
            return Err(SessionError::ExchangeLimit);
        }
        let rack = self.game.current_player_rack();
        proof {
            lemma_sorted_chars(self.game.rack_of(self.game.spec_turn() as int), rack@);
        }
        self.game.exchange(rack);
        proof {
            self.game.lemma_wf();
        }
        Ok(())
    }

    /// The current player puts `tiles` from the rack back into the bag and
    /// draws anew.
    pub fn exchange_tiles(&mut self, tiles: String) -> (res: Result<(), SessionError>)
        requires
            old(self).inv(),
        ensures
            final(self).inv(),
            final(self).seats == old(self).seats,
            old(self).game.spec_bag().tiles@.len() < 7 ==> res == Err::<(), SessionError>(SessionError::BagTooSmall)
                && *final(self) == *old(self),
            old(self).game.spec_bag().tiles@.len() >= 7 && tiles@.len() == 0 ==> res == Err::<(), SessionError>(
                SessionError::NoExchangeTiles,
            ) && *final(self) == *old(self),
            old(self).game.spec_bag().tiles@.len() >= 7 && tiles@.len() > 0 && !tiles@.to_multiset().subset_of(
                old(self).game.rack_of(old(self).game.spec_turn() as int).to_multiset(),
            ) ==> res == Err::<(), SessionError>(SessionError::TilesNotInRack) && *final(self) == *old(self),
            old(self).game.spec_bag().tiles@.len() >= 7 && tiles@.len() > 0 && tiles@.to_multiset().subset_of(
                old(self).game.rack_of(old(self).game.spec_turn() as int).to_multiset(),
            ) ==> {
                &&& old(self).game.spec_winner() is Some ==> res == Ok::<(), SessionError>(()) && *final(self) == *old(self)
                &&& old(self).game.spec_winner() is None && old(self).game.spec_bag().exchange_count == u64::MAX
                    ==> res == Err::<(), SessionError>(SessionError::ExchangeLimit) && *final(self) == *old(self)
                &&& old(self).game.spec_winner() is None && old(self).game.spec_bag().exchange_count < u64::MAX
                    ==> res == Ok::<(), SessionError>(()) && final(self).game.after_exchange(&old(self).game, tiles@)
            },
    {
        proof {
            self.game.lemma_wf();
        }
        if !self.game.can_exchange() {
            return Err(SessionError::BagTooSmall);
        }
        if tiles.as_str().is_empty() {
            return Err(SessionError::NoExchangeTiles);
        }
        if !self.rack_can_supply_tiles(tiles.as_str()) {
            return Err(SessionError::TilesNotInRack);
        }
        if self.game.winner_index().is_some() {
            return Ok(());
        }
        if self.game.exchange_count() == u64::MAX {
            return Err(SessionError::ExchangeLimit);
        }
        self.game.exchange(tiles);
        proof {
            self.game.lemma_wf();
        }
        Ok(())
    }
}

impl GameSession {
    /// A computer player takes its turn: the best move on offer, else an
    /// exchange of the whole rack when the bag allows it, else a pass.
    /// Returns whether a computer player had the turn.
    pub fn step_ai_turn(&mut self) -> (res: Result<bool, SessionError>)
        requires
            old(self).inv(),
        ensures
            final(self).inv(),
            final(self).seats == old(self).seats,
            !old(self).spec_is_ai_turn() ==> res == Ok::<bool, SessionError>(false) && *final(self) == *old(self),
            old(self).spec_is_ai_turn() && old(self).game.offered_moves().len() > 0 ==> {
                let x = old(self).game.offered_moves()[0];
                &&& !old(self).fits(x) ==> res == Err::<bool, SessionError>(SessionError::ScoreOutOfRange) && *final(self)
                    == *old(self)
                &&& old(self).fits(x) ==> res == Ok::<bool, SessionError>(true) && final(self).game.after_move(
                    &old(self).game,
                    x.0,
                    x.1 as u32,
                )
            },
            old(self).spec_is_ai_turn() && old(self).game.offered_moves().len() == 0 && old(self).game.spec_winner()
                is Some ==> res == Ok::<bool, SessionError>(true) && *final(self) == *old(self),
            old(self).spec_is_ai_turn() && old(self).game.offered_moves().len() == 0 && old(self).game.spec_winner()
                is None ==> {
                &&& old(self).game.spec_bag().tiles@.len() >= 7 && old(self).game.spec_bag().exchange_count == u64::MAX
                    ==> res == Err::<bool, SessionError>(SessionError::ExchangeLimit) && *final(self) == *old(self)
                &&& old(self).game.spec_bag().tiles@.len() >= 7 && old(self).game.spec_bag().exchange_count < u64::MAX
                    ==> res == Ok::<bool, SessionError>(true) && final(self).game.after_exchange(
                    &old(self).game,
                    sorted_chars(old(self).game.rack_of(old(self).game.spec_turn() as int)),
                )
                &&& old(self).game.spec_bag().tiles@.len() < 7 ==> res == Ok::<bool, SessionError>(true)
                    && final(self).game.after_pass(&old(self).game)
            },
            old(self).spec_is_ai_turn() && old(self).game.spec_winner() is None && res is Ok ==> final(self).turns_bound()
                < old(self).turns_bound(),
    {
        proof {
            self.game.lemma_wf();
        }
        if !self.is_ai_turn() {
            return Ok(false);
        }
        let mut moves = self.game.get_moves();
        if moves.len() > 0 {
            let ghost all = moves@;
            let mv = moves.remove(0);
            proof {
                assert(mv == all[0]);
                assert(moves_view(all)[0] == (mv.tiles@, mv.score as nat));
                assert forall|i: int| 0 <= i < mv.tiles@.len() implies (#[trigger] mv.tiles@[i]).coords.0 < 15
                    && mv.tiles@[i].coords.1 < 15 && crate::common::is_letter(mv.tiles@[i].tile) by {
                    assert(all[0].tiles@[i] == mv.tiles@[i]);
                }
            }
            let r = self.play(mv);
            match r {
                Ok(()) => {
                    return Ok(true);
                },
                Err(e) => {
                    return Err(e);
                },
            }
        }
        if self.game.can_exchange() {
            if self.game.winner_index().is_some() {
                return Ok(true);
            }
            if self.game.exchange_count() == u64::MAX {
                return Err(SessionError::ExchangeLimit);
            }
            let rack = self.game.current_player_rack();
            proof {
                lemma_sorted_chars(self.game.rack_of(self.game.spec_turn() as int), rack@);
            }
            self.game.exchange(rack);
            proof {
                self.game.lemma_wf();
            }
            return Ok(true);
        }
        self.game.pass();
        proof {
            self.game.lemma_wf();
        }
        Ok(true)
    }

    /// A computer player has the turn and its step is refused with `e`: the
    /// best move on offer takes its score out of range, or, with no move on
    /// offer, an exchange is due but the count of exchanges cannot grow.
    pub open spec fn ai_step_fails(&self, e: SessionError) -> bool {
        &&& self.spec_is_ai_turn()
        &&& self.game.spec_winner() is None
        &&& if self.game.offered_moves().len() > 0 {
            !self.fits(self.game.offered_moves()[0]) && e == SessionError::ScoreOutOfRange
        } else {
            self.game.spec_bag().tiles@.len() >= 7 && self.game.spec_bag().exchange_count == u64::MAX
                && e == SessionError::ExchangeLimit
        }
    }

    /// Computer players take their turns until a human player has the turn
    /// or the game is over. Nothing changes when that is already so. A step
    /// that is refused ends the run with its error, the table as it stood
    /// before that step.
    pub fn auto_play_until_human_or_end(&mut self) -> (res: Result<(), SessionError>)
        requires
            old(self).inv(),
        ensures
            final(self).inv(),
            final(self).seats == old(self).seats,
            old(self).game.spec_winner() is Some || !old(self).spec_is_ai_turn() ==> res == Ok::<(), SessionError>(())
                && *final(self) == *old(self),
            res is Ok ==> final(self).game.spec_winner() is Some || !final(self).spec_is_ai_turn(),
            res matches Err(e) ==> final(self).ai_step_fails(e),
            final(self).turns_bound() <= old(self).turns_bound(),
    {
        while self.game.winner_index().is_none() && self.is_ai_turn()
            invariant
                self.inv(),
                self.seats == old(self).seats,
                old(self).game.spec_winner() is Some || !old(self).spec_is_ai_turn() ==> *self == *old(self),
                self.turns_bound() <= old(self).turns_bound(),
            decreases self.turns_bound(),
        {
            match self.step_ai_turn() {
                Ok(_) => {},
                Err(e) => {
                    return Err(e);
                },
            }
        }
        Ok(())
    }
}

/// A table restored from a save holds a game with the board, turn, bag,
/// scores, winner, count of scoreless turns, players and words of the saved
/// game (`lemma_saved_game_restores` and `from_snapshot`) and the same seats
/// (`from_saved`). Such a table has the same computer turn, racks and moves
/// on offer as the saved one, so its `state_view` and `legal_moves` are the
/// same.
pub proof fn lemma_restored_table_same_play(saved: GameSession, restored: GameSession)
    requires
        saved.inv(),
        restored.inv(),
        restored.seats == saved.seats,
        restored.game.grid() == saved.game.grid(),
        restored.game.spec_turn() == saved.game.spec_turn(),
        restored.game.spec_bag() == saved.game.spec_bag(),
        restored.game.spec_scores() == saved.game.spec_scores(),
        restored.game.spec_winner() == saved.game.spec_winner(),
        restored.game.spec_scoreless_turns() == saved.game.spec_scoreless_turns(),
        restored.game.spec_total_players() == saved.game.spec_total_players(),
        restored.game.spec_dictionary() == saved.game.spec_dictionary(),
    ensures
        restored.spec_is_ai_turn() == saved.spec_is_ai_turn(),
        restored.game.racks() == saved.game.racks(),
        restored.game.offered_moves() == saved.game.offered_moves(),
        restored.turns_bound() == saved.turns_bound(),
{
}

proof fn lemma_first_match_bound(s: Seq<(Seq<TilePlacement>, nat)>, p: Multiset<TilePlacement>)
    ensures
        first_match(s, p) matches Some(k) ==> 0 <= k < s.len() && s[k].0.to_multiset() == p,
    decreases s.len(),
{
    if s.len() > 0 {
        lemma_first_match_bound(s.drop_first(), p);
        if let Some(k) = first_match(s.drop_first(), p) {
            assert(s.drop_first()[k] == s[k + 1]);
        }
    }
}

} // verus!
