//! The game: board, bag, dictionary, scores and turns.
use vstd::prelude::*;
use vstd::multiset::Multiset;
use crate::board::{cell, empty_grid, rows_text, ScrabbleBoard};
use crate::common::{is_letter, is_tile_char, Coords, Player, TilePlacement, EMPTY, WILD};
use crate::board_iterator::ScrabbleBoardIterator;
use crate::dictionary::{is_letter_word, word_list_words, Dictionary};
use crate::text::{split_lines, string_from_chars, text_lines};
use crate::tile_bag::{initial_tiles, lemma_rack_in_racks, racks_tiles, TileBag};
use crate::common::PossibleMove;
use crate::movegen::moves_from_spot_exact_length;
use crate::ranking::{lemma_ranked_is, moves_ranked, rank_moves, ranked};
use crate::rules::{
    all_playable, lemma_all_moves_playable, move_playable, all_moves, board_letters, board_moves, lemma_moves_append, moves_on_board, moves_view, spot_moves,
    spot_moves_upto, square_moves,
};
use crate::utils::{encodable, lemma_sorted_chars, sorted_chars, str_chars};
use crate::movegen::sum_letter_scores;
use crate::rules::{fresh_tiles, lemma_sum_points_bound, sum_points};
use crate::tile_bag::{after_placing, draw_count, lemma_after_placing_len, placement_chars};

verus! {

broadcast use vstd::seq_lib::group_to_multiset_ensures;

/// Every tile of the multiset is a letter or a blank.
pub open spec fn tile_chars_only(m: Multiset<char>) -> bool {
    forall|c: char| #[trigger] m.count(c) > 0 ==> is_tile_char(c)
}

/// The board after writing `w` from (row, col) along the row (`h`) or column.
pub open spec fn place_word_grid(g: Seq<char>, w: Seq<char>, row: int, col: int, h: bool) -> Seq<char> {
    Seq::new(
        g.len(),
        |idx: int|
            {
                let r = idx / 15;
                let c = idx % 15;
                if h && r == row && col <= c < col + w.len() {
                    w[c - col]
                } else if !h && c == col && row <= r < row + w.len() {
                    w[r - row]
                } else {
                    g[idx]
                }
            },
    )
}

/// The board after putting down the tiles in order.
pub open spec fn apply_tiles(g: Seq<char>, tiles: Seq<TilePlacement>) -> Seq<char>
    decreases tiles.len(),
{
    if tiles.len() == 0 {
        g
    } else {
        let t = tiles.last();
        apply_tiles(g, tiles.drop_last()).update(t.coords.0 * 15 + t.coords.1, t.tile)
    }
}

/// The board drawn from the lines of a text: a character other than a space
/// on line r, position c goes on square (r, c).
pub open spec fn parsed_grid(lines: Seq<Seq<char>>) -> Seq<char> {
    Seq::new(
        225,
        |idx: int|
            {
                let r = idx / 15;
                let c = idx % 15;
                if r < lines.len() && c < lines[r].len() && lines[r][c] != EMPTY {
                    lines[r][c]
                } else {
                    EMPTY
                }
            },
    )
}

/// The text fits on the board: every character other than a space lies
/// within the first 15 lines and the first 15 positions of its line.
pub open spec fn fits_board(lines: Seq<Seq<char>>) -> bool {
    forall|r: int, c: int|
        0 <= r < lines.len() && 0 <= c < lines[r].len() && #[trigger] lines[r][c] != EMPTY ==> r < 15 && c < 15
}

/// The full set holds a hundred tiles, each a letter or a blank.
pub proof fn lemma_initial_tiles_chars()
    ensures
        initial_tiles().len() == 100,
        tile_chars_only(initial_tiles().to_multiset()),
{
    let s = initial_tiles();
    assert forall|i: int| 0 <= i < s.len() implies is_tile_char(#[trigger] s[i]) by {}
    assert forall|c: char| #[trigger] s.to_multiset().count(c) > 0 implies is_tile_char(c) by {
        let i = choose|i: int| 0 <= i < s.len() && s[i] == c;
    }
}

/// A Scrabble game for one to four players.
pub struct ScrabbleGame {
    board: ScrabbleBoard,
    turn: Player,
    pub bag: TileBag,
    dictionary: Dictionary,
    pub player_scores: Vec<i32>,
    pub winner: Option<Player>,
    total_players: usize,
    scoreless_turn_counter: u32,
}

impl ScrabbleGame {
    /// The squares of the board, row by row.
    pub closed spec fn grid(&self) -> Seq<char> {
        self.board@
    }

    /// Whose turn it is.
    pub closed spec fn spec_turn(&self) -> nat {
        self.turn as nat
    }

    /// How many players take part.
    pub closed spec fn spec_total_players(&self) -> nat {
        self.total_players as nat
    }

    /// The valid words.
    pub closed spec fn spec_dictionary(&self) -> Seq<Seq<char>> {
        self.dictionary@
    }

    /// How many turns in a row passed without a move.
    pub closed spec fn spec_scoreless_turns(&self) -> nat {
        self.scoreless_turn_counter as nat
    }

    /// The bag and the racks.
    pub closed spec fn spec_bag(&self) -> TileBag {
        self.bag
    }

    /// The scores, one per player.
    pub closed spec fn spec_scores(&self) -> Seq<i32> {
        self.player_scores@
    }

    /// The winner, once the game is over.
    pub closed spec fn spec_winner(&self) -> Option<Player> {
        self.winner
    }

    /// The tiles of player `p`.
    pub open spec fn rack_of(&self, p: int) -> Seq<char> {
        self.spec_bag().players_tiles@[p]@
    }

    /// The moves offered to the player whose turn it is: none once there is
    /// a winner, else every move of the rack in ranked order.
    pub open spec fn offered_moves(&self) -> Seq<(Seq<TilePlacement>, nat)> {
        if self.spec_winner() is Some {
            seq![]
        } else {
            ranked(
                all_moves(self.grid(), self.spec_dictionary(), sorted_chars(self.rack_of(self.spec_turn() as int))).to_multiset(),
            )
        }
    }

    /// The racks of the players, in player order.
    pub open spec fn racks(&self) -> Seq<Seq<char>> {
        self.spec_bag().players_tiles@.map_values(|v: Vec<char>| v@)
    }

    /// Well-formedness of a game: the shape of its parts, and while nobody
    /// has won, a tile on every rack and fewer than six scoreless turns.
    pub closed spec fn wf(&self) -> bool {
        &&& self.wf_base()
        &&& (self.winner is None ==> forall|p: int|
            0 <= p < self.total_players ==> (#[trigger] self.bag.players_tiles@[p])@.len() > 0)
        &&& (self.winner is None ==> self.scoreless_turn_counter < 6)
    }

    /// The board, the words and the number of players of a game: what every
    /// game has, in play or restored from any saved parts.
    pub closed spec fn wf_shape(&self) -> bool {
        &&& self.board.wf()
        &&& self.dictionary.wf()
        &&& self.total_players <= 4
    }

    /// The shape of the parts of a game.
    pub closed spec fn wf_base(&self) -> bool {
        &&& self.board.wf()
        &&& self.dictionary.wf()
        &&& self.total_players <= 4
        &&& self.bag.players_tiles@.len() == self.total_players
        &&& self.player_scores@.len() == self.total_players
        &&& (self.total_players > 0 ==> self.turn < self.total_players)
        &&& self.scoreless_turn_counter <= 6
        &&& (self.winner matches Some(w) ==> w < self.total_players)
        &&& forall|p: int| 0 <= p < self.total_players ==> (#[trigger] self.bag.players_tiles@[p])@.len() <= 7
        &&& tile_chars_only(self.bag.all_tiles())
    }

    /// A well-formed game keeps its shape.
    pub proof fn lemma_wf(&self)
        requires
            self.wf(),
        ensures
            self.wf_shape(),
            self.grid().len() == 225,
            self.spec_total_players() <= 4,
            self.spec_bag().players_tiles@.len() == self.spec_total_players(),
            self.spec_scores().len() == self.spec_total_players(),
            self.spec_total_players() > 0 ==> self.spec_turn() < self.spec_total_players(),
            self.spec_winner() matches Some(w) ==> w < self.spec_total_players(),
            self.spec_scoreless_turns() <= 6,
            self.spec_winner() is None ==> self.spec_scoreless_turns() < 6,
            self.spec_winner() is None ==> forall|p: int|
                0 <= p < self.spec_total_players() ==> #[trigger] self.rack_of(p).len() > 0,
            forall|p: int| 0 <= p < self.spec_total_players() ==> #[trigger] self.rack_of(p).len() <= 7,
            tile_chars_only(self.spec_bag().all_tiles()),
    {
    }

    /// A new game for `total_players` players (at most four) whose bag is
    /// shuffled with `seed`, with the valid words of `word_list` (one per line).
    pub fn new(total_players: usize, seed: u64, word_list: &str) -> (res: Self)
        requires
            total_players <= 4,
            forall|i: int|
                0 <= i < word_list_words(word_list@).len() ==> is_letter_word(#[trigger] word_list_words(word_list@)[i]),
        ensures
            res.wf(),
            res.grid() == empty_grid(),
            res.spec_turn() == 0,
            res.spec_total_players() == total_players,
            res.spec_scores() == Seq::new(total_players as nat, |p: int| 0i32),
            res.spec_winner() is None,
            res.spec_scoreless_turns() == 0,
            res.spec_dictionary() == word_list_words(word_list@),
            res.spec_bag().seed == seed,
            res.spec_bag().exchange_count == 0,
            crate::tile_bag::fresh_deal(res.spec_bag(), total_players as int),
            res.spec_bag().all_tiles() == initial_tiles().to_multiset(),
            res.spec_bag().tiles@.len() == 100 - 7 * total_players,
            forall|p: int| 0 <= p < total_players ==> (#[trigger] res.rack_of(p)).len() == 7,
    {
        let dictionary = Dictionary::from_word_list(word_list);
        let bag = TileBag::new_with_seed(total_players, seed);
        let mut player_scores: Vec<i32> = Vec::new();
        let mut p: usize = 0;
        while p < total_players
            invariant
                p <= total_players,
                player_scores@ == Seq::new(p as nat, |q: int| 0i32),
            decreases total_players - p,
        {
            player_scores.push(0);
            p = p + 1;
            assert(player_scores@ =~= Seq::new(p as nat, |q: int| 0i32));
        }
        proof {
            lemma_initial_tiles_chars();
            assert(tile_chars_only(bag.all_tiles()));
            let s = choose|s: Seq<char>| crate::tile_bag::dealt_from(bag, s, total_players as int);
            lemma_initial_tiles_chars();
            assert(initial_tiles().to_multiset().len() == 100);
            assert(s.to_multiset().len() == s.len());
            assert forall|p: int| 0 <= p < total_players implies (#[trigger] bag.players_tiles@[p])@.len() == 7 by {
                assert(bag.players_tiles@[p]@ == crate::tile_bag::dealt_rack(s, total_players as int, p));
            }
        }
        ScrabbleGame {
            board: ScrabbleBoard::new(),
            turn: 0,
            bag,
            dictionary,
            player_scores,
            winner: None,
            total_players,
            scoreless_turn_counter: 0,
        }
    }

    /// Whose turn it is.
    pub fn current_turn(&self) -> (res: usize)
        ensures
            res == self.spec_turn(),
    {
        self.turn
    }

    /// How many players take part.
    pub fn total_players(&self) -> (res: usize)
        ensures
            res == self.spec_total_players(),
    {
        self.total_players
    }

    /// The scores of the players, in player order.
    pub fn scores(&self) -> (res: Vec<i32>)
        requires
            self.wf(),
        ensures
            res@ == self.spec_scores(),
    {
        let mut res: Vec<i32> = Vec::new();
        let mut p: usize = 0;
        while p < self.total_players
            invariant
                self.wf(),
                p <= self.total_players,
                res@ == self.player_scores@.take(p as int),
            decreases self.total_players - p,
        {
            res.push(self.player_scores[p]);
            p = p + 1;
            assert(res@ =~= self.player_scores@.take(p as int));
        }
        assert(self.player_scores@.take(p as int) =~= self.player_scores@);
        res
    }

    /// The rows of the board, one line each, as `{:?}` writes a row.
    pub fn board_dump(&self) -> (res: String)
        requires
            self.wf(),
        ensures
            res@ == rows_text(self.grid(), 15),
    {
        self.board.dump()
    }

    /// The rows of the board as strings of 15 characters.
    pub fn board_rows(&self) -> (res: Vec<String>)
        requires
            self.wf(),
        ensures
            res@.len() == 15,
            forall|r: int| 0 <= r < 15 ==> (#[trigger] res@[r])@ == Seq::new(15, |c: int| cell(self.grid(), r, c)),
            res@.map_values(|r: String| r@) == grid_rows(self.grid()),
    {
        let mut board_rows: Vec<String> = Vec::new();
        let mut row: usize = 0;
        while row < 15
            invariant
                self.wf(),
                row <= 15,
                board_rows@.len() == row,
                forall|r: int| 0 <= r < row ==> (#[trigger] board_rows@[r])@ == Seq::new(15, |c: int| cell(self.grid(), r, c)),
            decreases 15 - row,
        {
            let mut line: Vec<char> = Vec::new();
            let mut col: usize = 0;
            while col < 15
                invariant
                    self.wf(),
                    row < 15,
                    col <= 15,
                    line@ == Seq::new(col as nat, |c: int| cell(self.grid(), row as int, c)),
                decreases 15 - col,
            {
                line.push(self.board.get((row, col)));
                col = col + 1;
                assert(line@ =~= Seq::new(col as nat, |c: int| cell(self.grid(), row as int, c)));
            }
            board_rows.push(string_from_chars(&line));
            row = row + 1;
        }
        assert(board_rows@.map_values(|r: String| r@) =~= grid_rows(self.grid()));
        board_rows
    }

    /// Number of tiles left in the bag.
    pub fn bag_tile_count(&self) -> (res: usize)
        ensures
            res == self.spec_bag().tiles@.len(),
    {
        self.bag.get_tile_count()
    }

    /// The tiles of `player`, in ascending order.
    pub fn rack_for_player(&self, player: usize) -> (res: String)
        requires
            self.wf(),
            player < self.spec_total_players(),
        ensures
            crate::utils::chars_sorted(res@),
            res@.to_multiset() == self.rack_of(player as int).to_multiset(),
    {
        self.bag.get_tiles(player)
    }

    /// The tiles of the player whose turn it is, in ascending order.
    pub fn current_player_rack(&self) -> (res: String)
        requires
            self.wf(),
            self.spec_total_players() > 0,
        ensures
            crate::utils::chars_sorted(res@),
            res@.to_multiset() == self.rack_of(self.spec_turn() as int).to_multiset(),
    {
        self.bag.get_tiles(self.turn)
    }

    /// The winner, once the game is over.
    pub fn winner_index(&self) -> (res: Option<usize>)
        ensures
            res == self.spec_winner(),
    {
        self.winner
    }

    /// A walk over the board from `start_coords` along the row (`horizontal`)
    /// or column, forwards or backwards.
    pub fn create_board_iterator(&self, start_coords: Coords, horizontal: bool, forwards: bool) -> (res:
        ScrabbleBoardIterator<'_>)
        requires
            self.wf(),
        ensures
            res.wf(),
            res.grid() == self.grid(),
            res.at() == ((start_coords.0 as i32) as int, (start_coords.1 as i32) as int),
            res.is_horizontal() == horizontal,
            res.is_forwards() == forwards,
    {
        ScrabbleBoardIterator::new(&self.board, start_coords, horizontal, forwards)
    }

    /// How many exchanges the bag has seen.
    pub fn exchange_count(&self) -> (res: u64)
        ensures
            res == self.spec_bag().exchange_count,
    {
        self.bag.exchange_count
    }

    /// Whether every square is empty or holds a capital letter.
    pub fn board_holds_letters(&self) -> (res: bool)
        requires
            self.wf(),
        ensures
            res == board_letters(self.grid()),
    {
        let mut k: usize = 0;
        while k < 225
            invariant
                self.wf(),
                k <= 225,
                forall|i: int| 0 <= i < k ==> (#[trigger] self.grid()[i] == EMPTY || is_letter(self.grid()[i])),
            decreases 225 - k,
        {
            let ch = self.board.get((k / 15, k % 15));
            assert(ch == self.grid()[k as int]);
            if ch != EMPTY && !('A' <= ch && ch <= 'Z') {
                return false;
            }
            k = k + 1;
        }
        true
    }

    /// How many turns in a row have passed without a move.
    pub fn scoreless_turns(&self) -> (res: u32)
        ensures
            res == self.spec_scoreless_turns(),
    {
        self.scoreless_turn_counter
    }

    /// The score of player `p`.
    pub fn score_of(&self, p: usize) -> (res: i32)
        requires
            self.wf(),
            p < self.spec_total_players(),
        ensures
            res == self.spec_scores()[p as int],
    {
        self.player_scores[p]
    }

    /// Whether the bag holds enough tiles for an exchange (seven).
    pub fn can_exchange(&self) -> (res: bool)
        ensures
            res == (self.spec_bag().tiles@.len() >= 7),
    {
        self.bag.get_tile_count() >= 7
    }

    /// Writes the characters of `word` on the board from (row, col) along the
    /// row (`horizontal`) or the column, whatever the squares held.
    pub fn _place_word(&mut self, word: &str, row: usize, col: usize, horizontal: bool)
        requires
            old(self).wf(),
            horizontal ==> row < 15 && col + word@.len() <= 15,
            !horizontal ==> col < 15 && row + word@.len() <= 15,
        ensures
            final(self).wf(),
            final(self).grid() == place_word_grid(old(self).grid(), word@, row as int, col as int, horizontal),
            final(self).spec_turn() == old(self).spec_turn(),
            final(self).spec_total_players() == old(self).spec_total_players(),
            final(self).spec_bag() == old(self).spec_bag(),
            final(self).spec_scores() == old(self).spec_scores(),
            final(self).spec_winner() == old(self).spec_winner(),
            final(self).spec_dictionary() == old(self).spec_dictionary(),
            final(self).spec_scoreless_turns() == old(self).spec_scoreless_turns(),
    {
        let cs = crate::utils::str_chars(word);
        let ghost g0 = self.board@;
        let mut i: usize = 0;
        while i < cs.len()
            invariant
                self.board.wf(),
                g0.len() == 225,
                cs@ == word@,
                horizontal ==> row < 15 && col + word@.len() <= 15,
                !horizontal ==> col < 15 && row + word@.len() <= 15,
                i <= cs@.len(),
                self.board@ == place_word_grid(g0, cs@.take(i as int), row as int, col as int, horizontal),
                self.turn == old(self).turn,
                self.bag == old(self).bag,
                self.dictionary == old(self).dictionary,
                self.player_scores == old(self).player_scores,
                self.winner == old(self).winner,
                self.total_players == old(self).total_players,
                self.scoreless_turn_counter == old(self).scoreless_turn_counter,
            decreases cs@.len() - i,
        {
            let (r, c) = if horizontal {
                (row, col + i)
            } else {
                (row + i, col)
            };
            self.board.set((r, c), cs[i]);
            i = i + 1;
            proof {
                assert forall|idx: int| 0 <= idx < 225 implies #[trigger] self.board@[idx] == place_word_grid(
                    g0,
                    cs@.take(i as int),
                    row as int,
                    col as int,
                    horizontal,
                )[idx] by {
                    let rr = idx / 15;
                    let cc = idx % 15;
                    assert(idx == rr * 15 + cc);
                }
                assert(self.board@ =~= place_word_grid(g0, cs@.take(i as int), row as int, col as int, horizontal));
            }
        }
        assert(cs@.take(i as int) =~= word@);
    }

    /// Puts the tiles on their squares, in order.
    pub fn place_tiles(&mut self, tiles: &Vec<TilePlacement>)
        requires
            old(self).wf(),
            forall|i: int| 0 <= i < tiles@.len() ==> (#[trigger] tiles@[i]).coords.0 < 15 && tiles@[i].coords.1 < 15,
        ensures
            final(self).wf(),
            final(self).grid() == apply_tiles(old(self).grid(), tiles@),
            final(self).spec_turn() == old(self).spec_turn(),
            final(self).spec_total_players() == old(self).spec_total_players(),
            final(self).spec_bag() == old(self).spec_bag(),
            final(self).spec_scores() == old(self).spec_scores(),
            final(self).spec_winner() == old(self).spec_winner(),
            final(self).spec_dictionary() == old(self).spec_dictionary(),
            final(self).spec_scoreless_turns() == old(self).spec_scoreless_turns(),
    {
        let ghost g0 = self.board@;
        let mut i: usize = 0;
        while i < tiles.len()
            invariant
                self.board.wf(),
                forall|k: int| 0 <= k < tiles@.len() ==> (#[trigger] tiles@[k]).coords.0 < 15 && tiles@[k].coords.1 < 15,
                i <= tiles@.len(),
                self.board@ == apply_tiles(g0, tiles@.take(i as int)),
                self.turn == old(self).turn,
                self.bag == old(self).bag,
                self.dictionary == old(self).dictionary,
                self.player_scores == old(self).player_scores,
                self.winner == old(self).winner,
                self.total_players == old(self).total_players,
                self.scoreless_turn_counter == old(self).scoreless_turn_counter,
            decreases tiles@.len() - i,
        {
            let placement = tiles[i];
            self.board.set((placement.coords.0, placement.coords.1), placement.tile);
            assert(tiles@.take(i + 1).drop_last() =~= tiles@.take(i as int));
            i = i + 1;
        }
        assert(tiles@.take(i as int) =~= tiles@);
    }

    /// A game whose board is drawn from `board_str`: line r, position c of the
    /// text goes on square (r, c) unless it is a space.
    pub fn parse_str(total_players: usize, board_str: &str, seed: u64, word_list: &str) -> (res: Self)
        requires
            total_players <= 4,
            forall|i: int|
                0 <= i < word_list_words(word_list@).len() ==> is_letter_word(#[trigger] word_list_words(word_list@)[i]),
            fits_board(text_lines(board_str@)),
        ensures
            res.wf(),
            res.grid() == parsed_grid(text_lines(board_str@)),
            res.spec_turn() == 0,
            res.spec_total_players() == total_players,
            res.spec_scores() == Seq::new(total_players as nat, |p: int| 0i32),
            res.spec_winner() is None,
            res.spec_scoreless_turns() == 0,
            res.spec_dictionary() == word_list_words(word_list@),
            res.spec_bag().seed == seed,
            res.spec_bag().exchange_count == 0,
            crate::tile_bag::fresh_deal(res.spec_bag(), total_players as int),
            res.spec_bag().all_tiles() == initial_tiles().to_multiset(),
            res.spec_bag().tiles@.len() == 100 - 7 * total_players,
            forall|p: int| 0 <= p < total_players ==> (#[trigger] res.rack_of(p)).len() == 7,
    {
        let mut board = Self::new(total_players, seed, word_list);
        let ghost bag0 = board.bag;
        let ghost first = board;
        let lines = split_lines(board_str);
        let ghost ls = text_lines(board_str@);
        let mut row: usize = 0;
        while row < lines.len()
            invariant
                board.wf(),
                board.board@.len() == 225,
                lines@.map_values(|l: Vec<char>| l@) == ls,
                fits_board(ls),
                row <= lines@.len(),
                forall|idx: int|
                    0 <= idx < 225 ==> #[trigger] board.board@[idx] == (if idx / 15 < row && idx / 15 < ls.len()
                        && idx % 15 < ls[idx / 15].len() && ls[idx / 15][idx % 15] != EMPTY {
                        ls[idx / 15][idx % 15]
                    } else {
                        EMPTY
                    }),
                board.turn == 0,
                board.total_players == total_players,
                board.player_scores@ == Seq::new(total_players as nat, |p: int| 0i32),
                board.winner is None,
                board.scoreless_turn_counter == 0,
                board.dictionary@ == word_list_words(word_list@),
                board.bag == bag0,
            decreases lines@.len() - row,
        {
            let line = &lines[row];
            assert(ls[row as int] == line@);
            let mut col: usize = 0;
            while col < line.len()
                invariant
                    board.wf(),
                    board.board@.len() == 225,
                    lines@.map_values(|l: Vec<char>| l@) == ls,
                    fits_board(ls),
                    row < lines@.len(),
                    ls[row as int] == line@,
                    col <= line@.len(),
                    forall|idx: int|
                        0 <= idx < 225 ==> #[trigger] board.board@[idx] == (if (idx / 15 < row || (idx / 15 == row
                            && idx % 15 < col)) && idx / 15 < ls.len() && idx % 15 < ls[idx / 15].len()
                            && ls[idx / 15][idx % 15] != EMPTY {
                            ls[idx / 15][idx % 15]
                        } else {
                            EMPTY
                        }),
                    board.turn == 0,
                    board.total_players == total_players,
                    board.player_scores@ == Seq::new(total_players as nat, |p: int| 0i32),
                    board.winner is None,
                    board.scoreless_turn_counter == 0,
                    board.dictionary@ == word_list_words(word_list@),
                    board.bag == bag0,
                decreases line@.len() - col,
            {
                let ch = line[col];
                if ch != EMPTY {
                    assert(ls[row as int][col as int] == ch);
                    board.board.set((row, col), ch);
                    assert forall|idx: int| 0 <= idx < 225 implies #[trigger] board.board@[idx] == (if (idx / 15 < row || (
                    idx / 15 == row && idx % 15 < col + 1)) && idx / 15 < ls.len() && idx % 15 < ls[idx / 15].len()
                        && ls[idx / 15][idx % 15] != EMPTY {
                        ls[idx / 15][idx % 15]
                    } else {
                        EMPTY
                    }) by {
                        if idx == row * 15 + col {
                            assert(idx / 15 == row && idx % 15 == col);
                        }
                    }
                }
                col = col + 1;
            }
            row = row + 1;
        }
        assert(board.board@ =~= parsed_grid(ls));
        assert forall|p: int| 0 <= p < total_players implies #[trigger] board.rack_of(p) == first.rack_of(p) by {}
        assert(board.spec_bag() == first.spec_bag());
        board
    }
}

impl ScrabbleGame {
    /// The racks of a well-formed game hold letters and blanks only.
    pub proof fn lemma_rack_tiles(&self, p: int)
        requires
            self.wf_base(),
            0 <= p < self.spec_total_players(),
        ensures
            forall|i: int| 0 <= i < self.rack_of(p).len() ==> is_tile_char(#[trigger] self.rack_of(p)[i]),
    {
        broadcast use vstd::multiset::group_multiset_axioms;

        lemma_initial_tiles_chars();
        lemma_rack_in_racks(self.bag.players_tiles@, p);
        let rack = self.rack_of(p);
        assert forall|i: int| 0 <= i < rack.len() implies is_tile_char(#[trigger] rack[i]) by {
            let c = rack[i];
            assert(rack.contains(c));
            assert(racks_tiles(self.bag.players_tiles@).count(c) > 0);
            assert(self.bag.all_tiles().count(c) > 0);
        }
    }

    /// The moves that place exactly `exact_tiles_to_play` tiles of `chars`
    /// (blanks written `*`) along the row (`horizontal`) or column through
    /// the empty square (row, col), the first new tile going there.
    pub fn get_moves_from_spot_exact_length(
        &self,
        chars: &str,
        row: usize,
        col: usize,
        horizontal: bool,
        exact_tiles_to_play: usize,
    ) -> (res: Vec<PossibleMove>)
        requires
            self.wf(),
            board_letters(self.grid()),
            row < 15,
            col < 15,
            cell(self.grid(), row as int, col as int) == EMPTY ==> forall|i: int|
                0 <= i < chars@.len() ==> encodable(#[trigger] chars@[i]),
        ensures
            moves_view(res@) == spot_moves(
                self.grid(),
                self.spec_dictionary(),
                chars@,
                row as int,
                col as int,
                horizontal,
                exact_tiles_to_play as nat,
            ),
            moves_on_board(res@),
    {
        let rack = str_chars(chars);
        moves_from_spot_exact_length(&self.board, &self.dictionary, &rack, row, col, horizontal, exact_tiles_to_play)
    }

    /// The moves from the empty square (row, col) along one line that place
    /// from `minimum_tile_count` (one when `None`) up to all the tiles of
    /// `chars`, fewest tiles first.
    pub fn get_moves_from_spot(
        &self,
        chars: &str,
        row: usize,
        col: usize,
        horizontal: bool,
        minimum_tile_count: Option<usize>,
    ) -> (res: Vec<PossibleMove>)
        requires
            self.wf(),
            board_letters(self.grid()),
            row < 15,
            col < 15,
            cell(self.grid(), row as int, col as int) == EMPTY ==> forall|i: int|
                0 <= i < chars@.len() ==> encodable(#[trigger] chars@[i]),
        ensures
            moves_view(res@) == spot_moves_upto(
                self.grid(),
                self.spec_dictionary(),
                chars@,
                row as int,
                col as int,
                horizontal,
                (match minimum_tile_count {
                    Some(m) => m as nat,
                    None => 1nat,
                }),
                chars@.len() + 1,
            ),
            moves_on_board(res@),
    {
        let rack = str_chars(chars);
        let lo = match minimum_tile_count {
            Some(m) => m,
            None => 1,
        };
        let ghost g = self.grid();
        let ghost d = self.spec_dictionary();
        let mut result: Vec<PossibleMove> = Vec::new();
        let mut t = lo;
        while t <= rack.len()
            invariant_except_break
                t <= lo || t <= rack@.len() + 1,
                moves_view(result@) == spot_moves_upto(g, d, chars@, row as int, col as int, horizontal, lo as nat, t as nat),
            invariant
                self.wf(),
                board_letters(g),
                g == self.grid(),
                d == self.spec_dictionary(),
                row < 15,
                col < 15,
                cell(g, row as int, col as int) == EMPTY ==> forall|i: int|
                    0 <= i < chars@.len() ==> encodable(#[trigger] chars@[i]),
                rack@ == chars@,
                lo <= t,
                moves_on_board(result@),
            ensures
                moves_view(result@) == spot_moves_upto(
                    g,
                    d,
                    chars@,
                    row as int,
                    col as int,
                    horizontal,
                    lo as nat,
                    chars@.len() + 1,
                ),
            decreases rack@.len() + 1 - t,
        {
            let mut found = self.get_moves_from_spot_exact_length(chars, row, col, horizontal, t);
            let ghost before = result@;
            let ghost f = found@;
            result.append(&mut found);
            proof {
                lemma_moves_append(before, f);
            }
            if t == rack.len() {
                break;
            }
            t = t + 1;
        }
        result
    }

    /// All the moves that `chars` can make on the board.
    #[verifier::spinoff_prover]
    pub fn get_moves_helper(&self, chars: &str) -> (res: Vec<PossibleMove>)
        requires
            self.wf(),
            board_letters(self.grid()),
            forall|i: int| 0 <= i < chars@.len() ==> encodable(#[trigger] chars@[i]),
        ensures
            moves_view(res@) == all_moves(self.grid(), self.spec_dictionary(), chars@),
            moves_on_board(res@),
    {
        let ghost g = self.grid();
        let ghost d = self.spec_dictionary();
        let mut result: Vec<PossibleMove> = Vec::new();
        // First case: the centre square is empty, and a word may go anywhere through it.
        if self.board.get((7, 7)) == EMPTY {
            let mut across = self.get_moves_from_spot(chars, 7, 7, true, None);
            let mut down = self.get_moves_from_spot(chars, 7, 7, false, None);
            let ghost a = across@;
            let ghost b = down@;
            result.append(&mut across);
            result.append(&mut down);
            proof {
                lemma_moves_append(a, b);
                assert(result@ =~= a + b);
                assert(112int / 15 == 7 && 112int % 15 == 7);
            }
            return result;
        }
        // Otherwise every empty square of the board.
        let mut row: usize = 0;
        while row < 15
            invariant
                self.wf(),
                board_letters(g),
                g == self.grid(),
                d == self.spec_dictionary(),
                forall|i: int| 0 <= i < chars@.len() ==> encodable(#[trigger] chars@[i]),
                row <= 15,
                moves_view(result@) == board_moves(g, d, chars@, (row * 15) as nat),
                moves_on_board(result@),
            decreases 15 - row,
        {
            let mut col: usize = 0;
            while col < 15
                invariant
                    self.wf(),
                    board_letters(g),
                    g == self.grid(),
                    d == self.spec_dictionary(),
                    forall|i: int| 0 <= i < chars@.len() ==> encodable(#[trigger] chars@[i]),
                    row < 15,
                    col <= 15,
                    moves_view(result@) == board_moves(g, d, chars@, (row * 15 + col) as nat),
                    moves_on_board(result@),
                decreases 15 - col,
            {
                let ghost idx = row * 15 + col;
                assert(idx / 15 == row && idx % 15 == col);
                if self.board.get((row, col)) != EMPTY {
                    assert(square_moves(g, d, chars@, idx) =~= Seq::empty());
                    assert(board_moves(g, d, chars@, (idx + 1) as nat) =~= board_moves(g, d, chars@, idx as nat));
                } else {
                    let mut across = self.get_moves_from_spot(chars, row, col, true, None);
                    let mut down = self.get_moves_from_spot(chars, row, col, false, None);
                    let ghost before = result@;
                    let ghost a = across@;
                    let ghost b = down@;
                    result.append(&mut across);
                    result.append(&mut down);
                    proof {
                        lemma_moves_append(a, b);
                        lemma_moves_append(before, a + b);
                        assert(result@ =~= before + (a + b));
                    }
                }
                col = col + 1;
            }
            row = row + 1;
        }
        result
    }

    /// All the moves of the player whose turn it is, best score first, then
    /// ordered by where the tiles go; none once the game has a winner.
    pub fn get_moves(&self) -> (res: Vec<PossibleMove>)
        requires
            self.wf(),
            self.spec_winner() is None ==> board_letters(self.grid()) && self.spec_total_players() > 0,
        ensures
            self.spec_winner() is Some ==> res@.len() == 0,
            self.spec_winner() is None ==> moves_view(res@) == ranked(
                all_moves(
                    self.grid(),
                    self.spec_dictionary(),
                    sorted_chars(self.rack_of(self.spec_turn() as int)),
                ).to_multiset(),
            ),
            moves_ranked(moves_view(res@)),
            moves_on_board(res@),
            self.spec_winner() is None ==> all_playable(self.rack_of(self.spec_turn() as int), moves_view(res@)),
            self.spec_winner() is None ==> moves_view(res@).to_multiset() == all_moves(
                self.grid(),
                self.spec_dictionary(),
                sorted_chars(self.rack_of(self.spec_turn() as int)),
            ).to_multiset(),
            moves_view(res@) == self.offered_moves(),
    {
        if self.winner.is_some() {
            let none: Vec<PossibleMove> = Vec::new();
            assert(moves_view(none@) =~= Seq::empty());
            return none;
        }
        let rack = self.bag.get_tiles(self.turn);
        proof {
            let r = self.rack_of(self.turn as int);
            lemma_sorted_chars(r, rack@);
            self.lemma_rack_tiles(self.turn as int);
            assert forall|i: int| 0 <= i < rack@.len() implies encodable(#[trigger] rack@[i]) by {
                let c = rack@[i];
                assert(rack@.contains(c));
                assert(r.to_multiset().count(c) > 0);
                let j = choose|j: int| 0 <= j < r.len() && r[j] == c;
                assert(is_tile_char(r[j]));
            }
        }
        let found = self.get_moves_helper(rack.as_str());
        let res = rank_moves(found);
        proof {
            let v = res@;
            assert forall|m: int, i: int| 0 <= m < v.len() && 0 <= i < v[m].tiles@.len() implies (#[trigger] v[m].tiles@[i]).coords.0 < 15
                && v[m].tiles@[i].coords.1 < 15 && is_letter(v[m].tiles@[i].tile) by {
                assert(moves_view(v).to_multiset().count(moves_view(v)[m]) > 0);
                assert(moves_view(v).contains(moves_view(v)[m]));
                assert(moves_view(found@).to_multiset().count(moves_view(v)[m]) > 0);
                assert(moves_view(found@).contains(moves_view(v)[m]));
                let k = choose|k: int| 0 <= k < moves_view(found@).len() && moves_view(found@)[k] == moves_view(v)[m];
                assert(found@[k].tiles@ == v[m].tiles@);
                assert(found@[k].tiles@[i] == v[m].tiles@[i]);
            }
            let r = self.rack_of(self.turn as int);
            let all = all_moves(self.grid(), self.spec_dictionary(), rack@);
            self.dictionary.lemma_letter_words();
            lemma_all_moves_playable(self.grid(), self.spec_dictionary(), rack@);
            assert forall|i: int| 0 <= i < moves_view(v).len() implies move_playable(r, #[trigger] moves_view(v)[i]) by {
                let x = moves_view(v)[i];
                assert(moves_view(v).contains(x));
                assert(all.to_multiset().count(x) > 0);
                assert(all.contains(x));
                let j = choose|j: int| 0 <= j < all.len() && all[j] == x;
                assert(move_playable(rack@, all[j]));
            }
            assert forall|i: int, j: int|
                0 <= i < moves_view(v).len() && 0 <= j < moves_view(v)[i].0.len() implies (
                #[trigger] moves_view(v)[i].0[j]).coords.0 < 100 && moves_view(v)[i].0[j].coords.1 < 100 by {
                assert(moves_view(v)[i].0[j] == v[i].tiles@[j]);
            }
            lemma_ranked_is(moves_view(v));
        }
        res
    }
}

/// The points left on all the racks together.
pub open spec fn racks_points(racks: Seq<Seq<char>>) -> nat
    decreases racks.len(),
{
    if racks.len() == 0 {
        0
    } else {
        racks_points(racks.drop_last()) + sum_points(racks.last())
    }
}

/// The scores once the game is over: each player loses the points left on
/// the rack, and the player who went out gains the points left on all racks.
pub open spec fn final_scores(scores: Seq<i32>, racks: Seq<Seq<char>>) -> Seq<int> {
    Seq::new(
        scores.len(),
        |p: int|
            scores[p] - sum_points(racks[p]) + (if racks[p].len() == 0 {
                racks_points(racks) as int
            } else {
                0
            }),
    )
}

/// The first player with the highest score among the first `n` players.
pub open spec fn leader(s: Seq<int>, n: nat) -> nat
    decreases n,
{
    if n <= 1 {
        0
    } else {
        let b = leader(s, (n - 1) as nat);
        if s[n - 1] > s[b as int] {
            (n - 1) as nat
        } else {
            b
        }
    }
}

/// The scores as integers.
pub open spec fn scores_int(s: Seq<i32>) -> Seq<int> {
    s.map_values(|x: i32| x as int)
}

/// No two racks are empty.
pub open spec fn at_most_one_empty(racks: Seq<Seq<char>>) -> bool {
    forall|p: int, q: int|
        0 <= p < racks.len() && 0 <= q < racks.len() && p != q && #[trigger] racks[p].len() == 0 ==> #[trigger] racks[q].len()
            > 0
}

/// The lowest score that leaves room in `i32` for the end of the game, when a
/// player loses the points left on a rack: at most seventy (seven tiles of at
/// most ten points).
pub const LOWEST_ROOMY_SCORE: i32 = -2_147_483_578;

/// The highest score that leaves room in `i32` for the end of the game, when
/// the player who went out gains the points left on all racks: at most two
/// hundred and eighty (four racks of at most seventy points).
pub const HIGHEST_ROOMY_SCORE: i32 = 2_147_483_367;

/// Every score leaves room in `i32` for the end-of-game adjustments.
pub open spec fn scores_bounded(s: Seq<i32>) -> bool {
    forall|p: int| 0 <= p < s.len() ==> LOWEST_ROOMY_SCORE <= #[trigger] s[p] <= HIGHEST_ROOMY_SCORE
}

/// The leader has a score no other player beats, and every player before it
/// scores less.
pub proof fn lemma_leader(s: Seq<int>, n: nat)
    requires
        1 <= n <= s.len(),
    ensures
        leader(s, n) < n,
        forall|q: int| 0 <= q < n ==> #[trigger] s[q] <= s[leader(s, n) as int],
        forall|q: int| 0 <= q < leader(s, n) ==> #[trigger] s[q] < s[leader(s, n) as int],
    decreases n,
{
    if n > 1 {
        lemma_leader(s, (n - 1) as nat);
    }
}

/// Racks of at most seven tiles hold at most seventy points each.
pub proof fn lemma_racks_points_bound(racks: Seq<Seq<char>>)
    requires
        forall|p: int| 0 <= p < racks.len() ==> (#[trigger] racks[p]).len() <= 7,
    ensures
        racks_points(racks) <= 70 * racks.len(),
    decreases racks.len(),
{
    if racks.len() > 0 {
        lemma_racks_points_bound(racks.drop_last());
        lemma_sum_points_bound(racks.last());
        assert(racks.last() == racks[racks.len() - 1]);
    }
}

/// The sum of a sequence of integers.
pub open spec fn seq_total(s: Seq<int>) -> int
    decreases s.len(),
{
    if s.len() == 0 {
        0
    } else {
        seq_total(s.drop_last()) + s.last()
    }
}

/// `bonus` for each empty rack.
pub open spec fn bonus_total(racks: Seq<Seq<char>>, bonus: int) -> int
    decreases racks.len(),
{
    if racks.len() == 0 {
        0
    } else {
        bonus_total(racks.drop_last(), bonus) + (if racks.last().len() == 0 {
            bonus
        } else {
            0
        })
    }
}

/// The scores after each player loses the points on the rack and each
/// player with an empty rack gains `bonus`.
pub open spec fn adjusted_scores(scores: Seq<i32>, racks: Seq<Seq<char>>, bonus: int) -> Seq<int> {
    Seq::new(
        scores.len(),
        |p: int|
            scores[p] - sum_points(racks[p]) + (if racks[p].len() == 0 {
                bonus
            } else {
                0
            }),
    )
}

proof fn lemma_adjusted_total(scores: Seq<i32>, racks: Seq<Seq<char>>, bonus: int)
    requires
        scores.len() == racks.len(),
    ensures
        seq_total(adjusted_scores(scores, racks, bonus)) == seq_total(scores_int(scores)) - racks_points(racks)
            + bonus_total(racks, bonus),
    decreases scores.len(),
{
    if scores.len() > 0 {
        let n = scores.len() as int;
        lemma_adjusted_total(scores.drop_last(), racks.drop_last(), bonus);
        assert(adjusted_scores(scores, racks, bonus).drop_last() =~= adjusted_scores(
            scores.drop_last(),
            racks.drop_last(),
            bonus,
        ));
        assert(scores_int(scores).drop_last() =~= scores_int(scores.drop_last()));
        assert(racks.last() == racks[n - 1]);
    }
}

proof fn lemma_bonus_total(racks: Seq<Seq<char>>, bonus: int)
    requires
        at_most_one_empty(racks),
    ensures
        (forall|p: int| 0 <= p < racks.len() ==> (#[trigger] racks[p]).len() > 0) ==> bonus_total(racks, bonus) == 0,
        (exists|p: int| 0 <= p < racks.len() && (#[trigger] racks[p]).len() == 0) ==> bonus_total(racks, bonus)
            == bonus,
    decreases racks.len(),
{
    if racks.len() > 0 {
        let n = racks.len() as int;
        let front = racks.drop_last();
        assert forall|p: int, q: int|
            0 <= p < front.len() && 0 <= q < front.len() && p != q && #[trigger] front[p].len() == 0 implies #[trigger] front[q].len()
            > 0 by {
            assert(front[p] == racks[p] && front[q] == racks[q]);
        }
        lemma_bonus_total(front, bonus);
        assert(racks.last() == racks[n - 1]);
        if exists|p: int| 0 <= p < racks.len() && (#[trigger] racks[p]).len() == 0 {
            let o = choose|p: int| 0 <= p < racks.len() && (#[trigger] racks[p]).len() == 0;
            if o == n - 1 {
                assert forall|p: int| 0 <= p < front.len() implies (#[trigger] front[p]).len() > 0 by {
                    assert(front[p] == racks[p]);
                }
            } else {
                assert(front[o] == racks[o]);
                assert(racks[n - 1].len() > 0);
            }
        } else {
            assert forall|p: int| 0 <= p < front.len() implies (#[trigger] front[p]).len() > 0 by {
                assert(front[p] == racks[p]);
            }
        }
    }
}

/// The end-of-game adjustment when a player went out only moves points
/// between players: the total of the scores is unchanged. When nobody went
/// out, the total drops by the points left on all racks.
pub proof fn lemma_final_scores_total(scores: Seq<i32>, racks: Seq<Seq<char>>)
    requires
        scores.len() == racks.len(),
        at_most_one_empty(racks),
    ensures
        (exists|p: int| 0 <= p < racks.len() && (#[trigger] racks[p]).len() == 0) ==> seq_total(
            final_scores(scores, racks),
        ) == seq_total(scores_int(scores)),
        (forall|p: int| 0 <= p < racks.len() ==> (#[trigger] racks[p]).len() > 0) ==> seq_total(
            final_scores(scores, racks),
        ) == seq_total(scores_int(scores)) - racks_points(racks),
{
    let b = racks_points(racks) as int;
    assert(final_scores(scores, racks) =~= adjusted_scores(scores, racks, b));
    lemma_adjusted_total(scores, racks, b);
    lemma_bonus_total(racks, b);
}

impl ScrabbleGame {
    /// The game is over: the scores are the final scores of `scores` and
    /// `racks`, and the winner is the first player with the highest of them.
    pub open spec fn ended_with(&self, scores: Seq<i32>, racks: Seq<Seq<char>>) -> bool {
        &&& scores_int(self.spec_scores()) == final_scores(scores, racks)
        &&& self.spec_winner() == Some(leader(scores_int(self.spec_scores()), self.spec_total_players()) as usize)
    }

    /// Passes the turn to the next player.
    fn advance_turn(&mut self)
        requires
            old(self).total_players > 0,
            old(self).turn < old(self).total_players,
        ensures
            final(self).turn == (old(self).turn + 1) % (old(self).total_players as int),
            final(self).board == old(self).board,
            final(self).bag == old(self).bag,
            final(self).dictionary == old(self).dictionary,
            final(self).player_scores == old(self).player_scores,
            final(self).winner == old(self).winner,
            final(self).total_players == old(self).total_players,
            final(self).scoreless_turn_counter == old(self).scoreless_turn_counter,
    {
        self.turn = (self.turn + 1) % self.total_players;
    }

    /// Ends the game: takes the points left on each rack off its player's
    /// score, gives them to the player who went out, and names the winner.
    fn end_game(&mut self)
        requires
            old(self).wf_base(),
            old(self).total_players > 0,
            at_most_one_empty(old(self).racks()),
            scores_bounded(old(self).player_scores@),
        ensures
            final(self).wf(),
            final(self).ended_with(old(self).spec_scores(), old(self).racks()),
            final(self).board == old(self).board,
            final(self).turn == old(self).turn,
            final(self).bag == old(self).bag,
            final(self).dictionary == old(self).dictionary,
            final(self).total_players == old(self).total_players,
            final(self).scoreless_turn_counter == old(self).scoreless_turn_counter,
    {
        let n = self.total_players;
        let ghost rk = self.racks();
        let ghost s0 = self.player_scores@;
        proof {
            assert forall|p: int| 0 <= p < rk.len() implies (#[trigger] rk[p]).len() <= 7 by {
                assert(rk[p] == self.bag.players_tiles@[p]@);
            }
            lemma_racks_points_bound(rk);
        }
        // The player who went out, if any.
        let mut out: Option<usize> = None;
        let mut q: usize = 0;
        while q < n
            invariant
                self.wf_base(),
                n == self.total_players,
                rk == self.racks(),
                q <= n,
                out matches Some(o) ==> o < n && rk[o as int].len() == 0,
                out is None ==> forall|k: int| 0 <= k < q ==> (#[trigger] rk[k]).len() > 0,
            decreases n - q,
        {
            assert(rk[q as int] == self.bag.players_tiles@[q as int]@);
            if self.bag.players_tiles[q].len() == 0 {
                out = Some(q);
            }
            q = q + 1;
        }
        let mut p: usize = 0;
        while p < n
            invariant
                self.wf_base(),
                n == self.total_players,
                rk == self.racks(),
                s0.len() == n,
                scores_bounded(s0),
                racks_points(rk) <= 70 * rk.len(),
                rk.len() == n,
                n <= 4,
                p <= n,
                out matches Some(o) ==> o < n && rk[o as int].len() == 0,
                self.player_scores@.len() == n,
                forall|k: int|
                    0 <= k < n ==> #[trigger] self.player_scores@[k] as int == s0[k] - (if k < p {
                        sum_points(rk[k]) as int
                    } else {
                        0
                    }) + (if out == Some(k as usize) {
                        racks_points(rk.take(p as int)) as int
                    } else {
                        0
                    }),
                self.board == old(self).board,
                self.turn == old(self).turn,
                self.bag == old(self).bag,
                self.dictionary == old(self).dictionary,
                self.winner == old(self).winner,
                self.total_players == old(self).total_players,
                self.scoreless_turn_counter == old(self).scoreless_turn_counter,
            decreases n - p,
        {
            assert(rk[p as int] == self.bag.players_tiles@[p as int]@);
            proof {
                lemma_sum_points_bound(rk[p as int]);
                assert(rk.take(p + 1).drop_last() =~= rk.take(p as int));
                assert(rk.take(p + 1).last() == rk[p as int]);
                assert forall|k: int| 0 <= k < rk.take(p + 1).len() implies (#[trigger] rk.take(p + 1)[k]).len() <= 7 by {
                    assert(rk.take(p + 1)[k] == rk[k]);
                }
                lemma_racks_points_bound(rk.take(p + 1));
            }
            let ghost rack = self.bag.players_tiles@[p as int]@;
            proof {
                self.lemma_rack_tiles(p as int);
                assert forall|i: int| 0 <= i < rack.len() implies #[trigger] rack[i] <= 'Z' by {
                    assert(is_tile_char(self.rack_of(p as int)[i]));
                }
            }
            let rem = sum_letter_scores(&self.bag.players_tiles[p]);
            let ghost before = self.player_scores@;
            let cur = self.player_scores[p];
            self.player_scores.set(p, cur - rem as i32);
            match out {
                Some(o) => {
                    let v = self.player_scores[o];
                    self.player_scores.set(o, v + rem as i32);
                },
                None => {},
            }
            p = p + 1;
        }
        assert(rk.take(n as int) =~= rk);
        let ghost fin = final_scores(s0, rk);
        assert(scores_int(self.player_scores@) =~= fin) by {
            assert forall|k: int| 0 <= k < n implies #[trigger] scores_int(self.player_scores@)[k] == fin[k] by {
                if rk[k].len() == 0 {
                    assert(out == Some(k as usize)) by {
                        if out is None {
                        } else {
                            let o = out->0;
                            if o != k {
                                assert(rk[o as int].len() == 0);
                            }
                        }
                    }
                } else {
                    assert(out != Some(k as usize));
                }
            }
        }
        // The winner: the first player with the highest score.
        let mut best: usize = 0;
        let mut q: usize = 1;
        while q < n
            invariant
                1 <= q <= n,
                n == self.total_players,
                self.player_scores@.len() == n,
                best == leader(scores_int(self.player_scores@), q as nat),
                best < q,
            decreases n - q,
        {
            if self.player_scores[q] > self.player_scores[best] {
                best = q;
            }
            q = q + 1;
        }
        self.winner = Some(best);
    }

    /// Ends the game once six turns in a row went by without a move.
    fn scoreless_turn_endgame_check(&mut self)
        requires
            old(self).wf_base(),
            old(self).total_players > 0,
            old(self).scoreless_turn_counter >= 6 ==> at_most_one_empty(old(self).racks()) && scores_bounded(
                old(self).player_scores@,
            ),
        ensures
            old(self).scoreless_turn_counter < 6 ==> *final(self) == *old(self),
            old(self).scoreless_turn_counter >= 6 ==> final(self).wf() && final(self).ended_with(old(self).spec_scores(), old(self).racks()),
            final(self).board == old(self).board,
            final(self).turn == old(self).turn,
            final(self).bag == old(self).bag,
            final(self).dictionary == old(self).dictionary,
            final(self).total_players == old(self).total_players,
            final(self).scoreless_turn_counter == old(self).scoreless_turn_counter,
    {
        if self.scoreless_turn_counter < 6 {
            return;
        }
        self.end_game();
    }
}

/// The scores after player `t` scores `points` (as `i32`).
pub open spec fn scored(s: Seq<i32>, t: int, points: u32) -> Seq<i32> {
    s.update(t, (s[t] + (points as i32)) as i32)
}

impl ScrabbleGame {
    /// The current player may pass: there is one, and should this pass end
    /// the game, the scores leave room for the end-of-game adjustments.
    pub open spec fn may_pass(&self) -> bool {
        &&& self.spec_total_players() > 0
        &&& self.spec_scoreless_turns() == 5 ==> scores_bounded(self.spec_scores())
    }

    /// The move of `tiles` takes the last tiles of the rack while the bag is
    /// empty, which ends the game.
    pub open spec fn move_ends_game(&self, tiles: Seq<TilePlacement>) -> bool {
        let t = self.spec_turn() as int;
        &&& after_placing(self.rack_of(t).to_multiset(), placement_chars(tiles))->0.len() == 0
        &&& self.spec_bag().tiles@.len() == 0
    }

    /// The current player may play `tiles` for `score` points: the tiles lie
    /// on the board, the rack can supply them, the new score fits in `i32`,
    /// and when the move ends the game the scores leave room for the
    /// end-of-game adjustments.
    pub open spec fn may_move(&self, tiles: Seq<TilePlacement>, score: u32) -> bool {
        let t = self.spec_turn() as int;
        &&& self.spec_total_players() > 0
        &&& forall|i: int| 0 <= i < tiles.len() ==> (#[trigger] tiles[i]).coords.0 < 15 && tiles[i].coords.1 < 15
        &&& after_placing(self.rack_of(t).to_multiset(), placement_chars(tiles)) is Some
        &&& i32::MIN <= self.spec_scores()[t] + (score as i32) <= i32::MAX
        &&& self.move_ends_game(tiles) ==> scores_bounded(scored(self.spec_scores(), t, score))
    }

    /// The current player may exchange `tiles`: the bag holds seven tiles or
    /// more, the tiles are on the rack, the exchange count can grow, and the
    /// scores leave room should the game end.
    pub open spec fn may_exchange(&self, tiles: Seq<char>) -> bool {
        let t = self.spec_turn() as int;
        &&& self.spec_total_players() > 0
        &&& self.spec_bag().tiles@.len() >= 7
        &&& tiles.to_multiset().subset_of(self.rack_of(t).to_multiset())
        &&& self.spec_bag().exchange_count < u64::MAX
        &&& self.spec_scoreless_turns() == 5 ==> scores_bounded(self.spec_scores())
    }

    /// `self` is `prev` after the current player passed.
    pub open spec fn after_pass(&self, prev: &Self) -> bool {
        &&& self.spec_scoreless_turns() == prev.spec_scoreless_turns() + 1
        &&& self.spec_turn() == (prev.spec_turn() + 1) % prev.spec_total_players()
        &&& self.grid() == prev.grid()
        &&& self.spec_bag() == prev.spec_bag()
        &&& self.spec_dictionary() == prev.spec_dictionary()
        &&& self.spec_total_players() == prev.spec_total_players()
        &&& if prev.spec_scoreless_turns() + 1 >= 6 {
            self.ended_with(prev.spec_scores(), prev.racks())
        } else {
            &&& self.spec_scores() == prev.spec_scores()
            &&& self.spec_winner() is None
        }
    }

    /// `self` is `prev` after the current player played `tiles` for `score`.
    pub open spec fn after_move(&self, prev: &Self, tiles: Seq<TilePlacement>, score: u32) -> bool {
        let t = prev.spec_turn() as int;
        let m = after_placing(prev.rack_of(t).to_multiset(), placement_chars(tiles))->0;
        let bag = prev.spec_bag().tiles@;
        let n = draw_count(m.len() as int, bag.len() as int);
        let s1 = scored(prev.spec_scores(), t, score);
        &&& self.grid() == apply_tiles(prev.grid(), tiles)
        &&& self.spec_scoreless_turns() == 0
        &&& self.spec_bag().all_tiles().len() + tiles.len() == prev.spec_bag().all_tiles().len()
        &&& self.spec_bag().tiles@ == bag.take(bag.len() - n)
        &&& self.rack_of(t).to_multiset() == m.add(bag.subrange(bag.len() - n, bag.len() as int).to_multiset())
        &&& forall|q: int|
            0 <= q < prev.spec_total_players() && q != t ==> #[trigger] self.rack_of(q) == prev.rack_of(q)
        &&& self.spec_bag().seed == prev.spec_bag().seed
        &&& self.spec_bag().exchange_count == prev.spec_bag().exchange_count
        &&& self.spec_dictionary() == prev.spec_dictionary()
        &&& self.spec_total_players() == prev.spec_total_players()
        &&& if self.rack_of(t).len() == 0 {
            &&& self.ended_with(s1, self.racks())
            &&& self.spec_turn() == t
        } else {
            &&& self.spec_scores() == s1
            &&& self.spec_winner() is None
            &&& self.spec_turn() == (t + 1) % (prev.spec_total_players() as int)
        }
    }

    /// `self` is `prev` after the current player exchanged `tiles`.
    pub open spec fn after_exchange(&self, prev: &Self, tiles: Seq<char>) -> bool {
        let t = prev.spec_turn() as int;
        let m = prev.rack_of(t).to_multiset().sub(tiles.to_multiset());
        &&& exists|b: Seq<char>|
            crate::tile_bag::refilled_from(
                prev.spec_bag().tiles@ + tiles,
                m,
                b,
                self.spec_bag().tiles@,
                self.rack_of(t).to_multiset(),
            )
        &&& forall|q: int|
            0 <= q < prev.spec_total_players() && q != t ==> #[trigger] self.rack_of(q) == prev.rack_of(q)
        &&& self.spec_bag().seed == prev.spec_bag().seed
        &&& self.spec_bag().exchange_count == prev.spec_bag().exchange_count + 1
        &&& self.spec_bag().all_tiles() == prev.spec_bag().all_tiles()
        &&& self.grid() == prev.grid()
        &&& self.spec_dictionary() == prev.spec_dictionary()
        &&& self.spec_total_players() == prev.spec_total_players()
        &&& self.spec_scoreless_turns() == prev.spec_scoreless_turns() + 1
        &&& self.spec_turn() == (t + 1) % (prev.spec_total_players() as int)
        &&& if prev.spec_scoreless_turns() + 1 >= 6 {
            self.ended_with(prev.spec_scores(), self.racks())
        } else {
            &&& self.spec_scores() == prev.spec_scores()
            &&& self.spec_winner() is None
        }
    }
}

impl ScrabbleGame {
    /// Passes: one more scoreless turn, which ends the game when it is the
    /// sixth in a row, then the next player's turn. Once there is a winner,
    /// nothing changes.
    pub fn pass(&mut self)
        requires
            old(self).wf(),
            old(self).spec_winner() is None ==> old(self).may_pass(),
        ensures
            final(self).wf(),
            old(self).spec_winner() is Some ==> *final(self) == *old(self),
            old(self).spec_winner() is None ==> final(self).after_pass(old(self)),
    {
        if self.winner.is_some() {
            return;
        }
        proof {
            assert forall|p: int, q: int|
                0 <= p < self.racks().len() && 0 <= q < self.racks().len() && p != q && #[trigger] self.racks()[p].len()
                    == 0 implies #[trigger] self.racks()[q].len() > 0 by {
                assert(self.racks()[p] == self.bag.players_tiles@[p]@);
                assert(self.bag.players_tiles@[p]@.len() > 0);
            }
        }
        self.scoreless_turn_counter = self.scoreless_turn_counter + 1;
        self.scoreless_turn_endgame_check();
        self.advance_turn();
    }

    /// Plays a move: puts its tiles on the board, adds its score to the
    /// player's, takes the tiles from the rack and refills it from the bag.
    /// A player left without tiles ends the game; otherwise the next player
    /// has the turn. Once there is a winner, nothing changes.
    pub fn make_turn(&mut self, turn: PossibleMove)
        requires
            old(self).wf(),
            old(self).spec_winner() is None ==> old(self).may_move(turn.tiles@, turn.score),
        ensures
            final(self).wf(),
            old(self).spec_winner() is Some ==> *final(self) == *old(self),
            old(self).spec_winner() is None ==> final(self).after_move(old(self), turn.tiles@, turn.score),
    {
        broadcast use vstd::multiset::group_multiset_axioms;

        if self.winner.is_some() {
            return;
        }
        let t = self.turn;
        let ghost rack0 = self.bag.players_tiles@[t as int]@;
        let ghost all0 = self.bag.all_tiles();
        let ghost m = after_placing(rack0.to_multiset(), placement_chars(turn.tiles@))->0;
        proof {
            lemma_after_placing_len(rack0.to_multiset(), placement_chars(turn.tiles@));
        }
        self.scoreless_turn_counter = 0;
        self.place_tiles(&turn.tiles);
        let cur = self.player_scores[t];
        self.player_scores.set(t, cur + turn.score as i32);
        self.bag.remove_and_replenish(t, &turn.tiles);
        proof {
            let fin = self.bag.all_tiles();
            assert forall|v: char| #[trigger] fin.count(v) <= all0.count(v) by {
                assert(fin.add(rack0.to_multiset()).count(v) == all0.add(m).count(v));
                assert(m.count(v) <= rack0.to_multiset().count(v));
            }
            assert forall|c: char| #[trigger] fin.count(c) > 0 implies is_tile_char(c) by {
                assert(all0.count(c) > 0);
            }
            assert(fin.add(rack0.to_multiset()).len() == all0.add(m).len());
            assert(rack0.to_multiset().len() == rack0.len());
            assert(placement_chars(turn.tiles@).len() == turn.tiles@.len());
            let r = self.bag.players_tiles@[t as int]@;
            assert(r.to_multiset().len() == r.len());
            assert forall|p: int| 0 <= p < self.total_players implies (#[trigger] self.bag.players_tiles@[p])@.len() <= 7 by {
                if p != t {
                    assert(self.bag.players_tiles@[p] == old(self).bag.players_tiles@[p]);
                }
            }
            assert(self.wf_base());
        }
        if self.bag.players_tiles[t].len() == 0 {
            proof {
                assert forall|p: int, q: int|
                    0 <= p < self.racks().len() && 0 <= q < self.racks().len() && p != q && #[trigger] self.racks()[p].len()
                        == 0 implies #[trigger] self.racks()[q].len() > 0 by {
                    assert(self.racks()[p] == self.bag.players_tiles@[p]@);
                    assert(self.racks()[q] == self.bag.players_tiles@[q]@);
                    if p != t {
                        assert(self.bag.players_tiles@[p] == old(self).bag.players_tiles@[p]);
                    } else {
                        assert(self.bag.players_tiles@[q] == old(self).bag.players_tiles@[q]);
                    }
                }
            }
            // The game is over.
            self.end_game();
            return;
        }
        proof {
            assert forall|p: int| 0 <= p < self.total_players implies (#[trigger] self.bag.players_tiles@[p])@.len() > 0 by {
                if p != t {
                    assert(self.bag.players_tiles@[p] == old(self).bag.players_tiles@[p]);
                }
            }
        }
        self.advance_turn();
    }

    /// Puts `tiles` from the current rack back into the bag, reshuffles it,
    /// refills the rack, and counts a scoreless turn (the sixth in a row ends
    /// the game) before the next player's turn. Once there is a winner,
    /// nothing changes.
    pub fn exchange(&mut self, tiles: String)
        requires
            old(self).wf(),
            old(self).spec_winner() is None ==> old(self).may_exchange(tiles@),
        ensures
            final(self).wf(),
            old(self).spec_winner() is Some ==> *final(self) == *old(self),
            old(self).spec_winner() is None ==> final(self).after_exchange(old(self), tiles@),
    {
        broadcast use vstd::multiset::group_multiset_axioms;

        if self.winner.is_some() {
            return;
        }
        assert(self.bag.tiles@.len() >= 7);
        let t = self.turn;
        let ghost rack0 = self.bag.players_tiles@[t as int]@;
        let ghost bag0 = self.bag.tiles@;
        proof {
            assert(tiles@.to_multiset().len() == tiles@.len());
            assert(rack0.to_multiset().len() == rack0.len());
            assert(tiles@.len() <= rack0.len()) by {
                assert(tiles@.to_multiset().subset_of(rack0.to_multiset()));
                assert(rack0.to_multiset().sub(tiles@.to_multiset()).len() == rack0.to_multiset().len() - tiles@.to_multiset().len());
            }
        }
        let ghost tv = tiles@;
        let ghost m = rack0.to_multiset().sub(tv.to_multiset());
        self.bag.exchange(t, tiles);
        let ghost b = choose|b: Seq<char>|
            crate::tile_bag::refilled_from(bag0 + tv, m, b, self.bag.tiles@, self.bag.players_tiles@[t as int]@.to_multiset());
        let ghost bag1 = self.bag;
        proof {
            assert forall|p: int| 0 <= p < self.total_players implies (#[trigger] self.bag.players_tiles@[p])@.len() <= 7
                && self.bag.players_tiles@[p]@.len() > 0 by {
                if p != t {
                    assert(self.bag.players_tiles@[p] == old(self).bag.players_tiles@[p]);
                }
            }
            assert forall|p: int, q: int|
                0 <= p < self.racks().len() && 0 <= q < self.racks().len() && p != q && #[trigger] self.racks()[p].len()
                    == 0 implies #[trigger] self.racks()[q].len() > 0 by {
                assert(self.racks()[p] == self.bag.players_tiles@[p]@);
            }
        }
        self.scoreless_turn_counter = self.scoreless_turn_counter + 1;
        self.scoreless_turn_endgame_check();
        self.advance_turn();
        assert(self.bag == bag1);
        assert(crate::tile_bag::refilled_from(bag0 + tv, m, b, self.spec_bag().tiles@, self.rack_of(t as int).to_multiset()));
    }
}

/// Why saved data cannot be restored.
#[derive(Clone, Copy, Debug, PartialEq, Eq)]
pub enum SnapshotError {
    /// The number of players is not between one and four.
    PlayerCount,
    /// The board is not fifteen rows of fifteen squares.
    BoardDimensions,
}

/// Fifteen rows of fifteen squares each.
pub open spec fn rows_fit(rows: Seq<Seq<char>>) -> bool {
    rows.len() == 15 && forall|r: int| 0 <= r < 15 ==> (#[trigger] rows[r]).len() == 15
}

/// The board read from fifteen rows.
pub open spec fn rows_grid(rows: Seq<Seq<char>>) -> Seq<char> {
    Seq::new(225, |idx: int| rows[idx / 15][idx % 15])
}

/// Saved parts that make a game in play: the turn, racks and scores belong
/// to the players, every rack holds at most seven tiles, the tiles in play
/// are letters and blanks, the winner is a player, while nobody has won
/// every rack holds a tile, and the count of scoreless turns is below the
/// six that end the game while nobody has won.
pub open spec fn snapshot_consistent(
    turn: usize,
    bag: TileBag,
    scores: Seq<i32>,
    winner: Option<usize>,
    scoreless_turns: u32,
    total_players: usize,
) -> bool {
    &&& turn < total_players
    &&& bag.players_tiles@.len() == total_players
    &&& scores.len() == total_players
    &&& forall|p: int| 0 <= p < total_players ==> (#[trigger] bag.players_tiles@[p])@.len() <= 7
    &&& tile_chars_only(bag.all_tiles())
    &&& (winner matches Some(w) ==> w < total_players)
    &&& (winner is None ==> forall|p: int| 0 <= p < total_players ==> (#[trigger] bag.players_tiles@[p])@.len() > 0)
    &&& scoreless_turns <= 6
    &&& (winner is None ==> scoreless_turns < 6)
}

/// Whether every character of `v` is a letter or a blank.
fn all_tile_chars(v: &Vec<char>) -> (res: bool)
    ensures
        res == forall|i: int| 0 <= i < v@.len() ==> is_tile_char(#[trigger] v@[i]),
{
    let mut k: usize = 0;
    while k < v.len()
        invariant
            k <= v@.len(),
            forall|i: int| 0 <= i < k ==> is_tile_char(#[trigger] v@[i]),
        decreases v@.len() - k,
    {
        let ch = v[k];
        if ch != WILD && !('A' <= ch && ch <= 'Z') {
            return false;
        }
        k = k + 1;
    }
    true
}

fn append_chars(dst: &mut Vec<char>, src: &Vec<char>)
    ensures
        final(dst)@ == old(dst)@ + src@,
{
    let mut i: usize = 0;
    while i < src.len()
        invariant
            i <= src@.len(),
            dst@ == old(dst)@ + src@.take(i as int),
        decreases src@.len() - i,
    {
        dst.push(src[i]);
        i = i + 1;
        assert(dst@ =~= old(dst)@ + src@.take(i as int));
    }
    assert(src@.take(i as int) =~= src@);
}

impl ScrabbleGame {
    /// Puts the squares of fifteen rows of fifteen on the board.
    fn load_rows(&mut self, rows: &Vec<Vec<char>>)
        requires
            old(self).wf(),
            rows_fit(rows@.map_values(|r: Vec<char>| r@)),
        ensures
            final(self).wf(),
            final(self).grid() == rows_grid(rows@.map_values(|r: Vec<char>| r@)),
            final(self).turn == old(self).turn,
            final(self).bag == old(self).bag,
            final(self).dictionary == old(self).dictionary,
            final(self).player_scores == old(self).player_scores,
            final(self).winner == old(self).winner,
            final(self).total_players == old(self).total_players,
            final(self).scoreless_turn_counter == old(self).scoreless_turn_counter,
    {
        let ghost rv = rows@.map_values(|r: Vec<char>| r@);
        let mut row: usize = 0;
        while row < 15
            invariant
                self.wf(),
                self.board@.len() == 225,
                rv == rows@.map_values(|r: Vec<char>| r@),
                rows_fit(rv),
                row <= 15,
                forall|idx: int|
                    0 <= idx < 225 && idx / 15 < row ==> #[trigger] self.board@[idx] == rows_grid(rv)[idx],
                self.turn == old(self).turn,
                self.bag == old(self).bag,
                self.dictionary == old(self).dictionary,
                self.player_scores == old(self).player_scores,
                self.winner == old(self).winner,
                self.total_players == old(self).total_players,
                self.scoreless_turn_counter == old(self).scoreless_turn_counter,
            decreases 15 - row,
        {
            let line = &rows[row];
            assert(rv[row as int] == line@);
            let mut col: usize = 0;
            while col < 15
                invariant
                    self.wf(),
                    self.board@.len() == 225,
                    rv == rows@.map_values(|r: Vec<char>| r@),
                    rows_fit(rv),
                    row < 15,
                    rv[row as int] == line@,
                    col <= 15,
                    forall|idx: int|
                        0 <= idx < 225 && (idx / 15 < row || (idx / 15 == row && idx % 15 < col)) ==> #[trigger] self.board@[idx]
                            == rows_grid(rv)[idx],
                    self.turn == old(self).turn,
                    self.bag == old(self).bag,
                    self.dictionary == old(self).dictionary,
                    self.player_scores == old(self).player_scores,
                    self.winner == old(self).winner,
                    self.total_players == old(self).total_players,
                    self.scoreless_turn_counter == old(self).scoreless_turn_counter,
                decreases 15 - col,
            {
                self.board.set((row, col), line[col]);
                assert forall|idx: int|
                    0 <= idx < 225 && (idx / 15 < row || (idx / 15 == row && idx % 15 < col + 1)) implies #[trigger] self.board@[idx]
                        == rows_grid(rv)[idx] by {
                    if idx == row * 15 + col {
                        assert(idx / 15 == row && idx % 15 == col);
                    }
                }
                col = col + 1;
            }
            row = row + 1;
        }
        assert(self.board@ =~= rows_grid(rv));
    }

    /// A game restored from saved parts: the player to move, the bag and
    /// racks, the scores, the winner, the count of scoreless turns, the
    /// number of players, the board rows, and the valid words of `word_list`.
    /// Fails when the number of players is not between one and four or when
    /// the board is not fifteen rows of fifteen squares; otherwise the parts
    /// are restored as given. The game is in play (`wf`) exactly when the
    /// parts fit together (`snapshot_consistent`); `in_play` tells.
    pub fn from_snapshot(
        turn: usize,
        bag: TileBag,
        player_scores: Vec<i32>,
        winner: Option<usize>,
        scoreless_turns: u32,
        total_players: usize,
        board_rows: Vec<String>,
        word_list: &str,
    ) -> (res: Result<ScrabbleGame, SnapshotError>)
        requires
            forall|i: int|
                0 <= i < word_list_words(word_list@).len() ==> is_letter_word(#[trigger] word_list_words(word_list@)[i]),
        ensures
            (total_players == 0 || total_players > 4) ==> res == Err::<ScrabbleGame, SnapshotError>(
                SnapshotError::PlayerCount,
            ),
            1 <= total_players <= 4 && !rows_fit(board_rows@.map_values(|r: String| r@)) ==> res == Err::<
                ScrabbleGame,
                SnapshotError,
            >(SnapshotError::BoardDimensions),
            1 <= total_players <= 4 && rows_fit(board_rows@.map_values(|r: String| r@)) ==> (res matches Ok(g)
                && g.wf_shape() && g.grid() == rows_grid(board_rows@.map_values(|r: String| r@)) && g.spec_turn() == turn
                && g.spec_bag() == bag && g.spec_scores() == player_scores@ && g.spec_winner() == winner
                && g.spec_total_players() == total_players && g.spec_scoreless_turns() == scoreless_turns
                && g.spec_dictionary() == word_list_words(word_list@) && (g.wf() <==> snapshot_consistent(
                turn,
                bag,
                player_scores@,
                winner,
                scoreless_turns,
                total_players,
            ))),
    {
        if total_players == 0 || total_players > 4 {
            return Err(SnapshotError::PlayerCount);
        }
        let ghost rv = board_rows@.map_values(|r: String| r@);
        if board_rows.len() != 15 {
            return Err(SnapshotError::BoardDimensions);
        }
        let mut rows: Vec<Vec<char>> = Vec::new();
        let mut r: usize = 0;
        while r < 15
            invariant
                1 <= total_players <= 4,
                board_rows@.len() == 15,
                rv == board_rows@.map_values(|r: String| r@),
                r <= 15,
                rows@.len() == r,
                forall|k: int| 0 <= k < r ==> (#[trigger] rows@[k])@ == rv[k] && rv[k].len() == 15,
            decreases 15 - r,
        {
            let cs = str_chars(board_rows[r].as_str());
            if cs.len() != 15 {
                assert(rv[r as int].len() != 15);
                return Err(SnapshotError::BoardDimensions);
            }
            rows.push(cs);
            r = r + 1;
        }
        assert(rows@.map_values(|r: Vec<char>| r@) =~= rv);
        assert(rows_fit(rv));
        let mut game = Self::new(total_players, 5, word_list);
        game.load_rows(&rows);
        game.turn = turn;
        game.bag = bag;
        game.player_scores = player_scores;
        game.winner = winner;
        game.scoreless_turn_counter = scoreless_turns;
        Ok(game)
    }

    /// Whether the game is in play (`wf`): its parts fit together.
    pub fn in_play(&self) -> (res: bool)
        requires
            self.wf_shape(),
            self.spec_total_players() > 0,
        ensures
            res == self.wf(),
    {
        parts_in_play(self.turn, &self.bag, &self.player_scores, self.winner, self.scoreless_turn_counter, self.total_players)
    }
}

/// Whether saved parts make a game in play (`snapshot_consistent`).
pub fn parts_in_play(
    turn: usize,
    bag: &TileBag,
    player_scores: &Vec<i32>,
    winner: Option<usize>,
    scoreless_turns: u32,
    total_players: usize,
) -> (res: bool)
    ensures
        res == snapshot_consistent(turn, *bag, player_scores@, winner, scoreless_turns, total_players),
{
    broadcast use vstd::multiset::group_multiset_axioms;

    // The turn, racks and scores belong to the players; the count of
    // scoreless turns is one of a game in play.
    if scoreless_turns > 6 || (winner.is_none() && scoreless_turns >= 6) {
        return false;
    }
    if turn >= total_players || bag.players_tiles.len() != total_players || player_scores.len() != total_players {
        return false;
    }
    match winner {
        Some(w) => {
            if w >= total_players {
                return false;
            }
        },
        None => {},
    }
    // Rack sizes, and every rack in play.
    let mut in_play: Vec<char> = Vec::new();
    append_chars(&mut in_play, &bag.tiles);
    let mut p: usize = 0;
    while p < total_players
        invariant
            bag.players_tiles@.len() == total_players,
            p <= total_players,
            forall|q: int| 0 <= q < p ==> (#[trigger] bag.players_tiles@[q])@.len() <= 7,
            winner is None ==> forall|q: int| 0 <= q < p ==> (#[trigger] bag.players_tiles@[q])@.len() > 0,
            in_play@.to_multiset() == bag.tiles@.to_multiset().add(racks_tiles(bag.players_tiles@.take(p as int))),
        decreases total_players - p,
    {
        let rack = &bag.players_tiles[p];
        if rack.len() > 7 {
            return false;
        }
        if winner.is_none() && rack.len() == 0 {
            return false;
        }
        let ghost before = in_play@;
        append_chars(&mut in_play, rack);
        proof {
            vstd::seq_lib::lemma_multiset_commutative(before, rack@);
            assert(bag.players_tiles@.take(p + 1).drop_last() =~= bag.players_tiles@.take(p as int));
            assert(bag.players_tiles@.take(p + 1).last() == bag.players_tiles@[p as int]);
            assert(in_play@.to_multiset() =~= bag.tiles@.to_multiset().add(
                racks_tiles(bag.players_tiles@.take(p + 1)),
            ));
        }
        p = p + 1;
    }
    assert(bag.players_tiles@.take(p as int) =~= bag.players_tiles@);
    // The tiles in play are letters and blanks.
    if !all_tile_chars(&in_play) {
        proof {
            let i = choose|i: int| 0 <= i < in_play@.len() && !is_tile_char(in_play@[i]);
            assert(in_play@.to_multiset().count(in_play@[i]) > 0);
            assert(bag.all_tiles().count(in_play@[i]) > 0);
        }
        return false;
    }
    proof {
        assert forall|c: char| #[trigger] bag.all_tiles().count(c) > 0 implies is_tile_char(c) by {
            assert(in_play@.to_multiset().count(c) > 0);
            assert(in_play@.contains(c));
        }
    }
    true
}

/// The rows of a board, fifteen characters each, as `board_rows` gives them.
pub open spec fn grid_rows(g: Seq<char>) -> Seq<Seq<char>> {
    Seq::new(15, |r: int| Seq::new(15, |c: int| cell(g, r, c)))
}

/// A game saved through its turn, bag, scores, winner, count of scoreless
/// turns, number of players and board rows is restored by `from_snapshot` as
/// a game in play (its parts fit together), and the rows give back the same
/// board; so the restored game has the board, turn, bag, scores, winner,
/// count of scoreless turns and players of the saved one.
pub proof fn lemma_saved_game_restores(g: ScrabbleGame)
    requires
        g.wf(),
        g.spec_total_players() > 0,
    ensures
        rows_fit(grid_rows(g.grid())),
        rows_grid(grid_rows(g.grid())) == g.grid(),
        snapshot_consistent(
            g.spec_turn() as usize,
            g.spec_bag(),
            g.spec_scores(),
            g.spec_winner(),
            g.spec_scoreless_turns() as u32,
            g.spec_total_players() as usize,
        ),
{
    let rows = grid_rows(g.grid());
    assert forall|idx: int| 0 <= idx < 225 implies #[trigger] rows_grid(rows)[idx] == g.grid()[idx] by {
        assert(idx == (idx / 15) * 15 + idx % 15);
    }
    assert(rows_grid(rows) =~= g.grid());
}

/// The number of squares of `g` that hold a tile.
pub open spec fn filled_squares(g: Seq<char>) -> nat
    decreases g.len(),
{
    if g.len() == 0 {
        0
    } else {
        filled_squares(g.drop_last()) + (if g.last() != EMPTY {
            1nat
        } else {
            0nat
        })
    }
}

/// The tiles of the game in play: in the bag, on the racks and on the board.
pub open spec fn tiles_in_game(game: &ScrabbleGame) -> nat {
    game.spec_bag().all_tiles().len() + filled_squares(game.grid())
}

proof fn lemma_filled_update(g: Seq<char>, i: int, t: char)
    requires
        0 <= i < g.len(),
    ensures
        filled_squares(g.update(i, t)) + (if g[i] != EMPTY {
            1int
        } else {
            0int
        }) == filled_squares(g) + (if t != EMPTY {
            1int
        } else {
            0int
        }),
    decreases g.len(),
{
    let u = g.update(i, t);
    if i == g.len() - 1 {
        assert(u.drop_last() =~= g.drop_last());
    } else {
        lemma_filled_update(g.drop_last(), i, t);
        assert(u.drop_last() =~= g.drop_last().update(i, t));
    }
}

proof fn lemma_apply_fresh(g: Seq<char>, tiles: Seq<TilePlacement>)
    requires
        g.len() == 225,
        fresh_tiles(g, tiles),
    ensures
        apply_tiles(g, tiles).len() == 225,
        filled_squares(apply_tiles(g, tiles)) == filled_squares(g) + tiles.len(),
        forall|idx: int|
            0 <= idx < 225 && (forall|j: int|
                0 <= j < tiles.len() ==> idx != #[trigger] tiles[j].coords.0 * 15 + tiles[j].coords.1) ==> #[trigger] apply_tiles(
                g,
                tiles,
            )[idx] == g[idx],
    decreases tiles.len(),
{
    if tiles.len() > 0 {
        let front = tiles.drop_last();
        let t = tiles.last();
        assert(t == tiles[tiles.len() - 1]);
        assert forall|i: int| 0 <= i < front.len() implies (#[trigger] front[i]).coords.0 < 15 && front[i].coords.1 < 15
            && cell(g, front[i].coords.0 as int, front[i].coords.1 as int) == EMPTY && front[i].tile != EMPTY by {
            assert(front[i] == tiles[i]);
        }
        assert forall|i: int, j: int| 0 <= i < j < front.len() implies (#[trigger] front[i]).coords != (
        #[trigger] front[j]).coords by {
            assert(front[i] == tiles[i] && front[j] == tiles[j]);
        }
        lemma_apply_fresh(g, front);
        let q = t.coords.0 * 15 + t.coords.1;
        let prev = apply_tiles(g, front);
        assert forall|j: int| 0 <= j < front.len() implies q != #[trigger] front[j].coords.0 * 15 + front[j].coords.1 by {
            assert(front[j] == tiles[j]);
            assert(tiles[j].coords != tiles[tiles.len() - 1].coords);
        }
        assert(prev[q] == g[q]);
        lemma_filled_update(prev, q, t.tile);
        assert forall|idx: int|
            0 <= idx < 225 && (forall|j: int|
                0 <= j < tiles.len() ==> idx != #[trigger] tiles[j].coords.0 * 15 + tiles[j].coords.1) implies #[trigger] apply_tiles(
            g,
            tiles,
        )[idx] == g[idx] by {
            assert forall|j: int| 0 <= j < front.len() implies idx != #[trigger] front[j].coords.0 * 15 + front[j].coords.1 by {
                assert(front[j] == tiles[j]);
                assert(idx != tiles[j].coords.0 * 15 + tiles[j].coords.1);
            }
            assert(idx != tiles[tiles.len() - 1].coords.0 * 15 + tiles[tiles.len() - 1].coords.1);
        }
    }
}

/// A new game has all hundred tiles in play, all in the bag and on the racks.
pub proof fn lemma_new_game_hundred(game: ScrabbleGame)
    requires
        game.grid() == empty_grid(),
        game.spec_bag().all_tiles() == initial_tiles().to_multiset(),
    ensures
        tiles_in_game(&game) == 100,
{
    lemma_initial_tiles_chars();
    assert(initial_tiles().to_multiset().len() == 100);
    lemma_filled_empty(225);
    assert(empty_grid() =~= Seq::new(225, |i: int| EMPTY));
}

proof fn lemma_filled_empty(n: nat)
    ensures
        filled_squares(Seq::new(n, |i: int| EMPTY)) == 0,
    decreases n,
{
    if n > 0 {
        lemma_filled_empty((n - 1) as nat);
        assert(Seq::new(n, |i: int| EMPTY).drop_last() =~= Seq::new((n - 1) as nat, |i: int| EMPTY));
    }
}

/// Turns keep the tiles of the game in play: a move that `get_moves` offers
/// (one of the moves of the current rack) moves tiles from a rack onto empty
/// squares of the board, and a pass or an exchange moves none out of play.
/// So from a new game, bag, racks and board always hold the hundred tiles.
pub proof fn lemma_turns_keep_tiles(prev: ScrabbleGame, next: ScrabbleGame, x: (Seq<TilePlacement>, nat), ex: Seq<char>)
    requires
        prev.wf(),
        prev.spec_winner() is None,
    ensures
        all_moves(prev.grid(), prev.spec_dictionary(), sorted_chars(prev.rack_of(prev.spec_turn() as int))).contains(x)
            && next.after_move(&prev, x.0, x.1 as u32) ==> tiles_in_game(&next) == tiles_in_game(&prev),
        next.after_pass(&prev) ==> tiles_in_game(&next) == tiles_in_game(&prev),
        next.after_exchange(&prev, ex) ==> tiles_in_game(&next) == tiles_in_game(&prev),
{
    let g = prev.grid();
    let d = prev.spec_dictionary();
    let rack = sorted_chars(prev.rack_of(prev.spec_turn() as int));
    prev.lemma_wf();
    prev.dictionary.lemma_letter_words();
    crate::rules::lemma_all_moves_fresh(g, d, rack);
    let all = all_moves(g, d, rack);
    if all.contains(x) && next.after_move(&prev, x.0, x.1 as u32) {
        let i = choose|i: int| 0 <= i < all.len() && all[i] == x;
        assert(fresh_tiles(g, all[i].0));
        lemma_apply_fresh(g, x.0);
    }
}

/// The rows of a board joined by newlines read back as those rows, fit the
/// board, and draw the same board again; so `parse_str` on the joined
/// `board_rows` of a game gives back its board, when no square holds a
/// newline or a carriage return.
pub proof fn lemma_rows_parse_back(g: Seq<char>)
    requires
        g.len() == 225,
        forall|i: int| 0 <= i < 225 ==> #[trigger] g[i] != '\n' && g[i] != '\r',
    ensures
        text_lines(crate::text::joined_lines(grid_rows(g))) == grid_rows(g),
        fits_board(grid_rows(g)),
        parsed_grid(grid_rows(g)) == g,
{
    let rows = grid_rows(g);
    assert forall|k: int, i: int| 0 <= k < rows.len() && 0 <= i < rows[k].len() implies #[trigger] rows[k][i] != '\n' by {
        assert(rows[k][i] == g[k * 15 + i]);
    }
    crate::text::lemma_joined_pieces(rows);
    let p = crate::text::newline_pieces(crate::text::joined_lines(rows));
    assert(p == rows);
    assert(p.last().len() == 15);
    assert forall|i: int| 0 <= i < 14 implies crate::text::strip_cr(#[trigger] p[i]) == rows[i] by {
        assert(rows[i][14] == g[i * 15 + 14]);
        assert(rows[i].last() == rows[i][14]);
    }
    assert(text_lines(crate::text::joined_lines(rows)) =~= rows);
    assert forall|idx: int| 0 <= idx < 225 implies #[trigger] parsed_grid(rows)[idx] == g[idx] by {
        assert(idx == (idx / 15) * 15 + idx % 15);
    }
    assert(parsed_grid(rows) =~= g);
}

/// `next` follows `prev` by one turn of a game in play: a move of the
/// current rack, a pass, or an exchange.
pub open spec fn turn_step(prev: ScrabbleGame, next: ScrabbleGame) -> bool {
    &&& prev.wf()
    &&& prev.spec_winner() is None
    &&& {
        ||| exists|x: (Seq<TilePlacement>, nat)|
            all_moves(prev.grid(), prev.spec_dictionary(), sorted_chars(prev.rack_of(prev.spec_turn() as int))).contains(x)
                && #[trigger] next.after_move(&prev, x.0, x.1 as u32)
        ||| next.after_pass(&prev)
        ||| exists|ex: Seq<char>| #[trigger] next.after_exchange(&prev, ex)
    }
}

/// Along any sequence of turns from a new game, bag, racks and board hold the
/// hundred tiles of the game.
pub proof fn lemma_play_keeps_hundred(games: Seq<ScrabbleGame>)
    requires
        games.len() >= 1,
        games[0].grid() == empty_grid(),
        games[0].spec_bag().all_tiles() == initial_tiles().to_multiset(),
        forall|i: int| 0 <= i < games.len() - 1 ==> turn_step(#[trigger] games[i], games[i + 1]),
    ensures
        forall|i: int| 0 <= i < games.len() ==> tiles_in_game(&#[trigger] games[i]) == 100,
    decreases games.len(),
{
    if games.len() == 1 {
        lemma_new_game_hundred(games[0]);
    } else {
        let front = games.drop_last();
        assert forall|i: int| 0 <= i < front.len() - 1 implies turn_step(#[trigger] front[i], front[i + 1]) by {
            assert(front[i] == games[i] && front[i + 1] == games[i + 1]);
            assert(turn_step(games[i], games[i + 1]));
        }
        lemma_play_keeps_hundred(front);
        let k = games.len() - 2;
        let prev = games[k];
        let next = games[k + 1];
        assert(turn_step(games[k], games[k + 1]));
        assert(front[k] == prev);
        assert(tiles_in_game(&prev) == 100);
        if exists|x: (Seq<TilePlacement>, nat)|
            all_moves(prev.grid(), prev.spec_dictionary(), sorted_chars(prev.rack_of(prev.spec_turn() as int))).contains(x)
                && #[trigger] next.after_move(&prev, x.0, x.1 as u32) {
            let x = choose|x: (Seq<TilePlacement>, nat)|
                all_moves(prev.grid(), prev.spec_dictionary(), sorted_chars(prev.rack_of(prev.spec_turn() as int))).contains(x)
                    && #[trigger] next.after_move(&prev, x.0, x.1 as u32);
            lemma_turns_keep_tiles(prev, next, x, seq![]);
        } else if next.after_pass(&prev) {
            lemma_turns_keep_tiles(prev, next, (seq![], 0), seq![]);
        } else {
            let ex = choose|ex: Seq<char>| #[trigger] next.after_exchange(&prev, ex);
            lemma_turns_keep_tiles(prev, next, (seq![], 0), ex);
        }
        assert forall|i: int| 0 <= i < games.len() implies tiles_in_game(&#[trigger] games[i]) == 100 by {
            if i < games.len() - 1 {
                assert(games[i] == front[i]);
            }
        }
    }
}

/// Putting letters on squares of the board keeps every square empty or a letter.
pub proof fn lemma_apply_tiles_letters(g: Seq<char>, tiles: Seq<TilePlacement>)
    requires
        g.len() == 225,
        board_letters(g),
        forall|i: int|
            0 <= i < tiles.len() ==> (#[trigger] tiles[i]).coords.0 < 15 && tiles[i].coords.1 < 15 && is_letter(tiles[i].tile),
    ensures
        apply_tiles(g, tiles).len() == 225,
        board_letters(apply_tiles(g, tiles)),
    decreases tiles.len(),
{
    if tiles.len() > 0 {
        lemma_apply_tiles_letters(g, tiles.drop_last());
        assert(tiles.last() == tiles[tiles.len() - 1]);
    }
}

} // verus!
