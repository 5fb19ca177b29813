//! A board with a word list of its own, for working out what tiles placed on
//! given squares score, and which words fit from a square.
use vstd::prelude::*;
use crate::board::{cell, empty_grid, rows_text};
use crate::common::{letter_factor, letter_points, letter_score, letter_multiplier, modifier_at, word_factor, word_multiplier, TilePlacement, EMPTY};
use crate::dictionary::{is_letter_word, word_list_words, Dictionary};
use crate::game::{fits_board, parsed_grid, place_word_grid};
use crate::movegen::{copy_segment, count_tiles_before};
use crate::rules::{
    lemma_range_factor_bound, lemma_sum_points_bound, line_cell, line_coords, line_factor, line_segment, range_factor,
    sum_points, tiles_before,
};
use crate::text::{push_char, split_lines, string_from_chars, text_lines};
use crate::common::{is_letter, PossibleMove};
use crate::rules::{
    board_letters, fixed_match, lemma_slot_indices, move_view, moves_view, placement_on_line, slot_indices,
    spot_pattern, spot_start,
};
use crate::movegen::{slots_of, spot_layout};
use crate::tile_bag::placement_chars;
use crate::utils::{chars_within, str_chars};

verus! {

/// The tile placed on square (r, c), if any.
pub open spec fn placed_at(ps: Seq<TilePlacement>, r: int, c: int) -> Option<char> {
    if exists|i: int| 0 <= i < ps.len() && ps[i].coords.0 == r && ps[i].coords.1 == c {
        Some(ps[choose|i: int| 0 <= i < ps.len() && ps[i].coords.0 == r && ps[i].coords.1 == c].tile)
    } else {
        None
    }
}

/// No two placements share a square.
pub open spec fn distinct_squares(ps: Seq<TilePlacement>) -> bool {
    forall|i: int, j: int| 0 <= i < ps.len() && 0 <= j < ps.len() && i != j ==> (#[trigger] ps[i]).coords != (#[trigger] ps[j]).coords
}

/// Smallest row of the placements.
pub open spec fn min_row(ps: Seq<TilePlacement>) -> int
    decreases ps.len(),
{
    if ps.len() <= 1 {
        ps[0].coords.0 as int
    } else {
        let m = min_row(ps.drop_last());
        if (ps.last().coords.0 as int) < m {
            ps.last().coords.0 as int
        } else {
            m
        }
    }
}

/// Smallest column of the placements.
pub open spec fn min_col(ps: Seq<TilePlacement>) -> int
    decreases ps.len(),
{
    if ps.len() <= 1 {
        ps[0].coords.1 as int
    } else {
        let m = min_col(ps.drop_last());
        if (ps.last().coords.1 as int) < m {
            ps.last().coords.1 as int
        } else {
            m
        }
    }
}

/// The placements span more than one row and more than one column.
pub open spec fn scattered(ps: Seq<TilePlacement>) -> bool {
    &&& exists|i: int, j: int| 0 <= i < ps.len() && 0 <= j < ps.len() && ps[i].coords.0 != ps[j].coords.0
    &&& exists|i: int, j: int| 0 <= i < ps.len() && 0 <= j < ps.len() && ps[i].coords.1 != ps[j].coords.1
}

/// Walk along line `l` (a row when `h`, else a column) from position `q` on,
/// `placed` of the placements already put down: a tile on the board is read
/// as it is, an empty square takes the placement on it while placements
/// remain; the walk stops at the edge, or at an empty square once no
/// placement remains (or none lies there). Gives the letters read, their
/// points (letter bonuses counted for new tiles), the product of the word
/// bonuses under new tiles, and whether a placement lies on an occupied square.
pub open spec fn score_walk(g: Seq<char>, ps: Seq<TilePlacement>, l: int, h: bool, q: int, placed: nat) -> (
    Seq<char>,
    nat,
    nat,
    bool,
)
    decreases 15 - q,
{
    if q >= 15 || q < 0 {
        (seq![], 0, 1, false)
    } else {
        let rc = line_coords(l, l, h, q);
        let ch = cell(g, rc.0, rc.1);
        let at = placed_at(ps, rc.0, rc.1);
        if ch != EMPTY {
            let rest = score_walk(g, ps, l, h, q + 1, placed);
            (seq![ch] + rest.0, letter_points(ch) + rest.1, rest.2, rest.3 || at is Some)
        } else if placed >= ps.len() || at is None {
            (seq![], 0, 1, false)
        } else {
            let t = at->0;
            let m = modifier_at(rc.0, rc.1);
            let rest = score_walk(g, ps, l, h, q + 1, placed + 1);
            (seq![t] + rest.0, letter_points(t) * letter_factor(m) + rest.1, word_factor(m) * rest.2, rest.3)
        }
    }
}

/// The walk never meets an empty square without a placement while
/// placements remain, up to the first placement on an occupied square.
pub open spec fn walk_defined(g: Seq<char>, ps: Seq<TilePlacement>, l: int, h: bool, q: int, placed: nat) -> bool
    decreases 15 - q,
{
    if q >= 15 || q < 0 {
        true
    } else {
        let rc = line_coords(l, l, h, q);
        let ch = cell(g, rc.0, rc.1);
        let at = placed_at(ps, rc.0, rc.1);
        if ch != EMPTY {
            at is Some || walk_defined(g, ps, l, h, q + 1, placed)
        } else if placed >= ps.len() {
            true
        } else if at is None {
            false
        } else {
            walk_defined(g, ps, l, h, q + 1, placed + 1)
        }
    }
}

/// The line the placements are read along, and where reading starts.
pub open spec fn score_line(ps: Seq<TilePlacement>, h: bool) -> (int, int) {
    if h {
        (min_row(ps), min_col(ps))
    } else {
        (min_col(ps), min_row(ps))
    }
}

/// The tiles on the board right before the start of the reading.
pub open spec fn score_prefix(g: Seq<char>, ps: Seq<TilePlacement>, h: bool) -> Seq<char> {
    let (l, a) = score_line(ps, h);
    let nb = tiles_before(g, l, l, h, a);
    line_segment(g, l, l, h, a - nb, nb)
}

/// The score of the word the placements form along the direction `h`,
/// without crossing words: `None` when they span several rows and several
/// columns, when one lies on an occupied square, or when the word (of two
/// letters or more, or formed by several placements) is not in `dict`; `0`
/// for a single placement that forms no word of two letters.
pub open spec fn line_score(g: Seq<char>, dict: Seq<Seq<char>>, ps: Seq<TilePlacement>, h: bool) -> Option<nat> {
    if scattered(ps) {
        None
    } else {
        let (l, a) = score_line(ps, h);
        let before = score_prefix(g, ps, h);
        let w = score_walk(g, ps, l, h, a, 0);
        let word = before + w.0;
        if w.3 {
            None
        } else if ps.len() == 1 && word.len() <= 1 {
            Some(0)
        } else if !dict.contains(word) {
            None
        } else {
            Some(((sum_points(before) + w.1) * w.2) as nat)
        }
    }
}

/// The sum of the crossing scores of the first `n` placements, each scored
/// alone along the other direction; `None` when one of them is `None`.
pub open spec fn cross_sum(g: Seq<char>, dict: Seq<Seq<char>>, ps: Seq<TilePlacement>, h: bool, n: int) -> Option<nat>
    decreases n,
{
    if n <= 0 {
        Some(0)
    } else {
        match cross_sum(g, dict, ps, h, n - 1) {
            None => None,
            Some(s) => match line_score(g, dict, seq![ps[n - 1]], !h) {
                None => None,
                Some(x) => Some(s + x),
            },
        }
    }
}

/// The score of the placements along `h`, with (when `recurse`) the
/// crossing word of each placement added.
pub open spec fn move_score(g: Seq<char>, dict: Seq<Seq<char>>, ps: Seq<TilePlacement>, h: bool, recurse: bool) -> Option<
    nat,
> {
    match line_score(g, dict, ps, h) {
        None => None,
        Some(s) => if recurse {
            match cross_sum(g, dict, ps, h, ps.len() as int) {
                None => None,
                Some(x) => Some(s + x),
            }
        } else {
            Some(s)
        },
    }
}

/// The placements can be scored along `h`: at least one, all on the board,
/// no two on one square, tiles and squares no further than `Z` in the
/// alphabet, and the walk along the line never needs a placement that is
/// not there.
pub open spec fn scorable(g: Seq<char>, ps: Seq<TilePlacement>, h: bool) -> bool {
    &&& ps.len() >= 1
    &&& forall|i: int| 0 <= i < ps.len() ==> (#[trigger] ps[i]).coords.0 < 15 && ps[i].coords.1 < 15 && ps[i].tile <= 'Z'
    &&& distinct_squares(ps)
    &&& forall|i: int| 0 <= i < g.len() ==> #[trigger] g[i] <= 'Z'
    &&& (!scattered(ps) ==> walk_defined(g, ps, score_line(ps, h).0, h, score_line(ps, h).1, 0))
}

/// A board with a word list of its own.
pub struct ScrabbleBoard {
    board: crate::board::ScrabbleBoard,
    pub valid_words: Dictionary,
}

impl ScrabbleBoard {
    /// The squares, row by row.
    pub closed spec fn grid(&self) -> Seq<char> {
        self.board@
    }

    /// The valid words.
    pub closed spec fn words(&self) -> Seq<Seq<char>> {
        self.valid_words@
    }

    /// The parts are well formed.
    pub closed spec fn wf(&self) -> bool {
        self.board.wf() && self.valid_words.wf()
    }

    /// An empty board with the words of `word_list`, one per line.
    pub fn new(word_list: &str) -> (res: Self)
        requires
            forall|i: int|
                0 <= i < word_list_words(word_list@).len() ==> is_letter_word(#[trigger] word_list_words(word_list@)[i]),
        ensures
            res.wf(),
            res.grid() == empty_grid(),
            res.words() == word_list_words(word_list@),
    {
        ScrabbleBoard { board: crate::board::ScrabbleBoard::new(), valid_words: Dictionary::from_word_list(word_list) }
    }

    /// A board drawn from `board_str`: line r, position c goes on square
    /// (r, c) unless it is a space.
    pub fn parse_str(board_str: &str, word_list: &str) -> (res: Self)
        requires
            forall|i: int|
                0 <= i < word_list_words(word_list@).len() ==> is_letter_word(#[trigger] word_list_words(word_list@)[i]),
            fits_board(text_lines(board_str@)),
        ensures
            res.wf(),
            res.grid() == parsed_grid(text_lines(board_str@)),
            res.words() == word_list_words(word_list@),
    {
        let mut board = Self::new(word_list);
        let lines = split_lines(board_str);
        let ghost ls = text_lines(board_str@);
        let mut row: usize = 0;
        while row < lines.len()
            invariant
                board.wf(),
                board.board@.len() == 225,
                lines@.map_values(|l: Vec<char>| l@) == ls,
                fits_board(ls),
                row <= lines@.len(),
                forall|idx: int|
                    0 <= idx < 225 ==> #[trigger] board.board@[idx] == (if idx / 15 < row && idx / 15 < ls.len()
                        && idx % 15 < ls[idx / 15].len() && ls[idx / 15][idx % 15] != EMPTY {
                        ls[idx / 15][idx % 15]
                    } else {
                        EMPTY
                    }),
                board.valid_words@ == word_list_words(word_list@),
            decreases lines@.len() - row,
        {
            let line = &lines[row];
            assert(ls[row as int] == line@);
            let mut col: usize = 0;
            while col < line.len()
                invariant
                    board.wf(),
                    board.board@.len() == 225,
                    lines@.map_values(|l: Vec<char>| l@) == ls,
                    fits_board(ls),
                    row < lines@.len(),
                    ls[row as int] == line@,
                    col <= line@.len(),
                    forall|idx: int|
                        0 <= idx < 225 ==> #[trigger] board.board@[idx] == (if (idx / 15 < row || (idx / 15 == row
                            && idx % 15 < col)) && idx / 15 < ls.len() && idx % 15 < ls[idx / 15].len()
                            && ls[idx / 15][idx % 15] != EMPTY {
                            ls[idx / 15][idx % 15]
                        } else {
                            EMPTY
                        }),
                    board.valid_words@ == word_list_words(word_list@),
                decreases line@.len() - col,
            {
                let ch = line[col];
                if ch != EMPTY {
                    assert(ls[row as int][col as int] == ch);
                    board.board.set((row, col), ch);
                    assert forall|idx: int| 0 <= idx < 225 implies #[trigger] board.board@[idx] == (if (idx / 15 < row || (
                    idx / 15 == row && idx % 15 < col + 1)) && idx / 15 < ls.len() && idx % 15 < ls[idx / 15].len()
                        && ls[idx / 15][idx % 15] != EMPTY {
                        ls[idx / 15][idx % 15]
                    } else {
                        EMPTY
                    }) by {
                        if idx == row * 15 + col {
                            assert(idx / 15 == row && idx % 15 == col);
                        }
                    }
                }
                col = col + 1;
            }
            row = row + 1;
        }
        assert(board.board@ =~= parsed_grid(ls));
        board
    }

    /// The rows of the board, one line each, as `{:?}` writes a row.
    pub fn dump(&self) -> (res: String)
        requires
            self.wf(),
        ensures
            res@ == rows_text(self.grid(), 15),
    {
        self.board.dump()
    }

    /// Writes the characters of `word` from (row, col) along the row
    /// (`horizontal`) or the column, whatever the squares held.
    pub fn place_word(&mut self, word: &str, row: usize, col: usize, horizontal: bool)
        requires
            old(self).wf(),
            horizontal ==> row < 15 && col + word@.len() <= 15,
            !horizontal ==> col < 15 && row + word@.len() <= 15,
        ensures
            final(self).wf(),
            final(self).grid() == place_word_grid(old(self).grid(), word@, row as int, col as int, horizontal),
            final(self).words() == old(self).words(),
    {
        let cs = crate::utils::str_chars(word);
        let ghost g0 = self.board@;
        let mut i: usize = 0;
        while i < cs.len()
            invariant
                self.board.wf(),
                self.valid_words == old(self).valid_words,
                g0.len() == 225,
                cs@ == word@,
                horizontal ==> row < 15 && col + word@.len() <= 15,
                !horizontal ==> col < 15 && row + word@.len() <= 15,
                i <= cs@.len(),
                self.board@ == place_word_grid(g0, cs@.take(i as int), row as int, col as int, horizontal),
            decreases cs@.len() - i,
        {
            let (r, c) = if horizontal {
                (row, col + i)
            } else {
                (row + i, col)
            };
            self.board.set((r, c), cs[i]);
            i = i + 1;
            proof {
                assert forall|idx: int| 0 <= idx < 225 implies #[trigger] self.board@[idx] == place_word_grid(
                    g0,
                    cs@.take(i as int),
                    row as int,
                    col as int,
                    horizontal,
                )[idx] by {
                    let rr = idx / 15;
                    let cc = idx % 15;
                    assert(idx == rr * 15 + cc);
                }
                assert(self.board@ =~= place_word_grid(g0, cs@.take(i as int), row as int, col as int, horizontal));
            }
        }
        assert(cs@.take(i as int) =~= word@);
    }
}

/// Index of the placement on square (r, c).
fn find_placement(ps: &Vec<TilePlacement>, r: usize, c: usize) -> (res: Option<usize>)
    requires
        distinct_squares(ps@),
    ensures
        match res {
            Some(i) => i < ps@.len() && ps@[i as int].coords == (r, c) && placed_at(ps@, r as int, c as int) == Some(
                ps@[i as int].tile,
            ),
            None => placed_at(ps@, r as int, c as int) is None,
        },
{
    let mut i: usize = 0;
    while i < ps.len()
        invariant
            i <= ps@.len(),
            distinct_squares(ps@),
            forall|k: int| 0 <= k < i ==> !(ps@[k].coords.0 == r && ps@[k].coords.1 == c),
        decreases ps@.len() - i,
    {
        let t = ps[i];
        if t.coords.0 == r && t.coords.1 == c {
            proof {
                assert(ps@[i as int].coords.0 == r && ps@[i as int].coords.1 == c);
                assert(ps@[i as int].coords == (r, c));
                let j = choose|j: int| 0 <= j < ps@.len() && ps@[j].coords.0 == r && ps@[j].coords.1 == c;
                if j != i {
                    assert(ps@[j].coords == ps@[i as int].coords);
                    assert(ps@[j].coords != ps@[i as int].coords);
                }
                assert(j == i);
            }
            return Some(i);
        }
        i = i + 1;
    }
    None
}

/// Smallest row, smallest column, and whether the placements span several
/// rows and several columns.
fn placements_layout(ps: &Vec<TilePlacement>) -> (res: (usize, usize, bool))
    requires
        ps@.len() >= 1,
    ensures
        res.0 == min_row(ps@),
        res.1 == min_col(ps@),
        res.2 == scattered(ps@),
{
    let first = ps[0];
    let mut mr = first.coords.0;
    let mut mc = first.coords.1;
    let mut rows_differ = false;
    let mut cols_differ = false;
    let mut i: usize = 1;
    assert(ps@.take(1).len() == 1);
    while i < ps.len()
        invariant
            1 <= i <= ps@.len(),
            first == ps@[0],
            mr == min_row(ps@.take(i as int)),
            mc == min_col(ps@.take(i as int)),
            rows_differ == exists|k: int| 0 <= k < i && ps@[k].coords.0 != first.coords.0,
            cols_differ == exists|k: int| 0 <= k < i && ps@[k].coords.1 != first.coords.1,
        decreases ps@.len() - i,
    {
        let t = ps[i];
        assert(ps@.take(i + 1).drop_last() =~= ps@.take(i as int));
        assert(ps@.take(i + 1).last() == t);
        if t.coords.0 < mr {
            mr = t.coords.0;
        }
        if t.coords.1 < mc {
            mc = t.coords.1;
        }
        if t.coords.0 != first.coords.0 {
            rows_differ = true;
        }
        if t.coords.1 != first.coords.1 {
            cols_differ = true;
        }
        i = i + 1;
    }
    assert(ps@.take(i as int) =~= ps@);
    proof {
        if scattered(ps@) {
            let (a, b) = choose|a: int, b: int| 0 <= a < ps@.len() && 0 <= b < ps@.len() && ps@[a].coords.0 != ps@[b].coords.0;
            if ps@[a].coords.0 == first.coords.0 {
                assert(ps@[b].coords.0 != first.coords.0);
            }
            let (c, d) = choose|c: int, d: int| 0 <= c < ps@.len() && 0 <= d < ps@.len() && ps@[c].coords.1 != ps@[d].coords.1;
            if ps@[c].coords.1 == first.coords.1 {
                assert(ps@[d].coords.1 != first.coords.1);
            }
        }
        if rows_differ && cols_differ {
            let k = choose|k: int| 0 <= k < i && ps@[k].coords.0 != first.coords.0;
            let m = choose|m: int| 0 <= m < i && ps@[m].coords.1 != first.coords.1;
            assert(ps@[k].coords.0 != ps@[0].coords.0);
            assert(ps@[m].coords.1 != ps@[0].coords.1);
        }
    }
    (mr, mc, rows_differ && cols_differ)
}

proof fn lemma_min_row_member(ps: Seq<TilePlacement>)
    requires
        ps.len() >= 1,
    ensures
        exists|i: int| 0 <= i < ps.len() && ps[i].coords.0 == min_row(ps),
        exists|i: int| 0 <= i < ps.len() && ps[i].coords.1 == min_col(ps),
    decreases ps.len(),
{
    if ps.len() > 1 {
        lemma_min_row_member(ps.drop_last());
        let i = choose|i: int| 0 <= i < ps.drop_last().len() && ps.drop_last()[i].coords.0 == min_row(ps.drop_last());
        let j = choose|j: int| 0 <= j < ps.drop_last().len() && ps.drop_last()[j].coords.1 == min_col(ps.drop_last());
        assert(ps[i] == ps.drop_last()[i]);
        assert(ps[j] == ps.drop_last()[j]);
        assert(ps[ps.len() - 1] == ps.last());
    } else {
        assert(ps[0].coords.0 == min_row(ps));
    }
}

/// Placements along one line, no two on one square, number at most fifteen.
proof fn lemma_line_count(ps: Seq<TilePlacement>)
    requires
        ps.len() >= 1,
        forall|i: int| 0 <= i < ps.len() ==> (#[trigger] ps[i]).coords.0 < 15 && ps[i].coords.1 < 15,
        distinct_squares(ps),
        !scattered(ps),
    ensures
        ps.len() <= 15,
{
    let same_row = forall|i: int| 0 <= i < ps.len() ==> (#[trigger] ps[i]).coords.0 == ps[0].coords.0;
    if !same_row {
        let k = choose|k: int| 0 <= k < ps.len() && (#[trigger] ps[k]).coords.0 != ps[0].coords.0;
        assert forall|i: int| 0 <= i < ps.len() implies (#[trigger] ps[i]).coords.1 == ps[0].coords.1 by {
            if ps[i].coords.1 != ps[0].coords.1 {
                assert(ps[k].coords.0 != ps[0].coords.0);
                assert(scattered(ps));
            }
        }
    }
    let s = ps.map_values(|p: TilePlacement| if same_row { p.coords.1 as int } else { p.coords.0 as int });
    assert forall|i: int, j: int| 0 <= i < s.len() && 0 <= j < s.len() && i != j implies s[i] != s[j] by {
        if s[i] == s[j] {
            assert(ps[i].coords == ps[j].coords);
        }
    }
    assert(s.no_duplicates());
    s.unique_seq_to_set();
    vstd::set_lib::lemma_int_range(0, 15);
    assert forall|x: int| s.to_set().contains(x) implies vstd::set_lib::set_int_range(0, 15).contains(x) by {
        let i = choose|i: int| 0 <= i < s.len() && s[i] == x;
    }
    vstd::set_lib::lemma_len_subset(s.to_set(), vstd::set_lib::set_int_range(0, 15));
}

/// Once every placement is down, the walk needs no more.
proof fn lemma_walk_done(g: Seq<char>, ps: Seq<TilePlacement>, l: int, h: bool, q: int, placed: nat)
    requires
        placed >= ps.len(),
    ensures
        walk_defined(g, ps, l, h, q, placed),
    decreases 15 - q,
{
    if 0 <= q < 15 {
        lemma_walk_done(g, ps, l, h, q + 1, placed);
    }
}

/// A single placement can always be scored along either direction.
proof fn lemma_single_scorable(g: Seq<char>, p: TilePlacement, h: bool)
    requires
        p.coords.0 < 15,
        p.coords.1 < 15,
        p.tile <= 'Z',
        forall|i: int| 0 <= i < g.len() ==> #[trigger] g[i] <= 'Z',
    ensures
        scorable(g, seq![p], h),
{
    let ps = seq![p];
    assert(!scattered(ps));
    let (l, a) = score_line(ps, h);
    assert(min_row(ps) == p.coords.0 && min_col(ps) == p.coords.1);
    let rc = line_coords(l, l, h, a);
    assert(rc == (p.coords.0 as int, p.coords.1 as int));
    assert(ps[0].coords.0 == rc.0 && ps[0].coords.1 == rc.1);
    assert(placed_at(ps, rc.0, rc.1) is Some);
    lemma_walk_done(g, ps, l, h, a + 1, 1);
}

/// Letters of the line `l` from position `a` up to position `q`, added up:
/// the walk from `a` is what was read so far followed by the walk from `q`.
pub open spec fn walk_split(
    g: Seq<char>,
    ps: Seq<TilePlacement>,
    l: int,
    h: bool,
    a: int,
    q: int,
    placed: nat,
    letters: Seq<char>,
    points: nat,
    factor: nat,
) -> bool {
    let w = score_walk(g, ps, l, h, a, 0);
    let rest = score_walk(g, ps, l, h, q, placed);
    &&& letters + rest.0 == w.0
    &&& points + rest.1 == w.1
    &&& factor * rest.2 == w.2
    &&& rest.3 == w.3
}

impl ScrabbleBoard {
    /// The score of `ps` along `h` without crossing words (`line_score`).
    #[verifier::rlimit(60)]
    #[verifier::spinoff_prover]
    fn line_score_exec(&self, ps: &Vec<TilePlacement>, h: bool) -> (res: Option<u32>)
        requires
            self.wf(),
            scorable(self.grid(), ps@, h),
        ensures
            match line_score(self.grid(), self.words(), ps@, h) {
                None => res is None,
                Some(x) => res == Some(x as u32) && x <= 20_000,
            },
    {
        let ghost g = self.grid();
        let (mr, mc, sc) = placements_layout(ps);
        if sc {
            return None;
        }
        let (l, a) = if h {
            (mr, mc)
        } else {
            (mc, mr)
        };
        proof {
            lemma_min_row_member(ps@);
            let i = choose|i: int| 0 <= i < ps@.len() && ps@[i].coords.0 == min_row(ps@);
            let j = choose|j: int| 0 <= j < ps@.len() && ps@[j].coords.1 == min_col(ps@);
            assert(ps@[i].coords.0 < 15 && ps@[j].coords.1 < 15);
            lemma_line_count(ps@);
        }
        let nb = count_tiles_before(&self.board, l, l, h, a);
        let before = copy_segment(&self.board, l, l, h, a - nb, nb);
        proof {
            assert forall|i: int| 0 <= i < before@.len() implies #[trigger] before@[i] <= 'Z' by {
                let rc = line_coords(l as int, l as int, h, a - nb + i);
                assert(before@[i] == line_cell(g, l as int, l as int, h, a - nb + i));
                assert(g[rc.0 * 15 + rc.1] == before@[i]);
            }
        }
        let pre_points = crate::movegen::sum_letter_scores(&before);
        let ghost w = score_walk(g, ps@, l as int, h, a as int, 0);
        let mut letters: Vec<char> = Vec::new();
        let mut points: u32 = 0;
        let mut mult: u32 = 1;
        let mut placed: usize = 0;
        let mut q: usize = a;
        let mut stop = false;
        proof {
            lemma_range_factor_bound(l as int, a as int, a as int);
        }
        while q < 15 && !stop
            invariant
                self.wf(),
                g == self.grid(),
                scorable(g, ps@, h),
                w == score_walk(g, ps@, l as int, h, a as int, 0),
                (l as int, a as int) == score_line(ps@, h),
                l < 15,
                a <= q <= 15,
                placed <= ps@.len(),
                ps@.len() <= 15,
                letters@.len() == q - a,
                points <= 30 * (q - a),
                1 <= mult <= range_factor(l as int, a as int, q as int),
                range_factor(l as int, a as int, q as int) <= 27,
                !stop ==> walk_split(g, ps@, l as int, h, a as int, q as int, placed as nat, letters@, points as nat, mult as nat),
                !stop ==> walk_defined(g, ps@, l as int, h, q as int, placed as nat),
                stop ==> letters@ == w.0 && points == w.1 && mult == w.2 && !w.3,
            decreases 15 - q + (if stop { 0int } else { 1int }),
        {
            let (r, c) = if h {
                (l, q)
            } else {
                (q, l)
            };
            let ch = self.board.get((r, c));
            let at = find_placement(ps, r, c);
            let ghost rest = score_walk(g, ps@, l as int, h, q as int, placed as nat);
            proof {
                assert(line_coords(l as int, l as int, h, q as int) == (r as int, c as int));
                crate::rules::lemma_line_factor(l as int, l as int, h, q as int);
                lemma_range_factor_bound(l as int, a as int, q as int + 1);
                assert(range_factor(l as int, a as int, q as int + 1) == range_factor(l as int, a as int, q as int)
                    * line_factor(l as int, q as int));
                assert(g[r * 15 + c] == ch);
            }
            if ch != EMPTY {
                if at.is_some() {
                    proof {
                        let rest1 = score_walk(g, ps@, l as int, h, q as int + 1, placed as nat);
                        assert(rest.3 == (rest1.3 || placed_at(ps@, r as int, c as int) is Some));
                        assert(rest.3);
                        assert(w.3);
                        assert(score_line(ps@, h) == (l as int, a as int));
                    }
                    return None;
                }
                let ghost rest1 = score_walk(g, ps@, l as int, h, q as int + 1, placed as nat);
                let ghost lb = letters@;
                letters.push(ch);
                points = points + letter_score(ch);
                proof {
                    assert(rest == (seq![ch] + rest1.0, letter_points(ch) + rest1.1, rest1.2, rest1.3));
                    assert(letters@ + rest1.0 =~= lb + (seq![ch] + rest1.0));
                    assert(mult <= range_factor(l as int, a as int, q as int + 1)) by (nonlinear_arith)
                        requires
                            mult <= range_factor(l as int, a as int, q as int),
                            range_factor(l as int, a as int, q as int + 1) == range_factor(l as int, a as int, q as int)
                                * line_factor(l as int, q as int),
                            line_factor(l as int, q as int) >= 1,
                    ;
                }
                q = q + 1;
                assert(walk_split(g, ps@, l as int, h, a as int, q as int, placed as nat, letters@, points as nat, mult as nat));
            } else if placed >= ps.len() {
                proof {
                    assert(rest == (Seq::<char>::empty(), 0nat, 1nat, false));
                    assert(letters@ + rest.0 =~= letters@);
                }
                stop = true;
            } else {
                match at {
                    None => {
                        proof {
                            assert(false);
                        }
                        stop = true;
                    },
                    Some(i) => {
                        let t = ps[i].tile;
                        let ghost rest1 = score_walk(g, ps@, l as int, h, q as int + 1, placed as nat + 1);
                        let lp = letter_score(t);
                        let lm = letter_multiplier(r, c);
                        let wm = word_multiplier(r, c);
                        assert(lp * lm <= 30) by (nonlinear_arith)
                            requires
                                lp <= 10,
                                lm <= 3,
                        ;
                        let ghost lb = letters@;
                        letters.push(t);
                        points = points + lp * lm;
                        proof {
                            assert(rest == (seq![t] + rest1.0, letter_points(t) * letter_factor(modifier_at(r as int, c as int))
                                + rest1.1, word_factor(modifier_at(r as int, c as int)) * rest1.2, rest1.3));
                            assert(letters@ + rest1.0 =~= lb + (seq![t] + rest1.0));
                            assert(mult * wm <= range_factor(l as int, a as int, q as int + 1)) by (nonlinear_arith)
                                requires
                                    mult <= range_factor(l as int, a as int, q as int),
                                    range_factor(l as int, a as int, q as int + 1) == range_factor(l as int, a as int, q as int)
                                        * line_factor(l as int, q as int),
                                    wm == line_factor(l as int, q as int),
                            ;
                            assert((mult * wm) * rest1.2 == mult * (wm * rest1.2)) by (nonlinear_arith);
                            assert(1 <= mult * wm) by (nonlinear_arith)
                                requires
                                    1 <= mult,
                                    1 <= wm,
                            ;
                        }
                        mult = mult * wm;
                        placed = placed + 1;
                        q = q + 1;
                        assert(walk_split(g, ps@, l as int, h, a as int, q as int, placed as nat, letters@, points as nat, mult as nat));
                    },
                }
            }
        }
        proof {
            if !stop {
                assert(score_walk(g, ps@, l as int, h, q as int, placed as nat) == (Seq::<char>::empty(), 0nat, 1nat, false));
                assert(letters@ + Seq::<char>::empty() =~= letters@);
            }
        }
        proof {
            assert(score_line(ps@, h) == (l as int, a as int));
            assert(before@ == score_prefix(g, ps@, h));
        }
        let ghost word = before@ + letters@;
        let mut all = before;
        let mut rest_letters = letters;
        all.append(&mut rest_letters);
        assert(all@ == word);
        if ps.len() == 1 && all.len() <= 1 {
            return Some(0);
        }
        if !self.valid_words.contains(&all) {
            return None;
        }
        proof {
            lemma_sum_points_bound(before@);
            crate::rules::lemma_tiles_before_bound(g, l as int, l as int, h, a as int);
            assert(pre_points + points <= 600);
            assert((pre_points + points) * mult <= 600 * 27) by (nonlinear_arith)
                requires
                    pre_points + points <= 600,
                    mult <= 27,
            ;
            assert(self.words().contains(word));
            assert(word == score_prefix(g, ps@, h) + w.0);
            assert(pre_points == sum_points(score_prefix(g, ps@, h)));
            let v = line_score(g, self.words(), ps@, h);
            assert(v is Some);
            assert(v->0 == ((pre_points + points) * mult) as nat);
        }
        Some((pre_points + points) * mult)
    }

    /// The score of placing `tile_placements` along the row (`horizontal`) or
    /// column: `None` when they span several rows and several columns, when
    /// one lies on an occupied square, or when a word they form is not valid;
    /// with `recurse`, the crossing word of each tile is scored and added.
    pub fn get_move_score(&self, tile_placements: &Vec<TilePlacement>, horizontal: bool, recurse: bool) -> (res: Option<u32>)
        requires
            self.wf(),
            scorable(self.grid(), tile_placements@, horizontal),
        ensures
            match move_score(self.grid(), self.words(), tile_placements@, horizontal, recurse) {
                None => res is None,
                Some(x) => res == Some(x as u32) && x <= 400_000,
            },
    {
        let ghost g = self.grid();
        let ghost d = self.words();
        let ghost ps = tile_placements@;
        let base = match self.line_score_exec(tile_placements, horizontal) {
            None => {
                return None;
            },
            Some(b) => b,
        };
        if !recurse {
            return Some(base);
        }
        proof {
            let (mr, mc, sc) = (min_row(ps), min_col(ps), scattered(ps));
            lemma_line_count(ps);
        }
        let mut total = base;
        let mut i: usize = 0;
        while i < tile_placements.len()
            invariant
                self.wf(),
                g == self.grid(),
                d == self.words(),
                ps == tile_placements@,
                recurse,
                scorable(g, ps, horizontal),
                ps.len() <= 15,
                i <= ps.len(),
                line_score(g, d, ps, horizontal) == Some(base as nat),
                base <= 20_000,
                cross_sum(g, d, ps, horizontal, i as int) == Some((total - base) as nat),
                base <= total <= 20_000 * (i + 1),
            decreases ps.len() - i,
        {
            let p = tile_placements[i];
            let single = vec![p];
            proof {
                lemma_single_scorable(g, p, !horizontal);
                assert(single@ =~= seq![p]);
                assert(ps[i as int] == p);
            }
            match self.line_score_exec(&single, !horizontal) {
                None => {
                    proof {
                        assert(cross_sum(g, d, ps, horizontal, i as int + 1) is None);
                        lemma_cross_sum_none(g, d, ps, horizontal, i as int + 1, ps.len() as int);
                    }
                    return None;
                },
                Some(x) => {
                    total = total + x;
                },
            }
            i = i + 1;
        }
        Some(total)
    }
}

proof fn lemma_cross_sum_none(g: Seq<char>, dict: Seq<Seq<char>>, ps: Seq<TilePlacement>, h: bool, k: int, n: int)
    requires
        k <= n,
        cross_sum(g, dict, ps, h, k) is None,
    ensures
        cross_sum(g, dict, ps, h, n) is None,
    decreases n - k,
{
    if k < n {
        lemma_cross_sum_none(g, dict, ps, h, k + 1, n);
    }
}

/// Whether no two placements share a square.
fn distinct_check(ps: &Vec<TilePlacement>) -> (res: bool)
    ensures
        res == distinct_squares(ps@),
{
    let mut i: usize = 0;
    while i < ps.len()
        invariant
            i <= ps@.len(),
            forall|a: int, b: int| 0 <= a < i && 0 <= b < ps@.len() && a != b ==> (#[trigger] ps@[a]).coords != (#[trigger] ps@[b]).coords,
        decreases ps@.len() - i,
    {
        let mut j: usize = 0;
        while j < ps.len()
            invariant
                i < ps@.len(),
                j <= ps@.len(),
                forall|a: int, b: int| 0 <= a < i && 0 <= b < ps@.len() && a != b ==> (#[trigger] ps@[a]).coords != (#[trigger] ps@[b]).coords,
                forall|b: int| 0 <= b < j && b != i ==> ps@[i as int].coords != (#[trigger] ps@[b]).coords,
            decreases ps@.len() - j,
        {
            if j != i && ps[i].coords.0 == ps[j].coords.0 && ps[i].coords.1 == ps[j].coords.1 {
                proof {
                    assert(ps@[i as int].coords == ps@[j as int].coords);
                    assert(!distinct_squares(ps@));
                }
                return false;
            }
            j = j + 1;
        }
        i = i + 1;
    }
    true
}

impl ScrabbleBoard {
    /// Whether `ps` can be scored along `h` (`scorable`).
    pub fn can_score(&self, ps: &Vec<TilePlacement>, h: bool) -> (res: bool)
        requires
            self.wf(),
        ensures
            res == scorable(self.grid(), ps@, h),
    {
        let ghost g = self.grid();
        if ps.len() == 0 {
            return false;
        }
        let mut i: usize = 0;
        while i < ps.len()
            invariant
                i <= ps@.len(),
                forall|k: int| 0 <= k < i ==> (#[trigger] ps@[k]).coords.0 < 15 && ps@[k].coords.1 < 15 && ps@[k].tile <= 'Z',
            decreases ps@.len() - i,
        {
            let t = ps[i];
            if !(t.coords.0 < 15 && t.coords.1 < 15 && t.tile <= 'Z') {
                return false;
            }
            i = i + 1;
        }
        if !distinct_check(ps) {
            return false;
        }
        let mut k: usize = 0;
        while k < 225
            invariant
                self.wf(),
                g == self.grid(),
                g.len() == 225,
                k <= 225,
                forall|m: int| 0 <= m < k ==> #[trigger] g[m] <= 'Z',
            decreases 225 - k,
        {
            let ch = self.board.get((k / 15, k % 15));
            assert(g[k as int] == ch);
            if ch > 'Z' {
                return false;
            }
            k = k + 1;
        }
        let (mr, mc, sc) = placements_layout(ps);
        if sc {
            return true;
        }
        let (l, a) = if h {
            (mr, mc)
        } else {
            (mc, mr)
        };
        proof {
            lemma_min_row_member(ps@);
            let i1 = choose|i: int| 0 <= i < ps@.len() && ps@[i].coords.0 == min_row(ps@);
            let j1 = choose|j: int| 0 <= j < ps@.len() && ps@[j].coords.1 == min_col(ps@);
            assert(ps@[i1].coords.0 < 15 && ps@[j1].coords.1 < 15);
        }
        let mut q: usize = a;
        let mut placed: usize = 0;
        assert(forall|m: int| 0 <= m < g.len() ==> #[trigger] g[m] <= 'Z');
        while q < 15
            invariant
                self.wf(),
                g == self.grid(),
                distinct_squares(ps@),
                l < 15,
                a <= q <= 15,
                placed <= ps@.len(),
                walk_defined(g, ps@, l as int, h, a as int, 0) == walk_defined(g, ps@, l as int, h, q as int, placed as nat),
                ps@.len() >= 1,
                forall|k: int| 0 <= k < ps@.len() ==> (#[trigger] ps@[k]).coords.0 < 15 && ps@[k].coords.1 < 15 && ps@[k].tile <= 'Z',
                forall|m: int| 0 <= m < g.len() ==> #[trigger] g[m] <= 'Z',
                !scattered(ps@),
                score_line(ps@, h) == (l as int, a as int),
            decreases 15 - q,
        {
            let (r, c) = if h {
                (l, q)
            } else {
                (q, l)
            };
            proof {
                assert(line_coords(l as int, l as int, h, q as int) == (r as int, c as int));
            }
            let ch = self.board.get((r, c));
            let at = find_placement(ps, r, c);
            if ch != EMPTY {
                if at.is_some() {
                    return true;
                }
                q = q + 1;
            } else if placed >= ps.len() {
                return true;
            } else if at.is_none() {
                return false;
            } else {
                placed = placed + 1;
                q = q + 1;
            }
        }
        true
    }
}

/// The body of the regular expression for `atoms`: `\w` for an empty
/// square, the letter itself for a tile.
pub open spec fn regex_body(atoms: Seq<char>) -> Seq<char>
    decreases atoms.len(),
{
    if atoms.len() == 0 {
        seq![]
    } else {
        regex_body(atoms.drop_last()) + (if atoms.last() == EMPTY {
            seq!['\\', 'w']
        } else {
            seq![atoms.last()]
        })
    }
}

/// The anchored regular expression for `atoms`.
pub open spec fn regex_text(atoms: Seq<char>) -> Seq<char> {
    seq!['^'] + regex_body(atoms) + seq!['$']
}

/// Atoms made of empty squares and capital letters.
pub open spec fn plain_atoms(atoms: Seq<char>) -> bool {
    forall|i: int| 0 <= i < atoms.len() ==> #[trigger] atoms[i] == EMPTY || is_letter(atoms[i])
}

/// Calls regex's `Regex::new(pattern)` and then `is_match(word)`. For a
/// pattern `^...$` of at most fifteen atoms, each `\w` or a capital letter,
/// which regex compiles within its default size limit, and a word of capital
/// letters, regex documents the match as: one character of the word per atom,
/// `\w` matching any letter and a letter only itself. That is what the
/// contract states.
#[verifier::external_body]
fn regex_full_match(pattern: &str, word: &str) -> (res: bool)
    requires
        exists|atoms: Seq<char>| plain_atoms(atoms) && atoms.len() <= 15 && pattern@ == regex_text(atoms),
        forall|i: int| 0 <= i < word@.len() ==> is_letter(#[trigger] word@[i]),
    ensures
        forall|atoms: Seq<char>| plain_atoms(atoms) && pattern@ == regex_text(atoms) ==> res == fixed_match(atoms, word@),
{
    regex::Regex::new(pattern).unwrap().is_match(word)
}

/// The regular expression for `atoms`.
fn regex_for(atoms: &Vec<char>) -> (res: String)
    ensures
        res@ == regex_text(atoms@),
{
    let mut s = String::new();
    push_char(&mut s, '^');
    let mut i: usize = 0;
    while i < atoms.len()
        invariant
            i <= atoms@.len(),
            s@ == seq!['^'] + regex_body(atoms@.take(i as int)),
        decreases atoms@.len() - i,
    {
        assert(atoms@.take(i + 1).drop_last() =~= atoms@.take(i as int));
        assert(atoms@.take(i + 1).last() == atoms@[i as int]);
        if atoms[i] == EMPTY {
            push_char(&mut s, '\\');
            push_char(&mut s, 'w');
        } else {
            push_char(&mut s, atoms[i]);
        }
        i = i + 1;
        assert(s@ =~= seq!['^'] + regex_body(atoms@.take(i as int)));
    }
    assert(atoms@.take(i as int) =~= atoms@);
    push_char(&mut s, '$');
    s
}

/// The atoms of the regular expression built from the empty square (r, c)
/// for `k` tiles: the run of tiles right before the square, then the squares
/// read from the square on while placing (a tile on the board as itself, a
/// square to fill as `EMPTY`).
pub open spec fn proto_atoms(g: Seq<char>, r: int, c: int, h: bool, k: nat) -> Seq<char> {
    spot_pattern(g, r, c, h, k)
}

/// The line position where the word starts, which is that of the first
/// atom: the first of the run of tiles right before the square, else the
/// square itself.
pub open spec fn proto_base(g: Seq<char>, r: int, c: int, h: bool) -> int {
    spot_start(g, r, c, h)
}

/// The tiles that word `w` puts on the empty squares of the atoms: letter `i`
/// of the word on atom `i`.
pub open spec fn proto_tiles(g: Seq<char>, r: int, c: int, h: bool, k: nat, w: Seq<char>) -> Seq<TilePlacement> {
    let atoms = proto_atoms(g, r, c, h, k);
    let b = proto_base(g, r, c, h);
    slot_indices(atoms).map_values(|i: int| placement_on_line(r, c, h, b + i, w[i]))
}

/// The move word `w` makes, when it matches the atoms, the rack holds its new
/// letters, and the tiles score.
pub open spec fn proto_candidate(
    g: Seq<char>,
    dict: Seq<Seq<char>>,
    rack: Seq<char>,
    r: int,
    c: int,
    h: bool,
    k: nat,
    w: Seq<char>,
) -> Option<Seq<TilePlacement>> {
    let tiles = proto_tiles(g, r, c, h, k, w);
    if !fixed_match(proto_atoms(g, r, c, h, k), w) {
        None
    } else if !placement_chars(tiles).to_multiset().subset_of(rack.to_multiset()) {
        None
    } else if !scorable(g, tiles, h) || move_score(g, dict, tiles, h, true) is None {
        None
    } else {
        Some(tiles)
    }
}

/// The moves of the candidate words, in order, each with score 0.
pub open spec fn proto_collect(
    g: Seq<char>,
    dict: Seq<Seq<char>>,
    rack: Seq<char>,
    r: int,
    c: int,
    h: bool,
    k: nat,
    cands: Seq<Seq<char>>,
) -> Seq<(Seq<TilePlacement>, nat)>
    decreases cands.len(),
{
    if cands.len() == 0 {
        seq![]
    } else {
        let rest = proto_collect(g, dict, rack, r, c, h, k, cands.drop_last());
        match proto_candidate(g, dict, rack, r, c, h, k, cands.last()) {
            Some(t) => rest.push((t, 0nat)),
            None => rest,
        }
    }
}

/// The moves from the empty square (r, c) placing `k` tiles: none when the
/// square holds a tile or `k` is zero, else one for each word of the atoms' length, in the
/// order of the word list, that matches, that the rack can supply, and whose
/// tiles score.
pub open spec fn proto_moves(g: Seq<char>, dict: Seq<Seq<char>>, rack: Seq<char>, r: int, c: int, h: bool, k: nat) -> Seq<
    (Seq<TilePlacement>, nat),
> {
    if cell(g, r, c) != EMPTY || k == 0 {
        seq![]
    } else {
        proto_collect(g, dict, rack, r, c, h, k, crate::dictionary::words_of_len(dict, proto_atoms(g, r, c, h, k).len()))
    }
}

/// The moves placing from one up to `n - 1` tiles, fewest first.
pub open spec fn proto_moves_upto(g: Seq<char>, dict: Seq<Seq<char>>, rack: Seq<char>, r: int, c: int, h: bool, n: nat) -> Seq<
    (Seq<TilePlacement>, nat),
>
    decreases n,
{
    if n <= 1 {
        seq![]
    } else {
        proto_moves_upto(g, dict, rack, r, c, h, (n - 1) as nat) + proto_moves(g, dict, rack, r, c, h, (n - 1) as nat)
    }
}

/// The placements that putting `w` on the board from (r, c) along `h` needs:
/// a new tile on each empty square; `None` when the word runs off the board or
/// a square holds another letter.
pub open spec fn word_placements(g: Seq<char>, w: Seq<char>, r: int, c: int, h: bool) -> Option<Seq<TilePlacement>>
    decreases w.len(),
{
    if w.len() == 0 {
        Some(seq![])
    } else {
        match word_placements(g, w.drop_last(), r, c, h) {
            None => None,
            Some(ps) => {
                let i = w.len() - 1;
                let rc = line_coords(r, c, h, (if h { c } else { r }) + i);
                if rc.0 >= 15 || rc.1 >= 15 {
                    None
                } else if cell(g, rc.0, rc.1) == EMPTY {
                    Some(ps.push(TilePlacement { coords: (rc.0 as usize, rc.1 as usize), tile: w[i] }))
                } else if cell(g, rc.0, rc.1) == w[i] {
                    Some(ps)
                } else {
                    None
                }
            },
        }
    }
}

/// Putting `w` from (r, c) along `h` is a scoring move: it fits, places at
/// least one tile, and its words are valid.
pub open spec fn word_move_score(g: Seq<char>, dict: Seq<Seq<char>>, w: Seq<char>, r: int, c: int, h: bool) -> Option<nat> {
    match word_placements(g, w, r, c, h) {
        None => None,
        Some(ps) => if scorable(g, ps, h) {
            move_score(g, dict, ps, h, true)
        } else {
            None
        },
    }
}

/// The tiles and their letters that `word` puts on the empty squares of the atoms.
fn proto_build(
    row: usize,
    col: usize,
    h: bool,
    base: usize,
    atoms: &Vec<char>,
    slots: &Vec<usize>,
    word: &Vec<char>,
) -> (res: (Vec<TilePlacement>, Vec<char>))
    requires
        row < 15,
        col < 15,
        base + atoms@.len() <= 15,
        word@.len() == atoms@.len(),
        slots@.len() == slot_indices(atoms@).len(),
        forall|j: int| 0 <= j < slots@.len() ==> #[trigger] slots@[j] as int == slot_indices(atoms@)[j],
        forall|j: int| 0 <= j < slots@.len() ==> 0 <= #[trigger] slot_indices(atoms@)[j] < atoms@.len(),
    ensures
        res.0@ == slot_indices(atoms@).map_values(|i: int| placement_on_line(row as int, col as int, h, base + i, word@[i])),
        res.1@ == placement_chars(res.0@),
{
    let ghost target = slot_indices(atoms@).map_values(
        |i: int| placement_on_line(row as int, col as int, h, base + i, word@[i]),
    );
    let mut tiles: Vec<TilePlacement> = Vec::new();
    let mut letters: Vec<char> = Vec::new();
    let mut j: usize = 0;
    while j < slots.len()
        invariant
            row < 15,
            col < 15,
            base + atoms@.len() <= 15,
            word@.len() == atoms@.len(),
            slots@.len() == slot_indices(atoms@).len(),
            forall|m: int| 0 <= m < slots@.len() ==> #[trigger] slots@[m] as int == slot_indices(atoms@)[m],
            forall|m: int| 0 <= m < slots@.len() ==> 0 <= #[trigger] slot_indices(atoms@)[m] < atoms@.len(),
            j <= slots@.len(),
            target == slot_indices(atoms@).map_values(
                |i: int| placement_on_line(row as int, col as int, h, base + i, word@[i]),
            ),
            tiles@ == target.take(j as int),
            letters@ == placement_chars(tiles@),
        decreases slots@.len() - j,
    {
        let i = slots[j];
        assert(slot_indices(atoms@)[j as int] == i);
        let p = base + i;
        let coords = if h {
            (row, p)
        } else {
            (p, col)
        };
        let t = word[i];
        let tp = TilePlacement { coords, tile: t };
        assert(tp == target[j as int]);
        tiles.push(tp);
        letters.push(t);
        j = j + 1;
        assert(tiles@ =~= target.take(j as int));
        assert(letters@ =~= placement_chars(tiles@));
    }
    assert(target.take(j as int) =~= target);
    (tiles, letters)
}

impl ScrabbleBoard {
    /// The moves that place exactly `exact_tiles_to_play` tiles of `chars`
    /// from the empty square (row, col) along the row (`horizontal`) or down
    /// the column: every word of the word list that matches the regular
    /// expression of the spot, whose new letters the rack holds, and whose
    /// tiles score; each move carries score 0.
    pub fn get_moves_from_spot_exact_length(
        &self,
        chars: &str,
        row: usize,
        col: usize,
        horizontal: bool,
        exact_tiles_to_play: usize,
    ) -> (res: Vec<PossibleMove>)
        requires
            self.wf(),
            board_letters(self.grid()),
            row < 15,
            col < 15,
        ensures
            moves_view(res@) == proto_moves(
                self.grid(),
                self.words(),
                chars@,
                row as int,
                col as int,
                horizontal,
                exact_tiles_to_play as nat,
            ),
    {
        let ghost g = self.grid();
        let ghost k = exact_tiles_to_play as nat;
        if self.board.get((row, col)) != EMPTY || exact_tiles_to_play == 0 {
            let none: Vec<PossibleMove> = Vec::new();
            assert(moves_view(none@) =~= Seq::<(Seq<TilePlacement>, nat)>::empty());
            return none;
        }
        let (base, atoms, _placed) = spot_layout(&self.board, row, col, horizontal, exact_tiles_to_play);
        proof {
            crate::movegen::lemma_spot_pattern_letters(g, row as int, col as int, horizontal, k);
        }
        assert(atoms@ == proto_atoms(g, row as int, col as int, horizontal, k));
        assert(base as int == proto_base(g, row as int, col as int, horizontal));
        assert(plain_atoms(atoms@));
        let regex = regex_for(&atoms);
        let slots = slots_of(&atoms);
        proof {
            lemma_slot_indices(atoms@);
        }
        let rack = str_chars(chars);
        let cands = self.valid_words.words_of_length(atoms.len());
        proof {
            self.valid_words.lemma_letter_words();
            crate::movegen::lemma_words_of_len_props(self.words(), atoms@.len());
        }
        let mut moves: Vec<PossibleMove> = Vec::new();
        let mut n: usize = 0;
        while n < cands.len()
            invariant
                self.wf(),
                g == self.grid(),
                k == exact_tiles_to_play as nat,
                row < 15,
                col < 15,
                atoms@ == proto_atoms(g, row as int, col as int, horizontal, k),
                base as int == proto_base(g, row as int, col as int, horizontal),
                base + atoms@.len() <= 15,
                plain_atoms(atoms@),
                regex@ == regex_text(atoms@),
                slots@.len() == slot_indices(atoms@).len(),
                forall|m: int| 0 <= m < slots@.len() ==> #[trigger] slots@[m] as int == slot_indices(atoms@)[m],
                forall|m: int| 0 <= m < slots@.len() ==> 0 <= #[trigger] slot_indices(atoms@)[m] < atoms@.len(),
                rack@ == chars@,
                crate::dictionary::bucket_words(cands@) == crate::dictionary::words_of_len(self.words(), atoms@.len()),
                forall|i: int|
                    0 <= i < crate::dictionary::words_of_len(self.words(), atoms@.len()).len() ==> (#[trigger] crate::dictionary::words_of_len(
                        self.words(),
                        atoms@.len(),
                    )[i]).len() == atoms@.len() && self.words().contains(crate::dictionary::words_of_len(self.words(), atoms@.len())[i]),
                forall|i: int| 0 <= i < self.words().len() ==> is_letter_word(#[trigger] self.words()[i]),
                n <= cands@.len(),
                moves_view(moves@) == proto_collect(
                    g,
                    self.words(),
                    chars@,
                    row as int,
                    col as int,
                    horizontal,
                    k,
                    crate::dictionary::bucket_words(cands@).take(n as int),
                ),
            decreases cands@.len() - n,
        {
            let word = &cands[n].0;
            let ghost bw = crate::dictionary::bucket_words(cands@);
            assert(bw[n as int] == word@);
            assert(bw.take(n + 1).drop_last() =~= bw.take(n as int));
            assert(bw.take(n + 1).last() == word@);
            proof {
                assert(self.words().contains(word@));
                let j = choose|j: int| 0 <= j < self.words().len() && self.words()[j] == word@;
                assert(is_letter_word(self.words()[j]));
            }
            let word_str = string_from_chars(word);
            let ghost before = moves@;
            if regex_full_match(regex.as_str(), word_str.as_str()) {
                let (tiles, letters) = proto_build(row, col, horizontal, base, &atoms, &slots, word);
                assert(tiles@ == proto_tiles(g, row as int, col as int, horizontal, k, word@));
                if chars_within(&letters, &rack) && self.can_score(&tiles, horizontal) {
                    if self.get_move_score(&tiles, horizontal, true).is_some() {
                        moves.push(PossibleMove { tiles, score: 0 });
                        assert(moves_view(moves@) =~= moves_view(before).push((tiles@, 0nat)));
                    }
                }
            }
            n = n + 1;
        }
        assert(crate::dictionary::bucket_words(cands@).take(n as int) =~= crate::dictionary::bucket_words(cands@));
        moves
    }

    /// The moves placing from one up to `max_tiles_to_play` tiles of `chars`
    /// from the empty square (row, col), fewest tiles first.
    pub fn get_moves_from_spot(&self, chars: &str, row: usize, col: usize, horizontal: bool, max_tiles_to_play: usize) -> (res:
        Vec<PossibleMove>)
        requires
            self.wf(),
            board_letters(self.grid()),
            row < 15,
            col < 15,
        ensures
            moves_view(res@) == proto_moves_upto(
                self.grid(),
                self.words(),
                chars@,
                row as int,
                col as int,
                horizontal,
                max_tiles_to_play as nat + 1,
            ),
    {
        let ghost g = self.grid();
        let ghost d = self.words();
        let mut result: Vec<PossibleMove> = Vec::new();
        if max_tiles_to_play == 0 {
            assert(moves_view(result@) =~= Seq::<(Seq<TilePlacement>, nat)>::empty());
            return result;
        }
        let mut t: usize = 1;
        while t <= max_tiles_to_play
            invariant_except_break
                moves_view(result@) == proto_moves_upto(g, d, chars@, row as int, col as int, horizontal, t as nat),
            invariant
                self.wf(),
                g == self.grid(),
                d == self.words(),
                board_letters(g),
                row < 15,
                col < 15,
                1 <= t <= max_tiles_to_play,
            ensures
                moves_view(result@) == proto_moves_upto(
                    g,
                    d,
                    chars@,
                    row as int,
                    col as int,
                    horizontal,
                    max_tiles_to_play as nat + 1,
                ),
            decreases max_tiles_to_play - t,
        {
            let mut found = self.get_moves_from_spot_exact_length(chars, row, col, horizontal, t);
            let ghost before = result@;
            let ghost f = found@;
            result.append(&mut found);
            assert(moves_view(result@) =~= moves_view(before) + moves_view(f));
            if t == max_tiles_to_play {
                break;
            }
            t = t + 1;
        }
        result
    }

    /// The placements `word` needs from (row, col) along `h`.
    fn placements_for_word(&self, word: &str, row: usize, col: usize, h: bool) -> (res: Option<Vec<TilePlacement>>)
        requires
            self.wf(),
        ensures
            match word_placements(self.grid(), word@, row as int, col as int, h) {
                None => res is None,
                Some(ps) => res matches Some(v) && v@ == ps,
            },
    {
        let ghost g = self.grid();
        let cs = str_chars(word);
        let mut ps: Vec<TilePlacement> = Vec::new();
        let mut i: usize = 0;
        while i < cs.len()
            invariant
                self.wf(),
                g == self.grid(),
                cs@ == word@,
                i <= cs@.len(),
                word_placements(g, cs@.take(i as int), row as int, col as int, h) == Some(ps@),
            decreases cs@.len() - i,
        {
            assert(cs@.take(i + 1).drop_last() =~= cs@.take(i as int));
            assert(cs@.take(i + 1).last() == cs[i as int]);
            let base = if h {
                col
            } else {
                row
            };
            if base >= 15 || i >= 15 - base || (h && row >= 15) || (!h && col >= 15) {
                proof {
                    lemma_word_placements_none(g, cs@, row as int, col as int, h, i as int + 1);
                    assert(cs@.take(cs@.len() as int) =~= cs@);
                }
                return None;
            }
            let p = base + i;
            let (r, c) = if h {
                (row, p)
            } else {
                (p, col)
            };
            let ch = self.board.get((r, c));
            let w = cs[i];
            if ch == EMPTY {
                ps.push(TilePlacement { coords: (r, c), tile: w });
            } else if ch != w {
                proof {
                    lemma_word_placements_none(g, cs@, row as int, col as int, h, i as int + 1);
                    assert(cs@.take(cs@.len() as int) =~= cs@);
                }
                return None;
            }
            i = i + 1;
        }
        assert(cs@.take(i as int) =~= word@);
        Some(ps)
    }

    /// Whether putting `word` from (row, col) along the row (`horizontal`) or
    /// column is a move whose words are all valid.
    pub fn is_valid_move(&self, word: &str, row: usize, col: usize, horizontal: bool) -> (res: bool)
        requires
            self.wf(),
        ensures
            res == word_move_score(self.grid(), self.words(), word@, row as int, col as int, horizontal) is Some,
    {
        match self.placements_for_word(word, row, col, horizontal) {
            None => false,
            Some(ps) => {
                if !self.can_score(&ps, horizontal) {
                    return false;
                }
                self.get_move_score(&ps, horizontal, true).is_some()
            },
        }
    }

    /// The score of putting `word` from (row, col) along the row
    /// (`horizontal`) or column, crossing words included; 0 when it is not a
    /// valid move.
    pub fn word_score(&self, word: &str, row: usize, col: usize, horizontal: bool) -> (res: u32)
        requires
            self.wf(),
        ensures
            res == match word_move_score(self.grid(), self.words(), word@, row as int, col as int, horizontal) {
                Some(s) => s,
                None => 0,
            },
    {
        match self.placements_for_word(word, row, col, horizontal) {
            None => 0,
            Some(ps) => {
                if !self.can_score(&ps, horizontal) {
                    return 0;
                }
                match self.get_move_score(&ps, horizontal, true) {
                    Some(s) => s,
                    None => 0,
                }
            },
        }
    }
}

proof fn lemma_word_placements_none(g: Seq<char>, w: Seq<char>, r: int, c: int, h: bool, i: int)
    requires
        0 <= i <= w.len(),
        word_placements(g, w.take(i), r, c, h) is None,
    ensures
        word_placements(g, w.take(w.len() as int), r, c, h) is None,
    decreases w.len() - i,
{
    if i < w.len() {
        assert(w.take(i + 1).drop_last() =~= w.take(i));
        lemma_word_placements_none(g, w, r, c, h, i + 1);
    }
}

} // verus!
