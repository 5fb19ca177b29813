//! Move generation over a board, a dictionary and a rack.
use vstd::prelude::*;
use crate::board::{cell, ScrabbleBoard};
use crate::common::{Coords, EMPTY};
use crate::utils::{count_char, occurrences, encode_spec, encodable, mask_of, masks_agree, encode_char, encode_char_seq, bitmasks_match, lemma_encode_meets_letter, lemma_mask_meets_letter, lemma_and_comm};
use crate::dictionary::{bucket_words, entry_ok, is_letter_word, words_of_len, MAX_WORD_LEN};
use crate::rules::{candidate_move, collect_moves, fixed_match, move_view, moves_view, spot_moves, slots_touch, primary_points};
use crate::common::{is_letter, letter_points, letter_score, letter_multiplier, word_multiplier, letter_factor, word_factor, modifier_at, TilePlacement, WILD};
use crate::dictionary::Dictionary;
use crate::rules::{nth_letter, fixed_points, pattern_word_factor, placed_points, move_tiles, placed_letters, lemma_slot_indices, lemma_pattern_factor_bound, lemma_placed_points_bound, lemma_fixed_points_bound, board_letters, cross_word, cross_points, cross_total, sum_points, lemma_sum_points_add, lemma_sum_points_bound, rack_supplies, shortfall,
    forward_pattern, forward_placed, has_adjacent_tile, line_cell, line_coords, line_pos,
    line_segment, slot_indices, spot_pattern, spot_start, tiles_after, tiles_before,
};

verus! {

broadcast use vstd::seq_lib::group_to_multiset_ensures;

/// Character at position `p` of the row (`horizontal`) or column through (row, col).
pub fn line_get(board: &ScrabbleBoard, row: usize, col: usize, horizontal: bool, p: usize) -> (res: char)
    requires
        board.wf(),
        row < 15,
        col < 15,
        p < 15,
    ensures
        res == line_cell(board@, row as int, col as int, horizontal, p as int),
{
    if horizontal {
        board.get((row, p))
    } else {
        board.get((p, col))
    }
}

/// Number of consecutive tiles right before position `p` of the line.
pub fn count_tiles_before(board: &ScrabbleBoard, row: usize, col: usize, horizontal: bool, p: usize) -> (n: usize)
    requires
        board.wf(),
        row < 15,
        col < 15,
        p <= 15,
    ensures
        n == tiles_before(board@, row as int, col as int, horizontal, p as int),
        n <= p,
{
    let mut q = p;
    while q > 0 && line_get(board, row, col, horizontal, q - 1) != EMPTY
        invariant
            board.wf(),
            row < 15,
            col < 15,
            q <= p <= 15,
            tiles_before(board@, row as int, col as int, horizontal, p as int) == (p - q)
                + tiles_before(board@, row as int, col as int, horizontal, q as int),
        decreases q,
    {
        q = q - 1;
    }
    p - q
}

/// Number of consecutive tiles right after position `p` of the line.
pub fn count_tiles_after(board: &ScrabbleBoard, row: usize, col: usize, horizontal: bool, p: usize) -> (n: usize)
    requires
        board.wf(),
        row < 15,
        col < 15,
        p < 15,
    ensures
        n == tiles_after(board@, row as int, col as int, horizontal, p as int),
        p + n <= 14,
{
    let mut q = p;
    while q < 14 && line_get(board, row, col, horizontal, q + 1) != EMPTY
        invariant
            board.wf(),
            row < 15,
            col < 15,
            p <= q <= 14,
            tiles_after(board@, row as int, col as int, horizontal, p as int) == (q - p)
                + tiles_after(board@, row as int, col as int, horizontal, q as int),
        decreases 14 - q,
    {
        q = q + 1;
    }
    q - p
}

/// The pattern read onwards from square `p` stays within the line and has at
/// most `k` empty squares.
pub proof fn lemma_forward_len(g: Seq<char>, r: int, c: int, h: bool, p: int, k: nat)
    requires
        0 <= p <= 15,
    ensures
        forward_pattern(g, r, c, h, p, k).len() <= 15 - p,
        forward_placed(g, r, c, h, p, k) <= k,
    decreases 15 - p,
{
    if p < 15 {
        if line_cell(g, r, c, h, p) != EMPTY {
            lemma_forward_len(g, r, c, h, p + 1, k);
        } else if k > 0 {
            lemma_forward_len(g, r, c, h, p + 1, (k - 1) as nat);
        }
    }
}

/// The characters of the line from position `a`, `n` of them.
pub fn copy_segment(board: &ScrabbleBoard, row: usize, col: usize, horizontal: bool, a: usize, n: usize) -> (res: Vec<char>)
    requires
        board.wf(),
        row < 15,
        col < 15,
        a + n <= 15,
    ensures
        res@ == line_segment(board@, row as int, col as int, horizontal, a as int, n as nat),
{
    let mut res: Vec<char> = Vec::new();
    let mut i: usize = 0;
    while i < n
        invariant
            board.wf(),
            row < 15,
            col < 15,
            a + n <= 15,
            i <= n,
            res@ == line_segment(board@, row as int, col as int, horizontal, a as int, i as nat),
        decreases n - i,
    {
        res.push(line_get(board, row, col, horizontal, a + i));
        i = i + 1;
        assert(res@ =~= line_segment(board@, row as int, col as int, horizontal, a as int, i as nat));
    }
    res
}

/// Reads the line from position `p` on while placing `k` tiles; returns the
/// forward pattern and how many tiles were placed before the edge.
pub fn forward_scan(board: &ScrabbleBoard, row: usize, col: usize, horizontal: bool, p: usize, k: usize) -> (res: (Vec<char>, usize))
    requires
        board.wf(),
        row < 15,
        col < 15,
        p <= 15,
    ensures
        res.0@ == forward_pattern(board@, row as int, col as int, horizontal, p as int, k as nat),
        res.1 == forward_placed(board@, row as int, col as int, horizontal, p as int, k as nat),
        res.0@.len() <= 15 - p,
        res.1 <= k,
{
    let ghost g = board@;
    let mut acc: Vec<char> = Vec::new();
    let mut q = p;
    let mut rem = k;
    let mut placed: usize = 0;
    proof {
        lemma_forward_len(g, row as int, col as int, horizontal, p as int, k as nat);
    }
    while q < 15 && (line_get(board, row, col, horizontal, q) != EMPTY || rem > 0)
        invariant
            board.wf(),
            g == board@,
            row < 15,
            col < 15,
            p <= q <= 15,
            rem <= k,
            placed + rem == k,
            acc@ + forward_pattern(g, row as int, col as int, horizontal, q as int, rem as nat)
                == forward_pattern(g, row as int, col as int, horizontal, p as int, k as nat),
            placed + forward_placed(g, row as int, col as int, horizontal, q as int, rem as nat)
                == forward_placed(g, row as int, col as int, horizontal, p as int, k as nat),
        decreases 15 - q,
    {
        let ch = line_get(board, row, col, horizontal, q);
        let ghost old_acc = acc@;
        if ch != EMPTY {
            acc.push(ch);
            assert(acc@ + forward_pattern(g, row as int, col as int, horizontal, q + 1, rem as nat)
                =~= old_acc + forward_pattern(g, row as int, col as int, horizontal, q as int, rem as nat));
        } else {
            acc.push(EMPTY);
            assert(acc@ + forward_pattern(g, row as int, col as int, horizontal, q + 1, (rem - 1) as nat)
                =~= old_acc + forward_pattern(g, row as int, col as int, horizontal, q as int, rem as nat));
            rem = rem - 1;
            placed = placed + 1;
        }
        q = q + 1;
    }
    assert(acc@ =~= acc@ + forward_pattern(g, row as int, col as int, horizontal, q as int, rem as nat));
    (acc, placed)
}

/// The pattern of the word through the empty square (row, col) when `k`
/// tiles are placed from it on, with the line position where the word starts
/// and the number of tiles that fit before the edge.
pub fn spot_layout(board: &ScrabbleBoard, row: usize, col: usize, horizontal: bool, k: usize) -> (res: (usize, Vec<char>, usize))
    requires
        board.wf(),
        row < 15,
        col < 15,
    ensures
        res.0 == spot_start(board@, row as int, col as int, horizontal),
        res.1@ == spot_pattern(board@, row as int, col as int, horizontal, k as nat),
        res.2 == forward_placed(
            board@,
            row as int,
            col as int,
            horizontal,
            line_pos(row as int, col as int, horizontal),
            k as nat,
        ),
        res.0 + res.1@.len() <= 15,
        res.2 <= k,
{
    let p = if horizontal {
        col
    } else {
        row
    };
    let b = count_tiles_before(board, row, col, horizontal, p);
    let start = p - b;
    let mut pattern = copy_segment(board, row, col, horizontal, start, b);
    let (mut fwd, placed) = forward_scan(board, row, col, horizontal, p, k);
    pattern.append(&mut fwd);
    (start, pattern, placed)
}

/// True when a square next to (row, col) holds a tile.
pub fn coord_has_adjacent_tile(board: &ScrabbleBoard, coords: Coords) -> (res: bool)
    requires
        board.wf(),
        coords.0 < 15,
        coords.1 < 15,
    ensures
        res == has_adjacent_tile(board@, coords.0 as int, coords.1 as int),
{
    // Up
    if coords.0 > 0 && board.get((coords.0 - 1, coords.1)) != EMPTY {
        return true;
    }
    // Left
    if coords.1 > 0 && board.get((coords.0, coords.1 - 1)) != EMPTY {
        return true;
    }
    // Right
    if coords.1 < 14 && board.get((coords.0, coords.1 + 1)) != EMPTY {
        return true;
    }
    // Down
    if coords.0 < 14 && board.get((coords.0 + 1, coords.1)) != EMPTY {
        return true;
    }
    false
}

/// Indices of the empty entries of a pattern, ascending.
pub fn slots_of(pattern: &Vec<char>) -> (res: Vec<usize>)
    ensures
        res@.len() == slot_indices(pattern@).len(),
        forall|j: int| 0 <= j < res@.len() ==> #[trigger] res@[j] as int == slot_indices(pattern@)[j],
{
    let mut res: Vec<usize> = Vec::new();
    let mut i: usize = 0;
    while i < pattern.len()
        invariant
            i <= pattern@.len(),
            res@.len() == slot_indices(pattern@.take(i as int)).len(),
            forall|j: int| 0 <= j < res@.len() ==> #[trigger] res@[j] as int == slot_indices(pattern@.take(i as int))[j],
        decreases pattern@.len() - i,
    {
        assert(pattern@.take(i + 1).drop_last() =~= pattern@.take(i as int));
        if pattern[i] == EMPTY {
            res.push(i);
        }
        i = i + 1;
    }
    assert(pattern@.take(pattern@.len() as int) =~= pattern@);
    res
}

/// The `i`-th capital letter.
pub fn nth_letter_exec(i: u8) -> (res: char)
    requires
        i < 26,
    ensures
        res == nth_letter(i as int),
        is_letter(res),
{
    (65u8 + i) as char
}

/// The shortfall over the first `n` letters counts the missing copies of each of them.
pub proof fn lemma_shortfall_covers(rack: Seq<char>, need: Seq<char>, n: int, i: int)
    requires
        0 <= i < n,
    ensures
        shortfall(rack, need, n) >= occurrences(need, nth_letter(i)) - occurrences(rack, nth_letter(i)),
    decreases n,
{
    if n - 1 > i {
        lemma_shortfall_covers(rack, need, n - 1, i);
    }
}

/// Whether the rack holds the needed letters, blanks standing in for missing ones.
pub fn rack_can_supply(rack: &Vec<char>, need: &Vec<char>) -> (res: bool)
    requires
        need@.len() <= 15,
    ensures
        res == rack_supplies(rack@, need@),
{
    let wild = count_char(rack, WILD);
    let mut total: usize = 0;
    let mut i: u8 = 0;
    while i < 26
        invariant
            i <= 26,
            total == shortfall(rack@, need@, i as int),
            total <= i as int * need@.len(),
            need@.len() <= 15,
        decreases 26 - i,
    {
        let letter = nth_letter_exec(i);
        let have = count_char(rack, letter);
        let want = count_char(need, letter);
        assert(i as int * need@.len() <= 390) by (nonlinear_arith)
            requires
                i <= 26,
                need@.len() <= 15,
        ;
        if want > have {
            total = total + (want - have);
        }
        assert(total <= (i + 1) as int * need@.len()) by (nonlinear_arith)
            requires
                total <= i as int * need@.len() + need@.len(),
        ;
        i = i + 1;
    }
    total <= wild
}

/// Collects all the tiles along a line through `coords` (direction
/// `horizontal`), assuming that `coord_seed` lies on `coords`: the tiles
/// before it, the seed, then the tiles after it.
pub fn gather_board_tiles_along_vector(board: &ScrabbleBoard, coords: Coords, coord_seed: char, horizontal: bool) -> (res: Vec<char>)
    requires
        board.wf(),
        coords.0 < 15,
        coords.1 < 15,
    ensures
        res@ == cross_word(board@, (coords.0 as int, coords.1 as int), coord_seed, horizontal),
        1 <= res@.len() <= 15,
{
    let (row, col) = coords;
    let p = if horizontal {
        col
    } else {
        row
    };
    let b = count_tiles_before(board, row, col, horizontal, p);
    let a = count_tiles_after(board, row, col, horizontal, p);
    let mut word = copy_segment(board, row, col, horizontal, p - b, b);
    word.push(coord_seed);
    let mut after = copy_segment(board, row, col, horizontal, p + 1, a);
    word.append(&mut after);
    word
}

/// Sum of the points of the characters of `w` (none beyond `Z`).
pub fn sum_letter_scores(w: &Vec<char>) -> (res: u32)
    requires
        w@.len() <= 15,
        forall|i: int| 0 <= i < w@.len() ==> #[trigger] w@[i] <= 'Z',
    ensures
        res == sum_points(w@),
        res <= 150,
{
    let mut total: u32 = 0;
    let mut i: usize = 0;
    while i < w.len()
        invariant
            i <= w@.len(),
            w@.len() <= 15,
            forall|k: int| 0 <= k < w@.len() ==> #[trigger] w@[k] <= 'Z',
            total == sum_points(w@.take(i as int)),
            total <= 10 * i,
        decreases w@.len() - i,
    {
        assert(w@.take(i + 1).drop_last() =~= w@.take(i as int));
        total = total + letter_score(w[i]);
        i = i + 1;
    }
    assert(w@.take(w@.len() as int) =~= w@);
    total
}

/// Points of the crossing word through a new tile, assuming it is valid.
pub fn cross_word_points(board: &ScrabbleBoard, word: &Vec<char>, t: TilePlacement, horizontal: bool) -> (res: u32)
    requires
        board.wf(),
        board_letters(board@),
        t.coords.0 < 15,
        t.coords.1 < 15,
        is_letter(t.tile),
        word@ == cross_word(board@, (t.coords.0 as int, t.coords.1 as int), t.tile, horizontal),
        word@.len() <= 15,
    ensures
        res == cross_points(board@, (t.coords.0 as int, t.coords.1 as int), t.tile, horizontal),
        res <= 510,
{
    let ghost g = board@;
    let ghost q = (t.coords.0 as int, t.coords.1 as int);
    proof {
        let p = crate::rules::line_pos(q.0, q.1, horizontal);
        let b = tiles_before(g, q.0, q.1, horizontal, p);
        let a = tiles_after(g, q.0, q.1, horizontal, p);
        let s1 = line_segment(g, q.0, q.1, horizontal, p - b, b);
        let s2 = line_segment(g, q.0, q.1, horizontal, p + 1, a);
        lemma_sum_points_add(s1 + seq![t.tile], s2);
        lemma_sum_points_add(s1, seq![t.tile]);
        assert(sum_points(seq![t.tile]) == letter_points(t.tile)) by {
            assert(seq![t.tile].drop_last() =~= Seq::<char>::empty());
            assert(seq![t.tile].last() == t.tile);
            assert(sum_points(Seq::<char>::empty()) == 0);
        }
        assert(word@ =~= s1 + seq![t.tile] + s2);
        crate::rules::lemma_cross_word_letters(g, q, t.tile, horizontal);
        assert forall|i: int| 0 <= i < word@.len() implies #[trigger] word@[i] <= 'Z' by {
            assert(is_letter(word@[i]));
        }
    }
    let sum = sum_letter_scores(word);
    let lp = letter_score(t.tile);
    let lm = letter_multiplier(t.coords.0, t.coords.1);
    let wm = word_multiplier(t.coords.0, t.coords.1);
    assert(lp * lm <= 30) by (nonlinear_arith)
        requires
            lp <= 10,
            lm <= 3,
    ;
    assert(lp * lm <= 3 * lp) by (nonlinear_arith)
        requires
            lm <= 3,
    ;
    let base = sum - lp + lp * lm;
    assert(base * wm <= 510) by (nonlinear_arith)
        requires
            base <= 170,
            wm <= 3,
    ;
    base * wm
}

/// Sum of the points of the crossing words of the tiles, or `None` when one
/// of them (two letters or more) is not in the dictionary.
pub fn cross_words_total(board: &ScrabbleBoard, dict: &Dictionary, tiles: &Vec<TilePlacement>, horizontal: bool) -> (res: Option<u32>)
    requires
        board.wf(),
        board_letters(board@),
        dict.wf(),
        tiles@.len() <= 15,
        forall|i: int|
            0 <= i < tiles@.len() ==> (#[trigger] tiles@[i]).coords.0 < 15 && tiles@[i].coords.1 < 15
                && is_letter(tiles@[i].tile),
    ensures
        match res {
            Some(x) => cross_total(board@, dict@, tiles@, horizontal) == Some(x as nat) && x <= 510 * tiles@.len(),
            None => cross_total(board@, dict@, tiles@, horizontal) is None,
        },
{
    let mut total: u32 = 0;
    let mut i: usize = 0;
    while i < tiles.len()
        invariant
            board.wf(),
            board_letters(board@),
            dict.wf(),
            tiles@.len() <= 15,
            forall|k: int|
                0 <= k < tiles@.len() ==> (#[trigger] tiles@[k]).coords.0 < 15 && tiles@[k].coords.1 < 15
                    && is_letter(tiles@[k].tile),
            i <= tiles@.len(),
            cross_total(board@, dict@, tiles@.take(i as int), horizontal) == Some(total as nat),
            total <= 510 * i,
        decreases tiles@.len() - i,
    {
        let t = tiles[i];
        assert(tiles@.take(i + 1).drop_last() =~= tiles@.take(i as int));
        assert(tiles@.take(i + 1).last() == t);
        let word = gather_board_tiles_along_vector(board, t.coords, t.tile, horizontal);
        if word.len() > 1 {
            if !dict.contains(&word) {
                proof {
                    lemma_cross_total_none_extends(board@, dict@, tiles@, horizontal, i as int + 1);
                }
                return None;
            }
            let pts = cross_word_points(board, &word, t, horizontal);
            total = total + pts;
        }
        i = i + 1;
    }
    assert(tiles@.take(tiles@.len() as int) =~= tiles@);
    Some(total)
}

/// Once a prefix of the tiles has an invalid crossing word, so do all longer prefixes.
pub proof fn lemma_cross_total_none_extends(g: Seq<char>, dict: Seq<Seq<char>>, tiles: Seq<TilePlacement>, h: bool, i: int)
    requires
        0 <= i <= tiles.len(),
        cross_total(g, dict, tiles.take(i), h) is None,
    ensures
        cross_total(g, dict, tiles, h) is None,
    decreases tiles.len() - i,
{
    if i < tiles.len() {
        assert(tiles.take(i + 1).drop_last() =~= tiles.take(i));
        lemma_cross_total_none_extends(g, dict, tiles, h, i + 1);
    } else {
        assert(tiles.take(i) =~= tiles);
    }
}

/// Points of the tiles already on the board within a pattern.
pub fn pattern_fixed_points(pattern: &Vec<char>) -> (res: u32)
    requires
        pattern@.len() <= 15,
        forall|i: int| 0 <= i < pattern@.len() ==> #[trigger] pattern@[i] <= 'Z',
    ensures
        res == fixed_points(pattern@),
        res <= 150,
{
    let mut total: u32 = 0;
    let mut i: usize = 0;
    while i < pattern.len()
        invariant
            i <= pattern@.len(),
            pattern@.len() <= 15,
            forall|k: int| 0 <= k < pattern@.len() ==> #[trigger] pattern@[k] <= 'Z',
            total == fixed_points(pattern@.take(i as int)),
            total <= 10 * i,
        decreases pattern@.len() - i,
    {
        assert(pattern@.take(i + 1).drop_last() =~= pattern@.take(i as int));
        if pattern[i] != EMPTY {
            total = total + letter_score(pattern[i]);
        }
        i = i + 1;
    }
    assert(pattern@.take(pattern@.len() as int) =~= pattern@);
    total
}

/// Product of the word factors of the squares of the pattern that receive a tile.
pub fn pattern_word_mult(row: usize, col: usize, horizontal: bool, start: usize, pattern: &Vec<char>) -> (res: u32)
    requires
        row < 15,
        col < 15,
        start + pattern@.len() <= 15,
    ensures
        res == pattern_word_factor(row as int, col as int, horizontal, start as int, pattern@),
        1 <= res <= 27,
{
    let mut mult: u32 = 1;
    let mut i: usize = 0;
    while i < pattern.len()
        invariant
            row < 15,
            col < 15,
            start + pattern@.len() <= 15,
            i <= pattern@.len(),
            mult == pattern_word_factor(row as int, col as int, horizontal, start as int, pattern@.take(i as int)),
            1 <= mult <= 27,
        decreases pattern@.len() - i,
    {
        assert(pattern@.take(i + 1).drop_last() =~= pattern@.take(i as int));
        proof {
            lemma_pattern_factor_bound(row as int, col as int, horizontal, start as int, pattern@.take(i + 1));
        }
        if pattern[i] == EMPTY {
            let (r, c) = if horizontal {
                (row, start + i)
            } else {
                (start + i, col)
            };
            mult = mult * word_multiplier(r, c);
        }
        i = i + 1;
    }
    assert(pattern@.take(pattern@.len() as int) =~= pattern@);
    mult
}

/// Points of the word's letters that go on the empty squares, with letter factors.
pub fn word_placed_points(row: usize, col: usize, horizontal: bool, start: usize, pattern: &Vec<char>, word: &Vec<char>) -> (res: u32)
    requires
        row < 15,
        col < 15,
        start + pattern@.len() <= 15,
        word@.len() == pattern@.len(),
        forall|i: int| 0 <= i < word@.len() ==> #[trigger] word@[i] <= 'Z',
    ensures
        res == placed_points(row as int, col as int, horizontal, start as int, pattern@, word@),
        res <= 450,
{
    let mut total: u32 = 0;
    let mut i: usize = 0;
    while i < pattern.len()
        invariant
            row < 15,
            col < 15,
            start + pattern@.len() <= 15,
            word@.len() == pattern@.len(),
            forall|k: int| 0 <= k < word@.len() ==> #[trigger] word@[k] <= 'Z',
            i <= pattern@.len(),
            total == placed_points(row as int, col as int, horizontal, start as int, pattern@.take(i as int), word@),
            total <= 30 * i,
        decreases pattern@.len() - i,
    {
        assert(pattern@.take(i + 1).drop_last() =~= pattern@.take(i as int));
        if pattern[i] == EMPTY {
            let (r, c) = if horizontal {
                (row, start + i)
            } else {
                (start + i, col)
            };
            let lp = letter_score(word[i]);
            let lm = letter_multiplier(r, c);
            assert(lp * lm <= 30) by (nonlinear_arith)
                requires
                    lp <= 10,
                    lm <= 3,
            ;
            total = total + lp * lm;
        }
        i = i + 1;
    }
    assert(pattern@.take(pattern@.len() as int) =~= pattern@);
    total
}

/// The tiles the word places on the empty squares of the pattern.
pub fn build_move_tiles(row: usize, col: usize, horizontal: bool, start: usize, pattern: &Vec<char>, slots: &Vec<usize>, word: &Vec<char>) -> (res: Vec<TilePlacement>)
    requires
        row < 15,
        col < 15,
        start + pattern@.len() <= 15,
        word@.len() == pattern@.len(),
        slots@.len() == crate::rules::slot_indices(pattern@).len(),
        forall|j: int| 0 <= j < slots@.len() ==> #[trigger] slots@[j] as int == crate::rules::slot_indices(pattern@)[j],
    ensures
        res@ == move_tiles(row as int, col as int, horizontal, start as int, pattern@, word@),
        res@.len() <= 15,
        forall|j: int|
            0 <= j < res@.len() ==> (#[trigger] res@[j]).coords.0 < 15 && res@[j].coords.1 < 15,
{
    proof {
        lemma_slot_indices(pattern@);
    }
    let mut res: Vec<TilePlacement> = Vec::new();
    let mut j: usize = 0;
    while j < slots.len()
        invariant
            row < 15,
            col < 15,
            start + pattern@.len() <= 15,
            word@.len() == pattern@.len(),
            slots@.len() == crate::rules::slot_indices(pattern@).len(),
            slots@.len() <= pattern@.len(),
            forall|k: int| 0 <= k < slots@.len() ==> #[trigger] slots@[k] as int == crate::rules::slot_indices(pattern@)[k],
            forall|k: int| 0 <= k < slots@.len() ==> 0 <= #[trigger] crate::rules::slot_indices(pattern@)[k] < pattern@.len(),
            j <= slots@.len(),
            res@ == move_tiles(row as int, col as int, horizontal, start as int, pattern@, word@).take(j as int),
            move_tiles(row as int, col as int, horizontal, start as int, pattern@, word@).len() == slots@.len(),
            forall|k: int|
                0 <= k < res@.len() ==> (#[trigger] res@[k]).coords.0 < 15 && res@[k].coords.1 < 15,
        decreases slots@.len() - j,
    {
        let i = slots[j];
        assert(crate::rules::slot_indices(pattern@)[j as int] == i);
        let coords = if horizontal {
            (row, start + i)
        } else {
            (start + i, col)
        };
        let tp = TilePlacement { coords, tile: word[i] };
        assert(move_tiles(row as int, col as int, horizontal, start as int, pattern@, word@)[j as int] == tp);
        res.push(tp);
        assert(res@ =~= move_tiles(row as int, col as int, horizontal, start as int, pattern@, word@).take(j + 1));
        j = j + 1;
    }
    assert(move_tiles(row as int, col as int, horizontal, start as int, pattern@, word@).take(j as int)
        =~= move_tiles(row as int, col as int, horizontal, start as int, pattern@, word@));
    res
}

/// The word's letters that go on the empty squares, in order.
pub fn build_placed_letters(pattern: &Vec<char>, slots: &Vec<usize>, word: &Vec<char>) -> (res: Vec<char>)
    requires
        word@.len() == pattern@.len(),
        slots@.len() == crate::rules::slot_indices(pattern@).len(),
        forall|j: int| 0 <= j < slots@.len() ==> #[trigger] slots@[j] as int == crate::rules::slot_indices(pattern@)[j],
    ensures
        res@ == placed_letters(pattern@, word@),
{
    proof {
        lemma_slot_indices(pattern@);
    }
    let mut res: Vec<char> = Vec::new();
    let mut j: usize = 0;
    while j < slots.len()
        invariant
            word@.len() == pattern@.len(),
            slots@.len() == crate::rules::slot_indices(pattern@).len(),
            forall|k: int| 0 <= k < slots@.len() ==> #[trigger] slots@[k] as int == crate::rules::slot_indices(pattern@)[k],
            forall|k: int| 0 <= k < slots@.len() ==> 0 <= #[trigger] crate::rules::slot_indices(pattern@)[k] < pattern@.len(),
            j <= slots@.len(),
            res@ == placed_letters(pattern@, word@).take(j as int),
        decreases slots@.len() - j,
    {
        let i = slots[j];
        assert(crate::rules::slot_indices(pattern@)[j as int] == i);
        res.push(word[i]);
        assert(res@ =~= placed_letters(pattern@, word@).take(j + 1));
        j = j + 1;
    }
    assert(placed_letters(pattern@, word@).take(j as int) =~= placed_letters(pattern@, word@));
    res
}

/// The mask each square of the pattern imposes: the pattern of the tile on
/// the board, or the rack mask for an empty square.
pub open spec fn pattern_mask_spec(pat: Seq<char>, user_mask: u32) -> Seq<u32> {
    Seq::new(pat.len(), |i: int| if pat[i] == EMPTY { user_mask } else { encode_spec(pat[i]) })
}

/// The per-square masks of a pattern.
pub fn pattern_bitmask(pattern: &Vec<char>, user_mask: u32) -> (res: Vec<u32>)
    requires
        forall|i: int| 0 <= i < pattern@.len() ==> #[trigger] pattern@[i] == EMPTY || is_letter(pattern@[i]),
    ensures
        res@ == pattern_mask_spec(pattern@, user_mask),
{
    let mut res: Vec<u32> = Vec::new();
    let mut i: usize = 0;
    while i < pattern.len()
        invariant
            forall|k: int| 0 <= k < pattern@.len() ==> #[trigger] pattern@[k] == EMPTY || is_letter(pattern@[k]),
            i <= pattern@.len(),
            res@ == pattern_mask_spec(pattern@, user_mask).take(i as int),
        decreases pattern@.len() - i,
    {
        if pattern[i] == EMPTY {
            res.push(user_mask);
        } else {
            res.push(encode_char(pattern[i]));
        }
        i = i + 1;
        assert(res@ =~= pattern_mask_spec(pattern@, user_mask).take(i as int));
    }
    assert(pattern_mask_spec(pattern@, user_mask).take(i as int) =~= pattern_mask_spec(pattern@, user_mask));
    res
}

/// The bitmask filter agrees with the rules: a word passes it when it agrees
/// with the tiles on the board, and a word that fails it agrees with no tile
/// or needs a letter that neither the rack nor a blank supplies.
pub proof fn lemma_mask_filter(pat: Seq<char>, w: Seq<char>, wmask: Seq<u32>, rack: Seq<char>)
    requires
        pat.len() == w.len(),
        wmask.len() == w.len(),
        forall|i: int| 0 <= i < w.len() ==> #[trigger] wmask[i] == encode_spec(w[i]),
        is_letter_word(w),
        forall|i: int| 0 <= i < pat.len() ==> #[trigger] pat[i] == EMPTY || is_letter(pat[i]),
        forall|i: int| 0 <= i < rack.len() ==> encodable(#[trigger] rack[i]),
    ensures
        masks_agree(wmask, pattern_mask_spec(pat, mask_of(rack))) ==> fixed_match(pat, w),
        !masks_agree(wmask, pattern_mask_spec(pat, mask_of(rack))) ==> !fixed_match(pat, w)
            || !rack_supplies(rack, placed_letters(pat, w)),
{
    let pm = pattern_mask_spec(pat, mask_of(rack));
    if masks_agree(wmask, pm) {
        assert forall|i: int| 0 <= i < pat.len() && pat[i] != EMPTY implies #[trigger] w[i] == pat[i] by {
            assert(wmask[i] & pm[i] != 0);
            lemma_encode_meets_letter(pat[i], w[i]);
            assert(is_letter(w[i]));
        }
    } else {
        let i = choose|i: int| 0 <= i < wmask.len() && !(wmask[i] & pm[i] != 0);
        assert(is_letter(w[i]));
        if pat[i] != EMPTY {
            lemma_encode_meets_letter(pat[i], w[i]);
        } else {
            let a = w[i];
            lemma_and_comm(wmask[i], pm[i]);
            lemma_mask_meets_letter(rack, a);
            assert(!rack.contains(a) && !rack.contains(WILD));
            crate::rules::lemma_slot_indices(pat);
            let j = choose|j: int| 0 <= j < slot_indices(pat).len() && slot_indices(pat)[j] == i;
            let need = placed_letters(pat, w);
            assert(need[j] == a);
            assert(need.contains(a));
            assert(occurrences(need, a) > 0);
            assert(occurrences(rack, a) == 0);
            assert(occurrences(rack, WILD) == 0);
            let li = (a as int) - 65;
            assert(nth_letter(li) == a);
            lemma_shortfall_covers(rack, need, 26, li);
        }
    }
}

/// Evaluates one dictionary word that agrees with the tiles on the board:
/// checks the rack, builds the tiles, scores the move and checks the
/// crossing words.
pub fn evaluate_candidate(
    board: &ScrabbleBoard,
    dict: &Dictionary,
    rack: &Vec<char>,
    row: usize,
    col: usize,
    horizontal: bool,
    start: usize,
    pattern: &Vec<char>,
    slots: &Vec<usize>,
    fixed_pts: u32,
    mult: u32,
    word: &Vec<char>,
) -> (res: Option<crate::common::PossibleMove>)
    requires
        board.wf(),
        board_letters(board@),
        dict.wf(),
        row < 15,
        col < 15,
        start + pattern@.len() <= 15,
        forall|i: int| 0 <= i < pattern@.len() ==> #[trigger] pattern@[i] == EMPTY || is_letter(pattern@[i]),
        slots@.len() == slot_indices(pattern@).len(),
        forall|j: int| 0 <= j < slots@.len() ==> #[trigger] slots@[j] as int == slot_indices(pattern@)[j],
        fixed_pts == fixed_points(pattern@),
        fixed_pts <= 150,
        mult == pattern_word_factor(row as int, col as int, horizontal, start as int, pattern@),
        1 <= mult <= 27,
        is_letter_word(word@),
        fixed_match(pattern@, word@),
    ensures
        match res {
            Some(m) => candidate_move(board@, dict@, rack@, row as int, col as int, horizontal, start as int, pattern@, word@) == Some(move_view(m)),
            None => candidate_move(board@, dict@, rack@, row as int, col as int, horizontal, start as int, pattern@, word@) is None,
        },
        res matches Some(m) ==> forall|i: int|
            0 <= i < m.tiles@.len() ==> (#[trigger] m.tiles@[i]).coords.0 < 15 && m.tiles@[i].coords.1 < 15
                && is_letter(m.tiles@[i].tile),
{
    proof {
        lemma_slot_indices(pattern@);
    }
    let need = build_placed_letters(pattern, slots, word);
    if !rack_can_supply(rack, &need) {
        return None;
    }
    let tiles = build_move_tiles(row, col, horizontal, start, pattern, slots, word);
    proof {
        assert forall|i: int| 0 <= i < word@.len() implies #[trigger] word@[i] <= 'Z' by {
            assert(is_letter(word@[i]));
        }
        assert forall|j: int| 0 <= j < tiles@.len() implies (#[trigger] tiles@[j]).coords.0 < 15
            && tiles@[j].coords.1 < 15 && is_letter(tiles@[j].tile) by {
            assert(tiles@[j].tile == word@[slot_indices(pattern@)[j]]);
        }
    }
    let placed = word_placed_points(row, col, horizontal, start, pattern, word);
    assert(mult * (fixed_pts + placed) <= 27 * 600) by (nonlinear_arith)
        requires
            mult <= 27,
            fixed_pts + placed <= 600,
    ;
    let mut score = mult * (fixed_pts + placed);
    if tiles.len() == 7 {
        score = score + 50;
    }
    assert(score == primary_points(row as int, col as int, horizontal, start as int, pattern@, word@));
    match cross_words_total(board, dict, &tiles, !horizontal) {
        None => None,
        Some(x) => {
            Some(crate::common::PossibleMove { tiles, score: score + x })
        },
    }
}

/// Every square of the pattern read from the board is empty or a letter.
pub proof fn lemma_spot_pattern_letters(g: Seq<char>, r: int, c: int, h: bool, k: nat)
    requires
        g.len() == 225,
        board_letters(g),
        0 <= r < 15,
        0 <= c < 15,
    ensures
        forall|i: int|
            0 <= i < spot_pattern(g, r, c, h, k).len() ==> #[trigger] spot_pattern(g, r, c, h, k)[i] == EMPTY
                || is_letter(spot_pattern(g, r, c, h, k)[i]),
{
    let p = line_pos(r, c, h);
    let b = tiles_before(g, r, c, h, p);
    crate::rules::lemma_tiles_before_bound(g, r, c, h, p);
    lemma_forward_letters(g, r, c, h, p, k);
    let pat = spot_pattern(g, r, c, h, k);
    assert forall|i: int| 0 <= i < pat.len() implies #[trigger] pat[i] == EMPTY || is_letter(pat[i]) by {
        if i < b {
            let q = line_coords(r, c, h, p - b + i);
            assert(pat[i] == line_cell(g, r, c, h, p - b + i));
            assert(g[q.0 * 15 + q.1] == pat[i]);
        } else {
            assert(pat[i] == forward_pattern(g, r, c, h, p, k)[i - b]);
        }
    }
}

/// Every square of a pattern read from a board of letters is empty or a letter.
pub proof fn lemma_forward_letters(g: Seq<char>, r: int, c: int, h: bool, p: int, k: nat)
    requires
        g.len() == 225,
        board_letters(g),
        0 <= r < 15,
        0 <= c < 15,
        0 <= p,
    ensures
        forall|i: int|
            0 <= i < forward_pattern(g, r, c, h, p, k).len() ==> #[trigger] forward_pattern(g, r, c, h, p, k)[i]
                == EMPTY || is_letter(forward_pattern(g, r, c, h, p, k)[i]),
    decreases 15 - p,
{
    if p < 15 {
        let q = line_coords(r, c, h, p);
        assert(g[q.0 * 15 + q.1] == line_cell(g, r, c, h, p));
        let f = forward_pattern(g, r, c, h, p, k);
        if line_cell(g, r, c, h, p) != EMPTY {
            lemma_forward_letters(g, r, c, h, p + 1, k);
            let rest = forward_pattern(g, r, c, h, p + 1, k);
            assert forall|i: int| 0 <= i < f.len() implies #[trigger] f[i] == EMPTY || is_letter(f[i]) by {
                if i > 0 {
                    assert(f[i] == rest[i - 1]);
                }
            }
        } else if k > 0 {
            lemma_forward_letters(g, r, c, h, p + 1, (k - 1) as nat);
            let rest = forward_pattern(g, r, c, h, p + 1, (k - 1) as nat);
            assert forall|i: int| 0 <= i < f.len() implies #[trigger] f[i] == EMPTY || is_letter(f[i]) by {
                if i > 0 {
                    assert(f[i] == rest[i - 1]);
                }
            }
        }
    }
}

/// Returns all the moves that place exactly `exact_tiles_to_play` tiles along
/// the row (`horizontal`) or column through the empty square (row, col),
/// using the tiles `rack` (blanks written `*`).
pub fn moves_from_spot_exact_length(
    board: &ScrabbleBoard,
    dict: &Dictionary,
    rack: &Vec<char>,
    row: usize,
    col: usize,
    horizontal: bool,
    exact_tiles_to_play: usize,
) -> (res: Vec<crate::common::PossibleMove>)
    requires
        board.wf(),
        board_letters(board@),
        dict.wf(),
        row < 15,
        col < 15,
        cell(board@, row as int, col as int) == EMPTY ==> forall|i: int| 0 <= i < rack@.len() ==> encodable(#[trigger] rack@[i]),
    ensures
        moves_view(res@) == spot_moves(board@, dict@, rack@, row as int, col as int, horizontal, exact_tiles_to_play as nat),
        forall|m: int, i: int|
            0 <= m < res@.len() && 0 <= i < res@[m].tiles@.len() ==> (#[trigger] res@[m].tiles@[i]).coords.0 < 15
                && res@[m].tiles@[i].coords.1 < 15 && is_letter(res@[m].tiles@[i].tile),
{
    let ghost g = board@;
    let ghost k = exact_tiles_to_play as nat;
    // No move places no tile; and the spot must be empty.
    if board.get((row, col)) != EMPTY || exact_tiles_to_play == 0 {
        let empty: Vec<crate::common::PossibleMove> = Vec::new();
        assert(moves_view(empty@) =~= Seq::<(Seq<TilePlacement>, nat)>::empty());
        return empty;
    }
    let (start, pattern, placed) = spot_layout(board, row, col, horizontal, exact_tiles_to_play);
    // Out of board before all tiles were placed: no move.
    if placed != exact_tiles_to_play {
        let empty: Vec<crate::common::PossibleMove> = Vec::new();
        assert(moves_view(empty@) =~= Seq::<(Seq<TilePlacement>, nat)>::empty());
        return empty;
    }
    let slots = slots_of(&pattern);
    proof {
        lemma_slot_indices(pattern@);
        lemma_spot_pattern_letters(g, row as int, col as int, horizontal, k);
    }
    // A new tile must touch a tile on the board, unless the centre square is empty.
    let mut touches = false;
    let mut j: usize = 0;
    while j < slots.len()
        invariant
            board.wf(),
            g == board@,
            row < 15,
            col < 15,
            start + pattern@.len() <= 15,
            slots@.len() == slot_indices(pattern@).len(),
            forall|m: int| 0 <= m < slots@.len() ==> #[trigger] slots@[m] as int == slot_indices(pattern@)[m],
            forall|m: int| 0 <= m < slots@.len() ==> 0 <= #[trigger] slot_indices(pattern@)[m] < pattern@.len(),
            j <= slots@.len(),
            touches == exists|m: int|
                0 <= m < j && #[trigger] has_adjacent_tile(
                    g,
                    line_coords(row as int, col as int, horizontal, start + slot_indices(pattern@)[m]).0,
                    line_coords(row as int, col as int, horizontal, start + slot_indices(pattern@)[m]).1,
                ),
        decreases slots@.len() - j,
    {
        let i = slots[j];
        assert(slot_indices(pattern@)[j as int] == i);
        let coords = if horizontal {
            (row, start + i)
        } else {
            (start + i, col)
        };
        let ghost lc = line_coords(row as int, col as int, horizontal, start + slot_indices(pattern@)[j as int]);
        assert(coords.0 as int == lc.0 && coords.1 as int == lc.1);
        let adj = coord_has_adjacent_tile(board, coords);
        proof {
            if adj {
                assert(has_adjacent_tile(g, lc.0, lc.1));
            }
        }
        if adj {
            touches = true;
        }
        j = j + 1;
    }
    assert(touches == slots_touch(g, row as int, col as int, horizontal, start as int, pattern@));
    if !touches && board.get((7, 7)) != EMPTY {
        let empty: Vec<crate::common::PossibleMove> = Vec::new();
        assert(moves_view(empty@) =~= Seq::<(Seq<TilePlacement>, nat)>::empty());
        return empty;
    }
    // The rack encoded as a bitmask, for filtering candidate words.
    let user_tiles_bitmask = encode_char_seq(rack);
    let word_bitmask = pattern_bitmask(&pattern, user_tiles_bitmask);
    let fixed_pts = pattern_fixed_points(&pattern);
    let mult = pattern_word_mult(row, col, horizontal, start, &pattern);
    let candidates = dict.words_of_length(pattern.len());
    proof {
        dict.lemma_letter_words();
    }
    let mut possible_moves: Vec<crate::common::PossibleMove> = Vec::new();
    let mut n: usize = 0;
    while n < candidates.len()
        invariant
            board.wf(),
            board_letters(board@),
            dict.wf(),
            g == board@,
            row < 15,
            col < 15,
            start + pattern@.len() <= 15,
            forall|i: int| 0 <= i < pattern@.len() ==> #[trigger] pattern@[i] == EMPTY || is_letter(pattern@[i]),
            forall|i: int| 0 <= i < rack@.len() ==> encodable(#[trigger] rack@[i]),
            slots@.len() == slot_indices(pattern@).len(),
            forall|m: int| 0 <= m < slots@.len() ==> #[trigger] slots@[m] as int == slot_indices(pattern@)[m],
            fixed_pts == fixed_points(pattern@),
            fixed_pts <= 150,
            mult == pattern_word_factor(row as int, col as int, horizontal, start as int, pattern@),
            1 <= mult <= 27,
            word_bitmask@ == pattern_mask_spec(pattern@, mask_of(rack@)),
            bucket_words(candidates@) == words_of_len(dict@, pattern@.len()),
            forall|m: int| 0 <= m < candidates@.len() ==> entry_ok(#[trigger] candidates@[m]),
            forall|i: int| 0 <= i < dict@.len() ==> is_letter_word(#[trigger] dict@[i]),
            n <= candidates@.len(),
            moves_view(possible_moves@) == collect_moves(
                g,
                dict@,
                rack@,
                row as int,
                col as int,
                horizontal,
                start as int,
                pattern@,
                bucket_words(candidates@).take(n as int),
            ),
            forall|m: int, i: int|
                0 <= m < possible_moves@.len() && 0 <= i < possible_moves@[m].tiles@.len() ==> (#[trigger] possible_moves@[m].tiles@[i]).coords.0 < 15
                    && possible_moves@[m].tiles@[i].coords.1 < 15 && is_letter(possible_moves@[m].tiles@[i].tile),
        decreases candidates@.len() - n,
    {
        let entry = &candidates[n];
        let ghost w = entry.0@;
        assert(bucket_words(candidates@)[n as int] == w);
        assert(bucket_words(candidates@).take(n + 1).drop_last() =~= bucket_words(candidates@).take(n as int));
        assert(bucket_words(candidates@).take(n + 1).last() == w);
        proof {
            lemma_words_of_len_props(dict@, pattern@.len());
            assert(words_of_len(dict@, pattern@.len())[n as int] == w);
            assert(entry_ok(candidates@[n as int]));
            lemma_mask_filter(pattern@, w, entry.1@, rack@);
        }
        let ghost before = possible_moves@;
        if bitmasks_match(&entry.1, &word_bitmask) {
            match evaluate_candidate(board, dict, rack, row, col, horizontal, start, &pattern, &slots, fixed_pts, mult, &entry.0) {
                Some(m) => {
                    let ghost pm_before = possible_moves@;
                    possible_moves.push(m);
                    assert(moves_view(possible_moves@) =~= moves_view(before).push(move_view(m)));
                    assert forall|mm: int, i: int|
                        0 <= mm < possible_moves@.len() && 0 <= i < possible_moves@[mm].tiles@.len() implies (#[trigger] possible_moves@[mm].tiles@[i]).coords.0 < 15
                            && possible_moves@[mm].tiles@[i].coords.1 < 15 && is_letter(possible_moves@[mm].tiles@[i].tile) by {
                        if mm < pm_before.len() {
                            assert(possible_moves@[mm] == pm_before[mm]);
                        }
                    }
                },
                None => {},
            }
        }
        n = n + 1;
    }
    assert(bucket_words(candidates@).take(n as int) =~= bucket_words(candidates@));
    possible_moves
}

/// The words kept for length `n` have that length and come from the list.
pub proof fn lemma_words_of_len_props(words: Seq<Seq<char>>, n: nat)
    ensures
        forall|i: int| 0 <= i < words_of_len(words, n).len() ==> (#[trigger] words_of_len(words, n)[i]).len() == n
            && words.contains(words_of_len(words, n)[i]),
    decreases words.len(),
{
    if words.len() > 0 {
        lemma_words_of_len_props(words.drop_last(), n);
        let r = words_of_len(words.drop_last(), n);
        assert forall|i: int| 0 <= i < r.len() implies words.contains(#[trigger] r[i]) by {
            let j = choose|j: int| 0 <= j < words.drop_last().len() && words.drop_last()[j] == r[i];
            assert(words[j] == r[i]);
        }
        assert(words[words.len() - 1] == words.last());
    }
}

} // verus!
