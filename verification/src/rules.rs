//! What a move is, where it may go and what it scores, stated over the
//! squares of the board read row by row.
use vstd::prelude::*;
use crate::board::cell;
use crate::common::{
    ScoreModifier,
    is_letter, letter_factor, PossibleMove, letter_points, modifier_at, word_factor, TilePlacement, EMPTY, WILD,
};
use crate::dictionary::{is_letter_word, words_of_len};
use crate::tile_bag::{after_placing, lemma_supplied_letters_place, placement_chars};
use crate::utils::occurrences;

verus! {

/// Square at position `p` of the row (`h`) or column (not `h`) through (r, c).
pub open spec fn line_coords(r: int, c: int, h: bool, p: int) -> (int, int) {
    if h {
        (r, p)
    } else {
        (p, c)
    }
}

/// Character at position `p` of the line through (r, c).
pub open spec fn line_cell(g: Seq<char>, r: int, c: int, h: bool, p: int) -> char {
    let q = line_coords(r, c, h, p);
    cell(g, q.0, q.1)
}

/// Position of (r, c) on its row (`h`) or column.
pub open spec fn line_pos(r: int, c: int, h: bool) -> int {
    if h {
        c
    } else {
        r
    }
}

/// Number of consecutive tiles right before position `p` of the line.
pub open spec fn tiles_before(g: Seq<char>, r: int, c: int, h: bool, p: int) -> nat
    decreases p,
{
    if p <= 0 {
        0
    } else if line_cell(g, r, c, h, p - 1) == EMPTY {
        0
    } else {
        1 + tiles_before(g, r, c, h, p - 1)
    }
}

/// Number of consecutive tiles right after position `p` of the line.
pub open spec fn tiles_after(g: Seq<char>, r: int, c: int, h: bool, p: int) -> nat
    decreases 15 - p,
{
    if p >= 14 {
        0
    } else if line_cell(g, r, c, h, p + 1) == EMPTY {
        0
    } else {
        1 + tiles_after(g, r, c, h, p + 1)
    }
}

/// The `n` characters of the line from position `a` on.
pub open spec fn line_segment(g: Seq<char>, r: int, c: int, h: bool, a: int, n: nat) -> Seq<char> {
    Seq::new(n, |i: int| line_cell(g, r, c, h, a + i))
}

/// The squares read from position `p` on while `k` tiles remain to be placed:
/// a tile on the board reads as itself, an empty square as `EMPTY` (a square
/// that receives a new tile) while tiles remain; reading stops at the edge of
/// the board or at an empty square once no tile remains.
pub open spec fn forward_pattern(g: Seq<char>, r: int, c: int, h: bool, p: int, k: nat) -> Seq<char>
    decreases 15 - p,
{
    if p >= 15 {
        seq![]
    } else if line_cell(g, r, c, h, p) != EMPTY {
        seq![line_cell(g, r, c, h, p)] + forward_pattern(g, r, c, h, p + 1, k)
    } else if k == 0 {
        seq![]
    } else {
        seq![EMPTY] + forward_pattern(g, r, c, h, p + 1, (k - 1) as nat)
    }
}

/// How many of the `k` tiles find an empty square before the edge of the board.
pub open spec fn forward_placed(g: Seq<char>, r: int, c: int, h: bool, p: int, k: nat) -> nat
    decreases 15 - p,
{
    if p >= 15 {
        0
    } else if line_cell(g, r, c, h, p) != EMPTY {
        forward_placed(g, r, c, h, p + 1, k)
    } else if k == 0 {
        0
    } else {
        1 + forward_placed(g, r, c, h, p + 1, (k - 1) as nat)
    }
}

/// Line position where a word through the empty square (r, c) begins: the
/// tiles right before the square belong to it.
pub open spec fn spot_start(g: Seq<char>, r: int, c: int, h: bool) -> int {
    line_pos(r, c, h) - tiles_before(g, r, c, h, line_pos(r, c, h))
}

/// The squares of the word formed by placing `k` tiles from (r, c) on:
/// the tiles before the square, then the forward pattern.
pub open spec fn spot_pattern(g: Seq<char>, r: int, c: int, h: bool, k: nat) -> Seq<char> {
    let p = line_pos(r, c, h);
    let b = tiles_before(g, r, c, h, p);
    line_segment(g, r, c, h, p - b, b) + forward_pattern(g, r, c, h, p, k)
}

/// Indices of the `EMPTY` entries of a pattern, ascending.
pub open spec fn slot_indices(pat: Seq<char>) -> Seq<int>
    decreases pat.len(),
{
    if pat.len() == 0 {
        seq![]
    } else {
        let s = slot_indices(pat.drop_last());
        if pat.last() == EMPTY {
            s.push(pat.len() - 1)
        } else {
            s
        }
    }
}

/// True when some square of the board next to (r, c) holds a tile.
pub open spec fn has_adjacent_tile(g: Seq<char>, r: int, c: int) -> bool {
    ||| (r > 0 && cell(g, r - 1, c) != EMPTY)
    ||| (c > 0 && cell(g, r, c - 1) != EMPTY)
    ||| (c < 14 && cell(g, r, c + 1) != EMPTY)
    ||| (r < 14 && cell(g, r + 1, c) != EMPTY)
}

/// True when one of the squares receiving a new tile touches a tile.
pub open spec fn slots_touch(g: Seq<char>, r: int, c: int, h: bool, start: int, pat: Seq<char>) -> bool {
    exists|j: int|
        0 <= j < slot_indices(pat).len() && #[trigger] has_adjacent_tile(
            g,
            line_coords(r, c, h, start + slot_indices(pat)[j]).0,
            line_coords(r, c, h, start + slot_indices(pat)[j]).1,
        )
}

/// The word agrees with every tile already in the pattern.
pub open spec fn fixed_match(pat: Seq<char>, w: Seq<char>) -> bool {
    &&& pat.len() == w.len()
    &&& forall|i: int| 0 <= i < pat.len() && pat[i] != EMPTY ==> #[trigger] w[i] == pat[i]
}

/// The letters of the word that go on the empty squares, in order.
pub open spec fn placed_letters(pat: Seq<char>, w: Seq<char>) -> Seq<char> {
    slot_indices(pat).map_values(|i: int| w[i])
}

/// The tile `t` put on position `p` of the line through (r, c).
pub open spec fn placement_on_line(r: int, c: int, h: bool, p: int, t: char) -> TilePlacement {
    TilePlacement {
        coords: (line_coords(r, c, h, p).0 as usize, line_coords(r, c, h, p).1 as usize),
        tile: t,
    }
}

/// The tiles the move places.
pub open spec fn move_tiles(r: int, c: int, h: bool, start: int, pat: Seq<char>, w: Seq<char>) -> Seq<
    TilePlacement,
> {
    slot_indices(pat).map_values(|i: int| placement_on_line(r, c, h, start + i, w[i]))
}

/// The `i`-th capital letter (0 is `A`).
pub open spec fn nth_letter(i: int) -> char {
    (65 + i) as char
}

/// Tiles that the rack lacks among the first `n` letters of the alphabet.
pub open spec fn shortfall(rack: Seq<char>, need: Seq<char>, n: int) -> nat
    decreases n,
{
    if n <= 0 {
        0
    } else {
        let d = occurrences(need, nth_letter(n - 1)) - occurrences(rack, nth_letter(n - 1));
        shortfall(rack, need, n - 1) + (if d > 0 {
            d as nat
        } else {
            0
        })
    }
}

/// The rack holds the needed letters, blanks standing in for the letters it lacks.
pub open spec fn rack_supplies(rack: Seq<char>, need: Seq<char>) -> bool {
    shortfall(rack, need, 26) <= occurrences(rack, WILD)
}

/// Sum of the points of the characters of `s`.
pub open spec fn sum_points(s: Seq<char>) -> nat
    decreases s.len(),
{
    if s.len() == 0 {
        0
    } else {
        sum_points(s.drop_last()) + letter_points(s.last())
    }
}

/// Product of the word factors of the squares that receive a tile.
pub open spec fn pattern_word_factor(r: int, c: int, h: bool, start: int, pat: Seq<char>) -> nat
    decreases pat.len(),
{
    if pat.len() == 0 {
        1
    } else {
        let rest = pattern_word_factor(r, c, h, start, pat.drop_last());
        if pat.last() == EMPTY {
            let q = line_coords(r, c, h, start + pat.len() - 1);
            rest * word_factor(modifier_at(q.0, q.1))
        } else {
            rest
        }
    }
}

/// Points of the tiles already on the board within the pattern (no bonus).
pub open spec fn fixed_points(pat: Seq<char>) -> nat
    decreases pat.len(),
{
    if pat.len() == 0 {
        0
    } else {
        fixed_points(pat.drop_last()) + (if pat.last() != EMPTY {
            letter_points(pat.last())
        } else {
            0
        })
    }
}

/// Points of the new tiles within the pattern, with their letter factors.
pub open spec fn placed_points(r: int, c: int, h: bool, start: int, pat: Seq<char>, w: Seq<char>) -> nat
    decreases pat.len(),
{
    if pat.len() == 0 {
        0
    } else {
        let i = pat.len() - 1;
        let rest = placed_points(r, c, h, start, pat.drop_last(), w);
        if pat.last() == EMPTY {
            let q = line_coords(r, c, h, start + i);
            rest + letter_points(w[i]) * letter_factor(modifier_at(q.0, q.1))
        } else {
            rest
        }
    }
}

/// Points of the word the move lays along its own line, with the bonus of
/// 50 points for a move that places seven tiles.
pub open spec fn primary_points(r: int, c: int, h: bool, start: int, pat: Seq<char>, w: Seq<char>) -> nat {
    pattern_word_factor(r, c, h, start, pat) * (fixed_points(pat) + placed_points(
        r,
        c,
        h,
        start,
        pat,
        w,
    )) + (if slot_indices(pat).len() == 7 {
        50nat
    } else {
        0nat
    })
}

/// The word formed across the move's line through the new tile `t` on square q:
/// the tiles before q along direction `h`, then `t`, then the tiles after q.
pub open spec fn cross_word(g: Seq<char>, q: (int, int), t: char, h: bool) -> Seq<char> {
    let p = line_pos(q.0, q.1, h);
    let b = tiles_before(g, q.0, q.1, h, p);
    let a = tiles_after(g, q.0, q.1, h, p);
    line_segment(g, q.0, q.1, h, p - b, b) + seq![t] + line_segment(g, q.0, q.1, h, p + 1, a)
}

/// Points of that crossing word: the bonus of q applies to the new tile and
/// to the crossing word.
pub open spec fn cross_points(g: Seq<char>, q: (int, int), t: char, h: bool) -> nat {
    let w = cross_word(g, q, t, h);
    ((sum_points(w) - letter_points(t) + letter_points(t) * letter_factor(modifier_at(q.0, q.1))) as nat)
        * word_factor(modifier_at(q.0, q.1))
}

/// Sum of the points of the crossing words of the tiles (direction `h`), or
/// `None` when one crossing word of two letters or more is not a word.
pub open spec fn cross_total(g: Seq<char>, dict: Seq<Seq<char>>, tiles: Seq<TilePlacement>, h: bool) -> Option<nat>
    decreases tiles.len(),
{
    if tiles.len() == 0 {
        Some(0)
    } else {
        match cross_total(g, dict, tiles.drop_last(), h) {
            None => None,
            Some(s) => {
                let t = tiles.last();
                let q = (t.coords.0 as int, t.coords.1 as int);
                let w = cross_word(g, q, t.tile, h);
                if w.len() <= 1 {
                    Some(s)
                } else if !dict.contains(w) {
                    None
                } else {
                    Some(s + cross_points(g, q, t.tile, h))
                }
            },
        }
    }
}

/// The move that dictionary word `w` makes through pattern `pat`, with its
/// score, or `None` when the word does not fit the tiles on the board, the
/// rack cannot supply its new letters, or a crossing word is invalid.
pub open spec fn candidate_move(
    g: Seq<char>,
    dict: Seq<Seq<char>>,
    rack: Seq<char>,
    r: int,
    c: int,
    h: bool,
    start: int,
    pat: Seq<char>,
    w: Seq<char>,
) -> Option<(Seq<TilePlacement>, nat)> {
    if !fixed_match(pat, w) || !rack_supplies(rack, placed_letters(pat, w)) {
        None
    } else {
        let tiles = move_tiles(r, c, h, start, pat, w);
        match cross_total(g, dict, tiles, !h) {
            None => None,
            Some(x) => Some((tiles, primary_points(r, c, h, start, pat, w) + x)),
        }
    }
}

/// The moves of the candidate words, in their order.
pub open spec fn collect_moves(
    g: Seq<char>,
    dict: Seq<Seq<char>>,
    rack: Seq<char>,
    r: int,
    c: int,
    h: bool,
    start: int,
    pat: Seq<char>,
    cands: Seq<Seq<char>>,
) -> Seq<(Seq<TilePlacement>, nat)>
    decreases cands.len(),
{
    if cands.len() == 0 {
        seq![]
    } else {
        let rest = collect_moves(g, dict, rack, r, c, h, start, pat, cands.drop_last());
        match candidate_move(g, dict, rack, r, c, h, start, pat, cands.last()) {
            Some(m) => rest.push(m),
            None => rest,
        }
    }
}

/// The moves that place exactly `k` tiles along the line through the empty
/// square (r, c), the first new tile going on (r, c): none when the square
/// holds a tile, when `k` is zero, when the `k` tiles would run past the edge of the board, or
/// when no new tile touches a tile while the centre square is occupied;
/// otherwise one move for each dictionary word of the pattern's length that
/// fits, in dictionary order.
pub open spec fn spot_moves(
    g: Seq<char>,
    dict: Seq<Seq<char>>,
    rack: Seq<char>,
    r: int,
    c: int,
    h: bool,
    k: nat,
) -> Seq<(Seq<TilePlacement>, nat)> {
    let p = line_pos(r, c, h);
    let pat = spot_pattern(g, r, c, h, k);
    let start = spot_start(g, r, c, h);
    if cell(g, r, c) != EMPTY || k == 0 {
        seq![]
    } else if forward_placed(g, r, c, h, p, k) != k {
        seq![]
    } else if !slots_touch(g, r, c, h, start, pat) && cell(g, 7, 7) != EMPTY {
        seq![]
    } else {
        collect_moves(g, dict, rack, r, c, h, start, pat, words_of_len(dict, pat.len()))
    }
}

// ----- bounds on the word factors along a line -----

/// Word factor of position `q` of the line with index `l` (a row index for a
/// horizontal line, a column index for a vertical one).
pub open spec fn line_factor(l: int, q: int) -> nat {
    let f = crate::common::fold_index(l);
    if f == 0 {
        if q == 0 || q == 7 || q == 14 {
            3
        } else {
            1
        }
    } else if f == 7 {
        if q == 0 || q == 14 {
            3
        } else {
            1
        }
    } else if 1 <= f <= 4 {
        if q == f || q == 14 - f {
            2
        } else {
            1
        }
    } else {
        1
    }
}

/// Product of the word factors of line positions `a` to `b - 1`.
pub open spec fn range_factor(l: int, a: int, b: int) -> nat
    decreases b - a,
{
    if b <= a {
        1
    } else {
        range_factor(l, a, b - 1) * line_factor(l, b - 1)
    }
}

/// 1 when a <= x < b, else 0.
pub open spec fn in_range(a: int, b: int, x: int) -> nat {
    if a <= x && x < b {
        1
    } else {
        0
    }
}

/// Number of positions in [a, b) whose word factor exceeds 1.
pub open spec fn special_count(l: int, a: int, b: int) -> nat {
    let f = crate::common::fold_index(l);
    if f == 0 {
        in_range(a, b, 0) + in_range(a, b, 7) + in_range(a, b, 14)
    } else if f == 7 {
        in_range(a, b, 0) + in_range(a, b, 14)
    } else if 1 <= f <= 4 {
        in_range(a, b, f) + in_range(a, b, 14 - f)
    } else {
        0
    }
}

pub open spec fn pow_nat(base: nat, n: nat) -> nat
    decreases n,
{
    if n == 0 {
        1
    } else {
        base * pow_nat(base, (n - 1) as nat)
    }
}

/// The factor that the special squares of line `l` carry.
pub open spec fn special_factor(l: int) -> nat {
    let f = crate::common::fold_index(l);
    if f == 0 || f == 7 {
        3
    } else {
        2
    }
}

/// The word factor of a square is the factor of its line at that position.
pub proof fn lemma_line_factor(r: int, c: int, h: bool, q: int)
    requires
        0 <= r < 15,
        0 <= c < 15,
        0 <= q < 15,
    ensures
        word_factor(modifier_at(line_coords(r, c, h, q).0, line_coords(r, c, h, q).1)) == line_factor(
            if h {
                r
            } else {
                c
            },
            q,
        ),
{
}

/// The word factor of a stretch of a line is its special factor raised to the
/// number of special squares in the stretch.
pub proof fn lemma_range_factor_closed(l: int, a: int, b: int)
    requires
        0 <= l < 15,
        0 <= a <= b <= 15,
    ensures
        range_factor(l, a, b) == pow_nat(special_factor(l), special_count(l, a, b)),
    decreases b - a,
{
    if b > a {
        lemma_range_factor_closed(l, a, b - 1);
        let n = special_count(l, a, b - 1);
        if line_factor(l, b - 1) > 1 {
            assert(special_count(l, a, b) == n + 1);
            assert(pow_nat(special_factor(l), n + 1) == special_factor(l) * pow_nat(special_factor(l), n));
            assert(line_factor(l, b - 1) == special_factor(l));
            assert(range_factor(l, a, b) == pow_nat(special_factor(l), n) * special_factor(l));
            vstd::arithmetic::mul::lemma_mul_is_commutative(
                pow_nat(special_factor(l), n) as int,
                special_factor(l) as int,
            );
        } else {
            assert(special_count(l, a, b) == n);
        }
    }
}

/// A stretch of a line has a word factor between one and twenty-seven.
pub proof fn lemma_range_factor_bound(l: int, a: int, b: int)
    requires
        0 <= l < 15,
        0 <= a <= b <= 15,
    ensures
        1 <= range_factor(l, a, b) <= 27,
{
    lemma_range_factor_closed(l, a, b);
    let n = special_count(l, a, b);
    let f = special_factor(l);
    assert(n <= 3);
    reveal_with_fuel(pow_nat, 4);
    if f == 2 {
        assert(n <= 2);
    }
}

/// The word factor of the empty squares of a pattern lies between one and that
/// of its whole stretch.
pub proof fn lemma_pattern_factor_bound(r: int, c: int, h: bool, start: int, pat: Seq<char>)
    requires
        0 <= r < 15,
        0 <= c < 15,
        0 <= start,
        start + pat.len() <= 15,
    ensures
        1 <= pattern_word_factor(r, c, h, start, pat) <= range_factor(
            if h {
                r
            } else {
                c
            },
            start,
            start + pat.len(),
        ),
        pattern_word_factor(r, c, h, start, pat) <= 27,
    decreases pat.len(),
{
    let l = if h {
        r
    } else {
        c
    };
    lemma_range_factor_bound(l, start, start + pat.len());
    if pat.len() > 0 {
        let last = start + pat.len() - 1;
        lemma_pattern_factor_bound(r, c, h, start, pat.drop_last());
        lemma_line_factor(r, c, h, last);
        lemma_range_factor_bound(l, start, last);
        let x = pattern_word_factor(r, c, h, start, pat.drop_last());
        let y = range_factor(l, start, last);
        let f = line_factor(l, last);
        assert(range_factor(l, start, start + pat.len()) == y * f);
        assert(1 <= f <= 3);
        if pat.last() == EMPTY {
            assert(pattern_word_factor(r, c, h, start, pat) == x * f);
            assert(x * f <= y * f) by (nonlinear_arith)
                requires
                    x <= y,
                    1 <= f,
            ;
            assert(1 <= x * f) by (nonlinear_arith)
                requires
                    1 <= x,
                    1 <= f,
            ;
        } else {
            assert(y <= y * f) by (nonlinear_arith)
                requires
                    1 <= f,
                    0 <= y,
            ;
        }
    }
}

/// The tiles of a pattern are worth at most ten points each.
pub proof fn lemma_fixed_points_bound(pat: Seq<char>)
    ensures
        fixed_points(pat) <= 10 * pat.len(),
    decreases pat.len(),
{
    if pat.len() > 0 {
        lemma_fixed_points_bound(pat.drop_last());
    }
}

/// A tile is worth at most ten points.
pub proof fn lemma_sum_points_bound(s: Seq<char>)
    ensures
        sum_points(s) <= 10 * s.len(),
    decreases s.len(),
{
    if s.len() > 0 {
        lemma_sum_points_bound(s.drop_last());
    }
}

/// A new tile is worth at most thirty points with its letter factor.
pub proof fn lemma_placed_points_bound(r: int, c: int, h: bool, start: int, pat: Seq<char>, w: Seq<char>)
    ensures
        placed_points(r, c, h, start, pat, w) <= 30 * pat.len(),
    decreases pat.len(),
{
    if pat.len() > 0 {
        lemma_placed_points_bound(r, c, h, start, pat.drop_last(), w);
        let i = pat.len() - 1;
        let q = line_coords(r, c, h, start + i);
        let lp = letter_points(w[i]);
        let lf = letter_factor(modifier_at(q.0, q.1));
        assert(lp * lf <= 30) by (nonlinear_arith)
            requires
                lp <= 10,
                lf <= 3,
        ;
    }
}

/// Every square is empty or holds a capital letter.
pub open spec fn board_letters(g: Seq<char>) -> bool {
    forall|i: int| 0 <= i < g.len() ==> (#[trigger] g[i] == EMPTY || is_letter(g[i]))
}

/// The points of joined characters add up.
pub proof fn lemma_sum_points_add(a: Seq<char>, b: Seq<char>)
    ensures
        sum_points(a + b) == sum_points(a) + sum_points(b),
    decreases b.len(),
{
    if b.len() > 0 {
        lemma_sum_points_add(a, b.drop_last());
        assert((a + b).drop_last() =~= a + b.drop_last());
    } else {
        assert(a + b =~= a);
    }
}

/// At most `p` tiles stand before position `p` of a line.
pub proof fn lemma_tiles_before_bound(g: Seq<char>, r: int, c: int, h: bool, p: int)
    requires
        0 <= p,
    ensures
        tiles_before(g, r, c, h, p) <= p,
    decreases p,
{
    if p > 0 {
        lemma_tiles_before_bound(g, r, c, h, p - 1);
    }
}

/// The tiles after position `p` of a line end within the line.
pub proof fn lemma_tiles_after_bound(g: Seq<char>, r: int, c: int, h: bool, p: int)
    requires
        p <= 14,
    ensures
        p + tiles_after(g, r, c, h, p) <= 14,
    decreases 15 - p,
{
    if p < 14 {
        lemma_tiles_after_bound(g, r, c, h, p + 1);
    }
}

/// A crossing word on a board of letters consists of letters when its new tile does.
pub proof fn lemma_cross_word_letters(g: Seq<char>, q: (int, int), t: char, h: bool)
    requires
        g.len() == 225,
        board_letters(g),
        0 <= q.0 < 15,
        0 <= q.1 < 15,
        is_letter(t),
    ensures
        cross_word(g, q, t, h).len() <= 15,
        forall|i: int| 0 <= i < cross_word(g, q, t, h).len() ==> is_letter(#[trigger] cross_word(g, q, t, h)[i]),
{
    let p = line_pos(q.0, q.1, h);
    let b = tiles_before(g, q.0, q.1, h, p);
    let a = tiles_after(g, q.0, q.1, h, p);
    lemma_tiles_before_bound(g, q.0, q.1, h, p);
    lemma_tiles_after_bound(g, q.0, q.1, h, p);
    lemma_tiles_before_nonempty(g, q.0, q.1, h, p);
    lemma_tiles_after_nonempty(g, q.0, q.1, h, p);
    let w = cross_word(g, q, t, h);
    assert forall|i: int| 0 <= i < w.len() implies is_letter(#[trigger] w[i]) by {
        if i < b {
            let qq = line_coords(q.0, q.1, h, p - b + i);
            assert(w[i] == line_cell(g, q.0, q.1, h, p - b + i));
            assert(g[qq.0 * 15 + qq.1] == w[i]);
        } else if i > b {
            let qq = line_coords(q.0, q.1, h, p + 1 + (i - b - 1));
            assert(w[i] == line_cell(g, q.0, q.1, h, p + 1 + (i - b - 1)));
            assert(g[qq.0 * 15 + qq.1] == w[i]);
        }
    }
}

/// The squares counted by `tiles_before` hold tiles.
pub proof fn lemma_tiles_before_nonempty(g: Seq<char>, r: int, c: int, h: bool, p: int)
    ensures
        forall|x: int|
            p - tiles_before(g, r, c, h, p) <= x < p ==> #[trigger] line_cell(g, r, c, h, x) != EMPTY,
    decreases p,
{
    if p > 0 && line_cell(g, r, c, h, p - 1) != EMPTY {
        lemma_tiles_before_nonempty(g, r, c, h, p - 1);
    }
}

/// The squares counted by `tiles_after` hold tiles.
pub proof fn lemma_tiles_after_nonempty(g: Seq<char>, r: int, c: int, h: bool, p: int)
    ensures
        forall|x: int|
            p < x <= p + tiles_after(g, r, c, h, p) ==> #[trigger] line_cell(g, r, c, h, x) != EMPTY,
    decreases 15 - p,
{
    if p < 14 && line_cell(g, r, c, h, p + 1) != EMPTY {
        lemma_tiles_after_nonempty(g, r, c, h, p + 1);
    }
}

/// The slots of a pattern are its empty squares, each once, in increasing order.
pub proof fn lemma_slot_indices(pat: Seq<char>)
    ensures
        slot_indices(pat).len() <= pat.len(),
        forall|j: int|
            0 <= j < slot_indices(pat).len() ==> 0 <= #[trigger] slot_indices(pat)[j] < pat.len()
                && pat[slot_indices(pat)[j]] == EMPTY,
        forall|j1: int, j2: int|
            0 <= j1 < j2 < slot_indices(pat).len() ==> #[trigger] slot_indices(pat)[j1]
                < #[trigger] slot_indices(pat)[j2],
        forall|i: int|
            0 <= i < pat.len() && #[trigger] pat[i] == EMPTY ==> exists|j: int|
                0 <= j < slot_indices(pat).len() && slot_indices(pat)[j] == i,
    decreases pat.len(),
{
    if pat.len() > 0 {
        let t = pat.drop_last();
        lemma_slot_indices(t);
        assert forall|i: int| 0 <= i < pat.len() && #[trigger] pat[i] == EMPTY implies exists|j: int|
            0 <= j < slot_indices(pat).len() && slot_indices(pat)[j] == i by {
            if i < pat.len() - 1 {
                assert(t[i] == EMPTY);
                let j = choose|j: int| 0 <= j < slot_indices(t).len() && slot_indices(t)[j] == i;
                assert(slot_indices(pat)[j] == i);
            } else {
                assert(slot_indices(pat)[slot_indices(t).len() as int] == i);
            }
        }
    }
}

/// A move as its tiles and score.
pub open spec fn move_view(m: PossibleMove) -> (Seq<TilePlacement>, nat) {
    (m.tiles@, m.score as nat)
}

/// A list of moves as tiles and scores.
pub open spec fn moves_view(v: Seq<PossibleMove>) -> Seq<(Seq<TilePlacement>, nat)> {
    v.map_values(|m: PossibleMove| move_view(m))
}


/// Every tile of every move lies on the board and is a capital letter.
pub open spec fn moves_on_board(v: Seq<PossibleMove>) -> bool {
    forall|m: int, i: int|
        0 <= m < v.len() && 0 <= i < v[m].tiles@.len() ==> (#[trigger] v[m].tiles@[i]).coords.0 < 15
            && v[m].tiles@[i].coords.1 < 15 && is_letter(v[m].tiles@[i].tile)
}

/// The moves through the empty square (r, c) along one line that place
/// from `lo` up to `n - 1` tiles, fewest tiles first.
pub open spec fn spot_moves_upto(
    g: Seq<char>,
    dict: Seq<Seq<char>>,
    rack: Seq<char>,
    r: int,
    c: int,
    h: bool,
    lo: nat,
    n: nat,
) -> Seq<(Seq<TilePlacement>, nat)>
    decreases n,
{
    if n <= lo {
        seq![]
    } else {
        spot_moves_upto(g, dict, rack, r, c, h, lo, (n - 1) as nat) + spot_moves(g, dict, rack, r, c, h, (n - 1) as nat)
    }
}

/// The moves from square `idx` (counted row by row): none when it holds a
/// tile, else those along its row and then those along its column, each
/// placing from one tile up to the whole rack.
pub open spec fn square_moves(g: Seq<char>, dict: Seq<Seq<char>>, rack: Seq<char>, idx: int) -> Seq<
    (Seq<TilePlacement>, nat),
> {
    let r = idx / 15;
    let c = idx % 15;
    if cell(g, r, c) != EMPTY {
        seq![]
    } else {
        spot_moves_upto(g, dict, rack, r, c, true, 1, rack.len() + 1) + spot_moves_upto(
            g,
            dict,
            rack,
            r,
            c,
            false,
            1,
            rack.len() + 1,
        )
    }
}

/// The moves from the first `n` squares, square by square.
pub open spec fn board_moves(g: Seq<char>, dict: Seq<Seq<char>>, rack: Seq<char>, n: nat) -> Seq<
    (Seq<TilePlacement>, nat),
>
    decreases n,
{
    if n == 0 {
        seq![]
    } else {
        board_moves(g, dict, rack, (n - 1) as nat) + square_moves(g, dict, rack, n - 1)
    }
}

/// Every move the rack can make: from the centre square only while it is
/// empty, else from every empty square of the board.
pub open spec fn all_moves(g: Seq<char>, dict: Seq<Seq<char>>, rack: Seq<char>) -> Seq<(Seq<TilePlacement>, nat)> {
    if cell(g, 7, 7) == EMPTY {
        square_moves(g, dict, rack, 112)
    } else {
        board_moves(g, dict, rack, 225)
    }
}

/// Joining lists of moves joins their views, and keeps them on the board.
pub proof fn lemma_moves_append(a: Seq<PossibleMove>, b: Seq<PossibleMove>)
    ensures
        moves_view(a + b) == moves_view(a) + moves_view(b),
        moves_on_board(a) && moves_on_board(b) ==> moves_on_board(a + b),
{
    assert(moves_view(a + b) =~= moves_view(a) + moves_view(b));
    if moves_on_board(a) && moves_on_board(b) {
        assert forall|m: int, i: int| 0 <= m < (a + b).len() && 0 <= i < (a + b)[m].tiles@.len() implies (#[trigger] (a
            + b)[m].tiles@[i]).coords.0 < 15 && (a + b)[m].tiles@[i].coords.1 < 15 && is_letter(
            (a + b)[m].tiles@[i].tile,
        ) by {
            if m < a.len() {
                assert((a + b)[m] == a[m]);
                assert(a[m].tiles@[i] == (a + b)[m].tiles@[i]);
            } else {
                assert((a + b)[m] == b[m - a.len()]);
                assert(b[m - a.len()].tiles@[i] == (a + b)[m].tiles@[i]);
            }
        }
    }
}

/// The move places at least one tile, and its tiles can be put down from
/// `rack` one after another.
pub open spec fn move_playable(rack: Seq<char>, x: (Seq<TilePlacement>, nat)) -> bool {
    &&& x.0.len() >= 1
    &&& after_placing(rack.to_multiset(), placement_chars(x.0)) is Some
}

/// Every move of the list is playable from `rack`.
pub open spec fn all_playable(rack: Seq<char>, s: Seq<(Seq<TilePlacement>, nat)>) -> bool {
    forall|i: int| 0 <= i < s.len() ==> move_playable(rack, #[trigger] s[i])
}

proof fn lemma_all_playable_concat(rack: Seq<char>, a: Seq<(Seq<TilePlacement>, nat)>, b: Seq<(Seq<TilePlacement>, nat)>)
    requires
        all_playable(rack, a),
        all_playable(rack, b),
    ensures
        all_playable(rack, a + b),
{
    assert forall|i: int| 0 <= i < (a + b).len() implies move_playable(rack, #[trigger] (a + b)[i]) by {
        if i < a.len() {
            assert((a + b)[i] == a[i]);
        } else {
            assert((a + b)[i] == b[i - a.len()]);
        }
    }
}

proof fn lemma_slots_concat(a: Seq<char>, b: Seq<char>)
    ensures
        slot_indices(a + b).len() == slot_indices(a).len() + slot_indices(b).len(),
    decreases b.len(),
{
    if b.len() == 0 {
        assert(a + b =~= a);
    } else {
        lemma_slots_concat(a, b.drop_last());
        assert((a + b).drop_last() =~= a + b.drop_last());
        assert((a + b).last() == b.last());
    }
}

proof fn lemma_no_slots(s: Seq<char>)
    requires
        forall|i: int| 0 <= i < s.len() ==> #[trigger] s[i] != EMPTY,
    ensures
        slot_indices(s).len() == 0,
    decreases s.len(),
{
    if s.len() > 0 {
        lemma_no_slots(s.drop_last());
    }
}

proof fn lemma_forward_slots(g: Seq<char>, r: int, c: int, h: bool, p: int, k: nat)
    ensures
        slot_indices(forward_pattern(g, r, c, h, p, k)).len() == forward_placed(g, r, c, h, p, k),
    decreases 15 - p,
{
    if p < 15 {
        let x = line_cell(g, r, c, h, p);
        if x != EMPTY {
            lemma_forward_slots(g, r, c, h, p + 1, k);
            lemma_slots_concat(seq![x], forward_pattern(g, r, c, h, p + 1, k));
            lemma_no_slots(seq![x]);
        } else if k > 0 {
            lemma_forward_slots(g, r, c, h, p + 1, (k - 1) as nat);
            lemma_slots_concat(seq![EMPTY], forward_pattern(g, r, c, h, p + 1, (k - 1) as nat));
            assert(seq![EMPTY].drop_last() =~= Seq::<char>::empty());
            assert(slot_indices(Seq::<char>::empty()).len() == 0);
            assert(slot_indices(seq![EMPTY]).len() == 1);
        } else {
            assert(forward_pattern(g, r, c, h, p, k) =~= Seq::<char>::empty());
        }
    } else {
        assert(forward_pattern(g, r, c, h, p, k) =~= Seq::<char>::empty());
    }
}

proof fn lemma_collect_playable(
    g: Seq<char>,
    dict: Seq<Seq<char>>,
    rack: Seq<char>,
    r: int,
    c: int,
    h: bool,
    start: int,
    pat: Seq<char>,
    cands: Seq<Seq<char>>,
)
    requires
        forall|i: int| 0 <= i < cands.len() ==> is_letter_word(#[trigger] cands[i]),
    ensures
        forall|i: int|
            0 <= i < collect_moves(g, dict, rack, r, c, h, start, pat, cands).len() ==> {
                let x = #[trigger] collect_moves(g, dict, rack, r, c, h, start, pat, cands)[i];
                &&& x.0.len() == slot_indices(pat).len()
                &&& after_placing(rack.to_multiset(), placement_chars(x.0)) is Some
            },
    decreases cands.len(),
{
    if cands.len() > 0 {
        let rest = collect_moves(g, dict, rack, r, c, h, start, pat, cands.drop_last());
        lemma_collect_playable(g, dict, rack, r, c, h, start, pat, cands.drop_last());
        let w = cands.last();
        assert(is_letter_word(cands[cands.len() - 1]));
        match candidate_move(g, dict, rack, r, c, h, start, pat, w) {
            Some(x) => {
                let all = rest.push(x);
                lemma_slot_indices(pat);
                let need = placed_letters(pat, w);
                assert forall|i: int| 0 <= i < need.len() implies is_letter(#[trigger] need[i]) by {
                    assert(need[i] == w[slot_indices(pat)[i]]);
                }
                lemma_supplied_letters_place(rack, need);
                assert(placement_chars(x.0) =~= need);
                assert forall|i: int| 0 <= i < all.len() implies {
                    let y = #[trigger] all[i];
                    &&& y.0.len() == slot_indices(pat).len()
                    &&& after_placing(rack.to_multiset(), placement_chars(y.0)) is Some
                } by {
                    if i < rest.len() {
                        assert(all[i] == rest[i]);
                    }
                }
            },
            None => {},
        }
    }
}

proof fn lemma_spot_playable(g: Seq<char>, dict: Seq<Seq<char>>, rack: Seq<char>, r: int, c: int, h: bool, k: nat)
    requires
        k >= 1,
        forall|i: int| 0 <= i < dict.len() ==> is_letter_word(#[trigger] dict[i]),
    ensures
        all_playable(rack, spot_moves(g, dict, rack, r, c, h, k)),
{
    let p = line_pos(r, c, h);
    let pat = spot_pattern(g, r, c, h, k);
    let start = spot_start(g, r, c, h);
    if cell(g, r, c) == EMPTY && forward_placed(g, r, c, h, p, k) == k && (slots_touch(g, r, c, h, start, pat)
        || cell(g, 7, 7) == EMPTY) {
        let cands = words_of_len(dict, pat.len());
        crate::movegen::lemma_words_of_len_props(dict, pat.len());
        assert forall|i: int| 0 <= i < cands.len() implies is_letter_word(#[trigger] cands[i]) by {
            assert(dict.contains(cands[i]));
            let j = choose|j: int| 0 <= j < dict.len() && dict[j] == cands[i];
            assert(is_letter_word(dict[j]));
        }
        lemma_collect_playable(g, dict, rack, r, c, h, start, pat, cands);
        let b = tiles_before(g, r, c, h, p);
        let seg = line_segment(g, r, c, h, p - b, b);
        lemma_tiles_before_nonempty(g, r, c, h, p);
        assert forall|i: int| 0 <= i < seg.len() implies #[trigger] seg[i] != EMPTY by {
            assert(seg[i] == line_cell(g, r, c, h, p - b + i));
        }
        lemma_no_slots(seg);
        lemma_forward_slots(g, r, c, h, p, k);
        lemma_slots_concat(seg, forward_pattern(g, r, c, h, p, k));
    }
}

proof fn lemma_upto_playable(
    g: Seq<char>,
    dict: Seq<Seq<char>>,
    rack: Seq<char>,
    r: int,
    c: int,
    h: bool,
    lo: nat,
    n: nat,
)
    requires
        lo >= 1,
        forall|i: int| 0 <= i < dict.len() ==> is_letter_word(#[trigger] dict[i]),
    ensures
        all_playable(rack, spot_moves_upto(g, dict, rack, r, c, h, lo, n)),
    decreases n,
{
    if n > lo {
        lemma_upto_playable(g, dict, rack, r, c, h, lo, (n - 1) as nat);
        lemma_spot_playable(g, dict, rack, r, c, h, (n - 1) as nat);
        lemma_all_playable_concat(
            rack,
            spot_moves_upto(g, dict, rack, r, c, h, lo, (n - 1) as nat),
            spot_moves(g, dict, rack, r, c, h, (n - 1) as nat),
        );
    }
}

proof fn lemma_square_playable(g: Seq<char>, dict: Seq<Seq<char>>, rack: Seq<char>, idx: int)
    requires
        forall|i: int| 0 <= i < dict.len() ==> is_letter_word(#[trigger] dict[i]),
    ensures
        all_playable(rack, square_moves(g, dict, rack, idx)),
{
    let r = idx / 15;
    let c = idx % 15;
    if cell(g, r, c) == EMPTY {
        lemma_upto_playable(g, dict, rack, r, c, true, 1, rack.len() + 1);
        lemma_upto_playable(g, dict, rack, r, c, false, 1, rack.len() + 1);
        lemma_all_playable_concat(
            rack,
            spot_moves_upto(g, dict, rack, r, c, true, 1, rack.len() + 1),
            spot_moves_upto(g, dict, rack, r, c, false, 1, rack.len() + 1),
        );
    }
}

proof fn lemma_board_playable(g: Seq<char>, dict: Seq<Seq<char>>, rack: Seq<char>, n: nat)
    requires
        forall|i: int| 0 <= i < dict.len() ==> is_letter_word(#[trigger] dict[i]),
    ensures
        all_playable(rack, board_moves(g, dict, rack, n)),
    decreases n,
{
    if n > 0 {
        lemma_board_playable(g, dict, rack, (n - 1) as nat);
        lemma_square_playable(g, dict, rack, n - 1);
        lemma_all_playable_concat(rack, board_moves(g, dict, rack, (n - 1) as nat), square_moves(g, dict, rack, n - 1));
    }
}

/// Every move found for a rack places at least one tile and can be put down
/// from that rack.
pub proof fn lemma_all_moves_playable(g: Seq<char>, dict: Seq<Seq<char>>, rack: Seq<char>)
    requires
        forall|i: int| 0 <= i < dict.len() ==> is_letter_word(#[trigger] dict[i]),
    ensures
        all_playable(rack, all_moves(g, dict, rack)),
{
    if cell(g, 7, 7) == EMPTY {
        lemma_square_playable(g, dict, rack, 112);
    } else {
        lemma_board_playable(g, dict, rack, 225);
    }
}

/// The tiles go on distinct empty squares of the board, and each is a tile
/// (not the empty mark).
pub open spec fn fresh_tiles(g: Seq<char>, tiles: Seq<TilePlacement>) -> bool {
    &&& forall|i: int|
        0 <= i < tiles.len() ==> (#[trigger] tiles[i]).coords.0 < 15 && tiles[i].coords.1 < 15 && cell(
            g,
            tiles[i].coords.0 as int,
            tiles[i].coords.1 as int,
        ) == EMPTY && tiles[i].tile != EMPTY
    &&& forall|i: int, j: int| 0 <= i < j < tiles.len() ==> (#[trigger] tiles[i]).coords != (#[trigger] tiles[j]).coords
}

/// Every move of the list places fresh tiles.
pub open spec fn all_fresh(g: Seq<char>, s: Seq<(Seq<TilePlacement>, nat)>) -> bool {
    forall|i: int| 0 <= i < s.len() ==> fresh_tiles(g, #[trigger] s[i].0)
}

proof fn lemma_forward_is_line(g: Seq<char>, r: int, c: int, h: bool, p: int, k: nat)
    requires
        0 <= p,
    ensures
        forall|j: int|
            0 <= j < forward_pattern(g, r, c, h, p, k).len() ==> #[trigger] forward_pattern(g, r, c, h, p, k)[j]
                == line_cell(g, r, c, h, p + j),
    decreases 15 - p,
{
    if p < 15 {
        let f = forward_pattern(g, r, c, h, p, k);
        if line_cell(g, r, c, h, p) != EMPTY {
            lemma_forward_is_line(g, r, c, h, p + 1, k);
            let rest = forward_pattern(g, r, c, h, p + 1, k);
            assert forall|j: int| 0 <= j < f.len() implies #[trigger] f[j] == line_cell(g, r, c, h, p + j) by {
                if j > 0 {
                    assert(f[j] == rest[j - 1]);
                }
            }
        } else if k > 0 {
            lemma_forward_is_line(g, r, c, h, p + 1, (k - 1) as nat);
            let rest = forward_pattern(g, r, c, h, p + 1, (k - 1) as nat);
            assert forall|j: int| 0 <= j < f.len() implies #[trigger] f[j] == line_cell(g, r, c, h, p + j) by {
                if j > 0 {
                    assert(f[j] == rest[j - 1]);
                }
            }
        }
    }
}

/// The pattern of a spot is the line read from where the word starts.
proof fn lemma_spot_pattern_is_line(g: Seq<char>, r: int, c: int, h: bool, k: nat)
    requires
        0 <= r < 15,
        0 <= c < 15,
    ensures
        0 <= spot_start(g, r, c, h),
        spot_start(g, r, c, h) + spot_pattern(g, r, c, h, k).len() <= 15,
        forall|i: int|
            0 <= i < spot_pattern(g, r, c, h, k).len() ==> #[trigger] spot_pattern(g, r, c, h, k)[i] == line_cell(
                g,
                r,
                c,
                h,
                spot_start(g, r, c, h) + i,
            ),
{
    let p = line_pos(r, c, h);
    let b = tiles_before(g, r, c, h, p);
    lemma_tiles_before_bound(g, r, c, h, p);
    crate::movegen::lemma_forward_len(g, r, c, h, p, k);
    lemma_forward_is_line(g, r, c, h, p, k);
    let pat = spot_pattern(g, r, c, h, k);
    let f = forward_pattern(g, r, c, h, p, k);
    assert forall|i: int| 0 <= i < pat.len() implies #[trigger] pat[i] == line_cell(g, r, c, h, spot_start(g, r, c, h) + i) by {
        if i >= b {
            assert(pat[i] == f[i - b]);
        }
    }
}

proof fn lemma_move_tiles_fresh(g: Seq<char>, r: int, c: int, h: bool, start: int, pat: Seq<char>, w: Seq<char>)
    requires
        g.len() == 225,
        0 <= r < 15,
        0 <= c < 15,
        0 <= start,
        start + pat.len() <= 15,
        w.len() == pat.len(),
        is_letter_word(w),
        forall|i: int| 0 <= i < pat.len() ==> #[trigger] pat[i] == line_cell(g, r, c, h, start + i),
    ensures
        fresh_tiles(g, move_tiles(r, c, h, start, pat, w)),
{
    lemma_slot_indices(pat);
    let ts = move_tiles(r, c, h, start, pat, w);
    let si = slot_indices(pat);
    assert forall|i: int| 0 <= i < ts.len() implies (#[trigger] ts[i]).coords.0 < 15 && ts[i].coords.1 < 15 && cell(
        g,
        ts[i].coords.0 as int,
        ts[i].coords.1 as int,
    ) == EMPTY && ts[i].tile != EMPTY by {
        let x = si[i];
        assert(ts[i] == placement_on_line(r, c, h, start + x, w[x]));
        assert(pat[x] == EMPTY);
        assert(pat[x] == line_cell(g, r, c, h, start + x));
        assert(is_letter(w[x]));
    }
    assert forall|i: int, j: int| 0 <= i < j < ts.len() implies (#[trigger] ts[i]).coords != (#[trigger] ts[j]).coords by {
        assert(si[i] < si[j]);
        assert(ts[i] == placement_on_line(r, c, h, start + si[i], w[si[i]]));
        assert(ts[j] == placement_on_line(r, c, h, start + si[j], w[si[j]]));
    }
}

proof fn lemma_collect_fresh(
    g: Seq<char>,
    dict: Seq<Seq<char>>,
    rack: Seq<char>,
    r: int,
    c: int,
    h: bool,
    start: int,
    pat: Seq<char>,
    cands: Seq<Seq<char>>,
)
    requires
        g.len() == 225,
        0 <= r < 15,
        0 <= c < 15,
        0 <= start,
        start + pat.len() <= 15,
        forall|i: int| 0 <= i < pat.len() ==> #[trigger] pat[i] == line_cell(g, r, c, h, start + i),
        forall|i: int| 0 <= i < cands.len() ==> is_letter_word(#[trigger] cands[i]),
    ensures
        all_fresh(g, collect_moves(g, dict, rack, r, c, h, start, pat, cands)),
    decreases cands.len(),
{
    if cands.len() > 0 {
        let rest = collect_moves(g, dict, rack, r, c, h, start, pat, cands.drop_last());
        lemma_collect_fresh(g, dict, rack, r, c, h, start, pat, cands.drop_last());
        let w = cands.last();
        assert(is_letter_word(cands[cands.len() - 1]));
        match candidate_move(g, dict, rack, r, c, h, start, pat, w) {
            Some(x) => {
                lemma_move_tiles_fresh(g, r, c, h, start, pat, w);
                let all = rest.push(x);
                assert forall|i: int| 0 <= i < all.len() implies fresh_tiles(g, #[trigger] all[i].0) by {
                    if i < rest.len() {
                        assert(all[i] == rest[i]);
                    }
                }
            },
            None => {},
        }
    }
}

proof fn lemma_spot_fresh(g: Seq<char>, dict: Seq<Seq<char>>, rack: Seq<char>, r: int, c: int, h: bool, k: nat)
    requires
        g.len() == 225,
        0 <= r < 15,
        0 <= c < 15,
        forall|i: int| 0 <= i < dict.len() ==> is_letter_word(#[trigger] dict[i]),
    ensures
        all_fresh(g, spot_moves(g, dict, rack, r, c, h, k)),
{
    let pat = spot_pattern(g, r, c, h, k);
    let start = spot_start(g, r, c, h);
    lemma_spot_pattern_is_line(g, r, c, h, k);
    let cands = words_of_len(dict, pat.len());
    crate::movegen::lemma_words_of_len_props(dict, pat.len());
    assert forall|i: int| 0 <= i < cands.len() implies is_letter_word(#[trigger] cands[i]) by {
        assert(dict.contains(cands[i]));
        let j = choose|j: int| 0 <= j < dict.len() && dict[j] == cands[i];
        assert(is_letter_word(dict[j]));
    }
    lemma_collect_fresh(g, dict, rack, r, c, h, start, pat, cands);
}

proof fn lemma_fresh_concat(g: Seq<char>, a: Seq<(Seq<TilePlacement>, nat)>, b: Seq<(Seq<TilePlacement>, nat)>)
    requires
        all_fresh(g, a),
        all_fresh(g, b),
    ensures
        all_fresh(g, a + b),
{
    assert forall|i: int| 0 <= i < (a + b).len() implies fresh_tiles(g, #[trigger] (a + b)[i].0) by {
        if i < a.len() {
            assert((a + b)[i] == a[i]);
        } else {
            assert((a + b)[i] == b[i - a.len()]);
        }
    }
}

proof fn lemma_upto_fresh(g: Seq<char>, dict: Seq<Seq<char>>, rack: Seq<char>, r: int, c: int, h: bool, lo: nat, n: nat)
    requires
        g.len() == 225,
        0 <= r < 15,
        0 <= c < 15,
        forall|i: int| 0 <= i < dict.len() ==> is_letter_word(#[trigger] dict[i]),
    ensures
        all_fresh(g, spot_moves_upto(g, dict, rack, r, c, h, lo, n)),
    decreases n,
{
    if n > lo {
        lemma_upto_fresh(g, dict, rack, r, c, h, lo, (n - 1) as nat);
        lemma_spot_fresh(g, dict, rack, r, c, h, (n - 1) as nat);
        lemma_fresh_concat(
            g,
            spot_moves_upto(g, dict, rack, r, c, h, lo, (n - 1) as nat),
            spot_moves(g, dict, rack, r, c, h, (n - 1) as nat),
        );
    }
}

proof fn lemma_square_fresh(g: Seq<char>, dict: Seq<Seq<char>>, rack: Seq<char>, idx: int)
    requires
        g.len() == 225,
        0 <= idx < 225,
        forall|i: int| 0 <= i < dict.len() ==> is_letter_word(#[trigger] dict[i]),
    ensures
        all_fresh(g, square_moves(g, dict, rack, idx)),
{
    let r = idx / 15;
    let c = idx % 15;
    if cell(g, r, c) == EMPTY {
        lemma_upto_fresh(g, dict, rack, r, c, true, 1, rack.len() + 1);
        lemma_upto_fresh(g, dict, rack, r, c, false, 1, rack.len() + 1);
        lemma_fresh_concat(
            g,
            spot_moves_upto(g, dict, rack, r, c, true, 1, rack.len() + 1),
            spot_moves_upto(g, dict, rack, r, c, false, 1, rack.len() + 1),
        );
    }
}

proof fn lemma_board_fresh(g: Seq<char>, dict: Seq<Seq<char>>, rack: Seq<char>, n: nat)
    requires
        g.len() == 225,
        n <= 225,
        forall|i: int| 0 <= i < dict.len() ==> is_letter_word(#[trigger] dict[i]),
    ensures
        all_fresh(g, board_moves(g, dict, rack, n)),
    decreases n,
{
    if n > 0 {
        lemma_board_fresh(g, dict, rack, (n - 1) as nat);
        lemma_square_fresh(g, dict, rack, n - 1);
        lemma_fresh_concat(g, board_moves(g, dict, rack, (n - 1) as nat), square_moves(g, dict, rack, n - 1));
    }
}

/// Every move found for a rack puts its tiles on distinct empty squares.
pub proof fn lemma_all_moves_fresh(g: Seq<char>, dict: Seq<Seq<char>>, rack: Seq<char>)
    requires
        g.len() == 225,
        forall|i: int| 0 <= i < dict.len() ==> is_letter_word(#[trigger] dict[i]),
    ensures
        all_fresh(g, all_moves(g, dict, rack)),
{
    if cell(g, 7, 7) == EMPTY {
        lemma_square_fresh(g, dict, rack, 112);
    } else {
        lemma_board_fresh(g, dict, rack, 225);
    }
}


/// Some tile of the list goes on a square next to a tile on the board `g`
/// (above, left, right or below).
pub open spec fn touches_board(g: Seq<char>, tiles: Seq<TilePlacement>) -> bool {
    exists|i: int|
        0 <= i < tiles.len() && {
            let r = (#[trigger] tiles[i]).coords.0 as int;
            let c = tiles[i].coords.1 as int;
            ||| (r > 0 && cell(g, r - 1, c) != EMPTY)
            ||| (c > 0 && cell(g, r, c - 1) != EMPTY)
            ||| (c < 14 && cell(g, r, c + 1) != EMPTY)
            ||| (r < 14 && cell(g, r + 1, c) != EMPTY)
        }
}

/// Every move of the list has a tile next to a tile on the board.
pub open spec fn all_touch(g: Seq<char>, s: Seq<(Seq<TilePlacement>, nat)>) -> bool {
    forall|i: int| 0 <= i < s.len() ==> touches_board(g, #[trigger] s[i].0)
}

proof fn lemma_collect_tiles(
    g: Seq<char>,
    dict: Seq<Seq<char>>,
    rack: Seq<char>,
    r: int,
    c: int,
    h: bool,
    start: int,
    pat: Seq<char>,
    cands: Seq<Seq<char>>,
)
    ensures
        forall|i: int|
            0 <= i < collect_moves(g, dict, rack, r, c, h, start, pat, cands).len() ==> exists|w: Seq<char>|
                #[trigger] collect_moves(g, dict, rack, r, c, h, start, pat, cands)[i].0 == move_tiles(r, c, h, start, pat, w),
        forall|i: int|
            0 <= i < collect_moves(g, dict, rack, r, c, h, start, pat, cands).len() ==> slot_indices(pat).len() == 7
                ==> #[trigger] collect_moves(g, dict, rack, r, c, h, start, pat, cands)[i].1 >= 50,
    decreases cands.len(),
{
    if cands.len() > 0 {
        let rest = collect_moves(g, dict, rack, r, c, h, start, pat, cands.drop_last());
        lemma_collect_tiles(g, dict, rack, r, c, h, start, pat, cands.drop_last());
        let w = cands.last();
        match candidate_move(g, dict, rack, r, c, h, start, pat, w) {
            Some(x) => {
                let all = rest.push(x);
                assert forall|i: int| 0 <= i < all.len() implies exists|w2: Seq<char>|
                    #[trigger] all[i].0 == move_tiles(r, c, h, start, pat, w2) by {
                    if i < rest.len() {
                        assert(all[i] == rest[i]);
                    } else {
                        assert(all[i].0 == move_tiles(r, c, h, start, pat, w));
                    }
                }
                assert forall|i: int| 0 <= i < all.len() implies slot_indices(pat).len() == 7 ==> #[trigger] all[i].1 >= 50 by {
                    if i < rest.len() {
                        assert(all[i] == rest[i]);
                    }
                }
            },
            None => {},
        }
    }
}

/// Once the centre square holds a tile, every move from a spot (the moves
/// that `get_moves_from_spot_exact_length` returns) puts a new tile next to a
/// tile already on the board.
pub proof fn lemma_spot_touch(g: Seq<char>, dict: Seq<Seq<char>>, rack: Seq<char>, r: int, c: int, h: bool, k: nat)
    requires
        0 <= r < 15,
        0 <= c < 15,
        cell(g, 7, 7) != EMPTY,
    ensures
        all_touch(g, spot_moves(g, dict, rack, r, c, h, k)),
{
    let pat = spot_pattern(g, r, c, h, k);
    let start = spot_start(g, r, c, h);
    let s = spot_moves(g, dict, rack, r, c, h, k);
    if s.len() > 0 {
        lemma_spot_pattern_is_line(g, r, c, h, k);
        lemma_slot_indices(pat);
        let cands = words_of_len(dict, pat.len());
        lemma_collect_tiles(g, dict, rack, r, c, h, start, pat, cands);
        assert(slots_touch(g, r, c, h, start, pat));
        let si = slot_indices(pat);
        let j = choose|j: int|
            0 <= j < si.len() && #[trigger] has_adjacent_tile(
                g,
                line_coords(r, c, h, start + si[j]).0,
                line_coords(r, c, h, start + si[j]).1,
            );
        assert forall|i: int| 0 <= i < s.len() implies touches_board(g, #[trigger] s[i].0) by {
            let w = choose|w: Seq<char>| #[trigger] s[i].0 == move_tiles(r, c, h, start, pat, w);
            let ts = s[i].0;
            assert(ts[j] == placement_on_line(r, c, h, start + si[j], w[si[j]]));
            assert(0 <= start + si[j] < 15);
        }
    }
}

proof fn lemma_touch_concat(g: Seq<char>, a: Seq<(Seq<TilePlacement>, nat)>, b: Seq<(Seq<TilePlacement>, nat)>)
    requires
        all_touch(g, a),
        all_touch(g, b),
    ensures
        all_touch(g, a + b),
{
    assert forall|i: int| 0 <= i < (a + b).len() implies touches_board(g, #[trigger] (a + b)[i].0) by {
        if i < a.len() {
            assert((a + b)[i] == a[i]);
        } else {
            assert((a + b)[i] == b[i - a.len()]);
        }
    }
}

proof fn lemma_upto_touch(g: Seq<char>, dict: Seq<Seq<char>>, rack: Seq<char>, r: int, c: int, h: bool, lo: nat, n: nat)
    requires
        0 <= r < 15,
        0 <= c < 15,
        cell(g, 7, 7) != EMPTY,
    ensures
        all_touch(g, spot_moves_upto(g, dict, rack, r, c, h, lo, n)),
    decreases n,
{
    if n > lo {
        lemma_upto_touch(g, dict, rack, r, c, h, lo, (n - 1) as nat);
        lemma_spot_touch(g, dict, rack, r, c, h, (n - 1) as nat);
        lemma_touch_concat(
            g,
            spot_moves_upto(g, dict, rack, r, c, h, lo, (n - 1) as nat),
            spot_moves(g, dict, rack, r, c, h, (n - 1) as nat),
        );
    }
}

proof fn lemma_board_touch(g: Seq<char>, dict: Seq<Seq<char>>, rack: Seq<char>, n: nat)
    requires
        n <= 225,
        cell(g, 7, 7) != EMPTY,
    ensures
        all_touch(g, board_moves(g, dict, rack, n)),
    decreases n,
{
    if n > 0 {
        lemma_board_touch(g, dict, rack, (n - 1) as nat);
        let idx = n - 1;
        let r = idx / 15;
        let c = idx % 15;
        if cell(g, r, c) == EMPTY {
            lemma_upto_touch(g, dict, rack, r, c, true, 1, rack.len() + 1);
            lemma_upto_touch(g, dict, rack, r, c, false, 1, rack.len() + 1);
            lemma_touch_concat(
                g,
                spot_moves_upto(g, dict, rack, r, c, true, 1, rack.len() + 1),
                spot_moves_upto(g, dict, rack, r, c, false, 1, rack.len() + 1),
            );
        }
        lemma_touch_concat(g, board_moves(g, dict, rack, (n - 1) as nat), square_moves(g, dict, rack, idx));
    }
}

/// Once the centre square holds a tile, every move found for a rack puts a
/// new tile on a square next to a tile already on the board: no move floats
/// unconnected.
pub proof fn lemma_moves_touch_board(g: Seq<char>, dict: Seq<Seq<char>>, rack: Seq<char>, x: (Seq<TilePlacement>, nat))
    requires
        cell(g, 7, 7) != EMPTY,
        all_moves(g, dict, rack).contains(x),
    ensures
        exists|i: int|
            0 <= i < x.0.len() && {
                let r = (#[trigger] x.0[i]).coords.0 as int;
                let c = x.0[i].coords.1 as int;
                ||| (r > 0 && cell(g, r - 1, c) != EMPTY)
                ||| (c > 0 && cell(g, r, c - 1) != EMPTY)
                ||| (c < 14 && cell(g, r, c + 1) != EMPTY)
                ||| (r < 14 && cell(g, r + 1, c) != EMPTY)
            },
{
    lemma_board_touch(g, dict, rack, 225);
    let s = all_moves(g, dict, rack);
    let i = choose|i: int| 0 <= i < s.len() && s[i] == x;
    assert(touches_board(g, s[i].0));
}

/// The moves from a spot placing from `lo` up to `n - 1` tiles are exactly
/// the moves that place some number `k` of tiles from that spot, for every
/// `k` from `lo` to `n - 1`.
pub proof fn lemma_spot_moves_upto_members(
    g: Seq<char>,
    dict: Seq<Seq<char>>,
    rack: Seq<char>,
    r: int,
    c: int,
    h: bool,
    lo: nat,
    n: nat,
    x: (Seq<TilePlacement>, nat),
)
    ensures
        spot_moves_upto(g, dict, rack, r, c, h, lo, n).contains(x) <==> exists|k: nat|
            lo <= k < n && #[trigger] spot_moves(g, dict, rack, r, c, h, k).contains(x),
    decreases n,
{
    if n > lo {
        let a = spot_moves_upto(g, dict, rack, r, c, h, lo, (n - 1) as nat);
        let b = spot_moves(g, dict, rack, r, c, h, (n - 1) as nat);
        lemma_spot_moves_upto_members(g, dict, rack, r, c, h, lo, (n - 1) as nat, x);
        if (a + b).contains(x) {
            let i = choose|i: int| 0 <= i < (a + b).len() && (a + b)[i] == x;
            if i < a.len() {
                assert(a[i] == x);
                assert(a.contains(x));
            } else {
                assert(b[i - a.len()] == x);
                assert(b.contains(x));
            }
        }
        if exists|k: nat| lo <= k < n && #[trigger] spot_moves(g, dict, rack, r, c, h, k).contains(x) {
            let k = choose|k: nat| lo <= k < n && #[trigger] spot_moves(g, dict, rack, r, c, h, k).contains(x);
            if k == n - 1 {
                let i = choose|i: int| 0 <= i < b.len() && b[i] == x;
                assert((a + b)[a.len() + i] == x);
            } else {
                assert(a.contains(x));
                let i = choose|i: int| 0 <= i < a.len() && a[i] == x;
                assert((a + b)[i] == x);
            }
        }
    } else {
        if exists|k: nat| lo <= k < n && #[trigger] spot_moves(g, dict, rack, r, c, h, k).contains(x) {
            let k = choose|k: nat| lo <= k < n && #[trigger] spot_moves(g, dict, rack, r, c, h, k).contains(x);
        }
    }
}

/// The points of the crossing word through the new tile `t` on square `q`,
/// by the kind of square: the letters of the crossing word added up, with
/// `t` counted twice more on a triple-letter square and once more on a
/// double-letter square, and the total doubled on a double-word square and
/// tripled on a triple-word square.
pub proof fn lemma_cross_points_by_square(g: Seq<char>, q: (int, int), t: char, h: bool)
    ensures
        ({
            let w = cross_word(g, q, t, h);
            let total = sum_points(w) as int;
            let lp = letter_points(t) as int;
            let x = cross_points(g, q, t, h) as int;
            &&& modifier_at(q.0, q.1) == ScoreModifier::Plain ==> x == total
            &&& modifier_at(q.0, q.1) == ScoreModifier::DLS ==> x == total + lp
            &&& modifier_at(q.0, q.1) == ScoreModifier::TLS ==> x == total + 2 * lp
            &&& modifier_at(q.0, q.1) == ScoreModifier::DWS ==> x == 2 * total
            &&& modifier_at(q.0, q.1) == ScoreModifier::TWS ==> x == 3 * total
            &&& sum_points(w) >= letter_points(t)
        }),
{
    let p = line_pos(q.0, q.1, h);
    let b = tiles_before(g, q.0, q.1, h, p);
    let a = tiles_after(g, q.0, q.1, h, p);
    let s1 = line_segment(g, q.0, q.1, h, p - b, b);
    let s2 = line_segment(g, q.0, q.1, h, p + 1, a);
    lemma_sum_points_add(s1 + seq![t], s2);
    lemma_sum_points_add(s1, seq![t]);
    assert(sum_points(seq![t]) == letter_points(t)) by {
        assert(seq![t].drop_last() =~= Seq::<char>::empty());
        assert(seq![t].last() == t);
        assert(sum_points(Seq::<char>::empty()) == 0);
    }
    let w = cross_word(g, q, t, h);
    assert(w == s1 + seq![t] + s2);
    let total = sum_points(w) as int;
    let lp = letter_points(t) as int;
    assert(total >= lp);
    let m = modifier_at(q.0, q.1);
    let inner = total - lp + lp * (letter_factor(m) as int);
    assert(cross_points(g, q, t, h) as int == inner * (word_factor(m) as int));
}

/// A move that places tiles from a spot places exactly the number of tiles
/// asked for, and a move of seven tiles earns at least the fifty points of
/// the bonus for using the whole rack.
pub proof fn lemma_spot_moves_size(
    g: Seq<char>,
    dict: Seq<Seq<char>>,
    rack: Seq<char>,
    r: int,
    c: int,
    h: bool,
    k: nat,
    x: (Seq<TilePlacement>, nat),
)
    requires
        spot_moves(g, dict, rack, r, c, h, k).contains(x),
    ensures
        x.0.len() == k,
        k == 7 ==> x.1 >= 50,
{
    let p = line_pos(r, c, h);
    let pat = spot_pattern(g, r, c, h, k);
    let start = spot_start(g, r, c, h);
    let s = spot_moves(g, dict, rack, r, c, h, k);
    let cands = words_of_len(dict, pat.len());
    lemma_collect_tiles(g, dict, rack, r, c, h, start, pat, cands);
    let i = choose|i: int| 0 <= i < s.len() && s[i] == x;
    let w = choose|w: Seq<char>| #[trigger] s[i].0 == move_tiles(r, c, h, start, pat, w);
    let b = tiles_before(g, r, c, h, p);
    let seg = line_segment(g, r, c, h, p - b, b);
    lemma_tiles_before_nonempty(g, r, c, h, p);
    assert forall|j: int| 0 <= j < seg.len() implies #[trigger] seg[j] != EMPTY by {
        assert(seg[j] == line_cell(g, r, c, h, p - b + j));
    }
    lemma_no_slots(seg);
    lemma_forward_slots(g, r, c, h, p, k);
    lemma_slots_concat(seg, forward_pattern(g, r, c, h, p, k));
    assert(slot_indices(pat).len() == k);
}

} // verus!
