use vstd::prelude::*;

verus! {

/// Number of tiles a player holds when the rack is full.
pub const MAX_PLAYER_TILES: usize = 7;

/// Side length of the square board.
pub const BOARD_SIZE: usize = 15;

/// The character that marks an empty square.
pub const EMPTY: char = ' ';

/// The character of a blank (wildcard) tile.
pub const WILD: char = '*';

/// (row, column) of a square, both zero-based.
pub type Coords = (usize, usize);

/// Zero-indexed player number.
pub type Player = usize;

/// One tile put on one square.
#[derive(Clone, Copy, Debug, PartialEq, Eq)]
pub struct TilePlacement {
    pub coords: Coords,
    pub tile: char,
}

/// A move: the tiles it places and the points it earns.
#[derive(Clone, Debug)]
pub struct PossibleMove {
    pub tiles: Vec<TilePlacement>,
    pub score: u32,
}

impl PossibleMove {
    /// The tiles this move places.
    pub fn get_tiles(&self) -> (res: &Vec<TilePlacement>)
        ensures
            res@ == self.tiles@,
    {
        &self.tiles
    }

    /// The points this move earns.
    pub fn get_score(&self) -> (res: u32)
        ensures
            res == self.score,
    {
        self.score
    }
}

/// The bonus printed on a square.
#[derive(Clone, Copy, Debug, PartialEq, Eq)]
pub enum ScoreModifier {
    Plain,
    TWS,
    DWS,
    TLS,
    DLS,
}

/// True for the capital letters `A` to `Z`.
pub open spec fn is_letter(c: char) -> bool {
    'A' <= c && c <= 'Z'
}

/// True for a tile that can sit in a rack: a letter or a blank.
pub open spec fn is_tile_char(c: char) -> bool {
    is_letter(c) || c == WILD
}

/// Points of one tile: 1 for A E I L N O R S T U, 2 for D G, 3 for B C M P,
/// 4 for F H V W Y, 5 for K, 8 for J X, 10 for Q Z, and 0 for any other
/// character up to `Z` (the blank among them).
pub open spec fn letter_points(c: char) -> nat {
    if c == 'A' || c == 'E' || c == 'I' || c == 'L' || c == 'N' || c == 'O' || c == 'R'
        || c == 'S' || c == 'T' || c == 'U' {
        1
    } else if c == 'D' || c == 'G' {
        2
    } else if c == 'B' || c == 'C' || c == 'M' || c == 'P' {
        3
    } else if c == 'F' || c == 'H' || c == 'V' || c == 'W' || c == 'Y' {
        4
    } else if c == 'K' {
        5
    } else if c == 'J' || c == 'X' {
        8
    } else if c == 'Q' || c == 'Z' {
        10
    } else {
        0
    }
}

/// Points of a tile, for any character up to `Z` (the table stops there).
pub fn letter_score(c: char) -> (res: u32)
    requires
        c <= 'Z',
    ensures
        res == letter_points(c),
        res <= 10,
{
    match c {
        'A' | 'E' | 'I' | 'L' | 'N' | 'O' | 'R' | 'S' | 'T' | 'U' => 1,
        'D' | 'G' => 2,
        'B' | 'C' | 'M' | 'P' => 3,
        'F' | 'H' | 'V' | 'W' | 'Y' => 4,
        'K' => 5,
        'J' | 'X' => 8,
        'Q' | 'Z' => 10,
        _ => 0,
    }
}

/// Folds a board index onto the upper-left quarter; the bonus layout is
/// symmetric under reflection through the centre row and the centre column.
pub open spec fn fold_index(i: int) -> int {
    if i > 7 {
        14 - i
    } else {
        i
    }
}

/// The bonus on square (r, c) of the upper-left quarter, 0 <= r, c <= 7.
pub open spec fn quarter_modifier(r: int, c: int) -> ScoreModifier {
    if (r == 0 && (c == 0 || c == 7)) || (r == 7 && c == 0) {
        ScoreModifier::TWS
    } else if r == c && 1 <= r && r <= 4 {
        ScoreModifier::DWS
    } else if (r == 1 && c == 5) || (r == 5 && (c == 1 || c == 5)) {
        ScoreModifier::TLS
    } else if (r == 0 && c == 3) || (r == 3 && (c == 0 || c == 7)) || (r == 7 && c == 3) || (r
        == 2 && c == 6) || (r == 6 && (c == 2 || c == 6)) {
        ScoreModifier::DLS
    } else {
        ScoreModifier::Plain
    }
}

/// The bonus printed on square (r, c) of the board.
pub open spec fn modifier_at(r: int, c: int) -> ScoreModifier {
    quarter_modifier(fold_index(r), fold_index(c))
}

/// Factor that a square applies to the letter placed on it.
pub open spec fn letter_factor(m: ScoreModifier) -> nat {
    match m {
        ScoreModifier::DLS => 2,
        ScoreModifier::TLS => 3,
        _ => 1,
    }
}

/// Factor that a square applies to every word that covers a new tile on it.
pub open spec fn word_factor(m: ScoreModifier) -> nat {
    match m {
        ScoreModifier::DWS => 2,
        ScoreModifier::TWS => 3,
        _ => 1,
    }
}

fn fold_exec(i: usize) -> (res: usize)
    requires
        i < 15,
    ensures
        res == fold_index(i as int),
        res <= 7,
{
    if i > 7 {
        14 - i
    } else {
        i
    }
}

/// The bonus printed on square (row, col).
pub fn score_modifier(row: usize, col: usize) -> (res: ScoreModifier)
    requires
        row < 15,
        col < 15,
    ensures
        res == modifier_at(row as int, col as int),
{
    let r = fold_exec(row);
    let c = fold_exec(col);
    if (r == 0 && (c == 0 || c == 7)) || (r == 7 && c == 0) {
        ScoreModifier::TWS
    } else if r == c && 1 <= r && r <= 4 {
        ScoreModifier::DWS
    } else if (r == 1 && c == 5) || (r == 5 && (c == 1 || c == 5)) {
        ScoreModifier::TLS
    } else if (r == 0 && c == 3) || (r == 3 && (c == 0 || c == 7)) || (r == 7 && c == 3) || (r
        == 2 && c == 6) || (r == 6 && (c == 2 || c == 6)) {
        ScoreModifier::DLS
    } else {
        ScoreModifier::Plain
    }
}

/// The letter factor of square (row, col).
pub fn letter_multiplier(row: usize, col: usize) -> (res: u32)
    requires
        row < 15,
        col < 15,
    ensures
        res == letter_factor(modifier_at(row as int, col as int)),
        1 <= res <= 3,
{
    match score_modifier(row, col) {
        ScoreModifier::DLS => 2,
        ScoreModifier::TLS => 3,
        _ => 1,
    }
}

/// The word factor of square (row, col).
pub fn word_multiplier(row: usize, col: usize) -> (res: u32)
    requires
        row < 15,
        col < 15,
    ensures
        res == word_factor(modifier_at(row as int, col as int)),
        1 <= res <= 3,
{
    match score_modifier(row, col) {
        ScoreModifier::DWS => 2,
        ScoreModifier::TWS => 3,
        _ => 1,
    }
}

} // verus!
