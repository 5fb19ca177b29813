//! Walking the squares of a row or column, one square at a time.
use vstd::prelude::*;
use crate::board::{cell, ScrabbleBoard};
use crate::common::Coords;

verus! {

/// A walk along a row (`horizontal`) or column from a starting square,
/// forwards or backwards, up to the edge of the board.
pub struct ScrabbleBoardIterator<'a> {
    horizontal: bool,
    forwards: bool,
    board: &'a ScrabbleBoard,
    // Signed, so that stepping back past the first square shows as a negative index.
    current_coords: (i32, i32),
}

/// One square met on the walk: where it is and what it holds.
pub struct ScrabbleBoardIteratorItem {
    pub coords: Coords,
    pub char_at_coords: char,
}

/// The square after `at` on the walk.
pub open spec fn step(at: (int, int), horizontal: bool, forwards: bool) -> (int, int) {
    let d = if forwards {
        1int
    } else {
        -1int
    };
    if horizontal {
        (at.0, at.1 + d)
    } else {
        (at.0 + d, at.1)
    }
}

/// True for a square of the board.
pub open spec fn on_board(at: (int, int)) -> bool {
    0 <= at.0 <= 14 && 0 <= at.1 <= 14
}

impl<'a> ScrabbleBoardIterator<'a> {
    /// The square the walk is at.
    pub closed spec fn at(&self) -> (int, int) {
        (self.current_coords.0 as int, self.current_coords.1 as int)
    }

    /// The squares of the board walked over.
    pub closed spec fn grid(&self) -> Seq<char> {
        self.board@
    }

    /// The direction of the walk: along a row (true) or a column.
    pub closed spec fn is_horizontal(&self) -> bool {
        self.horizontal
    }

    /// The sense of the walk: forwards (true) or backwards.
    pub closed spec fn is_forwards(&self) -> bool {
        self.forwards
    }

    /// The walked board is well formed.
    pub closed spec fn wf(&self) -> bool {
        self.board.wf()
    }

    /// A walk over `board` from `start`, along a row (`horizontal`) or a
    /// column, forwards or backwards.
    pub fn new(board: &'a ScrabbleBoard, start: Coords, horizontal: bool, forwards: bool) -> (res: ScrabbleBoardIterator<'a>)
        requires
            board.wf(),
        ensures
            res.wf(),
            res.grid() == board@,
            res.at() == ((start.0 as i32) as int, (start.1 as i32) as int),
            res.is_horizontal() == horizontal,
            res.is_forwards() == forwards,
    {
        ScrabbleBoardIterator { forwards, horizontal, current_coords: (start.0 as i32, start.1 as i32), board }
    }

    /// The square the walk is at, with what it holds, then one step on;
    /// `None`, without moving, once the walk has left the board.
    pub fn next(&mut self) -> (res: Option<ScrabbleBoardIteratorItem>)
        requires
            old(self).wf(),
        ensures
            final(self).wf(),
            final(self).grid() == old(self).grid(),
            final(self).is_horizontal() == old(self).is_horizontal(),
            final(self).is_forwards() == old(self).is_forwards(),
            !on_board(old(self).at()) ==> res is None && final(self).at() == old(self).at(),
            on_board(old(self).at()) ==> (res matches Some(item) && item.coords.0 == old(self).at().0 && item.coords.1
                == old(self).at().1 && item.char_at_coords == cell(old(self).grid(), old(self).at().0, old(self).at().1)
                && final(self).at() == step(old(self).at(), old(self).is_horizontal(), old(self).is_forwards())),
    {
        if self.current_coords.0 < 0 || self.current_coords.0 > 14 || self.current_coords.1 < 0
            || self.current_coords.1 > 14 {
            return None;
        }
        let current_coords = (self.current_coords.0 as usize, self.current_coords.1 as usize);
        let current_char = self.board.get(current_coords);
        // Don't return None until we have gone past the end in either direction.
        if self.horizontal {
            if self.forwards {
                self.current_coords.1 = self.current_coords.1 + 1;
            } else {
                self.current_coords.1 = self.current_coords.1 - 1;
            }
        } else {
            if self.forwards {
                self.current_coords.0 = self.current_coords.0 + 1;
            } else {
                self.current_coords.0 = self.current_coords.0 - 1;
            }
        }
        Some(ScrabbleBoardIteratorItem { coords: current_coords, char_at_coords: current_char })
    }
}

} // verus!
