use vstd::prelude::*;
use crate::common::{Coords, EMPTY};
use crate::text::{char_debug, char_debug_text, push_char};

verus! {

/// The character on square (r, c) of a board laid out row by row.
pub open spec fn cell(g: Seq<char>, r: int, c: int) -> char {
    g[r * 15 + c]
}

/// A board with every square empty.
pub open spec fn empty_grid() -> Seq<char> {
    Seq::new(225, |i: int| EMPTY)
}

/// The characters `{:?}` writes for the first `n` squares of row `r`,
/// separated by ", ".
pub open spec fn row_items_text(g: Seq<char>, r: int, n: int) -> Seq<char>
    decreases n,
{
    if n <= 0 {
        seq![]
    } else if n == 1 {
        char_debug_text(cell(g, r, 0))
    } else {
        row_items_text(g, r, n - 1) + seq![',', ' '] + char_debug_text(cell(g, r, n - 1))
    }
}

/// One line of the dump: the row as a bracketed list, then a newline.
pub open spec fn row_text(g: Seq<char>, r: int) -> Seq<char> {
    seq!['['] + row_items_text(g, r, 15) + seq![']', '\n']
}

/// The lines of the first `n` rows.
pub open spec fn rows_text(g: Seq<char>, n: int) -> Seq<char>
    decreases n,
{
    if n <= 0 {
        seq![]
    } else {
        rows_text(g, n - 1) + row_text(g, n - 1)
    }
}

/// The 15 x 15 playing surface.
pub struct ScrabbleBoard {
    cells: Vec<char>,
}

impl View for ScrabbleBoard {
    type V = Seq<char>;

    closed spec fn view(&self) -> Seq<char> {
        self.cells@
    }
}

impl ScrabbleBoard {
    /// Well-formedness: the board holds its 225 squares.
    pub open spec fn wf(&self) -> bool {
        self@.len() == 225
    }

    /// An empty board.
    pub fn new() -> (res: Self)
        ensures
            res.wf(),
            res@ == empty_grid(),
    {
        let mut cells: Vec<char> = Vec::new();
        let mut i: usize = 0;
        while i < 225
            invariant
                i <= 225,
                cells@ == Seq::new(i as nat, |k: int| EMPTY),
            decreases 225 - i,
        {
            cells.push(EMPTY);
            i = i + 1;
        }
        let res = ScrabbleBoard { cells };
        assert(res@ =~= empty_grid());
        res
    }

    /// The character on a square.
    pub fn get(&self, index: Coords) -> (res: char)
        requires
            self.wf(),
            index.0 < 15,
            index.1 < 15,
        ensures
            res == cell(self@, index.0 as int, index.1 as int),
    {
        self.cells[index.0 * 15 + index.1]
    }

    /// Puts a character on a square.
    pub fn set(&mut self, index: Coords, value: char)
        requires
            old(self).wf(),
            index.0 < 15,
            index.1 < 15,
        ensures
            final(self).wf(),
            final(self)@ == old(self)@.update(index.0 * 15 + index.1, value),
    {
        self.cells.set(index.0 * 15 + index.1, value);
    }

    /// The rows of the board, one line each, as `{:?}` writes a row.
    pub fn dump(&self) -> (res: String)
        requires
            self.wf(),
        ensures
            res@ == rows_text(self@, 15),
    {
        let mut buf = String::new();
        let mut r: usize = 0;
        while r < 15
            invariant
                r <= 15,
                self@.len() == 225,
                buf@ == rows_text(self@, r as int),
            decreases 15 - r,
        {
            let ghost before = buf@;
            push_char(&mut buf, '[');
            let mut c: usize = 0;
            while c < 15
                invariant
                    r < 15,
                    c <= 15,
                    self@.len() == 225,
                    buf@ == before + seq!['['] + row_items_text(self@, r as int, c as int),
                decreases 15 - c,
            {
                if c > 0 {
                    push_char(&mut buf, ',');
                    push_char(&mut buf, ' ');
                }
                let item = char_debug(self.get((r, c)));
                buf.append(item.as_str());
                proof {
                    if c == 0 {
                        assert(row_items_text(self@, r as int, 1) == char_debug_text(cell(self@, r as int, 0)));
                    }
                }
                assert(buf@ =~= before + seq!['['] + row_items_text(self@, r as int, c + 1));
                c = c + 1;
            }
            push_char(&mut buf, ']');
            push_char(&mut buf, '\n');
            assert(buf@ =~= rows_text(self@, r + 1));
            r = r + 1;
        }
        buf
    }
}

} // verus!
