use vstd::prelude::*;

use crate::color::Color;
use crate::error::{fails_with, BadukError, BadukErrorKind};
use crate::state::{Captures, GameState};

verus! {

/// The intersection a grid character stands for: `.` empty, `x` black,
/// `o` white; `None` for any other character, which the grid ignores.
pub open spec fn cell_of_char(c: char) -> Option<Option<Color>> {
    if c == '.' {
        Some(None)
    } else if c == 'x' {
        Some(Some(Color::Black))
    } else if c == 'o' {
        Some(Some(Color::White))
    } else {
        None
    }
}

/// The character an intersection is printed as.
pub open spec fn char_of_cell(c: Option<Color>) -> char {
    match c {
        None => '.',
        Some(Color::Black) => 'x',
        Some(Color::White) => 'o',
    }
}

/// The intersections that grid text spells, in order.
pub open spec fn grid_cells(s: Seq<char>) -> Seq<Option<Color>>
    decreases s.len(),
{
    if s.len() == 0 {
        Seq::empty()
    } else {
        match cell_of_char(s.last()) {
            Some(c) => grid_cells(s.drop_last()).push(c),
            None => grid_cells(s.drop_last()),
        }
    }
}

/// The text of a grid: one character per intersection, rows of `width`
/// separated by a line break, with no line break at the end.
pub open spec fn grid_text(cells: Seq<Option<Color>>, width: int) -> Seq<char>
    decreases cells.len(),
{
    if cells.len() == 0 {
        Seq::empty()
    } else {
        let i = cells.len() - 1;
        let prefix = grid_text(cells.drop_last(), width);
        if i > 0 && i % width == 0 {
            prefix.push('\n').push(char_of_cell(cells.last()))
        } else {
            prefix.push(char_of_cell(cells.last()))
        }
    }
}

pub open spec fn square(k: int) -> int {
    k * k
}

/// The side of a square board with `n` intersections.
pub open spec fn square_side(n: int) -> int {
    choose|k: int| 0 <= k && #[trigger] square(k) == n
}

/// Whether `n` intersections make a square board.
pub open spec fn is_square(n: int) -> bool {
    exists|k: int| 0 <= k && #[trigger] square(k) == n
}

proof fn lemma_square_side_unique(k: int, n: int)
    requires
        0 <= k,
        k * k == n,
    ensures
        is_square(n),
        square_side(n) == k,
{
    assert(square(k) == n);
    assert(is_square(n));
    let j = square_side(n);
    if j < k {
        assert(j * j < k * k) by (nonlinear_arith)
            requires
                0 <= j < k,
        ;
    } else if j > k {
        assert(j * j > k * k) by (nonlinear_arith)
            requires
                0 <= k < j,
        ;
    }
}

fn cell_from_char(c: char) -> (r: Option<Option<Color>>)
    ensures
        r == cell_of_char(c),
{
    if c == '.' {
        Some(None)
    } else if c == 'x' {
        Some(Some(Color::Black))
    } else if c == 'o' {
        Some(Some(Color::White))
    } else {
        None
    }
}

impl GameState {
    /// Reads a square board from grid text; characters other than `.`, `x`
    /// and `o` are ignored. Fails with `InvalidInputSize` unless the number
    /// of intersections is a square that fits in a `u32`.
    pub fn from_grid(data: &str) -> (r: Result<GameState, BadukError>)
        ensures
            !(is_square(grid_cells(data@).len() as int) && grid_cells(data@).len() <= u32::MAX)
                ==> fails_with(r, BadukErrorKind::InvalidInputSize),
            (is_square(grid_cells(data@).len() as int) && grid_cells(data@).len() <= u32::MAX)
                ==> r is Ok,
            r is Ok ==> {
                let s = r->Ok_0;
                &&& s.wf()
                &&& s.board@ == grid_cells(data@)
                &&& s.width == square_side(grid_cells(data@).len() as int)
                &&& s.height == s.width
                &&& s.captures.white == 0
                &&& s.captures.black == 0
            },
    {
        let n = data.unicode_len();
        let mut board: Vec<Option<Color>> = Vec::new();
        let mut i: usize = 0;
        while i < n
            invariant
                n == data@.len(),
                i <= n,
                board@ == grid_cells(data@.subrange(0, i as int)),
            decreases n - i,
        {
            let c = data.get_char(i);
            proof {
                assert(data@.subrange(0, i + 1).drop_last() == data@.subrange(0, i as int));
            }
            match cell_from_char(c) {
                Some(cell) => board.push(cell),
                None => {},
            }
            i = i + 1;
        }
        proof {
            assert(data@.subrange(0, n as int) == data@);
        }
        let len = board.len();
        if len > u32::MAX as usize {
            return Err(BadukError::from(BadukErrorKind::InvalidInputSize));
        }
        let total = len as u64;
        let mut k: u64 = 0;
        loop
            invariant
                total <= u32::MAX,
                k * k <= total,
                k <= 65535,
            ensures
                k * k <= total,
                (k + 1) * (k + 1) > total,
            decreases total - k,
        {
            proof {
                assert((k + 1) * (k + 1) <= 65536 * 65536) by (nonlinear_arith)
                    requires
                        k <= 65535,
                ;
            }
            if (k + 1) * (k + 1) > total {
                break;
            }
            proof {
                assert(k + 1 <= 65535) by (nonlinear_arith)
                    requires
                        (k + 1) * (k + 1) <= total,
                        total <= u32::MAX,
                ;
                assert(k + 1 <= total) by (nonlinear_arith)
                    requires
                        (k + 1) * (k + 1) <= total,
                ;
            }
            k = k + 1;
        }
        if k * k != total {
            proof {
                assert forall|j: int| 0 <= j implies #[trigger] square(j) != total by {
                    if j <= k {
                        assert(j * j <= k * k) by (nonlinear_arith)
                            requires
                                0 <= j <= k,
                        ;
                    } else {
                        assert(j * j >= (k + 1) * (k + 1)) by (nonlinear_arith)
                            requires
                                k + 1 <= j,
                        ;
                    }
                    assert(square(j) == j * j);
                }
            }
            return Err(BadukError::from(BadukErrorKind::InvalidInputSize));
        }
        proof {
            lemma_square_side_unique(k as int, total as int);
        }
        let side = k as u32;
        Ok(GameState { board, captures: Captures { white: 0, black: 0 }, width: side, height: side })
    }

    /// The board as grid text: one character per intersection, rows
    /// separated by a line break.
    pub fn to_grid_string(&self) -> (r: String)
        requires
            self.wf(),
        ensures
            r@ == grid_text(self.board@, self.width as int),
    {
        let mut out = String::new();
        let mut i: usize = 0;
        while i < self.board.len()
            invariant
                self.wf(),
                i <= self.board@.len(),
                out@ == grid_text(self.board@.subrange(0, i as int), self.width as int),
            decreases self.board@.len() - i,
        {
            proof {
                assert(self.board@.subrange(0, i + 1).drop_last() == self.board@.subrange(0, i as int));
                reveal_strlit("\n");
                reveal_strlit(".");
                reveal_strlit("x");
                reveal_strlit("o");
                assert(self.width > 0) by (nonlinear_arith)
                    requires
                        i < self.width * self.height,
                        self.height >= 0,
                ;
            }
            if i > 0 && i % (self.width as usize) == 0 {
                out.append("\n");
            }
            match self.board[i] {
                None => out.append("."),
                Some(Color::Black) => out.append("x"),
                Some(Color::White) => out.append("o"),
            }
            i = i + 1;
        }
        proof {
            assert(self.board@.subrange(0, i as int) == self.board@);
        }
        out
    }
}

impl std::str::FromStr for GameState {
    type Err = BadukError;

    /// Reads a square board from grid text, as `GameState::from_grid`.
    fn from_str(data: &str) -> (r: Result<GameState, BadukError>)
        ensures
            !(is_square(grid_cells(data@).len() as int) && grid_cells(data@).len() <= u32::MAX)
                ==> fails_with(r, BadukErrorKind::InvalidInputSize),
            (is_square(grid_cells(data@).len() as int) && grid_cells(data@).len() <= u32::MAX)
                ==> r is Ok,
            r is Ok ==> {
                let s = r->Ok_0;
                &&& s.wf()
                &&& s.board@ == grid_cells(data@)
                &&& s.width == square_side(grid_cells(data@).len() as int)
                &&& s.height == s.width
                &&& s.captures.white == 0
                &&& s.captures.black == 0
            },
    {
        GameState::from_grid(data)
    }
}

/// Printing a square board and reading the text back gives the same
/// intersections and the same side; so reading printed text and printing
/// it again gives the same text.
pub proof fn lemma_grid_round_trip(cells: Seq<Option<Color>>, side: int)
    requires
        0 <= side,
        cells.len() == side * side,
    ensures
        grid_cells(grid_text(cells, side)) == cells,
        is_square(cells.len() as int),
        square_side(cells.len() as int) == side,
        grid_text(grid_cells(grid_text(cells, side)), square_side(cells.len() as int))
            == grid_text(cells, side),
{
    lemma_grid_cells_of_text(cells, side);
    lemma_square_side_unique(side, cells.len() as int);
}

proof fn lemma_grid_cells_of_text(cells: Seq<Option<Color>>, width: int)
    ensures
        grid_cells(grid_text(cells, width)) == cells,
    decreases cells.len(),
{
    if cells.len() > 0 {
        let c = cells.last();
        let prefix = grid_text(cells.drop_last(), width);
        lemma_grid_cells_of_text(cells.drop_last(), width);
        let t = grid_text(cells, width);
        assert(cell_of_char(char_of_cell(c)) == Some(c));
        let i = cells.len() - 1;
        if i > 0 && i % width == 0 {
            assert(t.drop_last() == prefix.push('\n'));
            assert(prefix.push('\n').drop_last() == prefix);
            assert(grid_cells(prefix.push('\n')) == grid_cells(prefix));
        } else {
            assert(t.drop_last() == prefix);
        }
        assert(cells.drop_last().push(c) == cells);
    }
}

} // verus!
