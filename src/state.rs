use vstd::prelude::*;

use crate::color::Color;
use crate::error::{fails_with, BadukError, BadukErrorKind};
use crate::model::{
    adjacent, lemma_chain_color, lemma_chain_extend, lemma_chain_self, lemma_closed_holds_chain,
    lemma_chain_same_liberty, lemma_index_in_range, lemma_index_injective, lemma_index_of_pos_of,
    lemma_pos_of_index_of, BoardView,
};
use crate::position::Position;

verus! {

broadcast use vstd::seq_lib::lemma_seq_contains_after_push;

/// Captured stones, counted by the color of the stones taken.
#[derive(Clone, Copy, Debug, PartialEq, Eq, Structural)]
pub struct Captures {
    pub white: i32,
    pub black: i32,
}

impl Default for Captures {
    fn default() -> (r: Captures)
        ensures
            r.white == 0 && r.black == 0,
    {
        Captures { white: 0, black: 0 }
    }
}

impl Captures {
    /// Counts `count` more captured stones of `color`.
    pub fn capture_stones(&mut self, count: i32, color: Color)
        requires
            0 <= count,
            old(self).black + (if color == Color::Black { count } else { 0 }) <= i32::MAX,
            old(self).white + (if color == Color::White { count } else { 0 }) <= i32::MAX,
        ensures
            final(self).black == old(self).black + (if color == Color::Black { count } else { 0 }),
            final(self).white == old(self).white + (if color == Color::White { count } else { 0 }),
    {
        match color {
            Color::Black => self.black = self.black + count,
            Color::White => self.white = self.white + count,
        }
    }
}

/// How two boards of one size differ: the positions whose intersections
/// differ, and by how much each capture counter differs.
#[derive(Debug)]
pub struct GameStateDifference {
    pub positions: Vec<Position>,
    pub captures: Captures,
}

impl GameStateDifference {
    pub fn is_empty(&self) -> (r: bool)
        ensures
            r == (self.positions@.len() == 0 && self.captures.white == 0
                && self.captures.black == 0),
    {
        self.positions.len() == 0 && self.captures.white == 0 && self.captures.black == 0
    }
}

/// A board: its size, its intersections in row-major order, and the
/// capture counters.
#[derive(Debug)]
pub struct GameState {
    pub board: Vec<Option<Color>>,
    pub captures: Captures,
    pub width: u32,
    pub height: u32,
}

impl View for GameState {
    type V = BoardView;

    open spec fn view(&self) -> BoardView {
        BoardView {
            width: self.width as int,
            height: self.height as int,
            cells: self.board@,
            white: self.captures.white as int,
            black: self.captures.black as int,
        }
    }
}

/// An empty board of the given size with no captures.
pub open spec fn empty_board(width: int, height: int) -> BoardView {
    BoardView {
        width,
        height,
        cells: Seq::new((width * height) as nat, |i: int| None),
        white: 0,
        black: 0,
    }
}

/// How many entries of `s` are set.
pub open spec fn count_set(s: Seq<bool>) -> nat
    decreases s.len(),
{
    if s.len() == 0 {
        0
    } else {
        count_set(s.drop_last()) + if s.last() {
            1nat
        } else {
            0nat
        }
    }
}

proof fn lemma_count_set_bound(s: Seq<bool>)
    ensures
        count_set(s) <= s.len(),
    decreases s.len(),
{
    if s.len() > 0 {
        lemma_count_set_bound(s.drop_last());
    }
}

proof fn lemma_count_set_none(n: nat)
    ensures
        count_set(Seq::new(n, |i: int| false)) == 0,
    decreases n,
{
    if n > 0 {
        assert(Seq::new(n, |i: int| false).drop_last() == Seq::new((n - 1) as nat, |i: int| false));
        lemma_count_set_none((n - 1) as nat);
    }
}

proof fn lemma_count_set_update(s: Seq<bool>, k: int)
    requires
        0 <= k < s.len(),
        !s[k],
    ensures
        count_set(s.update(k, true)) == count_set(s) + 1,
    decreases s.len(),
{
    let t = s.update(k, true);
    if k < s.len() - 1 {
        assert(t.drop_last() == s.drop_last().update(k, true));
        lemma_count_set_update(s.drop_last(), k);
    } else {
        assert(t.drop_last() == s.drop_last());
    }
}

proof fn lemma_push_no_duplicates(s: Seq<Position>, x: Position)
    requires
        s.no_duplicates(),
        !s.contains(x),
    ensures
        s.push(x).no_duplicates(),
{
    assert forall|i: int, j: int| 0 <= i < j < s.push(x).len() implies s.push(x)[i] != s.push(x)[j] by {
        if j == s.len() {
            assert(s.contains(s[i]));
        }
    }
}

/// A vector of `n` unset flags.
fn unset_flags(n: usize) -> (r: Vec<bool>)
    ensures
        r@ == Seq::new(n as nat, |i: int| false),
        count_set(r@) == 0,
{
    let mut r: Vec<bool> = Vec::new();
    let mut i: usize = 0;
    while i < n
        invariant
            i <= n,
            r@ == Seq::new(i as nat, |j: int| false),
        decreases n - i,
    {
        r.push(false);
        i = i + 1;
    }
    proof {
        lemma_count_set_none(n as nat);
    }
    r
}

impl GameState {
    pub open spec fn wf(&self) -> bool {
        self@.wf()
    }

    pub fn new(width: u32, height: u32) -> (r: GameState)
        requires
            width * height <= u32::MAX,
        ensures
            r.wf(),
            r@ == empty_board(width as int, height as int),
    {
        let n: usize = (width * height) as usize;
        let mut board: Vec<Option<Color>> = Vec::new();
        let mut i: usize = 0;
        while i < n
            invariant
                i <= n,
                board@ == Seq::new(i as nat, |j: int| None::<Color>),
            decreases n - i,
        {
            board.push(None);
            i = i + 1;
        }
        let r = GameState { board, captures: Captures { white: 0, black: 0 }, width, height };
        assert(r@.cells == empty_board(width as int, height as int).cells);
        r
    }

    /// A copy of this board.
    pub fn copy(&self) -> (r: GameState)
        ensures
            r@ == self@,
    {
        let mut board: Vec<Option<Color>> = Vec::new();
        let mut i: usize = 0;
        while i < self.board.len()
            invariant
                i <= self.board.len(),
                board@ == self.board@.subrange(0, i as int),
            decreases self.board.len() - i,
        {
            board.push(self.board[i]);
            i = i + 1;
        }
        assert(board@ == self.board@);
        GameState { board, captures: self.captures, width: self.width, height: self.height }
    }

    /// Counts `count` more captured stones of `color`.
    pub fn capture_stones(&mut self, count: i32, color: Color)
        requires
            old(self).wf(),
            0 <= count,
            old(self)@.captured(color) + count <= i32::MAX,
        ensures
            final(self).wf(),
            final(self)@ == old(self)@.with_captures(count as int, color),
    {
        self.captures.capture_stones(count, color);
    }

    pub fn captures(&self) -> (r: &Captures)
        ensures
            *r == self.captures,
    {
        &self.captures
    }

    pub fn dimensions(&self) -> (r: (u32, u32))
        ensures
            r == (self.width, self.height),
    {
        (self.width, self.height)
    }

    /// Whether no intersection holds a stone.
    pub fn is_empty(&self) -> (r: bool)
        ensures
            r == (forall|i: int| 0 <= i < self.board@.len() ==> #[trigger] self.board@[i] is None),
    {
        let mut i: usize = 0;
        while i < self.board.len()
            invariant
                i <= self.board.len(),
                forall|j: int| 0 <= j < i ==> #[trigger] self.board@[j] is None,
            decreases self.board.len() - i,
        {
            if self.board[i].is_some() {
                return false;
            }
            i = i + 1;
        }
        true
    }

    pub fn is_valid_position(&self, pos: Position) -> (r: bool)
        ensures
            r == self@.on_board(pos),
    {
        pos.0 >= 1 && pos.0 <= self.width && pos.1 >= 1 && pos.1 <= self.height
    }

    fn position_to_index(&self, pos: Position) -> (r: usize)
        requires
            self.wf(),
            self@.on_board(pos),
        ensures
            r == self@.index_of(pos),
            r < self.board@.len(),
    {
        proof {
            lemma_index_in_range(self@, pos);
            assert((pos.1 - 1) * self.width <= self@.index_of(pos));
        }
        ((pos.0 - 1) + (pos.1 - 1) * self.width) as usize
    }

    /// The position at index `i` of the intersection list.
    pub(crate) fn index_to_position(&self, i: usize) -> (r: Position)
        requires
            self.wf(),
            i < self.board@.len(),
        ensures
            r == self@.pos_of(i as int),
            self@.on_board(r),
            self@.index_of(r) == i,
    {
        proof {
            lemma_index_of_pos_of(self@, i as int);
        }
        let w = self.width as usize;
        Position((i % w) as u32 + 1, (i / w) as u32 + 1)
    }

    /// The stone at `pos`; `None` for an empty or off-board position.
    pub fn get_stone(&self, pos: Position) -> (r: Option<Color>)
        requires
            self.wf(),
        ensures
            r == self@.stone(pos),
    {
        if !self.is_valid_position(pos) {
            return None;
        }
        let index = self.position_to_index(pos);
        self.board[index]
    }

    /// The on-board orthogonal neighbours of an on-board position.
    fn get_neighbours(&self, pos: Position) -> (r: Vec<Position>)
        requires
            self.wf(),
            self@.on_board(pos),
        ensures
            forall|q: Position| #[trigger] r@.contains(q) <==> (self@.on_board(q) && adjacent(pos, q)),
    {
        let mut neighbours: Vec<Position> = Vec::new();
        if pos.0 > 1 {
            neighbours.push(Position(pos.0 - 1, pos.1));
        }
        if pos.0 < self.width {
            neighbours.push(Position(pos.0 + 1, pos.1));
        }
        if pos.1 > 1 {
            neighbours.push(Position(pos.0, pos.1 - 1));
        }
        if pos.1 < self.height {
            neighbours.push(Position(pos.0, pos.1 + 1));
        }
        neighbours
    }

    /// The stones of the chain at `pos`, each listed once and `pos` first,
    /// found by a search over same-colored neighbours with an explicit work
    /// list; `None` when `pos` is empty or off the board.
    fn get_chain(&self, pos: Position) -> (r: Option<Vec<Position>>)
        requires
            self.wf(),
        ensures
            r is None <==> self@.stone(pos) is None,
            r is Some ==> r->0@.no_duplicates(),
            r is Some ==> forall|q: Position| #[trigger] r->0@.contains(q) <==> self@.in_chain(pos, q),
            r is Some ==> r->0@.len() <= self.board@.len(),
            r is Some ==> r->0@.len() >= 1 && r->0@[0] == pos,
    {
        let ghost b = self@;
        let color = match self.get_stone(pos) {
            None => return None,
            Some(c) => c,
        };
        let n = self.board.len();
        let mut seen = unset_flags(n);
        let start = self.position_to_index(pos);
        proof {
            lemma_count_set_update(seen@, start as int);
            lemma_chain_self(b, pos);
        }
        seen.set(start, true);
        let mut chain: Vec<Position> = Vec::new();
        chain.push(pos);
        let mut pool: Vec<Position> = Vec::new();
        pool.push(pos);
        proof {
            assert forall|q: Position| b.on_board(q) implies (seen@[b.index_of(q)]
                <==> chain@.contains(q)) by {
                lemma_index_in_range(b, q);
                if b.index_of(q) == start as int {
                    lemma_index_injective(b, q, pos);
                }
            }
        }
        while pool.len() > 0
            invariant
                b == self@,
                b.wf(),
                b.stone(pos) == Some(color),
                seen@.len() == n,
                n == b.cells.len(),
                chain@.len() == count_set(seen@),
                forall|q: Position| b.on_board(q) ==> (seen@[b.index_of(q)] <==> #[trigger] chain@.contains(q)),
                forall|q: Position| #[trigger] chain@.contains(q) ==> b.on_board(q) && b.in_chain(pos, q),
                chain@.no_duplicates(),
                chain@.contains(pos),
                chain@.len() >= 1 && chain@[0] == pos,
                forall|q: Position| #[trigger] pool@.contains(q) ==> chain@.contains(q),
                forall|q: Position, m: Position|
                    chain@.contains(q) && !pool@.contains(q) && #[trigger] b.linked(q, m)
                        ==> chain@.contains(m),
            decreases n - chain@.len(), pool@.len(),
        {
            proof {
                lemma_count_set_bound(seen@);
            }
            let ghost old_len = chain@.len();
            let ghost old_pool = pool@;
            let cur = pool.pop().unwrap();
            proof {
                assert(old_pool =~= pool@.push(cur));
                assert(old_pool[old_pool.len() - 1] == cur);
                assert(old_pool.contains(cur));
                assert forall|q: Position| #[trigger] pool@.contains(q) implies chain@.contains(q) by {
                    assert(old_pool.contains(q));
                }
            }
            let nbrs = self.get_neighbours(cur);
            proof {
                lemma_chain_color(b, pos, cur);
            }
            let mut j: usize = 0;
            while j < nbrs.len()
                invariant
                    b == self@,
                    b.wf(),
                    b.stone(pos) == Some(color),
                    seen@.len() == n,
                    n == b.cells.len(),
                    chain@.len() == count_set(seen@),
                    chain@.len() >= old_len,
                    pool@.len() >= old_pool.len() - 1,
                    chain@.len() == old_len ==> pool@.len() == old_pool.len() - 1,
                    forall|q: Position| b.on_board(q) ==> (seen@[b.index_of(q)] <==> #[trigger] chain@.contains(q)),
                    forall|q: Position| #[trigger] chain@.contains(q) ==> b.on_board(q) && b.in_chain(pos, q),
                    chain@.no_duplicates(),
                    chain@.contains(pos),
                    chain@.len() >= 1 && chain@[0] == pos,
                    chain@.contains(cur),
                    b.stone(cur) == Some(color),
                    forall|q: Position| #[trigger] pool@.contains(q) ==> chain@.contains(q),
                    forall|q: Position| #[trigger] old_pool.contains(q) && q != cur ==> pool@.contains(q),
                    forall|q: Position, m: Position|
                        chain@.contains(q) && !pool@.contains(q) && q != cur
                            && #[trigger] b.linked(q, m) ==> chain@.contains(m),
                    forall|k: int|
                        0 <= k < j ==> b.linked(cur, #[trigger] nbrs@[k]) ==> chain@.contains(nbrs@[k]),
                    forall|q: Position| #[trigger] nbrs@.contains(q) <==> (b.on_board(q) && adjacent(cur, q)),
                decreases nbrs.len() - j,
            {
                let nb = nbrs[j];
                assert(nbrs@.contains(nb));
                let k = self.position_to_index(nb);
                let linked_stone = match self.board[k] {
                    Some(c) => c == color,
                    None => false,
                };
                if !seen[k] {
                    if linked_stone {
                        proof {
                            lemma_count_set_update(seen@, k as int);
                            lemma_chain_extend(b, pos, cur, nb);
                        }
                        let ghost old_chain = chain@;
                        let ghost old_seen = seen@;
                        seen.set(k, true);
                        chain.push(nb);
                        pool.push(nb);
                        proof {
                            assert forall|q: Position| b.on_board(q) implies (seen@[b.index_of(q)]
                                <==> chain@.contains(q)) by {
                                lemma_index_in_range(b, q);
                                if b.index_of(q) == k as int {
                                    lemma_index_injective(b, q, nb);
                                }
                            }
                            assert(!old_chain.contains(nb));
                        }
                    }
                }
                j = j + 1;
            }
            proof {
                lemma_count_set_bound(seen@);
                assert forall|m: Position| #[trigger] b.linked(cur, m) implies chain@.contains(m) by {
                    assert(nbrs@.contains(m));
                    let t = choose|t: int| 0 <= t < nbrs@.len() && nbrs@[t] == m;
                }
            }
        }
        proof {
            let s = chain@.to_set();
            assert forall|p: Position, q: Position| s.contains(p) && #[trigger] b.linked(p, q)
                implies s.contains(q) by {
                assert(chain@.contains(p));
            }
            assert forall|q: Position| b.in_chain(pos, q) implies chain@.contains(q) by {
                lemma_closed_holds_chain(b, pos, s, q);
            }
            lemma_count_set_bound(seen@);
        }
        Some(chain)
    }

    /// The distinct liberties of the chain at `pos`.
    fn chain_liberties(&self, pos: Position) -> (r: Vec<Position>)
        requires
            self.wf(),
            self@.stone(pos) is Some,
        ensures
            r@.no_duplicates(),
            forall|q: Position| #[trigger] r@.contains(q) <==> self@.is_liberty(pos, q),
            r@.len() <= self.board@.len(),
    {
        let ghost b = self@;
        let chain = self.get_chain(pos).unwrap();
        let n = self.board.len();
        let mut marked = unset_flags(n);
        let mut libs: Vec<Position> = Vec::new();
        let mut i: usize = 0;
        proof {
            assert forall|q: Position| b.on_board(q) implies !marked@[b.index_of(q)] by {
                lemma_index_in_range(b, q);
            }
        }
        while i < chain.len()
            invariant
                b == self@,
                b.wf(),
                n == b.cells.len(),
                marked@.len() == n,
                libs@.len() == count_set(marked@),
                forall|q: Position| b.on_board(q) ==> (marked@[b.index_of(q)] <==> #[trigger] libs@.contains(q)),
                forall|q: Position| #[trigger] libs@.contains(q) ==> b.is_liberty(pos, q),
                libs@.no_duplicates(),
                forall|q: Position| #[trigger] chain@.contains(q) <==> b.in_chain(pos, q),
                forall|t: int, l: Position|
                    0 <= t < i && #[trigger] adjacent(chain@[t], l) && b.on_board(l) && b.stone(l) is None
                        ==> libs@.contains(l),
            decreases chain.len() - i,
        {
            let c = chain[i];
            proof {
                assert(chain@.contains(c));
                lemma_chain_color(b, pos, c);
            }
            let nbrs = self.get_neighbours(c);
            let mut j: usize = 0;
            while j < nbrs.len()
                invariant
                    b == self@,
                    b.wf(),
                    n == b.cells.len(),
                    marked@.len() == n,
                    libs@.len() == count_set(marked@),
                    forall|q: Position| b.on_board(q) ==> (marked@[b.index_of(q)] <==> #[trigger] libs@.contains(q)),
                    forall|q: Position| #[trigger] libs@.contains(q) ==> b.is_liberty(pos, q),
                    libs@.no_duplicates(),
                    forall|q: Position| #[trigger] chain@.contains(q) <==> b.in_chain(pos, q),
                    forall|t: int, l: Position|
                        0 <= t < i && #[trigger] adjacent(chain@[t], l) && b.on_board(l) && b.stone(l) is None
                            ==> libs@.contains(l),
                    b.in_chain(pos, c),
                    c == chain@[i as int],
                    i < chain@.len(),
                    forall|q: Position| #[trigger] nbrs@.contains(q) <==> (b.on_board(q) && adjacent(c, q)),
                    forall|t: int| 0 <= t < j ==> b.stone(#[trigger] nbrs@[t]) is None ==> libs@.contains(nbrs@[t]),
                decreases nbrs.len() - j,
            {
                let l = nbrs[j];
                assert(nbrs@.contains(l));
                let k = self.position_to_index(l);
                if self.board[k].is_none() && !marked[k] {
                    proof {
                        lemma_count_set_update(marked@, k as int);
                        lemma_count_set_bound(marked@);
                        assert(b.is_liberty(pos, l));
                        assert(!libs@.contains(l));
                        lemma_push_no_duplicates(libs@, l);
                    }
                    marked.set(k, true);
                    libs.push(l);
                    proof {
                        assert forall|q: Position| b.on_board(q) implies (marked@[b.index_of(q)]
                            <==> #[trigger] libs@.contains(q)) by {
                            lemma_index_in_range(b, q);
                            if b.index_of(q) == k as int {
                                lemma_index_injective(b, q, l);
                            }
                        }
                    }
                }
                j = j + 1;
            }
            proof {
                assert forall|t: int, l: Position|
                    0 <= t < i + 1 && #[trigger] adjacent(chain@[t], l) && b.on_board(l) && b.stone(l) is None
                        implies libs@.contains(l) by {
                    if t == i {
                        assert(nbrs@.contains(l));
                        let u = choose|u: int| 0 <= u < nbrs@.len() && nbrs@[u] == l;
                    }
                }
            }
            i = i + 1;
        }
        proof {
            assert forall|l: Position| b.is_liberty(pos, l) implies #[trigger] libs@.contains(l) by {
                let c = choose|c: Position| #[trigger] b.in_chain(pos, c) && adjacent(c, l);
                assert(chain@.contains(c));
                let t = choose|t: int| 0 <= t < chain@.len() && chain@[t] == c;
                assert(adjacent(chain@[t], l));
            }
            lemma_count_set_bound(marked@);
        }
        libs
    }

    /// Whether the chain at `pos` has a liberty.
    fn chain_has_liberty(&self, pos: Position) -> (r: bool)
        requires
            self.wf(),
            self@.stone(pos) is Some,
        ensures
            r == self@.has_liberty(pos),
    {
        let libs = self.chain_liberties(pos);
        proof {
            if libs@.len() > 0 {
                assert(libs@.contains(libs@[0]));
            }
            if self@.has_liberty(pos) {
                let l = choose|l: Position| self@.is_liberty(pos, l);
                assert(libs@.contains(l));
            }
        }
        libs.len() > 0
    }

    /// The number of distinct liberties of the chain at `pos`; `None` when
    /// `pos` is off the board or empty.
    pub fn count_liberties(&self, pos: Position) -> (r: Option<u32>)
        requires
            self.wf(),
        ensures
            self@.stone(pos) is None <==> r is None,
            r is Some ==> self@.liberties(pos).finite() && r->0 == self@.liberties(pos).len(),
    {
        if self.get_stone(pos).is_none() {
            return None;
        }
        let libs = self.chain_liberties(pos);
        proof {
            assert(libs@.to_set() =~= self@.liberties(pos));
            libs@.unique_seq_to_set();
        }
        Some(libs.len() as u32)
    }

    /// Whether no chain of either color is without a liberty.
    pub fn is_valid(&self) -> (r: bool)
        requires
            self.wf(),
        ensures
            r == self@.all_alive(),
    {
        let ghost b = self@;
        let n = self.board.len();
        let mut i: usize = 0;
        while i < n
            invariant
                b == self@,
                b.wf(),
                n == b.cells.len(),
                i <= n,
                forall|t: int|
                    0 <= t < i ==> b.stone(#[trigger] b.pos_of(t)) is Some ==> b.has_liberty(b.pos_of(t)),
            decreases n - i,
        {
            let p = self.index_to_position(i);
            if self.board[i].is_some() {
                if !self.chain_has_liberty(p) {
                    assert(b.stone(p) is Some);
                    return false;
                }
            }
            i = i + 1;
        }
        proof {
            assert forall|p: Position| #[trigger] b.stone(p) is Some implies b.has_liberty(p) by {
                lemma_index_in_range(b, p);
                lemma_pos_of_index_of(b, p);
                assert(b.pos_of(b.index_of(p)) == p);
            }
        }
        true
    }

    /// For each index of the intersection list, whether it holds a dead
    /// stone of `color`. Each chain is searched once, from its first stone
    /// in board order, and its verdict given to all of its stones.
    fn dead_marks(&self, color: Color) -> (r: Vec<bool>)
        requires
            self.wf(),
        ensures
            r@.len() == self.board@.len(),
            forall|k: int|
                0 <= k < r@.len() ==> #[trigger] r@[k] == self@.is_dead(self@.pos_of(k), color),
    {
        let ghost b = self@;
        let n = self.board.len();
        let mut visited = unset_flags(n);
        let mut dead = unset_flags(n);
        let mut i: usize = 0;
        while i < n
            invariant
                b == self@,
                b.wf(),
                n == b.cells.len(),
                i <= n,
                visited@.len() == n,
                dead@.len() == n,
                forall|k: int|
                    0 <= k < n && #[trigger] visited@[k] ==> b.stone(b.pos_of(k)) == Some(color)
                        && dead@[k] == b.is_dead(b.pos_of(k), color),
                forall|k: int| 0 <= k < n && !visited@[k] ==> !#[trigger] dead@[k],
                forall|k: int|
                    0 <= k < i && b.stone(#[trigger] b.pos_of(k)) == Some(color) ==> visited@[k],
            decreases n - i,
        {
            let p = self.index_to_position(i);
            let unvisited_stone = match self.board[i] {
                Some(c) => c == color && !visited[i],
                None => false,
            };
            if unvisited_stone {
                let chain = self.get_chain(p).unwrap();
                let alive = self.chain_has_liberty(p);
                let mut t: usize = 0;
                while t < chain.len()
                    invariant
                        b == self@,
                        b.wf(),
                        n == b.cells.len(),
                        i < n,
                        p == b.pos_of(i as int),
                        b.on_board(p),
                        b.index_of(p) == i,
                        b.stone(p) == Some(color),
                        alive == b.has_liberty(p),
                        visited@.len() == n,
                        dead@.len() == n,
                        t <= chain@.len(),
                        forall|q: Position| #[trigger] chain@.contains(q) <==> b.in_chain(p, q),
                        forall|u: int| 0 <= u < t ==> visited@[b.index_of(#[trigger] chain@[u])],
                        forall|k: int|
                            0 <= k < n && #[trigger] visited@[k] ==> b.stone(b.pos_of(k)) == Some(color)
                                && dead@[k] == b.is_dead(b.pos_of(k), color),
                        forall|k: int| 0 <= k < n && !visited@[k] ==> !#[trigger] dead@[k],
                        forall|k: int|
                            0 <= k < i && b.stone(#[trigger] b.pos_of(k)) == Some(color) ==> visited@[k],
                    decreases chain@.len() - t,
                {
                    let c = chain[t];
                    proof {
                        assert(chain@.contains(c));
                        lemma_chain_color(b, p, c);
                        lemma_chain_same_liberty(b, p, c);
                        lemma_pos_of_index_of(b, c);
                    }
                    let k = self.position_to_index(c);
                    let ghost seen = visited@;
                    visited.set(k, true);
                    dead.set(k, !alive);
                    proof {
                        assert forall|u: int| 0 <= u < t + 1 implies visited@[b.index_of(
                            #[trigger] chain@[u],
                        )] by {
                            assert(chain@.contains(chain@[u]));
                            lemma_chain_color(b, p, chain@[u]);
                            lemma_index_in_range(b, chain@[u]);
                            if u < t {
                                assert(seen[b.index_of(chain@[u])]);
                            }
                        }
                    }
                    t = t + 1;
                }
                proof {
                    lemma_chain_self(b, p);
                    assert(chain@.contains(p));
                    let u = choose|u: int| 0 <= u < chain@.len() && chain@[u] == p;
                    assert(visited@[b.index_of(chain@[u])]);
                }
            }
            i = i + 1;
        }
        proof {
            assert forall|k: int| 0 <= k < n implies #[trigger] dead@[k] == b.is_dead(b.pos_of(k), color) by {
                if !visited@[k] {
                    assert(!dead@[k]);
                }
            }
        }
        dead
    }

    /// Takes every chain of `color` that has no liberty off the board and
    /// returns the positions of the removed stones.
    pub fn remove_dead_stones(&mut self, color: Color) -> (r: Vec<Position>)
        requires
            old(self).wf(),
        ensures
            final(self).wf(),
            final(self)@ == old(self)@.without_dead(color),
            r@.no_duplicates(),
            forall|q: Position| #[trigger] r@.contains(q) <==> old(self)@.is_dead(q, color),
    {
        let ghost b = self@;
        let n = self.board.len();
        let marks = self.dead_marks(color);
        let mut cells: Vec<Option<Color>> = Vec::new();
        let mut dead: Vec<Position> = Vec::new();
        let mut i: usize = 0;
        while i < n
            invariant
                b == self@,
                b.wf(),
                n == b.cells.len(),
                i <= n,
                cells@.len() == i,
                forall|t: int| 0 <= t < i ==> #[trigger] cells@[t] == b.without_dead(color).cells[t],
                forall|q: Position|
                    #[trigger] dead@.contains(q) ==> b.is_dead(q, color) && b.on_board(q) && b.index_of(q) < i,
                forall|t: int|
                    0 <= t < i && b.is_dead(#[trigger] b.pos_of(t), color) ==> dead@.contains(b.pos_of(t)),
                dead@.no_duplicates(),
                marks@.len() == n,
                forall|k: int| 0 <= k < n ==> #[trigger] marks@[k] == b.is_dead(b.pos_of(k), color),
            decreases n - i,
        {
            let p = self.index_to_position(i);
            let v = self.board[i];
            if marks[i] {
                proof {
                    assert(!dead@.contains(p));
                    lemma_push_no_duplicates(dead@, p);
                }
                dead.push(p);
                cells.push(None);
            } else {
                cells.push(v);
            }
            i = i + 1;
        }
        proof {
            assert(cells@ =~= b.without_dead(color).cells);
            assert forall|q: Position| b.is_dead(q, color) implies #[trigger] dead@.contains(q) by {
                lemma_index_in_range(b, q);
                lemma_pos_of_index_of(b, q);
            }
        }
        self.board = cells;
        dead
    }

    /// A copy with `color` placed at `pos`; fails when `pos` is off the
    /// board or occupied. Captures are not resolved here.
    pub fn place_stone(&self, pos: Position, color: Color) -> (r: Result<GameState, BadukError>)
        requires
            self.wf(),
        ensures
            !self@.on_board(pos) ==> fails_with(r, BadukErrorKind::InvalidPosition(pos)),
            self@.on_board(pos) && self@.stone(pos) is Some ==> fails_with(
                r,
                BadukErrorKind::AlreadyOccupied(pos),
            ),
            self@.stone(pos) is None && self@.on_board(pos) ==> r is Ok,
            r is Ok ==> r->Ok_0.wf() && r->Ok_0@ == self@.with_cell(pos, Some(color)),
    {
        if !self.is_valid_position(pos) {
            return Err(BadukError::from(BadukErrorKind::InvalidPosition(pos)));
        }
        let index = self.position_to_index(pos);
        if self.board[index].is_some() {
            return Err(BadukError::from(BadukErrorKind::AlreadyOccupied(pos)));
        }
        let mut state = self.copy();
        state.board.set(index, Some(color));
        Ok(state)
    }

    /// A copy with `color` placed at `pos` whatever was there; fails only
    /// when `pos` is off the board.
    pub fn add_stone(&self, pos: Position, color: Color) -> (r: Result<GameState, BadukError>)
        requires
            self.wf(),
        ensures
            !self@.on_board(pos) ==> fails_with(r, BadukErrorKind::InvalidPosition(pos)),
            self@.on_board(pos) ==> r is Ok,
            r is Ok ==> r->Ok_0.wf() && r->Ok_0@ == self@.with_cell(pos, Some(color)),
    {
        if !self.is_valid_position(pos) {
            return Err(BadukError::from(BadukErrorKind::InvalidPosition(pos)));
        }
        let index = self.position_to_index(pos);
        let mut state = self.copy();
        state.board.set(index, Some(color));
        Ok(state)
    }

    /// Clears the intersection at `pos`; fails when `pos` is off the board.
    pub fn remove_stone(&mut self, pos: Position) -> (r: Result<(), BadukError>)
        requires
            old(self).wf(),
        ensures
            final(self).wf(),
            !old(self)@.on_board(pos) ==> fails_with(r, BadukErrorKind::InvalidPosition(pos))
                && final(self)@ == old(self)@,
            old(self)@.on_board(pos) ==> r is Ok && final(self)@ == old(self)@.with_cell(pos, None),
    {
        if !self.is_valid_position(pos) {
            return Err(BadukError::from(BadukErrorKind::InvalidPosition(pos)));
        }
        let index = self.position_to_index(pos);
        self.board.set(index, None);
        Ok(())
    }

    /// How this board differs from `other`; fails when the sizes differ.
    pub fn difference(&self, other: &GameState) -> (r: Result<GameStateDifference, ()>)
        requires
            self.wf(),
            other.wf(),
        ensures
            r is Err <==> (self.width != other.width || self.height != other.height),
            r is Ok ==> r->Ok_0.positions@.no_duplicates(),
            r is Ok ==> forall|q: Position| #[trigger] r->Ok_0.positions@.contains(q)
                <==> (self@.on_board(q) && self@.stone(q) != other@.stone(q)),
            r is Ok ==> r->Ok_0.captures.black == abs_diff(self@.black, other@.black),
            r is Ok ==> r->Ok_0.captures.white == abs_diff(self@.white, other@.white),
    {
        if self.width != other.width || self.height != other.height {
            return Err(());
        }
        let ghost b = self@;
        let ghost o = other@;
        let n = self.board.len();
        let mut diff: Vec<Position> = Vec::new();
        let mut i: usize = 0;
        while i < n
            invariant
                b == self@,
                o == other@,
                b.wf(),
                o.wf(),
                b.width == o.width,
                b.height == o.height,
                n == b.cells.len(),
                i <= n,
                forall|q: Position|
                    #[trigger] diff@.contains(q) ==> b.on_board(q) && b.stone(q) != o.stone(q)
                        && b.index_of(q) < i,
                forall|t: int|
                    0 <= t < i && b.stone(#[trigger] b.pos_of(t)) != o.stone(b.pos_of(t))
                        ==> diff@.contains(b.pos_of(t)),
                diff@.no_duplicates(),
            decreases n - i,
        {
            let p = self.index_to_position(i);
            if !same_cell(self.board[i], other.board[i]) {
                proof {
                    assert(!diff@.contains(p));
                    lemma_push_no_duplicates(diff@, p);
                }
                diff.push(p);
            }
            i = i + 1;
        }
        proof {
            assert forall|q: Position| b.on_board(q) && b.stone(q) != o.stone(q) implies #[trigger] diff@.contains(q) by {
                lemma_index_in_range(b, q);
                lemma_pos_of_index_of(b, q);
            }
        }
        let black = if self.captures.black >= other.captures.black {
            self.captures.black - other.captures.black
        } else {
            other.captures.black - self.captures.black
        };
        let white = if self.captures.white >= other.captures.white {
            self.captures.white - other.captures.white
        } else {
            other.captures.white - self.captures.white
        };
        Ok(GameStateDifference { positions: diff, captures: Captures { white, black } })
    }
}

/// The distance between two integers.
pub open spec fn abs_diff(a: int, b: int) -> int {
    if a >= b {
        a - b
    } else {
        b - a
    }
}

fn same_cell(a: Option<Color>, b: Option<Color>) -> (r: bool)
    ensures
        r == (a == b),
{
    match (a, b) {
        (None, None) => true,
        (Some(x), Some(y)) => x == y,
        _ => false,
    }
}

impl Clone for GameState {
    fn clone(&self) -> (r: GameState)
        ensures
            r@ == self@,
    {
        self.copy()
    }
}

impl Default for GameState {
    /// An empty board of 19 by 19.
    fn default() -> (r: GameState)
        ensures
            r.wf(),
            r@ == empty_board(19, 19),
    {
        GameState::new(19, 19)
    }
}


/// The board of an optional state.
pub open spec fn view_of(s: Option<&GameState>) -> Option<BoardView> {
    match s {
        Some(g) => Some(g@),
        None => None,
    }
}

/// A move is an immediate retake of a ko when it captures exactly one
/// stone and leaves the board exactly as it was before the opponent's
/// last move, that move having captured exactly one stone of the mover
/// and none of its own.
pub open spec fn retakes_ko(previous: Option<BoardView>, tentative: BoardView, count: int, color: Color) -> bool {
    &&& count == 1
    &&& previous is Some
    &&& previous->0.width == tentative.width
    &&& previous->0.height == tentative.height
    &&& previous->0.cells == tentative.cells
    &&& abs_diff(previous->0.captured(color), tentative.captured(color)) == 1
    &&& abs_diff(previous->0.captured(color.other()), tentative.captured(color.other())) == 0
}

/// What playing `color` at `pos` on `current` gives, where `previous` is
/// the board before the last move: the position must be on the board and
/// empty; the opponent's chains left without liberties are captured; the
/// move may not leave any chain without liberties, nor retake a ko at once;
/// the captured stones are then added to the opponent's counter.
pub open spec fn move_outcome(previous: Option<BoardView>, current: BoardView, pos: Position, color: Color) -> Result<BoardView, BadukErrorKind> {
    let placed = current.with_cell(pos, Some(color));
    let opponent = color.other();
    let tentative = placed.without_dead(opponent);
    let count = placed.dead_stones(opponent).len() as int;
    if !current.on_board(pos) {
        Err(BadukErrorKind::InvalidPosition(pos))
    } else if current.stone(pos) is Some {
        Err(BadukErrorKind::AlreadyOccupied(pos))
    } else if !tentative.all_alive() {
        Err(BadukErrorKind::SuicidalMove)
    } else if retakes_ko(previous, tentative, count, color) {
        Err(BadukErrorKind::RetakingKo)
    } else if tentative.captured(opponent) + count > i32::MAX {
        Err(BadukErrorKind::InvalidInput)
    } else {
        Ok(tentative.with_captures(count, opponent))
    }
}

/// `r` is what `move_outcome` describes.
pub open spec fn matches_outcome(r: Result<GameState, BadukError>, outcome: Result<BoardView, BadukErrorKind>) -> bool {
    match outcome {
        Ok(b) => r is Ok && r->Ok_0.wf() && r->Ok_0@ == b,
        Err(k) => fails_with(r, k),
    }
}

/// Boards of one size that agree at every position have the same intersections.
proof fn lemma_same_stones(b: BoardView, o: BoardView)
    requires
        b.wf(),
        o.wf(),
        b.width == o.width,
        b.height == o.height,
        forall|q: Position| b.on_board(q) ==> #[trigger] b.stone(q) == o.stone(q),
    ensures
        b.cells == o.cells,
{
    assert forall|i: int| 0 <= i < b.cells.len() implies b.cells[i] == o.cells[i] by {
        lemma_index_of_pos_of(b, i);
        assert(b.stone(b.pos_of(i)) == o.stone(b.pos_of(i)));
    }
    assert(b.cells =~= o.cells);
}

/// Whether a move that captured `count` stones and left `tentative`
/// retakes a ko, judged against the board before the last move.
fn is_directly_retaking_ko(previous: Option<&GameState>, tentative: &GameState, count: usize, color: Color) -> (r: bool)
    requires
        tentative.wf(),
        previous is Some ==> previous->0.wf(),
    ensures
        r == retakes_ko(view_of(previous), tentative@, count as int, color),
{
    if count != 1 {
        return false;
    }
    match previous {
        None => false,
        Some(p) => match p.difference(tentative) {
            Err(_) => false,
            Ok(diff) => {
                proof {
                    if diff.positions@.len() == 0 {
                        assert forall|q: Position| p@.on_board(q) implies #[trigger] p@.stone(q)
                            == tentative@.stone(q) by {
                            assert(!diff.positions@.contains(q));
                        }
                        lemma_same_stones(p@, tentative@);
                    }
                    if p@.cells == tentative@.cells && diff.positions@.len() > 0 {
                        assert(diff.positions@.contains(diff.positions@[0]));
                    }
                }
                let (mine, theirs) = match color {
                    Color::Black => (diff.captures.black, diff.captures.white),
                    Color::White => (diff.captures.white, diff.captures.black),
                };
                diff.positions.len() == 0 && mine == 1 && theirs == 0
            },
        },
    }
}

impl GameState {
    /// Plays `color` at `pos`, with `previous` the board before the last
    /// move (for the ko rule), and returns the board after the move.
    pub fn apply_move(&self, previous: Option<&GameState>, pos: Position, color: Color) -> (r: Result<GameState, BadukError>)
        requires
            self.wf(),
            previous is Some ==> previous->0.wf(),
        ensures
            matches_outcome(r, move_outcome(view_of(previous), self@, pos, color)),
    {
        let mut state = match self.place_stone(pos, color) {
            Ok(s) => s,
            Err(e) => return Err(e),
        };
        let ghost placed = state@;
        let opponent = color.opponent();
        let removed = state.remove_dead_stones(opponent);
        proof {
            assert(removed@.to_set() =~= placed.dead_stones(opponent));
            removed@.unique_seq_to_set();
        }
        if !state.is_valid() {
            return Err(BadukError::from(BadukErrorKind::SuicidalMove));
        }
        let count = removed.len();
        if is_directly_retaking_ko(previous, &state, count, color) {
            return Err(BadukError::from(BadukErrorKind::RetakingKo));
        }
        let taken = match opponent {
            Color::Black => state.captures.black,
            Color::White => state.captures.white,
        };
        if count > (i32::MAX - taken) as usize {
            return Err(BadukError::from(BadukErrorKind::InvalidInput));
        }
        state.capture_stones(count as i32, opponent);
        Ok(state)
    }
}

/// Only a move that captures exactly one stone can be refused as a ko
/// retake: a capture of several stones, or of none, never is.
pub proof fn lemma_multi_capture_never_ko(
    previous: Option<BoardView>,
    current: BoardView,
    pos: Position,
    color: Color,
)
    requires
        current.with_cell(pos, Some(color)).dead_stones(color.other()).len() != 1,
    ensures
        move_outcome(previous, current, pos, color) != Err::<BoardView, BadukErrorKind>(
            BadukErrorKind::RetakingKo,
        ),
{
}

/// A move onto an empty on-board position that leaves every chain with a
/// liberty and captures a number of stones other than one (a snapback
/// recapture of several stones, say) is played, whatever happened before,
/// as long as the opponent's counter can hold the captures.
pub proof fn lemma_multi_capture_is_played(
    previous: Option<BoardView>,
    current: BoardView,
    pos: Position,
    color: Color,
)
    requires
        current.on_board(pos),
        current.stone(pos) is None,
        current.with_cell(pos, Some(color)).without_dead(color.other()).all_alive(),
        current.with_cell(pos, Some(color)).dead_stones(color.other()).len() != 1,
        current.captured(color.other()) + current.with_cell(pos, Some(color)).dead_stones(
            color.other(),
        ).len() <= i32::MAX,
    ensures
        move_outcome(previous, current, pos, color) is Ok,
{
    let placed = current.with_cell(pos, Some(color));
    assert(placed.without_dead(color.other()).captured(color.other()) == current.captured(
        color.other(),
    ));
}

} // verus!
