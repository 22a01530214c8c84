use vstd::arithmetic::div_mod::lemma_fundamental_div_mod_converse;
use vstd::prelude::*;

use crate::color::Color;
use crate::position::Position;

verus! {

/// Whether two positions are orthogonal neighbours.
pub open spec fn adjacent(a: Position, b: Position) -> bool {
    let (ax, ay, bx, by) = (a.0 as int, a.1 as int, b.0 as int, b.1 as int);
    (ax == bx && (ay == by + 1 || by == ay + 1)) || (ay == by && (ax == bx + 1 || bx == ax + 1))
}

/// The mathematical value of a board: its size, its intersections in
/// row-major order, and how many stones of each color have been captured.
pub struct BoardView {
    pub width: int,
    pub height: int,
    pub cells: Seq<Option<Color>>,
    pub white: int,
    pub black: int,
}

impl BoardView {
    /// The size and the intersections agree, and the counters are not negative.
    pub open spec fn wf(self) -> bool {
        &&& 0 <= self.width
        &&& 0 <= self.height
        &&& self.width * self.height <= u32::MAX
        &&& self.cells.len() == self.width * self.height
        &&& 0 <= self.white <= i32::MAX
        &&& 0 <= self.black <= i32::MAX
    }

    pub open spec fn on_board(self, p: Position) -> bool {
        1 <= p.0 <= self.width && 1 <= p.1 <= self.height
    }

    /// Where an on-board position sits in the row-major intersection list.
    pub open spec fn index_of(self, p: Position) -> int {
        (p.0 - 1) + (p.1 - 1) * self.width
    }

    /// The position that sits at index `i` of the intersection list.
    pub open spec fn pos_of(self, i: int) -> Position {
        Position((i % self.width + 1) as u32, (i / self.width + 1) as u32)
    }

    /// The stone at `p`; `None` for an empty or off-board position.
    pub open spec fn stone(self, p: Position) -> Option<Color> {
        if self.on_board(p) {
            self.cells[self.index_of(p)]
        } else {
            None
        }
    }

    /// `a` holds a stone and `b` is a neighbour holding a stone of the same color.
    pub open spec fn linked(self, a: Position, b: Position) -> bool {
        &&& self.stone(a) is Some
        &&& self.stone(b) == self.stone(a)
        &&& adjacent(a, b)
    }

    /// `s` is a walk over linked stones.
    pub open spec fn is_path(self, s: Seq<Position>) -> bool {
        &&& s.len() >= 1
        &&& forall|i: int| 0 <= i < s.len() - 1 ==> #[trigger] self.linked(s[i], s[i + 1])
    }

    /// `s` is a walk over linked stones from `a` to `b`.
    pub open spec fn path_between(self, s: Seq<Position>, a: Position, b: Position) -> bool {
        self.is_path(s) && s[0] == a && s.last() == b
    }

    /// `b` belongs to the chain of the stone at `a`: the maximal set of
    /// same-colored stones connected to it through orthogonal neighbours.
    pub open spec fn in_chain(self, a: Position, b: Position) -> bool {
        &&& self.stone(a) is Some
        &&& exists|s: Seq<Position>| #[trigger] self.path_between(s, a, b)
    }

    /// `l` is an empty intersection next to some stone of the chain at `a`.
    pub open spec fn is_liberty(self, a: Position, l: Position) -> bool {
        &&& self.on_board(l)
        &&& self.stone(l) is None
        &&& exists|c: Position| #[trigger] self.in_chain(a, c) && adjacent(c, l)
    }

    /// The liberties of the chain at `a`, each counted once.
    pub open spec fn liberties(self, a: Position) -> Set<Position> {
        Set::new(|l: Position| self.is_liberty(a, l))
    }

    pub open spec fn has_liberty(self, a: Position) -> bool {
        exists|l: Position| self.is_liberty(a, l)
    }

    /// A stone of `color` whose chain has no liberty.
    pub open spec fn is_dead(self, p: Position, color: Color) -> bool {
        self.stone(p) == Some(color) && !self.has_liberty(p)
    }

    pub open spec fn dead_stones(self, color: Color) -> Set<Position> {
        Set::new(|p: Position| self.is_dead(p, color))
    }

    /// No chain of either color is without a liberty.
    pub open spec fn all_alive(self) -> bool {
        forall|p: Position| #[trigger] self.stone(p) is Some ==> self.has_liberty(p)
    }

    /// The board with every dead stone of `color` taken off.
    pub open spec fn without_dead(self, color: Color) -> BoardView {
        BoardView {
            cells: Seq::new(
                self.cells.len(),
                |i: int|
                    if self.is_dead(self.pos_of(i), color) {
                        None
                    } else {
                        self.cells[i]
                    },
            ),
            ..self
        }
    }

    /// The board with the intersection at `p` set to `v`.
    pub open spec fn with_cell(self, p: Position, v: Option<Color>) -> BoardView {
        BoardView { cells: self.cells.update(self.index_of(p), v), ..self }
    }

    /// The counter of captured stones of `color`.
    pub open spec fn captured(self, color: Color) -> int {
        match color {
            Color::Black => self.black,
            Color::White => self.white,
        }
    }

    /// The board with `count` more stones of `color` counted as captured.
    pub open spec fn with_captures(self, count: int, color: Color) -> BoardView {
        match color {
            Color::Black => BoardView { black: self.black + count, ..self },
            Color::White => BoardView { white: self.white + count, ..self },
        }
    }
}

/// The index of an on-board position is in range.
pub proof fn lemma_index_in_range(b: BoardView, p: Position)
    requires
        b.wf(),
        b.on_board(p),
    ensures
        0 <= b.index_of(p) < b.width * b.height,
        b.index_of(p) < b.cells.len(),
{
    let (x, y, w, h) = (p.0 as int, p.1 as int, b.width, b.height);
    assert((x - 1) + (y - 1) * w < w * h) by (nonlinear_arith)
        requires
            1 <= x <= w,
            1 <= y <= h,
    ;
    assert(0 <= (y - 1) * w) by (nonlinear_arith)
        requires
            1 <= y,
            0 <= w,
    ;
}

/// Reading an on-board position's index back gives the position.
pub proof fn lemma_pos_of_index_of(b: BoardView, p: Position)
    requires
        b.wf(),
        b.on_board(p),
    ensures
        b.pos_of(b.index_of(p)) == p,
{
    let (x, y, w) = (p.0 as int, p.1 as int, b.width);
    let i = b.index_of(p);
    assert(i == (y - 1) * w + (x - 1));
    lemma_fundamental_div_mod_converse(i, w, y - 1, x - 1);
}

/// Every index of the intersection list belongs to an on-board position.
pub proof fn lemma_index_of_pos_of(b: BoardView, i: int)
    requires
        b.wf(),
        0 <= i < b.cells.len(),
    ensures
        b.on_board(b.pos_of(i)),
        b.index_of(b.pos_of(i)) == i,
{
    let (w, h) = (b.width, b.height);
    assert(w > 0) by (nonlinear_arith)
        requires
            0 <= i < w * h,
            0 <= h,
    ;
    let q = i / w;
    let r = i % w;
    assert(i == q * w + r && 0 <= r < w) by (nonlinear_arith)
        requires
            w > 0,
            q == i / w,
            r == i % w,
    ;
    assert(0 <= q < h) by (nonlinear_arith)
        requires
            w > 0,
            i == q * w + r,
            0 <= r < w,
            0 <= i < w * h,
    ;
    assert(r + 1 <= u32::MAX && q + 1 <= u32::MAX) by (nonlinear_arith)
        requires
            0 <= r < w,
            0 <= q < h,
            w * h <= u32::MAX,
            w > 0,
    ;
}

/// Two on-board positions with the same index are the same position.
pub proof fn lemma_index_injective(b: BoardView, p: Position, q: Position)
    requires
        b.wf(),
        b.on_board(p),
        b.on_board(q),
        b.index_of(p) == b.index_of(q),
    ensures
        p == q,
{
    lemma_pos_of_index_of(b, p);
    lemma_pos_of_index_of(b, q);
}

/// Every stone on a walk has the color of the first.
proof fn lemma_path_color(b: BoardView, s: Seq<Position>, i: int)
    requires
        b.is_path(s),
        b.stone(s[0]) is Some,
        0 <= i < s.len(),
    ensures
        b.stone(s[i]) == b.stone(s[0]),
    decreases i,
{
    if i > 0 {
        lemma_path_color(b, s, i - 1);
        let j = i - 1;
        assert(b.linked(s[j], s[j + 1]));
    }
}

/// A chain member is a stone of the chain's color.
pub proof fn lemma_chain_color(b: BoardView, a: Position, c: Position)
    requires
        b.in_chain(a, c),
    ensures
        b.stone(c) == b.stone(a),
        b.stone(c) is Some,
{
    let s = choose|s: Seq<Position>| #[trigger] b.path_between(s, a, c);
    lemma_path_color(b, s, s.len() - 1);
}

/// A link taken after a chain member stays in the chain.
pub proof fn lemma_chain_extend(b: BoardView, a: Position, c: Position, d: Position)
    requires
        b.in_chain(a, c),
        b.linked(c, d),
    ensures
        b.in_chain(a, d),
{
    let s = choose|s: Seq<Position>| #[trigger] b.path_between(s, a, c);
    let t = s.push(d);
    assert forall|i: int| 0 <= i < t.len() - 1 implies #[trigger] b.linked(t[i], t[i + 1]) by {
        if i < s.len() - 1 {
            assert(b.linked(s[i], s[i + 1]));
        }
    }
    assert(b.path_between(t, a, d));
}

/// Every stone is in its own chain.
pub proof fn lemma_chain_self(b: BoardView, a: Position)
    requires
        b.stone(a) is Some,
    ensures
        b.in_chain(a, a),
{
    assert(b.path_between(seq![a], a, a));
}

proof fn lemma_path_reverse(b: BoardView, s: Seq<Position>) -> (t: Seq<Position>)
    requires
        b.is_path(s),
        b.stone(s[0]) is Some,
    ensures
        b.path_between(t, s.last(), s[0]),
{
    let n = s.len();
    let t = Seq::new(n, |i: int| s[n - 1 - i]);
    assert forall|i: int| 0 <= i < t.len() - 1 implies #[trigger] b.linked(t[i], t[i + 1]) by {
        let j = n - 2 - i;
        assert(b.linked(s[j], s[j + 1]));
        lemma_path_color(b, s, j);
        lemma_path_color(b, s, j + 1);
    }
    t
}

proof fn lemma_path_concat(b: BoardView, s: Seq<Position>, t: Seq<Position>) -> (u: Seq<Position>)
    requires
        b.is_path(s),
        b.is_path(t),
        s.last() == t[0],
    ensures
        b.path_between(u, s[0], t.last()),
{
    let u = s + t.drop_first();
    assert forall|i: int| 0 <= i < u.len() - 1 implies #[trigger] b.linked(u[i], u[i + 1]) by {
        if i < s.len() - 1 {
            assert(b.linked(s[i], s[i + 1]));
        } else {
            let j = i - s.len() + 1;
            assert(b.linked(t[j], t[j + 1]));
        }
    }
    if t.len() == 1 {
        assert(u == s);
    }
    u
}

/// Chains partition the stones: a member's chain is the chain itself.
pub proof fn lemma_chain_same(b: BoardView, a: Position, c: Position, d: Position)
    requires
        b.in_chain(a, c),
    ensures
        b.in_chain(c, d) <==> b.in_chain(a, d),
{
    lemma_chain_color(b, a, c);
    let s = choose|s: Seq<Position>| #[trigger] b.path_between(s, a, c);
    let r = lemma_path_reverse(b, s);
    if b.in_chain(c, d) {
        let t = choose|t: Seq<Position>| #[trigger] b.path_between(t, c, d);
        let u = lemma_path_concat(b, s, t);
    }
    if b.in_chain(a, d) {
        let t = choose|t: Seq<Position>| #[trigger] b.path_between(t, a, d);
        let u = lemma_path_concat(b, r, t);
    }
}

/// Members of one chain share its liberties.
pub proof fn lemma_chain_same_liberty(b: BoardView, a: Position, c: Position)
    requires
        b.in_chain(a, c),
    ensures
        b.has_liberty(c) <==> b.has_liberty(a),
{
    if b.has_liberty(a) {
        let l = choose|l: Position| b.is_liberty(a, l);
        let d = choose|d: Position| #[trigger] b.in_chain(a, d) && adjacent(d, l);
        lemma_chain_same(b, a, c, d);
        assert(b.is_liberty(c, l));
    }
    if b.has_liberty(c) {
        let l = choose|l: Position| b.is_liberty(c, l);
        let d = choose|d: Position| #[trigger] b.in_chain(c, d) && adjacent(d, l);
        lemma_chain_same(b, a, c, d);
        assert(b.is_liberty(a, l));
    }
}

/// A set closed under links that holds `a` holds the whole chain of `a`.
pub proof fn lemma_closed_holds_chain(b: BoardView, a: Position, set: Set<Position>, c: Position)
    requires
        set.contains(a),
        forall|p: Position, q: Position| set.contains(p) && #[trigger] b.linked(p, q) ==> set.contains(q),
        b.in_chain(a, c),
    ensures
        set.contains(c),
{
    let s = choose|s: Seq<Position>| #[trigger] b.path_between(s, a, c);
    lemma_closed_holds_path(b, set, s, s.len() - 1);
}

proof fn lemma_closed_holds_path(b: BoardView, set: Set<Position>, s: Seq<Position>, i: int)
    requires
        set.contains(s[0]),
        forall|p: Position, q: Position| set.contains(p) && #[trigger] b.linked(p, q) ==> set.contains(q),
        b.is_path(s),
        0 <= i < s.len(),
    ensures
        set.contains(s[i]),
    decreases i,
{
    if i > 0 {
        lemma_closed_holds_path(b, set, s, i - 1);
        let j = i - 1;
        assert(b.linked(s[j], s[j + 1]));
    }
}

/// After a stone of `color` goes onto an empty on-board position, reading
/// that position gives `color`, and every other position is unchanged.
pub proof fn lemma_placed_stone_reads_back(b: BoardView, p: Position, color: Color, q: Position)
    requires
        b.wf(),
        b.on_board(p),
        b.stone(p) is None,
    ensures
        b.with_cell(p, Some(color)).stone(p) == Some(color),
        q != p ==> b.with_cell(p, Some(color)).stone(q) == b.stone(q),
{
    lemma_index_in_range(b, p);
    if q != p && b.on_board(q) {
        lemma_index_in_range(b, q);
        if b.index_of(q) == b.index_of(p) {
            lemma_index_injective(b, p, q);
        }
    }
}

/// Taking the dead stones of `color` off empties exactly the dead positions.
pub proof fn lemma_without_dead_stone(b: BoardView, color: Color, p: Position)
    requires
        b.wf(),
    ensures
        b.without_dead(color).stone(p) == (if b.is_dead(p, color) {
            None
        } else {
            b.stone(p)
        }),
{
    if b.on_board(p) {
        lemma_index_in_range(b, p);
        lemma_pos_of_index_of(b, p);
    }
}

/// Dead stones come in whole chains: every stone of a dead stone's chain
/// is dead too.
pub proof fn lemma_dead_chains_are_whole(b: BoardView, color: Color, p: Position, q: Position)
    requires
        b.is_dead(p, color),
        b.in_chain(p, q),
    ensures
        b.is_dead(q, color),
{
    lemma_chain_color(b, p, q);
    lemma_chain_same_liberty(b, p, q);
}

/// Once the dead stones of `color` are off the board, none of `color` is
/// left dead: removing them a second time removes nothing.
pub proof fn lemma_remove_dead_idempotent(b: BoardView, color: Color, q: Position)
    requires
        b.wf(),
    ensures
        !b.without_dead(color).is_dead(q, color),
        b.without_dead(color).dead_stones(color) == Set::<Position>::empty(),
{
    let n = b.without_dead(color);
    assert forall|r: Position| !n.is_dead(r, color) by {
        lemma_survivor_keeps_liberty(b, color, r);
    }
    assert(n.dead_stones(color) =~= Set::<Position>::empty());
}

proof fn lemma_survivor_keeps_liberty(b: BoardView, color: Color, q: Position)
    requires
        b.wf(),
    ensures
        !b.without_dead(color).is_dead(q, color),
{
    let n = b.without_dead(color);
    lemma_without_dead_stone(b, color, q);
    if n.stone(q) == Some(color) {
        let l = choose|l: Position| b.is_liberty(q, l);
        let d = choose|d: Position| #[trigger] b.in_chain(q, d) && adjacent(d, l);
        let s = choose|s: Seq<Position>| #[trigger] b.path_between(s, q, d);
        assert forall|i: int| 0 <= i < s.len() implies #[trigger] n.stone(s[i]) == b.stone(s[i]) && b.stone(s[i]) == Some(color) by {
            let t = s.take(i + 1);
            assert forall|j: int| 0 <= j < t.len() - 1 implies #[trigger] b.linked(t[j], t[j + 1]) by {
                assert(b.linked(s[j], s[j + 1]));
            }
            assert(b.path_between(t, q, s[i]));
            lemma_chain_color(b, q, s[i]);
            lemma_chain_same_liberty(b, q, s[i]);
            lemma_without_dead_stone(b, color, s[i]);
        }
        assert forall|j: int| 0 <= j < s.len() - 1 implies #[trigger] n.linked(s[j], s[j + 1]) by {
            assert(b.linked(s[j], s[j + 1]));
        }
        assert(n.path_between(s, q, d));
        assert(n.in_chain(q, d));
        lemma_without_dead_stone(b, color, l);
        assert(n.is_liberty(q, l));
    }
}

} // verus!
