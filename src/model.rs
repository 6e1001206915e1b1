use vstd::prelude::*;
use crate::mat::is_run;
use crate::position::Position;

verus! {

/// What a board is: its size, what each cell holds and the palette it refills from.
pub struct BoardModel {
    pub width: u32,
    pub height: u32,
    pub cells: Map<(u32, u32), u32>,
    pub types: Seq<u32>,
}

/// The positions `(start, y) .. (start + len - 1, y)`.
pub open spec fn row_match(y: int, start: int, len: int) -> Seq<Position> {
    Seq::new(len as nat, |i: int| Position { x: (start + i) as u32, y: y as u32 })
}

/// The positions `(x, start) .. (x, start + len - 1)`.
pub open spec fn col_match(x: int, start: int, len: int) -> Seq<Position> {
    Seq::new(len as nat, |i: int| Position { x: x as u32, y: (start + i) as u32 })
}

/// Some move of `moves` takes a gem from `p`.
pub open spec fn is_source(moves: Seq<(Position, Position)>, p: Position) -> bool {
    exists|j: int| 0 <= j < moves.len() && (#[trigger] moves[j]).0 == p
}

/// Some move of `moves` takes a gem to `p`.
pub open spec fn is_target(moves: Seq<(Position, Position)>, p: Position) -> bool {
    exists|j: int| 0 <= j < moves.len() && (#[trigger] moves[j]).1 == p
}

/// A match that runs along a row (its first two cells share a row).
pub open spec fn lies_in_row(m: Seq<Position>) -> bool {
    m[0].y == m[1].y
}

/// The order in which the matcher reports matches: rows before columns,
/// each by line and then by start.
pub open spec fn reported_before(a: Seq<Position>, b: Seq<Position>) -> bool {
    if lies_in_row(a) != lies_in_row(b) {
        lies_in_row(a)
    } else if lies_in_row(a) {
        a[0].y < b[0].y || (a[0].y == b[0].y && a[0].x < b[0].x)
    } else {
        a[0].x < b[0].x || (a[0].x == b[0].x && a[0].y < b[0].y)
    }
}

/// `a` and `b` are side by side or one above the other.
pub open spec fn adjacent(a: Position, b: Position) -> bool {
    ||| a.x == b.x && (a.y + 1 == b.y || b.y + 1 == a.y)
    ||| a.y == b.y && (a.x + 1 == b.x || b.x + 1 == a.x)
}

impl BoardModel {
    /// `(x, y)` is a cell of the board.
    pub open spec fn in_bounds(self, x: int, y: int) -> bool {
        0 <= x < self.width && 0 <= y < self.height
    }

    /// The cell `(x, y)` holds a gem.
    pub open spec fn holds(self, x: int, y: int) -> bool {
        self.cells.contains_key((x as u32, y as u32))
    }

    /// Every stored cell lies on the board, and a board with cells has a palette
    /// of distinct types to refill from.
    pub open spec fn wf(self) -> bool {
        &&& forall|k: (u32, u32)| #[trigger]
            self.cells.contains_key(k) ==> self.in_bounds(k.0 as int, k.1 as int)
        &&& (self.width > 0 && self.height > 0 ==> self.types.len() > 0)
        &&& self.types.no_duplicates()
    }

    /// Well formed, with no empty cell.
    pub open spec fn full(self) -> bool {
        &&& self.wf()
        &&& forall|x: int, y: int| self.in_bounds(x, y) ==> #[trigger] self.holds(x, y)
    }

    /// The types along row `y`, left to right.
    pub open spec fn row(self, y: int) -> Seq<u32> {
        Seq::new(self.width as nat, |x: int| self.cells[(x as u32, y as u32)])
    }

    /// The types along column `x`, top to bottom.
    pub open spec fn col(self, x: int) -> Seq<u32> {
        Seq::new(self.height as nat, |y: int| self.cells[(x as u32, y as u32)])
    }

    /// `m` is a maximal run of three or more equal gems along a row.
    pub open spec fn is_row_match(self, m: Seq<Position>) -> bool {
        exists|y: int, start: int, len: int|
            0 <= y < self.height && #[trigger] is_run(self.row(y), start, len) && m == row_match(
                y,
                start,
                len,
            )
    }

    /// `m` is a maximal run of three or more equal gems along a column.
    pub open spec fn is_col_match(self, m: Seq<Position>) -> bool {
        exists|x: int, start: int, len: int|
            0 <= x < self.width && #[trigger] is_run(self.col(x), start, len) && m == col_match(
                x,
                start,
                len,
            )
    }

    /// `m` is a maximal straight run of three or more equal gems.
    pub open spec fn is_match(self, m: Seq<Position>) -> bool {
        self.is_row_match(m) || self.is_col_match(m)
    }

    /// `ms` is what the matcher reports on this board: every maximal run of three
    /// or more, each once, rows before columns.
    pub open spec fn reports(self, ms: Seq<Seq<Position>>) -> bool {
        &&& forall|k: int| 0 <= k < ms.len() ==> #[trigger] self.is_match(ms[k])
        &&& forall|k: int| 0 <= k < ms.len() ==> (#[trigger] ms[k]).len() >= 3
        &&& forall|y: int, start: int, len: int|
            0 <= y < self.height && #[trigger] is_run(self.row(y), start, len) ==> ms.contains(
                row_match(y, start, len),
            )
        &&& forall|x: int, start: int, len: int|
            0 <= x < self.width && #[trigger] is_run(self.col(x), start, len) ==> ms.contains(
                col_match(x, start, len),
            )
        &&& forall|k: int, l: int| 0 <= k < l < ms.len() ==> reported_before(ms[k], ms[l])
    }

    /// The number of empty cells of column `x` at rows `y` and below.
    pub open spec fn holes_from(self, x: int, y: int) -> int
        decreases self.height - y,
    {
        if y < 0 || y >= self.height {
            0
        } else {
            (if self.holds(x, y) {
                0int
            } else {
                1int
            }) + self.holes_from(x, y + 1)
        }
    }

    /// The row that the gem at `(x, y)` lands on: it falls by the number of
    /// empty cells below it.
    pub open spec fn falls_to(self, x: int, y: int) -> int {
        y + self.holes_from(x, y + 1)
    }

    /// `m` moves a gem from `m.0` down to where gravity takes it, and that is
    /// a real move.
    pub open spec fn is_drop(self, m: (Position, Position)) -> bool {
        &&& self.in_bounds(m.0.x as int, m.0.y as int)
        &&& self.holds(m.0.x as int, m.0.y as int)
        &&& m.1.x == m.0.x
        &&& m.1.y == self.falls_to(m.0.x as int, m.0.y as int)
        &&& m.1.y != m.0.y
    }

    /// `after` is this board with every gem fallen as far as it can: each column
    /// holds its gems in their order at its bottom, empty cells above them.
    pub open spec fn dropped(self, after: BoardModel) -> bool {
        &&& after.width == self.width
        &&& after.height == self.height
        &&& after.types == self.types
        &&& forall|k: (u32, u32)| #[trigger]
            after.cells.contains_key(k) ==> self.in_bounds(k.0 as int, k.1 as int)
        &&& forall|x: int, y: int|
            self.in_bounds(x, y) ==> (#[trigger] after.holds(x, y) <==> y >= self.holes_from(x, 0))
        &&& forall|x: int, y: int|
            self.in_bounds(x, y) && #[trigger] self.holds(x, y) ==> after.cells[(
                x as u32,
                self.falls_to(x, y) as u32,
            )] == self.cells[(x as u32, y as u32)]
        &&& forall|x: int, y: int| self.in_bounds(x, y) && #[trigger] after.holds(x, y) ==> self.lands_on(x, y)
    }

    /// Some gem of column `x` falls to row `y`.
    pub open spec fn lands_on(self, x: int, y: int) -> bool {
        exists|y0: int| 0 <= y0 < self.height && self.holds(x, y0) && #[trigger] self.falls_to(x, y0) == y
    }

    /// Some cell of this board holds type `t`.
    pub open spec fn has_type(self, t: u32) -> bool {
        exists|k: (u32, u32)| #[trigger] self.cells.contains_key(k) && self.cells[k] == t
    }

    /// Every gem of this board is of a palette type or of a type that `before`
    /// holds.
    pub open spec fn types_from(self, before: BoardModel) -> bool {
        forall|k: (u32, u32)| #[trigger]
            self.cells.contains_key(k) ==> self.types.contains(self.cells[k]) || before.has_type(self.cells[k])
    }

    /// This board with the cells of every match of `ms` emptied, match by match.
    pub open spec fn without_all(self, ms: Seq<Seq<Position>>) -> BoardModel
        decreases ms.len(),
    {
        if ms.len() == 0 {
            self
        } else {
            self.without_all(ms.drop_last()).without(ms.last())
        }
    }

    /// The steps of one clearing round: `ms` is what the matcher reports here,
    /// its cells are emptied, the gems fall to give `mid`, and `mid` is refilled
    /// to `after` with `spawned`.
    pub open spec fn round_steps(
        self,
        ms: Seq<Seq<Position>>,
        mid: BoardModel,
        spawned: Seq<(Position, u32)>,
        after: BoardModel,
    ) -> bool {
        &&& self.reports(ms)
        &&& self.without_all(ms).dropped(mid)
        &&& mid.refilled(after, spawned)
    }

    /// `after` comes from this board, which has a match, by one clearing round.
    pub open spec fn cleared_once(self, after: BoardModel) -> bool {
        &&& self.has_match()
        &&& exists|ms: Seq<Seq<Position>>, mid: BoardModel, spawned: Seq<(Position, u32)>|
            #[trigger] self.round_steps(ms, mid, spawned, after)
    }

    /// `boards` runs from this board to `after`, each step one clearing round.
    pub open spec fn clearing_chain(self, after: BoardModel, boards: Seq<BoardModel>) -> bool {
        &&& boards.len() >= 1
        &&& boards[0] == self
        &&& boards.last() == after
        &&& forall|i: int| 0 <= i < boards.len() - 1 ==> (#[trigger] boards[i]).cleared_once(boards[i + 1])
    }

    /// This board with the contents of `a` and `b` exchanged.
    pub open spec fn swapped(self, a: Position, b: Position) -> BoardModel {
        BoardModel {
            width: self.width,
            height: self.height,
            cells: self.cells.insert(a.key(), self.cells[b.key()]).insert(b.key(), self.cells[a.key()]),
            types: self.types,
        }
    }

    /// Swapping the neighbouring cells `a` and `b` would make a match.
    pub open spec fn is_matching_move(self, a: Position, b: Position) -> bool {
        &&& self.in_bounds(a.x as int, a.y as int)
        &&& self.in_bounds(b.x as int, b.y as int)
        &&& adjacent(a, b)
        &&& self.swapped(a, b).has_match()
    }

    /// `moves` lists every gem that gravity moves on this board, each once, as
    /// (from, to).
    pub open spec fn reports_drops(self, moves: Seq<(Position, Position)>) -> bool {
        &&& forall|i: int| 0 <= i < moves.len() ==> self.is_drop(#[trigger] moves[i])
        &&& forall|x: int, y: int|
            self.in_bounds(x, y) && self.holds(x, y) && #[trigger] self.falls_to(x, y) != y ==> moves.contains(
                (Position { x: x as u32, y: y as u32 }, Position { x: x as u32, y: self.falls_to(x, y) as u32 }),
            )
        &&& moves.no_duplicates()
    }

    /// `after` is this board with every empty cell given a type of the palette,
    /// and `spawned` lists those cells, each once, with their new types.
    pub open spec fn refilled(self, after: BoardModel, spawned: Seq<(Position, u32)>) -> bool {
        &&& after.full()
        &&& after.width == self.width
        &&& after.height == self.height
        &&& after.types == self.types
        &&& forall|k: (u32, u32)| #[trigger] self.cells.contains_key(k) ==> after.cells[k] == self.cells[k]
        &&& forall|i: int| 0 <= i < spawned.len() ==> {
            let (p, t) = #[trigger] spawned[i];
            &&& self.in_bounds(p.x as int, p.y as int)
            &&& !self.cells.contains_key(p.key())
            &&& after.cells[p.key()] == t
            &&& self.types.contains(t)
        }
        &&& forall|x: int, y: int|
            self.in_bounds(x, y) && !#[trigger] self.holds(x, y) ==> spawned.contains(
                (Position { x: x as u32, y: y as u32 }, after.cells[(x as u32, y as u32)]),
            )
        &&& forall|i: int, j: int| 0 <= i < j < spawned.len() ==> spawned[i].0 != spawned[j].0
    }

    /// `after` is this board with its gems moved as `moves` says, each move
    /// (from, to) taking a gem to another cell, no two from or to the same cell;
    /// cells that no move reaches keep their gem.
    pub open spec fn shuffled_to(self, after: BoardModel, moves: Seq<(Position, Position)>) -> bool {
        &&& after.full()
        &&& after.width == self.width
        &&& after.height == self.height
        &&& after.types == self.types
        &&& forall|j: int| 0 <= j < moves.len() ==> {
            let (a, b) = #[trigger] moves[j];
            &&& self.in_bounds(a.x as int, a.y as int)
            &&& self.in_bounds(b.x as int, b.y as int)
            &&& a != b
            &&& after.cells[b.key()] == self.cells[a.key()]
        }
        &&& forall|x: int, y: int|
            #[trigger] self.in_bounds(x, y) && (forall|j: int| 0 <= j < moves.len() ==> moves[j].1 != Position { x: x as u32, y: y as u32 })
                ==> after.cells[(x as u32, y as u32)] == self.cells[(x as u32, y as u32)]
        &&& forall|j: int, l: int| 0 <= j < l < moves.len() ==> moves[j].0 != moves[l].0 && moves[j].1 != moves[l].1
        &&& forall|p: Position| is_source(moves, p) <==> is_target(moves, p)
    }

    /// This board with the cells of `ps` emptied.
    pub open spec fn without(self, ps: Seq<Position>) -> BoardModel
        decreases ps.len(),
    {
        if ps.len() == 0 {
            self
        } else {
            let b = self.without(ps.drop_last());
            BoardModel { cells: b.cells.remove(ps.last().key()), ..b }
        }
    }

    /// Some row or column holds a run of three or more equal gems.
    pub open spec fn has_match(self) -> bool {
        (exists|y: int, start: int, len: int|
            0 <= y < self.height && #[trigger] is_run(self.row(y), start, len)) || (exists|
            x: int,
            start: int,
            len: int,
        | 0 <= x < self.width && #[trigger] is_run(self.col(x), start, len))
    }
}

/// Counting the holes of a column from a lower start adds at most the rows in
/// between, and never less than from the higher start.
pub(crate) proof fn lemma_holes_between(b: BoardModel, x: int, y: int, r: int)
    requires
        0 <= y <= r,
    ensures
        b.holes_from(x, r) <= b.holes_from(x, y) <= b.holes_from(x, r) + (r - y),
    decreases r - y,
{
    if y < r {
        lemma_holes_between(b, x, y + 1, r);
    }
}

/// At most every cell from `y` down is a hole.
pub(crate) proof fn lemma_holes_bounded(b: BoardModel, x: int, y: int)
    requires
        0 <= y,
    ensures
        0 <= b.holes_from(x, y),
        y <= b.height ==> b.holes_from(x, y) <= b.height - y,
    decreases b.height - y,
{
    if y < b.height {
        lemma_holes_bounded(b, x, y + 1);
    }
}

/// A column with no empty cell has no holes.
pub(crate) proof fn lemma_full_no_holes(b: BoardModel, x: int, y: int)
    requires
        b.full(),
        0 <= x < b.width,
        0 <= y,
    ensures
        b.holes_from(x, y) == 0,
    decreases b.height - y,
{
    if y < b.height {
        assert(b.holds(x, y));
        lemma_full_no_holes(b, x, y + 1);
    }
}

/// Exchanging two held cells keeps a full board full.
pub(crate) proof fn lemma_swapped_full(b: BoardModel, a: Position, c: Position)
    requires
        b.full(),
        b.cells.contains_key(a.key()),
        b.cells.contains_key(c.key()),
    ensures
        b.swapped(a, c).full(),
        b.swapped(a, c).cells.dom() == b.cells.dom(),
{
    let s = b.swapped(a, c);
    assert(s.cells.dom() =~= b.cells.dom());
    assert forall|k: (u32, u32)| #[trigger] s.cells.contains_key(k) implies b.in_bounds(k.0 as int, k.1 as int) by {
        assert(b.cells.contains_key(k));
    }
    assert forall|x: int, y: int| s.in_bounds(x, y) implies #[trigger] s.holds(x, y) by {
        assert(b.holds(x, y));
    }
}

/// Emptying cells keeps the size and palette, and every cell still held keeps its gem.
pub(crate) proof fn lemma_without_sub(b: BoardModel, ps: Seq<Position>)
    ensures
        b.without(ps).width == b.width,
        b.without(ps).height == b.height,
        b.without(ps).types == b.types,
        forall|k: (u32, u32)| #[trigger] b.without(ps).cells.contains_key(k)
            ==> b.cells.contains_key(k) && b.without(ps).cells[k] == b.cells[k],
    decreases ps.len(),
{
    if ps.len() > 0 {
        lemma_without_sub(b, ps.drop_last());
    }
}

/// The same, for the cells of several matches.
pub(crate) proof fn lemma_without_all_sub(b: BoardModel, ms: Seq<Seq<Position>>)
    ensures
        b.without_all(ms).width == b.width,
        b.without_all(ms).height == b.height,
        b.without_all(ms).types == b.types,
        forall|k: (u32, u32)| #[trigger] b.without_all(ms).cells.contains_key(k)
            ==> b.cells.contains_key(k) && b.without_all(ms).cells[k] == b.cells[k],
    decreases ms.len(),
{
    if ms.len() > 0 {
        let c = b.without_all(ms.drop_last());
        lemma_without_all_sub(b, ms.drop_last());
        lemma_without_sub(c, ms.last());
    }
}

/// After a clearing round every gem is of a palette type or of a type that the
/// board held before.
pub(crate) proof fn lemma_round_types(b: BoardModel, a: BoardModel)
    requires
        b.cleared_once(a),
    ensures
        a.types_from(b),
        a.types == b.types,
        a.width == b.width,
        a.height == b.height,
{
    let (ms, mid, sp) = choose|ms: Seq<Seq<Position>>, mid: BoardModel, sp: Seq<(Position, u32)>|
        #[trigger] b.round_steps(ms, mid, sp, a);
    let c = b.without_all(ms);
    lemma_without_all_sub(b, ms);
    assert forall|k: (u32, u32)| #[trigger] a.cells.contains_key(k) implies a.types.contains(a.cells[k]) || b.has_type(a.cells[k]) by {
        let x = k.0 as int;
        let y = k.1 as int;
        assert((x as u32, y as u32) == k);
        assert(a.in_bounds(x, y));
        if mid.cells.contains_key(k) {
            assert(mid.holds(x, y));
            assert(c.lands_on(x, y));
            let y0 = choose|y0: int| 0 <= y0 < c.height && c.holds(x, y0) && #[trigger] c.falls_to(x, y0) == y;
            let k0 = (x as u32, y0 as u32);
            assert(c.cells.contains_key(k0));
            assert(mid.cells[k] == c.cells[k0]);
            assert(b.cells.contains_key(k0) && b.cells[k0] == a.cells[k]);
        } else {
            assert(!mid.holds(x, y));
            assert(sp.contains((Position { x: k.0, y: k.1 }, a.cells[k])));
            let i = choose|i: int| 0 <= i < sp.len() && sp[i] == (Position { x: k.0, y: k.1 }, a.cells[k]);
            assert(mid.types.contains(sp[i].1));
        }
    }
}

/// Where types come from carries along a run of boards with one palette.
pub(crate) proof fn lemma_types_from_trans(a: BoardModel, b: BoardModel, c: BoardModel)
    requires
        a.types_from(b),
        b.types_from(c),
        a.types == b.types,
    ensures
        a.types_from(c),
{
    assert forall|k: (u32, u32)| #[trigger] a.cells.contains_key(k) implies a.types.contains(a.cells[k]) || c.has_type(a.cells[k]) by {
        if !a.types.contains(a.cells[k]) {
            let k2 = choose|k2: (u32, u32)| #[trigger] b.cells.contains_key(k2) && b.cells[k2] == a.cells[k];
            assert(b.types.contains(b.cells[k2]) || c.has_type(b.cells[k2]));
        }
    }
}

/// Every gem of a board is of a type that the board holds.
pub(crate) proof fn lemma_types_from_self(b: BoardModel)
    ensures
        b.types_from(b),
{
    assert forall|k: (u32, u32)| #[trigger] b.cells.contains_key(k) implies b.types.contains(b.cells[k]) || b.has_type(b.cells[k]) by {
        assert(b.cells.contains_key(k) && b.cells[k] == b.cells[k]);
    }
}

} // verus!
