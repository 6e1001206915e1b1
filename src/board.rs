use vstd::prelude::*;
use vstd::std_specs::cmp::PartialEqSpec;
use vstd::string::StringExecFns;
use crate::gem_map::{gem_map_contents, GemMap};
use crate::mat::{is_run, line_runs, Match, Matches};
use crate::model::{
    adjacent, col_match, lemma_full_no_holes, lemma_holes_between, lemma_holes_bounded, lemma_swapped_full, lies_in_row,
    reported_before, row_match, is_source, is_target, lemma_round_types, lemma_types_from_self, lemma_types_from_trans,
    BoardModel,
};
use crate::position::Position;
use crate::random::{random_type, shuffle_positions};

verus! {

/// `m` is the unordered pair `{a, b}`.
pub open spec fn same_move(m: BoardMove, a: Position, b: Position) -> bool {
    (m.0 == a && m.1 == b) || (m.0 == b && m.1 == a)
}

/// A swap between two gems; the order of the two does not matter.
#[derive(Clone, Copy, Debug, Eq)]
pub struct BoardMove(pub Position, pub Position);

impl PartialEq for BoardMove {
    fn eq(&self, other: &BoardMove) -> (r: bool)
        ensures
            r == same_move(*other, self.0, self.1),
    {
        (self.0 == other.0 && self.1 == other.1) || (self.0 == other.1 && self.1 == other.0)
    }
}

impl vstd::std_specs::cmp::PartialEqSpecImpl for BoardMove {
    open spec fn obeys_eq_spec() -> bool {
        true
    }

    open spec fn eq_spec(&self, other: &BoardMove) -> bool {
        same_move(*other, self.0, self.1)
    }
}

/// Why a swap was refused.
#[derive(Clone, Copy, Debug, PartialEq, Eq, Structural)]
pub enum SwapError {
    /// The cell holds no gem.
    NoGem(Position),
    /// The swap would make no match.
    NoMatches,
}

/// The rows form a rectangle whose sides fit in `u32`.
pub open spec fn rows_fit(rs: Seq<Seq<u32>>) -> bool {
    &&& rs.len() <= u32::MAX
    &&& rs.len() > 0 ==> rs[0].len() <= u32::MAX
    &&& forall|y: int| 0 <= y < rs.len() ==> (#[trigger] rs[y]).len() == rs[0].len()
}

proof fn lemma_push_contains<A>(s: Seq<A>, e: A, q: A)
    ensures
        s.push(e).contains(q) <==> s.contains(q) || q == e,
{
    if s.contains(q) {
        let i = choose|i: int| 0 <= i < s.len() && s[i] == q;
        assert(s.push(e)[i] == q);
    }
    if q == e {
        assert(s.push(e)[s.len() as int] == e);
    }
    if s.push(e).contains(q) {
        let i = choose|i: int| 0 <= i < s.len() + 1 && s.push(e)[i] == q;
        if i < s.len() {
            assert(s[i] == q);
        }
    }
}

/// The `i`-th pair of a rearrangement: the gem of `sources[i]` goes to `targets[i]`.
pub open spec fn moved(sources: Seq<Position>, targets: Seq<Position>, i: int) -> (Position, Position) {
    (sources[i], targets[i])
}

/// `m` moves a gem from `sources[i]` to a different cell `targets[i]`, for some `i`.
pub open spec fn is_moved(sources: Seq<Position>, targets: Seq<Position>, m: (Position, Position)) -> bool {
    exists|i: int| 0 <= i < targets.len() && m == #[trigger] moved(sources, targets, i) && sources[i] != targets[i]
}

fn copy_positions(v: &Vec<Position>) -> (r: Vec<Position>)
    ensures
        r@ == v@,
{
    let mut r: Vec<Position> = Vec::new();
    let mut i: usize = 0;
    while i < v.len()
        invariant
            i <= v@.len(),
            r@ =~= v@.take(i as int),
        decreases v@.len() - i,
    {
        r.push(v[i]);
        i += 1;
        assert(r@ =~= v@.take(i as int));
    }
    assert(v@.take(v@.len() as int) =~= v@);
    r
}

/// Whether `moves` holds the pair `{a, b}`.
fn contains_move(moves: &Vec<BoardMove>, a: Position, b: Position) -> (r: bool)
    ensures
        r == exists|i: int| 0 <= i < moves@.len() && #[trigger] same_move(moves@[i], a, b),
{
    let mut i: usize = 0;
    while i < moves.len()
        invariant
            i <= moves@.len(),
            forall|j: int| 0 <= j < i ==> !#[trigger] same_move(moves@[j], a, b),
        decreases moves@.len() - i,
    {
        let m = moves[i];
        if (m.0 == a && m.1 == b) || (m.0 == b && m.1 == a) {
            assert(same_move(moves@[i as int], a, b));
            return true;
        }
        i += 1;
    }
    false
}

/// Whether `types` holds `t`.
fn contains_type(types: &Vec<u32>, t: u32) -> (r: bool)
    ensures
        r == types@.contains(t),
{
    let mut i: usize = 0;
    while i < types.len()
        invariant
            i <= types@.len(),
            forall|j: int| 0 <= j < i ==> types@[j] != t,
        decreases types@.len() - i,
    {
        if types[i] == t {
            assert(types@[i as int] == t);
            return true;
        }
        i += 1;
    }
    false
}

/// Swapping two gems is the same move whichever is named first.
pub proof fn lemma_board_move_symmetric(a: Position, b: Position)
    ensures
        BoardMove(a, b).eq_spec(&BoardMove(b, a)),
        same_move(BoardMove(a, b), b, a),
{
}

/// The text that std's `Debug` writes for a list of numbers.
pub uninterp spec fn debug_text_of(v: Seq<u32>) -> Seq<char>;

/// Relies on std's `Debug` for `Vec<u32>` (through `format!`): the text
/// depends on the numbers alone.
#[verifier::external_body]
fn debug_text(v: &Vec<u32>) -> (r: String)
    ensures
        r@ == debug_text_of(v@),
{
    format!("{:?}", v)
}

/// The first `n` rows of `b`, each as its debug text and a line break.
pub open spec fn rows_text(b: BoardModel, n: int) -> Seq<char>
    decreases n,
{
    if n <= 0 {
        Seq::empty()
    } else {
        rows_text(b, n - 1) + debug_text_of(b.row(n - 1)) + seq!['\n']
    }
}

/// The main struct: the logical match-3 board.
pub struct Board {
    width: u32,
    height: u32,
    gems: GemMap,
    types: Vec<u32>,
}

impl View for Board {
    type V = BoardModel;

    closed spec fn view(&self) -> BoardModel {
        BoardModel {
            width: self.width,
            height: self.height,
            cells: gem_map_contents(self.gems),
            types: self.types@,
        }
    }
}

fn row_positions(y: u32, start: usize, len: usize) -> (r: Vec<Position>)
    requires
        start + len <= u32::MAX + 1,
    ensures
        r@ == row_match(y as int, start as int, len as int),
{
    let mut r: Vec<Position> = Vec::new();
    let mut i: usize = 0;
    while i < len
        invariant
            i <= len,
            start + len <= u32::MAX + 1,
            r@ =~= row_match(y as int, start as int, i as int),
        decreases len - i,
    {
        r.push(Position { x: (start + i) as u32, y });
        i += 1;
        assert(r@ =~= row_match(y as int, start as int, i as int));
    }
    r
}

fn col_positions(x: u32, start: usize, len: usize) -> (r: Vec<Position>)
    requires
        start + len <= u32::MAX + 1,
    ensures
        r@ == col_match(x as int, start as int, len as int),
{
    let mut r: Vec<Position> = Vec::new();
    let mut i: usize = 0;
    while i < len
        invariant
            i <= len,
            start + len <= u32::MAX + 1,
            r@ =~= col_match(x as int, start as int, i as int),
        decreases len - i,
    {
        r.push(Position { x, y: (start + i) as u32 });
        i += 1;
        assert(r@ =~= col_match(x as int, start as int, i as int));
    }
    r
}

impl Board {
    /// The board's size, as (width, height).
    pub fn dimensions(&self) -> (r: (u32, u32))
        ensures
            r == (self@.width, self@.height),
    {
        (self.width, self.height)
    }

    /// The gem type at `pos`, if that cell holds one.
    pub fn get(&self, pos: &Position) -> (r: Option<u32>)
        ensures
            r == (if self@.cells.contains_key(pos.key()) {
                Some(self@.cells[pos.key()])
            } else {
                None
            }),
    {
        self.gems.get((pos.x, pos.y))
    }

    fn row_types(&self, y: u32) -> (r: Vec<u32>)
        requires
            self@.full(),
            y < self@.height,
        ensures
            r@ == self@.row(y as int),
    {
        let mut r: Vec<u32> = Vec::new();
        let mut x: u32 = 0;
        while x < self.width
            invariant
                self@.full(),
                y < self@.height,
                x <= self@.width,
                r@ =~= self@.row(y as int).take(x as int),
            decreases self@.width - x,
        {
            assert(self@.holds(x as int, y as int));
            let t = self.gems.get((x, y));
            r.push(t.unwrap());
            x += 1;
            assert(r@ =~= self@.row(y as int).take(x as int));
        }
        assert(self@.row(y as int).take(self@.width as int) =~= self@.row(y as int));
        r
    }

    fn col_types(&self, x: u32) -> (r: Vec<u32>)
        requires
            self@.full(),
            x < self@.width,
        ensures
            r@ == self@.col(x as int),
    {
        let mut r: Vec<u32> = Vec::new();
        let mut y: u32 = 0;
        while y < self.height
            invariant
                self@.full(),
                x < self@.width,
                y <= self@.height,
                r@ =~= self@.col(x as int).take(y as int),
            decreases self@.height - y,
        {
            assert(self@.holds(x as int, y as int));
            let t = self.gems.get((x, y));
            r.push(t.unwrap());
            y += 1;
            assert(r@ =~= self@.col(x as int).take(y as int));
        }
        assert(self@.col(x as int).take(self@.height as int) =~= self@.col(x as int));
        r
    }

    /// Every maximal straight run of three or more equal gems: rows first, then
    /// columns.
    pub fn get_matches(&self) -> (r: Matches)
        requires
            self@.full(),
        ensures
            self@.reports(r@),
            forall|k: int| 0 <= k < r@.len() ==> (#[trigger] r@[k]).len() >= 3,
            r@.len() == 0 <==> !self@.has_match(),
    {
        let mut matches = Matches::new();
        let mut y: u32 = 0;
        while y < self.height
            invariant
                self@.full(),
                y <= self@.height,
                forall|k: int| 0 <= k < matches@.len() ==> #[trigger] self@.is_row_match(matches@[k]),
                forall|k: int| 0 <= k < matches@.len() ==> (#[trigger] matches@[k]).len() >= 3,
                forall|k: int| 0 <= k < matches@.len() ==> lies_in_row(#[trigger] matches@[k]),
                forall|k: int| 0 <= k < matches@.len() ==> (#[trigger] matches@[k])[0].y < y,
                forall|k: int, l: int|
                    0 <= k < l < matches@.len() ==> reported_before(matches@[k], matches@[l]),
                forall|yy: int, start: int, len: int|
                    0 <= yy < y && #[trigger] is_run(self@.row(yy), start, len) ==> matches@.contains(
                        row_match(yy, start, len),
                    ),
            decreases self@.height - y,
        {
            let line = self.row_types(y);
            let runs = line_runs(&line);
            let mut k: usize = 0;
            while k < runs.len()
                invariant
                    self@.full(),
                    y < self@.height,
                    line@ == self@.row(y as int),
                    line@.len() == self@.width,
                    k <= runs@.len(),
                    forall|j: int| 0 <= j < runs@.len() ==> is_run(line@, runs@[j].0 as int, runs@[j].1 as int),
                    forall|j: int, l: int| 0 <= j < l < runs@.len() ==> runs@[j].0 < runs@[l].0,
                    forall|j: int| 0 <= j < matches@.len() ==> #[trigger] self@.is_row_match(matches@[j]),
                    forall|j: int| 0 <= j < matches@.len() ==> (#[trigger] matches@[j]).len() >= 3,
                    forall|j: int| 0 <= j < matches@.len() ==> lies_in_row(#[trigger] matches@[j]),
                    forall|j: int| 0 <= j < matches@.len() ==> (#[trigger] matches@[j])[0].y <= y,
                    forall|j: int, l: int|
                        0 <= j < matches@.len() && k <= l < runs@.len() && (#[trigger] matches@[j])[0].y == y
                            ==> (matches@[j][0].x as int) < (#[trigger] runs@[l]).0,
                    forall|j: int, l: int|
                        0 <= j < l < matches@.len() ==> reported_before(matches@[j], matches@[l]),
                    forall|yy: int, start: int, len: int|
                        0 <= yy < y && #[trigger] is_run(self@.row(yy), start, len) ==> matches@.contains(
                            row_match(yy, start, len),
                        ),
                    forall|j: int| 0 <= j < k ==> matches@.contains(
                        row_match(y as int, (#[trigger] runs@[j]).0 as int, runs@[j].1 as int),
                    ),
                decreases runs@.len() - k,
            {
                let (start, len) = runs[k];
                assert(is_run(line@, start as int, len as int));
                let ps = row_positions(y, start, len);
                let ghost m = ps@;
                let ghost old_ms = matches@;
                assert(self@.is_row_match(m)) by {
                    assert(is_run(self@.row(y as int), start as int, len as int));
                }
                assert(m[0].x == start && m[0].y == y && m[1].y == y);
                matches.add(Match::Straight(ps));
                assert(matches@[matches@.len() - 1] == m);
                assert forall|j: int| 0 <= j < k + 1 implies matches@.contains(
                    row_match(y as int, (#[trigger] runs@[j]).0 as int, runs@[j].1 as int),
                ) by {
                    if j < k {
                        let t = choose|t: int| 0 <= t < old_ms.len() && old_ms[t] == row_match(y as int, runs@[j].0 as int, runs@[j].1 as int);
                        assert(matches@[t] == old_ms[t]);
                    }
                }
                assert forall|yy: int, st: int, ln: int|
                    0 <= yy < y && #[trigger] is_run(self@.row(yy), st, ln) implies matches@.contains(
                        row_match(yy, st, ln),
                    ) by {
                    let t = choose|t: int| 0 <= t < old_ms.len() && old_ms[t] == row_match(yy, st, ln);
                    assert(matches@[t] == old_ms[t]);
                }
                assert forall|j: int, l: int|
                    0 <= j < l < matches@.len() implies reported_before(matches@[j], matches@[l]) by {
                    if l == matches@.len() - 1 {
                        assert(old_ms[j] == matches@[j]);
                        if old_ms[j][0].y == y {
                            assert((old_ms[j][0].x as int) < runs@[k as int].0);
                        }
                    }
                }
                k += 1;
            }
            assert forall|st: int, ln: int| #[trigger]
                is_run(self@.row(y as int), st, ln) implies matches@.contains(
                row_match(y as int, st, ln),
            ) by {
                assert(runs@.contains((st as usize, ln as usize)));
                let j = choose|j: int| 0 <= j < runs@.len() && runs@[j] == (st as usize, ln as usize);
                assert(matches@.contains(row_match(y as int, runs@[j].0 as int, runs@[j].1 as int)));
            }
            y += 1;
        }
        let ghost n_rows = matches@.len();
        let mut x: u32 = 0;
        while x < self.width
            invariant
                self@.full(),
                x <= self@.width,
                n_rows <= matches@.len(),
                forall|k: int| 0 <= k < n_rows ==> #[trigger] self@.is_row_match(matches@[k]),
                forall|k: int| n_rows <= k < matches@.len() ==> #[trigger] self@.is_col_match(matches@[k]),
                forall|k: int| 0 <= k < matches@.len() ==> (#[trigger] matches@[k]).len() >= 3,
                forall|k: int| 0 <= k < n_rows ==> lies_in_row(#[trigger] matches@[k]),
                forall|k: int| n_rows <= k < matches@.len() ==> !lies_in_row(#[trigger] matches@[k]),
                forall|k: int| n_rows <= k < matches@.len() ==> (#[trigger] matches@[k])[0].x < x,
                forall|k: int, l: int|
                    0 <= k < l < matches@.len() ==> reported_before(matches@[k], matches@[l]),
                forall|yy: int, start: int, len: int|
                    0 <= yy < self@.height && #[trigger] is_run(self@.row(yy), start, len) ==> matches@.contains(
                        row_match(yy, start, len),
                    ),
                forall|xx: int, start: int, len: int|
                    0 <= xx < x && #[trigger] is_run(self@.col(xx), start, len) ==> matches@.contains(
                        col_match(xx, start, len),
                    ),
            decreases self@.width - x,
        {
            let line = self.col_types(x);
            let runs = line_runs(&line);
            let mut k: usize = 0;
            while k < runs.len()
                invariant
                    self@.full(),
                    x < self@.width,
                    line@ == self@.col(x as int),
                    line@.len() == self@.height,
                    k <= runs@.len(),
                    n_rows <= matches@.len(),
                    forall|j: int| 0 <= j < runs@.len() ==> is_run(line@, runs@[j].0 as int, runs@[j].1 as int),
                    forall|j: int, l: int| 0 <= j < l < runs@.len() ==> runs@[j].0 < runs@[l].0,
                    forall|j: int| 0 <= j < n_rows ==> #[trigger] self@.is_row_match(matches@[j]),
                    forall|j: int| n_rows <= j < matches@.len() ==> #[trigger] self@.is_col_match(matches@[j]),
                    forall|j: int| 0 <= j < matches@.len() ==> (#[trigger] matches@[j]).len() >= 3,
                    forall|j: int| 0 <= j < n_rows ==> lies_in_row(#[trigger] matches@[j]),
                    forall|j: int| n_rows <= j < matches@.len() ==> !lies_in_row(#[trigger] matches@[j]),
                    forall|j: int| n_rows <= j < matches@.len() ==> (#[trigger] matches@[j])[0].x <= x,
                    forall|j: int, l: int|
                        n_rows <= j < matches@.len() && k <= l < runs@.len() && (#[trigger] matches@[j])[0].x == x
                            ==> (matches@[j][0].y as int) < (#[trigger] runs@[l]).0,
                    forall|j: int, l: int|
                        0 <= j < l < matches@.len() ==> reported_before(matches@[j], matches@[l]),
                    forall|yy: int, start: int, len: int|
                        0 <= yy < self@.height && #[trigger] is_run(self@.row(yy), start, len) ==> matches@.contains(
                            row_match(yy, start, len),
                        ),
                    forall|xx: int, start: int, len: int|
                        0 <= xx < x && #[trigger] is_run(self@.col(xx), start, len) ==> matches@.contains(
                            col_match(xx, start, len),
                        ),
                    forall|j: int| 0 <= j < k ==> matches@.contains(
                        col_match(x as int, (#[trigger] runs@[j]).0 as int, runs@[j].1 as int),
                    ),
                decreases runs@.len() - k,
            {
                let (start, len) = runs[k];
                assert(is_run(line@, start as int, len as int));
                let ps = col_positions(x, start, len);
                let ghost m = ps@;
                let ghost old_ms = matches@;
                assert(self@.is_col_match(m)) by {
                    assert(is_run(self@.col(x as int), start as int, len as int));
                }
                assert(m[0].y == start && m[0].x == x && m[1].y == start + 1);
                matches.add(Match::Straight(ps));
                assert(matches@[matches@.len() - 1] == m);
                assert forall|j: int| 0 <= j < k + 1 implies matches@.contains(
                    col_match(x as int, (#[trigger] runs@[j]).0 as int, runs@[j].1 as int),
                ) by {
                    if j < k {
                        let t = choose|t: int| 0 <= t < old_ms.len() && old_ms[t] == col_match(x as int, runs@[j].0 as int, runs@[j].1 as int);
                        assert(matches@[t] == old_ms[t]);
                    }
                }
                assert forall|yy: int, st: int, ln: int|
                    0 <= yy < self@.height && #[trigger] is_run(self@.row(yy), st, ln) implies matches@.contains(
                        row_match(yy, st, ln),
                    ) by {
                    let t = choose|t: int| 0 <= t < old_ms.len() && old_ms[t] == row_match(yy, st, ln);
                    assert(matches@[t] == old_ms[t]);
                }
                assert forall|xx: int, st: int, ln: int|
                    0 <= xx < x && #[trigger] is_run(self@.col(xx), st, ln) implies matches@.contains(
                        col_match(xx, st, ln),
                    ) by {
                    let t = choose|t: int| 0 <= t < old_ms.len() && old_ms[t] == col_match(xx, st, ln);
                    assert(matches@[t] == old_ms[t]);
                }
                assert forall|j: int, l: int|
                    0 <= j < l < matches@.len() implies reported_before(matches@[j], matches@[l]) by {
                    if l == matches@.len() - 1 {
                        assert(old_ms[j] == matches@[j]);
                        if j >= n_rows && old_ms[j][0].x == x {
                            assert((old_ms[j][0].y as int) < runs@[k as int].0);
                        }
                    }
                }
                k += 1;
            }
            assert forall|st: int, ln: int| #[trigger]
                is_run(self@.col(x as int), st, ln) implies matches@.contains(
                col_match(x as int, st, ln),
            ) by {
                assert(runs@.contains((st as usize, ln as usize)));
                let j = choose|j: int| 0 <= j < runs@.len() && runs@[j] == (st as usize, ln as usize);
                assert(matches@.contains(col_match(x as int, runs@[j].0 as int, runs@[j].1 as int)));
            }
            x += 1;
        }
        proof {
            if self@.has_match() {
                if exists|y: int, start: int, len: int|
                    0 <= y < self@.height && #[trigger] is_run(self@.row(y), start, len) {
                    let (y, st, ln) = choose|y: int, start: int, len: int|
                        0 <= y < self@.height && #[trigger] is_run(self@.row(y), start, len);
                    assert(matches@.contains(row_match(y, st, ln)));
                } else {
                    let (x, st, ln) = choose|x: int, start: int, len: int|
                        0 <= x < self@.width && #[trigger] is_run(self@.col(x), start, len);
                    assert(matches@.contains(col_match(x, st, ln)));
                }
            }
            if matches@.len() > 0 {
                let m = matches@[0];
                assert(self@.is_match(m));
                if self@.is_row_match(m) {
                    let (y, st, ln) = choose|y: int, start: int, len: int|
                        0 <= y < self@.height && #[trigger] is_run(self@.row(y), start, len) && m == row_match(y, start, len);
                } else {
                    let (x, st, ln) = choose|x: int, start: int, len: int|
                        0 <= x < self@.width && #[trigger] is_run(self@.col(x), start, len) && m == col_match(x, start, len);
                }
            }
        }
        matches
    }

    /// Lets the gems of column `x` fall, where that column is as in `b0`, and
    /// appends each move to `moves`.
    #[verifier::rlimit(100)]
    #[verifier::spinoff_prover]
    fn drop_column(&mut self, x: u32, moves: &mut Vec<(Position, Position)>, Ghost(b0): Ghost<BoardModel>)
        requires
            b0.wf(),
            old(self).width == b0.width,
            old(self).height == b0.height,
            x < b0.width,
            forall|k: (u32, u32)| #[trigger]
                old(self)@.cells.contains_key(k) ==> b0.in_bounds(k.0 as int, k.1 as int),
            forall|r: int|
                0 <= r < b0.height ==> (#[trigger] old(self)@.holds(x as int, r) <==> b0.holds(x as int, r))
                    && (b0.holds(x as int, r) ==> old(self)@.cells[(x, r as u32)] == b0.cells[(x, r as u32)]),
        ensures
            final(self).width == b0.width,
            final(self).height == b0.height,
            final(self)@.types == old(self)@.types,
            forall|k: (u32, u32)| #[trigger]
                final(self)@.cells.contains_key(k) ==> b0.in_bounds(k.0 as int, k.1 as int),
            forall|k: (u32, u32)| k.0 != x ==> (#[trigger] final(self)@.cells.contains_key(k) <==> old(self)@.cells.contains_key(k))
                && (old(self)@.cells.contains_key(k) ==> final(self)@.cells[k] == old(self)@.cells[k]),
            forall|r: int| 0 <= r < b0.height ==> (#[trigger] final(self)@.holds(x as int, r) <==> r >= b0.holes_from(x as int, 0)),
            forall|r: int|
                0 <= r < b0.height && #[trigger] b0.holds(x as int, r) ==> final(self)@.cells[(
                    x,
                    b0.falls_to(x as int, r) as u32,
                )] == b0.cells[(x, r as u32)],
            final(moves)@.len() >= old(moves)@.len(),
            forall|i: int| 0 <= i < old(moves)@.len() ==> final(moves)@[i] == old(moves)@[i],
            forall|i: int| old(moves)@.len() <= i < final(moves)@.len() ==> b0.is_drop(#[trigger] final(moves)@[i])
                && final(moves)@[i].0.x == x,
            forall|r: int|
                0 <= r < b0.height && b0.holds(x as int, r) && #[trigger] b0.falls_to(x as int, r) != r
                    ==> final(moves)@.contains(
                    (Position { x, y: r as u32 }, Position { x, y: b0.falls_to(x as int, r) as u32 }),
                ),
            forall|i: int, j: int| old(moves)@.len() <= i < j < final(moves)@.len() ==> final(moves)@[i].0 != final(moves)@[j].0,
            forall|r: int| b0.holes_from(x as int, 0) <= r < b0.height ==> #[trigger] b0.lands_on(x as int, r),
    {
        let ghost s0 = self@;
        let ghost m0 = moves@;
        let mut holes: u32 = 0;
        let mut y: u32 = self.height;
        proof {
            lemma_holes_bounded(b0, x as int, y as int);
        }
        while y > 0
            invariant
                b0.wf(),
                self.width == b0.width,
                self.height == b0.height,
                self@.types == s0.types,
                x < b0.width,
                y <= b0.height,
                holes == b0.holes_from(x as int, y as int),
                y + holes <= b0.height,
                forall|k: (u32, u32)| #[trigger]
                    self@.cells.contains_key(k) ==> b0.in_bounds(k.0 as int, k.1 as int),
                forall|k: (u32, u32)| k.0 != x ==> (#[trigger] self@.cells.contains_key(k) <==> s0.cells.contains_key(k))
                    && (s0.cells.contains_key(k) ==> self@.cells[k] == s0.cells[k]),
                forall|r: int|
                    0 <= r < y ==> (#[trigger] self@.holds(x as int, r) <==> b0.holds(x as int, r))
                        && (b0.holds(x as int, r) ==> self@.cells[(x, r as u32)] == b0.cells[(x, r as u32)]),
                forall|r: int| y <= r < b0.height ==> (#[trigger] self@.holds(x as int, r) <==> r >= y + holes),
                forall|r: int|
                    y <= r < b0.height && #[trigger] b0.holds(x as int, r) ==> self@.cells[(
                        x,
                        b0.falls_to(x as int, r) as u32,
                    )] == b0.cells[(x, r as u32)],
                moves@.len() >= m0.len(),
                forall|i: int| 0 <= i < m0.len() ==> moves@[i] == m0[i],
                forall|i: int| m0.len() <= i < moves@.len() ==> b0.is_drop(#[trigger] moves@[i])
                    && moves@[i].0.x == x && moves@[i].0.y >= y,
                forall|r: int|
                    y <= r < b0.height && b0.holds(x as int, r) && #[trigger] b0.falls_to(x as int, r) != r
                        ==> moves@.contains(
                        (Position { x, y: r as u32 }, Position { x, y: b0.falls_to(x as int, r) as u32 }),
                    ),
                forall|i: int, j: int| m0.len() <= i < j < moves@.len() ==> moves@[i].0 != moves@[j].0,
                forall|r: int| y + holes <= r < b0.height ==> #[trigger] b0.lands_on(x as int, r),
            decreases y,
        {
            y -= 1;
            let ghost cur = self@;
            let ghost old_moves = moves@;
            let ghost hy = holes;
            proof {
                assert(cur.holds(x as int, y as int) <==> b0.holds(x as int, y as int));
                assert forall|r: int| y < r < b0.height && #[trigger] b0.holds(x as int, r) implies
                    b0.falls_to(x as int, r) >= y + 1 + holes by {
                    lemma_holes_between(b0, x as int, y + 1, r);
                }
            }
            match self.gems.get((x, y)) {
                None => {
                    holes += 1;
                    proof {
                        assert forall|r: int| y <= r < b0.height implies (#[trigger] self@.holds(x as int, r) <==> r >= y + holes) by {
                            if r > y {
                                assert(cur.holds(x as int, r) <==> r >= y + 1 + hy);
                            }
                        }
                    }
                },
                Some(t) => {
                    if holes > 0 {
                        self.gems.remove((x, y));
                        self.gems.insert((x, y + holes), t);
                        let m = (Position { x, y }, Position { x, y: y + holes });
                        moves.push(m);
                        proof {
                            assert(b0.holds(x as int, y as int));
                            assert(b0.falls_to(x as int, y as int) == y + holes);
                            assert(b0.lands_on(x as int, y + holes));
                            assert forall|k: (u32, u32)| k.0 != x implies (#[trigger] self@.cells.contains_key(k) <==> s0.cells.contains_key(k))
                                && (s0.cells.contains_key(k) ==> self@.cells[k] == s0.cells[k]) by {
                                assert(cur.cells.contains_key(k) <==> s0.cells.contains_key(k));
                            }
                            assert forall|r: int| 0 <= r < y implies (#[trigger] self@.holds(x as int, r) <==> b0.holds(x as int, r))
                                && (b0.holds(x as int, r) ==> self@.cells[(x, r as u32)] == b0.cells[(x, r as u32)]) by {
                                assert((x, r as u32) != (x, y));
                                assert((x, r as u32) != (x, (y + holes) as u32));
                                assert(cur.holds(x as int, r) <==> b0.holds(x as int, r));
                            }
                            assert forall|r: int| y <= r < b0.height implies (#[trigger] self@.holds(x as int, r) <==> r >= y + holes) by {
                                if r > y && r != y + holes {
                                    assert((x, r as u32) != (x, (y + holes) as u32));
                                    assert(cur.holds(x as int, r) <==> r >= y + 1 + hy);
                                }
                            }
                            assert forall|r: int|
                                y <= r < b0.height && #[trigger] b0.holds(x as int, r) implies self@.cells[(
                                    x,
                                    b0.falls_to(x as int, r) as u32,
                                )] == b0.cells[(x, r as u32)] by {
                                if r > y {
                                    lemma_holes_bounded(b0, x as int, r + 1);
                                    assert(b0.falls_to(x as int, r) >= y + 1 + hy);
                                    assert((x, b0.falls_to(x as int, r) as u32) != (x, (y + holes) as u32));
                                    assert((x, b0.falls_to(x as int, r) as u32) != (x, y));
                                    assert(cur.cells[(x, b0.falls_to(x as int, r) as u32)] == b0.cells[(x, r as u32)]);
                                }
                            }
                            assert(moves@[moves@.len() - 1] == m);
                            assert forall|r: int|
                                y <= r < b0.height && b0.holds(x as int, r) && #[trigger] b0.falls_to(x as int, r) != r
                                    implies moves@.contains(
                                    (Position { x, y: r as u32 }, Position { x, y: b0.falls_to(x as int, r) as u32 }),
                                ) by {
                                if r != y {
                                    let t = choose|t: int| 0 <= t < old_moves.len() && #[trigger] old_moves[t] == (Position { x, y: r as u32 }, Position { x, y: b0.falls_to(x as int, r) as u32 });
                                    assert(moves@[t] == old_moves[t]);
                                }
                            }
                            assert forall|i: int| m0.len() <= i < moves@.len() implies b0.is_drop(#[trigger] moves@[i])
                                && moves@[i].0.x == x && moves@[i].0.y >= y by {
                                if i < moves@.len() - 1 {
                                    assert(moves@[i] == old_moves[i]);
                                }
                            }
                            assert forall|i: int, j: int| m0.len() <= i < j < moves@.len() implies moves@[i].0 != moves@[j].0 by {
                                if j == moves@.len() - 1 {
                                    assert(moves@[i] == old_moves[i]);
                                    assert(old_moves[i].0.y >= y + 1);
                                } else {
                                    assert(moves@[i] == old_moves[i]);
                                    assert(moves@[j] == old_moves[j]);
                                }
                            }
                        }
                    } else {
                        proof {
                            assert(b0.falls_to(x as int, y as int) == y);
                            assert(b0.holds(x as int, y as int));
                            assert(b0.lands_on(x as int, y as int));
                            assert forall|r: int| y <= r < b0.height implies (#[trigger] self@.holds(x as int, r) <==> r >= y + holes) by {
                                if r > y {
                                    assert(cur.holds(x as int, r) <==> r >= y + 1 + hy);
                                }
                            }
                        }
                    }
                },
            }
        }
    }

    /// Lets every gem fall into the empty cells below it and reports each move
    /// as (from, to).
    pub fn drop(&mut self) -> (r: Vec<(Position, Position)>)
        requires
            old(self)@.wf(),
        ensures
            old(self)@.dropped(final(self)@),
            old(self)@.reports_drops(r@),
            final(self)@.wf(),
            old(self)@.full() ==> r@.len() == 0 && final(self)@ == old(self)@,
    {
        let ghost b0 = self@;
        let mut moves: Vec<(Position, Position)> = Vec::new();
        let mut x: u32 = 0;
        while x < self.width
            invariant
                b0.wf(),
                self.width == b0.width,
                self.height == b0.height,
                self@.types == b0.types,
                x <= b0.width,
                forall|k: (u32, u32)| #[trigger]
                    self@.cells.contains_key(k) ==> b0.in_bounds(k.0 as int, k.1 as int),
                forall|k: (u32, u32)| k.0 >= x ==> (#[trigger] self@.cells.contains_key(k) <==> b0.cells.contains_key(k))
                    && (b0.cells.contains_key(k) ==> self@.cells[k] == b0.cells[k]),
                forall|xx: int, y: int|
                    0 <= xx < x && 0 <= y < b0.height ==> (#[trigger] self@.holds(xx, y) <==> y >= b0.holes_from(xx, 0)),
                forall|xx: int, y: int|
                    0 <= xx < x && 0 <= y < b0.height && #[trigger] b0.holds(xx, y) ==> self@.cells[(
                        xx as u32,
                        b0.falls_to(xx, y) as u32,
                    )] == b0.cells[(xx as u32, y as u32)],
                forall|i: int| 0 <= i < moves@.len() ==> b0.is_drop(#[trigger] moves@[i]) && moves@[i].0.x < x,
                forall|xx: int, y: int|
                    0 <= xx < x && 0 <= y < b0.height && b0.holds(xx, y) && #[trigger] b0.falls_to(xx, y) != y
                        ==> moves@.contains(
                        (Position { x: xx as u32, y: y as u32 }, Position { x: xx as u32, y: b0.falls_to(xx, y) as u32 }),
                    ),
                forall|i: int, j: int| 0 <= i < j < moves@.len() ==> moves@[i].0 != moves@[j].0,
                forall|xx: int, r: int| 0 <= xx < x && b0.holes_from(xx, 0) <= r < b0.height ==> #[trigger] b0.lands_on(xx, r),
            decreases b0.width - x,
        {
            let ghost before = self@;
            let ghost m0 = moves@;
            proof {
                assert forall|r: int| 0 <= r < b0.height implies (#[trigger] self@.holds(x as int, r) <==> b0.holds(x as int, r))
                    && (b0.holds(x as int, r) ==> self@.cells[(x, r as u32)] == b0.cells[(x, r as u32)]) by {
                    assert(self@.cells.contains_key((x, r as u32)) <==> b0.cells.contains_key((x, r as u32)));
                }
            }
            self.drop_column(x, &mut moves, Ghost(b0));
            proof {
                assert forall|xx: int, y: int|
                    0 <= xx < x + 1 && 0 <= y < b0.height implies (#[trigger] self@.holds(xx, y) <==> y >= b0.holes_from(xx, 0)) by {
                    if xx < x {
                        assert(before.holds(xx, y) <==> y >= b0.holes_from(xx, 0));
                        assert(self@.cells.contains_key((xx as u32, y as u32)) <==> before.cells.contains_key((xx as u32, y as u32)));
                    }
                }
                assert forall|xx: int, y: int|
                    0 <= xx < x + 1 && 0 <= y < b0.height && #[trigger] b0.holds(xx, y) implies self@.cells[(
                        xx as u32,
                        b0.falls_to(xx, y) as u32,
                    )] == b0.cells[(xx as u32, y as u32)] by {
                    if xx < x {
                        assert(self@.cells.contains_key((xx as u32, b0.falls_to(xx, y) as u32)) <==> before.cells.contains_key((xx as u32, b0.falls_to(xx, y) as u32)));
                        lemma_holes_between(b0, xx, 0, y);
                        lemma_holes_bounded(b0, xx, y + 1);
                        assert(before.holds(xx, b0.falls_to(xx, y)));
                        assert(self@.cells[(xx as u32, b0.falls_to(xx, y) as u32)] == before.cells[(xx as u32, b0.falls_to(xx, y) as u32)]);
                    }
                }
                assert forall|xx: int, y: int|
                    0 <= xx < x + 1 && 0 <= y < b0.height && b0.holds(xx, y) && #[trigger] b0.falls_to(xx, y) != y
                        implies moves@.contains(
                        (Position { x: xx as u32, y: y as u32 }, Position { x: xx as u32, y: b0.falls_to(xx, y) as u32 }),
                    ) by {
                    if xx < x {
                        let t = choose|t: int| 0 <= t < m0.len() && #[trigger] m0[t] == (Position { x: xx as u32, y: y as u32 }, Position { x: xx as u32, y: b0.falls_to(xx, y) as u32 });
                        assert(moves@[t] == m0[t]);
                    }
                }
                assert forall|i: int, j: int| 0 <= i < j < moves@.len() implies moves@[i].0 != moves@[j].0 by {
                    if j >= m0.len() && i < m0.len() {
                        assert(moves@[i] == m0[i]);
                    }
                }
                assert forall|i: int| 0 <= i < moves@.len() implies b0.is_drop(#[trigger] moves@[i]) && moves@[i].0.x < x + 1 by {
                    if i < m0.len() {
                        assert(moves@[i] == m0[i]);
                    }
                }
            }
            x += 1;
        }
        proof {
            if b0.full() {
                assert forall|xx: int, y: int| b0.in_bounds(xx, y) implies #[trigger] b0.falls_to(xx, y) == y by {
                    lemma_full_no_holes(b0, xx, y + 1);
                }
                if moves@.len() > 0 {
                    assert(b0.is_drop(moves@[0]));
                }
                assert forall|k: (u32, u32)| self@.cells.contains_key(k) <==> b0.cells.contains_key(k) by {
                    if self@.cells.contains_key(k) || b0.cells.contains_key(k) {
                        assert(b0.in_bounds(k.0 as int, k.1 as int));
                        lemma_full_no_holes(b0, k.0 as int, 0);
                        assert(self@.holds(k.0 as int, k.1 as int));
                        assert(b0.holds(k.0 as int, k.1 as int));
                    }
                }
                assert forall|k: (u32, u32)| self@.cells.contains_key(k) implies self@.cells[k] == b0.cells[k] by {
                    assert(b0.holds(k.0 as int, k.1 as int));
                    assert(b0.falls_to(k.0 as int, k.1 as int) == k.1);
                }
                assert(self@.cells =~= b0.cells);
            }
            assert forall|i: int, j: int| 0 <= i < j < moves@.len() implies moves@[i] != moves@[j] by {
                assert(moves@[i].0 != moves@[j].0);
            }
        }
        moves
    }
    /// Empties the cell at `pos`.
    pub fn remove(&mut self, pos: &Position)
        ensures
            final(self)@ == (BoardModel { cells: old(self)@.cells.remove(pos.key()), ..old(self)@ }),
    {
        self.gems.remove((pos.x, pos.y));
    }

    /// Puts a type drawn at random from the palette into every empty cell, and
    /// reports each as (position, type).
    pub fn fill(&mut self) -> (r: Vec<(Position, u32)>)
        requires
            old(self)@.wf(),
        ensures
            old(self)@.refilled(final(self)@, r@),
            final(self)@.full(),
            old(self)@.full() ==> r@.len() == 0 && final(self)@ == old(self)@,
    {
        let ghost b0 = self@;
        let mut spawned: Vec<(Position, u32)> = Vec::new();
        let mut x: u32 = 0;
        while x < self.width
            invariant
                b0.wf(),
                self@.width == b0.width,
                self@.height == b0.height,
                self@.types == b0.types,
                x <= b0.width,
                forall|k: (u32, u32)| #[trigger]
                    self@.cells.contains_key(k) ==> b0.in_bounds(k.0 as int, k.1 as int),
                forall|k: (u32, u32)| #[trigger] b0.cells.contains_key(k) ==> self@.cells.contains_key(k) && self@.cells[k] == b0.cells[k],
                forall|xx: int, y: int| 0 <= xx < x && 0 <= y < b0.height ==> #[trigger] self@.holds(xx, y),
                forall|k: (u32, u32)| #[trigger] self@.cells.contains_key(k) && !b0.cells.contains_key(k) ==> k.0 < x,
                forall|i: int| 0 <= i < spawned@.len() ==> {
                    let (p, t) = #[trigger] spawned@[i];
                    &&& b0.in_bounds(p.x as int, p.y as int)
                    &&& p.x < x
                    &&& !b0.cells.contains_key(p.key())
                    &&& self@.cells[p.key()] == t
                    &&& b0.types.contains(t)
                },
                forall|xx: int, y: int|
                    0 <= xx < x && 0 <= y < b0.height && !#[trigger] b0.holds(xx, y) ==> spawned@.contains(
                        (Position { x: xx as u32, y: y as u32 }, self@.cells[(xx as u32, y as u32)]),
                    ),
                forall|i: int, j: int| 0 <= i < j < spawned@.len() ==> spawned@[i].0 != spawned@[j].0,
            decreases b0.width - x,
        {
            let mut y: u32 = 0;
            while y < self.height
                invariant
                    b0.wf(),
                    self@.width == b0.width,
                    self@.height == b0.height,
                    self@.types == b0.types,
                    x < b0.width,
                    y <= b0.height,
                    forall|k: (u32, u32)| #[trigger]
                        self@.cells.contains_key(k) ==> b0.in_bounds(k.0 as int, k.1 as int),
                    forall|k: (u32, u32)| #[trigger] b0.cells.contains_key(k) ==> self@.cells.contains_key(k) && self@.cells[k] == b0.cells[k],
                    forall|xx: int, yy: int| (0 <= xx < x || (xx == x && 0 <= yy < y)) && 0 <= yy < b0.height ==> #[trigger] self@.holds(xx, yy),
                    forall|k: (u32, u32)| #[trigger] self@.cells.contains_key(k) && !b0.cells.contains_key(k) ==> (k.0 < x || (k.0 == x && k.1 < y)),
                    forall|i: int| 0 <= i < spawned@.len() ==> {
                        let (p, t) = #[trigger] spawned@[i];
                        &&& b0.in_bounds(p.x as int, p.y as int)
                        &&& (p.x < x || (p.x == x && p.y < y))
                        &&& !b0.cells.contains_key(p.key())
                        &&& self@.cells[p.key()] == t
                        &&& b0.types.contains(t)
                    },
                    forall|xx: int, yy: int|
                        (0 <= xx < x || (xx == x && 0 <= yy < y)) && 0 <= yy < b0.height && !#[trigger] b0.holds(xx, yy) ==> spawned@.contains(
                            (Position { x: xx as u32, y: yy as u32 }, self@.cells[(xx as u32, yy as u32)]),
                        ),
                    forall|i: int, j: int| 0 <= i < j < spawned@.len() ==> spawned@[i].0 != spawned@[j].0,
                decreases b0.height - y,
            {
                let ghost cur = self@;
                let ghost old_sp = spawned@;
                if self.gems.get((x, y)).is_none() {
                    let t = random_type(&self.types);
                    self.gems.insert((x, y), t);
                    let p = Position { x, y };
                    spawned.push((p, t));
                    proof {
                        assert(!b0.cells.contains_key((x, y)));
                        assert forall|k: (u32, u32)| #[trigger] self@.cells.contains_key(k) implies b0.in_bounds(k.0 as int, k.1 as int) by {
                            if k != (x, y) {
                                assert(cur.cells.contains_key(k));
                            }
                        }
                        assert forall|k: (u32, u32)| #[trigger] self@.cells.contains_key(k) && !b0.cells.contains_key(k) implies (k.0 < x || (k.0 == x && k.1 < y + 1)) by {
                            if k != (x, y) {
                                assert(cur.cells.contains_key(k));
                            }
                        }
                        assert(spawned@[spawned@.len() - 1] == (p, t));
                        assert forall|i: int| 0 <= i < spawned@.len() implies {
                            let (p, t) = #[trigger] spawned@[i];
                            &&& b0.in_bounds(p.x as int, p.y as int)
                            &&& (p.x < x || (p.x == x && p.y < y + 1))
                            &&& !b0.cells.contains_key(p.key())
                            &&& self@.cells[p.key()] == t
                            &&& b0.types.contains(t)
                        } by {
                            if i < old_sp.len() {
                                assert(spawned@[i] == old_sp[i]);
                                assert(old_sp[i].0.key() != (x, y));
                            }
                        }
                        assert forall|xx: int, yy: int|
                            (0 <= xx < x || (xx == x && 0 <= yy < y + 1)) && 0 <= yy < b0.height && !#[trigger] b0.holds(xx, yy) implies spawned@.contains(
                                (Position { x: xx as u32, y: yy as u32 }, self@.cells[(xx as u32, yy as u32)]),
                            ) by {
                            if !(xx == x && yy == y) {
                                let t = choose|t: int| 0 <= t < old_sp.len() && #[trigger] old_sp[t] == (Position { x: xx as u32, y: yy as u32 }, cur.cells[(xx as u32, yy as u32)]);
                                assert(spawned@[t] == old_sp[t]);
                            }
                        }
                        assert forall|i: int, j: int| 0 <= i < j < spawned@.len() implies spawned@[i].0 != spawned@[j].0 by {
                            if j < old_sp.len() {
                                assert(spawned@[i] == old_sp[i]);
                                assert(spawned@[j] == old_sp[j]);
                            } else {
                                assert(spawned@[i] == old_sp[i]);
                            }
                        }
                    }
                } else {
                    proof {
                        if !b0.holds(x as int, y as int) {
                            assert(self@.cells.contains_key((x, y)));
                        }
                    }
                }
                proof {
                    assert forall|xx: int, yy: int| (0 <= xx < x || (xx == x && 0 <= yy < y + 1)) && 0 <= yy < b0.height
                        implies #[trigger] self@.holds(xx, yy) by {
                        if !(xx == x && yy == y) {
                            assert(cur.holds(xx, yy));
                        }
                    }
                }
                y += 1;
            }
            x += 1;
        }
        proof {
            assert forall|xx: int, yy: int| b0.in_bounds(xx, yy) implies #[trigger] self@.holds(xx, yy) by {}
            if b0.full() {
                if spawned@.len() > 0 {
                    let (p, t) = spawned@[0];
                    assert(b0.holds(p.x as int, p.y as int));
                }
                assert forall|k: (u32, u32)| self@.cells.contains_key(k) <==> b0.cells.contains_key(k) by {
                    if self@.cells.contains_key(k) {
                        assert((k.0, k.1) == k);
                        assert(b0.holds(k.0 as int, k.1 as int));
                    }
                }
                assert forall|k: (u32, u32)| self@.cells.contains_key(k) implies self@.cells[k] == b0.cells[k] by {
                    assert(b0.cells.contains_key(k));
                }
                assert(self@.cells =~= b0.cells);
            }
        }
        spawned
    }

    /// A copy of this board.
    pub fn duplicate(&self) -> (r: Board)
        ensures
            r@ == self@,
    {
        Board { width: self.width, height: self.height, gems: self.gems.duplicate(), types: self.types.clone() }
    }

    /// Exchanges the gems at `pos1` and `pos2` if that makes a match; otherwise
    /// leaves the board as it was.
    pub fn swap(&mut self, pos1: &Position, pos2: &Position) -> (r: Result<(), SwapError>)
        requires
            old(self)@.full(),
        ensures
            !old(self)@.cells.contains_key(pos1.key()) ==> r == Err::<(), SwapError>(SwapError::NoGem(*pos1)),
            old(self)@.cells.contains_key(pos1.key()) && !old(self)@.cells.contains_key(pos2.key())
                ==> r == Err::<(), SwapError>(SwapError::NoGem(*pos2)),
            old(self)@.cells.contains_key(pos1.key()) && old(self)@.cells.contains_key(pos2.key()) ==> {
                if old(self)@.swapped(*pos1, *pos2).has_match() {
                    r == Ok::<(), SwapError>(())
                } else {
                    r == Err::<(), SwapError>(SwapError::NoMatches)
                }
            },
            r is Ok ==> final(self)@ == old(self)@.swapped(*pos1, *pos2),
            r is Err ==> final(self)@ == old(self)@,
            final(self)@.full(),
    {
        let gem1 = match self.gems.get((pos1.x, pos1.y)) {
            Some(t) => t,
            None => {
                return Err(SwapError::NoGem(*pos1));
            },
        };
        let gem2 = match self.gems.get((pos2.x, pos2.y)) {
            Some(t) => t,
            None => {
                return Err(SwapError::NoGem(*pos2));
            },
        };
        let ghost b0 = self@;
        self.gems.insert((pos1.x, pos1.y), gem2);
        self.gems.insert((pos2.x, pos2.y), gem1);
        proof {
            lemma_swapped_full(b0, *pos1, *pos2);
            assert(self@ == b0.swapped(*pos1, *pos2));
        }
        if self.get_matches().is_empty() {
            self.gems.insert((pos1.x, pos1.y), gem1);
            self.gems.insert((pos2.x, pos2.y), gem2);
            proof {
                assert(self@.cells =~= b0.cells);
            }
            Err(SwapError::NoMatches)
        } else {
            Ok(())
        }
    }

    /// Whether `swap(pos1, pos2)` would succeed, with the board left as it was.
    pub fn try_swap(&mut self, pos1: &Position, pos2: &Position) -> (r: Result<(), SwapError>)
        requires
            old(self)@.full(),
        ensures
            final(self)@ == old(self)@,
            !old(self)@.cells.contains_key(pos1.key()) ==> r == Err::<(), SwapError>(SwapError::NoGem(*pos1)),
            old(self)@.cells.contains_key(pos1.key()) && !old(self)@.cells.contains_key(pos2.key())
                ==> r == Err::<(), SwapError>(SwapError::NoGem(*pos2)),
            old(self)@.cells.contains_key(pos1.key()) && old(self)@.cells.contains_key(pos2.key()) ==> {
                if old(self)@.swapped(*pos1, *pos2).has_match() {
                    r == Ok::<(), SwapError>(())
                } else {
                    r == Err::<(), SwapError>(SwapError::NoMatches)
                }
            },
    {
        let gem1 = match self.gems.get((pos1.x, pos1.y)) {
            Some(t) => t,
            None => {
                return Err(SwapError::NoGem(*pos1));
            },
        };
        let gem2 = match self.gems.get((pos2.x, pos2.y)) {
            Some(t) => t,
            None => {
                return Err(SwapError::NoGem(*pos2));
            },
        };
        let ghost b0 = self@;
        self.gems.insert((pos1.x, pos1.y), gem2);
        self.gems.insert((pos2.x, pos2.y), gem1);
        proof {
            lemma_swapped_full(b0, *pos1, *pos2);
            assert(self@ == b0.swapped(*pos1, *pos2));
        }
        let found = !self.get_matches().is_empty();
        self.gems.insert((pos1.x, pos1.y), gem1);
        self.gems.insert((pos2.x, pos2.y), gem2);
        proof {
            assert(self@.cells =~= b0.cells);
        }
        if found {
            Ok(())
        } else {
            Err(SwapError::NoMatches)
        }
    }
    /// The cells beside `pos`, left, right, above and below, that lie on the board.
    fn adjacents(&self, pos: Position) -> (r: Vec<Position>)
        requires
            self@.in_bounds(pos.x as int, pos.y as int),
        ensures
            forall|q: Position| #[trigger] r@.contains(q) <==> self@.in_bounds(q.x as int, q.y as int) && adjacent(pos, q),
    {
        let mut r: Vec<Position> = Vec::new();
        let ghost left = Position { x: (pos.x - 1) as u32, y: pos.y };
        let ghost right = Position { x: (pos.x + 1) as u32, y: pos.y };
        let ghost up = Position { x: pos.x, y: (pos.y - 1) as u32 };
        let ghost down = Position { x: pos.x, y: (pos.y + 1) as u32 };
        if pos.x != 0 {
            r.push(Position { x: pos.x - 1, y: pos.y });
        }
        proof {
            assert forall|q: Position| r@.contains(q) <==> (pos.x != 0 && q == left) by {
                if pos.x != 0 {
                    lemma_push_contains(Seq::<Position>::empty(), left, q);
                }
            }
        }
        let ghost r1 = r@;
        if pos.x + 1 < self.width {
            r.push(Position { x: pos.x + 1, y: pos.y });
        }
        proof {
            assert forall|q: Position| r@.contains(q) <==> (pos.x != 0 && q == left) || (pos.x + 1 < self@.width && q == right) by {
                if pos.x + 1 < self@.width {
                    lemma_push_contains(r1, right, q);
                }
            }
        }
        let ghost r2 = r@;
        if pos.y != 0 {
            r.push(Position { x: pos.x, y: pos.y - 1 });
        }
        proof {
            assert forall|q: Position| r@.contains(q) <==> (pos.x != 0 && q == left) || (pos.x + 1 < self@.width && q == right)
                || (pos.y != 0 && q == up) by {
                if pos.y != 0 {
                    lemma_push_contains(r2, up, q);
                }
            }
        }
        let ghost r3 = r@;
        if pos.y + 1 < self.height {
            r.push(Position { x: pos.x, y: pos.y + 1 });
        }
        proof {
            assert forall|q: Position| r@.contains(q) <==> (pos.x != 0 && q == left) || (pos.x + 1 < self@.width && q == right)
                || (pos.y != 0 && q == up) || (pos.y + 1 < self@.height && q == down) by {
                if pos.y + 1 < self@.height {
                    lemma_push_contains(r3, down, q);
                }
            }
        }
        r
    }

    /// Every swap of two neighbouring cells that would make a match, each pair once.
    pub fn get_matching_moves(&self) -> (r: Vec<BoardMove>)
        requires
            self@.full(),
        ensures
            forall|i: int| 0 <= i < r@.len() ==> self@.is_matching_move(r@[i].0, r@[i].1),
            forall|a: Position, b: Position|
                #[trigger] self@.is_matching_move(a, b) ==> exists|i: int| 0 <= i < r@.len() && #[trigger] same_move(r@[i], a, b),
            forall|i: int, j: int| 0 <= i < j < r@.len() ==> !same_move(r@[j], r@[i].0, r@[i].1),
    {
        let mut scratch = self.duplicate();
        let mut moves: Vec<BoardMove> = Vec::new();
        let mut x: u32 = 0;
        while x < self.width
            invariant
                self@.full(),
                scratch@ == self@,
                x <= self@.width,
                forall|i: int| 0 <= i < moves@.len() ==> self@.is_matching_move(moves@[i].0, moves@[i].1),
                forall|a: Position, b: Position|
                    #[trigger] self@.is_matching_move(a, b) && a.x < x ==> exists|i: int| 0 <= i < moves@.len() && #[trigger] same_move(moves@[i], a, b),
                forall|i: int, j: int| 0 <= i < j < moves@.len() ==> !same_move(moves@[j], moves@[i].0, moves@[i].1),
            decreases self@.width - x,
        {
            let mut y: u32 = 0;
            while y < self.height
                invariant
                    self@.full(),
                    scratch@ == self@,
                    x < self@.width,
                    y <= self@.height,
                    forall|i: int| 0 <= i < moves@.len() ==> self@.is_matching_move(moves@[i].0, moves@[i].1),
                    forall|a: Position, b: Position|
                        #[trigger] self@.is_matching_move(a, b) && (a.x < x || (a.x == x && a.y < y)) ==> exists|i: int| 0 <= i < moves@.len() && #[trigger] same_move(moves@[i], a, b),
                    forall|i: int, j: int| 0 <= i < j < moves@.len() ==> !same_move(moves@[j], moves@[i].0, moves@[i].1),
                decreases self@.height - y,
            {
                let pos = Position { x, y };
                let adj = self.adjacents(pos);
                let mut k: usize = 0;
                while k < adj.len()
                    invariant
                        self@.full(),
                        scratch@ == self@,
                        x < self@.width,
                        y < self@.height,
                        pos == (Position { x, y }),
                        forall|q: Position| #[trigger] adj@.contains(q) <==> self@.in_bounds(q.x as int, q.y as int) && adjacent(pos, q),
                        k <= adj@.len(),
                        forall|i: int| 0 <= i < moves@.len() ==> self@.is_matching_move(moves@[i].0, moves@[i].1),
                        forall|a: Position, b: Position|
                            #[trigger] self@.is_matching_move(a, b) && (a.x < x || (a.x == x && a.y < y)) ==> exists|i: int| 0 <= i < moves@.len() && #[trigger] same_move(moves@[i], a, b),
                        forall|j: int| 0 <= j < k && self@.is_matching_move(pos, adj@[j]) ==> exists|i: int| 0 <= i < moves@.len() && #[trigger] same_move(moves@[i], pos, adj@[j]),
                        forall|i: int, j: int| 0 <= i < j < moves@.len() ==> !same_move(moves@[j], moves@[i].0, moves@[i].1),
                    decreases adj@.len() - k,
                {
                    let q = adj[k];
                    assert(adj@.contains(q));
                    let ghost old_moves = moves@;
                    proof {
                        assert(self@.holds(pos.x as int, pos.y as int));
                        assert(self@.holds(q.x as int, q.y as int));
                    }
                    if scratch.try_swap(&pos, &q).is_ok() {
                        if !contains_move(&moves, pos, q) {
                            let m = BoardMove(pos, q);
                            moves.push(m);
                            proof {
                                assert(same_move(moves@[moves@.len() - 1], pos, q));
                                assert forall|a: Position, b: Position|
                                    #[trigger] self@.is_matching_move(a, b) && (a.x < x || (a.x == x && a.y < y)) implies exists|i: int| 0 <= i < moves@.len() && #[trigger] same_move(moves@[i], a, b) by {
                                    let i = choose|i: int| 0 <= i < old_moves.len() && #[trigger] same_move(old_moves[i], a, b);
                                    assert(moves@[i] == old_moves[i]);
                                }
                                assert forall|j: int| 0 <= j < k + 1 && self@.is_matching_move(pos, adj@[j]) implies exists|i: int| 0 <= i < moves@.len() && #[trigger] same_move(moves@[i], pos, adj@[j]) by {
                                    if j < k {
                                        let i = choose|i: int| 0 <= i < old_moves.len() && #[trigger] same_move(old_moves[i], pos, adj@[j]);
                                        assert(moves@[i] == old_moves[i]);
                                    } else {
                                        assert(same_move(moves@[moves@.len() - 1], pos, adj@[j]));
                                    }
                                }
                                assert forall|i: int, j: int| 0 <= i < j < moves@.len() implies !same_move(moves@[j], moves@[i].0, moves@[i].1) by {
                                    assert(moves@[i] == old_moves[i]);
                                    if j < old_moves.len() {
                                        assert(moves@[j] == old_moves[j]);
                                    } else {
                                        if same_move(moves@[j], moves@[i].0, moves@[i].1) {
                                            assert(same_move(old_moves[i], pos, q));
                                        }
                                    }
                                }
                            }
                        }
                    }
                    proof {
                        assert(adj@[k as int] == q);
                    }
                    k += 1;
                }
                proof {
                    assert forall|a: Position, b: Position|
                        #[trigger] self@.is_matching_move(a, b) && (a.x < x || (a.x == x && a.y < y + 1)) implies exists|i: int| 0 <= i < moves@.len() && #[trigger] same_move(moves@[i], a, b) by {
                        if a.x == x && a.y == y {
                            assert(a == pos);
                            assert(adj@.contains(b));
                            let j = choose|j: int| 0 <= j < adj@.len() && adj@[j] == b;
                        }
                    }
                }
                y += 1;
            }
            x += 1;
        }
        moves
    }

    /// One clearing round: if the board has a match, empties the cells of every
    /// match the matcher reports, lets the gems fall and refills the empty cells.
    /// Returns whether there was a match to clear.
    pub fn clear_round(&mut self) -> (cleared: bool)
        requires
            old(self)@.full(),
        ensures
            final(self)@.full(),
            cleared == old(self)@.has_match(),
            !cleared ==> final(self)@ == old(self)@,
            cleared ==> old(self)@.cleared_once(final(self)@),
    {
        let matches = self.get_matches();
        if matches.is_empty() {
            return false;
        }
        let ghost b0 = self@;
        let ghost ms = matches@;
        let mut k: usize = 0;
        while k < matches.len()
            invariant
                b0.full(),
                ms == matches@,
                k <= ms.len(),
                self@ == b0.without_all(ms.take(k as int)),
                self@.wf(),
                self@.width == b0.width,
                self@.height == b0.height,
                self@.types == b0.types,
            decreases ms.len() - k,
        {
            let gems = matches.get(k).positions();
            let mut i: usize = 0;
            while i < gems.len()
                invariant
                    b0.full(),
                    ms == matches@,
                    k < ms.len(),
                    gems@ == ms[k as int],
                    i <= gems@.len(),
                    self@ == b0.without_all(ms.take(k as int)).without(gems@.take(i as int)),
                    self@.wf(),
                    self@.width == b0.width,
                    self@.height == b0.height,
                    self@.types == b0.types,
                decreases gems@.len() - i,
            {
                self.remove(&gems[i]);
                proof {
                    assert(gems@.take(i + 1).drop_last() =~= gems@.take(i as int));
                }
                i += 1;
            }
            proof {
                assert(gems@.take(gems@.len() as int) =~= gems@);
                assert(ms.take(k + 1).drop_last() =~= ms.take(k as int));
            }
            k += 1;
        }
        proof {
            assert(ms.take(ms.len() as int) =~= ms);
        }
        self.drop();
        let ghost mid = self@;
        let spawned = self.fill();
        proof {
            assert(b0.round_steps(ms, mid, spawned@, self@));
        }
        true
    }

    /// Clears matches round by round, at most `max_rounds` rounds, stopping as
    /// soon as no match is left. Returns whether none is left.
    pub fn clear_matches(&mut self, max_rounds: u32) -> (settled: bool)
        requires
            old(self)@.full(),
        ensures
            final(self)@.full(),
            final(self)@.width == old(self)@.width,
            final(self)@.height == old(self)@.height,
            final(self)@.types == old(self)@.types,
            settled == !final(self)@.has_match(),
            exists|boards: Seq<BoardModel>|
                #[trigger] old(self)@.clearing_chain(final(self)@, boards) && boards.len() - 1 <= max_rounds
                    && (boards.len() - 1 < max_rounds ==> !final(self)@.has_match()),
            final(self)@.types_from(old(self)@),
            !old(self)@.has_match() ==> settled && final(self)@ == old(self)@,
    {
        let ghost b0 = self@;
        let ghost mut boards: Seq<BoardModel> = seq![b0];
        proof {
            lemma_types_from_self(b0);
        }
        let mut round: u32 = 0;
        let mut done = false;
        while round < max_rounds && !done
            invariant
                b0 == old(self)@,
                self@.full(),
                self@.width == b0.width,
                self@.height == b0.height,
                self@.types == b0.types,
                round <= max_rounds,
                boards.len() == round + 1,
                b0.clearing_chain(self@, boards),
                self@.types_from(b0),
                done ==> !self@.has_match(),
                !b0.has_match() ==> self@ == b0,
            decreases max_rounds - round + (if done { 0int } else { 1int }),
        {
            let ghost before = self@;
            if self.clear_round() {
                proof {
                    let old_boards = boards;
                    boards = boards.push(self@);
                    assert forall|i: int| 0 <= i < boards.len() - 1 implies (#[trigger] boards[i]).cleared_once(boards[i + 1]) by {
                        if i < old_boards.len() - 1 {
                            assert(boards[i] == old_boards[i] && boards[i + 1] == old_boards[i + 1]);
                        }
                    }
                    lemma_round_types(before, self@);
                    lemma_types_from_trans(self@, before, b0);
                }
                round += 1;
            } else {
                done = true;
            }
        }
        proof {
            assert(b0.clearing_chain(self@, boards));
        }
        self.get_matches().is_empty()
    }

    /// Every gem on the board with its position, each once.
    pub fn iter(&self) -> (r: Vec<(Position, u32)>)
        ensures
            forall|i: int| 0 <= i < r@.len() ==> {
                let (p, t) = #[trigger] r@[i];
                &&& self@.in_bounds(p.x as int, p.y as int)
                &&& self@.cells.contains_key(p.key())
                &&& self@.cells[p.key()] == t
            },
            forall|x: int, y: int|
                self@.in_bounds(x, y) && #[trigger] self@.holds(x, y) ==> r@.contains(
                    (Position { x: x as u32, y: y as u32 }, self@.cells[(x as u32, y as u32)]),
                ),
            forall|i: int, j: int| 0 <= i < j < r@.len() ==> r@[i].0 != r@[j].0,
    {
        let mut r: Vec<(Position, u32)> = Vec::new();
        let mut y: u32 = 0;
        while y < self.height
            invariant
                y <= self@.height,
                forall|i: int| 0 <= i < r@.len() ==> {
                    let (p, t) = #[trigger] r@[i];
                    &&& self@.in_bounds(p.x as int, p.y as int)
                    &&& p.y < y
                    &&& self@.cells.contains_key(p.key())
                    &&& self@.cells[p.key()] == t
                },
                forall|xx: int, yy: int|
                    self@.in_bounds(xx, yy) && yy < y && #[trigger] self@.holds(xx, yy) ==> r@.contains(
                        (Position { x: xx as u32, y: yy as u32 }, self@.cells[(xx as u32, yy as u32)]),
                    ),
                forall|i: int, j: int| 0 <= i < j < r@.len() ==> r@[i].0 != r@[j].0,
            decreases self@.height - y,
        {
            let mut x: u32 = 0;
            while x < self.width
                invariant
                    y < self@.height,
                    x <= self@.width,
                    forall|i: int| 0 <= i < r@.len() ==> {
                        let (p, t) = #[trigger] r@[i];
                        &&& self@.in_bounds(p.x as int, p.y as int)
                        &&& (p.y < y || (p.y == y && p.x < x))
                        &&& self@.cells.contains_key(p.key())
                        &&& self@.cells[p.key()] == t
                    },
                    forall|xx: int, yy: int|
                        self@.in_bounds(xx, yy) && (yy < y || (yy == y && xx < x)) && #[trigger] self@.holds(xx, yy) ==> r@.contains(
                            (Position { x: xx as u32, y: yy as u32 }, self@.cells[(xx as u32, yy as u32)]),
                        ),
                    forall|i: int, j: int| 0 <= i < j < r@.len() ==> r@[i].0 != r@[j].0,
                decreases self@.width - x,
            {
                let ghost r0 = r@;
                match self.gems.get((x, y)) {
                    Some(t) => {
                        r.push((Position { x, y }, t));
                        proof {
                            assert(r@[r@.len() - 1] == (Position { x, y }, t));
                            assert forall|xx: int, yy: int|
                                self@.in_bounds(xx, yy) && (yy < y || (yy == y && xx < x + 1)) && #[trigger] self@.holds(xx, yy) implies r@.contains(
                                    (Position { x: xx as u32, y: yy as u32 }, self@.cells[(xx as u32, yy as u32)]),
                                ) by {
                                if !(xx == x && yy == y) {
                                    let t = choose|t: int| 0 <= t < r0.len() && #[trigger] r0[t] == (Position { x: xx as u32, y: yy as u32 }, self@.cells[(xx as u32, yy as u32)]);
                                    assert(r@[t] == r0[t]);
                                }
                            }
                            assert forall|i: int, j: int| 0 <= i < j < r@.len() implies r@[i].0 != r@[j].0 by {
                                assert(r@[i] == r0[i] || i == r@.len() - 1);
                            }
                        }
                    },
                    None => {},
                }
                x += 1;
            }
            y += 1;
        }
        r
    }

    /// A board from its rows, top row first. Refused unless every row is as
    /// long as the first and the sizes fit in `u32`. The palette is the set of
    /// types that occur.
    pub fn from_rows(rows: &Vec<Vec<u32>>) -> (r: Option<Board>)
        ensures
            r is Some <==> rows_fit(rows@.map_values(|row: Vec<u32>| row@)),
            r matches Some(b) ==> {
                let rs = rows@.map_values(|row: Vec<u32>| row@);
                &&& b@.full()
                &&& b@.height == rs.len()
                &&& b@.width == (if rs.len() == 0 { 0 } else { rs[0].len() })
                &&& forall|x: int, y: int| #[trigger] b@.in_bounds(x, y) ==> b@.cells[(x as u32, y as u32)] == rs[y][x]
                &&& forall|t: u32| b@.types.contains(t) <==> exists|x: int, y: int| #[trigger] b@.in_bounds(x, y) && rs[y][x] == t
            },
    {
        let ghost rs = rows@.map_values(|row: Vec<u32>| row@);
        if rows.len() > u32::MAX as usize {
            return None;
        }
        let height = rows.len() as u32;
        let mut width: u32 = 0;
        if rows.len() > 0 {
            if rows[0].len() > u32::MAX as usize {
                return None;
            }
            width = rows[0].len() as u32;
        }
        let mut y: usize = 0;
        while y < rows.len()
            invariant
                rs == rows@.map_values(|row: Vec<u32>| row@),
                y <= rows@.len(),
                rows@.len() <= u32::MAX,
                width == (if rs.len() == 0 { 0 } else { rs[0].len() }),
                forall|yy: int| 0 <= yy < y ==> (#[trigger] rs[yy]).len() == width,
            decreases rows@.len() - y,
        {
            if rows[y].len() != width as usize {
                proof {
                    assert(rs[y as int].len() != width);
                }
                return None;
            }
            y += 1;
        }
        let mut gems = GemMap::new();
        let mut types: Vec<u32> = Vec::new();
        let mut yy: u32 = 0;
        while yy < height
            invariant
                rs == rows@.map_values(|row: Vec<u32>| row@),
                height == rs.len(),
                width == (if rs.len() == 0 { 0 } else { rs[0].len() }),
                forall|j: int| 0 <= j < height ==> (#[trigger] rs[j]).len() == width,
                yy <= height,
                forall|k: (u32, u32)| #[trigger] gem_map_contents(gems).contains_key(k) ==> k.0 < width && k.1 < yy,
                forall|x: int, y: int| 0 <= x < width && 0 <= y < yy ==> #[trigger] gem_map_contents(gems).contains_key((x as u32, y as u32))
                    && gem_map_contents(gems)[(x as u32, y as u32)] == rs[y][x],
                types@.no_duplicates(),
                forall|t: u32| types@.contains(t) <==> exists|x: int, y: int| 0 <= x < width && 0 <= y < yy && #[trigger] rs[y][x] == t,
            decreases height - yy,
        {
            let row = &rows[yy as usize];
            let mut x: u32 = 0;
            proof {
                assert(row@ == rs[yy as int]);
                assert(rs[yy as int].len() == width);
                assert forall|t: u32| types@.contains(t) <==> exists|xx: int, y: int|
                    ((0 <= xx < width && 0 <= y < yy) || (0 <= xx < x && y == yy)) && #[trigger] rs[y][xx] == t by {
                    if exists|xx: int, y: int| ((0 <= xx < width && 0 <= y < yy) || (0 <= xx < x && y == yy)) && #[trigger] rs[y][xx] == t {
                        let (xx, y) = choose|xx: int, y: int| ((0 <= xx < width && 0 <= y < yy) || (0 <= xx < x && y == yy)) && #[trigger] rs[y][xx] == t;
                        assert(0 <= xx < width && 0 <= y < yy && rs[y][xx] == t);
                    }
                }
            }
            while x < width
                invariant
                    rs == rows@.map_values(|row: Vec<u32>| row@),
                    height == rs.len(),
                    yy < height,
                    row@ == rs[yy as int],
                    row@.len() == width,
                    x <= width,
                    forall|k: (u32, u32)| #[trigger] gem_map_contents(gems).contains_key(k) ==> k.0 < width && (k.1 < yy || (k.1 == yy && k.0 < x)),
                    forall|xx: int, y: int| 0 <= xx < width && 0 <= y < yy ==> #[trigger] gem_map_contents(gems).contains_key((xx as u32, y as u32))
                        && gem_map_contents(gems)[(xx as u32, y as u32)] == rs[y][xx],
                    forall|xx: int| 0 <= xx < x ==> #[trigger] gem_map_contents(gems).contains_key((xx as u32, yy))
                        && gem_map_contents(gems)[(xx as u32, yy)] == rs[yy as int][xx],
                    types@.no_duplicates(),
                    forall|t: u32| types@.contains(t) <==> exists|xx: int, y: int|
                        ((0 <= xx < width && 0 <= y < yy) || (0 <= xx < x && y == yy)) && #[trigger] rs[y][xx] == t,
                decreases width - x,
            {
                let t = row[x as usize];
                let ghost g0 = gem_map_contents(gems);
                let ghost ty0 = types@;
                gems.insert((x, yy), t);
                if !contains_type(&types, t) {
                    types.push(t);
                }
                proof {
                    assert(rs[yy as int][x as int] == t);
                    assert forall|u: u32| types@.contains(u) <==> exists|xx: int, y: int|
                        ((0 <= xx < width && 0 <= y < yy) || (0 <= xx < x + 1 && y == yy)) && #[trigger] rs[y][xx] == u by {
                        if types@.contains(u) && !ty0.contains(u) {
                            assert(u == t);
                        }
                        if u == t && !ty0.contains(u) {
                            assert(types@[types@.len() - 1] == t);
                        }
                        if ty0.contains(u) {
                            let i = choose|i: int| 0 <= i < ty0.len() && ty0[i] == u;
                            assert(types@[i] == u);
                        }
                        if exists|xx: int, y: int|
                            ((0 <= xx < width && 0 <= y < yy) || (0 <= xx < x + 1 && y == yy)) && #[trigger] rs[y][xx] == u {
                            let (xx, y) = choose|xx: int, y: int|
                                ((0 <= xx < width && 0 <= y < yy) || (0 <= xx < x + 1 && y == yy)) && #[trigger] rs[y][xx] == u;
                            if !(xx == x && y == yy) {
                                assert(ty0.contains(u));
                            }
                        }
                    }
                    assert forall|xx: int, y: int| 0 <= xx < width && 0 <= y < yy implies #[trigger] gem_map_contents(gems).contains_key((xx as u32, y as u32))
                        && gem_map_contents(gems)[(xx as u32, y as u32)] == rs[y][xx] by {
                        assert(g0.contains_key((xx as u32, y as u32)));
                    }
                    assert forall|xx: int| 0 <= xx < x + 1 implies #[trigger] gem_map_contents(gems).contains_key((xx as u32, yy))
                        && gem_map_contents(gems)[(xx as u32, yy)] == rs[yy as int][xx] by {
                        if xx < x {
                            assert(g0.contains_key((xx as u32, yy)));
                        }
                    }
                }
                x += 1;
            }
            proof {
                assert forall|xx: int, y: int| 0 <= xx < width && 0 <= y < yy + 1 implies #[trigger] gem_map_contents(gems).contains_key((xx as u32, y as u32))
                    && gem_map_contents(gems)[(xx as u32, y as u32)] == rs[y][xx] by {
                    if y == yy {
                        assert(gem_map_contents(gems).contains_key((xx as u32, yy)));
                    }
                }
                assert forall|t: u32| types@.contains(t) <==> exists|xx: int, y: int|
                    0 <= xx < width && 0 <= y < yy + 1 && #[trigger] rs[y][xx] == t by {
                    if exists|xx: int, y: int| 0 <= xx < width && 0 <= y < yy + 1 && #[trigger] rs[y][xx] == t {
                        let (xx, y) = choose|xx: int, y: int| 0 <= xx < width && 0 <= y < yy + 1 && #[trigger] rs[y][xx] == t;
                        assert(((0 <= xx < width && 0 <= y < yy) || (0 <= xx < width && y == yy)) && rs[y][xx] == t);
                    }
                }
            }
            yy += 1;
        }
        let b = Board { width, height, gems, types };
        proof {
            assert forall|k: (u32, u32)| #[trigger] b@.cells.contains_key(k) implies b@.in_bounds(k.0 as int, k.1 as int) by {}
            assert forall|x: int, y: int| b@.in_bounds(x, y) implies #[trigger] b@.holds(x, y) by {
                assert(gem_map_contents(b.gems).contains_key((x as u32, y as u32)));
            }
            assert forall|x: int, y: int| #[trigger] b@.in_bounds(x, y) implies b@.cells[(x as u32, y as u32)] == rs[y][x] by {
                assert(gem_map_contents(b.gems).contains_key((x as u32, y as u32)));
            }
            assert(rows_fit(rs));
            if width > 0 && height > 0 {
                assert(rs[0][0] == rs[0][0]);
                assert(b@.types.contains(rs[0][0]));
            }
            assert forall|t: u32| b@.types.contains(t) <==> exists|x: int, y: int| #[trigger] b@.in_bounds(x, y) && rs[y][x] == t by {
                if b@.types.contains(t) {
                    let (x, y) = choose|x: int, y: int| 0 <= x < width && 0 <= y < height && #[trigger] rs[y][x] == t;
                    assert(b@.in_bounds(x, y));
                }
                if exists|x: int, y: int| #[trigger] b@.in_bounds(x, y) && rs[y][x] == t {
                    let (x, y) = choose|x: int, y: int| #[trigger] b@.in_bounds(x, y) && rs[y][x] == t;
                    assert(rs[y][x] == t);
                }
            }
        }
        Some(b)
    }
    /// Every cell of the board, row by row from the top.
    pub fn grid_positions(&self) -> (r: Vec<Position>)
        ensures
            r@.no_duplicates(),
            forall|q: Position| #[trigger] r@.contains(q) <==> self@.in_bounds(q.x as int, q.y as int),
    {
        let mut r: Vec<Position> = Vec::new();
        let mut y: u32 = 0;
        while y < self.height
            invariant
                y <= self@.height,
                r@.no_duplicates(),
                forall|q: Position| #[trigger] r@.contains(q) <==> self@.in_bounds(q.x as int, q.y as int) && q.y < y,
            decreases self@.height - y,
        {
            let mut x: u32 = 0;
            while x < self.width
                invariant
                    y < self@.height,
                    x <= self@.width,
                    r@.no_duplicates(),
                    forall|q: Position| #[trigger] r@.contains(q) <==> self@.in_bounds(q.x as int, q.y as int)
                        && (q.y < y || (q.y == y && q.x < x)),
                decreases self@.width - x,
            {
                let ghost r0 = r@;
                let p = Position { x, y };
                r.push(p);
                proof {
                    assert forall|q: Position| #[trigger] r@.contains(q) <==> self@.in_bounds(q.x as int, q.y as int)
                        && (q.y < y || (q.y == y && q.x < x + 1)) by {
                        lemma_push_contains(r0, p, q);
                    }
                    assert forall|i: int, j: int| 0 <= i < j < r@.len() implies r@[i] != r@[j] by {
                        if j == r@.len() - 1 {
                            assert(r0.contains(r@[i]));
                        }
                    }
                }
                x += 1;
            }
            y += 1;
        }
        r
    }

    /// Moves the gem of `sources[i]` to `targets[i]`, for every `i` at once, and
    /// reports each gem that changed cell as (from, to).
    pub fn shuffle_with(&mut self, targets: &Vec<Position>, sources: &Vec<Position>) -> (r: Vec<(Position, Position)>)
        requires
            old(self)@.full(),
            targets@.len() == sources@.len(),
            targets@.no_duplicates(),
            forall|i: int| 0 <= i < targets@.len() ==> old(self)@.in_bounds((#[trigger] targets@[i]).x as int, targets@[i].y as int),
            forall|i: int| 0 <= i < sources@.len() ==> old(self)@.in_bounds((#[trigger] sources@[i]).x as int, sources@[i].y as int),
        ensures
            final(self)@.full(),
            final(self)@.width == old(self)@.width,
            final(self)@.height == old(self)@.height,
            final(self)@.types == old(self)@.types,
            forall|i: int| 0 <= i < targets@.len() ==> final(self)@.cells[(#[trigger] targets@[i]).key()] == old(self)@.cells[sources@[i].key()],
            forall|k: (u32, u32)| #[trigger] old(self)@.cells.contains_key(k) && !targets@.contains(Position { x: k.0, y: k.1 })
                ==> final(self)@.cells[k] == old(self)@.cells[k],
            forall|j: int| 0 <= j < r@.len() ==> is_moved(sources@, targets@, #[trigger] r@[j]),
            forall|i: int| 0 <= i < targets@.len() && sources@[i] != targets@[i] ==> r@.contains((sources@[i], #[trigger] targets@[i])),
            r@.no_duplicates(),
    {
        let ghost b0 = self@;
        let n = targets.len();
        let mut values: Vec<u32> = Vec::new();
        let mut i: usize = 0;
        while i < n
            invariant
                self@ == b0,
                b0.full(),
                n == targets@.len(),
                n == sources@.len(),
                forall|i: int| 0 <= i < sources@.len() ==> b0.in_bounds((#[trigger] sources@[i]).x as int, sources@[i].y as int),
                i <= n,
                values@.len() == i,
                forall|j: int| 0 <= j < i ==> values@[j] == b0.cells[(#[trigger] sources@[j]).key()],
            decreases n - i,
        {
            let p = sources[i];
            assert(b0.in_bounds(p.x as int, p.y as int));
            assert(b0.holds(p.x as int, p.y as int));
            values.push(self.gems.get((p.x, p.y)).unwrap());
            i += 1;
        }
        let mut moves: Vec<(Position, Position)> = Vec::new();
        let ghost mut idx: Seq<int> = Seq::empty();
        let mut i: usize = 0;
        while i < n
            invariant
                b0.full(),
                self@.width == b0.width,
                self@.height == b0.height,
                self@.types == b0.types,
                n == targets@.len(),
                n == sources@.len(),
                targets@.no_duplicates(),
                forall|i: int| 0 <= i < targets@.len() ==> b0.in_bounds((#[trigger] targets@[i]).x as int, targets@[i].y as int),
                values@.len() == n,
                forall|j: int| 0 <= j < n ==> values@[j] == b0.cells[(#[trigger] sources@[j]).key()],
                i <= n,
                self@.cells.dom() == b0.cells.dom(),
                forall|j: int| 0 <= j < i ==> self@.cells[(#[trigger] targets@[j]).key()] == values@[j],
                forall|k: (u32, u32)| #[trigger] b0.cells.contains_key(k) && !targets@.take(i as int).contains(Position { x: k.0, y: k.1 })
                    ==> self@.cells[k] == b0.cells[k],
                idx.len() == moves@.len(),
                forall|j: int| 0 <= j < moves@.len() ==> 0 <= #[trigger] idx[j] < i && moves@[j] == (sources@[idx[j]], targets@[idx[j]])
                    && sources@[idx[j]] != targets@[idx[j]],
                forall|j: int, l: int| 0 <= j < l < moves@.len() ==> idx[j] < idx[l],
                forall|j: int| 0 <= j < i && sources@[j] != targets@[j] ==> moves@.contains((sources@[j], #[trigger] targets@[j])),
            decreases n - i,
        {
            let t = targets[i];
            let src = sources[i];
            let ghost cur = self@;
            let ghost m0 = moves@;
            proof {
                assert(b0.holds(t.x as int, t.y as int));
            }
            self.gems.insert((t.x, t.y), values[i]);
            if src != t {
                moves.push((src, t));
                proof {
                    idx = idx.push(i as int);
                }
            }
            proof {
                assert(self@.cells.dom() =~= b0.cells.dom());
                assert(targets@.take(i + 1) =~= targets@.take(i as int).push(t));
                assert forall|j: int| 0 <= j < i + 1 implies self@.cells[(#[trigger] targets@[j]).key()] == values@[j] by {
                    if j < i {
                        assert(targets@[j] != t);
                        assert(targets@[j].key() != t.key());
                    }
                }
                assert forall|k: (u32, u32)| #[trigger] b0.cells.contains_key(k) && !targets@.take(i + 1).contains(Position { x: k.0, y: k.1 })
                    implies self@.cells[k] == b0.cells[k] by {
                    lemma_push_contains(targets@.take(i as int), t, Position { x: k.0, y: k.1 });
                    assert(k != t.key());
                }
                assert forall|j: int| 0 <= j < i + 1 && sources@[j] != targets@[j] implies moves@.contains((sources@[j], #[trigger] targets@[j])) by {
                    if j < i {
                        let w = choose|w: int| 0 <= w < m0.len() && m0[w] == (sources@[j], targets@[j]);
                        assert(moves@[w] == m0[w]);
                    } else {
                        assert(moves@[moves@.len() - 1] == (src, t));
                    }
                }
            }
            i += 1;
        }
        proof {
            assert(targets@.take(n as int) =~= targets@);
            assert forall|k: (u32, u32)| #[trigger] self@.cells.contains_key(k) implies b0.in_bounds(k.0 as int, k.1 as int) by {
                assert(b0.cells.contains_key(k));
            }
            assert forall|x: int, y: int| self@.in_bounds(x, y) implies #[trigger] self@.holds(x, y) by {
                assert(b0.holds(x, y));
            }
            assert forall|j: int| 0 <= j < moves@.len() implies is_moved(sources@, targets@, #[trigger] moves@[j]) by {
                let i = idx[j];
                assert(moves@[j] == moved(sources@, targets@, i));
            }
            assert forall|j: int, l: int| 0 <= j < l < moves@.len() implies moves@[j] != moves@[l] by {
                assert(idx[j] < idx[l]);
                assert(targets@[idx[j]] != targets@[idx[l]]);
            }
        }
        moves
    }

    /// Moves the gems to random cells (a gem may stay where it was), and reports
    /// each gem that changed cell as (from, to).
    pub fn shuffle(&mut self) -> (r: Vec<(Position, Position)>)
        requires
            old(self)@.full(),
        ensures
            old(self)@.shuffled_to(final(self)@, r@),
    {
        let ghost b0 = self@;
        let targets = self.grid_positions();
        let mut sources = copy_positions(&targets);
        let ghost s0 = sources@;
        shuffle_positions(&mut sources);
        proof {
            s0.lemma_multiset_has_no_duplicates();
            sources@.lemma_multiset_has_no_duplicates_conv();
            assert forall|i: int| 0 <= i < targets@.len() implies b0.in_bounds((#[trigger] targets@[i]).x as int, targets@[i].y as int) by {
                assert(targets@.contains(targets@[i]));
            }
            assert forall|i: int| 0 <= i < sources@.len() implies b0.in_bounds((#[trigger] sources@[i]).x as int, sources@[i].y as int) by {
                assert(sources@.to_multiset().count(sources@[i]) > 0) by {
                    sources@.to_multiset_ensures();
                }
                s0.to_multiset_ensures();
                assert(s0.contains(sources@[i]));
            }
        }
        let r = self.shuffle_with(&targets, &sources);
        proof {
            sources@.to_multiset_ensures();
            s0.to_multiset_ensures();
            assert forall|j: int| 0 <= j < r@.len() implies {
                let (a, b) = #[trigger] r@[j];
                &&& b0.in_bounds(a.x as int, a.y as int)
                &&& b0.in_bounds(b.x as int, b.y as int)
                &&& a != b
                &&& self@.cells[b.key()] == b0.cells[a.key()]
            } by {
                let i = choose|i: int| 0 <= i < targets@.len() && r@[j] == #[trigger] moved(sources@, targets@, i) && sources@[i] != targets@[i];
            }
            assert forall|x: int, y: int|
                #[trigger] b0.in_bounds(x, y) && (forall|j: int| 0 <= j < r@.len() ==> r@[j].1 != Position { x: x as u32, y: y as u32 })
                    implies self@.cells[(x as u32, y as u32)] == b0.cells[(x as u32, y as u32)] by {
                let p = Position { x: x as u32, y: y as u32 };
                assert(targets@.contains(p));
                let i = choose|i: int| 0 <= i < targets@.len() && targets@[i] == p;
                if sources@[i] != targets@[i] {
                    assert(r@.contains((sources@[i], targets@[i])));
                    let j = choose|j: int| 0 <= j < r@.len() && r@[j] == (sources@[i], targets@[i]);
                    assert(r@[j].1 == p);
                }
                assert(p.key() == (x as u32, y as u32));
            }
            assert forall|p: Position| #[trigger] b0.in_bounds(p.x as int, p.y as int) implies sources@.contains(p) by {
                assert(targets@.contains(p));
                assert(s0.to_multiset().count(p) > 0);
                assert(sources@.to_multiset().count(p) > 0);
            }
            assert forall|p: Position| is_source(r@, p) <==> is_target(r@, p) by {
                if is_source(r@, p) {
                    let j = choose|j: int| 0 <= j < r@.len() && (#[trigger] r@[j]).0 == p;
                    let i = choose|i: int| 0 <= i < targets@.len() && r@[j] == #[trigger] moved(sources@, targets@, i) && sources@[i] != targets@[i];
                    assert(b0.in_bounds(p.x as int, p.y as int));
                    assert(targets@.contains(p));
                    let j2 = choose|j2: int| 0 <= j2 < targets@.len() && targets@[j2] == p;
                    if sources@[j2] == targets@[j2] {
                        assert(sources@[j2] == sources@[i]);
                    }
                    assert(r@.contains((sources@[j2], targets@[j2])));
                    let l = choose|l: int| 0 <= l < r@.len() && r@[l] == (sources@[j2], targets@[j2]);
                    assert(r@[l].1 == p);
                }
                if is_target(r@, p) {
                    let j = choose|j: int| 0 <= j < r@.len() && (#[trigger] r@[j]).1 == p;
                    let i = choose|i: int| 0 <= i < targets@.len() && r@[j] == #[trigger] moved(sources@, targets@, i) && sources@[i] != targets@[i];
                    assert(b0.in_bounds(p.x as int, p.y as int));
                    assert(sources@.contains(p));
                    let j2 = choose|j2: int| 0 <= j2 < sources@.len() && sources@[j2] == p;
                    if sources@[j2] == targets@[j2] {
                        assert(targets@[j2] == targets@[i]);
                    }
                    assert(r@.contains((sources@[j2], targets@[j2])));
                    let l = choose|l: int| 0 <= l < r@.len() && r@[l] == (sources@[j2], targets@[j2]);
                    assert(r@[l].0 == p);
                }
            }
            assert forall|j: int, l: int| 0 <= j < l < r@.len() implies r@[j].0 != r@[l].0 && r@[j].1 != r@[l].1 by {
                let i1 = choose|i: int| 0 <= i < targets@.len() && r@[j] == #[trigger] moved(sources@, targets@, i) && sources@[i] != targets@[i];
                let i2 = choose|i: int| 0 <= i < targets@.len() && r@[l] == #[trigger] moved(sources@, targets@, i) && sources@[i] != targets@[i];
                assert(r@[j] != r@[l]);
                if i1 != i2 {
                    assert(targets@[i1] != targets@[i2]);
                    assert(sources@[i1] != sources@[i2]);
                }
            }
        }
        r
    }
    /// A board with no gems yet, of the given size and palette.
    pub fn empty(width: u32, height: u32, types: Vec<u32>) -> (r: Board)
        requires
            types@.no_duplicates(),
            types@.len() > 0,
        ensures
            r@.wf(),
            r@.width == width,
            r@.height == height,
            r@.types == types@,
            r@.cells == Map::<(u32, u32), u32>::empty(),
    {
        Board { width, height, gems: GemMap::new(), types }
    }
    /// The board as text: one line per row, top row first, each written as a
    /// list of its types.
    pub fn to_string(&self) -> (r: String)
        requires
            self@.full(),
        ensures
            r@ == rows_text(self@, self@.height as int),
    {
        let mut text = String::new();
        let mut y: u32 = 0;
        while y < self.height
            invariant
                self@.full(),
                y <= self@.height,
                text@ == rows_text(self@, y as int),
            decreases self@.height - y,
        {
            let row = self.row_types(y);
            let line = debug_text(&row);
            text.append(line.as_str());
            text.append("\n");
            proof {
                reveal_strlit("\n");
            }
            y += 1;
        }
        text
    }
}

} // verus!
