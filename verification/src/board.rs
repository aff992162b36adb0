//! The Minesweeper board: cells in row-major order, what the player knows of
//! them, and the neighbourhood queries that the player and the solver use.

use crate::random::shuffle_numbers;
use vstd::multiset::Multiset;
use vstd::prelude::*;

verus! {

/// What a cell holds.
#[derive(Debug, Clone, Copy, PartialEq, Eq, Structural)]
pub enum Content {
    Mine,
    Empty,
}

/// What the player knows of a cell.
#[derive(Debug, Clone, Copy, PartialEq, Eq, Structural)]
pub enum KnowledgeState {
    Unknown,
    Flag,
    Known,
}

impl KnowledgeState {
    /// Whether the cell is revealed.
    pub fn is_known(&self) -> (known: bool)
        ensures
            known == (*self is Known),
    {
        match *self {
            KnowledgeState::Known => true,
            _ => false,
        }
    }

    /// Whether the cell is flagged.
    pub fn is_flag(&self) -> (flag: bool)
        ensures
            flag == (*self is Flag),
    {
        match *self {
            KnowledgeState::Flag => true,
            _ => false,
        }
    }

    /// Whether nothing is known of the cell, and it carries no flag.
    pub fn is_unknown(&self) -> (unknown: bool)
        ensures
            unknown == (*self is Unknown),
    {
        match *self {
            KnowledgeState::Unknown => true,
            _ => false,
        }
    }
}

/// A place on the board: row, then column.
#[derive(Debug, Clone, Copy, Hash)]
pub struct Point(pub usize, pub usize);

impl PartialEq for Point {
    fn eq(&self, other: &Point) -> (same: bool) {
        self.0 == other.0 && self.1 == other.1
    }
}

impl Eq for Point {

}

impl vstd::std_specs::cmp::PartialEqSpecImpl for Point {
    open spec fn obeys_eq_spec() -> bool {
        true
    }

    open spec fn eq_spec(&self, other: &Point) -> bool {
        self.0 == other.0 && self.1 == other.1
    }
}

/// The distance between two numbers.
pub open spec fn gap(a: int, b: int) -> int {
    if a >= b {
        a - b
    } else {
        b - a
    }
}

/// The distance between `a` and `b` when a step may go to any of the eight
/// cells around: the larger of the row gap and the column gap.
pub open spec fn king_distance(a: Point, b: Point) -> int {
    if gap(a.0 as int, b.0 as int) >= gap(a.1 as int, b.1 as int) {
        gap(a.0 as int, b.0 as int)
    } else {
        gap(a.1 as int, b.1 as int)
    }
}

impl Point {
    /// The number of steps from `self` to `other`, where a step goes to any of
    /// the eight cells around.
    pub fn distance(&self, other: &Point) -> (d: usize)
        ensures
            d == king_distance(*self, *other),
    {
        let rows = if self.0 >= other.0 {
            self.0 - other.0
        } else {
            other.0 - self.0
        };
        let columns = if self.1 >= other.1 {
            self.1 - other.1
        } else {
            other.1 - self.1
        };
        if rows >= columns {
            rows
        } else {
            columns
        }
    }
}

/// One cell of the board.
#[derive(Debug, Clone, Copy)]
pub struct Cell {
    pub content: Content,
    pub mined_neighbor_count: usize,
    pub knowledge: KnowledgeState,
    pub point: Point,
}

impl Cell {
    /// The cell counts as a mine: it is flagged, or known to hold one.
    pub open spec fn assumed_mine(self) -> bool {
        self.knowledge is Flag || (self.knowledge is Known && self.content is Mine)
    }

    /// The cell is revealed and holds no mine.
    pub open spec fn known_unmined(self) -> bool {
        self.knowledge is Known && self.content is Empty
    }

    /// An empty cell at `point` of which nothing is known.
    pub fn create_empty(point: Point) -> (cell: Cell)
        ensures
            cell == (Cell {
                content: Content::Empty,
                mined_neighbor_count: 0,
                knowledge: KnowledgeState::Unknown,
                point,
            }),
    {
        Cell {
            content: Content::Empty,
            mined_neighbor_count: 0,
            knowledge: KnowledgeState::Unknown,
            point,
        }
    }

    /// Sets a flag on an unknown cell, takes it off a flagged one, and leaves
    /// a known cell as it is.
    pub fn toggle_flag(&mut self)
        ensures
            final(self).knowledge == match old(self).knowledge {
                KnowledgeState::Known => KnowledgeState::Known,
                KnowledgeState::Flag => KnowledgeState::Unknown,
                KnowledgeState::Unknown => KnowledgeState::Flag,
            },
            final(self).content == old(self).content,
            final(self).mined_neighbor_count == old(self).mined_neighbor_count,
            final(self).point == old(self).point,
    {
        let new_state = match self.knowledge {
            KnowledgeState::Known => KnowledgeState::Known,
            KnowledgeState::Flag => KnowledgeState::Unknown,
            KnowledgeState::Unknown => KnowledgeState::Flag,
        };
        self.knowledge = new_state;
    }

    /// Whether the cell counts as a mine: flagged, or known to hold one.
    pub fn is_assumed_mine(&self) -> (mine: bool)
        ensures
            mine == self.assumed_mine(),
    {
        match (self.knowledge, self.content) {
            (KnowledgeState::Unknown, _) => false,
            (KnowledgeState::Flag, _) => true,
            (KnowledgeState::Known, Content::Mine) => true,
            _ => false,
        }
    }

    /// Whether the cell is revealed and holds no mine.
    pub fn is_known_unmined(&self) -> (unmined: bool)
        ensures
            unmined == self.known_unmined(),
    {
        match (self.knowledge, self.content) {
            (KnowledgeState::Known, Content::Empty) => true,
            _ => false,
        }
    }
}

/// The largest number of cells that a board may have. The counts of cells and
/// mines are handed out as `i32`, and the mines that a move reveals are added
/// up in a `usize`: with this limit neither runs over.
pub const MAX_AREA: usize = 0x0fff_ffff;

/// The extent of a board.
#[derive(Debug, Clone, Copy)]
pub struct BoardSize {
    pub width: usize,
    pub height: usize,
}

impl BoardSize {
    /// The number of cells.
    pub open spec fn cells(self) -> int {
        self.width * self.height
    }

    /// The board is not too large.
    pub open spec fn wf(self) -> bool {
        self.cells() <= MAX_AREA
    }

    /// The cell with number `x`, counted row by row.
    pub open spec fn point_at(self, x: int) -> Point {
        Point((x / (self.width as int)) as usize, (x % (self.width as int)) as usize)
    }

    /// The number under which the cell of `point` is kept. The column wraps
    /// round at the width of the board.
    pub open spec fn number_of(self, point: Point) -> int {
        point.0 * self.width + (point.1 as int) % (self.width as int)
    }

    /// `point` passes for a point of the board: it has a number, and the number
    /// does not exceed the number of cells.
    pub open spec fn accepts(self, point: Point) -> bool {
        self.width > 0 && self.number_of(point) <= self.cells()
    }

    /// The board keeps a cell for `point`.
    pub open spec fn holds(self, point: Point) -> bool {
        self.width > 0 && self.number_of(point) < self.cells()
    }

    /// `point` lies within the rows and columns of the board.
    pub open spec fn contains(self, point: Point) -> bool {
        point.0 < self.height && point.1 < self.width
    }

    /// The extent of a board with `width` columns and `height` rows; `None`
    /// where that would be more than `MAX_AREA` cells.
    pub fn new(width: usize, height: usize) -> (size: Option<BoardSize>)
        ensures
            size == if width * height <= MAX_AREA {
                Some(BoardSize { width, height })
            } else {
                None
            },
    {
        if width == 0 || height == 0 {
            proof {
                assert(width * height == 0) by (nonlinear_arith)
                    requires
                        width == 0 || height == 0,
                ;
            }
            return Some(BoardSize { width, height });
        }
        if width > MAX_AREA || height > MAX_AREA / width {
            proof {
                assert(width * height > MAX_AREA) by (nonlinear_arith)
                    requires
                        width > 0,
                        height > 0,
                        width > MAX_AREA || height > MAX_AREA / width,
                ;
            }
            return None;
        }
        proof {
            assert(width * height <= MAX_AREA) by (nonlinear_arith)
                requires
                    width > 0,
                    width <= MAX_AREA,
                    height <= MAX_AREA / width,
            ;
        }
        Some(BoardSize { width, height })
    }

    /// The number of cells.
    pub fn area(&self) -> (area: usize)
        requires
            self.wf(),
        ensures
            area == self.cells(),
    {
        proof {
            assert(0 <= self.width * self.height) by (nonlinear_arith);
        }
        self.width * self.height
    }

    /// The point of the cell with number `x`; `None` where there is no such
    /// cell.
    pub fn point_from_integer(&self, x: usize) -> (point: Option<Point>)
        requires
            self.wf(),
        ensures
            point == if x < self.cells() {
                Some(self.point_at(x as int))
            } else {
                None
            },
            point matches Some(p) ==> self.contains(p) && self.number_of(p) == x,
    {
        if x >= self.area() {
            return None;
        }
        proof {
            self.lemma_point_at(x as int);
        }
        Some(Point(x / self.width, x % self.width))
    }

    /// The number under which the cell of `point` is kept; `None` where the
    /// number would exceed the number of cells, or where the board has no
    /// columns.
    pub fn integer_from_point(&self, point: &Point) -> (number: Option<usize>)
        requires
            self.wf(),
        ensures
            number == if self.accepts(*point) {
                Some(self.number_of(*point) as usize)
            } else {
                None
            },
    {
        if self.width == 0 {
            return None;
        }
        let area = self.area();
        let column = point.1 % self.width;
        proof {
            assert(point.0 * self.width <= 0xffff_ffff_ffff_ffff * 0xffff_ffff_ffff_ffff)
                by (nonlinear_arith)
                requires
                    0 <= point.0 <= 0xffff_ffff_ffff_ffff,
                    0 <= self.width <= 0xffff_ffff_ffff_ffff,
            ;
            assert(0 <= point.0 * self.width) by (nonlinear_arith);
        }
        let x = point.0 as u128 * self.width as u128 + column as u128;
        if x > area as u128 {
            None
        } else {
            Some(x as usize)
        }
    }

    /// Whether `point` passes for a point of the board.
    pub fn point_is_in_bounds(&self, point: &Point) -> (inside: bool)
        requires
            self.wf(),
        ensures
            inside == self.accepts(*point),
    {
        self.integer_from_point(point).is_some()
    }

    /// All points of the board, row by row.
    pub fn points(&self) -> (points: Vec<Point>)
        requires
            self.wf(),
        ensures
            points.len() == self.cells(),
            forall|x: int| 0 <= x < points.len() ==> #[trigger] points[x] == self.point_at(x),
    {
        let area = self.area();
        let mut points: Vec<Point> = Vec::new();
        let mut x: usize = 0;
        while x < area
            invariant
                self.wf(),
                area == self.cells(),
                x <= area,
                points.len() == x,
                forall|y: int| 0 <= y < x ==> #[trigger] points[y] == self.point_at(y),
            decreases area - x,
        {
            match self.point_from_integer(x) {
                Some(point) => {
                    points.push(point);
                },
                None => {},
            }
            x = x + 1;
        }
        points
    }

    /// The cell with number `x` lies on the board, and `x` is its number.
    pub proof fn lemma_point_at(self, x: int)
        requires
            0 <= x < self.cells(),
        ensures
            self.width > 0,
            self.contains(self.point_at(x)),
            self.number_of(self.point_at(x)) == x,
            self.point_at(x).0 == x / self.width as int,
            self.point_at(x).1 == x % self.width as int,
    {
        let w = self.width as int;
        let h = self.height as int;
        assert(w > 0) by (nonlinear_arith)
            requires
                0 <= x < w * h,
                w >= 0,
        ;
        assert(0 <= x / w < h && 0 <= x % w < w && (x / w) * w + x % w == x) by (nonlinear_arith)
            requires
                0 <= x < w * h,
                w > 0,
        ;
        assert((x % w) % w == x % w) by (nonlinear_arith)
            requires
                w > 0,
                0 <= x % w < w,
        ;
    }

    /// A point within the rows and columns has a cell; its number is row
    /// times width plus column, and it is the point of that number.
    pub proof fn lemma_contained(self, point: Point)
        requires
            self.contains(point),
        ensures
            self.holds(point),
            self.number_of(point) == point.0 * self.width + point.1,
            0 <= self.number_of(point) < self.cells(),
            self.point_at(self.number_of(point)) == point,
    {
        let w = self.width as int;
        let h = self.height as int;
        let r = point.0 as int;
        let c = point.1 as int;
        assert(c % w == c) by (nonlinear_arith)
            requires
                0 <= c < w,
        ;
        assert(0 <= r * w + c < w * h) by (nonlinear_arith)
            requires
                0 <= r < h,
                0 <= c < w,
        ;
        assert((r * w + c) / w == r && (r * w + c) % w == c) by (nonlinear_arith)
            requires
                0 <= c < w,
                0 <= r,
        ;
    }
}


/// `q` is one of the eight cells around `p`.
pub open spec fn adjacent(p: Point, q: Point) -> bool {
    &&& gap(p.0 as int, q.0 as int) <= 1
    &&& gap(p.1 as int, q.1 as int) <= 1
    &&& p != q
}

/// The point `dr - 1` rows and `dc - 1` columns from `p`, where that is
/// another point within `size`.
pub open spec fn shifted(size: BoardSize, p: Point, dr: int, dc: int) -> Option<Point> {
    let r = p.0 + dr - 1;
    let c = p.1 + dc - 1;
    if 0 <= r < size.height && 0 <= c < size.width && !(dr == 1 && dc == 1) {
        Some(Point(r as usize, c as usize))
    } else {
        None
    }
}

/// The neighbours of `p` among the first `n` of the nine places of the three
/// rows around `p`, taken row by row.
pub open spec fn neighbors_upto(size: BoardSize, p: Point, n: int) -> Seq<Point>
    decreases n,
{
    if n <= 0 {
        Seq::empty()
    } else {
        let rest = neighbors_upto(size, p, n - 1);
        match shifted(size, p, (n - 1) / 3, (n - 1) % 3) {
            Some(q) => rest.push(q),
            None => rest,
        }
    }
}

/// The cells around `p` that lie within `size`: up to eight, row by row.
pub open spec fn neighbors(size: BoardSize, p: Point) -> Seq<Point> {
    neighbors_upto(size, p, 9)
}

/// The neighbours of a point are the points of the board next to it, each
/// once.
pub proof fn lemma_neighbors(size: BoardSize, p: Point)
    ensures
        neighbors(size, p).len() <= 8,
        neighbors(size, p).no_duplicates(),
        forall|q: Point| #[trigger]
            neighbors(size, p).contains(q) <==> size.contains(q) && adjacent(p, q),
{
    reveal_with_fuel(neighbors_upto, 10);
    let s = neighbors(size, p);
    assert forall|q: Point| size.contains(q) && adjacent(p, q) implies #[trigger] s.contains(q) by {
        let dr = q.0 - p.0 + 1;
        let dc = q.1 - p.1 + 1;
        let n = dr * 3 + dc + 1;
        assert(shifted(size, p, dr, dc) == Some(q));
        lemma_neighbors_keep(size, p, n);
    }
    assert forall|q: Point| #[trigger] s.contains(q) implies size.contains(q) && adjacent(p, q) by {
        lemma_neighbors_from(size, p, 9, q);
    }
    lemma_neighbors_distinct(size, p, 9);
}

/// What stands at the `n`-th place is among the neighbours.
proof fn lemma_neighbors_keep(size: BoardSize, p: Point, n: int)
    requires
        1 <= n <= 9,
        shifted(size, p, (n - 1) / 3, (n - 1) % 3) is Some,
    ensures
        neighbors(size, p).contains(shifted(size, p, (n - 1) / 3, (n - 1) % 3)->0),
{
    let q = shifted(size, p, (n - 1) / 3, (n - 1) % 3)->0;
    let at = neighbors_upto(size, p, n);
    assert(at.last() == q);
    assert(at.contains(q));
    lemma_neighbors_grow(size, p, n, 9, q);
}

/// What is among the first `n` places is among the first `m`, for `m` from
/// `n` on.
proof fn lemma_neighbors_grow(size: BoardSize, p: Point, n: int, m: int, q: Point)
    requires
        0 <= n <= m,
        neighbors_upto(size, p, n).contains(q),
    ensures
        neighbors_upto(size, p, m).contains(q),
    decreases m - n,
{
    if n < m {
        lemma_neighbors_grow(size, p, n, m - 1, q);
        let rest = neighbors_upto(size, p, m - 1);
        let i = choose|i: int| 0 <= i < rest.len() && rest[i] == q;
        assert(neighbors_upto(size, p, m)[i] == q);
    }
}

/// Whatever is among the first `n` places lies on the board, next to `p`, and
/// is the shift of one of these places.
proof fn lemma_neighbors_from(size: BoardSize, p: Point, n: int, q: Point)
    requires
        0 <= n <= 9,
        neighbors_upto(size, p, n).contains(q),
    ensures
        size.contains(q),
        adjacent(p, q),
        exists|k: int| 1 <= k <= n && #[trigger] shifted(size, p, (k - 1) / 3, (k - 1) % 3) == Some(q),
    decreases n,
{
    if n > 0 {
        let rest = neighbors_upto(size, p, n - 1);
        let here = shifted(size, p, (n - 1) / 3, (n - 1) % 3);
        if rest.contains(q) {
            lemma_neighbors_from(size, p, n - 1, q);
            let k = choose|k: int|
                1 <= k <= n - 1 && #[trigger] shifted(size, p, (k - 1) / 3, (k - 1) % 3) == Some(q);
            assert(1 <= k <= n && shifted(size, p, (k - 1) / 3, (k - 1) % 3) == Some(q));
        } else {
            let all = neighbors_upto(size, p, n);
            let i = choose|i: int| 0 <= i < all.len() && all[i] == q;
            if i < rest.len() {
                assert(rest[i] == q);
            }
            assert(here == Some(q));
        }
    }
}

/// No point stands at two of the first `n` places.
proof fn lemma_neighbors_distinct(size: BoardSize, p: Point, n: int)
    requires
        0 <= n <= 9,
    ensures
        neighbors_upto(size, p, n).no_duplicates(),
        neighbors_upto(size, p, n).len() <= n,
        n >= 5 ==> neighbors_upto(size, p, n).len() <= n - 1,
    decreases n,
{
    if n > 0 {
        lemma_neighbors_distinct(size, p, n - 1);
        let rest = neighbors_upto(size, p, n - 1);
        match shifted(size, p, (n - 1) / 3, (n - 1) % 3) {
            Some(q) => {
                if rest.contains(q) {
                    lemma_neighbors_from(size, p, n - 1, q);
                    let k = choose|k: int|
                        1 <= k <= n - 1 && #[trigger] shifted(size, p, (k - 1) / 3, (k - 1) % 3)
                            == Some(q);
                    assert(false);
                }
            },
            None => {},
        }
    }
}

/// A question that is put to a cell.
#[derive(Debug, Clone, Copy, PartialEq, Eq, Structural)]
pub enum CellTest {
    /// The cell is revealed.
    Known,
    /// The cell is not revealed: unknown or flagged.
    Hidden,
    /// The cell is flagged.
    Flag,
    /// Nothing is known of the cell, and it is not flagged.
    Unknown,
    /// The cell counts as a mine.
    AssumedMine,
    /// The cell is not revealed as empty.
    Suspect,
}

impl CellTest {
    /// The answer for `cell`.
    pub open spec fn passes(self, cell: Cell) -> bool {
        match self {
            CellTest::Known => cell.knowledge is Known,
            CellTest::Hidden => !(cell.knowledge is Known),
            CellTest::Flag => cell.knowledge is Flag,
            CellTest::Unknown => cell.knowledge is Unknown,
            CellTest::AssumedMine => cell.assumed_mine(),
            CellTest::Suspect => !cell.known_unmined(),
        }
    }

    /// The answer for `cell`.
    pub fn test(&self, cell: &Cell) -> (pass: bool)
        ensures
            pass == self.passes(*cell),
    {
        match self {
            CellTest::Known => cell.knowledge.is_known(),
            CellTest::Hidden => !cell.knowledge.is_known(),
            CellTest::Flag => cell.knowledge.is_flag(),
            CellTest::Unknown => cell.knowledge.is_unknown(),
            CellTest::AssumedMine => cell.is_assumed_mine(),
            CellTest::Suspect => !cell.is_known_unmined(),
        }
    }
}

/// How many of `cells` pass `test`.
pub open spec fn count_passing(cells: Seq<Cell>, test: CellTest) -> nat
    decreases cells.len(),
{
    if cells.len() == 0 {
        0
    } else {
        count_passing(cells.drop_last(), test) + if test.passes(cells.last()) {
            1nat
        } else {
            0nat
        }
    }
}

/// At most every cell passes.
pub proof fn lemma_count_passing_bound(cells: Seq<Cell>, test: CellTest)
    ensures
        count_passing(cells, test) <= cells.len(),
    decreases cells.len(),
{
    if cells.len() > 0 {
        lemma_count_passing_bound(cells.drop_last(), test);
    }
}

/// One cell more is counted where it passes.
pub proof fn lemma_count_passing_take(cells: Seq<Cell>, test: CellTest, i: int)
    requires
        0 <= i < cells.len(),
    ensures
        count_passing(cells.take(i + 1), test) == count_passing(cells.take(i), test) + if test.passes(
            cells[i],
        ) {
            1nat
        } else {
            0nat
        },
{
    assert(cells.take(i + 1).drop_last() =~= cells.take(i));
}

/// Some cell passes exactly where the count is not zero.
pub proof fn lemma_count_passing_some(cells: Seq<Cell>, test: CellTest)
    ensures
        count_passing(cells, test) > 0 <==> exists|i: int|
            0 <= i < cells.len() && test.passes(#[trigger] cells[i]),
    decreases cells.len(),
{
    if cells.len() > 0 {
        let rest = cells.drop_last();
        lemma_count_passing_some(rest, test);
        if count_passing(cells, test) > 0 {
            if test.passes(cells.last()) {
                assert(test.passes(cells[cells.len() - 1]));
            } else {
                let i = choose|i: int| 0 <= i < rest.len() && test.passes(#[trigger] rest[i]);
                assert(test.passes(cells[i]));
            }
        }
        if exists|i: int| 0 <= i < cells.len() && test.passes(#[trigger] cells[i]) {
            let i = choose|i: int| 0 <= i < cells.len() && test.passes(#[trigger] cells[i]);
            if i < rest.len() {
                assert(test.passes(rest[i]));
            }
        }
    }
}

/// The points of those of `cells` that pass `test`, in order.
pub open spec fn points_passing(cells: Seq<Cell>, test: CellTest) -> Seq<Point>
    decreases cells.len(),
{
    if cells.len() == 0 {
        Seq::empty()
    } else {
        let rest = points_passing(cells.drop_last(), test);
        if test.passes(cells.last()) {
            rest.push(cells.last().point)
        } else {
            rest
        }
    }
}

/// One cell more adds its point where it passes.
pub proof fn lemma_points_passing_take(cells: Seq<Cell>, test: CellTest, i: int)
    requires
        0 <= i < cells.len(),
    ensures
        points_passing(cells.take(i + 1), test) == if test.passes(cells[i]) {
            points_passing(cells.take(i), test).push(cells[i].point)
        } else {
            points_passing(cells.take(i), test)
        },
{
    assert(cells.take(i + 1).drop_last() =~= cells.take(i));
}

/// The points that pass are the points of the cells that pass; they are as
/// many as `count_passing` says, and distinct where the cells' points are.
pub proof fn lemma_points_passing(cells: Seq<Cell>, test: CellTest)
    ensures
        points_passing(cells, test).len() == count_passing(cells, test),
        forall|p: Point| #[trigger]
            points_passing(cells, test).contains(p) <==> exists|i: int|
                0 <= i < cells.len() && (#[trigger] cells[i]).point == p && test.passes(cells[i]),
        (forall|i: int, j: int|
            0 <= i < j < cells.len() ==> (#[trigger] cells[i]).point != (#[trigger] cells[j]).point)
            ==> points_passing(cells, test).no_duplicates(),
    decreases cells.len(),
{
    let all = points_passing(cells, test);
    if cells.len() > 0 {
        let rest_cells = cells.drop_last();
        let rest = points_passing(rest_cells, test);
        let last = cells.last();
        lemma_points_passing(rest_cells, test);
        assert forall|p: Point| #[trigger] all.contains(p) implies exists|i: int|
            0 <= i < cells.len() && (#[trigger] cells[i]).point == p && test.passes(cells[i]) by {
            let k = choose|k: int| 0 <= k < all.len() && all[k] == p;
            if k < rest.len() {
                assert(rest[k] == p);
                assert(rest.contains(p));
                let i = choose|i: int|
                    0 <= i < rest_cells.len() && (#[trigger] rest_cells[i]).point == p
                        && test.passes(rest_cells[i]);
                assert(cells[i].point == p && test.passes(cells[i]));
            } else {
                assert(cells[cells.len() - 1].point == p);
            }
        }
        assert forall|p: Point|
            (exists|i: int|
                0 <= i < cells.len() && (#[trigger] cells[i]).point == p && test.passes(
                    cells[i],
                )) implies #[trigger] all.contains(p) by {
            let i = choose|i: int|
                0 <= i < cells.len() && (#[trigger] cells[i]).point == p && test.passes(cells[i]);
            if i < rest_cells.len() {
                assert(rest_cells[i].point == p && test.passes(rest_cells[i]));
                assert(rest.contains(p));
                let k = choose|k: int| 0 <= k < rest.len() && rest[k] == p;
                assert(all[k] == p);
            } else {
                assert(all[all.len() - 1] == p);
            }
        }
        if forall|i: int, j: int|
            0 <= i < j < cells.len() ==> (#[trigger] cells[i]).point != (#[trigger] cells[j]).point {
            assert forall|i: int, j: int| 0 <= i < j < rest_cells.len() implies (
            #[trigger] rest_cells[i]).point != (#[trigger] rest_cells[j]).point by {
                assert(cells[i].point != cells[j].point);
            }
            if test.passes(last) {
                if rest.contains(last.point) {
                    let i = choose|i: int|
                        0 <= i < rest_cells.len() && (#[trigger] rest_cells[i]).point == last.point
                            && test.passes(rest_cells[i]);
                    assert(cells[i].point != cells[cells.len() - 1].point);
                }
            }
        }
    }
}

/// The cells of a board of extent `size` on which nothing has happened.
pub open spec fn blank(size: BoardSize) -> Seq<Cell> {
    Seq::new(
        size.cells() as nat,
        |x: int|
            Cell {
                content: Content::Empty,
                mined_neighbor_count: 0,
                knowledge: KnowledgeState::Unknown,
                point: size.point_at(x),
            },
    )
}

/// The cells after a mine is laid at `p`: the cell of `p` holds a mine, and
/// every cell around `p` counts one mine more.
pub open spec fn mined_at(cells: Seq<Cell>, size: BoardSize, p: Point) -> Seq<Cell> {
    Seq::new(
        cells.len(),
        |x: int|
            Cell {
                content: if x == size.number_of(p) {
                    Content::Mine
                } else {
                    cells[x].content
                },
                mined_neighbor_count: (cells[x].mined_neighbor_count + if neighbors(size, p).contains(
                    size.point_at(x),
                ) {
                    1int
                } else {
                    0int
                }) as usize,
                knowledge: cells[x].knowledge,
                point: cells[x].point,
            },
    )
}

/// The cells after mines are laid at the first `n` of `mines`, one after the
/// other.
pub open spec fn laid(cells: Seq<Cell>, size: BoardSize, mines: Seq<Point>, n: int) -> Seq<Cell>
    decreases n,
{
    if n <= 0 {
        cells
    } else {
        mined_at(laid(cells, size, mines, n - 1), size, mines[n - 1])
    }
}

/// The cell with number `x` lies more than `radius` steps from `from`.
pub open spec fn far(size: BoardSize, from: Point, radius: usize, x: usize) -> bool {
    king_distance(from, size.point_at(x as int)) > radius
}

/// How many of `numbers` are numbers of cells far from `from`.
pub open spec fn count_far(size: BoardSize, from: Point, radius: usize, numbers: Seq<usize>) -> nat
    decreases numbers.len(),
{
    if numbers.len() == 0 {
        0
    } else {
        count_far(size, from, radius, numbers.drop_last()) + if far(
            size,
            from,
            radius,
            numbers.last(),
        ) {
            1nat
        } else {
            0nat
        }
    }
}

/// The numbers from 0 up to `n`.
pub open spec fn numbers_below(n: nat) -> Seq<usize> {
    Seq::new(n, |x: int| x as usize)
}

/// How many cells of the board lie more than `radius` steps from `from`.
pub open spec fn room(size: BoardSize, from: Point, radius: usize) -> nat {
    count_far(size, from, radius, numbers_below(size.cells() as nat))
}

/// `points` are `n` distinct points of the board, each more than `radius`
/// steps from `from`.
pub open spec fn is_spread(
    points: Seq<Point>,
    size: BoardSize,
    n: int,
    from: Point,
    radius: usize,
) -> bool {
    &&& points.len() == n
    &&& points.no_duplicates()
    &&& forall|i: int|
        0 <= i < points.len() ==> size.contains(#[trigger] points[i]) && king_distance(
            from,
            points[i],
        ) > radius
}

/// The far cells among `numbers` are as many as the far members of the
/// multiset of `numbers`.
proof fn lemma_count_far_multiset(size: BoardSize, from: Point, radius: usize, numbers: Seq<usize>)
    ensures
        count_far(size, from, radius, numbers) == numbers.to_multiset().filter(
            |x: usize| far(size, from, radius, x),
        ).len(),
    decreases numbers.len(),
{
    broadcast use vstd::multiset::group_multiset_axioms;

    let f = |x: usize| far(size, from, radius, x);
    if numbers.len() == 0 {
        numbers.to_multiset_ensures();
        assert(numbers.to_multiset() =~= Multiset::<usize>::empty());
        assert(numbers.to_multiset().filter(f) =~= Multiset::<usize>::empty());
    } else {
        let rest = numbers.drop_last();
        let last = numbers.last();
        lemma_count_far_multiset(size, from, radius, rest);
        assert(numbers =~= rest.push(last));
        rest.to_multiset_ensures();
        assert(numbers.to_multiset() =~= rest.to_multiset().insert(last));
        if f(last) {
            assert(numbers.to_multiset().filter(f) =~= rest.to_multiset().filter(f).insert(last));
        } else {
            assert(numbers.to_multiset().filter(f) =~= rest.to_multiset().filter(f));
        }
    }
}

/// A prefix holds no more far cells than the whole.
proof fn lemma_count_far_take(size: BoardSize, from: Point, radius: usize, numbers: Seq<usize>, i: int)
    requires
        0 <= i <= numbers.len(),
    ensures
        count_far(size, from, radius, numbers.take(i)) <= count_far(size, from, radius, numbers),
        i < numbers.len() ==> count_far(size, from, radius, numbers.take(i + 1)) == count_far(
            size,
            from,
            radius,
            numbers.take(i),
        ) + if far(size, from, radius, numbers[i]) {
            1nat
        } else {
            0nat
        },
    decreases numbers.len() - i,
{
    if i < numbers.len() {
        assert(numbers.take(i + 1).drop_last() =~= numbers.take(i));
        lemma_count_far_take(size, from, radius, numbers, i + 1);
    } else {
        assert(numbers.take(i) =~= numbers);
    }
}

/// `p` is the point of one of the first `i` of `numbers`.
pub open spec fn drawn(p: Point, size: BoardSize, numbers: Seq<usize>, i: int) -> bool {
    exists|k: int| 0 <= k < i && k < numbers.len() && size.point_at(#[trigger] numbers[k] as int) == p
}

/// `n` points of the board, picked at random among those that lie more than
/// `disallowed_radius` steps from `disallowed`; `None` where these are fewer
/// than `n`.
pub fn sample_points(size: &BoardSize, n: usize, disallowed: &Point, disallowed_radius: usize) -> (points:
    Option<Vec<Point>>)
    requires
        size.wf(),
    ensures
        points is Some <==> n <= room(*size, *disallowed, disallowed_radius),
        points matches Some(v) ==> is_spread(v@, *size, n as int, *disallowed, disallowed_radius),
{
    let area = size.area();
    let mut possible: Vec<usize> = Vec::new();
    let mut x: usize = 0;
    while x < area
        invariant
            x <= area,
            possible@ == numbers_below(x as nat),
        decreases area - x,
    {
        possible.push(x);
        proof {
            assert(possible@ =~= numbers_below((x + 1) as nat));
        }
        x = x + 1;
    }
    let ghost ordered = possible@;
    shuffle_numbers(&mut possible);
    let ghost numbers = possible@;
    proof {
        broadcast use vstd::seq_lib::group_to_multiset_ensures;

        lemma_count_far_multiset(*size, *disallowed, disallowed_radius, ordered);
        lemma_count_far_multiset(*size, *disallowed, disallowed_radius, numbers);
        assert(ordered.no_duplicates());
        ordered.lemma_multiset_has_no_duplicates();
        numbers.lemma_multiset_has_no_duplicates_conv();
        assert forall|k: int| 0 <= k < numbers.len() implies (#[trigger] numbers[k]) < area by {
            assert(numbers.contains(numbers[k]));
            assert(numbers.to_multiset().count(numbers[k]) > 0);
            assert(ordered.to_multiset().count(numbers[k]) > 0);
            assert(ordered.contains(numbers[k]));
        }
    }
    let mut points: Vec<Point> = Vec::new();
    let mut i: usize = 0;
    while i < possible.len() && points.len() < n
        invariant
            size.wf(),
            area == size.cells(),
            numbers == possible@,
            numbers.no_duplicates(),
            forall|k: int| 0 <= k < numbers.len() ==> (#[trigger] numbers[k]) < area,
            i <= possible.len(),
            points.len() <= n,
            points.len() == count_far(*size, *disallowed, disallowed_radius, numbers.take(i as int)),
            points@.no_duplicates(),
            forall|j: int| 0 <= j < points.len() ==> drawn(#[trigger] points[j], *size, numbers, i as int),
            forall|j: int|
                0 <= j < points.len() ==> size.contains(#[trigger] points[j]) && king_distance(
                    *disallowed,
                    points[j],
                ) > disallowed_radius,
        decreases possible.len() - i,
    {
        proof {
            lemma_count_far_take(*size, *disallowed, disallowed_radius, numbers, i as int);
            size.lemma_point_at(numbers[i as int] as int);
        }
        match size.point_from_integer(possible[i]) {
            Some(point) => {
                if disallowed.distance(&point) > disallowed_radius {
                    proof {
                        if points@.contains(point) {
                            let j = choose|j: int| 0 <= j < points.len() && points[j] == point;
                            assert(drawn(points[j], *size, numbers, i as int));
                            let k = choose|k: int|
                                0 <= k < i && k < numbers.len() && size.point_at(
                                    #[trigger] numbers[k] as int,
                                ) == point;
                            size.lemma_point_at(numbers[k] as int);
                            assert(numbers[k] == numbers[i as int]);
                        }
                    }
                    points.push(point);
                }
            },
            None => {},
        }
        proof {
            assert forall|j: int| 0 <= j < points.len() implies drawn(
                #[trigger] points[j],
                *size,
                numbers,
                i + 1,
            ) by {
                if j < points.len() - 1 || !(king_distance(*disallowed, size.point_at(numbers[i as int] as int))
                    > disallowed_radius) {
                    assert(drawn(points[j], *size, numbers, i as int));
                    let k = choose|k: int|
                        0 <= k < i && k < numbers.len() && size.point_at(#[trigger] numbers[k] as int)
                            == points[j];
                    assert(0 <= k < i + 1);
                } else {
                    assert(size.point_at(numbers[i as int] as int) == points[j]);
                }
            }
        }
        i = i + 1;
    }
    proof {
        lemma_count_far_take(*size, *disallowed, disallowed_radius, numbers, i as int);
        if i == possible.len() {
            assert(numbers.take(i as int) =~= numbers);
        }
    }
    if points.len() == n {
        Some(points)
    } else {
        None
    }
}

/// The cell that `cells` keeps for `p`.
pub open spec fn cell_of(cells: Seq<Cell>, size: BoardSize, p: Point) -> Cell {
    cells[size.number_of(p)]
}

/// Revealing goes on from the cell of `p`: it is empty, not revealed, and no
/// mine lies around it.
pub open spec fn spreads(cells: Seq<Cell>, size: BoardSize, p: Point) -> bool {
    let c = cell_of(cells, size, p);
    c.content is Empty && !(c.knowledge is Known) && c.mined_neighbor_count == 0
}

/// `q` is reached from `start` in `k` steps, each from a cell from which
/// revealing goes on to one of the cells around it.
pub open spec fn reaches(cells: Seq<Cell>, size: BoardSize, start: Point, q: Point, k: int) -> bool
    decreases k,
{
    if k <= 0 {
        q == start
    } else {
        exists|m: Point|
            reaches(cells, size, start, m, k - 1) && spreads(cells, size, m)
                && #[trigger] neighbors(size, m).contains(q)
    }
}

/// `q` belongs to what a click on `start` reveals.
pub open spec fn in_region(cells: Seq<Cell>, size: BoardSize, start: Point, q: Point) -> bool {
    exists|k: int| reaches(cells, size, start, q, k)
}

/// Every cell around `p` is marked.
pub open spec fn around_marked(mask: Seq<bool>, size: BoardSize, p: Point) -> bool {
    forall|q: Point| #[trigger] neighbors(size, p).contains(q) ==> mask[size.number_of(q)]
}

/// Every marked cell that is not in `pending`, and from which revealing
/// goes on, has all cells around it marked.
pub open spec fn closed_under_spread(
    cells: Seq<Cell>,
    size: BoardSize,
    mask: Seq<bool>,
    pending: Set<Point>,
) -> bool {
    forall|x: int|
        0 <= x < mask.len() && #[trigger] mask[x] && !pending.contains(size.point_at(x)) && spreads(
            cells,
            size,
            size.point_at(x),
        ) ==> around_marked(mask, size, size.point_at(x))
}

/// Every marked cell belongs to what a click on `start` reveals.
pub open spec fn marks_region_only(
    cells: Seq<Cell>,
    size: BoardSize,
    mask: Seq<bool>,
    start: Point,
) -> bool {
    forall|x: int| 0 <= x < mask.len() && #[trigger] mask[x] ==> in_region(cells, size, start, size.point_at(x))
}

/// How many entries of `mask` are not set.
pub open spec fn unmarked(mask: Seq<bool>) -> nat
    decreases mask.len(),
{
    if mask.len() == 0 {
        0
    } else {
        unmarked(mask.drop_last()) + if mask.last() {
            0nat
        } else {
            1nat
        }
    }
}

/// Marking an entry that was not set leaves one fewer unmarked.
pub proof fn lemma_unmarked_set(mask: Seq<bool>, index: int)
    requires
        0 <= index < mask.len(),
        !mask[index],
    ensures
        unmarked(mask.update(index, true)) + 1 == unmarked(mask),
    decreases mask.len(),
{
    let after = mask.update(index, true);
    if index == mask.len() - 1 {
        assert(after.drop_last() =~= mask.drop_last());
    } else {
        lemma_unmarked_set(mask.drop_last(), index);
        assert(after.drop_last() =~= mask.drop_last().update(index, true));
    }
}

/// What is reached from a point of the region belongs to the region.
pub proof fn lemma_region_step(cells: Seq<Cell>, size: BoardSize, start: Point, m: Point, q: Point)
    requires
        in_region(cells, size, start, m),
        spreads(cells, size, m),
        neighbors(size, m).contains(q),
    ensures
        in_region(cells, size, start, q),
{
    let k = choose|k: int| reaches(cells, size, start, m, k);
    if k <= 0 {
        assert(reaches(cells, size, start, m, 1 - 1));
        assert(reaches(cells, size, start, q, 1));
    } else {
        let next = k + 1;
        assert(reaches(cells, size, start, m, next - 1));
        assert(reaches(cells, size, start, q, next));
    }
}

/// A mask that is closed under spreading, and that marks what lies around
/// the start, marks every cell of the region but perhaps the start.
pub proof fn lemma_region_marked(
    cells: Seq<Cell>,
    size: BoardSize,
    mask: Seq<bool>,
    start: Point,
    q: Point,
    k: int,
)
    requires
        mask.len() == size.cells(),
        closed_under_spread(cells, size, mask, Set::empty()),
        spreads(cells, size, start) ==> around_marked(mask, size, start),
        reaches(cells, size, start, q, k),
    ensures
        q == start || (size.contains(q) && mask[size.number_of(q)]),
    decreases k,
{
    if k > 0 {
        let m = choose|m: Point|
            reaches(cells, size, start, m, k - 1) && spreads(cells, size, m)
                && #[trigger] neighbors(size, m).contains(q);
        lemma_region_marked(cells, size, mask, start, m, k - 1);
        lemma_neighbors(size, m);
        assert(neighbors(size, m).contains(q));
        if m != start {
            size.lemma_contained(m);
            let x = size.number_of(m);
            assert(mask[x]);
            assert(!Set::<Point>::empty().contains(size.point_at(x)));
            assert(around_marked(mask, size, size.point_at(x)));
        }
    }
}

/// The cell counts as a revealed mine once it is clicked: it holds a mine
/// and carries no flag.
pub open spec fn is_hit(cell: Cell) -> bool {
    cell.content is Mine && !(cell.knowledge is Flag)
}

/// How many of the first `n` cells belong to what a click on `start`
/// reveals, hold a mine and carry no flag.
pub open spec fn hits_upto(cells: Seq<Cell>, size: BoardSize, start: Point, n: int) -> nat
    decreases n,
{
    if n <= 0 {
        0
    } else {
        hits_upto(cells, size, start, n - 1) + if in_region(cells, size, start, size.point_at(n - 1))
            && is_hit(cells[n - 1]) {
            1nat
        } else {
            0nat
        }
    }
}

/// The mines that a click on `start` reveals: those of the region, and the
/// one in the cell of `start` itself where `start` lies beyond the columns
/// of the board.
pub open spec fn hits_of(cells: Seq<Cell>, size: BoardSize, start: Point) -> nat {
    hits_upto(cells, size, start, cells.len() as int) + if !size.contains(start) && is_hit(
        cell_of(cells, size, start),
    ) {
        1nat
    } else {
        0nat
    }
}

/// The cells after a click on `start`: the unknown cells of the region, and
/// the cell of `start`, are revealed.
pub open spec fn revealed_from(cells: Seq<Cell>, size: BoardSize, start: Point) -> Seq<Cell> {
    Seq::new(
        cells.len(),
        |x: int|
            if (in_region(cells, size, start, size.point_at(x)) || x == size.number_of(start))
                && cells[x].knowledge is Unknown {
                Cell { knowledge: KnowledgeState::Known, ..cells[x] }
            } else {
                cells[x]
            },
    )
}

/// No more mines are revealed than there are cells, and the start.
pub proof fn lemma_hits_bound(cells: Seq<Cell>, size: BoardSize, start: Point, n: int)
    requires
        0 <= n,
    ensures
        hits_upto(cells, size, start, n) <= n,
    decreases n,
{
    if n > 0 {
        lemma_hits_bound(cells, size, start, n - 1);
    }
}

/// `after` and `hits` are what a click on `point` makes of `cells`.
pub open spec fn clicked(
    cells: Seq<Cell>,
    size: BoardSize,
    point: Point,
    after: Seq<Cell>,
    hits: nat,
) -> bool {
    after == revealed_from(cells, size, point) && hits == hits_of(cells, size, point)
}

/// `after` is `cells` with `mine_count` mines laid at distinct points of
/// the board, each more than two steps from `point`.
pub open spec fn laid_clear_of(
    cells: Seq<Cell>,
    size: BoardSize,
    mine_count: usize,
    point: Point,
    after: Seq<Cell>,
) -> bool {
    exists|mines: Seq<Point>| #[trigger]
        is_spread(mines, size, mine_count as int, point, 2) && after == laid(
            cells,
            size,
            mines,
            mine_count as int,
        )
}

/// `after` and `hits` are what the first click of a game makes of `cells`:
/// the mines are laid clear of `point`, then `point` is clicked.
pub open spec fn first_click(
    cells: Seq<Cell>,
    size: BoardSize,
    mine_count: usize,
    point: Point,
    after: Seq<Cell>,
    hits: nat,
) -> bool {
    exists|mined: Seq<Cell>| #[trigger]
        laid_clear_of(cells, size, mine_count, point, mined) && clicked(
            mined,
            size,
            point,
            after,
            hits,
        )
}

/// The cells after clicks on the first `n` of `around`, one after the other.
pub open spec fn chord_cells(cells: Seq<Cell>, size: BoardSize, around: Seq<Point>, n: int) -> Seq<Cell>
    decreases n,
{
    if n <= 0 {
        cells
    } else {
        revealed_from(chord_cells(cells, size, around, n - 1), size, around[n - 1])
    }
}

/// The mines that clicks on the first `n` of `around`, one after the other,
/// reveal.
pub open spec fn chord_hits(cells: Seq<Cell>, size: BoardSize, around: Seq<Point>, n: int) -> nat
    decreases n,
{
    if n <= 0 {
        0
    } else {
        chord_hits(cells, size, around, n - 1) + hits_of(
            chord_cells(cells, size, around, n - 1),
            size,
            around[n - 1],
        )
    }
}

/// `after` and `hits` are what a chord that starts a game makes of `cells`:
/// the mines are laid clear of the first of `around`, then the cells of
/// `around` are clicked one after the other.
pub open spec fn first_chord(
    cells: Seq<Cell>,
    size: BoardSize,
    mine_count: usize,
    around: Seq<Point>,
    after: Seq<Cell>,
    hits: nat,
) -> bool {
    exists|mined: Seq<Cell>| #[trigger]
        laid_clear_of(cells, size, mine_count, around[0], mined) && after == chord_cells(
            mined,
            size,
            around,
            around.len() as int,
        ) && hits == chord_hits(mined, size, around, around.len() as int)
}

/// The game: the cells row by row, the number of mines, and whether the mines
/// have been laid.
pub struct Board {
    pub size: BoardSize,
    pub field: Vec<Cell>,
    pub mine_count: usize,
    pub initialized: bool,
}

/// One step along a row or a column: `v + d - 1`, where that is a `usize`.
fn shift(v: usize, d: usize) -> (moved: Option<usize>)
    requires
        d <= 2,
    ensures
        moved == if 0 <= v + d - 1 <= usize::MAX {
            Some((v + d - 1) as usize)
        } else {
            None
        },
{
    if d == 0 {
        if v == 0 {
            None
        } else {
            Some(v - 1)
        }
    } else if d == 1 {
        Some(v)
    } else {
        if v == usize::MAX {
            None
        } else {
            Some(v + 1)
        }
    }
}

impl Board {
    /// There is a cell for each number up to the area, and each cell knows
    /// its point.
    pub open spec fn well_shaped(&self) -> bool {
        &&& self.size.wf()
        &&& self.field.len() == self.size.cells()
        &&& forall|x: int|
            0 <= x < self.field.len() ==> (#[trigger] self.field[x]).point == self.size.point_at(x)
    }

    /// The board is well shaped, there are no more mines than cells, no cell
    /// counts more mines around it than there are, and before the mines are
    /// laid every cell is empty and counts none.
    pub open spec fn wf(&self) -> bool {
        &&& self.well_shaped()
        &&& self.mine_count <= self.size.cells()
        &&& forall|x: int|
            0 <= x < self.field.len() ==> (#[trigger] self.field[x]).mined_neighbor_count
                <= self.mine_count
        &&& !self.initialized ==> forall|x: int|
            0 <= x < self.field.len() ==> (#[trigger] self.field[x]).mined_neighbor_count == 0
                && self.field[x].content is Empty
    }

    /// The cell that is kept for `point`.
    pub open spec fn cell_at(&self, point: Point) -> Cell {
        self.field[self.size.number_of(point)]
    }

    /// The cells around `point`, row by row.
    pub open spec fn cells_around(&self, point: Point) -> Seq<Cell> {
        Seq::new(
            neighbors(self.size, point).len(),
            |i: int| self.cell_at(neighbors(self.size, point)[i]),
        )
    }

    /// A board of `width` columns and `height` rows with room for
    /// `mine_count` mines; `None` where there is no such board.
    pub fn new_from_ints(width: usize, height: usize, mine_count: usize) -> (board: Option<Board>)
        ensures
            board is Some <==> width * height <= MAX_AREA && mine_count <= width * height,
            board matches Some(b) ==> b.wf() && b.size == (BoardSize { width, height })
                && b.mine_count == mine_count && !b.initialized && forall|x: int|
                0 <= x < b.field.len() ==> #[trigger] b.field[x] == (Cell {
                    content: Content::Empty,
                    mined_neighbor_count: 0,
                    knowledge: KnowledgeState::Unknown,
                    point: b.size.point_at(x),
                }),
    {
        match BoardSize::new(width, height) {
            Some(size) => Board::new_from_size(size, mine_count),
            None => None,
        }
    }

    /// A board of extent `size` with room for `mine_count` mines, no mine laid
    /// and nothing known; `None` where there are more mines than cells.
    pub fn new_from_size(size: BoardSize, mine_count: usize) -> (board: Option<Board>)
        requires
            size.wf(),
        ensures
            board is Some <==> mine_count <= size.cells(),
            board matches Some(b) ==> b.wf() && b.size == size && b.mine_count == mine_count
                && !b.initialized && forall|x: int|
                0 <= x < b.field.len() ==> #[trigger] b.field[x] == (Cell {
                    content: Content::Empty,
                    mined_neighbor_count: 0,
                    knowledge: KnowledgeState::Unknown,
                    point: size.point_at(x),
                }),
    {
        let area = size.area();
        if mine_count > area {
            return None;
        }
        let mut field: Vec<Cell> = Vec::new();
        let mut i: usize = 0;
        while i < area
            invariant
                size.wf(),
                area == size.cells(),
                i <= area,
                field.len() == i,
                forall|x: int|
                    0 <= x < i ==> #[trigger] field[x] == (Cell {
                        content: Content::Empty,
                        mined_neighbor_count: 0,
                        knowledge: KnowledgeState::Unknown,
                        point: size.point_at(x),
                    }),
            decreases area - i,
        {
            match size.point_from_integer(i) {
                Some(point) => {
                    field.push(Cell::create_empty(point));
                },
                None => {},
            }
            i = i + 1;
        }
        Some(Board { size, field, mine_count, initialized: false })
    }

    /// A board of extent `size` on which the mines lie at `mines`; `None`
    /// where one of them has no cell, or where they are more than the cells.
    pub fn new_with_mines(size: BoardSize, mines: &[Point]) -> (board: Option<Board>)
        requires
            size.wf(),
        ensures
            board is Some <==> mines.len() <= size.cells() && forall|i: int|
                0 <= i < mines.len() ==> size.holds(#[trigger] mines[i]),
            board matches Some(b) ==> b.wf() && b.size == size && b.mine_count == mines.len()
                && b.initialized && b.field@ == laid(blank(size), size, mines@, mines.len() as int),
    {
        let area = size.area();
        let mut i: usize = 0;
        while i < mines.len()
            invariant
                size.wf(),
                area == size.cells(),
                i <= mines.len(),
                forall|j: int| 0 <= j < i ==> size.holds(#[trigger] mines[j]),
            decreases mines.len() - i,
        {
            match size.integer_from_point(&mines[i]) {
                Some(number) => {
                    if number >= area {
                        return None;
                    }
                },
                None => {
                    return None;
                },
            }
            i = i + 1;
        }
        let mut board = match Board::new_from_size(size, mines.len()) {
            None => {
                return None;
            },
            Some(board) => board,
        };
        board.initialized = true;
        proof {
            assert(board.field@ =~= blank(size));
        }
        let mut i: usize = 0;
        while i < mines.len()
            invariant
                board.well_shaped(),
                board.size == size,
                board.mine_count == mines.len(),
                board.mine_count <= size.cells(),
                board.initialized,
                i <= mines.len(),
                forall|j: int| 0 <= j < mines.len() ==> size.holds(#[trigger] mines[j]),
                board.field@ == laid(blank(size), size, mines@, i as int),
                forall|x: int|
                    0 <= x < board.field.len() ==> (#[trigger] board.field[x]).mined_neighbor_count
                        <= i,
            decreases mines.len() - i,
        {
            board.set_point_as_mined(&mines[i]);
            i = i + 1;
        }
        Some(board)
    }

    /// Lays a mine at `point`: its cell holds a mine, and every cell around
    /// it counts one mine more.
    pub fn set_point_as_mined(&mut self, point: &Point)
        requires
            old(self).well_shaped(),
            old(self).size.holds(*point),
            forall|x: int|
                0 <= x < old(self).field.len() ==> (#[trigger] old(self).field[x]).mined_neighbor_count
                    < usize::MAX,
        ensures
            final(self).well_shaped(),
            final(self).size == old(self).size,
            final(self).mine_count == old(self).mine_count,
            final(self).initialized == old(self).initialized,
            final(self).field@ == mined_at(old(self).field@, old(self).size, *point),
    {
        let index = self.size.integer_from_point(point).unwrap();
        self.field[index].content = Content::Mine;
        let around = self.neighbor_points(point);
        let ghost before = old(self).field@;
        let ghost size = self.size;
        proof {
            lemma_neighbors(size, *point);
        }
        let mut j: usize = 0;
        while j < around.len()
            invariant
                size == old(self).size,
                self.size == size,
                size.wf(),
                self.mine_count == old(self).mine_count,
                self.initialized == old(self).initialized,
                before == old(self).field@,
                before.len() == size.cells(),
                self.field.len() == before.len(),
                index == size.number_of(*point),
                around@ == neighbors(size, *point),
                around@.no_duplicates(),
                forall|q: Point| #[trigger] around@.contains(q) ==> size.contains(q),
                j <= around.len(),
                forall|x: int|
                    0 <= x < before.len() ==> (#[trigger] before[x]).mined_neighbor_count
                        < usize::MAX,
                forall|x: int|
                    0 <= x < before.len() ==> #[trigger] self.field[x] == (Cell {
                        content: if x == index {
                            Content::Mine
                        } else {
                            before[x].content
                        },
                        mined_neighbor_count: (before[x].mined_neighbor_count + if around@.take(
                            j as int,
                        ).contains(size.point_at(x)) {
                            1int
                        } else {
                            0int
                        }) as usize,
                        knowledge: before[x].knowledge,
                        point: before[x].point,
                    }),
            decreases around.len() - j,
        {
            let q = around[j];
            proof {
                assert(around@.contains(q));
                size.lemma_contained(q);
            }
            let number = self.size.integer_from_point(&q).unwrap();
            let ghost earlier = around@.take(j as int);
            let ghost next = around@.take(j + 1);
            proof {
                assert(!earlier.contains(q)) by {
                    if earlier.contains(q) {
                        let k = choose|k: int| 0 <= k < earlier.len() && earlier[k] == q;
                        assert(around@[k] == around@[j as int]);
                    }
                }
                assert(self.field[number as int].mined_neighbor_count
                    == before[number as int].mined_neighbor_count);
            }
            let count = self.field[number].mined_neighbor_count;
            self.field[number].mined_neighbor_count = count + 1;
            proof {
                assert forall|x: int| 0 <= x < before.len() implies (next.contains(size.point_at(x))
                    <==> earlier.contains(size.point_at(x)) || x == number) by {
                    let p = size.point_at(x);
                    size.lemma_point_at(x);
                    if next.contains(p) {
                        let k = choose|k: int| 0 <= k < next.len() && next[k] == p;
                        if k < j {
                            assert(earlier[k] == p);
                        }
                    }
                    if earlier.contains(p) {
                        let k = choose|k: int| 0 <= k < earlier.len() && earlier[k] == p;
                        assert(next[k] == p);
                    }
                    if x == number {
                        assert(next[j as int] == q);
                    }
                }
            }
            j = j + 1;
        }
        proof {
            assert(around@.take(around.len() as int) =~= around@);
            assert(self.field@ =~= mined_at(before, size, *point));
        }
    }

    /// Lays the mines of the game at `mined_points`, one after the other.
    pub fn initialize_with_mines(&mut self, mined_points: &[Point])
        requires
            old(self).wf(),
            !old(self).initialized,
            mined_points.len() <= old(self).mine_count,
            forall|i: int| 0 <= i < mined_points.len() ==> old(self).size.holds(#[trigger] mined_points[i]),
        ensures
            final(self).wf(),
            final(self).size == old(self).size,
            final(self).mine_count == old(self).mine_count,
            final(self).initialized,
            final(self).field@ == laid(
                old(self).field@,
                old(self).size,
                mined_points@,
                mined_points.len() as int,
            ),
    {
        let mut i: usize = 0;
        while i < mined_points.len()
            invariant
                self.well_shaped(),
                self.size == old(self).size,
                self.mine_count == old(self).mine_count,
                self.mine_count <= self.size.cells(),
                mined_points.len() <= self.mine_count,
                i <= mined_points.len(),
                forall|j: int|
                    0 <= j < mined_points.len() ==> self.size.holds(#[trigger] mined_points[j]),
                self.field@ == laid(old(self).field@, old(self).size, mined_points@, i as int),
                forall|x: int|
                    0 <= x < self.field.len() ==> (#[trigger] self.field[x]).mined_neighbor_count
                        <= i,
            decreases mined_points.len() - i,
        {
            self.set_point_as_mined(&mined_points[i]);
            i = i + 1;
        }
        self.initialized = true;
    }

    /// The cell that is kept for `point`.
    pub fn retrieve_cell(&self, point: &Point) -> (cell: &Cell)
        requires
            self.well_shaped(),
            self.size.holds(*point),
        ensures
            *cell == self.cell_at(*point),
    {
        let index = self.size.integer_from_point(point).unwrap();
        &self.field[index]
    }

    /// How many cells are not revealed.
    pub fn unknown_count(&self) -> (n: usize)
        requires
            self.wf(),
        ensures
            n == count_passing(self.field@, CellTest::Hidden),
    {
        self.count_cells(CellTest::Hidden)
    }

    /// How many cells count as mines: flagged, or known to hold one.
    pub fn found_mines(&self) -> (n: usize)
        requires
            self.wf(),
        ensures
            n == count_passing(self.field@, CellTest::AssumedMine),
    {
        self.count_cells(CellTest::AssumedMine)
    }

    fn count_cells(&self, test: CellTest) -> (n: usize)
        ensures
            n == count_passing(self.field@, test),
    {
        let mut n: usize = 0;
        let mut i: usize = 0;
        while i < self.field.len()
            invariant
                i <= self.field.len(),
                n == count_passing(self.field@.take(i as int), test),
                n <= i,
            decreases self.field.len() - i,
        {
            proof {
                lemma_count_passing_take(self.field@, test, i as int);
            }
            if test.test(&self.field[i]) {
                n = n + 1;
            }
            i = i + 1;
        }
        proof {
            assert(self.field@.take(self.field.len() as int) =~= self.field@);
        }
        n
    }

    /// The number of mines less the number of cells that count as mines.
    pub fn remaining_mines(&self) -> (n: i32)
        requires
            self.wf(),
        ensures
            n == self.mine_count - count_passing(self.field@, CellTest::AssumedMine),
    {
        let found = self.found_mines();
        proof {
            lemma_count_passing_bound(self.field@, CellTest::AssumedMine);
        }
        self.mine_count as i32 - found as i32
    }

    /// The points around `point` that lie on the board, row by row.
    pub fn neighbor_points(&self, point: &Point) -> (around: Vec<Point>)
        ensures
            around@ == neighbors(self.size, *point),
    {
        let mut around: Vec<Point> = Vec::new();
        let mut n: usize = 0;
        while n < 9
            invariant
                n <= 9,
                around@ == neighbors_upto(self.size, *point, n as int),
            decreases 9 - n,
        {
            let dr = n / 3;
            let dc = n % 3;
            if !(dr == 1 && dc == 1) {
                match (shift(point.0, dr), shift(point.1, dc)) {
                    (Some(r), Some(c)) => {
                        if r < self.size.height && c < self.size.width {
                            around.push(Point(r, c));
                        }
                    },
                    _ => {},
                }
            }
            n = n + 1;
        }
        around
    }

    /// The cells around `point`, row by row.
    pub fn neighbor_cells_from_point(&self, point: &Point) -> (around: Vec<&Cell>)
        requires
            self.wf(),
        ensures
            around.len() == self.cells_around(*point).len(),
            forall|i: int| 0 <= i < around.len() ==> *(#[trigger] around[i]) == self.cells_around(*point)[i],
    {
        let points = self.neighbor_points(point);
        let mut around: Vec<&Cell> = Vec::new();
        let mut i: usize = 0;
        while i < points.len()
            invariant
                self.wf(),
                points@ == neighbors(self.size, *point),
                i <= points.len(),
                around.len() == i,
                forall|j: int| 0 <= j < i ==> *(#[trigger] around[j]) == self.cells_around(*point)[j],
            decreases points.len() - i,
        {
            proof {
                lemma_neighbors(self.size, *point);
                assert(neighbors(self.size, *point).contains(points[i as int]));
                self.size.lemma_contained(points[i as int]);
            }
            around.push(self.retrieve_cell(&points[i]));
            i = i + 1;
        }
        around
    }

    /// The cells around `cell`, row by row.
    pub fn neighbor_cells(&self, cell: &Cell) -> (around: Vec<&Cell>)
        requires
            self.wf(),
        ensures
            around.len() == self.cells_around(cell.point).len(),
            forall|i: int|
                0 <= i < around.len() ==> *(#[trigger] around[i]) == self.cells_around(cell.point)[i],
    {
        self.neighbor_cells_from_point(&cell.point)
    }

    fn count_neighbors(&self, point: &Point, test: CellTest) -> (n: usize)
        requires
            self.wf(),
        ensures
            n == count_passing(self.cells_around(*point), test),
            n <= 8,
    {
        let around = self.neighbor_cells_from_point(point);
        let ghost cells = self.cells_around(*point);
        let mut n: usize = 0;
        let mut i: usize = 0;
        proof {
            lemma_neighbors(self.size, *point);
        }
        while i < around.len()
            invariant
                cells == self.cells_around(*point),
                around.len() == cells.len(),
                around.len() <= 8,
                forall|j: int| 0 <= j < around.len() ==> *(#[trigger] around[j]) == cells[j],
                i <= around.len(),
                n == count_passing(cells.take(i as int), test),
                n <= i,
            decreases around.len() - i,
        {
            proof {
                lemma_count_passing_take(cells, test, i as int);
            }
            if test.test(around[i]) {
                n = n + 1;
            }
            i = i + 1;
        }
        proof {
            assert(cells.take(cells.len() as int) =~= cells);
        }
        n
    }

    /// Whether a cell around `point` is not revealed.
    pub fn has_unknown_neighbors(&self, point: &Point) -> (some: bool)
        requires
            self.wf(),
        ensures
            some == (count_passing(self.cells_around(*point), CellTest::Hidden) > 0),
    {
        self.count_neighbors(point, CellTest::Hidden) > 0
    }

    /// Whether a cell around `point` is revealed.
    pub fn has_known_neighbors(&self, point: &Point) -> (some: bool)
        requires
            self.wf(),
        ensures
            some == (count_passing(self.cells_around(*point), CellTest::Known) > 0),
    {
        self.count_neighbors(point, CellTest::Known) > 0
    }

    /// How many cells around `point` count as mines.
    pub fn count_assumed_mined_neighbors(&self, point: &Point) -> (n: usize)
        requires
            self.wf(),
        ensures
            n == count_passing(self.cells_around(*point), CellTest::AssumedMine),
            n <= 8,
    {
        self.count_neighbors(point, CellTest::AssumedMine)
    }

    /// How many cells around `point` are revealed.
    pub fn count_known_neighbors(&self, point: &Point) -> (n: usize)
        requires
            self.wf(),
        ensures
            n == count_passing(self.cells_around(*point), CellTest::Known),
            n <= 8,
    {
        self.count_neighbors(point, CellTest::Known)
    }

    /// How many cells around `point` are flagged.
    pub fn count_flagged_neighbors(&self, point: &Point) -> (n: usize)
        requires
            self.wf(),
        ensures
            n == count_passing(self.cells_around(*point), CellTest::Flag),
            n <= 8,
    {
        self.count_neighbors(point, CellTest::Flag)
    }

    /// How many cells around `point` are unknown and not flagged.
    pub fn count_unknown_neighbors(&self, point: &Point) -> (n: usize)
        requires
            self.wf(),
        ensures
            n == count_passing(self.cells_around(*point), CellTest::Unknown),
            n <= 8,
    {
        self.count_neighbors(point, CellTest::Unknown)
    }

    /// `cell` is unknown and lies next to a revealed cell.
    pub open spec fn is_border(&self, cell: Cell) -> bool {
        cell.knowledge is Unknown && count_passing(self.cells_around(cell.point), CellTest::Known) > 0
    }

    /// The points of the border cells among the first `n` cells, in order.
    pub open spec fn border_upto(&self, n: int) -> Seq<Point>
        decreases n,
    {
        if n <= 0 {
            Seq::empty()
        } else {
            let rest = self.border_upto(n - 1);
            if self.is_border(self.field[n - 1]) {
                rest.push(self.field[n - 1].point)
            } else {
                rest
            }
        }
    }

    /// The unknown cells that lie next to a revealed cell, row by row.
    pub open spec fn border_points(&self) -> Seq<Point> {
        self.border_upto(self.field.len() as int)
    }

    /// The cells of a board have distinct points; a point within the rows and
    /// columns is the point of its cell.
    pub proof fn lemma_cells(&self)
        requires
            self.well_shaped(),
        ensures
            forall|i: int, j: int|
                0 <= i < j < self.field.len() ==> (#[trigger] self.field[i]).point != (
                #[trigger] self.field[j]).point,
            forall|x: int|
                0 <= x < self.field.len() ==> self.size.contains((#[trigger] self.field[x]).point)
                    && self.size.number_of(self.field[x].point) == x,
            forall|p: Point|
                self.size.contains(p) ==> (#[trigger] self.cell_at(p)).point == p && 0
                    <= self.size.number_of(p) < self.field.len(),
    {
        assert forall|x: int| 0 <= x < self.field.len() implies self.size.contains(
            (#[trigger] self.field[x]).point,
        ) && self.size.number_of(self.field[x].point) == x by {
            self.size.lemma_point_at(x);
        }
        assert forall|i: int, j: int| 0 <= i < j < self.field.len() implies (
        #[trigger] self.field[i]).point != (#[trigger] self.field[j]).point by {
            self.size.lemma_point_at(i);
            self.size.lemma_point_at(j);
        }
        assert forall|p: Point| self.size.contains(p) implies (#[trigger] self.cell_at(p)).point == p
            && 0 <= self.size.number_of(p) < self.field.len() by {
            self.size.lemma_contained(p);
        }
    }

    /// The cells around a point are the cells of its neighbours.
    pub proof fn lemma_cells_around(&self, point: Point)
        requires
            self.wf(),
        ensures
            self.cells_around(point).len() == neighbors(self.size, point).len(),
            forall|i: int|
                0 <= i < neighbors(self.size, point).len() ==> (#[trigger] self.cells_around(
                    point,
                )[i]).point == neighbors(self.size, point)[i] && self.cells_around(point)[i]
                    == self.cell_at(neighbors(self.size, point)[i]),
            forall|i: int, j: int|
                0 <= i < j < self.cells_around(point).len() ==> (#[trigger] self.cells_around(
                    point,
                )[i]).point != (#[trigger] self.cells_around(point)[j]).point,
    {
        lemma_neighbors(self.size, point);
        self.lemma_cells();
        let around = neighbors(self.size, point);
        assert forall|i: int| 0 <= i < around.len() implies (#[trigger] self.cells_around(point)[i]).point
            == around[i] && self.cells_around(point)[i] == self.cell_at(around[i]) by {
            assert(around.contains(around[i]));
        }
    }

    /// An unknown cell next to a revealed cell is a border cell.
    pub proof fn lemma_unknown_neighbor_is_border(&self, p: Point, q: Point)
        requires
            self.wf(),
            self.size.contains(p),
            self.cell_at(p).knowledge is Known,
            neighbors(self.size, p).contains(q),
            self.cell_at(q).knowledge is Unknown,
        ensures
            self.size.contains(q),
            self.is_border(self.cell_at(q)),
            self.border_points().contains(q),
    {
        lemma_neighbors(self.size, p);
        lemma_neighbors(self.size, q);
        self.lemma_cells();
        self.lemma_cells_around(q);
        assert(neighbors(self.size, q).contains(p));
        let j = choose|j: int| 0 <= j < neighbors(self.size, q).len() && neighbors(self.size, q)[j] == p;
        assert(CellTest::Known.passes(self.cells_around(q)[j]));
        lemma_count_passing_some(self.cells_around(q), CellTest::Known);
        self.lemma_border_points();
    }

    /// The border points are the points of the border cells, each once.
    pub proof fn lemma_border_points(&self)
        requires
            self.wf(),
        ensures
            self.border_points().no_duplicates(),
            forall|p: Point| #[trigger]
                self.border_points().contains(p) <==> self.size.contains(p) && self.is_border(
                    self.cell_at(p),
                ),
    {
        self.lemma_border_upto(self.field.len() as int);
        self.lemma_cells();
        assert forall|p: Point| self.size.contains(p) && self.is_border(
            self.cell_at(p),
        ) implies #[trigger] self.border_points().contains(p) by {
            let x = self.size.number_of(p);
            assert(self.field[x].point == p);
        }
    }

    proof fn lemma_border_upto(&self, n: int)
        requires
            self.wf(),
            0 <= n <= self.field.len(),
        ensures
            self.border_upto(n).no_duplicates(),
            self.border_upto(n).len() <= n,
            forall|p: Point| #[trigger]
                self.border_upto(n).contains(p) <==> exists|x: int|
                    0 <= x < n && (#[trigger] self.field[x]).point == p && self.is_border(
                        self.field[x],
                    ),
        decreases n,
    {
        if n > 0 {
            self.lemma_border_upto(n - 1);
            self.lemma_cells();
            let rest = self.border_upto(n - 1);
            let all = self.border_upto(n);
            let last = self.field[n - 1];
            assert forall|p: Point| #[trigger] all.contains(p) implies exists|x: int|
                0 <= x < n && (#[trigger] self.field[x]).point == p && self.is_border(
                    self.field[x],
                ) by {
                let k = choose|k: int| 0 <= k < all.len() && all[k] == p;
                if k < rest.len() {
                    assert(rest[k] == p);
                    assert(rest.contains(p));
                    let x = choose|x: int|
                        0 <= x < n - 1 && (#[trigger] self.field[x]).point == p && self.is_border(
                            self.field[x],
                        );
                    assert(0 <= x < n && self.field[x].point == p);
                } else {
                    assert(self.field[n - 1].point == p);
                }
            }
            assert forall|p: Point|
                (exists|x: int|
                    0 <= x < n && (#[trigger] self.field[x]).point == p && self.is_border(
                        self.field[x],
                    )) implies #[trigger] all.contains(p) by {
                let x = choose|x: int|
                    0 <= x < n && (#[trigger] self.field[x]).point == p && self.is_border(
                        self.field[x],
                    );
                if x < n - 1 {
                    assert(rest.contains(p));
                    let k = choose|k: int| 0 <= k < rest.len() && rest[k] == p;
                    assert(all[k] == p);
                } else {
                    assert(all[all.len() - 1] == p);
                }
            }
            if self.is_border(last) && rest.contains(last.point) {
                let x = choose|x: int|
                    0 <= x < n - 1 && (#[trigger] self.field[x]).point == last.point
                        && self.is_border(self.field[x]);
                assert(self.field[x].point != self.field[n - 1].point);
            }
        }
    }

    /// The points of the cells that are unknown and not flagged, row by row.
    pub fn get_unknown_points(&self) -> (points: Vec<Point>)
        requires
            self.wf(),
        ensures
            points@ == points_passing(self.field@, CellTest::Unknown),
    {
        let mut points: Vec<Point> = Vec::new();
        let mut i: usize = 0;
        while i < self.field.len()
            invariant
                i <= self.field.len(),
                points@ == points_passing(self.field@.take(i as int), CellTest::Unknown),
            decreases self.field.len() - i,
        {
            proof {
                lemma_points_passing_take(self.field@, CellTest::Unknown, i as int);
            }
            if self.field[i].knowledge.is_unknown() {
                points.push(self.field[i].point);
            }
            i = i + 1;
        }
        proof {
            assert(self.field@.take(self.field.len() as int) =~= self.field@);
        }
        points
    }

    /// The points of the unknown cells that lie next to a revealed cell, row
    /// by row: the cells that the revealed numbers speak of.
    pub fn get_border_points(&self) -> (points: Vec<Point>)
        requires
            self.wf(),
        ensures
            points@ == self.border_points(),
    {
        let mut points: Vec<Point> = Vec::new();
        let mut i: usize = 0;
        while i < self.field.len()
            invariant
                self.wf(),
                i <= self.field.len(),
                points@ == self.border_upto(i as int),
            decreases self.field.len() - i,
        {
            if self.field[i].knowledge.is_unknown() && self.has_known_neighbors(
                &self.field[i].point,
            ) {
                points.push(self.field[i].point);
            }
            i = i + 1;
        }
        points
    }

    /// Sets or takes off the flag of the cell of `point`; a revealed cell stays
    /// as it is.
    pub fn toggle_flag(&mut self, point: &Point)
        requires
            old(self).wf(),
            old(self).size.holds(*point),
        ensures
            final(self).wf(),
            final(self).size == old(self).size,
            final(self).mine_count == old(self).mine_count,
            final(self).initialized == old(self).initialized,
            final(self).field@ == old(self).field@.update(
                old(self).size.number_of(*point),
                Cell {
                    knowledge: match old(self).cell_at(*point).knowledge {
                        KnowledgeState::Known => KnowledgeState::Known,
                        KnowledgeState::Flag => KnowledgeState::Unknown,
                        KnowledgeState::Unknown => KnowledgeState::Flag,
                    },
                    ..old(self).cell_at(*point)
                },
            ),
    {
        let index = self.size.integer_from_point(point).unwrap();
        let mut cell = self.field[index];
        cell.toggle_flag();
        self.field[index] = cell;
    }

    /// The unknown cells around `point`, where the number of its cell exceeds
    /// the mines already counted around it by their number; otherwise
    /// nothing.
    pub open spec fn flaggable_around(&self, point: Point) -> Seq<Point> {
        if self.cell_at(point).mined_neighbor_count - count_passing(
            self.cells_around(point),
            CellTest::AssumedMine,
        ) == count_passing(self.cells_around(point), CellTest::Unknown) {
            points_passing(self.cells_around(point), CellTest::Unknown)
        } else {
            Seq::empty()
        }
    }

    /// The unknown cells around `point`, where the number of its cell equals
    /// the mines already counted around it; otherwise nothing.
    pub open spec fn safe_around(&self, point: Point) -> Seq<Point> {
        if self.cell_at(point).mined_neighbor_count == count_passing(
            self.cells_around(point),
            CellTest::AssumedMine,
        ) {
            points_passing(self.cells_around(point), CellTest::Unknown)
        } else {
            Seq::empty()
        }
    }

    /// The cells around `point` that are unknown and not flagged, where the
    /// number of the cell of `point` says that all of them hold mines: where
    /// it exceeds the mines already counted around it by their number.
    /// Otherwise nothing.
    pub fn known_flaggable_neighbors(&self, point: &Point) -> (points: Vec<Point>)
        requires
            self.wf(),
            self.size.holds(*point),
        ensures
            points@ == self.flaggable_around(*point),
    {
        let assumed_mined_neighbor_count = self.count_assumed_mined_neighbors(point);
        let unknown_neighbor_count = self.count_unknown_neighbors(point);
        let mined_neighbor_count = self.retrieve_cell(point).mined_neighbor_count;
        if mined_neighbor_count == assumed_mined_neighbor_count + unknown_neighbor_count {
            self.unknown_neighbors(point)
        } else {
            Vec::new()
        }
    }

    /// The cells around `point` that are unknown and not flagged, where the
    /// number of the cell of `point` says that none of them holds a mine:
    /// where it equals the mines already counted around it. Otherwise
    /// nothing.
    pub fn known_safe_neighbors(&self, point: &Point) -> (points: Vec<Point>)
        requires
            self.wf(),
            self.size.holds(*point),
        ensures
            points@ == self.safe_around(*point),
    {
        let assumed_mined_neighbor_count = self.count_assumed_mined_neighbors(point);
        let mined_neighbor_count = self.retrieve_cell(point).mined_neighbor_count;
        if mined_neighbor_count == assumed_mined_neighbor_count {
            self.unknown_neighbors(point)
        } else {
            Vec::new()
        }
    }

    /// The cells around `point` that are unknown and not flagged.
    pub fn unknown_neighbors(&self, point: &Point) -> (points: Vec<Point>)
        requires
            self.wf(),
        ensures
            points@ == points_passing(self.cells_around(*point), CellTest::Unknown),
    {
        let around = self.neighbor_cells_from_point(point);
        let ghost cells = self.cells_around(*point);
        let mut points: Vec<Point> = Vec::new();
        let mut i: usize = 0;
        while i < around.len()
            invariant
                cells == self.cells_around(*point),
                around.len() == cells.len(),
                forall|j: int| 0 <= j < around.len() ==> *(#[trigger] around[j]) == cells[j],
                i <= around.len(),
                points@ == points_passing(cells.take(i as int), CellTest::Unknown),
            decreases around.len() - i,
        {
            proof {
                lemma_points_passing_take(cells, CellTest::Unknown, i as int);
            }
            if around[i].knowledge.is_unknown() {
                points.push(around[i].point);
            }
            i = i + 1;
        }
        proof {
            assert(cells.take(cells.len() as int) =~= cells);
        }
        points
    }

    /// Whether as many cells count as mines as there are mines.
    pub fn is_won(&self) -> (won: bool)
        requires
            self.wf(),
        ensures
            won == (self.mine_count == count_passing(self.field@, CellTest::AssumedMine)),
    {
        let total = self.mine_count;
        let found = self.found_mines();
        total == found
    }

    /// Marks what a click on `point` reveals. It keeps a list of the cells
    /// that it has reached and not looked at yet: it takes one off the list
    /// and, where revealing goes on from it, marks the cells around it and
    /// puts those that were not marked before on the list.
    fn find_region(&self, point: Point, visited: &mut Vec<bool>)
        requires
            self.well_shaped(),
            self.size.holds(point),
            old(visited).len() == self.field.len(),
            forall|x: int|
                0 <= x < old(visited).len() ==> (#[trigger] old(visited)[x] <==> self.size.contains(
                    point,
                ) && x == self.size.number_of(point)),
        ensures
            final(visited).len() == self.field.len(),
            forall|x: int|
                0 <= x < final(visited).len() ==> (#[trigger] final(visited)[x] <==> in_region(
                    self.field@,
                    self.size,
                    point,
                    self.size.point_at(x),
                )),
    {
        let ghost cells = self.field@;
        let ghost size = self.size;
        let mut worklist: Vec<Point> = Vec::new();
        worklist.push(point);
        proof {
            self.lemma_cells();
            assert(reaches(cells, size, point, point, 0));
            assert(worklist@[0] == point);
            assert(worklist@.contains(point));
            if size.contains(point) {
                size.lemma_contained(point);
            }
            assert(closed_under_spread(cells, size, visited@, worklist@.to_set())) by {
                assert forall|x: int|
                    0 <= x < visited@.len() && #[trigger] visited@[x] && !worklist@.to_set().contains(
                        size.point_at(x),
                    ) && spreads(cells, size, size.point_at(x)) implies around_marked(
                    visited@,
                    size,
                    size.point_at(x),
                ) by {
                    assert(size.point_at(x) == point);
                }
            }
        }
        while worklist.len() > 0
            invariant
                self.well_shaped(),
                cells == self.field@,
                size == self.size,
                visited.len() == cells.len(),
                cells.len() == size.cells(),
                forall|i: int|
                    0 <= i < worklist.len() ==> size.holds(#[trigger] worklist[i]) && in_region(
                        cells,
                        size,
                        point,
                        worklist[i],
                    ),
                marks_region_only(cells, size, visited@, point),
                closed_under_spread(cells, size, visited@, worklist@.to_set()),
                size.contains(point) ==> visited[size.number_of(point)],
                !worklist@.contains(point) ==> (spreads(cells, size, point) ==> around_marked(
                    visited@,
                    size,
                    point,
                )),
            decreases unmarked(visited@), worklist.len(),
        {
            let ghost listed = worklist@;
            let ghost marked = visited@;
            let current = worklist.pop().unwrap();
            let ghost rest = worklist@;
            proof {
                assert(listed[listed.len() - 1] == current);
                assert(listed.to_set() =~= rest.to_set().insert(current)) by {
                    assert forall|q: Point| listed.to_set().contains(q) implies rest.to_set().insert(
                        current,
                    ).contains(q) by {
                        let k = choose|k: int| 0 <= k < listed.len() && listed[k] == q;
                        if k < rest.len() {
                            assert(rest[k] == q);
                        }
                    }
                    assert forall|q: Point| rest.to_set().insert(current).contains(q) implies listed.to_set().contains(
                        q,
                    ) by {
                        if q != current {
                            let k = choose|k: int| 0 <= k < rest.len() && rest[k] == q;
                            assert(listed[k] == q);
                        }
                    }
                }
                lemma_neighbors(size, current);
            }
            let around = self.neighbor_points(&current);
            let cell = self.retrieve_cell(&current);
            let goes_on = match cell.content {
                Content::Empty => !cell.knowledge.is_known() && cell.mined_neighbor_count == 0,
                Content::Mine => false,
            };
            if goes_on {
                let mut j: usize = 0;
                while j < around.len()
                    invariant
                        self.well_shaped(),
                        cells == self.field@,
                        size == self.size,
                        visited.len() == cells.len(),
                        cells.len() == size.cells(),
                        marked.len() == cells.len(),
                        around@ == neighbors(size, current),
                        forall|q: Point| #[trigger] around@.contains(q) ==> size.contains(q),
                        spreads(cells, size, current),
                        in_region(cells, size, point, current),
                        j <= around.len(),
                        forall|x: int| 0 <= x < marked.len() && marked[x] ==> visited[x],
                        forall|i: int|
                            0 <= i < worklist.len() ==> size.holds(#[trigger] worklist[i])
                                && in_region(cells, size, point, worklist[i]),
                        marks_region_only(cells, size, visited@, point),
                        closed_under_spread(
                            cells,
                            size,
                            visited@,
                            worklist@.to_set().insert(current),
                        ),
                        forall|i: int| 0 <= i < j ==> visited[size.number_of(#[trigger] around[i])],
                        rest.len() <= worklist.len(),
                        forall|i: int| 0 <= i < rest.len() ==> worklist[i] == rest[i],
                        unmarked(visited@) + (worklist.len() - rest.len()) == unmarked(marked),
                    decreases around.len() - j,
                {
                    let neighbor = around[j];
                    proof {
                        assert(around@.contains(neighbor));
                        size.lemma_contained(neighbor);
                        lemma_region_step(cells, size, point, current, neighbor);
                    }
                    let number = self.size.integer_from_point(&neighbor).unwrap();
                    if !visited[number] {
                        let ghost before = visited@;
                        let ghost pending = worklist@.to_set().insert(current);
                        let ghost queue = worklist@;
                        visited[number] = true;
                        worklist.push(neighbor);
                        proof {
                            lemma_unmarked_set(before, number as int);
                            Self::lemma_mark_keeps_closed(cells, size, before, pending, neighbor);
                            assert(worklist@.to_set().insert(current) =~= pending.insert(neighbor)) by {
                                assert forall|q: Point|
                                    worklist@.to_set().insert(current).contains(
                                        q,
                                    ) implies pending.insert(neighbor).contains(q) by {
                                    if q != current {
                                        let k = choose|k: int|
                                            0 <= k < worklist@.len() && worklist@[k] == q;
                                        if k < queue.len() {
                                            assert(queue[k] == q);
                                        }
                                    }
                                }
                                assert forall|q: Point|
                                    pending.insert(neighbor).contains(
                                        q,
                                    ) implies worklist@.to_set().insert(current).contains(q) by {
                                    if q == neighbor {
                                        assert(worklist@[worklist@.len() - 1] == q);
                                    } else if q != current {
                                        let k = choose|k: int| 0 <= k < queue.len() && queue[k] == q;
                                        assert(worklist@[k] == q);
                                    }
                                }
                            }
                            assert forall|i: int| 0 <= i < j + 1 implies visited[size.number_of(
                                #[trigger] around[i],
                            )] by {
                                assert(around@.contains(around[i]));
                                size.lemma_contained(around[i]);
                                if i < j {
                                    assert(before[size.number_of(around[i])]);
                                }
                            }
                            assert(marks_region_only(cells, size, visited@, point)) by {
                                assert forall|x: int|
                                    0 <= x < visited@.len() && #[trigger] visited@[x] implies in_region(
                                    cells,
                                    size,
                                    point,
                                    size.point_at(x),
                                ) by {
                                    if x != number {
                                        assert(before[x]);
                                    }
                                }
                            }
                        }
                    }
                    j = j + 1;
                }
            }
            proof {
                if size.contains(point) {
                    size.lemma_contained(point);
                    assert(marked[size.number_of(point)]);
                }
                let pending = worklist@.to_set();
                assert(closed_under_spread(cells, size, visited@, pending)) by {
                    assert forall|x: int|
                        0 <= x < visited@.len() && #[trigger] visited@[x] && !pending.contains(
                            size.point_at(x),
                        ) && spreads(cells, size, size.point_at(x)) implies around_marked(
                        visited@,
                        size,
                        size.point_at(x),
                    ) by {
                        let u = size.point_at(x);
                        if u == current {
                            assert forall|q: Point| #[trigger]
                                neighbors(size, u).contains(q) implies visited@[size.number_of(q)] by {
                                let i = choose|i: int| 0 <= i < around@.len() && around@[i] == q;
                                assert(visited[size.number_of(around[i])]);
                            }
                        } else {
                            assert(!pending.insert(current).contains(u));
                            if !goes_on {
                                assert(!rest.to_set().insert(current).contains(u));
                            }
                        }
                    }
                }
                if !worklist@.contains(point) && spreads(cells, size, point) {
                    if current == point {
                        assert forall|q: Point| #[trigger]
                            neighbors(size, point).contains(q) implies visited@[size.number_of(q)] by {
                            let i = choose|i: int| 0 <= i < around@.len() && around@[i] == q;
                            assert(visited[size.number_of(around[i])]);
                        }
                    } else {
                        assert(!listed.contains(point)) by {
                            if listed.contains(point) {
                                let k = choose|k: int| 0 <= k < listed.len() && listed[k] == point;
                                assert(k < rest.len());
                                assert(rest[k] == point);
                                assert(worklist@[k] == rest[k]);
                            }
                        }
                        assert(around_marked(marked, size, point));
                        lemma_neighbors(size, point);
                        assert forall|q: Point| #[trigger]
                            neighbors(size, point).contains(q) implies visited@[size.number_of(q)] by {
                            size.lemma_contained(q);
                            assert(marked[size.number_of(q)]);
                        }
                    }
                }
            }
        }
        proof {
            assert(worklist@.to_set() =~= Set::<Point>::empty());
            assert forall|x: int| 0 <= x < visited.len() implies (#[trigger] visited[x] <==> in_region(
                cells,
                size,
                point,
                size.point_at(x),
            )) by {
                if in_region(cells, size, point, size.point_at(x)) {
                    let k = choose|k: int| reaches(cells, size, point, size.point_at(x), k);
                    lemma_region_marked(cells, size, visited@, point, size.point_at(x), k);
                    size.lemma_point_at(x);
                }
            }
        }
    }

    /// Marking a cell and putting it among the pending ones keeps the mask
    /// closed under spreading.
    proof fn lemma_mark_keeps_closed(
        cells: Seq<Cell>,
        size: BoardSize,
        mask: Seq<bool>,
        pending: Set<Point>,
        p: Point,
    )
        requires
            size.contains(p),
            mask.len() == size.cells(),
            closed_under_spread(cells, size, mask, pending),
        ensures
            closed_under_spread(
                cells,
                size,
                mask.update(size.number_of(p), true),
                pending.insert(p),
            ),
    {
        let after = mask.update(size.number_of(p), true);
        size.lemma_contained(p);
        assert forall|x: int|
            0 <= x < after.len() && #[trigger] after[x] && !pending.insert(p).contains(
                size.point_at(x),
            ) && spreads(cells, size, size.point_at(x)) implies around_marked(
            after,
            size,
            size.point_at(x),
        ) by {
            assert(x != size.number_of(p));
            assert(mask[x]);
            assert(!pending.contains(size.point_at(x)));
            assert(around_marked(mask, size, size.point_at(x)));
            lemma_neighbors(size, size.point_at(x));
            assert forall|q: Point| #[trigger]
                neighbors(size, size.point_at(x)).contains(q) implies after[size.number_of(q)] by {
                size.lemma_contained(q);
                assert(mask[size.number_of(q)]);
            }
        }
    }

    /// The cells of the board that a click on `point` reveals, as a mask over
    /// the numbers of the cells.
    pub fn region_mask(&self, point: &Point) -> (mask: Vec<bool>)
        requires
            self.well_shaped(),
            self.size.holds(*point),
        ensures
            mask.len() == self.field.len(),
            forall|x: int|
                0 <= x < mask.len() ==> (#[trigger] mask[x] <==> in_region(
                    self.field@,
                    self.size,
                    *point,
                    self.size.point_at(x),
                )),
    {
        let mut mask: Vec<bool> = Vec::new();
        let mut x: usize = 0;
        while x < self.field.len()
            invariant
                x <= self.field.len(),
                mask.len() == x,
                forall|y: int| 0 <= y < x ==> !mask[y],
            decreases self.field.len() - x,
        {
            mask.push(false);
            x = x + 1;
        }
        let on_board = point.0 < self.size.height && point.1 < self.size.width;
        if on_board {
            proof {
                self.size.lemma_contained(*point);
            }
            let number = self.size.integer_from_point(point).unwrap();
            mask[number] = true;
        }
        self.find_region(*point, &mut mask);
        mask
    }

    /// Reveals the cell with number `number`, where nothing is known of it;
    /// a flagged or revealed cell stays as it is.
    fn reveal_point(&mut self, number: usize) -> (hit: bool)
        requires
            number < old(self).field.len(),
        ensures
            final(self).size == old(self).size,
            final(self).mine_count == old(self).mine_count,
            final(self).initialized == old(self).initialized,
            final(self).field@ == old(self).field@.update(
                number as int,
                if old(self).field[number as int].knowledge is Unknown {
                    Cell { knowledge: KnowledgeState::Known, ..old(self).field[number as int] }
                } else {
                    old(self).field[number as int]
                },
            ),
            hit == is_hit(old(self).field[number as int]),
    {
        if self.field[number].knowledge.is_unknown() {
            self.field[number].knowledge = KnowledgeState::Known;
        }
        let cell = &self.field[number];
        match cell.content {
            Content::Mine => cell.knowledge.is_known(),
            Content::Empty => false,
        }
    }

    /// Clicks on `point` once the mines are laid: reveals its cell and, where
    /// no mine lies around, the cells around it, and so on from each of
    /// these. The result is the number of mines that now lie revealed among
    /// the cells that the click went over.
    pub fn reveal_from(&mut self, point: &Point) -> (hits: usize)
        requires
            old(self).wf(),
            old(self).size.holds(*point),
        ensures
            final(self).wf(),
            final(self).size == old(self).size,
            final(self).mine_count == old(self).mine_count,
            final(self).initialized == old(self).initialized,
            final(self).field@ == revealed_from(old(self).field@, old(self).size, *point),
            hits == hits_of(old(self).field@, old(self).size, *point),
            hits <= old(self).field.len() + 1,
    {
        let mask = self.region_mask(point);
        let ghost before = self.field@;
        let ghost size = self.size;
        let start = self.size.integer_from_point(point).unwrap();
        let on_board = point.0 < self.size.height && point.1 < self.size.width;
        let mut hits: usize = 0;
        let mut x: usize = 0;
        while x < self.field.len()
            invariant
                size == self.size,
                size == old(self).size,
                before == old(self).field@,
                self.mine_count == old(self).mine_count,
                self.initialized == old(self).initialized,
                self.field.len() == before.len(),
                mask.len() == before.len(),
                forall|y: int|
                    0 <= y < mask.len() ==> (#[trigger] mask[y] <==> in_region(
                        before,
                        size,
                        *point,
                        size.point_at(y),
                    )),
                x <= self.field.len(),
                hits == hits_upto(before, size, *point, x as int),
                hits <= x,
                forall|y: int|
                    0 <= y < before.len() ==> #[trigger] self.field[y] == if y < x && mask[y]
                        && before[y].knowledge is Unknown {
                        Cell { knowledge: KnowledgeState::Known, ..before[y] }
                    } else {
                        before[y]
                    },
            decreases self.field.len() - x,
        {
            if mask[x] {
                let hit = self.reveal_point(x);
                if hit {
                    hits = hits + 1;
                }
            }
            x = x + 1;
        }
        if !on_board {
            let hit = self.reveal_point(start);
            if hit {
                hits = hits + 1;
            }
        } else {
            proof {
                size.lemma_contained(*point);
                assert(reaches(before, size, *point, *point, 0));
                assert(in_region(before, size, *point, size.point_at(start as int)));
            }
        }
        proof {
            assert(self.field@ =~= revealed_from(before, size, *point)) by {
                assert forall|y: int| 0 <= y < before.len() implies self.field@[y] == revealed_from(
                    before,
                    size,
                    *point,
                )[y] by {
                    assert(mask[y] <==> in_region(before, size, *point, size.point_at(y)));
                }
            }
        }
        hits
    }

    /// Whether the board keeps a cell for `point`.
    pub fn has_cell(&self, point: &Point) -> (kept: bool)
        requires
            self.well_shaped(),
        ensures
            kept == self.size.holds(*point),
    {
        match self.size.integer_from_point(point) {
            Some(number) => number < self.field.len(),
            None => false,
        }
    }

    /// Whether enough cells lie more than two steps from `point` for the
    /// mines of the game: whether a game can start with a click on `point`.
    pub fn has_room(&self, point: &Point) -> (enough: bool)
        requires
            self.wf(),
        ensures
            enough == (room(self.size, *point, 2) >= self.mine_count),
    {
        let area = self.size.area();
        let ghost numbers = numbers_below(area as nat);
        let mut count: usize = 0;
        let mut x: usize = 0;
        while x < area
            invariant
                self.size.wf(),
                area == self.size.cells(),
                numbers == numbers_below(area as nat),
                x <= area,
                count == count_far(self.size, *point, 2, numbers.take(x as int)),
                count <= x,
            decreases area - x,
        {
            proof {
                lemma_count_far_take(self.size, *point, 2, numbers, x as int);
            }
            match self.size.point_from_integer(x) {
                Some(cell_point) => {
                    if point.distance(&cell_point) > 2 {
                        count = count + 1;
                    }
                },
                None => {},
            }
            x = x + 1;
        }
        proof {
            assert(numbers.take(area as int) =~= numbers);
        }
        count >= self.mine_count
    }

    /// Lays the mines of the game at random, each more than two steps from
    /// `point`.
    pub fn initialize_from_point(&mut self, point: &Point)
        requires
            old(self).wf(),
            !old(self).initialized,
            room(old(self).size, *point, 2) >= old(self).mine_count,
        ensures
            final(self).wf(),
            final(self).size == old(self).size,
            final(self).mine_count == old(self).mine_count,
            final(self).initialized,
            laid_clear_of(
                old(self).field@,
                old(self).size,
                old(self).mine_count,
                *point,
                final(self).field@,
            ),
    {
        match sample_points(&self.size, self.mine_count, point, 2) {
            Some(mined_points) => {
                proof {
                    assert forall|i: int| 0 <= i < mined_points.len() implies self.size.holds(
                        #[trigger] mined_points@[i],
                    ) by {
                        self.size.lemma_contained(mined_points@[i]);
                    }
                }
                self.initialize_with_mines(mined_points.as_slice());
                proof {
                    assert(is_spread(mined_points@, self.size, self.mine_count as int, *point, 2));
                }
            },
            None => {},
        }
    }

    /// Clicks on `point`. The first click of a game lays the mines first,
    /// clear of `point`. Then the cell of `point` is revealed and, where no
    /// mine lies around it, the cells around it, and so on from each of
    /// these. The result is the number of mines that now lie revealed among
    /// the cells that the click went over.
    pub fn probe(&mut self, point: &Point) -> (hits: usize)
        requires
            old(self).wf(),
            old(self).size.holds(*point),
            old(self).initialized || room(old(self).size, *point, 2) >= old(self).mine_count,
        ensures
            final(self).wf(),
            final(self).size == old(self).size,
            final(self).mine_count == old(self).mine_count,
            final(self).initialized,
            hits <= old(self).field.len() + 1,
            old(self).initialized ==> clicked(
                old(self).field@,
                old(self).size,
                *point,
                final(self).field@,
                hits as nat,
            ),
            !old(self).initialized ==> first_click(
                old(self).field@,
                old(self).size,
                old(self).mine_count,
                *point,
                final(self).field@,
                hits as nat,
            ),
    {
        if !self.initialized {
            self.initialize_from_point(point);
        }
        let ghost mined = self.field@;
        let hits = self.reveal_from(point);
        proof {
            if !old(self).initialized {
                assert(laid_clear_of(
                    old(self).field@,
                    old(self).size,
                    old(self).mine_count,
                    *point,
                    mined,
                ));
                assert(clicked(mined, self.size, *point, self.field@, hits as nat));
            }
        }
        hits
    }

    /// Clicks on all cells around `point`, one after the other, where the
    /// cell of `point` is revealed and as many cells around it count as mines
    /// as its number says. The result is the number of mines that the clicks
    /// reveal. Otherwise nothing happens, and the result is 0.
    pub fn chord(&mut self, point: &Point) -> (hits: usize)
        requires
            old(self).wf(),
            old(self).size.holds(*point),
            old(self).initialized || !old(self).chords_at(*point) || forall|q: Point| #[trigger]
                neighbors(old(self).size, *point).contains(q) ==> room(old(self).size, q, 2)
                    >= old(self).mine_count,
        ensures
            final(self).wf(),
            final(self).size == old(self).size,
            final(self).mine_count == old(self).mine_count,
            !old(self).chords_at(*point) ==> hits == 0 && final(self).field@ == old(self).field@
                && final(self).initialized == old(self).initialized,
            old(self).chords_at(*point) && !old(self).initialized ==> if neighbors(
                old(self).size,
                *point,
            ).len() == 0 {
                hits == 0 && final(self).field@ == old(self).field@ && !final(self).initialized
            } else {
                final(self).initialized && first_chord(
                    old(self).field@,
                    old(self).size,
                    old(self).mine_count,
                    neighbors(old(self).size, *point),
                    final(self).field@,
                    hits as nat,
                )
            },
            old(self).chords_at(*point) && old(self).initialized ==> final(self).initialized
                && final(self).field@ == chord_cells(
                old(self).field@,
                old(self).size,
                neighbors(old(self).size, *point),
                neighbors(old(self).size, *point).len() as int,
            ) && hits == chord_hits(
                old(self).field@,
                old(self).size,
                neighbors(old(self).size, *point),
                neighbors(old(self).size, *point).len() as int,
            ),
    {
        let cell = self.retrieve_cell(point);
        if !cell.knowledge.is_known() {
            return 0;
        }
        let count = cell.mined_neighbor_count;
        let mut hits: usize = 0;
        if self.count_assumed_mined_neighbors(point) == count {
            let around = self.neighbor_points(point);
            let ghost before = self.field@;
            let ghost size = self.size;
            let ghost mut mined = self.field@;
            proof {
                lemma_neighbors(size, *point);
            }
            let mut j: usize = 0;
            while j < around.len()
                invariant
                    self.wf(),
                    size == old(self).size,
                    self.size == size,
                    self.mine_count == old(self).mine_count,
                    before == old(self).field@,
                    j == 0 ==> self.field@ == before && self.initialized == old(self).initialized
                        && hits == 0,
                    !old(self).initialized && j > 0 ==> laid_clear_of(
                        before,
                        size,
                        self.mine_count,
                        around@[0],
                        mined,
                    ) && self.field@ == chord_cells(mined, size, around@, j as int) && hits
                        == chord_hits(mined, size, around@, j as int),
                    self.field.len() == before.len(),
                    before.len() <= MAX_AREA,
                    around@ == neighbors(size, *point),
                    around.len() <= 8,
                    forall|q: Point| #[trigger] around@.contains(q) ==> size.contains(q),
                    j <= around.len(),
                    hits <= j * (before.len() + 1),
                    j > 0 ==> self.initialized,
                    old(self).initialized ==> self.initialized,
                    self.initialized || forall|q: Point| #[trigger]
                        around@.contains(q) ==> room(size, q, 2) >= self.mine_count,
                    old(self).initialized ==> self.field@ == chord_cells(
                        before,
                        size,
                        around@,
                        j as int,
                    ) && hits == chord_hits(before, size, around@, j as int),
                decreases around.len() - j,
            {
                proof {
                    assert(around@.contains(around[j as int]));
                    size.lemma_contained(around[j as int]);
                    assert((j + 1) * (before.len() + 1) <= 8 * (before.len() + 1)) by (nonlinear_arith)
                        requires
                            j + 1 <= 8,
                            before.len() >= 0,
                    ;
                    assert((j + 1) * (before.len() + 1) == j * (before.len() + 1) + before.len() + 1)
                        by (nonlinear_arith);
                }
                let ghost started = self.initialized;
                let ghost cells = self.field@;
                let more = self.probe(&around[j]);
                proof {
                    if !started {
                        assert(j == 0);
                        assert(first_click(
                            cells,
                            size,
                            self.mine_count,
                            around@[0],
                            self.field@,
                            more as nat,
                        ));
                        let laid_cells = choose|laid_cells: Seq<Cell>| #[trigger]
                            laid_clear_of(cells, size, self.mine_count, around@[0], laid_cells)
                                && clicked(laid_cells, size, around@[0], self.field@, more as nat);
                        mined = laid_cells;
                    }
                    if !old(self).initialized {
                        assert(chord_cells(mined, size, around@, 0) == mined);
                        assert(chord_hits(mined, size, around@, 0) == 0);
                        let n = j + 1;
                        assert(chord_cells(mined, size, around@, n - 1) == cells || !started);
                        assert(chord_cells(mined, size, around@, n) == revealed_from(
                            chord_cells(mined, size, around@, n - 1),
                            size,
                            around@[n - 1],
                        ));
                        assert(chord_hits(mined, size, around@, n) == chord_hits(
                            mined,
                            size,
                            around@,
                            n - 1,
                        ) + hits_of(chord_cells(mined, size, around@, n - 1), size, around@[n - 1]));
                    }
                }
                hits = hits + more;
                j = j + 1;
            }
        }
        hits
    }

    /// The cell of `point` is revealed, and as many cells around it count as
    /// mines as its number says.
    pub open spec fn chords_at(&self, point: Point) -> bool {
        self.cell_at(point).knowledge is Known && self.cell_at(point).mined_neighbor_count
            == count_passing(self.cells_around(point), CellTest::AssumedMine)
    }

    /// The cells after the cells around `point` that are not revealed as
    /// empty are flagged, where they are as many as the number of the cell of
    /// `point` says; otherwise the cells as they are.
    pub open spec fn flagged_around(&self, point: Point) -> Seq<Cell> {
        if count_passing(self.cells_around(point), CellTest::Suspect) == self.cell_at(
            point,
        ).mined_neighbor_count {
            Seq::new(
                self.field.len() as nat,
                |x: int|
                    if neighbors(self.size, point).contains(self.size.point_at(x))
                        && !self.field[x].known_unmined() {
                        Cell { knowledge: KnowledgeState::Flag, ..self.field[x] }
                    } else {
                        self.field[x]
                    },
            )
        } else {
            self.field@
        }
    }

    /// Flags every cell around `point` that is not revealed as empty, where
    /// these are as many as the number of the cell of `point` says.
    pub fn flag_neighbors(&mut self, point: &Point)
        requires
            old(self).wf(),
            old(self).size.holds(*point),
        ensures
            final(self).wf(),
            final(self).size == old(self).size,
            final(self).mine_count == old(self).mine_count,
            final(self).initialized == old(self).initialized,
            final(self).field@ == old(self).flagged_around(*point),
    {
        let count = self.retrieve_cell(point).mined_neighbor_count;
        let suspects = self.count_neighbors(point, CellTest::Suspect);
        if suspects == count {
            let around = self.neighbor_points(point);
            let ghost before = self.field@;
            let ghost size = self.size;
            proof {
                lemma_neighbors(size, *point);
            }
            let mut j: usize = 0;
            while j < around.len()
                invariant
                    size == old(self).size,
                    self.size == size,
                    size.wf(),
                    self.mine_count == old(self).mine_count,
                    self.initialized == old(self).initialized,
                    before == old(self).field@,
                    before.len() == size.cells(),
                    self.field.len() == before.len(),
                    around@ == neighbors(size, *point),
                    forall|q: Point| #[trigger] around@.contains(q) ==> size.contains(q),
                    j <= around.len(),
                    forall|x: int|
                        0 <= x < before.len() ==> #[trigger] self.field[x] == if around@.take(
                            j as int,
                        ).contains(size.point_at(x)) && !before[x].known_unmined() {
                            Cell { knowledge: KnowledgeState::Flag, ..before[x] }
                        } else {
                            before[x]
                        },
                decreases around.len() - j,
            {
                let q = around[j];
                proof {
                    assert(around@.contains(q));
                    size.lemma_contained(q);
                }
                let number = self.size.integer_from_point(&q).unwrap();
                let ghost earlier = around@.take(j as int);
                let ghost next = around@.take(j + 1);
                if !self.field[number].is_known_unmined() {
                    self.field[number].knowledge = KnowledgeState::Flag;
                }
                proof {
                    assert forall|x: int| 0 <= x < before.len() implies (next.contains(
                        size.point_at(x),
                    ) <==> earlier.contains(size.point_at(x)) || x == number) by {
                        let p = size.point_at(x);
                        size.lemma_point_at(x);
                        if next.contains(p) {
                            let k = choose|k: int| 0 <= k < next.len() && next[k] == p;
                            if k < j {
                                assert(earlier[k] == p);
                            }
                        }
                        if earlier.contains(p) {
                            let k = choose|k: int| 0 <= k < earlier.len() && earlier[k] == p;
                            assert(next[k] == p);
                        }
                        if x == number {
                            assert(next[j as int] == q);
                        }
                    }
                }
                j = j + 1;
            }
            proof {
                assert(around@.take(around.len() as int) =~= around@);
                assert(self.field@ =~= old(self).flagged_around(*point));
            }
        }
    }
}

} // verus!
