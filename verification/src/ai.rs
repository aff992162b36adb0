//! The automated player: the mine-count constraints that a board gives rise
//! to, one sampled solution of them per rollout, and the estimate of where the
//! mines are that many rollouts add up to.

use crate::board::count_passing;
use crate::board::lemma_count_passing_bound;
use crate::board::lemma_neighbors;
use crate::board::lemma_points_passing;
use crate::board::neighbors;
use crate::board::points_passing;
use crate::board::Board;
use crate::board::Cell;
use crate::board::CellTest;
use crate::board::Point;
use crate::constraint::all_assigned;
use crate::constraint::all_ids_assigned;
use crate::constraint::count_value;
use crate::constraint::distinct_ids;
use crate::constraint::eq_decides_identity;
use crate::constraint::extends;
use crate::constraint::find_variable;
use crate::constraint::has_id;
use crate::constraint::ids_of;
use crate::constraint::lemma_count_value_refines;
use crate::constraint::lemma_count_value_update;
use crate::constraint::lemma_extends_refines;
use crate::constraint::lemma_known_id;
use crate::constraint::lemma_position_of;
use crate::constraint::lemma_same_shape_ids;
use crate::constraint::occurrences;
use crate::constraint::position_of;
use crate::constraint::refines;
use crate::constraint::value_of;
use crate::constraint::values_of;
use crate::constraint::contains_id;
use crate::constraint::is_solution;
use crate::constraint::pairs_of;
use crate::constraint::values_in_domain;
use crate::constraint::Constraint;
use crate::constraint::ConstraintSolver;
use crate::constraint::Counts;
use crate::constraint::RandomSelectionStrategy;
use crate::constraint::SelectionStrategy;
use crate::constraint::Variable;
use crate::random::choose_point;
use crate::ActionType;
use vstd::prelude::*;

verus! {

/// The values of the variables that `points` name, in the order of `points`.
pub open spec fn picked(points: Seq<Point>, vars: Seq<Variable<Point, bool>>) -> Seq<Option<bool>> {
    Seq::new(points.len(), |m: int| value_of(vars, points[m]))
}

/// A budget of mines and of empty cells for a set of unknown cells.
///
/// A local constraint belongs to one revealed cell and speaks of the unknown
/// cells around it. The global constraint speaks of all variables at once and
/// reads the running counts of the search in place of a tally of its own.
#[derive(Debug)]
pub struct MineConstraint {
    pub expected_mines: i32,
    pub expected_empties: i32,
    pub constrained_points: Vec<Point>,
    pub global: bool,
}

impl MineConstraint {
    /// How many of the variables that the constraint looks at are assigned
    /// `state`: of its points, or of all variables where it is global.
    pub open spec fn tally(&self, vars: Seq<Variable<Point, bool>>, state: bool) -> nat {
        if self.global {
            occurrences(vars, state)
        } else {
            count_value(picked(self.constrained_points@, vars), state)
        }
    }

    /// The budget is not overdrawn.
    pub open spec fn within_budget(&self, vars: Seq<Variable<Point, bool>>) -> bool {
        self.tally(vars, true) <= self.expected_mines && self.tally(vars, false)
            <= self.expected_empties
    }

    /// `true` while the mines are not used up, then `false` while the empty
    /// cells are not.
    pub open spec fn offers(&self, vars: Seq<Variable<Point, bool>>) -> Seq<bool> {
        (if self.tally(vars, true) < self.expected_mines {
            seq![true]
        } else {
            Seq::empty()
        }) + (if self.tally(vars, false) < self.expected_empties {
            seq![false]
        } else {
            Seq::empty()
        })
    }

    /// The points are distinct and name variables; the global constraint
    /// names all of them.
    pub open spec fn fits_ids(&self, ids: Seq<Point>) -> bool {
        &&& self.constrained_points@.no_duplicates()
        &&& forall|m: int|
            0 <= m < self.constrained_points.len() ==> ids.contains(
                #[trigger] self.constrained_points[m],
            )
        &&& self.global ==> forall|i: int|
            0 <= i < ids.len() ==> self.constrained_points@.contains(#[trigger] ids[i])
    }

    /// What extends an assignment keeps the values that the points pick.
    pub proof fn lemma_picked_refines(
        points: Seq<Point>,
        earlier: Seq<Variable<Point, bool>>,
        later: Seq<Variable<Point, bool>>,
    )
        requires
            distinct_ids(earlier),
            extends(later, earlier),
        ensures
            refines(picked(points, later), picked(points, earlier)),
    {
        lemma_same_shape_ids(later, earlier);
        assert forall|m: int|
            0 <= m < points.len() && (#[trigger] picked(points, earlier)[m])
                is Some implies picked(points, later)[m] == picked(points, earlier)[m] by {
            let id = points[m];
            assert(has_id(earlier, id));
            let p = position_of(earlier, id);
            assert(later[p].id == id);
            lemma_position_of(later, p);
            lemma_position_of(earlier, p);
        }
    }

    /// Assigning more variables never lowers a tally.
    pub proof fn lemma_tally_grows(
        &self,
        earlier: Seq<Variable<Point, bool>>,
        later: Seq<Variable<Point, bool>>,
        state: bool,
    )
        requires
            distinct_ids(earlier),
            extends(later, earlier),
        ensures
            self.tally(earlier, state) <= self.tally(later, state),
    {
        if self.global {
            lemma_extends_refines(later, earlier);
            lemma_count_value_refines(values_of(later), values_of(earlier), state);
        } else {
            Self::lemma_picked_refines(self.constrained_points@, earlier, later);
            lemma_count_value_refines(
                picked(self.constrained_points@, later),
                picked(self.constrained_points@, earlier),
                state,
            );
        }
    }

    /// Assigning `state` to a variable that the constraint looks at, and that
    /// was unassigned, raises the tally of `state`.
    pub proof fn lemma_tally_counts(
        &self,
        vars: Seq<Variable<Point, bool>>,
        id: Point,
        full: Seq<Variable<Point, bool>>,
        state: bool,
    )
        requires
            distinct_ids(vars),
            self.fits_ids(ids_of(vars)),
            self.constrained_points@.contains(id),
            value_of(vars, id) is None,
            extends(full, vars),
            value_of(full, id) == Some(state),
        ensures
            self.tally(vars, state) < self.tally(full, state),
    {
        lemma_same_shape_ids(full, vars);
        if self.global {
            let m = choose|m: int|
                0 <= m < self.constrained_points.len() && self.constrained_points[m] == id;
            assert(ids_of(vars).contains(self.constrained_points[m]));
            lemma_known_id(vars, id);
            let p = position_of(vars, id);
            assert(full[p].id == id);
            lemma_position_of(full, p);
            lemma_position_of(vars, p);
            let mid = values_of(vars).update(p, Some(state));
            lemma_extends_refines(full, vars);
            assert(refines(values_of(full), mid));
            lemma_count_value_refines(values_of(full), mid, state);
            lemma_count_value_update(values_of(vars), p, Some(state), state);
        } else {
            let points = self.constrained_points@;
            let m = choose|m: int| 0 <= m < points.len() && points[m] == id;
            let before = picked(points, vars);
            let after = picked(points, full);
            let mid = before.update(m, Some(state));
            Self::lemma_picked_refines(points, vars, full);
            assert(refines(after, mid));
            lemma_count_value_refines(after, mid, state);
            lemma_count_value_update(before, m, Some(state), state);
        }
    }

    /// Once every variable that the constraint looks at is assigned, its
    /// tallies stay.
    pub proof fn lemma_tally_stays(
        &self,
        earlier: Seq<Variable<Point, bool>>,
        later: Seq<Variable<Point, bool>>,
        state: bool,
    )
        requires
            distinct_ids(earlier),
            self.fits_ids(ids_of(earlier)),
            extends(later, earlier),
            all_ids_assigned(self.constrained_points@, earlier),
        ensures
            self.tally(later, state) == self.tally(earlier, state),
    {
        lemma_same_shape_ids(later, earlier);
        if self.global {
            assert(values_of(later) =~= values_of(earlier)) by {
                assert forall|i: int| 0 <= i < earlier.len() implies later[i].value
                    == earlier[i].value by {
                    let id = earlier[i].id;
                    assert(ids_of(earlier)[i] == id);
                    assert(self.constrained_points@.contains(id));
                    let m = choose|m: int|
                        0 <= m < self.constrained_points.len() && self.constrained_points[m] == id;
                    assert(value_of(earlier, self.constrained_points[m]) is Some);
                    lemma_position_of(earlier, i);
                }
            }
        } else {
            let points = self.constrained_points@;
            Self::lemma_picked_refines(points, earlier, later);
            assert(picked(points, later) =~= picked(points, earlier)) by {
                assert forall|m: int| 0 <= m < points.len() implies picked(points, later)[m]
                    == picked(points, earlier)[m] by {
                    assert(value_of(earlier, points[m]) is Some);
                    assert(picked(points, earlier)[m] is Some);
                }
            }
        }
    }
}

/// Whether `count` is at most `bound`.
fn at_most(count: usize, bound: i32) -> (within: bool)
    ensures
        within == (count <= bound),
{
    if bound < 0 {
        false
    } else {
        count <= bound as usize
    }
}

/// Whether `count` is less than `bound`.
fn below(count: usize, bound: i32) -> (under: bool)
    ensures
        under == (count < bound),
{
    if bound <= 0 {
        false
    } else {
        count < bound as usize
    }
}

impl Constraint<Point, bool> for MineConstraint {
    open spec fn constrained_ids(&self) -> Seq<Point> {
        self.constrained_points@
    }

    open spec fn fits(&self, ids: Seq<Point>) -> bool {
        self.fits_ids(ids)
    }

    open spec fn satisfiable(&self, vars: Seq<Variable<Point, bool>>) -> bool {
        self.within_budget(vars)
    }

    open spec fn consistent_states(&self, vars: Seq<Variable<Point, bool>>, id: Point) -> Seq<bool> {
        self.offers(vars)
    }

    fn get_constrained_variable_ids(&self) -> (ids: Vec<Point>) {
        let mut ids: Vec<Point> = Vec::new();
        let mut m: usize = 0;
        while m < self.constrained_points.len()
            invariant
                m <= self.constrained_points.len(),
                ids@ == self.constrained_points@.take(m as int),
            decreases self.constrained_points.len() - m,
        {
            ids.push(self.constrained_points[m]);
            proof {
                assert(self.constrained_points@.take(m + 1) =~= self.constrained_points@.take(
                    m as int,
                ).push(self.constrained_points[m as int]));
            }
            m = m + 1;
        }
        proof {
            assert(self.constrained_points@.take(self.constrained_points.len() as int)
                =~= self.constrained_points@);
        }
        ids
    }

    /// Passes while no more mines and no more empty cells are assigned than
    /// the budget holds.
    fn check_constraint(
        &self,
        global_counts: &Counts<bool>,
        variable_lookup: &Vec<Variable<Point, bool>>,
    ) -> (ok: bool) {
        let (mined, empty) = if self.global {
            (global_counts.get(&true), global_counts.get(&false))
        } else {
            self.count_remaining_mined_and_empty(variable_lookup)
        };
        at_most(mined, self.expected_mines) && at_most(empty, self.expected_empties)
    }

    /// Offers `true` while fewer mines are assigned than the budget holds,
    /// and `false` while fewer empty cells are.
    fn consistent_states_for_variable(
        &self,
        variable_lookup: &Vec<Variable<Point, bool>>,
        v_id: &Point,
    ) -> (states: Vec<bool>) {
        let (mined, empty) = if self.global {
            count_assigned(variable_lookup)
        } else {
            self.count_remaining_mined_and_empty(variable_lookup)
        };
        let mut possible: Vec<bool> = Vec::new();
        if below(mined, self.expected_mines) {
            possible.push(true);
        }
        if below(empty, self.expected_empties) {
            possible.push(false);
        }
        proof {
            assert(possible@ =~= self.offers(variable_lookup@));
        }
        possible
    }

    proof fn lemma_fits_known_ids(&self, ids: Seq<Point>) {
    }

    proof fn lemma_contradiction_persists(
        &self,
        earlier: Seq<Variable<Point, bool>>,
        later: Seq<Variable<Point, bool>>,
    ) {
        self.lemma_tally_grows(earlier, later, true);
        self.lemma_tally_grows(earlier, later, false);
    }

    proof fn lemma_no_state_is_dead_end(
        &self,
        vars: Seq<Variable<Point, bool>>,
        id: Point,
        full: Seq<Variable<Point, bool>>,
    ) {
        lemma_same_shape_ids(full, vars);
        let m = choose|m: int|
            0 <= m < self.constrained_points.len() && self.constrained_points[m] == id;
        assert(ids_of(vars).contains(self.constrained_points[m]));
        lemma_known_id(vars, id);
        let p = position_of(vars, id);
        assert(full[p].id == id);
        lemma_position_of(full, p);
        let state = full[p].value->0;
        assert(value_of(full, id) == Some(state));
        self.lemma_tally_counts(vars, id, full, state);
    }

    proof fn lemma_decided_verdict_stays(
        &self,
        earlier: Seq<Variable<Point, bool>>,
        later: Seq<Variable<Point, bool>>,
    ) {
        self.lemma_tally_stays(earlier, later, true);
        self.lemma_tally_stays(earlier, later, false);
    }
}

/// How many variables are assigned `true`, and how many `false`.
pub fn count_assigned(variable_lookup: &Vec<Variable<Point, bool>>) -> (counts: (usize, usize))
    ensures
        counts.0 == occurrences(variable_lookup@, true),
        counts.1 == occurrences(variable_lookup@, false),
{
    let ghost vals = values_of(variable_lookup@);
    let mut mined: usize = 0;
    let mut empty: usize = 0;
    let mut i: usize = 0;
    while i < variable_lookup.len()
        invariant
            vals == values_of(variable_lookup@),
            i <= variable_lookup.len(),
            mined == count_value(vals.take(i as int), true),
            empty == count_value(vals.take(i as int), false),
            mined <= i,
            empty <= i,
        decreases variable_lookup.len() - i,
    {
        proof {
            assert(vals.take(i + 1).drop_last() =~= vals.take(i as int));
        }
        match variable_lookup[i].value {
            None => {},
            Some(val) => {
                if val {
                    mined = mined + 1;
                } else {
                    empty = empty + 1;
                }
            },
        }
        i = i + 1;
    }
    proof {
        assert(vals.take(vals.len() as int) =~= vals);
    }
    (mined, empty)
}

impl MineConstraint {
    /// Among the variables that the points name: how many are assigned a
    /// mine, and how many are assigned empty.
    pub fn count_remaining_mined_and_empty(
        &self,
        variable_lookup: &Vec<Variable<Point, bool>>,
    ) -> (counts: (usize, usize))
        requires
            distinct_ids(variable_lookup@),
            forall|m: int|
                0 <= m < self.constrained_points.len() ==> ids_of(variable_lookup@).contains(
                    #[trigger] self.constrained_points[m],
                ),
        ensures
            counts.0 == count_value(picked(self.constrained_points@, variable_lookup@), true),
            counts.1 == count_value(picked(self.constrained_points@, variable_lookup@), false),
    {
        let ghost vals = picked(self.constrained_points@, variable_lookup@);
        let mut mined: usize = 0;
        let mut empty: usize = 0;
        let mut m: usize = 0;
        while m < self.constrained_points.len()
            invariant
                distinct_ids(variable_lookup@),
                forall|q: int|
                    0 <= q < self.constrained_points.len() ==> ids_of(variable_lookup@).contains(
                        #[trigger] self.constrained_points[q],
                    ),
                vals == picked(self.constrained_points@, variable_lookup@),
                m <= self.constrained_points.len(),
                mined == count_value(vals.take(m as int), true),
                empty == count_value(vals.take(m as int), false),
                mined <= m,
                empty <= m,
            decreases self.constrained_points.len() - m,
        {
            proof {
                assert(vals.take(m + 1).drop_last() =~= vals.take(m as int));
                assert(ids_of(variable_lookup@).contains(self.constrained_points[m as int]));
                lemma_known_id(variable_lookup@, self.constrained_points[m as int]);
                assert(eq_decides_identity::<Point>());
            }
            match find_variable(variable_lookup, &self.constrained_points[m]) {
                Some(p) => {
                    proof {
                        lemma_position_of(variable_lookup@, p as int);
                    }
                    match variable_lookup[p].value {
                        None => {},
                        Some(val) => {
                            if val {
                                mined = mined + 1;
                            } else {
                                empty = empty + 1;
                            }
                        },
                    }
                },
                None => {},
            }
            m = m + 1;
        }
        proof {
            assert(vals.take(vals.len() as int) =~= vals);
        }
        (mined, empty)
    }
}


/// Why a rollout gave no sample.
#[derive(Debug, Clone, Copy, PartialEq, Eq, Structural)]
pub enum SolveError {
    /// The board contradicts itself: a budget of mines or of empty cells
    /// would be negative.
    EncodingInconsistency,
    /// No assignment of the border cells agrees with the board.
    SearchExhausted,
}

/// The mines still to be found around `point`: the number of its cell less
/// the cells around it that already count as mines.
pub open spec fn local_mines(board: &Board, point: Point) -> int {
    board.cell_at(point).mined_neighbor_count - count_passing(
        board.cells_around(point),
        CellTest::AssumedMine,
    )
}

/// The cells around `point` that are unknown and not flagged.
pub open spec fn local_points(board: &Board, point: Point) -> Seq<Point> {
    points_passing(board.cells_around(point), CellTest::Unknown)
}

/// The unknown cells around `point` that hold no mine.
pub open spec fn local_empties(board: &Board, point: Point) -> int {
    local_points(board, point).len() - local_mines(board, point)
}

/// The mines still to be found on the whole board.
pub open spec fn global_mines(board: &Board) -> int {
    board.mine_count - count_passing(board.field@, CellTest::AssumedMine)
}

/// The cells that are not revealed, less the mines still to be found.
pub open spec fn global_empties(board: &Board) -> int {
    count_passing(board.field@, CellTest::Hidden) - global_mines(board)
}

/// `c` is the constraint of the revealed cell at `point`.
pub open spec fn is_local_constraint(c: MineConstraint, board: &Board, point: Point) -> bool {
    &&& c.expected_mines == local_mines(board, point)
    &&& c.expected_empties == local_empties(board, point)
    &&& c.constrained_points@ == local_points(board, point)
    &&& !c.global
}

/// `c` is the constraint of the whole board on its border cells.
pub open spec fn is_global_constraint(c: MineConstraint, board: &Board) -> bool {
    &&& c.expected_mines == global_mines(board)
    &&& c.expected_empties == global_empties(board)
    &&& c.constrained_points@ == board.border_points()
    &&& c.global
}

/// The constraint that the whole board puts on its border cells: no more
/// mines than are still to be found, and no more empty cells than cells that
/// are not revealed less those mines. A negative budget is an error.
pub fn construct_global_constraint(board: &Board) -> (constraint: Result<MineConstraint, SolveError>)
    requires
        board.wf(),
    ensures
        constraint is Ok <==> global_mines(board) >= 0 && global_empties(board) >= 0,
        constraint matches Ok(c) ==> is_global_constraint(c, board),
        constraint matches Err(e) ==> e == SolveError::EncodingInconsistency,
{
    let expected_mines = board.remaining_mines();
    if expected_mines < 0 {
        return Err(SolveError::EncodingInconsistency);
    }
    let unknown = board.unknown_count();
    proof {
        lemma_count_passing_bound(board.field@, CellTest::Hidden);
    }
    let expected_empties = unknown as i32 - expected_mines;
    if expected_empties < 0 {
        return Err(SolveError::EncodingInconsistency);
    }
    let constrained_points = board.get_border_points();
    Ok(MineConstraint { expected_mines, expected_empties, constrained_points, global: true })
}

/// The constraint that the revealed cell at `point` puts on the unknown cells
/// around it: as many mines as its number says, less those already counted,
/// and empty cells for the rest. A negative budget is an error.
pub fn construct_constraint(board: &Board, point: &Point) -> (constraint: Result<
    MineConstraint,
    SolveError,
>)
    requires
        board.wf(),
        board.size.holds(*point),
    ensures
        constraint is Ok <==> local_mines(board, *point) >= 0 && local_empties(board, *point) >= 0,
        constraint matches Ok(c) ==> is_local_constraint(c, board, *point),
        constraint matches Err(e) ==> e == SolveError::EncodingInconsistency,
{
    let cell = board.retrieve_cell(point);
    let unknown_neighbors = board.unknown_neighbors(point);
    let total_unknown = unknown_neighbors.len();
    let known_mines = board.count_assumed_mined_neighbors(point);
    proof {
        lemma_points_passing(board.cells_around(*point), CellTest::Unknown);
        lemma_count_passing_bound(board.cells_around(*point), CellTest::Unknown);
        lemma_neighbors(board.size, *point);
    }
    if cell.mined_neighbor_count > 16 {
        return Err(SolveError::EncodingInconsistency);
    }
    let expected_mines = cell.mined_neighbor_count as i32 - known_mines as i32;
    let expected_empties = total_unknown as i32 - expected_mines;
    if expected_mines < 0 || expected_empties < 0 {
        return Err(SolveError::EncodingInconsistency);
    }
    Ok(
        MineConstraint {
            expected_mines,
            expected_empties,
            constrained_points: unknown_neighbors,
            global: false,
        },
    )
}

/// The cell is revealed, holds no mine, and has an unknown cell next to it:
/// its number constrains the border.
pub open spec fn constrains(board: &Board, cell: Cell) -> bool {
    cell.known_unmined() && count_passing(board.cells_around(cell.point), CellTest::Unknown) > 0
}

/// The points of the constraining cells among the first `n` cells, in order.
pub open spec fn constraining_upto(board: &Board, n: int) -> Seq<Point>
    decreases n,
{
    if n <= 0 {
        Seq::empty()
    } else {
        let rest = constraining_upto(board, n - 1);
        if constrains(board, board.field[n - 1]) {
            rest.push(board.field[n - 1].point)
        } else {
            rest
        }
    }
}

/// The points of the constraining cells, row by row.
pub open spec fn constraining_points(board: &Board) -> Seq<Point> {
    constraining_upto(board, board.field.len() as int)
}

/// Every budget that the board gives rise to is non-negative.
pub open spec fn encodable(board: &Board) -> bool {
    &&& global_mines(board) >= 0
    &&& global_empties(board) >= 0
    &&& forall|x: int|
        0 <= x < board.field.len() && constrains(board, #[trigger] board.field[x]) ==> local_mines(
            board,
            board.field[x].point,
        ) >= 0 && local_empties(board, board.field[x].point) >= 0
}

/// `constraints` is the encoding of the board: one constraint for each
/// constraining cell, row by row, and the global constraint at the end.
pub open spec fn is_encoding(constraints: Seq<MineConstraint>, board: &Board) -> bool {
    &&& constraints.len() == constraining_points(board).len() + 1
    &&& forall|j: int|
        0 <= j < constraining_points(board).len() ==> is_local_constraint(
            #[trigger] constraints[j],
            board,
            constraining_points(board)[j],
        )
    &&& is_global_constraint(constraints[constraints.len() - 1], board)
}

/// `vars` holds one unassigned variable for each border cell of the board,
/// in order, which may be empty or a mine.
pub open spec fn is_frontier(vars: Seq<Variable<Point, bool>>, board: &Board) -> bool {
    &&& vars.len() == board.border_points().len()
    &&& forall|i: int|
        0 <= i < vars.len() ==> (#[trigger] vars[i]).id == board.border_points()[i]
            && vars[i].value is None && vars[i].possible@ == seq![false, true]
}

/// `p` is the point of a constraining cell among the first `n` cells.
pub open spec fn is_constraining_point(board: &Board, n: int, p: Point) -> bool {
    exists|x: int| 0 <= x < n && (#[trigger] board.field[x]).point == p && constrains(board, board.field[x])
}

/// The constraining points are the points of the constraining cells.
pub proof fn lemma_constraining_upto(board: &Board, n: int)
    requires
        0 <= n <= board.field.len(),
    ensures
        constraining_upto(board, n).len() <= n,
        forall|j: int|
            0 <= j < constraining_upto(board, n).len() ==> is_constraining_point(
                board,
                n,
                #[trigger] constraining_upto(board, n)[j],
            ),
        forall|x: int|
            0 <= x < n && constrains(board, #[trigger] board.field[x]) ==> constraining_upto(
                board,
                n,
            ).contains(board.field[x].point),
    decreases n,
{
    if n > 0 {
        lemma_constraining_upto(board, n - 1);
        let rest = constraining_upto(board, n - 1);
        let all = constraining_upto(board, n);
        assert forall|j: int| 0 <= j < all.len() implies is_constraining_point(
            board,
            n,
            #[trigger] all[j],
        ) by {
            if j < rest.len() {
                assert(is_constraining_point(board, n - 1, rest[j]));
                let x = choose|x: int|
                    0 <= x < n - 1 && (#[trigger] board.field[x]).point == rest[j] && constrains(
                        board,
                        board.field[x],
                    );
                assert(0 <= x < n && board.field[x].point == all[j]);
            } else {
                assert(board.field[n - 1].point == all[j]);
            }
        }
        assert forall|x: int| 0 <= x < n && constrains(board, #[trigger] board.field[x]) implies all.contains(
            board.field[x].point,
        ) by {
            if x < n - 1 {
                assert(rest.contains(board.field[x].point));
                let k = choose|k: int| 0 <= k < rest.len() && rest[k] == board.field[x].point;
                assert(all[k] == board.field[x].point);
            } else {
                assert(all[all.len() - 1] == board.field[x].point);
            }
        }
    }
}

/// The constraint of a revealed cell fits the border of the board.
pub proof fn lemma_local_constraint_fits(c: MineConstraint, board: &Board, point: Point)
    requires
        board.wf(),
        board.size.contains(point),
        board.cell_at(point).knowledge is Known,
        c.constrained_points@ == local_points(board, point),
        !c.global,
    ensures
        c.fits_ids(board.border_points()),
{
    let cells = board.cells_around(point);
    board.lemma_cells_around(point);
    lemma_points_passing(cells, CellTest::Unknown);
    assert forall|m: int| 0 <= m < c.constrained_points.len() implies board.border_points().contains(
        #[trigger] c.constrained_points[m],
    ) by {
        let q = c.constrained_points[m];
        assert(points_passing(cells, CellTest::Unknown).contains(q));
        let i = choose|i: int|
            0 <= i < cells.len() && (#[trigger] cells[i]).point == q && CellTest::Unknown.passes(
                cells[i],
            );
        assert(neighbors(board.size, point)[i] == q);
        assert(neighbors(board.size, point).contains(q));
        board.lemma_unknown_neighbor_is_border(point, q);
    }
}

/// The constraint of the cell with number `x`, where it constrains the
/// border; `None` where it does not.
fn cell_constraint(board: &Board, x: usize) -> (constraint: Result<Option<MineConstraint>, SolveError>)
    requires
        board.wf(),
        x < board.field.len(),
    ensures
        match constraint {
            Ok(Some(c)) => constrains(board, board.field[x as int]) && is_local_constraint(
                c,
                board,
                board.field[x as int].point,
            ) && c.fits_ids(board.border_points()) && local_mines(board, board.field[x as int].point)
                >= 0 && local_empties(board, board.field[x as int].point) >= 0,
            Ok(None) => !constrains(board, board.field[x as int]),
            Err(e) => e == SolveError::EncodingInconsistency && constrains(
                board,
                board.field[x as int],
            ) && !(local_mines(board, board.field[x as int].point) >= 0 && local_empties(
                board,
                board.field[x as int].point,
            ) >= 0),
        },
{
    let cell = &board.field[x];
    proof {
        board.size.lemma_point_at(x as int);
        board.size.lemma_contained(cell.point);
    }
    if cell.is_known_unmined() && board.count_unknown_neighbors(&cell.point) > 0 {
        match construct_constraint(board, &cell.point) {
            Ok(constraint) => {
                proof {
                    lemma_local_constraint_fits(constraint, board, cell.point);
                }
                Ok(Some(constraint))
            },
            Err(e) => Err(e),
        }
    } else {
        Ok(None)
    }
}

/// One unassigned variable for each border cell, which may be empty or a
/// mine.
fn frontier_variables(board: &Board) -> (variables: Vec<Variable<Point, bool>>)
    requires
        board.wf(),
    ensures
        is_frontier(variables@, board),
        distinct_ids(variables@),
        ids_of(variables@) == board.border_points(),
{
    let points = board.get_border_points();
    let mut variables: Vec<Variable<Point, bool>> = Vec::new();
    let mut i: usize = 0;
    while i < points.len()
        invariant
            i <= points.len(),
            points@ == board.border_points(),
            variables.len() == i,
            forall|j: int|
                0 <= j < i ==> (#[trigger] variables[j]).id == points[j] && variables[j].value
                    is None && variables[j].possible@ == seq![false, true],
        decreases points.len() - i,
    {
        let mut possible: Vec<bool> = Vec::new();
        possible.push(false);
        possible.push(true);
        proof {
            assert(possible@ =~= seq![false, true]);
        }
        variables.push(Variable { id: points[i], value: None, possible });
        i = i + 1;
    }
    proof {
        board.lemma_border_points();
        assert(ids_of(variables@) =~= board.border_points());
        assert forall|a: int, b: int|
            0 <= a < variables.len() && 0 <= b < variables.len() && a != b implies (
        #[trigger] variables[a]).id != (#[trigger] variables[b]).id by {
            assert(board.border_points()[a] != board.border_points()[b]);
        }
    }
    variables
}

/// The constraints of the board: one for each constraining cell, row by row,
/// and the global constraint at the end. An error where a budget would be
/// negative.
fn board_constraints(board: &Board) -> (constraints: Result<Vec<MineConstraint>, SolveError>)
    requires
        board.wf(),
    ensures
        constraints is Ok <==> encodable(board),
        constraints matches Ok(cs) ==> is_encoding(cs@, board) && forall|k: int|
            0 <= k < cs.len() ==> (#[trigger] cs[k]).fits_ids(board.border_points()),
        constraints matches Err(e) ==> e == SolveError::EncodingInconsistency,
{
    let mut constraints: Vec<MineConstraint> = Vec::new();
    let mut x: usize = 0;
    while x < board.field.len()
        invariant
            board.wf(),
            x <= board.field.len(),
            constraints.len() == constraining_upto(board, x as int).len(),
            forall|j: int|
                0 <= j < constraints.len() ==> is_local_constraint(
                    #[trigger] constraints[j],
                    board,
                    constraining_upto(board, x as int)[j],
                ) && constraints[j].fits_ids(board.border_points()),
            forall|y: int|
                0 <= y < x && constrains(board, #[trigger] board.field[y]) ==> local_mines(
                    board,
                    board.field[y].point,
                ) >= 0 && local_empties(board, board.field[y].point) >= 0,
        decreases board.field.len() - x,
    {
        match cell_constraint(board, x) {
            Ok(Some(constraint)) => {
                constraints.push(constraint);
            },
            Ok(None) => {},
            Err(e) => {
                return Err(e);
            },
        }
        x = x + 1;
    }
    match construct_global_constraint(board) {
        Ok(constraint) => {
            proof {
                board.lemma_border_points();
                assert(constraint.fits_ids(board.border_points()));
            }
            constraints.push(constraint);
            Ok(constraints)
        },
        Err(e) => Err(e),
    }
}

/// The solver for the border of the board, with `selection_strategy` to pick
/// the next cell: one variable for each border cell, one constraint for each
/// revealed cell next to the border, and the global constraint. An error where
/// a budget would be negative.
pub fn build_constraint_solver_with<Strat: SelectionStrategy<Point, bool>>(
    board: &Board,
    selection_strategy: Strat,
) -> (solver: Result<ConstraintSolver<Point, bool, MineConstraint, Strat>, SolveError>)
    requires
        board.wf(),
    ensures
        solver is Ok <==> encodable(board),
        solver matches Ok(s) ==> s.wf() && is_frontier(s.lookup(), board) && is_encoding(
            s.constraints(),
            board,
        ) && s.strategy() == selection_strategy,
        solver matches Err(e) ==> e == SolveError::EncodingInconsistency,
{
    match board_constraints(board) {
        Ok(constraints) => {
            let variables = frontier_variables(board);
            Ok(ConstraintSolver::new(variables, constraints, selection_strategy))
        },
        Err(e) => Err(e),
    }
}

/// The solver for the border of the board that picks the next cell at
/// random, from a generator started from `seed`.
pub fn build_constraint_solver(board: &Board, seed: u64) -> (solver: Result<
    ConstraintSolver<Point, bool, MineConstraint, RandomSelectionStrategy>,
    SolveError,
>)
    requires
        board.wf(),
    ensures
        solver is Ok <==> encodable(board),
        solver matches Ok(s) ==> s.wf() && is_frontier(s.lookup(), board) && is_encoding(
            s.constraints(),
            board,
        ),
        solver matches Err(e) ==> e == SolveError::EncodingInconsistency,
{
    build_constraint_solver_with(board, RandomSelectionStrategy::new(seed))
}


/// The value that the sample `pairs` gives the cell at `p`; `None` for a
/// cell that it does not hold.
pub open spec fn sample_value(pairs: Seq<(Point, bool)>, p: Point) -> Option<bool> {
    if exists|i: int| 0 <= i < pairs.len() && (#[trigger] pairs[i]).0 == p {
        Some(pairs[choose|i: int| 0 <= i < pairs.len() && (#[trigger] pairs[i]).0 == p].1)
    } else {
        None
    }
}

/// The values that the sample gives the cells at `points`, in order.
pub open spec fn sampled(pairs: Seq<(Point, bool)>, points: Seq<Point>) -> Seq<Option<bool>> {
    Seq::new(points.len(), |m: int| sample_value(pairs, points[m]))
}

/// How many of the cells at `points` the sample makes mines.
pub open spec fn mines_among(pairs: Seq<(Point, bool)>, points: Seq<Point>) -> nat {
    count_value(sampled(pairs, points), true)
}

/// The values of the sample, in order.
pub open spec fn sample_values(pairs: Seq<(Point, bool)>) -> Seq<Option<bool>> {
    Seq::new(pairs.len(), |i: int| Some(pairs[i].1))
}

/// How many cells the sample makes mines.
pub open spec fn mines_total(pairs: Seq<(Point, bool)>) -> nat {
    count_value(sample_values(pairs), true)
}

/// How many cells the sample leaves empty.
pub open spec fn empties_total(pairs: Seq<(Point, bool)>) -> nat {
    count_value(sample_values(pairs), false)
}

/// `pairs` decides for each border cell of the board, in order, whether it
/// is a mine, in agreement with the board: around every constraining cell
/// lie exactly the mines that its number still asks for, and on the whole
/// there are no more mines, and no more empty cells, than the board has left.
pub open spec fn is_sample(board: &Board, pairs: Seq<(Point, bool)>) -> bool {
    &&& pairs.len() == board.border_points().len()
    &&& forall|i: int| 0 <= i < pairs.len() ==> (#[trigger] pairs[i]).0 == board.border_points()[i]
    &&& forall|x: int|
        0 <= x < board.field.len() && constrains(board, #[trigger] board.field[x]) ==> mines_among(
            pairs,
            local_points(board, board.field[x].point),
        ) == local_mines(board, board.field[x].point)
    &&& mines_total(pairs) <= global_mines(board)
    &&& empties_total(pairs) <= global_empties(board)
}

/// Entries that are all set hold `true` or `false`: the two counts add up to
/// the length.
pub proof fn lemma_counts_cover(vals: Seq<Option<bool>>)
    requires
        forall|i: int| 0 <= i < vals.len() ==> (#[trigger] vals[i]) is Some,
    ensures
        count_value(vals, true) + count_value(vals, false) == vals.len(),
    decreases vals.len(),
{
    if vals.len() > 0 {
        assert(vals.last() == vals[vals.len() - 1]);
        assert(vals.last() == Some(true) || vals.last() == Some(false)) by {
            let b = vals.last()->0;
            assert(vals.last() == Some(b));
        }
        assert forall|i: int| 0 <= i < vals.drop_last().len() implies (#[trigger] vals.drop_last()[i])
            is Some by {
            assert(vals[i] is Some);
        }
        lemma_counts_cover(vals.drop_last());
    }
}

/// Where `t` is not counted, no entry holds it.
pub proof fn lemma_count_zero(vals: Seq<Option<bool>>, t: bool, i: int)
    requires
        count_value(vals, t) == 0,
        0 <= i < vals.len(),
    ensures
        vals[i] != Some(t),
    decreases vals.len(),
{
    if i < vals.len() - 1 {
        assert(vals.drop_last()[i] == vals[i]);
        lemma_count_zero(vals.drop_last(), t, i);
    }
}

/// A full assignment and its pairs give every cell the same value.
pub proof fn lemma_pairs_value(full: Seq<Variable<Point, bool>>, p: Point)
    requires
        distinct_ids(full),
        all_assigned(full),
    ensures
        sample_value(pairs_of(full), p) == value_of(full, p),
{
    let pairs = pairs_of(full);
    if has_id(full, p) {
        let i = position_of(full, p);
        assert(pairs[i].0 == p);
        let k = choose|k: int| 0 <= k < pairs.len() && (#[trigger] pairs[k]).0 == p;
        assert(full[k].id == p);
        if k != i {
            assert(full[k].id != full[i].id);
        }
        assert(full[i].value is Some);
    } else {
        if exists|k: int| 0 <= k < pairs.len() && (#[trigger] pairs[k]).0 == p {
            let k = choose|k: int| 0 <= k < pairs.len() && (#[trigger] pairs[k]).0 == p;
            assert(full[k].id == p);
        }
    }
}

/// A full assignment and its pairs are tallied alike.
pub proof fn lemma_pairs_tallies(full: Seq<Variable<Point, bool>>, points: Seq<Point>)
    requires
        distinct_ids(full),
        all_assigned(full),
    ensures
        sampled(pairs_of(full), points) == picked(points, full),
        sample_values(pairs_of(full)) == values_of(full),
{
    assert forall|m: int| 0 <= m < points.len() implies sampled(pairs_of(full), points)[m] == picked(
        points,
        full,
    )[m] by {
        lemma_pairs_value(full, points[m]);
    }
    assert(sampled(pairs_of(full), points) =~= picked(points, full));
    assert forall|i: int| 0 <= i < full.len() implies sample_values(pairs_of(full))[i] == values_of(
        full,
    )[i] by {
        assert(full[i].value is Some);
    }
    assert(sample_values(pairs_of(full)) =~= values_of(full));
}

/// Where all points of a local constraint are assigned and the budget is
/// the number of points, the budget is met exactly as soon as it is not
/// overdrawn, and the other way round.
pub proof fn lemma_local_budget(c: MineConstraint, full: Seq<Variable<Point, bool>>)
    requires
        !c.global,
        distinct_ids(full),
        all_assigned(full),
        c.fits_ids(ids_of(full)),
        c.expected_mines + c.expected_empties == c.constrained_points.len(),
    ensures
        c.within_budget(full) <==> c.tally(full, true) == c.expected_mines,
{
    let vals = picked(c.constrained_points@, full);
    assert forall|m: int| 0 <= m < vals.len() implies (#[trigger] vals[m]) is Some by {
        let id = c.constrained_points[m];
        assert(ids_of(full).contains(id));
        lemma_known_id(full, id);
        let p = position_of(full, id);
        assert(full[p].value is Some);
    }
    lemma_counts_cover(vals);
}

/// What the search calls a solution of the encoding of a board is a sample
/// of the board.
pub proof fn lemma_solution_is_sample(
    board: &Board,
    constraints: Seq<MineConstraint>,
    vars: Seq<Variable<Point, bool>>,
    full: Seq<Variable<Point, bool>>,
)
    requires
        board.wf(),
        is_frontier(vars, board),
        is_encoding(constraints, board),
        is_solution(constraints, vars, full),
    ensures
        is_sample(board, pairs_of(full)),
{
    let pairs = pairs_of(full);
    let border = board.border_points();
    board.lemma_border_points();
    assert(ids_of(vars) =~= border);
    assert(distinct_ids(vars)) by {
        assert forall|a: int, b: int|
            0 <= a < vars.len() && 0 <= b < vars.len() && a != b implies (#[trigger] vars[a]).id != (
        #[trigger] vars[b]).id by {
            assert(border[a] != border[b]);
        }
    }
    lemma_same_shape_ids(full, vars);
    lemma_constraining_upto(board, board.field.len() as int);
    let sources = constraining_points(board);
    assert forall|x: int|
        0 <= x < board.field.len() && constrains(board, #[trigger] board.field[x]) implies mines_among(
        pairs,
        local_points(board, board.field[x].point),
    ) == local_mines(board, board.field[x].point) by {
        let p = board.field[x].point;
        assert(sources.contains(p));
        let j = choose|j: int| 0 <= j < sources.len() && sources[j] == p;
        let c = constraints[j];
        assert(is_local_constraint(c, board, sources[j]));
        board.size.lemma_point_at(x);
        board.size.lemma_contained(p);
        lemma_local_constraint_fits(c, board, p);
        lemma_points_passing(board.cells_around(p), CellTest::Unknown);
        assert(c.satisfiable(full));
        lemma_local_budget(c, full);
        lemma_pairs_tallies(full, local_points(board, p));
    }
    lemma_pairs_tallies(full, border);
    let g = constraints[constraints.len() - 1];
    assert(g.satisfiable(full));
}

/// The full assignment that gives the variables the values of `pairs`.
pub open spec fn assignment_of(vars: Seq<Variable<Point, bool>>, pairs: Seq<(Point, bool)>) -> Seq<
    Variable<Point, bool>,
> {
    Seq::new(
        vars.len(),
        |i: int| Variable { id: vars[i].id, value: Some(pairs[i].1), possible: vars[i].possible },
    )
}

/// A sample of the board is what the search calls a solution of the
/// encoding of the board.
pub proof fn lemma_sample_is_solution(
    board: &Board,
    constraints: Seq<MineConstraint>,
    vars: Seq<Variable<Point, bool>>,
    pairs: Seq<(Point, bool)>,
)
    requires
        board.wf(),
        is_frontier(vars, board),
        is_encoding(constraints, board),
        is_sample(board, pairs),
    ensures
        is_solution(constraints, vars, assignment_of(vars, pairs)),
        pairs_of(assignment_of(vars, pairs)) == pairs,
{
    let full = assignment_of(vars, pairs);
    let border = board.border_points();
    board.lemma_border_points();
    assert(pairs_of(full) =~= pairs);
    assert(ids_of(full) =~= border);
    assert(distinct_ids(full)) by {
        assert forall|a: int, b: int|
            0 <= a < full.len() && 0 <= b < full.len() && a != b implies (#[trigger] full[a]).id != (
        #[trigger] full[b]).id by {
            assert(border[a] != border[b]);
        }
    }
    assert(values_in_domain(full)) by {
        assert forall|i: int| 0 <= i < full.len() implies ((#[trigger] full[i]).value matches Some(v)
            ==> full[i].possible@.contains(v)) by {
            let v = pairs[i].1;
            assert(vars[i].possible@ == seq![false, true]);
            if v {
                assert(seq![false, true][1] == true);
            } else {
                assert(seq![false, true][0] == false);
            }
        }
    }
    assert(extends(full, vars)) by {
        assert forall|i: int| 0 <= i < vars.len() implies (#[trigger] full[i]).id == vars[i].id
            && full[i].possible@ == vars[i].possible@ by {}
        assert forall|i: int|
            0 <= i < vars.len() && (#[trigger] vars[i]).value is Some implies full[i].value
            == vars[i].value by {}
    }
    lemma_constraining_upto(board, board.field.len() as int);
    let sources = constraining_points(board);
    lemma_pairs_tallies(full, border);
    assert forall|k: int| 0 <= k < constraints.len() implies (#[trigger] constraints[k]).satisfiable(
        full,
    ) by {
        let c = constraints[k];
        if k < sources.len() {
            let p = sources[k];
            assert(is_local_constraint(c, board, p));
            assert(is_constraining_point(board, board.field.len() as int, sources[k]));
            let x = choose|x: int|
                0 <= x < board.field.len() && (#[trigger] board.field[x]).point == p && constrains(
                    board,
                    board.field[x],
                );
            board.size.lemma_point_at(x);
            board.size.lemma_contained(p);
            lemma_local_constraint_fits(c, board, p);
            lemma_pairs_tallies(full, local_points(board, p));
            assert(mines_among(pairs, local_points(board, board.field[x].point)) == local_mines(
                board,
                board.field[x].point,
            ));
            lemma_local_budget(c, full);
        } else {
            assert(is_global_constraint(c, board));
        }
    }
}

/// One sample of where the mines may lie on the border of the board: the
/// border cells are taken in random order, each is tried as empty, then as a
/// mine, and the first assignment of all of them that agrees with the board
/// comes back, as pairs of cell and value in the order of the border.
pub fn rollout(board: &Board, seed: u64) -> (sample: Result<Vec<(Point, bool)>, SolveError>)
    requires
        board.wf(),
    ensures
        match sample {
            Ok(pairs) => encodable(board) && is_sample(board, pairs@),
            Err(SolveError::EncodingInconsistency) => !encodable(board),
            Err(SolveError::SearchExhausted) => encodable(board) && forall|
                pairs: Seq<(Point, bool)>,
            |
                !is_sample(board, pairs),
        },
{
    match build_constraint_solver(board, seed) {
        Err(e) => Err(e),
        Ok(solver) => {
            let mut solver = solver;
            let ghost vars = solver.lookup();
            let ghost constraints = solver.constraints();
            match solver.backtrack() {
                Some(pairs) => {
                    proof {
                        lemma_solution_is_sample(board, constraints, vars, solver.lookup());
                    }
                    Ok(pairs)
                },
                None => {
                    proof {
                        assert forall|pairs: Seq<(Point, bool)>| !is_sample(board, pairs) by {
                            if is_sample(board, pairs) {
                                lemma_sample_is_solution(board, constraints, vars, pairs);
                                assert(is_solution(constraints, vars, assignment_of(vars, pairs)));
                            }
                        }
                    }
                    Err(SolveError::SearchExhausted)
                },
            }
        },
    }
}

/// Every sample holds exactly the mines that the board has left, provided
/// that every cell that is not revealed lies on the border.
pub proof fn lemma_sample_conserves_mines(board: &Board, pairs: Seq<(Point, bool)>)
    requires
        board.wf(),
        is_sample(board, pairs),
        board.border_points().len() == count_passing(board.field@, CellTest::Hidden),
    ensures
        mines_total(pairs) == global_mines(board),
{
    let vals = sample_values(pairs);
    assert forall|i: int| 0 <= i < vals.len() implies (#[trigger] vals[i]) is Some by {}
    lemma_counts_cover(vals);
}

/// Around a constraining cell whose number asks for no further mine, every
/// sample leaves the unknown cells empty.
pub proof fn lemma_sample_safe_cell(board: &Board, pairs: Seq<(Point, bool)>, x: int, q: Point)
    requires
        board.wf(),
        is_sample(board, pairs),
        0 <= x < board.field.len(),
        constrains(board, board.field[x]),
        local_mines(board, board.field[x].point) == 0,
        local_points(board, board.field[x].point).contains(q),
    ensures
        sample_value(pairs, q) == Some(false),
{
    let p = board.field[x].point;
    let points = local_points(board, p);
    let m = choose|m: int| 0 <= m < points.len() && points[m] == q;
    lemma_count_zero(sampled(pairs, points), true, m);
    board.size.lemma_point_at(x);
    board.size.lemma_contained(p);
    board.lemma_cells_around(p);
    lemma_points_passing(board.cells_around(p), CellTest::Unknown);
    assert(points.contains(q));
    let i = choose|i: int|
        0 <= i < board.cells_around(p).len() && (#[trigger] board.cells_around(p)[i]).point == q
            && CellTest::Unknown.passes(board.cells_around(p)[i]);
    assert(neighbors(board.size, p)[i] == q);
    assert(neighbors(board.size, p).contains(q));
    board.lemma_unknown_neighbor_is_border(p, q);
    let k = choose|k: int| 0 <= k < board.border_points().len() && board.border_points()[k] == q;
    assert(pairs[k].0 == q);
}

/// Where the board has no empty cell left among those that are not revealed,
/// every sample makes every border cell a mine.
pub proof fn lemma_sample_all_mines(board: &Board, pairs: Seq<(Point, bool)>, i: int)
    requires
        board.wf(),
        is_sample(board, pairs),
        global_empties(board) == 0,
        0 <= i < pairs.len(),
    ensures
        pairs[i].1,
{
    lemma_count_zero(sample_values(pairs), false, i);
}


/// Where the board has no mine left to find, every sample leaves every
/// border cell empty.
pub proof fn lemma_sample_no_mines(board: &Board, pairs: Seq<(Point, bool)>, i: int)
    requires
        board.wf(),
        is_sample(board, pairs),
        global_mines(board) == 0,
        0 <= i < pairs.len(),
    ensures
        !pairs[i].1,
{
    lemma_count_zero(sample_values(pairs), true, i);
}

/// No sample of the board makes the cell at `p` a mine.
pub open spec fn never_mine(board: &Board, p: Point) -> bool {
    forall|pairs: Seq<(Point, bool)>| #[trigger]
        is_sample(board, pairs) ==> sample_value(pairs, p) != Some(true)
}

/// Every sample of the board makes the cell at `p` a mine.
pub open spec fn always_mine(board: &Board, p: Point) -> bool {
    forall|pairs: Seq<(Point, bool)>| #[trigger]
        is_sample(board, pairs) ==> sample_value(pairs, p) == Some(true)
}

/// An unknown cell next to a constraining cell whose number asks for no
/// further mine is a mine in no sample.
pub proof fn lemma_safe_cell_never_mine(board: &Board, x: int, q: Point)
    requires
        board.wf(),
        0 <= x < board.field.len(),
        constrains(board, board.field[x]),
        local_mines(board, board.field[x].point) == 0,
        local_points(board, board.field[x].point).contains(q),
    ensures
        never_mine(board, q),
{
    assert forall|pairs: Seq<(Point, bool)>| #[trigger] is_sample(board, pairs) implies sample_value(
        pairs,
        q,
    ) != Some(true) by {
        lemma_sample_safe_cell(board, pairs, x, q);
    }
}

/// A sample gives the cell of its `i`-th pair the value of that pair.
pub proof fn lemma_sample_value_at(board: &Board, pairs: Seq<(Point, bool)>, i: int)
    requires
        board.wf(),
        is_sample(board, pairs),
        0 <= i < pairs.len(),
    ensures
        sample_value(pairs, pairs[i].0) == Some(pairs[i].1),
{
    board.lemma_border_points();
    let p = pairs[i].0;
    assert(pairs[i].0 == p);
    let k = choose|k: int| 0 <= k < pairs.len() && (#[trigger] pairs[k]).0 == p;
    if k != i {
        assert(board.border_points()[k] == pairs[k].0);
        assert(board.border_points()[i] == pairs[i].0);
        assert(board.border_points()[k] != board.border_points()[i]);
    }
}

/// Where the board has no empty cell left among those that are not revealed,
/// every border cell is a mine in every sample.
pub proof fn lemma_border_always_mine(board: &Board, q: Point)
    requires
        board.wf(),
        global_empties(board) == 0,
        board.border_points().contains(q),
    ensures
        always_mine(board, q),
{
    assert forall|pairs: Seq<(Point, bool)>| #[trigger] is_sample(board, pairs) implies sample_value(
        pairs,
        q,
    ) == Some(true) by {
        let k = choose|k: int| 0 <= k < board.border_points().len() && board.border_points()[k] == q;
        assert(pairs[k].0 == q);
        lemma_sample_all_mines(board, pairs, k);
        lemma_sample_value_at(board, pairs, k);
    }
}

/// A cell off the border is a mine in no sample: samples do not speak of it.
pub proof fn lemma_off_border_never_mine(board: &Board, q: Point)
    requires
        !board.border_points().contains(q),
    ensures
        never_mine(board, q),
{
    assert forall|pairs: Seq<(Point, bool)>| #[trigger] is_sample(board, pairs) implies sample_value(
        pairs,
        q,
    ) != Some(true) by {
        if exists|i: int| 0 <= i < pairs.len() && (#[trigger] pairs[i]).0 == q {
            let i = choose|i: int| 0 <= i < pairs.len() && (#[trigger] pairs[i]).0 == q;
            assert(board.border_points()[i] == q);
        }
    }
}

/// The chance that a cell holds a mine, as a fraction: in `hits` of
/// `rollouts` samples it did. Without samples nothing is known.
#[derive(Debug, Clone, Copy, PartialEq, Eq, Structural)]
pub struct Probability {
    pub hits: usize,
    pub rollouts: usize,
}

impl Probability {
    /// The fraction lies between 0 and 1.
    pub open spec fn wf(self) -> bool {
        self.hits <= self.rollouts
    }

    /// The chance is 0: there are samples, and the cell is a mine in none.
    pub fn is_zero(&self) -> (zero: bool)
        ensures
            zero == (self.rollouts > 0 && self.hits == 0),
    {
        self.rollouts > 0 && self.hits == 0
    }

    /// The chance is 1: there are samples, and the cell is a mine in all.
    pub fn is_one(&self) -> (one: bool)
        ensures
            one == (self.rollouts > 0 && self.hits == self.rollouts),
    {
        self.rollouts > 0 && self.hits == self.rollouts
    }

    /// Whether the chance is greater than that of `other`. A chance without
    /// samples is neither greater nor smaller than any other.
    pub fn exceeds(&self, other: &Probability) -> (greater: bool)
        ensures
            greater == (self.rollouts > 0 && other.rollouts > 0 && self.hits * other.rollouts
                > other.hits * self.rollouts),
    {
        if self.rollouts == 0 || other.rollouts == 0 {
            return false;
        }
        proof {
            assert(0 <= self.hits * other.rollouts <= 0xffff_ffff_ffff_ffff * 0xffff_ffff_ffff_ffff)
                by (nonlinear_arith)
                requires
                    0 <= self.hits <= 0xffff_ffff_ffff_ffff,
                    0 <= other.rollouts <= 0xffff_ffff_ffff_ffff,
            ;
            assert(0 <= other.hits * self.rollouts <= 0xffff_ffff_ffff_ffff * 0xffff_ffff_ffff_ffff)
                by (nonlinear_arith)
                requires
                    0 <= other.hits <= 0xffff_ffff_ffff_ffff,
                    0 <= self.rollouts <= 0xffff_ffff_ffff_ffff,
            ;
        }
        self.hits as u128 * other.rollouts as u128 > other.hits as u128 * self.rollouts as u128
    }
}

/// No point occurs twice in `pairs`.
pub open spec fn distinct_points(pairs: Seq<(Point, bool)>) -> bool {
    forall|i: int, j: int|
        0 <= i < pairs.len() && 0 <= j < pairs.len() && i != j ==> (#[trigger] pairs[i]).0 != (
        #[trigger] pairs[j]).0
}

/// One of the first `n` pairs makes the cell at `p` a mine.
pub open spec fn marked_upto(pairs: Seq<(Point, bool)>, n: int, p: Point) -> bool {
    exists|j: int| 0 <= j < n && j < pairs.len() && #[trigger] pairs[j] == (p, true)
}

/// The running tally of the samples: for each cell the number of samples
/// that made it a mine, and the number of samples.
pub struct Estimator {
    pub mine_counts: Counts<Point>,
    pub rollouts: usize,
}

impl Estimator {
    /// In how many samples the cell at `p` was a mine.
    pub open spec fn hits(&self, p: Point) -> nat {
        self.mine_counts.count(p)
    }

    /// No cell was a mine more often than there were samples.
    pub open spec fn wf(&self) -> bool {
        &&& self.mine_counts.wf()
        &&& forall|p: Point| #[trigger] self.mine_counts.count(p) <= self.rollouts
    }

    /// The tally holds nothing but samples of the board: a cell that no
    /// sample makes a mine was never counted, and a cell that every sample
    /// makes a mine was counted every time.
    pub open spec fn agrees_with(&self, board: &Board) -> bool {
        &&& forall|p: Point| never_mine(board, p) ==> #[trigger] self.mine_counts.count(p) == 0
        &&& forall|p: Point|
            always_mine(board, p) ==> #[trigger] self.mine_counts.count(p) == self.rollouts
    }

    /// The tally before the first sample.
    pub fn new() -> (estimator: Estimator)
        ensures
            estimator.wf(),
            estimator.rollouts == 0,
            forall|p: Point| estimator.hits(p) == 0,
    {
        Estimator { mine_counts: Counts::new(), rollouts: 0 }
    }

    /// Adds one sample to the tally: each cell that the sample makes a mine is
    /// counted once.
    pub fn record(&mut self, assignment: &Vec<(Point, bool)>)
        requires
            old(self).wf(),
            old(self).rollouts < usize::MAX,
            distinct_points(assignment@),
        ensures
            final(self).wf(),
            final(self).rollouts == old(self).rollouts + 1,
            forall|p: Point| #[trigger]
                final(self).hits(p) == old(self).hits(p) + if sample_value(assignment@, p) == Some(
                    true,
                ) {
                    1nat
                } else {
                    0nat
                },
    {
        let ghost pairs = assignment@;
        let mut i: usize = 0;
        while i < assignment.len()
            invariant
                pairs == assignment@,
                distinct_points(pairs),
                i <= assignment.len(),
                self.mine_counts.wf(),
                self.rollouts == old(self).rollouts,
                self.rollouts < usize::MAX,
                forall|p: Point| #[trigger] old(self).mine_counts.count(p) <= self.rollouts,
                forall|p: Point| #[trigger]
                    self.mine_counts.count(p) == old(self).mine_counts.count(p) + if marked_upto(
                        pairs,
                        i as int,
                        p,
                    ) {
                        1nat
                    } else {
                        0nat
                    },
            decreases assignment.len() - i,
        {
            let (point, mined) = assignment[i];
            let ghost before = self.mine_counts;
            if mined {
                proof {
                    assert(eq_decides_identity::<Point>());
                    if marked_upto(pairs, i as int, point) {
                        let j = choose|j: int|
                            0 <= j < i && j < pairs.len() && #[trigger] pairs[j] == (point, true);
                        assert(pairs[j].0 != pairs[i as int].0);
                    }
                    assert(self.mine_counts.count(point) == old(self).mine_counts.count(point));
                }
                self.mine_counts.increment(point);
            }
            proof {
                assert forall|p: Point| #[trigger]
                    self.mine_counts.count(p) == old(self).mine_counts.count(p) + if marked_upto(
                        pairs,
                        i + 1,
                        p,
                    ) {
                        1nat
                    } else {
                        0nat
                    } by {
                    assert(before.count(p) == old(self).mine_counts.count(p) + if marked_upto(
                        pairs,
                        i as int,
                        p,
                    ) {
                        1nat
                    } else {
                        0nat
                    });
                    if marked_upto(pairs, i as int, p) {
                        let j = choose|j: int|
                            0 <= j < i && j < pairs.len() && #[trigger] pairs[j] == (p, true);
                        assert(0 <= j < i + 1 && pairs[j] == (p, true));
                        if mined && p == point {
                            assert(pairs[j].0 != pairs[i as int].0);
                        }
                    } else {
                        if marked_upto(pairs, i + 1, p) {
                            let j = choose|j: int|
                                0 <= j < i + 1 && j < pairs.len() && #[trigger] pairs[j] == (p, true);
                            assert(j == i);
                        } else {
                            if mined && p == point {
                                assert(pairs[i as int] == (p, true));
                            }
                        }
                    }
                }
            }
            i = i + 1;
        }
        self.rollouts = self.rollouts + 1;
        proof {
            assert forall|p: Point| #[trigger]
                self.mine_counts.count(p) == old(self).mine_counts.count(p) + if sample_value(
                    pairs,
                    p,
                ) == Some(true) {
                    1nat
                } else {
                    0nat
                } by {
                assert(self.mine_counts.count(p) == old(self).mine_counts.count(p) + if marked_upto(
                    pairs,
                    pairs.len() as int,
                    p,
                ) {
                    1nat
                } else {
                    0nat
                });
                if marked_upto(pairs, pairs.len() as int, p) {
                    let j = choose|j: int|
                        0 <= j < pairs.len() && j < pairs.len() && #[trigger] pairs[j] == (p, true);
                    assert(pairs[j].0 == p);
                    let k = choose|k: int| 0 <= k < pairs.len() && (#[trigger] pairs[k]).0 == p;
                    if k != j {
                        assert(pairs[k].0 != pairs[j].0);
                    }
                } else {
                    if sample_value(pairs, p) == Some(true) {
                        let k = choose|k: int| 0 <= k < pairs.len() && (#[trigger] pairs[k]).0 == p;
                        assert(pairs[k] == (p, true));
                    }
                }
            }
            assert forall|p: Point| #[trigger] self.mine_counts.count(p) <= self.rollouts by {
                assert(old(self).mine_counts.count(p) <= old(self).rollouts);
            }
        }
    }

    /// The estimate for each of `border_points`, in order: the fraction of
    /// the samples in which the cell was a mine.
    pub fn probabilities(&self, border_points: &Vec<Point>) -> (estimates: Vec<(Point, Probability)>)
        requires
            self.wf(),
        ensures
            estimates.len() == border_points.len(),
            forall|i: int|
                0 <= i < estimates.len() ==> #[trigger] estimates[i] == (
                    border_points[i],
                    Probability { hits: self.hits(border_points[i]) as usize, rollouts: self.rollouts },
                ),
            forall|i: int| 0 <= i < estimates.len() ==> (#[trigger] estimates[i]).1.wf(),
    {
        let mut estimates: Vec<(Point, Probability)> = Vec::new();
        let mut i: usize = 0;
        while i < border_points.len()
            invariant
                self.wf(),
                i <= border_points.len(),
                estimates.len() == i,
                forall|j: int|
                    0 <= j < i ==> #[trigger] estimates[j] == (
                        border_points[j],
                        Probability {
                            hits: self.hits(border_points[j]) as usize,
                            rollouts: self.rollouts,
                        },
                    ),
            decreases border_points.len() - i,
        {
            proof {
                assert(eq_decides_identity::<Point>());
            }
            let hits = self.mine_counts.get(&border_points[i]);
            estimates.push((border_points[i], Probability { hits, rollouts: self.rollouts }));
            i = i + 1;
        }
        proof {
            assert forall|i: int| 0 <= i < estimates.len() implies (#[trigger] estimates[i]).1.wf() by {
                assert(self.mine_counts.count(border_points[i]) <= self.rollouts);
            }
        }
        estimates
    }
}

/// In how many of `samples` the cell at `p` is a mine.
pub open spec fn times_mined(samples: Seq<Seq<(Point, bool)>>, p: Point) -> nat
    decreases samples.len(),
{
    if samples.len() == 0 {
        0
    } else {
        times_mined(samples.drop_last(), p) + if sample_value(samples.last(), p) == Some(true) {
            1nat
        } else {
            0nat
        }
    }
}

/// The tally `e` is that of `samples`: they are as many as it has rollouts,
/// each is a sample of the board, and for every cell the tally holds the
/// number of them that make the cell a mine.
pub open spec fn tallies(e: Estimator, board: &Board, samples: Seq<Seq<(Point, bool)>>) -> bool {
    &&& samples.len() == e.rollouts
    &&& forall|i: int| 0 <= i < samples.len() ==> is_sample(board, #[trigger] samples[i])
    &&& forall|p: Point| #[trigger] e.mine_counts.count(p) == times_mined(samples, p)
}

/// The tally `e` is that of some samples of the board.
pub open spec fn is_tally_of(e: Estimator, board: &Board) -> bool {
    exists|samples: Seq<Seq<(Point, bool)>>| tallies(e, board, samples)
}

/// A cell is a mine in no more samples than there are; in none where no
/// sample of the board makes it a mine, and in all where every sample does.
pub proof fn lemma_times_mined(board: &Board, samples: Seq<Seq<(Point, bool)>>, p: Point)
    requires
        forall|i: int| 0 <= i < samples.len() ==> is_sample(board, #[trigger] samples[i]),
    ensures
        times_mined(samples, p) <= samples.len(),
        never_mine(board, p) ==> times_mined(samples, p) == 0,
        always_mine(board, p) ==> times_mined(samples, p) == samples.len(),
    decreases samples.len(),
{
    if samples.len() > 0 {
        let rest = samples.drop_last();
        assert forall|i: int| 0 <= i < rest.len() implies is_sample(board, #[trigger] rest[i]) by {
            assert(is_sample(board, samples[i]));
        }
        lemma_times_mined(board, rest, p);
        assert(is_sample(board, samples[samples.len() - 1]));
    }
}

/// A tally of samples lies within its bounds and agrees with the board.
pub proof fn lemma_tally_agrees(e: Estimator, board: &Board, samples: Seq<Seq<(Point, bool)>>)
    requires
        tallies(e, board, samples),
    ensures
        e.agrees_with(board),
        forall|p: Point| #[trigger] e.mine_counts.count(p) <= e.rollouts,
{
    assert forall|p: Point| never_mine(board, p) implies #[trigger] e.mine_counts.count(p) == 0 by {
        lemma_times_mined(board, samples, p);
    }
    assert forall|p: Point| always_mine(board, p) implies #[trigger] e.mine_counts.count(p)
        == e.rollouts by {
        lemma_times_mined(board, samples, p);
    }
    assert forall|p: Point| #[trigger] e.mine_counts.count(p) <= e.rollouts by {
        lemma_times_mined(board, samples, p);
    }
}

/// The tally of `rollouts` samples of the board, drawn with the seeds
/// `seed`, `seed + 1` and so on. The first sample that cannot be had ends the
/// run with its error.
pub fn run_rollouts(board: &Board, rollouts: usize, seed: u64) -> (estimate: Result<
    Estimator,
    SolveError,
>)
    requires
        board.wf(),
    ensures
        match estimate {
            Ok(e) => e.wf() && e.rollouts == rollouts && is_tally_of(e, board) && e.agrees_with(
                board,
            ) && (rollouts > 0 ==> encodable(board)),
            Err(SolveError::EncodingInconsistency) => rollouts > 0 && !encodable(board),
            Err(SolveError::SearchExhausted) => rollouts > 0 && encodable(board) && forall|
                pairs: Seq<(Point, bool)>,
            |
                !is_sample(board, pairs),
        },
{
    let mut estimator = Estimator::new();
    let mut done: usize = 0;
    let ghost mut samples: Seq<Seq<(Point, bool)>> = Seq::empty();
    while done < rollouts
        invariant
            board.wf(),
            done <= rollouts,
            estimator.wf(),
            estimator.rollouts == done,
            tallies(estimator, board, samples),
            done > 0 ==> encodable(board),
        decreases rollouts - done,
    {
        let round_seed = seed.wrapping_add(done as u64);
        match rollout(board, round_seed) {
            Ok(assignment) => {
                let ghost before = estimator;
                let ghost earlier = samples;
                proof {
                    board.lemma_border_points();
                    assert(distinct_points(assignment@)) by {
                        assert forall|i: int, j: int|
                            0 <= i < assignment@.len() && 0 <= j < assignment@.len() && i
                                != j implies (#[trigger] assignment@[i]).0 != (
                        #[trigger] assignment@[j]).0 by {
                            assert(board.border_points()[i] != board.border_points()[j]);
                        }
                    }
                }
                estimator.record(&assignment);
                proof {
                    samples = earlier.push(assignment@);
                    assert(samples.drop_last() =~= earlier);
                    assert forall|i: int| 0 <= i < samples.len() implies is_sample(
                        board,
                        #[trigger] samples[i],
                    ) by {
                        if i < earlier.len() {
                            assert(is_sample(board, earlier[i]));
                        }
                    }
                    assert forall|p: Point| #[trigger]
                        estimator.mine_counts.count(p) == times_mined(samples, p) by {
                        assert(estimator.hits(p) == before.hits(p) + if sample_value(assignment@, p)
                            == Some(true) {
                            1nat
                        } else {
                            0nat
                        });
                        assert(before.mine_counts.count(p) == times_mined(earlier, p));
                    }
                }
            },
            Err(e) => {
                return Err(e);
            },
        }
        done = done + 1;
    }
    proof {
        lemma_tally_agrees(estimator, board, samples);
    }
    Ok(estimator)
}

/// Adds to `result` the points of `more` that it does not hold yet.
fn add_new(result: &mut Vec<Point>, more: &Vec<Point>)
    requires
        old(result)@.no_duplicates(),
    ensures
        final(result)@.no_duplicates(),
        forall|p: Point| #[trigger]
            final(result)@.contains(p) <==> old(result)@.contains(p) || more@.contains(p),
{
    let mut i: usize = 0;
    while i < more.len()
        invariant
            i <= more.len(),
            result@.no_duplicates(),
            forall|p: Point| #[trigger]
                result@.contains(p) <==> old(result)@.contains(p) || more@.take(i as int).contains(p),
        decreases more.len() - i,
    {
        let ghost before = result@;
        proof {
            assert(eq_decides_identity::<Point>());
            assert(more@.take(i + 1) =~= more@.take(i as int).push(more[i as int]));
        }
        if !contains_id(result, &more[i]) {
            result.push(more[i]);
        }
        proof {
            let q = more[i as int];
            let earlier = more@.take(i as int);
            let next = more@.take(i + 1);
            assert forall|p: Point| #[trigger]
                result@.contains(p) <==> old(result)@.contains(p) || next.contains(p) by {
                if result@.contains(p) {
                    let k = choose|k: int| 0 <= k < result@.len() && result@[k] == p;
                    if k < before.len() {
                        assert(before[k] == p);
                        assert(before.contains(p));
                        if earlier.contains(p) {
                            let w = choose|w: int| 0 <= w < earlier.len() && earlier[w] == p;
                            assert(next[w] == p);
                        }
                    } else {
                        assert(p == q);
                        assert(next[i as int] == q);
                    }
                }
                if before.contains(p) {
                    let k = choose|k: int| 0 <= k < before.len() && before[k] == p;
                    assert(result@[k] == p);
                }
                if next.contains(p) {
                    let w = choose|w: int| 0 <= w < next.len() && next[w] == p;
                    if w < i {
                        assert(earlier[w] == p);
                        assert(earlier.contains(p));
                    } else {
                        assert(p == q);
                        if before.contains(q) {
                        } else {
                            assert(result@[result@.len() - 1] == q);
                        }
                    }
                }
            }
        }
        i = i + 1;
    }
    proof {
        assert(more@.take(more.len() as int) =~= more@);
    }
}

/// Among the first `n` cells there is a revealed cell whose number says that
/// the unknown cell at `p`, next to it, holds a mine.
pub open spec fn surely_mined(board: &Board, n: int, p: Point) -> bool {
    exists|x: int|
        0 <= x < n && (#[trigger] board.field[x]).knowledge is Known && board.flaggable_around(
            board.field[x].point,
        ).contains(p)
}

/// Among the first `n` cells there is a revealed cell whose number says that
/// the unknown cell at `p`, next to it, holds no mine.
pub open spec fn surely_safe(board: &Board, n: int, p: Point) -> bool {
    exists|x: int|
        0 <= x < n && (#[trigger] board.field[x]).knowledge is Known && board.safe_around(
            board.field[x].point,
        ).contains(p)
}

/// The moves in `moves` are flags on exactly the cells that surely hold a
/// mine, one each.
pub open spec fn flags_all_mined(board: &Board, moves: Seq<ActionType>) -> bool {
    &&& forall|i: int|
        0 <= i < moves.len() ==> ((#[trigger] moves[i]) matches ActionType::Flag(p) && surely_mined(
            board,
            board.field.len() as int,
            p,
        ))
    &&& forall|p: Point| #[trigger]
        surely_mined(board, board.field.len() as int, p) ==> moves.contains(ActionType::Flag(p))
    &&& moves.no_duplicates()
}

/// The moves in `moves` are clicks on exactly the cells that surely hold no
/// mine, one each.
pub open spec fn clicks_all_safe(board: &Board, moves: Seq<ActionType>) -> bool {
    &&& forall|i: int|
        0 <= i < moves.len() ==> ((#[trigger] moves[i]) matches ActionType::Click(p) && surely_safe(
            board,
            board.field.len() as int,
            p,
        ))
    &&& forall|p: Point| #[trigger]
        surely_safe(board, board.field.len() as int, p) ==> moves.contains(ActionType::Click(p))
    &&& moves.no_duplicates()
}

/// Some cell surely holds a mine.
pub open spec fn has_sure_mine(board: &Board) -> bool {
    exists|p: Point| surely_mined(board, board.field.len() as int, p)
}

/// Some cell surely holds no mine.
pub open spec fn has_sure_safe(board: &Board) -> bool {
    exists|p: Point| surely_safe(board, board.field.len() as int, p)
}

/// `a` is the greater chance.
pub open spec fn greater(a: Probability, b: Probability) -> bool {
    a.rollouts > 0 && b.rollouts > 0 && a.hits * b.rollouts > b.hits * a.rollouts
}

/// What is greater than `b` is greater than what is not greater than `b`.
pub proof fn lemma_greater_chain(a: Probability, b: Probability, c: Probability)
    requires
        greater(a, b),
        !greater(c, b),
        c.rollouts > 0,
    ensures
        greater(a, c),
{
    let (ah, ar) = (a.hits as int, a.rollouts as int);
    let (bh, br) = (b.hits as int, b.rollouts as int);
    let (ch, cr) = (c.hits as int, c.rollouts as int);
    assert(ah * br * cr > bh * ar * cr) by (nonlinear_arith)
        requires
            ah * br > bh * ar,
            cr > 0,
    ;
    assert(ch * br * ar <= bh * cr * ar) by (nonlinear_arith)
        requires
            ch * br <= bh * cr,
            ar > 0,
    ;
    assert(ah * cr > ch * ar) by (nonlinear_arith)
        requires
            ah * br * cr > bh * ar * cr,
            ch * br * ar <= bh * cr * ar,
            br > 0,
    ;
}

/// The moves that the first `n` estimates make certain, in order: a click
/// where the chance of a mine is 0, a flag where it is 1.
pub open spec fn certain_upto(estimates: Seq<(Point, Probability)>, n: int) -> Seq<ActionType>
    decreases n,
{
    if n <= 0 {
        Seq::empty()
    } else {
        let rest = certain_upto(estimates, n - 1);
        let (point, chance) = estimates[n - 1];
        if chance.rollouts > 0 && chance.hits == 0 {
            rest.push(ActionType::Click(point))
        } else if chance.rollouts > 0 && chance.hits == chance.rollouts {
            rest.push(ActionType::Flag(point))
        } else {
            rest
        }
    }
}

/// Among the first `n` estimates, the one at `b` is the first with the
/// greatest chance, and that chance is not 0.
pub open spec fn is_likeliest(estimates: Seq<(Point, Probability)>, n: int, b: int) -> bool {
    &&& 0 <= b < n
    &&& estimates[b].1.rollouts > 0
    &&& estimates[b].1.hits > 0
    &&& forall|j: int|
        0 <= j < b && (#[trigger] estimates[j]).1.rollouts > 0 ==> greater(
            estimates[b].1,
            estimates[j].1,
        )
    &&& forall|j: int| b < j < n ==> !greater((#[trigger] estimates[j]).1, estimates[b].1)
}

/// None of the first `n` estimates has a chance above 0.
pub open spec fn none_likely(estimates: Seq<(Point, Probability)>, n: int) -> bool {
    forall|j: int|
        0 <= j < n ==> !((#[trigger] estimates[j]).1.rollouts > 0 && estimates[j].1.hits > 0)
}

/// `moves` is what the estimates lead to: the certain moves where there are
/// any; otherwise a flag on the likeliest cell; without a likely cell a flag
/// on some unknown cell of the board; and nothing where there is none.
pub open spec fn follows_estimates(
    board: &Board,
    estimates: Seq<(Point, Probability)>,
    moves: Seq<ActionType>,
) -> bool {
    let n = estimates.len() as int;
    if certain_upto(estimates, n).len() > 0 {
        moves == certain_upto(estimates, n)
    } else if exists|b: int| is_likeliest(estimates, n, b) {
        exists|b: int| is_likeliest(estimates, n, b) && moves == seq![ActionType::Flag(estimates[b].0)]
    } else if points_passing(board.field@, CellTest::Unknown).len() > 0 {
        exists|p: Point| #[trigger]
            points_passing(board.field@, CellTest::Unknown).contains(p) && moves
                == seq![ActionType::Flag(p)]
    } else {
        moves.len() == 0
    }
}

/// `moves` is what the tally `estimator` of `rollouts` samples of the board
/// leads to, by way of the estimates for the border cells: for each the
/// number of the samples that make it a mine, out of `rollouts`.
pub open spec fn guided_by(
    board: &Board,
    rollouts: usize,
    estimator: Estimator,
    estimates: Seq<(Point, Probability)>,
    moves: Seq<ActionType>,
) -> bool {
    &&& estimator.wf()
    &&& estimator.rollouts == rollouts
    &&& is_tally_of(estimator, board)
    &&& estimator.agrees_with(board)
    &&& estimates.len() == board.border_points().len()
    &&& forall|i: int|
        0 <= i < estimates.len() ==> #[trigger] estimates[i] == (
            board.border_points()[i],
            Probability { hits: estimator.hits(board.border_points()[i]) as usize, rollouts },
        )
    &&& follows_estimates(board, estimates, moves)
}

/// `moves` is what some tally of `rollouts` samples of the board leads to.
pub open spec fn follows_some_tally(board: &Board, rollouts: usize, moves: Seq<ActionType>) -> bool {
    exists|estimator: Estimator, estimates: Seq<(Point, Probability)>|
        guided_by(board, rollouts, estimator, estimates, moves)
}

/// The automated player: the moves it has decided on and not made yet, and
/// the shortest and the longest time, in milliseconds, that it takes over a
/// move.
pub struct NaiveAI {
    pub move_queue: Vec<ActionType>,
    pub min_move_time: u64,
    pub max_move_time: u64,
}

impl NaiveAI {
    /// A player whose first move is a click on the first cell.
    pub fn new(min_move_time: u64, max_move_time: u64) -> (ai: NaiveAI)
        ensures
            ai.move_queue@ == seq![ActionType::Click(Point(0, 0))],
            ai.min_move_time == min_move_time,
            ai.max_move_time == max_move_time,
    {
        let mut move_queue: Vec<ActionType> = Vec::new();
        move_queue.push(ActionType::Click(Point(0, 0)));
        proof {
            assert(move_queue@ =~= seq![ActionType::Click(Point(0, 0))]);
        }
        NaiveAI { move_queue, min_move_time, max_move_time }
    }

    /// The move that was queued last, taken off the queue.
    pub fn pop_move(&mut self) -> (next: Option<ActionType>)
        ensures
            final(self).min_move_time == old(self).min_move_time,
            final(self).max_move_time == old(self).max_move_time,
            old(self).move_queue.len() == 0 ==> next is None && final(self).move_queue@
                == old(self).move_queue@,
            old(self).move_queue.len() > 0 ==> next == Some(
                old(self).move_queue[old(self).move_queue.len() - 1],
            ) && final(self).move_queue@ == old(self).move_queue@.drop_last(),
    {
        self.move_queue.pop()
    }

    /// How long to wait before a move that took `elapsed` milliseconds to
    /// find is made: what is missing to the shortest time of a move.
    pub fn remaining_delay(&self, elapsed: u64) -> (wait: u64)
        ensures
            wait == if elapsed < self.min_move_time {
                self.min_move_time - elapsed
            } else {
                0
            },
    {
        if elapsed < self.min_move_time {
            self.min_move_time - elapsed
        } else {
            0
        }
    }

    /// The unknown cells that surely hold a mine: next to a revealed cell
    /// whose number is the mines counted around it plus all unknown cells
    /// around it.
    pub fn known_safe_flags(board: &Board) -> (points: Vec<Point>)
        requires
            board.wf(),
        ensures
            points@.no_duplicates(),
            forall|p: Point| #[trigger]
                points@.contains(p) <==> surely_mined(board, board.field.len() as int, p),
    {
        let mut points: Vec<Point> = Vec::new();
        let mut x: usize = 0;
        while x < board.field.len()
            invariant
                board.wf(),
                x <= board.field.len(),
                points@.no_duplicates(),
                forall|p: Point| #[trigger] points@.contains(p) <==> surely_mined(board, x as int, p),
            decreases board.field.len() - x,
        {
            let ghost before = points@;
            let cell = &board.field[x];
            proof {
                board.size.lemma_point_at(x as int);
                board.size.lemma_contained(cell.point);
            }
            if cell.knowledge.is_known() {
                let more = board.known_flaggable_neighbors(&cell.point);
                add_new(&mut points, &more);
            }
            proof {
                assert forall|p: Point| #[trigger]
                    points@.contains(p) <==> surely_mined(board, x + 1, p) by {
                    if surely_mined(board, x as int, p) {
                        let y = choose|y: int|
                            0 <= y < x && (#[trigger] board.field[y]).knowledge is Known
                                && board.flaggable_around(board.field[y].point).contains(p);
                        assert(0 <= y < x + 1);
                    }
                    if surely_mined(board, x + 1, p) {
                        let y = choose|y: int|
                            0 <= y < x + 1 && (#[trigger] board.field[y]).knowledge is Known
                                && board.flaggable_around(board.field[y].point).contains(p);
                        if y < x {
                            assert(surely_mined(board, x as int, p));
                        }
                    }
                    if cell.knowledge is Known && board.flaggable_around(cell.point).contains(p) {
                        assert(board.field[x as int].knowledge is Known);
                    }
                    assert(before.contains(p) <==> surely_mined(board, x as int, p));
                }
            }
            x = x + 1;
        }
        points
    }

    /// The unknown cells that surely hold no mine: next to a revealed cell
    /// whose number is the mines counted around it.
    pub fn known_safe_clicks(board: &Board) -> (points: Vec<Point>)
        requires
            board.wf(),
        ensures
            points@.no_duplicates(),
            forall|p: Point| #[trigger]
                points@.contains(p) <==> surely_safe(board, board.field.len() as int, p),
    {
        let mut points: Vec<Point> = Vec::new();
        let mut x: usize = 0;
        while x < board.field.len()
            invariant
                board.wf(),
                x <= board.field.len(),
                points@.no_duplicates(),
                forall|p: Point| #[trigger] points@.contains(p) <==> surely_safe(board, x as int, p),
            decreases board.field.len() - x,
        {
            let ghost before = points@;
            let cell = &board.field[x];
            proof {
                board.size.lemma_point_at(x as int);
                board.size.lemma_contained(cell.point);
            }
            if cell.knowledge.is_known() {
                let more = board.known_safe_neighbors(&cell.point);
                add_new(&mut points, &more);
            }
            proof {
                assert forall|p: Point| #[trigger]
                    points@.contains(p) <==> surely_safe(board, x + 1, p) by {
                    if surely_safe(board, x as int, p) {
                        let y = choose|y: int|
                            0 <= y < x && (#[trigger] board.field[y]).knowledge is Known
                                && board.safe_around(board.field[y].point).contains(p);
                        assert(0 <= y < x + 1);
                    }
                    if surely_safe(board, x + 1, p) {
                        let y = choose|y: int|
                            0 <= y < x + 1 && (#[trigger] board.field[y]).knowledge is Known
                                && board.safe_around(board.field[y].point).contains(p);
                        if y < x {
                            assert(surely_safe(board, x as int, p));
                        }
                    }
                    if cell.knowledge is Known && board.safe_around(cell.point).contains(p) {
                        assert(board.field[x as int].knowledge is Known);
                    }
                    assert(before.contains(p) <==> surely_safe(board, x as int, p));
                }
            }
            x = x + 1;
        }
        points
    }

    /// The moves that need no guess: flags on the cells that surely hold a
    /// mine; where there is none, clicks on the cells that surely hold none.
    pub fn certain_moves(board: &Board) -> (moves: Vec<ActionType>)
        requires
            board.wf(),
        ensures
            if has_sure_mine(board) {
                flags_all_mined(board, moves@)
            } else {
                clicks_all_safe(board, moves@)
            },
    {
        let safe_flags = NaiveAI::known_safe_flags(board);
        if safe_flags.len() > 0 {
            let mut moves: Vec<ActionType> = Vec::new();
            let mut i: usize = 0;
            while i < safe_flags.len()
                invariant
                    i <= safe_flags.len(),
                    moves.len() == i,
                    forall|j: int| 0 <= j < i ==> #[trigger] moves[j] == ActionType::Flag(safe_flags[j]),
                decreases safe_flags.len() - i,
            {
                moves.push(ActionType::Flag(safe_flags[i]));
                i = i + 1;
            }
            proof {
                assert(safe_flags@.contains(safe_flags[0]));
                assert forall|p: Point| #[trigger]
                    surely_mined(board, board.field.len() as int, p) implies moves@.contains(
                    ActionType::Flag(p),
                ) by {
                    assert(safe_flags@.contains(p));
                    let k = choose|k: int| 0 <= k < safe_flags.len() && safe_flags[k] == p;
                    assert(moves[k] == ActionType::Flag(p));
                }
                assert forall|j: int| 0 <= j < moves.len() implies ((
                #[trigger] moves[j]) matches ActionType::Flag(p) && surely_mined(
                    board,
                    board.field.len() as int,
                    p,
                )) by {
                    assert(safe_flags@.contains(safe_flags[j]));
                }
                assert forall|a: int, b: int|
                    0 <= a < moves.len() && 0 <= b < moves.len() && a != b implies moves[a]
                    != moves[b] by {
                    assert(safe_flags[a] != safe_flags[b]);
                }
            }
            return moves;
        }
        proof {
            if has_sure_mine(board) {
                let p = choose|p: Point| surely_mined(board, board.field.len() as int, p);
                assert(safe_flags@.contains(p));
            }
        }
        let safe_clicks = NaiveAI::known_safe_clicks(board);
        let mut moves: Vec<ActionType> = Vec::new();
        let mut i: usize = 0;
        while i < safe_clicks.len()
            invariant
                i <= safe_clicks.len(),
                moves.len() == i,
                forall|j: int| 0 <= j < i ==> #[trigger] moves[j] == ActionType::Click(safe_clicks[j]),
            decreases safe_clicks.len() - i,
        {
            moves.push(ActionType::Click(safe_clicks[i]));
            i = i + 1;
        }
        proof {
            assert forall|p: Point| #[trigger]
                surely_safe(board, board.field.len() as int, p) implies moves@.contains(
                ActionType::Click(p),
            ) by {
                assert(safe_clicks@.contains(p));
                let k = choose|k: int| 0 <= k < safe_clicks.len() && safe_clicks[k] == p;
                assert(moves[k] == ActionType::Click(p));
            }
            assert forall|j: int| 0 <= j < moves.len() implies ((
            #[trigger] moves[j]) matches ActionType::Click(p) && surely_safe(
                board,
                board.field.len() as int,
                p,
            )) by {
                assert(safe_clicks@.contains(safe_clicks[j]));
            }
            assert forall|a: int, b: int|
                0 <= a < moves.len() && 0 <= b < moves.len() && a != b implies moves[a]
                != moves[b] by {
                assert(safe_clicks[a] != safe_clicks[b]);
            }
        }
        moves
    }

    /// One of the unknown cells of the board, picked at random; `None` where
    /// there is none.
    pub fn get_random_valid_click(board: &Board) -> (point: Option<Point>)
        requires
            board.wf(),
        ensures
            point is None <==> points_passing(board.field@, CellTest::Unknown).len() == 0,
            point matches Some(p) ==> points_passing(board.field@, CellTest::Unknown).contains(p),
    {
        let points = board.get_unknown_points();
        choose_point(&points)
    }

    /// The moves that the estimates lead to: a click on every cell whose
    /// chance of a mine is 0 and a flag on every cell whose chance is 1;
    /// where there is neither, a flag on the first of the likeliest cells;
    /// and where no cell is likely, a flag on an unknown cell picked at
    /// random.
    pub fn moves_from_probabilities(board: &Board, probabilities: &Vec<(Point, Probability)>) -> (moves:
        Vec<ActionType>)
        requires
            board.wf(),
        ensures
            follows_estimates(board, probabilities@, moves@),
    {
        let ghost estimates = probabilities@;
        let mut actions: Vec<ActionType> = Vec::new();
        let mut highest = Probability { hits: 0, rollouts: 1 };
        let mut best_point: Option<Point> = None;
        let ghost mut best: int = -1;
        let mut i: usize = 0;
        while i < probabilities.len()
            invariant
                estimates == probabilities@,
                i <= probabilities.len(),
                actions@ == certain_upto(estimates, i as int),
                best_point is None ==> none_likely(estimates, i as int) && highest == (Probability {
                    hits: 0,
                    rollouts: 1,
                }),
                best_point matches Some(p) ==> is_likeliest(estimates, i as int, best) && p
                    == estimates[best].0 && highest == estimates[best].1,
            decreases probabilities.len() - i,
        {
            let (point, chance) = probabilities[i];
            let ghost old_best = best;
            let ghost old_highest = highest;
            let ghost old_point = best_point;
            if chance.exceeds(&highest) {
                highest = chance;
                best_point = Some(point);
                proof {
                    best = i as int;
                    assert(greater(chance, old_highest));
                    assert(chance.hits > 0) by (nonlinear_arith)
                        requires
                            chance.hits * old_highest.rollouts > old_highest.hits * chance.rollouts,
                            old_highest.hits >= 0,
                            chance.rollouts > 0,
                            old_highest.rollouts > 0,
                            chance.hits >= 0,
                    ;
                    assert forall|j: int|
                        0 <= j < i && (#[trigger] estimates[j]).1.rollouts > 0 implies greater(
                        chance,
                        estimates[j].1,
                    ) by {
                        match old_point {
                            None => {
                                assert(!(estimates[j].1.rollouts > 0 && estimates[j].1.hits > 0));
                                assert(chance.hits * estimates[j].1.rollouts > 0) by (nonlinear_arith)
                                    requires
                                        chance.hits > 0,
                                        estimates[j].1.rollouts > 0,
                                ;
                                assert(estimates[j].1.hits * chance.rollouts == 0) by (nonlinear_arith)
                                    requires
                                        estimates[j].1.hits == 0,
                                ;
                            },
                            Some(_) => {
                                if j < old_best {
                                    assert(greater(estimates[old_best].1, estimates[j].1));
                                    assert(!greater(estimates[j].1, estimates[old_best].1))
                                        by (nonlinear_arith)
                                        requires
                                            greater(estimates[old_best].1, estimates[j].1),
                                    ;
                                    lemma_greater_chain(chance, estimates[old_best].1, estimates[j].1);
                                } else if j > old_best {
                                    lemma_greater_chain(chance, estimates[old_best].1, estimates[j].1);
                                }
                            },
                        }
                    }
                }
            } else {
                proof {
                    match old_point {
                        None => {
                            assert(!(chance.rollouts > 0 && chance.hits > 0)) by (nonlinear_arith)
                                requires
                                    !(chance.rollouts > 0 && 1 > 0 && chance.hits * 1 > 0
                                        * chance.rollouts),
                            ;
                        },
                        Some(_) => {},
                    }
                }
            }
            if chance.is_zero() {
                actions.push(ActionType::Click(point));
            }
            if chance.is_one() {
                actions.push(ActionType::Flag(point));
            }
            i = i + 1;
        }
        if actions.len() > 0 {
            return actions;
        }
        let ghost n = estimates.len() as int;
        let best_point = match best_point {
            Some(point) => Some(point),
            None => {
                proof {
                    if exists|b: int| is_likeliest(estimates, n, b) {
                        let b = choose|b: int| is_likeliest(estimates, n, b);
                        assert(!(estimates[b].1.rollouts > 0 && estimates[b].1.hits > 0));
                    }
                }
                NaiveAI::get_random_valid_click(board)
            },
        };
        match best_point {
            Some(point) => {
                actions.push(ActionType::Flag(point));
                proof {
                    assert(actions@ =~= seq![ActionType::Flag(point)]);
                }
            },
            None => {},
        }
        actions
    }

    /// The moves to make next: the certain ones where there are any;
    /// otherwise those that the estimate from `rollouts` samples of the
    /// border leads to. An error where the board admits no sample.
    pub fn generate_next_moves(&self, board: &Board, rollouts: usize, seed: u64) -> (moves: Result<
        Vec<ActionType>,
        SolveError,
    >)
        requires
            board.wf(),
        ensures
            moves matches Ok(actions) ==> (has_sure_mine(board) ==> flags_all_mined(board, actions@)),
            moves matches Ok(actions) ==> (!has_sure_mine(board) && has_sure_safe(board)
                ==> clicks_all_safe(board, actions@)),
            moves matches Ok(actions) ==> (!has_sure_mine(board) && !has_sure_safe(board)
                ==> follows_some_tally(board, rollouts, actions@)),
            moves matches Err(e) ==> rollouts > 0 && !has_sure_mine(board) && !has_sure_safe(board),
            moves matches Err(SolveError::EncodingInconsistency) ==> !encodable(board),
            moves matches Err(SolveError::SearchExhausted) ==> encodable(board) && forall|
                pairs: Seq<(Point, bool)>,
            |
                !is_sample(board, pairs),
    {
        let certain = NaiveAI::certain_moves(board);
        if certain.len() > 0 {
            proof {
                if !has_sure_mine(board) {
                    let first = certain@[0];
                    assert(first is Click);
                    let p = first->Click_0;
                    assert(surely_safe(board, board.field.len() as int, p));
                    assert(has_sure_safe(board));
                }
            }
            return Ok(certain);
        }
        proof {
            assert(!has_sure_mine(board)) by {
                if has_sure_mine(board) {
                    let p = choose|p: Point| surely_mined(board, board.field.len() as int, p);
                    assert(surely_mined(board, board.field.len() as int, p));
                    assert(certain@.contains(ActionType::Flag(p)));
                }
            }
            assert(!has_sure_safe(board)) by {
                if has_sure_safe(board) {
                    let p = choose|p: Point| surely_safe(board, board.field.len() as int, p);
                    assert(surely_safe(board, board.field.len() as int, p));
                    assert(certain@.contains(ActionType::Click(p)));
                }
            }
        }
        let estimator = match run_rollouts(board, rollouts, seed) {
            Err(e) => {
                return Err(e);
            },
            Ok(estimator) => estimator,
        };
        let border_points = board.get_border_points();
        let probabilities = estimator.probabilities(&border_points);
        let actions = NaiveAI::moves_from_probabilities(board, &probabilities);
        proof {
            let estimates = probabilities@;
            assert(guided_by(board, rollouts, estimator, estimates, actions@));
            assert(follows_some_tally(board, rollouts, actions@));
        }
        Ok(actions)
    }
}

} // verus!
