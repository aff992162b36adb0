//! Minesweeper with an automated player that estimates, by sampling solutions
//! of a constraint problem, where the mines are.

use crate::board::chord_cells;
use crate::board::chord_hits;
use crate::board::clicked;
use crate::board::first_chord;
use crate::board::first_click;
use crate::board::neighbors;
use crate::board::room;
use crate::board::Board;
use crate::board::Cell;
use crate::board::KnowledgeState;
use crate::board::Point;
use vstd::prelude::*;

pub mod ai;
pub mod board;
pub mod constraint;
pub mod interaction;
pub mod random;
pub mod text;

verus! {

/// A move of the player, with the cell that it is made on.
#[derive(Debug, Clone, Copy)]
pub enum ActionType {
    /// Reveal the cell.
    Click(Point),
    /// Reveal the cells around a revealed cell whose mines are all marked.
    Chord(Point),
    /// Flag the cells around a revealed cell where all of them must be mines.
    Complete(Point),
    /// Set or take off the flag of the cell.
    Flag(Point),
}

/// Whoever decides on the next move of a game.
pub trait Agent {
    /// The move to make on `board`.
    fn generate_move(&mut self, board: &Board) -> ActionType;
}

impl ActionType {
    /// The cell that the move is made on.
    pub open spec fn target(self) -> Point {
        match self {
            ActionType::Click(p) => p,
            ActionType::Chord(p) => p,
            ActionType::Complete(p) => p,
            ActionType::Flag(p) => p,
        }
    }

    /// The cell that the move is made on.
    pub fn point(&self) -> (point: Point)
        ensures
            point == self.target(),
    {
        match self {
            ActionType::Click(p) => *p,
            ActionType::Chord(p) => *p,
            ActionType::Complete(p) => *p,
            ActionType::Flag(p) => *p,
        }
    }
}

/// The move can be made on the board: the board keeps a cell for its point,
/// and where the move may be the first click of the game, enough cells lie
/// far enough from the click for the mines.
pub open spec fn playable(board: &Board, action: ActionType) -> bool {
    &&& board.wf()
    &&& board.size.holds(action.target())
    &&& action is Click ==> board.initialized || room(board.size, action.target(), 2)
        >= board.mine_count
    &&& action is Chord ==> board.initialized || !board.chords_at(action.target()) || forall|
        q: Point,
    | #[trigger]
        neighbors(board.size, action.target()).contains(q) ==> room(board.size, q, 2)
            >= board.mine_count
}

/// Whether the move can be made on the board.
pub fn can_play(board: &Board, action: &ActionType) -> (ok: bool)
    requires
        board.wf(),
    ensures
        ok == playable(board, *action),
{
    let point = action.point();
    if !board.has_cell(&point) {
        return false;
    }
    match action {
        ActionType::Click(_) => board.initialized || board.has_room(&point),
        ActionType::Chord(_) => {
            if board.initialized {
                return true;
            }
            let cell = board.retrieve_cell(&point);
            if !cell.knowledge.is_known() || board.count_assumed_mined_neighbors(&point)
                != cell.mined_neighbor_count {
                return true;
            }
            let around = board.neighbor_points(&point);
            let mut j: usize = 0;
            while j < around.len()
                invariant
                    board.wf(),
                    point == action.target(),
                    *action is Chord,
                    !board.initialized,
                    board.chords_at(point),
                    board.size.holds(point),
                    around@ == neighbors(board.size, point),
                    j <= around.len(),
                    forall|i: int|
                        0 <= i < j ==> room(board.size, #[trigger] around[i], 2) >= board.mine_count,
                decreases around.len() - j,
            {
                if !board.has_room(&around[j]) {
                    proof {
                        let q = around[j as int];
                        assert(around@.contains(q));
                        assert(neighbors(board.size, action.target()).contains(q));
                        assert(!(room(board.size, q, 2) >= board.mine_count));
                        assert(!playable(board, *action));
                    }
                    return false;
                }
                j = j + 1;
            }
            proof {
                assert forall|q: Point| #[trigger] around@.contains(q) implies room(board.size, q, 2)
                    >= board.mine_count by {
                    let i = choose|i: int| 0 <= i < around@.len() && around@[i] == q;
                    assert(room(board.size, around[i], 2) >= board.mine_count);
                }
            }
            true
        },
        _ => true,
    }
}

/// Makes the move on the board. The result is the number of mines that the
/// move revealed: the game is lost where it is not 0.
pub fn play(board: &mut Board, action: &ActionType) -> (mines: usize)
    requires
        playable(old(board), *action),
    ensures
        final(board).wf(),
        final(board).size == old(board).size,
        final(board).mine_count == old(board).mine_count,
        match *action {
            ActionType::Click(p) => {
                &&& final(board).initialized
                &&& old(board).initialized ==> clicked(
                    old(board).field@,
                    old(board).size,
                    p,
                    final(board).field@,
                    mines as nat,
                )
                &&& !old(board).initialized ==> first_click(
                    old(board).field@,
                    old(board).size,
                    old(board).mine_count,
                    p,
                    final(board).field@,
                    mines as nat,
                )
            },
            ActionType::Flag(p) => {
                &&& mines == 0
                &&& final(board).initialized == old(board).initialized
                &&& final(board).field@ == old(board).field@.update(
                    old(board).size.number_of(p),
                    Cell {
                        knowledge: match old(board).cell_at(p).knowledge {
                            KnowledgeState::Known => KnowledgeState::Known,
                            KnowledgeState::Flag => KnowledgeState::Unknown,
                            KnowledgeState::Unknown => KnowledgeState::Flag,
                        },
                        ..old(board).cell_at(p)
                    },
                )
            },
            ActionType::Complete(p) => {
                &&& mines == 0
                &&& final(board).initialized == old(board).initialized
                &&& final(board).field@ == old(board).flagged_around(p)
            },
            ActionType::Chord(p) => {
                &&& !old(board).chords_at(p) ==> mines == 0 && final(board).field@ == old(
                    board,
                ).field@ && final(board).initialized == old(board).initialized
                &&& old(board).chords_at(p) && !old(board).initialized ==> if neighbors(
                    old(board).size,
                    p,
                ).len() == 0 {
                    mines == 0 && final(board).field@ == old(board).field@
                        && !final(board).initialized
                } else {
                    final(board).initialized && first_chord(
                        old(board).field@,
                        old(board).size,
                        old(board).mine_count,
                        neighbors(old(board).size, p),
                        final(board).field@,
                        mines as nat,
                    )
                }
                &&& old(board).chords_at(p) && old(board).initialized ==> final(board).initialized
                    && final(board).field@ == chord_cells(
                    old(board).field@,
                    old(board).size,
                    neighbors(old(board).size, p),
                    neighbors(old(board).size, p).len() as int,
                ) && mines == chord_hits(
                    old(board).field@,
                    old(board).size,
                    neighbors(old(board).size, p),
                    neighbors(old(board).size, p).len() as int,
                )
            },
        },
{
    match action {
        ActionType::Click(point) => board.probe(point),
        ActionType::Flag(point) => {
            board.toggle_flag(point);
            0
        },
        ActionType::Complete(point) => {
            board.flag_neighbors(point);
            0
        },
        ActionType::Chord(point) => board.chord(point),
    }
}

} // verus!
